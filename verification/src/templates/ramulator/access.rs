use vstd::prelude::*;

use super::address::ByteAddress;

verus! {

/// One 64-byte memory chunk: the bit patterns of 32 half-precision values;
/// or, as the memory model stores them, one coordinate or segment entry, or
/// the bit pattern of one 32-bit floating-point value.
#[derive(Clone, Copy, Debug, PartialEq, Eq)]
pub enum MemoryData {
    F16([u16; 32]),
    U32(u32),
    F32Bits(u32),
}

impl MemoryData {
    /// Bytes a chunk takes on a channel.
    pub fn dam_size(&self) -> (r: usize)
        ensures
            r == 64,
    {
        64
    }
}

impl Default for MemoryData {
    /// Thirty-two half-precision zeros.
    fn default() -> (r: Self)
        ensures
            r matches MemoryData::F16(a) && a@ == Seq::new(32, |i: int| 0u16),
    {
        MemoryData::F16([0u16; 32])
    }
}

/// What a memory access tells about itself.
pub trait AccessLike {
    spec fn spec_addr(&self) -> ByteAddress;

    spec fn spec_is_write(&self) -> bool;

    spec fn spec_bundle_index(&self) -> usize;

    fn mark_resolved(&mut self)
        ensures
            final(self).spec_addr() == old(self).spec_addr(),
            final(self).spec_is_write() == old(self).spec_is_write(),
            final(self).spec_bundle_index() == old(self).spec_bundle_index(),
    ;

    fn get_addr(&self) -> (r: ByteAddress)
        ensures
            r == self.spec_addr(),
    ;

    fn is_write(&self) -> (r: bool)
        ensures
            r == self.spec_is_write(),
    ;

    fn bundle_index(&self) -> (r: usize)
        ensures
            r == self.spec_bundle_index(),
    ;

    fn num_chunks(&self) -> (r: u64)
        ensures
            r == 1,
    ;
}

/// A read of one chunk at `base`, issued for bundle `bundle_index`.
#[derive(Clone, Copy, Debug, PartialEq, Eq)]
pub struct SimpleRead {
    pub base: ByteAddress,
    pub bundle_index: usize,
}

impl SimpleRead {
    pub fn new(base: ByteAddress, bundle_index: usize) -> (r: Self)
        ensures
            r.base == base,
            r.bundle_index == bundle_index,
    {
        SimpleRead { base, bundle_index }
    }

    /// Marks the read as answered; a simple read keeps no such state.
    pub fn mark_resolved_read(&mut self)
        ensures
            *final(self) == *old(self),
    {
    }
}

impl AccessLike for SimpleRead {
    open spec fn spec_addr(&self) -> ByteAddress {
        self.base
    }

    open spec fn spec_is_write(&self) -> bool {
        false
    }

    open spec fn spec_bundle_index(&self) -> usize {
        self.bundle_index
    }

    fn mark_resolved(&mut self) {
    }

    fn get_addr(&self) -> (r: ByteAddress) {
        self.base
    }

    fn is_write(&self) -> (r: bool) {
        false
    }

    fn bundle_index(&self) -> (r: usize) {
        self.bundle_index
    }

    fn num_chunks(&self) -> (r: u64) {
        1
    }
}

/// The reads a memory model serves.
#[derive(Clone, Copy, Debug, PartialEq, Eq)]
pub enum Read {
    SimpleRead(SimpleRead),
}

impl AccessLike for Read {
    open spec fn spec_addr(&self) -> ByteAddress {
        match self {
            Read::SimpleRead(r) => r.base,
        }
    }

    open spec fn spec_is_write(&self) -> bool {
        false
    }

    open spec fn spec_bundle_index(&self) -> usize {
        match self {
            Read::SimpleRead(r) => r.bundle_index,
        }
    }

    fn mark_resolved(&mut self) {
    }

    fn get_addr(&self) -> (r: ByteAddress) {
        match self {
            Read::SimpleRead(r) => r.get_addr(),
        }
    }

    fn is_write(&self) -> (r: bool) {
        match self {
            Read::SimpleRead(r) => r.is_write(),
        }
    }

    fn bundle_index(&self) -> (r: usize) {
        match self {
            Read::SimpleRead(r) => r.bundle_index(),
        }
    }

    fn num_chunks(&self) -> (r: u64) {
        match self {
            Read::SimpleRead(r) => r.num_chunks(),
        }
    }
}


/// A write of one chunk `payload` at `base`, issued for bundle
/// `bundle_index`.
#[derive(Clone, Copy, Debug, PartialEq, Eq)]
pub struct SimpleWrite {
    pub base: ByteAddress,
    pub payload: MemoryData,
    pub bundle_index: usize,
}

impl SimpleWrite {
    pub fn new(base: ByteAddress, payload: MemoryData, bundle_index: usize) -> (r: Self)
        ensures
            r.base == base,
            r.payload == payload,
            r.bundle_index == bundle_index,
    {
        SimpleWrite { base, payload, bundle_index }
    }
}

impl AccessLike for SimpleWrite {
    open spec fn spec_addr(&self) -> ByteAddress {
        self.base
    }

    open spec fn spec_is_write(&self) -> bool {
        true
    }

    open spec fn spec_bundle_index(&self) -> usize {
        self.bundle_index
    }

    fn mark_resolved(&mut self) {
    }

    fn get_addr(&self) -> (r: ByteAddress) {
        self.base
    }

    fn is_write(&self) -> (r: bool) {
        true
    }

    fn bundle_index(&self) -> (r: usize) {
        self.bundle_index
    }

    fn num_chunks(&self) -> (r: u64) {
        1
    }
}

/// A memory access: a read or a write.
#[derive(Clone, Copy, Debug, PartialEq, Eq)]
pub enum Access {
    SimpleRead(SimpleRead),
    SimpleWrite(SimpleWrite),
}

impl AccessLike for Access {
    open spec fn spec_addr(&self) -> ByteAddress {
        match self {
            Access::SimpleRead(r) => r.base,
            Access::SimpleWrite(w) => w.base,
        }
    }

    open spec fn spec_is_write(&self) -> bool {
        self is SimpleWrite
    }

    open spec fn spec_bundle_index(&self) -> usize {
        match self {
            Access::SimpleRead(r) => r.bundle_index,
            Access::SimpleWrite(w) => w.bundle_index,
        }
    }

    fn mark_resolved(&mut self) {
    }

    fn get_addr(&self) -> (r: ByteAddress) {
        match self {
            Access::SimpleRead(r) => r.get_addr(),
            Access::SimpleWrite(w) => w.get_addr(),
        }
    }

    fn is_write(&self) -> (r: bool) {
        match self {
            Access::SimpleRead(r) => r.is_write(),
            Access::SimpleWrite(w) => w.is_write(),
        }
    }

    fn bundle_index(&self) -> (r: usize) {
        match self {
            Access::SimpleRead(r) => r.bundle_index(),
            Access::SimpleWrite(w) => w.bundle_index(),
        }
    }

    fn num_chunks(&self) -> (r: u64) {
        match self {
            Access::SimpleRead(r) => r.num_chunks(),
            Access::SimpleWrite(w) => w.num_chunks(),
        }
    }
}

} // verus!
