use vstd::prelude::*;

verus! {

/// An address counted in memory chunks.
#[derive(Clone, Copy, Debug, PartialEq, Eq)]
pub struct ChunkAddress(pub u64);

/// An address counted in bytes.
#[derive(Clone, Copy, Debug, PartialEq, Eq, Hash)]
pub struct ByteAddress(pub u64);

impl ByteAddress {
    /// The chunk holding this byte when chunks are `bytes_per_chunk` long.
    pub fn to_chunk(&self, bytes_per_chunk: u64) -> (r: ChunkAddress)
        requires
            bytes_per_chunk > 0,
        ensures
            r.0 == self.0 / bytes_per_chunk,
    {
        ChunkAddress(self.0 / bytes_per_chunk)
    }

    pub fn from_u64(value: u64) -> (r: Self)
        ensures
            r.0 == value,
    {
        ByteAddress(value)
    }

    /// The byte address `rhs` bytes further on.
    pub fn add(self, rhs: u64) -> (r: Self)
        requires
            self.0 + rhs <= u64::MAX,
        ensures
            r.0 == self.0 + rhs,
    {
        ByteAddress(self.0 + rhs)
    }
}

impl ChunkAddress {
    pub fn from_u64(value: u64) -> (r: Self)
        ensures
            r.0 == value,
    {
        ChunkAddress(value)
    }

    /// The chunk address `rhs` chunks further on.
    pub fn add(self, rhs: u64) -> (r: Self)
        requires
            self.0 + rhs <= u64::MAX,
        ensures
            r.0 == self.0 + rhs,
    {
        ChunkAddress(self.0 + rhs)
    }
}

/// Law: the byte at address `a` lies in the chunk that `to_chunk` names:
/// the chunk starts at or before it and the next chunk starts after it.
pub proof fn lemma_byte_in_its_chunk(a: u64, bytes_per_chunk: u64)
    requires
        bytes_per_chunk > 0,
    ensures
        (a / bytes_per_chunk) * bytes_per_chunk <= a < (a / bytes_per_chunk + 1) * bytes_per_chunk,
{
    assert((a / bytes_per_chunk) * bytes_per_chunk <= a < (a / bytes_per_chunk + 1) * bytes_per_chunk) by (nonlinear_arith)
        requires
            bytes_per_chunk > 0,
    ;
}

} // verus!
