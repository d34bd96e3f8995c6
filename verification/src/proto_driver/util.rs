use vstd::prelude::*;

use super::proto_headers::{CrdStream, RefStream, RepSigStream, ValStream};

verus! {

/// Something that names a stream by its numeric identifier.
pub trait AsStreamID {
    /// The identifier can be read (an absent stream reads as 0; a present
    /// stream must carry an identifier).
    spec fn has_id(&self) -> bool;

    spec fn stream_id(&self) -> u64;

    fn try_conv(&self) -> (r: u64)
        requires
            self.has_id(),
        ensures
            r == self.stream_id(),
    ;
}

impl AsStreamID for ValStream {
    open spec fn has_id(&self) -> bool {
        self.id is Some
    }

    open spec fn stream_id(&self) -> u64 {
        self.id->0.id
    }

    fn try_conv(&self) -> (r: u64) {
        self.id.as_ref().unwrap().id
    }
}

impl AsStreamID for CrdStream {
    open spec fn has_id(&self) -> bool {
        self.id is Some
    }

    open spec fn stream_id(&self) -> u64 {
        self.id->0.id
    }

    fn try_conv(&self) -> (r: u64) {
        self.id.as_ref().unwrap().id
    }
}

impl AsStreamID for RefStream {
    open spec fn has_id(&self) -> bool {
        self.id is Some
    }

    open spec fn stream_id(&self) -> u64 {
        self.id->0.id
    }

    fn try_conv(&self) -> (r: u64) {
        self.id.as_ref().unwrap().id
    }
}

impl AsStreamID for RepSigStream {
    open spec fn has_id(&self) -> bool {
        self.id is Some
    }

    open spec fn stream_id(&self) -> u64 {
        self.id->0.id
    }

    fn try_conv(&self) -> (r: u64) {
        self.id.as_ref().unwrap().id
    }
}

impl AsStreamID for Option<ValStream> {
    open spec fn has_id(&self) -> bool {
        self is Some ==> self->0.id is Some
    }

    open spec fn stream_id(&self) -> u64 {
        match self {
            Some(s) => s.id->0.id,
            None => 0,
        }
    }

    fn try_conv(&self) -> (r: u64) {
        match self {
            Some(stuff) => stuff.try_conv(),
            None => 0,
        }
    }
}

impl AsStreamID for Option<CrdStream> {
    open spec fn has_id(&self) -> bool {
        self is Some ==> self->0.id is Some
    }

    open spec fn stream_id(&self) -> u64 {
        match self {
            Some(s) => s.id->0.id,
            None => 0,
        }
    }

    fn try_conv(&self) -> (r: u64) {
        match self {
            Some(stuff) => stuff.try_conv(),
            None => 0,
        }
    }
}

impl AsStreamID for Option<RefStream> {
    open spec fn has_id(&self) -> bool {
        self is Some ==> self->0.id is Some
    }

    open spec fn stream_id(&self) -> u64 {
        match self {
            Some(s) => s.id->0.id,
            None => 0,
        }
    }

    fn try_conv(&self) -> (r: u64) {
        match self {
            Some(stuff) => stuff.try_conv(),
            None => 0,
        }
    }
}

impl AsStreamID for Option<RepSigStream> {
    open spec fn has_id(&self) -> bool {
        self is Some ==> self->0.id is Some
    }

    open spec fn stream_id(&self) -> u64 {
        match self {
            Some(s) => s.id->0.id,
            None => 0,
        }
    }

    fn try_conv(&self) -> (r: u64) {
        match self {
            Some(stuff) => stuff.try_conv(),
            None => 0,
        }
    }
}

/// The identifier of an optional coordinate stream (0 when absent).
pub fn get_crd_id(stream: &Option<CrdStream>) -> (r: u64)
    requires
        stream is Some ==> stream->0.id is Some,
    ensures
        r == match stream {
            Some(s) => s.id->0.id,
            None => 0,
        },
{
    stream.try_conv()
}

/// The identifier of an optional reference stream (0 when absent).
pub fn get_ref_id(stream: &Option<RefStream>) -> (r: u64)
    requires
        stream is Some ==> stream->0.id is Some,
    ensures
        r == match stream {
            Some(s) => s.id->0.id,
            None => 0,
        },
{
    stream.try_conv()
}

/// The identifier of an optional value stream (0 when absent).
pub fn get_val_id(stream: &Option<ValStream>) -> (r: u64)
    requires
        stream is Some ==> stream->0.id is Some,
    ensures
        r == match stream {
            Some(s) => s.id->0.id,
            None => 0,
        },
{
    stream.try_conv()
}

/// The identifier of an optional repeat-signal stream (0 when absent).
pub fn get_repsig_id(stream: &Option<RepSigStream>) -> (r: u64)
    requires
        stream is Some ==> stream->0.id is Some,
    ensures
        r == match stream {
            Some(s) => s.id->0.id,
            None => 0,
        },
{
    stream.try_conv()
}

} // verus!
