use vstd::prelude::*;

verus! {

/// The identifier of a stream of a graph description.
#[derive(Clone, Debug, PartialEq, Eq)]
pub struct StreamId {
    pub id: u64,
}

/// A coordinate stream of a graph description.
#[derive(Clone, Debug, PartialEq, Eq)]
pub struct CrdStream {
    pub id: Option<StreamId>,
}

/// A reference stream of a graph description.
#[derive(Clone, Debug, PartialEq, Eq)]
pub struct RefStream {
    pub id: Option<StreamId>,
}

/// A value stream of a graph description.
#[derive(Clone, Debug, PartialEq, Eq)]
pub struct ValStream {
    pub id: Option<StreamId>,
}

/// A repeat-signal stream of a graph description.
#[derive(Clone, Debug, PartialEq, Eq)]
pub struct RepSigStream {
    pub id: Option<StreamId>,
}

} // verus!
