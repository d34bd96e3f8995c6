use vstd::prelude::*;

use super::primitive::Token;
use super::stkn_dropper::DropStatus;

verus! {

/// The iterate-locate step on a reference and a coordinate stream taken in
/// pairs from position `i`: each pair emits the coordinate as the first
/// reference, the reference as the second reference and the coordinate as
/// the coordinate; the pair whose reference is the done token is the last.
pub open spec fn locate_run<V>(in_ref: Seq<Token<V, u32>>, in_crd: Seq<Token<V, u32>>, i: nat) -> (
    Seq<Token<V, u32>>,
    Seq<Token<V, u32>>,
    Seq<Token<V, u32>>,
    DropStatus,
)
    decreases in_ref.len() - i,
{
    if i >= in_ref.len() || i >= in_crd.len() {
        (seq![], seq![], seq![], DropStatus::Exhausted)
    } else {
        let r = in_ref[i as int];
        let c = in_crd[i as int];
        if r is Done {
            (seq![c], seq![r], seq![c], DropStatus::Finished)
        } else {
            let (r1, r2, rc, st) = locate_run(in_ref, in_crd, i + 1);
            (seq![c] + r1, seq![r] + r2, seq![c] + rc, st)
        }
    }
}

/// Locates coordinates of one tensor in another by iterating: the
/// coordinate stream doubles as the reference into the located tensor.
pub struct IterateLocate;

impl IterateLocate {
    pub fn new() -> Self {
        IterateLocate
    }

    /// Returns the first reference stream, the second reference stream, the
    /// coordinate stream and the status.
    pub fn run<V: Copy>(&self, in_ref: &Vec<Token<V, u32>>, in_crd: &Vec<Token<V, u32>>) -> (r: (
        Vec<Token<V, u32>>,
        Vec<Token<V, u32>>,
        Vec<Token<V, u32>>,
        DropStatus,
    ))
        ensures
            (r.0@, r.1@, r.2@, r.3) == locate_run(in_ref@, in_crd@, 0),
    {
        let ghost total = locate_run(in_ref@, in_crd@, 0);
        let mut out_ref1: Vec<Token<V, u32>> = Vec::new();
        let mut out_ref2: Vec<Token<V, u32>> = Vec::new();
        let mut out_crd: Vec<Token<V, u32>> = Vec::new();
        let mut i: usize = 0;
        while i < in_ref.len() && i < in_crd.len()
            invariant
                i <= in_ref.len(),
                total == locate_run(in_ref@, in_crd@, 0),
                ({
                    let (r1, r2, rc, st) = locate_run(in_ref@, in_crd@, i as nat);
                    total.0 == out_ref1@ + r1 && total.1 == out_ref2@ + r2 && total.2 == out_crd@ + rc && total.3 == st
                }),
            decreases in_ref.len() - i,
        {
            let ghost o1 = out_ref1@;
            let ghost o2 = out_ref2@;
            let ghost oc = out_crd@;
            let r = in_ref[i];
            let c = in_crd[i];
            out_ref1.push(c);
            out_ref2.push(r);
            out_crd.push(c);
            if let Token::Done = r {
                assert(total.0 =~= out_ref1@ && total.1 =~= out_ref2@ && total.2 =~= out_crd@);
                return (out_ref1, out_ref2, out_crd, DropStatus::Finished);
            }
            i = i + 1;
            proof {
                let (r1, r2, rc, st) = locate_run(in_ref@, in_crd@, i as nat);
                assert(o1 + (seq![c] + r1) =~= out_ref1@ + r1);
                assert(o2 + (seq![r] + r2) =~= out_ref2@ + r2);
                assert(oc + (seq![c] + rc) =~= out_crd@ + rc);
            }
        }
        assert(total.0 =~= out_ref1@ && total.1 =~= out_ref2@ && total.2 =~= out_crd@);
        (out_ref1, out_ref2, out_crd, DropStatus::Exhausted)
    }
}

} // verus!
