use vstd::prelude::*;

use super::primitive::Token;
use super::stkn_dropper::DropStatus;

verus! {

/// The value dropper on lockstep value and coordinate streams, from state
/// `prev_stkn`; `zero[k]` tells whether the value at position `k` is the
/// zero value.  Zero values are dropped with their coordinates; a pair of
/// stop tokens passes unless the previous pair passed was a stop pair, in
/// which case it is dropped once; done tokens pass and end the streams.
pub open spec fn val_drop_run<V, C>(
    prev_stkn: bool,
    vals: Seq<Token<V, u32>>,
    crds: Seq<Token<C, u32>>,
    zero: Seq<bool>,
    i: nat,
) -> (Seq<Token<V, u32>>, Seq<Token<C, u32>>, DropStatus)
    decreases vals.len() - i,
{
    if i >= vals.len() || i >= crds.len() || i >= zero.len() {
        (seq![], seq![], DropStatus::Exhausted)
    } else {
        match (vals[i as int], crds[i as int]) {
            (Token::Val(v), Token::Val(c)) => {
                let (rv, rc, st) = val_drop_run(prev_stkn, vals, crds, zero, i + 1);
                if !zero[i as int] {
                    (seq![Token::Val(v)] + rv, seq![Token::Val(c)] + rc, st)
                } else {
                    (rv, rc, st)
                }
            },
            (Token::Stop(a), Token::Stop(b)) => if prev_stkn {
                val_drop_run(false, vals, crds, zero, i + 1)
            } else {
                let (rv, rc, st) = val_drop_run(true, vals, crds, zero, i + 1);
                (seq![Token::Stop(a)] + rv, seq![Token::Stop(b)] + rc, st)
            },
            (Token::Done, Token::Done) => (seq![Token::Done], seq![Token::Done], DropStatus::Finished),
            _ => (seq![], seq![], DropStatus::Fault),
        }
    }
}

/// Drops zero values, with their coordinates, from a value stream.
pub struct ValDrop;

impl ValDrop {
    pub fn new() -> Self {
        ValDrop
    }

    /// Runs the dropper over whole streams; `is_zero[k]` says whether the
    /// value at position `k` equals the value type's zero.
    pub fn run<V: Copy, C: Copy>(
        &self,
        in_val: &Vec<Token<V, u32>>,
        in_crd: &Vec<Token<C, u32>>,
        is_zero: &Vec<bool>,
    ) -> (r: (Vec<Token<V, u32>>, Vec<Token<C, u32>>, DropStatus))
        ensures
            (r.0@, r.1@, r.2) == val_drop_run(false, in_val@, in_crd@, is_zero@, 0),
    {
        let mut out_val: Vec<Token<V, u32>> = Vec::new();
        let mut out_crd: Vec<Token<C, u32>> = Vec::new();
        let ghost total = val_drop_run(false, in_val@, in_crd@, is_zero@, 0);
        let mut prev_stkn = false;
        let mut i: usize = 0;
        while i < in_val.len() && i < in_crd.len() && i < is_zero.len()
            invariant
                i <= in_val.len(),
                total == val_drop_run(false, in_val@, in_crd@, is_zero@, 0),
                ({
                    let (rv, rc, st) = val_drop_run(prev_stkn, in_val@, in_crd@, is_zero@, i as nat);
                    total.0 == out_val@ + rv && total.1 == out_crd@ + rc && total.2 == st
                }),
            decreases in_val.len() - i,
        {
            let ghost ov = out_val@;
            let ghost oc = out_crd@;
            match (in_val[i], in_crd[i]) {
                (Token::Val(v), Token::Val(c)) => {
                    if !is_zero[i] {
                        out_val.push(Token::Val(v));
                        out_crd.push(Token::Val(c));
                    }
                },
                (Token::Stop(a), Token::Stop(b)) => {
                    if prev_stkn {
                        prev_stkn = false;
                    } else {
                        out_val.push(Token::Stop(a));
                        out_crd.push(Token::Stop(b));
                        prev_stkn = true;
                    }
                },
                (Token::Done, Token::Done) => {
                    out_val.push(Token::Done);
                    out_crd.push(Token::Done);
                    assert(total.0 =~= out_val@);
                    assert(total.1 =~= out_crd@);
                    return (out_val, out_crd, DropStatus::Finished);
                },
                _ => {
                    assert(total.0 =~= out_val@);
                    assert(total.1 =~= out_crd@);
                    return (out_val, out_crd, DropStatus::Fault);
                },
            }
            i = i + 1;
            proof {
                let (rv, rc, st) = val_drop_run(prev_stkn, in_val@, in_crd@, is_zero@, i as nat);
                if out_val@.len() > ov.len() {
                    assert(ov + (seq![out_val@.last()] + rv) =~= out_val@ + rv);
                    assert(oc + (seq![out_crd@.last()] + rc) =~= out_crd@ + rc);
                }
            }
        }
        assert(total.0 =~= out_val@);
        assert(total.1 =~= out_crd@);
        (out_val, out_crd, DropStatus::Exhausted)
    }
}

} // verus!
