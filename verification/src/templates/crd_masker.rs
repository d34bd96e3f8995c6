use vstd::prelude::*;

use super::primitive::Token;
use super::stkn_dropper::DropStatus;

verus! {

pub type Crd = Token<u32, u32>;

/// A rule deciding, from the current outer coordinate token and an inner
/// coordinate token, whether the inner coordinate is masked out.
pub trait MaskPredicate {
    spec fn masks(&self, outer: Crd, inner: Crd) -> bool;

    fn test(&self, outer: Crd, inner: Crd) -> (r: bool)
        ensures
            r == self.masks(outer, inner),
    ;
}

/// The position of a token's kind in the token order: payloads, then stop
/// tokens, then the empty marker, then the done token.
pub open spec fn kind_rank(t: Crd) -> int {
    match t {
        Token::Val(_) => 0,
        Token::Stop(_) => 1,
        Token::Empty => 2,
        Token::Done => 3,
    }
}

/// `a` comes after `b` in the token order: by kind, then by payload or level.
pub open spec fn token_after(a: Crd, b: Crd) -> bool {
    if kind_rank(a) != kind_rank(b) {
        kind_rank(a) > kind_rank(b)
    } else {
        match (a, b) {
            (Token::Val(x), Token::Val(y)) => x > y,
            (Token::Stop(x), Token::Stop(y)) => x > y,
            _ => false,
        }
    }
}

fn rank(t: Crd) -> (r: u8)
    ensures
        r == kind_rank(t),
{
    match t {
        Token::Val(_) => 0,
        Token::Stop(_) => 1,
        Token::Empty => 2,
        Token::Done => 3,
    }
}

/// Masks the inner coordinates that come before the outer coordinate (the
/// part strictly below the diagonal of a square matrix).
pub struct BelowDiagonal;

impl MaskPredicate for BelowDiagonal {
    open spec fn masks(&self, outer: Crd, inner: Crd) -> bool {
        token_after(outer, inner)
    }

    fn test(&self, outer: Crd, inner: Crd) -> (r: bool) {
        let ra = rank(outer);
        let rb = rank(inner);
        if ra != rb {
            ra > rb
        } else {
            match (outer, inner) {
                (Token::Val(x), Token::Val(y)) => x > y,
                (Token::Stop(x), Token::Stop(y)) => x > y,
                _ => false,
            }
        }
    }
}

/// The coordinate masker from outer position `j` and inner position `i`
/// (`has_crd`: the current inner fiber kept a coordinate): returns the
/// outer coordinate, inner coordinate and inner reference streams and the
/// status.  An outer stop token is passed on and consumed; an inner
/// coordinate is kept with its reference unless the predicate masks it; an
/// inner stop closes its fiber, and passes on with the outer coordinate
/// only when the fiber kept a coordinate; the done token ends all streams.
pub open spec fn crd_mask_run<P: MaskPredicate>(
    pred: P,
    outer: Seq<Crd>,
    inner: Seq<Crd>,
    refs: Seq<Crd>,
    j: nat,
    i: nat,
    has_crd: bool,
) -> (Seq<Crd>, Seq<Crd>, Seq<Crd>, DropStatus)
    decreases inner.len() - i,
{
    if i >= inner.len() || i >= refs.len() || j >= outer.len() {
        (seq![], seq![], seq![], DropStatus::Exhausted)
    } else {
        let o = outer[j as int];
        let t = inner[i as int];
        let r = refs[i as int];
        let pre: Seq<Crd> = if o is Stop { seq![o] } else { seq![] };
        let j1: nat = if o is Stop { j + 1 } else { j };
        match t {
            Token::Val(_) => {
                let keep = !pred.masks(o, t);
                let (ro, ri, rr, st) = crd_mask_run(pred, outer, inner, refs, j1, i + 1, has_crd || keep);
                (
                    pre + ro,
                    (if keep { seq![t] } else { seq![] }) + ri,
                    (if keep { seq![r] } else { seq![] }) + rr,
                    st,
                )
            },
            Token::Stop(_) => {
                let eo: Seq<Crd> = if has_crd { seq![o] } else { seq![] };
                let ei: Seq<Crd> = if has_crd { seq![t] } else { seq![] };
                let er: Seq<Crd> = if has_crd { seq![r] } else { seq![] };
                if j1 >= outer.len() {
                    (pre + eo, ei, er, DropStatus::Exhausted)
                } else {
                    let (ro, ri, rr, st) = crd_mask_run(pred, outer, inner, refs, j1 + 1, i + 1, false);
                    (pre + eo + ro, ei + ri, er + rr, st)
                }
            },
            Token::Done => (pre + seq![Token::Done], seq![Token::Done], seq![Token::Done], DropStatus::Finished),
            Token::Empty => (pre, seq![], seq![], DropStatus::Fault),
        }
    }
}

/// Drops the inner coordinates (with their references) that a predicate
/// masks, and the outer coordinates whose inner fibers end up empty.
pub struct CrdMask<P> {
    pub predicate: P,
}

impl<P: MaskPredicate> CrdMask<P> {
    pub fn new(predicate: P) -> (r: Self)
        ensures
            r.predicate == predicate,
    {
        CrdMask { predicate }
    }

    /// Returns the outer coordinate, inner coordinate and inner reference
    /// streams and the status.
    #[verifier::rlimit(50)]
    pub fn run(&self, in_crd_outer: &Vec<Crd>, in_crd_inner: &Vec<Crd>, in_ref_inner: &Vec<Crd>) -> (r: (
        Vec<Crd>,
        Vec<Crd>,
        Vec<Crd>,
        DropStatus,
    ))
        ensures
            (r.0@, r.1@, r.2@, r.3) == crd_mask_run(self.predicate, in_crd_outer@, in_crd_inner@, in_ref_inner@, 0, 0, false),
    {
        let ghost outer = in_crd_outer@;
        let ghost inner = in_crd_inner@;
        let ghost refs = in_ref_inner@;
        let ghost total = crd_mask_run(self.predicate, outer, inner, refs, 0, 0, false);
        let mut out_o: Vec<Crd> = Vec::new();
        let mut out_i: Vec<Crd> = Vec::new();
        let mut out_r: Vec<Crd> = Vec::new();
        let mut j: usize = 0;
        let mut i: usize = 0;
        let mut has_crd = false;
        loop
            invariant
                i <= inner.len(),
                j <= outer.len(),
                outer == in_crd_outer@,
                inner == in_crd_inner@,
                refs == in_ref_inner@,
                total == crd_mask_run(self.predicate, outer, inner, refs, 0, 0, false),
                ({
                    let (ro, ri, rr, st) = crd_mask_run(self.predicate, outer, inner, refs, j as nat, i as nat, has_crd);
                    total.0 == out_o@ + ro && total.1 == out_i@ + ri && total.2 == out_r@ + rr && total.3 == st
                }),
            decreases inner.len() - i,
        {
            let ghost oo = out_o@;
            let ghost oi = out_i@;
            let ghost or = out_r@;
            if i >= in_crd_inner.len() || i >= in_ref_inner.len() || j >= in_crd_outer.len() {
                assert(total.0 =~= out_o@ && total.1 =~= out_i@ && total.2 =~= out_r@);
                return (out_o, out_i, out_r, DropStatus::Exhausted);
            }
            let o = in_crd_outer[j];
            let t = in_crd_inner[i];
            let r = in_ref_inner[i];
            if let Token::Stop(_) = o {
                out_o.push(o);
                j = j + 1;
            }
            let ghost pre: Seq<Crd> = if o is Stop { seq![o] } else { seq![] };
            assert(out_o@ =~= oo + pre);
            match t {
                Token::Val(_) => {
                    let keep = !self.predicate.test(o, t);
                    if keep {
                        out_i.push(t);
                        out_r.push(r);
                        has_crd = true;
                    }
                    i = i + 1;
                    proof {
                        let (ro, ri, rr, st) = crd_mask_run(self.predicate, outer, inner, refs, j as nat, i as nat, has_crd);
                        assert(oo + (pre + ro) =~= out_o@ + ro);
                        if keep {
                            assert(oi + (seq![t] + ri) =~= out_i@ + ri);
                            assert(or + (seq![r] + rr) =~= out_r@ + rr);
                        } else {
                            assert(oi + (Seq::<Crd>::empty() + ri) =~= out_i@ + ri);
                            assert(or + (Seq::<Crd>::empty() + rr) =~= out_r@ + rr);
                        }
                    }
                },
                Token::Stop(_) => {
                    let had = has_crd;
                    if has_crd {
                        out_i.push(t);
                        out_r.push(r);
                        out_o.push(o);
                        has_crd = false;
                    }
                    let ghost eo: Seq<Crd> = if had { seq![o] } else { seq![] };
                    let ghost ei: Seq<Crd> = if had { seq![t] } else { seq![] };
                    let ghost er: Seq<Crd> = if had { seq![r] } else { seq![] };
                    assert(out_o@ =~= oo + pre + eo);
                    assert(out_i@ =~= oi + ei);
                    assert(out_r@ =~= or + er);
                    if j >= in_crd_outer.len() {
                        assert(total.0 =~= out_o@ && total.1 =~= out_i@ && total.2 =~= out_r@);
                        return (out_o, out_i, out_r, DropStatus::Exhausted);
                    }
                    j = j + 1;
                    i = i + 1;
                    proof {
                        let (ro, ri, rr, st) = crd_mask_run(self.predicate, outer, inner, refs, j as nat, i as nat, false);
                        assert(oo + (pre + eo + ro) =~= out_o@ + ro);
                        assert(oi + (ei + ri) =~= out_i@ + ri);
                        assert(or + (er + rr) =~= out_r@ + rr);
                    }
                },
                Token::Done => {
                    out_o.push(Token::Done);
                    out_i.push(Token::Done);
                    out_r.push(Token::Done);
                    assert(total.0 =~= out_o@ && total.1 =~= out_i@ && total.2 =~= out_r@);
                    return (out_o, out_i, out_r, DropStatus::Finished);
                },
                Token::Empty => {
                    assert(total.0 =~= out_o@ && total.1 =~= out_i@ && total.2 =~= out_r@);
                    return (out_o, out_i, out_r, DropStatus::Fault);
                },
            }
        }
    }
}

} // verus!
