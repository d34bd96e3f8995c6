use vstd::prelude::*;

use super::primitive::Token;
use super::stkn_dropper::DropStatus;

verus! {

/// The coordinate dropper on an outer and an inner coordinate stream, from
/// outer position `j`, inner position `i` and `has_crd` (the current inner
/// fiber already held a coordinate): the inner stream is passed on, and an
/// outer coordinate is passed only when its inner fiber is not empty.
pub open spec fn crd_drop_run<A, B>(
    outer: Seq<Token<A, u32>>,
    inner: Seq<Token<B, u32>>,
    j: nat,
    i: nat,
    has_crd: bool,
) -> (Seq<Token<A, u32>>, Seq<Token<B, u32>>, DropStatus)
    decreases (outer.len() - j) + (if i <= inner.len() { inner.len() - i } else { 0 }),
{
    if j >= outer.len() {
        (seq![], seq![], DropStatus::Exhausted)
    } else {
        match outer[j as int] {
            Token::Val(v) => if i >= inner.len() {
                (seq![], seq![], DropStatus::Exhausted)
            } else {
                let t = inner[i as int];
                match t {
                    Token::Val(_) => {
                        let (ro, ri, st) = crd_drop_run(outer, inner, j, i + 1, true);
                        (ro, seq![t] + ri, st)
                    },
                    Token::Stop(_) => {
                        let (ro, ri, st) = crd_drop_run(outer, inner, j + 1, i + 1, false);
                        (if has_crd { seq![Token::Val(v)] + ro } else { ro }, seq![t] + ri, st)
                    },
                    _ => (seq![], seq![t], DropStatus::Fault),
                }
            },
            Token::Stop(s) => {
                let (ro, ri, st) = crd_drop_run(outer, inner, j + 1, i, false);
                (seq![Token::Stop(s)] + ro, ri, st)
            },
            Token::Done => if i >= inner.len() {
                (seq![], seq![], DropStatus::Exhausted)
            } else {
                (seq![Token::Done], if inner[i as int] is Done { seq![Token::Done] } else { seq![] }, DropStatus::Finished)
            },
            Token::Empty => (seq![], seq![], DropStatus::Fault),
        }
    }
}

/// Drops the outer coordinates whose inner fibers are empty.
pub struct CrdDrop;

impl CrdDrop {
    pub fn new() -> Self {
        CrdDrop
    }

    pub fn run<A: Copy, B: Copy>(&self, in_crd_outer: &Vec<Token<A, u32>>, in_crd_inner: &Vec<Token<B, u32>>) -> (r: (
        Vec<Token<A, u32>>,
        Vec<Token<B, u32>>,
        DropStatus,
    ))
        ensures
            (r.0@, r.1@, r.2) == crd_drop_run(in_crd_outer@, in_crd_inner@, 0, 0, false),
    {
        let mut out_outer: Vec<Token<A, u32>> = Vec::new();
        let mut out_inner: Vec<Token<B, u32>> = Vec::new();
        let ghost total = crd_drop_run(in_crd_outer@, in_crd_inner@, 0, 0, false);
        let mut j: usize = 0;
        let mut i: usize = 0;
        let mut has_crd = false;
        loop
            invariant
                j <= in_crd_outer.len(),
                i <= in_crd_inner.len(),
                total == crd_drop_run(in_crd_outer@, in_crd_inner@, 0, 0, false),
                ({
                    let (ro, ri, st) = crd_drop_run(in_crd_outer@, in_crd_inner@, j as nat, i as nat, has_crd);
                    total.0 == out_outer@ + ro && total.1 == out_inner@ + ri && total.2 == st
                }),
            decreases (in_crd_outer.len() - j) + (in_crd_inner.len() - i),
        {
            let ghost oo = out_outer@;
            let ghost oi = out_inner@;
            if j >= in_crd_outer.len() {
                assert(total.0 =~= out_outer@);
                assert(total.1 =~= out_inner@);
                return (out_outer, out_inner, DropStatus::Exhausted);
            }
            match in_crd_outer[j] {
                Token::Val(v) => {
                    if i >= in_crd_inner.len() {
                        assert(total.0 =~= out_outer@);
                        assert(total.1 =~= out_inner@);
                        return (out_outer, out_inner, DropStatus::Exhausted);
                    }
                    let t = in_crd_inner[i];
                    out_inner.push(t);
                    match t {
                        Token::Val(_) => {
                            has_crd = true;
                            i = i + 1;
                        },
                        Token::Stop(_) => {
                            if has_crd {
                                out_outer.push(Token::Val(v));
                            }
                            has_crd = false;
                            i = i + 1;
                            j = j + 1;
                        },
                        _ => {
                            assert(total.0 =~= out_outer@);
                            assert(total.1 =~= out_inner@);
                            return (out_outer, out_inner, DropStatus::Fault);
                        },
                    }
                },
                Token::Stop(s) => {
                    out_outer.push(Token::Stop(s));
                    has_crd = false;
                    j = j + 1;
                },
                Token::Done => {
                    if i >= in_crd_inner.len() {
                        assert(total.0 =~= out_outer@);
                        assert(total.1 =~= out_inner@);
                        return (out_outer, out_inner, DropStatus::Exhausted);
                    }
                    if let Token::Done = in_crd_inner[i] {
                        out_inner.push(Token::Done);
                    }
                    out_outer.push(Token::Done);
                    assert(total.0 =~= out_outer@);
                    assert(total.1 =~= out_inner@);
                    return (out_outer, out_inner, DropStatus::Finished);
                },
                Token::Empty => {
                    assert(total.0 =~= out_outer@);
                    assert(total.1 =~= out_inner@);
                    return (out_outer, out_inner, DropStatus::Fault);
                },
            }
            proof {
                let (ro, ri, st) = crd_drop_run(in_crd_outer@, in_crd_inner@, j as nat, i as nat, has_crd);
                if out_outer@.len() > oo.len() {
                    assert(oo + (seq![out_outer@.last()] + ro) =~= out_outer@ + ro);
                } else {
                    assert(out_outer@ =~= oo);
                }
                if out_inner@.len() > oi.len() {
                    assert(oi + (seq![out_inner@.last()] + ri) =~= out_inner@ + ri);
                } else {
                    assert(out_inner@ =~= oi);
                }
            }
        }
    }
}

/// The coordinate holder on an outer and an inner coordinate stream, from
/// outer position `j` and inner position `i`: the outer coordinate is
/// repeated for each inner coordinate of its fiber, inner stop tokens close
/// the outer fibers, and the inner stream is passed on.
pub open spec fn crd_hold_run<A>(
    outer: Seq<Token<A, u32>>,
    inner: Seq<Token<A, u32>>,
    j: nat,
    i: nat,
) -> (Seq<Token<A, u32>>, Seq<Token<A, u32>>, DropStatus)
    decreases inner.len() - i,
{
    if i >= inner.len() || j >= outer.len() {
        (seq![], seq![], DropStatus::Exhausted)
    } else {
        let t = inner[i as int];
        let o = outer[j as int];
        match t {
            Token::Val(_) => match o {
                Token::Val(_) => {
                    let (ro, ri, st) = crd_hold_run(outer, inner, j, i + 1);
                    (seq![o] + ro, seq![t] + ri, st)
                },
                Token::Stop(_) => if j + 1 >= outer.len() {
                    (seq![], seq![t], DropStatus::Exhausted)
                } else {
                    let (ro, ri, st) = crd_hold_run(outer, inner, j + 1, i + 1);
                    (seq![outer[j + 1 as int]] + ro, seq![t] + ri, st)
                },
                _ => (seq![], seq![t], DropStatus::Fault),
            },
            Token::Stop(_) => {
                let (ro, ri, st) = crd_hold_run(outer, inner, j + 1, i + 1);
                (seq![t] + ro, seq![t] + ri, st)
            },
            Token::Empty => (seq![], seq![t], DropStatus::Fault),
            Token::Done => (seq![Token::Done], seq![t], DropStatus::Finished),
        }
    }
}

/// Repeats each outer coordinate alongside the inner coordinates of its
/// fiber.
pub struct CrdHold;

impl CrdHold {
    pub fn new() -> Self {
        CrdHold
    }

    pub fn run<A: Copy>(&self, in_crd_outer: &Vec<Token<A, u32>>, in_crd_inner: &Vec<Token<A, u32>>) -> (r: (
        Vec<Token<A, u32>>,
        Vec<Token<A, u32>>,
        DropStatus,
    ))
        ensures
            (r.0@, r.1@, r.2) == crd_hold_run(in_crd_outer@, in_crd_inner@, 0, 0),
    {
        let mut out_outer: Vec<Token<A, u32>> = Vec::new();
        let mut out_inner: Vec<Token<A, u32>> = Vec::new();
        let ghost total = crd_hold_run(in_crd_outer@, in_crd_inner@, 0, 0);
        let mut j: usize = 0;
        let mut i: usize = 0;
        loop
            invariant
                j <= in_crd_outer.len(),
                i <= in_crd_inner.len(),
                total == crd_hold_run(in_crd_outer@, in_crd_inner@, 0, 0),
                ({
                    let (ro, ri, st) = crd_hold_run(in_crd_outer@, in_crd_inner@, j as nat, i as nat);
                    total.0 == out_outer@ + ro && total.1 == out_inner@ + ri && total.2 == st
                }),
            decreases in_crd_inner.len() - i,
        {
            let ghost oo = out_outer@;
            let ghost oi = out_inner@;
            if i >= in_crd_inner.len() || j >= in_crd_outer.len() {
                assert(total.0 =~= out_outer@);
                assert(total.1 =~= out_inner@);
                return (out_outer, out_inner, DropStatus::Exhausted);
            }
            let t = in_crd_inner[i];
            let o = in_crd_outer[j];
            out_inner.push(t);
            match t {
                Token::Val(_) => {
                    match o {
                        Token::Val(_) => {
                            out_outer.push(o);
                        },
                        Token::Stop(_) => {
                            if j + 1 >= in_crd_outer.len() {
                                assert(total.0 =~= out_outer@);
                                assert(total.1 =~= out_inner@);
                                return (out_outer, out_inner, DropStatus::Exhausted);
                            }
                            j = j + 1;
                            out_outer.push(in_crd_outer[j]);
                        },
                        _ => {
                            assert(total.0 =~= out_outer@);
                            assert(total.1 =~= out_inner@);
                            return (out_outer, out_inner, DropStatus::Fault);
                        },
                    }
                },
                Token::Stop(_) => {
                    out_outer.push(t);
                    j = j + 1;
                },
                Token::Empty => {
                    assert(total.0 =~= out_outer@);
                    assert(total.1 =~= out_inner@);
                    return (out_outer, out_inner, DropStatus::Fault);
                },
                Token::Done => {
                    out_outer.push(Token::Done);
                    assert(total.0 =~= out_outer@);
                    assert(total.1 =~= out_inner@);
                    return (out_outer, out_inner, DropStatus::Finished);
                },
            }
            i = i + 1;
            proof {
                let (ro, ri, st) = crd_hold_run(in_crd_outer@, in_crd_inner@, j as nat, i as nat);
                assert(oo + (seq![out_outer@.last()] + ro) =~= out_outer@ + ro);
                assert(oi + (seq![out_inner@.last()] + ri) =~= out_inner@ + ri);
            }
        }
    }
}

} // verus!
