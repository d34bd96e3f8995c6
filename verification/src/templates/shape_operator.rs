use vstd::prelude::*;

use super::primitive::Token;
use super::stkn_dropper::DropStatus;

verus! {

pub type Crd = Token<u32, u32>;

/// The flattened coordinate of inner coordinate `i` under outer coordinate
/// `o`, with `split` inner coordinates per outer one.
pub open spec fn flat_crd(o: u32, split: u32, i: u32) -> int {
    o * split + i
}

/// The flattener on an outer and an inner coordinate stream, from outer
/// position `j` and inner position `i`: each inner coordinate becomes
/// `outer * split + inner`; an inner stop passes on the outer stop token
/// (if the outer head is one) and moves to the next outer token; the done
/// token ends the stream.  A flattened coordinate beyond 32 bits, an inner
/// coordinate under an outer control token, or an empty marker is a fault.
pub open spec fn flatten_run(outer: Seq<Crd>, inner: Seq<Crd>, split: u32, j: nat, i: nat) -> (Seq<Crd>, DropStatus)
    decreases inner.len() - i,
{
    if i >= inner.len() || j >= outer.len() {
        (seq![], DropStatus::Exhausted)
    } else {
        let o = outer[j as int];
        match inner[i as int] {
            Token::Val(c) => match o {
                Token::Val(oc) => if flat_crd(oc, split, c) > u32::MAX {
                    (seq![], DropStatus::Fault)
                } else {
                    let (rest, st) = flatten_run(outer, inner, split, j, i + 1);
                    (seq![Token::Val(flat_crd(oc, split, c) as u32)] + rest, st)
                },
                _ => (seq![], DropStatus::Fault),
            },
            Token::Stop(_) => {
                let (rest, st) = flatten_run(outer, inner, split, j + 1, i + 1);
                (if o is Stop { seq![o] + rest } else { rest }, st)
            },
            Token::Done => (seq![Token::Done], DropStatus::Finished),
            Token::Empty => (seq![], DropStatus::Fault),
        }
    }
}

/// Merges two coordinate levels into one.
pub struct Flatten {
    pub split_factor: u32,
}

impl Flatten {
    pub fn new(split_factor: u32) -> (r: Self)
        ensures
            r.split_factor == split_factor,
    {
        Flatten { split_factor }
    }

    pub fn run(&self, in_crd_outer: &Vec<Crd>, in_crd_inner: &Vec<Crd>) -> (r: (Vec<Crd>, DropStatus))
        ensures
            (r.0@, r.1) == flatten_run(in_crd_outer@, in_crd_inner@, self.split_factor, 0, 0),
    {
        let split = self.split_factor;
        let ghost total = flatten_run(in_crd_outer@, in_crd_inner@, split, 0, 0);
        let mut out: Vec<Crd> = Vec::new();
        let mut j: usize = 0;
        let mut i: usize = 0;
        while i < in_crd_inner.len() && j < in_crd_outer.len()
            invariant
                i <= in_crd_inner.len(),
                split == self.split_factor,
                total == flatten_run(in_crd_outer@, in_crd_inner@, split, 0, 0),
                ({
                    let (rest, st) = flatten_run(in_crd_outer@, in_crd_inner@, split, j as nat, i as nat);
                    total.0 == out@ + rest && total.1 == st
                }),
            decreases in_crd_inner.len() - i,
        {
            let ghost o0 = out@;
            let o = in_crd_outer[j];
            match in_crd_inner[i] {
                Token::Val(c) => {
                    match o {
                        Token::Val(oc) => {
                            assert(oc * split <= 0xFFFF_FFFE_0000_0001) by (nonlinear_arith)
                                requires
                                    oc <= 0xFFFF_FFFF,
                                    split <= 0xFFFF_FFFF,
                            ;
                            let prod = (oc as u64) * (split as u64);
                            if prod + (c as u64) > u32::MAX as u64 {
                                assert(total.0 =~= out@);
                                return (out, DropStatus::Fault);
                            }
                            out.push(Token::Val((prod + (c as u64)) as u32));
                        },
                        _ => {
                            assert(total.0 =~= out@);
                            return (out, DropStatus::Fault);
                        },
                    }
                },
                Token::Stop(_) => {
                    if let Token::Stop(_) = o {
                        out.push(o);
                    }
                    j = j + 1;
                },
                Token::Done => {
                    out.push(Token::Done);
                    assert(total.0 =~= out@);
                    return (out, DropStatus::Finished);
                },
                Token::Empty => {
                    assert(total.0 =~= out@);
                    return (out, DropStatus::Fault);
                },
            }
            i = i + 1;
            proof {
                let (rest, st) = flatten_run(in_crd_outer@, in_crd_inner@, split, j as nat, i as nat);
                if out@.len() > o0.len() {
                    assert(o0 + (seq![out@.last()] + rest) =~= out@ + rest);
                } else {
                    assert(out@ =~= o0);
                }
            }
        }
        assert(total.0 =~= out@);
        (out, DropStatus::Exhausted)
    }
}

} // verus!
