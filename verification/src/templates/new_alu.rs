use vstd::prelude::*;

use super::primitive::Token;
use super::stkn_dropper::DropStatus;

verus! {

/// The output shape of a multiplier from positions `i1`, `i2`: for each
/// emitted token, either the pair of input positions whose payloads it
/// multiplies, or the control token itself.  A payload facing a stop token
/// is skipped; equal stop tokens pass; a pair of done tokens ends the
/// stream; unequal stop tokens or any other pair is a fault.
pub open spec fn mul_run<V>(in1: Seq<Token<V, u32>>, in2: Seq<Token<V, u32>>, i1: nat, i2: nat) -> (
    Seq<Token<(int, int), u32>>,
    DropStatus,
)
    decreases (in1.len() - i1) + (in2.len() - i2),
{
    if i1 >= in1.len() || i2 >= in2.len() {
        (seq![], DropStatus::Exhausted)
    } else {
        match (in1[i1 as int], in2[i2 as int]) {
            (Token::Val(_), Token::Val(_)) => {
                let (rest, st) = mul_run(in1, in2, i1 + 1, i2 + 1);
                (seq![Token::Val((i1 as int, i2 as int))] + rest, st)
            },
            (Token::Val(_), Token::Stop(_)) => mul_run(in1, in2, i1 + 1, i2),
            (Token::Stop(_), Token::Val(_)) => mul_run(in1, in2, i1, i2 + 1),
            (Token::Stop(a), Token::Stop(b)) => if a == b {
                let (rest, st) = mul_run(in1, in2, i1 + 1, i2 + 1);
                (seq![Token::Stop(a)] + rest, st)
            } else {
                (seq![], DropStatus::Fault)
            },
            (Token::Done, Token::Done) => (seq![Token::Done], DropStatus::Finished),
            _ => (seq![], DropStatus::Fault),
        }
    }
}

/// Output token `o` answers shape token `s`: a product the function may
/// return for the two payloads named, or the same control token.
pub open spec fn mul_answer<V, F: Fn(V, V) -> V>(
    f: F,
    in1: Seq<Token<V, u32>>,
    in2: Seq<Token<V, u32>>,
    s: Token<(int, int), u32>,
    o: Token<V, u32>,
) -> bool {
    match s {
        Token::Val((p, q)) => o is Val && call_ensures(f, (in1[p]->Val_0, in2[q]->Val_0), o->Val_0),
        Token::Stop(l) => o == Token::<V, u32>::Stop(l),
        Token::Done => o is Done,
        Token::Empty => o is Empty,
    }
}

/// Multiplies two value streams element by element, skipping the payloads
/// of one stream that face a stop token on the other.
pub struct ALUMul<F> {
    pub mul: F,
}

impl<F> ALUMul<F> {
    pub fn new(mul: F) -> (r: Self)
        ensures
            r.mul == mul,
    {
        ALUMul { mul }
    }

    pub fn run<V: Copy>(&self, in_val1: &Vec<Token<V, u32>>, in_val2: &Vec<Token<V, u32>>) -> (r: (Vec<Token<V, u32>>, DropStatus)) where
        F: Fn(V, V) -> V,

        requires
            forall|x: V, y: V| call_requires(self.mul, (x, y)),
        ensures
            r.0@.len() == mul_run(in_val1@, in_val2@, 0, 0).0.len(),
            r.1 == mul_run(in_val1@, in_val2@, 0, 0).1,
            forall|k: int|
                0 <= k < r.0@.len() ==> mul_answer(self.mul, in_val1@, in_val2@, mul_run(in_val1@, in_val2@, 0, 0).0[k], #[trigger] r.0@[k]),
    {
        let ghost in1 = in_val1@;
        let ghost in2 = in_val2@;
        let ghost total = mul_run(in1, in2, 0, 0);
        let mut out: Vec<Token<V, u32>> = Vec::new();
        let mut i1: usize = 0;
        let mut i2: usize = 0;
        while i1 < in_val1.len() && i2 < in_val2.len()
            invariant
                i1 <= in1.len(),
                i2 <= in2.len(),
                in1 == in_val1@,
                in2 == in_val2@,
                total == mul_run(in1, in2, 0, 0),
                forall|x: V, y: V| call_requires(self.mul, (x, y)),
                out@.len() + mul_run(in1, in2, i1 as nat, i2 as nat).0.len() == total.0.len(),
                total.1 == mul_run(in1, in2, i1 as nat, i2 as nat).1,
                forall|k: int| 0 <= k < out@.len() ==> mul_answer(self.mul, in1, in2, total.0[k], #[trigger] out@[k]),
                forall|k: int|
                    0 <= k < mul_run(in1, in2, i1 as nat, i2 as nat).0.len() ==> total.0[out@.len() + k]
                        == #[trigger] mul_run(in1, in2, i1 as nat, i2 as nat).0[k],
            decreases (in1.len() - i1) + (in2.len() - i2),
        {
            let ghost rest = mul_run(in1, in2, i1 as nat, i2 as nat).0;
            let ghost n = out@.len();
            match (in_val1[i1], in_val2[i2]) {
                (Token::Val(x), Token::Val(y)) => {
                    let v = (self.mul)(x, y);
                    out.push(Token::Val(v));
                    proof {
                        assert(rest[0] == Token::<(int, int), u32>::Val((i1 as int, i2 as int)));
                        assert(total.0[n as int] == rest[0]);
                        let next = mul_run(in1, in2, (i1 + 1) as nat, (i2 + 1) as nat).0;
                        assert forall|k: int| 0 <= k < next.len() implies total.0[out@.len() + k] == #[trigger] next[k] by {
                            assert(next[k] == rest[k + 1]);
                        }
                    }
                    i1 = i1 + 1;
                    i2 = i2 + 1;
                },
                (Token::Val(_), Token::Stop(_)) => {
                    i1 = i1 + 1;
                },
                (Token::Stop(_), Token::Val(_)) => {
                    i2 = i2 + 1;
                },
                (Token::Stop(a), Token::Stop(b)) => {
                    if a != b {
                        return (out, DropStatus::Fault);
                    }
                    out.push(Token::Stop(a));
                    proof {
                        assert(total.0[n as int] == rest[0]);
                        let next = mul_run(in1, in2, (i1 + 1) as nat, (i2 + 1) as nat).0;
                        assert forall|k: int| 0 <= k < next.len() implies total.0[out@.len() + k] == #[trigger] next[k] by {
                            assert(next[k] == rest[k + 1]);
                        }
                    }
                    i1 = i1 + 1;
                    i2 = i2 + 1;
                },
                (Token::Done, Token::Done) => {
                    out.push(Token::Done);
                    assert(total.0[n as int] == rest[0]);
                    return (out, DropStatus::Finished);
                },
                _ => {
                    return (out, DropStatus::Fault);
                },
            }
        }
        (out, DropStatus::Exhausted)
    }
}

} // verus!
