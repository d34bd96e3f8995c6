use vstd::prelude::*;

use super::primitive::Token;
use super::stkn_dropper::DropStatus;

verus! {

/// Where a binary operator on value streams `in1` and `in2` stops, from
/// position `i`: the number of token pairs it answers and its status.
/// Payload pairs and pairs of equal stop tokens are answered; the pair of
/// done tokens is the last; any other pair is a fault.
pub open spec fn binary_end<V>(in1: Seq<Token<V, u32>>, in2: Seq<Token<V, u32>>, i: nat) -> (nat, DropStatus)
    decreases in1.len() - i,
{
    if i >= in1.len() || i >= in2.len() {
        (i, DropStatus::Exhausted)
    } else {
        match (in1[i as int], in2[i as int]) {
            (Token::Val(_), Token::Val(_)) => binary_end(in1, in2, i + 1),
            (Token::Stop(a), Token::Stop(b)) => if a == b {
                binary_end(in1, in2, i + 1)
            } else {
                (i, DropStatus::Fault)
            },
            (Token::Done, Token::Done) => (i + 1, DropStatus::Finished),
            _ => (i, DropStatus::Fault),
        }
    }
}

/// The answer `o` to the pair `(a, b)`: a payload the function may return
/// for the two payloads, the stop token, or the done token.
pub open spec fn binary_answer<V, F: Fn(V, V) -> V>(f: F, a: Token<V, u32>, b: Token<V, u32>, o: Token<V, u32>) -> bool {
    match (a, b) {
        (Token::Val(x), Token::Val(y)) => o is Val && call_ensures(f, (x, y), o->Val_0),
        (Token::Stop(s), _) => o == Token::<V, u32>::Stop(s),
        (Token::Done, _) => o is Done,
        _ => false,
    }
}

/// Applies a function to the payloads of two aligned value streams.
pub struct Binary<F> {
    pub binary_func: F,
    pub block_size: u64,
    pub latency: u64,
    pub ii: u64,
}

impl<F> Binary<F> {
    pub fn new(binary_func: F, block_size: u64, latency: u64, ii: u64) -> (r: Self)
        ensures
            r.binary_func == binary_func,
            r.block_size == block_size,
            r.latency == latency,
            r.ii == ii,
    {
        Binary { binary_func, block_size, latency, ii }
    }

    pub fn run<V: Copy>(&self, in_val1: &Vec<Token<V, u32>>, in_val2: &Vec<Token<V, u32>>) -> (r: (Vec<Token<V, u32>>, DropStatus)) where
        F: Fn(V, V) -> V,

        requires
            forall|x: V, y: V| call_requires(self.binary_func, (x, y)),
        ensures
            r.0@.len() == binary_end(in_val1@, in_val2@, 0).0,
            r.1 == binary_end(in_val1@, in_val2@, 0).1,
            forall|k: int| 0 <= k < r.0@.len() ==> binary_answer(self.binary_func, in_val1@[k], in_val2@[k], #[trigger] r.0@[k]),
    {
        let mut out: Vec<Token<V, u32>> = Vec::new();
        let mut i: usize = 0;
        while i < in_val1.len() && i < in_val2.len()
            invariant
                i <= in_val1.len(),
                out@.len() == i,
                binary_end(in_val1@, in_val2@, 0) == binary_end(in_val1@, in_val2@, i as nat),
                forall|x: V, y: V| call_requires(self.binary_func, (x, y)),
                forall|k: int| 0 <= k < out@.len() ==> binary_answer(self.binary_func, in_val1@[k], in_val2@[k], #[trigger] out@[k]),
            decreases in_val1.len() - i,
        {
            match (in_val1[i], in_val2[i]) {
                (Token::Val(x), Token::Val(y)) => {
                    let v = (self.binary_func)(x, y);
                    out.push(Token::Val(v));
                },
                (Token::Stop(a), Token::Stop(b)) => {
                    if a != b {
                        return (out, DropStatus::Fault);
                    }
                    out.push(Token::Stop(a));
                },
                (Token::Done, Token::Done) => {
                    out.push(Token::Done);
                    return (out, DropStatus::Finished);
                },
                _ => {
                    return (out, DropStatus::Fault);
                },
            }
            i = i + 1;
        }
        (out, DropStatus::Exhausted)
    }
}

} // verus!
