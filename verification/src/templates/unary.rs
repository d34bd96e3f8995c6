use vstd::prelude::*;

use super::primitive::Token;
use super::stkn_dropper::DropStatus;

verus! {

/// Where a unary operator on value stream `input` stops, from position `i`:
/// the number of tokens it answers and its status.  Payloads and stop
/// tokens are answered; the done token is the last; an empty marker is a
/// fault.
pub open spec fn unary_end<V>(input: Seq<Token<V, u32>>, i: nat) -> (nat, DropStatus)
    decreases input.len() - i,
{
    if i >= input.len() {
        (i, DropStatus::Exhausted)
    } else {
        match input[i as int] {
            Token::Val(_) => unary_end(input, i + 1),
            Token::Stop(_) => unary_end(input, i + 1),
            Token::Done => (i + 1, DropStatus::Finished),
            Token::Empty => (i, DropStatus::Fault),
        }
    }
}

/// The answer `o` to token `a`: a payload the function may return for its
/// payload, or the token itself.
pub open spec fn unary_answer<V, F: Fn(V) -> V>(f: F, a: Token<V, u32>, o: Token<V, u32>) -> bool {
    match a {
        Token::Val(x) => o is Val && call_ensures(f, (x,), o->Val_0),
        _ => o == a,
    }
}

/// Applies a function to the payloads of a value stream.
pub struct Unary<F> {
    pub unary_func: F,
}

impl<F> Unary<F> {
    pub fn new(unary_func: F) -> (r: Self)
        ensures
            r.unary_func == unary_func,
    {
        Unary { unary_func }
    }

    pub fn run<V: Copy>(&self, in_val: &Vec<Token<V, u32>>) -> (r: (Vec<Token<V, u32>>, DropStatus)) where
        F: Fn(V) -> V,

        requires
            forall|x: V| call_requires(self.unary_func, (x,)),
        ensures
            r.0@.len() == unary_end(in_val@, 0).0,
            r.1 == unary_end(in_val@, 0).1,
            forall|k: int| 0 <= k < r.0@.len() ==> unary_answer(self.unary_func, in_val@[k], #[trigger] r.0@[k]),
    {
        let mut out: Vec<Token<V, u32>> = Vec::new();
        let mut i: usize = 0;
        while i < in_val.len()
            invariant
                i <= in_val.len(),
                out@.len() == i,
                unary_end(in_val@, 0) == unary_end(in_val@, i as nat),
                forall|x: V| call_requires(self.unary_func, (x,)),
                forall|k: int| 0 <= k < out@.len() ==> unary_answer(self.unary_func, in_val@[k], #[trigger] out@[k]),
            decreases in_val.len() - i,
        {
            match in_val[i] {
                Token::Val(x) => {
                    let v = (self.unary_func)(x);
                    out.push(Token::Val(v));
                },
                Token::Stop(s) => {
                    out.push(Token::Stop(s));
                },
                Token::Done => {
                    out.push(Token::Done);
                    return (out, DropStatus::Finished);
                },
                Token::Empty => {
                    return (out, DropStatus::Fault);
                },
            }
            i = i + 1;
        }
        (out, DropStatus::Exhausted)
    }
}

} // verus!
