use vstd::prelude::*;

use crate::templates::primitive::{crd_token_spec, parse_crd_token, repsig_spec, Repsiggen, Token};

verus! {

/// A channel stored in a TOML file: its identifier, its kind and its
/// tokens, written as a comma-separated list.
#[derive(Clone, Debug)]
pub struct ChannelFile {
    pub id: usize,
    pub tp: String,
    pub payload: String,
}

/// The kinds of channel a channel file can describe.
#[derive(Clone, Copy, Debug, PartialEq, Eq)]
pub enum ChannelType {
    Value,
    Coordinate,
    Reference,
    Repeat,
}

/// `char::is_whitespace`: the characters with Unicode's White_Space property.
pub open spec fn is_ws(c: char) -> bool {
    ||| ('\u{9}' <= c && c <= '\u{d}')
    ||| c == ' '
    ||| c == '\u{85}'
    ||| c == '\u{a0}'
    ||| c == '\u{1680}'
    ||| ('\u{2000}' <= c && c <= '\u{200a}')
    ||| c == '\u{2028}'
    ||| c == '\u{2029}'
    ||| c == '\u{202f}'
    ||| c == '\u{205f}'
    ||| c == '\u{3000}'
}

fn exec_is_ws(c: char) -> (r: bool)
    ensures
        r == is_ws(c),
{
    ('\u{9}' <= c && c <= '\u{d}') || c == ' ' || c == '\u{85}' || c == '\u{a0}' || c == '\u{1680}' || ('\u{2000}'
        <= c && c <= '\u{200a}') || c == '\u{2028}' || c == '\u{2029}' || c == '\u{202f}' || c == '\u{205f}' || c
        == '\u{3000}'
}

/// `s` without its leading white space.
pub open spec fn trim_start(s: Seq<char>) -> Seq<char>
    decreases s.len(),
{
    if s.len() > 0 && is_ws(s[0]) {
        trim_start(s.drop_first())
    } else {
        s
    }
}

/// `s` without its trailing white space.
pub open spec fn trim_end(s: Seq<char>) -> Seq<char>
    decreases s.len(),
{
    if s.len() > 0 && is_ws(s.last()) {
        trim_end(s.drop_last())
    } else {
        s
    }
}

/// `str::trim`.
pub open spec fn trim(s: Seq<char>) -> Seq<char> {
    trim_end(trim_start(s))
}

/// The position of the first comma of `s`, or its length when it has none.
pub open spec fn first_comma(s: Seq<char>) -> nat
    decreases s.len(),
{
    if s.len() == 0 {
        0
    } else if s[0] == ',' {
        0
    } else {
        1 + first_comma(s.drop_first())
    }
}

/// `str::split(',')`: the pieces between commas (one more than the commas).
pub open spec fn split_commas(s: Seq<char>) -> Seq<Seq<char>>
    decreases s.len(),
{
    let c = first_comma(s);
    if c >= s.len() {
        seq![s]
    } else {
        seq![s.take(c as int)] + split_commas(s.skip(c + 1 as int))
    }
}

/// The items of a payload: its comma-separated pieces, trimmed.
pub open spec fn payload_items(s: Seq<char>) -> Seq<Seq<char>> {
    split_commas(s).map_values(|p: Seq<char>| trim(p))
}

proof fn lemma_first_comma(s: Seq<char>)
    ensures
        first_comma(s) <= s.len(),
        forall|k: int| 0 <= k < first_comma(s) ==> s[k] != ',',
        first_comma(s) < s.len() ==> s[first_comma(s) as int] == ',',
    decreases s.len(),
{
    if s.len() > 0 && s[0] != ',' {
        lemma_first_comma(s.drop_first());
        assert forall|k: int| 0 <= k < first_comma(s) implies s[k] != ',' by {
            if k > 0 {
                assert(s[k] == s.drop_first()[k - 1]);
            }
        }
    }
}

proof fn lemma_first_comma_at(s: Seq<char>, c: int)
    requires
        0 <= c <= s.len(),
        forall|k: int| 0 <= k < c ==> s[k] != ',',
        c < s.len() ==> s[c] == ',',
    ensures
        first_comma(s) == c,
    decreases s.len(),
{
    if s.len() > 0 && s[0] != ',' {
        assert forall|k: int| 0 <= k < c - 1 implies s.drop_first()[k] != ',' by {
            assert(s.drop_first()[k] == s[k + 1]);
        }
        lemma_first_comma_at(s.drop_first(), c - 1);
    }
}

proof fn lemma_trim_start_skip(s: Seq<char>, lo: int)
    requires
        0 <= lo <= s.len(),
        forall|k: int| 0 <= k < lo ==> is_ws(s[k]),
    ensures
        trim_start(s) == trim_start(s.skip(lo)),
    decreases lo,
{
    if lo > 0 {
        assert forall|k: int| 0 <= k < lo - 1 implies is_ws(s.drop_first()[k]) by {
            assert(s.drop_first()[k] == s[k + 1]);
        }
        lemma_trim_start_skip(s.drop_first(), lo - 1);
        assert(s.drop_first().skip(lo - 1) =~= s.skip(lo));
    } else {
        assert(s.skip(0) =~= s);
    }
}

proof fn lemma_trim_end_take(s: Seq<char>, hi: int)
    requires
        0 <= hi <= s.len(),
        forall|k: int| hi <= k < s.len() ==> is_ws(s[k]),
    ensures
        trim_end(s) == trim_end(s.take(hi)),
    decreases s.len() - hi,
{
    if hi < s.len() {
        assert(is_ws(s.last()));
        assert forall|k: int| hi <= k < s.drop_last().len() implies is_ws(s.drop_last()[k]) by {
            assert(s.drop_last()[k] == s[k]);
        }
        lemma_trim_end_take(s.drop_last(), hi);
        assert(s.drop_last().take(hi) =~= s.take(hi));
    } else {
        assert(s.take(hi) =~= s);
    }
}

/// `v` is what `conv` gives for some string reading `item`.
pub open spec fn converted<T, F: Fn(&str) -> T>(conv: F, item: Seq<char>, v: T) -> bool {
    exists|a: &str| a@ == item && #[trigger] conv.ensures((a,), v)
}

/// The bounds of the trimmed piece `s[start..k]`.
fn trim_bounds(s: &str, start: usize, k: usize) -> (r: (usize, usize))
    requires
        start <= k <= s@.len(),
    ensures
        start <= r.0 <= r.1 <= k,
        s@.subrange(r.0 as int, r.1 as int) == trim(s@.subrange(start as int, k as int)),
{
    let ghost full = s@;
    let ghost piece = full.subrange(start as int, k as int);
    let mut lo = start;
    while lo < k && exec_is_ws(s.get_char(lo))
        invariant
            s@ == full,
            start <= lo <= k,
            k <= full.len(),
            forall|m: int| start <= m < lo ==> is_ws(full[m]),
        decreases k - lo,
    {
        lo = lo + 1;
    }
    let mut hi = k;
    while hi > lo && exec_is_ws(s.get_char(hi - 1))
        invariant
            s@ == full,
            lo <= hi <= k,
            k <= full.len(),
            forall|m: int| hi <= m < k ==> is_ws(full[m]),
        decreases hi - lo,
    {
        hi = hi - 1;
    }
    proof {
        lemma_trim_start_skip(piece, lo - start);
        let t = piece.skip(lo - start);
        assert(t =~= full.subrange(lo as int, k as int));
        if lo < k {
            assert(!is_ws(t[0]));
        }
        assert(trim_start(t) == t);
        lemma_trim_end_take(t, hi - lo);
        let item = full.subrange(lo as int, hi as int);
        assert(t.take(hi - lo) =~= item);
        if hi > lo {
            assert(!is_ws(item.last()));
        }
        assert(trim_end(item) == item);
    }
    (lo, hi)
}

fn convert_piece<T, F: Fn(&str) -> T>(s: &str, start: usize, k: usize, conv: &F) -> (r: T)
    requires
        start <= k <= s@.len(),
        forall|a: &str| #[trigger] conv.requires((a,)),
    ensures
        converted(*conv, trim(s@.subrange(start as int, k as int)), r),
{
    let (lo, hi) = trim_bounds(s, start, k);
    let item = s.substring_char(lo, hi);
    let v = conv(item);
    assert(conv.ensures((item,), v));
    v
}

impl ChannelFile {
    /// Splits the payload at its commas, trims each piece and converts it
    /// with `conv`.
    pub fn parse_payload<TKType, ConvType: Fn(&str) -> TKType>(&self, conv: ConvType) -> (r: Vec<TKType>)
        requires
            forall|a: &str| #[trigger] conv.requires((a,)),
        ensures
            r@.len() == payload_items(self.payload@).len(),
            forall|k: int| 0 <= k < r@.len() ==> converted(conv, payload_items(self.payload@)[k], #[trigger] r@[k]),
    {
        let s = self.payload.as_str();
        let n = s.unicode_len();
        let ghost full = s@;
        let mut out: Vec<TKType> = Vec::new();
        let mut start: usize = 0;
        let mut k: usize = 0;
        let ghost mut done_items: Seq<Seq<char>> = seq![];
        assert(full.skip(0) =~= full);
        while k < n
            invariant
                s@ == full,
                n == full.len(),
                start <= k <= n,
                forall|a: &str| #[trigger] conv.requires((a,)),
                forall|m: int| start <= m < k ==> full[m] != ',',
                split_commas(full) == done_items + split_commas(full.skip(start as int)),
                out@.len() == done_items.len(),
                forall|m: int| 0 <= m < out@.len() ==> converted(conv, trim(done_items[m]), #[trigger] out@[m]),
            decreases n - k,
        {
            if s.get_char(k) == ',' {
                let ghost piece = full.subrange(start as int, k as int);
                let ghost rest = full.skip(start as int);
                proof {
                    lemma_first_comma_at(rest, k - start);
                    assert(rest.take(k - start) =~= piece);
                    assert(rest.skip(k - start + 1) =~= full.skip(k + 1));
                }
                let ghost old_out = out@;
                let v = convert_piece(s, start, k, &conv);
                out.push(v);
                proof {
                    let old_done = done_items;
                    done_items = done_items.push(piece);
                    assert forall|m: int| 0 <= m < out@.len() implies converted(conv, trim(done_items[m]), #[trigger] out@[m]) by {
                        if m < out@.len() - 1 {
                            assert(done_items[m] == old_done[m]);
                            assert(out@[m] == old_out[m]);
                        }
                    }
                    assert(split_commas(rest) == seq![piece] + split_commas(full.skip(k + 1)));
                    assert(old_done + (seq![piece] + split_commas(full.skip(k + 1))) =~= done_items + split_commas(
                        full.skip(k + 1),
                    ));
                }
                start = k + 1;
            }
            k = k + 1;
        }
        let ghost piece = full.subrange(start as int, n as int);
        let ghost rest = full.skip(start as int);
        proof {
            lemma_first_comma_at(rest, n - start);
            assert(rest =~= piece);
        }
        let ghost old_out = out@;
        let v = convert_piece(s, start, n, &conv);
        out.push(v);
        proof {
            let old_done = done_items;
            done_items = done_items.push(piece);
            assert forall|m: int| 0 <= m < out@.len() implies converted(conv, trim(done_items[m]), #[trigger] out@[m]) by {
                if m < out@.len() - 1 {
                    assert(done_items[m] == old_done[m]);
                    assert(out@[m] == old_out[m]);
                }
            }
            assert(split_commas(rest) == seq![rest]);
            assert(old_done + seq![piece] =~= done_items);
            assert(payload_items(full) =~= done_items.map_values(|p: Seq<char>| trim(p)));
        }
        out
    }
}

fn str_equals(s: &str, lit: &str) -> (r: bool)
    ensures
        r == (s@ == lit@),
{
    let n = s.unicode_len();
    if n != lit.unicode_len() {
        return false;
    }
    let mut k: usize = 0;
    while k < n
        invariant
            n == s@.len(),
            n == lit@.len(),
            k <= n,
            forall|m: int| 0 <= m < k ==> s@[m] == lit@[m],
        decreases n - k,
    {
        if s.get_char(k) != lit.get_char(k) {
            return false;
        }
        k = k + 1;
    }
    assert(s@ =~= lit@);
    true
}

impl ChannelType {
    /// Reads a channel kind from its name, written exactly as the variant.
    pub fn from_name(name: &str) -> (r: Result<ChannelType, ()>)
        ensures
            r == if name@ == "Value"@ {
                Ok(ChannelType::Value)
            } else if name@ == "Coordinate"@ {
                Ok(ChannelType::Coordinate)
            } else if name@ == "Reference"@ {
                Ok(ChannelType::Reference)
            } else if name@ == "Repeat"@ {
                Ok(ChannelType::Repeat)
            } else {
                Err(())
            },
    {
        if str_equals(name, "Value") {
            Ok(ChannelType::Value)
        } else if str_equals(name, "Coordinate") {
            Ok(ChannelType::Coordinate)
        } else if str_equals(name, "Reference") {
            Ok(ChannelType::Reference)
        } else if str_equals(name, "Repeat") {
            Ok(ChannelType::Repeat)
        } else {
            Err(())
        }
    }
}

/// Every item of the payload reads as a coordinate (or reference) token.
pub open spec fn all_crd_tokens(items: Seq<Seq<char>>) -> bool {
    forall|k: int| 0 <= k < items.len() ==> (#[trigger] crd_token_spec(items[k])) is Some
}

/// Every item of the payload reads as a repeat signal.
pub open spec fn all_repsigs(items: Seq<Seq<char>>) -> bool {
    forall|k: int| 0 <= k < items.len() ==> (#[trigger] repsig_spec(items[k])) is Some
}

impl ChannelFile {
    /// The tokens of a coordinate or reference channel: each item is a
    /// control token or a number; `None` when some item is neither.
    pub fn coordinate_tokens(&self) -> (r: Option<Vec<Token<u32, u32>>>)
        ensures
            r is Some <==> all_crd_tokens(payload_items(self.payload@)),
            r matches Some(v) ==> v@.len() == payload_items(self.payload@).len() && forall|k: int|
                0 <= k < v@.len() ==> Some(#[trigger] v@[k]) == crd_token_spec(payload_items(self.payload@)[k]),
    {
        let conv = |a: &str| -> (t: Option<Token<u32, u32>>)
            ensures
                t == crd_token_spec(a@),
            { parse_crd_token(a) };
        let parsed = self.parse_payload(conv);
        let ghost items = payload_items(self.payload@);
        proof {
            assert forall|k: int| 0 <= k < parsed@.len() implies #[trigger] parsed@[k] == crd_token_spec(items[k]) by {
                assert(converted(conv, items[k], parsed@[k]));
                let a = choose|a: &str| a@ == items[k] && #[trigger] conv.ensures((a,), parsed@[k]);
            }
        }
        let mut out: Vec<Token<u32, u32>> = Vec::new();
        let mut i: usize = 0;
        while i < parsed.len()
            invariant
                i <= parsed@.len(),
                items == payload_items(self.payload@),
                parsed@.len() == items.len(),
                forall|k: int| 0 <= k < parsed@.len() ==> #[trigger] parsed@[k] == crd_token_spec(items[k]),
                out@.len() == i,
                forall|k: int| 0 <= k < i ==> Some(#[trigger] out@[k]) == crd_token_spec(items[k]),
            decreases parsed.len() - i,
        {
            match parsed[i] {
                Some(t) => out.push(t),
                None => {
                    assert(crd_token_spec(items[i as int]) is None);
                    return None;
                },
            }
            i = i + 1;
        }
        assert forall|k: int| 0 <= k < items.len() implies (#[trigger] crd_token_spec(items[k])) is Some by {
            assert(Some(out@[k]) == crd_token_spec(items[k]));
        }
        Some(out)
    }

    /// The signals of a repeat channel; `None` when some item is not one.
    pub fn repeat_signals(&self) -> (r: Option<Vec<Repsiggen>>)
        ensures
            r is Some <==> all_repsigs(payload_items(self.payload@)),
            r matches Some(v) ==> v@.len() == payload_items(self.payload@).len() && forall|k: int|
                0 <= k < v@.len() ==> Some(#[trigger] v@[k]) == repsig_spec(payload_items(self.payload@)[k]),
    {
        let conv = |a: &str| -> (t: Option<Repsiggen>)
            ensures
                t == repsig_spec(a@),
            {
                match Repsiggen::try_from_str(a) {
                    Ok(g) => Some(g),
                    Err(_) => None,
                }
            };
        let parsed = self.parse_payload(conv);
        let ghost items = payload_items(self.payload@);
        proof {
            assert forall|k: int| 0 <= k < parsed@.len() implies #[trigger] parsed@[k] == repsig_spec(items[k]) by {
                assert(converted(conv, items[k], parsed@[k]));
                let a = choose|a: &str| a@ == items[k] && #[trigger] conv.ensures((a,), parsed@[k]);
            }
        }
        let mut out: Vec<Repsiggen> = Vec::new();
        let mut i: usize = 0;
        while i < parsed.len()
            invariant
                i <= parsed@.len(),
                items == payload_items(self.payload@),
                parsed@.len() == items.len(),
                forall|k: int| 0 <= k < parsed@.len() ==> #[trigger] parsed@[k] == repsig_spec(items[k]),
                out@.len() == i,
                forall|k: int| 0 <= k < i ==> Some(#[trigger] out@[k]) == repsig_spec(items[k]),
            decreases parsed.len() - i,
        {
            match parsed[i] {
                Some(t) => out.push(t),
                None => {
                    assert(repsig_spec(items[i as int]) is None);
                    return None;
                },
            }
            i = i + 1;
        }
        assert forall|k: int| 0 <= k < items.len() implies (#[trigger] repsig_spec(items[k])) is Some by {
            assert(Some(out@[k]) == repsig_spec(items[k]));
        }
        Some(out)
    }
}

} // verus!
