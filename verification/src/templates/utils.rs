use vstd::prelude::*;

use super::primitive::{parse_u32, parse_u32_spec, Token};
use super::token_text::{digits, lemma_digits_parse};

verus! {

/// The numbers of the lines that read as a `u32`, in order; the other
/// lines are skipped.
pub open spec fn parsed_lines(lines: Seq<Seq<char>>) -> Seq<u32>
    decreases lines.len(),
{
    if lines.len() == 0 {
        seq![]
    } else {
        let rest = parsed_lines(lines.drop_last());
        match parse_u32_spec(lines.last()) {
            Some(v) => rest.push(v),
            None => rest,
        }
    }
}

pub open spec fn lines_view(lines: Seq<String>) -> Seq<Seq<char>> {
    lines.map_values(|l: String| l@)
}

/// Reads an array stored one number per line, skipping the lines that do
/// not hold a `u32`.
pub fn parse_u32_lines(lines: &Vec<String>) -> (r: Vec<u32>)
    ensures
        r@ == parsed_lines(lines_view(lines@)),
{
    let mut out: Vec<u32> = Vec::new();
    let mut i: usize = 0;
    while i < lines.len()
        invariant
            i <= lines@.len(),
            out@ == parsed_lines(lines_view(lines@).take(i as int)),
        decreases lines.len() - i,
    {
        let ghost all = lines_view(lines@);
        assert(all.take(i as int + 1).drop_last() =~= all.take(i as int));
        assert(all.take(i as int + 1).last() == lines@[i as int]@);
        match parse_u32(lines[i].as_str()) {
            Some(v) => out.push(v),
            None => {},
        }
        i = i + 1;
    }
    assert(lines_view(lines@).take(lines@.len() as int) =~= lines_view(lines@));
    out
}


/// Writes an array one number per line, each in decimal.
pub fn format_u32_lines(values: &Vec<u32>) -> (r: Vec<String>)
    ensures
        lines_view(r@) == values@.map_values(|v: u32| digits(v as nat)),
{
    let mut out: Vec<String> = Vec::new();
    let mut i: usize = 0;
    while i < values.len()
        invariant
            i <= values@.len(),
            lines_view(out@) == values@.take(i as int).map_values(|v: u32| digits(v as nat)),
        decreases values.len() - i,
    {
        let t: Token<u32, u32> = Token::Val(values[i]);
        let line = t.to_text();
        let ghost o0 = out@;
        out.push(line);
        assert(lines_view(out@) =~= lines_view(o0).push(digits(values@[i as int] as nat)));
        assert(values@.take(i as int + 1).map_values(|v: u32| digits(v as nat)) =~= values@.take(i as int).map_values(
            |v: u32| digits(v as nat),
        ).push(digits(values@[i as int] as nat)));
        i = i + 1;
    }
    assert(values@.take(values@.len() as int) =~= values@);
    out
}

/// Law: an array written one number per line reads back as the same
/// array.
pub proof fn lemma_lines_read_back(values: Seq<u32>)
    ensures
        parsed_lines(values.map_values(|v: u32| digits(v as nat))) == values,
    decreases values.len(),
{
    let lines = values.map_values(|v: u32| digits(v as nat));
    if values.len() > 0 {
        let init = values.drop_last();
        lemma_lines_read_back(init);
        assert(lines.drop_last() =~= init.map_values(|v: u32| digits(v as nat)));
        lemma_digits_parse(values.last());
        assert(values =~= init.push(values.last()));
    } else {
        assert(values =~= Seq::<u32>::empty());
    }
}

} // verus!
