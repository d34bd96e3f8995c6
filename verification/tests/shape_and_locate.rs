use comal::templates::locate::IterateLocate;
use comal::templates::primitive::{parse_crd_token, Token};
use comal::templates::shape_operator::Flatten;
use comal::templates::stkn_dropper::DropStatus;

fn toks(items: &[&str]) -> Vec<Token<u32, u32>> {
    items.iter().map(|s| parse_crd_token(s).unwrap()).collect()
}

#[test]
fn flatten_merges_two_levels() {
    let outer = toks(&["0", "2", "S0", "D"]);
    let inner = toks(&["0", "3", "S0", "1", "S0", "S1", "D"]);
    let (out, st) = Flatten::new(4).run(&outer, &inner);
    assert_eq!(st, DropStatus::Finished);
    // 0*4+0, 0*4+3, then 2*4+1; the inner stops that close the outer
    // coordinates pass nothing on, the last one meets the outer S0
    assert_eq!(out, toks(&["0", "3", "9", "S0", "D"]));
}

#[test]
fn flatten_outer_stop_passes_only_under_inner_stop() {
    let outer = toks(&["0", "2", "S0", "D"]);
    let inner = toks(&["0", "3", "S0", "1", "S1", "D"]);
    let (out, st) = Flatten::new(4).run(&outer, &inner);
    assert_eq!(st, DropStatus::Finished);
    assert_eq!(out, toks(&["0", "3", "9", "D"]));
}

#[test]
fn flatten_coordinate_under_outer_stop_faults() {
    let (out, st) = Flatten::new(4).run(&toks(&["S0", "D"]), &toks(&["1", "D"]));
    assert_eq!(st, DropStatus::Fault);
    assert!(out.is_empty());
}

#[test]
fn flatten_overflowing_coordinate_faults() {
    let (_, st) = Flatten::new(u32::MAX).run(&toks(&["2", "D"]), &toks(&["0", "D"]));
    assert_eq!(st, DropStatus::Fault);
}

#[test]
fn iterate_locate_copies_streams() {
    let refs = toks(&["5", "6", "S0", "D"]);
    let crds = toks(&["1", "2", "S0", "D"]);
    let (r1, r2, c, st) = IterateLocate::new().run(&refs, &crds);
    assert_eq!(st, DropStatus::Finished);
    assert_eq!(r1, crds);
    assert_eq!(r2, refs);
    assert_eq!(c, crds);
}

#[test]
fn iterate_locate_short_stream_is_exhausted() {
    let (r1, _, _, st) = IterateLocate::new().run(&toks(&["5", "6"]), &toks(&["1"]));
    assert_eq!(st, DropStatus::Exhausted);
    assert_eq!(r1, toks(&["1"]));
}
