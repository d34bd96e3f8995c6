use comal::templates::crd_masker::{BelowDiagonal, CrdMask};
use comal::templates::primitive::{parse_crd_token, Token};
use comal::templates::stkn_dropper::DropStatus;

fn toks(items: &[&str]) -> Vec<Token<u32, u32>> {
    items.iter().map(|s| parse_crd_token(s).unwrap()).collect()
}

#[test]
fn tril_mask_keeps_upper_triangle() {
    let outer = toks(&["0", "1", "2", "S0", "D"]);
    let inner = toks(&["0", "1", "3", "S0", "0", "1", "2", "S0", "0", "1", "2", "S1", "D"]);
    let refs = toks(&["0", "1", "2", "S0", "3", "4", "5", "S0", "6", "7", "8", "S1", "D"]);
    let (o, i, r, st) = CrdMask::new(BelowDiagonal).run(&outer, &inner, &refs);
    assert_eq!(st, DropStatus::Finished);
    assert_eq!(o, toks(&["0", "1", "2", "S0", "D"]));
    assert_eq!(i, toks(&["0", "1", "3", "S0", "1", "2", "S0", "2", "S1", "D"]));
    assert_eq!(r, toks(&["0", "1", "2", "S0", "4", "5", "S0", "8", "S1", "D"]));
}

#[test]
fn tril_mask_drops_emptied_rows() {
    let outer = toks(&["4", "1", "2", "S0", "D"]);
    let inner = toks(&["0", "1", "3", "S0", "0", "1", "2", "S0", "0", "1", "2", "S1", "D"]);
    let refs = toks(&["0", "1", "2", "S0", "3", "4", "5", "S0", "6", "7", "8", "S1", "D"]);
    let (o, i, r, st) = CrdMask::new(BelowDiagonal).run(&outer, &inner, &refs);
    assert_eq!(st, DropStatus::Finished);
    assert_eq!(o, toks(&["1", "2", "S0", "D"]));
    assert_eq!(i, toks(&["1", "2", "S0", "2", "S1", "D"]));
    assert_eq!(r, toks(&["4", "5", "S0", "8", "S1", "D"]));
}

#[test]
fn mask_empty_inner_token_faults() {
    let outer = toks(&["0", "D"]);
    let inner = toks(&["N", "D"]);
    let (_, _, _, st) = CrdMask::new(BelowDiagonal).run(&outer, &inner, &inner);
    assert_eq!(st, DropStatus::Fault);
}
