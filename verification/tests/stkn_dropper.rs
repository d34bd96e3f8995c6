use comal::templates::primitive::{parse_crd_token, Token};
use comal::templates::stkn_dropper::{DropStatus, StknDrop};

fn toks(items: &[&str]) -> Vec<Token<u32, u32>> {
    items.iter().map(|s| parse_crd_token(s).unwrap()).collect()
}

#[test]
fn stkn_drop_basic_test() {
    let in_val = toks(&["S0", "S0", "S0", "0", "S1", "D"]);
    let (out, status) = StknDrop::new().run(&in_val);
    assert_eq!(status, DropStatus::Finished);
    assert_eq!(out, toks(&["0", "S1", "D"]));
}

#[test]
fn stkn_drop_never_repeats_stops() {
    let in_val = toks(&["1", "S0", "S1", "2", "S0", "S0", "D"]);
    let (out, _) = StknDrop::new().run(&in_val);
    assert_eq!(out, toks(&["1", "S0", "2", "S0", "D"]));
}

#[test]
fn stkn_drop_rejects_empty_marker() {
    let (_, status) = StknDrop::new().run(&toks(&["1", "N", "D"]));
    assert_eq!(status, DropStatus::Fault);
}
