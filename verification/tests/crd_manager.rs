use comal::templates::crd_manager::{CrdDrop, CrdHold};
use comal::templates::primitive::{parse_crd_token, Token};
use comal::templates::stkn_dropper::DropStatus;

fn toks(items: &[&str]) -> Vec<Token<u32, u32>> {
    items.iter().map(|s| parse_crd_token(s).unwrap()).collect()
}

fn crd_drop_test(in_ocrd: Vec<Token<u32, u32>>, in_icrd: Vec<Token<u32, u32>>, out_ocrd: Vec<Token<u32, u32>>) {
    let (o, i, status) = CrdDrop::new().run(&in_ocrd, &in_icrd);
    assert_eq!(status, DropStatus::Finished);
    assert_eq!(o, out_ocrd);
    assert_eq!(i, in_icrd);
}

fn crd_hold_test(in_ocrd: Vec<Token<u32, u32>>, in_icrd: Vec<Token<u32, u32>>, out_ocrd: Vec<Token<u32, u32>>) {
    let (o, i, status) = CrdHold::new().run(&in_ocrd, &in_icrd);
    assert_eq!(status, DropStatus::Finished);
    assert_eq!(o, out_ocrd);
    assert_eq!(i, in_icrd);
}

#[test]
fn crd_drop_1d_test() {
    crd_drop_test(toks(&["0", "1", "S0", "D"]), toks(&["1", "S0", "S1", "D"]), toks(&["0", "S0", "D"]));
}

#[test]
fn crd_drop_1d_test1() {
    crd_drop_test(
        toks(&["0", "1", "2", "3", "S0", "D"]),
        toks(&["1", "S0", "1", "S0", "S0", "1", "S1", "D"]),
        toks(&["0", "1", "3", "S0", "D"]),
    );
}

#[test]
fn crd_drop_1d_test2() {
    crd_drop_test(toks(&["1", "S0", "D"]), toks(&["1", "2", "3", "S1", "D"]), toks(&["1", "S0", "D"]));
}

#[test]
fn crd_drop_1d_test3() {
    crd_drop_test(toks(&["0", "1", "S0", "D"]), toks(&["1", "S0", "1", "S1", "D"]), toks(&["0", "1", "S0", "D"]));
}

#[test]
fn crd_hold_1d_test() {
    crd_hold_test(
        toks(&["0", "1", "2", "S0", "D"]),
        toks(&["0", "2", "S0", "2", "S0", "2", "S1", "D"]),
        toks(&["0", "0", "S0", "1", "S0", "2", "S1", "D"]),
    );
}

#[test]
fn crd_hold_1d_test1() {
    crd_hold_test(
        toks(&["0", "2", "S0", "3", "S0", "4", "S1", "D"]),
        toks(&["0", "2", "3", "S0", "0", "2", "3", "S1", "0", "S1", "2", "3", "S2", "D"]),
        toks(&["0", "0", "0", "S0", "2", "2", "2", "S1", "3", "S1", "4", "4", "S2", "D"]),
    );
}

#[test]
fn crd_hold_1d_test2() {
    crd_hold_test(
        toks(&["0", "1", "2", "5", "S0", "D"]),
        toks(&["1", "2", "5", "S0", "2", "S0", "2", "S0", "2", "3", "4", "5", "S1", "D"]),
        toks(&["0", "0", "0", "S0", "1", "S0", "2", "S0", "5", "5", "5", "5", "S1", "D"]),
    );
}

#[test]
fn crd_drop_empty_outer_faults() {
    let (_, _, status) = CrdDrop::new().run(&toks(&["N"]), &toks(&["D"]));
    assert_eq!(status, DropStatus::Fault);
}
