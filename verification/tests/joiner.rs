use comal::templates::joiner::{Intersect, JoinStatus, NIntersect, Union};
use comal::templates::primitive::{parse_crd_token, Token};

fn toks(items: &[&str]) -> Vec<Token<u32, u32>> {
    items.iter().map(|s| parse_crd_token(s).unwrap()).collect()
}

#[test]
fn union_2d_test() {
    let in_crd1 = toks(&["0", "1", "S0", "2", "3", "S0", "S0", "4", "5", "S1", "D"]);
    let in_ref1 = toks(&["0", "1", "S0", "2", "3", "S0", "S0", "4", "5", "S1", "D"]);
    let in_crd2 = toks(&["1", "2", "3", "S0", "S0", "0", "1", "2", "S0", "S1", "D"]);
    let in_ref2 = toks(&["0", "1", "2", "S0", "S0", "2", "3", "4", "S0", "S1", "D"]);
    let out_crd = toks(&["0", "1", "2", "3", "S0", "2", "3", "S0", "0", "1", "2", "S0", "4", "5", "S1", "D"]);
    let out_ref1 = toks(&["0", "1", "N", "N", "S0", "2", "3", "S0", "N", "N", "N", "S0", "4", "5", "S1", "D"]);
    let out_ref2 = toks(&["N", "0", "1", "2", "S0", "N", "N", "S0", "2", "3", "4", "S0", "N", "N", "S1", "D"]);
    let (c, r1, r2, status) = Union::new().run(&in_crd1, &in_ref1, &in_crd2, &in_ref2);
    assert_eq!(status, JoinStatus::Finished);
    assert_eq!(c, out_crd);
    assert_eq!(r1, out_ref1);
    assert_eq!(r2, out_ref2);
}

#[test]
fn intersect_2d_test() {
    let in_crd1 = toks(&["0", "S0", "0", "1", "2", "S1", "D"]);
    let in_ref1 = toks(&["0", "S0", "1", "2", "3", "S1", "D"]);
    let in_crd2 = toks(&["0", "1", "2", "S0", "0", "1", "2", "S1", "D"]);
    let in_ref2 = toks(&["0", "1", "2", "S0", "0", "1", "2", "S1", "D"]);
    let (c, refs, status) = NIntersect::new().run(&vec![in_crd1, in_crd2], &vec![in_ref1, in_ref2]);
    assert_eq!(status, JoinStatus::Finished);
    assert_eq!(c, toks(&["0", "S0", "0", "1", "2", "S1", "D"]));
    assert_eq!(refs[0], toks(&["0", "S0", "1", "2", "3", "S1", "D"]));
    assert_eq!(refs[1], toks(&["0", "S0", "0", "1", "2", "S1", "D"]));
}

#[test]
fn two_way_intersect_keeps_common_coordinates() {
    let in_crd1 = toks(&["0", "2", "5", "S0", "D"]);
    let in_ref1 = toks(&["10", "11", "12", "S0", "D"]);
    let in_crd2 = toks(&["1", "2", "5", "7", "S0", "D"]);
    let in_ref2 = toks(&["20", "21", "22", "23", "S0", "D"]);
    let (c, r1, r2, status) = Intersect::new().run(&in_crd1, &in_ref1, &in_crd2, &in_ref2);
    assert_eq!(status, JoinStatus::Finished);
    assert_eq!(c, toks(&["2", "5", "S0", "D"]));
    assert_eq!(r1, toks(&["11", "12", "S0", "D"]));
    assert_eq!(r2, toks(&["21", "22", "S0", "D"]));
}

#[test]
fn two_way_intersect_unequal_stops_fault() {
    let a = toks(&["S0", "D"]);
    let b = toks(&["S1", "D"]);
    assert!(!Intersect::new().stop_levels_agree(&a, &a, &b, &b));
    assert!(Intersect::new().stop_levels_agree(&a, &a, &a, &a));
}
