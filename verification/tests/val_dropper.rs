use comal::templates::primitive::{parse_crd_token, Token};
use comal::templates::stkn_dropper::DropStatus;
use comal::templates::val_dropper::ValDrop;

fn toks(items: &[&str]) -> Vec<Token<u32, u32>> {
    items.iter().map(|s| parse_crd_token(s).unwrap()).collect()
}

fn vals(items: &[&str]) -> Vec<Token<f32, u32>> {
    items
        .iter()
        .map(|s| Token::<f32, u32>::try_from_str(s).unwrap_or_else(|_| Token::Val(s.parse::<f32>().unwrap())))
        .collect()
}

#[test]
fn val_drop_2d_test() {
    let in_val = vals(&["0.0", "1.0", "2.0", "S0", "0.0", "S0", "2.0", "3.0", "4.0", "S1", "D"]);
    let in_crd = toks(&["0", "1", "2", "S0", "0", "S0", "2", "3", "4", "S1", "D"]);
    let zero: Vec<bool> = in_val.iter().map(|t| matches!(t, Token::Val(v) if *v == 0.0)).collect();
    let (out_val, out_crd, status) = ValDrop::new().run(&in_val, &in_crd, &zero);
    assert_eq!(status, DropStatus::Finished);
    assert_eq!(out_val, vals(&["1.0", "2.0", "S0", "2.0", "3.0", "4.0", "S1", "D"]));
    assert_eq!(out_crd, toks(&["1", "2", "S0", "2", "3", "4", "S1", "D"]));
}

#[test]
fn val_drop_mismatched_tokens_fault() {
    let in_val = vals(&["1.0", "D"]);
    let in_crd = toks(&["S0", "D"]);
    let (_, _, status) = ValDrop::new().run(&in_val, &in_crd, &vec![false, false]);
    assert_eq!(status, DropStatus::Fault);
}
