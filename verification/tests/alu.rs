use comal::templates::binary::Binary;
use comal::templates::new_alu::ALUMul;
use comal::templates::primitive::{parse_crd_token, Token};
use comal::templates::stkn_dropper::DropStatus;
use comal::templates::unary::Unary;

fn fvals(items: &[&str]) -> Vec<Token<f32, u32>> {
    items
        .iter()
        .map(|s| match parse_crd_token(s) {
            Some(Token::Stop(l)) => Token::Stop(l),
            Some(Token::Done) => Token::Done,
            Some(Token::Empty) => Token::Empty,
            _ => Token::Val(s.parse::<f32>().unwrap()),
        })
        .collect()
}

const IN: [&str; 12] = ["0.0", "-1.0", "-2.0", "3.0", "S0", "0.0", "1.0", "2.0", "3.0", "4.0", "S1", "D"];

#[test]
fn unary_relu_test() {
    let (out, st) = Unary::new(|v: f32| v.max(0.0)).run(&fvals(&IN));
    assert_eq!(st, DropStatus::Finished);
    assert_eq!(out, fvals(&["0.0", "0.0", "0.0", "3.0", "S0", "0.0", "1.0", "2.0", "3.0", "4.0", "S1", "D"]));
}

#[test]
fn unary_scalar_mul_test() {
    let (out, st) = Unary::new(|v: f32| v * 2.0).run(&fvals(&IN));
    assert_eq!(st, DropStatus::Finished);
    assert_eq!(out, fvals(&["0.0", "-2.0", "-4.0", "6.0", "S0", "0.0", "2.0", "4.0", "6.0", "8.0", "S1", "D"]));
}

#[test]
fn unary_tutorial_relu_test() {
    let (out, _) = Unary::new(|v: f32| v.max(0.0)).run(&fvals(&IN));
    assert_eq!(out, fvals(&["0.0", "0.0", "0.0", "3.0", "S0", "0.0", "1.0", "2.0", "3.0", "4.0", "S1", "D"]));
}

#[test]
fn unary_empty_token_faults() {
    let (out, st) = Unary::new(|v: f32| v).run(&fvals(&["1.0", "N", "D"]));
    assert_eq!(st, DropStatus::Fault);
    assert_eq!(out, fvals(&["1.0"]));
}

/// The same stream against zeros on the second input.
fn zeros_like(s: &[Token<f32, u32>]) -> Vec<Token<f32, u32>> {
    s.iter().map(|t| if let Token::Val(_) = t { Token::Val(0.0) } else { *t }).collect()
}

#[test]
fn binary_relu_test() {
    let a = fvals(&IN);
    let (out, st) = Binary::new(|x: f32, y: f32| x.max(y), 1, 1, 1).run(&a, &zeros_like(&a));
    assert_eq!(st, DropStatus::Finished);
    assert_eq!(out, fvals(&["0.0", "0.0", "0.0", "3.0", "S0", "0.0", "1.0", "2.0", "3.0", "4.0", "S1", "D"]));
}

#[test]
fn binary_scalar_mul_test() {
    let a = fvals(&IN);
    let twos: Vec<Token<f32, u32>> = a.iter().map(|t| if let Token::Val(_) = t { Token::Val(2.0) } else { *t }).collect();
    let (out, st) = Binary::new(|x: f32, y: f32| x * y, 1, 1, 1).run(&a, &twos);
    assert_eq!(st, DropStatus::Finished);
    assert_eq!(out, fvals(&["0.0", "-2.0", "-4.0", "6.0", "S0", "0.0", "2.0", "4.0", "6.0", "8.0", "S1", "D"]));
}

#[test]
fn binary_unequal_stops_fault() {
    let (out, st) = Binary::new(|x: f32, y: f32| x + y, 1, 1, 1).run(&fvals(&["1.0", "S0", "D"]), &fvals(&["2.0", "S1", "D"]));
    assert_eq!(st, DropStatus::Fault);
    assert_eq!(out, fvals(&["3.0"]));
}

#[test]
fn mul_test() {
    let (out, st) = ALUMul::new(|x: f32, y: f32| x * y).run(&fvals(&IN), &fvals(&["S0", "S1", "D"]));
    assert_eq!(st, DropStatus::Finished);
    assert_eq!(out, fvals(&["S0", "S1", "D"]));
}

#[test]
fn mul_multiplies_aligned_payloads() {
    let (out, st) = ALUMul::new(|x: f32, y: f32| x * y).run(&fvals(&["2.0", "3.0", "S0", "D"]), &fvals(&["4.0", "S0", "D"]));
    assert_eq!(st, DropStatus::Finished);
    assert_eq!(out, fvals(&["8.0", "S0", "D"]));
}

#[test]
fn token_text_round_trips() {
    for t in [Token::Val(305u32), Token::Val(0), Token::Stop(2), Token::Empty, Token::Done] {
        let text = t.to_text();
        assert_eq!(parse_crd_token(&text), Some(t));
    }
    assert_eq!(Token::<u32, u32>::Stop(12).to_text(), "S12");
    assert_eq!(Token::<u32, u32>::Val(4096).to_text(), "4096");
    assert_eq!(Token::<u32, u32>::Empty.to_text(), "N");
    assert_eq!(Token::<u32, u32>::Done.to_text(), "D");
}
