use comal::templates::accumulator::{FlashSoftmaxAccum, MaxReduce, Reduce, Spacc1, Spacc2};
use comal::templates::primitive::{parse_crd_token, Token};
use comal::templates::stkn_dropper::DropStatus;

fn toks(items: &[&str]) -> Vec<Token<u32, u32>> {
    items.iter().map(|s| parse_crd_token(s).unwrap()).collect()
}

#[test]
fn reduce_2d_test() {
    let in_val = toks(&["5", "5", "S0", "5", "S0", "4", "8", "S0", "4", "3", "S0", "4", "3", "S1", "D"]);
    let (out, status) = Reduce::new(0).run_sums(&in_val);
    assert_eq!(status, DropStatus::Finished);
    assert_eq!(out, toks(&["10", "5", "12", "7", "7", "S0", "D"]));
}

#[test]
fn reduce_2d_test1() {
    let in_val = toks(&["S0", "S1", "S1", "S2", "2", "S0", "S1", "S1", "S2", "S0", "3", "S1", "S1", "S3", "D"]);
    let (out, status) = Reduce::new(0).run(&in_val);
    assert_eq!(status, DropStatus::Finished);
    assert_eq!(out.last(), Some(&Token::Done));
}

#[test]
fn reduce_red_depth_1_single_group() {
    let in_val = toks(&["1", "2", "S0", "3", "S1", "D"]);
    let (out, _) = Reduce::new(1).run_sums(&in_val);
    assert_eq!(out, toks(&["6", "S0", "D"]));
}

fn fvals(items: &[&str]) -> Vec<Token<f32, u32>> {
    items
        .iter()
        .map(|s| match parse_crd_token(s) {
            Some(Token::Stop(l)) => Token::Stop(l),
            Some(Token::Done) => Token::Done,
            Some(Token::Empty) => Token::Empty,
            _ => Token::Val(s.parse::<f32>().unwrap()),
        })
        .collect()
}

/// Adds up each list of values an accumulator hands out.
fn list_sums(out: &[Token<Vec<f32>, u32>]) -> Vec<Token<f32, u32>> {
    out.iter()
        .map(|t| match t {
            Token::Val(v) => Token::Val(v.iter().fold(0.0f32, |a, b| a + b)),
            Token::Stop(s) => Token::Stop(*s),
            Token::Empty => Token::Empty,
            Token::Done => Token::Done,
        })
        .collect()
}

#[test]
fn spacc1_2d_test() {
    let in_ocrd = toks(&["0", "2", "S0", "2", "S1", "D"]);
    let in_icrd = toks(&["0", "2", "3", "S0", "0", "2", "3", "S1", "0", "2", "3", "S2", "D"]);
    let in_val = fvals(&["50.0", "5.0", "10.0", "S0", "40.0", "4.0", "8.0", "S1", "-40.0", "33.0", "36.0", "S2", "D"]);
    let (out_icrd, out_val, status) = Spacc1::new(0).run(&in_ocrd, &in_icrd, &in_val);
    assert_eq!(status, DropStatus::Finished);
    assert_eq!(out_icrd, toks(&["0", "2", "3", "S0", "0", "2", "3", "S1", "D"]));
    assert_eq!(list_sums(&out_val), fvals(&["90.0", "9.0", "18.0", "S0", "-40.0", "33.0", "36.0", "S1", "D"]));
}

/// The inner coordinate stream holds one more coordinate than the value
/// stream holds values in its first fiber, so the streams fall out of step.
#[test]
fn spacc1_2d_test1() {
    let in_ocrd = toks(&[
        "0", "S0", "1", "S0", "2", "S0", "3", "S0", "4", "S0", "5", "S0", "6", "S0", "7", "S0", "6", "S0", "0", "S0", "2",
        "S0", "3", "S0", "1", "S0", "5", "S1", "D",
    ]);
    let in_icrd = toks(&[
        "478", "479", "480", "481", "482", "483", "484", "485", "486", "487", "488", "489", "490", "491", "492", "S1",
        "0", "346", "S1", "1", "696", "S1", "2", "353", "S1", "3", "666", "S1", "4", "S1", "5", "699", "S1", "6", "22",
        "S1", "5", "699", "S1", "478", "479", "480", "481", "482", "483", "484", "485", "486", "487", "488", "489",
        "490", "491", "492", "S1", "1", "696", "S1", "2", "353", "S1", "0", "346", "S1", "4", "S2", "D",
    ]);
    let in_val = fvals(&[
        "2.0", "2.0", "2.0", "2.0", "2.0", "2.0", "2.0", "2.0", "2.0", "2.0", "2.0", "2.0", "2.0", "2.0", "S1", "2.0",
        "2.0", "S1", "2.0", "2.0", "S1", "2.0", "2.0", "S1", "2.0", "2.0", "S1", "2.0", "S1", "2.0", "2.0", "S1", "2.0",
        "2.0", "S1", "2.0", "2.0", "S1", "2.0", "2.0", "2.0", "2.0", "2.0", "2.0", "2.0", "2.0", "2.0", "2.0", "2.0",
        "2.0", "2.0", "2.0", "S1", "2.0", "2.0", "S1", "2.0", "2.0", "S1", "2.0", "2.0", "S1", "2.0", "S2", "D",
    ]);
    let (out_icrd, out_val, status) = Spacc1::new(0).run(&in_ocrd, &in_icrd, &in_val);
    assert_eq!(status, DropStatus::Fault);
    assert!(out_icrd.is_empty());
    assert!(out_val.is_empty());
}

#[test]
fn spacc1_keeps_accumulating_below_reduction_depth() {
    let in_ocrd = toks(&["1", "S0", "1", "S1", "D"]);
    let in_icrd = toks(&["4", "2", "S0", "2", "S0", "D"]);
    let in_val = fvals(&["1.0", "2.0", "S0", "5.0", "S0", "D"]);
    let (out_icrd, out_val, status) = Spacc1::new(1).run(&in_ocrd, &in_icrd, &in_val);
    assert_eq!(status, DropStatus::Finished);
    assert_eq!(out_icrd, toks(&["2", "4", "S1", "D"]));
    assert_eq!(list_sums(&out_val), fvals(&["7.0", "1.0", "S1", "D"]));
}

#[test]
fn spacc1_mismatched_inner_streams_fault() {
    let in_ocrd = toks(&["0", "S0", "D"]);
    let in_icrd = toks(&["1", "S0", "D"]);
    let in_val = fvals(&["S0", "D"]);
    let (_, _, status) = Spacc1::new(0).run(&in_ocrd, &in_icrd, &in_val);
    assert_eq!(status, DropStatus::Fault);
}

#[test]
fn spacc2_2d_test() {
    let in_crd2 = toks(&["0", "1", "S0", "D"]);
    let in_crd1 = toks(&["0", "2", "S0", "2", "S1", "D"]);
    let in_crd0 = toks(&["0", "2", "3", "S0", "0", "2", "3", "S1", "0", "2", "3", "S2", "D"]);
    let in_val = fvals(&["50.0", "5.0", "10.0", "S0", "40.0", "4.0", "8.0", "S1", "-40.0", "33.0", "36.0", "S2", "D"]);
    let (out_crd0, out_crd1, out_val, status) = Spacc2::new(0).run(&in_crd2, &in_crd1, &in_crd0, &in_val);
    assert_eq!(status, DropStatus::Finished);
    assert_eq!(out_crd0, toks(&["0", "2", "3", "S0", "0", "2", "3", "S1", "D"]));
    assert_eq!(out_crd1, toks(&["0", "2", "S0", "D"]));
    assert_eq!(list_sums(&out_val), fvals(&["50.0", "5.0", "10.0", "S0", "0.0", "37.0", "44.0", "S1", "D"]));
}

#[test]
fn spacc2_2d_test2() {
    let in_crd2 = toks(&["0", "S0", "D"]);
    let in_crd1 = toks(&["0", "2", "S1", "D"]);
    let in_crd0 = toks(&["0", "2", "3", "S0", "0", "2", "3", "S2", "D"]);
    let in_val = fvals(&["50.0", "5.0", "10.0", "S0", "40.0", "4.0", "8.0", "S2", "D"]);
    let (out_crd0, out_crd1, out_val, status) = Spacc2::new(0).run(&in_crd2, &in_crd1, &in_crd0, &in_val);
    assert_eq!(status, DropStatus::Finished);
    assert_eq!(out_crd0, toks(&["0", "2", "3", "S0", "0", "2", "3", "S1", "D"]));
    assert_eq!(out_crd1, toks(&["0", "2", "S0", "D"]));
    assert_eq!(list_sums(&out_val), fvals(&["50.0", "5.0", "10.0", "S0", "40.0", "4.0", "8.0", "S1", "D"]));
}

#[test]
fn spacc2_2d_test3() {
    let in_crd2 = toks(&["0", "S0", "D"]);
    let in_crd1 = toks(&["0", "2", "S1", "D"]);
    let in_crd0 = toks(&["0", "2", "3", "S0", "0", "2", "3", "S2", "D"]);
    let in_val = fvals(&["50.0", "5.0", "10.0", "S0", "40.0", "4.0", "8.0", "S2", "D"]);
    let (out_crd0, out_crd1, out_val, status) = Spacc2::new(0).run(&in_crd2, &in_crd1, &in_crd0, &in_val);
    assert_eq!(status, DropStatus::Finished);
    assert_eq!(out_crd1, toks(&["0", "2", "S0", "D"]));
    assert_eq!(out_crd0.len(), out_val.len());
    assert_eq!(
        out_val,
        vec![
            Token::Val(vec![50.0]),
            Token::Val(vec![5.0]),
            Token::Val(vec![10.0]),
            Token::Stop(0),
            Token::Val(vec![40.0]),
            Token::Val(vec![4.0]),
            Token::Val(vec![8.0]),
            Token::Stop(1),
            Token::Done,
        ]
    );
}

#[test]
fn spacc2_sorts_outer_and_inner_coordinates() {
    let in_crd2 = toks(&["0", "S0", "D"]);
    let in_crd1 = toks(&["5", "1", "S0", "D"]);
    let in_crd0 = toks(&["9", "3", "S0", "7", "S1", "D"]);
    let in_val = fvals(&["1.0", "2.0", "S0", "3.0", "S1", "D"]);
    let (out_crd0, out_crd1, out_val, status) = Spacc2::new(0).run(&in_crd2, &in_crd1, &in_crd0, &in_val);
    assert_eq!(status, DropStatus::Finished);
    assert_eq!(out_crd1, toks(&["1", "5", "S0", "D"]));
    assert_eq!(out_crd0, toks(&["7", "S0", "3", "9", "S1", "D"]));
    assert_eq!(list_sums(&out_val), fvals(&["3.0", "S0", "2.0", "1.0", "S1", "D"]));
}

fn reduce_check(input: &[&str], expected: &[&str], depth: u32) {
    let in_val = toks(input);
    let (out, status) = Reduce::new(depth).run_sums(&in_val);
    assert_eq!(status, DropStatus::Finished);
    assert_eq!(out, toks(expected));
    let (groups, _) = Reduce::new(depth).run(&in_val);
    assert_eq!(groups.len(), out.len());
}

#[test]
fn reduce_red_depth_0_untiled_check() {
    reduce_check(
        &["5", "5", "S0", "5", "S0", "4", "8", "S0", "4", "3", "S0", "4", "3", "S1", "D"],
        &["10", "5", "12", "7", "7", "S0", "D"],
        0,
    );
}

#[test]
fn reduce_red_depth_1_multi_group_with_outer() {
    reduce_check(
        &["1", "S0", "2", "S0", "S1", "3", "S0", "4", "S0", "S1", "S2", "D"],
        &["3", "S0", "7", "S0", "0", "S1", "D"],
        1,
    );
}

#[test]
fn reduce_red_depth_2_deeper_nesting() {
    reduce_check(
        &["1", "2", "S0", "3", "S0", "S1", "4", "S0", "5", "6", "S0", "S1", "S2", "D"],
        &["21", "S1", "D"],
        2,
    );
}

#[test]
fn reduce_red_depth_1_empty_inner_fibers() {
    reduce_check(&["S0", "S0", "S1", "D"], &["0", "S0", "D"], 1);
}

#[test]
fn reduce_red_depth_1_long_inner_chain() {
    reduce_check(&["S0", "7", "S0", "S0", "S0", "S1", "D"], &["7", "S0", "D"], 1);
}

fn spacc1_check(ocrd: &[&str], icrd: &[&str], vals: &[&str], out_icrd: &[&str], out_vals: &[&str], depth: u32) {
    let (c, v, status) = Spacc1::new(depth).run(&toks(ocrd), &toks(icrd), &fvals(vals));
    assert_eq!(status, DropStatus::Finished);
    assert_eq!(c, toks(out_icrd));
    assert_eq!(list_sums(&v), fvals(out_vals));
}

#[test]
fn spacc1_red_depth_0_untiled_check() {
    spacc1_check(
        &["0", "2", "S0", "2", "S1", "D"],
        &["0", "2", "3", "S0", "0", "2", "3", "S1", "0", "2", "3", "S2", "D"],
        &["50.0", "5.0", "10.0", "S0", "40.0", "4.0", "8.0", "S1", "-40.0", "33.0", "36.0", "S2", "D"],
        &["0", "2", "3", "S0", "0", "2", "3", "S1", "D"],
        &["90.0", "9.0", "18.0", "S0", "-40.0", "33.0", "36.0", "S1", "D"],
        0,
    );
}

#[test]
fn spacc1_red_depth_1_two_tiles_one_row() {
    spacc1_check(
        &["0", "S0", "0", "S1", "D"],
        &["0", "1", "S0", "0", "2", "S1", "D"],
        &["10.0", "20.0", "S0", "5.0", "30.0", "S1", "D"],
        &["0", "1", "2", "S1", "D"],
        &["15.0", "20.0", "30.0", "S1", "D"],
        1,
    );
}

#[test]
fn spacc1_red_depth_1_two_rows_two_tiles_each() {
    spacc1_check(
        &["0", "S0", "0", "S1", "0", "S0", "0", "S2", "D"],
        &["0", "S0", "0", "1", "S1", "1", "S0", "1", "S2", "D"],
        &["1.0", "S0", "2.0", "3.0", "S1", "4.0", "S0", "5.0", "S2", "D"],
        &["0", "1", "S1", "1", "S2", "D"],
        &["3.0", "3.0", "S1", "9.0", "S2", "D"],
        1,
    );
}

/// Takes the maximum over each group a max-reducer hands out, starting from
/// `min_val` for the first group and from the default value afterwards.
fn maxima(input: &[Token<f32, u32>], out: &[Token<(usize, usize, bool), u32>], min_val: f32) -> Vec<Token<f32, u32>> {
    out.iter()
        .map(|t| match t {
            Token::Val((lo, hi, first)) => {
                let mut m = if *first { min_val } else { f32::default() };
                for x in &input[*lo..*hi] {
                    if let Token::Val(v) = x {
                        if !(*v < m) {
                            m = *v;
                        }
                    }
                }
                Token::Val(m)
            }
            Token::Stop(s) => Token::Stop(*s),
            Token::Empty => Token::Empty,
            Token::Done => Token::Done,
        })
        .collect()
}

#[test]
fn max_reduce_2d_test() {
    let in_val = fvals(&["5.0", "5.0", "S0", "5.0", "S0", "4.0", "8.0", "S0", "4.0", "3.0", "S0", "4.0", "3.0", "S1", "D"]);
    let (out, status) = MaxReduce::new().run(&in_val);
    assert_eq!(status, DropStatus::Finished);
    assert_eq!(maxima(&in_val, &out, f32::MIN), fvals(&["5.0", "5.0", "8.0", "4.0", "4.0", "S0", "D"]));
}

#[test]
fn max_reduce_later_groups_start_from_default() {
    let in_val = fvals(&["-3.0", "S0", "-2.0", "S0", "D"]);
    let (out, _) = MaxReduce::new().run(&in_val);
    assert_eq!(maxima(&in_val, &out, f32::MIN), fvals(&["-3.0", "0.0", "D"]));
}

/// The softmax-weighted sum of each row, computed online in one pass over
/// its (score, value elements) list.
fn flash_outputs(out: &[Token<Vec<(f32, Vec<f32>)>, u32>]) -> Vec<Token<f32, u32>> {
    out.iter()
        .map(|t| match t {
            Token::Val(row) => {
                let mut m: f32 = f32::NEG_INFINITY;
                let mut l: f32 = 0.0;
                let mut o: Option<f32> = None;
                for (score, elems) in row {
                    let m_new = score.max(m);
                    let corr = if m == f32::NEG_INFINITY { 0.0_f32 } else { (m - m_new).exp() };
                    let p = (score - m_new).exp();
                    l = l * corr + p;
                    o = o.map(|prev| prev * corr);
                    m = m_new;
                    for v in elems {
                        let w = v * p;
                        o = Some(match o {
                            Some(prev) => prev + w,
                            None => w,
                        });
                    }
                }
                let inv_l = if l > 0.0 { 1.0 / l } else { 0.0 };
                Token::Val(o.unwrap() * inv_l)
            }
            Token::Stop(s) => Token::Stop(*s),
            Token::Empty => Token::Empty,
            Token::Done => Token::Done,
        })
        .collect()
}

#[test]
fn flash_softmax_accum_basic() {
    let scores = vec![Token::Val(1.0_f32), Token::Val(3.0), Token::Val(2.0), Token::Stop(0), Token::Done];
    let vals = vec![Token::Val(10.0_f32), Token::Val(20.0), Token::Val(30.0), Token::Stop(0), Token::Done];
    let mut m: f32 = f32::NEG_INFINITY;
    let mut l_ref: f32 = 0.0;
    let mut o_ref: f32 = 0.0;
    for (&s, &vi) in [1.0_f32, 3.0, 2.0].iter().zip([10.0_f32, 20.0, 30.0].iter()) {
        let m_new = m.max(s);
        let corr = if m == f32::NEG_INFINITY { 0.0_f32 } else { (m - m_new).exp() };
        let p = (s - m_new).exp();
        l_ref = l_ref * corr + p;
        o_ref = o_ref * corr + p * vi;
        m = m_new;
    }
    let ref_scalar: f32 = o_ref / l_ref;
    let (out, status) = FlashSoftmaxAccum::new().run(&scores, &vals);
    assert_eq!(status, DropStatus::Finished);
    assert_eq!(out.len(), 2);
    assert_eq!(
        out[0],
        Token::Val(vec![(1.0, vec![10.0]), (3.0, vec![20.0]), (2.0, vec![30.0])])
    );
    assert_eq!(out[1], Token::Done);
    match flash_outputs(&out)[0] {
        Token::Val(x) => assert!((x - ref_scalar).abs() < 1e-4),
        _ => panic!("expected a value"),
    }
}

#[test]
fn flash_softmax_accum_two_rows() {
    let ref_row0 = {
        let s = [1.0_f32, 2.0];
        let v = [10.0_f32, 20.0];
        let mx = 2.0_f32;
        let e: Vec<f32> = s.iter().map(|x| (x - mx).exp()).collect();
        let sm: f32 = e.iter().sum();
        e.iter().zip(v.iter()).map(|(a, b)| a * b / sm).sum::<f32>()
    };
    let ref_row1 = 5.0_f32;
    let scores = vec![
        Token::Val(1.0_f32), Token::Val(2.0), Token::Stop(0),
        Token::Val(0.0), Token::Val(0.0), Token::Val(0.0), Token::Stop(1),
        Token::Done,
    ];
    let vals = vec![
        Token::Val(10.0_f32), Token::Val(20.0), Token::Stop(0),
        Token::Val(5.0), Token::Val(5.0), Token::Val(5.0), Token::Stop(1),
        Token::Done,
    ];
    let (out, status) = FlashSoftmaxAccum::new().run(&scores, &vals);
    assert_eq!(status, DropStatus::Finished);
    assert_eq!(
        flash_outputs(&out),
        vec![Token::Val(ref_row0), Token::Val(ref_row1), Token::Stop(0), Token::Done]
    );
}

#[test]
fn flash_softmax_accum_head_dim_consumes_inner_stops() {
    let scores = vec![Token::Val(0.0_f32), Token::Val(0.0), Token::Stop(1), Token::Done];
    let vals = vec![
        Token::Val(1.0_f32), Token::Val(2.0), Token::Stop(0),
        Token::Val(3.0), Token::Val(4.0), Token::Stop(1),
        Token::Done,
    ];
    let (out, status) = FlashSoftmaxAccum::with_head_dim(2).run(&scores, &vals);
    assert_eq!(status, DropStatus::Finished);
    assert_eq!(
        out,
        vec![
            Token::Val(vec![(0.0, vec![1.0, 2.0]), (0.0, vec![3.0, 4.0])]),
            Token::Stop(0),
            Token::Done,
        ]
    );
}

#[test]
fn flash_softmax_accum_misaligned_streams_fault() {
    let scores = vec![Token::Val(1.0_f32), Token::Stop(0), Token::Done];
    let vals = vec![Token::<f32, u32>::Stop(0), Token::Done];
    let (_, status) = FlashSoftmaxAccum::new().run(&scores, &vals);
    assert_eq!(status, DropStatus::Fault);
}
