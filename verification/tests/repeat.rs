use comal::templates::primitive::{parse_crd_token, Repsiggen, Token};
use comal::templates::repeat::{Repeat, RepeatSigGen, RepeatStatus};

fn toks(items: &[&str]) -> Vec<Token<u32, u32>> {
    items.iter().map(|s| parse_crd_token(s).unwrap()).collect()
}

fn sigs(items: &[&str]) -> Vec<Repsiggen> {
    items.iter().map(|s| Repsiggen::try_from_str(s).unwrap()).collect()
}

#[test]
fn repeat_2d_test() {
    let in_ref = toks(&["0", "1", "S0", "2", "S0", "3", "S1", "D"]);
    let in_repsig = sigs(&["R", "R", "R", "S", "R", "R", "R", "S", "R", "S", "R", "R", "S", "D"]);
    let out_ref = toks(&["0", "0", "0", "S0", "1", "1", "1", "S1", "2", "S1", "3", "3", "S2", "D"]);
    let (out, status) = Repeat::new().run(&in_ref, &in_repsig);
    assert_eq!(status, RepeatStatus::Finished);
    assert_eq!(out, out_ref);
}

#[test]
fn repeat_1d_test() {
    let in_ref = toks(&["0", "1", "2", "S0", "D"]);
    let in_repsig = sigs(&["R", "R", "S", "R", "S", "R", "S", "D"]);
    let out_ref = toks(&["0", "0", "S0", "1", "S0", "2", "S1", "D"]);
    let (out, status) = Repeat::new().run(&in_ref, &in_repsig);
    assert_eq!(status, RepeatStatus::Finished);
    assert_eq!(out, out_ref);
}

#[test]
fn repsiggen_2d_test() {
    let in_ref = toks(&["0", "1", "S0", "2", "S0", "3", "S1", "D"]);
    let out_repsig = sigs(&["R", "R", "S", "R", "S", "R", "S", "D"]);
    assert_eq!(RepeatSigGen::new().run(&in_ref), out_repsig);
}

#[test]
fn full_repeat_2d_test() {
    let in_ref = toks(&["0", "1", "2", "S0", "D"]);
    let in_repsig_ref = toks(&["0", "1", "S0", "2", "S0", "3", "S1", "D"]);
    let out_ref = toks(&["0", "0", "S0", "1", "S0", "2", "S1", "D"]);
    let repsig = RepeatSigGen::new().run(&in_repsig_ref);
    let (out, status) = Repeat::new().run(&in_ref, &repsig);
    assert_eq!(status, RepeatStatus::Finished);
    assert_eq!(out, out_ref);
}

#[test]
fn repeat_done_signal_on_payload_faults() {
    let in_ref = toks(&["0", "D"]);
    let in_repsig = sigs(&["D"]);
    let (_, status) = Repeat::new().run(&in_ref, &in_repsig);
    assert_eq!(status, RepeatStatus::Fault);
}

#[test]
fn repeat_runs_out_of_signals() {
    let in_ref = toks(&["0", "D"]);
    let in_repsig = sigs(&["R"]);
    let (out, status) = Repeat::new().run(&in_ref, &in_repsig);
    assert_eq!(status, RepeatStatus::Exhausted);
    assert_eq!(out, toks(&["0"]));
}
