use comal::templates::array::{Array, ArrayIssuer};
use comal::templates::primitive::{parse_crd_token, Token};
use comal::templates::stkn_dropper::DropStatus;

fn toks(items: &[&str]) -> Vec<Token<u32, u32>> {
    items.iter().map(|s| parse_crd_token(s).unwrap()).collect()
}

#[test]
fn array_2d_test() {
    let in_ref = toks(&["N", "0", "1", "2", "S0", "N", "N", "S0", "2", "3", "4", "S0", "N", "N", "S1", "D"]);
    let arr = Array::new(vec![1u32, 2, 3, 4, 5], 0u32, 1);
    let (out, requests, status) = arr.run(&in_ref);
    assert_eq!(status, DropStatus::Finished);
    assert!(requests.is_empty());
    assert_eq!(out, toks(&["0", "1", "2", "3", "S0", "0", "0", "S0", "3", "4", "5", "S0", "0", "0", "S1", "D"]));
}

#[test]
fn array_hbm_mode_smoke() {
    let mut arr = Array::new(vec![10u32, 20, 30, 40], 0u32, 1);
    arr.enable_hbm_reads(0x6000_0000, 4);
    let (out, requests, status) = arr.run(&toks(&["0", "2", "1", "D"]));
    assert_eq!(status, DropStatus::Finished);
    assert_eq!(out, toks(&["10", "30", "20", "D"]));
    assert_eq!(requests.len(), 1);
    assert_eq!(requests[0].addrs, vec![0x6000_0000u64, 0x6000_0008, 0x6000_0004]);
}

#[test]
fn array_hbm_pipelined_smoke() {
    let arr = Array::new(vec![10u32, 20, 30, 40], 0u32, 1);
    let (issuer, consumer) = arr.enable_hbm_pipelined(0x6000_0000, 4);
    let (requests, forwarded, st) = issuer.run(&toks(&["0", "2", "1", "D"]));
    assert_eq!(st, DropStatus::Finished);
    assert_eq!(requests.len(), 1);
    let (out, status) = consumer.run(&forwarded);
    assert_eq!(status, DropStatus::Finished);
    assert_eq!(out, toks(&["10", "30", "20", "D"]));
}

#[test]
fn array_batches_split_at_batch_size_and_control_tokens() {
    let mut arr = Array::new(vec![7u32; 8], 0u32, 1);
    arr.enable_hbm_reads(100, 0);
    arr.set_hbm_batch_size(2);
    arr.set_prefetch_depth(3);
    let (out, requests, status) = arr.run(&toks(&["0", "1", "2", "S0", "3", "D"]));
    assert_eq!(status, DropStatus::Finished);
    assert_eq!(out, toks(&["7", "7", "7", "S0", "7", "D"]));
    let sizes: Vec<usize> = requests.iter().map(|p| p.addrs.len()).collect();
    assert_eq!(sizes, vec![2, 1, 1]);
    // a stride of zero is raised to one byte
    assert_eq!(requests[0].addrs, vec![100u64, 101]);
}

#[test]
fn array_reference_outside_array_faults() {
    let arr = Array::new(vec![1u32, 2], 0u32, 1);
    let (out, _, status) = arr.run(&toks(&["1", "5", "D"]));
    assert_eq!(status, DropStatus::Fault);
    assert_eq!(out, toks(&["2"]));
}

#[test]
fn array_issuer_forwards_references() {
    let issuer = ArrayIssuer::new(0, 8, 0);
    assert_eq!(issuer.batch_size, 1);
    let (requests, forwarded, st) = issuer.run(&toks(&["3", "S0", "D"]));
    assert_eq!(st, DropStatus::Finished);
    assert_eq!(forwarded, toks(&["3", "S0", "D"]));
    assert_eq!(requests.len(), 1);
    assert_eq!(requests[0].addrs, vec![24u64]);
}
