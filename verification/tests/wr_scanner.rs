use comal::templates::primitive::{parse_crd_token, Token};
use comal::templates::ramulator::hbm_context::ParAddrs;
use comal::templates::wr_scanner::{CompressedWrScan, ValsWrScan};

fn batches(b: &[ParAddrs]) -> Vec<Vec<u64>> {
    b.iter().map(|p| p.addrs.clone()).collect()
}

fn toks(items: &[&str]) -> Vec<Token<u32, u32>> {
    items.iter().map(|s| parse_crd_token(s).unwrap()).collect()
}

#[test]
fn vals_wr_scan_hbm_mode_smoke() {
    let mut vals = ValsWrScan::<u32>::new();
    vals.enable_hbm_writes(0x3000_0000, 4);
    let requested = vals.run(&toks(&["10", "20", "30", "D"]));
    assert_eq!(vals.out_val.committed, vec![10u32, 20, 30]);
    assert_eq!(batches(&requested), vec![vec![0x3000_0000u64], vec![0x3000_0004], vec![0x3000_0008]]);
}

#[test]
fn compressed_wr_scan_hbm_mode_smoke() {
    let mut wr = CompressedWrScan::new();
    wr.enable_hbm_writes(0x4000_0000, 0x5000_0000, 4, 4);
    let (crd_req, seg_req) = wr.run(&toks(&["1", "2", "S0", "3", "S0", "D"]));
    assert_eq!(wr.crd_arr.committed, vec![1u32, 2, 3]);
    assert_eq!(wr.seg_arr.committed, vec![0u32, 2, 3]);
    assert_eq!(batches(&crd_req), vec![vec![0x4000_0000u64, 0x4000_0004, 0x4000_0008]]);
    assert_eq!(batches(&seg_req), vec![vec![0x5000_0004u64, 0x5000_0008]]);
}

#[test]
fn compressed_wr_scan_without_hbm_writes_directly() {
    let mut wr = CompressedWrScan::new();
    let (crd_req, seg_req) = wr.run(&toks(&["1", "2", "S0", "3", "S1", "D"]));
    assert_eq!(wr.crd_arr.committed, vec![1u32, 2, 3]);
    assert_eq!(wr.seg_arr.committed, vec![0u32, 2, 3]);
    assert!(crd_req.is_empty() && seg_req.is_empty());
}

#[test]
fn vals_wr_scan_batches_of_two() {
    let mut vals = ValsWrScan::<u32>::new();
    vals.enable_hbm_writes(100, 0);
    vals.set_hbm_batch_size(2);
    let t = toks(&["7", "8", "9"]);
    let first = vals.step(t[0]);
    assert!(first.is_none());
    assert_eq!(vals.out_val.committed, Vec::<u32>::new());
    let second = vals.step(t[1]);
    assert_eq!(second, Some(vec![100u64, 101]));
    assert_eq!(vals.out_val.committed, vec![7u32, 8]);
    let third = vals.step(t[2]);
    assert!(third.is_none());
    let done = vals.step(Token::Done);
    assert_eq!(done, Some(vec![102u64]));
    assert_eq!(vals.out_val.committed, vec![7u32, 8, 9]);
}

#[test]
fn unfinished_batches_wait_until_a_stop() {
    let mut vals = ValsWrScan::<u32>::new();
    vals.enable_hbm_writes(0, 4);
    vals.set_hbm_batch_size(2);
    let requested = vals.run(&toks(&["1", "2", "3"]));
    assert_eq!(vals.out_val.committed, vec![1u32, 2]);
    assert_eq!(vals.out_val.pending, vec![3u32]);
    assert_eq!(batches(&requested), vec![vec![0u64, 4]]);
    let more = vals.run(&toks(&["S0", "4"]));
    assert_eq!(vals.out_val.committed, vec![1u32, 2, 3]);
    assert_eq!(vals.out_val.pending, vec![4u32]);
    assert_eq!(batches(&more), vec![vec![8u64]]);

    let mut wr = CompressedWrScan::new();
    wr.enable_hbm_writes(0, 1000, 4, 4);
    wr.set_hbm_batch_sizes(2, 2);
    let (crd_req, seg_req) = wr.run(&toks(&["1", "2", "3", "S0", "4"]));
    assert_eq!(wr.crd_arr.committed, vec![1u32, 2, 3, 4]);
    assert!(wr.crd_arr.pending.is_empty());
    assert_eq!(wr.seg_arr.committed, vec![0u32]);
    assert_eq!(wr.seg_arr.pending, vec![3u32]);
    assert_eq!(batches(&crd_req), vec![vec![0u64, 4], vec![8, 12]]);
    assert!(seg_req.is_empty());
}
