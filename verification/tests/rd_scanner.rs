use comal::templates::primitive::{parse_crd_token, Token};
use comal::templates::rd_scanner::{CompressedCrdRdScan, TileRdScan, UncompressedCrdRdScan};

fn toks(items: &[&str]) -> Vec<Token<u32, u32>> {
    items.iter().map(|s| parse_crd_token(s).unwrap()).collect()
}

fn same_shape(c: &[Token<u32, u32>], r: &[Token<u32, u32>]) -> bool {
    c.len() == r.len()
        && c.iter().zip(r.iter()).all(|(a, b)| match (a, b) {
            (Token::Val(_), Token::Val(_)) => true,
            _ => a == b,
        })
}

/// Runs the compressed scanner and checks what every run must show: it ends
/// on the done token, its streams are aligned, and each reference reads its
/// own coordinate.
fn compressed_rd_scan_calibration(
    seg_arr: Vec<u32>,
    crd_arr: Vec<u32>,
    in_ref: Vec<Token<u32, u32>>,
) -> (Vec<Token<u32, u32>>, Vec<Token<u32, u32>>) {
    let mut cr = CompressedCrdRdScan::new(seg_arr, crd_arr.clone());
    let (crd, rf) = cr.run(&in_ref);
    assert!(cr.phase.finished);
    assert_eq!(crd.last(), Some(&Token::Done));
    assert!(same_shape(&crd, &rf));
    for (c, r) in crd.iter().zip(rf.iter()) {
        if let (Token::Val(c), Token::Val(r)) = (c, r) {
            assert_eq!(*c, crd_arr[*r as usize]);
        }
    }
    (crd, rf)
}

#[test]
fn crd_2d_maybe_token() {
    let (crd, rf) = compressed_rd_scan_calibration(
        vec![0u32, 3, 6],
        vec![0, 2, 3, 4, 5, 6],
        toks(&["0", "N", "S0", "D"]),
    );
    assert_eq!(crd, toks(&["0", "2", "3", "S0", "N", "S1", "D"]));
    assert_eq!(rf, toks(&["0", "1", "2", "S0", "N", "S1", "D"]));
}

#[test]
fn crd_2d_test1() {
    let seg_arr = vec![0, 10, 20, 30, 40, 50, 60, 70];
    let crd_arr = vec![
        5, 6, 7, 10, 12, 21, 23, 25, 27, 32, 0, 1, 4, 5, 8, 10, 13, 24, 27, 33, 0, 4, 5, 8, 11, 12, 17, 19, 24, 33, 2,
        6, 10, 15, 22, 23, 25, 26, 30, 33, 3, 5, 8, 12, 19, 23, 24, 26, 27, 30, 0, 1, 2, 6, 17, 22, 23, 24, 25, 33, 0,
        2, 5, 7, 12, 13, 20, 25, 27, 30,
    ];
    compressed_rd_scan_calibration(seg_arr, crd_arr, toks(&["N", "1", "2", "1", "S0", "D"]));
}

#[test]
fn crd_2d_test2() {
    let seg_arr = vec![0, 16, 32, 48, 64, 80, 96];
    let crd_arr: Vec<u32> = (0..6).flat_map(|_| 0..16u32).collect();
    compressed_rd_scan_calibration(
        seg_arr,
        crd_arr,
        toks(&["S0", "2", "N", "N", "S0", "S0", "5", "1", "2", "S1", "D"]),
    );
}

#[test]
fn crd_2d_test3() {
    let seg_arr = vec![0, 55, 110];
    let crd_arr = vec![
        0, 1, 3, 4, 6, 7, 8, 9, 10, 11, 12, 13, 14, 15, 16, 17, 18, 20, 21, 22, 23, 24, 25, 26, 27, 28, 29, 30, 31, 33,
        34, 35, 36, 37, 38, 39, 40, 41, 42, 44, 45, 46, 47, 48, 50, 51, 52, 53, 54, 55, 56, 57, 59, 60, 61, 1, 2, 3, 4,
        5, 6, 7, 8, 9, 11, 13, 14, 15, 16, 17, 18, 19, 20, 21, 22, 23, 24, 25, 26, 27, 29, 30, 31, 32, 33, 35, 36, 37,
        38, 39, 40, 41, 42, 43, 44, 45, 46, 48, 49, 50, 52, 53, 54, 55, 56, 57, 58, 59, 60, 61,
    ];
    compressed_rd_scan_calibration(
        seg_arr,
        crd_arr,
        toks(&["0", "1", "1", "0", "N", "1", "0", "N", "S0", "1", "0", "N", "0", "1", "0", "1", "N", "S1", "D"]),
    );
}

#[test]
fn crd_2d_test4() {
    let seg_arr = vec![0, 13, 26, 39, 52, 65, 78];
    let crd_arr = vec![
        20, 21, 22, 23, 24, 25, 26, 27, 29, 210, 211, 212, 214, 20, 22, 23, 24, 25, 26, 27, 28, 29, 210, 212, 213, 214,
        0, 2, 3, 4, 5, 6, 7, 8, 9, 11, 12, 13, 14, 0, 1, 2, 3, 5, 7, 8, 9, 10, 11, 12, 13, 14, 0, 1, 2, 3, 5, 6, 7, 8,
        9, 10, 11, 12, 13, 0, 1, 2, 3, 4, 6, 7, 8, 9, 10, 12, 13, 14,
    ];
    compressed_rd_scan_calibration(seg_arr, crd_arr, toks(&["0", "S1", "D"]));
}

#[test]
fn crd_2d_test5() {
    let (crd, rf) = compressed_rd_scan_calibration(
        vec![0, 3, 6],
        vec![0, 2, 3, 4, 5, 6],
        toks(&["0", "S0", "1", "S1", "D"]),
    );
    assert_eq!(crd, toks(&["0", "2", "3", "S1", "4", "5", "6", "S2", "D"]));
    assert_eq!(rf, toks(&["0", "1", "2", "S1", "3", "4", "5", "S2", "D"]));
}

#[test]
fn crd_2d_test6() {
    let seg_arr = vec![0, 13, 26, 39, 52, 65, 78];
    let crd_arr = vec![
        0, 1, 2, 3, 4, 5, 6, 7, 9, 10, 11, 12, 14, 0, 2, 3, 4, 5, 6, 7, 8, 9, 10, 12, 13, 14, 0, 2, 3, 4, 5, 6, 7, 8, 9,
        11, 12, 13, 14, 0, 1, 2, 3, 5, 7, 8, 9, 10, 11, 12, 13, 14, 0, 1, 2, 3, 5, 6, 7, 8, 9, 10, 11, 12, 13, 0, 1, 2,
        3, 4, 6, 7, 8, 9, 10, 12, 13, 14,
    ];
    compressed_rd_scan_calibration(seg_arr, crd_arr, toks(&["S0", "5", "5", "0", "S0", "3", "1", "S1", "D"]));
}

#[test]
fn crd_2d_test7() {
    let seg_arr = vec![0, 199];
    let crd_arr = vec![
        2, 3, 4, 24, 29, 31, 34, 37, 49, 57, 60, 61, 67, 68, 70, 72, 86, 91, 100, 101, 102, 110, 111, 113, 115, 116,
        119, 123, 124, 127, 131, 133, 146, 150, 152, 155, 159, 160, 163, 164, 165, 167, 168, 170, 171, 173, 174, 175,
        176, 177, 180, 191, 193, 195, 200, 202, 206, 208, 210, 217, 218, 219, 221, 224, 225, 230, 231, 234, 239, 240,
        246, 248, 249, 253, 254, 257, 260, 266, 268, 276, 277, 278, 279, 280, 292, 297, 311, 314, 320, 321, 322, 326,
        329, 330, 331, 332, 336, 338, 339, 340, 342, 343, 344, 345, 346, 348, 351, 358, 363, 365, 376, 377, 380, 381,
        396, 399, 403, 408, 411, 414, 415, 416, 417, 423, 424, 428, 429, 433, 442, 444, 452, 454, 455, 459, 460, 461,
        462, 465, 469, 470, 473, 475, 477, 478, 479, 484, 486, 489, 490, 491, 493, 495, 500, 501, 503, 513, 514, 517,
        518, 525, 528, 532, 535, 542, 545, 548, 550, 557, 560, 563, 564, 565, 569, 570, 574, 576, 578, 580, 583, 585,
        589, 592, 595, 597, 600, 601, 613, 614, 615, 617, 619, 620, 624, 625, 627, 628, 632, 650, 663,
    ];
    compressed_rd_scan_calibration(seg_arr, crd_arr, toks(&["N", "0", "0", "S0", "D"]));
}

#[test]
fn crd_2d_rd_1d_0_5_200_1d_1_0_3() {
    let seg_arr = vec![0, 200];
    let crd_arr = vec![
        1, 3, 4, 6, 11, 14, 17, 19, 21, 22, 24, 27, 28, 30, 31, 33, 36, 37, 42, 45, 46, 51, 52, 53, 55, 57, 61, 62, 67,
        68, 69, 70, 71, 73, 74, 78, 79, 80, 85, 86, 91, 93, 95, 96, 97, 100, 101, 103, 106, 108, 109, 110, 112, 113,
        116, 122, 124, 127, 131, 133, 139, 140, 144, 145, 148, 151, 152, 154, 157, 159, 161, 162, 164, 165, 168, 169,
        170, 173, 174, 176, 178, 180, 183, 184, 185, 186, 187, 188, 191, 192, 194, 195, 198, 199, 201, 203, 206, 211,
        213, 214, 215, 218, 221, 222, 223, 224, 225, 227, 231, 235, 243, 245, 246, 247, 248, 253, 255, 256, 257, 258,
        259, 260, 262, 263, 264, 265, 266, 267, 268, 269, 271, 272, 274, 279, 283, 284, 286, 291, 293, 299, 300, 302,
        304, 305, 306, 307, 308, 309, 310, 311, 313, 314, 315, 316, 317, 318, 319, 320, 321, 322, 323, 324, 325, 326,
        329, 330, 331, 332, 335, 336, 337, 339, 341, 343, 345, 346, 347, 348, 351, 352, 354, 356, 359, 364, 365, 367,
        368, 369, 376, 377, 378, 379, 382, 383, 385, 387, 388, 390, 392, 393,
    ];
    compressed_rd_scan_calibration(seg_arr, crd_arr, toks(&["N", "N", "0", "S0", "D"]));
}

#[test]
fn crd_2d_rd_1d_1_0_200_1d_1_0_3() {
    let seg_arr = vec![0, 200];
    let crd_arr: Vec<u32> = (0..200u32).collect();
    let (crd, _) = compressed_rd_scan_calibration(seg_arr, crd_arr, toks(&["N", "0", "N", "S0", "D"]));
    let mut expected = vec![Token::Empty, Token::Stop(0)];
    expected.extend((0..200u32).map(Token::Val));
    expected.extend([Token::Stop(0), Token::Empty, Token::Stop(1), Token::Done]);
    assert_eq!(crd, expected);
}

#[test]
fn uncompressed_scan_expands_dense_fibers() {
    let mut sc = UncompressedCrdRdScan::new(3);
    let (crd, rf) = sc.run(&toks(&["0", "2", "S0", "D"]));
    assert_eq!(crd, toks(&["0", "1", "2", "S0", "0", "1", "2", "S1", "D"]));
    assert_eq!(rf, toks(&["0", "1", "2", "S0", "6", "7", "8", "S1", "D"]));
}

#[test]
fn tile_scan_moves_to_the_next_tile_on_done() {
    let mut sc = TileRdScan::new(vec![vec![0u32, 2], vec![0, 1]], vec![vec![4u32, 7], vec![9]], 2);
    let (crd, rf) = sc.run(&toks(&["0", "D", "0", "D", "0"]));
    assert_eq!(crd, toks(&["4", "7", "S0", "D", "9", "S0", "D"]));
    assert_eq!(rf, toks(&["0", "1", "S0", "D", "0", "S0", "D"]));
    assert!(sc.phase.finished);
    assert_eq!(sc.tile, 2);
}
