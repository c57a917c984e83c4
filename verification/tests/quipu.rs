use plato_mythos_bridge::quipu_tile::{CordTree, DecodedTile, Knot, QuipuError, QuipuTile};

/// Tile values scaled to whole units of `10^-precision`.
fn scale(tiles: &[f64], precision: u8) -> Vec<i64> {
    tiles.iter().map(|v| (v * 10f64.powi(precision as i32)).round() as i64).collect()
}

/// Whole units that a decoded tile stands for.
fn units(t: &DecodedTile) -> i128 {
    let m = t.digits.iter().fold(0i128, |acc, &d| acc * 10 + d as i128);
    if t.negative { -m } else { m }
}

/// Decoded tiles back on the tiles' scale.
fn unscale(values: &[DecodedTile], precision: u8) -> Vec<f64> {
    values.iter().map(|t| units(t) as f64 / 10f64.powi(precision as i32)).collect()
}

/// Whole units of every decoded tile.
fn all_units(values: &[DecodedTile]) -> Vec<i128> {
    values.iter().map(units).collect()
}

#[test]
fn quipu_encode_single_tile() {
    let q = QuipuTile::new(1);
    let cord = q.encode_tiles(&scale(&[1.0], 1));
    assert_eq!(cord.knots.len(), 1);
}

#[test]
fn quipu_roundtrip() {
    let q = QuipuTile::new(1);
    let tiles = vec![1.0, 2.0, 3.0, 4.0, 5.0];
    let cord = q.encode_tiles(&scale(&tiles, 1));
    let decoded = unscale(&q.decode_tiles(&cord).unwrap(), 1);
    assert_eq!(decoded.len(), tiles.len());
    for (a, b) in tiles.iter().zip(decoded.iter()) {
        assert!((a - b).abs() < 0.01);
    }
}

#[test]
fn quipu_checksum_validation() {
    let q = QuipuTile::new(1);
    let cord = q.encode_tiles(&scale(&[1.0, 2.0], 1));
    assert!(cord.validate());
}

#[test]
fn quipu_corruption_detected() {
    let q = QuipuTile::new(1);
    let mut cord = q.encode_tiles(&scale(&[1.0, 2.0], 1));
    cord.checksum = 99999;
    assert!(!cord.validate());
}

#[test]
fn quipu_decode_corrupted_fails() {
    let q = QuipuTile::new(1);
    let mut cord = q.encode_tiles(&scale(&[1.0], 1));
    cord.checksum = 0;
    assert!(q.decode_tiles(&cord).is_err());
}

#[test]
fn quipu_zero_tile() {
    let q = QuipuTile::new(1);
    let cord = q.encode_tiles(&scale(&[0.0], 1));
    assert_eq!(cord.knots.len(), 1);
    let decoded = unscale(&q.decode_tiles(&cord).unwrap(), 1);
    assert!((decoded[0]).abs() < 0.01);
}

#[test]
fn quipu_knot_count() {
    let q = QuipuTile::new(1);
    let cord = q.encode_tiles(&scale(&[5.0], 1));
    assert!(cord.knot_count() >= 1);
}

#[test]
fn quipu_large_values() {
    let q = QuipuTile::new(2);
    let tiles = vec![99.99, 100.00, 0.01];
    let cord = q.encode_tiles(&scale(&tiles, 2));
    assert!(cord.validate());
}

#[test]
fn quipu_empty_tiles() {
    let q = QuipuTile::new(1);
    let cord = q.encode_tiles(&[]);
    assert_eq!(cord.knots.len(), 0);
    assert!(cord.validate());
}

#[test]
fn quipu_default() {
    let q = QuipuTile::default();
    assert_eq!(q.precision(), 1);
    let cord = q.encode_tiles(&scale(&[3.0], 1));
    assert!(cord.validate());
}

#[test]
fn quipu_checksum_exact() {
    // digits 1, 2 at positions 1, 2 on the top cord: 1*1*31 + 2*2*31
    let cord = CordTree::new(vec![Knot::Digit(1), Knot::Digit(2)]);
    assert_eq!(cord.checksum, 155);
    // 12 and 5: the branch holds 1, 2 at depth 2: 1*1*62 + 2*2*62, then 5 at position 2: 5*2*31
    let q = QuipuTile::new(0);
    let cord = q.encode_tiles(&[12, 5]);
    assert_eq!(cord.checksum, 62 + 248 + 310);
    assert_eq!(cord.knot_count(), 4);
}

#[test]
fn quipu_digits_most_significant_first() {
    let q = QuipuTile::new(0);
    let cord = q.encode_tiles(&[907, -42, 0]);
    match &cord.knots[0] {
        Knot::Branch(sub) => {
            assert_eq!(sub.knots, vec![Knot::Digit(9), Knot::Digit(0), Knot::Digit(7)]);
            assert!(sub.validate());
        }
        Knot::Digit(_) => panic!("expected a branch"),
    }
    assert_eq!(all_units(&q.decode_tiles(&cord).unwrap()), vec![907, -42, 0]);
}

#[test]
fn quipu_roundtrip_extremes() {
    let q = QuipuTile::new(3);
    let tiles = vec![i64::MAX, i64::MIN + 1, 1, 10, 99];
    let cord = q.encode_tiles(&tiles);
    let expected: Vec<i128> = tiles.iter().map(|&v| v as i128).collect();
    assert_eq!(all_units(&q.decode_tiles(&cord).unwrap()), expected);
}

#[test]
fn quipu_decode_errors() {
    let q = QuipuTile::new(1);
    let nested = CordTree::new(vec![Knot::Branch(CordTree::new(vec![
        Knot::Digit(1),
        Knot::Branch(CordTree::new(vec![Knot::Digit(2)])),
    ]))]);
    assert_eq!(q.decode_tiles(&nested), Err(QuipuError::NestedBranch));
    let huge = CordTree::new(vec![Knot::Branch(CordTree::new((0..25).map(|_| Knot::Digit(9)).collect()))]);
    let tiles = q.decode_tiles(&huge).unwrap();
    assert_eq!(tiles, vec![DecodedTile { negative: false, digits: vec![9; 25] }]);
    let mut bad = q.encode_tiles(&[3]);
    bad.checksum += 1;
    assert_eq!(q.decode_tiles(&bad), Err(QuipuError::ChecksumMismatch));
}

#[test]
fn quipu_within_limits() {
    let q = QuipuTile::new(2);
    let cord = q.encode_tiles(&[123, -4, 0]);
    assert!(cord.within_limits());
    assert!(CordTree::new(vec![]).within_limits());
    assert_eq!(CordTree::new(vec![]).checksum, 0);
}

#[test]
fn quipu_knot_count_counts_branches_and_digits() {
    let cord = CordTree::new(vec![
        Knot::Digit(4),
        Knot::Branch(CordTree::new(vec![Knot::Digit(1), Knot::Digit(0), Knot::Digit(2)])),
    ]);
    assert_eq!(cord.knot_count(), 5);
}

#[test]
fn quipu_negative_tiles_keep_their_sign() {
    let q = QuipuTile::new(2);
    let tiles = vec![-1.23, 4.56, -0.07, 0.0, -12345.6];
    let cord = q.encode_tiles(&scale(&tiles, 2));
    assert!(cord.validate());
    let decoded = unscale(&q.decode_tiles(&cord).unwrap(), 2);
    assert_eq!(decoded.len(), tiles.len());
    for (a, b) in tiles.iter().zip(decoded.iter()) {
        assert!((a - b).abs() < 1e-9);
    }
    // a negative tile is a branch whose sub-cord starts with an empty sign mark
    match &cord.knots[2] {
        Knot::Branch(sub) => {
            assert_eq!(sub.knots[0], Knot::Branch(CordTree::new(vec![])));
            assert_eq!(sub.knots[1], Knot::Digit(7));
        }
        Knot::Digit(_) => panic!("expected a branch"),
    }
}
