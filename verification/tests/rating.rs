use nba::utils::{answer_value, expected, filter_matches, str_eq, update, START_ELO};

#[test]
fn expected_equal_ratings_is_half() {
    assert_eq!(expected(START_ELO, START_ELO), 500_000);
}

#[test]
fn expected_symmetry_concrete() {
    let pairs = [
        (1_500_000_000i64, 1_400_000_000i64),
        (1_000_000_000, 1_000_000_000),
        (900_000_000, 1_723_000_000),
        (1_000_000_001, 1_000_000_000),
        (2_000_000_000, 100_000_000),
    ];
    for (a, b) in pairs {
        assert_eq!(expected(a, b) + expected(b, a), 1_000_000);
    }
}

#[test]
fn expected_monotone_concrete() {
    assert!(expected(1_500_000_000, 1_400_000_000) > 500_000);
    // the smallest possible edge still favours the higher rating
    assert!(expected(1_000_000_001, 1_000_000_000) > 500_000);
    assert!(expected(1_000_000_000, 1_000_000_001) < 500_000);
}

#[test]
fn expected_range_strict() {
    // even an enormous gap never reaches zero or one
    let p = expected(10_000_000_000, 1_000_000_000);
    assert!(p >= 1 && p <= 999_999);
    let q = expected(1_000_000_000, 10_000_000_000);
    assert!(q >= 1 && q <= 999_999);
    assert_eq!(p + q, 1_000_000);
}

#[test]
fn rating_scenario_1500_vs_1400() {
    // 1500 vs 1400: expected score about 0.64006
    let p = expected(1_500_000_000, 1_400_000_000);
    assert!((p as i64 - 640_065).abs() <= 5);
    // favourite wins: delta about 32 * (1 - 0.64006) = 11.518
    let (new_a, new_b, change) = update(1_500_000_000, 1_400_000_000, true);
    assert!((change - 11_517_920).abs() <= 200);
    assert_eq!(new_a, 1_500_000_000 + change);
    assert_eq!(new_b, 1_400_000_000 - change);
    // about 1511.52 and 1388.48
    assert!((new_a - 1_511_518_000).abs() <= 5_000);
    assert!((new_b - 1_388_482_000).abs() <= 5_000);
}

#[test]
fn update_zero_sum() {
    for outcome in [true, false] {
        let (new_a, new_b, _) = update(1_234_000_000, 987_000_000, outcome);
        assert_eq!(new_a - 1_234_000_000, -(new_b - 987_000_000));
        assert_eq!(new_a + new_b, 1_234_000_000 + 987_000_000);
    }
}

#[test]
fn update_loser_gives_up_rating() {
    let (new_a, new_b, change) = update(1_000_000_000, 1_000_000_000, false);
    assert_eq!(change, -16_000_000);
    assert_eq!(new_a, 984_000_000);
    assert_eq!(new_b, 1_016_000_000);
}

#[test]
fn str_eq_basic() {
    assert!(str_eq("LAL", "LAL"));
    assert!(!str_eq("LAL", "BOS"));
    assert!(!str_eq("LAL", "LA"));
    assert!(str_eq("", ""));
}

#[test]
fn filter_matches_basic() {
    assert!(filter_matches("*", "LAL", "BOS"));
    assert!(filter_matches("LAL", "LAL", "BOS"));
    assert!(filter_matches("BOS", "LAL", "BOS"));
    assert!(!filter_matches("MIA", "LAL", "BOS"));
    assert!(!filter_matches("", "LAL", "BOS"));
}

#[test]
fn answer_value_basic() {
    assert_eq!(answer_value("yes"), Some(true));
    assert_eq!(answer_value("Y"), Some(true));
    assert_eq!(answer_value("no way"), Some(false));
    assert_eq!(answer_value("Nope"), Some(false));
    assert_eq!(answer_value(""), None);
    assert_eq!(answer_value("maybe"), None);
}
