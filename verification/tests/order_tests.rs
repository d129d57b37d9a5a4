use data_structures::order::{compare, less, Rank};

#[test]
fn compare_ranks_integers() {
    assert!(matches!(compare(&1, &2), Rank::Before));
    assert!(matches!(compare(&2, &2), Rank::Same));
    assert!(matches!(compare(&3, &2), Rank::After));
    assert!(matches!(compare(&i64::MIN, &i64::MAX), Rank::Before));
}

#[test]
fn compare_ranks_pairs_by_their_first_parts() {
    assert!(matches!(compare(&(1u8, 9u8), &(2, 0)), Rank::Before));
    assert!(matches!(compare(&(2u8, 0u8), &(1, 9)), Rank::After));
    assert!(matches!(compare(&(1u8, 3u8), &(1, 4)), Rank::Before));
    assert!(matches!(compare(&(1u8, 4u8), &(1, 4)), Rank::Same));
}

#[test]
fn less_is_strict() {
    assert!(less(&1, &2));
    assert!(!less(&2, &2));
    assert!(!less(&3, &2));
}
