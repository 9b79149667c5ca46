use space_efficient_quantile::quantile_to_rank;

#[test]
fn test_quantiles() {
    assert_eq!(quantile_to_rank(0, 4, 4), 1);
    assert_eq!(quantile_to_rank(1, 4, 4), 1);

    assert_eq!(quantile_to_rank(2, 4, 4), 2);

    assert_eq!(quantile_to_rank(3, 4, 4), 3);

    assert_eq!(quantile_to_rank(4, 4, 4), 4);

    // Just past each quarter the rank steps up
    assert_eq!(quantile_to_rank(26, 100, 4), 2);
    assert_eq!(quantile_to_rank(51, 100, 4), 3);
    assert_eq!(quantile_to_rank(76, 100, 4), 4);
    assert_eq!(quantile_to_rank(1, 1000, 4), 1);
}
