use som::grid::{dist_sq, MAX_SIDE};

#[test]
fn dist_sq_of_a_cell_to_itself_is_zero() {
    assert_eq!(dist_sq((0, 0), (0, 0)), 0);
    assert_eq!(dist_sq((7, 3), (7, 3)), 0);
}

#[test]
fn dist_sq_adds_the_squares_of_both_spans() {
    assert_eq!(dist_sq((1, 2), (4, 6)), 25);
    assert_eq!(dist_sq((0, 0), (0, 10)), 100);
    assert_eq!(dist_sq((0, 0), (6, 8)), 100);
    assert_eq!(dist_sq((2, 2), (0, 0)), 8);
    assert_eq!(dist_sq((2, 2), (1, 3)), 2);
}

#[test]
fn dist_sq_is_symmetric() {
    for a in 0..6usize {
        for b in 0..6usize {
            assert_eq!(dist_sq((a, b), (b, 2 * a)), dist_sq((b, 2 * a), (a, b)));
        }
    }
}

#[test]
fn dist_sq_holds_the_longest_diagonal() {
    assert_eq!(MAX_SIDE, 1usize << 31);
    assert_eq!(dist_sq((0, 0), (MAX_SIDE, MAX_SIDE)), 1u64 << 63);
    assert_eq!(dist_sq((MAX_SIDE, 0), (0, MAX_SIDE)), 1u64 << 63);
    assert_eq!(dist_sq((MAX_SIDE, 5), (0, 5)), 1u64 << 62);
}
