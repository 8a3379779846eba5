use oxiz_solver::squares::is_perfect_square;

#[test]
fn test_is_perfect_square() {
    assert!(is_perfect_square(0));
    assert!(is_perfect_square(1));
    assert!(is_perfect_square(4));
    assert!(is_perfect_square(9));
    assert!(is_perfect_square(16));
    assert!(is_perfect_square(25));
    assert!(!is_perfect_square(2));
    assert!(!is_perfect_square(3));
    assert!(!is_perfect_square(5));
    assert!(!is_perfect_square(6));
    assert!(!is_perfect_square(7));
    assert!(!is_perfect_square(8));
}
