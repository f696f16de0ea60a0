use mcts2048::capacity::{is_tile_value, worth_of};

#[test]
fn tiles_are_zero_and_powers_of_two_from_two() {
    assert!(is_tile_value(0));
    assert!(!is_tile_value(1));
    assert!(is_tile_value(2));
    assert!(!is_tile_value(3));
    assert!(is_tile_value(4));
    assert!(!is_tile_value(6));
    assert!(is_tile_value(2048));
    assert!(!is_tile_value(2047));
    assert!(is_tile_value(1 << 31));
    assert!(!is_tile_value(u32::MAX));
    for k in 1..32 {
        assert!(is_tile_value(1u32 << k));
        if k > 1 {
            assert!(!is_tile_value((1u32 << k) + 1));
            assert!(!is_tile_value((1u32 << k) - 1));
        }
    }
}

#[test]
fn worth_doubles_and_adds_the_tile() {
    assert_eq!(worth_of(0), 0);
    assert_eq!(worth_of(1), 0);
    assert_eq!(worth_of(2), 2);
    assert_eq!(worth_of(4), 8);
    assert_eq!(worth_of(8), 24);
    assert_eq!(worth_of(16), 64);
    assert_eq!(worth_of(2048), 2048 * 11);
    assert_eq!(worth_of(131072), 131072 * 17);
    assert_eq!(worth_of(3), 3);
    assert_eq!(worth_of(6), 12);
}
