use envy_rs::bitfield::BitField;
use envy_rs::pattern::synthesize;

#[test]
fn synthesize_keeps_selected_positions_literal() {
    // positions 0 and 3 of "abba" selected: assignment 0b1001 = 9; the
    // two-wide unselected run in the middle collapses into one star
    let mut sel = BitField::new(4);
    for _ in 0..9 {
        sel.increment();
    }
    assert_eq!(synthesize("abba", &sel), "a*a");
}

#[test]
fn synthesize_single_selected_position() {
    // position 1 of "cat" selected: assignment 0b010 = 2; the gap before the
    // literal opens with a star, the trailing gap right after it becomes ?
    let mut sel = BitField::new(3);
    sel.increment();
    sel.increment();
    assert_eq!(synthesize("cat", &sel), "*a?");
}

#[test]
fn synthesize_collapses_unselected_runs() {
    // no position selected: one wildcard covers the whole identifier; the
    // driver never evaluates this trivial case, enumeration starts at one
    let sel = BitField::new(3);
    assert_eq!(synthesize("cat", &sel), "*");
}

#[test]
fn synthesize_isolated_gap_after_literal() {
    // positions 0 and 2 of "cat" selected: assignment 0b101 = 5
    let mut sel = BitField::new(3);
    for _ in 0..5 {
        sel.increment();
    }
    assert_eq!(synthesize("cat", &sel), "c?t");
}

#[test]
fn synthesize_all_selected_is_the_identifier() {
    let mut sel = BitField::new(3);
    for _ in 0..7 {
        sel.increment();
    }
    assert_eq!(synthesize("cat", &sel), "cat");
}
