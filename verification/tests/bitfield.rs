use envy_rs::bitfield::BitField;

#[test]
fn test_new() {
    let i = BitField::new(17);
    // 17 bits means rounding off to 3 bytes
    // with the last byte having mask = 1
    assert_eq!(i.mask, 1);

    let i = BitField::new(19);
    // 19 bits means rounding off to 3 bytes
    // with the last byte having mask = 7
    assert_eq!(i.mask, 7);

    let i = BitField::new(24);
    // 24 bits means exactly 3 bytes
    // with the last byte having mask = 0
    assert_eq!(i.mask, 0);
}

#[test]
fn test_increment() {
    let mut i = BitField::new(8);
    i.increment();
    // the value for the bitfield now is 1
    assert!(i.at(0));

    // we add 3 to the bitfield
    for _ in 0..3 {
        i.increment();
    }
    // the total value now is 4
    // and 1 << 2 is 4
    assert!(i.at(2));

    // the last two bits must be zero
    assert!(!i.at(1));
    assert!(!i.at(0));
}

#[test]
fn test_maxed() {
    let mut i = BitField::new(8);
    // an 8 bit vector will max at 255
    for _ in 0..=255 {
        i.increment();
    }
    assert!(i.maxed());
}

#[test]
fn selector_visits_every_assignment_once() {
    // width 3: the counter passes through all 8 assignments in increasing
    // order, and maxed first holds at the all-ones assignment
    let mut sel = BitField::new(3);
    for k in 0u32..8 {
        assert_eq!(sel.maxed(), k == 7);
        for i in 0..3usize {
            assert_eq!(sel.at(i), (k >> i) & 1 == 1);
        }
        if k < 7 {
            sel.increment();
        }
    }
}

#[test]
fn selector_reads_binary_representation() {
    // after k increments, bit i of the assignment is bit i of k
    let k: usize = 717;
    let mut sel = BitField::new(10);
    for _ in 0..k {
        sel.increment();
    }
    for i in 0..10usize {
        assert_eq!(sel.at(i), (k >> i) & 1 == 1);
    }
    assert!(!sel.maxed());
}

#[test]
fn selector_full_byte_width_maxes_at_all_ones() {
    let mut sel = BitField::new(8);
    for _ in 0..255 {
        sel.increment();
    }
    assert!(sel.maxed());
    for i in 0..8usize {
        assert!(sel.at(i));
    }
}

#[test]
fn selector_zero_width_is_exhausted_at_once() {
    let sel = BitField::new(0);
    assert!(sel.maxed());
}
