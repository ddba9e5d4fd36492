use cooklang::fraction::FractionLookupTable;

/// Every fraction of the table, by value: the fixed point value and the
/// fraction with the smallest denominator that has it
const TABLE: [(i16, (u8, u8)); 25] = [
    (625, (1, 16)),
    (1000, (1, 10)),
    (1250, (1, 8)),
    (1875, (3, 16)),
    (2000, (2, 10)),
    (2500, (1, 4)),
    (3000, (3, 10)),
    (3125, (5, 16)),
    (3333, (1, 3)),
    (3750, (3, 8)),
    (4000, (4, 10)),
    (4375, (7, 16)),
    (5000, (1, 2)),
    (5625, (9, 16)),
    (6000, (6, 10)),
    (6250, (5, 8)),
    (6666, (2, 3)),
    (6875, (11, 16)),
    (7000, (7, 10)),
    (7500, (3, 4)),
    (8000, (8, 10)),
    (8125, (13, 16)),
    (8750, (7, 8)),
    (9000, (9, 10)),
    (9375, (15, 16)),
];

#[test]
fn every_fraction_is_found_at_its_value() {
    let t = FractionLookupTable::new();
    for (fixed, fraction) in TABLE {
        assert_eq!(t.lookup(fixed, 16), Some(fraction), "at {fixed}");
    }
}

#[test]
fn equal_fractions_keep_the_smallest_denominator() {
    let t = FractionLookupTable::new();
    // 2/4, 4/8, 5/10 and 8/16 are all 1/2
    assert_eq!(t.lookup(5000, 16), Some((1, 2)));
    // 2/8 and 4/16 are 1/4
    assert_eq!(t.lookup(2500, 16), Some((1, 4)));
    // 2/16 is 1/8
    assert_eq!(t.lookup(1250, 16), Some((1, 8)));
}

#[test]
fn lookup_finds_the_nearest_fraction() {
    let t = FractionLookupTable::new();
    assert_eq!(t.lookup(5000, 4), Some((1, 2)));
    assert_eq!(t.lookup(2501, 4), Some((1, 4)));
    assert_eq!(t.lookup(4166, 4), Some((1, 3)));
    assert_eq!(t.lookup(4167, 4), Some((1, 2)));
    assert_eq!(t.lookup(9000, 2), Some((1, 2)));
    assert_eq!(t.lookup(0, 16), Some((1, 16)));
    assert_eq!(t.lookup(9999, 16), Some((15, 16)));
}

#[test]
fn lookup_respects_the_maximum_denominator() {
    let t = FractionLookupTable::new();
    assert_eq!(t.lookup(3333, 3), Some((1, 3)));
    assert_eq!(t.lookup(3333, 2), Some((1, 2)));
    assert_eq!(t.lookup(6250, 8), Some((5, 8)));
    assert_eq!(t.lookup(6250, 4), Some((2, 3)));
    assert_eq!(t.lookup(1000, 16), Some((1, 10)));
    assert_eq!(t.lookup(2000, 8), Some((1, 4)));
}

#[test]
fn ties_go_to_the_smaller_denominator() {
    let t = FractionLookupTable::new();
    // 1/2 and 2/3 are both 833 away
    assert_eq!(t.lookup(5833, 4), Some((1, 2)));
    // 2/3 and 3/4 are both 417 away
    assert_eq!(t.lookup(7083, 4), Some((2, 3)));
    // 1/4 and 3/10 are both 250 away
    assert_eq!(t.lookup(2750, 10), Some((1, 4)));
}

#[test]
fn no_fraction_below_the_smallest_denominator() {
    let t = FractionLookupTable::new();
    assert_eq!(t.lookup(5000, 1), None);
    assert_eq!(t.lookup(0, 0), None);
}

#[test]
fn values_outside_the_table_find_its_ends() {
    let t = FractionLookupTable::new();
    assert_eq!(t.lookup(-100, 16), Some((1, 16)));
    assert_eq!(t.lookup(i16::MIN, 16), Some((1, 16)));
    assert_eq!(t.lookup(i16::MIN, 2), Some((1, 2)));
    assert_eq!(t.lookup(i16::MAX, 16), Some((15, 16)));
    assert_eq!(t.lookup(i16::MAX, 4), Some((3, 4)));
}
