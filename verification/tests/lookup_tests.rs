use rangefinder::lookup::{Distance, Lookup, LookupTable};

fn table_10_20() -> LookupTable {
    // 2.0 and 4.0 in thousandths.
    let mut table = LookupTable::new(32);
    table.add_exact(10, 2000);
    table.add_exact(20, 4000);
    table.fill();
    table
}

fn value(distance: Distance) -> f64 {
    match distance {
        Distance::Exact(d) => d as f64 / 1000.0,
        Distance::Interpolated { numerator, denominator } => {
            numerator as f64 / denominator as f64 / 1000.0
        }
        Distance::OutOfRange => panic!("no distance"),
    }
}

#[test]
fn midpoint_is_interpolated() {
    let table = table_10_20();
    assert_eq!(table.dist(15), Distance::Interpolated { numerator: 30000, denominator: 10 });
    assert_eq!(value(table.dist(15)), 3.0);
}

#[test]
fn exact_hits_are_kept() {
    let table = table_10_20();
    assert_eq!(table.dist(10), Distance::Exact(2000));
    assert_eq!(table.dist(20), Distance::Exact(4000));
    assert_eq!(value(table.dist(10)), 2.0);
    assert_eq!(value(table.dist(20)), 4.0);
    assert_eq!(table.exact(10), 2000);
    assert_eq!(table.exact(20), 4000);
}

#[test]
fn outside_the_samples_is_out_of_range() {
    let table = table_10_20();
    for i in 0..10 {
        assert_eq!(table.dist(i), Distance::OutOfRange);
    }
    for i in 21..32 {
        assert_eq!(table.dist(i), Distance::OutOfRange);
    }
}

#[test]
fn weights_follow_the_position() {
    let table = table_10_20();
    assert_eq!(table.dist(12), Distance::Interpolated { numerator: 24000, denominator: 10 });
    assert_eq!(table.dist(19), Distance::Interpolated { numerator: 38000, denominator: 10 });
    assert_eq!(table.dist(11), Distance::Interpolated { numerator: 22000, denominator: 10 });
    assert_eq!(value(table.dist(12)), 2.4);
}

#[test]
fn fill_links_to_the_nearest_samples() {
    let mut table = LookupTable::new(12);
    table.add_exact(2, 5);
    table.add_exact(6, 7);
    table.add_exact(7, 9);
    assert_eq!(table.slot(0), Lookup::Blank);
    assert_eq!(table.slot(2), Lookup::Exact(5));
    table.fill();
    assert_eq!(table.len(), 12);
    assert_eq!(table.slot(0), Lookup::Mid(None, Some(2)));
    assert_eq!(table.slot(1), Lookup::Mid(None, Some(2)));
    assert_eq!(table.slot(2), Lookup::Exact(5));
    assert_eq!(table.slot(3), Lookup::Mid(Some(2), Some(6)));
    assert_eq!(table.slot(5), Lookup::Mid(Some(2), Some(6)));
    assert_eq!(table.slot(6), Lookup::Exact(7));
    assert_eq!(table.slot(7), Lookup::Exact(9));
    assert_eq!(table.slot(8), Lookup::Mid(Some(7), None));
    assert_eq!(table.slot(11), Lookup::Mid(Some(7), None));
}

#[test]
fn fill_without_samples_leaves_blanks() {
    let mut table = LookupTable::new(4);
    table.fill();
    for i in 0..4 {
        assert_eq!(table.slot(i), Lookup::Blank);
    }
    let mut none = LookupTable::new(0);
    none.fill();
    assert_eq!(none.len(), 0);
}

#[test]
fn samples_at_the_ends() {
    let mut table = LookupTable::new(5);
    table.add_exact(0, -100);
    table.add_exact(4, 100);
    table.fill();
    assert_eq!(table.dist(0), Distance::Exact(-100));
    assert_eq!(table.dist(1), Distance::Interpolated { numerator: -200, denominator: 4 });
    assert_eq!(table.dist(2), Distance::Interpolated { numerator: 0, denominator: 4 });
    assert_eq!(table.dist(3), Distance::Interpolated { numerator: 200, denominator: 4 });
    assert_eq!(table.dist(4), Distance::Exact(100));
}

#[test]
fn a_later_sample_is_taken_up_by_a_second_fill() {
    let mut table = table_10_20();
    table.add_exact(15, 9000);
    assert_eq!(table.dist(15), Distance::Exact(9000));
    // Until the table is filled again, the slots keep their bounds.
    assert_eq!(table.slot(12), Lookup::Mid(Some(10), Some(20)));
    table.fill();
    assert_eq!(table.slot(12), Lookup::Mid(Some(10), Some(15)));
    // A slot that was linked keeps its left bound.
    assert_eq!(table.slot(17), Lookup::Mid(Some(10), Some(20)));
    assert_eq!(table.slot(25), Lookup::Mid(Some(20), None));
}

#[test]
fn extreme_distances_do_not_overflow() {
    let mut table = LookupTable::new(3);
    table.add_exact(0, i64::MIN);
    table.add_exact(2, i64::MAX);
    table.fill();
    assert_eq!(
        table.dist(1),
        Distance::Interpolated { numerator: i64::MIN as i128 + i64::MAX as i128, denominator: 2 }
    );
    let mut low = LookupTable::new(3);
    low.add_exact(0, i64::MIN);
    low.add_exact(2, i64::MIN);
    low.fill();
    assert_eq!(
        low.dist(1),
        Distance::Interpolated { numerator: 2 * (i64::MIN as i128), denominator: 2 }
    );
}

#[test]
fn calibrated_builds_and_fills() {
    let table = LookupTable::calibrated(32, &vec![(20, 4000), (10, 1000), (10, 2000)]).unwrap();
    assert_eq!(table.len(), 32);
    assert_eq!(table.dist(10), Distance::Exact(2000));
    assert_eq!(table.dist(15), Distance::Interpolated { numerator: 30000, denominator: 10 });
    assert_eq!(table.dist(3), Distance::OutOfRange);
    assert_eq!(table.dist(31), Distance::OutOfRange);
    let empty = LookupTable::calibrated(3, &Vec::new()).unwrap();
    assert_eq!(empty.slot(1), Lookup::Blank);
}

#[test]
fn calibrated_refuses_a_sample_outside_the_table() {
    assert_eq!(LookupTable::calibrated(32, &vec![(10, 1), (32, 2), (40, 3)]).err(), Some(1));
    assert_eq!(LookupTable::calibrated(32, &vec![(100, 1)]).err(), Some(0));
    assert_eq!(LookupTable::calibrated(0, &vec![(0, 1)]).err(), Some(0));
    assert!(LookupTable::calibrated(32, &vec![(31, 1)]).is_ok());
}

#[test]
fn a_copy_of_a_table_holds_the_same_slots() {
    let table = table_10_20();
    let mut copy = table.clone();
    assert_eq!(copy.len(), table.len());
    for i in 0..table.len() {
        assert_eq!(copy.slot(i), table.slot(i));
    }
    copy.add_exact(15, 1);
    assert_eq!(table.slot(15), Lookup::Mid(Some(10), Some(20)));
    assert_eq!(copy.slot(15), Lookup::Exact(1));
}

#[test]
fn a_new_table_is_blank() {
    let table = LookupTable::new(3);
    assert_eq!(table.len(), 3);
    for i in 0..3 {
        assert_eq!(table.slot(i), Lookup::Blank);
    }
    assert_eq!(LookupTable::new(0).len(), 0);
}
