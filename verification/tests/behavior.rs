use rangeset::Error;
use rangeset::Range;
use rangeset::RangeSet;

#[test]
fn insert_same_range_twice_keeps_one_entry() {
    let mut rangeset: RangeSet<8> = RangeSet::new();
    rangeset.insert(Range::new(5, 15).unwrap()).unwrap();
    rangeset.insert(Range::new(5, 15).unwrap()).unwrap();

    let entries = rangeset.entries();
    assert_eq!(entries.len(), 1);
    assert_eq!(entries[0], Range { start: 5, end: 15 });
}

#[test]
fn remove_then_insert_restores_the_set() {
    let mut rangeset: RangeSet<8> = RangeSet::new();
    rangeset.insert(Range::new(0, 100).unwrap()).unwrap();
    rangeset.insert(Range::new(200, 300).unwrap()).unwrap();

    assert_eq!(rangeset.remove(Range::new(10, 20).unwrap()), Ok(true));
    rangeset.insert(Range::new(10, 20).unwrap()).unwrap();

    let entries = rangeset.entries();
    assert_eq!(entries.len(), 2);
    assert_eq!(entries[0], Range { start: 0, end: 100 });
    assert_eq!(entries[1], Range { start: 200, end: 300 });
}

#[test]
fn len_never_decreases_under_insert() {
    let mut rangeset: RangeSet<8> = RangeSet::new();
    rangeset.insert(Range::new(10, 19).unwrap()).unwrap();
    assert_eq!(rangeset.len(), Some(10));

    // Overlapping insert: the covered size stays the same.
    rangeset.insert(Range::new(12, 17).unwrap()).unwrap();
    assert_eq!(rangeset.len(), Some(10));

    // Extending insert: the covered size grows.
    rangeset.insert(Range::new(15, 29).unwrap()).unwrap();
    assert_eq!(rangeset.len(), Some(20));
}

#[test]
fn len_overflows_to_none_on_full_address_space() {
    let mut rangeset: RangeSet<4> = RangeSet::new();
    rangeset.insert(Range::new(0, usize::MAX).unwrap()).unwrap();
    assert_eq!(rangeset.len(), None);
}

#[test]
fn len_sums_separate_entries() {
    let mut rangeset: RangeSet<4> = RangeSet::new();
    rangeset.insert(Range::new(0, 4).unwrap()).unwrap();
    rangeset.insert(Range::new(10, 14).unwrap()).unwrap();
    assert_eq!(rangeset.len(), Some(10));
}

#[test]
fn insert_fails_when_scan_reaches_a_max_ending_entry() {
    let mut rangeset: RangeSet<8> = RangeSet::new();
    rangeset.insert(Range::new(10, 20).unwrap()).unwrap();
    rangeset.insert(Range::new(30, usize::MAX).unwrap()).unwrap();

    // The new range touches the first entry, so the scan walks on to the
    // entry ending at usize::MAX, whose end + 1 overflows.
    let res = rangeset.insert(Range::new(5, 9).unwrap());
    assert_eq!(res.unwrap_err(), Error::RangeSetOverflow);

    // The failing insert left the set unchanged.
    let entries = rangeset.entries();
    assert_eq!(entries.len(), 2);
    assert_eq!(entries[0], Range { start: 10, end: 20 });
    assert_eq!(entries[1], Range { start: 30, end: usize::MAX });
}

#[test]
fn insert_fails_on_full_set_without_merge() {
    let mut rangeset: RangeSet<1> = RangeSet::new();
    rangeset.insert(Range::new(0, 1).unwrap()).unwrap();

    let res = rangeset.insert(Range::new(5, 6).unwrap());
    assert_eq!(res.unwrap_err(), Error::RangeSetOverflow);
    assert_eq!(rangeset.entries(), &[Range { start: 0, end: 1 }]);

    // A merging insert still succeeds on a full set.
    assert_eq!(rangeset.insert(Range::new(2, 6).unwrap()), Ok(()));
    assert_eq!(rangeset.entries(), &[Range { start: 0, end: 6 }]);
}

#[test]
fn remove_fails_when_a_split_has_no_room() {
    let mut rangeset: RangeSet<1> = RangeSet::new();
    rangeset.insert(Range::new(0, 100).unwrap()).unwrap();

    let res = rangeset.remove(Range::new(10, 20).unwrap());
    assert_eq!(res.unwrap_err(), Error::RangeSetOverflow);
    assert_eq!(rangeset.entries(), &[Range { start: 0, end: 100 }]);

    // Removals that need no extra slot still succeed on a full set.
    assert_eq!(rangeset.remove(Range::new(0, 9).unwrap()), Ok(true));
    assert_eq!(rangeset.entries(), &[Range { start: 10, end: 100 }]);
}

#[test]
fn remove_spanning_several_entries() {
    let mut rangeset: RangeSet<8> = RangeSet::new();
    rangeset.insert(Range::new(0, 10).unwrap()).unwrap();
    rangeset.insert(Range::new(20, 30).unwrap()).unwrap();
    rangeset.insert(Range::new(40, 50).unwrap()).unwrap();

    assert_eq!(rangeset.remove(Range::new(5, 45).unwrap()), Ok(true));
    let entries = rangeset.entries();
    assert_eq!(entries.len(), 2);
    assert_eq!(entries[0], Range { start: 0, end: 4 });
    assert_eq!(entries[1], Range { start: 46, end: 50 });
}

#[test]
fn split_entry_rejects_a_cut_reaching_the_end() {
    let mut rangeset: RangeSet<4> = RangeSet::new();
    rangeset.insert(Range::new(10, 30).unwrap()).unwrap();

    let res = rangeset.split_entry(0, Range::new(15, 30).unwrap());
    assert_eq!(res.unwrap_err(), Error::InvalidRange);
    assert_eq!(rangeset.entries(), &[Range { start: 10, end: 30 }]);
}

#[test]
fn split_entry_rejects_a_point_cut_at_the_start() {
    let mut rangeset: RangeSet<4> = RangeSet::new();
    rangeset.insert(Range::new(10, 30).unwrap()).unwrap();

    let res = rangeset.split_entry(0, Range::new(10, 10).unwrap());
    assert_eq!(res.unwrap_err(), Error::InvalidRange);
    assert_eq!(rangeset.entries(), &[Range { start: 10, end: 30 }]);
}

#[test]
fn split_entry_collapses_the_left_remainder_to_a_point() {
    let mut rangeset: RangeSet<4> = RangeSet::new();
    rangeset.insert(Range::new(10, 30).unwrap()).unwrap();

    // A cut starting exactly at the entry's start keeps that single point.
    assert_eq!(rangeset.split_entry(0, Range::new(10, 20).unwrap()), Ok(true));
    let entries = rangeset.entries();
    assert_eq!(entries.len(), 2);
    assert_eq!(entries[0], Range { start: 10, end: 10 });
    assert_eq!(entries[1], Range { start: 21, end: 30 });
}

#[test]
fn split_entry_out_of_bounds() {
    let mut rangeset: RangeSet<4> = RangeSet::new();
    rangeset.insert(Range::new(10, 30).unwrap()).unwrap();

    let res = rangeset.split_entry(3, Range::new(15, 20).unwrap());
    assert_eq!(res.unwrap_err(), Error::IndexOutOfBounds);
}

#[test]
fn delete_shifts_later_entries_left() {
    let mut rangeset: RangeSet<4> = RangeSet::new();
    rangeset.insert(Range::new(5, 10).unwrap()).unwrap();
    rangeset.insert(Range::new(20, 30).unwrap()).unwrap();

    assert_eq!(rangeset.delete(0), Ok(()));
    assert_eq!(rangeset.entries(), &[Range { start: 20, end: 30 }]);
}

#[test]
fn overlaps_on_a_shared_single_point() {
    let a = Range::new(5, 10).unwrap();
    let b = Range::new(10, 20).unwrap();
    assert_eq!(a.overlaps(&b), Some(Range { start: 10, end: 10 }));

    // Touching without sharing a point is no overlap.
    let c = Range::new(11, 20).unwrap();
    assert_eq!(a.overlaps(&c), None);
}

#[test]
fn error_kinds_are_distinct() {
    assert_ne!(Error::InvalidRange, Error::IndexOutOfBounds);
    assert_ne!(Error::RangeSetOverflow, Error::ZeroSizedAllocation);
}

#[test]
fn insert_bridges_many_entries() {
    let mut rangeset: RangeSet<8> = RangeSet::new();
    rangeset.insert(Range::new(0, 1).unwrap()).unwrap();
    rangeset.insert(Range::new(10, 11).unwrap()).unwrap();
    rangeset.insert(Range::new(20, 21).unwrap()).unwrap();
    assert_eq!(rangeset.entries().len(), 3);

    // One insert touching all three collapses them into a single entry.
    rangeset.insert(Range::new(2, 19).unwrap()).unwrap();
    assert_eq!(rangeset.entries(), &[Range { start: 0, end: 21 }]);
}
