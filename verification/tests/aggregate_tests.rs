use participation::aggregate::{aggregate, count_matching, IndexRange, RangeError};
use participation::flags::{has_flag, to_flags, ParticipationFlags, TIMELY_TARGET};

fn flags_of(bytes: &[u8]) -> ParticipationFlags {
    to_flags(bytes)
}

fn range(label: &str, start: usize, end: usize) -> IndexRange {
    IndexRange { label: String::from(label), start, end }
}

#[test]
fn has_flag_checks_every_bit_of_the_mask() {
    assert!(has_flag(0b010, 0b010));
    assert!(has_flag(0b011, 0b010));
    assert!(has_flag(0b111, 0b010));
    assert!(!has_flag(0b000, 0b010));
    assert!(!has_flag(0b101, 0b010));
    assert!(has_flag(0b011, 0b011));
    assert!(!has_flag(0b010, 0b011));
    assert_eq!(TIMELY_TARGET, 0b010);
}

#[test]
fn aggregation_of_two_ranges() {
    let flags = flags_of(&[0, 2, 2, 0, 2, 3, 2, 0, 2, 2]);
    let ranges = vec![range("A", 0, 5), range("B", 5, 10)];
    let report = aggregate(&flags, &ranges, 0b010).unwrap();
    assert_eq!(report.len(), 2);
    assert_eq!(report[0].label, "A");
    assert_eq!(report[0].count, 3);
    assert_eq!(report[0].count as f64 / (report[0].end - report[0].start) as f64, 0.6);
    assert_eq!(report[1].label, "B");
    assert_eq!(report[1].count, 4);
    assert_eq!(report[1].count as f64 / (report[1].end - report[1].start) as f64, 0.8);
}

#[test]
fn count_matching_counts_exactly() {
    let flags = flags_of(&[0, 2, 2, 0, 2, 3, 2, 0, 2, 2]);
    assert_eq!(count_matching(&flags, 0, 5, 0b010), 3);
    assert_eq!(count_matching(&flags, 5, 10, 0b010), 4);
    assert_eq!(count_matching(&flags, 0, 10, 0b010), 7);
    assert_eq!(count_matching(&flags, 0, 10, 0b011), 1);
    assert_eq!(count_matching(&flags, 3, 3, 0b010), 0);
}

#[test]
fn empty_range_is_rejected() {
    let flags = flags_of(&[1, 2, 3, 4]);
    let ranges = vec![range("empty", 3, 3)];
    assert_eq!(aggregate(&flags, &ranges, 0b010).err(), Some(RangeError::Empty));
    let ranges = vec![range("reversed", 3, 1)];
    assert_eq!(aggregate(&flags, &ranges, 0b010).err(), Some(RangeError::Empty));
}

#[test]
fn out_of_bounds_range_is_rejected() {
    let flags = flags_of(&[1, 2, 3, 4]);
    let ranges = vec![range("wide", 0, 5)];
    assert_eq!(aggregate(&flags, &ranges, 0b010).err(), Some(RangeError::OutOfBounds));
}

#[test]
fn first_invalid_range_decides_the_error() {
    let flags = flags_of(&[2, 2, 2, 2]);
    let ranges = vec![range("ok", 0, 4), range("empty", 2, 2), range("wide", 0, 9)];
    assert_eq!(aggregate(&flags, &ranges, 0b010).err(), Some(RangeError::Empty));
    let ranges = vec![range("wide", 0, 9), range("empty", 2, 2)];
    assert_eq!(aggregate(&flags, &ranges, 0b010).err(), Some(RangeError::OutOfBounds));
}

#[test]
fn overlapping_ranges_are_counted_independently() {
    let flags = flags_of(&[2, 0, 2, 2]);
    let ranges = vec![range("all", 0, 4), range("tail", 2, 4), range("head", 0, 2)];
    let report = aggregate(&flags, &ranges, 0b010).unwrap();
    assert_eq!(report[0].count, 3);
    assert_eq!(report[1].count, 2);
    assert_eq!(report[2].count, 1);
}

#[test]
fn no_ranges_give_an_empty_report() {
    let flags = flags_of(&[2, 2]);
    let report = aggregate(&flags, &Vec::new(), 0b010).unwrap();
    assert!(report.is_empty());
}

#[test]
fn to_flags_copies_the_slice_verbatim() {
    let bytes = [5u8, 0, 255, 2];
    let flags = to_flags(&bytes);
    assert_eq!(flags.bytes, bytes.to_vec());
    assert_eq!(flags.len(), 4);
}
