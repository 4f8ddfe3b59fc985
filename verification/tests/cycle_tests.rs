use participation::aggregate::{IndexRange, RangeError};
use participation::cycle::{run_cycle, CycleError};
use participation::decode::DecodeError;
use participation::finality::{CheckpointData, Checkpoints, FinalityCheckpointResposne};
use participation::schema::{
    FieldDescriptor, FieldKind, ForkEntry, ForkSchedule, ForkSchema, SchemaError,
};

/// Old revision: slot, then the participation flags.
fn schema_v0() -> ForkSchema {
    ForkSchema::new(vec![
        FieldDescriptor { name: String::from("slot"), kind: FieldKind::Fixed(8) },
        FieldDescriptor { name: String::from("participation"), kind: FieldKind::Variable },
    ])
    .unwrap()
}

/// New revision: an extra fixed field widens the fixed region.
fn schema_v1() -> ForkSchema {
    ForkSchema::new(vec![
        FieldDescriptor { name: String::from("slot"), kind: FieldKind::Fixed(8) },
        FieldDescriptor { name: String::from("fork_digest"), kind: FieldKind::Fixed(4) },
        FieldDescriptor { name: String::from("participation"), kind: FieldKind::Variable },
    ])
    .unwrap()
}

fn schedule() -> ForkSchedule {
    ForkSchedule::new(vec![
        ForkEntry { activation_epoch: 0, schema: schema_v0() },
        ForkEntry { activation_epoch: 10, schema: schema_v1() },
    ])
    .unwrap()
}

/// Serializes a v0 state: 8 slot bytes, offset slot, flags.
fn buffer_v0(flags: &[u8]) -> Vec<u8> {
    let mut buf = vec![0u8; 8];
    buf.extend(12u32.to_le_bytes());
    buf.extend(flags);
    buf
}

/// Serializes a v1 state: 8 slot bytes, 4 digest bytes, offset slot,
/// flags.
fn buffer_v1(flags: &[u8]) -> Vec<u8> {
    let mut buf = vec![0u8; 8];
    buf.extend([0xde, 0xad, 0xbe, 0xef]);
    buf.extend(16u32.to_le_bytes());
    buf.extend(flags);
    buf
}

fn ranges() -> Vec<IndexRange> {
    vec![
        IndexRange { label: String::from("A"), start: 0, end: 5 },
        IndexRange { label: String::from("B"), start: 5, end: 10 },
    ]
}

#[test]
fn cycle_counts_under_the_old_revision() {
    let flags = [0u8, 2, 2, 0, 2, 3, 2, 0, 2, 2];
    let report =
        run_cycle(&schedule(), 9, &buffer_v0(&flags), "participation", &ranges(), 0b010).unwrap();
    assert_eq!(report.len(), 2);
    assert_eq!(report[0].count, 3);
    assert_eq!(report[1].count, 4);
}

#[test]
fn cycle_resolves_the_new_revision_at_its_boundary() {
    let flags = [2u8, 2, 2, 2, 2, 0, 0, 0, 0, 0];
    // A v1 buffer read at epoch 10 parses under the v1 layout.
    let report =
        run_cycle(&schedule(), 10, &buffer_v1(&flags), "participation", &ranges(), 0b010).unwrap();
    assert_eq!(report[0].count, 5);
    assert_eq!(report[1].count, 0);
    // The same bytes read under the old layout give a different field
    // boundary: the old schema reads the digest bytes as the offset.
    assert!(run_cycle(&schedule(), 9, &buffer_v1(&flags), "participation", &ranges(), 0b010).is_err());
}

#[test]
fn cycle_without_applicable_fork_fails() {
    let empty = ForkSchedule::new(vec![]).unwrap();
    let flags = [2u8; 10];
    assert_eq!(
        run_cycle(&empty, 3, &buffer_v0(&flags), "participation", &ranges(), 0b010).err(),
        Some(CycleError::Schema(SchemaError::NoApplicableFork))
    );
}

#[test]
fn cycle_reports_unknown_field() {
    let flags = [2u8; 10];
    assert_eq!(
        run_cycle(&schedule(), 0, &buffer_v0(&flags), "missing", &ranges(), 0b010).err(),
        Some(CycleError::Schema(SchemaError::UnknownField))
    );
}

#[test]
fn cycle_reports_truncation() {
    assert_eq!(
        run_cycle(&schedule(), 0, &[0u8; 5], "participation", &ranges(), 0b010).err(),
        Some(CycleError::Decode(DecodeError::Truncated))
    );
}

#[test]
fn cycle_reports_range_errors() {
    let flags = [2u8; 10];
    let bad = vec![IndexRange { label: String::from("wide"), start: 0, end: 11 }];
    assert_eq!(
        run_cycle(&schedule(), 0, &buffer_v0(&flags), "participation", &bad, 0b010).err(),
        Some(CycleError::Range(RangeError::OutOfBounds))
    );
}

#[test]
fn finality_answer_keeps_its_parts() {
    let data = Checkpoints {
        previous_justified: CheckpointData { epoch: String::from("1"), root: String::from("0xaa") },
        current_justified: CheckpointData { epoch: String::from("2"), root: String::from("0xbb") },
        finalized: CheckpointData { epoch: String::from("3"), root: String::from("0xcc") },
    };
    let answer = FinalityCheckpointResposne::new(false, true, data);
    assert!(!answer.execution_optimistic);
    assert!(answer.finalized);
    assert_eq!(answer.data.finalized.epoch, "3");
    assert_eq!(answer.data.previous_justified.root, "0xaa");
}
