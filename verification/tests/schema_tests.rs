use participation::schema::{
    FieldDescriptor, FieldKind, ForkEntry, ForkSchedule, ForkSchema, SchemaError,
};

fn named_schema(width: usize) -> ForkSchema {
    ForkSchema::new(vec![FieldDescriptor { name: String::from("slot"), kind: FieldKind::Fixed(width) }])
        .unwrap()
}

fn schedule_of_three() -> ForkSchedule {
    let entries = vec![
        ForkEntry { activation_epoch: 0, schema: named_schema(8) },
        ForkEntry { activation_epoch: 10, schema: named_schema(16) },
        ForkEntry { activation_epoch: 20, schema: named_schema(32) },
    ];
    ForkSchedule::new(entries).unwrap()
}

#[test]
fn schema_new_sums_fixed_widths_and_offset_slots() {
    let schema = ForkSchema::new(vec![
        FieldDescriptor { name: String::from("a"), kind: FieldKind::Fixed(8) },
        FieldDescriptor { name: String::from("b"), kind: FieldKind::Variable },
        FieldDescriptor { name: String::from("c"), kind: FieldKind::Fixed(4) },
        FieldDescriptor { name: String::from("d"), kind: FieldKind::Variable },
    ])
    .unwrap();
    assert_eq!(schema.fixed_len, 8 + 4 + 4 + 4);
}

#[test]
fn fork_boundary_is_inclusive() {
    let schedule = schedule_of_three();
    assert_eq!(schedule.resolve(9).unwrap().fixed_len, 8);
    assert_eq!(schedule.resolve(10).unwrap().fixed_len, 16);
    assert_eq!(schedule.resolve(19).unwrap().fixed_len, 16);
    assert_eq!(schedule.resolve(20).unwrap().fixed_len, 32);
    assert_eq!(schedule.resolve(u64::MAX).unwrap().fixed_len, 32);
}

#[test]
fn empty_schedule_has_no_applicable_fork() {
    let schedule = ForkSchedule::new(vec![]).unwrap();
    assert_eq!(schedule.resolve(5).err(), Some(SchemaError::NoApplicableFork));
}

#[test]
fn epoch_before_earliest_entry_has_no_applicable_fork() {
    let entries = vec![ForkEntry { activation_epoch: 5, schema: named_schema(8) }];
    let schedule = ForkSchedule::new(entries).unwrap();
    assert_eq!(schedule.resolve(4).err(), Some(SchemaError::NoApplicableFork));
    assert!(schedule.resolve(5).is_ok());
}

#[test]
fn schedule_rejects_non_increasing_epochs() {
    let entries = vec![
        ForkEntry { activation_epoch: 10, schema: named_schema(8) },
        ForkEntry { activation_epoch: 10, schema: named_schema(16) },
    ];
    assert!(ForkSchedule::new(entries).is_none());
    let entries = vec![
        ForkEntry { activation_epoch: 10, schema: named_schema(8) },
        ForkEntry { activation_epoch: 4, schema: named_schema(16) },
    ];
    assert!(ForkSchedule::new(entries).is_none());
}
