use participation::decode::{extract, DecodeError, ExtractError};
use participation::schema::{FieldDescriptor, FieldKind, ForkSchema, SchemaError};

/// a: 8 fixed bytes | b: variable | c: 4 fixed bytes | d: variable.
/// Fixed region: 8 + 4 (offset of b) + 4 + 4 (offset of d) = 20 bytes.
fn mixed_schema() -> ForkSchema {
    ForkSchema::new(vec![
        FieldDescriptor { name: String::from("a"), kind: FieldKind::Fixed(8) },
        FieldDescriptor { name: String::from("b"), kind: FieldKind::Variable },
        FieldDescriptor { name: String::from("c"), kind: FieldKind::Fixed(4) },
        FieldDescriptor { name: String::from("d"), kind: FieldKind::Variable },
    ])
    .unwrap()
}

/// Serializes the mixed schema with a = 10..18, b, c = 30..34, d, and
/// the given offsets written in the two offset slots.
fn mixed_buffer(b: &[u8], d: &[u8], off_b: u32, off_d: u32) -> Vec<u8> {
    let mut buf = Vec::new();
    buf.extend((10u8..18).collect::<Vec<u8>>());
    buf.extend(off_b.to_le_bytes());
    buf.extend(30u8..34);
    buf.extend(off_d.to_le_bytes());
    buf.extend(b);
    buf.extend(d);
    buf
}

#[test]
fn round_trip_of_every_field() {
    let schema = mixed_schema();
    let b = [1u8, 2, 3];
    let d = [9u8, 9];
    let buf = mixed_buffer(&b, &d, 20, 23);
    assert_eq!(extract(&buf, &schema, "a").unwrap(), &[10u8, 11, 12, 13, 14, 15, 16, 17]);
    assert_eq!(extract(&buf, &schema, "b").unwrap(), &b);
    assert_eq!(extract(&buf, &schema, "c").unwrap(), &[30u8, 31, 32, 33]);
    assert_eq!(extract(&buf, &schema, "d").unwrap(), &d);
}

#[test]
fn round_trip_with_empty_variable_payload() {
    let schema = mixed_schema();
    let d = [7u8, 8, 9];
    let buf = mixed_buffer(&[], &d, 20, 20);
    assert_eq!(extract(&buf, &schema, "b").unwrap(), &[0u8; 0]);
    assert_eq!(extract(&buf, &schema, "d").unwrap(), &d);
}

#[test]
fn buffer_of_exactly_the_fixed_region_holds_empty_payloads() {
    let schema = mixed_schema();
    let buf = mixed_buffer(&[], &[], 20, 20);
    assert_eq!(buf.len(), schema.fixed_len);
    assert_eq!(extract(&buf, &schema, "b").unwrap(), &[0u8; 0]);
    assert_eq!(extract(&buf, &schema, "d").unwrap(), &[0u8; 0]);
}

#[test]
fn unknown_field_is_reported() {
    let schema = mixed_schema();
    let buf = mixed_buffer(&[1], &[2], 20, 21);
    assert_eq!(
        extract(&buf, &schema, "nope").err(),
        Some(ExtractError::Schema(SchemaError::UnknownField))
    );
}

#[test]
fn every_truncated_prefix_is_rejected() {
    let schema = mixed_schema();
    let buf = mixed_buffer(&[1, 2], &[3], 20, 22);
    for cut in 0..schema.fixed_len {
        let short = &buf[..cut];
        assert_eq!(
            extract(short, &schema, "b").err(),
            Some(ExtractError::Decode(DecodeError::Truncated)),
            "prefix length {cut}"
        );
        assert_eq!(
            extract(short, &schema, "a").err(),
            Some(ExtractError::Decode(DecodeError::Truncated)),
            "prefix length {cut}"
        );
    }
}

#[test]
fn decreasing_offsets_are_rejected() {
    let schema = mixed_schema();
    let buf = mixed_buffer(&[1, 2, 3], &[9, 9], 23, 20);
    assert_eq!(
        extract(&buf, &schema, "b").err(),
        Some(ExtractError::Decode(DecodeError::InvalidOffsets))
    );
    assert_eq!(
        extract(&buf, &schema, "d").err(),
        Some(ExtractError::Decode(DecodeError::InvalidOffsets))
    );
}

#[test]
fn offset_inside_fixed_region_is_rejected() {
    let schema = mixed_schema();
    let buf = mixed_buffer(&[1, 2, 3], &[9, 9], 19, 23);
    assert_eq!(
        extract(&buf, &schema, "b").err(),
        Some(ExtractError::Decode(DecodeError::InvalidOffsets))
    );
}

#[test]
fn offset_past_buffer_end_is_rejected() {
    let schema = mixed_schema();
    let buf = mixed_buffer(&[1, 2, 3], &[9, 9], 20, 200);
    assert_eq!(
        extract(&buf, &schema, "d").err(),
        Some(ExtractError::Decode(DecodeError::InvalidOffsets))
    );
}

#[test]
fn fixed_target_ignores_offset_slots() {
    // Per the layout algorithm a fixed field is sliced from its
    // declared position alone; the offset table is only walked for a
    // variable target.
    let schema = mixed_schema();
    let buf = mixed_buffer(&[1, 2, 3], &[9, 9], 23, 20);
    assert_eq!(extract(&buf, &schema, "a").unwrap(), &[10u8, 11, 12, 13, 14, 15, 16, 17]);
}
