//! Offset navigator: slices one named field out of a raw state buffer
//! using offset arithmetic alone, without decoding any other field.
//!
//! The container serializes fixed-size fields inline, in declaration
//! order, and variable-size fields as a 4-byte little-endian offset
//! (relative to the start of the buffer) stored inline at the field's
//! declared position; the content of all variable fields follows the
//! fixed region, in declaration order.

use vstd::prelude::*;
use vstd::slice::{slice_index_get, slice_subrange};
use vstd::string::*;

use crate::schema::{
    spec_fixed_len, spec_slot_pos, spec_slot_width, FieldDescriptor, FieldKind, ForkSchema,
    SchemaError, lemma_slot_pos_monotonic, lemma_slot_width_nonneg,
};

verus! {

/// Errors of the data level: a buffer shorter than the fixed region,
/// or offsets that are not monotonic or point outside the buffer.
#[derive(Clone, Copy, Debug, PartialEq, Eq, Structural)]
pub enum DecodeError {
    Truncated,
    InvalidOffsets,
}

/// Everything `extract` can fail with: a configuration-level error
/// (unknown field) or a data-level error (malformed buffer).
#[derive(Clone, Copy, Debug, PartialEq, Eq, Structural)]
pub enum ExtractError {
    Schema(SchemaError),
    Decode(DecodeError),
}

/// The unsigned integer stored little-endian in `buf[p..p + 4]`.
pub open spec fn spec_le32_at(buf: Seq<u8>, p: int) -> int
    recommends
        0 <= p,
        p + 4 <= buf.len(),
{
    buf[p] + buf[p + 1] * 0x100 + buf[p + 2] * 0x10000 + buf[p + 3] * 0x1000000
}

/// The offset stored in the slot of field `i`, which must be variable.
pub open spec fn spec_offset_at(fields: Seq<FieldDescriptor>, buf: Seq<u8>, i: int) -> int {
    spec_le32_at(buf, spec_slot_pos(fields, i))
}

/// Index of the first field at or after `j` whose name is `name`, or
/// the field count if there is none.
pub open spec fn spec_find_field(fields: Seq<FieldDescriptor>, name: Seq<char>, j: int) -> int
    decreases fields.len() - j,
{
    if j < 0 || j >= fields.len() {
        fields.len() as int
    } else if fields[j].name@ == name {
        j
    } else {
        spec_find_field(fields, name, j + 1)
    }
}

/// Index of the first variable field at or after `j`, or the field
/// count if there is none.
pub open spec fn spec_next_var(fields: Seq<FieldDescriptor>, j: int) -> int
    decreases fields.len() - j,
{
    if j < 0 || j >= fields.len() {
        fields.len() as int
    } else if fields[j].kind is Variable {
        j
    } else {
        spec_next_var(fields, j + 1)
    }
}

/// `spec_next_var(fields, j)` is the least variable index at or after
/// `j`, and every index before it is fixed.
pub proof fn lemma_next_var_props(fields: Seq<FieldDescriptor>, j: int)
    requires
        0 <= j <= fields.len(),
    ensures
        j <= spec_next_var(fields, j) <= fields.len(),
        spec_next_var(fields, j) < fields.len() ==> fields[spec_next_var(
            fields,
            j,
        )].kind is Variable,
        forall|k: int|
            j <= k < spec_next_var(fields, j) ==> !((#[trigger] fields[k].kind) is Variable),
        forall|k: int|
            j <= k < fields.len() && (#[trigger] fields[k].kind) is Variable ==> spec_next_var(
                fields,
                j,
            ) <= k,
    decreases fields.len() - j,
{
    if j < fields.len() && !(fields[j].kind is Variable) {
        lemma_next_var_props(fields, j + 1);
    }
}

/// Every variable field's stored offset lies between the end of the
/// fixed region and the end of the buffer, and the offsets never
/// decrease along declaration order.
pub open spec fn spec_offsets_valid(fields: Seq<FieldDescriptor>, buf: Seq<u8>) -> bool {
    &&& forall|i: int|
        0 <= i < fields.len() && (#[trigger] fields[i].kind) is Variable ==> spec_fixed_len(fields)
            <= spec_offset_at(fields, buf, i) <= buf.len()
    &&& forall|i: int, j: int|
        0 <= i < j < fields.len() && (#[trigger] fields[i].kind) is Variable
            && (#[trigger] fields[j].kind) is Variable ==> spec_offset_at(fields, buf, i)
            <= spec_offset_at(fields, buf, j)
}

/// End of the byte range of variable field `t`: the offset of the next
/// variable field in declaration order, or the buffer length if `t` is
/// the last variable field.
pub open spec fn spec_var_end(fields: Seq<FieldDescriptor>, buf: Seq<u8>, t: int) -> int {
    if spec_next_var(fields, t + 1) < fields.len() {
        spec_offset_at(fields, buf, spec_next_var(fields, t + 1))
    } else {
        buf.len() as int
    }
}

/// The byte range that `extract` returns for field `t` of a buffer
/// that passed all checks.
pub open spec fn spec_field_range(fields: Seq<FieldDescriptor>, buf: Seq<u8>, t: int) -> Seq<u8> {
    match fields[t].kind {
        FieldKind::Fixed(w) => buf.subrange(
            spec_slot_pos(fields, t),
            spec_slot_pos(fields, t) + w,
        ),
        FieldKind::Variable => buf.subrange(
            spec_offset_at(fields, buf, t),
            spec_var_end(fields, buf, t),
        ),
    }
}

/// What `extract` promises of an error: each variant comes exactly on
/// the condition it names, checked in this order — buffer shorter than
/// the fixed region, no field of that name, malformed offset table of
/// a variable target.
pub open spec fn spec_extract_err(
    fields: Seq<FieldDescriptor>,
    buf: Seq<u8>,
    name: Seq<char>,
    e: ExtractError,
) -> bool {
    let fl = spec_fixed_len(fields);
    let t = spec_find_field(fields, name, 0);
    match e {
        ExtractError::Decode(DecodeError::Truncated) => buf.len() < fl,
        ExtractError::Schema(SchemaError::UnknownField) => buf.len() >= fl && t == fields.len(),
        ExtractError::Decode(DecodeError::InvalidOffsets) => {
            &&& buf.len() >= fl
            &&& t < fields.len()
            &&& fields[t].kind is Variable
            &&& !spec_offsets_valid(fields, buf)
        },
        ExtractError::Schema(SchemaError::NoApplicableFork) => false,
    }
}

/// What `extract` promises of a success: the named field exists, the
/// buffer passed every check that its kind demands, and the returned
/// bytes are exactly the field's range.
pub open spec fn spec_extract_ok(
    fields: Seq<FieldDescriptor>,
    buf: Seq<u8>,
    name: Seq<char>,
    s: Seq<u8>,
) -> bool {
    let fl = spec_fixed_len(fields);
    let t = spec_find_field(fields, name, 0);
    &&& buf.len() >= fl
    &&& t < fields.len()
    &&& (fields[t].kind is Variable ==> spec_offsets_valid(fields, buf))
    &&& s == spec_field_range(fields, buf, t)
}

/// Whether the views of two string slices are equal, decided character
/// by character.
pub fn str_eq(a: &str, b: &str) -> (r: bool)
    ensures
        r == (a@ == b@),
{
    let la: usize = a.unicode_len();
    let lb: usize = b.unicode_len();
    if la != lb {
        return false;
    }
    let mut i: usize = 0;
    while i < la
        invariant
            la == a@.len(),
            la == b@.len(),
            0 <= i <= la,
            forall|k: int| 0 <= k < i ==> a@[k] == b@[k],
        decreases la - i,
    {
        if a.get_char(i) != b.get_char(i) {
            return false;
        }
        i = i + 1;
    }
    proof {
        assert(a@ =~= b@);
    }
    true
}

/// Reads the 4-byte little-endian unsigned integer at `p`.
fn read_le32(buf: &[u8], p: usize) -> (r: u32)
    requires
        p + 4 <= buf@.len(),
    ensures
        r as int == spec_le32_at(buf@, p as int),
{
    let n: usize = buf.len();
    let b0: u32 = *slice_index_get(buf, p) as u32;
    let b1: u32 = *slice_index_get(buf, p + 1) as u32;
    let b2: u32 = *slice_index_get(buf, p + 2) as u32;
    let b3: u32 = *slice_index_get(buf, p + 3) as u32;
    b0 + b1 * 0x100 + b2 * 0x10000 + b3 * 0x1000000
}

/// Index of the first field named `target`, or `None` if the schema
/// has no field of that name.
fn find_field(fields: &Vec<FieldDescriptor>, target: &str) -> (r: Option<usize>)
    ensures
        match r {
            Some(t) => t == spec_find_field(fields@, target@, 0) && t < fields@.len(),
            None => spec_find_field(fields@, target@, 0) == fields@.len(),
        },
{
    let mut t: usize = 0;
    while t < fields.len()
        invariant
            0 <= t <= fields@.len(),
            spec_find_field(fields@, target@, 0) == spec_find_field(fields@, target@, t as int),
        decreases fields@.len() - t,
    {
        if str_eq(fields[t].name.as_str(), target) {
            return Some(t);
        }
        t = t + 1;
    }
    None
}

/// Slot position of field `t`: the sum of the slot widths of the
/// fields declared before it.
fn slot_pos_up_to(fields: &Vec<FieldDescriptor>, t: usize) -> (p: usize)
    requires
        t <= fields@.len(),
        spec_fixed_len(fields@) <= usize::MAX,
    ensures
        p == spec_slot_pos(fields@, t as int),
{
    proof {
        lemma_slot_width_nonneg(fields@);
    }
    let mut p: usize = 0;
    let mut i: usize = 0;
    while i < t
        invariant
            0 <= i <= t <= fields@.len(),
            p == spec_slot_pos(fields@, i as int),
            spec_fixed_len(fields@) <= usize::MAX,
            forall|k: int|
                0 <= k < fields@.len() ==> spec_slot_width(#[trigger] fields@[k].kind) >= 0,
        decreases t - i,
    {
        proof {
            lemma_slot_pos_monotonic(fields@, i + 1, fields@.len() as int);
        }
        let w: usize = match &fields[i].kind {
            FieldKind::Fixed(w) => *w,
            FieldKind::Variable => 4,
        };
        p = p + w;
        i = i + 1;
    }
    p
}

/// Slices the byte range of the field named `target` out of `buffer`
/// according to `schema`, touching no other field's content.
///
/// Fails with `Truncated` when the buffer cannot hold the fixed
/// region, with `UnknownField` when the schema has no such field, and
/// with `InvalidOffsets` when the target is variable and any stored
/// offset escapes the buffer, falls inside the fixed region, or
/// decreases along declaration order.
pub fn extract<'a>(buffer: &'a [u8], schema: &ForkSchema, target: &str) -> (r: Result<
    &'a [u8],
    ExtractError,
>)
    requires
        schema.wf(),
    ensures
        match r {
            Ok(s) => spec_extract_ok(schema.fields@, buffer@, target@, s@),
            Err(e) => spec_extract_err(schema.fields@, buffer@, target@, e),
        },
{
    let fields = &schema.fields;
    proof {
        lemma_slot_width_nonneg(fields@);
    }
    if buffer.len() < schema.fixed_len {
        return Err(ExtractError::Decode(DecodeError::Truncated));
    }
    let t = match find_field(fields, target) {
        Some(t) => t,
        None => {
            return Err(ExtractError::Schema(SchemaError::UnknownField));
        },
    };
    let pos = slot_pos_up_to(fields, t);
    match &fields[t].kind {
        FieldKind::Fixed(w) => {
            proof {
                lemma_slot_pos_monotonic(fields@, t + 1, fields@.len() as int);
            }
            Ok(slice_subrange(buffer, pos, pos + *w))
        },
        FieldKind::Variable => extract_variable(buffer, schema, t),
    }
}

/// Walks every offset slot, validates the whole offset table, and
/// slices the content range of variable field `t`.
#[verifier::rlimit(100)]
fn extract_variable<'a>(buffer: &'a [u8], schema: &ForkSchema, t: usize) -> (r: Result<
    &'a [u8],
    ExtractError,
>)
    requires
        schema.wf(),
        t < schema.fields@.len(),
        schema.fields@[t as int].kind is Variable,
        buffer@.len() >= spec_fixed_len(schema.fields@),
    ensures
        ({
            let fields = schema.fields@;
            match r {
                Err(ExtractError::Decode(DecodeError::InvalidOffsets)) => !spec_offsets_valid(
                    fields,
                    buffer@,
                ),
                Err(_) => false,
                Ok(s) => spec_offsets_valid(fields, buffer@) && s@ == spec_field_range(
                    fields,
                    buffer@,
                    t as int,
                ),
            }
        }),
{
    let fields = &schema.fields;
    let buf_len = buffer.len();
    proof {
        lemma_slot_width_nonneg(fields@);
    }
    let mut i: usize = 0;
    let mut p: usize = 0;
    let mut has_prev: bool = false;
    let mut prev: u32 = 0;
    let ghost mut prev_idx: int = 0;
    let mut o_t: usize = 0;
    let mut end: usize = buf_len;
    let mut seen_next: bool = false;
    while i < fields.len()
        invariant
            schema.wf(),
            fields == &schema.fields,
            buf_len == buffer@.len(),
            t < fields@.len(),
            fields@[t as int].kind is Variable,
            buffer@.len() >= spec_fixed_len(fields@),
            0 <= i <= fields@.len(),
            p == spec_slot_pos(fields@, i as int),
            forall|k: int|
                0 <= k < fields@.len() ==> spec_slot_width(#[trigger] fields@[k].kind) >= 0,
            forall|k: int|
                0 <= k < i && (#[trigger] fields@[k].kind) is Variable ==> spec_fixed_len(fields@)
                    <= spec_offset_at(fields@, buffer@, k) <= buffer@.len(),
            forall|k: int, l: int|
                0 <= k < l < i && (#[trigger] fields@[k].kind) is Variable && (
                #[trigger] fields@[l].kind) is Variable ==> spec_offset_at(fields@, buffer@, k)
                    <= spec_offset_at(fields@, buffer@, l),
            has_prev ==> {
                &&& 0 <= prev_idx < i
                &&& fields@[prev_idx].kind is Variable
                &&& prev as int == spec_offset_at(fields@, buffer@, prev_idx)
                &&& forall|k: int|
                    0 <= k < i && (#[trigger] fields@[k].kind) is Variable ==> spec_offset_at(
                        fields@,
                        buffer@,
                        k,
                    ) <= prev as int
            },
            !has_prev ==> forall|k: int|
                0 <= k < i ==> !((#[trigger] fields@[k].kind) is Variable),
            i > t ==> o_t as int == spec_offset_at(fields@, buffer@, t as int),
            seen_next ==> {
                &&& t < spec_next_var(fields@, t + 1) < i
                &&& end as int == spec_offset_at(fields@, buffer@, spec_next_var(fields@, t + 1))
            },
            !seen_next ==> end as int == buffer@.len() && forall|k: int|
                t < k < i ==> !((#[trigger] fields@[k].kind) is Variable),
        decreases fields@.len() - i,
    {
        proof {
            lemma_slot_pos_monotonic(fields@, i + 1, fields@.len() as int);
        }
        let w: usize = match &fields[i].kind {
            FieldKind::Fixed(w) => *w,
            FieldKind::Variable => {
                let o = read_le32(buffer, p);
                let ou = o as usize;
                if ou < schema.fixed_len || ou > buf_len {
                    proof {
                        assert(fields@[i as int].kind is Variable && !(spec_fixed_len(fields@)
                            <= spec_offset_at(fields@, buffer@, i as int) <= buffer@.len()));
                    }
                    return Err(ExtractError::Decode(DecodeError::InvalidOffsets));
                }
                if has_prev && prev > o {
                    proof {
                        assert(fields@[prev_idx].kind is Variable && fields@[i as int].kind
                            is Variable && prev_idx < i && spec_offset_at(fields@, buffer@, prev_idx)
                            > spec_offset_at(fields@, buffer@, i as int));
                    }
                    return Err(ExtractError::Decode(DecodeError::InvalidOffsets));
                }
                if i == t {
                    o_t = ou;
                }
                if i > t && !seen_next {
                    proof {
                        lemma_next_var_props(fields@, t + 1);
                    }
                    end = ou;
                    seen_next = true;
                }
                has_prev = true;
                prev = o;
                proof {
                    prev_idx = i as int;
                }
                4
            },
        };
        p = p + w;
        i = i + 1;
    }
    proof {
        lemma_next_var_props(fields@, t + 1);
        assert(spec_offsets_valid(fields@, buffer@));
        assert(o_t as int == spec_offset_at(fields@, buffer@, t as int));
        assert(end as int == spec_var_end(fields@, buffer@, t as int));
        if seen_next {
            let nv = spec_next_var(fields@, t + 1);
            assert(fields@[nv].kind is Variable);
            assert(spec_offset_at(fields@, buffer@, t as int) <= spec_offset_at(
                fields@,
                buffer@,
                nv,
            ));
        }
        assert(o_t <= end <= buffer@.len());
    }
    Ok(slice_subrange(buffer, o_t, end))
}

} // verus!
