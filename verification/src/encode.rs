//! Model of a container serialized from given field contents, and the
//! round-trip law: slicing a field out of such a buffer returns
//! exactly the bytes the field was written with, for every layout.

use vstd::prelude::*;
use vstd::arithmetic::div_mod::{
    lemma_div_denominator, lemma_fundamental_div_mod, lemma_mod_bound,
};

use crate::decode::{
    lemma_next_var_props, spec_field_range, spec_le32_at, spec_next_var, spec_offset_at,
    spec_offsets_valid, spec_var_end,
};
use crate::schema::{
    lemma_slot_pos_monotonic, lemma_slot_width_nonneg, spec_fixed_len, spec_slot_pos,
    spec_slot_width, FieldDescriptor, FieldKind,
};

verus! {

/// The four little-endian bytes of `v`.
pub open spec fn spec_le32_bytes(v: int) -> Seq<u8> {
    seq![
        (v % 0x100) as u8,
        ((v / 0x100) % 0x100) as u8,
        ((v / 0x10000) % 0x100) as u8,
        ((v / 0x1000000) % 0x100) as u8,
    ]
}

/// Reading the four little-endian bytes of `v` back as an integer
/// gives `v`.
pub proof fn lemma_le32_bytes_value(v: int)
    requires
        0 <= v < 0x1_0000_0000,
    ensures
        spec_le32_bytes(v).len() == 4,
        spec_le32_bytes(v)[0] + spec_le32_bytes(v)[1] * 0x100 + spec_le32_bytes(v)[2] * 0x10000
            + spec_le32_bytes(v)[3] * 0x1000000 == v,
{
    lemma_fundamental_div_mod(v, 0x100);
    lemma_fundamental_div_mod(v / 0x100, 0x100);
    lemma_fundamental_div_mod(v / 0x10000, 0x100);
    lemma_fundamental_div_mod(v, 0x1000000);
    lemma_div_denominator(v, 0x100, 0x100);
    lemma_div_denominator(v, 0x10000, 0x100);
    lemma_mod_bound(v, 0x100);
    lemma_mod_bound(v / 0x100, 0x100);
    lemma_mod_bound(v / 0x10000, 0x100);
    lemma_mod_bound(v / 0x1000000, 0x100);
    lemma_mod_bound(v, 0x1000000);
}

/// Total length of the variable contents of the fields declared
/// before index `i`.
pub open spec fn spec_var_total(fields: Seq<FieldDescriptor>, payloads: Seq<Seq<u8>>, i: int) -> int
    decreases i,
{
    if i <= 0 {
        0
    } else {
        spec_var_total(fields, payloads, i - 1) + if fields[i - 1].kind is Variable {
            payloads[i - 1].len() as int
        } else {
            0
        }
    }
}

/// Offset at which the content of variable field `i` begins: past the
/// fixed region and the variable contents declared before it.
pub open spec fn spec_offset_of(fields: Seq<FieldDescriptor>, payloads: Seq<Seq<u8>>, i: int) -> int {
    spec_fixed_len(fields) + spec_var_total(fields, payloads, i)
}

/// The bytes of field `i`'s slot in the fixed region: its content for
/// a fixed field, its content's offset for a variable field.
pub open spec fn spec_slot_bytes(fields: Seq<FieldDescriptor>, payloads: Seq<Seq<u8>>, i: int) -> Seq<
    u8,
> {
    match fields[i].kind {
        FieldKind::Fixed(_) => payloads[i],
        FieldKind::Variable => spec_le32_bytes(spec_offset_of(fields, payloads, i)),
    }
}

/// The fixed region of the container, up to (excluding) field `i`.
pub open spec fn spec_fixed_region(
    fields: Seq<FieldDescriptor>,
    payloads: Seq<Seq<u8>>,
    i: int,
) -> Seq<u8>
    decreases i,
{
    if i <= 0 {
        Seq::empty()
    } else {
        spec_fixed_region(fields, payloads, i - 1) + spec_slot_bytes(fields, payloads, i - 1)
    }
}

/// The variable contents of the container, up to (excluding) field
/// `i`, in declaration order.
pub open spec fn spec_var_region(
    fields: Seq<FieldDescriptor>,
    payloads: Seq<Seq<u8>>,
    i: int,
) -> Seq<u8>
    decreases i,
{
    if i <= 0 {
        Seq::empty()
    } else {
        spec_var_region(fields, payloads, i - 1) + if fields[i - 1].kind is Variable {
            payloads[i - 1]
        } else {
            Seq::empty()
        }
    }
}

/// A container serialized from the given per-field contents: the
/// fixed region, then every variable field's content in declaration
/// order.
pub open spec fn spec_encode(fields: Seq<FieldDescriptor>, payloads: Seq<Seq<u8>>) -> Seq<u8> {
    spec_fixed_region(fields, payloads, fields.len() as int) + spec_var_region(
        fields,
        payloads,
        fields.len() as int,
    )
}

/// The contents fit the layout: one content per field, each fixed
/// field's content of its declared width, and the whole container
/// small enough for every offset to fit in 4 bytes.
pub open spec fn spec_payloads_wf(fields: Seq<FieldDescriptor>, payloads: Seq<Seq<u8>>) -> bool {
    &&& payloads.len() == fields.len()
    &&& forall|i: int|
        0 <= i < fields.len() ==> ((#[trigger] fields[i].kind) matches FieldKind::Fixed(w)
            ==> payloads[i].len() == w)
    &&& spec_fixed_len(fields) + spec_var_total(fields, payloads, fields.len() as int)
        < 0x1_0000_0000
}

/// The fixed region up to field `i` is exactly `spec_slot_pos(i)`
/// bytes long.
pub proof fn lemma_fixed_region_len(fields: Seq<FieldDescriptor>, payloads: Seq<Seq<u8>>, i: int)
    requires
        spec_payloads_wf(fields, payloads),
        0 <= i <= fields.len(),
    ensures
        spec_fixed_region(fields, payloads, i).len() == spec_slot_pos(fields, i),
    decreases i,
{
    if i > 0 {
        lemma_fixed_region_len(fields, payloads, i - 1);
        lemma_le32_bytes_len(spec_offset_of(fields, payloads, i - 1));
    }
}

/// A little-endian offset slot is 4 bytes long.
proof fn lemma_le32_bytes_len(v: int)
    ensures
        spec_le32_bytes(v).len() == 4,
{
}

/// The variable contents up to field `i` are exactly
/// `spec_var_total(i)` bytes long.
pub proof fn lemma_var_region_len(fields: Seq<FieldDescriptor>, payloads: Seq<Seq<u8>>, i: int)
    requires
        0 <= i,
    ensures
        spec_var_region(fields, payloads, i).len() == spec_var_total(fields, payloads, i),
    decreases i,
{
    if i > 0 {
        lemma_var_region_len(fields, payloads, i - 1);
    }
}

/// Variable totals never decrease along declaration order.
pub proof fn lemma_var_total_mono(
    fields: Seq<FieldDescriptor>,
    payloads: Seq<Seq<u8>>,
    i: int,
    j: int,
)
    requires
        0 <= i <= j,
    ensures
        spec_var_total(fields, payloads, i) <= spec_var_total(fields, payloads, j),
    decreases j - i,
{
    if i < j {
        lemma_var_total_mono(fields, payloads, i, j - 1);
    }
}

/// Fields without variable content do not advance the variable total.
pub proof fn lemma_var_total_skip(
    fields: Seq<FieldDescriptor>,
    payloads: Seq<Seq<u8>>,
    j: int,
    k: int,
)
    requires
        0 <= j <= k,
        forall|l: int| j <= l < k ==> !((#[trigger] fields[l].kind) is Variable),
    ensures
        spec_var_total(fields, payloads, k) == spec_var_total(fields, payloads, j),
    decreases k - j,
{
    if j < k {
        lemma_var_total_skip(fields, payloads, j, k - 1);
    }
}

/// The fixed region up to field `j` is a prefix of the whole fixed
/// region.
pub proof fn lemma_fixed_region_prefix(fields: Seq<FieldDescriptor>, payloads: Seq<Seq<u8>>, j: int)
    requires
        spec_payloads_wf(fields, payloads),
        0 <= j <= fields.len(),
    ensures
        spec_fixed_region(fields, payloads, j) == spec_fixed_region(
            fields,
            payloads,
            fields.len() as int,
        ).subrange(0, spec_slot_pos(fields, j)),
    decreases fields.len() - j,
{
    let whole = spec_fixed_region(fields, payloads, fields.len() as int);
    lemma_fixed_region_len(fields, payloads, j);
    lemma_fixed_region_len(fields, payloads, fields.len() as int);
    lemma_slot_width_nonneg(fields);
    lemma_slot_pos_monotonic(fields, 0, j);
    lemma_slot_pos_monotonic(fields, j, fields.len() as int);
    if j == fields.len() {
        assert(spec_fixed_region(fields, payloads, j) =~= whole.subrange(
            0,
            spec_slot_pos(fields, j),
        ));
    } else {
        lemma_fixed_region_prefix(fields, payloads, j + 1);
        lemma_fixed_region_len(fields, payloads, j + 1);
        lemma_slot_pos_monotonic(fields, j, j + 1);
        lemma_slot_pos_monotonic(fields, j + 1, fields.len() as int);
        assert(spec_fixed_region(fields, payloads, j + 1) == spec_fixed_region(fields, payloads, j)
            + spec_slot_bytes(fields, payloads, j));
        assert(spec_fixed_region(fields, payloads, j) =~= spec_fixed_region(
            fields,
            payloads,
            j + 1,
        ).subrange(0, spec_slot_pos(fields, j)));
        assert(spec_fixed_region(fields, payloads, j + 1).subrange(0, spec_slot_pos(fields, j))
            =~= whole.subrange(0, spec_slot_pos(fields, j)));
    }
}

/// The variable contents up to field `j` are a prefix of the whole
/// variable region.
pub proof fn lemma_var_region_prefix(fields: Seq<FieldDescriptor>, payloads: Seq<Seq<u8>>, j: int)
    requires
        0 <= j <= fields.len(),
    ensures
        spec_var_region(fields, payloads, j) == spec_var_region(
            fields,
            payloads,
            fields.len() as int,
        ).subrange(0, spec_var_total(fields, payloads, j)),
    decreases fields.len() - j,
{
    let whole = spec_var_region(fields, payloads, fields.len() as int);
    lemma_var_region_len(fields, payloads, j);
    lemma_var_region_len(fields, payloads, fields.len() as int);
    lemma_var_total_mono(fields, payloads, 0, j);
    lemma_var_total_mono(fields, payloads, j, fields.len() as int);
    if j == fields.len() {
        assert(spec_var_region(fields, payloads, j) =~= whole.subrange(
            0,
            spec_var_total(fields, payloads, j),
        ));
    } else {
        lemma_var_region_prefix(fields, payloads, j + 1);
        lemma_var_region_len(fields, payloads, j + 1);
        lemma_var_total_mono(fields, payloads, j, j + 1);
        lemma_var_total_mono(fields, payloads, j + 1, fields.len() as int);
        assert(spec_var_region(fields, payloads, j) =~= spec_var_region(
            fields,
            payloads,
            j + 1,
        ).subrange(0, spec_var_total(fields, payloads, j)));
        assert(spec_var_region(fields, payloads, j + 1).subrange(
            0,
            spec_var_total(fields, payloads, j),
        ) =~= whole.subrange(0, spec_var_total(fields, payloads, j)));
    }
}

/// The serialized container is the fixed region followed by the
/// variable contents, and is at least the fixed region long.
pub proof fn lemma_encode_len(fields: Seq<FieldDescriptor>, payloads: Seq<Seq<u8>>)
    requires
        spec_payloads_wf(fields, payloads),
    ensures
        spec_encode(fields, payloads).len() == spec_fixed_len(fields) + spec_var_total(
            fields,
            payloads,
            fields.len() as int,
        ),
        spec_fixed_len(fields) >= 0,
        spec_var_total(fields, payloads, fields.len() as int) >= 0,
    decreases fields.len(),
{
    lemma_fixed_region_len(fields, payloads, fields.len() as int);
    lemma_var_region_len(fields, payloads, fields.len() as int);
    lemma_slot_width_nonneg(fields);
    lemma_slot_pos_monotonic(fields, 0, fields.len() as int);
    lemma_var_total_mono(fields, payloads, 0, fields.len() as int);
}

/// Field `i`'s slot of the serialized container holds exactly its
/// slot bytes.
pub proof fn lemma_slot_at(fields: Seq<FieldDescriptor>, payloads: Seq<Seq<u8>>, i: int)
    requires
        spec_payloads_wf(fields, payloads),
        0 <= i < fields.len(),
    ensures
        spec_encode(fields, payloads).subrange(
            spec_slot_pos(fields, i),
            spec_slot_pos(fields, i) + spec_slot_width(fields[i].kind),
        ) == spec_slot_bytes(fields, payloads, i),
{
    let buf = spec_encode(fields, payloads);
    let whole = spec_fixed_region(fields, payloads, fields.len() as int);
    lemma_slot_width_nonneg(fields);
    lemma_slot_pos_monotonic(fields, 0, i);
    lemma_slot_pos_monotonic(fields, i + 1, fields.len() as int);
    lemma_fixed_region_len(fields, payloads, i);
    lemma_fixed_region_len(fields, payloads, i + 1);
    lemma_fixed_region_len(fields, payloads, fields.len() as int);
    lemma_fixed_region_prefix(fields, payloads, i + 1);
    lemma_le32_bytes_len(spec_offset_of(fields, payloads, i));
    lemma_encode_len(fields, payloads);
    let sp: int = spec_slot_pos(fields, i);
    let width: int = spec_slot_width(fields[i].kind);
    assert(spec_fixed_region(fields, payloads, i + 1) == spec_fixed_region(fields, payloads, i)
        + spec_slot_bytes(fields, payloads, i));
    assert(spec_slot_bytes(fields, payloads, i).len() == width);
    assert(spec_slot_pos(fields, i + 1) == sp + width);
    assert forall|m: int| 0 <= m < width implies buf[sp + m] == spec_slot_bytes(
        fields,
        payloads,
        i,
    )[m] by {
        assert(spec_fixed_region(fields, payloads, i + 1)[sp + m] == spec_slot_bytes(
            fields,
            payloads,
            i,
        )[m]);
        assert(spec_fixed_region(fields, payloads, i + 1)[sp + m] == whole[sp + m]);
        assert(buf[sp + m] == whole[sp + m]);
    }
    assert(spec_slot_bytes(fields, payloads, i) =~= buf.subrange(sp, sp + width));
}

/// The offset stored in variable field `i`'s slot of the serialized
/// container is the offset its content was written at.
pub proof fn lemma_encode_offset_at(fields: Seq<FieldDescriptor>, payloads: Seq<Seq<u8>>, i: int)
    requires
        spec_payloads_wf(fields, payloads),
        0 <= i < fields.len(),
        fields[i].kind is Variable,
    ensures
        spec_offset_at(fields, spec_encode(fields, payloads), i) == spec_offset_of(
            fields,
            payloads,
            i,
        ),
{
    let buf = spec_encode(fields, payloads);
    let sp = spec_slot_pos(fields, i);
    let v = spec_offset_of(fields, payloads, i);
    lemma_slot_at(fields, payloads, i);
    lemma_encode_len(fields, payloads);
    lemma_slot_width_nonneg(fields);
    lemma_slot_pos_monotonic(fields, 0, i);
    lemma_slot_pos_monotonic(fields, i + 1, fields.len() as int);
    lemma_var_total_mono(fields, payloads, 0, i);
    lemma_var_total_mono(fields, payloads, i, fields.len() as int);
    lemma_le32_bytes_value(v);
    assert(spec_slot_pos(fields, i + 1) == sp + 4);
    assert(sp + 4 <= buf.len());
    assert(buf.subrange(sp, sp + 4) == spec_le32_bytes(v));
    assert(buf[sp] == spec_le32_bytes(v)[0]);
    assert(buf[sp + 1] == spec_le32_bytes(v)[1]);
    assert(buf[sp + 2] == spec_le32_bytes(v)[2]);
    assert(buf[sp + 3] == spec_le32_bytes(v)[3]);
}

/// A serialized container always passes the offset checks: every
/// offset lies between the fixed region and the end, in declaration
/// order.
pub proof fn lemma_encode_offsets_valid(fields: Seq<FieldDescriptor>, payloads: Seq<Seq<u8>>)
    requires
        spec_payloads_wf(fields, payloads),
    ensures
        spec_offsets_valid(fields, spec_encode(fields, payloads)),
{
    let buf = spec_encode(fields, payloads);
    lemma_encode_len(fields, payloads);
    assert forall|i: int|
        0 <= i < fields.len() && (#[trigger] fields[i].kind) is Variable implies spec_fixed_len(
        fields,
    ) <= spec_offset_at(fields, buf, i) <= buf.len() by {
        lemma_encode_offset_at(fields, payloads, i);
        lemma_var_total_mono(fields, payloads, 0, i);
        lemma_var_total_mono(fields, payloads, i, fields.len() as int);
    }
    assert forall|i: int, j: int|
        0 <= i < j < fields.len() && (#[trigger] fields[i].kind) is Variable && (
    #[trigger] fields[j].kind) is Variable implies spec_offset_at(fields, buf, i) <= spec_offset_at(
        fields,
        buf,
        j,
    ) by {
        lemma_encode_offset_at(fields, payloads, i);
        lemma_encode_offset_at(fields, payloads, j);
        lemma_var_total_mono(fields, payloads, i, j);
    }
}

/// The bytes of the serialized container between variable field `t`'s
/// offset and the next variable offset are exactly its content.
pub proof fn lemma_var_payload_at(fields: Seq<FieldDescriptor>, payloads: Seq<Seq<u8>>, t: int)
    requires
        spec_payloads_wf(fields, payloads),
        0 <= t < fields.len(),
        fields[t].kind is Variable,
    ensures
        spec_encode(fields, payloads).subrange(
            spec_offset_of(fields, payloads, t),
            spec_offset_of(fields, payloads, t) + payloads[t].len(),
        ) == payloads[t],
{
    let buf = spec_encode(fields, payloads);
    let whole = spec_var_region(fields, payloads, fields.len() as int);
    let fl = spec_fixed_len(fields);
    let a = spec_var_total(fields, payloads, t);
    lemma_encode_len(fields, payloads);
    lemma_fixed_region_len(fields, payloads, fields.len() as int);
    lemma_var_region_len(fields, payloads, fields.len() as int);
    lemma_var_region_len(fields, payloads, t);
    lemma_var_region_len(fields, payloads, t + 1);
    lemma_var_region_prefix(fields, payloads, t + 1);
    lemma_var_total_mono(fields, payloads, 0, t);
    lemma_var_total_mono(fields, payloads, t + 1, fields.len() as int);
    assert(spec_var_region(fields, payloads, t + 1) == spec_var_region(fields, payloads, t)
        + payloads[t]);
    assert(spec_var_total(fields, payloads, t + 1) == a + payloads[t].len());
    assert forall|m: int| 0 <= m < payloads[t].len() implies buf[fl + a + m] == payloads[t][m] by {
        assert(spec_var_region(fields, payloads, t + 1)[a + m] == payloads[t][m]);
        assert(spec_var_region(fields, payloads, t + 1)[a + m] == whole[a + m]);
        assert(buf[fl + a + m] == whole[a + m]);
    }
    assert(payloads[t] =~= buf.subrange(fl + a, fl + a + payloads[t].len()));
}

/// Round-trip law of the layout: a container serialized from any
/// well-fitting field contents, under any mix of fixed and variable
/// fields, passes the truncation and offset checks, and the byte
/// range that the navigator slices for field `t` is exactly the
/// content that field `t` was serialized from.
pub proof fn lemma_round_trip(fields: Seq<FieldDescriptor>, payloads: Seq<Seq<u8>>, t: int)
    requires
        spec_payloads_wf(fields, payloads),
        0 <= t < fields.len(),
    ensures
        spec_encode(fields, payloads).len() >= spec_fixed_len(fields),
        spec_offsets_valid(fields, spec_encode(fields, payloads)),
        spec_field_range(fields, spec_encode(fields, payloads), t) == payloads[t],
{
    let buf = spec_encode(fields, payloads);
    lemma_encode_len(fields, payloads);
    lemma_encode_offsets_valid(fields, payloads);
    match fields[t].kind {
        FieldKind::Fixed(w) => {
            lemma_slot_at(fields, payloads, t);
        },
        FieldKind::Variable => {
            lemma_encode_offset_at(fields, payloads, t);
            lemma_var_payload_at(fields, payloads, t);
            lemma_next_var_props(fields, t + 1);
            let nv = spec_next_var(fields, t + 1);
            if nv < fields.len() {
                lemma_encode_offset_at(fields, payloads, nv);
                lemma_var_total_skip(fields, payloads, t + 1, nv);
            } else {
                lemma_var_total_skip(fields, payloads, t + 1, fields.len() as int);
            }
            assert(spec_var_end(fields, buf, t) == spec_offset_of(fields, payloads, t)
                + payloads[t].len());
        },
    }
}

} // verus!
