//! One poll cycle's computation: from a raw state buffer and the
//! epoch it was sampled at, through fork resolution, field slicing and
//! flag aggregation, to the per-range participation counts.
//!
//! Fetching the buffer and publishing the result are left to the
//! caller; every failure is reported through the result so that the
//! caller can abandon the iteration and keep the previous values.

use vstd::prelude::*;

use crate::aggregate::{
    aggregate, spec_aggregate_err, spec_aggregate_ok, IndexRange, RangeError, RangeParticipation,
};
use crate::decode::{
    extract, spec_extract_err, spec_extract_ok, spec_field_range, spec_find_field, DecodeError,
    ExtractError,
};
use crate::flags::to_flags;
use crate::schema::{spec_resolve_idx, ForkSchedule, SchemaError};

verus! {

/// Everything one poll cycle can fail with, by level: configuration
/// (no applicable fork, unknown field), data (malformed buffer), or
/// caller input (invalid index range).
#[derive(Clone, Copy, Debug, PartialEq, Eq, Structural)]
pub enum CycleError {
    Schema(SchemaError),
    Decode(DecodeError),
    Range(RangeError),
}

/// Runs the computation of one poll cycle: resolves the schema in
/// force at `epoch`, slices the field named `target` out of `buffer`,
/// reads the slice as one flag byte per validator, and counts, per
/// range, the validators whose flag byte carries `mask`.
///
/// Each failure is the first one met along that order; the caller is
/// expected to drop the iteration on failure and publish nothing.
pub fn run_cycle(
    schedule: &ForkSchedule,
    epoch: u64,
    buffer: &[u8],
    target: &str,
    ranges: &Vec<IndexRange>,
    mask: u8,
) -> (r: Result<Vec<RangeParticipation>, CycleError>)
    requires
        schedule.wf(),
    ensures
        ({
            let entries = schedule.entries@;
            let ki = spec_resolve_idx(entries, epoch);
            match r {
                Err(CycleError::Schema(SchemaError::NoApplicableFork)) => ki == -1,
                Err(CycleError::Schema(SchemaError::UnknownField)) => ki >= 0 && spec_extract_err(
                    entries[ki].schema.fields@,
                    buffer@,
                    target@,
                    ExtractError::Schema(SchemaError::UnknownField),
                ),
                Err(CycleError::Decode(e)) => ki >= 0 && spec_extract_err(
                    entries[ki].schema.fields@,
                    buffer@,
                    target@,
                    ExtractError::Decode(e),
                ),
                Err(CycleError::Range(e)) => ki >= 0 && {
                    let fields = entries[ki].schema.fields@;
                    let s = spec_field_range(fields, buffer@, spec_find_field(fields, target@, 0));
                    &&& spec_extract_ok(fields, buffer@, target@, s)
                    &&& spec_aggregate_err(s, ranges@, e)
                },
                Ok(out) => ki >= 0 && {
                    let fields = entries[ki].schema.fields@;
                    let s = spec_field_range(fields, buffer@, spec_find_field(fields, target@, 0));
                    &&& spec_extract_ok(fields, buffer@, target@, s)
                    &&& spec_aggregate_ok(s, ranges@, mask, out@)
                },
            }
        }),
{
    let schema = match schedule.resolve(epoch) {
        Ok(s) => s,
        Err(e) => {
            return Err(CycleError::Schema(e));
        },
    };
    proof {
        crate::schema::lemma_resolve_idx_bounds(schedule.entries@, epoch);
        let ki = spec_resolve_idx(schedule.entries@, epoch);
        assert((schedule.entries@[ki].schema).wf());
    }
    let slice = match extract(buffer, schema, target) {
        Ok(s) => s,
        Err(ExtractError::Schema(e)) => {
            return Err(CycleError::Schema(e));
        },
        Err(ExtractError::Decode(e)) => {
            return Err(CycleError::Decode(e));
        },
    };
    let flags = to_flags(slice);
    match aggregate(&flags, ranges, mask) {
        Ok(out) => Ok(out),
        Err(e) => Err(CycleError::Range(e)),
    }
}

} // verus!
