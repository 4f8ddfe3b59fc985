//! Fork schema table and fork resolver: the static description of each
//! protocol revision's field layout, and the selection of the revision
//! in force at a given epoch.

use vstd::prelude::*;

verus! {

/// How one field of the container is serialized: inline with a fixed
/// byte width, or out of line behind a 4-byte offset pointer.
#[derive(Clone, Debug)]
pub enum FieldKind {
    Fixed(usize),
    Variable,
}

/// One field of a container layout, in declaration order.
#[derive(Clone, Debug)]
pub struct FieldDescriptor {
    pub name: String,
    pub kind: FieldKind,
}

/// Bytes that the field occupies in the fixed region: its own width for
/// a fixed field, 4 for a variable field's offset pointer.
pub open spec fn spec_slot_width(kind: FieldKind) -> int {
    match kind {
        FieldKind::Fixed(w) => w as int,
        FieldKind::Variable => 4,
    }
}

/// Byte offset of field `i`'s slot in the fixed region: the sum of the
/// slot widths of the fields declared before it.
pub open spec fn spec_slot_pos(fields: Seq<FieldDescriptor>, i: int) -> int
    decreases i,
{
    if i <= 0 {
        0
    } else {
        spec_slot_pos(fields, i - 1) + spec_slot_width(fields[i - 1].kind)
    }
}

/// Total length of the fixed region: fixed widths plus one 4-byte
/// offset slot per variable field.
pub open spec fn spec_fixed_len(fields: Seq<FieldDescriptor>) -> int {
    spec_slot_pos(fields, fields.len() as int)
}

/// Slot positions never decrease along declaration order.
pub proof fn lemma_slot_pos_monotonic(fields: Seq<FieldDescriptor>, i: int, j: int)
    requires
        0 <= i <= j,
        forall|k: int| 0 <= k < fields.len() ==> spec_slot_width(#[trigger] fields[k].kind) >= 0,
    ensures
        spec_slot_pos(fields, i) <= spec_slot_pos(fields, j),
    decreases j - i,
{
    if i < j {
        lemma_slot_pos_monotonic(fields, i, j - 1);
        if j - 1 < fields.len() {
            assert(spec_slot_width(fields[j - 1].kind) >= 0);
        } else {
            assert(spec_slot_width(fields[j - 1].kind) >= 0);
        }
    }
}

/// The ordered field layout of one protocol revision, together with the
/// cached length of its fixed region.
#[derive(Clone, Debug)]
pub struct ForkSchema {
    pub fields: Vec<FieldDescriptor>,
    pub fixed_len: usize,
}

impl ForkSchema {
    /// The cached fixed-region length matches the field layout.
    pub open spec fn wf(&self) -> bool {
        self.fixed_len == spec_fixed_len(self.fields@)
    }

    /// Builds a schema from its fields, computing the fixed-region
    /// length; `None` if that length does not fit in `usize`.
    pub fn new(fields: Vec<FieldDescriptor>) -> (r: Option<ForkSchema>)
        ensures
            match r {
                Some(s) => s.wf() && s.fields@ == fields@,
                None => spec_fixed_len(fields@) > usize::MAX,
            },
    {
        let mut acc: usize = 0;
        let mut i: usize = 0;
        while i < fields.len()
            invariant
                0 <= i <= fields.len(),
                acc == spec_slot_pos(fields@, i as int),
            decreases fields.len() - i,
        {
            let w: usize = match &fields[i].kind {
                FieldKind::Fixed(w) => *w,
                FieldKind::Variable => 4,
            };
            if w > usize::MAX - acc {
                proof {
                    lemma_slot_width_nonneg(fields@);
                    lemma_slot_pos_monotonic(fields@, i as int + 1, fields@.len() as int);
                }
                return None;
            }
            acc = acc + w;
            i = i + 1;
        }
        Some(ForkSchema { fields, fixed_len: acc })
    }
}

/// Slot widths are never negative.
pub proof fn lemma_slot_width_nonneg(fields: Seq<FieldDescriptor>)
    ensures
        forall|k: int| 0 <= k < fields.len() ==> spec_slot_width(#[trigger] fields[k].kind) >= 0,
{
}

/// Errors of the configuration level: a schedule that covers no epoch
/// this early, or a field name absent from the resolved schema.
#[derive(Clone, Copy, Debug, PartialEq, Eq, Structural)]
pub enum SchemaError {
    NoApplicableFork,
    UnknownField,
}

/// One entry of the fork schedule: a layout revision and the epoch at
/// which it activates.
#[derive(Clone, Debug)]
pub struct ForkEntry {
    pub activation_epoch: u64,
    pub schema: ForkSchema,
}

/// The ordered list of layout revisions, strictly increasing by
/// activation epoch; for any epoch at most one revision applies.
#[derive(Clone, Debug)]
pub struct ForkSchedule {
    pub entries: Vec<ForkEntry>,
}

impl ForkSchedule {
    /// Activation epochs strictly increase and every schema is
    /// well formed.
    pub open spec fn wf(&self) -> bool {
        &&& forall|i: int, j: int|
            0 <= i < j < self.entries@.len() ==> #[trigger] self.entries@[i].activation_epoch
                < #[trigger] self.entries@[j].activation_epoch
        &&& forall|i: int| 0 <= i < self.entries@.len() ==> (#[trigger] self.entries@[i].schema).wf()
    }

    /// Builds a schedule from well-formed entries; `None` if the
    /// activation epochs are not strictly increasing.
    pub fn new(entries: Vec<ForkEntry>) -> (r: Option<ForkSchedule>)
        requires
            forall|i: int| 0 <= i < entries@.len() ==> (#[trigger] entries@[i].schema).wf(),
        ensures
            match r {
                Some(s) => s.wf() && s.entries@ == entries@,
                None => exists|p: int|
                    0 <= p && p + 1 < entries@.len() && #[trigger] entries@[p].activation_epoch
                        >= entries@[p + 1].activation_epoch,
            },
    {
        let mut i: usize = 1;
        while i < entries.len()
            invariant
                1 <= i,
                forall|p: int, q: int|
                    0 <= p < q < i && q < entries@.len() ==> #[trigger] entries@[p].activation_epoch
                        < #[trigger] entries@[q].activation_epoch,
            decreases entries.len() - i,
        {
            if entries[i - 1].activation_epoch >= entries[i].activation_epoch {
                proof {
                    assert(0 <= i - 1 && i - 1 + 1 < entries@.len() && entries@[i - 1].activation_epoch
                        >= entries@[i - 1 + 1].activation_epoch);
                }
                return None;
            }
            proof {
                lemma_strict_increase_step(entries@, i as int);
            }
            i = i + 1;
        }
        Some(ForkSchedule { entries })
    }

    /// The schema that applies at `epoch`: the entry with the greatest
    /// activation epoch not exceeding `epoch`, the boundary inclusive.
    /// `NoApplicableFork` when the schedule is empty or `epoch`
    /// precedes its earliest entry.
    pub fn resolve(&self, epoch: u64) -> (r: Result<&ForkSchema, SchemaError>)
        requires
            self.wf(),
        ensures
            match r {
                Ok(s) => {
                    &&& spec_resolve_idx(self.entries@, epoch) >= 0
                    &&& *s == self.entries@[spec_resolve_idx(self.entries@, epoch)].schema
                },
                Err(e) => {
                    &&& e == SchemaError::NoApplicableFork
                    &&& spec_resolve_idx(self.entries@, epoch) == -1
                    &&& (self.entries@.len() == 0 || self.entries@[0].activation_epoch > epoch)
                },
            },
    {
        if self.entries.len() == 0 {
            return Err(SchemaError::NoApplicableFork);
        }
        if self.entries[0].activation_epoch > epoch {
            proof {
                assert forall|k: int| 0 <= k < self.entries@.len() implies #[trigger] self.entries@[k].activation_epoch
                    > epoch by {
                    if k > 0 {
                        assert(self.entries@[0].activation_epoch < self.entries@[k].activation_epoch);
                    }
                }
                lemma_resolve_idx_none(self.entries@, epoch);
            }
            return Err(SchemaError::NoApplicableFork);
        }
        let mut best: usize = 0;
        let mut i: usize = 1;
        while i < self.entries.len()
            invariant
                0 <= best < i <= self.entries@.len(),
                self.entries@[best as int].activation_epoch <= epoch,
                forall|k: int|
                    best < k < i ==> #[trigger] self.entries@[k].activation_epoch > epoch,
            decreases self.entries.len() - i,
        {
            if self.entries[i].activation_epoch <= epoch {
                best = i;
            }
            i = i + 1;
        }
        proof {
            lemma_resolve_idx_found(self.entries@, epoch, best as int);
        }
        Ok(&self.entries[best].schema)
    }
}

/// Index of the schedule entry with the greatest activation epoch not
/// exceeding `epoch`, or `-1` if no entry's activation epoch does.
pub open spec fn spec_resolve_idx(entries: Seq<ForkEntry>, epoch: u64) -> int
    decreases entries.len(),
{
    if entries.len() == 0 {
        -1
    } else if entries[entries.len() - 1].activation_epoch <= epoch {
        entries.len() - 1
    } else {
        spec_resolve_idx(entries.drop_last(), epoch)
    }
}

/// A resolved index is always a position of the schedule, or `-1`.
pub proof fn lemma_resolve_idx_bounds(entries: Seq<ForkEntry>, epoch: u64)
    ensures
        -1 <= spec_resolve_idx(entries, epoch) < entries.len(),
    decreases entries.len(),
{
    if entries.len() > 0 && !(entries[entries.len() - 1].activation_epoch <= epoch) {
        lemma_resolve_idx_bounds(entries.drop_last(), epoch);
    }
}

/// When no entry activates at or before `epoch`, no entry resolves.
pub proof fn lemma_resolve_idx_none(entries: Seq<ForkEntry>, epoch: u64)
    requires
        forall|k: int| 0 <= k < entries.len() ==> #[trigger] entries[k].activation_epoch > epoch,
    ensures
        spec_resolve_idx(entries, epoch) == -1,
    decreases entries.len(),
{
    if entries.len() > 0 {
        assert(forall|k: int|
            0 <= k < entries.drop_last().len() ==> #[trigger] entries.drop_last()[k]
                == entries[k]);
        lemma_resolve_idx_none(entries.drop_last(), epoch);
    }
}

/// The last index whose activation epoch does not exceed `epoch` is
/// the one that resolves.
pub proof fn lemma_resolve_idx_found(entries: Seq<ForkEntry>, epoch: u64, b: int)
    requires
        0 <= b < entries.len(),
        entries[b].activation_epoch <= epoch,
        forall|k: int| b < k < entries.len() ==> #[trigger] entries[k].activation_epoch > epoch,
    ensures
        spec_resolve_idx(entries, epoch) == b,
    decreases entries.len(),
{
    if b == entries.len() - 1 {
    } else {
        assert(forall|k: int|
            0 <= k < entries.drop_last().len() ==> #[trigger] entries.drop_last()[k]
                == entries[k]);
        lemma_resolve_idx_found(entries.drop_last(), epoch, b);
    }
}

/// Extends pairwise strict increase by one index: if epochs strictly
/// increase among the first `i + 1` entries pairwise-adjacent, they do
/// so for all pairs.
proof fn lemma_strict_increase_step(entries: Seq<ForkEntry>, i: int)
    requires
        1 <= i < entries.len(),
        forall|p: int, q: int|
            0 <= p < q < i && q < entries.len() ==> #[trigger] entries[p].activation_epoch
                < #[trigger] entries[q].activation_epoch,
        entries[i - 1].activation_epoch < entries[i].activation_epoch,
    ensures
        forall|p: int, q: int|
            0 <= p < q < i + 1 && q < entries.len() ==> #[trigger] entries[p].activation_epoch
                < #[trigger] entries[q].activation_epoch,
{
    assert forall|p: int, q: int|
        0 <= p < q < i + 1 && q < entries.len() implies #[trigger] entries[p].activation_epoch
        < #[trigger] entries[q].activation_epoch by {
        if q == i && p < i - 1 {
            assert(entries[p].activation_epoch < entries[i - 1].activation_epoch);
        }
    }
}

} // verus!
