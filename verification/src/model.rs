//! The mathematical model of the component store.
//!
//! A store is modelled as a pair of maps: registered type keys to the fixed
//! byte size of one record of that type, and (type key, entity) pairs to the
//! ordered sequence of byte records the entity holds under that type.
//! Pending mutations (diffs) are modelled as values over the same maps, so
//! that replaying a batch of diffs has an exact meaning independent of any
//! concrete container.

use vstd::prelude::*;

use crate::{EntId, TypeKey};

verus! {

/// The failures the component store signals.
///
/// Re-registration, access through an unregistered type key and record-size
/// mismatches are caller errors: the operation is refused and the store is
/// left unchanged. `NotFound` reports a `replace` aimed at an index that
/// holds no record.
#[derive(Clone, Copy, Debug, PartialEq, Eq, Structural)]
pub enum StoreError {
    /// The type key is already bound by an earlier registration.
    AlreadyRegistered,
    /// The type key was never registered.
    Unregistered,
    /// The record's byte length differs from the registered record size.
    SizeMismatch,
    /// No record exists at the addressed index.
    NotFound,
}

/// The model of one pending mutation against the store.
pub enum DiffModel {
    /// Append a record to the entity's list for the type.
    Insert { t: TypeKey, e: EntId, rec: Seq<u8> },
    /// Remove the last record of the entity's list for the type.
    Remove { t: TypeKey, e: EntId },
    /// Overwrite the record at the given index of the entity's list.
    Replace { t: TypeKey, e: EntId, idx: int, rec: Seq<u8> },
}

impl DiffModel {
    /// The entity a diff is aimed at.
    pub open spec fn target(self) -> EntId {
        match self {
            DiffModel::Insert { e, .. } => e,
            DiffModel::Remove { e, .. } => e,
            DiffModel::Replace { e, .. } => e,
        }
    }
}

/// Maps an operation result onto the error slot of the model's run outcome.
pub open spec fn err_of(r: Result<(), StoreError>) -> Option<StoreError> {
    match r {
        Ok(()) => None,
        Err(err) => Some(err),
    }
}

/// The abstract state of a component store.
#[verifier::ext_equal]
pub struct StoreModel {
    /// Registered type key to the byte size of one record of that type.
    pub sizes: Map<TypeKey, nat>,
    /// (type key, entity) to the entity's records of that type, oldest first.
    pub rows: Map<(TypeKey, EntId), Seq<Seq<u8>>>,
}

impl StoreModel {
    /// The store with no registered types and no records.
    pub open spec fn empty() -> StoreModel {
        StoreModel { sizes: Map::empty(), rows: Map::empty() }
    }

    /// Whether the type key has been registered.
    pub open spec fn registered(self, t: TypeKey) -> bool {
        self.sizes.dom().contains(t)
    }

    /// The registered byte size of one record of the type.
    pub open spec fn rec_size(self, t: TypeKey) -> nat {
        self.sizes[t]
    }

    /// The records the entity holds under the type, oldest first; empty if
    /// it holds none.
    pub open spec fn recs(self, t: TypeKey, e: EntId) -> Seq<Seq<u8>> {
        if self.rows.dom().contains((t, e)) {
            self.rows[(t, e)]
        } else {
            Seq::empty()
        }
    }

    /// Every stored row belongs to a registered type and every record has
    /// that type's registered size.
    pub open spec fn wf(self) -> bool {
        &&& forall|p: (TypeKey, EntId)| #[trigger]
            self.rows.dom().contains(p) ==> self.registered(p.0)
        &&& forall|p: (TypeKey, EntId), i: int|
            self.rows.dom().contains(p) && 0 <= i < self.rows[p].len() ==> (#[trigger]
            self.rows[p][i]).len() == self.rec_size(p.0)
    }

    /// The store after registering the type key with the given record size.
    pub open spec fn register_m(self, t: TypeKey, size: nat) -> StoreModel {
        StoreModel { sizes: self.sizes.insert(t, size), rows: self.rows }
    }

    /// The store with the entity's record list for the type replaced.
    pub open spec fn set_recs(self, t: TypeKey, e: EntId, rs: Seq<Seq<u8>>) -> StoreModel {
        StoreModel { sizes: self.sizes, rows: self.rows.insert((t, e), rs) }
    }

    /// The store after appending a record to the entity's list for the type.
    pub open spec fn insert_m(self, t: TypeKey, e: EntId, rec: Seq<u8>) -> StoreModel {
        self.set_recs(t, e, self.recs(t, e).push(rec))
    }

    /// The store after overwriting the record at the index in place.
    pub open spec fn replace_m(self, t: TypeKey, e: EntId, idx: int, rec: Seq<u8>) -> StoreModel {
        self.set_recs(t, e, self.recs(t, e).update(idx, rec))
    }

    /// The store after removing the last record of the entity's list, if any.
    pub open spec fn pop_m(self, t: TypeKey, e: EntId) -> StoreModel {
        if self.recs(t, e).len() == 0 {
            self
        } else {
            self.set_recs(t, e, self.recs(t, e).drop_last())
        }
    }

    /// The store after removing the record at the index; later records shift
    /// down by one.
    pub open spec fn remove_m(self, t: TypeKey, e: EntId, idx: int) -> StoreModel {
        self.set_recs(t, e, self.recs(t, e).remove(idx))
    }

    /// The store after deleting the entity's entire list for the type.
    pub open spec fn remove_all_m(self, t: TypeKey, e: EntId) -> StoreModel {
        StoreModel { sizes: self.sizes, rows: self.rows.remove((t, e)) }
    }

    /// The store after purging every record of the entity, across all types.
    pub open spec fn purge_m(self, e: EntId) -> StoreModel {
        StoreModel {
            sizes: self.sizes,
            rows: self.rows.remove_keys(Set::new(|p: (TypeKey, EntId)| p.1 == e)),
        }
    }

    /// The meaning of replaying one diff.
    ///
    /// Unregistered type keys and record-size mismatches are caller errors
    /// and leave the store unchanged; a `Remove` of an empty list and a
    /// `Replace` of a vanished index are expected absences and replay as
    /// no-ops, so that a batch produced against an older view still replays.
    pub open spec fn apply_diff(self, d: DiffModel) -> Result<StoreModel, StoreError> {
        match d {
            DiffModel::Insert { t, e, rec } => {
                if !self.registered(t) {
                    Err(StoreError::Unregistered)
                } else if rec.len() != self.rec_size(t) {
                    Err(StoreError::SizeMismatch)
                } else {
                    Ok(self.insert_m(t, e, rec))
                }
            },
            DiffModel::Remove { t, e } => {
                if !self.registered(t) {
                    Err(StoreError::Unregistered)
                } else {
                    Ok(self.pop_m(t, e))
                }
            },
            DiffModel::Replace { t, e, idx, rec } => {
                if !self.registered(t) {
                    Err(StoreError::Unregistered)
                } else if rec.len() != self.rec_size(t) {
                    Err(StoreError::SizeMismatch)
                } else if !(0 <= idx < self.recs(t, e).len()) {
                    Ok(self)
                } else {
                    Ok(self.replace_m(t, e, idx, rec))
                }
            },
        }
    }

    /// Replays a batch of diffs in the order supplied. Stops at the first
    /// caller error, returning the store as mutated so far together with
    /// that error.
    pub open spec fn run_diffs(self, ds: Seq<DiffModel>) -> (StoreModel, Option<StoreError>)
        decreases ds.len(),
    {
        if ds.len() <= 0 {
            (self, None)
        } else {
            match self.apply_diff(ds[0]) {
                Ok(m) => m.run_diffs(ds.drop_first()),
                Err(err) => (self, Some(err)),
            }
        }
    }
}

/// Replaying a concatenation replays the first batch, then — if it raised
/// no error — the second from where the first left off; an error in the
/// first batch stops the whole replay at the same point.
pub proof fn lemma_run_diffs_append(m: StoreModel, a: Seq<DiffModel>, b: Seq<DiffModel>)
    ensures
        ({
            let ra = m.run_diffs(a);
            m.run_diffs(a + b) == if ra.1 is Some {
                ra
            } else {
                ra.0.run_diffs(b)
            }
        }),
    decreases a.len(),
{
    if a.len() == 0 {
        assert(a + b =~= b);
    } else {
        assert((a + b)[0] == a[0]);
        assert((a + b).drop_first() =~= a.drop_first() + b);
        match m.apply_diff(a[0]) {
            Ok(m2) => {
                lemma_run_diffs_append(m2, a.drop_first(), b);
            },
            Err(_) => {
            },
        }
    }
}

/// Applying one diff never registers a type and never touches another
/// entity's records.
pub proof fn lemma_apply_diff_frame(m: StoreModel, d: DiffModel)
    ensures
        match m.apply_diff(d) {
            Ok(m2) => m2.sizes == m.sizes && forall|t: TypeKey, e2: EntId|
                e2 != d.target() ==> #[trigger] m2.recs(t, e2) == m.recs(t, e2),
            Err(_) => true,
        },
{
}

/// Replaying a batch that targets one entity leaves the registered types
/// and every other entity's records untouched, whether or not it stops on
/// an error.
pub proof fn lemma_run_diffs_frame(m: StoreModel, ds: Seq<DiffModel>, e: EntId)
    requires
        forall|j: int| 0 <= j < ds.len() ==> (#[trigger] ds[j]).target() == e,
    ensures
        ({
            let run = m.run_diffs(ds);
            run.0.sizes == m.sizes && forall|t: TypeKey, e2: EntId|
                e2 != e ==> #[trigger] run.0.recs(t, e2) == m.recs(t, e2)
        }),
    decreases ds.len(),
{
    if ds.len() > 0 {
        lemma_apply_diff_frame(m, ds[0]);
        match m.apply_diff(ds[0]) {
            Ok(m2) => {
                lemma_run_diffs_frame(m2, ds.drop_first(), e);
            },
            Err(_) => {
            },
        }
    }
}

/// Law: a record just appended is read back, unchanged, at the returned
/// index (the length of the list before the append), and no earlier record
/// moved.
pub proof fn lemma_insert_round_trip(m: StoreModel, t: TypeKey, e: EntId, rec: Seq<u8>)
    ensures
        m.insert_m(t, e, rec).recs(t, e).len() == m.recs(t, e).len() + 1,
        m.insert_m(t, e, rec).recs(t, e)[m.recs(t, e).len() as int] == rec,
        forall|j: int|
            0 <= j < m.recs(t, e).len() ==> m.insert_m(t, e, rec).recs(t, e)[j] == m.recs(t, e)[j],
{
}

/// Law: removing the record at `idx` drops the list's length by one, leaves
/// records before `idx` in place, and shifts every later record down by one
/// index.
pub proof fn lemma_remove_shifts(m: StoreModel, t: TypeKey, e: EntId, idx: int)
    requires
        0 <= idx < m.recs(t, e).len(),
    ensures
        m.remove_m(t, e, idx).recs(t, e).len() == m.recs(t, e).len() - 1,
        forall|j: int| 0 <= j < idx ==> m.remove_m(t, e, idx).recs(t, e)[j] == m.recs(t, e)[j],
        forall|j: int|
            idx <= j < m.recs(t, e).len() - 1 ==> m.remove_m(t, e, idx).recs(t, e)[j] == m.recs(
                t,
                e,
            )[j + 1],
{
}

} // verus!
