//! The basic component store: one flat, type-erased container.
//!
//! Heterogeneous component types share one storage strategy: a table of
//! registered type keys with their fixed record sizes, and a table of
//! (type key, entity) rows, each holding that entity's records of that type
//! as plain byte vectors in insertion order. Typed access is layered on top
//! by the caller, which encodes and decodes records of the size it
//! registered; the store itself guarantees only the size discipline.

use vstd::prelude::*;

use crate::model::{DiffModel, StoreError, StoreModel};
use crate::{clone_bytes, Comps, Diff, EntId, TypeKey};

verus! {

/// One registered component type: its key and the byte size of one record.
#[derive(Clone, Debug, PartialEq)]
struct TypeEntry {
    key: TypeKey,
    size: usize,
}

/// One entity's records of one type, oldest first.
#[derive(Clone, Debug, PartialEq)]
struct Row {
    key: TypeKey,
    ent: EntId,
    recs: Vec<Vec<u8>>,
}

/// The sequence of byte records a row holds.
spec fn recs_view(v: Vec<Vec<u8>>) -> Seq<Seq<u8>> {
    Seq::new(v@.len(), |i: int| v@[i]@)
}

/// No two entries register the same type key.
spec fn types_distinct(ts: Seq<TypeEntry>) -> bool {
    forall|i: int, j: int|
        0 <= i < j < ts.len() ==> (#[trigger] ts[i]).key != (#[trigger] ts[j]).key
}

/// Whether some entry registers `t`.
spec fn has_type(ts: Seq<TypeEntry>, t: TypeKey) -> bool {
    exists|i: int| 0 <= i < ts.len() && ts[i].key == t
}

/// The index of the entry registering `t`; unique when keys are distinct.
spec fn type_index(ts: Seq<TypeEntry>, t: TypeKey) -> int {
    choose|i: int| 0 <= i < ts.len() && ts[i].key == t
}

/// The entry registering `t`.
spec fn type_at(ts: Seq<TypeEntry>, t: TypeKey) -> TypeEntry {
    ts[type_index(ts, t)]
}

/// No two rows share both type key and entity.
spec fn rows_distinct(rs: Seq<Row>) -> bool {
    forall|i: int, j: int|
        0 <= i < j < rs.len() ==> !((#[trigger] rs[i]).key == (#[trigger] rs[j]).key && rs[i].ent
            == rs[j].ent)
}

/// Whether a row exists for the (type key, entity) pair `p`.
spec fn has_row(rs: Seq<Row>, p: (TypeKey, EntId)) -> bool {
    exists|j: int| 0 <= j < rs.len() && rs[j].key == p.0 && rs[j].ent == p.1
}

/// The index of the row for `p`; unique when rows are distinct.
spec fn row_index(rs: Seq<Row>, p: (TypeKey, EntId)) -> int {
    choose|j: int| 0 <= j < rs.len() && rs[j].key == p.0 && rs[j].ent == p.1
}

/// The row for `p`.
spec fn row_at(rs: Seq<Row>, p: (TypeKey, EntId)) -> Row {
    rs[row_index(rs, p)]
}

/// With distinct keys, the entry at `i` is the one every lookup of its key
/// finds.
proof fn lemma_type_index(ts: Seq<TypeEntry>, i: int)
    requires
        types_distinct(ts),
        0 <= i < ts.len(),
    ensures
        has_type(ts, ts[i].key),
        type_index(ts, ts[i].key) == i,
{
    let t = ts[i].key;
    assert(has_type(ts, t)) by {
        assert(0 <= i < ts.len() && ts[i].key == t);
    }
    let j = type_index(ts, t);
    assert(0 <= j < ts.len() && ts[j].key == t);
    if j < i {
        assert(ts[j].key != ts[i].key);
    } else if i < j {
        assert(ts[i].key != ts[j].key);
    }
}

/// With distinct rows, the row at `j` is the one every lookup of its pair
/// finds.
proof fn lemma_row_index(rs: Seq<Row>, j: int)
    requires
        rows_distinct(rs),
        0 <= j < rs.len(),
    ensures
        has_row(rs, (rs[j].key, rs[j].ent)),
        row_index(rs, (rs[j].key, rs[j].ent)) == j,
{
    let p = (rs[j].key, rs[j].ent);
    assert(has_row(rs, p)) by {
        assert(0 <= j < rs.len() && rs[j].key == p.0 && rs[j].ent == p.1);
    }
    let k = row_index(rs, p);
    assert(0 <= k < rs.len() && rs[k].key == p.0 && rs[k].ent == p.1);
    if k < j {
        assert(!(rs[k].key == rs[j].key && rs[k].ent == rs[j].ent));
    } else if j < k {
        assert(!(rs[j].key == rs[k].key && rs[j].ent == rs[k].ent));
    }
}

/// Appending a new type entry keeps the keys distinct, adds exactly that
/// key, and moves no other entry.
proof fn lemma_types_push(ts: Seq<TypeEntry>, te: TypeEntry)
    requires
        types_distinct(ts),
        !has_type(ts, te.key),
    ensures
        types_distinct(ts.push(te)),
        forall|t: TypeKey| has_type(ts.push(te), t) <==> (has_type(ts, t) || t == te.key),
        type_at(ts.push(te), te.key) == te,
        forall|t: TypeKey| has_type(ts, t) ==> type_at(ts.push(te), t) == type_at(ts, t),
{
    let ts2 = ts.push(te);
    assert forall|i: int, j: int| 0 <= i < j < ts2.len() implies (#[trigger] ts2[i]).key
        != (#[trigger] ts2[j]).key by {
        if j < ts.len() {
            assert(ts2[i] == ts[i] && ts2[j] == ts[j]);
        } else {
            assert(ts2[j] == te && ts2[i] == ts[i]);
            if ts[i].key == te.key {
                assert(has_type(ts, te.key)) by {
                    assert(0 <= i < ts.len() && ts[i].key == te.key);
                }
            }
        }
    }
    assert forall|t: TypeKey| has_type(ts2, t) implies (has_type(ts, t) || t == te.key) by {
        let i = choose|i: int| 0 <= i < ts2.len() && ts2[i].key == t;
        if i < ts.len() {
            assert(ts[i].key == t);
            assert(has_type(ts, t));
        } else {
            assert(ts2[i] == te);
        }
    }
    assert forall|t: TypeKey| has_type(ts, t) || t == te.key implies has_type(ts2, t) by {
        if has_type(ts, t) {
            let i = choose|i: int| 0 <= i < ts.len() && ts[i].key == t;
            assert(ts2[i].key == t);
            assert(has_type(ts2, t));
        } else {
            assert(ts2[ts.len() as int].key == t);
            assert(has_type(ts2, t));
        }
    }
    lemma_type_index(ts2, ts.len() as int);
    assert(type_at(ts2, te.key) == te);
    assert forall|t: TypeKey| has_type(ts, t) implies type_at(ts2, t) == type_at(ts, t) by {
        let i = type_index(ts, t);
        assert(0 <= i < ts.len() && ts[i].key == t);
        assert(ts2[i] == ts[i]);
        lemma_type_index(ts2, i);
    }
}

/// Replacing the row at `j` by one with the same key and entity keeps the
/// rows distinct, keeps every other row, and binds the pair to the new row.
proof fn lemma_rows_update(rs: Seq<Row>, j: int, r2: Row)
    requires
        rows_distinct(rs),
        0 <= j < rs.len(),
        r2.key == rs[j].key,
        r2.ent == rs[j].ent,
    ensures
        rows_distinct(rs.update(j, r2)),
        forall|p: (TypeKey, EntId)| has_row(rs.update(j, r2), p) <==> has_row(rs, p),
        row_at(rs.update(j, r2), (r2.key, r2.ent)) == r2,
        forall|p: (TypeKey, EntId)|
            has_row(rs, p) && p != (r2.key, r2.ent) ==> row_at(rs.update(j, r2), p) == row_at(
                rs,
                p,
            ),
{
    let rs2 = rs.update(j, r2);
    assert forall|i: int, k: int| 0 <= i < k < rs2.len() implies !((#[trigger] rs2[i]).key
        == (#[trigger] rs2[k]).key && rs2[i].ent == rs2[k].ent) by {
        assert(rs2[i].key == rs[i].key && rs2[i].ent == rs[i].ent);
        assert(rs2[k].key == rs[k].key && rs2[k].ent == rs[k].ent);
        assert(!(rs[i].key == rs[k].key && rs[i].ent == rs[k].ent));
    }
    assert forall|p: (TypeKey, EntId)| has_row(rs2, p) implies has_row(rs, p) by {
        let i = choose|i: int| 0 <= i < rs2.len() && rs2[i].key == p.0 && rs2[i].ent == p.1;
        assert(rs[i].key == p.0 && rs[i].ent == p.1);
        assert(has_row(rs, p));
    }
    assert forall|p: (TypeKey, EntId)| has_row(rs, p) implies has_row(rs2, p) by {
        let i = choose|i: int| 0 <= i < rs.len() && rs[i].key == p.0 && rs[i].ent == p.1;
        assert(rs2[i].key == p.0 && rs2[i].ent == p.1);
        assert(has_row(rs2, p));
    }
    assert(rs2[j] == r2);
    lemma_row_index(rs2, j);
    assert forall|p: (TypeKey, EntId)| has_row(rs, p) && p != (r2.key, r2.ent) implies row_at(
        rs2,
        p,
    ) == row_at(rs, p) by {
        let i = row_index(rs, p);
        assert(0 <= i < rs.len() && rs[i].key == p.0 && rs[i].ent == p.1);
        assert(i != j);
        assert(rs2[i] == rs[i]);
        lemma_row_index(rs2, i);
    }
}

/// Appending a row for a pair not yet present keeps the rows distinct,
/// adds exactly that pair, and moves no other row.
proof fn lemma_rows_push(rs: Seq<Row>, r2: Row)
    requires
        rows_distinct(rs),
        !has_row(rs, (r2.key, r2.ent)),
    ensures
        rows_distinct(rs.push(r2)),
        forall|p: (TypeKey, EntId)|
            has_row(rs.push(r2), p) <==> (has_row(rs, p) || p == (r2.key, r2.ent)),
        row_at(rs.push(r2), (r2.key, r2.ent)) == r2,
        forall|p: (TypeKey, EntId)|
            has_row(rs, p) ==> row_at(rs.push(r2), p) == row_at(rs, p),
{
    let rs2 = rs.push(r2);
    assert forall|i: int, k: int| 0 <= i < k < rs2.len() implies !((#[trigger] rs2[i]).key
        == (#[trigger] rs2[k]).key && rs2[i].ent == rs2[k].ent) by {
        if k < rs.len() {
            assert(rs2[i] == rs[i] && rs2[k] == rs[k]);
        } else {
            assert(rs2[k] == r2 && rs2[i] == rs[i]);
            if rs[i].key == r2.key && rs[i].ent == r2.ent {
                assert(has_row(rs, (r2.key, r2.ent))) by {
                    assert(0 <= i < rs.len() && rs[i].key == r2.key && rs[i].ent == r2.ent);
                }
            }
        }
    }
    assert forall|p: (TypeKey, EntId)| has_row(rs2, p) implies (has_row(rs, p) || p == (
    r2.key,
    r2.ent,
    )) by {
        let i = choose|i: int| 0 <= i < rs2.len() && rs2[i].key == p.0 && rs2[i].ent == p.1;
        if i < rs.len() {
            assert(rs[i].key == p.0 && rs[i].ent == p.1);
            assert(has_row(rs, p));
        } else {
            assert(rs2[i] == r2);
        }
    }
    assert forall|p: (TypeKey, EntId)| has_row(rs, p) || p == (r2.key, r2.ent) implies has_row(
        rs2,
        p,
    ) by {
        if has_row(rs, p) {
            let i = choose|i: int| 0 <= i < rs.len() && rs[i].key == p.0 && rs[i].ent == p.1;
            assert(rs2[i].key == p.0 && rs2[i].ent == p.1);
            assert(has_row(rs2, p));
        } else {
            assert(rs2[rs.len() as int] == r2);
            assert(has_row(rs2, p));
        }
    }
    lemma_row_index(rs2, rs.len() as int);
    assert forall|p: (TypeKey, EntId)| has_row(rs, p) implies row_at(rs2, p) == row_at(rs, p) by {
        let i = row_index(rs, p);
        assert(0 <= i < rs.len() && rs[i].key == p.0 && rs[i].ent == p.1);
        assert(rs2[i] == rs[i]);
        lemma_row_index(rs2, i);
    }
}

/// Removing the row at `j` keeps the rows distinct, drops exactly that
/// pair, and moves no other row's contents.
proof fn lemma_rows_remove(rs: Seq<Row>, j: int)
    requires
        rows_distinct(rs),
        0 <= j < rs.len(),
    ensures
        rows_distinct(rs.remove(j)),
        forall|p: (TypeKey, EntId)|
            has_row(rs.remove(j), p) <==> (has_row(rs, p) && p != (rs[j].key, rs[j].ent)),
        forall|p: (TypeKey, EntId)|
            has_row(rs, p) && p != (rs[j].key, rs[j].ent) ==> row_at(rs.remove(j), p) == row_at(
                rs,
                p,
            ),
{
    let rs2 = rs.remove(j);
    let pk = (rs[j].key, rs[j].ent);
    rs.remove_ensures(j);
    assert forall|i: int, k: int| 0 <= i < k < rs2.len() implies !((#[trigger] rs2[i]).key
        == (#[trigger] rs2[k]).key && rs2[i].ent == rs2[k].ent) by {
        let i0 = if i < j {
            i
        } else {
            i + 1
        };
        let k0 = if k < j {
            k
        } else {
            k + 1
        };
        assert(rs2[i] == rs[i0] && rs2[k] == rs[k0]);
        assert(!(rs[i0].key == rs[k0].key && rs[i0].ent == rs[k0].ent));
    }
    assert forall|p: (TypeKey, EntId)| has_row(rs2, p) implies (has_row(rs, p) && p != pk) by {
        let i = choose|i: int| 0 <= i < rs2.len() && rs2[i].key == p.0 && rs2[i].ent == p.1;
        let i0 = if i < j {
            i
        } else {
            i + 1
        };
        assert(rs[i0].key == p.0 && rs[i0].ent == p.1);
        assert(has_row(rs, p));
        assert(i0 != j) by {
            if i0 == j {
                lemma_row_index(rs, j);
                lemma_row_index(rs, i0);
            }
        }
        assert(p != pk) by {
            if p == pk {
                lemma_row_index(rs, j);
                lemma_row_index(rs, i0);
            }
        }
    }
    assert forall|p: (TypeKey, EntId)| has_row(rs, p) && p != pk implies has_row(rs2, p) by {
        let i = choose|i: int| 0 <= i < rs.len() && rs[i].key == p.0 && rs[i].ent == p.1;
        assert(i != j);
        if i < j {
            assert(rs2[i].key == p.0 && rs2[i].ent == p.1);
        } else {
            assert(rs2[i - 1].key == p.0 && rs2[i - 1].ent == p.1);
        }
        assert(has_row(rs2, p));
    }
    assert forall|p: (TypeKey, EntId)| has_row(rs, p) && p != pk implies row_at(rs2, p) == row_at(
        rs,
        p,
    ) by {
        let i = row_index(rs, p);
        assert(0 <= i < rs.len() && rs[i].key == p.0 && rs[i].ent == p.1);
        assert(i != j);
        if i < j {
            assert(rs2[i] == rs[i]);
            lemma_row_index(rs2, i);
        } else {
            assert(rs2[i - 1] == rs[i]);
            lemma_row_index(rs2, i - 1);
        }
    }
}

/// The basic component manager: registered type sizes plus per-(type,
/// entity) record rows, all plain byte vectors.
///
/// The abstract content is its view, a [`StoreModel`]; every operation's
/// contract is stated against it. [`BasicComps::wf`] is the representation
/// invariant: type keys registered once, at most one row per (type key,
/// entity) pair, every row under a registered key, and every record of the
/// key's registered size.
#[derive(Clone, Debug, PartialEq)]
pub struct BasicComps {
    types: Vec<TypeEntry>,
    rows: Vec<Row>,
}

impl View for BasicComps {
    type V = StoreModel;

    closed spec fn view(&self) -> StoreModel {
        StoreModel {
            sizes: Map::new(
                |t: TypeKey| has_type(self.types@, t),
                |t: TypeKey| type_at(self.types@, t).size as nat,
            ),
            rows: Map::new(
                |p: (TypeKey, EntId)| has_row(self.rows@, p),
                |p: (TypeKey, EntId)| recs_view(row_at(self.rows@, p).recs),
            ),
        }
    }
}

impl BasicComps {
    /// The representation invariant.
    pub closed spec fn wf(self) -> bool {
        &&& types_distinct(self.types@)
        &&& rows_distinct(self.rows@)
        &&& forall|j: int|
            0 <= j < self.rows@.len() ==> has_type(self.types@, (#[trigger] self.rows@[j]).key)
        &&& forall|j: int, k: int|
            0 <= j < self.rows@.len() && 0 <= k < self.rows@[j].recs@.len() ==> (#[trigger]
            self.rows@[j].recs@[k])@.len() == type_at(self.types@, self.rows@[j].key).size
    }

    /// The empty store: no registered types, no records.
    pub fn new() -> (r: BasicComps)
        ensures
            r.wf(),
            r@ == StoreModel::empty(),
    {
        let r = BasicComps { types: Vec::new(), rows: Vec::new() };
        proof {
            assert(r@.sizes =~= Map::<TypeKey, nat>::empty());
            assert(r@.rows =~= Map::<(TypeKey, EntId), Seq<Seq<u8>>>::empty());
            assert(r@ =~= StoreModel::empty());
        }
        r
    }

    /// The index of the entry registering `t`, if any.
    fn find_type(&self, t: TypeKey) -> (r: Option<usize>)
        ensures
            match r {
                Some(i) => i < self.types@.len() && self.types@[i as int].key == t,
                None => !has_type(self.types@, t),
            },
    {
        let n = self.types.len();
        let mut i: usize = 0;
        while i < n
            invariant
                n == self.types@.len(),
                i <= n,
                forall|k: int| 0 <= k < i ==> self.types@[k].key != t,
            decreases n - i,
        {
            if self.types[i].key == t {
                return Some(i);
            }
            i += 1;
        }
        proof {
            assert(!has_type(self.types@, t)) by {
                if has_type(self.types@, t) {
                    let k = choose|k: int|
                        0 <= k < self.types@.len() && self.types@[k].key == t;
                    assert(self.types@[k].key != t);
                }
            }
        }
        None
    }

    /// The index of the row for `(t, e)`, if any.
    fn find_row(&self, t: TypeKey, e: EntId) -> (r: Option<usize>)
        ensures
            match r {
                Some(j) => j < self.rows@.len() && self.rows@[j as int].key == t
                    && self.rows@[j as int].ent == e,
                None => !has_row(self.rows@, (t, e)),
            },
    {
        let n = self.rows.len();
        let mut j: usize = 0;
        while j < n
            invariant
                n == self.rows@.len(),
                j <= n,
                forall|k: int|
                    0 <= k < j ==> !((#[trigger] self.rows@[k]).key == t && self.rows@[k].ent
                        == e),
            decreases n - j,
        {
            if self.rows[j].key == t && self.rows[j].ent == e {
                return Some(j);
            }
            j += 1;
        }
        proof {
            assert(!has_row(self.rows@, (t, e))) by {
                if has_row(self.rows@, (t, e)) {
                    let k = choose|k: int|
                        0 <= k < self.rows@.len() && self.rows@[k].key == t && self.rows@[k].ent
                            == e;
                    assert(!(self.rows@[k].key == t && self.rows@[k].ent == e));
                }
            }
        }
        None
    }
}

impl BasicComps {
    /// Registers the type key `t` with a fixed record size of `size`
    /// bytes. Re-registration fails with `AlreadyRegistered` and leaves
    /// the store unchanged.
    pub fn register_comp_dyn(&mut self, t: TypeKey, size: usize) -> (r: Result<(), StoreError>)
        requires
            old(self).wf(),
        ensures
            final(self).wf(),
            match r {
                Ok(()) => !old(self)@.registered(t) && final(self)@ == old(self)@.register_m(
                    t,
                    size as nat,
                ),
                Err(StoreError::AlreadyRegistered) => old(self)@.registered(t) && final(self)@
                    == old(self)@,
                Err(_) => false,
            },
    {
        match self.find_type(t) {
            Some(i) => {
                proof {
                    assert(has_type(self.types@, t)) by {
                        assert(self.types@[i as int].key == t);
                    }
                }
                Err(StoreError::AlreadyRegistered)
            },
            None => {
                let te = TypeEntry { key: t, size };
                proof {
                    lemma_types_push(self.types@, te);
                }
                self.types.push(te);
                proof {
                    let ts0 = old(self).types@;
                    assert(self.types@ == ts0.push(te));
                    assert forall|j: int| 0 <= j < self.rows@.len() implies has_type(
                        self.types@,
                        (#[trigger] self.rows@[j]).key,
                    ) by {
                        assert(has_type(ts0, self.rows@[j].key));
                    }
                    assert forall|j: int, k: int|
                        0 <= j < self.rows@.len() && 0 <= k
                            < self.rows@[j].recs@.len() implies (#[trigger]
                    self.rows@[j].recs@[k])@.len() == type_at(
                        self.types@,
                        self.rows@[j].key,
                    ).size by {
                        assert(has_type(ts0, self.rows@[j].key));
                        assert(type_at(self.types@, self.rows@[j].key) == type_at(
                            ts0,
                            self.rows@[j].key,
                        ));
                    }
                    assert(self@.sizes =~= old(self)@.register_m(t, size as nat).sizes);
                    assert(self@.rows =~= old(self)@.register_m(t, size as nat).rows);
                    assert(self@ =~= old(self)@.register_m(t, size as nat));
                }
                Ok(())
            },
        }
    }

    /// Appends `rec` as a new record of type `t` on entity `e`, creating
    /// the entity's list if absent, and returns the new record's index.
    /// Fails for an unregistered type key or a record whose length differs
    /// from the registered size.
    pub fn insert_dyn(&mut self, t: TypeKey, e: EntId, rec: Vec<u8>) -> (r: Result<
        usize,
        StoreError,
    >)
        requires
            old(self).wf(),
        ensures
            final(self).wf(),
            match r {
                Ok(idx) => old(self)@.registered(t) && rec@.len() == old(self)@.rec_size(t) && idx
                    == old(self)@.recs(t, e).len() && final(self)@ == old(self)@.insert_m(
                    t,
                    e,
                    rec@,
                ),
                Err(StoreError::Unregistered) => !old(self)@.registered(t) && final(self)@ == old(self)@,
                Err(StoreError::SizeMismatch) => old(self)@.registered(t) && rec@.len() != old(self)@.rec_size(t) && final(self)@ == old(self)@,
                Err(_) => false,
            },
    {
        let ti = match self.find_type(t) {
            None => {
                return Err(StoreError::Unregistered);
            },
            Some(i) => i,
        };
        proof {
            assert(has_type(self.types@, t)) by {
                assert(self.types@[ti as int].key == t);
            }
            lemma_type_index(self.types@, ti as int);
        }
        if rec.len() != self.types[ti].size {
            return Err(StoreError::SizeMismatch);
        }
        let ghost m0 = self@;
        let ghost rs0 = self.rows@;
        match self.find_row(t, e) {
            Some(j) => {
                proof {
                    lemma_row_index(rs0, j as int);
                }
                let idx = self.rows[j].recs.len();
                self.rows[j].recs.push(rec);
                proof {
                    let r2 = self.rows@[j as int];
                    assert(self.rows@ == rs0.update(j as int, r2));
                    assert(r2.key == t && r2.ent == e);
                    assert(r2.recs@ == rs0[j as int].recs@.push(rec));
                    lemma_rows_update(rs0, j as int, r2);
                    assert forall|a: int, k: int|
                        0 <= a < self.rows@.len() && 0 <= k
                            < self.rows@[a].recs@.len() implies (#[trigger]
                    self.rows@[a].recs@[k])@.len() == type_at(
                        self.types@,
                        self.rows@[a].key,
                    ).size by {
                        if a == j as int {
                            if k < rs0[a].recs@.len() {
                                assert(self.rows@[a].recs@[k] == rs0[a].recs@[k]);
                            } else {
                                assert(self.rows@[a].recs@[k] == rec);
                            }
                        } else {
                            assert(self.rows@[a] == rs0[a]);
                        }
                    }
                    assert(recs_view(r2.recs) =~= recs_view(rs0[j as int].recs).push(rec@));
                    assert(m0.recs(t, e) == recs_view(rs0[j as int].recs));
                    assert(self@.sizes =~= m0.insert_m(t, e, rec@).sizes);
                    assert(self@.rows =~= m0.insert_m(t, e, rec@).rows);
                    assert(self@ =~= m0.insert_m(t, e, rec@));
                }
                Ok(idx)
            },
            None => {
                let mut rv: Vec<Vec<u8>> = Vec::new();
                rv.push(rec);
                let r2 = Row { key: t, ent: e, recs: rv };
                proof {
                    lemma_rows_push(rs0, r2);
                }
                self.rows.push(r2);
                proof {
                    let r2g = self.rows@.last();
                    assert(self.rows@ == rs0.push(r2g));
                    assert forall|a: int, k: int|
                        0 <= a < self.rows@.len() && 0 <= k
                            < self.rows@[a].recs@.len() implies (#[trigger]
                    self.rows@[a].recs@[k])@.len() == type_at(
                        self.types@,
                        self.rows@[a].key,
                    ).size by {
                        if a < rs0.len() {
                            assert(self.rows@[a] == rs0[a]);
                        } else {
                            assert(self.rows@[a].recs@[k] == rec);
                        }
                    }
                    assert forall|a: int| 0 <= a < self.rows@.len() implies has_type(
                        self.types@,
                        (#[trigger] self.rows@[a]).key,
                    ) by {
                        if a < rs0.len() {
                            assert(self.rows@[a] == rs0[a]);
                        }
                    }
                    assert(m0.recs(t, e) == Seq::<Seq<u8>>::empty());
                    assert(recs_view(r2g.recs) =~= m0.recs(t, e).push(rec@));
                    assert(self@.sizes =~= m0.insert_m(t, e, rec@).sizes);
                    assert(self@.rows =~= m0.insert_m(t, e, rec@).rows);
                    assert(self@ =~= m0.insert_m(t, e, rec@));
                }
                Ok(0)
            },
        }
    }

    /// Overwrites the `idx`th record of type `t` on entity `e` in place.
    /// Fails for an unregistered type key or a record whose length differs
    /// from the registered size; reports `NotFound` when no record exists
    /// at `idx`.
    pub fn replace_dyn(&mut self, t: TypeKey, e: EntId, idx: usize, rec: Vec<u8>) -> (r: Result<
        (),
        StoreError,
    >)
        requires
            old(self).wf(),
        ensures
            final(self).wf(),
            match r {
                Ok(()) => old(self)@.registered(t) && rec@.len() == old(self)@.rec_size(t) && idx
                    < old(self)@.recs(t, e).len() && final(self)@ == old(self)@.replace_m(
                    t,
                    e,
                    idx as int,
                    rec@,
                ),
                Err(StoreError::Unregistered) => !old(self)@.registered(t) && final(self)@ == old(self)@,
                Err(StoreError::SizeMismatch) => old(self)@.registered(t) && rec@.len() != old(self)@.rec_size(t) && final(self)@ == old(self)@,
                Err(StoreError::NotFound) => old(self)@.registered(t) && rec@.len() == old(self)@.rec_size(t) && idx >= old(self)@.recs(t, e).len() && final(self)@ == old(self)@,
                Err(_) => false,
            },
    {
        let ti = match self.find_type(t) {
            None => {
                return Err(StoreError::Unregistered);
            },
            Some(i) => i,
        };
        proof {
            assert(has_type(self.types@, t)) by {
                assert(self.types@[ti as int].key == t);
            }
            lemma_type_index(self.types@, ti as int);
        }
        if rec.len() != self.types[ti].size {
            return Err(StoreError::SizeMismatch);
        }
        let ghost m0 = self@;
        let ghost rs0 = self.rows@;
        match self.find_row(t, e) {
            None => Err(StoreError::NotFound),
            Some(j) => {
                proof {
                    lemma_row_index(rs0, j as int);
                }
                if idx >= self.rows[j].recs.len() {
                    return Err(StoreError::NotFound);
                }
                self.rows[j].recs[idx] = rec;
                proof {
                    let r2 = self.rows@[j as int];
                    assert(self.rows@ == rs0.update(j as int, r2));
                    assert(r2.key == t && r2.ent == e);
                    assert(r2.recs@ == rs0[j as int].recs@.update(idx as int, rec));
                    lemma_rows_update(rs0, j as int, r2);
                    assert forall|a: int, k: int|
                        0 <= a < self.rows@.len() && 0 <= k
                            < self.rows@[a].recs@.len() implies (#[trigger]
                    self.rows@[a].recs@[k])@.len() == type_at(
                        self.types@,
                        self.rows@[a].key,
                    ).size by {
                        if a == j as int {
                            if k == idx as int {
                                assert(self.rows@[a].recs@[k] == rec);
                            } else {
                                assert(self.rows@[a].recs@[k] == rs0[a].recs@[k]);
                            }
                        } else {
                            assert(self.rows@[a] == rs0[a]);
                        }
                    }
                    assert(recs_view(r2.recs) =~= recs_view(rs0[j as int].recs).update(
                        idx as int,
                        rec@,
                    ));
                    assert(m0.recs(t, e) == recs_view(rs0[j as int].recs));
                    assert(self@.sizes =~= m0.replace_m(t, e, idx as int, rec@).sizes);
                    assert(self@.rows =~= m0.replace_m(t, e, idx as int, rec@).rows);
                    assert(self@ =~= m0.replace_m(t, e, idx as int, rec@));
                }
                Ok(())
            },
        }
    }

    /// Removes and returns the last record of type `t` on entity `e`;
    /// `None` if the entity holds none. Fails for a type key that was
    /// never registered.
    pub fn pop_dyn(&mut self, t: TypeKey, e: EntId) -> (r: Result<Option<Vec<u8>>, StoreError>)
        requires
            old(self).wf(),
        ensures
            final(self).wf(),
            match r {
                Ok(Some(rec)) => old(self)@.registered(t) && old(self)@.recs(t, e).len() > 0
                    && rec@ == old(self)@.recs(t, e).last() && final(self)@ == old(self)@.pop_m(
                    t,
                    e,
                ),
                Ok(None) => old(self)@.registered(t) && old(self)@.recs(t, e).len() == 0 && final(self)@ == old(self)@,
                Err(StoreError::Unregistered) => !old(self)@.registered(t) && final(self)@ == old(self)@,
                Err(_) => false,
            },
    {
        let ti = match self.find_type(t) {
            None => {
                return Err(StoreError::Unregistered);
            },
            Some(i) => i,
        };
        proof {
            assert(has_type(self.types@, t)) by {
                assert(self.types@[ti as int].key == t);
            }
        }
        let ghost m0 = self@;
        let ghost rs0 = self.rows@;
        match self.find_row(t, e) {
            None => Ok(None),
            Some(j) => {
                proof {
                    lemma_row_index(rs0, j as int);
                }
                let popped = self.rows[j].recs.pop();
                match popped {
                    None => {
                        proof {
                            let r2 = self.rows@[j as int];
                            assert(self.rows@ == rs0.update(j as int, r2));
                            assert(r2.key == t && r2.ent == e);
                            assert(rs0[j as int].recs@.len() == 0);
                            assert(r2.recs@ == rs0[j as int].recs@);
                            lemma_rows_update(rs0, j as int, r2);
                            assert forall|a: int, k: int|
                                0 <= a < self.rows@.len() && 0 <= k
                                    < self.rows@[a].recs@.len() implies (#[trigger]
                            self.rows@[a].recs@[k])@.len() == type_at(
                                self.types@,
                                self.rows@[a].key,
                            ).size by {
                                if a == j as int {
                                    assert(self.rows@[a].recs@[k] == rs0[a].recs@[k]);
                                } else {
                                    assert(self.rows@[a] == rs0[a]);
                                }
                            }
                            assert(recs_view(r2.recs) == recs_view(rs0[j as int].recs));
                            assert(m0.recs(t, e) == recs_view(rs0[j as int].recs));
                            assert(self@.sizes =~= m0.sizes);
                            assert(self@.rows =~= m0.rows);
                            assert(self@ =~= m0);
                        }
                        Ok(None)
                    },
                    Some(rec) => {
                        proof {
                            let r2 = self.rows@[j as int];
                            assert(self.rows@ == rs0.update(j as int, r2));
                            assert(r2.key == t && r2.ent == e);
                            assert(rs0[j as int].recs@.len() > 0);
                            assert(r2.recs@ == rs0[j as int].recs@.subrange(
                                0,
                                rs0[j as int].recs@.len() - 1,
                            ));
                            lemma_rows_update(rs0, j as int, r2);
                            assert forall|a: int, k: int|
                                0 <= a < self.rows@.len() && 0 <= k
                                    < self.rows@[a].recs@.len() implies (#[trigger]
                            self.rows@[a].recs@[k])@.len() == type_at(
                                self.types@,
                                self.rows@[a].key,
                            ).size by {
                                if a == j as int {
                                    assert(self.rows@[a].recs@[k] == rs0[a].recs@[k]);
                                } else {
                                    assert(self.rows@[a] == rs0[a]);
                                }
                            }
                            assert(m0.recs(t, e) == recs_view(rs0[j as int].recs));
                            assert(m0.recs(t, e).len() > 0);
                            assert(rec@ == m0.recs(t, e).last());
                            assert(recs_view(r2.recs) =~= recs_view(
                                rs0[j as int].recs,
                            ).drop_last());
                            assert(self@.sizes =~= m0.pop_m(t, e).sizes);
                            assert(self@.rows =~= m0.pop_m(t, e).rows);
                            assert(self@ =~= m0.pop_m(t, e));
                        }
                        Ok(Some(rec))
                    },
                }
            },
        }
    }

    /// Removes and returns the `idx`th record of type `t` on entity `e`;
    /// later records shift down by one index. `None` if no record exists
    /// at `idx`. Fails for a type key that was never registered.
    pub fn remove_dyn(&mut self, t: TypeKey, e: EntId, idx: usize) -> (r: Result<
        Option<Vec<u8>>,
        StoreError,
    >)
        requires
            old(self).wf(),
        ensures
            final(self).wf(),
            match r {
                Ok(Some(rec)) => old(self)@.registered(t) && idx < old(self)@.recs(t, e).len()
                    && rec@ == old(self)@.recs(t, e)[idx as int] && final(self)@ == old(self)@.remove_m(t, e, idx as int),
                Ok(None) => old(self)@.registered(t) && idx >= old(self)@.recs(t, e).len()
                    && final(self)@ == old(self)@,
                Err(StoreError::Unregistered) => !old(self)@.registered(t) && final(self)@ == old(self)@,
                Err(_) => false,
            },
    {
        let ti = match self.find_type(t) {
            None => {
                return Err(StoreError::Unregistered);
            },
            Some(i) => i,
        };
        proof {
            assert(has_type(self.types@, t)) by {
                assert(self.types@[ti as int].key == t);
            }
        }
        let ghost m0 = self@;
        let ghost rs0 = self.rows@;
        match self.find_row(t, e) {
            None => Ok(None),
            Some(j) => {
                proof {
                    lemma_row_index(rs0, j as int);
                }
                if idx >= self.rows[j].recs.len() {
                    return Ok(None);
                }
                let rec = self.rows[j].recs.remove(idx);
                proof {
                    let r2 = self.rows@[j as int];
                    assert(self.rows@ == rs0.update(j as int, r2));
                    assert(r2.key == t && r2.ent == e);
                    assert(r2.recs@ == rs0[j as int].recs@.remove(idx as int));
                    rs0[j as int].recs@.remove_ensures(idx as int);
                    lemma_rows_update(rs0, j as int, r2);
                    assert forall|a: int, k: int|
                        0 <= a < self.rows@.len() && 0 <= k
                            < self.rows@[a].recs@.len() implies (#[trigger]
                    self.rows@[a].recs@[k])@.len() == type_at(
                        self.types@,
                        self.rows@[a].key,
                    ).size by {
                        if a == j as int {
                            if k < idx as int {
                                assert(self.rows@[a].recs@[k] == rs0[a].recs@[k]);
                            } else {
                                assert(self.rows@[a].recs@[k] == rs0[a].recs@[k + 1]);
                            }
                        } else {
                            assert(self.rows@[a] == rs0[a]);
                        }
                    }
                    assert(m0.recs(t, e) == recs_view(rs0[j as int].recs));
                    assert(rec@ == m0.recs(t, e)[idx as int]);
                    assert(recs_view(r2.recs) =~= recs_view(rs0[j as int].recs).remove(
                        idx as int,
                    )) by {
                        recs_view(rs0[j as int].recs).remove_ensures(idx as int);
                    }
                    assert(self@.sizes =~= m0.remove_m(t, e, idx as int).sizes);
                    assert(self@.rows =~= m0.remove_m(t, e, idx as int).rows);
                    assert(self@ =~= m0.remove_m(t, e, idx as int));
                }
                Ok(Some(rec))
            },
        }
    }

    /// Deletes the entity's entire record list for type `t`; idempotent,
    /// and a no-op for a type key that was never registered.
    pub fn remove_all_dyn(&mut self, t: TypeKey, e: EntId)
        requires
            old(self).wf(),
        ensures
            final(self).wf(),
            final(self)@ == old(self)@.remove_all_m(t, e),
    {
        let ghost m0 = self@;
        let ghost rs0 = self.rows@;
        match self.find_row(t, e) {
            None => {
                proof {
                    assert(self@.rows =~= m0.remove_all_m(t, e).rows);
                    assert(self@ =~= m0.remove_all_m(t, e));
                }
            },
            Some(j) => {
                proof {
                    lemma_row_index(rs0, j as int);
                    lemma_rows_remove(rs0, j as int);
                    rs0.remove_ensures(j as int);
                }
                self.rows.remove(j);
                proof {
                    assert(self.rows@ == rs0.remove(j as int));
                    assert forall|a: int| 0 <= a < self.rows@.len() implies has_type(
                        self.types@,
                        (#[trigger] self.rows@[a]).key,
                    ) by {
                        let a0 = if a < j as int {
                            a
                        } else {
                            a + 1
                        };
                        assert(self.rows@[a] == rs0[a0]);
                        assert(has_type(self.types@, rs0[a0].key));
                    }
                    assert forall|a: int, k: int|
                        0 <= a < self.rows@.len() && 0 <= k
                            < self.rows@[a].recs@.len() implies (#[trigger]
                    self.rows@[a].recs@[k])@.len() == type_at(
                        self.types@,
                        self.rows@[a].key,
                    ).size by {
                        let a0 = if a < j as int {
                            a
                        } else {
                            a + 1
                        };
                        assert(self.rows@[a] == rs0[a0]);
                        assert(rs0[a0].recs@[k]@.len() == type_at(
                            self.types@,
                            rs0[a0].key,
                        ).size);
                    }
                    assert(self@.rows =~= m0.remove_all_m(t, e).rows);
                    assert(self@ =~= m0.remove_all_m(t, e));
                }
            },
        }
    }

    /// Purges every record of entity `e`, across all registered types.
    pub fn purge_ent_dyn(&mut self, e: EntId)
        requires
            old(self).wf(),
        ensures
            final(self).wf(),
            final(self)@ == old(self)@.purge_m(e),
    {
        let ghost m0 = self@;
        let ghost rs0 = self.rows@;
        let mut i: usize = 0;
        while i < self.rows.len()
            invariant
                self.wf(),
                self.types@ == old(self).types@,
                i <= self.rows@.len(),
                rs0 == old(self).rows@,
                forall|k: int| 0 <= k < i ==> (#[trigger] self.rows@[k]).ent != e,
                forall|p: (TypeKey, EntId)|
                    p.1 != e ==> (has_row(self.rows@, p) <==> has_row(rs0, p)),
                forall|p: (TypeKey, EntId)|
                    p.1 != e && has_row(rs0, p) ==> row_at(self.rows@, p) == row_at(rs0, p),
                forall|p: (TypeKey, EntId)| has_row(self.rows@, p) ==> has_row(rs0, p),
            decreases self.rows@.len() - i,
        {
            if self.rows[i].ent == e {
                let ghost rs_c = self.rows@;
                proof {
                    lemma_rows_remove(rs_c, i as int);
                    rs_c.remove_ensures(i as int);
                }
                self.rows.remove(i);
                proof {
                    let pk = (rs_c[i as int].key, rs_c[i as int].ent);
                    assert(self.rows@ == rs_c.remove(i as int));
                    assert forall|a: int| 0 <= a < self.rows@.len() implies has_type(
                        self.types@,
                        (#[trigger] self.rows@[a]).key,
                    ) by {
                        let a0 = if a < i as int {
                            a
                        } else {
                            a + 1
                        };
                        assert(self.rows@[a] == rs_c[a0]);
                        assert(has_type(self.types@, rs_c[a0].key));
                    }
                    assert forall|a: int, k: int|
                        0 <= a < self.rows@.len() && 0 <= k
                            < self.rows@[a].recs@.len() implies (#[trigger]
                    self.rows@[a].recs@[k])@.len() == type_at(
                        self.types@,
                        self.rows@[a].key,
                    ).size by {
                        let a0 = if a < i as int {
                            a
                        } else {
                            a + 1
                        };
                        assert(self.rows@[a] == rs_c[a0]);
                        assert(rs_c[a0].recs@[k]@.len() == type_at(
                            self.types@,
                            rs_c[a0].key,
                        ).size);
                    }
                    assert forall|k: int| 0 <= k < i implies (#[trigger] self.rows@[k]).ent
                        != e by {
                        assert(self.rows@[k] == rs_c[k]);
                    }
                    assert forall|p: (TypeKey, EntId)| p.1 != e implies (has_row(self.rows@, p)
                        <==> has_row(rs0, p)) by {
                        assert(p != pk);
                        assert(has_row(self.rows@, p) <==> (has_row(rs_c, p) && p != pk));
                    }
                    assert forall|p: (TypeKey, EntId)| p.1 != e && has_row(rs0, p) implies row_at(
                        self.rows@,
                        p,
                    ) == row_at(rs0, p) by {
                        assert(p != pk);
                        assert(has_row(rs_c, p));
                    }
                }
            } else {
                i += 1;
            }
        }
        proof {
            assert forall|p: (TypeKey, EntId)| has_row(self.rows@, p) implies p.1 != e by {
                let k = choose|k: int|
                    0 <= k < self.rows@.len() && self.rows@[k].key == p.0 && self.rows@[k].ent
                        == p.1;
                assert(self.rows@[k].ent != e);
            }
            assert(self@.sizes =~= m0.purge_m(e).sizes);
            assert(self@.rows =~= m0.purge_m(e).rows);
            assert(self@ =~= m0.purge_m(e));
        }
    }

    /// The number of records of type `t` on entity `e`; `0` if none.
    pub fn len_dyn(&self, t: TypeKey, e: EntId) -> (n: usize)
        requires
            self.wf(),
        ensures
            n == self@.recs(t, e).len(),
    {
        match self.find_row(t, e) {
            Some(j) => {
                proof {
                    lemma_row_index(self.rows@, j as int);
                }
                self.rows[j].recs.len()
            },
            None => 0,
        }
    }

    /// A read-only view of the `idx`th record of type `t` on entity `e`;
    /// `None` if the entity holds no such record. Fails for a type key
    /// that was never registered.
    pub fn get_dyn(&self, t: TypeKey, e: EntId, idx: usize) -> (r: Result<
        Option<&Vec<u8>>,
        StoreError,
    >)
        requires
            self.wf(),
        ensures
            match r {
                Ok(Some(rec)) => self@.registered(t) && idx < self@.recs(t, e).len() && rec@
                    == self@.recs(t, e)[idx as int],
                Ok(None) => self@.registered(t) && idx >= self@.recs(t, e).len(),
                Err(StoreError::Unregistered) => !self@.registered(t),
                Err(_) => false,
            },
    {
        match self.find_type(t) {
            None => Err(StoreError::Unregistered),
            Some(i) => {
                proof {
                    assert(has_type(self.types@, t)) by {
                        assert(self.types@[i as int].key == t);
                    }
                }
                match self.find_row(t, e) {
                    None => Ok(None),
                    Some(j) => {
                        proof {
                            lemma_row_index(self.rows@, j as int);
                        }
                        if idx < self.rows[j].recs.len() {
                            Ok(Some(&self.rows[j].recs[idx]))
                        } else {
                            Ok(None)
                        }
                    },
                }
            },
        }
    }
}

/// The mutation a [`BasicCompsDiff`] carries.
#[derive(Clone, Debug, PartialEq)]
enum DiffOp {
    Insert(TypeKey, EntId, Vec<u8>),
    Remove(TypeKey, EntId),
    Replace(TypeKey, EntId, usize, Vec<u8>),
}

/// A pending mutation against a [`BasicComps`] store: the target type key
/// and entity plus the payload bytes, with no reference into the store.
#[derive(Clone, Debug, PartialEq)]
pub struct BasicCompsDiff(DiffOp);

impl Diff<BasicComps> for BasicCompsDiff {
    closed spec fn diff_model(self) -> DiffModel {
        match self.0 {
            DiffOp::Insert(t, e, rec) => DiffModel::Insert { t, e, rec: rec@ },
            DiffOp::Remove(t, e) => DiffModel::Remove { t, e },
            DiffOp::Replace(t, e, idx, rec) => DiffModel::Replace {
                t,
                e,
                idx: idx as int,
                rec: rec@,
            },
        }
    }

    fn insert(comps: &BasicComps, t: TypeKey, e: EntId, rec: Vec<u8>) -> (d: Self) {
        BasicCompsDiff(DiffOp::Insert(t, e, rec))
    }

    fn pop(comps: &BasicComps, t: TypeKey, e: EntId) -> (d: Self) {
        BasicCompsDiff(DiffOp::Remove(t, e))
    }

    fn replace(comps: &BasicComps, t: TypeKey, e: EntId, idx: usize, rec: Vec<u8>) -> (d: Self) {
        BasicCompsDiff(DiffOp::Replace(t, e, idx, rec))
    }
}

impl BasicComps {
    /// Applies the diffs in the order supplied; order matters, since later
    /// diffs may target indices shifted by earlier ones in the same batch.
    /// Replay stops at the first caller error, which is returned.
    pub fn commit_dyn(&mut self, diffs: Vec<BasicCompsDiff>) -> (r: Result<(), StoreError>)
        requires
            old(self).wf(),
        ensures
            final(self).wf(),
            ({
                let run = old(self)@.run_diffs(crate::diff_models::<BasicComps, BasicCompsDiff>(diffs@));
                final(self)@ == run.0 && match run.1 {
                    None => r == Result::<(), StoreError>::Ok(()),
                    Some(err) => r == Result::<(), StoreError>::Err(err),
                }
            }),
    {
        let ghost ds = crate::diff_models::<BasicComps, BasicCompsDiff>(diffs@);
        let ghost target = old(self)@.run_diffs(ds);
        proof {
            assert(ds.skip(0) =~= ds);
        }
        let n = diffs.len();
        let mut i: usize = 0;
        while i < n
            invariant
                self.wf(),
                n == diffs@.len(),
                i <= n,
                ds == crate::diff_models::<BasicComps, BasicCompsDiff>(diffs@),
                target == old(self)@.run_diffs(ds),
                target == self@.run_diffs(ds.skip(i as int)),
            decreases n - i,
        {
            let ghost pre = self@;
            proof {
                assert(ds.skip(i as int).len() > 0);
                assert(ds.skip(i as int)[0] == ds[i as int]);
                assert(ds[i as int] == diffs@[i as int].diff_model());
                assert(ds.skip(i as int).drop_first() =~= ds.skip(i as int + 1));
            }
            let d = &diffs[i];
            let step: Result<(), StoreError> = match &d.0 {
                DiffOp::Insert(t, e, rec) => {
                    match self.insert_dyn(*t, *e, clone_bytes(rec)) {
                        Ok(_) => Ok(()),
                        Err(err) => Err(err),
                    }
                },
                DiffOp::Remove(t, e) => {
                    match self.pop_dyn(*t, *e) {
                        Ok(_) => Ok(()),
                        Err(err) => Err(err),
                    }
                },
                DiffOp::Replace(t, e, idx, rec) => {
                    match self.replace_dyn(*t, *e, *idx, clone_bytes(rec)) {
                        Ok(()) => Ok(()),
                        Err(StoreError::NotFound) => Ok(()),
                        Err(err) => Err(err),
                    }
                },
            };
            match step {
                Ok(()) => {
                    proof {
                        assert(pre.apply_diff(ds[i as int]) == Ok::<StoreModel, StoreError>(
                            self@,
                        ));
                        assert(target == self@.run_diffs(ds.skip(i as int + 1)));
                    }
                    i += 1;
                },
                Err(err) => {
                    proof {
                        assert(pre.apply_diff(ds[i as int]) == Err::<StoreModel, StoreError>(
                            err,
                        ));
                        assert(self@ == pre);
                        assert(target == (self@, Some(err)));
                    }
                    return Err(err);
                },
            }
        }
        proof {
            assert(ds.skip(n as int) =~= Seq::<DiffModel>::empty());
            assert(target == (self@, None::<StoreError>));
        }
        Ok(())
    }
}

impl Default for BasicComps {
    /// The empty store.
    fn default() -> (r: BasicComps)
        ensures
            r.wf(),
            r@ == StoreModel::empty(),
    {
        BasicComps::new()
    }
}


impl Comps for BasicComps {
    type Diff = BasicCompsDiff;

    open spec fn model(self) -> StoreModel {
        self@
    }

    open spec fn inv(self) -> bool {
        self.wf()
    }

    proof fn lemma_inv_model_wf(self) {
        assert forall|p: (TypeKey, EntId)| #[trigger]
            self@.rows.dom().contains(p) implies self@.registered(p.0) by {
            let j = choose|j: int|
                0 <= j < self.rows@.len() && self.rows@[j].key == p.0 && self.rows@[j].ent == p.1;
            assert(has_type(self.types@, self.rows@[j].key));
        }
        assert forall|p: (TypeKey, EntId), i: int|
            self@.rows.dom().contains(p) && 0 <= i < self@.rows[p].len() implies (#[trigger]
        self@.rows[p][i]).len() == self@.rec_size(p.0) by {
            let j = row_index(self.rows@, p);
            assert(0 <= j < self.rows@.len() && self.rows@[j].key == p.0 && self.rows@[j].ent
                == p.1);
            assert(self@.rows[p] == recs_view(self.rows@[j].recs));
            assert(self@.rows[p][i] == self.rows@[j].recs@[i]@);
            assert(self.rows@[j].recs@[i]@.len() == type_at(
                self.types@,
                self.rows@[j].key,
            ).size);
        }
    }

    fn register_comp(&mut self, t: TypeKey, size: usize) -> (r: Result<(), StoreError>) {
        self.register_comp_dyn(t, size)
    }

    fn get<'a>(&'a self, t: TypeKey, e: EntId, idx: usize) -> (r: Result<
        Option<&'a Vec<u8>>,
        StoreError,
    >) {
        self.get_dyn(t, e, idx)
    }

    fn get_first<'a>(&'a self, t: TypeKey, e: EntId) -> (r: Result<
        Option<&'a Vec<u8>>,
        StoreError,
    >) {
        self.get_dyn(t, e, 0)
    }

    fn replace(&mut self, t: TypeKey, e: EntId, idx: usize, rec: Vec<u8>) -> (r: Result<
        (),
        StoreError,
    >) {
        self.replace_dyn(t, e, idx, rec)
    }

    fn replace_first(&mut self, t: TypeKey, e: EntId, rec: Vec<u8>) -> (r: Result<
        (),
        StoreError,
    >) {
        self.replace_dyn(t, e, 0, rec)
    }

    fn insert(&mut self, t: TypeKey, e: EntId, rec: Vec<u8>) -> (r: Result<usize, StoreError>) {
        self.insert_dyn(t, e, rec)
    }

    fn pop(&mut self, t: TypeKey, e: EntId) -> (r: Result<Option<Vec<u8>>, StoreError>) {
        self.pop_dyn(t, e)
    }

    fn remove(&mut self, t: TypeKey, e: EntId, idx: usize) -> (r: Result<
        Option<Vec<u8>>,
        StoreError,
    >) {
        self.remove_dyn(t, e, idx)
    }

    fn remove_all(&mut self, t: TypeKey, e: EntId) {
        self.remove_all_dyn(t, e)
    }

    fn purge_ent(&mut self, e: EntId) {
        self.purge_ent_dyn(e)
    }

    fn len(&self, t: TypeKey, e: EntId) -> (n: usize) {
        self.len_dyn(t, e)
    }

    fn commit(&mut self, diffs: Vec<BasicCompsDiff>) -> (r: Result<(), StoreError>) {
        self.commit_dyn(diffs)
    }
}

} // verus!
