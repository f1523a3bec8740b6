//! An entity-component runtime: opaque numeric entities carry ordered lists
//! of fixed-size component records, stored type-erased under explicit type
//! keys, and are updated each tick by composable systems.
//!
//! The component store ([`Comps`]) keeps, per registered type key, a list of
//! byte records per entity; typed access is layered on top by the caller,
//! which encodes each component into a record of the size it registered.
//! Mutations happen either in place or through the diff/commit protocol
//! ([`Diff`], [`Comps::commit`]): read-phase logic describes the mutations it
//! would make, and a single commit pass replays them in order. [`State`]
//! binds a store, an updater and the entity registry into one simulation.

pub mod ents;
pub mod impls;
pub mod model;
pub mod syst;

use core::marker::PhantomData;

use vstd::prelude::*;

use crate::ents::Ents;
use crate::model::{DiffModel, StoreError, StoreModel};

verus! {

/// An entity identifier. Zero is reserved and never issued.
pub type EntId = u64;

/// The explicit token naming one registered component type.
pub type TypeKey = u64;

/// A plain-data component: a value the caller can encode into a fixed-size
/// byte record and hand to the store under a registered type key.
pub trait Comp: Sized + Clone {

}

impl<T> Comp for T where T: Sized + Clone {

}

/// A manager of components: per type key and entity, an ordered list of
/// fixed-size byte records.
///
/// A type key must be registered, with the byte size of one record, before
/// any other operation may reference it; access through an unregistered key
/// is a caller error and is refused loudly (`Err`), never silently skipped.
/// Absence of a record, by contrast, is an expected answer (`None`).
pub trait Comps: Sized {
    /// The pending-mutation value replayed by [`Comps::commit`].
    type Diff: Diff<Self>;

    /// The abstract store this value represents.
    spec fn model(self) -> StoreModel;

    /// The representation invariant every operation preserves.
    spec fn inv(self) -> bool;

    /// A valid store always represents a well-formed model.
    proof fn lemma_inv_model_wf(self)
        requires
            self.inv(),
        ensures
            self.model().wf(),
    ;

    /// Registers a new type of components, allowing the manager to store
    /// records of `size` bytes under `t`. Re-registration fails and leaves
    /// the store unchanged: a silent overwrite would discard records.
    fn register_comp(&mut self, t: TypeKey, size: usize) -> (r: Result<(), StoreError>)
        requires
            old(self).inv(),
        ensures
            final(self).inv(),
            match r {
                Ok(()) => !old(self).model().registered(t) && final(self).model() == old(self).model().register_m(t, size as nat),
                Err(StoreError::AlreadyRegistered) => old(self).model().registered(t) && final(self).model() == old(self).model(),
                Err(_) => false,
            },
    ;

    /// A read-only view of the `idx`th record of type `t` on entity `e`;
    /// `None` if the entity holds no such record.
    fn get<'a>(&'a self, t: TypeKey, e: EntId, idx: usize) -> (r: Result<
        Option<&'a Vec<u8>>,
        StoreError,
    >)
        requires
            self.inv(),
        ensures
            match r {
                Ok(Some(rec)) => self.model().registered(t) && idx < self.model().recs(t, e).len()
                    && rec@ == self.model().recs(t, e)[idx as int],
                Ok(None) => self.model().registered(t) && idx >= self.model().recs(t, e).len(),
                Err(StoreError::Unregistered) => !self.model().registered(t),
                Err(_) => false,
            },
    ;

    /// A read-only view of the first record of type `t` on entity `e`.
    fn get_first<'a>(&'a self, t: TypeKey, e: EntId) -> (r: Result<
        Option<&'a Vec<u8>>,
        StoreError,
    >)
        requires
            self.inv(),
        ensures
            match r {
                Ok(Some(rec)) => self.model().registered(t) && self.model().recs(t, e).len() > 0
                    && rec@ == self.model().recs(t, e)[0],
                Ok(None) => self.model().registered(t) && self.model().recs(t, e).len() == 0,
                Err(StoreError::Unregistered) => !self.model().registered(t),
                Err(_) => false,
            },
    ;

    /// Overwrites the `idx`th record of type `t` on entity `e` in place.
    /// `NotFound` reports an index that holds no record; a record whose
    /// length differs from the registered size is refused.
    fn replace(&mut self, t: TypeKey, e: EntId, idx: usize, rec: Vec<u8>) -> (r: Result<
        (),
        StoreError,
    >)
        requires
            old(self).inv(),
        ensures
            final(self).inv(),
            match r {
                Ok(()) => old(self).model().registered(t) && rec@.len() == old(self).model().rec_size(t) && idx < old(self).model().recs(t, e).len() && final(self).model() == old(self).model().replace_m(t, e, idx as int, rec@),
                Err(StoreError::Unregistered) => !old(self).model().registered(t) && final(self).model() == old(self).model(),
                Err(StoreError::SizeMismatch) => old(self).model().registered(t) && rec@.len()
                    != old(self).model().rec_size(t) && final(self).model() == old(self).model(),
                Err(StoreError::NotFound) => old(self).model().registered(t) && rec@.len() == old(self).model().rec_size(t) && idx >= old(self).model().recs(t, e).len() && final(self).model() == old(self).model(),
                Err(_) => false,
            },
    ;

    /// Overwrites the first record of type `t` on entity `e`.
    fn replace_first(&mut self, t: TypeKey, e: EntId, rec: Vec<u8>) -> (r: Result<(), StoreError>)
        requires
            old(self).inv(),
        ensures
            final(self).inv(),
            match r {
                Ok(()) => old(self).model().registered(t) && rec@.len() == old(self).model().rec_size(t) && old(self).model().recs(t, e).len() > 0 && final(self).model() == old(self).model().replace_m(t, e, 0, rec@),
                Err(StoreError::Unregistered) => !old(self).model().registered(t) && final(self).model() == old(self).model(),
                Err(StoreError::SizeMismatch) => old(self).model().registered(t) && rec@.len()
                    != old(self).model().rec_size(t) && final(self).model() == old(self).model(),
                Err(StoreError::NotFound) => old(self).model().registered(t) && rec@.len() == old(self).model().rec_size(t) && old(self).model().recs(t, e).len() == 0 && final(self).model() == old(self).model(),
                Err(_) => false,
            },
    ;

    /// Appends a record of type `t` to entity `e`, creating the list if
    /// absent, and returns the new record's index.
    fn insert(&mut self, t: TypeKey, e: EntId, rec: Vec<u8>) -> (r: Result<usize, StoreError>)
        requires
            old(self).inv(),
        ensures
            final(self).inv(),
            match r {
                Ok(idx) => old(self).model().registered(t) && rec@.len() == old(self).model().rec_size(t) && idx == old(self).model().recs(t, e).len() && final(self).model() == old(self).model().insert_m(t, e, rec@),
                Err(StoreError::Unregistered) => !old(self).model().registered(t) && final(self).model() == old(self).model(),
                Err(StoreError::SizeMismatch) => old(self).model().registered(t) && rec@.len()
                    != old(self).model().rec_size(t) && final(self).model() == old(self).model(),
                Err(_) => false,
            },
    ;

    /// Removes and returns the last record of type `t` on entity `e`;
    /// `None` if the entity holds none.
    fn pop(&mut self, t: TypeKey, e: EntId) -> (r: Result<Option<Vec<u8>>, StoreError>)
        requires
            old(self).inv(),
        ensures
            final(self).inv(),
            match r {
                Ok(Some(rec)) => old(self).model().registered(t) && old(self).model().recs(
                    t,
                    e,
                ).len() > 0 && rec@ == old(self).model().recs(t, e).last() && final(self).model()
                    == old(self).model().pop_m(t, e),
                Ok(None) => old(self).model().registered(t) && old(self).model().recs(t, e).len()
                    == 0 && final(self).model() == old(self).model(),
                Err(StoreError::Unregistered) => !old(self).model().registered(t) && final(self).model() == old(self).model(),
                Err(_) => false,
            },
    ;

    /// Removes and returns the `idx`th record of type `t` on entity `e`;
    /// later records shift down by one index. `None` if no such record.
    fn remove(&mut self, t: TypeKey, e: EntId, idx: usize) -> (r: Result<
        Option<Vec<u8>>,
        StoreError,
    >)
        requires
            old(self).inv(),
        ensures
            final(self).inv(),
            match r {
                Ok(Some(rec)) => old(self).model().registered(t) && idx < old(self).model().recs(
                    t,
                    e,
                ).len() && rec@ == old(self).model().recs(t, e)[idx as int] && final(self).model()
                    == old(self).model().remove_m(t, e, idx as int),
                Ok(None) => old(self).model().registered(t) && idx >= old(self).model().recs(
                    t,
                    e,
                ).len() && final(self).model() == old(self).model(),
                Err(StoreError::Unregistered) => !old(self).model().registered(t) && final(self).model() == old(self).model(),
                Err(_) => false,
            },
    ;

    /// Deletes the entity's entire record list for type `t`; idempotent,
    /// and a no-op for a type key that was never registered.
    fn remove_all(&mut self, t: TypeKey, e: EntId)
        requires
            old(self).inv(),
        ensures
            final(self).inv(),
            final(self).model() == old(self).model().remove_all_m(t, e),
    ;

    /// Purges every record of entity `e`, across all registered types.
    fn purge_ent(&mut self, e: EntId)
        requires
            old(self).inv(),
        ensures
            final(self).inv(),
            final(self).model() == old(self).model().purge_m(e),
    ;

    /// The number of records of type `t` on entity `e`; `0` if none.
    fn len(&self, t: TypeKey, e: EntId) -> (n: usize)
        requires
            self.inv(),
        ensures
            n == self.model().recs(t, e).len(),
    ;

    /// Applies the diffs in the order supplied. Order matters: later diffs
    /// may target indices shifted by earlier ones. Replay stops at the
    /// first caller error, which is returned rather than swallowed.
    fn commit(&mut self, diffs: Vec<Self::Diff>) -> (r: Result<(), StoreError>)
        requires
            old(self).inv(),
        ensures
            final(self).inv(),
            ({
                let run = old(self).model().run_diffs(diff_models::<Self, Self::Diff>(diffs@));
                final(self).model() == run.0 && match run.1 {
                    None => r == Result::<(), StoreError>::Ok(()),
                    Some(err) => r == Result::<(), StoreError>::Err(err),
                }
            }),
    ;
}

/// A byte-for-byte copy of a record.
pub fn clone_bytes(v: &Vec<u8>) -> (r: Vec<u8>)
    ensures
        r@ == v@,
{
    let r = v.clone();
    proof {
        assert forall|i: int| 0 <= i < v@.len() implies r@[i] == v@[i] by {
            assert(cloned::<u8>(v@[i], r@[i]));
        }
        assert(r@ =~= v@);
    }
    r
}

/// The models of a batch of diffs, in batch order.
pub open spec fn diff_models<Cs, D: Diff<Cs>>(ds: Seq<D>) -> Seq<DiffModel> {
    ds.map_values(|d: D| d.diff_model())
}

/// A deferred, replayable description of one store mutation.
///
/// Diffs are produced by read-phase logic against an immutable view of a
/// store and replayed later, serially, by [`Comps::commit`]; they carry no
/// live references into the store. `Cs` is the store the diff targets; the
/// constructors receive it so an implementation may capture whatever the
/// replay needs.
pub trait Diff<Cs>: Sized {
    /// The mutation this value describes.
    spec fn diff_model(self) -> DiffModel;

    /// Describes appending `rec` as a new record of type `t` on entity `e`.
    fn insert(comps: &Cs, t: TypeKey, e: EntId, rec: Vec<u8>) -> (d: Self)
        ensures
            d.diff_model() == (DiffModel::Insert { t, e, rec: rec@ }),
    ;

    /// Describes removing the last record of type `t` on entity `e`.
    fn pop(comps: &Cs, t: TypeKey, e: EntId) -> (d: Self)
        ensures
            d.diff_model() == (DiffModel::Remove { t, e }),
    ;

    /// Describes overwriting the `idx`th record of type `t` on entity `e`.
    fn replace(comps: &Cs, t: TypeKey, e: EntId, idx: usize, rec: Vec<u8>) -> (d: Self)
        ensures
            d.diff_model() == (DiffModel::Replace { t, e, idx: idx as int, rec: rec@ }),
    ;
}

/// A state updater: drives one tick over the live entities. In a classic
/// entity-component architecture, the updater is the manager of systems.
///
/// Each implementor fixes its transition relation [`Updater::effect`], and
/// `update` is bound to it: the relation ties the updater and store models
/// after a tick to their values before it. System logic must not create or
/// delete entities mid-tick, so the live set is handed back unchanged.
pub trait Updater<Cs: Comps, D>: Sized {
    /// The transition relation of one tick: updater before/after, the live
    /// entities in ascending order, store model before/after, tick data,
    /// and the tick's outcome.
    spec fn effect(
        pre: Self,
        post: Self,
        ents: Seq<EntId>,
        m0: StoreModel,
        m1: StoreModel,
        data: D,
        r: Result<(), StoreError>,
    ) -> bool;

    /// Runs one tick. A caller error raised by the store (an unregistered
    /// type key queried by system logic) propagates out rather than being
    /// swallowed.
    fn update(&mut self, ents: &mut Ents, comps: &mut Cs, data: &D) -> (r: Result<(), StoreError>)
        requires
            old(comps).inv(),
            old(ents).wf(),
        ensures
            final(comps).inv(),
            final(ents)@ == old(ents)@,
            Self::effect(
                *old(self),
                *final(self),
                old(ents)@,
                old(comps).model(),
                final(comps).model(),
                *data,
                r,
            ),
    ;
}

/// The main struct of an entity-component system: `State` stores the
/// updater, the components and the entities of the simulation, and owns the
/// entity lifecycle.
pub struct State<Cs, Upd, D> {
    /// Ties the tick-data type to the state without storing a value of it.
    pub _pd: PhantomData<D>,
    /// The component store.
    pub comps: Cs,
    /// The updater driven by [`State::update`].
    pub updater: Upd,
    /// The live entity set, ascending.
    pub ents: Ents,
    /// The id counter. Managed by `new_ent`; contracts speak of it through
    /// [`State::counter`]. It only ever increases; deletion never rewinds
    /// it.
    pub current: EntId,
}

impl<Cs, Upd, D> State<Cs, Upd, D> where Cs: Comps, Upd: Updater<Cs, D> {
    /// The id counter: the number of ids issued so far, and the largest id
    /// ever issued.
    pub open spec fn counter(self) -> EntId {
        self.current
    }

    /// The id `new_ent` will return next.
    pub open spec fn next_id(self) -> int {
        self.counter() + 1
    }

    /// Every live id was issued (is positive and at most the counter), the
    /// live set is ascending, and the store is valid.
    pub open spec fn wf(self) -> bool {
        &&& self.ents.wf()
        &&& forall|i: int| 0 <= i < self.ents@.len() ==> 0 < #[trigger] self.ents@[i]
            <= self.counter()
        &&& self.comps.inv()
    }

    /// Creates a new empty `State` with the given components manager and
    /// updater.
    ///
    /// The new `State` contains no entities, and the first entity created
    /// will have id 1: id 0 is reserved and never issued.
    pub fn new(comps: Cs, updater: Upd) -> (s: State<Cs, Upd, D>)
        requires
            comps.inv(),
        ensures
            s.wf(),
            s.counter() == 0,
            s.ents@ == Seq::<EntId>::empty(),
            s.comps == comps,
            s.updater == updater,
    {
        State { _pd: PhantomData, comps, updater, ents: Ents::new(), current: 0 }
    }

    /// Creates a new unique entity and returns its id.
    ///
    /// Ids are not recycled: an entity created later always receives a
    /// larger id, even if earlier entities have been deleted, because the
    /// id is one more than the counter and the counter never decreases.
    pub fn new_ent(&mut self) -> (e: EntId)
        requires
            old(self).wf(),
            old(self).counter() < EntId::MAX,
        ensures
            final(self).wf(),
            e == old(self).next_id(),
            e != 0,
            final(self).counter() == e,
            final(self).ents@ == old(self).ents@.push(e),
            final(self).comps == old(self).comps,
            final(self).updater == old(self).updater,
            forall|i: int| 0 <= i < old(self).ents@.len() ==> old(self).ents@[i] < e,
    {
        self.current = self.current + 1;
        let e = self.current;
        proof {
            assert(forall|i: int|
                0 <= i < self.ents@.len() ==> #[trigger] self.ents@[i] < e);
        }
        self.ents.insert(e);
        e
    }

    /// Returns whether the entity `e` exists and is alive.
    pub fn is_alive(&mut self, e: EntId) -> (r: bool)
        requires
            old(self).wf(),
        ensures
            *final(self) == *old(self),
            r == old(self).ents@.contains(e),
    {
        self.ents.contains(e)
    }

    /// Removes the entity `e` and purges all of its components, across all
    /// registered types. The id stays invalid forever: it is never
    /// reissued, because the counter is left untouched.
    pub fn delete_ent(&mut self, e: EntId)
        requires
            old(self).wf(),
        ensures
            final(self).wf(),
            final(self).counter() == old(self).counter(),
            forall|x: EntId|
                final(self).ents@.contains(x) <==> (old(self).ents@.contains(x) && x != e),
            final(self).comps.model() == old(self).comps.model().purge_m(e),
            final(self).updater == old(self).updater,
    {
        self.ents.remove(e);
        self.comps.purge_ent(e);
        proof {
            assert forall|i: int| 0 <= i < self.ents@.len() implies 0 < #[trigger] self.ents@[i]
                <= self.counter() by {
                assert(self.ents@.contains(self.ents@[i]));
                let x = self.ents@[i];
                assert(old(self).ents@.contains(x));
                let k = choose|k: int|
                    0 <= k < old(self).ents@.len() && old(self).ents@[k] == x;
                assert(0 < old(self).ents@[k] <= old(self).counter());
            }
        }
    }

    /// Runs one tick: delegates to the updater, handing it the live entity
    /// set and the store, and passing `data` through untouched.
    pub fn update(&mut self, data: &D) -> (r: Result<(), StoreError>)
        requires
            old(self).wf(),
        ensures
            final(self).wf(),
            final(self).counter() == old(self).counter(),
            final(self).ents@ == old(self).ents@,
            Upd::effect(
                old(self).updater,
                final(self).updater,
                old(self).ents@,
                old(self).comps.model(),
                final(self).comps.model(),
                *data,
                r,
            ),
    {
        self.updater.update(&mut self.ents, &mut self.comps, data)
    }
}

/// Law: ids are monotone across creations. `new_ent` returns one more than
/// the counter, and the counter never decreases over the life of a state
/// (every operation's contract keeps or raises it), so an id issued while
/// the counter stood at `sa.counter()` is smaller than one issued at any
/// later state `sb`.
pub proof fn lemma_id_monotonic<Cs: Comps, Upd: Updater<Cs, D>, D>(
    sa: State<Cs, Upd, D>,
    sb: State<Cs, Upd, D>,
    a: EntId,
    b: int,
)
    requires
        a <= sa.counter(),
        sa.counter() <= sb.counter(),
        b == sb.next_id(),
    ensures
        a < b,
{
}

/// Law: ids are never reused. Any id ever issued — alive or deleted — is at
/// most the counter, deletion leaves the counter untouched, and `new_ent`
/// always returns one more than the counter, so a deleted id can never come
/// back from a later creation.
pub proof fn lemma_no_id_reuse<Cs: Comps, Upd: Updater<Cs, D>, D>(
    sd: State<Cs, Upd, D>,
    sl: State<Cs, Upd, D>,
    e: EntId,
    f: int,
)
    requires
        e <= sd.counter(),
        sd.counter() <= sl.counter(),
        f == sl.next_id(),
    ensures
        f != e,
{
}

} // verus!
