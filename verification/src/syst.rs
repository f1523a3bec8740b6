//! System capability traits, and the law tying the two update styles
//! together.
//!
//! A system is caller-supplied per-entity transformation logic. It comes in
//! two shapes: [`System`], whose read phase only observes the store and
//! describes its mutations as diffs, and [`MutSystem`], which mutates the
//! store directly. For a system whose reads and writes stay on its own
//! entity, the two styles agree: see [`lemma_diff_commit_equivalence`].

use vstd::prelude::*;

use crate::ents::Ents;
use crate::model::{
    lemma_run_diffs_append, lemma_run_diffs_frame, DiffModel, StoreError, StoreModel,
};
use crate::{diff_models, Comps, EntId, TypeKey};

verus! {

/// The concatenation of per-entity diff batches, in entity order with each
/// batch's own order preserved.
pub open spec fn concat_all(ss: Seq<Seq<DiffModel>>) -> Seq<DiffModel>
    decreases ss.len(),
{
    if ss.len() <= 0 {
        Seq::empty()
    } else {
        ss[0] + concat_all(ss.drop_first())
    }
}

/// A system in the diff-collecting style: read-only logic that, per
/// entity, describes the mutations it would make.
pub trait System<Cs: Comps, D>: Sized {
    /// The diffs this system produces for entity `e`, given the live
    /// entities, one immutable store model and the tick data. The default
    /// — no diffs — is what an implementor that does not override it must
    /// then prove its `process` to return.
    open spec fn diffs_of(self, e: EntId, ents: Seq<EntId>, m: StoreModel, data: D) -> Seq<
        DiffModel,
    > {
        Seq::empty()
    }

    /// Computes the entity's diff batch. The store is only observed.
    fn process(&self, e: EntId, ents: &Ents, comps: &Cs, data: &D) -> (r: Vec<Cs::Diff>)
        requires
            comps.inv(),
            ents.wf(),
        ensures
            diff_models::<Cs, Cs::Diff>(r@) == self.diffs_of(e, ents@, comps.model(), *data),
    ;
}

/// A system in the in-place style: per-entity logic with direct mutable
/// access to the store.
pub trait MutSystem<Cs: Comps, D>: Sized {
    /// One step on entity `e`: the store model after the step, and the
    /// caller error that stopped it, if any. The default — leave the store
    /// alone and succeed — is what an implementor that does not override
    /// it must then prove its `run` to do.
    open spec fn step(self, e: EntId, m: StoreModel, data: D) -> (StoreModel, Option<StoreError>) {
        (m, None)
    }

    /// Runs the step on the live store.
    fn run(&self, e: EntId, comps: &mut Cs, data: &D) -> (r: Result<(), StoreError>)
        requires
            old(comps).inv(),
        ensures
            final(comps).inv(),
            (final(comps).model(), crate::model::err_of(r)) == self.step(
                e,
                old(comps).model(),
                *data,
            ),
    ;
}

/// The per-entity diff batches a system produces over `ents`, every batch
/// computed against the one store model `m0`.
pub open spec fn batches_of<Cs: Comps, D, S: System<Cs, D>>(
    sys: S,
    ents: Seq<EntId>,
    m0: StoreModel,
    data: D,
) -> Seq<Seq<DiffModel>> {
    Seq::new(ents.len(), |i: int| sys.diffs_of(ents[i], ents, m0, data))
}

/// Runs a mutable system over `todo` in order, stopping at the first
/// error: the final store model, and the error if one was raised.
pub open spec fn run_steps<Cs: Comps, D, M: MutSystem<Cs, D>>(
    sys: M,
    todo: Seq<EntId>,
    m: StoreModel,
    data: D,
) -> (StoreModel, Option<StoreError>)
    decreases todo.len(),
{
    if todo.len() <= 0 {
        (m, None)
    } else {
        let s = sys.step(todo[0], m, data);
        if s.1 is Some {
            s
        } else {
            run_steps(sys, todo.drop_first(), s.0, data)
        }
    }
}

/// The sequential, in-place replay of a diff-producing system: entity by
/// entity, the diffs are computed against the current store and applied at
/// once, stopping at the first caller error.
pub open spec fn run_inplace<Cs: Comps, D, S: System<Cs, D>>(
    sys: S,
    todo: Seq<EntId>,
    ents: Seq<EntId>,
    m: StoreModel,
    data: D,
) -> (StoreModel, Option<StoreError>)
    decreases todo.len(),
{
    if todo.len() <= 0 {
        (m, None)
    } else {
        let r = m.run_diffs(sys.diffs_of(todo[0], ents, m, data));
        if r.1 is Some {
            r
        } else {
            run_inplace(sys, todo.drop_first(), ents, r.0, data)
        }
    }
}

/// The system's read phase looks only at its own entity: its diffs depend
/// on the store only through the registered sizes and that entity's own
/// records.
pub open spec fn local_reads<Cs: Comps, D, S: System<Cs, D>>(
    sys: S,
    ents: Seq<EntId>,
    data: D,
) -> bool {
    forall|e: EntId, m1: StoreModel, m2: StoreModel|
        (m1.sizes == m2.sizes && forall|t: TypeKey| m1.recs(t, e) == m2.recs(t, e))
            ==> #[trigger] sys.diffs_of(e, ents, m1, data) == #[trigger] sys.diffs_of(
            e,
            ents,
            m2,
            data,
        )
}

/// Every diff the system produces targets the entity it was produced for.
pub open spec fn writes_own<Cs: Comps, D, S: System<Cs, D>>(
    sys: S,
    ents: Seq<EntId>,
    data: D,
) -> bool {
    forall|e: EntId, m: StoreModel, j: int|
        0 <= j < sys.diffs_of(e, ents, m, data).len() ==> (#[trigger] sys.diffs_of(
            e,
            ents,
            m,
            data,
        )[j]).target() == e
}

proof fn lemma_equiv_rec<Cs: Comps, D, S: System<Cs, D>>(
    sys: S,
    todo: Seq<EntId>,
    ents: Seq<EntId>,
    m: StoreModel,
    data: D,
)
    requires
        local_reads(sys, ents, data),
        writes_own(sys, ents, data),
        forall|i: int, j: int| 0 <= i < j < todo.len() ==> todo[i] != todo[j],
    ensures
        m.run_diffs(concat_all(Seq::new(todo.len(), |i: int| sys.diffs_of(todo[i], ents, m, data))))
            == run_inplace(sys, todo, ents, m, data),
    decreases todo.len(),
{
    let batches = Seq::new(todo.len(), |i: int| sys.diffs_of(todo[i], ents, m, data));
    if todo.len() == 0 {
        assert(concat_all(batches) == Seq::<DiffModel>::empty());
    } else {
        let e0 = todo[0];
        let a = sys.diffs_of(e0, ents, m, data);
        let rest = todo.drop_first();
        assert(batches[0] == a);
        assert(batches.drop_first() =~= Seq::new(
            rest.len(),
            |i: int| sys.diffs_of(rest[i], ents, m, data),
        ));
        lemma_run_diffs_append(m, a, concat_all(batches.drop_first()));
        let ra = m.run_diffs(a);
        if ra.1 is Some {
        } else {
            let m1 = ra.0;
            assert forall|j: int| 0 <= j < a.len() implies (#[trigger] a[j]).target() == e0 by {
                assert(sys.diffs_of(e0, ents, m, data)[j].target() == e0);
            }
            lemma_run_diffs_frame(m, a, e0);
            let batches_rest_m = Seq::new(
                rest.len(),
                |i: int| sys.diffs_of(rest[i], ents, m, data),
            );
            let batches_rest_m1 = Seq::new(
                rest.len(),
                |i: int| sys.diffs_of(rest[i], ents, m1, data),
            );
            assert forall|i: int| 0 <= i < rest.len() implies batches_rest_m[i]
                == batches_rest_m1[i] by {
                let e = rest[i];
                assert(e == todo[i + 1]);
                assert(e != e0);
                assert(m1.sizes == m.sizes);
                assert(forall|t: TypeKey| m1.recs(t, e) == m.recs(t, e));
                assert(sys.diffs_of(e, ents, m, data) == sys.diffs_of(e, ents, m1, data));
            }
            assert(batches_rest_m =~= batches_rest_m1);
            assert forall|i: int, j: int| 0 <= i < j < rest.len() implies rest[i] != rest[j] by {
                assert(todo[i + 1] != todo[j + 1]);
            }
            lemma_equiv_rec(sys, rest, ents, m1, data);
        }
    }
}

/// Law: diff/commit equivalence. For a system whose read phase observes
/// only its own entity and whose diffs target only that entity, running it
/// in place — entity by entity, each seeing the previous entities'
/// mutations — and running it diff-collecting — every batch computed
/// against the one initial view, then committed in entity order — produce
/// the same final store, and stop on the same error if one is raised.
pub proof fn lemma_diff_commit_equivalence<Cs: Comps, D, S: System<Cs, D>>(
    sys: S,
    ents: Seq<EntId>,
    m0: StoreModel,
    data: D,
)
    requires
        local_reads(sys, ents, data),
        writes_own(sys, ents, data),
        forall|i: int, j: int| 0 <= i < j < ents.len() ==> ents[i] != ents[j],
    ensures
        m0.run_diffs(concat_all(batches_of(sys, ents, m0, data))) == run_inplace(
            sys,
            ents,
            ents,
            m0,
            data,
        ),
{
    lemma_equiv_rec(sys, ents, ents, m0, data);
}

/// A manager of systems: an alternative updater shape that fixes its
/// component-manager type and updates the world state from the store and
/// tick data alone.
pub trait Systs: Sized {
    /// Data to send with the update method.
    type UpdateData;

    /// The component manager this manager of systems drives.
    type Comps: Comps;

    /// The transition relation of one update.
    spec fn effect(
        pre: Self,
        post: Self,
        m0: StoreModel,
        m1: StoreModel,
        data: Self::UpdateData,
        r: Result<(), StoreError>,
    ) -> bool;

    /// Updates the world state.
    fn update(&mut self, comps: &mut Self::Comps, data: &Self::UpdateData) -> (r: Result<
        (),
        StoreError,
    >)
        requires
            old(comps).inv(),
        ensures
            final(comps).inv(),
            Self::effect(
                *old(self),
                *final(self),
                old(comps).model(),
                final(comps).model(),
                *data,
                r,
            ),
    ;
}

impl Systs for () {
    type UpdateData = ();

    type Comps = crate::impls::basic::BasicComps;

    /// No mutation, always succeeds.
    open spec fn effect(
        pre: Self,
        post: Self,
        m0: StoreModel,
        m1: StoreModel,
        data: (),
        r: Result<(), StoreError>,
    ) -> bool {
        m1 == m0 && r is Ok
    }

    fn update(&mut self, comps: &mut Self::Comps, data: &()) -> (r: Result<(), StoreError>) {
        Ok(())
    }
}



/// A mutable system matches a diff-producing system when each of its
/// steps leaves exactly the store that replaying the other's diffs —
/// computed against the same current store — would leave, and fails
/// exactly when that replay fails.
pub open spec fn step_matches_diffs<Cs: Comps, D, M: MutSystem<Cs, D>, S: System<Cs, D>>(
    msys: M,
    sys: S,
    ents: Seq<EntId>,
    data: D,
) -> bool {
    forall|e: EntId, m: StoreModel| #[trigger]
        msys.step(e, m, data) == m.run_diffs(sys.diffs_of(e, ents, m, data))
}

/// Matching systems replay identically entity by entity: the in-place run
/// of the mutable system is the in-place run of the diff-producing one.
pub proof fn lemma_run_steps_matches_inplace<Cs: Comps, D, M: MutSystem<Cs, D>, S: System<Cs, D>>(
    msys: M,
    sys: S,
    todo: Seq<EntId>,
    ents: Seq<EntId>,
    m: StoreModel,
    data: D,
)
    requires
        step_matches_diffs(msys, sys, ents, data),
    ensures
        run_steps(msys, todo, m, data) == run_inplace(sys, todo, ents, m, data),
    decreases todo.len(),
{
    if todo.len() > 0 {
        let s = msys.step(todo[0], m, data);
        if s.1 is None {
            lemma_run_steps_matches_inplace(msys, sys, todo.drop_first(), ents, s.0, data);
        }
    }
}

/// Law: diff/commit equivalence at the strategy level. For a system
/// expressible in both styles — an in-place step that matches the diff
/// producer — whose reads and writes stay on its own entity, one in-place
/// pass over distinct entities and one collect-then-commit pass from the
/// same store end in the same store, with the same outcome.
pub proof fn lemma_strategy_equivalence<Cs: Comps, D, M: MutSystem<Cs, D>, S: System<Cs, D>>(
    msys: M,
    sys: S,
    ents: Seq<EntId>,
    m0: StoreModel,
    data: D,
)
    requires
        step_matches_diffs(msys, sys, ents, data),
        local_reads(sys, ents, data),
        writes_own(sys, ents, data),
        forall|i: int, j: int| 0 <= i < j < ents.len() ==> ents[i] != ents[j],
    ensures
        run_steps(msys, ents, m0, data) == m0.run_diffs(
            concat_all(batches_of(sys, ents, m0, data)),
        ),
{
    lemma_run_steps_matches_inplace(msys, sys, ents, ents, m0, data);
    lemma_diff_commit_equivalence(sys, ents, m0, data);
}

} // verus!
