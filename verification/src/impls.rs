//! Implementations of the `Comps` and `Updater` traits: the basic store,
//! the chain combinator, the no-op updater, and the two update strategies.

pub mod basic;

use vstd::prelude::*;

use rayon::iter::{IntoParallelRefIterator, ParallelIterator};

use crate::ents::Ents;
use crate::model::{err_of, DiffModel, StoreError, StoreModel};
use crate::syst::{batches_of, concat_all, run_steps, MutSystem, System};
use crate::{clone_bytes, diff_models, Comps, Diff, EntId, TypeKey, Updater};

verus! {

/// A struct for chained invocation of updaters.
///
/// `Chain` unites two updaters into one that runs the first's full pass
/// over all entities and commits it, then the second's: the second system
/// always sees the first's fully committed effects, never a per-entity
/// interleaving. Because `Chain` itself implements [`Updater`], chains
/// nest into an ordered pipeline of arbitrarily many systems; the unit
/// updater `()` is the identity element.
pub struct Chain<A, B>(pub A, pub B);

impl<Cs: Comps, D, A: Updater<Cs, D>, B: Updater<Cs, D>> Updater<Cs, D> for Chain<A, B> {
    /// The first updater's full tick, then — only if it succeeded — the
    /// second's, starting from the store the first left behind.
    open spec fn effect(
        pre: Self,
        post: Self,
        ents: Seq<EntId>,
        m0: StoreModel,
        m1: StoreModel,
        data: D,
        r: Result<(), StoreError>,
    ) -> bool {
        ||| (exists|mid: StoreModel, ra: Result<(), StoreError>|
            ra is Ok && #[trigger] A::effect(pre.0, post.0, ents, m0, mid, data, ra)
                && B::effect(pre.1, post.1, ents, mid, m1, data, r))
        ||| (r is Err && A::effect(pre.0, post.0, ents, m0, m1, data, r) && post.1 == pre.1)
    }

    fn update(&mut self, ents: &mut Ents, comps: &mut Cs, data: &D) -> (r: Result<
        (),
        StoreError,
    >) {
        let ghost s0 = *self;
        let ghost c0 = *comps;
        let ghost ev0 = ents@;
        let r0 = self.0.update(ents, comps, data);
        let ghost mid = comps.model();
        let ghost a_post = self.0;
        proof {
            assert(A::effect(s0.0, a_post, ev0, c0.model(), mid, *data, r0));
        }
        match r0 {
            Ok(()) => {
                let r1 = self.1.update(ents, comps, data);
                proof {
                    let b_post = self.1;
                    let m1v = comps.model();
                    assert(B::effect(s0.1, b_post, ev0, mid, m1v, *data, r1));
                    assert(Self::effect(s0, Chain(a_post, b_post), ev0, c0.model(), m1v, *data, r1))
                        by {
                        assert(r0 is Ok);
                        assert(A::effect(
                            s0.0,
                            Chain(a_post, b_post).0,
                            ev0,
                            c0.model(),
                            mid,
                            *data,
                            r0,
                        ));
                        assert(B::effect(
                            s0.1,
                            Chain(a_post, b_post).1,
                            ev0,
                            mid,
                            m1v,
                            *data,
                            r1,
                        ));
                    }
                }
                r1
            },
            Err(err) => {
                proof {
                    assert(Self::effect(
                        s0,
                        Chain(a_post, s0.1),
                        ev0,
                        c0.model(),
                        mid,
                        *data,
                        Err::<(), StoreError>(err),
                    ));
                }
                Err(err)
            },
        }
    }
}

impl<Cs: Comps, D> Updater<Cs, D> for () {
    /// No mutation, always succeeds: the identity element for chaining.
    open spec fn effect(
        pre: Self,
        post: Self,
        ents: Seq<EntId>,
        m0: StoreModel,
        m1: StoreModel,
        data: D,
        r: Result<(), StoreError>,
    ) -> bool {
        m1 == m0 && r is Ok
    }

    fn update(&mut self, ents: &mut Ents, comps: &mut Cs, data: &D) -> (r: Result<
        (),
        StoreError,
    >) {
        Ok(())
    }
}

/// Relies on rayon's parallel map over a slice collected into a `Vec`
/// (`par_iter().map(..).collect()`): the collected vector holds, in the
/// order of the source slice, exactly the closure's result for each
/// element. The closure only calls the verified `System::process`, whose
/// contract gives each element's value; the workers share read-only access
/// to the store, the registry and the tick data.
#[verifier::external_body]
fn par_map_diffs<Cs, D, S>(sys: &S, ents: &Ents, comps: &Cs, data: &D) -> (r: Vec<Vec<Cs::Diff>>)
    where
        Cs: Comps + Sync,
        D: Sync,
        S: System<Cs, D> + Sync,
        Cs::Diff: Send,
    requires
        comps.inv(),
        ents.wf(),
    ensures
        r@.len() == ents@.len(),
        forall|i: int|
            0 <= i < r@.len() ==> diff_models::<Cs, Cs::Diff>((#[trigger] r@[i])@)
                == sys.diffs_of(ents@[i], ents@, comps.model(), *data),
{
    ents.ids().par_iter().map(|e| sys.process(*e, ents, comps, data)).collect()
}

/// The diff-collecting update strategy.
///
/// The read phase maps the system over all live entities — fanned out
/// across worker threads, each holding only read access — collecting one
/// diff batch per entity, every batch computed against the one immutable
/// view of the store. The commit phase is single-threaded: it runs after
/// all workers have finished and replays the concatenated batches in
/// ascending entity order, each batch in production order, so the result
/// is reproducible however many workers ran the read phase.
pub struct DiffUpdater<S> {
    /// The per-entity read-phase logic.
    pub sys: S,
}

impl<Cs, D, S> Updater<Cs, D> for DiffUpdater<S> where
    Cs: Comps + Sync,
    D: Sync,
    S: System<Cs, D> + Sync,
    Cs::Diff: Send,
 {
    /// One collect-then-commit pass: the store moves to the replay of all
    /// per-entity batches, computed against the starting store.
    open spec fn effect(
        pre: Self,
        post: Self,
        ents: Seq<EntId>,
        m0: StoreModel,
        m1: StoreModel,
        data: D,
        r: Result<(), StoreError>,
    ) -> bool {
        post == pre && ({
            let run = m0.run_diffs(concat_all(batches_of(pre.sys, ents, m0, data)));
            m1 == run.0 && err_of(r) == run.1
        })
    }

    fn update(&mut self, ents: &mut Ents, comps: &mut Cs, data: &D) -> (r: Result<
        (),
        StoreError,
    >) {
        let ghost m0 = comps.model();
        let ghost bs = batches_of(self.sys, ents@, m0, *data);
        let mut per_ent = par_map_diffs(&self.sys, ents, comps, data);
        let mut all: Vec<Cs::Diff> = Vec::new();
        let n = per_ent.len();
        proof {
            assert(bs.skip(0) =~= bs);
            assert(diff_models::<Cs, Cs::Diff>(all@) + concat_all(bs.skip(0)) =~= concat_all(
                bs,
            ));
        }
        let mut i: usize = 0;
        while i < n
            invariant
                n == per_ent@.len(),
                n == bs.len(),
                i <= n,
                *self == *old(self),
                *comps == *old(comps),
                ents@ == old(ents)@,
                m0 == comps.model(),
                bs == batches_of(self.sys, ents@, m0, *data),
                forall|k: int|
                    i <= k < n ==> diff_models::<Cs, Cs::Diff>((#[trigger] per_ent@[k])@)
                        == bs[k],
                concat_all(bs) == diff_models::<Cs, Cs::Diff>(all@) + concat_all(
                    bs.skip(i as int),
                ),
            decreases n - i,
        {
            let ghost all0 = all@;
            let ghost batch = per_ent@[i as int]@;
            all.append(&mut per_ent[i]);
            proof {
                assert(all@ == all0 + batch);
                assert(diff_models::<Cs, Cs::Diff>(all@) =~= diff_models::<Cs, Cs::Diff>(all0)
                    + diff_models::<Cs, Cs::Diff>(batch));
                assert(bs.skip(i as int)[0] == bs[i as int]);
                assert(bs.skip(i as int).drop_first() =~= bs.skip(i as int + 1));
                assert(concat_all(bs.skip(i as int)) == bs[i as int] + concat_all(
                    bs.skip(i as int + 1),
                ));
                assert(diff_models::<Cs, Cs::Diff>(all@) + concat_all(bs.skip(i as int + 1))
                    =~= (diff_models::<Cs, Cs::Diff>(all0) + bs[i as int]) + concat_all(
                    bs.skip(i as int + 1),
                ));
                assert((diff_models::<Cs, Cs::Diff>(all0) + bs[i as int]) + concat_all(
                    bs.skip(i as int + 1),
                ) =~= diff_models::<Cs, Cs::Diff>(all0) + (bs[i as int] + concat_all(
                    bs.skip(i as int + 1),
                )));
            }
            i += 1;
        }
        proof {
            assert(bs.skip(n as int) =~= Seq::<Seq<DiffModel>>::empty());
            assert(concat_all(bs.skip(n as int)) == Seq::<DiffModel>::empty());
            assert(diff_models::<Cs, Cs::Diff>(all@) + Seq::<DiffModel>::empty() =~= diff_models::<
                Cs,
                Cs::Diff,
            >(all@));
            assert(diff_models::<Cs, Cs::Diff>(all@) == concat_all(bs));
        }
        comps.commit(all)
    }
}

/// The in-place update strategy.
///
/// A single thread walks the live entities in ascending id order, handing
/// the system direct mutable access to the store; it stops at the first
/// caller error. Fully deterministic, with no suspension points.
pub struct InPlaceUpdater<M> {
    /// The per-entity mutating logic.
    pub sys: M,
}

impl<Cs: Comps, D, M: MutSystem<Cs, D>> Updater<Cs, D> for InPlaceUpdater<M> {
    /// One sequential pass: the store moves through the system's step,
    /// entity by entity, each step seeing the previous steps' effects.
    open spec fn effect(
        pre: Self,
        post: Self,
        ents: Seq<EntId>,
        m0: StoreModel,
        m1: StoreModel,
        data: D,
        r: Result<(), StoreError>,
    ) -> bool {
        post == pre && ({
            let run = run_steps(pre.sys, ents, m0, data);
            m1 == run.0 && err_of(r) == run.1
        })
    }

    fn update(&mut self, ents: &mut Ents, comps: &mut Cs, data: &D) -> (r: Result<
        (),
        StoreError,
    >) {
        let ghost m0 = comps.model();
        let n = ents.len();
        proof {
            assert(ents@.skip(0) =~= ents@);
        }
        let mut i: usize = 0;
        while i < n
            invariant
                n == ents@.len(),
                i <= n,
                *self == *old(self),
                ents@ == old(ents)@,
                comps.inv(),
                m0 == old(comps).model(),
                run_steps(self.sys, ents@, m0, *data) == run_steps(
                    self.sys,
                    ents@.skip(i as int),
                    comps.model(),
                    *data,
                ),
            decreases n - i,
        {
            let e = ents.at(i);
            proof {
                assert(ents@.skip(i as int)[0] == ents@[i as int]);
                assert(ents@.skip(i as int).drop_first() =~= ents@.skip(i as int + 1));
            }
            let sr = self.sys.run(e, comps, data);
            match sr {
                Ok(()) => {
                    i += 1;
                },
                Err(err) => {
                    return Err(err);
                },
            }
        }
        proof {
            assert(ents@.skip(n as int) =~= Seq::<EntId>::empty());
        }
        Ok(())
    }
}

/// A system that appends one fixed record under one type key to every
/// entity. Usable in both styles: as a [`System`] it emits one insert
/// diff per entity; as a [`MutSystem`] it inserts directly.
pub struct PushSystem {
    /// The type key the record is appended under.
    pub t: TypeKey,
    /// The record to append.
    pub rec: Vec<u8>,
}

impl<Cs: Comps, D> System<Cs, D> for PushSystem {
    open spec fn diffs_of(self, e: EntId, ents: Seq<EntId>, m: StoreModel, data: D) -> Seq<
        DiffModel,
    > {
        seq![DiffModel::Insert { t: self.t, e, rec: self.rec@ }]
    }

    fn process(&self, e: EntId, ents: &Ents, comps: &Cs, data: &D) -> (r: Vec<Cs::Diff>) {
        let mut v: Vec<Cs::Diff> = Vec::new();
        v.push(Cs::Diff::insert(comps, self.t, e, clone_bytes(&self.rec)));
        proof {
            assert(diff_models::<Cs, Cs::Diff>(v@) =~= seq![
                DiffModel::Insert { t: self.t, e, rec: self.rec@ },
            ]);
        }
        v
    }
}

impl<Cs: Comps, D> MutSystem<Cs, D> for PushSystem {
    open spec fn step(self, e: EntId, m: StoreModel, data: D) -> (StoreModel, Option<
        StoreError,
    >) {
        match m.apply_diff(DiffModel::Insert { t: self.t, e, rec: self.rec@ }) {
            Ok(m2) => (m2, None),
            Err(err) => (m, Some(err)),
        }
    }

    fn run(&self, e: EntId, comps: &mut Cs, data: &D) -> (r: Result<(), StoreError>) {
        match comps.insert(self.t, e, clone_bytes(&self.rec)) {
            Ok(_) => Ok(()),
            Err(err) => Err(err),
        }
    }
}

/// A system that copies the first record an entity holds under one type
/// key into a fresh record appended under another; entities holding none
/// are skipped.
pub struct CopySystem {
    /// The type key read from.
    pub from: TypeKey,
    /// The type key the copy is appended under.
    pub to: TypeKey,
}

impl<Cs: Comps, D> System<Cs, D> for CopySystem {
    open spec fn diffs_of(self, e: EntId, ents: Seq<EntId>, m: StoreModel, data: D) -> Seq<
        DiffModel,
    > {
        if m.recs(self.from, e).len() > 0 {
            seq![DiffModel::Insert { t: self.to, e, rec: m.recs(self.from, e)[0] }]
        } else {
            Seq::empty()
        }
    }

    fn process(&self, e: EntId, ents: &Ents, comps: &Cs, data: &D) -> (r: Vec<Cs::Diff>) {
        let mut v: Vec<Cs::Diff> = Vec::new();
        match comps.get_first(self.from, e) {
            Ok(Some(rec)) => {
                let copy = clone_bytes(rec);
                v.push(Cs::Diff::insert(comps, self.to, e, copy));
                proof {
                    assert(diff_models::<Cs, Cs::Diff>(v@) =~= seq![
                        DiffModel::Insert {
                            t: self.to,
                            e,
                            rec: comps.model().recs(self.from, e)[0],
                        },
                    ]);
                }
            },
            Ok(None) => {
                proof {
                    assert(diff_models::<Cs, Cs::Diff>(v@) =~= Seq::<DiffModel>::empty());
                }
            },
            Err(_) => {
                proof {
                    comps.lemma_inv_model_wf();
                    assert(!comps.model().registered(self.from));
                    assert(comps.model().recs(self.from, e).len() == 0) by {
                        if comps.model().rows.dom().contains((self.from, e)) {
                            assert(comps.model().registered(self.from));
                        }
                    }
                    assert(diff_models::<Cs, Cs::Diff>(v@) =~= Seq::<DiffModel>::empty());
                }
            },
        }
        v
    }
}


/// Law: the unit updater is the identity element of chaining. A tick of
/// `Chain(a, ())` admits exactly the outcomes of a tick of `a` alone: the
/// store moves as `a` moves it and the tick's result is `a`'s, whether it
/// succeeded or failed.
pub proof fn lemma_chain_unit_identity<Cs: Comps, D, A: Updater<Cs, D>>(
    pre: Chain<A, ()>,
    post: Chain<A, ()>,
    ents: Seq<EntId>,
    m0: StoreModel,
    m1: StoreModel,
    data: D,
    r: Result<(), StoreError>,
)
    ensures
        A::effect(pre.0, post.0, ents, m0, m1, data, r) <==> <Chain<A, ()> as Updater<
            Cs,
            D,
        >>::effect(pre, post, ents, m0, m1, data, r),
{
    if A::effect(pre.0, post.0, ents, m0, m1, data, r) && r is Ok {
        assert(<() as Updater<Cs, D>>::effect(pre.1, post.1, ents, m1, m1, data, r));
    }
    if <Chain<A, ()> as Updater<Cs, D>>::effect(pre, post, ents, m0, m1, data, r) && !(r
        is Err) {
        let (mid, ra): (StoreModel, Result<(), StoreError>) = choose|
            mid: StoreModel,
            ra: Result<(), StoreError>,
        |
            ra is Ok && #[trigger] A::effect(pre.0, post.0, ents, m0, mid, data, ra) && <() as Updater<
                Cs,
                D,
            >>::effect(pre.1, post.1, ents, mid, m1, data, r);
        assert(mid == m1);
        assert(ra == Ok::<(), StoreError>(())) by {
            assert(ra->Ok_0 == ());
        }
        assert(r == Ok::<(), StoreError>(())) by {
            assert(r->Ok_0 == ());
        }
        assert(A::effect(pre.0, post.0, ents, m0, m1, data, r));
    }
}


/// `PushSystem` qualifies for the diff/commit equivalence law: it reads
/// nothing from the store, every diff it produces targets its own entity,
/// and its in-place step applies exactly its own diff.
pub proof fn lemma_push_system_qualifies<Cs: Comps, D>(sys: PushSystem, ents: Seq<EntId>, data: D)
    ensures
        crate::syst::local_reads::<Cs, D, PushSystem>(sys, ents, data),
        crate::syst::writes_own::<Cs, D, PushSystem>(sys, ents, data),
        crate::syst::step_matches_diffs::<Cs, D, PushSystem, PushSystem>(sys, sys, ents, data),
{
    assert forall|e: EntId, m: StoreModel| #[trigger]
        MutSystem::<Cs, D>::step(sys, e, m, data) == m.run_diffs(
        System::<Cs, D>::diffs_of(sys, e, ents, m, data),
    ) by {
        let d = DiffModel::Insert { t: sys.t, e, rec: sys.rec@ };
        let ds = System::<Cs, D>::diffs_of(sys, e, ents, m, data);
        assert(ds == seq![d]);
        assert(ds.drop_first() =~= Seq::<DiffModel>::empty());
        match m.apply_diff(d) {
            Ok(m2) => {
                assert(m.run_diffs(ds) == m2.run_diffs(ds.drop_first()));
                assert(m2.run_diffs(Seq::<DiffModel>::empty()) == (m2, None::<StoreError>));
            },
            Err(err) => {
                assert(m.run_diffs(ds) == (m, Some(err)));
            },
        }
    }
}


/// `CopySystem` also qualifies for the equivalence law's read side: what
/// it reads — the source records of the entity it is processing — is part
/// of that entity's own state, and its one diff targets that entity.
pub proof fn lemma_copy_system_qualifies<Cs: Comps, D>(sys: CopySystem, ents: Seq<EntId>, data: D)
    ensures
        crate::syst::local_reads::<Cs, D, CopySystem>(sys, ents, data),
        crate::syst::writes_own::<Cs, D, CopySystem>(sys, ents, data),
{
    assert forall|e: EntId, m1: StoreModel, m2: StoreModel|
        (m1.sizes == m2.sizes && forall|t: TypeKey| m1.recs(t, e) == m2.recs(t, e)) implies #[trigger] System::<
        Cs,
        D,
    >::diffs_of(sys, e, ents, m1, data) == #[trigger] System::<Cs, D>::diffs_of(
        sys,
        e,
        ents,
        m2,
        data,
    ) by {
        assert(m1.recs(sys.from, e) == m2.recs(sys.from, e));
    }
}

} // verus!
