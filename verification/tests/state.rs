//! Entity lifecycle, ticks, chaining, and the two update strategies.

use zircon::impls::basic::{BasicComps, BasicCompsDiff};
use zircon::impls::{Chain, CopySystem, DiffUpdater, InPlaceUpdater, PushSystem};
use zircon::model::StoreError;
use zircon::{Comps, Diff, State};

const POS: u64 = 1;
const AUX: u64 = 2;

#[test]
fn ids_are_monotonic_and_start_at_one() {
    let mut s: State<BasicComps, (), ()> = State::new(BasicComps::new(), ());
    let e1 = s.new_ent();
    let e2 = s.new_ent();
    let e3 = s.new_ent();
    assert_eq!(e1, 1);
    assert_eq!(e2, 2);
    assert_eq!(e3, 3);
    assert!(e1 < e2 && e2 < e3);
    assert!(s.is_alive(e1) && s.is_alive(e2) && s.is_alive(e3));
    assert!(!s.is_alive(0));
    assert!(!s.is_alive(4));
}

#[test]
fn deleted_ids_are_never_reissued() {
    let mut s: State<BasicComps, (), ()> = State::new(BasicComps::new(), ());
    let e1 = s.new_ent();
    let e2 = s.new_ent();
    s.delete_ent(e2);
    assert!(!s.is_alive(e2));
    let e3 = s.new_ent();
    assert_ne!(e3, e2);
    assert!(e3 > e2);
    s.delete_ent(e1);
    let e4 = s.new_ent();
    assert_ne!(e4, e1);
    assert_ne!(e4, e2);
    assert!(e4 > e3);
}

#[test]
fn delete_ent_purges_all_components() {
    let mut s: State<BasicComps, (), ()> = State::new(BasicComps::new(), ());
    s.comps.register_comp_dyn(POS, 1).unwrap();
    s.comps.register_comp_dyn(AUX, 1).unwrap();
    let e1 = s.new_ent();
    let e2 = s.new_ent();
    s.comps.insert_dyn(POS, e1, vec![1]).unwrap();
    s.comps.insert_dyn(AUX, e1, vec![2]).unwrap();
    s.comps.insert_dyn(POS, e2, vec![3]).unwrap();
    s.delete_ent(e1);
    assert_eq!(s.comps.len_dyn(POS, e1), 0);
    assert_eq!(s.comps.len_dyn(AUX, e1), 0);
    assert_eq!(s.comps.len_dyn(POS, e2), 1);
}

#[test]
fn noop_update_changes_nothing() {
    let mut s: State<BasicComps, (), u32> = State::new(BasicComps::new(), ());
    s.comps.register_comp_dyn(POS, 1).unwrap();
    let e1 = s.new_ent();
    s.comps.insert_dyn(POS, e1, vec![5]).unwrap();
    let before = s.comps.clone();
    assert_eq!(s.update(&77), Ok(()));
    assert_eq!(s.comps, before);
}

#[test]
fn diff_updater_pushes_one_record_per_entity() {
    let upd = DiffUpdater { sys: PushSystem { t: POS, rec: vec![42] } };
    let mut s: State<BasicComps, _, ()> = State::new(BasicComps::new(), upd);
    s.comps.register_comp_dyn(POS, 1).unwrap();
    let e1 = s.new_ent();
    let e2 = s.new_ent();
    let e3 = s.new_ent();
    assert_eq!(s.update(&()), Ok(()));
    for e in [e1, e2, e3] {
        assert_eq!(s.comps.len_dyn(POS, e), 1);
        assert_eq!(s.comps.get_dyn(POS, e, 0).unwrap(), Some(&vec![42]));
    }
    assert_eq!(s.update(&()), Ok(()));
    for e in [e1, e2, e3] {
        assert_eq!(s.comps.len_dyn(POS, e), 2);
    }
}

#[test]
fn tick_error_propagates_out() {
    // The system inserts under a type key nobody registered: the tick must
    // surface the caller error instead of swallowing it.
    let upd = DiffUpdater { sys: PushSystem { t: AUX, rec: vec![1] } };
    let mut s: State<BasicComps, _, ()> = State::new(BasicComps::new(), upd);
    s.new_ent();
    assert_eq!(s.update(&()), Err(StoreError::Unregistered));
}

#[test]
fn inplace_and_diff_collect_agree() {
    // The same per-entity logic, run once in the in-place style and once
    // through collect-then-commit, must leave byte-identical stores.
    let mut base = BasicComps::new();
    base.register_comp_dyn(POS, 1).unwrap();

    let upd_a = InPlaceUpdater { sys: PushSystem { t: POS, rec: vec![9] } };
    let mut sa: State<BasicComps, _, ()> = State::new(base.clone(), upd_a);
    let a1 = sa.new_ent();
    let a2 = sa.new_ent();
    sa.comps.insert_dyn(POS, a1, vec![3]).unwrap();
    assert_eq!(sa.update(&()), Ok(()));

    let upd_b = DiffUpdater { sys: PushSystem { t: POS, rec: vec![9] } };
    let mut sb: State<BasicComps, _, ()> = State::new(base, upd_b);
    let b1 = sb.new_ent();
    let b2 = sb.new_ent();
    sb.comps.insert_dyn(POS, b1, vec![3]).unwrap();
    assert_eq!(sb.update(&()), Ok(()));

    assert_eq!((a1, a2), (b1, b2));
    assert_eq!(sa.comps, sb.comps);
}

#[test]
fn chain_runs_first_pass_fully_before_second() {
    // A inserts a POS record; B copies POS into AUX. Under a chain, B must
    // see A's committed insert for every entity, so every entity ends the
    // tick with an AUX copy — including the record A created this tick.
    let upd = Chain(
        DiffUpdater { sys: PushSystem { t: POS, rec: vec![7] } },
        DiffUpdater { sys: CopySystem { from: POS, to: AUX } },
    );
    let mut s: State<BasicComps, _, ()> = State::new(BasicComps::new(), upd);
    s.comps.register_comp_dyn(POS, 1).unwrap();
    s.comps.register_comp_dyn(AUX, 1).unwrap();
    let e1 = s.new_ent();
    let e2 = s.new_ent();
    assert_eq!(s.update(&()), Ok(()));
    for e in [e1, e2] {
        assert_eq!(s.comps.get_dyn(POS, e, 0).unwrap(), Some(&vec![7]));
        assert_eq!(s.comps.get_dyn(AUX, e, 0).unwrap(), Some(&vec![7]));
    }
}

#[test]
fn chain_with_noop_is_identity() {
    let upd = Chain(DiffUpdater { sys: PushSystem { t: POS, rec: vec![1] } }, ());
    let mut s: State<BasicComps, _, ()> = State::new(BasicComps::new(), upd);
    s.comps.register_comp_dyn(POS, 1).unwrap();
    let e1 = s.new_ent();
    assert_eq!(s.update(&()), Ok(()));
    assert_eq!(s.comps.len_dyn(POS, e1), 1);

    let plain = DiffUpdater { sys: PushSystem { t: POS, rec: vec![1] } };
    let mut s2: State<BasicComps, _, ()> = State::new(BasicComps::new(), plain);
    s2.comps.register_comp_dyn(POS, 1).unwrap();
    s2.new_ent();
    assert_eq!(s2.update(&()), Ok(()));
    assert_eq!(s.comps, s2.comps);
}

#[test]
fn commit_applies_diffs_in_supplied_order() {
    let mut c = BasicComps::new();
    c.register_comp_dyn(POS, 1).unwrap();
    let diffs = vec![
        BasicCompsDiff::insert(&c, POS, 4, vec![1]),
        BasicCompsDiff::insert(&c, POS, 4, vec![2]),
        BasicCompsDiff::replace(&c, POS, 4, 0, vec![8]),
        BasicCompsDiff::pop(&c, POS, 4),
    ];
    assert_eq!(c.commit(diffs), Ok(()));
    assert_eq!(c.len_dyn(POS, 4), 1);
    assert_eq!(c.get_dyn(POS, 4, 0).unwrap(), Some(&vec![8]));
}

#[test]
fn commit_stops_at_first_caller_error() {
    let mut c = BasicComps::new();
    c.register_comp_dyn(POS, 1).unwrap();
    let diffs = vec![
        BasicCompsDiff::insert(&c, POS, 4, vec![1]),
        BasicCompsDiff::insert(&c, AUX, 4, vec![2]),
        BasicCompsDiff::insert(&c, POS, 4, vec![3]),
    ];
    assert_eq!(c.commit(diffs), Err(StoreError::Unregistered));
    // The first diff was applied; replay stopped at the bad one.
    assert_eq!(c.len_dyn(POS, 4), 1);
}

#[test]
fn commit_skips_replace_of_vanished_index() {
    let mut c = BasicComps::new();
    c.register_comp_dyn(POS, 1).unwrap();
    c.insert_dyn(POS, 4, vec![1]).unwrap();
    let diffs = vec![
        BasicCompsDiff::pop(&c, POS, 4),
        BasicCompsDiff::replace(&c, POS, 4, 0, vec![8]),
    ];
    assert_eq!(c.commit(diffs), Ok(()));
    assert_eq!(c.len_dyn(POS, 4), 0);
}

#[test]
fn inplace_tick_error_propagates() {
    let upd = InPlaceUpdater { sys: PushSystem { t: AUX, rec: vec![1] } };
    let mut s: State<BasicComps, _, ()> = State::new(BasicComps::new(), upd);
    s.new_ent();
    assert_eq!(s.update(&()), Err(StoreError::Unregistered));
}

#[test]
fn purge_ent_drops_only_that_entity() {
    let mut c = BasicComps::new();
    c.register_comp_dyn(POS, 1).unwrap();
    c.register_comp_dyn(AUX, 1).unwrap();
    c.insert_dyn(POS, 1, vec![1]).unwrap();
    c.insert_dyn(AUX, 1, vec![2]).unwrap();
    c.insert_dyn(POS, 2, vec![3]).unwrap();
    c.purge_ent(1);
    assert_eq!(c.len_dyn(POS, 1), 0);
    assert_eq!(c.len_dyn(AUX, 1), 0);
    assert_eq!(c.len_dyn(POS, 2), 1);
    assert_eq!(c.get_dyn(POS, 2, 0).unwrap(), Some(&vec![3]));
}
