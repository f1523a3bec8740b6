//! Component store behaviour: registration, record CRUD, index shifts,
//! and the failure cases.

use zircon::impls::basic::BasicComps;
use zircon::model::StoreError;
use zircon::Comps;

const POS: u64 = 1;
const VEL: u64 = 2;

#[test]
fn register_once_then_fails() {
    let mut c = BasicComps::new();
    assert_eq!(c.register_comp_dyn(POS, 8), Ok(()));
    assert_eq!(c.register_comp_dyn(POS, 8), Err(StoreError::AlreadyRegistered));
    assert_eq!(c.register_comp_dyn(POS, 4), Err(StoreError::AlreadyRegistered));
    assert_eq!(c.register_comp_dyn(VEL, 4), Ok(()));
}

#[test]
fn insert_get_round_trip() {
    let mut c = BasicComps::new();
    c.register_comp_dyn(POS, 3).unwrap();
    let idx = c.insert_dyn(POS, 7, vec![1, 2, 3]).unwrap();
    assert_eq!(idx, 0);
    let idx2 = c.insert_dyn(POS, 7, vec![4, 5, 6]).unwrap();
    assert_eq!(idx2, 1);
    assert_eq!(c.get_dyn(POS, 7, 0).unwrap(), Some(&vec![1, 2, 3]));
    assert_eq!(c.get_dyn(POS, 7, 1).unwrap(), Some(&vec![4, 5, 6]));
    assert_eq!(c.get_dyn(POS, 7, 2).unwrap(), None);
    assert_eq!(c.len_dyn(POS, 7), 2);
}

#[test]
fn remove_shifts_indices_down() {
    let mut c = BasicComps::new();
    c.register_comp_dyn(POS, 1).unwrap();
    c.insert_dyn(POS, 1, vec![10]).unwrap();
    c.insert_dyn(POS, 1, vec![11]).unwrap();
    c.insert_dyn(POS, 1, vec![12]).unwrap();
    let taken = c.remove_dyn(POS, 1, 1).unwrap();
    assert_eq!(taken, Some(vec![11]));
    assert_eq!(c.get_dyn(POS, 1, 0).unwrap(), Some(&vec![10]));
    assert_eq!(c.get_dyn(POS, 1, 1).unwrap(), Some(&vec![12]));
    assert_eq!(c.get_dyn(POS, 1, 2).unwrap(), None);
    assert_eq!(c.len_dyn(POS, 1), 2);
}

#[test]
fn unregistered_type_fails_every_operation() {
    let mut c = BasicComps::new();
    assert_eq!(c.insert_dyn(POS, 1, vec![0]), Err(StoreError::Unregistered));
    assert_eq!(c.get_dyn(POS, 1, 0), Err(StoreError::Unregistered));
    assert_eq!(c.replace_dyn(POS, 1, 0, vec![0]), Err(StoreError::Unregistered));
    assert_eq!(c.pop_dyn(POS, 1), Err(StoreError::Unregistered));
    assert_eq!(c.remove_dyn(POS, 1, 0), Err(StoreError::Unregistered));
}

#[test]
fn size_mismatch_is_refused() {
    let mut c = BasicComps::new();
    c.register_comp_dyn(POS, 2).unwrap();
    assert_eq!(c.insert_dyn(POS, 1, vec![1]), Err(StoreError::SizeMismatch));
    assert_eq!(c.insert_dyn(POS, 1, vec![1, 2, 3]), Err(StoreError::SizeMismatch));
    c.insert_dyn(POS, 1, vec![1, 2]).unwrap();
    assert_eq!(c.replace_dyn(POS, 1, 0, vec![9]), Err(StoreError::SizeMismatch));
    assert_eq!(c.get_dyn(POS, 1, 0).unwrap(), Some(&vec![1, 2]));
}

#[test]
fn replace_overwrites_in_place() {
    let mut c = BasicComps::new();
    c.register_comp_dyn(POS, 2).unwrap();
    c.insert_dyn(POS, 5, vec![1, 2]).unwrap();
    c.insert_dyn(POS, 5, vec![3, 4]).unwrap();
    assert_eq!(c.replace_dyn(POS, 5, 0, vec![9, 9]), Ok(()));
    assert_eq!(c.get_dyn(POS, 5, 0).unwrap(), Some(&vec![9, 9]));
    assert_eq!(c.get_dyn(POS, 5, 1).unwrap(), Some(&vec![3, 4]));
    assert_eq!(c.replace_dyn(POS, 5, 2, vec![9, 9]), Err(StoreError::NotFound));
    assert_eq!(c.replace_dyn(POS, 6, 0, vec![9, 9]), Err(StoreError::NotFound));
}

#[test]
fn zero_components_of_registered_type() {
    let mut c = BasicComps::new();
    c.register_comp_dyn(POS, 4).unwrap();
    assert_eq!(c.len_dyn(POS, 3), 0);
    assert_eq!(c.get_dyn(POS, 3, 0).unwrap(), None);
    assert_eq!(c.pop_dyn(POS, 3).unwrap(), None);
}

#[test]
fn pop_takes_the_last_record() {
    let mut c = BasicComps::new();
    c.register_comp_dyn(POS, 1).unwrap();
    c.insert_dyn(POS, 2, vec![1]).unwrap();
    c.insert_dyn(POS, 2, vec![2]).unwrap();
    assert_eq!(c.pop_dyn(POS, 2).unwrap(), Some(vec![2]));
    assert_eq!(c.pop_dyn(POS, 2).unwrap(), Some(vec![1]));
    assert_eq!(c.pop_dyn(POS, 2).unwrap(), None);
    assert_eq!(c.len_dyn(POS, 2), 0);
}

#[test]
fn remove_all_clears_and_is_idempotent() {
    let mut c = BasicComps::new();
    c.register_comp_dyn(POS, 1).unwrap();
    c.register_comp_dyn(VEL, 1).unwrap();
    c.insert_dyn(POS, 2, vec![1]).unwrap();
    c.insert_dyn(POS, 2, vec![2]).unwrap();
    c.insert_dyn(VEL, 2, vec![3]).unwrap();
    c.remove_all(POS, 2);
    assert_eq!(c.len_dyn(POS, 2), 0);
    assert_eq!(c.len_dyn(VEL, 2), 1);
    c.remove_all(POS, 2);
    assert_eq!(c.len_dyn(POS, 2), 0);
}

#[test]
fn trait_front_end_matches_dyn_core() {
    let mut c = BasicComps::new();
    c.register_comp(POS, 2).unwrap();
    let idx = c.insert(POS, 9, vec![7, 8]).unwrap();
    assert_eq!(idx, 0);
    assert_eq!(c.get(POS, 9, 0).unwrap(), Some(&vec![7, 8]));
    assert_eq!(c.get_first(POS, 9).unwrap(), Some(&vec![7, 8]));
    c.replace_first(POS, 9, vec![1, 1]).unwrap();
    assert_eq!(c.get_first(POS, 9).unwrap(), Some(&vec![1, 1]));
    assert_eq!(c.len(POS, 9), 1);
    assert_eq!(c.pop(POS, 9).unwrap(), Some(vec![1, 1]));
}
