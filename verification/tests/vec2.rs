//! A typed component layered over the byte store: a two-float vector,
//! with a caller-supplied "position += velocity" system.

use zircon::ents::Ents;
use zircon::impls::basic::{BasicComps, BasicCompsDiff};
use zircon::impls::DiffUpdater;
use zircon::syst::System;
use zircon::{Comps, Diff, State};

const VEC2: u64 = 1;

fn enc(v: (f32, f32)) -> Vec<u8> {
    let mut b = v.0.to_le_bytes().to_vec();
    b.extend_from_slice(&v.1.to_le_bytes());
    b
}

fn dec(b: &[u8]) -> (f32, f32) {
    (
        f32::from_le_bytes([b[0], b[1], b[2], b[3]]),
        f32::from_le_bytes([b[4], b[5], b[6], b[7]]),
    )
}

/// Caller-supplied system logic: the entity's first `VEC2` record is a
/// position, its second a velocity; the tick adds the velocity into the
/// position and leaves the velocity untouched.
struct AddVelocity;

impl<D> System<BasicComps, D> for AddVelocity {
    fn process(&self, e: u64, _ents: &Ents, comps: &BasicComps, _data: &D) -> Vec<BasicCompsDiff> {
        match (comps.get_dyn(VEC2, e, 0), comps.get_dyn(VEC2, e, 1)) {
            (Ok(Some(p)), Ok(Some(v))) => {
                let (px, py) = dec(p);
                let (vx, vy) = dec(v);
                vec![BasicCompsDiff::replace(comps, VEC2, e, 0, enc((px + vx, py + vy)))]
            },
            _ => vec![],
        }
    }
}

#[test]
fn position_plus_velocity_scenario() {
    let upd = DiffUpdater { sys: AddVelocity };
    let mut s: State<BasicComps, _, ()> = State::new(BasicComps::new(), upd);
    s.comps.register_comp_dyn(VEC2, 8).unwrap();
    let e1 = s.new_ent();
    s.comps.insert_dyn(VEC2, e1, enc((1.0, 2.0))).unwrap();
    s.comps.insert_dyn(VEC2, e1, enc((0.5, 0.5))).unwrap();
    assert_eq!(s.update(&()), Ok(()));
    let pos = dec(s.comps.get_dyn(VEC2, e1, 0).unwrap().unwrap());
    let vel = dec(s.comps.get_dyn(VEC2, e1, 1).unwrap().unwrap());
    assert_eq!(pos, (1.5, 2.5));
    assert_eq!(vel, (0.5, 0.5));
}

#[test]
fn velocity_applies_via_commit_replay() {
    let mut c = BasicComps::new();
    c.register_comp_dyn(VEC2, 8).unwrap();
    c.insert_dyn(VEC2, 1, enc((1.0, 2.0))).unwrap();
    c.insert_dyn(VEC2, 1, enc((0.5, 0.5))).unwrap();
    let (px, py) = dec(c.get_dyn(VEC2, 1, 0).unwrap().unwrap());
    let (vx, vy) = dec(c.get_dyn(VEC2, 1, 1).unwrap().unwrap());
    let diff = BasicCompsDiff::replace(&c, VEC2, 1, 0, enc((px + vx, py + vy)));
    assert_eq!(c.commit(vec![diff]), Ok(()));
    assert_eq!(dec(c.get_dyn(VEC2, 1, 0).unwrap().unwrap()), (1.5, 2.5));
    assert_eq!(dec(c.get_dyn(VEC2, 1, 1).unwrap().unwrap()), (0.5, 0.5));
}
