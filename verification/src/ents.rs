//! The registry's live set: entity identifiers held in ascending id order.

use vstd::prelude::*;

use crate::EntId;

verus! {

/// The ordered set of currently-alive entity identifiers.
///
/// Iteration order is numeric order, which — because ids are issued
/// monotonically — is also creation order.
pub struct Ents {
    ids: Vec<EntId>,
}

impl View for Ents {
    type V = Seq<EntId>;

    closed spec fn view(&self) -> Seq<EntId> {
        self.ids@
    }
}

impl Ents {
    /// Strictly ascending ids: sorted, hence free of duplicates.
    pub open spec fn wf(self) -> bool {
        forall|i: int, j: int|
            0 <= i < j < self@.len() ==> #[trigger] self@[i] < #[trigger] self@[j]
    }

    /// The empty live set.
    pub fn new() -> (r: Ents)
        ensures
            r@ == Seq::<EntId>::empty(),
            r.wf(),
    {
        Ents { ids: Vec::new() }
    }

    /// How many entities are alive.
    pub fn len(&self) -> (n: usize)
        ensures
            n == self@.len(),
    {
        self.ids.len()
    }

    /// The `i`th live entity in ascending id order.
    pub fn at(&self, i: usize) -> (e: EntId)
        requires
            i < self@.len(),
        ensures
            e == self@[i as int],
    {
        self.ids[i]
    }

    /// The live ids, ascending.
    pub fn ids(&self) -> (r: &Vec<EntId>)
        ensures
            r@ == self@,
    {
        &self.ids
    }

    /// Whether `e` is alive.
    pub fn contains(&self, e: EntId) -> (r: bool)
        ensures
            r == self@.contains(e),
    {
        let n = self.ids.len();
        let mut i: usize = 0;
        while i < n
            invariant
                n == self@.len(),
                i <= n,
                forall|k: int| 0 <= k < i ==> self@[k] != e,
            decreases n - i,
        {
            if self.ids[i] == e {
                proof {
                    assert(self@[i as int] == e);
                }
                return true;
            }
            i += 1;
        }
        proof {
            assert(!self@.contains(e)) by {
                if self@.contains(e) {
                    let k = choose|k: int| 0 <= k < self@.len() && self@[k] == e;
                    assert(self@[k] != e);
                }
            }
        }
        false
    }

    /// Adds a freshly issued id.
    ///
    /// The registry only ever grows by ids larger than every live one (ids
    /// are issued monotonically), which keeps the order invariant without a
    /// search.
    pub fn insert(&mut self, e: EntId)
        requires
            old(self).wf(),
            forall|i: int| 0 <= i < old(self)@.len() ==> old(self)@[i] < e,
        ensures
            final(self)@ == old(self)@.push(e),
            final(self).wf(),
    {
        self.ids.push(e);
        proof {
            assert forall|i: int, j: int| 0 <= i < j < self@.len() implies self@[i]
                < self@[j] by {
                if j < old(self)@.len() {
                    assert(self@[i] == old(self)@[i]);
                    assert(self@[j] == old(self)@[j]);
                } else {
                    assert(self@[j] == e);
                    assert(self@[i] == old(self)@[i]);
                    assert(old(self)@[i] < e);
                }
            }
        }
    }

    /// Removes `e` if present. Afterwards exactly the other ids are alive,
    /// still in ascending order.
    pub fn remove(&mut self, e: EntId)
        requires
            old(self).wf(),
        ensures
            final(self).wf(),
            forall|x: EntId|
                final(self)@.contains(x) <==> (old(self)@.contains(x) && x != e),
            final(self)@.len() == if old(self)@.contains(e) {
                old(self)@.len() - 1
            } else {
                old(self)@.len() as int
            },
    {
        let n = self.ids.len();
        let mut i: usize = 0;
        while i < n
            invariant
                n == self@.len(),
                i <= n,
                self@ == old(self)@,
                old(self).wf(),
                forall|k: int| 0 <= k < i ==> self@[k] != e,
            decreases n - i,
        {
            if self.ids[i] == e {
                let ghost s0 = self@;
                let ghost pos = i as int;
                self.ids.remove(i);
                proof {
                    s0.remove_ensures(pos);
                    assert(self@ == s0.remove(pos));
                    assert(s0[pos] == e);
                    assert(s0.contains(e)) by {
                        assert(s0[pos] == e);
                    }
                    assert forall|a: int, b: int| 0 <= a < b < self@.len() implies self@[a]
                        < self@[b] by {
                        let a0 = if a < pos { a } else { a + 1 };
                        let b0 = if b < pos { b } else { b + 1 };
                        assert(self@[a] == s0[a0]);
                        assert(self@[b] == s0[b0]);
                    }
                    assert forall|x: EntId| self@.contains(x) implies (s0.contains(x) && x
                        != e) by {
                        let k = choose|k: int| 0 <= k < self@.len() && self@[k] == x;
                        let k0 = if k < pos { k } else { k + 1 };
                        assert(s0[k0] == x);
                        assert(s0.contains(x)) by {
                            assert(s0[k0] == x);
                        }
                        assert(x != e) by {
                            if k0 < pos {
                                assert(s0[k0] < s0[pos]);
                            } else {
                                assert(s0[pos] < s0[k0]);
                            }
                        }
                    }
                    assert forall|x: EntId| s0.contains(x) && x != e implies self@.contains(
                        x,
                    ) by {
                        let k = choose|k: int| 0 <= k < s0.len() && s0[k] == x;
                        if k < pos {
                            assert(self@[k] == x);
                            assert(self@.contains(x)) by {
                                assert(self@[k] == x);
                            }
                        } else {
                            assert(k != pos);
                            assert(self@[k - 1] == x);
                            assert(self@.contains(x)) by {
                                assert(self@[k - 1] == x);
                            }
                        }
                    }
                }
                return ;
            }
            i += 1;
        }
        proof {
            assert(!self@.contains(e)) by {
                if self@.contains(e) {
                    let k = choose|k: int| 0 <= k < self@.len() && self@[k] == e;
                    assert(self@[k] != e);
                }
            }
        }
    }
}

} // verus!
