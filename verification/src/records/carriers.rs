//! Which raw records carry which identifier.

use std::collections::HashMap;
use vstd::hash_map::StringHashMap;
use vstd::prelude::*;
use crate::records::types::{IdentifierView, ModIdentifier};

verus! {

/// For every identifier noted so far, the raw records that carry it, in the order
/// they were noted. Each identifier owns one list, found through its package name or
/// its workshop number.
pub struct CarrierIndex {
    packages: StringHashMap<usize>,
    workshops: HashMap<u64, usize>,
    lists: Vec<Vec<usize>>,
    owners: Ghost<Seq<IdentifierView>>,
}

impl CarrierIndex {
    /// The number of identifiers noted.
    pub closed spec fn len(&self) -> nat {
        self.lists@.len()
    }

    /// The identifier that owns the list at `slot`.
    pub closed spec fn owner(&self, slot: int) -> IdentifierView {
        self.owners@[slot]
    }

    /// The raw records that carry the identifier at `slot`.
    pub closed spec fn carriers(&self, slot: int) -> Seq<usize> {
        self.lists@[slot]@
    }

    /// Where the list of `id` is, if `id` was noted.
    pub closed spec fn slot(&self, id: IdentifierView) -> Option<int> {
        match id {
            IdentifierView::PackageId(name) => if self.packages@.contains_key(name) {
                Some(self.packages@[name] as int)
            } else {
                None
            },
            IdentifierView::WorkshopId(number) => if self.workshops@.contains_key(number) {
                Some(self.workshops@[number] as int)
            } else {
                None
            },
        }
    }

    /// Whether the raw record at `i` was noted as a carrier of `id`.
    pub open spec fn holds(&self, id: IdentifierView, i: int) -> bool {
        &&& self.slot(id) is Some
        &&& exists|t: int|
            0 <= t < self.carriers(self.slot(id)->0).len() && #[trigger] self.carriers(
                self.slot(id)->0,
            )[t] == i
    }

    /// The invariant: every list has an owner and a first carrier, and the owner of a
    /// list is the one identifier that leads to it.
    pub closed spec fn wf(&self) -> bool {
        &&& self.owners@.len() == self.lists@.len()
        &&& forall|slot: int|
            0 <= slot < self.lists@.len() ==> (#[trigger] self.lists@[slot])@.len() > 0
        &&& forall|slot: int|
            0 <= slot < self.owners@.len() ==> self.slot(#[trigger] self.owners@[slot]) == Some(
                slot,
            )
        &&& forall|id: IdentifierView|
            (#[trigger] self.slot(id)) is Some ==> 0 <= self.slot(id)->0 < self.owners@.len()
                && self.owners@[self.slot(id)->0] == id
    }

    /// Every list has a first carrier and an owner that leads to it and to no other.
    pub proof fn lemma_slots(&self)
        requires
            self.wf(),
        ensures
            forall|slot: int| 0 <= slot < self.len() ==> (#[trigger] self.carriers(slot)).len() > 0,
            forall|slot: int|
                0 <= slot < self.len() ==> self.slot(#[trigger] self.owner(slot)) == Some(slot),
            forall|id: IdentifierView|
                (#[trigger] self.slot(id)) is Some ==> 0 <= self.slot(id)->0 < self.len()
                    && self.owner(self.slot(id)->0) == id,
    {
    }

    /// An index with nothing noted.
    pub fn new() -> (index: Self)
        ensures
            index.wf(),
            index.len() == 0,
            forall|id: IdentifierView, i: int| !index.holds(id, i),
    {
        CarrierIndex {
            packages: StringHashMap::new(),
            workshops: HashMap::new(),
            lists: Vec::new(),
            owners: Ghost(Seq::empty()),
        }
    }

    /// Notes that the raw record at `i` carries `id`.
    pub fn note(&mut self, id: &ModIdentifier, i: usize)
        requires
            old(self).wf(),
        ensures
            final(self).wf(),
            forall|other: IdentifierView, j: int|
                final(self).holds(other, j) <==> (old(self).holds(other, j) || (other == id@ && j
                    == i)),
    {
        let found: Option<usize> = match id {
            ModIdentifier::PackageId(name) => match self.packages.get(name.as_str()) {
                Some(slot) => Some(*slot),
                None => None,
            },
            ModIdentifier::WorkshopId(number) => match self.workshops.get(number) {
                Some(slot) => Some(*slot),
                None => None,
            },
        };
        assert(match found {
            Some(slot) => self.slot(id@) == Some(slot as int),
            None => self.slot(id@) is None,
        });
        match found {
            Some(slot) => {
                let ghost before = self.lists@[slot as int]@;
                self.lists[slot].push(i);
                proof {
                    let after = self.lists@[slot as int]@;
                    assert(after == before.push(i));
                    assert forall|s: int| 0 <= s < self.lists@.len() implies (
                    #[trigger] self.lists@[s])@.len() > 0 by {
                        if s != slot {
                            assert(self.lists@[s] == old(self).lists@[s]);
                        }
                    }
                    assert forall|other: IdentifierView, j: int|
                        self.holds(other, j) <==> (old(self).holds(other, j) || (other == id@ && j
                            == i)) by {
                        assert(self.slot(other) == old(self).slot(other));
                        if self.slot(other) is Some {
                            let s = self.slot(other)->0;
                            assert(old(self).owners@[s] == other);
                            if s == slot {
                                assert(other == id@);
                                assert(self.carriers(s) == after);
                                assert(old(self).carriers(s) == before);
                                if old(self).holds(other, j) {
                                    let t = choose|t: int|
                                        0 <= t < before.len() && #[trigger] before[t] == j;
                                    assert(after[t] == j);
                                }
                                if j == i {
                                    assert(after[before.len() as int] == j);
                                }
                                if self.holds(other, j) {
                                    let t = choose|t: int|
                                        0 <= t < after.len() && #[trigger] after[t] == j;
                                    if t < before.len() {
                                        assert(before[t] == j);
                                    }
                                }
                            } else {
                                assert(other != id@);
                                assert(self.lists@[s] == old(self).lists@[s]);
                                assert(self.carriers(s) == old(self).carriers(s));
                            }
                        } else {
                            assert(other != id@);
                        }
                    }
                }
            },
            None => {
                let slot = self.lists.len();
                match id {
                    ModIdentifier::PackageId(name) => {
                        self.packages.insert(name.clone(), slot);
                    },
                    ModIdentifier::WorkshopId(number) => {
                        self.workshops.insert(*number, slot);
                    },
                }
                let mut list: Vec<usize> = Vec::new();
                list.push(i);
                self.lists.push(list);
                self.owners = Ghost(self.owners@.push(id@));
                proof {
                    assert forall|other: IdentifierView|
                        self.slot(other) == (if other == id@ {
                            Some(slot as int)
                        } else {
                            old(self).slot(other)
                        }) by {}
                    assert forall|s: int| 0 <= s < self.owners@.len() implies self.slot(
                        #[trigger] self.owners@[s],
                    ) == Some(s) by {
                        if s < slot {
                            assert(self.owners@[s] == old(self).owners@[s]);
                            assert(old(self).slot(old(self).owners@[s]) == Some(s));
                        }
                    }
                    assert forall|s: int| 0 <= s < self.lists@.len() implies (
                    #[trigger] self.lists@[s])@.len() > 0 by {
                        if s < slot {
                            assert(self.lists@[s] == old(self).lists@[s]);
                        }
                    }
                    assert forall|other: IdentifierView, j: int|
                        self.holds(other, j) <==> (old(self).holds(other, j) || (other == id@ && j
                            == i)) by {
                        if other == id@ {
                            assert(self.slot(other) == Some(slot as int));
                            assert(old(self).slot(other) is None);
                            let fresh = self.carriers(slot as int);
                            assert(fresh =~= seq![i]);
                            assert(fresh[0] == i);
                            if self.holds(other, j) {
                                let t = choose|t: int|
                                    0 <= t < fresh.len() && #[trigger] fresh[t] == j;
                                assert(t == 0);
                            }
                            assert(self.carriers(self.slot(id@)->0)[0] == i);
                        } else {
                            assert(self.slot(other) == old(self).slot(other));
                            if old(self).slot(other) is Some {
                                let s = old(self).slot(other)->0;
                                assert(0 <= s < old(self).lists@.len());
                                assert(self.lists@[s] == old(self).lists@[s]);
                                assert(self.carriers(s) == old(self).carriers(s));
                                assert(self.holds(other, j) == old(self).holds(other, j));
                            } else {
                                assert(!self.holds(other, j));
                                assert(!old(self).holds(other, j));
                            }
                        }
                    }
                }
            },
        }
    }

    /// The number of identifiers noted.
    pub fn count(&self) -> (count: usize)
        ensures
            count == self.len(),
    {
        self.lists.len()
    }

    /// The raw records that carry the identifier at `slot`.
    pub fn list(&self, slot: usize) -> (list: &Vec<usize>)
        requires
            slot < self.len(),
        ensures
            list@ == self.carriers(slot as int),
    {
        &self.lists[slot]
    }
}

} // verus!
