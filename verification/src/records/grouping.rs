//! The steps that find the classes of connected records: noting who carries which
//! identifier, uniting the carriers, and grouping the records by their root.

use vstd::prelude::*;
use crate::connectivity::{encloses, lemma_linked_least};
use crate::records::carriers::CarrierIndex;
use crate::records::consolidation::{
    carries,
    connected,
    is_leader,
    leaders,
    leaders_among,
    lemma_connected_reflexive,
    lemma_connected_shares,
    lemma_connected_symmetric,
    lemma_connected_transitive,
    lemma_leaders_among,
    lemma_leaders_step,
    lemma_members_none,
    lemma_members_step,
    members,
    members_among,
    shares,
    sharing,
};
use crate::records::staged;
use crate::records::types::{IdentifierView, IngestibleData, RecordView, views_of};
use crate::union_find::UnionFind;

verus! {

/// Notes, for every valid identifier, the raw records that carry it.
pub(crate) fn index_identifiers(raw: &Vec<IngestibleData>) -> (index: CarrierIndex)
    ensures
        index.wf(),
        forall|id: IdentifierView, i: int|
            index.holds(id, i) <==> (!id.is_invalid() && carries(staged(raw@), i, id)),
{
    let mut index = CarrierIndex::new();
    let mut idx: usize = 0;
    while idx < raw.len()
        invariant
            idx <= raw.len(),
            index.wf(),
            forall|id: IdentifierView, i: int|
                index.holds(id, i) <==> (!id.is_invalid() && i < idx && carries(
                    staged(raw@),
                    i,
                    id,
                )),
        decreases raw.len() - idx,
    {
        let record = &raw[idx];
        let ghost listed = views_of(record.identifiers@);
        assert(staged(raw@)[idx as int].identifiers == listed);
        let mut at: usize = 0;
        while at < record.identifiers.len()
            invariant
                idx < raw.len(),
                at <= record.identifiers.len(),
                listed == views_of(record.identifiers@),
                staged(raw@)[idx as int].identifiers == listed,
                index.wf(),
                forall|id: IdentifierView, i: int|
                    index.holds(id, i) <==> (!id.is_invalid() && ((i < idx && carries(
                        staged(raw@),
                        i,
                        id,
                    )) || (i == idx && listed.take(at as int).contains(id)))),
            decreases record.identifiers.len() - at,
        {
            let identifier = &record.identifiers[at];
            assert(listed[at as int] == identifier@);
            assert(listed.take(at + 1) =~= listed.take(at as int).push(identifier@));
            assert forall|id: IdentifierView|
                listed.take(at + 1).contains(id) <==> (listed.take(at as int).contains(id) || id
                    == identifier@) by {
                vstd::seq_lib::lemma_seq_contains_after_push(
                    listed.take(at as int),
                    identifier@,
                    id,
                );
            }
            if !identifier.is_invalid() {
                index.note(identifier, idx);
            }
            at += 1;
        }
        assert(listed.take(at as int) =~= listed);
        idx += 1;
    }
    index
}

/// The relation that holds of two raw records once their roots are the same.
spec fn same_root(uf: UnionFind, n: int) -> spec_fn(int, int) -> bool {
    |a: int, b: int| a == b || (0 <= a < n && 0 <= b < n && uf.root(a) == uf.root(b))
}

/// Unites, for every identifier, the first raw record that carries it with each of the
/// others, so that two records end in one set exactly when they are connected.
pub(crate) fn link_carriers(
    index: &CarrierIndex,
    n: usize,
    Ghost(records): Ghost<Seq<RecordView>>,
) -> (uf: UnionFind)
    requires
        index.wf(),
        n == records.len(),
        forall|id: IdentifierView, i: int|
            index.holds(id, i) <==> (!id.is_invalid() && carries(records, i, id)),
    ensures
        uf.wf(),
        uf.len() == n,
        forall|a: int, b: int|
            0 <= a < n && 0 <= b < n ==> (uf.same_set(a, b) <==> connected(records, a, b)),
{
    let mut uf = UnionFind::new(n);
    let count = index.count();
    proof {
        index.lemma_slots();
        assert forall|s: int, t: int|
            0 <= s < count && 0 <= t < index.carriers(s).len() implies carries(
            records,
            #[trigger] index.carriers(s)[t] as int,
            index.owner(s),
        ) by {
            assert(index.holds(index.owner(s), index.carriers(s)[t] as int));
        }
        assert forall|s: int| 0 <= s < count implies !(#[trigger] index.owner(s)).is_invalid() by {
            assert(index.holds(index.owner(s), index.carriers(s)[0] as int));
        }
        assert forall|a: int, b: int|
            0 <= a < n && 0 <= b < n && uf.root(a) == uf.root(b) implies connected(
            records,
            a,
            b,
        ) by {
            lemma_connected_reflexive(records, a);
        }
    }
    let mut slot: usize = 0;
    while slot < count
        invariant
            slot <= count,
            count == index.len(),
            index.wf(),
            n == records.len(),
            uf.wf(),
            uf.len() == n,
            forall|s: int| 0 <= s < count ==> !(#[trigger] index.owner(s)).is_invalid(),
            forall|s: int, t: int|
                0 <= s < count && 0 <= t < index.carriers(s).len() ==> carries(
                    records,
                    #[trigger] index.carriers(s)[t] as int,
                    index.owner(s),
                ),
            forall|a: int, b: int|
                #![trigger uf.root(a), uf.root(b)]
                0 <= a < n && 0 <= b < n && uf.root(a) == uf.root(b) ==> connected(records, a, b),
            forall|s: int, t: int|
                0 <= s < slot && 0 <= t < index.carriers(s).len() ==> uf.root(
                    #[trigger] index.carriers(s)[t] as int,
                ) == uf.root(index.carriers(s)[0] as int),
        decreases count - slot,
    {
        let indices = index.list(slot);
        proof {
            index.lemma_slots();
        }
        if indices.len() >= 2 {
            let first = indices[0];
            let ghost owner = index.owner(slot as int);
            assert(carries(records, index.carriers(slot as int)[0] as int, owner));
            let mut t: usize = 1;
            while t < indices.len()
                invariant
                    1 <= t <= indices.len(),
                    slot < count,
                    count == index.len(),
                    indices@ == index.carriers(slot as int),
                    first == indices@[0],
                    owner == index.owner(slot as int),
                    !owner.is_invalid(),
                    carries(records, first as int, owner),
                    n == records.len(),
                    uf.wf(),
                    uf.len() == n,
                    forall|s: int, t: int|
                        0 <= s < count && 0 <= t < index.carriers(s).len() ==> carries(
                            records,
                            #[trigger] index.carriers(s)[t] as int,
                            index.owner(s),
                        ),
                    forall|a: int, b: int|
                        #![trigger uf.root(a), uf.root(b)]
                        0 <= a < n && 0 <= b < n && uf.root(a) == uf.root(b) ==> connected(
                            records,
                            a,
                            b,
                        ),
                    forall|s: int, t: int|
                        0 <= s < slot && 0 <= t < index.carriers(s).len() ==> uf.root(
                            #[trigger] index.carriers(s)[t] as int,
                        ) == uf.root(index.carriers(s)[0] as int),
                    forall|u: int|
                        0 <= u < t ==> uf.root(#[trigger] indices@[u] as int) == uf.root(
                            first as int,
                        ),
                decreases indices.len() - t,
            {
                let member = indices[t];
                let ghost before = uf;
                assert(carries(records, index.carriers(slot as int)[t as int] as int, owner));
                uf.union(first, member);
                proof {
                    assert(shares(records, first as int, member as int));
                    lemma_connected_shares(records, first as int, member as int);
                    lemma_connected_symmetric(records, first as int, member as int);
                    assert forall|a: int, b: int|
                        #![trigger uf.root(a), uf.root(b)]
                        0 <= a < n && 0 <= b < n && uf.root(a) == uf.root(b) implies connected(
                        records,
                        a,
                        b,
                    ) by {
                        assert(uf.same_set(a, b));
                        if before.same_set(a, b) {
                        } else if before.same_set(a, first as int) && before.same_set(
                            member as int,
                            b,
                        ) {
                            lemma_connected_transitive(records, a, first as int, member as int);
                            lemma_connected_transitive(records, a, member as int, b);
                        } else {
                            assert(before.same_set(a, member as int) && before.same_set(
                                first as int,
                                b,
                            ));
                            lemma_connected_transitive(records, a, member as int, first as int);
                            lemma_connected_transitive(records, a, first as int, b);
                        }
                    }
                    assert forall|s: int, t: int|
                        0 <= s < slot && 0 <= t < index.carriers(s).len() implies uf.root(
                        #[trigger] index.carriers(s)[t] as int,
                    ) == uf.root(index.carriers(s)[0] as int) by {
                        assert(carries(records, index.carriers(s)[0] as int, index.owner(s)));
                        assert(before.same_set(
                            index.carriers(s)[t] as int,
                            index.carriers(s)[0] as int,
                        ));
                        assert(uf.same_set(
                            index.carriers(s)[t] as int,
                            index.carriers(s)[0] as int,
                        ));
                    }
                    assert forall|u: int| 0 <= u < t + 1 implies uf.root(
                        #[trigger] indices@[u] as int,
                    ) == uf.root(first as int) by {
                        assert(carries(records, index.carriers(slot as int)[u] as int, owner));
                        if u < t {
                            assert(before.same_set(indices@[u] as int, first as int));
                        } else {
                            assert(before.same_set(first as int, first as int));
                            assert(before.same_set(member as int, member as int));
                        }
                        assert(uf.same_set(indices@[u] as int, first as int));
                    }
                }
                t += 1;
            }
        }
        slot += 1;
    }
    proof {
        let within = same_root(uf, n as int);
        let edge = sharing(records);
        assert forall|x: int, y: int| #[trigger] edge(x, y) implies within(x, y) by {
            let id = choose|id: IdentifierView|
                !id.is_invalid() && #[trigger] carries(records, x, id) && carries(records, y, id);
            assert(index.holds(id, x) && index.holds(id, y));
            index.lemma_slots();
            let s = index.slot(id)->0;
            let tx = choose|t: int|
                0 <= t < index.carriers(s).len() && #[trigger] index.carriers(s)[t] == x;
            let ty = choose|t: int|
                0 <= t < index.carriers(s).len() && #[trigger] index.carriers(s)[t] == y;
            assert(uf.root(index.carriers(s)[tx] as int) == uf.root(index.carriers(s)[0] as int));
            assert(uf.root(index.carriers(s)[ty] as int) == uf.root(index.carriers(s)[0] as int));
        }
        assert(encloses(within, edge));
        assert forall|a: int, b: int| 0 <= a < n && 0 <= b < n implies (uf.same_set(a, b)
            <==> connected(records, a, b)) by {
            if connected(records, a, b) {
                lemma_linked_least(edge, within, a, b);
            }
        }
    }
    uf
}

/// The positions that a list of indices names.
pub open spec fn positions(list: Seq<usize>) -> Seq<int> {
    list.map_values(|i: usize| i as int)
}

/// Groups the raw records by their root: one group per class, the groups in the order
/// of their first record, each group ascending.
pub(crate) fn group_by_root(
    uf: &mut UnionFind,
    Ghost(records): Ghost<Seq<RecordView>>,
) -> (groups: Vec<Vec<usize>>)
    requires
        old(uf).wf(),
        old(uf).len() == records.len(),
        forall|a: int, b: int|
            #![trigger old(uf).root(a), old(uf).root(b)]
            0 <= a < records.len() && 0 <= b < records.len() ==> (old(uf).same_set(a, b)
                <==> connected(records, a, b)),
    ensures
        groups@.len() == leaders(records).len(),
        forall|k: int|
            0 <= k < groups@.len() ==> positions(#[trigger] groups@[k]@) == members(
                records,
                leaders(records)[k],
            ),
{
    let n = uf.size();
    let mut slots: Vec<Option<usize>> = Vec::new();
    let mut filled: usize = 0;
    while filled < n
        invariant
            filled <= n,
            slots@.len() == filled,
            forall|r: int| 0 <= r < filled ==> slots@[r] is None,
        decreases n - filled,
    {
        slots.push(None);
        filled += 1;
    }
    let mut groups: Vec<Vec<usize>> = Vec::new();
    let mut i: usize = 0;
    proof {
        lemma_leaders_step(records, 0);
    }
    while i < n
        invariant
            i <= n,
            n == records.len(),
            uf.wf(),
            uf.len() == n,
            forall|a: int, b: int|
                #![trigger uf.root(a), uf.root(b)]
                0 <= a < n && 0 <= b < n ==> (uf.same_set(a, b) <==> connected(records, a, b)),
            slots@.len() == n,
            groups@.len() == leaders_among(records, i as nat).len(),
            forall|k: int|
                0 <= k < groups@.len() ==> positions(#[trigger] groups@[k]@) == members_among(
                    records,
                    leaders_among(records, i as nat)[k],
                    i as nat,
                ),
            forall|k: int|
                0 <= k < groups@.len() ==> slots@[uf.root(
                    #[trigger] leaders_among(records, i as nat)[k],
                )] == Some(k as usize),
            forall|r: int|
                0 <= r < n && (#[trigger] slots@[r]) is Some ==> slots@[r]->0 < groups@.len()
                    && uf.root(leaders_among(records, i as nat)[slots@[r]->0 as int]) == r,
            forall|a: int| 0 <= a < i ==> slots@[#[trigger] uf.root(a)] is Some,
        decreases n - i,
    {
        let ghost before = *uf;
        let ghost heads = leaders_among(records, i as nat);
        let root = uf.find(i);
        proof {
            lemma_leaders_among(records, i as nat);
            lemma_leaders_step(records, i as nat);
            lemma_connected_reflexive(records, i as int);
            assert forall|a: int, b: int|
                #![trigger uf.root(a), uf.root(b)]
                0 <= a < n && 0 <= b < n implies (uf.same_set(a, b) <==> connected(
                records,
                a,
                b,
            )) by {
                assert(before.same_set(a, b) <==> connected(records, a, b));
            }
            assert forall|k: int| 0 <= k < groups@.len() implies slots@[uf.root(
                #[trigger] heads[k],
            )] == Some(k as usize) by {
                assert(uf.root(heads[k]) == before.root(heads[k]));
            }
            assert forall|r: int| 0 <= r < n && (#[trigger] slots@[r]) is Some implies uf.root(
                heads[slots@[r]->0 as int],
            ) == r by {
                let k = slots@[r]->0 as int;
                assert(uf.root(heads[k]) == before.root(heads[k]));
            }
            assert forall|a: int| 0 <= a < i implies slots@[#[trigger] uf.root(a)] is Some by {
                assert(uf.root(a) == before.root(a));
            }
            assert(uf.root(i as int) == root);
        }
        match slots[root] {
            Some(k) => {
                let ghost old_groups = groups@;
                groups[k].push(i);
                proof {
                    let head = heads[k as int];
                    assert(uf.root(head) == root);
                    assert(uf.same_set(head, i as int));
                    assert(connected(records, head, i as int));
                    assert(!is_leader(records, i as int));
                    assert(leaders_among(records, (i + 1) as nat) == heads);
                    assert forall|m: int| 0 <= m < groups@.len() implies positions(
                        #[trigger] groups@[m]@,
                    ) == members_among(records, heads[m], (i + 1) as nat) by {
                        lemma_members_step(records, heads[m], i as nat);
                        if m == k {
                            assert(groups@[m]@ == old_groups[m]@.push(i));
                            assert(positions(groups@[m]@) =~= positions(old_groups[m]@).push(
                                i as int,
                            ));
                        } else {
                            assert(groups@[m] == old_groups[m]);
                            if connected(records, heads[m], i as int) {
                                assert(uf.same_set(heads[m], i as int));
                                assert(slots@[uf.root(heads[m])] == Some(m as usize));
                            }
                        }
                    }
                }
            },
            None => {
                let ghost old_groups = groups@;
                let ghost old_slots = slots@;
                let position = groups.len();
                let mut group: Vec<usize> = Vec::new();
                group.push(i);
                groups.push(group);
                slots[root] = Some(position);
                proof {
                    assert forall|a: int| 0 <= a < i implies !#[trigger] connected(
                        records,
                        a,
                        i as int,
                    ) by {
                        if connected(records, a, i as int) {
                            assert(uf.same_set(a, i as int));
                            assert(old_slots[uf.root(a)] is Some);
                        }
                    }
                    assert(is_leader(records, i as int));
                    let now = leaders_among(records, (i + 1) as nat);
                    assert(now == heads.push(i as int));
                    assert forall|a: int| 0 <= a < i implies !#[trigger] connected(
                        records,
                        i as int,
                        a,
                    ) by {
                        if connected(records, i as int, a) {
                            lemma_connected_symmetric(records, i as int, a);
                        }
                    }
                    lemma_members_none(records, i as int, i as nat);
                    assert forall|m: int| 0 <= m < groups@.len() implies positions(
                        #[trigger] groups@[m]@,
                    ) == members_among(records, now[m], (i + 1) as nat) by {
                        lemma_members_step(records, now[m], i as nat);
                        if m == position {
                            assert(groups@[m]@ =~= seq![i]);
                            assert(positions(groups@[m]@) =~= Seq::<int>::empty().push(i as int));
                        } else {
                            assert(groups@[m] == old_groups[m]);
                            assert(now[m] == heads[m]);
                            assert(!connected(records, heads[m], i as int));
                        }
                    }
                    assert forall|m: int| 0 <= m < groups@.len() implies slots@[uf.root(
                        #[trigger] now[m],
                    )] == Some(m as usize) by {
                        if m < position {
                            assert(now[m] == heads[m]);
                            uf.lemma_root_is_fixed(heads[m]);
                            assert(old_slots[uf.root(heads[m])] == Some(m as usize));
                        }
                    }
                    assert forall|r: int|
                        0 <= r < n && (#[trigger] slots@[r]) is Some implies slots@[r]->0
                        < groups@.len() && uf.root(now[slots@[r]->0 as int]) == r by {
                        if r != root {
                            assert(old_slots[r] is Some);
                            assert(now[old_slots[r]->0 as int] == heads[old_slots[r]->0 as int]);
                        }
                    }
                    assert forall|a: int| 0 <= a < i + 1 implies slots@[
                    #[trigger] uf.root(a)] is Some by {
                        uf.lemma_root_is_fixed(a);
                        if a < i {
                            assert(old_slots[uf.root(a)] is Some);
                        }
                    }
                }
            },
        }
        i += 1;
    }
    groups
}

} // verus!
