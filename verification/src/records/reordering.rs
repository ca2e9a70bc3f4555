//! Consolidation does not depend on the order of the raw records: staged in another
//! order, they give the same entries at other positions.

use vstd::multiset::Multiset;
use vstd::prelude::*;
use vstd::seq_lib::{
    lemma_flatten_concat,
    lemma_multiset_commutative,
    seq_to_set_is_finite,
    to_multiset_build,
    to_multiset_remove,
};
use vstd::set_lib::{lemma_int_range, lemma_subset_equality, set_int_range};
use crate::connectivity::{encloses, lemma_linked_least};
use crate::records::consolidation::{
    carries,
    connected,
    consolidated,
    filed_keys,
    files_under,
    is_leader,
    leaders,
    lemma_connected_reflexive,
    lemma_connected_shares,
    lemma_connected_symmetric,
    lemma_connected_transitive,
    lemma_leaders_among,
    lemma_lookup_keys,
    lemma_members_among,
    lookup,
    members,
    merged,
    notice_lists,
    shares,
    sharing,
};
use crate::records::laws::{
    landing,
    lands_in,
    lemma_entry,
    lemma_landing,
    lemma_merged_identifiers,
    lemma_same_landing,
};
use crate::records::types::{IdentifierView, NoticeRecord, RecordView};

verus! {

/// Whether `order` names every position below `n` exactly once.
pub open spec fn is_permutation(order: Seq<int>, n: nat) -> bool {
    &&& order.len() == n
    &&& order.no_duplicates()
    &&& forall|j: int| 0 <= j < n ==> 0 <= #[trigger] order[j] < n
}

/// The raw records in another order: the record at `order[j]` comes to stand at `j`.
pub open spec fn rearranged(raw: Seq<RecordView>, order: Seq<int>) -> Seq<RecordView> {
    order.map_values(|i: int| raw[i])
}

/// What an entry is apart from any order: the set of its identifiers, and its notices
/// with the number of times each occurs.
pub open spec fn shape(entry: RecordView) -> (Set<IdentifierView>, Multiset<NoticeRecord>) {
    (entry.identifiers.to_set(), entry.notices.to_multiset())
}

/// The shapes of the entries of a catalog.
pub open spec fn shapes(catalog: Seq<RecordView>) -> Seq<
    (Set<IdentifierView>, Multiset<NoticeRecord>),
> {
    catalog.map_values(|entry: RecordView| shape(entry))
}

/// What a catalog is apart from the positions of its entries.
pub open spec fn grouping(catalog: Seq<RecordView>) -> Set<
    (Set<IdentifierView>, Multiset<NoticeRecord>),
> {
    shapes(catalog).to_set()
}

/// Where `order` names the position `i`.
spec fn place(order: Seq<int>, i: int) -> int {
    choose|j: int| 0 <= j < order.len() && order[j] == i
}

/// A permutation names every position.
proof fn lemma_place(order: Seq<int>, n: nat, i: int)
    requires
        is_permutation(order, n),
        0 <= i < n,
    ensures
        0 <= place(order, i) < n,
        order[place(order, i)] == i,
        forall|j: int| 0 <= j < n && order[j] == i ==> j == place(order, i),
{
    let named = order.to_set();
    let all = set_int_range(0, n as int);
    lemma_int_range(0, n as int);
    seq_to_set_is_finite(order);
    order.unique_seq_to_set();
    assert(named.subset_of(all)) by {
        assert forall|x: int| named.contains(x) implies all.contains(x) by {
            let j = choose|j: int| 0 <= j < order.len() && order[j] == x;
            assert(0 <= order[j] < n);
        }
    }
    lemma_subset_equality(named, all);
    assert(all.contains(i));
    assert(order.contains(i));
}

/// The relation that the rearranged records inherit from the connections of the
/// records as they were given.
spec fn connected_before(raw: Seq<RecordView>, order: Seq<int>) -> spec_fn(int, int) -> bool {
    |a: int, b: int|
        a == b || (0 <= a < order.len() && 0 <= b < order.len() && connected(
            raw,
            order[a],
            order[b],
        ))
}

/// The relation that the records as they were given inherit from the connections
/// of the rearranged ones.
spec fn connected_after(raw: Seq<RecordView>, order: Seq<int>) -> spec_fn(int, int) -> bool {
    |u: int, v: int|
        u == v || (0 <= u < order.len() && 0 <= v < order.len() && connected(
            rearranged(raw, order),
            place(order, u),
            place(order, v),
        ))
}

/// Records share after the rearrangement exactly when they shared before.
proof fn lemma_rearranged_shares(raw: Seq<RecordView>, order: Seq<int>, a: int, b: int)
    requires
        is_permutation(order, raw.len()),
        0 <= a < raw.len(),
        0 <= b < raw.len(),
    ensures
        shares(rearranged(raw, order), a, b) <==> shares(raw, order[a], order[b]),
{
    let moved = rearranged(raw, order);
    if shares(moved, a, b) {
        let id = choose|id: IdentifierView|
            !id.is_invalid() && #[trigger] carries(moved, a, id) && carries(moved, b, id);
        assert(carries(raw, order[a], id) && carries(raw, order[b], id));
    }
    if shares(raw, order[a], order[b]) {
        let id = choose|id: IdentifierView|
            !id.is_invalid() && #[trigger] carries(raw, order[a], id) && carries(raw, order[b], id);
        assert(carries(moved, a, id) && carries(moved, b, id));
    }
}

/// Records are connected after the rearrangement exactly when they were before.
pub proof fn lemma_rearranged_connected(raw: Seq<RecordView>, order: Seq<int>, a: int, b: int)
    requires
        is_permutation(order, raw.len()),
        0 <= a < raw.len(),
        0 <= b < raw.len(),
    ensures
        connected(rearranged(raw, order), a, b) <==> connected(raw, order[a], order[b]),
{
    let n = raw.len();
    let moved = rearranged(raw, order);
    if connected(moved, a, b) {
        let within = connected_before(raw, order);
        let edge = sharing(moved);
        assert forall|x: int| #[trigger] within(x, x) by {}
        assert forall|x: int, y: int, z: int| #[trigger]
            within(x, y) && #[trigger] within(y, z) implies within(x, z) by {
            if x != y && y != z {
                lemma_connected_transitive(raw, order[x], order[y], order[z]);
            }
        }
        assert forall|x: int, y: int| #[trigger] edge(x, y) implies within(x, y) by {
            let id = choose|id: IdentifierView|
                !id.is_invalid() && #[trigger] carries(moved, x, id) && carries(moved, y, id);
            lemma_rearranged_shares(raw, order, x, y);
            lemma_connected_shares(raw, order[x], order[y]);
        }
        assert(encloses(within, edge));
        lemma_linked_least(edge, within, a, b);
        if a == b {
            lemma_connected_reflexive(raw, order[a]);
        }
    }
    if connected(raw, order[a], order[b]) {
        let within = connected_after(raw, order);
        let edge = sharing(raw);
        assert forall|x: int| #[trigger] within(x, x) by {}
        assert forall|x: int, y: int, z: int| #[trigger]
            within(x, y) && #[trigger] within(y, z) implies within(x, z) by {
            if x != y && y != z {
                lemma_place(order, n, x);
                lemma_place(order, n, y);
                lemma_place(order, n, z);
                lemma_connected_transitive(
                    moved,
                    place(order, x),
                    place(order, y),
                    place(order, z),
                );
            }
        }
        assert forall|x: int, y: int| #[trigger] edge(x, y) implies within(x, y) by {
            let id = choose|id: IdentifierView|
                !id.is_invalid() && #[trigger] carries(raw, x, id) && carries(raw, y, id);
            lemma_place(order, n, x);
            lemma_place(order, n, y);
            lemma_rearranged_shares(raw, order, place(order, x), place(order, y));
            lemma_connected_shares(moved, place(order, x), place(order, y));
        }
        assert(encloses(within, edge));
        lemma_linked_least(edge, within, order[a], order[b]);
        lemma_place(order, n, order[a]);
        lemma_place(order, n, order[b]);
        if order[a] == order[b] {
            lemma_connected_reflexive(moved, a);
        }
    }
}

/// The notices of the records at `positions`, counted and without order.
pub open spec fn notices_among(raw: Seq<RecordView>, positions: Seq<int>) -> Multiset<
    NoticeRecord,
> {
    notice_lists(raw, positions).flatten().to_multiset()
}

proof fn lemma_notices_among_concat(raw: Seq<RecordView>, first: Seq<int>, second: Seq<int>)
    ensures
        notices_among(raw, first + second) == notices_among(raw, first).add(
            notices_among(raw, second),
        ),
{
    let one = notice_lists(raw, first);
    let two = notice_lists(raw, second);
    assert(notice_lists(raw, first + second) =~= one + two);
    lemma_flatten_concat(one, two);
    lemma_multiset_commutative(one.flatten(), two.flatten());
}

/// The notices of a set of records, counted, do not depend on the order in which
/// the records are named.
proof fn lemma_notices_among_any_order(raw: Seq<RecordView>, first: Seq<int>, second: Seq<int>)
    requires
        first.no_duplicates(),
        second.no_duplicates(),
        forall|x: int| first.contains(x) <==> second.contains(x),
    ensures
        notices_among(raw, first) == notices_among(raw, second),
    decreases first.len(),
{
    if first.len() == 0 {
        if second.len() > 0 {
            assert(second.contains(second[0]));
        }
        assert(second =~= first);
    } else {
        let x = first.last();
        let rest = first.drop_last();
        assert(first.contains(x));
        let p = choose|p: int| 0 <= p < second.len() && second[p] == x;
        let front = second.take(p);
        let back = second.skip(p + 1);
        let others = front + back;
        assert(second =~= front + seq![x] + back);
        assert(first =~= rest + seq![x]);
        assert forall|a: int, b: int|
            0 <= a < others.len() && 0 <= b < others.len() && a != b implies others[a]
            != others[b] by {
            let from = |k: int|
                if k < p {
                    k
                } else {
                    k + 1
                };
            assert(others[a] == second[from(a)]);
            assert(others[b] == second[from(b)]);
        }
        assert forall|y: int| rest.contains(y) <==> others.contains(y) by {
            if rest.contains(y) {
                let a = choose|a: int| 0 <= a < rest.len() && rest[a] == y;
                assert(first[a] == y);
                assert(y != x);
                assert(first.contains(y));
                let b = choose|b: int| 0 <= b < second.len() && second[b] == y;
                if b < p {
                    assert(others[b] == y);
                } else {
                    assert(others[b - 1] == y);
                }
            }
            if others.contains(y) {
                let b = choose|b: int| 0 <= b < others.len() && others[b] == y;
                let at = if b < p {
                    b
                } else {
                    b + 1
                };
                assert(second[at] == y);
                assert(second.contains(y));
                assert(y != x);
                let a = choose|a: int| 0 <= a < first.len() && first[a] == y;
                assert(rest[a] == y);
            }
        }
        lemma_notices_among_any_order(raw, rest, others);
        lemma_notices_among_concat(raw, rest, seq![x]);
        lemma_notices_among_concat(raw, front + seq![x], back);
        lemma_notices_among_concat(raw, front, seq![x]);
        lemma_notices_among_concat(raw, front, back);
        assert(notices_among(raw, second) =~= notices_among(raw, others).add(
            notices_among(raw, seq![x]),
        ));
    }
}

/// An entry of the rearranged records has the shape of the entry that its leader
/// landed in before the rearrangement.
proof fn lemma_rearranged_entry(raw: Seq<RecordView>, order: Seq<int>, k: int)
    requires
        is_permutation(order, raw.len()),
        0 <= k < leaders(rearranged(raw, order)).len(),
    ensures
        0 <= order[leaders(rearranged(raw, order))[k]] < raw.len(),
        0 <= landing(raw, order[leaders(rearranged(raw, order))[k]]) < consolidated(raw).len(),
        shape(consolidated(rearranged(raw, order))[k]) == shape(
            consolidated(raw)[landing(raw, order[leaders(rearranged(raw, order))[k]])],
        ),
{
    let n = raw.len();
    let moved = rearranged(raw, order);
    lemma_leaders_among(moved, n);
    let head = leaders(moved)[k];
    let class = members(moved, head);
    lemma_members_among(moved, head, n);
    lemma_entry(moved, k);
    let origin = order[head];
    let at = landing(raw, origin);
    lemma_landing(raw, origin);
    lemma_entry(raw, at);
    let first = leaders(raw)[at];
    let there = members(raw, first);
    lemma_members_among(raw, first, n);
    lemma_leaders_among(raw, n);
    let named = class.map_values(|j: int| order[j]);
    // The records of the class, named by where they stood, are those of the entry.
    assert forall|x: int| named.contains(x) <==> there.contains(x) by {
        if named.contains(x) {
            let t = choose|t: int| 0 <= t < named.len() && named[t] == x;
            let j = class[t];
            assert(connected(moved, head, j));
            lemma_rearranged_connected(raw, order, head, j);
            lemma_connected_transitive(raw, first, origin, x);
        }
        if there.contains(x) {
            let t = choose|t: int| 0 <= t < there.len() && there[t] == x;
            assert(connected(raw, first, there[t]));
            lemma_place(order, n, x);
            let j = place(order, x);
            lemma_connected_symmetric(raw, first, origin);
            lemma_connected_transitive(raw, origin, first, x);
            lemma_rearranged_connected(raw, order, head, j);
            assert(class.contains(j));
            let s = choose|s: int| 0 <= s < class.len() && class[s] == j;
            assert(named[s] == x);
        }
    }
    assert(named.no_duplicates()) by {
        assert forall|a: int, b: int|
            0 <= a < named.len() && 0 <= b < named.len() && a != b implies named[a]
            != named[b] by {
            if a < b {
                assert(class[a] < class[b]);
            } else {
                assert(class[b] < class[a]);
            }
        }
    }
    assert(there.no_duplicates()) by {
        assert forall|a: int, b: int|
            0 <= a < there.len() && 0 <= b < there.len() && a != b implies there[a]
            != there[b] by {
            if a < b {
                assert(there[a] < there[b]);
            } else {
                assert(there[b] < there[a]);
            }
        }
    }
    assert(notice_lists(moved, class) =~= notice_lists(raw, named));
    lemma_notices_among_any_order(raw, named, there);
    let new_entry = merged(moved, class);
    let old_entry = merged(raw, there);
    assert(new_entry.identifiers.to_set() =~= old_entry.identifiers.to_set()) by {
        assert forall|id: IdentifierView|
            new_entry.identifiers.contains(id) <==> old_entry.identifiers.contains(id) by {
            lemma_merged_identifiers(moved, class, id);
            lemma_merged_identifiers(raw, there, id);
            if new_entry.identifiers.contains(id) {
                let t = choose|t: int|
                    0 <= t < class.len() && moved[#[trigger] class[t]].identifiers.contains(id);
                assert(named.contains(named[t]));
                let s = choose|s: int| 0 <= s < there.len() && there[s] == named[t];
                assert(raw[there[s]].identifiers.contains(id));
            }
            if old_entry.identifiers.contains(id) {
                let s = choose|s: int|
                    0 <= s < there.len() && raw[#[trigger] there[s]].identifiers.contains(id);
                assert(there.contains(there[s]));
                let t = choose|t: int| 0 <= t < named.len() && named[t] == there[s];
                assert(moved[class[t]].identifiers.contains(id));
            }
        }
    }
}

/// The entry of the records as they were given that the entry at `k` of the
/// rearranged records answers to: the one that its leader landed in.
pub open spec fn counterpart(raw: Seq<RecordView>, order: Seq<int>, k: int) -> int {
    landing(raw, order[leaders(rearranged(raw, order))[k]])
}

/// The counterpart of every entry of the rearranged records.
pub open spec fn counterparts(raw: Seq<RecordView>, order: Seq<int>) -> Seq<int> {
    Seq::new(
        consolidated(rearranged(raw, order)).len(),
        |k: int| counterpart(raw, order, k),
    )
}

/// `items` in the order that `order` names them.
pub open spec fn picked<A>(items: Seq<A>, order: Seq<int>) -> Seq<A> {
    order.map_values(|i: int| items[i])
}

/// Items in another order are the same items, each as many times.
pub proof fn lemma_picked_multiset<A>(items: Seq<A>, order: Seq<int>)
    requires
        is_permutation(order, items.len()),
    ensures
        picked(items, order).to_multiset() == items.to_multiset(),
    decreases items.len(),
{
    let moved = picked(items, order);
    if items.len() == 0 {
        assert(moved =~= items);
    } else {
        let n = items.len();
        let last = items.last();
        let rest = items.drop_last();
        lemma_place(order, n, n - 1);
        let p = place(order, n - 1);
        let fewer = order.remove(p);
        assert forall|j: int| 0 <= j < fewer.len() implies 0 <= #[trigger] fewer[j] < n - 1 by {
            let at = if j < p {
                j
            } else {
                j + 1
            };
            assert(fewer[j] == order[at]);
            assert(0 <= order[at] < n);
        }
        assert forall|a: int, b: int|
            0 <= a < fewer.len() && 0 <= b < fewer.len() && a != b implies fewer[a]
            != fewer[b] by {
            let from = |j: int|
                if j < p {
                    j
                } else {
                    j + 1
                };
            assert(fewer[a] == order[from(a)]);
            assert(fewer[b] == order[from(b)]);
        }
        assert(is_permutation(fewer, rest.len()));
        lemma_picked_multiset(rest, fewer);
        assert(moved.remove(p) =~= picked(rest, fewer));
        to_multiset_remove(moved, p);
        to_multiset_build(rest, last);
        assert(items =~= rest.push(last));
        assert(moved[p] == last);
        moved.to_multiset_ensures();
        assert(moved.contains(last));
        assert(moved.to_multiset() =~= moved.to_multiset().remove(last).insert(last));
    }
}

/// Every entry of the rearranged records answers to one entry of the records as
/// they were given, which has its shape, and every entry of these is answered to
/// by exactly one: there are as many entries after the rearrangement as before.
pub proof fn lemma_counterparts(raw: Seq<RecordView>, order: Seq<int>)
    requires
        is_permutation(order, raw.len()),
    ensures
        is_permutation(counterparts(raw, order), consolidated(raw).len()),
        consolidated(rearranged(raw, order)).len() == consolidated(raw).len(),
        forall|k: int|
            0 <= k < consolidated(raw).len() ==> shape(
                #[trigger] consolidated(rearranged(raw, order))[k],
            ) == shape(consolidated(raw)[counterpart(raw, order, k)]),
{
    let n = raw.len();
    let moved = rearranged(raw, order);
    let before = consolidated(raw);
    let after = consolidated(moved);
    let answers = counterparts(raw, order);
    lemma_leaders_among(moved, n);
    lemma_leaders_among(raw, n);
    assert forall|k: int| 0 <= k < after.len() implies 0 <= #[trigger] answers[k]
        < before.len() && shape(after[k]) == shape(before[answers[k]]) by {
        lemma_rearranged_entry(raw, order, k);
    }
    assert forall|a: int, b: int|
        0 <= a < answers.len() && 0 <= b < answers.len() && a != b implies answers[a]
        != answers[b] by {
        let one = leaders(moved)[a];
        let other = leaders(moved)[b];
        if answers[a] == answers[b] {
            lemma_same_landing(raw, order[one], order[other]);
            lemma_rearranged_connected(raw, order, one, other);
            lemma_connected_symmetric(moved, one, other);
            if a < b {
                assert(one < other);
                assert(is_leader(moved, other));
            } else {
                assert(other < one);
                assert(is_leader(moved, one));
            }
        }
    }
    let named = answers.to_set();
    let all = set_int_range(0, before.len() as int);
    lemma_int_range(0, before.len() as int);
    seq_to_set_is_finite(answers);
    answers.unique_seq_to_set();
    assert forall|at: int| all.contains(at) implies named.contains(at) by {
        let first = leaders(raw)[at];
        lemma_connected_reflexive(raw, first);
        assert(lands_in(raw, first, at));
        lemma_place(order, n, first);
        let j = place(order, first);
        lemma_landing(moved, j);
        let k = landing(moved, j);
        let head = leaders(moved)[k];
        lemma_rearranged_connected(raw, order, head, j);
        lemma_same_landing(raw, order[head], first);
        lemma_landing(raw, first);
        assert(answers[k] == at);
    }
    assert forall|at: int| named.contains(at) implies all.contains(at) by {
        let k = choose|k: int| 0 <= k < answers.len() && answers[k] == at;
        assert(0 <= answers[k] < before.len());
    }
    assert(named =~= all);
    assert forall|k: int| 0 <= k < before.len() implies shape(#[trigger] after[k]) == shape(
        before[counterpart(raw, order, k)],
    ) by {
        assert(answers[k] == counterpart(raw, order, k));
    }
}

/// Staging the raw records in another order changes the positions of the entries and
/// the order inside them, and nothing else: there are as many entries, the same
/// shapes occur among them as many times, and the lookup has the same keys.
pub proof fn lemma_reordering_keeps_every_entry(raw: Seq<RecordView>, order: Seq<int>)
    requires
        is_permutation(order, raw.len()),
    ensures
        consolidated(rearranged(raw, order)).len() == consolidated(raw).len(),
        shapes(consolidated(rearranged(raw, order))).to_multiset() == shapes(
            consolidated(raw),
        ).to_multiset(),
        lookup(consolidated(rearranged(raw, order))).dom() == lookup(consolidated(raw)).dom(),
{
    let before = consolidated(raw);
    let after = consolidated(rearranged(raw, order));
    let answers = counterparts(raw, order);
    lemma_counterparts(raw, order);
    assert(shapes(after) =~= picked(shapes(before), answers));
    lemma_picked_multiset(shapes(before), answers);
    lemma_lookup_keys(before);
    lemma_lookup_keys(after);
    assert forall|key: Seq<char>|
        filed_keys(after).contains(key) <==> filed_keys(before).contains(key) by {
        if filed_keys(after).contains(key) {
            let k = choose|k: int| 0 <= k < after.len() && files_under(#[trigger] after[k], key);
            lemma_same_shape_files(after[k], before[answers[k]], key);
        }
        if filed_keys(before).contains(key) {
            let at = choose|at: int|
                0 <= at < before.len() && files_under(#[trigger] before[at], key);
            lemma_place(answers, before.len(), at);
            let k = place(answers, at);
            lemma_same_shape_files(before[at], after[k], key);
        }
    }
    assert(filed_keys(after) =~= filed_keys(before));
}

/// Entries of one shape file under the same keys.
proof fn lemma_same_shape_files(one: RecordView, other: RecordView, key: Seq<char>)
    requires
        shape(one) == shape(other),
        files_under(one, key),
    ensures
        files_under(other, key),
{
    let j = choose|j: int|
        0 <= j < one.identifiers.len() && !(#[trigger] one.identifiers[j]).is_invalid()
            && one.identifiers[j].key() == key;
    let id = one.identifiers[j];
    assert(one.identifiers.to_set().contains(id));
    assert(other.identifiers.to_set().contains(id));
    let at = choose|at: int| 0 <= at < other.identifiers.len() && other.identifiers[at] == id;
    assert(!other.identifiers[at].is_invalid() && other.identifiers[at].key() == key);
}

/// Staging the raw records in another order changes the positions of the entries and
/// the order inside them, and nothing else: the catalog has the same entries, each
/// with the same identifiers and the same notices as many times.
pub proof fn lemma_reordering_keeps_the_grouping(raw: Seq<RecordView>, order: Seq<int>)
    requires
        is_permutation(order, raw.len()),
    ensures
        grouping(consolidated(rearranged(raw, order))) == grouping(consolidated(raw)),
{
    let n = raw.len();
    let moved = rearranged(raw, order);
    let before = shapes(consolidated(raw));
    let after = shapes(consolidated(moved));
    assert forall|s: (Set<IdentifierView>, Multiset<NoticeRecord>)|
        after.contains(s) <==> before.contains(s) by {
        if after.contains(s) {
            let k = choose|k: int| 0 <= k < after.len() && after[k] == s;
            lemma_rearranged_entry(raw, order, k);
            let at = landing(raw, order[leaders(moved)[k]]);
            assert(before[at] == s);
        }
        if before.contains(s) {
            let at = choose|at: int| 0 <= at < before.len() && before[at] == s;
            lemma_leaders_among(raw, n);
            let first = leaders(raw)[at];
            lemma_connected_reflexive(raw, first);
            assert(lands_in(raw, first, at));
            lemma_place(order, n, first);
            let j = place(order, first);
            lemma_landing(moved, j);
            let k = landing(moved, j);
            let head = leaders(moved)[k];
            lemma_leaders_among(moved, n);
            lemma_rearranged_entry(raw, order, k);
            lemma_rearranged_connected(raw, order, head, j);
            lemma_same_landing(raw, order[head], first);
            lemma_landing(raw, first);
            assert(after[k] == s);
        }
    }
    assert(after.to_set() =~= before.to_set());
}

} // verus!
