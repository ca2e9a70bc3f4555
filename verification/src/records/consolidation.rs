//! What consolidation means, stated over the raw records alone.
//!
//! Two raw records share when both carry one valid identifier. Records are connected
//! when a chain of sharing records leads from one to the other. Each class of connected
//! records becomes one entry of the catalog; the classes are ordered by their first
//! record, and inside a class the records are taken in the order they were staged.

use vstd::prelude::*;
use crate::connectivity::{
    lemma_linked_edge,
    lemma_linked_reflexive,
    lemma_linked_symmetric,
    lemma_linked_transitive,
    linked,
};
use crate::records::types::{IdentifierView, NoticeRecord, RecordView};

verus! {

/// Whether the raw record at `i` lists the identifier `id`.
pub open spec fn carries(raw: Seq<RecordView>, i: int, id: IdentifierView) -> bool {
    0 <= i < raw.len() && raw[i].identifiers.contains(id)
}

/// Whether the raw records at `i` and `j` carry one valid identifier in common.
pub open spec fn shares(raw: Seq<RecordView>, i: int, j: int) -> bool {
    exists|id: IdentifierView|
        !id.is_invalid() && #[trigger] carries(raw, i, id) && carries(raw, j, id)
}

/// The graph whose vertices are the raw records and whose edges are `shares`.
pub open spec fn sharing(raw: Seq<RecordView>) -> spec_fn(int, int) -> bool {
    |i: int, j: int| shares(raw, i, j)
}

/// Whether a chain of sharing records leads from the raw record at `i` to the one at `j`.
pub open spec fn connected(raw: Seq<RecordView>, i: int, j: int) -> bool {
    &&& 0 <= i < raw.len()
    &&& 0 <= j < raw.len()
    &&& linked(sharing(raw), i, j)
}

/// The numbers below `n`, ascending.
pub open spec fn indices(n: nat) -> Seq<int> {
    Seq::new(n, |i: int| i)
}

/// A record leads its class when no earlier record is connected to it.
pub open spec fn is_leader(raw: Seq<RecordView>, i: int) -> bool {
    forall|j: int| 0 <= j < i ==> !#[trigger] connected(raw, j, i)
}

/// `is_leader` as a predicate on positions.
pub open spec fn leading(raw: Seq<RecordView>) -> spec_fn(int) -> bool {
    |i: int| is_leader(raw, i)
}

/// `connected` as a predicate on the positions connected to `r`.
pub open spec fn connected_to(raw: Seq<RecordView>, r: int) -> spec_fn(int) -> bool {
    |i: int| connected(raw, r, i)
}

/// The leaders among the first `n` records, ascending.
pub open spec fn leaders_among(raw: Seq<RecordView>, n: nat) -> Seq<int> {
    indices(n).filter(leading(raw))
}

/// The records among the first `n` that are connected to `r`, ascending.
pub open spec fn members_among(raw: Seq<RecordView>, r: int, n: nat) -> Seq<int> {
    indices(n).filter(connected_to(raw, r))
}

/// The first record of every class, ascending: one per entry of the catalog.
pub open spec fn leaders(raw: Seq<RecordView>) -> Seq<int> {
    leaders_among(raw, raw.len())
}

/// The class of `r`: every record connected to it, ascending.
pub open spec fn members(raw: Seq<RecordView>, r: int) -> Seq<int> {
    members_among(raw, r, raw.len())
}

/// The identifier lists of the records at `members`, in that order.
pub open spec fn identifier_lists(raw: Seq<RecordView>, members: Seq<int>) -> Seq<
    Seq<IdentifierView>,
> {
    members.map_values(|i: int| raw[i].identifiers)
}

/// The notice lists of the records at `members`, in that order.
pub open spec fn notice_lists(raw: Seq<RecordView>, members: Seq<int>) -> Seq<Seq<NoticeRecord>> {
    members.map_values(|i: int| raw[i].notices)
}

/// `identifiers` without repetition: each where it first occurs.
pub open spec fn distinct(identifiers: Seq<IdentifierView>) -> Seq<IdentifierView> {
    identifiers.remove_duplicates(Seq::empty())
}

/// The entry made of the records at `members`: their identifiers, valid or not, each
/// once and in order of first appearance, and all their notices, one list after the
/// other with nothing left out.
pub open spec fn merged(raw: Seq<RecordView>, members: Seq<int>) -> RecordView {
    RecordView {
        identifiers: distinct(identifier_lists(raw, members).flatten()),
        notices: notice_lists(raw, members).flatten(),
    }
}

/// The catalog of `raw`: one entry per class, in the order of the leaders.
pub open spec fn consolidated(raw: Seq<RecordView>) -> Seq<RecordView> {
    leaders(raw).map_values(|r: int| merged(raw, members(raw, r)))
}

/// Whether one of `identifiers` is valid and has the key `key`.
pub open spec fn files_among(identifiers: Seq<IdentifierView>, key: Seq<char>) -> bool {
    exists|j: int|
        0 <= j < identifiers.len() && !(#[trigger] identifiers[j]).is_invalid()
            && identifiers[j].key() == key
}

/// Whether `record` lists a valid identifier whose key is `key`.
pub open spec fn files_under(record: RecordView, key: Seq<char>) -> bool {
    files_among(record.identifiers, key)
}

/// The position of the last of `records` that files under `key`, or -1 if none does.
pub open spec fn last_filing(records: Seq<RecordView>, key: Seq<char>) -> int
    decreases records.len(),
{
    if records.len() == 0 {
        -1
    } else if files_under(records.last(), key) {
        records.len() - 1
    } else {
        last_filing(records.drop_last(), key)
    }
}

/// The lookup of a catalog: the key of every valid identifier, leading to the last
/// entry that lists a valid identifier with that key.
pub open spec fn lookup(records: Seq<RecordView>) -> Map<Seq<char>, usize> {
    Map::new(
        |key: Seq<char>| last_filing(records, key) >= 0,
        |key: Seq<char>| last_filing(records, key) as usize,
    )
}

/// Every record is connected to itself.
pub proof fn lemma_connected_reflexive(raw: Seq<RecordView>, i: int)
    requires
        0 <= i < raw.len(),
    ensures
        connected(raw, i, i),
{
    lemma_linked_reflexive(sharing(raw), i);
}

/// Records that share are connected.
pub proof fn lemma_connected_shares(raw: Seq<RecordView>, i: int, j: int)
    requires
        shares(raw, i, j),
    ensures
        connected(raw, i, j),
{
    lemma_linked_edge(sharing(raw), i, j);
}

/// Being connected is symmetric.
pub proof fn lemma_connected_symmetric(raw: Seq<RecordView>, i: int, j: int)
    requires
        connected(raw, i, j),
    ensures
        connected(raw, j, i),
{
    let edge = sharing(raw);
    assert forall|x: int, y: int| #[trigger] edge(x, y) implies edge(y, x) by {
        let id = choose|id: IdentifierView|
            !id.is_invalid() && #[trigger] carries(raw, x, id) && carries(raw, y, id);
        assert(carries(raw, y, id) && carries(raw, x, id));
    }
    lemma_linked_symmetric(edge, i, j);
}

/// Being connected is transitive.
pub proof fn lemma_connected_transitive(raw: Seq<RecordView>, i: int, j: int, k: int)
    requires
        connected(raw, i, j),
        connected(raw, j, k),
    ensures
        connected(raw, i, k),
{
    lemma_linked_transitive(sharing(raw), i, j, k);
}

/// One more record adds itself to the leaders if it is one.
pub proof fn lemma_leaders_step(raw: Seq<RecordView>, n: nat)
    ensures
        leaders_among(raw, 0) == Seq::<int>::empty(),
        leaders_among(raw, n + 1) == if is_leader(raw, n as int) {
            leaders_among(raw, n).push(n as int)
        } else {
            leaders_among(raw, n)
        },
{
    reveal(Seq::filter);
    assert(indices(n + 1) =~= indices(n).push(n as int));
    indices(n).lemma_filter_push(n as int, leading(raw));
}

/// One more record adds itself to the class of `r` if it is connected to `r`.
pub proof fn lemma_members_step(raw: Seq<RecordView>, r: int, n: nat)
    ensures
        members_among(raw, r, 0) == Seq::<int>::empty(),
        members_among(raw, r, n + 1) == if connected(raw, r, n as int) {
            members_among(raw, r, n).push(n as int)
        } else {
            members_among(raw, r, n)
        },
{
    reveal(Seq::filter);
    assert(indices(n + 1) =~= indices(n).push(n as int));
    indices(n).lemma_filter_push(n as int, connected_to(raw, r));
}

/// There are no more entries than raw records.
pub proof fn lemma_consolidated_len(raw: Seq<RecordView>)
    ensures
        consolidated(raw).len() == leaders(raw).len(),
        leaders(raw).len() <= raw.len(),
{
    indices(raw.len()).lemma_filter_len(leading(raw));
}

/// The leaders among the first `n` records are leaders below `n`, strictly ascending,
/// and every leader below `n` is among them.
pub proof fn lemma_leaders_among(raw: Seq<RecordView>, n: nat)
    ensures
        forall|k: int|
            0 <= k < leaders_among(raw, n).len() ==> 0 <= (#[trigger] leaders_among(raw, n)[k]) < n
                && is_leader(raw, leaders_among(raw, n)[k]),
        forall|k: int, m: int|
            0 <= k < m < leaders_among(raw, n).len() ==> leaders_among(raw, n)[k] < leaders_among(
                raw,
                n,
            )[m],
        forall|i: int| 0 <= i < n && is_leader(raw, i) ==> leaders_among(raw, n).contains(i),
    decreases n,
{
    lemma_leaders_step(raw, 0);
    if n > 0 {
        let before = leaders_among(raw, (n - 1) as nat);
        let now = leaders_among(raw, n);
        lemma_leaders_among(raw, (n - 1) as nat);
        lemma_leaders_step(raw, (n - 1) as nat);
        assert forall|i: int| 0 <= i < n && is_leader(raw, i) implies now.contains(i) by {
            if i < n - 1 {
                let k = choose|k: int| 0 <= k < before.len() && before[k] == i;
                assert(now[k] == i);
            } else {
                assert(now[now.len() - 1] == i);
            }
        }
    }
}

/// The members among the first `n` records are the records below `n` connected to
/// `r`, strictly ascending.
pub proof fn lemma_members_among(raw: Seq<RecordView>, r: int, n: nat)
    ensures
        forall|k: int|
            0 <= k < members_among(raw, r, n).len() ==> 0 <= (#[trigger] members_among(
                raw,
                r,
                n,
            )[k]) < n && connected(raw, r, members_among(raw, r, n)[k]),
        forall|k: int, m: int|
            0 <= k < m < members_among(raw, r, n).len() ==> members_among(raw, r, n)[k]
                < members_among(raw, r, n)[m],
        forall|i: int| 0 <= i < n && connected(raw, r, i) ==> members_among(raw, r, n).contains(i),
    decreases n,
{
    lemma_members_step(raw, r, 0);
    if n > 0 {
        let before = members_among(raw, r, (n - 1) as nat);
        let now = members_among(raw, r, n);
        lemma_members_among(raw, r, (n - 1) as nat);
        lemma_members_step(raw, r, (n - 1) as nat);
        assert forall|i: int| 0 <= i < n && connected(raw, r, i) implies now.contains(i) by {
            if i < n - 1 {
                let k = choose|k: int| 0 <= k < before.len() && before[k] == i;
                assert(now[k] == i);
            } else {
                assert(now[now.len() - 1] == i);
            }
        }
    }
}

/// A record that nothing below `n` is connected to has no member below `n`.
pub proof fn lemma_members_none(raw: Seq<RecordView>, r: int, n: nat)
    requires
        forall|i: int| 0 <= i < n ==> !#[trigger] connected(raw, r, i),
    ensures
        members_among(raw, r, n) == Seq::<int>::empty(),
    decreases n,
{
    lemma_members_step(raw, r, 0);
    if n > 0 {
        lemma_members_none(raw, r, (n - 1) as nat);
        lemma_members_step(raw, r, (n - 1) as nat);
    }
}

/// An entry is made of the records it names and of nothing else.
pub proof fn lemma_merged_depends_on_members(
    raw: Seq<RecordView>,
    other: Seq<RecordView>,
    members: Seq<int>,
)
    requires
        forall|t: int| 0 <= t < members.len() ==> raw[#[trigger] members[t]] == other[members[t]],
    ensures
        merged(raw, members) == merged(other, members),
{
    assert(identifier_lists(raw, members) =~= identifier_lists(other, members));
    assert(notice_lists(raw, members) =~= notice_lists(other, members));
}

/// The keys under which one of `records` files.
pub open spec fn filed_keys(records: Seq<RecordView>) -> Set<Seq<char>> {
    Set::new(
        |key: Seq<char>|
            exists|k: int| 0 <= k < records.len() && files_under(#[trigger] records[k], key),
    )
}

/// The lookup has the keys under which an entry files, and no others.
pub proof fn lemma_lookup_keys(records: Seq<RecordView>)
    ensures
        lookup(records).dom() == filed_keys(records),
{
    assert forall|key: Seq<char>|
        lookup(records).dom().contains(key) <==> filed_keys(records).contains(key) by {
        lemma_last_filing(records, key);
        if filed_keys(records).contains(key) {
            let k = choose|k: int|
                0 <= k < records.len() && files_under(#[trigger] records[k], key);
            assert(last_filing(records, key) >= k);
        }
        if lookup(records).dom().contains(key) {
            assert(files_under(records[last_filing(records, key)], key));
        }
    }
    assert(lookup(records).dom() =~= filed_keys(records));
}

/// What the last filing is: the greatest position that files under the key.
pub proof fn lemma_last_filing(records: Seq<RecordView>, key: Seq<char>)
    ensures
        -1 <= last_filing(records, key) < records.len(),
        last_filing(records, key) >= 0 ==> files_under(records[last_filing(records, key)], key),
        forall|k: int|
            last_filing(records, key) < k < records.len() ==> !files_under(
                #[trigger] records[k],
                key,
            ),
    decreases records.len(),
{
    if records.len() > 0 && !files_under(records.last(), key) {
        let shorter = records.drop_last();
        lemma_last_filing(shorter, key);
        assert forall|k: int| last_filing(records, key) < k < records.len() implies !files_under(
            #[trigger] records[k],
            key,
        ) by {
            if k < shorter.len() {
                assert(shorter[k] == records[k]);
            }
        }
    }
}

} // verus!
