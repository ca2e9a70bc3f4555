//! What holds of every catalog, proved from the definition of consolidation.

use vstd::prelude::*;
use vstd::seq_lib::lemma_flatten_concat;
use crate::connectivity::{is_walk, leads, lemma_linked_monotone, steps};
use crate::records::consolidation::{
    carries,
    connected,
    consolidated,
    distinct,
    files_under,
    identifier_lists,
    is_leader,
    last_filing,
    leaders,
    lemma_connected_reflexive,
    lemma_connected_shares,
    lemma_connected_symmetric,
    lemma_connected_transitive,
    lemma_consolidated_len,
    lemma_last_filing,
    lemma_leaders_among,
    lemma_members_among,
    lookup,
    members,
    merged,
    notice_lists,
    shares,
    sharing,
};
use crate::records::types::{IdentifierView, RecordView};
use crate::text::{is_blank, lemma_decimal_injective, lemma_decimal_shape};

verus! {

/// Whether the entry at `k` is the one that the raw record at `i` belongs to.
pub open spec fn lands_in(raw: Seq<RecordView>, i: int, k: int) -> bool {
    0 <= k < leaders(raw).len() && connected(raw, leaders(raw)[k], i)
}

/// The position of the entry that the raw record at `i` becomes part of.
pub open spec fn landing(raw: Seq<RecordView>, i: int) -> int {
    choose|k: int| lands_in(raw, i, k)
}

proof fn lemma_has_leader(raw: Seq<RecordView>, i: int)
    requires
        0 <= i < raw.len(),
    ensures
        exists|k: int| lands_in(raw, i, k),
    decreases i,
{
    lemma_leaders_among(raw, raw.len());
    if is_leader(raw, i) {
        let k = choose|k: int| 0 <= k < leaders(raw).len() && leaders(raw)[k] == i;
        lemma_connected_reflexive(raw, i);
        assert(lands_in(raw, i, k));
    } else {
        let j = choose|j: int| 0 <= j < i && connected(raw, j, i);
        lemma_has_leader(raw, j);
        let k = choose|k: int| lands_in(raw, j, k);
        lemma_connected_transitive(raw, leaders(raw)[k], j, i);
        assert(lands_in(raw, i, k));
    }
}

/// Every raw record lands in exactly one entry: the one whose leader it is connected to.
pub proof fn lemma_landing(raw: Seq<RecordView>, i: int)
    requires
        0 <= i < raw.len(),
    ensures
        lands_in(raw, i, landing(raw, i)),
        0 <= landing(raw, i) < consolidated(raw).len(),
        forall|k: int| lands_in(raw, i, k) ==> k == landing(raw, i),
        members(raw, leaders(raw)[landing(raw, i)]).contains(i),
{
    lemma_has_leader(raw, i);
    let at = landing(raw, i);
    lemma_leaders_among(raw, raw.len());
    lemma_members_among(raw, leaders(raw)[at], raw.len());
    assert forall|k: int| lands_in(raw, i, k) implies k == at by {
        let one = leaders(raw)[k];
        let other = leaders(raw)[at];
        lemma_connected_symmetric(raw, other, i);
        lemma_connected_transitive(raw, one, i, other);
        lemma_connected_symmetric(raw, one, other);
        if k < at {
            assert(is_leader(raw, other));
            assert(one < other);
        } else if at < k {
            assert(is_leader(raw, one));
            assert(other < one);
        }
    }
}

/// Connected records land in the same entry, and only they do.
pub proof fn lemma_same_landing(raw: Seq<RecordView>, i: int, j: int)
    requires
        0 <= i < raw.len(),
        0 <= j < raw.len(),
    ensures
        landing(raw, i) == landing(raw, j) <==> connected(raw, i, j),
{
    lemma_landing(raw, i);
    lemma_landing(raw, j);
    let head = leaders(raw)[landing(raw, i)];
    if connected(raw, i, j) {
        lemma_connected_transitive(raw, head, i, j);
        assert(lands_in(raw, j, landing(raw, i)));
    }
    if landing(raw, i) == landing(raw, j) {
        lemma_connected_symmetric(raw, head, i);
        lemma_connected_transitive(raw, i, head, j);
    }
}

/// Something is in the concatenation of lists exactly when it is in one of them.
pub proof fn lemma_flatten_contains<A>(lists: Seq<Seq<A>>, x: A)
    ensures
        lists.flatten().contains(x) <==> exists|t: int|
            0 <= t < lists.len() && (#[trigger] lists[t]).contains(x),
    decreases lists.len(),
{
    if lists.len() == 0 {
        assert(lists.flatten() =~= Seq::<A>::empty());
    } else {
        let rest = lists.drop_last();
        let last = lists.last();
        assert(lists =~= rest.push(last));
        rest.lemma_flatten_push(last);
        lemma_flatten_contains(rest, x);
        let whole = lists.flatten();
        assert(whole =~= rest.flatten() + last);
        if whole.contains(x) {
            let at = choose|at: int| 0 <= at < whole.len() && whole[at] == x;
            if at < rest.flatten().len() {
                assert(rest.flatten()[at] == x);
                let t = choose|t: int| 0 <= t < rest.len() && (#[trigger] rest[t]).contains(x);
                assert(lists[t].contains(x));
            } else {
                assert(last[at - rest.flatten().len()] == x);
                assert(lists[lists.len() - 1].contains(x));
            }
        }
        if exists|t: int| 0 <= t < lists.len() && (#[trigger] lists[t]).contains(x) {
            let t = choose|t: int| 0 <= t < lists.len() && (#[trigger] lists[t]).contains(x);
            if t < rest.len() {
                assert(rest[t].contains(x));
                let at = choose|at: int| 0 <= at < rest.flatten().len() && rest.flatten()[at] == x;
                assert(whole[at] == x);
            } else {
                let at = choose|at: int| 0 <= at < last.len() && last[at] == x;
                assert(whole[rest.flatten().len() + at] == x);
            }
        }
    }
}

/// `distinct` keeps every identifier, and each once.
pub proof fn lemma_distinct(identifiers: Seq<IdentifierView>)
    ensures
        distinct(identifiers).no_duplicates(),
        forall|id: IdentifierView| distinct(identifiers).contains(id) <==> identifiers.contains(id),
    decreases identifiers.len(),
{
    let none = Seq::<IdentifierView>::empty();
    identifiers.lemma_remove_duplicates_properties(none);
    assert(identifiers + none =~= identifiers);
    if identifiers.len() == 0 {
    } else {
        let rest = identifiers.drop_last();
        let last = identifiers.last();
        lemma_distinct(rest);
        assert(identifiers =~= rest + seq![last]);
        assert(rest + none =~= rest);
        rest.lemma_remove_duplicates_append(last, none);
        rest.lemma_remove_duplicates_properties(none);
        if !rest.contains(last) {
            let before = distinct(rest);
            let now = distinct(identifiers);
            assert(now == before + seq![last]);
            assert forall|a: int, b: int|
                0 <= a < now.len() && 0 <= b < now.len() && a != b implies now[a] != now[b] by {
                if a < before.len() && b < before.len() {
                } else if a < before.len() {
                    assert(before.contains(before[a]));
                } else if b < before.len() {
                    assert(before.contains(before[b]));
                }
            }
        }
    }
}

/// An entry lists an identifier exactly when one of its records does, and lists it once.
pub proof fn lemma_merged_identifiers(raw: Seq<RecordView>, members: Seq<int>, id: IdentifierView)
    ensures
        merged(raw, members).identifiers.no_duplicates(),
        merged(raw, members).identifiers.contains(id) <==> exists|t: int|
            0 <= t < members.len() && raw[#[trigger] members[t]].identifiers.contains(id),
{
    let lists = identifier_lists(raw, members);
    lemma_distinct(lists.flatten());
    lemma_flatten_contains(lists, id);
    if exists|t: int| 0 <= t < lists.len() && (#[trigger] lists[t]).contains(id) {
        let t = choose|t: int| 0 <= t < lists.len() && (#[trigger] lists[t]).contains(id);
        assert(raw[members[t]].identifiers.contains(id));
    }
    if exists|t: int|
        0 <= t < members.len() && raw[#[trigger] members[t]].identifiers.contains(id) {
        let t = choose|t: int|
            0 <= t < members.len() && raw[#[trigger] members[t]].identifiers.contains(id);
        assert(lists[t].contains(id));
    }
}

/// The notices of an entry are those of the records before one of its records, then
/// those of that record, then those of the records after it: all of them, in order.
pub proof fn lemma_merged_notices(raw: Seq<RecordView>, members: Seq<int>, t: int)
    requires
        0 <= t < members.len(),
    ensures
        merged(raw, members).notices == merged(raw, members.take(t)).notices
            + raw[members[t]].notices + merged(raw, members.skip(t + 1)).notices,
{
    let before = notice_lists(raw, members.take(t));
    let own = seq![raw[members[t]].notices];
    let after = notice_lists(raw, members.skip(t + 1));
    assert(notice_lists(raw, members) =~= before + own + after);
    lemma_flatten_concat(before + own, after);
    lemma_flatten_concat(before, own);
    own.lemma_flatten_singleton();
}

/// An entry is what its class merges to, and a record is in the class of the entry
/// it lands in.
pub proof fn lemma_entry(raw: Seq<RecordView>, k: int)
    requires
        0 <= k < leaders(raw).len(),
    ensures
        consolidated(raw).len() == leaders(raw).len(),
        consolidated(raw)[k] == merged(raw, members(raw, leaders(raw)[k])),
        forall|i: int|
            members(raw, leaders(raw)[k]).contains(i) <==> #[trigger] lands_in(raw, i, k),
{
    lemma_members_among(raw, leaders(raw)[k], raw.len());
    let class = members(raw, leaders(raw)[k]);
    assert forall|i: int| class.contains(i) implies #[trigger] lands_in(raw, i, k) by {
        let t = choose|t: int| 0 <= t < class.len() && class[t] == i;
        assert(connected(raw, leaders(raw)[k], class[t]));
    }
}

/// Every valid identifier that a raw record carries leads, through the lookup, to the
/// entry that the record landed in, and that entry lists the identifier. This holds
/// unless a record that is not connected to this one carries another valid identifier
/// with the same key, as a package named `42` beside the workshop number 42.
pub proof fn lemma_valid_identifier_resolves(raw: Seq<RecordView>, i: int, id: IdentifierView)
    requires
        raw.len() <= usize::MAX,
        carries(raw, i, id),
        !id.is_invalid(),
        forall|j: int, other: IdentifierView|
            #[trigger] carries(raw, j, other) && !other.is_invalid() && other.key() == id.key()
                && other != id ==> connected(raw, i, j),
    ensures
        lookup(consolidated(raw)).contains_key(id.key()),
        lookup(consolidated(raw))[id.key()] == landing(raw, i),
        0 <= landing(raw, i) < consolidated(raw).len(),
        consolidated(raw)[landing(raw, i)].identifiers.contains(id),
{
    let catalog = consolidated(raw);
    let key = id.key();
    let at = landing(raw, i);
    lemma_consolidated_len(raw);
    lemma_landing(raw, i);
    lemma_identifiers_are_kept(raw, i, id);
    let listed = catalog[at].identifiers;
    let spot = choose|spot: int| 0 <= spot < listed.len() && listed[spot] == id;
    assert(!listed[spot].is_invalid() && listed[spot].key() == key);
    assert(files_under(catalog[at], key));
    lemma_last_filing(catalog, key);
    let last = last_filing(catalog, key);
    if last != at {
        assert(last > at) by {
            if last < at {
                assert(!files_under(catalog[at], key));
            }
        }
        lemma_entry(raw, last);
        let class = members(raw, leaders(raw)[last]);
        let found = catalog[last].identifiers;
        let s = choose|s: int|
            0 <= s < found.len() && !(#[trigger] found[s]).is_invalid() && found[s].key() == key;
        let other = found[s];
        lemma_merged_identifiers(raw, class, other);
        let t = choose|t: int|
            0 <= t < class.len() && raw[#[trigger] class[t]].identifiers.contains(other);
        let j = class[t];
        assert(class.contains(j));
        assert(lands_in(raw, j, last));
        assert(carries(raw, j, other));
        if other == id {
            assert(shares(raw, i, j));
            lemma_connected_shares(raw, i, j);
        }
        lemma_same_landing(raw, i, j);
        lemma_landing(raw, j);
    }
}

/// Two identifiers have the same key only if they are the same identifier or one is
/// a package name and the other a workshop number: within each kind, the key tells
/// the identifier.
pub proof fn lemma_same_key_other_kind(one: IdentifierView, other: IdentifierView)
    requires
        one.key() == other.key(),
    ensures
        one == other || (one is PackageId && other is WorkshopId) || (one is WorkshopId
            && other is PackageId),
{
    if one is WorkshopId && other is WorkshopId {
        lemma_decimal_injective(one->WorkshopId_0 as nat, other->WorkshopId_0 as nat);
    }
}

/// Records that share with one record in the middle land in one entry, though the
/// outer two may have no identifier in common.
pub proof fn lemma_sharing_is_transitive(raw: Seq<RecordView>, a: int, b: int, c: int)
    requires
        shares(raw, a, b),
        shares(raw, b, c),
    ensures
        landing(raw, a) == landing(raw, b),
        landing(raw, b) == landing(raw, c),
{
    lemma_connected_shares(raw, a, b);
    lemma_connected_shares(raw, b, c);
    lemma_same_landing(raw, a, b);
    lemma_same_landing(raw, b, c);
}

/// The raw records without their invalid identifiers.
pub open spec fn without_invalid(raw: Seq<RecordView>) -> Seq<RecordView> {
    raw.map_values(
        |record: RecordView|
            RecordView {
                identifiers: record.identifiers.filter(is_valid()),
                notices: record.notices,
            },
    )
}

/// Validity as a predicate on identifiers.
pub open spec fn is_valid() -> spec_fn(IdentifierView) -> bool {
    |id: IdentifierView| !id.is_invalid()
}

/// Invalid identifiers connect nothing: the same records are connected as if no
/// record had any invalid identifier, so the same records are merged.
pub proof fn lemma_invalid_identifiers_connect_nothing(raw: Seq<RecordView>, i: int, j: int)
    ensures
        connected(raw, i, j) <==> connected(without_invalid(raw), i, j),
{
    let bare = without_invalid(raw);
    let edge = sharing(raw);
    let bare_edge = sharing(bare);
    assert forall|x: int, y: int| #[trigger] edge(x, y) <==> bare_edge(x, y) by {
        if edge(x, y) {
            let id = choose|id: IdentifierView|
                !id.is_invalid() && #[trigger] carries(raw, x, id) && carries(raw, y, id);
            let at_x = choose|s: int|
                0 <= s < raw[x].identifiers.len() && raw[x].identifiers[s] == id;
            let at_y = choose|s: int|
                0 <= s < raw[y].identifiers.len() && raw[y].identifiers[s] == id;
            raw[x].identifiers.lemma_filter_contains(is_valid(), at_x);
            raw[y].identifiers.lemma_filter_contains(is_valid(), at_y);
            assert(carries(bare, x, id) && carries(bare, y, id));
        }
        if bare_edge(x, y) {
            let id = choose|id: IdentifierView|
                !id.is_invalid() && #[trigger] carries(bare, x, id) && carries(bare, y, id);
            raw[x].identifiers.lemma_filter_contains_rev(is_valid(), id);
            raw[y].identifiers.lemma_filter_contains_rev(is_valid(), id);
            assert(carries(raw, x, id) && carries(raw, y, id));
        }
    }
    if connected(raw, i, j) {
        lemma_linked_monotone(edge, bare_edge, i, j);
    }
    if connected(bare, i, j) {
        lemma_linked_monotone(bare_edge, edge, i, j);
    }
}

/// A record whose identifiers, as far as another record carries them too, are all
/// invalid has its entry to itself.
pub proof fn lemma_invalid_identifiers_never_merge(raw: Seq<RecordView>, i: int, j: int)
    requires
        0 <= i < raw.len(),
        0 <= j < raw.len(),
        i != j,
        forall|other: int, id: IdentifierView|
            other != i && #[trigger] carries(raw, i, id) && #[trigger] carries(raw, other, id)
                ==> id.is_invalid(),
    ensures
        landing(raw, i) != landing(raw, j),
{
    assert forall|other: int| other != i implies !#[trigger] shares(raw, i, other) by {
        if shares(raw, i, other) {
            let id = choose|id: IdentifierView|
                !id.is_invalid() && #[trigger] carries(raw, i, id) && carries(raw, other, id);
            assert(carries(raw, other, id));
        }
    }
    if connected(raw, i, j) {
        let edge = sharing(raw);
        let walk = choose|walk: Seq<int>| #[trigger] leads(edge, walk, i, j);
        lemma_walk_stays(raw, i, walk, walk.len() - 1);
    }
    lemma_same_landing(raw, i, j);
}

proof fn lemma_walk_stays(raw: Seq<RecordView>, i: int, walk: Seq<int>, upto: int)
    requires
        is_walk(sharing(raw), walk),
        walk.first() == i,
        0 <= upto < walk.len(),
        forall|other: int| other != i ==> !#[trigger] shares(raw, i, other),
    ensures
        walk[upto] == i,
    decreases upto,
{
    if upto > 0 {
        lemma_walk_stays(raw, i, walk, upto - 1);
        assert(steps(sharing(raw), walk, upto - 1));
    }
}

/// Every key of the lookup is the key of a valid identifier, listed by the entry that
/// the key leads to.
pub proof fn lemma_lookup_keys_are_valid(raw: Seq<RecordView>, key: Seq<char>)
    requires
        raw.len() <= usize::MAX,
        lookup(consolidated(raw)).contains_key(key),
    ensures
        0 <= lookup(consolidated(raw))[key] < consolidated(raw).len(),
        exists|id: IdentifierView|
            #![trigger id.key()]
            !id.is_invalid() && id.key() == key && consolidated(raw)[lookup(
                consolidated(raw),
            )[key] as int].identifiers.contains(id),
{
    let catalog = consolidated(raw);
    lemma_consolidated_len(raw);
    lemma_last_filing(catalog, key);
    let last = last_filing(catalog, key);
    let listed = catalog[last].identifiers;
    let s = choose|s: int|
        0 <= s < listed.len() && !(#[trigger] listed[s]).is_invalid() && listed[s].key() == key;
    assert(listed.contains(listed[s]));
    assert(!listed[s].is_invalid() && listed[s].key() == key);
}

/// The key of an invalid identifier is no key of the lookup, unless some valid
/// identifier of the raw records has the same key, as the package named `0` has the
/// key of the workshop number 0.
pub proof fn lemma_invalid_identifier_is_not_filed(raw: Seq<RecordView>, id: IdentifierView)
    requires
        id.is_invalid(),
        forall|j: int, other: IdentifierView|
            #[trigger] carries(raw, j, other) && !other.is_invalid() ==> other.key() != id.key(),
    ensures
        !lookup(consolidated(raw)).contains_key(id.key()),
{
    let catalog = consolidated(raw);
    let key = id.key();
    if lookup(catalog).contains_key(key) {
        lemma_last_filing(catalog, key);
        let last = last_filing(catalog, key);
        lemma_entry(raw, last);
        let class = members(raw, leaders(raw)[last]);
        let listed = catalog[last].identifiers;
        let s = choose|s: int|
            0 <= s < listed.len() && !(#[trigger] listed[s]).is_invalid() && listed[s].key() == key;
        let other = listed[s];
        lemma_merged_identifiers(raw, class, other);
        let t = choose|t: int|
            0 <= t < class.len() && raw[#[trigger] class[t]].identifiers.contains(other);
        lemma_members_among(raw, leaders(raw)[last], raw.len());
        assert(carries(raw, class[t], other));
    }
}

/// A package name that is empty once trimmed is never a key of the lookup.
pub proof fn lemma_blank_package_is_not_filed(raw: Seq<RecordView>, name: Seq<char>)
    requires
        is_blank(name),
    ensures
        !lookup(consolidated(raw)).contains_key(name),
{
    let id = IdentifierView::PackageId(name);
    assert forall|j: int, other: IdentifierView|
        #[trigger] carries(raw, j, other) && !other.is_invalid() implies other.key()
        != id.key() by {
        if other is WorkshopId {
            lemma_decimal_shape(other->WorkshopId_0 as nat);
        }
    }
    lemma_invalid_identifier_is_not_filed(raw, id);
}

/// Every identifier of a raw record, valid or not, is listed by the entry that the
/// record landed in.
pub proof fn lemma_identifiers_are_kept(raw: Seq<RecordView>, i: int, id: IdentifierView)
    requires
        carries(raw, i, id),
    ensures
        0 <= landing(raw, i) < consolidated(raw).len(),
        consolidated(raw)[landing(raw, i)].identifiers.contains(id),
{
    lemma_landing(raw, i);
    let at = landing(raw, i);
    lemma_entry(raw, at);
    let class = members(raw, leaders(raw)[at]);
    let t = choose|t: int| 0 <= t < class.len() && class[t] == i;
    assert(raw[class[t]].identifiers.contains(id));
    lemma_merged_identifiers(raw, class, id);
}

/// The notices of a raw record stand together in the entry it landed in, after those
/// of the records of its class that were staged before it and before those of the
/// records staged after it, whether or not other records have the same notices.
pub proof fn lemma_notices_are_kept_in_order(raw: Seq<RecordView>, i: int)
    requires
        0 <= i < raw.len(),
    ensures
        0 <= landing(raw, i) < consolidated(raw).len(),
        exists|t: int|
            #![trigger members(raw, leaders(raw)[landing(raw, i)])[t]]
            {
                let class = members(raw, leaders(raw)[landing(raw, i)]);
                &&& 0 <= t < class.len()
                &&& class[t] == i
                &&& consolidated(raw)[landing(raw, i)].notices == merged(raw, class.take(t)).notices
                    + raw[i].notices + merged(raw, class.skip(t + 1)).notices
            },
{
    lemma_landing(raw, i);
    let at = landing(raw, i);
    lemma_entry(raw, at);
    let class = members(raw, leaders(raw)[at]);
    let t = choose|t: int| 0 <= t < class.len() && class[t] == i;
    lemma_merged_notices(raw, class, t);
    assert(class[t] == i);
}

} // verus!
