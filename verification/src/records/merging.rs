//! The steps that make the entries: merging the records of a class, and filing the
//! identifiers of an entry in the lookup.

use vstd::hash_map::StringHashMap;
use vstd::prelude::*;
use crate::records::consolidation::{
    distinct,
    files_among,
    identifier_lists,
    last_filing,
    lookup,
    merged,
    notice_lists,
};
use crate::records::grouping::positions;
use crate::records::staged;
use crate::records::types::{
    IdentifierView,
    IngestibleData,
    ModIdentifier,
    ModRecord,
    NoticeRecord,
    RecordView,
    views_of,
};

verus! {

/// Tells whether `list` holds `id`.
fn listed(list: &Vec<ModIdentifier>, id: &ModIdentifier) -> (found: bool)
    ensures
        found == views_of(list@).contains(id@),
{
    let mut at: usize = 0;
    while at < list.len()
        invariant
            at <= list.len(),
            forall|k: int| 0 <= k < at ==> views_of(list@)[k] != id@,
        decreases list.len() - at,
    {
        if list[at] == *id {
            assert(views_of(list@)[at as int] == id@);
            return true;
        }
        at += 1;
    }
    false
}

/// Makes one entry of the raw records that `group` names: their identifiers, each
/// once, and their notices, which are moved out of the raw records.
pub(crate) fn merge_group(raw: &mut Vec<IngestibleData>, group: &Vec<usize>) -> (record: ModRecord)
    requires
        forall|t: int| 0 <= t < group@.len() ==> (#[trigger] group@[t]) < old(raw)@.len(),
        forall|t: int, u: int| 0 <= t < u < group@.len() ==> group@[t] != group@[u],
    ensures
        final(raw)@.len() == old(raw)@.len(),
        record@ == merged(staged(old(raw)@), positions(group@)),
        forall|i: int|
            0 <= i < old(raw)@.len() && !positions(group@).contains(i) ==> #[trigger] final(raw)@[i]
                == old(raw)@[i],
{
    let ghost origin = staged(raw@);
    let ghost members = positions(group@);
    let ghost before = raw@;
    let mut identifiers: Vec<ModIdentifier> = Vec::new();
    let mut notices: Vec<NoticeRecord> = Vec::new();
    let mut t: usize = 0;
    proof {
        assert(identifier_lists(origin, members.take(0)) =~= Seq::<Seq<IdentifierView>>::empty());
        assert(notice_lists(origin, members.take(0)) =~= Seq::<Seq<NoticeRecord>>::empty());
        assert(views_of(identifiers@) =~= Seq::<IdentifierView>::empty());
    }
    while t < group.len()
        invariant
            t <= group.len(),
            members == positions(group@),
            origin == staged(before),
            raw@.len() == before.len(),
            forall|t: int| 0 <= t < group@.len() ==> (#[trigger] group@[t]) < before.len(),
            forall|t: int, u: int| 0 <= t < u < group@.len() ==> group@[t] != group@[u],
            views_of(identifiers@) == distinct(
                identifier_lists(origin, members.take(t as int)).flatten(),
            ),
            notices@ == notice_lists(origin, members.take(t as int)).flatten(),
            forall|i: int|
                0 <= i < before.len() && !members.take(t as int).contains(i) ==> (
                #[trigger] raw@[i]) == before[i],
        decreases group.len() - t,
    {
        let idx = group[t];
        let ghost done = members.take(t as int);
        let ghost base = identifier_lists(origin, done).flatten();
        let ghost ids = origin[idx as int].identifiers;
        proof {
            assert(members[t as int] == idx);
            assert(!done.contains(idx as int)) by {
                if done.contains(idx as int) {
                    let u = choose|u: int| 0 <= u < done.len() && done[u] == idx as int;
                    assert(group@[u] == group@[t as int]);
                }
            }
            assert(raw@[idx as int] == before[idx as int]);
            assert(ids == views_of(raw@[idx as int].identifiers@));
            assert(base + ids.take(0) =~= base);
        }
        let mut at: usize = 0;
        while at < raw[idx].identifiers.len()
            invariant
                idx < raw@.len(),
                raw@[idx as int] == before[idx as int],
                ids == views_of(raw@[idx as int].identifiers@),
                at <= raw@[idx as int].identifiers@.len(),
                views_of(identifiers@) == distinct(base + ids.take(at as int)),
            decreases raw@[idx as int].identifiers@.len() - at,
        {
            let identifier = &raw[idx].identifiers[at];
            let ghost seen = base + ids.take(at as int);
            proof {
                assert(ids[at as int] == identifier@);
                assert(base + ids.take(at + 1) =~= seen + seq![identifier@]);
                seen.lemma_remove_duplicates_properties(Seq::empty());
                seen.lemma_remove_duplicates_append(identifier@, Seq::empty());
                assert(seen + Seq::<IdentifierView>::empty() =~= seen);
            }
            if !listed(&identifiers, identifier) {
                identifiers.push(identifier.clone());
                assert(views_of(identifiers@) =~= distinct(seen) + seq![identifier@]);
            }
            at += 1;
        }
        notices.append(&mut raw[idx].notices);
        proof {
            let next = members.take(t + 1);
            assert(next =~= done.push(idx as int));
            assert(ids.take(at as int) =~= ids);
            assert(identifier_lists(origin, next) =~= identifier_lists(origin, done).push(ids));
            identifier_lists(origin, done).lemma_flatten_push(ids);
            assert(notice_lists(origin, next) =~= notice_lists(origin, done).push(
                origin[idx as int].notices,
            ));
            notice_lists(origin, done).lemma_flatten_push(origin[idx as int].notices);
            assert forall|i: int| 0 <= i < before.len() && !next.contains(i) implies (
            #[trigger] raw@[i]) == before[i] by {
                if done.contains(i) {
                    let u = choose|u: int| 0 <= u < done.len() && done[u] == i;
                    assert(next[u] == i);
                }
                assert(next[t as int] == idx);
            }
        }
        t += 1;
    }
    assert(members.take(t as int) =~= members);
    ModRecord { notices, identifiers }
}

/// The lookup after the entries `earlier`, to which the first of `identifiers` have
/// been filed as leading to the entry after them.
spec fn filed(earlier: Seq<RecordView>, identifiers: Seq<IdentifierView>) -> Map<Seq<char>, usize> {
    Map::new(
        |key: Seq<char>| files_among(identifiers, key) || last_filing(earlier, key) >= 0,
        |key: Seq<char>|
            if files_among(identifiers, key) {
                earlier.len() as usize
            } else {
                last_filing(earlier, key) as usize
            },
    )
}

/// Files the valid identifiers of `record`, the entry at `position`, in the lookup.
pub(crate) fn file_identifiers(
    indices: &mut StringHashMap<usize>,
    record: &ModRecord,
    position: usize,
    Ghost(earlier): Ghost<Seq<RecordView>>,
)
    requires
        old(indices)@ == lookup(earlier),
        position == earlier.len(),
    ensures
        final(indices)@ == lookup(earlier.push(record@)),
{
    let ghost ids = views_of(record.identifiers@);
    let mut at: usize = 0;
    proof {
        assert(indices@ =~= filed(earlier, ids.take(0)));
    }
    while at < record.identifiers.len()
        invariant
            at <= record.identifiers.len(),
            ids == views_of(record.identifiers@),
            position == earlier.len(),
            indices@ == filed(earlier, ids.take(at as int)),
        decreases record.identifiers.len() - at,
    {
        let identifier = &record.identifiers[at];
        let ghost sooner = ids.take(at as int);
        let ghost later = ids.take(at + 1);
        proof {
            assert(later =~= sooner.push(identifier@));
            assert forall|key: Seq<char>|
                files_among(later, key) <==> (files_among(sooner, key) || (!identifier@.is_invalid()
                    && identifier@.key() == key)) by {
                if files_among(sooner, key) {
                    let j = choose|j: int|
                        0 <= j < sooner.len() && !(#[trigger] sooner[j]).is_invalid()
                            && sooner[j].key() == key;
                    assert(later[j] == sooner[j]);
                }
                if !identifier@.is_invalid() && identifier@.key() == key {
                    assert(later[at as int] == identifier@);
                }
                if files_among(later, key) {
                    let j = choose|j: int|
                        0 <= j < later.len() && !(#[trigger] later[j]).is_invalid()
                            && later[j].key() == key;
                    if j < at {
                        assert(sooner[j] == later[j]);
                    }
                }
            }
        }
        if !identifier.is_invalid() {
            indices.insert(identifier.to_string(), position);
            assert(indices@ =~= filed(earlier, later));
        } else {
            assert(indices@ =~= filed(earlier, later));
        }
        at += 1;
    }
    proof {
        let all = earlier.push(record@);
        assert(ids.take(at as int) =~= ids);
        assert(all.drop_last() =~= earlier);
        assert(all.last() == record@);
        assert(indices@ =~= lookup(all));
    }
}

} // verus!
