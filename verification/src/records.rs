//! The builder that stages raw records and consolidates them into the catalog.

mod carriers;
pub mod consolidation;
mod grouping;
pub mod laws;
mod merging;
pub mod reordering;
pub mod types;

use vstd::hash_map::StringHashMap;
use vstd::prelude::*;
use crate::records::consolidation::{
    connected,
    consolidated,
    filed_keys,
    files_among,
    files_under,
    is_leader,
    leaders,
    lemma_connected_symmetric,
    lemma_connected_transitive,
    lemma_leaders_among,
    lemma_lookup_keys,
    lemma_members_among,
    lemma_merged_depends_on_members,
    lookup,
    members,
    merged,
};
use crate::records::grouping::{group_by_root, index_identifiers, link_carriers, positions};
use crate::records::merging::{file_identifiers, merge_group};
use crate::records::types::{IngestibleData, ModRecord, RecordView, views_of};
use crate::sources::{Diagnostics, RecordSource};

verus! {

/// What the raw records hold, one view per record.
pub open spec fn staged(raw: Seq<IngestibleData>) -> Seq<RecordView> {
    raw.map_values(|record: IngestibleData| record@)
}

/// What the entries of a catalog hold, one view per entry.
pub open spec fn cataloged(records: Seq<ModRecord>) -> Seq<RecordView> {
    records.map_values(|record: ModRecord| record@)
}

/// The catalog: the consolidated entries, the lookup from the key of every valid
/// identifier to the position of its entry, and the diagnostics of every source.
pub struct Database {
    pub records: Vec<ModRecord>,
    pub indices: StringHashMap<usize>,
    pub named_diagnostics: Vec<(String, Diagnostics)>,
}

/// The map that a list of keys and positions stands for; of two pairs with one key
/// the later counts.
pub open spec fn as_map(pairs: Seq<(String, usize)>) -> Map<Seq<char>, usize>
    decreases pairs.len(),
{
    if pairs.len() == 0 {
        Map::empty()
    } else {
        as_map(pairs.drop_last()).insert(pairs.last().0@, pairs.last().1)
    }
}

/// The keys found so far by a walk that has done with the first `k` entries and with
/// the first `j` identifiers of the entry after them.
spec fn walked_keys(records: Seq<RecordView>, k: int, j: int) -> Set<Seq<char>> {
    Set::new(
        |key: Seq<char>|
            (exists|m: int| 0 <= m < k && files_under(#[trigger] records[m], key)) || (0 <= k
                < records.len() && files_among(records[k].identifiers.take(j), key)),
    )
}

impl Database {
    /// What the entries hold.
    pub open spec fn entries(&self) -> Seq<RecordView> {
        cataloged(self.records@)
    }

    /// Whether the lookup is the one that belongs to the entries, as it is in every
    /// catalog that `DatabaseBuilder::finalize` makes.
    pub open spec fn wf(&self) -> bool {
        self.indices@ == lookup(self.entries())
    }

    /// The lookup as a list: the key of every valid identifier of every entry, with
    /// the position that the lookup has for it. A key that the lookup lacks is
    /// left out; in a catalog made by `finalize` there is none, and the list is the
    /// whole lookup.
    pub fn lookup_pairs(&self) -> (pairs: Vec<(String, usize)>)
        ensures
            as_map(pairs@) == self.indices@.restrict(filed_keys(self.entries())),
            self.wf() ==> as_map(pairs@) == self.indices@,
    {
        let ghost records = self.entries();
        let ghost known = self.indices@;
        let mut pairs: Vec<(String, usize)> = Vec::new();
        let mut k: usize = 0;
        proof {
            assert(as_map(pairs@) =~= known.restrict(walked_keys(records, 0, 0)));
        }
        while k < self.records.len()
            invariant
                k <= self.records.len(),
                records == self.entries(),
                known == self.indices@,
                as_map(pairs@) == known.restrict(walked_keys(records, k as int, 0)),
            decreases self.records.len() - k,
        {
            let record = &self.records[k];
            let ghost ids = records[k as int].identifiers;
            assert(ids == views_of(record.identifiers@));
            let mut j: usize = 0;
            while j < record.identifiers.len()
                invariant
                    k < self.records.len(),
                    j <= record.identifiers.len(),
                    records == self.entries(),
                    known == self.indices@,
                    ids == records[k as int].identifiers,
                    ids == views_of(record.identifiers@),
                    as_map(pairs@) == known.restrict(walked_keys(records, k as int, j as int)),
                decreases record.identifiers.len() - j,
            {
                let identifier = &record.identifiers[j];
                let ghost sooner = ids.take(j as int);
                let ghost later = ids.take(j + 1);
                let ghost before = pairs@;
                proof {
                    assert(later =~= sooner.push(identifier@));
                    assert forall|key: Seq<char>|
                        files_among(later, key) <==> (files_among(sooner, key) || (
                        !identifier@.is_invalid() && identifier@.key() == key)) by {
                        if files_among(sooner, key) {
                            let at = choose|at: int|
                                0 <= at < sooner.len() && !(#[trigger] sooner[at]).is_invalid()
                                    && sooner[at].key() == key;
                            assert(later[at] == sooner[at]);
                        }
                        if !identifier@.is_invalid() && identifier@.key() == key {
                            assert(later[j as int] == identifier@);
                        }
                        if files_among(later, key) {
                            let at = choose|at: int|
                                0 <= at < later.len() && !(#[trigger] later[at]).is_invalid()
                                    && later[at].key() == key;
                            if at < j {
                                assert(sooner[at] == later[at]);
                            }
                        }
                    }
                }
                if !identifier.is_invalid() {
                    let key = identifier.to_string();
                    let found: Option<usize> = match self.indices.get(key.as_str()) {
                        Some(position) => Some(*position),
                        None => None,
                    };
                    match found {
                        Some(position) => {
                            pairs.push((key, position));
                            assert(pairs@.drop_last() =~= before);
                        },
                        None => {},
                    }
                }
                assert(as_map(pairs@) =~= known.restrict(
                    walked_keys(records, k as int, j + 1),
                ));
                j += 1;
            }
            proof {
                assert(ids.take(j as int) =~= ids);
                if k + 1 < self.records.len() {
                    assert(records[k + 1].identifiers.take(0).len() == 0);
                }
                assert(walked_keys(records, k as int, j as int) =~= walked_keys(
                    records,
                    k + 1,
                    0,
                ));
            }
            k += 1;
        }
        proof {
            assert(walked_keys(records, k as int, 0) =~= filed_keys(records));
            if self.wf() {
                lemma_lookup_keys(records);
                assert(known.restrict(filed_keys(records)) =~= known);
            }
        }
        pairs
    }
}

/// Stages the raw records of the sources, then consolidates them.
pub struct DatabaseBuilder {
    raw_records: Vec<IngestibleData>,
    named_diagnostics: Vec<(String, Diagnostics)>,
}

/// Whether one of the first `k` leaders is connected to the raw record at `i`.
spec fn claimed(origin: Seq<RecordView>, k: int, i: int) -> bool {
    exists|m: int| 0 <= m < k && #[trigger] connected(origin, leaders(origin)[m], i)
}

impl DatabaseBuilder {
    /// The raw records staged so far, in the order they came.
    pub closed spec fn raw(&self) -> Seq<IngestibleData> {
        self.raw_records@
    }

    /// The diagnostics of the sources ingested so far, each under the name of its
    /// source.
    pub closed spec fn diagnostics(&self) -> Seq<(String, Diagnostics)> {
        self.named_diagnostics@
    }

    /// A builder with nothing staged.
    pub fn new() -> (builder: Self)
        ensures
            builder.raw() == Seq::<IngestibleData>::empty(),
            builder.diagnostics() == Seq::<(String, Diagnostics)>::empty(),
    {
        Self { raw_records: Vec::new(), named_diagnostics: Vec::new() }
    }

    /// The number of raw records staged so far.
    pub fn staged_count(&self) -> (count: usize)
        ensures
            count == self.raw().len(),
    {
        self.raw_records.len()
    }

    /// Stages what a source has fetched: its records after those staged before, and
    /// its diagnostics under the name of the source.
    pub fn stage(
        &mut self,
        name: &str,
        records: Option<Vec<IngestibleData>>,
        diagnostics: Diagnostics,
    )
        ensures
            final(self).raw() == old(self).raw() + (match records {
                Some(records) => records@,
                None => Seq::empty(),
            }),
            final(self).diagnostics().len() == old(self).diagnostics().len() + 1,
            final(self).diagnostics().drop_last() == old(self).diagnostics(),
            final(self).diagnostics().last().0@ == name@,
            final(self).diagnostics().last().1 == diagnostics,
    {
        match records {
            Some(mut records) => {
                self.raw_records.append(&mut records);
            },
            None => {
                assert(self.raw_records@ + Seq::<IngestibleData>::empty() =~= self.raw_records@);
            },
        }
        self.named_diagnostics.push((name.to_owned(), diagnostics));
        assert(self.named_diagnostics@.drop_last() =~= old(self).named_diagnostics@);
    }

    /// Takes in a source whose fetch has come to an end. After a fetch that failed,
    /// the error goes back to the caller and the builder keeps what it had, no more
    /// and no less. After one that succeeded, the records of the source are staged
    /// after those staged before, and its diagnostics are kept under its name.
    pub fn ingest_from<S: RecordSource, E>(
        &mut self,
        source: S,
        fetched: Result<(), E>,
    ) -> (outcome: Result<(), E>)
        ensures
            match fetched {
                Ok(_) => {
                    &&& outcome is Ok
                    &&& final(self).raw() == old(self).raw() + source.held()
                    &&& final(self).diagnostics().len() == old(self).diagnostics().len() + 1
                    &&& final(self).diagnostics().drop_last() == old(self).diagnostics()
                    &&& final(self).diagnostics().last().0@ == source.name()
                    &&& final(self).diagnostics().last().1@ == source.noted()
                },
                Err(error) => {
                    &&& outcome == Err::<(), E>(error)
                    &&& final(self).raw() == old(self).raw()
                    &&& final(self).diagnostics() == old(self).diagnostics()
                },
            },
    {
        match fetched {
            Ok(_) => {
                let mut source = source;
                let records = source.get_records();
                let name = source.get_name();
                let diagnostics = source.get_diagnostics();
                self.stage(name, records, diagnostics);
                Ok(())
            },
            Err(error) => Err(error),
        }
    }

    /// Consolidates the staged records into the catalog: one entry per class of
    /// connected records, and the lookup that leads from every valid identifier to
    /// its entry. The entries stand in the order in which the first record of each
    /// class was staged, and each entry takes its records in the order they were
    /// staged, so that the same records always give the same catalog.
    pub fn finalize(self) -> (db: Database)
        ensures
            db.entries() == consolidated(staged(self.raw())),
            db.indices@ == lookup(db.entries()),
            db.wf(),
            db.named_diagnostics@ == self.diagnostics(),
    {
        let mut raw = self.raw_records;
        let ghost origin = staged(raw@);
        let n = raw.len();
        let index = index_identifiers(&raw);
        let mut uf = link_carriers(&index, n, Ghost(origin));
        let groups = group_by_root(&mut uf, Ghost(origin));
        let mut records: Vec<ModRecord> = Vec::new();
        let mut indices: StringHashMap<usize> = StringHashMap::new();
        let mut k: usize = 0;
        proof {
            assert(indices@ =~= lookup(cataloged(records@)));
            assert(cataloged(records@) =~= consolidated(origin).take(0));
            lemma_leaders_among(origin, origin.len());
        }
        while k < groups.len()
            invariant
                k <= groups.len(),
                raw@.len() == origin.len(),
                groups@.len() == leaders(origin).len(),
                forall|m: int|
                    0 <= m < groups@.len() ==> positions(#[trigger] groups@[m]@) == members(
                        origin,
                        leaders(origin)[m],
                    ),
                records@.len() == k,
                cataloged(records@) == consolidated(origin).take(k as int),
                indices@ == lookup(cataloged(records@)),
                forall|i: int|
                    0 <= i < origin.len() && !claimed(origin, k as int, i) ==> (
                    #[trigger] staged(raw@)[i]) == origin[i],
            decreases groups.len() - k,
        {
            let group = &groups[k];
            let ghost head = leaders(origin)[k as int];
            let ghost members = members(origin, head);
            let ghost before = raw@;
            proof {
                lemma_leaders_among(origin, origin.len());
                lemma_members_among(origin, head, origin.len());
                assert(positions(group@) == members);
                assert forall|t: int| 0 <= t < group@.len() implies (#[trigger] group@[t])
                    < raw@.len() by {
                    assert(members[t] == group@[t] as int);
                }
                assert forall|t: int, u: int| 0 <= t < u < group@.len() implies group@[t]
                    != group@[u] by {
                    assert(members[t] == group@[t] as int);
                    assert(members[u] == group@[u] as int);
                }
                assert forall|t: int| 0 <= t < members.len() implies staged(before)[
                #[trigger] members[t]] == origin[members[t]] by {
                    let i = members[t];
                    if claimed(origin, k as int, i) {
                        let m = choose|m: int|
                            0 <= m < k && #[trigger] connected(origin, leaders(origin)[m], i);
                        lemma_connected_symmetric(origin, head, i);
                        lemma_connected_transitive(origin, leaders(origin)[m], i, head);
                        assert(leaders(origin)[m] < head);
                        assert(is_leader(origin, head));
                    }
                }
                lemma_merged_depends_on_members(staged(before), origin, members);
            }
            let record = merge_group(&mut raw, group);
            file_identifiers(&mut indices, &record, records.len(), Ghost(cataloged(records@)));
            let ghost earlier = records@;
            records.push(record);
            proof {
                assert(cataloged(records@) =~= cataloged(earlier).push(record@));
                assert(consolidated(origin)[k as int] == merged(origin, members));
                assert(cataloged(records@) =~= consolidated(origin).take(k + 1));
                assert forall|i: int|
                    0 <= i < origin.len() && !claimed(origin, k + 1, i) implies (
                #[trigger] staged(raw@)[i]) == origin[i] by {
                    assert(!claimed(origin, k as int, i)) by {
                        if claimed(origin, k as int, i) {
                            let m = choose|m: int|
                                0 <= m < k && #[trigger] connected(origin, leaders(origin)[m], i);
                            assert(0 <= m < k + 1 && connected(origin, leaders(origin)[m], i));
                        }
                    }
                    assert(!connected(origin, leaders(origin)[k as int], i));
                    assert(staged(before)[i] == origin[i]);
                    if members.contains(i) {
                        let t = choose|t: int| 0 <= t < members.len() && members[t] == i;
                        assert(connected(origin, head, members[t]));
                    }
                    assert(raw@[i] == before[i]);
                }
            }
            k += 1;
        }
        assert(consolidated(origin).take(k as int) =~= consolidated(origin));
        Database { records, indices, named_diagnostics: self.named_diagnostics }
    }
}

} // verus!
