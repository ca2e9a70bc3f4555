//! The source that reads a snapshot of the workshop and reports what is out of date.

use std::collections::HashMap;
use chrono::NaiveDate;
use vstd::prelude::*;
use vstd::std_specs::iter::IteratorSpec;
use crate::records::types::{
    Certainty,
    IngestibleData,
    ModIdentifier,
    Notice,
    NoticeRecord,
    Source,
};
use crate::sources::{Diagnostics, DiagnosticsView, RecordSource};

verus! {

/// A snapshot of the workshop: what it knows of each mod, by workshop number.
#[derive(Debug)]
pub struct Wsdb {
    pub database: HashMap<u64, WsdbRecord>,
}

/// What the snapshot knows of one mod.
#[derive(Debug)]
pub struct WsdbRecord {
    pub package_id: Option<String>,
    pub game_versions: Option<GameVersions>,
}

/// The game versions that a mod is tagged with: the snapshot holds one version as
/// it is, several as a list.
#[derive(Debug)]
pub enum GameVersions {
    Single(String),
    Many(Vec<String>),
}

impl GameVersions {
    /// The versions, whichever way they are held.
    pub open spec fn listed(self) -> Seq<String> {
        match self {
            GameVersions::Single(value) => seq![value],
            GameVersions::Many(values) => values@,
        }
    }

    /// Whether `version` is among the versions.
    pub open spec fn names(self, version: Seq<char>) -> bool {
        exists|i: int| 0 <= i < self.listed().len() && (#[trigger] self.listed()[i])@ == version
    }

    /// The versions as a list.
    pub fn as_vec(&self) -> (versions: Vec<&String>)
        ensures
            versions@.len() == self.listed().len(),
            forall|i: int|
                0 <= i < versions@.len() ==> *(#[trigger] versions@[i]) == self.listed()[i],
    {
        match self {
            GameVersions::Single(value) => {
                let mut versions: Vec<&String> = Vec::new();
                versions.push(value);
                versions
            },
            GameVersions::Many(values) => {
                let mut versions: Vec<&String> = Vec::new();
                let mut at: usize = 0;
                while at < values.len()
                    invariant
                        at <= values.len(),
                        versions@.len() == at,
                        forall|i: int| 0 <= i < at ==> *(#[trigger] versions@[i]) == values@[i],
                    decreases values.len() - at,
                {
                    versions.push(&values[at]);
                    at += 1;
                }
                versions
            },
        }
    }

    /// Tells whether `version` is among the versions.
    pub fn includes(&self, version: &str) -> (found: bool)
        ensures
            found == self.names(version@),
    {
        let versions = self.as_vec();
        let wanted = version.to_owned();
        let mut at: usize = 0;
        while at < versions.len()
            invariant
                at <= versions.len(),
                wanted@ == version@,
                versions@.len() == self.listed().len(),
                forall|i: int|
                    0 <= i < versions@.len() ==> *(#[trigger] versions@[i]) == self.listed()[i],
                forall|i: int| 0 <= i < at ==> (#[trigger] self.listed()[i])@ != version@,
            decreases versions.len() - at,
        {
            let candidate: &String = versions[at];
            assert(*candidate == self.listed()[at as int]);
            if *candidate == wanted {
                return true;
            }
            at += 1;
        }
        false
    }
}

impl WsdbRecord {
    /// A mod is out of date when it is tagged with versions and the latest is not
    /// among them. One without any tag is left alone.
    pub open spec fn is_outdated(self, latest: Seq<char>) -> bool {
        self.game_versions matches Some(versions) && !versions.names(latest)
    }

    /// The identifiers of the mod: its workshop number, then its package name if the
    /// snapshot has one.
    pub open spec fn identifiers(self, number: u64) -> Seq<ModIdentifier> {
        match self.package_id {
            Some(name) => seq![ModIdentifier::WorkshopId(number), ModIdentifier::PackageId(name)],
            None => seq![ModIdentifier::WorkshopId(number)],
        }
    }
}

/// The notice that a mod is out of date, as found on `today`.
pub open spec fn outdated_notice(today: NaiveDate) -> NoticeRecord {
    NoticeRecord {
        certainty: Certainty::Medium,
        date: Some(today),
        notice: Notice::OutOfDate,
        source: Source::WorkshopDatabase,
        context_url: None,
    }
}

/// Whether `record` reports the mod `number` of the snapshot as out of date.
pub open spec fn reports(
    record: IngestibleData,
    number: u64,
    entry: WsdbRecord,
    today: NaiveDate,
) -> bool {
    &&& record.identifiers@ == entry.identifiers(number)
    &&& record.notices@ == seq![outdated_notice(today)]
}

/// Whether an entry of the snapshot is out of date, as a predicate.
pub open spec fn outdated_by(latest: Seq<char>) -> spec_fn((u64, WsdbRecord)) -> bool {
    |entry: (u64, WsdbRecord)| entry.1.is_outdated(latest)
}

/// Those of `entries` that are out of date, in the same order.
pub open spec fn outdated(entries: Seq<(u64, WsdbRecord)>, latest: Seq<char>) -> Seq<
    (u64, WsdbRecord),
> {
    entries.filter(outdated_by(latest))
}

/// Whether `order` walks the snapshot: it names every workshop number of it once.
pub open spec fn walks(database: Map<u64, WsdbRecord>, order: Seq<u64>) -> bool {
    &&& order.no_duplicates()
    &&& order.to_set() == database.dom()
}

/// The entries of the snapshot in the order that `order` names them.
pub open spec fn entries_in(database: Map<u64, WsdbRecord>, order: Seq<u64>) -> Seq<
    (u64, WsdbRecord),
> {
    order.map_values(|number: u64| (number, database[number]))
}

/// Whether `after` holds the records of `before` and then, for each of `entries` that
/// is out of date, one record that reports it, in the order of `entries`.
pub open spec fn took(
    before: Seq<IngestibleData>,
    after: Seq<IngestibleData>,
    entries: Seq<(u64, WsdbRecord)>,
    latest: Seq<char>,
    today: NaiveDate,
) -> bool {
    &&& after.len() == before.len() + outdated(entries, latest).len()
    &&& after.take(before.len() as int) == before
    &&& forall|k: int|
        0 <= k < outdated(entries, latest).len() ==> reports(
            #[trigger] after[before.len() + k],
            outdated(entries, latest)[k].0,
            outdated(entries, latest)[k].1,
            today,
        )
}

/// The source that reads a snapshot of the workshop.
pub struct WorkshopDatabase {
    records: Vec<IngestibleData>,
    diagnostics: Diagnostics,
    latest_release: String,
}

/// The first `count` entries of a walk, each with its number and what it holds.
spec fn walked(all: Seq<(&u64, &WsdbRecord)>, count: nat) -> Seq<(u64, WsdbRecord)> {
    Seq::new(count, |i: int| (*all[i].0, *all[i].1))
}

impl WorkshopDatabase {
    /// The release of the game that a mod must be tagged with to count as up to date.
    pub closed spec fn latest(&self) -> Seq<char> {
        self.latest_release@
    }

    /// A source that has fetched nothing yet, told which release of the game is the
    /// latest.
    pub fn new(latest_release: String) -> (source: Self)
        ensures
            source.held() == Seq::<IngestibleData>::empty(),
            source.noted() == (DiagnosticsView { properties: None, log_lines: None }),
            source.latest() == latest_release@,
    {
        Self { records: Vec::new(), diagnostics: Diagnostics::new(), latest_release }
    }

    /// Takes in one entry of a snapshot: a mod that is out of date gives one record
    /// with the notice of it, dated `today`, and any other mod gives nothing.
    pub fn collect_entry(&mut self, number: u64, entry: &WsdbRecord, today: NaiveDate)
        ensures
            final(self).noted() == old(self).noted(),
            final(self).latest() == old(self).latest(),
            if entry.is_outdated(old(self).latest()) {
                &&& final(self).held().len() == old(self).held().len() + 1
                &&& final(self).held().drop_last() == old(self).held()
                &&& reports(final(self).held().last(), number, *entry, today)
            } else {
                final(self).held() == old(self).held()
            },
    {
        // A mod without any tag tells nothing of its age; one tagged with the latest
        // release is up to date.
        let stale = match &entry.game_versions {
            Some(versions) => !versions.includes(self.latest_release.as_str()),
            None => false,
        };
        if stale {
            let mut identifiers: Vec<ModIdentifier> = Vec::new();
            identifiers.push(ModIdentifier::WorkshopId(number));
            match &entry.package_id {
                Some(name) => {
                    identifiers.push(ModIdentifier::PackageId(name.clone()));
                },
                None => {},
            }
            let mut notices: Vec<NoticeRecord> = Vec::new();
            notices.push(
                NoticeRecord {
                    certainty: Certainty::Medium,
                    date: Some(today),
                    notice: Notice::OutOfDate,
                    source: Source::WorkshopDatabase,
                    context_url: None,
                },
            );
            assert(identifiers@ =~= entry.identifiers(number));
            assert(notices@ =~= seq![outdated_notice(today)]);
            self.records.push(IngestibleData { identifiers, notices });
            assert(self.records@.drop_last() =~= old(self).records@);
        }
    }

    /// Takes in a snapshot, entry by entry in whatever order the snapshot is walked:
    /// every mod that is out of date gives one record.
    pub fn collect(&mut self, snapshot: &Wsdb, today: NaiveDate)
        ensures
            final(self).noted() == old(self).noted(),
            final(self).latest() == old(self).latest(),
            exists|order: Seq<u64>|
                walks(snapshot.database@, order) && #[trigger] took(
                    old(self).held(),
                    final(self).held(),
                    entries_in(snapshot.database@, order),
                    old(self).latest(),
                    today,
                ),
    {
        let ghost start = self.records@;
        let ghost latest = self.latest_release@;
        let ghost noted = self.diagnostics@;
        let ghost database = snapshot.database@;
        let walker = snapshot.database.iter();
        let ghost all = walker.remaining();
        proof {
            reveal(Seq::filter);
            assert(self.records@.take(start.len() as int) =~= start);
        }
        for pair in walk: walker
            invariant
                walk.seq() == all,
                self.diagnostics@ == noted,
                self.latest_release@ == latest,
                took(start, self.records@, walked(all, walk.index() as nat), latest, today),
        {
            let (number, entry) = pair;
            let ghost done = walked(all, walk.index() as nat);
            let ghost sooner = outdated(done, latest);
            let ghost before = self.records@;
            self.collect_entry(*number, entry, today);
            proof {
                let next = walked(all, (walk.index() + 1) as nat);
                assert(next =~= done.push((*number, *entry)));
                done.lemma_filter_push((*number, *entry), outdated_by(latest));
                let later = outdated(next, latest);
                if entry.is_outdated(latest) {
                    assert(self.records@.take(start.len() as int) =~= before.take(
                        start.len() as int,
                    ));
                    assert forall|k: int| 0 <= k < later.len() implies reports(
                        #[trigger] self.records@[start.len() + k],
                        later[k].0,
                        later[k].1,
                        today,
                    ) by {
                        if k < sooner.len() {
                            assert(self.records@[start.len() + k]
                                == self.records@.drop_last()[start.len() + k]);
                        }
                    }
                }
            }
        }
        proof {
            assert(took(start, self.records@, walked(all, all.len()), latest, today));
            let order = Seq::new(all.len(), |i: int| *all[i].0);
            assert forall|a: int, b: int|
                0 <= a < order.len() && 0 <= b < order.len() && a != b implies order[a]
                != order[b] by {
                assert(database.contains_key(*all[a].0) && database[*all[a].0] == *all[a].1);
                assert(database.contains_key(*all[b].0) && database[*all[b].0] == *all[b].1);
                if order[a] == order[b] {
                    assert(all[a] == all[b]);
                }
            }
            assert forall|number: u64|
                order.to_set().contains(number) <==> database.dom().contains(number) by {
                if order.to_set().contains(number) {
                    let k = choose|k: int| 0 <= k < order.len() && order[k] == number;
                    assert(database.contains_key(*all[k].0));
                }
                if database.dom().contains(number) {
                    assert(all.contains((&number, &database[number])));
                    let k = choose|k: int|
                        0 <= k < all.len() && all[k] == (&number, &database[number]);
                    assert(order[k] == number);
                }
            }
            assert(order.to_set() =~= database.dom());
            assert(entries_in(database, order) =~= walked(all, all.len())) by {
                assert forall|i: int| 0 <= i < all.len() implies entries_in(database, order)[i]
                    == walked(all, all.len())[i] by {
                    assert(database.contains_key(*all[i].0) && database[*all[i].0] == *all[i].1);
                }
            }
            assert(walks(snapshot.database@, order) && took(
                old(self).held(),
                self.held(),
                entries_in(snapshot.database@, order),
                old(self).latest(),
                today,
            ));
        }
    }
}

impl RecordSource for WorkshopDatabase {
    closed spec fn held(&self) -> Seq<IngestibleData> {
        self.records@
    }

    closed spec fn noted(&self) -> DiagnosticsView {
        self.diagnostics@
    }

    open spec fn name(&self) -> Seq<char> {
        "Workshop Database"@
    }

    fn get_records(&mut self) -> (records: Option<Vec<IngestibleData>>) {
        if self.records.is_empty() {
            None
        } else {
            let mut records: Vec<IngestibleData> = Vec::new();
            std::mem::swap(&mut records, &mut self.records);
            Some(records)
        }
    }

    fn get_diagnostics(self) -> (diagnostics: Diagnostics) {
        self.diagnostics
    }

    fn get_name(&self) -> (name: &'static str) {
        "Workshop Database"
    }
}

} // verus!
