//! The source that reads the dataset files of a cloned repository.

use chrono::NaiveDate;
use vstd::prelude::*;
use vstd::string::StringExecFns;
use crate::records::types::{
    Certainty,
    IngestibleData,
    ModIdentifier,
    Notice,
    NoticeRecord,
    Source,
};
use crate::sources::{CommitInfo, Diagnostics, DiagnosticsView, RecordSource};
use crate::time::rfc3339_of;

verus! {

/// A dataset file: a named list of records.
#[derive(Debug)]
pub struct DatasetFile {
    pub name: String,
    pub description: String,
    pub records: Vec<DatasetFileRecord>,
}

/// One record of a dataset file.
#[derive(Debug)]
pub struct DatasetFileRecord {
    pub identifiers: Vec<ModIdentifier>,
    pub notices: Vec<LocalNotice>,
}

/// A notice as a dataset file holds it: its source is the file.
#[derive(Debug)]
pub struct LocalNotice {
    pub date: Option<NaiveDate>,
    pub notice: Notice,
    pub certainty: Certainty,
    pub context_url: Option<String>,
}

impl LocalNotice {
    /// The notice with the dataset `name` as its source.
    pub open spec fn attributed(self, name: String) -> NoticeRecord {
        NoticeRecord {
            date: self.date,
            notice: self.notice,
            certainty: self.certainty,
            source: Source::JumliDataset(name),
            context_url: self.context_url,
        }
    }
}

/// The notices with the dataset `name` as their source.
pub open spec fn attributed(notices: Seq<LocalNotice>, name: String) -> Seq<NoticeRecord> {
    notices.map_values(|local: LocalNotice| local.attributed(name))
}

fn attribute(notices: Vec<LocalNotice>, name: &String) -> (records: Vec<NoticeRecord>)
    ensures
        records@ == attributed(notices@, *name),
{
    let mut records: Vec<NoticeRecord> = Vec::new();
    let ghost all = notices@;
    for local in walk: notices.into_iter()
        invariant
            walk.seq() == all,
            records@ == attributed(all.take(walk.index() as int), *name),
    {
        records.push(
            NoticeRecord {
                certainty: local.certainty,
                context_url: local.context_url,
                date: local.date,
                notice: local.notice,
                source: Source::JumliDataset(name.clone()),
            },
        );
        assert(all.take(walk.index() + 1) =~= all.take(walk.index() as int).push(local));
    }
    assert(all.take(all.len() as int) =~= all);
    records
}

impl DatasetFile {
    /// The records of the file as raw records: each keeps its identifiers, and each
    /// of its notices names the dataset as its source.
    pub fn into_records(self) -> (records: Vec<IngestibleData>)
        ensures
            records@.len() == self.records@.len(),
            forall|i: int|
                0 <= i < records@.len() ==> (#[trigger] records@[i]).identifiers
                    == self.records@[i].identifiers && records@[i].notices@ == attributed(
                    self.records@[i].notices@,
                    self.name,
                ),
    {
        let mut records: Vec<IngestibleData> = Vec::new();
        let name = self.name;
        let ghost all = self.records@;
        for entry in walk: self.records.into_iter()
            invariant
                walk.seq() == all,
                records@.len() == walk.index(),
                forall|i: int|
                    0 <= i < records@.len() ==> (#[trigger] records@[i]).identifiers
                        == all[i].identifiers && records@[i].notices@ == attributed(
                        all[i].notices@,
                        name,
                    ),
        {
            records.push(
                IngestibleData {
                    identifiers: entry.identifiers,
                    notices: attribute(entry.notices, &name),
                },
            );
        }
        records
    }
}

/// The source that reads the dataset files of a cloned repository.
pub struct JumliData {
    records: Vec<IngestibleData>,
    diagnostics: Diagnostics,
}

impl JumliData {
    /// A source that has fetched nothing yet.
    pub fn new() -> (source: Self)
        ensures
            source.held() == Seq::<IngestibleData>::empty(),
            source.noted() == (DiagnosticsView { properties: None, log_lines: None }),
    {
        Self { records: Vec::new(), diagnostics: Diagnostics::new() }
    }

    /// Notes which commit the clone points at, or logs why that could not be told.
    pub fn note_commit(&mut self, head: Result<CommitInfo, String>)
        requires
            head matches Ok(commit) ==> commit.representable(),
        ensures
            final(self).held() == old(self).held(),
            final(self).noted() == (match head {
                Ok(commit) => old(self).noted().with_commit(
                    commit.id@,
                    match commit.summary {
                        Some(text) => Some(text@),
                        None => None,
                    },
                    rfc3339_of(commit.shown_seconds()),
                ),
                Err(reason) => old(self).noted().logged(
                    "Failed to retrieve git commit information for diagnostics: "@ + reason@,
                ),
            }),
    {
        self.diagnostics.add_git_info(head);
    }

    /// The line logged for a dataset file that could not be opened.
    pub fn read_failure(path: &str, reason: &str) -> (line: String)
        ensures
            line@ == "Unable to read dataset "@ + path@ + ": "@ + reason@,
    {
        String::from_str("Unable to read dataset ").concat(path).concat(": ").concat(reason)
    }

    /// The line logged for a dataset file that could not be parsed.
    pub fn parse_failure(path: &str, reason: &str) -> (line: String)
        ensures
            line@ == "Unable to parse dataset "@ + path@ + ": "@ + reason@,
    {
        String::from_str("Unable to parse dataset ").concat(path).concat(": ").concat(reason)
    }

    /// The line logged for a dataset file whose task did not come to an end.
    pub fn task_failure(reason: &str) -> (line: String)
        ensures
            line@ == "Unable to finish reading a dataset: "@ + reason@,
    {
        String::from_str("Unable to finish reading a dataset: ").concat(reason)
    }

    /// Takes in what came of one dataset file. Its records are kept; a file that
    /// failed is logged and gives nothing, and the others are none the worse for it.
    pub fn collect(&mut self, parsed: Result<Vec<IngestibleData>, String>)
        ensures
            match parsed {
                Ok(records) => final(self).held() == old(self).held() + records@
                    && final(self).noted() == old(self).noted(),
                Err(reason) => final(self).held() == old(self).held() && final(self).noted()
                    == old(self).noted().logged(reason@),
            },
    {
        match parsed {
            Ok(mut records) => {
                self.records.append(&mut records);
            },
            Err(reason) => {
                self.diagnostics.log(reason.as_str());
            },
        }
    }
}

impl RecordSource for JumliData {
    closed spec fn held(&self) -> Seq<IngestibleData> {
        self.records@
    }

    closed spec fn noted(&self) -> DiagnosticsView {
        self.diagnostics@
    }

    open spec fn name(&self) -> Seq<char> {
        "JuMLi Data"@
    }

    fn get_records(&mut self) -> (records: Option<Vec<IngestibleData>>) {
        if self.records.is_empty() {
            None
        } else {
            let mut records: Vec<IngestibleData> = Vec::new();
            std::mem::swap(&mut records, &mut self.records);
            Some(records)
        }
    }

    fn get_diagnostics(self) -> (diagnostics: Diagnostics) {
        self.diagnostics
    }

    fn get_name(&self) -> (name: &'static str) {
        "JuMLi Data"
    }
}

} // verus!
