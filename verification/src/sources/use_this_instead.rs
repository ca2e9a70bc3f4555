//! The source that reads the replacement documents of a cloned repository.

use vstd::prelude::*;
use vstd::string::StringExecFns;
use crate::records::types::{
    Certainty,
    IngestibleData,
    ModIdentifier,
    Notice,
    NoticeRecord,
    Source,
};
use crate::sources::{CommitInfo, Diagnostics, DiagnosticsView, RecordSource};
use crate::text::{decimal, decimal_string};
use crate::time::rfc3339_of;

verus! {

/// A replacement document: a mod and the mod to use in its place.
#[derive(Debug)]
pub struct UtiDocument {
    pub mod_id: String,
    pub mod_name: String,
    pub author: String,
    pub steam_id: u64,
    pub versions: String,
    pub replacement_mod_id: String,
    pub replacement_name: String,
    pub replacement_author: String,
    pub replacement_steam_id: u64,
    pub replacement_versions: String,
}

impl UtiDocument {
    /// The identifiers of the replaced mod: its workshop number, and its package name
    /// unless the replacement goes by the same.
    pub open spec fn identifiers(self) -> Seq<ModIdentifier> {
        if self.mod_id@ != self.replacement_mod_id@ {
            seq![ModIdentifier::WorkshopId(self.steam_id), ModIdentifier::PackageId(self.mod_id)]
        } else {
            seq![ModIdentifier::WorkshopId(self.steam_id)]
        }
    }

    /// The notice that points at the replacement.
    pub open spec fn notice(self) -> NoticeRecord {
        NoticeRecord {
            notice: Notice::UseAlternative(
                self.replacement_name,
                Some(self.replacement_steam_id),
                None,
            ),
            date: None,
            certainty: Certainty::Inapplicable,
            source: Source::UseThisInsteadDatabase,
            context_url: None,
        }
    }

    /// The raw record that the document stands for.
    pub fn into_record(self) -> (record: IngestibleData)
        ensures
            record.identifiers@ == self.identifiers(),
            record.notices@ == seq![self.notice()],
    {
        let mut identifiers: Vec<ModIdentifier> = Vec::new();
        identifiers.push(ModIdentifier::WorkshopId(self.steam_id));
        // Package names are not always unique: some replacements keep the name of
        // what they replace.
        if !(self.mod_id == self.replacement_mod_id) {
            identifiers.push(ModIdentifier::PackageId(self.mod_id));
        }
        let mut notices: Vec<NoticeRecord> = Vec::new();
        notices.push(
            NoticeRecord {
                notice: Notice::UseAlternative(
                    self.replacement_name,
                    Some(self.replacement_steam_id),
                    None,
                ),
                date: None,
                certainty: Certainty::Inapplicable,
                source: Source::UseThisInsteadDatabase,
                context_url: None,
            },
        );
        assert(identifiers@ =~= self.identifiers());
        assert(notices@ =~= seq![self.notice()]);
        IngestibleData { identifiers, notices }
    }
}

/// The source that reads the replacement documents of a cloned repository.
pub struct UseThisInstead {
    records: Vec<IngestibleData>,
    diagnostics: Diagnostics,
}

impl UseThisInstead {
    /// A source that has fetched nothing yet.
    pub fn new() -> (source: Self)
        ensures
            source.held() == Seq::<IngestibleData>::empty(),
            source.noted() == (DiagnosticsView { properties: None, log_lines: None }),
    {
        Self { diagnostics: Diagnostics::new(), records: Vec::new() }
    }

    /// Notes which commit the clone points at, or logs why that could not be told.
    pub fn note_commit(&mut self, head: Result<CommitInfo, String>)
        requires
            head matches Ok(commit) ==> commit.representable(),
        ensures
            final(self).held() == old(self).held(),
            final(self).noted() == (match head {
                Ok(commit) => old(self).noted().with_commit(
                    commit.id@,
                    match commit.summary {
                        Some(text) => Some(text@),
                        None => None,
                    },
                    rfc3339_of(commit.shown_seconds()),
                ),
                Err(reason) => old(self).noted().logged(
                    "Failed to retrieve git commit information for diagnostics: "@ + reason@,
                ),
            }),
    {
        self.diagnostics.add_git_info(head);
    }

    /// The line logged for a document that could not be opened or parsed.
    pub fn parse_failure(path: &str, reason: &str) -> (line: String)
        ensures
            line@ == "Failed to parse '"@ + path@ + "': "@ + reason@,
    {
        String::from_str("Failed to parse '").concat(path).concat("': ").concat(reason)
    }

    /// The line logged for a document whose task did not come to an end.
    pub fn task_failure(reason: &str) -> (line: String)
        ensures
            line@ == "Failed to finish parsing a document: "@ + reason@,
    {
        String::from_str("Failed to finish parsing a document: ").concat(reason)
    }

    /// Takes in what came of one document. Its record is kept; a document that
    /// failed is logged and gives nothing, and the others are none the worse for it.
    pub fn collect(&mut self, parsed: Result<IngestibleData, String>)
        ensures
            match parsed {
                Ok(record) => final(self).held() == old(self).held().push(record)
                    && final(self).noted() == old(self).noted(),
                Err(reason) => final(self).held() == old(self).held() && final(self).noted()
                    == old(self).noted().logged(reason@),
            },
    {
        match parsed {
            Ok(record) => {
                self.records.push(record);
            },
            Err(reason) => {
                self.diagnostics.log(reason.as_str());
            },
        }
    }

    /// Notes, once every document is in, how many records they gave.
    pub fn conclude(&mut self)
        ensures
            final(self).held() == old(self).held(),
            final(self).noted() == old(self).noted().with_property(
                "raw_records_count"@,
                decimal(old(self).held().len()),
            ),
    {
        let count = decimal_string(self.records.len() as u64);
        self.diagnostics.add_property("raw_records_count", count.as_str());
    }
}

impl RecordSource for UseThisInstead {
    closed spec fn held(&self) -> Seq<IngestibleData> {
        self.records@
    }

    closed spec fn noted(&self) -> DiagnosticsView {
        self.diagnostics@
    }

    open spec fn name(&self) -> Seq<char> {
        "Use This Instead"@
    }

    fn get_records(&mut self) -> (records: Option<Vec<IngestibleData>>) {
        if self.records.is_empty() {
            None
        } else {
            let mut records: Vec<IngestibleData> = Vec::new();
            std::mem::swap(&mut records, &mut self.records);
            Some(records)
        }
    }

    fn get_diagnostics(self) -> (diagnostics: Diagnostics) {
        self.diagnostics
    }

    fn get_name(&self) -> (name: &'static str) {
        "Use This Instead"
    }
}

} // verus!
