//! The vocabulary of the catalog: identifiers, notices and the records that hold them.

use chrono::NaiveDate;
use vstd::prelude::*;
use vstd::std_specs::cmp::PartialEqSpecImpl;
use vstd::string::StringExecFns;
use crate::text::{blank, decimal, decimal_string, fit_for_directory, is_blank, names_directory};

verus! {

/// What a source hands to the builder: the identifiers of one mod and the notices it
/// has for that mod.
#[derive(Debug)]
pub struct IngestibleData {
    pub identifiers: Vec<ModIdentifier>,
    pub notices: Vec<NoticeRecord>,
}

/// An identifier together with the position of the record it leads to.
#[derive(Debug)]
pub struct ModRecordIndex {
    pub identifier: ModIdentifier,
    pub index: usize,
}

/// An entry of the catalog: every notice known of one mod, and every identifier the
/// mod goes by, each once.
#[derive(Debug)]
pub struct ModRecord {
    pub notices: Vec<NoticeRecord>,
    pub identifiers: Vec<ModIdentifier>,
}

/// A name that a mod goes by: its package name or its workshop number.
#[derive(Debug, Eq, Hash)]
pub enum ModIdentifier {
    PackageId(String),
    WorkshopId(u64),
}

/// What an identifier is, apart from how its text is stored.
pub enum IdentifierView {
    PackageId(Seq<char>),
    WorkshopId(u64),
}

impl IdentifierView {
    /// A package name is invalid when nothing is left of it once trimmed, a workshop
    /// number when it is zero.
    pub open spec fn is_invalid(self) -> bool {
        match self {
            IdentifierView::PackageId(id) => is_blank(id),
            IdentifierView::WorkshopId(id) => id == 0,
        }
    }

    /// The text under which the catalog files the identifier: a package name as it is,
    /// a workshop number in decimal.
    pub open spec fn key(self) -> Seq<char> {
        match self {
            IdentifierView::PackageId(id) => id,
            IdentifierView::WorkshopId(id) => decimal(id as nat),
        }
    }

    /// The directory that answers to the identifier: its key, if that can name a
    /// directory. A workshop number always has one.
    pub open spec fn directory(self) -> Option<Seq<char>> {
        match self {
            IdentifierView::PackageId(id) => if names_directory(id) {
                Some(id)
            } else {
                None
            },
            IdentifierView::WorkshopId(id) => Some(decimal(id as nat)),
        }
    }
}

impl View for ModIdentifier {
    type V = IdentifierView;

    open spec fn view(&self) -> IdentifierView {
        match self {
            ModIdentifier::PackageId(id) => IdentifierView::PackageId(id@),
            ModIdentifier::WorkshopId(id) => IdentifierView::WorkshopId(*id),
        }
    }
}

impl Clone for ModIdentifier {
    fn clone(&self) -> (copy: Self)
        ensures
            copy == *self,
    {
        match self {
            ModIdentifier::PackageId(id) => ModIdentifier::PackageId(id.clone()),
            ModIdentifier::WorkshopId(id) => ModIdentifier::WorkshopId(*id),
        }
    }
}

impl PartialEq for ModIdentifier {
    fn eq(&self, other: &Self) -> (equal: bool) {
        match (self, other) {
            (ModIdentifier::PackageId(a), ModIdentifier::PackageId(b)) => *a == *b,
            (ModIdentifier::WorkshopId(a), ModIdentifier::WorkshopId(b)) => *a == *b,
            _ => false,
        }
    }
}

impl PartialEqSpecImpl for ModIdentifier {
    open spec fn obeys_eq_spec() -> bool {
        true
    }

    open spec fn eq_spec(&self, other: &Self) -> bool {
        self@ == other@
    }
}

impl ModIdentifier {
    /// Tells whether the identifier is malformed and must not take part in merging.
    pub fn is_invalid(&self) -> (invalid: bool)
        ensures
            invalid == self@.is_invalid(),
    {
        match self {
            ModIdentifier::PackageId(id) => blank(id.as_str()),
            ModIdentifier::WorkshopId(id) => *id == 0,
        }
    }

    /// The name of the directory that answers to the identifier, if it can have one.
    pub fn directory(&self) -> (name: Option<String>)
        ensures
            match name {
                Some(name) => self@.directory() == Some(name@),
                None => self@.directory() is None,
            },
    {
        match self {
            ModIdentifier::PackageId(id) => if fit_for_directory(id.as_str()) {
                Some(id.clone())
            } else {
                None
            },
            ModIdentifier::WorkshopId(id) => Some(decimal_string(*id)),
        }
    }

    /// The text under which the catalog files the identifier.
    pub fn to_string(&self) -> (key: String)
        ensures
            key@ == self@.key(),
    {
        match self {
            ModIdentifier::PackageId(id) => id.clone(),
            ModIdentifier::WorkshopId(id) => decimal_string(*id),
        }
    }
}

/// A notice with where it comes from and how far it can be trusted.
#[derive(Debug, Clone, PartialEq, Eq)]
pub struct NoticeRecord {
    pub date: Option<NaiveDate>,
    pub notice: Notice,
    pub certainty: Certainty,
    pub source: Source,
    pub context_url: Option<String>,
}

/// One remark on a mod.
#[derive(Debug, Clone, PartialEq, Eq)]
pub enum Notice {
    BadPerformance(Option<String>),
    UseAlternative(String, Option<u64>, Option<String>),
    Bug(String),
    Unstable(Option<String>),
    OutOfDate,
    Miscellaneous(String),
}

/// How sure the author of a notice is.
#[derive(Debug, Clone, PartialEq, Eq)]
pub enum Certainty {
    High,
    Medium,
    Low,
    Inapplicable,
}

/// The dataset that a notice was taken from.
#[derive(Debug, Clone, PartialEq, Eq)]
pub enum Source {
    JumliDataset(String),
    UseThisInsteadDatabase,
    WorkshopDatabase,
}

impl Source {
    /// The name of the source as it is shown to readers.
    pub open spec fn label(self) -> Seq<char> {
        match self {
            Source::JumliDataset(name) => "JuMLi Dataset: "@ + name@,
            Source::UseThisInsteadDatabase => "Use This Instead Database"@,
            Source::WorkshopDatabase => "Steam Workshop Database"@,
        }
    }

    /// The name of the source as it is shown to readers.
    pub fn to_string(&self) -> (label: String)
        ensures
            label@ == self.label(),
    {
        match self {
            Source::JumliDataset(name) => String::from_str("JuMLi Dataset: ").concat(name.as_str()),
            Source::UseThisInsteadDatabase => String::from_str("Use This Instead Database"),
            Source::WorkshopDatabase => String::from_str("Steam Workshop Database"),
        }
    }
}

/// The identifiers of a record, each as what it is.
pub open spec fn views_of(identifiers: Seq<ModIdentifier>) -> Seq<IdentifierView> {
    identifiers.map_values(|id: ModIdentifier| id@)
}

/// What a record holds: its identifiers as what they are, and its notices.
pub struct RecordView {
    pub identifiers: Seq<IdentifierView>,
    pub notices: Seq<NoticeRecord>,
}

impl View for IngestibleData {
    type V = RecordView;

    open spec fn view(&self) -> RecordView {
        RecordView { identifiers: views_of(self.identifiers@), notices: self.notices@ }
    }
}

impl View for ModRecord {
    type V = RecordView;

    open spec fn view(&self) -> RecordView {
        RecordView { identifiers: views_of(self.identifiers@), notices: self.notices@ }
    }
}

} // verus!
