//! What every source of raw records offers, and the diagnostics it keeps while it works.

pub mod jumli_data;
pub mod use_this_instead;
pub mod workshop_database;

use vstd::prelude::*;
use vstd::string::StringExecFns;
use crate::records::types::IngestibleData;
use crate::time::{rfc3339_of, timestamp_text};

verus! {

/// What a source noted while it fetched: properties for a table, and lines on what
/// went wrong without stopping it. All of it is shown to the public.
#[derive(Debug)]
pub struct Diagnostics {
    properties: Option<Vec<(String, String)>>,
    log_lines: Option<Vec<String>>,
}

/// The content of `Diagnostics`. A list is `None` until something is added to it.
pub struct DiagnosticsView {
    pub properties: Option<Seq<(Seq<char>, Seq<char>)>>,
    pub log_lines: Option<Seq<Seq<char>>>,
}

/// The text of each line.
pub open spec fn lines_of(lines: Seq<String>) -> Seq<Seq<char>> {
    lines.map_values(|line: String| line@)
}

/// The text of each key and value.
pub open spec fn pairs_of(pairs: Seq<(String, String)>) -> Seq<(Seq<char>, Seq<char>)> {
    pairs.map_values(|pair: (String, String)| (pair.0@, pair.1@))
}

/// What a list holds, where one that was never added to holds nothing.
pub open spec fn so_far<T>(list: Option<Seq<T>>) -> Seq<T> {
    match list {
        Some(items) => items,
        None => Seq::empty(),
    }
}

impl DiagnosticsView {
    /// The diagnostics with one more log line.
    pub open spec fn logged(self, message: Seq<char>) -> DiagnosticsView {
        DiagnosticsView { log_lines: Some(so_far(self.log_lines).push(message)), ..self }
    }

    /// The diagnostics with one more property.
    pub open spec fn with_property(self, key: Seq<char>, value: Seq<char>) -> DiagnosticsView {
        DiagnosticsView { properties: Some(so_far(self.properties).push((key, value))), ..self }
    }

    /// The diagnostics with the three properties of a commit: its id, its summary and
    /// its time, the last two replaced by a notice where they are missing.
    pub open spec fn with_commit(
        self,
        id: Seq<char>,
        summary: Option<Seq<char>>,
        time: Option<Seq<char>>,
    ) -> DiagnosticsView {
        self.with_property("git_commit"@, id).with_property(
            "git_commit_summary"@,
            or_missing(summary),
        ).with_property("git_commit_time"@, or_missing(time))
    }
}

/// `text`, or the notice that stands in for a missing one.
pub open spec fn or_missing(text: Option<Seq<char>>) -> Seq<char> {
    match text {
        Some(text) => text,
        None => "Failed to retrieve."@,
    }
}

/// What the library needs to know of the commit that a cloned repository points at.
#[derive(Debug)]
pub struct CommitInfo {
    /// The commit's id, in hexadecimal.
    pub id: String,
    /// The first line of the commit's message, if it has one.
    pub summary: Option<String>,
    /// When the commit was made, in seconds after the Unix epoch.
    pub seconds: i64,
    /// The committer's offset from UTC, in minutes.
    pub offset_minutes: i32,
}

impl CommitInfo {
    /// The seconds that the commit's time is shown for: its instant moved by its offset.
    pub open spec fn shown_seconds(self) -> int {
        self.seconds + self.offset_minutes * 60
    }

    /// Whether the offset in seconds fits 32 bits and the shown seconds fit 64.
    pub open spec fn representable(self) -> bool {
        &&& i32::MIN <= self.offset_minutes * 60 <= i32::MAX
        &&& i64::MIN <= self.shown_seconds() <= i64::MAX
    }
}

impl View for Diagnostics {
    type V = DiagnosticsView;

    closed spec fn view(&self) -> DiagnosticsView {
        DiagnosticsView {
            properties: match self.properties {
                Some(pairs) => Some(pairs_of(pairs@)),
                None => None,
            },
            log_lines: match self.log_lines {
                Some(lines) => Some(lines_of(lines@)),
                None => None,
            },
        }
    }
}

impl Default for Diagnostics {
    fn default() -> (fresh: Self)
        ensures
            fresh@ == (DiagnosticsView { properties: None, log_lines: None }),
    {
        Diagnostics::new()
    }
}

impl Diagnostics {
    /// Diagnostics with nothing in them.
    pub fn new() -> (fresh: Self)
        ensures
            fresh@ == (DiagnosticsView { properties: None, log_lines: None }),
    {
        Self { properties: None, log_lines: None }
    }

    /// Adds a line to the log.
    pub fn log(&mut self, message: &str)
        ensures
            final(self)@ == old(self)@.logged(message@),
    {
        if self.log_lines.is_none() {
            self.log_lines = Some(Vec::new());
        }
        match &mut self.log_lines {
            Some(lines) => {
                lines.push(message.to_owned());
            },
            None => {},
        }
        assert(final(self)@.log_lines->0 =~= so_far(old(self)@.log_lines).push(message@));
    }

    /// Adds a property.
    pub fn add_property(&mut self, key: &str, value: &str)
        ensures
            final(self)@ == old(self)@.with_property(key@, value@),
    {
        if self.properties.is_none() {
            self.properties = Some(Vec::new());
        }
        match &mut self.properties {
            Some(pairs) => {
                pairs.push((key.to_owned(), value.to_owned()));
            },
            None => {},
        }
        assert(final(self)@.properties->0 =~= so_far(old(self)@.properties).push((key@, value@)));
    }

    /// The properties, if any was added.
    pub fn get_properties(&self) -> (properties: Option<&Vec<(String, String)>>)
        ensures
            match properties {
                Some(pairs) => self@.properties == Some(pairs_of(pairs@)),
                None => self@.properties is None,
            },
    {
        self.properties.as_ref()
    }

    /// The log, if anything was logged.
    pub fn get_logs(&self) -> (log: Option<&Vec<String>>)
        ensures
            match log {
                Some(lines) => self@.log_lines == Some(lines_of(lines@)),
                None => self@.log_lines is None,
            },
    {
        self.log_lines.as_ref()
    }

    /// Adds the three properties of a commit, given the text of its time.
    pub fn add_commit(&mut self, id: &str, summary: Option<&str>, time: Option<&str>)
        ensures
            final(self)@ == old(self)@.with_commit(
                id@,
                match summary {
                    Some(text) => Some(text@),
                    None => None,
                },
                match time {
                    Some(text) => Some(text@),
                    None => None,
                },
            ),
    {
        self.add_property("git_commit", id);
        self.add_property(
            "git_commit_summary",
            match summary {
                Some(text) => text,
                None => "Failed to retrieve.",
            },
        );
        self.add_property(
            "git_commit_time",
            match time {
                Some(text) => text,
                None => "Failed to retrieve.",
            },
        );
    }

    /// Notes which commit a cloned repository points at, or logs why that could not
    /// be told. The commit's time is shown as RFC 3339 text.
    pub fn add_git_info(&mut self, head: Result<CommitInfo, String>)
        requires
            head matches Ok(commit) ==> commit.representable(),
        ensures
            final(self)@ == (match head {
                Ok(commit) => old(self)@.with_commit(
                    commit.id@,
                    match commit.summary {
                        Some(text) => Some(text@),
                        None => None,
                    },
                    rfc3339_of(commit.shown_seconds()),
                ),
                Err(reason) => old(self)@.logged(
                    "Failed to retrieve git commit information for diagnostics: "@ + reason@,
                ),
            }),
    {
        match head {
            Ok(commit) => {
                let shift: i32 = commit.offset_minutes * 60;
                let time = timestamp_text(commit.seconds + shift as i64);
                self.add_commit(
                    commit.id.as_str(),
                    match &commit.summary {
                        Some(text) => Some(text.as_str()),
                        None => None,
                    },
                    match &time {
                        Some(text) => Some(text.as_str()),
                        None => None,
                    },
                );
            },
            Err(reason) => {
                let message = String::from_str(
                    "Failed to retrieve git commit information for diagnostics: ",
                ).concat(reason.as_str());
                self.log(message.as_str());
            },
        }
    }
}

/// What every source of raw records offers once its fetch has come to an end.
pub trait RecordSource: Sized {
    /// The records that the source has parsed and not handed out yet.
    spec fn held(&self) -> Seq<IngestibleData>;

    /// The diagnostics that the source has gathered.
    spec fn noted(&self) -> DiagnosticsView;

    /// The name under which the source's diagnostics are shown.
    spec fn name(&self) -> Seq<char>;

    /// Hands out the parsed records and keeps none; `None` where there are none.
    fn get_records(&mut self) -> (records: Option<Vec<IngestibleData>>)
        ensures
            match records {
                Some(records) => records@ == old(self).held() && records@.len() > 0,
                None => old(self).held().len() == 0,
            },
            final(self).held() == Seq::<IngestibleData>::empty(),
            final(self).noted() == old(self).noted(),
            final(self).name() == old(self).name(),
    ;

    /// Gives up the source for its diagnostics.
    fn get_diagnostics(self) -> (diagnostics: Diagnostics)
        ensures
            diagnostics@ == self.noted(),
    ;

    /// The name under which the source's diagnostics are shown.
    fn get_name(&self) -> (name: &'static str)
        ensures
            name@ == self.name(),
    ;
}

} // verus!
