use std::collections::HashMap;

use chrono::NaiveDate;
use jumli::records::types::{
    Certainty, IngestibleData, ModIdentifier, Notice, NoticeRecord, Source,
};
use jumli::records::DatabaseBuilder;
use jumli::sources::jumli_data::{DatasetFile, DatasetFileRecord, JumliData, LocalNotice};
use jumli::sources::use_this_instead::{UseThisInstead, UtiDocument};
use jumli::sources::workshop_database::{GameVersions, WorkshopDatabase, Wsdb, WsdbRecord};
use jumli::sources::{CommitInfo, RecordSource};

fn day(year: i32, month: u32, day: u32) -> NaiveDate {
    NaiveDate::from_ymd_opt(year, month, day).unwrap()
}

fn document(mod_id: &str, steam_id: u64, replacement_mod_id: &str) -> UtiDocument {
    UtiDocument {
        mod_id: mod_id.to_string(),
        mod_name: "Old".to_string(),
        author: "someone".to_string(),
        steam_id,
        versions: "1.0".to_string(),
        replacement_mod_id: replacement_mod_id.to_string(),
        replacement_name: "New".to_string(),
        replacement_author: "someone else".to_string(),
        replacement_steam_id: 77,
        replacement_versions: "1.5".to_string(),
    }
}

fn replacement_notice() -> NoticeRecord {
    NoticeRecord {
        notice: Notice::UseAlternative("New".to_string(), Some(77), None),
        date: None,
        certainty: Certainty::Inapplicable,
        source: Source::UseThisInsteadDatabase,
        context_url: None,
    }
}

#[test]
fn a_dataset_file_attributes_its_notices_to_itself() {
    let file = DatasetFile {
        name: "Core".to_string(),
        description: "what everyone knows".to_string(),
        records: vec![
            DatasetFileRecord {
                identifiers: vec![ModIdentifier::PackageId("a.b".to_string()), ModIdentifier::WorkshopId(3)],
                notices: vec![
                    LocalNotice {
                        date: Some(day(2024, 2, 29)),
                        notice: Notice::Bug("crashes".to_string()),
                        certainty: Certainty::High,
                        context_url: Some("https://example.org/1".to_string()),
                    },
                    LocalNotice {
                        date: None,
                        notice: Notice::Unstable(None),
                        certainty: Certainty::Low,
                        context_url: None,
                    },
                ],
            },
            DatasetFileRecord { identifiers: vec![], notices: vec![] },
        ],
    };
    let records = file.into_records();
    assert_eq!(records.len(), 2);
    assert_eq!(
        records[0].identifiers,
        vec![ModIdentifier::PackageId("a.b".to_string()), ModIdentifier::WorkshopId(3)]
    );
    assert_eq!(
        records[0].notices,
        vec![
            NoticeRecord {
                date: Some(day(2024, 2, 29)),
                notice: Notice::Bug("crashes".to_string()),
                certainty: Certainty::High,
                source: Source::JumliDataset("Core".to_string()),
                context_url: Some("https://example.org/1".to_string()),
            },
            NoticeRecord {
                date: None,
                notice: Notice::Unstable(None),
                certainty: Certainty::Low,
                source: Source::JumliDataset("Core".to_string()),
                context_url: None,
            },
        ]
    );
    assert!(records[1].identifiers.is_empty());
    assert!(records[1].notices.is_empty());
}

#[test]
fn a_failed_file_is_logged_and_the_others_are_kept() {
    let mut source = JumliData::new();
    source.collect(Ok(vec![IngestibleData { identifiers: vec![ModIdentifier::WorkshopId(1)], notices: vec![] }]));
    source.collect(Err(JumliData::parse_failure("\"/tmp/x.ron\"", "1:1: Expected struct")));
    source.collect(Err(JumliData::read_failure("\"/tmp/y.ron\"", "permission denied")));
    source.collect(Err(JumliData::task_failure("task 7 panicked")));
    source.collect(Ok(vec![
        IngestibleData { identifiers: vec![ModIdentifier::WorkshopId(2)], notices: vec![] },
        IngestibleData { identifiers: vec![ModIdentifier::WorkshopId(3)], notices: vec![] },
    ]));
    assert_eq!(source.get_name(), "JuMLi Data");
    let records = source.get_records().expect("three records");
    let numbers: Vec<&ModIdentifier> = records.iter().map(|record| &record.identifiers[0]).collect();
    assert_eq!(
        numbers,
        vec![&ModIdentifier::WorkshopId(1), &ModIdentifier::WorkshopId(2), &ModIdentifier::WorkshopId(3)]
    );
    assert!(source.get_records().is_none());
    let diagnostics = source.get_diagnostics();
    assert_eq!(
        diagnostics.get_logs(),
        Some(&vec![
            "Unable to parse dataset \"/tmp/x.ron\": 1:1: Expected struct".to_string(),
            "Unable to read dataset \"/tmp/y.ron\": permission denied".to_string(),
            "Unable to finish reading a dataset: task 7 panicked".to_string(),
        ])
    );
}

#[test]
fn a_source_without_records_hands_out_none() {
    let mut source = JumliData::new();
    assert!(source.get_records().is_none());
    source.collect(Ok(vec![]));
    assert!(source.get_records().is_none());
    let mut source = UseThisInstead::new();
    assert!(source.get_records().is_none());
    let mut source = WorkshopDatabase::new("1.5".to_string());
    assert!(source.get_records().is_none());
    assert_eq!(source.get_diagnostics().get_logs(), None);
}

#[test]
fn a_replacement_document_gives_one_record() {
    let record = document("old.mod", 12, "new.mod").into_record();
    assert_eq!(
        record.identifiers,
        vec![ModIdentifier::WorkshopId(12), ModIdentifier::PackageId("old.mod".to_string())]
    );
    assert_eq!(record.notices, vec![replacement_notice()]);
}

#[test]
fn a_replacement_of_the_same_name_keeps_the_name_out() {
    let record = document("same.mod", 12, "same.mod").into_record();
    assert_eq!(record.identifiers, vec![ModIdentifier::WorkshopId(12)]);
    assert_eq!(record.notices, vec![replacement_notice()]);
}

#[test]
fn use_this_instead_counts_its_records() {
    let mut source = UseThisInstead::new();
    source.note_commit(Ok(CommitInfo {
        id: "abc".to_string(),
        summary: Some("Update".to_string()),
        seconds: 1700000000,
        offset_minutes: 60,
    }));
    source.collect(Ok(document("old.mod", 12, "new.mod").into_record()));
    source.collect(Err(UseThisInstead::parse_failure("/tmp/a.xml", "missing field `ModId`")));
    source.collect(Err(UseThisInstead::task_failure("task 3 was cancelled")));
    source.collect(Ok(document("other.mod", 13, "new.mod").into_record()));
    source.conclude();
    assert_eq!(source.get_name(), "Use This Instead");
    assert_eq!(source.get_records().map(|records| records.len()), Some(2));
    let diagnostics = source.get_diagnostics();
    let expected: Vec<(String, String)> = [
        ("git_commit", "abc"),
        ("git_commit_summary", "Update"),
        ("git_commit_time", "2023-11-14T23:13:20+00:00"),
        ("raw_records_count", "2"),
    ]
    .iter()
    .map(|(key, value)| (key.to_string(), value.to_string()))
    .collect();
    assert_eq!(diagnostics.get_properties(), Some(&expected));
    assert_eq!(
        diagnostics.get_logs(),
        Some(&vec![
            "Failed to parse '/tmp/a.xml': missing field `ModId`".to_string(),
            "Failed to finish parsing a document: task 3 was cancelled".to_string(),
        ])
    );
}

#[test]
fn game_versions_are_listed_either_way() {
    let single = GameVersions::Single("1.4".to_string());
    assert_eq!(single.as_vec(), vec![&"1.4".to_string()]);
    let many = GameVersions::Many(vec!["1.3".to_string(), "1.4".to_string()]);
    assert_eq!(many.as_vec(), vec![&"1.3".to_string(), &"1.4".to_string()]);
    assert!(GameVersions::Many(vec![]).as_vec().is_empty());
    assert!(many.includes("1.4"));
    assert!(!many.includes("1.5"));
    assert!(single.includes("1.4"));
    assert!(!single.includes("1."));
}

fn snapshot(entries: Vec<(u64, WsdbRecord)>) -> Wsdb {
    Wsdb { database: entries.into_iter().collect::<HashMap<u64, WsdbRecord>>() }
}

fn outdated_notice(today: NaiveDate) -> NoticeRecord {
    NoticeRecord {
        certainty: Certainty::Medium,
        date: Some(today),
        notice: Notice::OutOfDate,
        source: Source::WorkshopDatabase,
        context_url: None,
    }
}

#[test]
fn the_workshop_snapshot_reports_what_is_out_of_date() {
    let snapshot = snapshot(vec![
        (10, WsdbRecord { package_id: Some("old.mod".to_string()), game_versions: Some(GameVersions::Single("1.3".to_string())) }),
        (11, WsdbRecord { package_id: Some("untagged".to_string()), game_versions: None }),
        (12, WsdbRecord { package_id: None, game_versions: Some(GameVersions::Many(vec!["1.4".to_string(), "1.5".to_string()])) }),
        (13, WsdbRecord { package_id: None, game_versions: Some(GameVersions::Many(vec![])) }),
    ]);
    let mut source = WorkshopDatabase::new("1.5".to_string());
    source.collect(&snapshot, day(2025, 1, 2));
    assert_eq!(source.get_name(), "Workshop Database");
    let mut records = source.get_records().expect("two records");
    records.sort_by_key(|record| record.identifiers[0].to_string());
    assert_eq!(records.len(), 2);
    assert_eq!(
        records[0].identifiers,
        vec![ModIdentifier::WorkshopId(10), ModIdentifier::PackageId("old.mod".to_string())]
    );
    assert_eq!(records[0].notices, vec![outdated_notice(day(2025, 1, 2))]);
    assert_eq!(records[1].identifiers, vec![ModIdentifier::WorkshopId(13)]);
    assert_eq!(records[1].notices, vec![outdated_notice(day(2025, 1, 2))]);
    assert_eq!(source.get_diagnostics().get_logs(), None);
}

#[test]
fn one_entry_of_the_snapshot_gives_at_most_one_record() {
    let mut source = WorkshopDatabase::new("1.6".to_string());
    source.collect_entry(1, &WsdbRecord { package_id: None, game_versions: None }, day(2025, 3, 4));
    source.collect_entry(
        2,
        &WsdbRecord { package_id: Some("fresh".to_string()), game_versions: Some(GameVersions::Single("1.6".to_string())) },
        day(2025, 3, 4),
    );
    assert!(source.get_records().is_none());
    source.collect_entry(
        3,
        &WsdbRecord { package_id: Some("stale".to_string()), game_versions: Some(GameVersions::Single("1.5".to_string())) },
        day(2025, 3, 4),
    );
    source.collect_entry(
        4,
        &WsdbRecord { package_id: None, game_versions: Some(GameVersions::Many(vec!["1.0".to_string()])) },
        day(2025, 3, 5),
    );
    let records = source.get_records().expect("two records");
    assert_eq!(records.len(), 2);
    assert_eq!(
        records[0].identifiers,
        vec![ModIdentifier::WorkshopId(3), ModIdentifier::PackageId("stale".to_string())]
    );
    assert_eq!(records[0].notices, vec![outdated_notice(day(2025, 3, 4))]);
    assert_eq!(records[1].identifiers, vec![ModIdentifier::WorkshopId(4)]);
    assert_eq!(records[1].notices, vec![outdated_notice(day(2025, 3, 5))]);
}

#[test]
fn an_empty_snapshot_gives_nothing() {
    let mut source = WorkshopDatabase::new("1.6".to_string());
    source.collect(&snapshot(vec![]), day(2025, 3, 4));
    assert!(source.get_records().is_none());
}

#[test]
fn a_fetched_source_is_ingested() {
    let mut builder = DatabaseBuilder::new();
    let mut first = UseThisInstead::new();
    first.collect(Ok(document("old.mod", 12, "new.mod").into_record()));
    first.conclude();
    let outcome: Result<(), String> = builder.ingest_from(first, Ok(()));
    assert_eq!(outcome, Ok(()));
    let mut second = JumliData::new();
    second.collect(Ok(vec![IngestibleData {
        identifiers: vec![ModIdentifier::PackageId("old.mod".to_string())],
        notices: vec![],
    }]));
    second.collect(Err("broken".to_string()));
    let outcome: Result<(), String> = builder.ingest_from(second, Ok(()));
    assert_eq!(outcome, Ok(()));
    let outcome: Result<(), String> = builder.ingest_from(JumliData::new(), Ok(()));
    assert_eq!(outcome, Ok(()));
    let db = builder.finalize();
    assert_eq!(db.records.len(), 1);
    assert_eq!(
        db.records[0].identifiers,
        vec![ModIdentifier::WorkshopId(12), ModIdentifier::PackageId("old.mod".to_string())]
    );
    assert_eq!(db.records[0].notices, vec![replacement_notice()]);
    let names: Vec<&str> = db.named_diagnostics.iter().map(|named| named.0.as_str()).collect();
    assert_eq!(names, vec!["Use This Instead", "JuMLi Data", "JuMLi Data"]);
    assert_eq!(db.named_diagnostics[1].1.get_logs(), Some(&vec!["broken".to_string()]));
    assert_eq!(db.named_diagnostics[2].1.get_logs(), None);
}

#[test]
fn a_failed_fetch_leaves_the_builder_as_it_was() {
    let mut builder = DatabaseBuilder::new();
    let mut first = UseThisInstead::new();
    first.collect(Ok(document("old.mod", 12, "new.mod").into_record()));
    let outcome: Result<(), String> = builder.ingest_from(first, Ok(()));
    assert_eq!(outcome, Ok(()));
    let mut failing = JumliData::new();
    failing.collect(Ok(vec![IngestibleData { identifiers: vec![ModIdentifier::WorkshopId(99)], notices: vec![] }]));
    let outcome = builder.ingest_from(failing, Err("could not clone".to_string()));
    assert_eq!(outcome, Err("could not clone".to_string()));
    let db = builder.finalize();
    assert_eq!(db.records.len(), 1);
    assert_eq!(db.named_diagnostics.len(), 1);
    assert_eq!(db.indices.get("99"), None);
    assert_eq!(db.indices.get("12"), Some(&0));
}
