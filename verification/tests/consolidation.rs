use jumli::records::types::{
    Certainty, IngestibleData, ModIdentifier, ModRecord, Notice, NoticeRecord, Source,
};
use jumli::records::{Database, DatabaseBuilder};
use jumli::sources::Diagnostics;

fn note(text: &str) -> NoticeRecord {
    NoticeRecord {
        date: None,
        notice: Notice::Miscellaneous(text.to_string()),
        certainty: Certainty::High,
        source: Source::JumliDataset("tests".to_string()),
        context_url: None,
    }
}

fn package(name: &str) -> ModIdentifier {
    ModIdentifier::PackageId(name.to_string())
}

fn workshop(number: u64) -> ModIdentifier {
    ModIdentifier::WorkshopId(number)
}

fn raw(identifiers: Vec<ModIdentifier>, notices: Vec<NoticeRecord>) -> IngestibleData {
    IngestibleData { identifiers, notices }
}

fn consolidate(records: Vec<IngestibleData>) -> Database {
    let mut builder = DatabaseBuilder::new();
    builder.stage("tests", Some(records), Diagnostics::new());
    builder.finalize()
}

fn texts(record: &ModRecord) -> Vec<String> {
    record
        .notices
        .iter()
        .map(|notice| match &notice.notice {
            Notice::Miscellaneous(text) => text.clone(),
            other => panic!("unexpected notice {other:?}"),
        })
        .collect()
}

fn lookup(db: &Database, key: &str) -> Option<usize> {
    db.indices.get(key).copied()
}

#[test]
fn records_sharing_an_identifier_are_merged() {
    let db = consolidate(vec![
        raw(vec![package("a.b")], vec![note("N1")]),
        raw(vec![package("a.b"), workshop(42)], vec![note("N2")]),
        raw(vec![workshop(99)], vec![note("N3")]),
    ]);
    assert_eq!(db.records.len(), 2);
    assert_eq!(db.records[0].identifiers, vec![package("a.b"), workshop(42)]);
    assert_eq!(db.records[0].notices, vec![note("N1"), note("N2")]);
    assert_eq!(db.records[1].identifiers, vec![workshop(99)]);
    assert_eq!(db.records[1].notices, vec![note("N3")]);
    assert_eq!(lookup(&db, "a.b"), Some(0));
    assert_eq!(lookup(&db, "42"), Some(0));
    assert_eq!(lookup(&db, "99"), Some(1));
    assert_eq!(db.indices.len(), 3);
}

#[test]
fn an_empty_package_id_is_kept_but_neither_merged_nor_filed() {
    let db = consolidate(vec![raw(vec![package(""), workshop(7)], vec![note("N1")])]);
    assert_eq!(db.records.len(), 1);
    assert_eq!(db.records[0].identifiers, vec![package(""), workshop(7)]);
    assert_eq!(lookup(&db, ""), None);
    assert_eq!(lookup(&db, "7"), Some(0));
    assert_eq!(db.indices.len(), 1);
}

#[test]
fn invalid_identifiers_never_merge_records() {
    let db = consolidate(vec![
        raw(vec![package("  "), workshop(0)], vec![note("N1")]),
        raw(vec![package("  "), workshop(0)], vec![note("N2")]),
        raw(vec![workshop(0), package("\t\n")], vec![note("N3")]),
    ]);
    assert_eq!(db.records.len(), 3);
    assert_eq!(db.records[0].identifiers, vec![package("  "), workshop(0)]);
    assert_eq!(db.records[1].identifiers, vec![package("  "), workshop(0)]);
    assert_eq!(db.records[2].identifiers, vec![workshop(0), package("\t\n")]);
    assert_eq!(texts(&db.records[0]), vec!["N1"]);
    assert_eq!(texts(&db.records[1]), vec!["N2"]);
    assert_eq!(texts(&db.records[2]), vec!["N3"]);
    assert!(db.indices.is_empty());
}

#[test]
fn merging_is_transitive() {
    let db = consolidate(vec![
        raw(vec![package("a")], vec![note("A")]),
        raw(vec![workshop(5)], vec![note("X")]),
        raw(vec![package("a"), package("b")], vec![note("B")]),
        raw(vec![package("b"), workshop(3)], vec![note("C")]),
    ]);
    assert_eq!(db.records.len(), 2);
    assert_eq!(db.records[0].identifiers, vec![package("a"), package("b"), workshop(3)]);
    assert_eq!(texts(&db.records[0]), vec!["A", "B", "C"]);
    assert_eq!(db.records[1].identifiers, vec![workshop(5)]);
    assert_eq!(texts(&db.records[1]), vec!["X"]);
    assert_eq!(lookup(&db, "a"), Some(0));
    assert_eq!(lookup(&db, "b"), Some(0));
    assert_eq!(lookup(&db, "3"), Some(0));
    assert_eq!(lookup(&db, "5"), Some(1));
}

#[test]
fn a_late_record_can_join_two_classes() {
    let db = consolidate(vec![
        raw(vec![package("a")], vec![note("A")]),
        raw(vec![package("b")], vec![note("B")]),
        raw(vec![package("c")], vec![note("C")]),
        raw(vec![package("c"), package("a")], vec![note("D")]),
    ]);
    assert_eq!(db.records.len(), 2);
    assert_eq!(db.records[0].identifiers, vec![package("a"), package("c")]);
    assert_eq!(texts(&db.records[0]), vec!["A", "C", "D"]);
    assert_eq!(db.records[1].identifiers, vec![package("b")]);
    assert_eq!(texts(&db.records[1]), vec!["B"]);
}

#[test]
fn notices_are_never_deduplicated() {
    let db = consolidate(vec![
        raw(vec![workshop(1)], vec![note("same"), note("same")]),
        raw(vec![workshop(1)], vec![note("same")]),
    ]);
    assert_eq!(db.records.len(), 1);
    assert_eq!(db.records[0].identifiers, vec![workshop(1)]);
    assert_eq!(texts(&db.records[0]), vec!["same", "same", "same"]);
}

#[test]
fn reordering_the_input_keeps_the_groups() {
    let first = consolidate(vec![
        raw(vec![package("a")], vec![note("A")]),
        raw(vec![package("b")], vec![note("B")]),
        raw(vec![package("a"), workshop(2)], vec![note("C")]),
    ]);
    let second = consolidate(vec![
        raw(vec![package("b")], vec![note("B")]),
        raw(vec![package("a"), workshop(2)], vec![note("C")]),
        raw(vec![package("a")], vec![note("A")]),
    ]);
    assert_eq!(first.records.len(), 2);
    assert_eq!(second.records.len(), 2);
    assert_eq!(first.records[0].identifiers, vec![package("a"), workshop(2)]);
    assert_eq!(texts(&first.records[0]), vec!["A", "C"]);
    assert_eq!(texts(&first.records[1]), vec!["B"]);
    assert_eq!(second.records[1].identifiers, vec![package("a"), workshop(2)]);
    assert_eq!(texts(&second.records[1]), vec!["C", "A"]);
    assert_eq!(texts(&second.records[0]), vec!["B"]);
}

#[test]
fn a_repeated_identifier_is_listed_once() {
    let db = consolidate(vec![
        raw(vec![package("a"), package("a"), workshop(4)], vec![]),
        raw(vec![workshop(4), package("a")], vec![note("N")]),
    ]);
    assert_eq!(db.records.len(), 1);
    assert_eq!(db.records[0].identifiers, vec![package("a"), workshop(4)]);
    assert_eq!(texts(&db.records[0]), vec!["N"]);
}

#[test]
fn a_package_named_like_a_number_shares_its_key() {
    let db = consolidate(vec![
        raw(vec![package("42")], vec![note("P")]),
        raw(vec![workshop(42)], vec![note("W")]),
    ]);
    assert_eq!(db.records.len(), 2);
    assert_eq!(lookup(&db, "42"), Some(1));
    assert_eq!(db.indices.len(), 1);
}

#[test]
fn nothing_staged_gives_an_empty_catalog() {
    let db = DatabaseBuilder::new().finalize();
    assert!(db.records.is_empty());
    assert!(db.indices.is_empty());
    assert!(db.named_diagnostics.is_empty());
}

#[test]
fn a_record_without_identifiers_stands_alone() {
    let db = consolidate(vec![raw(vec![], vec![note("A")]), raw(vec![], vec![note("B")])]);
    assert_eq!(db.records.len(), 2);
    assert!(db.records[0].identifiers.is_empty());
    assert_eq!(texts(&db.records[0]), vec!["A"]);
    assert_eq!(texts(&db.records[1]), vec!["B"]);
}

#[test]
fn records_staged_in_turn_keep_their_order() {
    let mut builder = DatabaseBuilder::new();
    let mut first = Diagnostics::new();
    first.log("one line");
    builder.stage("First", Some(vec![raw(vec![workshop(1)], vec![note("A")])]), first);
    builder.stage("Second", None, Diagnostics::new());
    builder.stage("Third", Some(vec![raw(vec![workshop(1)], vec![note("B")])]), Diagnostics::new());
    let db = builder.finalize();
    assert_eq!(db.records.len(), 1);
    assert_eq!(texts(&db.records[0]), vec!["A", "B"]);
    let names: Vec<&str> = db.named_diagnostics.iter().map(|named| named.0.as_str()).collect();
    assert_eq!(names, vec!["First", "Second", "Third"]);
    assert_eq!(db.named_diagnostics[0].1.get_logs(), Some(&vec!["one line".to_string()]));
    assert_eq!(db.named_diagnostics[1].1.get_logs(), None);
}

/// A small generator of numbers that look random and are the same on every run.
struct Numbers(u64);

impl Numbers {
    fn next(&mut self, below: u64) -> u64 {
        self.0 = self.0.wrapping_mul(6364136223846793005).wrapping_add(1442695040888963407);
        (self.0 >> 33) % below
    }
}

fn some_identifier(numbers: &mut Numbers, variety: u64) -> ModIdentifier {
    match numbers.next(6) {
        0 => package(""),
        1 => workshop(0),
        2 | 3 => package(&format!("mod.{}", numbers.next(variety))),
        _ => workshop(1 + numbers.next(variety)),
    }
}

fn is_valid(identifier: &ModIdentifier) -> bool {
    match identifier {
        ModIdentifier::PackageId(name) => !name.trim().is_empty(),
        ModIdentifier::WorkshopId(number) => *number != 0,
    }
}

/// The catalog worked out the slow way: classes by repeated relabelling, entries in
/// the order of their first record.
fn expected(records: &[(Vec<ModIdentifier>, Vec<String>)]) -> Vec<(Vec<ModIdentifier>, Vec<String>)> {
    let mut class: Vec<usize> = (0..records.len()).collect();
    loop {
        let mut changed = false;
        for i in 0..records.len() {
            for j in 0..records.len() {
                let share = records[i].0.iter().any(|id| is_valid(id) && records[j].0.contains(id));
                if share && class[i] != class[j] {
                    let low = class[i].min(class[j]);
                    class[i] = low;
                    class[j] = low;
                    changed = true;
                }
            }
        }
        if !changed {
            break;
        }
    }
    let mut entries: Vec<(usize, Vec<ModIdentifier>, Vec<String>)> = Vec::new();
    for (i, (identifiers, notices)) in records.iter().enumerate() {
        let at = match entries.iter().position(|entry| entry.0 == class[i]) {
            Some(at) => at,
            None => {
                entries.push((class[i], Vec::new(), Vec::new()));
                entries.len() - 1
            }
        };
        for identifier in identifiers {
            if !entries[at].1.contains(identifier) {
                entries[at].1.push(identifier.clone());
            }
        }
        entries[at].2.extend(notices.iter().cloned());
    }
    entries.into_iter().map(|entry| (entry.1, entry.2)).collect()
}

#[test]
fn the_catalog_is_what_the_slow_way_gives() {
    let mut numbers = Numbers(2024);
    for round in 0..60u64 {
        let count = numbers.next(40) as usize;
        let variety = 1 + numbers.next(30);
        let mut plain: Vec<(Vec<ModIdentifier>, Vec<String>)> = Vec::new();
        for i in 0..count {
            let identifiers = (0..numbers.next(4)).map(|_| some_identifier(&mut numbers, variety)).collect();
            let notices = (0..numbers.next(3)).map(|k| format!("{round}.{i}.{k}")).collect();
            plain.push((identifiers, notices));
        }
        let db = consolidate(
            plain
                .iter()
                .map(|(identifiers, notices)| {
                    raw(identifiers.clone(), notices.iter().map(|text| note(text)).collect())
                })
                .collect(),
        );
        let wanted = expected(&plain);
        assert_eq!(db.records.len(), wanted.len(), "round {round}");
        let mut keys = 0;
        for (position, (record, (identifiers, notices))) in db.records.iter().zip(wanted.iter()).enumerate() {
            assert_eq!(&record.identifiers, identifiers, "round {round}");
            assert_eq!(&texts(record), notices, "round {round}");
            for identifier in identifiers.iter().filter(|id| is_valid(id)) {
                assert_eq!(lookup(&db, &identifier.to_string()), Some(position), "round {round}");
                keys += 1;
            }
        }
        assert_eq!(db.indices.len(), keys, "round {round}");
    }
}

fn sorted_pairs(db: &Database) -> Vec<(String, usize)> {
    let mut pairs = db.lookup_pairs();
    pairs.sort();
    pairs.dedup();
    pairs
}

#[test]
fn the_lookup_can_be_listed() {
    let db = consolidate(vec![
        raw(vec![package("a.b"), package("")], vec![note("N1")]),
        raw(vec![package("a.b"), workshop(42)], vec![note("N2")]),
        raw(vec![workshop(99), workshop(0)], vec![note("N3")]),
    ]);
    assert_eq!(
        sorted_pairs(&db),
        vec![("42".to_string(), 0), ("99".to_string(), 1), ("a.b".to_string(), 0)]
    );
    assert_eq!(db.lookup_pairs().len(), db.indices.len());
}

#[test]
fn a_key_of_two_entries_is_listed_with_the_later_one() {
    let db = consolidate(vec![
        raw(vec![package("42")], vec![note("P")]),
        raw(vec![workshop(42)], vec![note("W")]),
    ]);
    assert_eq!(sorted_pairs(&db), vec![("42".to_string(), 1)]);
}

#[test]
fn an_empty_catalog_lists_nothing() {
    let db = DatabaseBuilder::new().finalize();
    assert!(db.lookup_pairs().is_empty());
}
