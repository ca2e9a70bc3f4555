use jumli::records::types::{ModIdentifier, Source};
use jumli::text::{blank, control, decimal_string, fit_for_directory, white_space};

#[test]
fn an_empty_or_blank_package_id_is_invalid() {
    assert!(ModIdentifier::PackageId(String::new()).is_invalid());
    assert!(ModIdentifier::PackageId("   ".to_string()).is_invalid());
    assert!(ModIdentifier::PackageId(" \t\r\n\u{a0}\u{3000}".to_string()).is_invalid());
    assert!(!ModIdentifier::PackageId("a.b".to_string()).is_invalid());
    assert!(!ModIdentifier::PackageId("  a.b ".to_string()).is_invalid());
}

#[test]
fn the_zero_workshop_id_is_invalid() {
    assert!(ModIdentifier::WorkshopId(0).is_invalid());
    assert!(!ModIdentifier::WorkshopId(1).is_invalid());
    assert!(!ModIdentifier::WorkshopId(u64::MAX).is_invalid());
}

#[test]
fn an_identifier_is_filed_under_its_text() {
    assert_eq!(ModIdentifier::PackageId("a.b".to_string()).to_string(), "a.b");
    assert_eq!(ModIdentifier::PackageId(" a ".to_string()).to_string(), " a ");
    assert_eq!(ModIdentifier::WorkshopId(42).to_string(), "42");
    assert_eq!(ModIdentifier::WorkshopId(0).to_string(), "0");
}

#[test]
fn identifiers_are_equal_when_kind_and_content_are() {
    assert_eq!(ModIdentifier::PackageId("a".to_string()), ModIdentifier::PackageId("a".to_string()));
    assert_ne!(ModIdentifier::PackageId("a".to_string()), ModIdentifier::PackageId("b".to_string()));
    assert_ne!(ModIdentifier::PackageId("7".to_string()), ModIdentifier::WorkshopId(7));
    assert_eq!(ModIdentifier::WorkshopId(7), ModIdentifier::WorkshopId(7));
    assert_ne!(ModIdentifier::WorkshopId(7), ModIdentifier::WorkshopId(8));
    let identifier = ModIdentifier::PackageId("kept".to_string());
    assert_eq!(identifier.clone(), identifier);
}

#[test]
fn numbers_are_written_as_std_writes_them() {
    for number in [0u64, 1, 9, 10, 11, 99, 100, 101, 12345, 1_000_000, u64::MAX - 1, u64::MAX] {
        assert_eq!(decimal_string(number), number.to_string());
    }
    assert_eq!(decimal_string(18446744073709551615), "18446744073709551615");
    assert_eq!(decimal_string(907), "907");
}

#[test]
fn white_space_is_what_std_takes_for_it() {
    for code in 0u32..0x11000 {
        if let Some(c) = char::from_u32(code) {
            assert_eq!(white_space(c), c.is_whitespace(), "U+{code:04X}");
        }
    }
    assert!(!white_space(char::MAX));
}

#[test]
fn a_string_is_blank_when_trimming_leaves_nothing() {
    for text in ["", " ", "\t \n", "\u{2003}\u{205f}", "a", " a", "a ", " \u{200b} ", "é", "\u{85}"] {
        assert_eq!(blank(text), text.trim().is_empty(), "{text:?}");
    }
}

#[test]
fn a_source_is_shown_by_its_name() {
    assert_eq!(Source::JumliDataset("Core".to_string()).to_string(), "JuMLi Dataset: Core");
    assert_eq!(Source::JumliDataset(String::new()).to_string(), "JuMLi Dataset: ");
    assert_eq!(Source::UseThisInsteadDatabase.to_string(), "Use This Instead Database");
    assert_eq!(Source::WorkshopDatabase.to_string(), "Steam Workshop Database");
}

#[test]
fn control_characters_are_what_std_takes_for_them() {
    for code in 0u32..0x11000 {
        if let Some(c) = char::from_u32(code) {
            assert_eq!(control(c), c.is_control(), "U+{code:04X}");
        }
    }
    assert!(!control(char::MAX));
}

#[test]
fn a_directory_name_has_no_slash_and_no_control_character() {
    for text in ["", "a", "a.b", "a/b", "/", "a\u{7}", "tab\there", "é ü", "a\u{9f}", "a\u{a0}", " "] {
        let expected = !text.is_empty() && text.chars().all(|c| c != '/' && !c.is_control());
        assert_eq!(fit_for_directory(text), expected, "{text:?}");
    }
}

#[test]
fn an_identifier_answers_to_a_directory_if_its_text_can_name_one() {
    assert_eq!(ModIdentifier::PackageId("a.b".to_string()).directory(), Some("a.b".to_string()));
    assert_eq!(ModIdentifier::PackageId("  ".to_string()).directory(), Some("  ".to_string()));
    assert_eq!(ModIdentifier::PackageId(String::new()).directory(), None);
    assert_eq!(ModIdentifier::PackageId("a/b".to_string()).directory(), None);
    assert_eq!(ModIdentifier::PackageId("a\nb".to_string()).directory(), None);
    assert_eq!(ModIdentifier::WorkshopId(0).directory(), Some("0".to_string()));
    assert_eq!(ModIdentifier::WorkshopId(2009463077).directory(), Some("2009463077".to_string()));
}
