use jumli::sources::{CommitInfo, Diagnostics};

fn pairs(items: &[(&str, &str)]) -> Vec<(String, String)> {
    items.iter().map(|(key, value)| (key.to_string(), value.to_string())).collect()
}

#[test]
fn fresh_diagnostics_hold_nothing() {
    let diagnostics = Diagnostics::new();
    assert_eq!(diagnostics.get_logs(), None);
    assert_eq!(diagnostics.get_properties(), None);
    let diagnostics = Diagnostics::default();
    assert_eq!(diagnostics.get_logs(), None);
    assert_eq!(diagnostics.get_properties(), None);
}

#[test]
fn lines_are_logged_in_order() {
    let mut diagnostics = Diagnostics::new();
    diagnostics.log("first");
    diagnostics.log("second");
    diagnostics.log("first");
    assert_eq!(
        diagnostics.get_logs(),
        Some(&vec!["first".to_string(), "second".to_string(), "first".to_string()])
    );
    assert_eq!(diagnostics.get_properties(), None);
}

#[test]
fn properties_are_kept_in_order() {
    let mut diagnostics = Diagnostics::new();
    diagnostics.add_property("b", "2");
    diagnostics.add_property("a", "1");
    diagnostics.add_property("b", "3");
    assert_eq!(diagnostics.get_properties(), Some(&pairs(&[("b", "2"), ("a", "1"), ("b", "3")])));
    assert_eq!(diagnostics.get_logs(), None);
}

#[test]
fn a_commit_gives_three_properties() {
    let mut diagnostics = Diagnostics::new();
    diagnostics.add_git_info(Ok(CommitInfo {
        id: "0123abcd".to_string(),
        summary: Some("Add records".to_string()),
        seconds: 1431648000,
        offset_minutes: 0,
    }));
    assert_eq!(
        diagnostics.get_properties(),
        Some(&pairs(&[
            ("git_commit", "0123abcd"),
            ("git_commit_summary", "Add records"),
            ("git_commit_time", "2015-05-15T00:00:00+00:00"),
        ]))
    );
    assert_eq!(diagnostics.get_logs(), None);
}

#[test]
fn the_offset_moves_the_time_shown() {
    let mut diagnostics = Diagnostics::new();
    diagnostics.add_git_info(Ok(CommitInfo {
        id: "ff".to_string(),
        summary: None,
        seconds: 0,
        offset_minutes: -90,
    }));
    assert_eq!(
        diagnostics.get_properties(),
        Some(&pairs(&[
            ("git_commit", "ff"),
            ("git_commit_summary", "Failed to retrieve."),
            ("git_commit_time", "1969-12-31T22:30:00+00:00"),
        ]))
    );
}

#[test]
fn a_time_out_of_range_is_reported_as_missing() {
    let mut diagnostics = Diagnostics::new();
    diagnostics.add_git_info(Ok(CommitInfo {
        id: "ff".to_string(),
        summary: Some(String::new()),
        seconds: i64::MAX - 60,
        offset_minutes: 1,
    }));
    assert_eq!(
        diagnostics.get_properties(),
        Some(&pairs(&[
            ("git_commit", "ff"),
            ("git_commit_summary", ""),
            ("git_commit_time", "Failed to retrieve."),
        ]))
    );
}

#[test]
fn a_missing_commit_is_logged() {
    let mut diagnostics = Diagnostics::new();
    diagnostics.log("before");
    diagnostics.add_git_info(Err("reference 'refs/heads/main' not found".to_string()));
    assert_eq!(
        diagnostics.get_logs(),
        Some(&vec![
            "before".to_string(),
            "Failed to retrieve git commit information for diagnostics: reference 'refs/heads/main' not found"
                .to_string(),
        ])
    );
    assert_eq!(diagnostics.get_properties(), None);
}

#[test]
fn a_commit_can_be_added_with_its_time_as_text() {
    let mut diagnostics = Diagnostics::new();
    diagnostics.add_property("raw_records_count", "3");
    diagnostics.add_commit("abc", None, Some("2020-01-01T00:00:00+00:00"));
    assert_eq!(
        diagnostics.get_properties(),
        Some(&pairs(&[
            ("raw_records_count", "3"),
            ("git_commit", "abc"),
            ("git_commit_summary", "Failed to retrieve."),
            ("git_commit_time", "2020-01-01T00:00:00+00:00"),
        ]))
    );
}
