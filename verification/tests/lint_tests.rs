use fabbula::lint::{lint_message, LintIssue};

#[test]
fn lint_accepts_conventional_message() {
    assert!(lint_message("Add density feedback loop", 1).is_empty());
    assert!(lint_message("Add density loop\n\nThe loop thins dense windows.", 1).is_empty());
}

#[test]
fn lint_reports_merge_alone() {
    assert_eq!(lint_message("merge branch.", 2), vec![LintIssue::Merge]);
}

#[test]
fn lint_reports_case_and_period() {
    assert_eq!(
        lint_message("add feature.", 1),
        vec![LintIssue::NotCapitalized, LintIssue::EndsWithPeriod]
    );
}

#[test]
fn lint_reports_fixup_and_squash() {
    assert_eq!(
        lint_message("fixup! Add feature", 1),
        vec![LintIssue::NotCapitalized, LintIssue::FixupOrSquash]
    );
    assert_eq!(
        lint_message("squash! Add feature", 0),
        vec![LintIssue::NotCapitalized, LintIssue::FixupOrSquash]
    );
}

#[test]
fn lint_reports_long_subject_in_bytes() {
    let ok = format!("A{}", "b".repeat(99));
    assert!(lint_message(&ok, 1).is_empty());
    let long = format!("A{}", "b".repeat(100));
    assert_eq!(lint_message(&long, 1), vec![LintIssue::SubjectTooLong(101)]);
    // 50 two-byte characters after the capital: 101 bytes.
    let wide = format!("A{}", "é".repeat(50));
    assert_eq!(lint_message(&wide, 1), vec![LintIssue::SubjectTooLong(101)]);
}

#[test]
fn lint_requires_blank_second_line() {
    assert_eq!(lint_message("Subject\nbody", 1), vec![LintIssue::Line2NotBlank]);
    assert!(lint_message("Subject\r\n\r\nbody", 1).is_empty());
    assert!(lint_message("Subject\n", 1).is_empty());
}

#[test]
fn lint_empty_message() {
    assert_eq!(lint_message("", 1), vec![LintIssue::NotCapitalized]);
}
