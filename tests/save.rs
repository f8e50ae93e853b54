use todo_tracker::issue::Issue;
use todo_tracker::placement::Placement;
use todo_tracker::save::get_newline_mark_range;

#[test]
fn issue_to_text_indents_content() {
    let issue = Issue::new(1, "task").with_content("line1\r\nline2\n");
    assert_eq!(issue.to_text(), "- task\n  line1\n  line2");
    assert_eq!(Issue::new(2, "bare").to_text(), "- bare");
}

#[test]
fn add_first_to_issues_file() {
    let issue = Issue::new(1, "task");
    assert_eq!(issue.add_first(&Placement::WholeFile(()), "- a\n"), "- task\n- a\n");
}

#[test]
fn add_first_into_existing_block() {
    let issue = Issue::new(1, "task");
    let out = issue.add_first(&Placement::CodeBlockInFile(()), "# P\n```md todo\n- a\n```\n");
    assert_eq!(out, "# P\n```md todo\n- task\n- a\n```\n");
}

#[test]
fn add_first_creates_block() {
    let issue = Issue::new(1, "task");
    let out = issue.add_first(&Placement::CodeBlockInFile(()), "# P");
    assert_eq!(out, "# P\n```md todo\n- task\n```\n");
    assert_eq!(issue.add_first(&Placement::CodeBlockInFile(()), ""), "```md todo\n- task\n```\n");
}

#[test]
fn add_last_to_issues_file() {
    let issue = Issue::new(1, "task");
    assert_eq!(issue.add_last(&Placement::WholeFile(()), "- a"), "- a\n- task\n");
    assert_eq!(issue.add_last(&Placement::WholeFile(()), ""), "- task\n");
}

#[test]
fn add_last_before_block_end() {
    let issue = Issue::new(1, "task");
    let out = issue.add_last(&Placement::CodeBlockInFile(()), "# P\n```md todo\n- a\n```\nrest\n");
    assert_eq!(out, "# P\n```md todo\n- a\n- task\n```\nrest\n");
    let open = issue.add_last(&Placement::CodeBlockInFile(()), "```md todo\n- a");
    assert_eq!(open, "```md todo\n- a\n- task\n");
}

#[test]
fn newline_mark_range_needs_line_start_and_break() {
    assert_eq!(get_newline_mark_range("a\n```x\n```", "```", 0), Some((7, 10)));
    assert_eq!(get_newline_mark_range("x```md todo", "```md todo", 0), None);
    assert_eq!(get_newline_mark_range("```md todo\n```md todo", "```md todo", 1), Some((11, 21)));
}
