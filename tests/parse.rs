use todo_tracker::generator::IntIdGenerator;
use todo_tracker::issue::{Issue, Milestone};
use todo_tracker::line::Item;
use todo_tracker::load::project_plan;
use todo_tracker::parse::{plan_from_lines, ParseStructureError};
use todo_tracker::placement::Placement;
use todo_tracker::plan::{Plan, Step};

const TASK_LIST_TEXT: &str = r"
- task A
  - task AA

- task B [Mile 2](#mile-2)

---

- task C

# Mile 1

- task D
  One line description
- task E
  - task EA
  - task EB
- task F

---

- task G
  Multi line
  description
  
  ```code
  block
  ```

- task H
  - task HA
    - task HAA
      Deep level description

    - task HAB
  - task HB
- task I

# Mile 2
";

fn lines_of(text: &str) -> Vec<String> {
    text.lines().map(String::from).collect()
}

fn numbered(lines: &[&str]) -> Vec<(usize, String)> {
    lines.iter().enumerate().map(|(i, l)| (i, l.to_string())).collect()
}

fn assert_task_list_plan(plan: &Plan) {
    assert_eq!(plan.steps().iter().copied().collect::<Vec<_>>(), vec![
        Step::Issue(1),
        Step::Issue(2),
        Step::Issue(3),
        Step::Issue(4),
        Step::Milestone(5),
        Step::Issue(6),
        Step::Issue(7),
        Step::Issue(8),
        Step::Issue(9),
        Step::Issue(10),
        Step::Issue(11),
        Step::Issue(12),
        Step::Issue(13),
        Step::Issue(14),
        Step::Issue(15),
        Step::Issue(16),
        Step::Issue(17),
        Step::Milestone(18),
    ]);

    assert_eq!(*plan.get_issue(1).unwrap(), Issue::new(1, "task A").with_subissue(2));
    assert_eq!(*plan.get_issue(2).unwrap(), Issue::new(2, "task AA").with_parent_id(1));
    assert_eq!(*plan.get_issue(3).unwrap(), Issue::new(3, "task B [Mile 2](#mile-2)"));
    assert_eq!(*plan.get_issue(4).unwrap(), Issue::new(4, "task C"));
    assert_eq!(
        *plan.get_issue(6).unwrap(),
        Issue::new(6, "task D").with_content("One line description")
    );
    assert_eq!(
        *plan.get_issue(7).unwrap(),
        Issue::new(7, "task E").with_subissue(8).with_subissue(9)
    );
    assert_eq!(*plan.get_issue(8).unwrap(), Issue::new(8, "task EA").with_parent_id(7));
    assert_eq!(*plan.get_issue(9).unwrap(), Issue::new(9, "task EB").with_parent_id(7));
    assert_eq!(*plan.get_issue(10).unwrap(), Issue::new(10, "task F"));
    assert_eq!(
        *plan.get_issue(11).unwrap(),
        Issue::new(11, "task G").with_content(
            r"Multi line
description

```code
block
```"
        )
    );
    assert_eq!(
        *plan.get_issue(12).unwrap(),
        Issue::new(12, "task H").with_subissue(13).with_subissue(16)
    );
    assert_eq!(
        *plan.get_issue(13).unwrap(),
        Issue::new(13, "task HA").with_parent_id(12).with_subissue(14).with_subissue(15)
    );
    assert_eq!(
        *plan.get_issue(14).unwrap(),
        Issue::new(14, "task HAA").with_parent_id(13).with_content("Deep level description")
    );
    assert_eq!(*plan.get_issue(15).unwrap(), Issue::new(15, "task HAB").with_parent_id(13));
    assert_eq!(*plan.get_issue(16).unwrap(), Issue::new(16, "task HB").with_parent_id(12));
    assert_eq!(*plan.get_issue(17).unwrap(), Issue::new(17, "task I"));

    assert_eq!(*plan.get_milestone(5).unwrap(), Milestone::new(5, "Mile 1").with_needed_issue(4));
    assert_eq!(
        *plan.get_milestone(18).unwrap(),
        Milestone::new(18, "Mile 2")
            .with_needed_issue(11)
            .with_needed_issue(12)
            .with_needed_issue(13)
            .with_needed_issue(14)
            .with_needed_issue(15)
            .with_needed_issue(16)
            .with_needed_issue(17)
    );
}

#[test]
fn parse_issue() {
    let mut id_generator = IntIdGenerator::new(1);

    let issue = Issue::parse_line("- task without id", &mut id_generator);
    assert_eq!(issue.id, 1);
    assert_eq!(issue.name, "task without id");

    let issue = Issue::parse_line("- 25 task with id", &mut id_generator);
    assert_eq!(issue.id, 25);
    assert_eq!(issue.name, "task with id");

    let issue = Issue::parse_line("- 25task without id", &mut id_generator);
    assert_eq!(issue.id, 2);
    assert_eq!(issue.name, "25task without id");
}

#[test]
fn parse_milestone() {
    let mut id_generator = IntIdGenerator::new(1);

    let milestone = Milestone::parse_line("# Milestone without id", &mut id_generator);
    assert_eq!(milestone.id, 1);
    assert_eq!(milestone.name, "Milestone without id");

    let milestone = Milestone::parse_line("# 25 Milestone with id", &mut id_generator);
    assert_eq!(milestone.id, 25);
    assert_eq!(milestone.name, "Milestone with id");

    let milestone = Milestone::parse_line("# 25Milestone without id", &mut id_generator);
    assert_eq!(milestone.id, 2);
    assert_eq!(milestone.name, "25Milestone without id");
}

#[test]
fn parse_item() {
    let mut id_generator = IntIdGenerator::new(1);
    let pairs = [
        ("Task list", Item::Text("Task list".into())),
        ("---", Item::Separator),
        ("", Item::Empty),
        ("- Task 1", Item::Issue(Issue::new(1, "Task 1"))),
        ("  task 1 description", Item::Text("  task 1 description".into())),
        ("  - Subtask 1", Item::Issue(Issue::new(2, "Subtask 1"))),
        ("", Item::Empty),
        ("---", Item::Separator),
        ("", Item::Empty),
        ("# Milestone", Item::Milestone(Milestone::new(3, "Milestone"))),
    ];

    for (line, item) in pairs {
        let parsed_item = Item::parse(line, &mut id_generator).0;
        match (item, parsed_item) {
            (Item::Empty, Item::Empty) => {},
            (Item::Separator, Item::Separator) => {},
            (Item::Issue(issue), Item::Issue(parsed_issue)) => {
                assert_eq!(issue.id, parsed_issue.id);
                assert_eq!(issue.name, parsed_issue.name);
            },
            (Item::Milestone(milestone), Item::Milestone(parsed_milestone)) => {
                assert_eq!(milestone.id, parsed_milestone.id);
                assert_eq!(milestone.name, parsed_milestone.name);
            },
            (Item::Text(text), Item::Text(parsed_text)) => {
                assert_eq!(text, parsed_text);
            },
            _ => panic!("line {line:?} was classified otherwise"),
        }
    }
}

#[test]
fn tasks_from_todo_file() {
    let mut id_generator = IntIdGenerator::new(1);
    let lines = lines_of(TASK_LIST_TEXT);
    let plan = project_plan(&Placement::WholeFile(()), &lines, &mut id_generator).unwrap();
    assert_task_list_plan(&plan);
}

#[test]
fn tasks_from_manifest_file() {
    let text = format!(
        r"
# Project header

Some description.

List 1:

- item 1
- item 2
  - item 3

```md
# Regular internal markdown 

List 2:

- item 4
- item 5
```

```md todo
{}
```

List 3:

- item 6
- item 7",
        TASK_LIST_TEXT
    );
    let mut id_generator = IntIdGenerator::new(1);
    let lines = lines_of(&text);
    let plan = project_plan(&Placement::CodeBlockInFile(()), &lines, &mut id_generator).unwrap();
    assert_task_list_plan(&plan);
}

#[test]
fn boundary_flushes_run_before_milestone() {
    let lines = numbered(&["- task A", "  - task AA", "", "- task B", "", "---", "", "- task C", "", "# Mile 1"]);
    let mut id_generator = IntIdGenerator::new(1);
    let plan = plan_from_lines(&lines, &mut id_generator).unwrap();
    assert_eq!(plan.steps().clone(), vec![
        Step::Issue(1),
        Step::Issue(2),
        Step::Issue(3),
        Step::Issue(4),
        Step::Milestone(5)
    ]);
    assert_eq!(*plan.get_issue(1).unwrap(), Issue::new(1, "task A").with_subissue(2));
    assert_eq!(plan.get_issue(2).unwrap().parent_id, Some(1));
    assert_eq!(*plan.get_milestone(5).unwrap(), Milestone::new(5, "Mile 1").with_needed_issue(4));
}

#[test]
fn level_jump_is_rejected() {
    let lines = numbered(&["- task A", "    - too deep"]);
    let mut id_generator = IntIdGenerator::new(1);
    let result = plan_from_lines(&lines, &mut id_generator);
    assert_eq!(result.err(), Some(ParseStructureError::LevelJump { line: 1, level: 2, max_level: 1 }));
}

#[test]
fn level_jump_reports_source_line_index() {
    let lines = vec![(7usize, "- a".to_string()), (8usize, "    - b".to_string())];
    let mut id_generator = IntIdGenerator::new(1);
    let result = plan_from_lines(&lines, &mut id_generator);
    assert_eq!(result.err(), Some(ParseStructureError::LevelJump { line: 8, level: 2, max_level: 1 }));
}

#[test]
fn first_indented_issue_has_no_parent() {
    let lines = numbered(&["  - orphan"]);
    let mut id_generator = IntIdGenerator::new(1);
    let result = plan_from_lines(&lines, &mut id_generator);
    assert_eq!(result.err(), Some(ParseStructureError::ParentNotFound { line: 0, level: 1 }));
}

#[test]
fn sibling_after_flushed_parent_is_rejected() {
    let lines = numbered(&["- a", "  - b", "", "---", "", "  - c"]);
    let mut id_generator = IntIdGenerator::new(1);
    let result = plan_from_lines(&lines, &mut id_generator);
    assert_eq!(result.err(), Some(ParseStructureError::ParentNotFound { line: 5, level: 1 }));
}

#[test]
fn shallower_issue_walks_up_to_ancestor() {
    let lines = numbered(&["- a", "  - b", "    - c", "  - d", "- e"]);
    let mut id_generator = IntIdGenerator::new(1);
    let plan = plan_from_lines(&lines, &mut id_generator).unwrap();
    assert_eq!(*plan.get_issue(1).unwrap(), Issue::new(1, "a").with_subissue(2).with_subissue(4));
    assert_eq!(plan.get_issue(3).unwrap().parent_id, Some(2));
    assert_eq!(plan.get_issue(4).unwrap().parent_id, Some(1));
    assert_eq!(plan.get_issue(5).unwrap().parent_id, None);
}

#[test]
fn dashes_without_blank_line_are_text() {
    let lines = numbered(&["- a", "---", "", "- b", "# M"]);
    let mut id_generator = IntIdGenerator::new(1);
    let plan = plan_from_lines(&lines, &mut id_generator).unwrap();
    assert_eq!(
        *plan.get_milestone(3).unwrap(),
        Milestone::new(3, "M").with_needed_issue(1).with_needed_issue(2)
    );
}

#[test]
fn explicit_ids_skip_the_generator() {
    let lines = numbered(&["- 10 ten", "- eleven", "# 99 done"]);
    let mut id_generator = IntIdGenerator::new(1);
    let plan = plan_from_lines(&lines, &mut id_generator).unwrap();
    assert_eq!(plan.steps().clone(), vec![Step::Issue(10), Step::Issue(1), Step::Milestone(99)]);
    assert_eq!(plan.get_issue(10).unwrap().name, "ten");
}

#[test]
fn oversized_number_is_part_of_nothing() {
    let mut id_generator = IntIdGenerator::new(5);
    let issue = Issue::parse_line("- 99999999999999999999 big", &mut id_generator);
    assert_eq!(issue.id, 5);
    assert_eq!(issue.name, "big");
}

#[test]
fn header_name_is_trimmed() {
    let mut id_generator = IntIdGenerator::new(1);
    let issue = Issue::parse_line("+   7\tname with tail  \t", &mut id_generator);
    assert_eq!(issue.id, 7);
    assert_eq!(issue.name, "name with tail");
}

#[test]
fn reparsing_gives_same_steps() {
    let lines = lines_of(TASK_LIST_TEXT);
    let mut g1 = IntIdGenerator::new(1);
    let mut g2 = IntIdGenerator::new(1);
    let first = project_plan(&Placement::WholeFile(()), &lines, &mut g1).unwrap();
    let second = project_plan(&Placement::WholeFile(()), &lines, &mut g2).unwrap();
    assert_eq!(first.steps(), second.steps());
    let mut seen = std::collections::HashSet::new();
    assert!(first.steps().iter().all(|s| seen.insert(*s)));
}

#[test]
fn description_deeper_than_level_strips_indent() {
    let lines = numbered(&["- a", "  - b", "      deep text"]);
    let mut id_generator = IntIdGenerator::new(1);
    let plan = plan_from_lines(&lines, &mut id_generator).unwrap();
    assert_eq!(plan.get_issue(2).unwrap().content, "  deep text");
}

#[test]
fn bullets_are_dash_or_plus() {
    let mut id_generator = IntIdGenerator::new(1);
    assert!(matches!(Item::parse("+ plus", &mut id_generator).0, Item::Issue(_)));
    assert!(matches!(Item::parse("\t- tabbed", &mut id_generator).0, Item::Issue(_)));
    assert!(matches!(Item::parse("| bar", &mut id_generator).0, Item::Text(_)));
    assert!(matches!(Item::parse("-no space", &mut id_generator).0, Item::Text(_)));
    assert!(matches!(Item::parse("  # indented", &mut id_generator).0, Item::Text(_)));
    assert!(matches!(Item::parse("----- more", &mut id_generator).0, Item::Separator));
    assert_eq!(Item::parse("      - x", &mut id_generator).1, 3);
}

#[test]
fn ignored_text_keeps_siblings_linked() {
    let lines = numbered(&["- a", "  - b", "  note", "  - c"]);
    let mut id_generator = IntIdGenerator::new(1);
    let plan = plan_from_lines(&lines, &mut id_generator).unwrap();
    assert_eq!(plan.get_issue(3).unwrap().parent_id, Some(1));
    assert_eq!(*plan.get_issue(1).unwrap(), Issue::new(1, "a").with_subissue(2).with_subissue(3));
    assert_eq!(plan.get_issue(2).unwrap().content, "");
}
