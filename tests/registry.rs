use indexmap::IndexSet;
use todo_tracker::block::{block_lines, block_text, CONFIG_BLOCK_START, MD_BLOCK_END, MD_BLOCK_START};
use todo_tracker::document::{join_lines, splice_block, split_lines};
use todo_tracker::config::FsProjectConfig;
use todo_tracker::discovery::{find_project, find_projects};
use todo_tracker::file::find_in_dir_and_parents;
use todo_tracker::generator::{IdGenerator, IntIdGenerator};
use todo_tracker::id_set::id_set_to_vec;
use todo_tracker::issue::Issue;
use todo_tracker::load::{load_project_plan, LoadPlanError};
use todo_tracker::placement::Placement;
use todo_tracker::plan::{Plan, Step};
use todo_tracker::project::Project;
use todo_tracker::settings::{
    DisplayProjectConfig, DisplayProjectTitleConfig, IssueAddOrder, Order, SearchProjectsConfig, TitleConsist,
    WorkingMode,
};
use todo_tracker::target::Location;
use todo_tracker::tracker::FsTracker;

fn path(parts: &[&str]) -> Vec<String> {
    parts.iter().map(|s| s.to_string()).collect()
}

fn lines(parts: &[&str]) -> Vec<String> {
    parts.iter().map(|s| s.to_string()).collect()
}

fn project_at(id: &str, parts: &[&str]) -> (Vec<String>, Option<FsProjectConfig>) {
    let dir = path(parts);
    let config = find_project(FsProjectConfig::new(id.to_string()), dir.clone());
    (dir, Some(config))
}

fn plain_dir(parts: &[&str]) -> (Vec<String>, Option<FsProjectConfig>) {
    (path(parts), None)
}

fn subprojects_of(projects: &[FsProjectConfig], id: &str) -> Vec<String> {
    projects.iter().find(|c| c.id == id).unwrap().subprojects.iter().cloned().collect()
}

#[test]
fn tree_test_cases() {
    let entries = vec![
        project_at("root", &["root"]),
        project_at("sub", &["root", "sub"]),
        project_at("subsub", &["root", "sub", "subsub"]),
    ];
    let projects = find_projects(entries);
    assert_eq!(projects.len(), 3);
    assert_eq!(subprojects_of(&projects, "root"), &["sub".to_string()]);
    assert_eq!(subprojects_of(&projects, "sub"), &["subsub".to_string()]);
    assert!(subprojects_of(&projects, "subsub").is_empty());

    let tracker = FsTracker::new(projects, Vec::new());
    let parents = tracker.project_parents();
    assert!(parents.contains(&("sub".to_string(), "root".to_string())));
    assert!(parents.contains(&("subsub".to_string(), "sub".to_string())));
    assert_eq!(parents.len(), 2);
}

#[test]
fn tree_complex_test_cases() {
    let entries = vec![
        project_at("a", &["w", "a"]),
        plain_dir(&["w", "a", "docs"]),
        plain_dir(&["w", "a", "docs", "deep"]),
        project_at("a1", &["w", "a", "docs", "deep", "a1"]),
        project_at("a2", &["w", "a", "a2"]),
        plain_dir(&["w", "a", "a2", "x"]),
        project_at("a21", &["w", "a", "a2", "x", "a21"]),
        plain_dir(&["w", "b"]),
        project_at("b1", &["w", "b", "b1"]),
        project_at("c", &["w", "c"]),
    ];
    let projects = find_projects(entries);
    let ids: Vec<&str> = projects.iter().map(|c| c.id.as_str()).collect();
    assert_eq!(ids, vec!["a", "a1", "a2", "a21", "b1", "c"]);
    assert_eq!(subprojects_of(&projects, "a"), &["a1".to_string(), "a2".to_string()]);
    assert_eq!(subprojects_of(&projects, "a2"), &["a21".to_string()]);
    assert!(subprojects_of(&projects, "a1").is_empty());
    assert!(subprojects_of(&projects, "b1").is_empty());
    assert!(subprojects_of(&projects, "c").is_empty());

    let tracker = FsTracker::new(projects, Vec::new());
    let groups = tracker.subprojects();
    assert_eq!(groups, vec![
        ("a".to_string(), vec!["a1".to_string(), "a2".to_string()]),
        ("a2".to_string(), vec!["a21".to_string()]),
    ]);
    let a21 = tracker.projects().iter().find(|p| p.id() == "a21").unwrap();
    assert_eq!(a21.parent_id().map(|s| s.as_str()), Some("a2"));
    let b1 = tracker.projects().iter().find(|p| p.id() == "b1").unwrap();
    assert_eq!(b1.parent_id(), None);
    assert_eq!(tracker.project_root_dir(&"a21".to_string()), Some(&path(&["w", "a", "a2", "x", "a21"])));
}

#[test]
fn list_test_cases() {
    let config = find_project(FsProjectConfig::new("p".to_string()), path(&["p"]));
    let issues = lines(&["- first", "- second", "  - nested", "", "# Done"]);
    let plan = load_project_plan(&config, None, Some(&issues)).unwrap().unwrap();
    assert_eq!(plan.steps().clone(), vec![
        Step::Issue(1),
        Step::Issue(2),
        Step::Issue(3),
        Step::Milestone(4)
    ]);
    let tracker = FsTracker::new(vec![config], vec![("p".to_string(), plan)]);
    let plan = tracker.project_plan(&"p".to_string()).unwrap();
    assert_eq!(plan.get_issue(3).unwrap().parent_id, Some(2));
    assert!(tracker.project_plan(&"q".to_string()).is_none());
}

#[test]
fn list_complex_test_cases() {
    let mut config = find_project(FsProjectConfig::new("p".to_string()), path(&["p"]));
    config.start_id = Some(10);
    let manifest = lines(&["# P", "", "```md todo", "- from manifest", "```", "", "- not a task"]);
    let issues = lines(&["- from issues file", "# M"]);
    let plan = load_project_plan(&config, Some(&manifest), Some(&issues)).unwrap().unwrap();
    assert_eq!(plan.steps().clone(), vec![Step::Issue(10), Step::Issue(11), Step::Milestone(12)]);
    assert_eq!(plan.get_issue(10).unwrap().name, "from manifest");
    assert_eq!(plan.get_issue(11).unwrap().name, "from issues file");

    let no_root = FsProjectConfig::new("r".to_string());
    assert!(load_project_plan(&no_root, Some(&manifest), None).unwrap().is_none());
    assert!(load_project_plan(&config, None, None).unwrap().is_none());
}

#[test]
fn list_display_test_cases() {
    let title = DisplayProjectTitleConfig::default();
    assert_eq!(title.consist, TitleConsist::Id);
    assert_eq!(title.id_before.as_deref(), Some("["));
    assert_eq!(title.id_after.as_deref(), Some("]"));
    assert_eq!(title.id_and_name_separator.as_deref(), Some(" "));
    assert!(title.show_steps_count);

    let mut display = DisplayProjectConfig::default();
    display.update(true, false, Some(3));
    assert!(display.compact);
    assert_eq!(display.max_steps, Some(3));
    display.update(true, true, None);
    assert!(display.compact);
    assert_eq!(display.max_steps, Some(3));
    display.update(false, true, None);
    assert!(!display.compact);
}

#[test]
fn settings_defaults_and_modes() {
    assert!(SearchProjectsConfig::default().enabled);
    assert_eq!(IssueAddOrder::default().into_order(), Order::Last);
    assert_eq!(IssueAddOrder::First.into_order(), Order::First);
    assert!(WorkingMode::Local.is_local());
    assert!(WorkingMode::Global.is_global());
    assert_eq!(WorkingMode::Local.updated(false, true), WorkingMode::Global);
    assert_eq!(WorkingMode::Global.updated(true, true), WorkingMode::Global);
}

#[test]
fn location_from_unknown() {
    assert!(matches!(Location::from_unknown("a/b".to_string()), Location::Path(p) if p == "a/b"));
    assert!(matches!(Location::from_unknown("name".to_string()), Location::Name(n) if n == "name"));
}

#[test]
fn find_in_dir_and_parents_goes_up() {
    let dir = path(&["home", "u", "proj"]);
    let file = path(&["todo.toml"]);
    let found = find_in_dir_and_parents(&dir, &file, |p: &Vec<String>| *p == path(&["home", "todo.toml"]));
    assert_eq!(found, Some(path(&["home", "todo.toml"])));
    let none = find_in_dir_and_parents(&dir, &file, |_p: &Vec<String>| false);
    assert_eq!(none, None);
}

#[test]
fn block_lines_skip_nested_fences() {
    let doc = lines(&["intro", "```MD Todo ", "- a", "```rust", "code", "```", "- b", "```", "- outside"]);
    let got = block_lines(&doc);
    assert_eq!(got, vec![
        (2, "- a".to_string()),
        (3, "```rust".to_string()),
        (4, "code".to_string()),
        (5, "```".to_string()),
        (6, "- b".to_string())
    ]);
}

#[test]
fn splice_replaces_existing_block() {
    let doc = "# Title\n```toml project\nid = \"old\"\n```\ntail";
    let body = lines(&["id = \"new\""]);
    let out = splice_block(Some(doc), "unused", CONFIG_BLOCK_START, MD_BLOCK_END, &body);
    assert_eq!(out, "# Title\n```toml project\nid = \"new\"\n```\ntail");
    assert_eq!(block_text(&split_lines(&out), CONFIG_BLOCK_START, MD_BLOCK_END), "id = \"new\"");
}

#[test]
fn splice_keeps_other_bytes() {
    let doc = "intro\r\n```TOML project \r\nold\r\n```\r\nend without newline";
    let body = lines(&["a = 1", "b = 2"]);
    let out = splice_block(Some(doc), "", CONFIG_BLOCK_START, MD_BLOCK_END, &body);
    assert_eq!(out, "intro\r\n```TOML project \r\na = 1\nb = 2\n```\r\nend without newline");
}

#[test]
fn splice_appends_or_creates() {
    let body = lines(&["- task"]);
    let out = splice_block(Some("# Title\ntext"), "unused", MD_BLOCK_START, MD_BLOCK_END, &body);
    assert_eq!(out, "# Title\ntext\n```md todo\n- task\n```\n");
    let created = splice_block(None, "Proj", MD_BLOCK_START, MD_BLOCK_END, &body);
    assert_eq!(created, "# Proj\n\n```md todo\n- task\n```\n");
    let unclosed = splice_block(Some("```md todo\n- old"), "", MD_BLOCK_START, MD_BLOCK_END, &body);
    assert_eq!(unclosed, "```md todo\n- task\n```\n");
    let last_line = splice_block(Some("x\n```md todo"), "", MD_BLOCK_START, MD_BLOCK_END, &body);
    assert_eq!(last_line, "x\n```md todo\n- task\n```\n");
}

#[test]
fn split_and_join_lines() {
    assert_eq!(split_lines("a\r\nb\n\nc"), lines(&["a", "b", "", "c"]));
    assert_eq!(split_lines("a\n"), lines(&["a"]));
    assert!(split_lines("").is_empty());
    assert_eq!(join_lines(&lines(&["a", "b"])), "a\nb\n");
}

#[test]
fn spliced_outline_reads_back() {
    let body = lines(&["- one", "  detail", "  - two", "# 7 Goal"]);
    let out = splice_block(Some("# Notes\n- not a task"), "", MD_BLOCK_START, MD_BLOCK_END, &body);
    let mut gen = IntIdGenerator::new(1);
    let plan = todo_tracker::load::project_plan(&Placement::CodeBlockInFile(()), &split_lines(&out), &mut gen).unwrap();
    assert_eq!(plan.get_issue(1).unwrap().name, "one");
    assert_eq!(plan.get_issue(1).unwrap().content, "detail");
    assert_eq!(plan.get_issue(2).unwrap().name, "two");
    assert_eq!(plan.get_milestone(7).unwrap().name, "Goal");
}

#[test]
fn id_set_keeps_insertion_order() {
    let issue = Issue::new(9, "parent").with_subissue(3).with_subissue(1).with_subissue(3);
    assert_eq!(id_set_to_vec(&issue.subissues), vec![3, 1]);
    assert!(id_set_to_vec(&Issue::new(1, "none").subissues).is_empty());
}

#[test]
fn generator_counts_up() {
    let mut g = IntIdGenerator::new(41);
    assert_eq!(g.next(), 41);
    assert_eq!(g.next(), 42);
}

#[test]
fn plan_merge_and_lookup() {
    let mut a = Plan::new();
    a.add_issue(Issue::new(1, "a"));
    let mut b = Plan::new();
    b.add_issue(Issue::new(2, "b"));
    b.add_issue(Issue::new(1, "a again"));
    let m = a.merge(b);
    assert_eq!(m.steps().clone(), vec![Step::Issue(1), Step::Issue(2)]);
    assert_eq!(m.get_issue(1).unwrap().name, "a again");
    assert_eq!(m.find_issue("b").unwrap().id, 2);
    assert!(m.find_issue("zzz").is_none());
    assert!(!m.is_empty());
    assert!(Plan::new().is_empty());
}

#[test]
fn project_builders() {
    let mut p = Project::new("id".to_string(), "Name".to_string()).with_subprojects(vec!["c".to_string()]);
    assert_eq!(p.set_parent("x".to_string()), None);
    assert_eq!(p.set_parent("y".to_string()), Some("x".to_string()));
    assert_eq!(p.name(), "Name");
    assert_eq!(p.id(), "id");
    assert_eq!(p.subprojects(), &vec!["c".to_string()]);
}

#[test]
fn placement_set_root_and_map() {
    let mut pl = Placement::CodeBlockInFile(path(&["a.md"]));
    pl.set_root(&path(&["root"]));
    assert!(matches!(&pl, Placement::CodeBlockInFile(p) if *p == path(&["root", "a.md"])));
    let mut abs = Placement::WholeFile(path(&["/", "etc", "x"]));
    abs.set_root(&path(&["root"]));
    assert_eq!(abs.path(), &path(&["/", "etc", "x"]));
    let mapped = pl.map(|p: Vec<String>| p.len());
    assert!(matches!(mapped, Placement::CodeBlockInFile(2)));
}

#[test]
fn tracker_load_reads_plans_per_project() {
    let a = find_project(FsProjectConfig::new("a".to_string()), path(&["a"]));
    let b = find_project(FsProjectConfig::new("b".to_string()), path(&["b"]));
    let c = FsProjectConfig::new("c".to_string());
    let sources = vec![
        (None, Some(lines(&["- a1", "- a2"]))),
        (None, None),
        (None, Some(lines(&["- ignored"]))),
    ];
    let tracker = FsTracker::load(vec![a, b, c], sources).unwrap();
    let plan = tracker.project_plan(&"a".to_string()).unwrap();
    assert_eq!(plan.steps().clone(), vec![Step::Issue(1), Step::Issue(2)]);
    assert!(tracker.project_plan(&"b".to_string()).is_none());
    assert!(tracker.project_plan(&"c".to_string()).is_none());
    assert_eq!(tracker.projects().len(), 3);
}

#[test]
fn tracker_load_fails_on_malformed_outline() {
    let a = find_project(FsProjectConfig::new("a".to_string()), path(&["a"]));
    let sources = vec![(None, Some(lines(&["- a", "    - jump"])))];
    let result = FsTracker::load(vec![a], sources);
    assert!(matches!(
        result,
        Err(LoadPlanError::Structure(todo_tracker::parse::ParseStructureError::LevelJump { line: 1, level: 2, max_level: 1 }))
    ));
}

#[test]
fn discovery_keeps_listed_subprojects() {
    let mut top = FsProjectConfig::new("top".to_string());
    top.subprojects = IndexSet::from(["elsewhere".to_string(), "inner".to_string()]);
    let top = find_project(top, path(&["t"]));
    let entries = vec![(path(&["t"]), Some(top)), project_at("inner", &["t", "i"]), project_at("other", &["t", "o"])];
    let projects = find_projects(entries);
    assert_eq!(
        subprojects_of(&projects, "top"),
        &["elsewhere".to_string(), "inner".to_string(), "other".to_string()]
    );
}

#[test]
fn shared_explicit_ids_are_refused() {
    let config = find_project(FsProjectConfig::new("p".to_string()), path(&["p"]));
    let manifest = lines(&["```md todo", "- 1 a", "# 9 M", "```"]);
    let issues = lines(&["- 1 b"]);
    assert_eq!(
        load_project_plan(&config, Some(&manifest), Some(&issues)).err(),
        Some(LoadPlanError::IssueIdCollision { id: 1 })
    );
    let issues = lines(&["- 5 b", "# 9 N"]);
    assert_eq!(
        load_project_plan(&config, Some(&manifest), Some(&issues)).err(),
        Some(LoadPlanError::MilestoneIdCollision { id: 9 })
    );
    let issues = lines(&["- 5 b", "# 10 N"]);
    let plan = load_project_plan(&config, Some(&manifest), Some(&issues)).unwrap().unwrap();
    assert_eq!(plan.steps().clone(), vec![Step::Issue(1), Step::Milestone(9), Step::Issue(5), Step::Milestone(10)]);
    assert_eq!(plan.get_issue(1).unwrap().name, "a");
    assert_eq!(plan.get_issue(5).unwrap().name, "b");
}
