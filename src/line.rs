//! The line classifier: what one outline line is, and at which level.
use vstd::prelude::*;
use vstd::string::{StrSliceExecFns, StringExecFns};

use crate::generator::{next_after, IdGenerator};
use crate::issue::{new_issue_view, Issue, IssueView, Milestone, MilestoneView};
use crate::id_set::id_set_new;
use crate::text::{
    chars_of, digit_run, digit_run_at, digits_to_u64, digits_value, is_ws, is_ws_char, lemma_digit_run_bounds,
    lemma_ws_run_bounds, line_end, line_end_at, space_run, space_run_at, trim_end, trim_end_at, ws_run, ws_run_at,
};

verus! {

/// The kinds of outline lines, in the order in which they are recognised.
#[derive(Debug, Clone, Copy, PartialEq, Eq)]
pub enum LineClass {
    Empty,
    IssueHeader,
    Separator,
    MilestoneHeader,
    Text,
}

/// `- name` or `+ name`, after any white space: a bullet, then white space.
pub open spec fn is_issue_line(s: Seq<char>) -> bool {
    let k = ws_run(s, 0);
    k + 1 < s.len() && (s[k] == '-' || s[k] == '+') && is_ws(s[k + 1])
}

/// Three or more dashes at the very start of the line.
pub open spec fn is_separator_line(s: Seq<char>) -> bool {
    s.len() >= 3 && s[0] == '-' && s[1] == '-' && s[2] == '-'
}

/// `# name` at the very start of the line.
pub open spec fn is_milestone_line(s: Seq<char>) -> bool {
    s.len() >= 2 && s[0] == '#' && is_ws(s[1])
}

pub open spec fn classify(s: Seq<char>) -> LineClass {
    if s.len() == 0 {
        LineClass::Empty
    } else if is_issue_line(s) {
        LineClass::IssueHeader
    } else if is_separator_line(s) {
        LineClass::Separator
    } else if is_milestone_line(s) {
        LineClass::MilestoneHeader
    } else {
        LineClass::Text
    }
}

/// Indentation level: two leading spaces per level.
pub open spec fn line_level(s: Seq<char>) -> int {
    space_run(s, 0) / 2
}

/// Position just after the marker of a header line.
pub open spec fn issue_marker_end(s: Seq<char>) -> int {
    ws_run(s, 0) + 1
}

/// Whether the header text from `p` opens with a bare integer and white space.
pub open spec fn header_has_number(s: Seq<char>, p: int) -> bool {
    let j = p + ws_run(s, p);
    let d = digit_run(s, j);
    d > 0 && j + d < s.len() && is_ws(s[j + d])
}

/// The identifier written in a header, where it is a bare integer that fits in 64 bits.
pub open spec fn header_explicit_id(s: Seq<char>, p: int) -> Option<u64> {
    let j = p + ws_run(s, p);
    let d = digit_run(s, j);
    if header_has_number(s, p) && digits_value(s, j, j + d) <= u64::MAX {
        Some(digits_value(s, j, j + d) as u64)
    } else {
        None
    }
}

/// Where the name of a header starts.
pub open spec fn header_name_start(s: Seq<char>, p: int) -> int {
    let j = p + ws_run(s, p);
    let d = digit_run(s, j);
    if header_has_number(s, p) {
        j + d + 1 + ws_run(s, j + d + 1)
    } else {
        j
    }
}

/// The name of a header: the rest of its first line, trimmed.
pub open spec fn header_name(s: Seq<char>, p: int) -> Seq<char> {
    let a = header_name_start(s, p);
    s.subrange(a, trim_end(s, a, line_end(s, a)))
}

/// The identifier of a header and the generator's next value after reading it.
pub open spec fn header_id(s: Seq<char>, p: int, next: u64) -> (u64, u64) {
    match header_explicit_id(s, p) {
        Some(v) => (v, next),
        None => (next, next_after(next)),
    }
}

/// The issue an issue line reads as (a line of another shape reads as a nameless issue).
pub open spec fn issue_of_line(s: Seq<char>, next: u64) -> (IssueView, u64) {
    if is_issue_line(s) {
        let p = issue_marker_end(s);
        let (id, n) = header_id(s, p, next);
        (new_issue_view(id, header_name(s, p)), n)
    } else {
        (new_issue_view(next, Seq::empty()), next_after(next))
    }
}

/// The milestone a milestone line reads as (a line of another shape reads as a nameless one).
pub open spec fn milestone_of_line(s: Seq<char>, next: u64) -> (MilestoneView, u64) {
    if is_milestone_line(s) {
        let (id, n) = header_id(s, 1, next);
        (MilestoneView { id, name: header_name(s, 1), needed_issues: Seq::empty() }, n)
    } else {
        (MilestoneView { id: next, name: Seq::empty(), needed_issues: Seq::empty() }, next_after(next))
    }
}

/// A classified line.
pub enum Item {
    Empty,
    Separator,
    Issue(Issue),
    Milestone(Milestone),
    Text(String),
}

pub ghost enum ItemView {
    Empty,
    Separator,
    Issue(IssueView),
    Milestone(MilestoneView),
    Text(Seq<char>),
}

impl View for Item {
    type V = ItemView;

    open spec fn view(&self) -> ItemView {
        match self {
            Item::Empty => ItemView::Empty,
            Item::Separator => ItemView::Separator,
            Item::Issue(i) => ItemView::Issue(i@),
            Item::Milestone(m) => ItemView::Milestone(m@),
            Item::Text(t) => ItemView::Text(t@),
        }
    }
}

/// What a line reads as, and the generator's next value after reading it.
pub open spec fn item_of(s: Seq<char>, next: u64) -> (ItemView, u64) {
    match classify(s) {
        LineClass::Empty => (ItemView::Empty, next),
        LineClass::IssueHeader => {
            let (i, n) = issue_of_line(s, next);
            (ItemView::Issue(i), n)
        },
        LineClass::Separator => (ItemView::Separator, next),
        LineClass::MilestoneHeader => {
            let (m, n) = milestone_of_line(s, next);
            (ItemView::Milestone(m), n)
        },
        LineClass::Text => (ItemView::Text(s), next),
    }
}

fn is_issue_line_exec(s: &Vec<char>) -> (r: bool)
    ensures
        r == is_issue_line(s@),
{
    let k = ws_run_at(s, 0);
    k < s.len() && s.len() - k > 1 && (s[k] == '-' || s[k] == '+') && is_ws_char(s[k + 1])
}

fn is_milestone_line_exec(s: &Vec<char>) -> (r: bool)
    ensures
        r == is_milestone_line(s@),
{
    s.len() >= 2 && s[0] == '#' && is_ws_char(s[1])
}

/// Reads the identifier and name of a header whose marker ends at `p`.
fn parse_header<G: IdGenerator>(line: &str, s: &Vec<char>, p: usize, gen: &mut G) -> (r: (u64, String))
    requires
        s@ == line@,
        p <= s@.len(),
    ensures
        (r.0, final(gen).upcoming()) == header_id(s@, p as int, old(gen).upcoming()),
        r.1@ == header_name(s@, p as int),
{
    proof {
        lemma_ws_run_bounds(s@, p as int);
    }
    let w = ws_run_at(s, p);
    let j = p + w;
    proof {
        lemma_digit_run_bounds(s@, j as int);
    }
    let d = digit_run_at(s, j);
    let has_number = d > 0 && j + d < s.len() && is_ws_char(s[j + d]);
    let mut id: Option<u64> = None;
    let start: usize;
    if has_number {
        id = digits_to_u64(s, j, j + d);
        proof {
            lemma_ws_run_bounds(s@, j + d + 1);
        }
        let w2 = ws_run_at(s, j + d + 1);
        start = j + d + 1 + w2;
    } else {
        start = j;
    }
    assert(id == header_explicit_id(s@, p as int));
    assert(start == header_name_start(s@, p as int));
    let e = line_end_at(s, start);
    let t = trim_end_at(s, start, e);
    let name = String::from_str(line.substring_char(start, t));
    let value = match id {
        Some(v) => v,
        None => gen.next(),
    };
    (value, name)
}

impl Issue {
    /// Reads an issue line; without a usable number the generator supplies the identifier.
    pub fn parse_line<G: IdGenerator>(line: &str, gen: &mut G) -> (r: Issue)
        ensures
            (r@, final(gen).upcoming()) == issue_of_line(line@, old(gen).upcoming()),
    {
        let s = chars_of(line);
        if is_issue_line_exec(&s) {
            let k = ws_run_at(&s, 0);
            let p = k + 1;
            let (id, name) = parse_header(line, &s, p, gen);
            Issue {
                id,
                parent_id: None,
                name,
                content: String::new(),
                subissues: id_set_new(),
                relations: Vec::new(),
            }
        } else {
            let id = gen.next();
            Issue {
                id,
                parent_id: None,
                name: String::new(),
                content: String::new(),
                subissues: id_set_new(),
                relations: Vec::new(),
            }
        }
    }
}

impl Milestone {
    /// Reads a milestone line; without a usable number the generator supplies the identifier.
    pub fn parse_line<G: IdGenerator>(line: &str, gen: &mut G) -> (r: Milestone)
        ensures
            (r@, final(gen).upcoming()) == milestone_of_line(line@, old(gen).upcoming()),
    {
        let s = chars_of(line);
        if is_milestone_line_exec(&s) {
            let (id, name) = parse_header(line, &s, 1, gen);
            Milestone { id, name, needed_issues: id_set_new() }
        } else {
            let id = gen.next();
            Milestone { id, name: String::new(), needed_issues: id_set_new() }
        }
    }
}

impl Item {
    /// Classifies a line and gives its indentation level.
    pub fn parse<G: IdGenerator>(line: &str, gen: &mut G) -> (r: (Item, usize))
        ensures
            (r.0@, final(gen).upcoming()) == item_of(line@, old(gen).upcoming()),
            r.1 == line_level(line@),
            r.1 <= usize::MAX / 2,
    {
        let s = chars_of(line);
        let spaces = space_run_at(&s, 0);
        let level = spaces / 2;
        let item = if s.len() == 0 {
            Item::Empty
        } else if is_issue_line_exec(&s) {
            Item::Issue(Issue::parse_line(line, gen))
        } else if s.len() >= 3 && s[0] == '-' && s[1] == '-' && s[2] == '-' {
            Item::Separator
        } else if is_milestone_line_exec(&s) {
            Item::Milestone(Milestone::parse_line(line, gen))
        } else {
            Item::Text(String::from_str(line))
        };
        (item, level)
    }
}

} // verus!
