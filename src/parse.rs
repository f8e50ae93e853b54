//! The plan builder: a single forward pass over classified lines.
use vstd::prelude::*;
use vstd::string::{StrSliceExecFns, StringExecFns};

use crate::generator::IdGenerator;
use crate::id_set::{id_set_insert, id_set_items, seq_set_insert};
use crate::issue::{Issue, IssueView, MilestoneView};
use crate::line::{classify, item_of, line_level, Item, ItemView, LineClass};
use crate::plan::{
    empty_plan, find_issue_index, issue_index, issue_views, lemma_issue_index,
    lemma_plan_add_issues_wf, lemma_plan_add_milestone_wf, plan_add_issues, plan_add_milestone,
    plan_add_issue, plan_keys_wf, plan_wf, upsert_issue, Plan, PlanView, Step, issue_keys, all_within,
    issue_refs_within, milestones_within, milestone_refs_within, keys_subset, lemma_within_mono,
    lemma_milestones_within_mono, lemma_upsert_within, lemma_upserts_within, lemma_add_issues_parts,
    lemma_upserts_keys_union, lemma_plan_add_issues_full, upsert_milestone, lemma_concat_subsets,
    lemma_subset_trans, lemma_upsert_milestone_within, upsert_issues,
};
use crate::text::{chars_of, lemma_space_run_bounds, space_run, space_run_at};

verus! {

/// What the previous line was, as far as the builder cares.
#[derive(Debug, Clone, Copy, PartialEq, Eq, Structural)]
pub enum Line {
    Start,
    Empty,
    Separator,
    Issue,
    Description,
    Milestone,
    Other,
}

/// A structural fault of an outline; `line` is the 0-based index of the offending line.
#[derive(Debug, Clone, Copy, PartialEq, Eq, Structural)]
pub enum ParseStructureError {
    /// An issue more than one level deeper than the issue before it.
    LevelJump { line: usize, level: usize, max_level: usize },
    /// An issue whose parent cannot be found among the open issues.
    ParentNotFound { line: usize, level: usize },
}

/// The builder's state between two lines.
pub ghost struct BuilderState {
    pub line: Line,
    pub level: usize,
    pub parent: Option<u64>,
    pub open: Seq<IssueView>,
    pub plan: PlanView,
    pub next: u64,
}

pub open spec fn initial_state(next: u64) -> BuilderState {
    BuilderState {
        line: Line::Start,
        level: 0,
        parent: None,
        open: Seq::empty(),
        plan: empty_plan(),
        next,
    }
}

/// Lines after which deeper text continues the description of the last issue.
pub open spec fn continues_run(l: Line) -> bool {
    l == Line::Issue || l == Line::Description || l == Line::Empty
}

/// Lines after which an issue at the same level is a sibling of the last issue: any
/// line but a milestone or a boundary marker (an ignored text line leaves the run open).
pub open spec fn links_sibling(l: Line) -> bool {
    continues_run(l) || l == Line::Other
}

pub open spec fn issue_ids(s: Seq<IssueView>) -> Seq<u64> {
    issue_keys(s)
}

/// Inserts the items of `xs`, in order, into an ordered set.
pub open spec fn seq_set_insert_all(s: Seq<u64>, xs: Seq<u64>) -> Seq<u64>
    decreases xs.len(),
{
    if xs.len() == 0 {
        s
    } else {
        seq_set_insert(seq_set_insert_all(s, xs.drop_last()), xs.last())
    }
}

/// Records `child` as a sub-issue of the open issue at `i`.
pub open spec fn add_child(open: Seq<IssueView>, i: int, child: u64) -> Seq<IssueView> {
    open.update(i, IssueView { subissues: seq_set_insert(open[i].subissues, child), ..open[i] })
}

/// Position of the open issue reached from the issue `pid` by following
/// `steps` parent links, or -1 where a link is missing.
pub open spec fn ancestor_index(open: Seq<IssueView>, pid: Option<u64>, steps: nat) -> int
    decreases steps, 1int,
{
    match pid {
        None => -1,
        Some(p) => {
            let i = issue_index(open, p, 0);
            if i < 0 {
                -1
            } else {
                ancestor_from(open, i, steps)
            }
        },
    }
}

pub open spec fn ancestor_from(open: Seq<IssueView>, i: int, steps: nat) -> int
    decreases steps, 0int,
{
    if steps == 0 {
        i
    } else if 0 <= i < open.len() {
        ancestor_index(open, open[i].parent_id, (steps - 1) as nat)
    } else {
        -1
    }
}

/// Opens an issue at a level: it becomes the last issue of the run.
pub open spec fn open_issue(st: BuilderState, x: IssueView, level: usize) -> BuilderState {
    BuilderState {
        line: Line::Issue,
        level,
        parent: x.parent_id,
        open: upsert_issue(st.open, x),
        ..st
    }
}

/// Links an issue under the open issue at `pi` and opens it.
pub open spec fn open_child(st: BuilderState, pi: int, x: IssueView, level: usize) -> BuilderState {
    open_issue(
        BuilderState { open: add_child(st.open, pi, x.id), ..st },
        IssueView { parent_id: Some(st.open[pi].id), ..x },
        level,
    )
}

/// An issue header at `level` on line `idx`.
pub open spec fn on_issue(st: BuilderState, idx: usize, x: IssueView, level: usize) -> Result<
    BuilderState,
    ParseStructureError,
> {
    if level == st.level {
        if links_sibling(st.line) && st.parent is Some {
            let pi = issue_index(st.open, st.parent->0, 0);
            if pi < 0 {
                Err(ParseStructureError::ParentNotFound { line: idx, level })
            } else {
                Ok(open_child(st, pi, x, level))
            }
        } else {
            Ok(open_issue(st, x, level))
        }
    } else if level != 0 {
        if level > st.level + 1 {
            Err(
                ParseStructureError::LevelJump {
                    line: idx,
                    level,
                    max_level: (st.level + 1) as usize,
                },
            )
        } else {
            let pi = if level == st.level + 1 {
                st.open.len() - 1
            } else {
                ancestor_index(st.open, st.parent, (st.level - level) as nat)
            };
            if pi < 0 {
                Err(ParseStructureError::ParentNotFound { line: idx, level })
            } else {
                Ok(open_child(st, pi, x, level))
            }
        }
    } else {
        Ok(open_issue(st, x, level))
    }
}

/// `t` without up to `n` of its leading spaces.
pub open spec fn strip_spaces(t: Seq<char>, n: int) -> Seq<char> {
    let k = if space_run(t, 0) < n {
        space_run(t, 0)
    } else {
        n
    };
    t.subrange(k, t.len() as int)
}

/// `content` with one more description line.
pub open spec fn append_line(content: Seq<char>, d: Seq<char>) -> Seq<char> {
    if content.len() == 0 {
        d
    } else {
        content + seq!['\n'] + d
    }
}

/// A text line at `level`.
pub open spec fn on_text(st: BuilderState, t: Seq<char>, level: usize) -> BuilderState {
    if continues_run(st.line) && level > st.level && st.open.len() > 0 {
        let k = st.open.len() - 1;
        let d = strip_spaces(t, 2 * (st.level + 1));
        BuilderState {
            line: Line::Description,
            open: st.open.update(
                k,
                IssueView { content: append_line(st.open[k].content, d), ..st.open[k] },
            ),
            ..st
        }
    } else {
        BuilderState { line: Line::Other, ..st }
    }
}

/// The run of open issues is committed to the plan and closed.
pub open spec fn flush(st: BuilderState) -> BuilderState {
    BuilderState { open: Seq::empty(), plan: plan_add_issues(st.plan, st.open), ..st }
}

/// One line, numbered `idx`, read in state `st`.
pub open spec fn step(st: BuilderState, idx: usize, s: Seq<char>) -> Result<
    BuilderState,
    ParseStructureError,
> {
    let (item, next) = item_of(s, st.next);
    let level = line_level(s) as usize;
    let st = BuilderState { next, ..st };
    match item {
        ItemView::Empty => Ok(
            if st.line == Line::Separator {
                BuilderState { line: Line::Empty, ..flush(st) }
            } else {
                BuilderState { line: Line::Empty, ..st }
            },
        ),
        ItemView::Separator => Ok(
            BuilderState {
                line: if st.line == Line::Empty {
                    Line::Separator
                } else {
                    Line::Other
                },
                ..st
            },
        ),
        ItemView::Issue(x) => on_issue(st, idx, x, level),
        ItemView::Milestone(m) => {
            let m2 = MilestoneView {
                needed_issues: seq_set_insert_all(m.needed_issues, issue_ids(st.open)),
                ..m
            };
            let f = flush(st);
            Ok(BuilderState { line: Line::Milestone, plan: plan_add_milestone(f.plan, m2), ..f })
        },
        ItemView::Text(t) => Ok(on_text(st, t, level)),
    }
}

/// The numbered lines as values.
pub open spec fn lines_view(v: Seq<(usize, String)>) -> Seq<(usize, Seq<char>)> {
    v.map_values(|p: (usize, String)| (p.0, p.1@))
}

/// The state after the first `n` lines.
pub open spec fn run(lines: Seq<(usize, Seq<char>)>, n: int, start: u64) -> Result<
    BuilderState,
    ParseStructureError,
>
    decreases n,
{
    if n <= 0 {
        Ok(initial_state(start))
    } else {
        match run(lines, n - 1, start) {
            Ok(st) => step(st, lines[n - 1].0, lines[n - 1].1),
            Err(e) => Err(e),
        }
    }
}

/// The plan of an outline, with the generator's next value; or its first structural fault.
pub open spec fn parse_outline(lines: Seq<(usize, Seq<char>)>, start: u64) -> Result<
    (PlanView, u64),
    ParseStructureError,
> {
    match run(lines, lines.len() as int, start) {
        Ok(st) => Ok((plan_add_issues(st.plan, st.open), st.next)),
        Err(e) => Err(e),
    }
}

/// Once the pass has failed it stays failed.
proof fn lemma_run_err_persists(lines: Seq<(usize, Seq<char>)>, k: int, n: int, start: u64)
    requires
        0 <= k <= n,
        run(lines, k, start) is Err,
    ensures
        run(lines, n, start) == run(lines, k, start),
    decreases n - k,
{
    if k < n {
        lemma_run_err_persists(lines, k, n - 1, start);
    }
}

/// Level of the last issue header among the first `k` lines, or 0 where there is none.
pub open spec fn last_issue_level(lines: Seq<(usize, Seq<char>)>, k: int) -> usize
    decreases k,
{
    if k <= 0 {
        0
    } else if classify(lines[k - 1].1) == LineClass::IssueHeader {
        line_level(lines[k - 1].1) as usize
    } else {
        last_issue_level(lines, k - 1)
    }
}

/// The identifiers of the issues opened since the last milestone or boundary marker,
/// after the first `k` lines, each once, in order of first opening.
pub open spec fn opened_ids(lines: Seq<(usize, Seq<char>)>, k: int, start: u64) -> Seq<u64>
    decreases k,
{
    if k <= 0 {
        Seq::empty()
    } else {
        let prev = opened_ids(lines, k - 1, start);
        match run(lines, k - 1, start) {
            Err(_) => prev,
            Ok(st) => match item_of(lines[k - 1].1, st.next).0 {
                ItemView::Issue(x) => seq_set_insert(prev, x.id),
                ItemView::Milestone(_) => Seq::empty(),
                ItemView::Empty => if st.line == Line::Separator {
                    Seq::empty()
                } else {
                    prev
                },
                _ => prev,
            },
        }
    }
}

proof fn lemma_upsert_ids(s: Seq<IssueView>, x: IssueView)
    ensures
        issue_ids(upsert_issue(s, x)) == seq_set_insert(issue_ids(s), x.id),
{
    lemma_issue_index(s, x.id, 0);
    let i = issue_index(s, x.id, 0);
    if i >= 0 {
        assert(issue_ids(s)[i] == x.id);
        assert(issue_ids(upsert_issue(s, x)) =~= issue_ids(s));
    } else {
        assert(!issue_ids(s).contains(x.id)) by {
            if issue_ids(s).contains(x.id) {
                let j = choose|j: int| 0 <= j < issue_ids(s).len() && issue_ids(s)[j] == x.id;
                assert(s[j].id == x.id);
            }
        }
        assert(issue_ids(upsert_issue(s, x)) =~= issue_ids(s).push(x.id));
    }
}

proof fn lemma_add_child_ids(s: Seq<IssueView>, i: int, c: u64)
    requires
        0 <= i < s.len(),
    ensures
        issue_ids(add_child(s, i, c)) == issue_ids(s),
        add_child(s, i, c).len() == s.len(),
{
    assert(issue_ids(add_child(s, i, c)) =~= issue_ids(s));
}

/// The open run holds the issues opened since the last reset, and the
/// level of the state is that of the last issue header.
proof fn lemma_run_state(lines: Seq<(usize, Seq<char>)>, k: int, start: u64)
    requires
        0 <= k <= lines.len(),
        run(lines, k, start) is Ok,
    ensures
        run(lines, k, start)->Ok_0.level == last_issue_level(lines, k),
        issue_ids(run(lines, k, start)->Ok_0.open) == opened_ids(lines, k, start),
        plan_keys_wf(run(lines, k, start)->Ok_0.plan),
    decreases k,
{
    if k == 0 {
        assert(issue_ids(Seq::<IssueView>::empty()) =~= Seq::<u64>::empty());
    } else {
        let prev = run(lines, k - 1, start);
        if prev is Err {
            lemma_run_err_persists(lines, k - 1, k, start);
        } else {
            lemma_run_state(lines, k - 1, start);
            let st0 = prev->Ok_0;
            let s = lines[k - 1].1;
            let (item, next) = item_of(s, st0.next);
            let st = BuilderState { next, ..st0 };
            let st1 = run(lines, k, start)->Ok_0;
            match item {
                ItemView::Empty => {
                    if st.line == Line::Separator {
                        lemma_plan_add_issues_wf(st.plan, st.open);
                        assert(issue_ids(Seq::<IssueView>::empty()) =~= Seq::<u64>::empty());
                    }
                },
                ItemView::Separator => {},
                ItemView::Issue(x) => {
                    let level = line_level(s) as usize;
                    if level == st.level {
                        if links_sibling(st.line) && st.parent is Some {
                            let pi = issue_index(st.open, st.parent->0, 0);
                            lemma_issue_index(st.open, st.parent->0, 0);
                            lemma_add_child_ids(st.open, pi, x.id);
                            lemma_upsert_ids(add_child(st.open, pi, x.id), IssueView { parent_id: Some(st.open[pi].id), ..x });
                        } else {
                            lemma_upsert_ids(st.open, x);
                        }
                    } else if level != 0 {
                        let pi = if level == st.level + 1 {
                            st.open.len() - 1
                        } else {
                            ancestor_index(st.open, st.parent, (st.level - level) as nat)
                        };
                        lemma_ancestor_in_range(st.open, st.parent, (st.level - level) as nat);
                        lemma_add_child_ids(st.open, pi, x.id);
                        lemma_upsert_ids(add_child(st.open, pi, x.id), IssueView { parent_id: Some(st.open[pi].id), ..x });
                    } else {
                        lemma_upsert_ids(st.open, x);
                    }
                },
                ItemView::Milestone(m) => {
                    lemma_plan_add_issues_wf(st.plan, st.open);
                    let m2 = MilestoneView {
                        needed_issues: seq_set_insert_all(m.needed_issues, issue_ids(st.open)),
                        ..m
                    };
                    lemma_plan_add_milestone_wf(plan_add_issues(st.plan, st.open), m2);
                    assert(issue_ids(Seq::<IssueView>::empty()) =~= Seq::<u64>::empty());
                },
                ItemView::Text(t) => {
                    let level = line_level(s) as usize;
                    if continues_run(st.line) && level > st.level && st.open.len() > 0 {
                        assert(issue_ids(st1.open) =~= issue_ids(st.open));
                    }
                },
            }
        }
    }
}

proof fn lemma_ancestor_in_range(open: Seq<IssueView>, pid: Option<u64>, steps: nat)
    ensures
        ancestor_index(open, pid, steps) < open.len(),
    decreases steps, 1int,
{
    match pid {
        None => {},
        Some(p) => {
            lemma_issue_index(open, p, 0);
            let i = issue_index(open, p, 0);
            if i >= 0 {
                lemma_ancestor_from_in_range(open, i, steps);
            }
        },
    }
}

proof fn lemma_ancestor_from_in_range(open: Seq<IssueView>, i: int, steps: nat)
    requires
        i < open.len(),
    ensures
        ancestor_from(open, i, steps) < open.len(),
    decreases steps, 0int,
{
    if steps > 0 && 0 <= i < open.len() {
        lemma_ancestor_in_range(open, open[i].parent_id, (steps - 1) as nat);
    }
}

proof fn lemma_insert_all_unique(xs: Seq<u64>)
    requires
        xs.no_duplicates(),
    ensures
        seq_set_insert_all(Seq::empty(), xs) == xs,
    decreases xs.len(),
{
    if xs.len() > 0 {
        let init = xs.drop_last();
        assert(init.no_duplicates());
        lemma_insert_all_unique(init);
        assert(!init.contains(xs.last())) by {
            if init.contains(xs.last()) {
                let j = choose|j: int| 0 <= j < init.len() && init[j] == xs.last();
                assert(xs[j] == xs[xs.len() - 1]);
            }
        }
        assert(init.push(xs.last()) =~= xs);
    }
}

proof fn lemma_opened_ids_unique(lines: Seq<(usize, Seq<char>)>, k: int, start: u64)
    requires
        0 <= k,
    ensures
        opened_ids(lines, k, start).no_duplicates(),
    decreases k,
{
    if k > 0 {
        lemma_opened_ids_unique(lines, k - 1, start);
    }
}

/// The steps of the header lines among the first `k` lines, in line order, with the
/// identifiers they are read with (as far as reading has not failed).
pub open spec fn header_steps(lines: Seq<(usize, Seq<char>)>, k: int, start: u64) -> Seq<Step>
    decreases k,
{
    if k <= 0 {
        Seq::empty()
    } else {
        let prev = header_steps(lines, k - 1, start);
        match run(lines, k - 1, start) {
            Err(_) => prev,
            Ok(st) => match item_of(lines[k - 1].1, st.next).0 {
                ItemView::Issue(x) => prev.push(Step::Issue(x.id)),
                ItemView::Milestone(m) => prev.push(Step::Milestone(m.id)),
                _ => prev,
            },
        }
    }
}

pub open spec fn issue_steps(open: Seq<IssueView>) -> Seq<Step> {
    issue_ids(open).map_values(|id: u64| Step::Issue(id))
}

proof fn lemma_add_issues_steps_append(p: PlanView, xs: Seq<IssueView>)
    requires
        (p.steps + issue_steps(xs)).no_duplicates(),
    ensures
        plan_add_issues(p, xs).steps == p.steps + issue_steps(xs),
    decreases xs.len(),
{
    if xs.len() == 0 {
        assert(p.steps + issue_steps(xs) =~= p.steps);
    } else {
        let st = Step::Issue(xs[0].id);
        assert((p.steps + issue_steps(xs))[p.steps.len() as int] == st);
        assert(!p.steps.contains(st)) by {
            if p.steps.contains(st) {
                let j = choose|j: int| 0 <= j < p.steps.len() && p.steps[j] == st;
                assert((p.steps + issue_steps(xs))[j] == st);
            }
        }
        let p1 = plan_add_issue(p, xs[0]);
        assert(p1.steps == p.steps.push(st));
        assert(p1.steps + issue_steps(xs.drop_first()) =~= p.steps + issue_steps(xs));
        lemma_add_issues_steps_append(p1, xs.drop_first());
    }
}

proof fn lemma_header_steps_prefix(lines: Seq<(usize, Seq<char>)>, k: int, start: u64)
    requires
        0 < k,
        header_steps(lines, k, start).no_duplicates(),
    ensures
        header_steps(lines, k - 1, start).no_duplicates(),
{
    let prev = header_steps(lines, k - 1, start);
    let cur = header_steps(lines, k, start);
    if cur != prev {
        assert forall|i: int, j: int| 0 <= i < prev.len() && 0 <= j < prev.len() && i != j implies prev[i] != prev[j] by {
            assert(cur[i] == prev[i] && cur[j] == prev[j]);
        }
    }
}

/// While reading succeeds and the header lines' steps are distinct, the plan's steps
/// followed by the open issues are the steps of the header lines so far.
proof fn lemma_run_steps(lines: Seq<(usize, Seq<char>)>, k: int, start: u64)
    requires
        0 <= k <= lines.len(),
        run(lines, k, start) is Ok,
        header_steps(lines, k, start).no_duplicates(),
    ensures
        run(lines, k, start)->Ok_0.plan.steps + issue_steps(run(lines, k, start)->Ok_0.open)
            == header_steps(lines, k, start),
    decreases k,
{
    if k == 0 {
        assert(issue_steps(Seq::<IssueView>::empty()) =~= Seq::<Step>::empty());
        assert(Seq::<Step>::empty() + Seq::<Step>::empty() =~= Seq::<Step>::empty());
    } else {
        let prev = run(lines, k - 1, start);
        if prev is Err {
            lemma_run_err_persists(lines, k - 1, k, start);
        } else {
            lemma_header_steps_prefix(lines, k, start);
            lemma_run_steps(lines, k - 1, start);
            lemma_run_state(lines, k - 1, start);
            let st0 = prev->Ok_0;
            let s = lines[k - 1].1;
            let (item, next) = item_of(s, st0.next);
            let st = BuilderState { next, ..st0 };
            let st1 = run(lines, k, start)->Ok_0;
            let hs = header_steps(lines, k - 1, start);
            assert(st.plan.steps + issue_steps(st.open) == hs);
            match item {
                ItemView::Empty => {
                    if st.line == Line::Separator {
                        lemma_add_issues_steps_append(st.plan, st.open);
                        assert(issue_steps(Seq::<IssueView>::empty()) =~= Seq::<Step>::empty());
                        assert(st1.plan.steps + issue_steps(st1.open) =~= hs);
                    }
                },
                ItemView::Separator => {},
                ItemView::Issue(x) => {
                    let cur = hs.push(Step::Issue(x.id));
                    assert(cur[hs.len() as int] == Step::Issue(x.id));
                    assert(!issue_ids(st.open).contains(x.id)) by {
                        if issue_ids(st.open).contains(x.id) {
                            let j = choose|j: int| 0 <= j < issue_ids(st.open).len() && issue_ids(st.open)[j] == x.id;
                            assert(hs[st.plan.steps.len() + j] == Step::Issue(x.id));
                            assert(cur[st.plan.steps.len() + j] == cur[hs.len() as int]);
                        }
                    }
                    assert(issue_ids(st.open).push(x.id) == seq_set_insert(issue_ids(st.open), x.id));
                    assert(issue_ids(st1.open) == issue_ids(st.open).push(x.id)) by {
                        let level = line_level(s) as usize;
                        if level == st.level {
                            if links_sibling(st.line) && st.parent is Some {
                                let pi = issue_index(st.open, st.parent->0, 0);
                                lemma_issue_index(st.open, st.parent->0, 0);
                                lemma_add_child_ids(st.open, pi, x.id);
                                lemma_upsert_ids(add_child(st.open, pi, x.id), IssueView { parent_id: Some(st.open[pi].id), ..x });
                            } else {
                                lemma_upsert_ids(st.open, x);
                            }
                        } else if level != 0 {
                            let pi = if level == st.level + 1 {
                                st.open.len() - 1
                            } else {
                                ancestor_index(st.open, st.parent, (st.level - level) as nat)
                            };
                            lemma_ancestor_in_range(st.open, st.parent, (st.level - level) as nat);
                            lemma_add_child_ids(st.open, pi, x.id);
                            lemma_upsert_ids(add_child(st.open, pi, x.id), IssueView { parent_id: Some(st.open[pi].id), ..x });
                        } else {
                            lemma_upsert_ids(st.open, x);
                        }
                    }
                    assert(issue_steps(st1.open) =~= issue_steps(st.open).push(Step::Issue(x.id)));
                    assert(st1.plan.steps + issue_steps(st1.open) =~= cur);
                },
                ItemView::Milestone(m) => {
                    let cur = hs.push(Step::Milestone(m.id));
                    lemma_add_issues_steps_append(st.plan, st.open);
                    assert(cur[hs.len() as int] == Step::Milestone(m.id));
                    assert(!hs.contains(Step::Milestone(m.id))) by {
                        if hs.contains(Step::Milestone(m.id)) {
                            let j = choose|j: int| 0 <= j < hs.len() && hs[j] == Step::Milestone(m.id);
                            assert(cur[j] == cur[hs.len() as int]);
                        }
                    }
                    assert(issue_steps(Seq::<IssueView>::empty()) =~= Seq::<Step>::empty());
                    assert(st1.plan.steps + issue_steps(st1.open) =~= cur);
                },
                ItemView::Text(t) => {
                    let level = line_level(s) as usize;
                    if continues_run(st.line) && level > st.level && st.open.len() > 0 {
                        assert(issue_ids(st1.open) =~= issue_ids(st.open));
                    }
                },
            }
        }
    }
}

/// Where reading succeeds and no two header lines are read with the same identifier
/// of their kind, the plan's steps are exactly one step per header line, in line order.
pub proof fn lemma_steps_follow_headers(lines: Seq<(usize, Seq<char>)>, start: u64)
    requires
        parse_outline(lines, start) is Ok,
        header_steps(lines, lines.len() as int, start).no_duplicates(),
    ensures
        parse_outline(lines, start)->Ok_0.0.steps == header_steps(lines, lines.len() as int, start),
{
    let n = lines.len() as int;
    lemma_run_steps(lines, n, start);
    let st = run(lines, n, start)->Ok_0;
    lemma_add_issues_steps_append(st.plan, st.open);
}


proof fn lemma_insert_all_subset(s: Seq<u64>, xs: Seq<u64>)
    ensures
        forall|id: u64| #[trigger] seq_set_insert_all(s, xs).contains(id) ==> s.contains(id) || xs.contains(id),
    decreases xs.len(),
{
    if xs.len() > 0 {
        lemma_insert_all_subset(s, xs.drop_last());
        assert forall|id: u64| #[trigger] seq_set_insert_all(s, xs).contains(id) implies s.contains(id) || xs.contains(id) by {
            let prev = seq_set_insert_all(s, xs.drop_last());
            if !prev.contains(xs.last()) {
                if id != xs.last() {
                    let t = choose|t: int| 0 <= t < prev.push(xs.last()).len() && prev.push(xs.last())[t] == id;
                    assert(prev[t] == id);
                }
            }
            if prev.contains(id) && xs.drop_last().contains(id) {
                let t = choose|t: int| 0 <= t < xs.drop_last().len() && xs.drop_last()[t] == id;
                assert(xs[t] == id);
            }
            if id == xs.last() {
                assert(xs[xs.len() - 1] == id);
            }
        }
    }
}

/// Committing the open run: the plan's links then all resolve to its own issues.
proof fn lemma_flush_links(plan: PlanView, open: Seq<IssueView>)
    requires
        all_within(plan.issues, issue_keys(plan.issues) + issue_keys(open)),
        all_within(open, issue_keys(plan.issues) + issue_keys(open)),
        milestones_within(plan.milestones, issue_keys(plan.issues)),
    ensures
        crate::plan::links_resolve(plan_add_issues(plan, open)),
        keys_subset(issue_keys(plan.issues) + issue_keys(open), issue_keys(plan_add_issues(plan, open).issues)),
{
    lemma_add_issues_parts(plan, open);
    lemma_upserts_keys_union(plan.issues, open);
    let k0 = issue_keys(plan.issues) + issue_keys(open);
    let k1 = issue_keys(upsert_issues(plan.issues, open));
    lemma_within_mono(plan.issues, k0, k1);
    lemma_within_mono(open, k0, k1);
    lemma_upserts_within(plan.issues, open, k1);
    lemma_milestones_within_mono(plan.milestones, issue_keys(plan.issues), k1);
}

/// Every link in the plan and in the open run refers to an issue of one of them, and
/// every milestone needs only issues of the plan.
proof fn lemma_run_links(lines: Seq<(usize, Seq<char>)>, k: int, start: u64)
    requires
        0 <= k <= lines.len(),
        run(lines, k, start) is Ok,
    ensures
        ({
            let st = run(lines, k, start)->Ok_0;
            let kk = issue_keys(st.plan.issues) + issue_keys(st.open);
            &&& all_within(st.plan.issues, kk)
            &&& all_within(st.open, kk)
            &&& milestones_within(st.plan.milestones, issue_keys(st.plan.issues))
        }),
    decreases k,
{
    if k > 0 {
        let prev = run(lines, k - 1, start);
        if prev is Err {
            lemma_run_err_persists(lines, k - 1, k, start);
        } else {
            lemma_run_links(lines, k - 1, start);
            let st0 = prev->Ok_0;
            let s = lines[k - 1].1;
            let (item, next) = item_of(s, st0.next);
            let st = BuilderState { next, ..st0 };
            let st1 = run(lines, k, start)->Ok_0;
            let k0 = issue_keys(st.plan.issues) + issue_keys(st.open);
            let k1 = issue_keys(st1.plan.issues) + issue_keys(st1.open);
            match item {
                ItemView::Empty => {
                    if st.line == Line::Separator {
                        lemma_flush_links(st.plan, st.open);
                        lemma_concat_subsets(issue_keys(st1.plan.issues), issue_keys(st1.open));
                        lemma_within_mono(st1.plan.issues, issue_keys(st1.plan.issues), k1);
                    }
                },
                ItemView::Separator => {},
                ItemView::Issue(x) => {
                    let level = line_level(s) as usize;
                    let linked = if level == st.level {
                        links_sibling(st.line) && st.parent is Some
                    } else {
                        level != 0
                    };
                    let kp = issue_keys(st.plan.issues);
                    if linked {
                        let pi = if level == st.level {
                            issue_index(st.open, st.parent->0, 0)
                        } else if level == st.level + 1 {
                            st.open.len() - 1
                        } else {
                            ancestor_index(st.open, st.parent, (st.level - level) as nat)
                        };
                        if level != st.level {
                            lemma_ancestor_in_range(st.open, st.parent, (st.level - level) as nat);
                        } else {
                            lemma_issue_index(st.open, st.parent->0, 0);
                        }
                        let open1 = add_child(st.open, pi, x.id);
                        let x2 = IssueView { parent_id: Some(st.open[pi].id), ..x };
                        lemma_add_child_ids(st.open, pi, x.id);
                        lemma_upsert_ids(open1, x2);
                        assert(st1.open == upsert_issue(open1, x2));
                        let ko = issue_keys(st.open);
                        assert forall|id: u64| #[trigger] k0.contains(id) implies k1.contains(id) by {
                            lemma_concat_subsets(kp, ko);
                            lemma_concat_subsets(kp, issue_keys(st1.open));
                            if (kp + ko).contains(id) {
                                let t = choose|t: int| 0 <= t < (kp + ko).len() && (kp + ko)[t] == id;
                                if t < kp.len() {
                                    assert(kp[t] == id);
                                    assert(kp.contains(id));
                                } else {
                                    assert(ko[t - kp.len()] == id);
                                    assert(ko.contains(id));
                                    crate::plan::lemma_set_insert_contains(issue_keys(open1), x.id, id);
                                    assert(issue_keys(st1.open).contains(id));
                                }
                            }
                        }
                        lemma_concat_subsets(kp, issue_keys(st1.open));
                        crate::plan::lemma_set_insert_contains(issue_keys(open1), x.id, x.id);
                        assert(issue_keys(st1.open).contains(x.id));
                        assert(k1.contains(x.id));
                        assert(ko[pi] == st.open[pi].id);
                        assert(k0.contains(st.open[pi].id)) by {
                            assert(k0[kp.len() + pi] == st.open[pi].id);
                        }
                        lemma_within_mono(st.plan.issues, k0, k1);
                        lemma_within_mono(st.open, k0, k1);
                        assert forall|i: int| 0 <= i < open1.len() implies issue_refs_within(#[trigger] open1[i], k1) by {
                            assert(issue_refs_within(st.open[i], k1));
                            if i == pi {
                                assert forall|j: int| 0 <= j < open1[i].subissues.len() implies k1.contains(#[trigger] open1[i].subissues[j]) by {
                                    let old_subs = st.open[i].subissues;
                                    if !old_subs.contains(x.id) {
                                        if j < old_subs.len() {
                                            assert(open1[i].subissues[j] == old_subs[j]);
                                        }
                                    }
                                }
                            }
                        }
                        assert(issue_refs_within(x2, k1));
                        lemma_upsert_within(open1, x2, k1);
                    } else {
                        lemma_upsert_ids(st.open, x);
                        assert(st1.open == upsert_issue(st.open, x));
                        let ko = issue_keys(st.open);
                        assert forall|id: u64| #[trigger] k0.contains(id) implies k1.contains(id) by {
                            lemma_concat_subsets(kp, issue_keys(st1.open));
                            if (kp + ko).contains(id) {
                                let t = choose|t: int| 0 <= t < (kp + ko).len() && (kp + ko)[t] == id;
                                if t < kp.len() {
                                    assert(kp[t] == id);
                                    assert(kp.contains(id));
                                } else {
                                    assert(ko[t - kp.len()] == id);
                                    assert(ko.contains(id));
                                    crate::plan::lemma_set_insert_contains(ko, x.id, id);
                                    assert(issue_keys(st1.open).contains(id));
                                }
                            }
                        }
                        lemma_within_mono(st.plan.issues, k0, k1);
                        lemma_within_mono(st.open, k0, k1);
                        assert(issue_refs_within(x, k1));
                        lemma_upsert_within(st.open, x, k1);
                    }
                },
                ItemView::Milestone(m) => {
                    let m2 = MilestoneView {
                        needed_issues: seq_set_insert_all(m.needed_issues, issue_ids(st.open)),
                        ..m
                    };
                    lemma_flush_links(st.plan, st.open);
                    let p1 = plan_add_issues(st.plan, st.open);
                    lemma_add_issues_parts(st.plan, st.open);
                    lemma_insert_all_subset(m.needed_issues, issue_ids(st.open));
                    lemma_concat_subsets(issue_keys(st.plan.issues), issue_keys(st.open));
                    assert forall|j: int| 0 <= j < m2.needed_issues.len() implies issue_keys(p1.issues).contains(#[trigger] m2.needed_issues[j]) by {
                        let id = m2.needed_issues[j];
                        assert(seq_set_insert_all(m.needed_issues, issue_ids(st.open)).contains(id));
                        assert(issue_keys(st.open).contains(id));
                    }
                    assert(milestone_refs_within(m2, issue_keys(p1.issues)));
                    lemma_upsert_milestone_within(p1.milestones, m2, issue_keys(p1.issues));
                    lemma_concat_subsets(issue_keys(st1.plan.issues), issue_keys(st1.open));
                    lemma_within_mono(st1.plan.issues, issue_keys(st1.plan.issues), k1);
                },
                ItemView::Text(t) => {
                    let level = line_level(s) as usize;
                    if continues_run(st.line) && level > st.level && st.open.len() > 0 {
                        assert(issue_ids(st1.open) =~= issue_ids(st.open));
                        assert forall|i: int| 0 <= i < st1.open.len() implies issue_refs_within(#[trigger] st1.open[i], k1) by {
                            assert(issue_refs_within(st.open[i], k0));
                        }
                    }
                },
            }
        }
    }
}

/// Reading the same outline twice from the same generator value gives the same
/// result, and a plan read from an outline never lists a step twice (nor holds two
/// issues, or two milestones, under one identifier).
pub proof fn lemma_parse_repeatable(lines: Seq<(usize, Seq<char>)>, again: Seq<(usize, Seq<char>)>, start: u64)
    requires
        again == lines,
    ensures
        parse_outline(lines, start) == parse_outline(again, start),
        parse_outline(lines, start) matches Ok((p, _)) ==> plan_wf(p) && p.steps.no_duplicates(),
{
    let n = lines.len() as int;
    if run(lines, n, start) is Ok {
        lemma_run_state(lines, n, start);
        lemma_run_links(lines, n, start);
        let st = run(lines, n, start)->Ok_0;
        lemma_plan_add_issues_wf(st.plan, st.open);
        lemma_flush_links(st.plan, st.open);
    }
}

/// An issue header more than one level deeper than the issue header before it
/// (or deeper than level 1 with none before it) makes the whole outline fail;
/// where nothing failed before it, the failure is a level jump reported at its line.
pub proof fn lemma_level_jump_fails(lines: Seq<(usize, Seq<char>)>, start: u64, k: int)
    requires
        0 <= k < lines.len(),
        lines[k].1.len() <= usize::MAX,
        classify(lines[k].1) == LineClass::IssueHeader,
        line_level(lines[k].1) > last_issue_level(lines, k) + 1,
    ensures
        parse_outline(lines, start) is Err,
        run(lines, k, start) is Ok ==> parse_outline(lines, start) == Err::<(PlanView, u64), ParseStructureError>(
            ParseStructureError::LevelJump {
                line: lines[k].0,
                level: line_level(lines[k].1) as usize,
                max_level: (last_issue_level(lines, k) + 1) as usize,
            },
        ),
{
    let n = lines.len() as int;
    if run(lines, k, start) is Err {
        lemma_run_err_persists(lines, k, n, start);
    } else {
        lemma_run_state(lines, k, start);
        lemma_space_run_bounds(lines[k].1, 0);
        assert(run(lines, k + 1, start) is Err);
        lemma_run_err_persists(lines, k + 1, n, start);
    }
}

/// A milestone needs exactly the issues opened since the previous milestone or
/// boundary marker: the milestone that line `k` adds lists those identifiers, in order.
pub proof fn lemma_milestone_needs_open_run(lines: Seq<(usize, Seq<char>)>, start: u64, k: int)
    requires
        0 <= k < lines.len(),
        classify(lines[k].1) == LineClass::MilestoneHeader,
        run(lines, k, start) is Ok,
    ensures
        run(lines, k + 1, start) is Ok,
        ({
            let st = run(lines, k + 1, start)->Ok_0;
            let m = st.plan.milestones[crate::plan::milestone_index(
                st.plan.milestones,
                item_of(lines[k].1, run(lines, k, start)->Ok_0.next).0->Milestone_0.id,
                0,
            )];
            m.needed_issues == opened_ids(lines, k, start)
        }),
{
    lemma_run_state(lines, k, start);
    lemma_opened_ids_unique(lines, k, start);
    lemma_insert_all_unique(opened_ids(lines, k, start));
    let st0 = run(lines, k, start)->Ok_0;
    let (item, next) = item_of(lines[k].1, st0.next);
    let m = item->Milestone_0;
    let f = flush(BuilderState { next, ..st0 });
    let m2 = MilestoneView { needed_issues: seq_set_insert_all(m.needed_issues, issue_ids(st0.open)), ..m };
    crate::plan::lemma_upsert_milestone_finds(f.plan.milestones, m2);
}

/// The builder's context between two lines.
struct Last {
    issue_level: usize,
    issue_parent_id: Option<u64>,
    line: Line,
    parsed_issues: Vec<Issue>,
}

impl Last {
    spec fn state(&self, plan: PlanView, next: u64) -> BuilderState {
        BuilderState {
            line: self.line,
            level: self.issue_level,
            parent: self.issue_parent_id,
            open: issue_views(self.parsed_issues@),
            plan,
            next,
        }
    }

    fn new() -> (r: Self)
        ensures
            r.state(empty_plan(), 0) == initial_state(0),
            r.issue_level <= usize::MAX / 2,
    {
        let r = Last { issue_level: 0, issue_parent_id: None, line: Line::Start, parsed_issues: Vec::new() };
        assert(issue_views(r.parsed_issues@) =~= Seq::<IssueView>::empty());
        r
    }

    /// The open issue `issue_level - item_level` levels above the last issue's parent.
    fn find_parent(&self, item_level: usize) -> (r: Option<usize>)
        requires
            item_level <= self.issue_level,
        ensures
            ({
                let a = ancestor_index(
                    issue_views(self.parsed_issues@),
                    self.issue_parent_id,
                    (self.issue_level - item_level) as nat,
                );
                match r {
                    Some(i) => i == a && i < self.parsed_issues@.len(),
                    None => a < 0,
                }
            }),
    {
        let ghost open = issue_views(self.parsed_issues@);
        let diff = self.issue_level - item_level;
        let pid = match self.issue_parent_id {
            Some(p) => p,
            None => return None,
        };
        let mut idx = match find_issue_index(&self.parsed_issues, pid) {
            Some(i) => i,
            None => return None,
        };
        let mut k: usize = 0;
        let mut found = true;
        while k < diff && found
            invariant
                open == issue_views(self.parsed_issues@),
                k <= diff,
                idx < self.parsed_issues@.len(),
                found ==> ancestor_index(open, self.issue_parent_id, diff as nat) == ancestor_from(
                    open,
                    idx as int,
                    (diff - k) as nat,
                ),
                !found ==> ancestor_index(open, self.issue_parent_id, diff as nat) < 0,
            decreases diff - k,
        {
            let pp = self.parsed_issues[idx].parent_id;
            assert(ancestor_from(open, idx as int, (diff - k) as nat) == ancestor_index(
                open,
                pp,
                (diff - k - 1) as nat,
            ));
            match pp {
                Some(p) => match find_issue_index(&self.parsed_issues, p) {
                    Some(j) => {
                        idx = j;
                    },
                    None => {
                        found = false;
                    },
                },
                None => {
                    found = false;
                },
            }
            k = k + 1;
        }
        if found {
            Some(idx)
        } else {
            None
        }
    }

    fn insert_issue(&mut self, issue: Issue, issue_level: usize)
        ensures
            final(self).issue_level == issue_level,
            final(self).issue_parent_id == issue.parent_id,
            final(self).line == old(self).line,
            issue_views(final(self).parsed_issues@) == upsert_issue(
                issue_views(old(self).parsed_issues@),
                issue@,
            ),
    {
        self.issue_parent_id = issue.parent_id;
        self.issue_level = issue_level;
        upsert_open(&mut self.parsed_issues, issue);
    }
}

fn upsert_open(v: &mut Vec<Issue>, x: Issue)
    ensures
        issue_views(final(v)@) == upsert_issue(issue_views(old(v)@), x@),
{
    let ghost xv = x@;
    match find_issue_index(v, x.id) {
        Some(i) => {
            v.set(i, x);
            assert(issue_views(v@) =~= issue_views(old(v)@).update(i as int, xv));
        },
        None => {
            v.push(x);
            assert(issue_views(v@) =~= issue_views(old(v)@).push(xv));
        },
    }
}

/// Records `child` among the sub-issues of the open issue at `i`.
fn link_child(v: &mut Vec<Issue>, i: usize, child: u64)
    requires
        i < old(v)@.len(),
    ensures
        issue_views(final(v)@) == add_child(issue_views(old(v)@), i as int, child),
{
    let ghost ov = issue_views(v@);
    id_set_insert(&mut v[i].subissues, child);
    assert(issue_views(v@) =~= add_child(ov, i as int, child));
}

/// Appends a description line to the content of the open issue at `i`.
fn append_description(v: &mut Vec<Issue>, i: usize, d: &str)
    requires
        i < old(v)@.len(),
    ensures
        issue_views(final(v)@) == issue_views(old(v)@).update(
            i as int,
            IssueView {
                content: append_line(issue_views(old(v)@)[i as int].content, d@),
                ..issue_views(old(v)@)[i as int]
            },
        ),
{
    let ghost ov = issue_views(v@);
    let ghost c0 = v@[i as int].content@;
    proof {
        reveal_strlit("\n");
    }
    if !v[i].content.as_str().is_empty() {
        v[i].content.append("\n");
        assert(v@[i as int].content@ =~= c0 + seq!['\n']);
    } else {
        assert(c0 =~= Seq::<char>::empty());
    }
    v[i].content.append(d);
    assert(v@[i as int].content@ =~= append_line(c0, d@));
    assert(issue_views(v@) =~= ov.update(
        i as int,
        IssueView { content: append_line(ov[i as int].content, d@), ..ov[i as int] },
    ));
}

/// `t` without up to `n` of its leading spaces.
fn strip_leading_spaces(t: &str, n: usize) -> (r: String)
    ensures
        r@ == strip_spaces(t@, n as int),
{
    let s = chars_of(t);
    let k0 = space_run_at(&s, 0);
    let k = if k0 < n {
        k0
    } else {
        n
    };
    String::from_str(t.substring_char(k, s.len()))
}

fn ids_into(needed: &mut indexmap::IndexSet<u64>, open: &Vec<Issue>)
    ensures
        id_set_items(*final(needed)) == seq_set_insert_all(
            id_set_items(*old(needed)),
            issue_ids(issue_views(open@)),
        ),
{
    let ghost ids = issue_ids(issue_views(open@));
    let ghost s0 = id_set_items(*needed);
    let mut k: usize = 0;
    while k < open.len()
        invariant
            k <= open@.len(),
            ids == issue_ids(issue_views(open@)),
            id_set_items(*needed) == seq_set_insert_all(s0, ids.subrange(0, k as int)),
        decreases open@.len() - k,
    {
        assert(ids.subrange(0, k + 1).drop_last() =~= ids.subrange(0, k as int));
        id_set_insert(needed, open[k].id);
        k = k + 1;
    }
    assert(ids.subrange(0, open@.len() as int) =~= ids);
}

/// Builds the plan of an outline from its numbered lines, in one pass.
pub fn plan_from_lines<G: IdGenerator>(lines: &Vec<(usize, String)>, gen: &mut G) -> (r: Result<
    Plan,
    ParseStructureError,
>)
    ensures
        match parse_outline(lines_view(lines@), old(gen).upcoming()) {
            Ok((p, n)) => r matches Ok(plan) && plan@ == p && final(gen).upcoming() == n,
            Err(e) => r matches Err(e2) && e2 == e,
        },
        r matches Ok(plan) ==> plan.wf(),
{
    let ghost lv = lines_view(lines@);
    let ghost start = gen.upcoming();
    let mut planned = Plan::new();
    let mut last = Last::new();
    assert(last.state(planned@, start) == initial_state(start));
    let mut i: usize = 0;
    while i < lines.len()
        invariant
            lv == lines_view(lines@),
            start == old(gen).upcoming(),
            i <= lines@.len(),
            last.issue_level <= usize::MAX / 2,
            run(lv, i as int, start) == Ok::<BuilderState, ParseStructureError>(
                last.state(planned@, gen.upcoming()),
            ),
        decreases lines@.len() - i,
    {
        let pair = &lines[i];
        let line_idx = pair.0;
        let ghost st0 = last.state(planned@, gen.upcoming());
        let (item, level) = Item::parse(pair.1.as_str(), gen);
        let ghost st = BuilderState { next: gen.upcoming(), ..st0 };
        assert(run(lv, i + 1, start) == step(st0, line_idx, pair.1@));
        match item {
            Item::Empty => {
                if last.line == Line::Separator {
                    planned.add_issues(&mut last.parsed_issues);
                    assert(issue_views(last.parsed_issues@) =~= Seq::<IssueView>::empty());
                }
                last.line = Line::Empty;
                assert(step(st0, line_idx, pair.1@) == Ok::<BuilderState, ParseStructureError>(
                    last.state(planned@, gen.upcoming()),
                ));
            },
            Item::Separator => {
                if last.line == Line::Empty {
                    last.line = Line::Separator;
                } else {
                    last.line = Line::Other;
                }
                assert(step(st0, line_idx, pair.1@) == Ok::<BuilderState, ParseStructureError>(
                    last.state(planned@, gen.upcoming()),
                ));
            },
            Item::Issue(issue) => {
                let mut issue = issue;
                if level == last.issue_level {
                    let sibling = last.line == Line::Issue || last.line == Line::Description
                        || last.line == Line::Empty || last.line == Line::Other;
                    if sibling && last.issue_parent_id.is_some() {
                        let p = last.issue_parent_id.unwrap();
                        match find_issue_index(&last.parsed_issues, p) {
                            Some(pi) => {
                                proof {
                                    lemma_issue_index(issue_views(last.parsed_issues@), p, 0);
                                }
                                link_child(&mut last.parsed_issues, pi, issue.id);
                                issue.parent_id = Some(p);
                            },
                            None => {
                                proof {
                                    lemma_run_err_persists(lv, i + 1, lv.len() as int, start);
                                }
                                return Err(
                                    ParseStructureError::ParentNotFound { line: line_idx, level },
                                );
                            },
                        }
                    }
                } else if level != 0 {
                    let found = if level == last.issue_level + 1 {
                        if last.parsed_issues.len() > 0 {
                            Some(last.parsed_issues.len() - 1)
                        } else {
                            None
                        }
                    } else if level < last.issue_level {
                        last.find_parent(level)
                    } else {
                        proof {
                            lemma_run_err_persists(lv, i + 1, lv.len() as int, start);
                        }
                        return Err(
                            ParseStructureError::LevelJump {
                                line: line_idx,
                                level,
                                max_level: last.issue_level + 1,
                            },
                        );
                    };
                    match found {
                        Some(pi) => {
                            let pid = last.parsed_issues[pi].id;
                            link_child(&mut last.parsed_issues, pi, issue.id);
                            issue.parent_id = Some(pid);
                        },
                        None => {
                            proof {
                                lemma_run_err_persists(lv, i + 1, lv.len() as int, start);
                            }
                            return Err(
                                ParseStructureError::ParentNotFound { line: line_idx, level },
                            );
                        },
                    }
                }
                last.insert_issue(issue, level);
                last.line = Line::Issue;
                assert(step(st0, line_idx, pair.1@) == Ok::<BuilderState, ParseStructureError>(
                    last.state(planned@, gen.upcoming()),
                ));
            },
            Item::Milestone(milestone) => {
                let mut milestone = milestone;
                ids_into(&mut milestone.needed_issues, &last.parsed_issues);
                planned.add_issues(&mut last.parsed_issues);
                assert(issue_views(last.parsed_issues@) =~= Seq::<IssueView>::empty());
                planned.add_milestone(milestone);
                last.line = Line::Milestone;
                assert(step(st0, line_idx, pair.1@) == Ok::<BuilderState, ParseStructureError>(
                    last.state(planned@, gen.upcoming()),
                ));
            },
            Item::Text(text) => {
                let continues = last.line == Line::Issue || last.line == Line::Description
                    || last.line == Line::Empty;
                if continues && level > last.issue_level && last.parsed_issues.len() > 0 {
                    let d = strip_leading_spaces(text.as_str(), (last.issue_level + 1) * 2);
                    let k = last.parsed_issues.len() - 1;
                    append_description(&mut last.parsed_issues, k, d.as_str());
                    last.line = Line::Description;
                } else {
                    last.line = Line::Other;
                }
                assert(step(st0, line_idx, pair.1@) == Ok::<BuilderState, ParseStructureError>(
                    last.state(planned@, gen.upcoming()),
                ));
            },
        }
        i = i + 1;
    }
    planned.add_issues(&mut last.parsed_issues);
    proof {
        lemma_parse_repeatable(lv, lv, start);
    }
    Ok(planned)
}

} // verus!
