//! Plans: issues and milestones keyed by identifier, and the steps in document order.
use vstd::prelude::*;
use vstd::string::StringExecFns;

use crate::id_set::seq_set_insert;
use crate::issue::{Issue, IssueView, Milestone, MilestoneView};

verus! {

/// A reference to an issue or a milestone of a plan.
#[derive(Debug, Clone, Copy, PartialEq, Eq, Hash, Structural)]
pub enum Step {
    Issue(u64),
    Milestone(u64),
}

/// The mathematical value of a plan.
pub ghost struct PlanView {
    pub issues: Seq<IssueView>,
    pub milestones: Seq<MilestoneView>,
    pub steps: Seq<Step>,
}

/// The views of a sequence of issues.
pub open spec fn issue_views(v: Seq<Issue>) -> Seq<IssueView> {
    v.map_values(|i: Issue| i@)
}

pub open spec fn milestone_views(v: Seq<Milestone>) -> Seq<MilestoneView> {
    v.map_values(|m: Milestone| m@)
}

/// First position at or after `k` of an issue with identifier `id`, or -1.
pub open spec fn issue_index(s: Seq<IssueView>, id: u64, k: int) -> int
    decreases s.len() - k,
{
    if k < 0 || k >= s.len() {
        -1
    } else if s[k].id == id {
        k
    } else {
        issue_index(s, id, k + 1)
    }
}

pub proof fn lemma_issue_index(s: Seq<IssueView>, id: u64, k: int)
    requires
        0 <= k,
    ensures
        issue_index(s, id, k) == -1 || (k <= issue_index(s, id, k) < s.len() && s[issue_index(
            s,
            id,
            k,
        )].id == id),
        issue_index(s, id, k) == -1 ==> forall|j: int| k <= j < s.len() ==> #[trigger] s[j].id != id,
    decreases s.len() - k,
{
    if k < s.len() && s[k].id != id {
        lemma_issue_index(s, id, k + 1);
    }
}

/// First position at or after `k` of a milestone with identifier `id`, or -1.
pub open spec fn milestone_index(s: Seq<MilestoneView>, id: u64, k: int) -> int
    decreases s.len() - k,
{
    if k < 0 || k >= s.len() {
        -1
    } else if s[k].id == id {
        k
    } else {
        milestone_index(s, id, k + 1)
    }
}

pub proof fn lemma_milestone_index(s: Seq<MilestoneView>, id: u64, k: int)
    requires
        0 <= k,
    ensures
        milestone_index(s, id, k) == -1 || (k <= milestone_index(s, id, k) < s.len() && s[milestone_index(
            s,
            id,
            k,
        )].id == id),
        milestone_index(s, id, k) == -1 ==> forall|j: int| k <= j < s.len() ==> #[trigger] s[j].id != id,
        forall|j: int| k <= j < milestone_index(s, id, k) ==> #[trigger] s[j].id != id,
    decreases s.len() - k,
{
    if k < s.len() && s[k].id != id {
        lemma_milestone_index(s, id, k + 1);
    }
}

/// After a keyed insertion, looking the identifier up finds the inserted milestone.
pub proof fn lemma_upsert_milestone_finds(s: Seq<MilestoneView>, m: MilestoneView)
    ensures
        ({
            let t = upsert_milestone(s, m);
            let i = milestone_index(t, m.id, 0);
            0 <= i < t.len() && t[i] == m
        }),
{
    lemma_milestone_index(s, m.id, 0);
    let t = upsert_milestone(s, m);
    lemma_milestone_index(t, m.id, 0);
    let i = milestone_index(s, m.id, 0);
    if i >= 0 {
        assert(milestone_index(t, m.id, 0) == i) by {
            lemma_milestone_index_same(s, t, m.id, 0, i);
        }
    } else {
        assert(milestone_index(t, m.id, 0) == s.len()) by {
            lemma_milestone_index_same(s, t, m.id, 0, s.len() as int);
        }
    }
}

proof fn lemma_milestone_index_same(s: Seq<MilestoneView>, t: Seq<MilestoneView>, id: u64, k: int, i: int)
    requires
        0 <= k <= i < t.len(),
        t[i].id == id,
        forall|j: int| k <= j < i ==> #[trigger] t[j].id != id,
    ensures
        milestone_index(t, id, k) == i,
    decreases i - k,
{
    if k < i {
        lemma_milestone_index_same(s, t, id, k + 1, i);
    }
}

/// First position at or after `k` of an issue named `name`, or -1.
pub open spec fn issue_name_index(s: Seq<IssueView>, name: Seq<char>, k: int) -> int
    decreases s.len() - k,
{
    if k < 0 || k >= s.len() {
        -1
    } else if s[k].name == name {
        k
    } else {
        issue_name_index(s, name, k + 1)
    }
}

/// Keyed insertion: an issue with the same identifier is replaced in place,
/// otherwise the issue goes last.
pub open spec fn upsert_issue(s: Seq<IssueView>, x: IssueView) -> Seq<IssueView> {
    let i = issue_index(s, x.id, 0);
    if i >= 0 {
        s.update(i, x)
    } else {
        s.push(x)
    }
}

pub open spec fn upsert_milestone(s: Seq<MilestoneView>, x: MilestoneView) -> Seq<MilestoneView> {
    let i = milestone_index(s, x.id, 0);
    if i >= 0 {
        s.update(i, x)
    } else {
        s.push(x)
    }
}

/// Insertion into an ordered set of steps.
pub open spec fn insert_step(s: Seq<Step>, x: Step) -> Seq<Step> {
    if s.contains(x) {
        s
    } else {
        s.push(x)
    }
}

pub open spec fn upsert_issues(s: Seq<IssueView>, xs: Seq<IssueView>) -> Seq<IssueView>
    decreases xs.len(),
{
    if xs.len() == 0 {
        s
    } else {
        upsert_issues(upsert_issue(s, xs[0]), xs.drop_first())
    }
}

pub open spec fn upsert_milestones(s: Seq<MilestoneView>, xs: Seq<MilestoneView>) -> Seq<
    MilestoneView,
>
    decreases xs.len(),
{
    if xs.len() == 0 {
        s
    } else {
        upsert_milestones(upsert_milestone(s, xs[0]), xs.drop_first())
    }
}

pub open spec fn insert_steps(s: Seq<Step>, xs: Seq<Step>) -> Seq<Step>
    decreases xs.len(),
{
    if xs.len() == 0 {
        s
    } else {
        insert_steps(insert_step(s, xs[0]), xs.drop_first())
    }
}

pub open spec fn empty_plan() -> PlanView {
    PlanView { issues: Seq::empty(), milestones: Seq::empty(), steps: Seq::empty() }
}

pub open spec fn plan_add_issue(p: PlanView, x: IssueView) -> PlanView {
    PlanView {
        issues: upsert_issue(p.issues, x),
        milestones: p.milestones,
        steps: insert_step(p.steps, Step::Issue(x.id)),
    }
}

pub open spec fn plan_add_milestone(p: PlanView, m: MilestoneView) -> PlanView {
    PlanView {
        issues: p.issues,
        milestones: upsert_milestone(p.milestones, m),
        steps: insert_step(p.steps, Step::Milestone(m.id)),
    }
}

/// Adds issues one after another, in order.
pub open spec fn plan_add_issues(p: PlanView, xs: Seq<IssueView>) -> PlanView
    decreases xs.len(),
{
    if xs.len() == 0 {
        p
    } else {
        plan_add_issues(plan_add_issue(p, xs[0]), xs.drop_first())
    }
}

/// Union of two plans: the second plan's entries are inserted into the first, in order.
pub open spec fn plan_merge(p: PlanView, q: PlanView) -> PlanView {
    PlanView {
        issues: upsert_issues(p.issues, q.issues),
        milestones: upsert_milestones(p.milestones, q.milestones),
        steps: insert_steps(p.steps, q.steps),
    }
}

/// No two issues share an identifier.
pub open spec fn issue_ids_unique(s: Seq<IssueView>) -> bool {
    forall|i: int, j: int| 0 <= i < j < s.len() ==> s[i].id != s[j].id
}

/// No two milestones share an identifier.
pub open spec fn milestone_ids_unique(s: Seq<MilestoneView>) -> bool {
    forall|i: int, j: int| 0 <= i < j < s.len() ==> s[i].id != s[j].id
}

/// A plan maps each identifier to at most one issue and one milestone, and lists each step once.
pub open spec fn plan_wf(p: PlanView) -> bool {
    &&& plan_keys_wf(p)
    &&& links_resolve(p)
}

/// Identifiers are unique, and the steps are one per issue and one per milestone.
pub open spec fn plan_keys_wf(p: PlanView) -> bool {
    &&& issue_ids_unique(p.issues)
    &&& milestone_ids_unique(p.milestones)
    &&& p.steps.no_duplicates()
    &&& steps_match_keys(p)
}

/// The sub-issues and the parent of an issue are among `keys`.
pub open spec fn issue_refs_within(x: IssueView, keys: Seq<u64>) -> bool {
    &&& forall|j: int| 0 <= j < x.subissues.len() ==> keys.contains(#[trigger] x.subissues[j])
    &&& (x.parent_id matches Some(q) ==> keys.contains(q))
}

pub open spec fn all_within(s: Seq<IssueView>, keys: Seq<u64>) -> bool {
    forall|i: int| 0 <= i < s.len() ==> issue_refs_within(#[trigger] s[i], keys)
}

/// The issues a milestone needs are among `keys`.
pub open spec fn milestone_refs_within(m: MilestoneView, keys: Seq<u64>) -> bool {
    forall|j: int| 0 <= j < m.needed_issues.len() ==> keys.contains(#[trigger] m.needed_issues[j])
}

pub open spec fn milestones_within(s: Seq<MilestoneView>, keys: Seq<u64>) -> bool {
    forall|i: int| 0 <= i < s.len() ==> milestone_refs_within(#[trigger] s[i], keys)
}

/// Every identifier that an issue's sub-issues or parent, or a milestone's needed issues,
/// refers to is the identifier of an issue of the plan.
pub open spec fn links_resolve(p: PlanView) -> bool {
    &&& all_within(p.issues, issue_keys(p.issues))
    &&& milestones_within(p.milestones, issue_keys(p.issues))
}

/// Every identifier of `a` is one of `b`.
pub open spec fn keys_subset(a: Seq<u64>, b: Seq<u64>) -> bool {
    forall|id: u64| #[trigger] a.contains(id) ==> b.contains(id)
}

pub proof fn lemma_within_mono(s: Seq<IssueView>, k1: Seq<u64>, k2: Seq<u64>)
    requires
        all_within(s, k1),
        keys_subset(k1, k2),
    ensures
        all_within(s, k2),
{
    assert forall|i: int| 0 <= i < s.len() implies issue_refs_within(#[trigger] s[i], k2) by {
        assert(issue_refs_within(s[i], k1));
        assert forall|j: int| 0 <= j < s[i].subissues.len() implies k2.contains(#[trigger] s[i].subissues[j]) by {
            assert(k1.contains(s[i].subissues[j]));
        }
        if s[i].parent_id is Some {
            assert(k1.contains(s[i].parent_id->0));
        }
    }
}

pub proof fn lemma_milestones_within_mono(s: Seq<MilestoneView>, k1: Seq<u64>, k2: Seq<u64>)
    requires
        milestones_within(s, k1),
        keys_subset(k1, k2),
    ensures
        milestones_within(s, k2),
{
    assert forall|i: int| 0 <= i < s.len() implies milestone_refs_within(#[trigger] s[i], k2) by {
        assert(milestone_refs_within(s[i], k1));
        assert forall|j: int| 0 <= j < s[i].needed_issues.len() implies k2.contains(#[trigger] s[i].needed_issues[j]) by {
            assert(k1.contains(s[i].needed_issues[j]));
        }
    }
}

pub proof fn lemma_upsert_within(s: Seq<IssueView>, x: IssueView, k: Seq<u64>)
    requires
        all_within(s, k),
        issue_refs_within(x, k),
    ensures
        all_within(upsert_issue(s, x), k),
{
    let t = upsert_issue(s, x);
    lemma_issue_index(s, x.id, 0);
    assert forall|i: int| 0 <= i < t.len() implies issue_refs_within(#[trigger] t[i], k) by {
        if i < s.len() && t[i] != x {
            assert(t[i] == s[i]);
        }
    }
}

pub proof fn lemma_upserts_within(s: Seq<IssueView>, xs: Seq<IssueView>, k: Seq<u64>)
    requires
        all_within(s, k),
        all_within(xs, k),
    ensures
        all_within(upsert_issues(s, xs), k),
    decreases xs.len(),
{
    if xs.len() > 0 {
        assert(issue_refs_within(xs[0], k));
        lemma_upsert_within(s, xs[0], k);
        let rest = xs.drop_first();
        assert forall|i: int| 0 <= i < rest.len() implies issue_refs_within(#[trigger] rest[i], k) by {
            assert(rest[i] == xs[i + 1]);
        }
        lemma_upserts_within(upsert_issue(s, xs[0]), rest, k);
    }
}

pub proof fn lemma_upsert_milestone_within(s: Seq<MilestoneView>, x: MilestoneView, k: Seq<u64>)
    requires
        milestones_within(s, k),
        milestone_refs_within(x, k),
    ensures
        milestones_within(upsert_milestone(s, x), k),
{
    let t = upsert_milestone(s, x);
    lemma_milestone_index(s, x.id, 0);
    assert forall|i: int| 0 <= i < t.len() implies milestone_refs_within(#[trigger] t[i], k) by {
        if i < s.len() && t[i] != x {
            assert(t[i] == s[i]);
        }
    }
}

proof fn lemma_upsert_milestones_within(s: Seq<MilestoneView>, xs: Seq<MilestoneView>, k: Seq<u64>)
    requires
        milestones_within(s, k),
        milestones_within(xs, k),
    ensures
        milestones_within(upsert_milestones(s, xs), k),
    decreases xs.len(),
{
    if xs.len() > 0 {
        assert(milestone_refs_within(xs[0], k));
        lemma_upsert_milestone_within(s, xs[0], k);
        let rest = xs.drop_first();
        assert forall|i: int| 0 <= i < rest.len() implies milestone_refs_within(#[trigger] rest[i], k) by {
            assert(rest[i] == xs[i + 1]);
        }
        lemma_upsert_milestones_within(upsert_milestone(s, xs[0]), rest, k);
    }
}

/// Adding issues one by one upserts them into the issues and leaves the milestones.
pub proof fn lemma_add_issues_parts(p: PlanView, xs: Seq<IssueView>)
    ensures
        plan_add_issues(p, xs).issues == upsert_issues(p.issues, xs),
        plan_add_issues(p, xs).milestones == p.milestones,
    decreases xs.len(),
{
    if xs.len() > 0 {
        lemma_add_issues_parts(plan_add_issue(p, xs[0]), xs.drop_first());
    }
}

/// The identifiers after upserting `xs` are those before and those of `xs`.
pub proof fn lemma_upserts_keys_union(s: Seq<IssueView>, xs: Seq<IssueView>)
    ensures
        keys_subset(issue_keys(upsert_issues(s, xs)), issue_keys(s) + issue_keys(xs)),
        keys_subset(issue_keys(s) + issue_keys(xs), issue_keys(upsert_issues(s, xs))),
        keys_subset(issue_keys(s), issue_keys(upsert_issues(s, xs))),
{
    lemma_upsert_issues_keys(s, xs);
    let a = issue_keys(s);
    let b = issue_keys(xs);
    assert forall|id: u64| #[trigger] (a + b).contains(id) <==> (a.contains(id) || b.contains(id)) by {
        if (a + b).contains(id) {
            let t = choose|t: int| 0 <= t < (a + b).len() && (a + b)[t] == id;
            if t < a.len() {
                assert(a[t] == id);
            } else {
                assert(b[t - a.len()] == id);
            }
        }
        if a.contains(id) {
            let t = choose|t: int| 0 <= t < a.len() && a[t] == id;
            assert((a + b)[t] == id);
        }
        if b.contains(id) {
            let t = choose|t: int| 0 <= t < b.len() && b[t] == id;
            assert((a + b)[a.len() + t] == id);
        }
    }
}

pub open spec fn issue_keys(s: Seq<IssueView>) -> Seq<u64> {
    s.map_values(|i: IssueView| i.id)
}

pub open spec fn milestone_keys(s: Seq<MilestoneView>) -> Seq<u64> {
    s.map_values(|m: MilestoneView| m.id)
}

/// The steps are one step per issue and one per milestone: an issue step for exactly
/// the issue identifiers, a milestone step for exactly the milestone identifiers.
pub open spec fn steps_match_keys(p: PlanView) -> bool {
    &&& forall|id: u64| #[trigger] p.steps.contains(Step::Issue(id)) <==> issue_keys(p.issues).contains(id)
    &&& forall|id: u64|
        #[trigger] p.steps.contains(Step::Milestone(id)) <==> milestone_keys(p.milestones).contains(id)
}

proof fn lemma_upsert_issue_keys(s: Seq<IssueView>, x: IssueView)
    ensures
        issue_keys(upsert_issue(s, x)) == seq_set_insert(issue_keys(s), x.id),
{
    lemma_issue_index(s, x.id, 0);
    let i = issue_index(s, x.id, 0);
    if i >= 0 {
        assert(issue_keys(s)[i] == x.id);
        assert(issue_keys(upsert_issue(s, x)) =~= issue_keys(s));
    } else {
        assert(!issue_keys(s).contains(x.id)) by {
            if issue_keys(s).contains(x.id) {
                let j = choose|j: int| 0 <= j < issue_keys(s).len() && issue_keys(s)[j] == x.id;
                assert(s[j].id == x.id);
            }
        }
        assert(issue_keys(upsert_issue(s, x)) =~= issue_keys(s).push(x.id));
    }
}

proof fn lemma_upsert_milestone_keys(s: Seq<MilestoneView>, x: MilestoneView)
    ensures
        milestone_keys(upsert_milestone(s, x)) == seq_set_insert(milestone_keys(s), x.id),
{
    lemma_milestone_index(s, x.id, 0);
    let i = milestone_index(s, x.id, 0);
    if i >= 0 {
        assert(milestone_keys(s)[i] == x.id);
        assert(milestone_keys(upsert_milestone(s, x)) =~= milestone_keys(s));
    } else {
        assert(!milestone_keys(s).contains(x.id)) by {
            if milestone_keys(s).contains(x.id) {
                let j = choose|j: int| 0 <= j < milestone_keys(s).len() && milestone_keys(s)[j] == x.id;
                assert(s[j].id == x.id);
            }
        }
        assert(milestone_keys(upsert_milestone(s, x)) =~= milestone_keys(s).push(x.id));
    }
}

pub proof fn lemma_set_insert_contains(s: Seq<u64>, x: u64, y: u64)
    ensures
        seq_set_insert(s, x).contains(y) <==> (s.contains(y) || y == x),
{
    if !s.contains(x) {
        let t = s.push(x);
        if t.contains(y) && !s.contains(y) && y != x {
            let k = choose|k: int| 0 <= k < t.len() && t[k] == y;
            if k < s.len() {
                assert(s[k] == y);
            }
        }
        if s.contains(y) {
            let k = choose|k: int| 0 <= k < s.len() && s[k] == y;
            assert(t[k] == y);
        }
        if y == x {
            assert(t[s.len() as int] == y);
        }
    }
}

proof fn lemma_insert_step_contains(s: Seq<Step>, x: Step, y: Step)
    ensures
        insert_step(s, x).contains(y) <==> (s.contains(y) || y == x),
{
    if !s.contains(x) {
        let t = s.push(x);
        if t.contains(y) && !s.contains(y) && y != x {
            let k = choose|k: int| 0 <= k < t.len() && t[k] == y;
            if k < s.len() {
                assert(s[k] == y);
            }
        }
        if s.contains(y) {
            let k = choose|k: int| 0 <= k < s.len() && s[k] == y;
            assert(t[k] == y);
        }
        if y == x {
            assert(t[s.len() as int] == y);
        }
    }
}

proof fn lemma_first_rest<T>(xs: Seq<T>, y: T)
    requires
        xs.len() > 0,
    ensures
        xs.contains(y) <==> (xs[0] == y || xs.drop_first().contains(y)),
{
    if xs.contains(y) && xs[0] != y {
        let j = choose|j: int| 0 <= j < xs.len() && xs[j] == y;
        assert(xs.drop_first()[j - 1] == y);
    }
    if xs.drop_first().contains(y) {
        let j = choose|j: int| 0 <= j < xs.drop_first().len() && xs.drop_first()[j] == y;
        assert(xs[j + 1] == y);
    }
    if xs[0] == y {
        assert(xs[0] == y);
    }
}

proof fn lemma_upsert_issues_keys(s: Seq<IssueView>, xs: Seq<IssueView>)
    ensures
        forall|id: u64| #[trigger] issue_keys(upsert_issues(s, xs)).contains(id) <==> (issue_keys(s).contains(id) || issue_keys(xs).contains(id)),
    decreases xs.len(),
{
    if xs.len() > 0 {
        let s1 = upsert_issue(s, xs[0]);
        let rest = xs.drop_first();
        lemma_upsert_issue_keys(s, xs[0]);
        lemma_upsert_issues_keys(s1, rest);
        assert(issue_keys(rest) =~= issue_keys(xs).drop_first());
        assert(upsert_issues(s, xs) == upsert_issues(s1, rest));
        assert forall|id: u64| #[trigger] issue_keys(upsert_issues(s, xs)).contains(id) <==> (issue_keys(s).contains(id) || issue_keys(xs).contains(id)) by {
            assert(issue_keys(upsert_issues(s1, rest)).contains(id) <==> (issue_keys(s1).contains(id) || issue_keys(rest).contains(id)));
            lemma_set_insert_contains(issue_keys(s), xs[0].id, id);
            assert(issue_keys(xs)[0] == xs[0].id);
            lemma_first_rest(issue_keys(xs), id);
        }
    }
}

proof fn lemma_upsert_milestones_keys(s: Seq<MilestoneView>, xs: Seq<MilestoneView>)
    ensures
        forall|id: u64| #[trigger] milestone_keys(upsert_milestones(s, xs)).contains(id) <==> (milestone_keys(s).contains(id) || milestone_keys(xs).contains(id)),
    decreases xs.len(),
{
    if xs.len() > 0 {
        let s1 = upsert_milestone(s, xs[0]);
        let rest = xs.drop_first();
        lemma_upsert_milestone_keys(s, xs[0]);
        lemma_upsert_milestones_keys(s1, rest);
        assert(milestone_keys(rest) =~= milestone_keys(xs).drop_first());
        assert(upsert_milestones(s, xs) == upsert_milestones(s1, rest));
        assert forall|id: u64| #[trigger] milestone_keys(upsert_milestones(s, xs)).contains(id) <==> (milestone_keys(s).contains(id) || milestone_keys(xs).contains(id)) by {
            assert(milestone_keys(upsert_milestones(s1, rest)).contains(id) <==> (milestone_keys(s1).contains(id) || milestone_keys(rest).contains(id)));
            lemma_set_insert_contains(milestone_keys(s), xs[0].id, id);
            assert(milestone_keys(xs)[0] == xs[0].id);
            lemma_first_rest(milestone_keys(xs), id);
        }
    }
}

proof fn lemma_insert_steps_contains(s: Seq<Step>, xs: Seq<Step>)
    ensures
        forall|x: Step| #[trigger] insert_steps(s, xs).contains(x) <==> (s.contains(x) || xs.contains(x)),
    decreases xs.len(),
{
    if xs.len() > 0 {
        let s1 = insert_step(s, xs[0]);
        let rest = xs.drop_first();
        lemma_insert_steps_contains(s1, rest);
        assert(insert_steps(s, xs) == insert_steps(s1, rest));
        assert forall|x: Step| #[trigger] insert_steps(s, xs).contains(x) <==> (s.contains(x) || xs.contains(x)) by {
            assert(insert_steps(s1, rest).contains(x) <==> (s1.contains(x) || rest.contains(x)));
            lemma_insert_step_contains(s, xs[0], x);
            lemma_first_rest(xs, x);
        }
    }
}

/// Inserting issues none of whose identifiers is taken, each once, appends them.
proof fn lemma_upsert_issues_fresh(s: Seq<IssueView>, xs: Seq<IssueView>)
    requires
        issue_ids_unique(xs),
        forall|j: int| 0 <= j < xs.len() ==> !issue_keys(s).contains(#[trigger] xs[j].id),
    ensures
        upsert_issues(s, xs) == s + xs,
    decreases xs.len(),
{
    if xs.len() == 0 {
        assert(s + xs =~= s);
    } else {
        lemma_issue_index(s, xs[0].id, 0);
        assert(issue_index(s, xs[0].id, 0) == -1) by {
            let i = issue_index(s, xs[0].id, 0);
            if i >= 0 {
                assert(issue_keys(s)[i] == xs[0].id);
            }
        }
        let s1 = s.push(xs[0]);
        let rest = xs.drop_first();
        assert forall|j: int| 0 <= j < rest.len() implies !issue_keys(s1).contains(#[trigger] rest[j].id) by {
            assert(rest[j] == xs[j + 1]);
            if issue_keys(s1).contains(rest[j].id) {
                let t = choose|t: int| 0 <= t < issue_keys(s1).len() && issue_keys(s1)[t] == rest[j].id;
                if t < s.len() {
                    assert(issue_keys(s)[t] == rest[j].id);
                }
            }
        }
        lemma_upsert_issues_fresh(s1, rest);
        assert(s1 + rest =~= s + xs);
    }
}

proof fn lemma_upsert_milestones_fresh(s: Seq<MilestoneView>, xs: Seq<MilestoneView>)
    requires
        milestone_ids_unique(xs),
        forall|j: int| 0 <= j < xs.len() ==> !milestone_keys(s).contains(#[trigger] xs[j].id),
    ensures
        upsert_milestones(s, xs) == s + xs,
    decreases xs.len(),
{
    if xs.len() == 0 {
        assert(s + xs =~= s);
    } else {
        lemma_milestone_index(s, xs[0].id, 0);
        assert(milestone_index(s, xs[0].id, 0) == -1) by {
            let i = milestone_index(s, xs[0].id, 0);
            if i >= 0 {
                assert(milestone_keys(s)[i] == xs[0].id);
            }
        }
        let s1 = s.push(xs[0]);
        let rest = xs.drop_first();
        assert forall|j: int| 0 <= j < rest.len() implies !milestone_keys(s1).contains(#[trigger] rest[j].id) by {
            assert(rest[j] == xs[j + 1]);
            if milestone_keys(s1).contains(rest[j].id) {
                let t = choose|t: int| 0 <= t < milestone_keys(s1).len() && milestone_keys(s1)[t] == rest[j].id;
                if t < s.len() {
                    assert(milestone_keys(s)[t] == rest[j].id);
                }
            }
        }
        lemma_upsert_milestones_fresh(s1, rest);
        assert(s1 + rest =~= s + xs);
    }
}

proof fn lemma_insert_steps_fresh(s: Seq<Step>, xs: Seq<Step>)
    requires
        xs.no_duplicates(),
        forall|j: int| 0 <= j < xs.len() ==> !s.contains(#[trigger] xs[j]),
    ensures
        insert_steps(s, xs) == s + xs,
    decreases xs.len(),
{
    if xs.len() == 0 {
        assert(s + xs =~= s);
    } else {
        let s1 = s.push(xs[0]);
        let rest = xs.drop_first();
        assert forall|j: int| 0 <= j < rest.len() implies !s1.contains(#[trigger] rest[j]) by {
            assert(rest[j] == xs[j + 1]);
            if s1.contains(rest[j]) {
                let t = choose|t: int| 0 <= t < s1.len() && s1[t] == rest[j];
                if t < s.len() {
                    assert(s[t] == rest[j]);
                }
            }
        }
        lemma_insert_steps_fresh(s1, rest);
        assert(s1 + rest =~= s + xs);
    }
}

/// Merging two well-formed plans that share no issue and no milestone identifier
/// keeps every entry: the first plan's issues, milestones and steps, then the second's.
pub proof fn lemma_merge_disjoint(p: PlanView, q: PlanView)
    requires
        plan_wf(p),
        plan_wf(q),
        first_shared_issue(p.issues, q.issues, 0) == -1,
        first_shared_milestone(p.milestones, q.milestones, 0) == -1,
    ensures
        plan_merge(p, q).issues == p.issues + q.issues,
        plan_merge(p, q).milestones == p.milestones + q.milestones,
        plan_merge(p, q).steps == p.steps + q.steps,
{
    lemma_first_shared_issue(p.issues, q.issues, 0);
    lemma_first_shared_milestone(p.milestones, q.milestones, 0);
    assert forall|j: int| 0 <= j < q.issues.len() implies !issue_keys(p.issues).contains(#[trigger] q.issues[j].id) by {
        assert(issue_index(p.issues, q.issues[j].id, 0) == -1);
        lemma_issue_index(p.issues, q.issues[j].id, 0);
        if issue_keys(p.issues).contains(q.issues[j].id) {
            let t = choose|t: int| 0 <= t < issue_keys(p.issues).len() && issue_keys(p.issues)[t] == q.issues[j].id;
            assert(p.issues[t].id == q.issues[j].id);
        }
    }
    assert forall|j: int| 0 <= j < q.milestones.len() implies !milestone_keys(p.milestones).contains(#[trigger] q.milestones[j].id) by {
        assert(milestone_index(p.milestones, q.milestones[j].id, 0) == -1);
        lemma_milestone_index(p.milestones, q.milestones[j].id, 0);
        if milestone_keys(p.milestones).contains(q.milestones[j].id) {
            let t = choose|t: int| 0 <= t < milestone_keys(p.milestones).len() && milestone_keys(p.milestones)[t] == q.milestones[j].id;
            assert(p.milestones[t].id == q.milestones[j].id);
        }
    }
    lemma_upsert_issues_fresh(p.issues, q.issues);
    lemma_upsert_milestones_fresh(p.milestones, q.milestones);
    assert forall|j: int| 0 <= j < q.steps.len() implies !p.steps.contains(#[trigger] q.steps[j]) by {
        assert(q.steps.contains(q.steps[j]));
        match q.steps[j] {
            Step::Issue(id) => {
                assert(q.steps.contains(Step::Issue(id)));
                assert(issue_keys(q.issues).contains(id));
                let t = choose|t: int| 0 <= t < issue_keys(q.issues).len() && issue_keys(q.issues)[t] == id;
                assert(q.issues[t].id == id);
            },
            Step::Milestone(id) => {
                assert(q.steps.contains(Step::Milestone(id)));
                assert(milestone_keys(q.milestones).contains(id));
                let t = choose|t: int| 0 <= t < milestone_keys(q.milestones).len() && milestone_keys(q.milestones)[t] == id;
                assert(q.milestones[t].id == id);
            },
        }
    }
    lemma_insert_steps_fresh(p.steps, q.steps);
}

pub proof fn lemma_upsert_issue_unique(s: Seq<IssueView>, x: IssueView)
    requires
        issue_ids_unique(s),
    ensures
        issue_ids_unique(upsert_issue(s, x)),
{
    lemma_issue_index(s, x.id, 0);
}

pub proof fn lemma_upsert_milestone_unique(s: Seq<MilestoneView>, x: MilestoneView)
    requires
        milestone_ids_unique(s),
    ensures
        milestone_ids_unique(upsert_milestone(s, x)),
{
    lemma_milestone_index(s, x.id, 0);
}

pub proof fn lemma_plan_add_issue_wf(p: PlanView, x: IssueView)
    requires
        plan_keys_wf(p),
    ensures
        plan_keys_wf(plan_add_issue(p, x)),
{
    lemma_upsert_issue_unique(p.issues, x);
    lemma_upsert_issue_keys(p.issues, x);
    let q = plan_add_issue(p, x);
    assert forall|id: u64| #[trigger] q.steps.contains(Step::Issue(id)) <==> issue_keys(q.issues).contains(id) by {
        lemma_insert_step_contains(p.steps, Step::Issue(x.id), Step::Issue(id));
        lemma_set_insert_contains(issue_keys(p.issues), x.id, id);
    }
    assert forall|id: u64| #[trigger] q.steps.contains(Step::Milestone(id)) <==> milestone_keys(q.milestones).contains(id) by {
        lemma_insert_step_contains(p.steps, Step::Issue(x.id), Step::Milestone(id));
    }
}

pub proof fn lemma_plan_add_milestone_wf(p: PlanView, m: MilestoneView)
    requires
        plan_keys_wf(p),
    ensures
        plan_keys_wf(plan_add_milestone(p, m)),
{
    lemma_upsert_milestone_unique(p.milestones, m);
    lemma_upsert_milestone_keys(p.milestones, m);
    let q = plan_add_milestone(p, m);
    assert forall|id: u64| #[trigger] q.steps.contains(Step::Milestone(id)) <==> milestone_keys(q.milestones).contains(id) by {
        lemma_insert_step_contains(p.steps, Step::Milestone(m.id), Step::Milestone(id));
        lemma_set_insert_contains(milestone_keys(p.milestones), m.id, id);
    }
    assert forall|id: u64| #[trigger] q.steps.contains(Step::Issue(id)) <==> issue_keys(q.issues).contains(id) by {
        lemma_insert_step_contains(p.steps, Step::Milestone(m.id), Step::Issue(id));
    }
}

pub proof fn lemma_plan_add_issues_wf(p: PlanView, xs: Seq<IssueView>)
    requires
        plan_keys_wf(p),
    ensures
        plan_keys_wf(plan_add_issues(p, xs)),
    decreases xs.len(),
{
    if xs.len() > 0 {
        lemma_plan_add_issue_wf(p, xs[0]);
        lemma_plan_add_issues_wf(plan_add_issue(p, xs[0]), xs.drop_first());
    }
}

proof fn lemma_plan_merge_wf_parts(p: PlanView, q: PlanView)
    requires
        plan_keys_wf(p),
        plan_keys_wf(q),
    ensures
        plan_keys_wf(plan_merge(p, q)),
{
    lemma_upsert_issues_unique(p.issues, q.issues);
    lemma_upsert_milestones_unique(p.milestones, q.milestones);
    lemma_insert_steps_unique(p.steps, q.steps);
    lemma_upsert_issues_keys(p.issues, q.issues);
    lemma_upsert_milestones_keys(p.milestones, q.milestones);
    lemma_insert_steps_contains(p.steps, q.steps);
    let r = plan_merge(p, q);
    assert forall|id: u64| #[trigger] r.steps.contains(Step::Issue(id)) <==> issue_keys(r.issues).contains(id) by {
        assert(insert_steps(p.steps, q.steps).contains(Step::Issue(id)) <==> (p.steps.contains(Step::Issue(id)) || q.steps.contains(Step::Issue(id))));
        assert(issue_keys(upsert_issues(p.issues, q.issues)).contains(id) <==> (issue_keys(p.issues).contains(id) || issue_keys(q.issues).contains(id)));
    }
    assert forall|id: u64| #[trigger] r.steps.contains(Step::Milestone(id)) <==> milestone_keys(r.milestones).contains(id) by {
        assert(insert_steps(p.steps, q.steps).contains(Step::Milestone(id)) <==> (p.steps.contains(Step::Milestone(id)) || q.steps.contains(Step::Milestone(id))));
        assert(milestone_keys(upsert_milestones(p.milestones, q.milestones)).contains(id) <==> (milestone_keys(p.milestones).contains(id) || milestone_keys(q.milestones).contains(id)));
    }
}

proof fn lemma_upsert_issues_unique(s: Seq<IssueView>, xs: Seq<IssueView>)
    requires
        issue_ids_unique(s),
    ensures
        issue_ids_unique(upsert_issues(s, xs)),
    decreases xs.len(),
{
    if xs.len() > 0 {
        lemma_upsert_issue_unique(s, xs[0]);
        lemma_upsert_issues_unique(upsert_issue(s, xs[0]), xs.drop_first());
    }
}

proof fn lemma_upsert_milestones_unique(s: Seq<MilestoneView>, xs: Seq<MilestoneView>)
    requires
        milestone_ids_unique(s),
    ensures
        milestone_ids_unique(upsert_milestones(s, xs)),
    decreases xs.len(),
{
    if xs.len() > 0 {
        lemma_upsert_milestone_unique(s, xs[0]);
        lemma_upsert_milestones_unique(upsert_milestone(s, xs[0]), xs.drop_first());
    }
}

proof fn lemma_insert_steps_unique(s: Seq<Step>, xs: Seq<Step>)
    requires
        s.no_duplicates(),
    ensures
        insert_steps(s, xs).no_duplicates(),
    decreases xs.len(),
{
    if xs.len() > 0 {
        lemma_insert_steps_unique(insert_step(s, xs[0]), xs.drop_first());
    }
}

/// The first position at or after `k` of an issue of `q` whose identifier is also the
/// identifier of an issue of `p`, or -1.
pub open spec fn first_shared_issue(p: Seq<IssueView>, q: Seq<IssueView>, k: int) -> int
    decreases q.len() - k,
{
    if k < 0 || k >= q.len() {
        -1
    } else if issue_index(p, q[k].id, 0) >= 0 {
        k
    } else {
        first_shared_issue(p, q, k + 1)
    }
}

/// The first position at or after `k` of a milestone of `q` whose identifier is also the
/// identifier of a milestone of `p`, or -1.
pub open spec fn first_shared_milestone(p: Seq<MilestoneView>, q: Seq<MilestoneView>, k: int) -> int
    decreases q.len() - k,
{
    if k < 0 || k >= q.len() {
        -1
    } else if milestone_index(p, q[k].id, 0) >= 0 {
        k
    } else {
        first_shared_milestone(p, q, k + 1)
    }
}

/// No identifier is shared (-1) exactly when no issue of `q` from `k` on has the
/// identifier of an issue of `p`; otherwise the position found holds a shared one.
pub proof fn lemma_first_shared_issue(p: Seq<IssueView>, q: Seq<IssueView>, k: int)
    requires
        0 <= k,
    ensures
        first_shared_issue(p, q, k) == -1 <==> (forall|j: int| k <= j < q.len() ==> issue_index(p, #[trigger] q[j].id, 0) == -1),
        first_shared_issue(p, q, k) != -1 ==> k <= first_shared_issue(p, q, k) < q.len() && issue_index(p, q[first_shared_issue(p, q, k)].id, 0) >= 0,
    decreases q.len() - k,
{
    if k < q.len() {
        lemma_first_shared_issue(p, q, k + 1);
        lemma_issue_index(p, q[k].id, 0);
    }
}

pub proof fn lemma_first_shared_milestone(p: Seq<MilestoneView>, q: Seq<MilestoneView>, k: int)
    requires
        0 <= k,
    ensures
        first_shared_milestone(p, q, k) == -1 <==> (forall|j: int| k <= j < q.len() ==> milestone_index(p, #[trigger] q[j].id, 0) == -1),
        first_shared_milestone(p, q, k) != -1 ==> k <= first_shared_milestone(p, q, k) < q.len() && milestone_index(p, q[first_shared_milestone(p, q, k)].id, 0) >= 0,
    decreases q.len() - k,
{
    if k < q.len() {
        lemma_first_shared_milestone(p, q, k + 1);
        lemma_milestone_index(p, q[k].id, 0);
    }
}

pub proof fn lemma_concat_subsets(a: Seq<u64>, b: Seq<u64>)
    ensures
        keys_subset(a, a + b),
        keys_subset(b, a + b),
{
    assert forall|id: u64| #[trigger] a.contains(id) implies (a + b).contains(id) by {
        let t = choose|t: int| 0 <= t < a.len() && a[t] == id;
        assert((a + b)[t] == id);
    }
    assert forall|id: u64| #[trigger] b.contains(id) implies (a + b).contains(id) by {
        let t = choose|t: int| 0 <= t < b.len() && b[t] == id;
        assert((a + b)[a.len() + t] == id);
    }
}

pub proof fn lemma_subset_trans(a: Seq<u64>, b: Seq<u64>, c: Seq<u64>)
    requires
        keys_subset(a, b),
        keys_subset(b, c),
    ensures
        keys_subset(a, c),
{
    assert forall|id: u64| #[trigger] a.contains(id) implies c.contains(id) by {
        assert(b.contains(id));
    }
}

pub proof fn lemma_plan_add_issue_full(p: PlanView, x: IssueView)
    requires
        plan_wf(p),
        issue_refs_within(x, issue_keys(p.issues).push(x.id)),
    ensures
        plan_wf(plan_add_issue(p, x)),
{
    lemma_plan_add_issue_wf(p, x);
    lemma_upsert_issue_keys(p.issues, x);
    let k0 = issue_keys(p.issues);
    let k1 = issue_keys(upsert_issue(p.issues, x));
    assert forall|id: u64| #[trigger] k0.push(x.id).contains(id) implies k1.contains(id) by {
        lemma_set_insert_contains(k0, x.id, id);
        if id != x.id {
            let t = choose|t: int| 0 <= t < k0.push(x.id).len() && k0.push(x.id)[t] == id;
            assert(k0[t] == id);
        }
    }
    assert forall|id: u64| #[trigger] k0.contains(id) implies k1.contains(id) by {
        lemma_set_insert_contains(k0, x.id, id);
    }
    lemma_within_mono(p.issues, k0, k1);
    lemma_within_mono(seq![x], k0.push(x.id), k1);
    assert(issue_refs_within(seq![x][0], k1));
    lemma_upsert_within(p.issues, x, k1);
    lemma_milestones_within_mono(p.milestones, k0, k1);
}

pub proof fn lemma_plan_add_milestone_full(p: PlanView, m: MilestoneView)
    requires
        plan_wf(p),
        milestone_refs_within(m, issue_keys(p.issues)),
    ensures
        plan_wf(plan_add_milestone(p, m)),
{
    lemma_plan_add_milestone_wf(p, m);
    lemma_upsert_milestone_within(p.milestones, m, issue_keys(p.issues));
}

pub proof fn lemma_plan_add_issues_full(p: PlanView, xs: Seq<IssueView>)
    requires
        plan_wf(p),
        all_within(xs, issue_keys(p.issues) + issue_keys(xs)),
    ensures
        plan_wf(plan_add_issues(p, xs)),
{
    lemma_plan_add_issues_wf(p, xs);
    lemma_add_issues_parts(p, xs);
    lemma_upserts_keys_union(p.issues, xs);
    let k0 = issue_keys(p.issues);
    let k1 = issue_keys(upsert_issues(p.issues, xs));
    lemma_within_mono(p.issues, k0, k1);
    lemma_within_mono(xs, k0 + issue_keys(xs), k1);
    lemma_upserts_within(p.issues, xs, k1);
    lemma_milestones_within_mono(p.milestones, k0, k1);
}

proof fn lemma_plan_merge_full(p: PlanView, q: PlanView)
    requires
        plan_wf(p),
        plan_wf(q),
    ensures
        plan_wf(plan_merge(p, q)),
{
    lemma_plan_merge_wf_parts(p, q);
    lemma_upserts_keys_union(p.issues, q.issues);
    let kp = issue_keys(p.issues);
    let kq = issue_keys(q.issues);
    let k1 = issue_keys(upsert_issues(p.issues, q.issues));
    lemma_concat_subsets(kp, kq);
    lemma_subset_trans(kq, kp + kq, k1);
    lemma_within_mono(p.issues, kp, k1);
    lemma_within_mono(q.issues, kq, k1);
    lemma_upserts_within(p.issues, q.issues, k1);
    lemma_milestones_within_mono(p.milestones, kp, k1);
    lemma_milestones_within_mono(q.milestones, kq, k1);
    lemma_upsert_milestones_within(p.milestones, q.milestones, k1);
}

/// The issues, milestones and document-order steps of one project.
#[derive(Debug)]
pub struct Plan {
    issues: Vec<Issue>,
    milestones: Vec<Milestone>,
    steps: Vec<Step>,
}

impl View for Plan {
    type V = PlanView;

    closed spec fn view(&self) -> PlanView {
        PlanView {
            issues: issue_views(self.issues@),
            milestones: milestone_views(self.milestones@),
            steps: self.steps@,
        }
    }
}

pub(crate) fn find_issue_index(v: &Vec<Issue>, id: u64) -> (r: Option<usize>)
    ensures
        match r {
            Some(i) => i == issue_index(issue_views(v@), id, 0) && i < v@.len(),
            None => issue_index(issue_views(v@), id, 0) == -1,
        },
{
    let mut i: usize = 0;
    while i < v.len()
        invariant
            i <= v@.len(),
            issue_index(issue_views(v@), id, 0) == issue_index(issue_views(v@), id, i as int),
        decreases v@.len() - i,
    {
        if v[i].id == id {
            return Some(i);
        }
        i = i + 1;
    }
    None
}

fn find_milestone_index(v: &Vec<Milestone>, id: u64) -> (r: Option<usize>)
    ensures
        match r {
            Some(i) => i == milestone_index(milestone_views(v@), id, 0) && i < v@.len(),
            None => milestone_index(milestone_views(v@), id, 0) == -1,
        },
{
    let mut i: usize = 0;
    while i < v.len()
        invariant
            i <= v@.len(),
            milestone_index(milestone_views(v@), id, 0) == milestone_index(
                milestone_views(v@),
                id,
                i as int,
            ),
        decreases v@.len() - i,
    {
        if v[i].id == id {
            return Some(i);
        }
        i = i + 1;
    }
    None
}

fn contains_step(v: &Vec<Step>, x: Step) -> (r: bool)
    ensures
        r == v@.contains(x),
{
    let mut i: usize = 0;
    while i < v.len()
        invariant
            i <= v@.len(),
            forall|k: int| 0 <= k < i ==> v@[k] != x,
        decreases v@.len() - i,
    {
        if v[i] == x {
            assert(v@[i as int] == x);
            return true;
        }
        i = i + 1;
    }
    false
}

fn push_step(v: &mut Vec<Step>, x: Step)
    ensures
        final(v)@ == insert_step(old(v)@, x),
{
    if !contains_step(v, x) {
        v.push(x);
    }
}

fn upsert_issue_vec(v: &mut Vec<Issue>, x: Issue)
    ensures
        issue_views(final(v)@) == upsert_issue(issue_views(old(v)@), x@),
{
    let ghost xv = x@;
    match find_issue_index(v, x.id) {
        Some(i) => {
            v.set(i, x);
            assert(issue_views(v@) =~= issue_views(old(v)@).update(i as int, xv));
        },
        None => {
            v.push(x);
            assert(issue_views(v@) =~= issue_views(old(v)@).push(xv));
        },
    }
}

fn upsert_milestone_vec(v: &mut Vec<Milestone>, x: Milestone)
    ensures
        milestone_views(final(v)@) == upsert_milestone(milestone_views(old(v)@), x@),
{
    let ghost xv = x@;
    match find_milestone_index(v, x.id) {
        Some(i) => {
            v.set(i, x);
            assert(milestone_views(v@) =~= milestone_views(old(v)@).update(i as int, xv));
        },
        None => {
            v.push(x);
            assert(milestone_views(v@) =~= milestone_views(old(v)@).push(xv));
        },
    }
}

impl Plan {
    /// The plan's keys and steps are each unique.
    pub open spec fn wf(&self) -> bool {
        plan_wf(self@)
    }

    pub fn new() -> (r: Self)
        ensures
            r@ == empty_plan(),
            r.wf(),
    {
        let r = Plan { issues: Vec::new(), milestones: Vec::new(), steps: Vec::new() };
        assert(r@.issues =~= Seq::<IssueView>::empty());
        assert(r@.milestones =~= Seq::<MilestoneView>::empty());
        r
    }

    pub fn is_empty(&self) -> (r: bool)
        ensures
            r == (self@.issues.len() == 0 && self@.milestones.len() == 0 && self@.steps.len() == 0),
    {
        self.issues.len() == 0 && self.milestones.len() == 0 && self.steps.len() == 0
    }

    pub fn get_issue(&self, id: u64) -> (r: Option<&Issue>)
        ensures
            ({
                let i = issue_index(self@.issues, id, 0);
                &&& (i == -1 <==> r is None)
                &&& (r matches Some(x) ==> x@ == self@.issues[i])
            }),
    {
        match find_issue_index(&self.issues, id) {
            Some(i) => Some(&self.issues[i]),
            None => None,
        }
    }

    pub fn get_milestone(&self, id: u64) -> (r: Option<&Milestone>)
        ensures
            ({
                let i = milestone_index(self@.milestones, id, 0);
                &&& (i == -1 <==> r is None)
                &&& (r matches Some(x) ==> x@ == self@.milestones[i])
            }),
    {
        match find_milestone_index(&self.milestones, id) {
            Some(i) => Some(&self.milestones[i]),
            None => None,
        }
    }

    /// The steps, in document order.
    pub fn steps(&self) -> (r: &Vec<Step>)
        ensures
            r@ == self@.steps,
    {
        &self.steps
    }

    pub fn add_issue(&mut self, issue: Issue)
        ensures
            final(self)@ == plan_add_issue(old(self)@, issue@),
            old(self).wf() && issue_refs_within(issue@, issue_keys(old(self)@.issues).push(issue.id))
                ==> final(self).wf(),
    {
        proof {
            if old(self).wf() && issue_refs_within(issue@, issue_keys(old(self)@.issues).push(issue.id)) {
                lemma_plan_add_issue_full(old(self)@, issue@);
            }
        }
        push_step(&mut self.steps, Step::Issue(issue.id));
        upsert_issue_vec(&mut self.issues, issue);
    }

    pub fn add_milestone(&mut self, milestone: Milestone)
        ensures
            final(self)@ == plan_add_milestone(old(self)@, milestone@),
            old(self).wf() && milestone_refs_within(milestone@, issue_keys(old(self)@.issues))
                ==> final(self).wf(),
    {
        proof {
            if old(self).wf() && milestone_refs_within(milestone@, issue_keys(old(self)@.issues)) {
                lemma_plan_add_milestone_full(old(self)@, milestone@);
            }
        }
        push_step(&mut self.steps, Step::Milestone(milestone.id));
        upsert_milestone_vec(&mut self.milestones, milestone);
    }

    /// Adds the issues in order, emptying `issues`.
    pub fn add_issues(&mut self, issues: &mut Vec<Issue>)
        ensures
            final(self)@ == plan_add_issues(old(self)@, issue_views(old(issues)@)),
            final(issues)@.len() == 0,
            old(self).wf() && all_within(
                issue_views(old(issues)@),
                issue_keys(old(self)@.issues) + issue_keys(issue_views(old(issues)@)),
            ) ==> final(self).wf(),
    {
        proof {
            if old(self).wf() && all_within(
                issue_views(old(issues)@),
                issue_keys(old(self)@.issues) + issue_keys(issue_views(old(issues)@)),
            ) {
                lemma_plan_add_issues_full(old(self)@, issue_views(old(issues)@));
            }
        }
        while issues.len() > 0
            invariant
                plan_add_issues(self@, issue_views(issues@)) == plan_add_issues(
                    old(self)@,
                    issue_views(old(issues)@),
                ),
            decreases issues@.len(),
        {
            let ghost before = issue_views(issues@);
            let x = issues.remove(0);
            assert(issue_views(issues@) =~= before.drop_first());
            self.add_issue(x);
        }
    }

    /// The first issue with the given name.
    pub fn find_issue(&self, name: &str) -> (r: Option<&Issue>)
        ensures
            ({
                let i = issue_name_index(self@.issues, name@, 0);
                &&& (i == -1 <==> r is None)
                &&& (r matches Some(x) ==> x@ == self@.issues[i])
            }),
    {
        let target = String::from_str(name);
        let mut i: usize = 0;
        while i < self.issues.len()
            invariant
                i <= self.issues@.len(),
                target@ == name@,
                issue_name_index(self@.issues, name@, 0) == issue_name_index(
                    self@.issues,
                    name@,
                    i as int,
                ),
            decreases self.issues@.len() - i,
        {
            if self.issues[i].name == target {
                return Some(&self.issues[i]);
            }
            i = i + 1;
        }
        None
    }

    /// The identifier of the first issue of `other` that shares its identifier with an issue of `self`.
    pub fn first_issue_collision(&self, other: &Self) -> (r: Option<u64>)
        ensures
            ({
                let i = first_shared_issue(self@.issues, other@.issues, 0);
                &&& (i == -1 <==> r is None)
                &&& (i != -1 ==> r == Some(other@.issues[i].id))
            }),
    {
        let mut k: usize = 0;
        while k < other.issues.len()
            invariant
                k <= other.issues@.len(),
                first_shared_issue(self@.issues, other@.issues, 0) == first_shared_issue(
                    self@.issues,
                    other@.issues,
                    k as int,
                ),
            decreases other.issues@.len() - k,
        {
            let id = other.issues[k].id;
            if find_issue_index(&self.issues, id).is_some() {
                return Some(id);
            }
            k = k + 1;
        }
        None
    }

    /// The identifier of the first milestone of `other` that shares its identifier with a milestone of `self`.
    pub fn first_milestone_collision(&self, other: &Self) -> (r: Option<u64>)
        ensures
            ({
                let i = first_shared_milestone(self@.milestones, other@.milestones, 0);
                &&& (i == -1 <==> r is None)
                &&& (i != -1 ==> r == Some(other@.milestones[i].id))
            }),
    {
        let mut k: usize = 0;
        while k < other.milestones.len()
            invariant
                k <= other.milestones@.len(),
                first_shared_milestone(self@.milestones, other@.milestones, 0) == first_shared_milestone(
                    self@.milestones,
                    other@.milestones,
                    k as int,
                ),
            decreases other.milestones@.len() - k,
        {
            let id = other.milestones[k].id;
            if find_milestone_index(&self.milestones, id).is_some() {
                return Some(id);
            }
            k = k + 1;
        }
        None
    }

    /// The union of two plans, entry by entry: an issue or milestone of `other` with an
    /// identifier that `self` already has replaces that entry in place, and a step already
    /// listed is not listed again. Callers that must not let one side win test for shared
    /// identifiers first (`first_issue_collision`, `first_milestone_collision`); without
    /// shared identifiers nothing is replaced and the second plan follows the first.
    pub fn merge(self, other: Self) -> (r: Self)
        ensures
            r@ == plan_merge(self@, other@),
            self.wf() && other.wf() ==> r.wf(),
            self.wf() && other.wf() && first_shared_issue(self@.issues, other@.issues, 0) == -1
                && first_shared_milestone(self@.milestones, other@.milestones, 0) == -1 ==> r@.issues
                == self@.issues + other@.issues && r@.milestones == self@.milestones + other@.milestones
                && r@.steps == self@.steps + other@.steps,
    {
        proof {
            if self.wf() && other.wf() {
                lemma_plan_merge_full(self@, other@);
                if first_shared_issue(self@.issues, other@.issues, 0) == -1
                    && first_shared_milestone(self@.milestones, other@.milestones, 0) == -1 {
                    lemma_merge_disjoint(self@, other@);
                }
            }
        }
        let mut p = self;
        let mut q = other;
        let ghost p_start = p@;
        let ghost q_start = q@;
        while q.issues.len() > 0
            invariant
                upsert_issues(issue_views(p.issues@), issue_views(q.issues@)) == upsert_issues(
                    p_start.issues,
                    q_start.issues,
                ),
                milestone_views(p.milestones@) == p_start.milestones,
                milestone_views(q.milestones@) == q_start.milestones,
                p.steps@ == p_start.steps,
                q.steps@ == q_start.steps,
            decreases q.issues@.len(),
        {
            let ghost before = issue_views(q.issues@);
            let x = q.issues.remove(0);
            assert(issue_views(q.issues@) =~= before.drop_first());
            upsert_issue_vec(&mut p.issues, x);
        }
        while q.milestones.len() > 0
            invariant
                upsert_milestones(milestone_views(p.milestones@), milestone_views(q.milestones@))
                    == upsert_milestones(p_start.milestones, q_start.milestones),
                issue_views(p.issues@) == upsert_issues(p_start.issues, q_start.issues),
                p.steps@ == p_start.steps,
                q.steps@ == q_start.steps,
            decreases q.milestones@.len(),
        {
            let ghost before = milestone_views(q.milestones@);
            let x = q.milestones.remove(0);
            assert(milestone_views(q.milestones@) =~= before.drop_first());
            upsert_milestone_vec(&mut p.milestones, x);
        }
        assert(q.steps@.subrange(0, q.steps@.len() as int) =~= q.steps@);
        let mut i: usize = 0;
        while i < q.steps.len()
            invariant
                i <= q.steps@.len(),
                q.steps@ == q_start.steps,
                issue_views(p.issues@) == upsert_issues(p_start.issues, q_start.issues),
                milestone_views(p.milestones@) == upsert_milestones(p_start.milestones, q_start.milestones),
                insert_steps(p.steps@, q.steps@.subrange(i as int, q.steps@.len() as int))
                    == insert_steps(p_start.steps, q_start.steps),
            decreases q.steps@.len() - i,
        {
            let ghost rest = q.steps@.subrange(i as int, q.steps@.len() as int);
            assert(rest.drop_first() =~= q.steps@.subrange(i + 1, q.steps@.len() as int));
            push_step(&mut p.steps, q.steps[i]);
            i = i + 1;
        }
        assert(q.steps@.subrange(i as int, q.steps@.len() as int) =~= Seq::<Step>::empty());
        p
    }
}

} // verus!
