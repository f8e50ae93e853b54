//! Reading plans from the lines of their source files.
use vstd::prelude::*;

use crate::block::{
    block_lines, block_lines_spec, block_of, is_fence_line, is_marker_line, numbered, numbered_spec,
    numbered_views, scan_line, scan_state, string_views, BlockScan, MD_BLOCK_END,
    MD_BLOCK_START,
};
use crate::document::{
    is_plain_line, joined_lines, lemma_lines_concat, lemma_lines_final_newline, lemma_lines_joined,
    lemma_no_marker_line, marker_line_from, spliced_text,
};
use crate::parse::{run, step};
use crate::save::{lines_from, with_final_newline};
use crate::text::{trim_end, ws_run};
use crate::config::FsProjectConfig;
use crate::generator::{IdGenerator, IntIdGenerator};
use crate::parse::{lines_view, parse_outline, plan_from_lines, ParseStructureError};
use crate::placement::Placement;
use crate::plan::{empty_plan, first_shared_issue, first_shared_milestone, plan_merge, Plan, PlanView};

verus! {

/// The numbered outline lines that a source file holds, by placement.
pub open spec fn source_lines(block: bool, file: Seq<Seq<char>>) -> Seq<(usize, Seq<char>)> {
    if block {
        block_lines_spec(file, file.len() as int)
    } else {
        numbered_spec(file)
    }
}

/// The numbered outline lines of a source file: all of them, or those of its outline blocks.
pub fn load_to_lines<P>(source: &Placement<P>, file_lines: &Vec<String>) -> (r: Vec<(usize, String)>)
    ensures
        numbered_views(r@) == source_lines(source.is_block(), string_views(file_lines@)),
{
    match source {
        Placement::WholeFile(_) => numbered(file_lines),
        Placement::CodeBlockInFile(_) => block_lines(file_lines),
    }
}

/// The plan held by a source file, read with identifiers from `gen`.
pub fn project_plan<P, G: IdGenerator>(
    source: &Placement<P>,
    file_lines: &Vec<String>,
    gen: &mut G,
) -> (r: Result<Plan, ParseStructureError>)
    ensures
        match parse_outline(source_lines(source.is_block(), string_views(file_lines@)), old(gen).upcoming()) {
            Ok((p, n)) => r matches Ok(plan) && plan@ == p && final(gen).upcoming() == n,
            Err(e) => r matches Err(e2) && e2 == e,
        },
        r matches Ok(plan) ==> plan.wf(),
{
    let lines = load_to_lines(source, file_lines);
    assert(lines_view(lines@) == numbered_views(lines@));
    plan_from_lines(&lines, gen)
}

/// Why the plan of a project could not be read.
#[derive(Debug, Clone, Copy, PartialEq, Eq, Structural)]
pub enum LoadPlanError {
    /// One of the two sources is structurally malformed.
    Structure(ParseStructureError),
    /// An issue identifier is used both in the manifest and in the issues file.
    IssueIdCollision { id: u64 },
    /// A milestone identifier is used both in the manifest and in the issues file.
    MilestoneIdCollision { id: u64 },
}

/// The union of the plans of the two sources, refused where they share an issue
/// identifier or a milestone identifier (the first such identifier of `q` is reported).
/// When it is accepted nothing is replaced: `lemma_merge_disjoint` shows the union is
/// the first plan's issues, milestones and steps followed by the second's.
pub open spec fn merge_sources(p: PlanView, q: PlanView) -> Result<PlanView, LoadPlanError> {
    let i = first_shared_issue(p.issues, q.issues, 0);
    let j = first_shared_milestone(p.milestones, q.milestones, 0);
    if i >= 0 {
        Err(LoadPlanError::IssueIdCollision { id: q.issues[i].id })
    } else if j >= 0 {
        Err(LoadPlanError::MilestoneIdCollision { id: q.milestones[j].id })
    } else {
        Ok(plan_merge(p, q))
    }
}

/// The plan of a project from the lines of its manifest (read for its outline blocks)
/// and of its issues file, each where found; one counter from `start` numbers both.
pub open spec fn project_plan_spec(
    manifest: Option<Seq<Seq<char>>>,
    issues: Option<Seq<Seq<char>>>,
    start: u64,
) -> Result<Option<PlanView>, LoadPlanError> {
    let first = match manifest {
        Some(m) => match parse_outline(source_lines(true, m), start) {
            Ok((p, n)) => Ok((p, n, true)),
            Err(e) => Err(LoadPlanError::Structure(e)),
        },
        None => Ok((empty_plan(), start, false)),
    };
    match first {
        Err(e) => Err(e),
        Ok((p, n, found)) => match issues {
            Some(f) => match parse_outline(source_lines(false, f), n) {
                Ok((q, _)) => match merge_sources(p, q) {
                    Ok(u) => Ok(Some(u)),
                    Err(e) => Err(e),
                },
                Err(e) => Err(LoadPlanError::Structure(e)),
            },
            None => Ok(
                if found {
                    Some(p)
                } else {
                    None
                },
            ),
        },
    }
}

/// Where a manifest and an issues file are both read without error, the plan keeps
/// both whole: the manifest's issues, milestones and steps, then the issues file's.
pub proof fn lemma_sources_keep_both(manifest: Seq<Seq<char>>, issues: Seq<Seq<char>>, start: u64)
    requires
        project_plan_spec(Some(manifest), Some(issues), start) is Ok,
    ensures
        parse_outline(source_lines(true, manifest), start) matches Ok((p, n)) && parse_outline(
            source_lines(false, issues),
            n,
        ) matches Ok((q, _)) && project_plan_spec(Some(manifest), Some(issues), start) == Ok::<
            Option<PlanView>,
            LoadPlanError,
        >(
            Some(
                PlanView {
                    issues: p.issues + q.issues,
                    milestones: p.milestones + q.milestones,
                    steps: p.steps + q.steps,
                },
            ),
        ),
{
    let ml = source_lines(true, manifest);
    crate::parse::lemma_parse_repeatable(ml, ml, start);
    let (p, n) = parse_outline(ml, start)->Ok_0;
    let fl = source_lines(false, issues);
    crate::parse::lemma_parse_repeatable(fl, fl, n);
    let (q, _) = parse_outline(fl, n)->Ok_0;
    assert(merge_sources(p, q) is Ok);
    crate::plan::lemma_first_shared_issue(p.issues, q.issues, 0);
    crate::plan::lemma_first_shared_milestone(p.milestones, q.milestones, 0);
    crate::plan::lemma_merge_disjoint(p, q);
}

pub open spec fn opt_lines_view(o: Option<&Vec<String>>) -> Option<Seq<Seq<char>>> {
    match o {
        Some(v) => Some(string_views(v@)),
        None => None,
    }
}

/// The plan of a project, from the lines of the manifest and of the issues file found
/// in its root directory; `None` for a project without root directory or without either file.
/// Both sources draw identifiers from one counter, so generated identifiers never
/// collide; where both name the same explicit issue or milestone identifier, the
/// plan is refused with a collision error rather than letting one source win.
pub fn load_project_plan(
    project_config: &FsProjectConfig,
    manifest: Option<&Vec<String>>,
    issues: Option<&Vec<String>>,
) -> (r: Result<Option<Plan>, LoadPlanError>)
    ensures
        project_config.root_dir is None ==> r matches Ok(None),
        project_config.root_dir is Some ==> match project_plan_spec(
            opt_lines_view(manifest),
            opt_lines_view(issues),
            match project_config.start_id {
                Some(s) => s,
                None => 1,
            },
        ) {
            Ok(Some(p)) => r matches Ok(Some(plan)) && plan@ == p,
            Ok(None) => r matches Ok(None),
            Err(e) => r matches Err(e2) && e2 == e,
        },
        r matches Ok(Some(plan)) ==> plan.wf(),
{
    if project_config.root_dir.is_none() {
        return Ok(None);
    }
    let start = match project_config.start_id {
        Some(s) => s,
        None => 1,
    };
    let mut gen = IntIdGenerator::new(start);
    let mut plan = Plan::new();
    let mut plan_exists = false;
    match manifest {
        Some(lines) => {
            let source: Placement<()> = Placement::CodeBlockInFile(());
            match project_plan(&source, lines, &mut gen) {
                Ok(p) => {
                    plan = p;
                },
                Err(e) => {
                    return Err(LoadPlanError::Structure(e));
                },
            }
            plan_exists = true;
        },
        None => {},
    }
    match issues {
        Some(lines) => {
            let source: Placement<()> = Placement::WholeFile(());
            match project_plan(&source, lines, &mut gen) {
                Ok(p) => {
                    proof {
                        crate::plan::lemma_first_shared_issue(plan@.issues, p@.issues, 0);
                        crate::plan::lemma_first_shared_milestone(plan@.milestones, p@.milestones, 0);
                    }
                    if let Some(id) = plan.first_issue_collision(&p) {
                        return Err(LoadPlanError::IssueIdCollision { id });
                    }
                    if let Some(id) = plan.first_milestone_collision(&p) {
                        return Err(LoadPlanError::MilestoneIdCollision { id });
                    }
                    plan = plan.merge(p);
                },
                Err(e) => {
                    return Err(LoadPlanError::Structure(e));
                },
            }
            plan_exists = true;
        },
        None => {},
    }
    if plan_exists {
        Ok(Some(plan))
    } else {
        Ok(None)
    }
}

/// The outcome of one line does not depend on its number, but for the number a fault reports.
proof fn lemma_step_renumbered(st: crate::parse::BuilderState, i1: usize, i2: usize, s: Seq<char>)
    ensures
        step(st, i1, s) is Ok <==> step(st, i2, s) is Ok,
        step(st, i1, s) is Ok ==> step(st, i1, s) == step(st, i2, s),
{
}

proof fn lemma_run_renumbered(a: Seq<(usize, Seq<char>)>, b: Seq<(usize, Seq<char>)>, k: int, start: u64)
    requires
        0 <= k <= a.len(),
        a.len() == b.len(),
        forall|i: int| 0 <= i < a.len() ==> (#[trigger] a[i]).1 == b[i].1,
    ensures
        run(a, k, start) is Ok <==> run(b, k, start) is Ok,
        run(a, k, start) is Ok ==> run(a, k, start) == run(b, k, start),
    decreases k,
{
    if k > 0 {
        lemma_run_renumbered(a, b, k - 1, start);
        if run(a, k - 1, start) is Ok {
            assert(a[k - 1].1 == b[k - 1].1);
            lemma_step_renumbered(run(a, k - 1, start)->Ok_0, a[k - 1].0, b[k - 1].0, a[k - 1].1);
        }
    }
}

/// The lines of a block body, numbered from `off`.
pub open spec fn shifted(body: Seq<Seq<char>>, off: int) -> Seq<(usize, Seq<char>)> {
    Seq::new(body.len(), |i: int| ((i + off) as usize, body[i]))
}

proof fn lemma_scan_host(lines: Seq<Seq<char>>, n: int)
    requires
        0 <= n <= lines.len(),
        forall|i: int| 0 <= i < lines.len() ==> !is_marker_line(#[trigger] lines[i], MD_BLOCK_START@),
    ensures
        scan_state(lines, n) == (BlockScan { in_block: false, inner: 0 }),
        block_lines_spec(lines, n) == Seq::<(usize, Seq<char>)>::empty(),
    decreases n,
{
    if n > 0 {
        lemma_scan_host(lines, n - 1);
        assert(!is_marker_line(lines[n - 1], MD_BLOCK_START@));
    }
}

proof fn lemma_scan_prefix_same(a: Seq<Seq<char>>, b: Seq<Seq<char>>, n: int)
    requires
        0 <= n <= a.len(),
        n <= b.len(),
        forall|i: int| 0 <= i < n ==> a[i] == b[i],
    ensures
        scan_state(a, n) == scan_state(b, n),
        block_lines_spec(a, n) == block_lines_spec(b, n),
    decreases n,
{
    if n > 0 {
        lemma_scan_prefix_same(a, b, n - 1);
    }
}

proof fn lemma_start_marker()
    ensures
        is_marker_line(MD_BLOCK_START@, MD_BLOCK_START@),
        !is_marker_line(Seq::<char>::empty(), MD_BLOCK_START@),
        scan_line(BlockScan { in_block: true, inner: 0 }, MD_BLOCK_END@) == (BlockScan { in_block: false, inner: 0 }, false),
{
    reveal_strlit("```md todo");
    reveal_strlit("```");
    let m = MD_BLOCK_START@;
    assert(ws_run(m, 0) == 0);
    assert(trim_end(m, 0, 10) == 10);
    let e = MD_BLOCK_END@;
    assert(trim_end(e, 0, 3) == 3);
    assert(e.subrange(0, 3) =~= e);
}

proof fn lemma_heading_not_marker(title: Seq<char>)
    ensures
        !is_marker_line(seq!['#', ' '] + title, MD_BLOCK_START@),
{
    reveal_strlit("```md todo");
    let s = seq!['#', ' '] + title;
    assert(ws_run(s, 0) == 0);
    let b = trim_end(s, 0, s.len() as int);
    assert(s[0] == '#');
    assert(MD_BLOCK_START@[0] == '`');
    let a = ws_run(s, 0);
    assert(!crate::block::same_letter(s[a + 0], MD_BLOCK_START@[0]));
}

proof fn lemma_read_body(doc: Seq<Seq<char>>, host: Seq<Seq<char>>, body: Seq<Seq<char>>, j: int)
    requires
        0 <= j <= body.len(),
        doc == host + block_of(MD_BLOCK_START@, MD_BLOCK_END@, body),
        scan_state(doc, host.len() + 1int) == (BlockScan { in_block: true, inner: 0 }),
        block_lines_spec(doc, host.len() + 1int) == Seq::<(usize, Seq<char>)>::empty(),
        forall|i: int|
            0 <= i < body.len() ==> !is_fence_line(
                #[trigger] body[i].subrange(0, trim_end(body[i], 0, body[i].len() as int)),
            ),
    ensures
        scan_state(doc, host.len() + 1int + j) == (BlockScan { in_block: true, inner: 0 }),
        block_lines_spec(doc, host.len() + 1int + j) == shifted(body, host.len() + 1int).subrange(0, j),
    decreases j,
{
    let h = host.len() as int;
    if j == 0 {
        assert(shifted(body, h + 1).subrange(0, 0) =~= Seq::<(usize, Seq<char>)>::empty());
    } else {
        lemma_read_body(doc, host, body, j - 1);
        assert(doc[h + j] == body[j - 1]);
        assert(!is_fence_line(body[j - 1].subrange(0, trim_end(body[j - 1], 0, body[j - 1].len() as int))));
        assert(shifted(body, h + 1).subrange(0, j) =~= shifted(body, h + 1).subrange(0, j - 1).push(
            ((h + j) as usize, body[j - 1]),
        ));
    }
}

/// Reading a document made of `host` lines and then an outline block gives the body lines.
proof fn lemma_read_block(host: Seq<Seq<char>>, body: Seq<Seq<char>>)
    requires
        forall|i: int| 0 <= i < host.len() ==> !is_marker_line(#[trigger] host[i], MD_BLOCK_START@),
        forall|i: int|
            0 <= i < body.len() ==> !is_fence_line(
                #[trigger] body[i].subrange(0, trim_end(body[i], 0, body[i].len() as int)),
            ),
    ensures
        ({
            let doc = host + block_of(MD_BLOCK_START@, MD_BLOCK_END@, body);
            block_lines_spec(doc, doc.len() as int) == shifted(body, host.len() + 1int)
        }),
{
    let doc = host + block_of(MD_BLOCK_START@, MD_BLOCK_END@, body);
    let h = host.len() as int;
    lemma_scan_host(host, h);
    lemma_scan_prefix_same(host, doc, h);
    lemma_start_marker();
    assert(doc[h] == MD_BLOCK_START@);
    assert(scan_state(doc, h + 1) == (BlockScan { in_block: true, inner: 0 }));
    assert(block_lines_spec(doc, h + 1) == Seq::<(usize, Seq<char>)>::empty());
    lemma_read_body(doc, host, body, body.len() as int);
    assert(doc[h + 1 + body.len()] == MD_BLOCK_END@);
    assert(shifted(body, h + 1).subrange(0, body.len() as int) =~= shifted(body, h + 1));
}

/// Writing an outline block into a document (one without an outline block, or a new
/// one) and reading the document's lines back gives the plan that the block's body
/// gives on its own: the same issues and milestones, with the same names, contents
/// and identifiers, from the same first identifier.
pub proof fn lemma_spliced_outline_reads_back(
    existing: Option<Seq<char>>,
    title: Seq<char>,
    body: Seq<Seq<char>>,
    start: u64,
)
    requires
        existing matches Some(h) ==> (forall|k: int|
            0 <= k < lines_from(h, 0).len() ==> !is_marker_line(
                #[trigger] lines_from(h, 0)[k],
                MD_BLOCK_START@,
            )) && (h.len() == 0 || h.last() != '\r'),
        existing is None ==> is_plain_line(title),
        forall|i: int| 0 <= i < body.len() ==> is_plain_line(#[trigger] body[i]),
        forall|i: int|
            0 <= i < body.len() ==> !is_fence_line(
                #[trigger] body[i].subrange(0, trim_end(body[i], 0, body[i].len() as int)),
            ),
    ensures
        ({
            let doc = lines_from(spliced_text(existing, title, MD_BLOCK_START@, MD_BLOCK_END@, body), 0);
            let read = parse_outline(source_lines(true, doc), start);
            let direct = parse_outline(numbered_spec(body), start);
            &&& (read is Ok <==> direct is Ok)
            &&& (read is Ok ==> read == direct)
        }),
{
    reveal_strlit("```md todo");
    reveal_strlit("```");
    let blk = seq![MD_BLOCK_START@] + body + seq![MD_BLOCK_END@];
    assert forall|k: int| 0 <= k < blk.len() implies is_plain_line(#[trigger] blk[k]) by {
        if k == 0 {
            assert(is_plain_line(MD_BLOCK_START@));
        } else if k == blk.len() - 1 {
            assert(is_plain_line(MD_BLOCK_END@));
        } else {
            assert(blk[k] == body[k - 1]);
        }
    }
    lemma_lines_joined(blk);
    let block = joined_lines(blk);
    let text = spliced_text(existing, title, MD_BLOCK_START@, MD_BLOCK_END@, body);
    let host_text = match existing {
        Some(h) => with_final_newline(h),
        None => joined_lines(seq![seq!['#', ' '] + title, Seq::<char>::empty()]),
    };
    let host = lines_from(host_text, 0);
    match existing {
        Some(h) => {
            lemma_no_marker_line(h, MD_BLOCK_START@, 0);
            lemma_lines_final_newline(h);
        },
        None => {
            let heading = seq!['#', ' '] + title;
            let hv = seq![heading, Seq::<char>::empty()];
            assert(is_plain_line(heading)) by {
                assert forall|k: int| 0 <= k < heading.len() implies #[trigger] heading[k] != '\n' by {
                    if k >= 2 {
                        assert(heading[k] == title[k - 2]);
                    }
                }
            }
            assert forall|k: int| 0 <= k < hv.len() implies is_plain_line(#[trigger] hv[k]) by {}
            lemma_lines_joined(hv);
            lemma_heading_not_marker(title);
            lemma_start_marker();
        },
    }
    assert(text == host_text + block);
    lemma_lines_concat(host_text, block, 0);
    assert(lines_from(text, 0) == host + blk);
    assert forall|i: int| 0 <= i < host.len() implies !is_marker_line(#[trigger] host[i], MD_BLOCK_START@) by {
        if existing is None {
            if i == 1 {
                assert(host[1] =~= Seq::<char>::empty());
                lemma_start_marker();
            }
        }
    }
    assert(blk == block_of(MD_BLOCK_START@, MD_BLOCK_END@, body));
    lemma_read_block(host, body);
    let a = shifted(body, host.len() + 1int);
    let b = numbered_spec(body);
    lemma_run_renumbered(a, b, body.len() as int, start);
}

} // verus!
