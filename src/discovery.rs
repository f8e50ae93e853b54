//! Project discovery: one depth-first walk gives the projects and their nesting.
use vstd::prelude::*;

use crate::config::{path_view, str_set_insert, ConfigView, FsProjectConfig};
use crate::id_set::name_set_insert;

verus! {

/// `a` is a leading part of `b` (or `b` itself).
pub open spec fn is_prefix_of(a: Seq<Seq<char>>, b: Seq<Seq<char>>) -> bool {
    a.len() <= b.len() && b.subrange(0, a.len() as int) == a
}

/// An open ancestor project: its identifier and root directory.
pub ghost struct Frame {
    pub id: Seq<char>,
    pub root: Seq<Seq<char>>,
}

/// The open ancestors that still contain `path`: frames are closed from the top
/// while their root does not contain `path`.
pub open spec fn open_frames(stack: Seq<Frame>, path: Seq<Seq<char>>) -> Seq<Frame>
    decreases stack.len(),
{
    if stack.len() == 0 {
        stack
    } else if is_prefix_of(stack.last().root, path) {
        stack
    } else {
        open_frames(stack.drop_last(), path)
    }
}

/// First position of a project with identifier `id`, or -1.
pub open spec fn config_index(s: Seq<ConfigView>, id: Seq<char>, k: int) -> int
    decreases s.len() - k,
{
    if k < 0 || k >= s.len() {
        -1
    } else if s[k].id == id {
        k
    } else {
        config_index(s, id, k + 1)
    }
}

/// Keyed insertion: a project with the same identifier is replaced in place.
pub open spec fn upsert_config(s: Seq<ConfigView>, c: ConfigView) -> Seq<ConfigView> {
    let i = config_index(s, c.id, 0);
    if i >= 0 {
        s.update(i, c)
    } else {
        s.push(c)
    }
}

/// Records `child` among the sub-projects of the project `parent`, where it is registered.
pub open spec fn add_subproject(s: Seq<ConfigView>, parent: Seq<char>, child: Seq<char>) -> Seq<
    ConfigView,
> {
    let i = config_index(s, parent, 0);
    if i >= 0 {
        s.update(i, ConfigView { subprojects: str_set_insert(s[i].subprojects, child), ..s[i] })
    } else {
        s
    }
}

/// The root a frame gets: the configured root directory, or the empty path.
pub open spec fn frame_root(c: ConfigView) -> Seq<Seq<char>> {
    match c.root_dir {
        Some(r) => r,
        None => Seq::empty(),
    }
}

/// One visited path, with the configuration found there if any.
pub open spec fn visit(
    st: (Seq<ConfigView>, Seq<Frame>),
    path: Seq<Seq<char>>,
    found: Option<ConfigView>,
) -> (Seq<ConfigView>, Seq<Frame>) {
    let frames = open_frames(st.1, path);
    match found {
        None => (st.0, frames),
        Some(c) => {
            let projects = if frames.len() > 0 {
                add_subproject(st.0, frames.last().id, c.id)
            } else {
                st.0
            };
            (upsert_config(projects, c), frames.push(Frame { id: c.id, root: frame_root(c) }))
        },
    }
}

/// A visited path and the configuration found there, as values.
pub open spec fn entry_view(e: (Vec<String>, Option<FsProjectConfig>)) -> (
    Seq<Seq<char>>,
    Option<ConfigView>,
) {
    (
        path_view(e.0@),
        match e.1 {
            Some(c) => Some(c@),
            None => None,
        },
    )
}

pub open spec fn entries_view(v: Seq<(Vec<String>, Option<FsProjectConfig>)>) -> Seq<
    (Seq<Seq<char>>, Option<ConfigView>),
> {
    v.map_values(|e: (Vec<String>, Option<FsProjectConfig>)| entry_view(e))
}

/// The projects and open ancestors after the first `n` visited paths.
pub open spec fn discover(entries: Seq<(Seq<Seq<char>>, Option<ConfigView>)>, n: int) -> (
    Seq<ConfigView>,
    Seq<Frame>,
)
    decreases n,
{
    if n <= 0 {
        (Seq::empty(), Seq::empty())
    } else {
        visit(discover(entries, n - 1), entries[n - 1].0, entries[n - 1].1)
    }
}

pub open spec fn config_views(v: Seq<FsProjectConfig>) -> Seq<ConfigView> {
    v.map_values(|c: FsProjectConfig| c@)
}

/// Fills in the root directory of a configuration found at `dir` that names none.
pub fn find_project(config: FsProjectConfig, dir: Vec<String>) -> (r: FsProjectConfig)
    ensures
        r@ == (ConfigView {
            root_dir: match config@.root_dir {
                Some(p) => Some(p),
                None => Some(path_view(dir@)),
            },
            ..config@
        }),
{
    let mut c = config;
    if c.root_dir.is_none() {
        c.root_dir = Some(dir);
    }
    c
}

fn is_prefix_exec(a: &Vec<String>, b: &Vec<String>) -> (r: bool)
    ensures
        r == is_prefix_of(path_view(a@), path_view(b@)),
{
    if a.len() > b.len() {
        return false;
    }
    let mut i: usize = 0;
    while i < a.len()
        invariant
            a@.len() <= b@.len(),
            i <= a@.len(),
            forall|k: int| 0 <= k < i ==> path_view(a@)[k] == path_view(b@)[k],
        decreases a@.len() - i,
    {
        if a[i] != b[i] {
            assert(path_view(b@).subrange(0, a@.len() as int)[i as int] != path_view(a@)[i as int]);
            return false;
        }
        i = i + 1;
    }
    assert(path_view(b@).subrange(0, a@.len() as int) =~= path_view(a@));
    true
}

fn find_config_index(v: &Vec<FsProjectConfig>, id: &String) -> (r: Option<usize>)
    ensures
        match r {
            Some(i) => i == config_index(config_views(v@), id@, 0) && i < v@.len(),
            None => config_index(config_views(v@), id@, 0) == -1,
        },
{
    let mut i: usize = 0;
    while i < v.len()
        invariant
            i <= v@.len(),
            config_index(config_views(v@), id@, 0) == config_index(config_views(v@), id@, i as int),
        decreases v@.len() - i,
    {
        if v[i].id == *id {
            return Some(i);
        }
        i = i + 1;
    }
    None
}

fn clone_path(p: &Vec<String>) -> (r: Vec<String>)
    ensures
        path_view(r@) == path_view(p@),
{
    let mut r: Vec<String> = Vec::new();
    let mut i: usize = 0;
    while i < p.len()
        invariant
            i <= p@.len(),
            path_view(r@) =~= path_view(p@).subrange(0, i as int),
        decreases p@.len() - i,
    {
        let ghost before = path_view(r@);
        r.push(p[i].clone());
        assert(path_view(r@) =~= before.push(path_view(p@)[i as int]));
        i = i + 1;
    }
    r
}

/// The entry at `i` is a project.
pub open spec fn is_project_at(e: Seq<(Seq<Seq<char>>, Option<ConfigView>)>, i: int) -> bool {
    e[i].1 is Some
}

pub open spec fn id_at(e: Seq<(Seq<Seq<char>>, Option<ConfigView>)>, i: int) -> Seq<char> {
    e[i].1->0.id
}

pub open spec fn frame_at(e: Seq<(Seq<Seq<char>>, Option<ConfigView>)>, i: int) -> Frame {
    Frame { id: e[i].1->0.id, root: frame_root(e[i].1->0) }
}

/// The frames of the projects among the first `m` entries whose directory contains `q`.
pub open spec fn chain(e: Seq<(Seq<Seq<char>>, Option<ConfigView>)>, q: Seq<Seq<char>>, m: int) -> Seq<
    Frame,
>
    decreases m,
{
    if m <= 0 {
        Seq::empty()
    } else if is_project_at(e, m - 1) && is_prefix_of(e[m - 1].0, q) {
        chain(e, q, m - 1).push(frame_at(e, m - 1))
    } else {
        chain(e, q, m - 1)
    }
}

/// The last project among the first `m` entries whose directory contains `q`, or -1.
pub open spec fn nearest_project(e: Seq<(Seq<Seq<char>>, Option<ConfigView>)>, q: Seq<Seq<char>>, m: int) -> int
    decreases m,
{
    if m <= 0 {
        -1
    } else if is_project_at(e, m - 1) && is_prefix_of(e[m - 1].0, q) {
        m - 1
    } else {
        nearest_project(e, q, m - 1)
    }
}

/// The nearest discovered ancestor of the entry at `j`: the last project visited
/// before it whose directory contains it, or -1.
pub open spec fn nearest_ancestor(e: Seq<(Seq<Seq<char>>, Option<ConfigView>)>, j: int) -> int {
    nearest_project(e, e[j].0, j)
}

/// The identifiers of the projects among the first `n` entries whose nearest
/// discovered ancestor is the entry at `k`, in walk order.
pub open spec fn children_of(e: Seq<(Seq<Seq<char>>, Option<ConfigView>)>, k: int, n: int) -> Seq<Seq<char>>
    decreases n,
{
    if n <= 0 {
        Seq::empty()
    } else if is_project_at(e, n - 1) && nearest_ancestor(e, n - 1) == k {
        children_of(e, k, n - 1).push(id_at(e, n - 1))
    } else {
        children_of(e, k, n - 1)
    }
}

/// The sub-projects of the project at `k` after the first `n` entries: those its own
/// configuration lists, then, once each and in walk order, the projects whose nearest
/// discovered ancestor it is.
pub open spec fn listed_subprojects(e: Seq<(Seq<Seq<char>>, Option<ConfigView>)>, k: int, n: int) -> Seq<
    Seq<char>,
>
    decreases n,
{
    if n <= k + 1 || n <= 0 {
        e[k].1->0.subprojects
    } else if is_project_at(e, n - 1) && nearest_ancestor(e, n - 1) == k {
        str_set_insert(listed_subprojects(e, k, n - 1), id_at(e, n - 1))
    } else {
        listed_subprojects(e, k, n - 1)
    }
}

/// Where a project's configuration lists no sub-projects, they are exactly the
/// projects whose nearest discovered ancestor it is.
proof fn lemma_listed_children(e: Seq<(Seq<Seq<char>>, Option<ConfigView>)>, k: int, n: int)
    requires
        0 <= k < e.len(),
        0 <= n <= e.len(),
        is_project_at(e, k),
        e[k].1->0.subprojects.len() == 0,
        forall|i: int, j: int|
            0 <= i < e.len() && 0 <= j < e.len() && i != j && is_project_at(e, i) && is_project_at(e, j)
                ==> #[trigger] id_at(e, i) != #[trigger] id_at(e, j),
    ensures
        listed_subprojects(e, k, n) == children_of(e, k, n),
    decreases n,
{
    if n <= k + 1 {
        lemma_children_late(e, k, n);
        assert(e[k].1->0.subprojects =~= Seq::<Seq<char>>::empty());
    } else {
        lemma_listed_children(e, k, n - 1);
        if is_project_at(e, n - 1) && nearest_ancestor(e, n - 1) == k {
            assert forall|j: int| 0 <= j < n - 1 && is_project_at(e, j) implies #[trigger] id_at(e, j) != id_at(e, n - 1) by {}
            lemma_children_ids(e, k, n - 1, id_at(e, n - 1));
        }
    }
}

/// The walk lists a directory's whole subtree right after it, and every
/// directory before the directories below it.
pub open spec fn is_pre_order_walk(e: Seq<(Seq<Seq<char>>, Option<ConfigView>)>) -> bool {
    &&& forall|a: int, b: int, c: int|
        0 <= a < b < c < e.len() && #[trigger] is_prefix_of(e[a].0, e[c].0) ==> #[trigger] is_prefix_of(
            e[a].0,
            e[b].0,
        )
    &&& forall|a: int, b: int|
        0 <= a < e.len() && 0 <= b < e.len() && #[trigger] is_prefix_of(e[a].0, e[b].0) && e[a].0.len()
            < e[b].0.len() ==> a < b
}

/// Each project found is rooted where it was found and has an identifier no other
/// project has.
pub open spec fn projects_rooted_where_found(e: Seq<(Seq<Seq<char>>, Option<ConfigView>)>) -> bool {
    &&& forall|i: int|
        0 <= i < e.len() && #[trigger] is_project_at(e, i) ==> e[i].1->0.root_dir == Some(e[i].0)
    &&& forall|i: int, j: int|
        0 <= i < e.len() && 0 <= j < e.len() && i != j && is_project_at(e, i) && is_project_at(e, j)
            ==> #[trigger] id_at(e, i) != #[trigger] id_at(e, j)
}

proof fn lemma_prefix_facts(a: Seq<Seq<char>>, b: Seq<Seq<char>>, q: Seq<Seq<char>>)
    ensures
        is_prefix_of(q, q),
        is_prefix_of(a, q) && is_prefix_of(b, q) && a.len() <= b.len() ==> is_prefix_of(a, b),
        is_prefix_of(a, b) && is_prefix_of(b, q) ==> is_prefix_of(a, q),
{
    assert(q.subrange(0, q.len() as int) =~= q);
    if is_prefix_of(a, q) && is_prefix_of(b, q) && a.len() <= b.len() {
        assert(b.subrange(0, a.len() as int) =~= q.subrange(0, a.len() as int));
    }
    if is_prefix_of(a, b) && is_prefix_of(b, q) {
        assert(q.subrange(0, a.len() as int) =~= b.subrange(0, a.len() as int));
    }
}

proof fn lemma_chain_same(
    e: Seq<(Seq<Seq<char>>, Option<ConfigView>)>,
    q1: Seq<Seq<char>>,
    q2: Seq<Seq<char>>,
    m: int,
)
    requires
        0 <= m <= e.len(),
        forall|i: int|
            0 <= i < m && is_project_at(e, i) ==> (#[trigger] is_prefix_of(e[i].0, q1) <==> is_prefix_of(
                e[i].0,
                q2,
            )),
    ensures
        chain(e, q1, m) == chain(e, q2, m),
    decreases m,
{
    if m > 0 {
        lemma_chain_same(e, q1, q2, m - 1);
    }
}

proof fn lemma_nearest_is_last(e: Seq<(Seq<Seq<char>>, Option<ConfigView>)>, q: Seq<Seq<char>>, m: int)
    requires
        0 <= m <= e.len(),
    ensures
        (chain(e, q, m).len() > 0) == (nearest_project(e, q, m) >= 0),
        nearest_project(e, q, m) < m,
        nearest_project(e, q, m) >= 0 ==> chain(e, q, m).last() == frame_at(e, nearest_project(e, q, m))
            && is_project_at(e, nearest_project(e, q, m)),
    decreases m,
{
    if m > 0 {
        lemma_nearest_is_last(e, q, m - 1);
    }
}

proof fn lemma_open_frames_chain(
    e: Seq<(Seq<Seq<char>>, Option<ConfigView>)>,
    q1: Seq<Seq<char>>,
    q2: Seq<Seq<char>>,
    m: int,
)
    requires
        0 <= m <= e.len(),
        projects_rooted_where_found(e),
        forall|i: int|
            0 <= i < m && is_project_at(e, i) && #[trigger] is_prefix_of(e[i].0, q2) ==> is_prefix_of(
                e[i].0,
                q1,
            ),
        forall|i: int, j: int|
            0 <= i < j < m && is_project_at(e, i) && is_project_at(e, j) && is_prefix_of(e[i].0, q1)
                && is_prefix_of(e[j].0, q1) && #[trigger] is_prefix_of(e[j].0, q2) ==> #[trigger] is_prefix_of(
                e[i].0,
                q2,
            ),
    ensures
        open_frames(chain(e, q1, m), q2) == chain(e, q2, m),
    decreases m,
{
    if m > 0 {
        let k = m - 1;
        if is_project_at(e, k) && is_prefix_of(e[k].0, q1) {
            assert(frame_root(e[k].1->0) == e[k].0);
            assert(chain(e, q1, m).last() == frame_at(e, k));
            if is_prefix_of(e[k].0, q2) {
                assert forall|i: int| 0 <= i < m && is_project_at(e, i) implies (#[trigger] is_prefix_of(
                    e[i].0,
                    q1,
                ) <==> is_prefix_of(e[i].0, q2)) by {
                    if i < k && is_prefix_of(e[i].0, q1) {
                        assert(is_prefix_of(e[k].0, q2));
                    }
                }
                lemma_chain_same(e, q1, q2, m);
            } else {
                assert(chain(e, q1, m).drop_last() == chain(e, q1, k));
                lemma_open_frames_chain(e, q1, q2, k);
            }
        } else {
            if is_project_at(e, k) {
                assert(!is_prefix_of(e[k].0, q2));
            }
            lemma_open_frames_chain(e, q1, q2, k);
        }
    }
}

proof fn lemma_children_ids(e: Seq<(Seq<Seq<char>>, Option<ConfigView>)>, k: int, n: int, x: Seq<char>)
    requires
        0 <= n <= e.len(),
        forall|j: int| 0 <= j < n && is_project_at(e, j) ==> #[trigger] id_at(e, j) != x,
    ensures
        !children_of(e, k, n).contains(x),
    decreases n,
{
    if n > 0 {
        lemma_children_ids(e, k, n - 1, x);
        if is_project_at(e, n - 1) && nearest_ancestor(e, n - 1) == k {
            assert(id_at(e, n - 1) != x);
            assert(!children_of(e, k, n - 1).push(id_at(e, n - 1)).contains(x)) by {
                let c = children_of(e, k, n - 1).push(id_at(e, n - 1));
                if c.contains(x) {
                    let t = choose|t: int| 0 <= t < c.len() && c[t] == x;
                    if t < c.len() - 1 {
                        assert(children_of(e, k, n - 1)[t] == x);
                    }
                }
            }
        }
    }
}

proof fn lemma_children_late(e: Seq<(Seq<Seq<char>>, Option<ConfigView>)>, k: int, n: int)
    requires
        0 <= n <= k + 1,
        n <= e.len(),
    ensures
        children_of(e, k, n) == Seq::<Seq<char>>::empty(),
    decreases n,
{
    if n > 0 {
        lemma_children_late(e, k, n - 1);
        lemma_nearest_is_last(e, e[n - 1].0, n - 1);
    }
}

proof fn lemma_config_index_first(s: Seq<ConfigView>, x: Seq<char>, k: int, t: int)
    requires
        0 <= k <= t < s.len(),
        s[t].id == x,
        forall|u: int| k <= u < t ==> #[trigger] s[u].id != x,
    ensures
        config_index(s, x, k) == t,
    decreases t - k,
{
    if k < t {
        lemma_config_index_first(s, x, k + 1, t);
    }
}

proof fn lemma_config_index(s: Seq<ConfigView>, x: Seq<char>, k: int)
    requires
        0 <= k,
    ensures
        config_index(s, x, k) == -1 || (k <= config_index(s, x, k) < s.len() && s[config_index(
            s,
            x,
            k,
        )].id == x),
        config_index(s, x, k) == -1 ==> forall|u: int| k <= u < s.len() ==> #[trigger] s[u].id != x,
        forall|u: int| k <= u < config_index(s, x, k) ==> #[trigger] s[u].id != x,
    decreases s.len() - k,
{
    if k < s.len() && s[k].id != x {
        lemma_config_index(s, x, k + 1);
    }
}

/// Lookups in a list whose identifiers stay in place give the same positions.
proof fn lemma_config_index_same_ids(s: Seq<ConfigView>, t: Seq<ConfigView>, x: Seq<char>)
    requires
        s.len() == t.len(),
        forall|u: int| 0 <= u < s.len() ==> (#[trigger] s[u]).id == t[u].id,
    ensures
        config_index(s, x, 0) == config_index(t, x, 0),
{
    lemma_config_index(s, x, 0);
    lemma_config_index(t, x, 0);
    let i = config_index(s, x, 0);
    if i >= 0 {
        assert forall|u: int| 0 <= u < i implies #[trigger] t[u].id != x by {
            assert(s[u].id == t[u].id);
        }
        assert(s[i].id == t[i].id);
        lemma_config_index_first(t, x, 0, i);
    } else {
        let j = config_index(t, x, 0);
        if j >= 0 {
            assert(s[j].id == t[j].id);
            assert(s[j].id == x);
        }
    }
}

proof fn lemma_config_index_push(s: Seq<ConfigView>, c: ConfigView, x: Seq<char>)
    ensures
        config_index(s, x, 0) >= 0 ==> config_index(s.push(c), x, 0) == config_index(s, x, 0),
        config_index(s, x, 0) < 0 && c.id == x ==> config_index(s.push(c), x, 0) == s.len(),
        config_index(s, x, 0) < 0 && c.id != x ==> config_index(s.push(c), x, 0) == -1,
{
    lemma_config_index(s, x, 0);
    lemma_config_index(s.push(c), x, 0);
    let i = config_index(s, x, 0);
    if i >= 0 {
        lemma_config_index_first(s.push(c), x, 0, i);
    } else if c.id == x {
        lemma_config_index_first(s.push(c), x, 0, s.len() as int);
    } else {
        let j = config_index(s.push(c), x, 0);
        if j >= 0 {
            if j < s.len() {
                assert(s[j].id == x);
            }
        }
    }
}

/// What the walk has built after `n` entries: every project so far is registered
/// with the projects whose nearest discovered ancestor it is, an identifier of no
/// project so far is not registered, and the open frames are those of the projects
/// whose directory contains the last visited path.
proof fn lemma_discover_inv(e: Seq<(Seq<Seq<char>>, Option<ConfigView>)>, n: int)
    requires
        0 <= n <= e.len(),
        is_pre_order_walk(e),
        projects_rooted_where_found(e),
    ensures
        ({
            let (ps, frames) = discover(e, n);
            &&& n == 0 ==> frames == Seq::<Frame>::empty()
            &&& n > 0 ==> frames == chain(e, e[n - 1].0, n)
            &&& forall|i: int|
                0 <= i < n && #[trigger] is_project_at(e, i) ==> config_index(ps, id_at(e, i), 0) >= 0
                    && ps[config_index(ps, id_at(e, i), 0)].subprojects == listed_subprojects(e, i, n)
            &&& forall|x: Seq<char>|
                (forall|i: int| 0 <= i < n && is_project_at(e, i) ==> #[trigger] id_at(e, i) != x)
                    ==> #[trigger] config_index(ps, x, 0) == -1
        }),
    decreases n,
{
    if n > 0 {
        let k = n - 1;
        lemma_discover_inv(e, k);
        let (ps, frames) = discover(e, k);
        let q = e[k].0;
        // The frames left open after closing those that do not contain `q`.
        if k == 0 {
            assert(open_frames(frames, q) == chain(e, q, 0));
        } else {
            let q1 = e[k - 1].0;
            assert forall|i: int| 0 <= i < k && is_project_at(e, i) && #[trigger] is_prefix_of(e[i].0, q) implies is_prefix_of(e[i].0, q1) by {
                lemma_prefix_facts(e[i].0, e[i].0, q1);
                if i < k - 1 {
                    assert(is_prefix_of(e[i].0, e[k].0) ==> is_prefix_of(e[i].0, e[k - 1].0));
                }
            }
            assert forall|i: int, j: int|
                0 <= i < j < k && is_project_at(e, i) && is_project_at(e, j) && is_prefix_of(e[i].0, q1)
                    && is_prefix_of(e[j].0, q1) && #[trigger] is_prefix_of(e[j].0, q) implies #[trigger] is_prefix_of(
                e[i].0,
                q,
            ) by {
                lemma_prefix_facts(e[i].0, e[j].0, q1);
                lemma_prefix_facts(e[j].0, e[i].0, q1);
                lemma_prefix_facts(e[i].0, e[j].0, q);
                if e[j].0.len() < e[i].0.len() {
                    assert(is_prefix_of(e[j].0, e[i].0));
                }
            }
            lemma_open_frames_chain(e, q1, q, k);
        }
        let open = open_frames(frames, q);
        assert(open == chain(e, q, k));
        lemma_nearest_is_last(e, q, k);
        let par = nearest_project(e, q, k);
        lemma_prefix_facts(q, q, q);
        match e[k].1 {
            None => {
                assert(chain(e, q, n) == chain(e, q, k));
            },
            Some(c) => {
                assert(c.id == id_at(e, k));
                assert forall|i: int| 0 <= i < k && is_project_at(e, i) implies #[trigger] id_at(e, i) != c.id by {
                    assert(id_at(e, i) != id_at(e, k));
                }
                let ps1 = if open.len() > 0 {
                    add_subproject(ps, open.last().id, c.id)
                } else {
                    ps
                };
                if open.len() > 0 {
                    assert(open.last().id == id_at(e, par));
                    lemma_config_index(ps, open.last().id, 0);
                }
                assert(ps1.len() == ps.len());
                assert forall|u: int| 0 <= u < ps.len() implies (#[trigger] ps[u]).id == ps1[u].id by {
                    if open.len() > 0 {
                        let cp = config_index(ps, open.last().id, 0);
                        if cp >= 0 && u == cp {
                            assert(ps1[u] == ConfigView { subprojects: str_set_insert(ps[cp].subprojects, c.id), ..ps[cp] });
                        }
                    }
                }
                assert forall|x: Seq<char>| config_index(ps, x, 0) == #[trigger] config_index(ps1, x, 0) by {
                    lemma_config_index_same_ids(ps, ps1, x);
                }
                assert(config_index(ps1, c.id, 0) == -1);
                let ps2 = upsert_config(ps1, c);
                assert(ps2 == ps1.push(c));
                assert(chain(e, q, n) == open.push(Frame { id: c.id, root: frame_root(c) }));
                assert forall|x: Seq<char>| #[trigger] config_index(ps2, x, 0) == (if config_index(ps1, x, 0) >= 0 {
                    config_index(ps1, x, 0)
                } else if c.id == x {
                    ps1.len() as int
                } else {
                    -1
                }) by {
                    lemma_config_index_push(ps1, c, x);
                }
                assert forall|i: int|
                    0 <= i < n && #[trigger] is_project_at(e, i) implies config_index(ps2, id_at(e, i), 0) >= 0
                        && ps2[config_index(ps2, id_at(e, i), 0)].subprojects == listed_subprojects(e, i, n) by {
                    if i < k {
                        let ci = config_index(ps, id_at(e, i), 0);
                        assert(config_index(ps1, id_at(e, i), 0) == ci);
                        lemma_config_index(ps, id_at(e, i), 0);
                        if open.len() > 0 && i == par {
                        } else if open.len() > 0 {
                            lemma_config_index(ps, id_at(e, par), 0);
                            assert(ps[ci].id == id_at(e, i));
                            assert(id_at(e, i) != id_at(e, par));
                        }
                    }
                }
            },
        }
    }
}

/// Discovery rebuilds the nesting of a depth-first, pre-order walk: every project
/// found is registered, and its sub-projects are those its configuration lists
/// followed, once each in walk order, by the projects whose nearest discovered
/// ancestor it is. A project whose configuration lists none has exactly those
/// (none for a project with no project below it).
pub proof fn lemma_discovery_nesting(e: Seq<(Seq<Seq<char>>, Option<ConfigView>)>, k: int)
    requires
        is_pre_order_walk(e),
        projects_rooted_where_found(e),
        0 <= k < e.len(),
        is_project_at(e, k),
    ensures
        ({
            let ps = discover(e, e.len() as int).0;
            let i = config_index(ps, id_at(e, k), 0);
            &&& 0 <= i < ps.len()
            &&& ps[i].subprojects == listed_subprojects(e, k, e.len() as int)
            &&& e[k].1->0.subprojects.len() == 0 ==> ps[i].subprojects == children_of(e, k, e.len() as int)
        }),
{
    lemma_discover_inv(e, e.len() as int);
    if e[k].1->0.subprojects.len() == 0 {
        lemma_listed_children(e, k, e.len() as int);
    }
    lemma_config_index(discover(e, e.len() as int).0, id_at(e, k), 0);
}

proof fn lemma_children_contains(e: Seq<(Seq<Seq<char>>, Option<ConfigView>)>, k: int, n: int, j: int)
    requires
        0 <= n <= e.len(),
        0 <= j < e.len(),
        is_project_at(e, j),
        forall|a: int, b: int|
            0 <= a < e.len() && 0 <= b < e.len() && a != b && is_project_at(e, a) && is_project_at(e, b)
                ==> #[trigger] id_at(e, a) != #[trigger] id_at(e, b),
    ensures
        children_of(e, k, n).contains(id_at(e, j)) <==> (j < n && nearest_ancestor(e, j) == k),
    decreases n,
{
    if n > 0 {
        lemma_children_contains(e, k, n - 1, j);
        let prev = children_of(e, k, n - 1);
        if is_project_at(e, n - 1) && nearest_ancestor(e, n - 1) == k {
            let c = prev.push(id_at(e, n - 1));
            if c.contains(id_at(e, j)) && !prev.contains(id_at(e, j)) {
                let t = choose|t: int| 0 <= t < c.len() && c[t] == id_at(e, j);
                if t < prev.len() {
                    assert(prev[t] == id_at(e, j));
                }
                assert(id_at(e, n - 1) == id_at(e, j));
            }
            if prev.contains(id_at(e, j)) {
                let t = choose|t: int| 0 <= t < prev.len() && prev[t] == id_at(e, j);
                assert(c[t] == id_at(e, j));
            }
            if j == n - 1 {
                assert(c[prev.len() as int] == id_at(e, j));
            }
        } else if j == n - 1 && nearest_ancestor(e, j) == k {
            assert(false);
        }
    }
}

/// A project found by discovery is listed among the sub-projects of exactly one
/// project, the one at its nearest discovered ancestor directory, and of none where
/// it has no discovered ancestor (configurations listing no sub-projects of their own).
pub proof fn lemma_discovery_parent(e: Seq<(Seq<Seq<char>>, Option<ConfigView>)>, j: int, k: int)
    requires
        is_pre_order_walk(e),
        projects_rooted_where_found(e),
        forall|i: int| 0 <= i < e.len() && #[trigger] is_project_at(e, i) ==> e[i].1->0.subprojects.len() == 0,
        0 <= j < e.len(),
        0 <= k < e.len(),
        is_project_at(e, j),
        is_project_at(e, k),
    ensures
        ({
            let ps = discover(e, e.len() as int).0;
            ps[config_index(ps, id_at(e, k), 0)].subprojects.contains(id_at(e, j)) <==> nearest_ancestor(e, j) == k
        }),
{
    lemma_discovery_nesting(e, k);
    lemma_children_contains(e, k, e.len() as int, j);
}

/// A frame of the walk: an open ancestor project.
struct Parent {
    id: String,
    root_dir: Vec<String>,
}

spec fn frames_view(v: Seq<Parent>) -> Seq<Frame> {
    v.map_values(|p: Parent| Frame { id: p.id@, root: path_view(p.root_dir@) })
}

/// Builds the projects and their nesting from the paths of a depth-first,
/// pre-order walk, each with the configuration that loaded there, if any.
pub fn find_projects(entries: Vec<(Vec<String>, Option<FsProjectConfig>)>) -> (r: Vec<
    FsProjectConfig,
>)
    ensures
        config_views(r@) == discover(entries_view(entries@), entries@.len() as int).0,
{
    let ghost ev = entries_view(entries@);
    let total = entries.len();
    let ghost n = total as int;
    let mut entries = entries;
    let mut projects: Vec<FsProjectConfig> = Vec::new();
    let mut parents: Vec<Parent> = Vec::new();
    let mut done: usize = 0;
    assert(config_views(projects@) =~= Seq::<ConfigView>::empty());
    assert(frames_view(parents@) =~= Seq::<Frame>::empty());
    while entries.len() > 0
        invariant
            done + entries@.len() == n,
            n <= usize::MAX,
            ev.len() == n,
            entries_view(entries@) =~= ev.subrange(done as int, n),
            discover(ev, done as int) == (config_views(projects@), frames_view(parents@)),
        decreases entries@.len(),
    {
        let ghost e = ev[done as int];
        let ghost rest = entries_view(entries@);
        assert(rest[0] == ev.subrange(done as int, n)[0]);
        let item = entries.remove(0);
        assert(entries_view(entries@) =~= rest.drop_first());
        assert(entries_view(entries@) =~= ev.subrange(done + 1, n));
        assert(e == entry_view(item));
        let (path, found) = item;
        // Close the ancestors whose subtree the walk has left.
        loop
            invariant
                open_frames(frames_view(parents@), path_view(path@)) == open_frames(
                    discover(ev, done as int).1,
                    path_view(path@),
                ),
            ensures
                open_frames(frames_view(parents@), path_view(path@)) == frames_view(parents@),
                frames_view(parents@) == open_frames(discover(ev, done as int).1, path_view(path@)),
            decreases parents@.len(),
        {
            if parents.len() == 0 {
                break;
            }
            let k = parents.len() - 1;
            if is_prefix_exec(&parents[k].root_dir, &path) {
                break;
            }
            let ghost before = frames_view(parents@);
            parents.pop();
            assert(frames_view(parents@) =~= before.drop_last());
        }
        match found {
            Some(config) => {
                if parents.len() > 0 {
                    let k = parents.len() - 1;
                    match find_config_index(&projects, &parents[k].id) {
                        Some(pi) => {
                            let ghost before = config_views(projects@);
                            name_set_insert(&mut projects[pi].subprojects, config.id.clone());
                            assert(config_views(projects@) =~= add_subproject(
                                before,
                                frames_view(parents@).last().id,
                                config@.id,
                            ));
                        },
                        None => {},
                    }
                }
                let root = match &config.root_dir {
                    Some(r) => clone_path(r),
                    None => Vec::new(),
                };
                assert(path_view(root@) =~= frame_root(config@));
                let ghost fr = Frame { id: config@.id, root: frame_root(config@) };
                let ghost before_frames = frames_view(parents@);
                parents.push(Parent { id: config.id.clone(), root_dir: root });
                assert(frames_view(parents@) =~= before_frames.push(fr));
                let ghost before = config_views(projects@);
                let ghost cv = config@;
                match find_config_index(&projects, &config.id) {
                    Some(i) => {
                        projects.set(i, config);
                        assert(config_views(projects@) =~= before.update(i as int, cv));
                    },
                    None => {
                        projects.push(config);
                        assert(config_views(projects@) =~= before.push(cv));
                    },
                }
            },
            None => {},
        }
        done = done + 1;
    }
    projects
}

} // verus!
