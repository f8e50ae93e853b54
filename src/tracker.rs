//! The project registry: projects, their nesting, roots and plans, built once.
use vstd::prelude::*;

use crate::config::{
    path_view, str_set_insert, string_set_insert, strings_view, ConfigView, FsProjectConfig,
};
use crate::block::string_views;
use crate::discovery::config_views;
use crate::id_set::name_set_to_vec;
use crate::load::{load_project_plan, opt_lines_view, project_plan_spec, LoadPlanError};
use crate::plan::{Plan, PlanView};
use crate::project::{project_of, Project, ProjectView};

verus! {

/// A child-to-parent or key-to-value list, keyed by its first component.
pub open spec fn key_index<V>(s: Seq<(Seq<char>, V)>, k: Seq<char>, i: int) -> int
    decreases s.len() - i,
{
    if i < 0 || i >= s.len() {
        -1
    } else if s[i].0 == k {
        i
    } else {
        key_index(s, k, i + 1)
    }
}

/// The value under a key, if any.
pub open spec fn lookup<V>(s: Seq<(Seq<char>, V)>, k: Seq<char>) -> Option<V> {
    let i = key_index(s, k, 0);
    if i >= 0 {
        Some(s[i].1)
    } else {
        None
    }
}

/// Keyed insertion: a pair with the same key gets the new value in place.
pub open spec fn key_upsert(
    s: Seq<(Seq<char>, Seq<char>)>,
    k: Seq<char>,
    v: Seq<char>,
) -> Seq<(Seq<char>, Seq<char>)> {
    let i = key_index(s, k, 0);
    if i >= 0 {
        s.update(i, (k, v))
    } else {
        s.push((k, v))
    }
}

/// Records `parent` as the parent of each of `children`, in order.
pub open spec fn with_parent(
    s: Seq<(Seq<char>, Seq<char>)>,
    parent: Seq<char>,
    children: Seq<Seq<char>>,
) -> Seq<(Seq<char>, Seq<char>)>
    decreases children.len(),
{
    if children.len() == 0 {
        s
    } else {
        key_upsert(with_parent(s, parent, children.drop_last()), children.last(), parent)
    }
}

/// The child-to-parent list of the first `n` configurations.
pub open spec fn parent_map(configs: Seq<ConfigView>, n: int) -> Seq<(Seq<char>, Seq<char>)>
    decreases n,
{
    if n <= 0 {
        Seq::empty()
    } else {
        with_parent(parent_map(configs, n - 1), configs[n - 1].id, configs[n - 1].subprojects)
    }
}

/// Adds `child` to the children of `parent`, opening a group for a new parent.
pub open spec fn group_insert(
    g: Seq<(Seq<char>, Seq<Seq<char>>)>,
    parent: Seq<char>,
    child: Seq<char>,
) -> Seq<(Seq<char>, Seq<Seq<char>>)> {
    let i = key_index(g, parent, 0);
    if i >= 0 {
        g.update(i, (parent, str_set_insert(g[i].1, child)))
    } else {
        g.push((parent, seq![child]))
    }
}

/// The children of each parent, from the first `n` child-to-parent pairs.
pub open spec fn children_groups(parents: Seq<(Seq<char>, Seq<char>)>, n: int) -> Seq<
    (Seq<char>, Seq<Seq<char>>),
>
    decreases n,
{
    if n <= 0 {
        Seq::empty()
    } else {
        group_insert(children_groups(parents, n - 1), parents[n - 1].1, parents[n - 1].0)
    }
}

pub open spec fn pairs_view(v: Seq<(String, String)>) -> Seq<(Seq<char>, Seq<char>)> {
    v.map_values(|p: (String, String)| (p.0@, p.1@))
}

pub open spec fn groups_view(v: Seq<(String, Vec<String>)>) -> Seq<(Seq<char>, Seq<Seq<char>>)> {
    v.map_values(|p: (String, Vec<String>)| (p.0@, strings_view(p.1@)))
}

pub open spec fn roots_view(v: Seq<(String, Vec<String>)>) -> Seq<(Seq<char>, Seq<Seq<char>>)> {
    v.map_values(|p: (String, Vec<String>)| (p.0@, path_view(p.1@)))
}

pub open spec fn plans_view(v: Seq<(String, Plan)>) -> Seq<(Seq<char>, PlanView)> {
    v.map_values(|p: (String, Plan)| (p.0@, p.1@))
}

pub open spec fn project_views(v: Seq<Project>) -> Seq<ProjectView> {
    v.map_values(|p: Project| p@)
}

/// The registered projects of a list of configurations.
pub open spec fn registered(configs: Seq<ConfigView>) -> Seq<ProjectView> {
    let parents = parent_map(configs, configs.len() as int);
    Seq::new(configs.len(), |i: int| project_of(configs[i].id, lookup(parents, configs[i].id), configs[i]))
}

/// The root directories of the configurations that name one, in order.
pub open spec fn root_dirs(configs: Seq<ConfigView>, n: int) -> Seq<(Seq<char>, Seq<Seq<char>>)>
    decreases n,
{
    if n <= 0 {
        Seq::empty()
    } else {
        let prev = root_dirs(configs, n - 1);
        match configs[n - 1].root_dir {
            Some(r) => prev.push((configs[n - 1].id, r)),
            None => prev,
        }
    }
}

/// The lines of a project's manifest and of its issues file, each where found.
pub open spec fn sources_view(v: Seq<(Option<Vec<String>>, Option<Vec<String>>)>) -> Seq<
    (Option<Seq<Seq<char>>>, Option<Seq<Seq<char>>>),
> {
    v.map_values(
        |p: (Option<Vec<String>>, Option<Vec<String>>)|
            (
                match p.0 {
                    Some(l) => Some(string_views(l@)),
                    None => None,
                },
                match p.1 {
                    Some(l) => Some(string_views(l@)),
                    None => None,
                },
            ),
    )
}

/// The first identifier a project's plan is numbered from.
pub open spec fn start_of(c: ConfigView) -> u64 {
    match c.start_id {
        Some(s) => s,
        None => 1,
    }
}

/// The plans of the first `n` projects that have a root directory and a plan,
/// or the first structural fault among them.
pub open spec fn loaded_plans(
    configs: Seq<ConfigView>,
    sources: Seq<(Option<Seq<Seq<char>>>, Option<Seq<Seq<char>>>)>,
    n: int,
) -> Result<Seq<(Seq<char>, PlanView)>, LoadPlanError>
    decreases n,
{
    if n <= 0 {
        Ok(Seq::empty())
    } else {
        match loaded_plans(configs, sources, n - 1) {
            Err(e) => Err(e),
            Ok(ps) => {
                let c = configs[n - 1];
                if c.root_dir is None {
                    Ok(ps)
                } else {
                    match project_plan_spec(sources[n - 1].0, sources[n - 1].1, start_of(c)) {
                        Err(e) => Err(e),
                        Ok(None) => Ok(ps),
                        Ok(Some(p)) => Ok(ps.push((c.id, p))),
                    }
                }
            },
        }
    }
}

proof fn lemma_loaded_err_persists(
    configs: Seq<ConfigView>,
    sources: Seq<(Option<Seq<Seq<char>>>, Option<Seq<Seq<char>>>)>,
    k: int,
    n: int,
)
    requires
        0 <= k <= n,
        loaded_plans(configs, sources, k) is Err,
    ensures
        loaded_plans(configs, sources, n) == loaded_plans(configs, sources, k),
    decreases n - k,
{
    if k < n {
        lemma_loaded_err_persists(configs, sources, k, n - 1);
    }
}

/// Projects by identifier, with their nesting, root directories and plans.
pub struct FsTracker {
    projects: Vec<Project>,
    project_root_dirs: Vec<(String, Vec<String>)>,
    parents: Vec<(String, String)>,
    planes: Vec<(String, Plan)>,
}

pub ghost struct TrackerView {
    pub projects: Seq<ProjectView>,
    pub root_dirs: Seq<(Seq<char>, Seq<Seq<char>>)>,
    pub parents: Seq<(Seq<char>, Seq<char>)>,
    pub plans: Seq<(Seq<char>, PlanView)>,
}

impl View for FsTracker {
    type V = TrackerView;

    closed spec fn view(&self) -> TrackerView {
        TrackerView {
            projects: project_views(self.projects@),
            root_dirs: roots_view(self.project_root_dirs@),
            parents: pairs_view(self.parents@),
            plans: plans_view(self.planes@),
        }
    }
}

pub proof fn lemma_key_index<V>(s: Seq<(Seq<char>, V)>, k: Seq<char>, i: int)
    requires
        0 <= i,
    ensures
        key_index(s, k, i) == -1 || (i <= key_index(s, k, i) < s.len() && s[key_index(s, k, i)].0
            == k),
        key_index(s, k, i) == -1 ==> forall|j: int| i <= j < s.len() ==> #[trigger] s[j].0 != k,
    decreases s.len() - i,
{
    if 0 <= i < s.len() && s[i].0 != k {
        lemma_key_index(s, k, i + 1);
    }
}

fn find_key<V>(v: &Vec<(String, V)>, k: &String) -> (r: Option<usize>)
    ensures
        match r {
            Some(i) => i == key_index(v@.map_values(|p: (String, V)| (p.0@, p.1)), k@, 0) && i
                < v@.len(),
            None => key_index(v@.map_values(|p: (String, V)| (p.0@, p.1)), k@, 0) == -1,
        },
{
    let ghost s = v@.map_values(|p: (String, V)| (p.0@, p.1));
    let mut i: usize = 0;
    while i < v.len()
        invariant
            i <= v@.len(),
            s == v@.map_values(|p: (String, V)| (p.0@, p.1)),
            key_index(s, k@, 0) == key_index(s, k@, i as int),
        decreases v@.len() - i,
    {
        if v[i].0 == *k {
            return Some(i);
        }
        i = i + 1;
    }
    None
}

fn pair_upsert(v: &mut Vec<(String, String)>, k: String, val: String)
    ensures
        pairs_view(final(v)@) == key_upsert(pairs_view(old(v)@), k@, val@),
{
    let ghost before = pairs_view(v@);
    let ghost kv = (k@, val@);
    assert(v@.map_values(|p: (String, String)| (p.0@, p.1)).map_values(
        |p: (Seq<char>, String)| (p.0, p.1@),
    ) =~= before);
    let found = find_key(v, &k);
    proof {
        lemma_key_index_map(v@, k@, 0);
    }
    match found {
        Some(i) => {
            v.set(i, (k, val));
            assert(pairs_view(v@) =~= before.update(i as int, kv));
        },
        None => {
            v.push((k, val));
            assert(pairs_view(v@) =~= before.push(kv));
        },
    }
}

/// Looking a key up is the same over the strings as over their views.
proof fn lemma_key_index_map(v: Seq<(String, String)>, k: Seq<char>, i: int)
    requires
        0 <= i,
    ensures
        key_index(v.map_values(|p: (String, String)| (p.0@, p.1)), k, i) == key_index(
            pairs_view(v),
            k,
            i,
        ),
    decreases v.len() - i,
{
    if i < v.len() {
        lemma_key_index_map(v, k, i + 1);
    }
}

fn lookup_parent(parents: &Vec<(String, String)>, id: &String) -> (r: Option<String>)
    ensures
        match r {
            Some(p) => lookup(pairs_view(parents@), id@) == Some(p@),
            None => lookup(pairs_view(parents@), id@) is None,
        },
{
    let found = find_key(parents, id);
    proof {
        lemma_key_index_map(parents@, id@, 0);
    }
    match found {
        Some(i) => Some(parents[i].1.clone()),
        None => None,
    }
}

impl FsTracker {
    /// The registry of a mapping from identifier to configuration, with the plans
    /// that were read for its projects.
    pub fn new(project_configs: Vec<FsProjectConfig>, plans: Vec<(String, Plan)>) -> (r: Self)
        ensures
            r@.parents == parent_map(config_views(project_configs@), project_configs@.len() as int),
            r@.projects == registered(config_views(project_configs@)),
            r@.root_dirs == root_dirs(config_views(project_configs@), project_configs@.len() as int),
            r@.plans == plans_view(plans@),
    {
        let ghost cv = config_views(project_configs@);
        let total = project_configs.len();
        let ghost n = total as int;
        let mut parents: Vec<(String, String)> = Vec::new();
        let mut i: usize = 0;
        assert(pairs_view(parents@) =~= Seq::<(Seq<char>, Seq<char>)>::empty());
        while i < project_configs.len()
            invariant
                cv == config_views(project_configs@),
                n == project_configs@.len(),
                i <= n,
                pairs_view(parents@) == parent_map(cv, i as int),
            decreases n - i,
        {
            let config = &project_configs[i];
            let subs_vec = name_set_to_vec(&config.subprojects);
            assert(strings_view(subs_vec@) =~= subs_vec@.map_values(|x: String| x@));
            let ghost base = pairs_view(parents@);
            let mut j: usize = 0;
            while j < subs_vec.len()
                invariant
                    cv == config_views(project_configs@),
                    i < n,
                    n == project_configs@.len(),
                    config == project_configs@[i as int],
                    strings_view(subs_vec@) == config@.subprojects,
                    j <= subs_vec@.len(),
                    pairs_view(parents@) == with_parent(
                        base,
                        config.id@,
                        strings_view(subs_vec@).subrange(0, j as int),
                    ),
                decreases subs_vec@.len() - j,
            {
                let ghost subs = strings_view(subs_vec@);
                assert(subs.subrange(0, j + 1).drop_last() =~= subs.subrange(0, j as int));
                pair_upsert(&mut parents, subs_vec[j].clone(), config.id.clone());
                j = j + 1;
            }
            assert(strings_view(subs_vec@).subrange(0, j as int) =~= strings_view(subs_vec@));
            i = i + 1;
        }
        let mut projects: Vec<Project> = Vec::new();
        let mut project_root_dirs: Vec<(String, Vec<String>)> = Vec::new();
        let mut configs = project_configs;
        let mut k: usize = 0;
        assert(roots_view(project_root_dirs@) =~= root_dirs(cv, 0));
        while configs.len() > 0
            invariant
                k + configs@.len() == n,
                n <= usize::MAX,
                cv.len() == n,
                config_views(configs@) =~= cv.subrange(k as int, n),
                pairs_view(parents@) == parent_map(cv, n),
                project_views(projects@) =~= registered(cv).subrange(0, k as int),
                roots_view(project_root_dirs@) == root_dirs(cv, k as int),
            decreases configs@.len(),
        {
            let ghost rest = config_views(configs@);
            assert(rest[0] == cv[k as int]);
            let config = configs.remove(0);
            assert(config_views(configs@) =~= rest.drop_first());
            let ghost roots_before = roots_view(project_root_dirs@);
            match &config.root_dir {
                Some(root) => {
                    project_root_dirs.push((config.id.clone(), clone_strings(root)));
                    assert(roots_view(project_root_dirs@) =~= roots_before.push(
                        (cv[k as int].id, path_view(root@)),
                    ));
                },
                None => {},
            }
            let id = config.id.clone();
            let parent = lookup_parent(&parents, &id);
            let ghost before = project_views(projects@);
            let project = Project::load(id, parent, config);
            projects.push(project);
            assert(project_views(projects@) =~= before.push(registered(cv)[k as int]));
            k = k + 1;
        }
        FsTracker { projects, project_root_dirs, parents, planes: plans }
    }

    /// The registry of a mapping from identifier to configuration, reading the plan of
    /// each project with a root directory from the lines of its manifest and issues
    /// file (`sources`, one pair per configuration); the first project whose plan cannot
    /// be read (a malformed outline, or an identifier used by both sources) fails it.
    pub fn load(
        project_configs: Vec<FsProjectConfig>,
        sources: Vec<(Option<Vec<String>>, Option<Vec<String>>)>,
    ) -> (r: Result<Self, LoadPlanError>)
        requires
            sources@.len() == project_configs@.len(),
        ensures
            match loaded_plans(
                config_views(project_configs@),
                sources_view(sources@),
                project_configs@.len() as int,
            ) {
                Ok(ps) => r matches Ok(t) && t@.plans == ps && t@.parents == parent_map(
                    config_views(project_configs@),
                    project_configs@.len() as int,
                ) && t@.projects == registered(config_views(project_configs@)) && t@.root_dirs
                    == root_dirs(config_views(project_configs@), project_configs@.len() as int),
                Err(e) => r matches Err(e2) && e2 == e,
            },
    {
        let ghost cv = config_views(project_configs@);
        let ghost sv = sources_view(sources@);
        let mut plans: Vec<(String, Plan)> = Vec::new();
        let mut i: usize = 0;
        assert(plans_view(plans@) =~= Seq::<(Seq<char>, PlanView)>::empty());
        while i < project_configs.len()
            invariant
                cv == config_views(project_configs@),
                sv == sources_view(sources@),
                sources@.len() == project_configs@.len(),
                i <= project_configs@.len(),
                loaded_plans(cv, sv, i as int) == Ok::<Seq<(Seq<char>, PlanView)>, LoadPlanError>(
                    plans_view(plans@),
                ),
            decreases project_configs@.len() - i,
        {
            let config = &project_configs[i];
            let source = &sources[i];
            let manifest = match &source.0 {
                Some(l) => Some(l),
                None => None,
            };
            let issues = match &source.1 {
                Some(l) => Some(l),
                None => None,
            };
            assert(opt_lines_view(manifest) == sv[i as int].0);
            assert(opt_lines_view(issues) == sv[i as int].1);
            if config.root_dir.is_some() {
                match load_project_plan(config, manifest, issues) {
                    Ok(Some(plan)) => {
                        let ghost before = plans_view(plans@);
                        let ghost pv = plan@;
                        plans.push((config.id.clone(), plan));
                        assert(plans_view(plans@) =~= before.push((cv[i as int].id, pv)));
                    },
                    Ok(None) => {},
                    Err(e) => {
                        proof {
                            lemma_loaded_err_persists(cv, sv, i + 1, project_configs@.len() as int);
                        }
                        return Err(e);
                    },
                }
            }
            i = i + 1;
        }
        Ok(FsTracker::new(project_configs, plans))
    }

    pub fn projects(&self) -> (r: &Vec<Project>)
        ensures
            project_views(r@) == self@.projects,
    {
        &self.projects
    }

    /// The child-to-parent pairs.
    pub fn project_parents(&self) -> (r: &Vec<(String, String)>)
        ensures
            pairs_view(r@) == self@.parents,
    {
        &self.parents
    }

    /// The children of each parent, parents in order of first appearance.
    pub fn subprojects(&self) -> (r: Vec<(String, Vec<String>)>)
        ensures
            groups_view(r@) == children_groups(self@.parents, self@.parents.len() as int),
    {
        let ghost ps = pairs_view(self.parents@);
        let mut groups: Vec<(String, Vec<String>)> = Vec::new();
        let mut i: usize = 0;
        assert(groups_view(groups@) =~= children_groups(ps, 0));
        while i < self.parents.len()
            invariant
                ps == pairs_view(self.parents@),
                i <= self.parents@.len(),
                groups_view(groups@) == children_groups(ps, i as int),
            decreases self.parents@.len() - i,
        {
            let child = self.parents[i].0.clone();
            let parent = &self.parents[i].1;
            let ghost before = groups_view(groups@);
            let found = find_key(&groups, parent);
            proof {
                lemma_group_index_map(groups@, parent@, 0);
            }
            match found {
                Some(g) => {
                    proof {
                        lemma_key_index(before, parent@, 0);
                    }
                    let ghost gv = before[g as int];
                    let (name, mut children) = groups.remove(g);
                    string_set_insert(&mut children, child);
                    groups.insert(g, (name, children));
                    assert(groups_view(groups@) =~= before.update(
                        g as int,
                        (parent@, str_set_insert(gv.1, ps[i as int].0)),
                    ));
                },
                None => {
                    let mut children: Vec<String> = Vec::new();
                    let ghost cv = child@;
                    children.push(child);
                    assert(strings_view(children@) =~= seq![cv]);
                    groups.push((parent.clone(), children));
                    assert(groups_view(groups@) =~= before.push((parent@, seq![cv])));
                },
            }
            i = i + 1;
        }
        groups
    }

    pub fn project_plan(&self, id: &String) -> (r: Option<&Plan>)
        ensures
            match r {
                Some(p) => lookup(self@.plans, id@) == Some(p@),
                None => lookup(self@.plans, id@) is None,
            },
    {
        let found = find_key(&self.planes, id);
        proof {
            lemma_plan_index_map(self.planes@, id@, 0);
        }
        match found {
            Some(i) => Some(&self.planes[i].1),
            None => None,
        }
    }

    pub fn project_root_dir(&self, id: &String) -> (r: Option<&Vec<String>>)
        ensures
            match r {
                Some(p) => lookup(self@.root_dirs, id@) == Some(path_view(p@)),
                None => lookup(self@.root_dirs, id@) is None,
            },
    {
        let found = find_key(&self.project_root_dirs, id);
        proof {
            lemma_root_index_map(self.project_root_dirs@, id@, 0);
        }
        match found {
            Some(i) => Some(&self.project_root_dirs[i].1),
            None => None,
        }
    }
}

fn clone_strings(p: &Vec<String>) -> (r: Vec<String>)
    ensures
        strings_view(r@) == strings_view(p@),
{
    let mut r: Vec<String> = Vec::new();
    let mut i: usize = 0;
    while i < p.len()
        invariant
            i <= p@.len(),
            strings_view(r@) =~= strings_view(p@).subrange(0, i as int),
        decreases p@.len() - i,
    {
        let ghost before = strings_view(r@);
        r.push(p[i].clone());
        assert(strings_view(r@) =~= before.push(strings_view(p@)[i as int]));
        i = i + 1;
    }
    r
}

proof fn lemma_group_index_map(v: Seq<(String, Vec<String>)>, k: Seq<char>, i: int)
    requires
        0 <= i,
    ensures
        key_index(v.map_values(|p: (String, Vec<String>)| (p.0@, p.1)), k, i) == key_index(
            groups_view(v),
            k,
            i,
        ),
    decreases v.len() - i,
{
    if i < v.len() {
        lemma_group_index_map(v, k, i + 1);
    }
}

proof fn lemma_root_index_map(v: Seq<(String, Vec<String>)>, k: Seq<char>, i: int)
    requires
        0 <= i,
    ensures
        key_index(v.map_values(|p: (String, Vec<String>)| (p.0@, p.1)), k, i) == key_index(
            roots_view(v),
            k,
            i,
        ),
    decreases v.len() - i,
{
    if i < v.len() {
        lemma_root_index_map(v, k, i + 1);
    }
}

proof fn lemma_plan_index_map(v: Seq<(String, Plan)>, k: Seq<char>, i: int)
    requires
        0 <= i,
    ensures
        key_index(v.map_values(|p: (String, Plan)| (p.0@, p.1)), k, i) == key_index(
            plans_view(v),
            k,
            i,
        ),
    decreases v.len() - i,
{
    if i < v.len() {
        lemma_plan_index_map(v, k, i + 1);
    }
}

} // verus!
