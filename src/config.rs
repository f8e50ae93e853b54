//! Project configuration as the tracker reads it.
use indexmap::IndexSet;
use vstd::prelude::*;

use crate::id_set::{name_set_items, name_set_new};

verus! {

/// A directory path, as its components.
pub open spec fn path_view(p: Seq<String>) -> Seq<Seq<char>> {
    p.map_values(|s: String| s@)
}

pub open spec fn strings_view(v: Seq<String>) -> Seq<Seq<char>> {
    v.map_values(|s: String| s@)
}

pub open spec fn opt_string_view(o: Option<String>) -> Option<Seq<char>> {
    match o {
        Some(s) => Some(s@),
        None => None,
    }
}

/// Insertion into an ordered set of identifiers.
pub open spec fn str_set_insert(s: Seq<Seq<char>>, x: Seq<char>) -> Seq<Seq<char>> {
    if s.contains(x) {
        s
    } else {
        s.push(x)
    }
}

/// The configuration of one project.
#[derive(Debug, Default)]
pub struct FsProjectConfig {
    pub id: String,
    pub name: Option<String>,
    pub desc: Option<String>,
    /// The project's root directory, as path components.
    pub root_dir: Option<Vec<String>>,
    pub tags: Vec<String>,
    pub start_id: Option<u64>,
    /// Identifiers of the sub-projects, each once, in order of insertion.
    pub subprojects: IndexSet<String>,
}

pub ghost struct ConfigView {
    pub id: Seq<char>,
    pub name: Option<Seq<char>>,
    pub desc: Option<Seq<char>>,
    pub root_dir: Option<Seq<Seq<char>>>,
    pub tags: Seq<Seq<char>>,
    pub start_id: Option<u64>,
    pub subprojects: Seq<Seq<char>>,
}

impl View for FsProjectConfig {
    type V = ConfigView;

    open spec fn view(&self) -> ConfigView {
        ConfigView {
            id: self.id@,
            name: opt_string_view(self.name),
            desc: opt_string_view(self.desc),
            root_dir: match self.root_dir {
                Some(p) => Some(path_view(p@)),
                None => None,
            },
            tags: strings_view(self.tags@),
            start_id: self.start_id,
            subprojects: name_set_items(self.subprojects),
        }
    }
}

pub fn contains_string(v: &Vec<String>, x: &String) -> (r: bool)
    ensures
        r == strings_view(v@).contains(x@),
{
    let mut i: usize = 0;
    while i < v.len()
        invariant
            i <= v@.len(),
            forall|k: int| 0 <= k < i ==> strings_view(v@)[k] != x@,
        decreases v@.len() - i,
    {
        if v[i] == *x {
            assert(strings_view(v@)[i as int] == x@);
            return true;
        }
        i = i + 1;
    }
    false
}

/// Inserts `x` into an ordered set of strings.
pub fn string_set_insert(v: &mut Vec<String>, x: String)
    ensures
        strings_view(final(v)@) == str_set_insert(strings_view(old(v)@), x@),
{
    if !contains_string(v, &x) {
        let ghost before = strings_view(v@);
        let ghost xv = x@;
        v.push(x);
        assert(strings_view(v@) =~= before.push(xv));
    }
}

impl FsProjectConfig {
    pub fn new(id: String) -> (r: Self)
        ensures
            r@ == (ConfigView {
                id: id@,
                name: None,
                desc: None,
                root_dir: None,
                tags: Seq::empty(),
                start_id: None,
                subprojects: Seq::empty(),
            }),
    {
        let r = FsProjectConfig {
            id,
            name: None,
            desc: None,
            root_dir: None,
            tags: Vec::new(),
            start_id: None,
            subprojects: name_set_new(),
        };
        assert(strings_view(r.tags@) =~= Seq::<Seq<char>>::empty());
        r
    }

    pub fn with_name(self, name: String) -> (r: Self)
        ensures
            r@ == (ConfigView { name: Some(name@), ..self@ }),
    {
        let mut s = self;
        s.name = Some(name);
        s
    }

    pub fn with_root_dir(self, root_dir: Vec<String>) -> (r: Self)
        ensures
            r@ == (ConfigView { root_dir: Some(path_view(root_dir@)), ..self@ }),
    {
        let mut s = self;
        s.root_dir = Some(root_dir);
        s
    }
}

} // verus!
