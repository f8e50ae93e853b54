//! Projects of the registry.
use vstd::prelude::*;

use crate::config::{strings_view, ConfigView, FsProjectConfig};
use crate::id_set::name_set_to_vec;

verus! {

/// A registered project: its identifier, parent, name and sub-projects.
#[derive(Debug)]
pub struct Project {
    id: String,
    parent_id: Option<String>,
    name: String,
    subprojects: Vec<String>,
}

pub ghost struct ProjectView {
    pub id: Seq<char>,
    pub parent_id: Option<Seq<char>>,
    pub name: Seq<char>,
    pub subprojects: Seq<Seq<char>>,
}

impl View for Project {
    type V = ProjectView;

    closed spec fn view(&self) -> ProjectView {
        ProjectView {
            id: self.id@,
            parent_id: match self.parent_id {
                Some(p) => Some(p@),
                None => None,
            },
            name: self.name@,
            subprojects: strings_view(self.subprojects@),
        }
    }
}

/// The project registered for a configuration, under a parent if it has one.
pub open spec fn project_of(id: Seq<char>, parent: Option<Seq<char>>, c: ConfigView) -> ProjectView {
    ProjectView {
        id,
        parent_id: parent,
        name: match c.name {
            Some(n) => n,
            None => Seq::empty(),
        },
        subprojects: c.subprojects,
    }
}

impl Project {
    pub fn new(id: String, name: String) -> (r: Self)
        ensures
            r@ == (ProjectView { id: id@, parent_id: None, name: name@, subprojects: Seq::empty() }),
    {
        let r = Project { id, parent_id: None, name, subprojects: Vec::new() };
        assert(strings_view(r.subprojects@) =~= Seq::<Seq<char>>::empty());
        r
    }

    pub fn with_parent(self, parent_id: String) -> (r: Self)
        ensures
            r@ == (ProjectView { parent_id: Some(parent_id@), ..self@ }),
    {
        let mut s = self;
        s.set_parent(parent_id);
        s
    }

    pub fn with_subprojects(self, subprojects: Vec<String>) -> (r: Self)
        ensures
            r@ == (ProjectView { subprojects: strings_view(subprojects@), ..self@ }),
    {
        let mut s = self;
        s.subprojects = subprojects;
        s
    }

    /// Sets the parent and gives back the one it replaces.
    pub fn set_parent(&mut self, parent_id: String) -> (r: Option<String>)
        ensures
            final(self)@ == (ProjectView { parent_id: Some(parent_id@), ..old(self)@ }),
            match r {
                Some(p) => old(self)@.parent_id == Some(p@),
                None => old(self)@.parent_id is None,
            },
    {
        let old_parent = self.parent_id.take();
        self.parent_id = Some(parent_id);
        old_parent
    }

    pub fn id(&self) -> (r: &String)
        ensures
            r@ == self@.id,
    {
        &self.id
    }

    pub fn name(&self) -> (r: &str)
        ensures
            r@ == self@.name,
    {
        self.name.as_str()
    }

    pub fn parent_id(&self) -> (r: Option<&String>)
        ensures
            match r {
                Some(p) => self@.parent_id == Some(p@),
                None => self@.parent_id is None,
            },
    {
        match &self.parent_id {
            Some(p) => Some(p),
            None => None,
        }
    }

    pub fn subprojects(&self) -> (r: &Vec<String>)
        ensures
            strings_view(r@) == self@.subprojects,
    {
        &self.subprojects
    }

    /// The project registered for a configuration.
    pub fn load(id: String, parent: Option<String>, config: FsProjectConfig) -> (r: Self)
        ensures
            r@ == project_of(
                id@,
                match parent {
                    Some(p) => Some(p@),
                    None => None,
                },
                config@,
            ),
    {
        let name = match config.name {
            Some(n) => n,
            None => String::new(),
        };
        let mut project = Project::new(id, name).with_subprojects(name_set_to_vec(&config.subprojects));
        match parent {
            Some(parent_id) => {
                project.set_parent(parent_id);
            },
            None => {},
        }
        project
    }
}

} // verus!
