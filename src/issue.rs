//! Issues and milestones of a plan.
use indexmap::IndexSet;
use vstd::prelude::*;
use vstd::string::StringExecFns;

use crate::id_set::{id_set_insert, id_set_items, id_set_new, seq_set_insert};

verus! {

#[derive(Debug, Copy, Clone, PartialEq, Eq, Hash)]
pub enum LinkType {
    FinishToStart,
    StartToStart,
    FinishToFinish,
    StartToFinish,
}

#[derive(Debug, Clone, PartialEq, Eq, Hash)]
pub enum DependencyType {
    Before,
    After,
    Blocks,
    IsBlockedBy,
    Contains,
    IsContainedIn,
    RelatesTo,
    AssociatedWith,
    Other(String),
}

#[derive(Debug, Clone, PartialEq, Eq)]
pub struct Relation {
    pub link: LinkType,
    pub dependency: DependencyType,
}

#[derive(Debug, Clone, PartialEq, Eq)]
pub struct IssueRelation {
    pub to_id: u64,
    pub relation: Relation,
}

/// A task of a plan; parent and children are held as identifiers.
#[derive(Debug, PartialEq, Eq)]
pub struct Issue {
    pub id: u64,
    pub parent_id: Option<u64>,
    pub name: String,
    pub content: String,
    pub subissues: IndexSet<u64>,
    pub relations: Vec<IssueRelation>,
}

/// The mathematical value of an issue.
pub ghost struct IssueView {
    pub id: u64,
    pub parent_id: Option<u64>,
    pub name: Seq<char>,
    pub content: Seq<char>,
    pub subissues: Seq<u64>,
    pub relations: Seq<IssueRelation>,
}

impl View for Issue {
    type V = IssueView;

    open spec fn view(&self) -> IssueView {
        IssueView {
            id: self.id,
            parent_id: self.parent_id,
            name: self.name@,
            content: self.content@,
            subissues: id_set_items(self.subissues),
            relations: self.relations@,
        }
    }
}

/// A fresh issue with a name and nothing else.
pub open spec fn new_issue_view(id: u64, name: Seq<char>) -> IssueView {
    IssueView {
        id,
        parent_id: None,
        name,
        content: Seq::empty(),
        subissues: Seq::empty(),
        relations: Seq::empty(),
    }
}

impl Issue {
    pub fn new(id: u64, name: &str) -> (r: Self)
        ensures
            r@ == new_issue_view(id, name@),
    {
        Issue {
            id,
            parent_id: None,
            name: String::from_str(name),
            content: String::new(),
            subissues: id_set_new(),
            relations: Vec::new(),
        }
    }

    pub fn with_parent_id(self, parent_id: u64) -> (r: Self)
        ensures
            r@ == (IssueView { parent_id: Some(parent_id), ..self@ }),
    {
        let mut s = self;
        s.parent_id = Some(parent_id);
        s
    }

    pub fn with_content(self, content: &str) -> (r: Self)
        ensures
            r@ == (IssueView { content: content@, ..self@ }),
    {
        let mut s = self;
        s.content = String::from_str(content);
        s
    }

    pub fn with_subissue(self, subissue_id: u64) -> (r: Self)
        ensures
            r@ == (IssueView { subissues: seq_set_insert(self@.subissues, subissue_id), ..self@ }),
    {
        let mut s = self;
        id_set_insert(&mut s.subissues, subissue_id);
        s
    }
}

/// A point of the plan that needs the issues of the run before it.
#[derive(Debug, PartialEq, Eq)]
pub struct Milestone {
    pub id: u64,
    pub name: String,
    pub needed_issues: IndexSet<u64>,
}

/// The mathematical value of a milestone.
pub ghost struct MilestoneView {
    pub id: u64,
    pub name: Seq<char>,
    pub needed_issues: Seq<u64>,
}

impl View for Milestone {
    type V = MilestoneView;

    open spec fn view(&self) -> MilestoneView {
        MilestoneView { id: self.id, name: self.name@, needed_issues: id_set_items(self.needed_issues) }
    }
}

impl Milestone {
    pub fn new(id: u64, name: &str) -> (r: Self)
        ensures
            r@ == (MilestoneView { id, name: name@, needed_issues: Seq::empty() }),
    {
        Milestone { id, name: String::from_str(name), needed_issues: id_set_new() }
    }

    pub fn with_needed_issue(self, issue_id: u64) -> (r: Self)
        ensures
            r@ == (MilestoneView {
                needed_issues: seq_set_insert(self@.needed_issues, issue_id),
                ..self@
            }),
    {
        let mut s = self;
        id_set_insert(&mut s.needed_issues, issue_id);
        s
    }
}

} // verus!
