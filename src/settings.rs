//! User settings of the tracker: searching, listing, issue insertion and display.
use vstd::prelude::*;
use vstd::string::StringExecFns;

verus! {

#[derive(Debug, Default)]
pub struct SearchConfig {
    pub projects: SearchProjectsConfig,
}

#[derive(Debug)]
pub struct SearchProjectsConfig {
    pub enabled: bool,
    /// Directories to search, as path components.
    pub dirs: Vec<Vec<String>>,
}

impl Default for SearchProjectsConfig {
    fn default() -> (r: Self)
        ensures
            r.enabled,
            r.dirs@.len() == 0,
    {
        SearchProjectsConfig { enabled: Self::default_enabled(), dirs: Vec::new() }
    }
}

impl SearchProjectsConfig {
    pub fn default_enabled() -> (r: bool)
        ensures
            r,
    {
        true
    }
}

#[derive(Debug, Default)]
pub struct ListConfig {
    pub projects: ListProjectsConfig,
}

#[derive(Debug)]
pub struct ListProjectsConfig {
    pub enabled: bool,
}

impl Default for ListProjectsConfig {
    fn default() -> (r: Self)
        ensures
            r.enabled,
    {
        ListProjectsConfig { enabled: Self::default_enabled() }
    }
}

impl ListProjectsConfig {
    pub fn default_enabled() -> (r: bool)
        ensures
            r,
    {
        true
    }
}

/// Where a new issue goes in its file.
#[derive(Debug, Clone, Copy, PartialEq, Eq, Structural)]
pub enum Order {
    First,
    Last,
}

#[derive(Debug, Default)]
pub struct IssueConfig {
    pub add_order: IssueAddOrder,
}

#[derive(Debug, Clone, Copy, Default, PartialEq, Eq, Structural)]
pub enum IssueAddOrder {
    First,
    #[default]
    Last,
}

impl IssueAddOrder {
    pub fn into_order(self) -> (r: Order)
        ensures
            (self == IssueAddOrder::First) == (r == Order::First),
            (self == IssueAddOrder::Last) == (r == Order::Last),
    {
        match self {
            IssueAddOrder::First => Order::First,
            IssueAddOrder::Last => Order::Last,
        }
    }
}

/// What a project's title shows.
#[derive(Debug, Clone, Copy, Default, PartialEq, Eq, Structural)]
pub enum TitleConsist {
    #[default]
    Id,
    Name,
    IdAndName,
}

#[derive(Debug)]
pub struct DisplayProjectTitleConfig {
    pub consist: TitleConsist,
    pub id_before: Option<String>,
    pub id_after: Option<String>,
    pub name_before: Option<String>,
    pub name_after: Option<String>,
    pub id_and_name_before: Option<String>,
    pub id_and_name_separator: Option<String>,
    pub id_and_name_after: Option<String>,
    pub show_steps_count: bool,
}

pub open spec fn opt_view(o: Option<String>) -> Option<Seq<char>> {
    match o {
        Some(s) => Some(s@),
        None => None,
    }
}

impl Default for DisplayProjectTitleConfig {
    fn default() -> (r: Self)
        ensures
            r.consist == TitleConsist::Id,
            opt_view(r.id_before) == Some(seq!['[']),
            opt_view(r.id_after) == Some(seq![']']),
            r.name_before is None,
            r.name_after is None,
            r.id_and_name_before is None,
            opt_view(r.id_and_name_separator) == Some(seq![' ']),
            r.id_and_name_after is None,
            r.show_steps_count,
    {
        DisplayProjectTitleConfig {
            consist: TitleConsist::Id,
            id_before: Self::default_id_before(),
            id_after: Self::default_id_after(),
            name_before: None,
            name_after: None,
            id_and_name_before: None,
            id_and_name_separator: Self::default_id_and_name_separator(),
            id_and_name_after: None,
            show_steps_count: Self::default_show_steps_count(),
        }
    }
}

impl DisplayProjectTitleConfig {
    pub fn default_id_before() -> (r: Option<String>)
        ensures
            opt_view(r) == Some(seq!['[']),
    {
        proof {
            reveal_strlit("[");
        }
        let s = String::from_str("[");
        assert(s@ =~= seq!['[']);
        Some(s)
    }

    pub fn default_id_after() -> (r: Option<String>)
        ensures
            opt_view(r) == Some(seq![']']),
    {
        proof {
            reveal_strlit("]");
        }
        let s = String::from_str("]");
        assert(s@ =~= seq![']']);
        Some(s)
    }

    pub fn default_id_and_name_separator() -> (r: Option<String>)
        ensures
            opt_view(r) == Some(seq![' ']),
    {
        proof {
            reveal_strlit(" ");
        }
        let s = String::from_str(" ");
        assert(s@ =~= seq![' ']);
        Some(s)
    }

    pub fn default_show_steps_count() -> (r: bool)
        ensures
            r,
    {
        true
    }
}

#[derive(Debug, Default)]
pub struct DisplayProjectConfig {
    pub title: DisplayProjectTitleConfig,
    pub max_steps: Option<usize>,
    pub show_substeps: bool,
    pub compact: bool,
    pub separate_projects: bool,
}

#[derive(Debug, Default)]
pub struct DisplayConfig {
    pub project: DisplayProjectConfig,
}

/// Whether the tracker works on the current directory's projects or on all known ones.
#[derive(Debug, Default, Clone, Copy, PartialEq, Eq, Hash, Structural)]
pub enum WorkingMode {
    #[default]
    Local,
    Global,
}

impl WorkingMode {
    pub fn is_local(&self) -> (r: bool)
        ensures
            r == (*self == WorkingMode::Local),
    {
        match self {
            WorkingMode::Local => true,
            WorkingMode::Global => false,
        }
    }

    pub fn is_global(&self) -> (r: bool)
        ensures
            r == (*self == WorkingMode::Global),
    {
        match self {
            WorkingMode::Local => false,
            WorkingMode::Global => true,
        }
    }

    /// The mode once the command line has forced one: only one of the two flags decides.
    pub fn updated(self, force_local: bool, force_global: bool) -> (r: WorkingMode)
        ensures
            force_local == force_global ==> r == self,
            force_local && !force_global ==> r == WorkingMode::Local,
            force_global && !force_local ==> r == WorkingMode::Global,
    {
        if force_local != force_global {
            if force_local {
                WorkingMode::Local
            } else {
                WorkingMode::Global
            }
        } else {
            self
        }
    }
}

impl DisplayProjectConfig {
    /// Applies the display options of the command line.
    pub fn update(&mut self, force_compact: bool, force_pretty: bool, force_max_steps: Option<usize>)
        ensures
            final(self).max_steps == (match force_max_steps {
                Some(m) => Some(m),
                None => old(self).max_steps,
            }),
            final(self).compact == (if force_compact != force_pretty {
                force_compact
            } else {
                old(self).compact
            }),
            final(self).show_substeps == old(self).show_substeps,
            final(self).separate_projects == old(self).separate_projects,
    {
        if let Some(max_steps) = force_max_steps {
            self.max_steps = Some(max_steps);
        }
        if force_compact != force_pretty {
            self.compact = force_compact && !force_pretty;
        }
    }
}

} // verus!
