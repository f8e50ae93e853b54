//! Where a configuration or a plan resides.
use vstd::prelude::*;

use vstd::string::StringExecFns;

use crate::config::path_view;

verus! {

/// A whole file, or a fenced block inside a file.
#[derive(Debug, Clone)]
pub enum Placement<P> {
    WholeFile(P),
    CodeBlockInFile(P),
}

impl<P> Placement<P> {
    pub open spec fn spec_path(&self) -> P {
        match self {
            Placement::WholeFile(p) => *p,
            Placement::CodeBlockInFile(p) => *p,
        }
    }

    pub open spec fn is_block(&self) -> bool {
        self is CodeBlockInFile
    }

    /// The same placement of another path.
    pub fn map<Q, F: FnOnce(P) -> Q>(self, f: F) -> (r: Placement<Q>)
        requires
            f.requires((self.spec_path(),)),
        ensures
            r.is_block() == self.is_block(),
            f.ensures((self.spec_path(),), r.spec_path()),
    {
        match self {
            Placement::WholeFile(p) => Placement::WholeFile(f(p)),
            Placement::CodeBlockInFile(p) => Placement::CodeBlockInFile(f(p)),
        }
    }

    /// The same placement of a path computed from this one's.
    pub fn map_ref<Q, F: FnOnce(&P) -> Q>(&self, f: F) -> (r: Placement<Q>)
        requires
            f.requires((&self.spec_path(),)),
        ensures
            r.is_block() == self.is_block(),
            f.ensures((&self.spec_path(),), r.spec_path()),
    {
        match self {
            Placement::WholeFile(p) => Placement::WholeFile(f(p)),
            Placement::CodeBlockInFile(p) => Placement::CodeBlockInFile(f(p)),
        }
    }

    pub fn path(&self) -> (r: &P)
        ensures
            *r == self.spec_path(),
    {
        match self {
            Placement::WholeFile(p) => p,
            Placement::CodeBlockInFile(p) => p,
        }
    }
}

/// A path that starts at the file-system root.
pub open spec fn is_absolute(p: Seq<Seq<char>>) -> bool {
    p.len() > 0 && p[0] == seq!['/']
}

/// `p` read from the directory `root`: an absolute `p` stays as it is.
pub open spec fn joined(root: Seq<Seq<char>>, p: Seq<Seq<char>>) -> Seq<Seq<char>> {
    if is_absolute(p) {
        p
    } else {
        root + p
    }
}

impl Placement<Vec<String>> {
    /// Reads the placement's path from the directory `root`.
    pub fn set_root(&mut self, root: &Vec<String>)
        ensures
            final(self).is_block() == old(self).is_block(),
            path_view(final(self).spec_path()@) == joined(path_view(root@), path_view(old(self).spec_path()@)),
    {
        let block = match self {
            Placement::WholeFile(_) => false,
            Placement::CodeBlockInFile(_) => true,
        };
        let p = match self {
            Placement::WholeFile(p) => p,
            Placement::CodeBlockInFile(p) => p,
        };
        let slash = String::from_str("/");
        proof {
            reveal_strlit("/");
        }
        assert(slash@ =~= seq!['/']);
        let absolute = p.len() > 0 && p[0] == slash;
        let ghost pv = path_view(p@);
        let mut joined_path: Vec<String> = Vec::new();
        if absolute {
            let mut i: usize = 0;
            while i < p.len()
                invariant
                    i <= p@.len(),
                    pv == path_view(p@),
                    path_view(joined_path@) =~= pv.subrange(0, i as int),
                decreases p@.len() - i,
            {
                let ghost before = path_view(joined_path@);
                joined_path.push(p[i].clone());
                assert(path_view(joined_path@) =~= before.push(pv[i as int]));
                i = i + 1;
            }
        } else {
            let mut i: usize = 0;
            while i < root.len()
                invariant
                    i <= root@.len(),
                    path_view(joined_path@) =~= path_view(root@).subrange(0, i as int),
                decreases root@.len() - i,
            {
                let ghost before = path_view(joined_path@);
                joined_path.push(root[i].clone());
                assert(path_view(joined_path@) =~= before.push(path_view(root@)[i as int]));
                i = i + 1;
            }
            let mut j: usize = 0;
            while j < p.len()
                invariant
                    j <= p@.len(),
                    pv == path_view(p@),
                    path_view(joined_path@) =~= path_view(root@) + pv.subrange(0, j as int),
                decreases p@.len() - j,
            {
                let ghost before = path_view(joined_path@);
                joined_path.push(p[j].clone());
                assert(path_view(joined_path@) =~= before.push(pv[j as int]));
                j = j + 1;
            }
        }
        *self = if block {
            Placement::CodeBlockInFile(joined_path)
        } else {
            Placement::WholeFile(joined_path)
        };
    }
}

} // verus!
