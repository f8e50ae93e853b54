//! What a command acts on: a tracker and a project location.
use vstd::prelude::*;
use vstd::string::StrSliceExecFns;

verus! {

#[derive(Debug, Default, Clone, Copy, PartialEq, Eq, Structural)]
pub enum TrackerType {
    #[default]
    Fs,
}

#[derive(Debug)]
pub struct Target {
    pub tracker: TrackerType,
    pub location: Location,
}

/// A project given by its path, its identifier or its name.
#[derive(Debug, Clone)]
pub enum Location {
    Path(String),
    Id(String),
    Name(String),
}

impl Location {
    /// A location given on the command line: a path where it holds a separator, else a name.
    pub fn from_unknown(location: String) -> (r: Self)
        ensures
            location@.contains('/') ==> (r matches Location::Path(p) && p@ == location@),
            !location@.contains('/') ==> (r matches Location::Name(n) && n@ == location@),
    {
        let n = location.as_str().unicode_len();
        let mut i: usize = 0;
        let mut has_separator = false;
        while i < n
            invariant
                n == location@.len(),
                i <= n,
                has_separator == exists|k: int| 0 <= k < i && location@[k] == '/',
            decreases n - i,
        {
            if location.as_str().get_char(i) == '/' {
                has_separator = true;
            }
            i = i + 1;
        }
        if has_separator {
            Location::Path(location)
        } else {
            Location::Name(location)
        }
    }
}

} // verus!
