//! Looking a file up in a directory and its ancestors.
use vstd::prelude::*;

use crate::config::path_view;

verus! {

/// The path of `file` inside the directory made of the first `n` components of `dir`.
pub open spec fn candidate(dir: Seq<Seq<char>>, n: int, file: Seq<Seq<char>>) -> Seq<Seq<char>> {
    dir.subrange(0, n) + file
}

/// `file_exists` answered no for the candidate path of the first `m` components of `dir`.
pub open spec fn refused_at<F: Fn(&Vec<String>) -> bool>(
    file_exists: F,
    dir: Seq<Seq<char>>,
    file: Seq<Seq<char>>,
    m: int,
) -> bool {
    exists|p: Vec<String>|
        path_view(p@) == candidate(dir, m, file) && #[trigger] file_exists.ensures((&p,), false)
}

/// The first of `dir/file`, `parent(dir)/file`, ... up to the root for which `file_exists`
/// holds, each asked once, from the innermost directory out.
pub fn find_in_dir_and_parents<F: Fn(&Vec<String>) -> bool>(
    dir: &Vec<String>,
    file_name: &Vec<String>,
    file_exists: F,
) -> (r: Option<Vec<String>>)
    requires
        forall|p: &Vec<String>| file_exists.requires((p,)),
    ensures
        match r {
            Some(p) => exists|n: int|
                0 <= n <= dir@.len() && path_view(p@) == candidate(path_view(dir@), n, path_view(file_name@))
                    && file_exists.ensures((&p,), true),
            None => forall|m: int|
                0 <= m <= dir@.len() ==> #[trigger] refused_at(
                    file_exists,
                    path_view(dir@),
                    path_view(file_name@),
                    m,
                ),
        },
        match r {
            Some(p) => forall|m: int|
                0 <= m <= dir@.len() && path_view(p@).len() < candidate(
                    path_view(dir@),
                    m,
                    path_view(file_name@),
                ).len() ==> #[trigger] refused_at(
                    file_exists,
                    path_view(dir@),
                    path_view(file_name@),
                    m,
                ),
            None => true,
        },
{
    let mut n: usize = dir.len();
    loop
        invariant
            n <= dir@.len(),
            forall|p: &Vec<String>| file_exists.requires((p,)),
            forall|m: int|
                n < m <= dir@.len() ==> #[trigger] refused_at(
                    file_exists,
                    path_view(dir@),
                    path_view(file_name@),
                    m,
                ),
        decreases n,
    {
        let mut path: Vec<String> = Vec::new();
        let mut i: usize = 0;
        while i < n
            invariant
                i <= n <= dir@.len(),
                path_view(path@) =~= path_view(dir@).subrange(0, i as int),
            decreases n - i,
        {
            let ghost before = path_view(path@);
            path.push(dir[i].clone());
            assert(path_view(path@) =~= before.push(path_view(dir@)[i as int]));
            i = i + 1;
        }
        let mut j: usize = 0;
        while j < file_name.len()
            invariant
                j <= file_name@.len(),
                n <= dir@.len(),
                path_view(path@) =~= path_view(dir@).subrange(0, n as int) + path_view(
                    file_name@,
                ).subrange(0, j as int),
            decreases file_name@.len() - j,
        {
            let ghost before = path_view(path@);
            path.push(file_name[j].clone());
            assert(path_view(path@) =~= before.push(path_view(file_name@)[j as int]));
            j = j + 1;
        }
        assert(path_view(file_name@).subrange(0, j as int) =~= path_view(file_name@));
        let found = file_exists(&path);
        if found {
            assert(path_view(path@) == candidate(path_view(dir@), n as int, path_view(file_name@)));
            return Some(path);
        }
        assert(refused_at(file_exists, path_view(dir@), path_view(file_name@), n as int));
        if n == 0 {
            return None;
        }
        n = n - 1;
    }
}

} // verus!
