//! Insertion-ordered sets of identifiers, kept in `indexmap::IndexSet`.
use indexmap::IndexSet;
use vstd::prelude::*;

verus! {

#[verifier::external_type_specification]
#[verifier::external_body]
#[verifier::reject_recursive_types(T)]
#[verifier::reject_recursive_types(S)]
pub struct ExIndexSet<T, S>(IndexSet<T, S>);

/// The identifiers held by an `IndexSet<u64>`, in insertion order.
pub uninterp spec fn id_set_items(s: IndexSet<u64>) -> Seq<u64>;

/// The sequence obtained by inserting `x` into an insertion-ordered set.
pub open spec fn seq_set_insert(s: Seq<u64>, x: u64) -> Seq<u64> {
    if s.contains(x) {
        s
    } else {
        s.push(x)
    }
}

/// Relies on `IndexSet::new`: a new set holds nothing.
#[verifier::external_body]
pub(crate) fn id_set_new() -> (r: IndexSet<u64>)
    ensures
        id_set_items(r) == Seq::<u64>::empty(),
{
    IndexSet::new()
}

/// Relies on `IndexSet::insert`: an item already present leaves the set and its
/// order unchanged and gives `false`; a new item goes last and gives `true`.
#[verifier::external_body]
pub(crate) fn id_set_insert(s: &mut IndexSet<u64>, x: u64) -> (r: bool)
    ensures
        r == !id_set_items(*old(s)).contains(x),
        id_set_items(*final(s)) == seq_set_insert(id_set_items(*old(s)), x),
{
    s.insert(x)
}

/// Relies on `IndexSet::len`: the number of items.
#[verifier::external_body]
pub(crate) fn id_set_len(s: &IndexSet<u64>) -> (r: usize)
    ensures
        r == id_set_items(*s).len(),
{
    s.len()
}

/// Relies on `IndexSet::get_index`: the item at a position, if there is one.
#[verifier::external_body]
pub(crate) fn id_set_get(s: &IndexSet<u64>, i: usize) -> (r: Option<u64>)
    ensures
        i < id_set_items(*s).len() ==> r == Some(id_set_items(*s)[i as int]),
        i >= id_set_items(*s).len() ==> r is None,
{
    s.get_index(i).copied()
}

/// The identifiers of a set, in insertion order.
pub fn id_set_to_vec(s: &IndexSet<u64>) -> (r: Vec<u64>)
    ensures
        r@ == id_set_items(*s),
{
    let n = id_set_len(s);
    let mut r: Vec<u64> = Vec::new();
    let mut i: usize = 0;
    while i < n
        invariant
            n == id_set_items(*s).len(),
            i <= n,
            r@ == id_set_items(*s).subrange(0, i as int),
        decreases n - i,
    {
        let x = id_set_get(s, i);
        match x {
            Some(v) => {
                r.push(v);
            },
            None => {},
        }
        proof {
            assert(id_set_items(*s).subrange(0, i + 1) == id_set_items(*s).subrange(0, i as int).push(id_set_items(*s)[i as int]));
        }
        i = i + 1;
    }
    proof {
        assert(id_set_items(*s).subrange(0, n as int) == id_set_items(*s));
    }
    r
}

/// The names held by an `IndexSet<String>`, in insertion order.
pub uninterp spec fn name_set_items(s: IndexSet<String>) -> Seq<Seq<char>>;

/// Insertion into an ordered set of names.
pub open spec fn seq_name_insert(s: Seq<Seq<char>>, x: Seq<char>) -> Seq<Seq<char>> {
    if s.contains(x) {
        s
    } else {
        s.push(x)
    }
}

/// Relies on `IndexSet::new`: a new set holds nothing.
#[verifier::external_body]
pub(crate) fn name_set_new() -> (r: IndexSet<String>)
    ensures
        name_set_items(r) == Seq::<Seq<char>>::empty(),
{
    IndexSet::new()
}

/// Relies on `IndexSet::insert`, which compares `String`s by their text: a name already
/// present leaves the set and its order unchanged; a new name goes last.
#[verifier::external_body]
pub(crate) fn name_set_insert(s: &mut IndexSet<String>, x: String) -> (r: bool)
    ensures
        r == !name_set_items(*old(s)).contains(x@),
        name_set_items(*final(s)) == seq_name_insert(name_set_items(*old(s)), x@),
{
    s.insert(x)
}

/// Relies on `IndexSet::len`: the number of names.
#[verifier::external_body]
pub(crate) fn name_set_len(s: &IndexSet<String>) -> (r: usize)
    ensures
        r == name_set_items(*s).len(),
{
    s.len()
}

/// Relies on `IndexSet::get_index`: a copy of the name at a position, if there is one.
#[verifier::external_body]
pub(crate) fn name_set_get(s: &IndexSet<String>, i: usize) -> (r: Option<String>)
    ensures
        i < name_set_items(*s).len() ==> r is Some && r->0@ == name_set_items(*s)[i as int],
        i >= name_set_items(*s).len() ==> r is None,
{
    s.get_index(i).cloned()
}

/// The names of a set, in insertion order.
pub fn name_set_to_vec(s: &IndexSet<String>) -> (r: Vec<String>)
    ensures
        r@.map_values(|x: String| x@) == name_set_items(*s),
{
    let n = name_set_len(s);
    let mut r: Vec<String> = Vec::new();
    let mut i: usize = 0;
    while i < n
        invariant
            n == name_set_items(*s).len(),
            i <= n,
            r@.map_values(|x: String| x@) =~= name_set_items(*s).subrange(0, i as int),
        decreases n - i,
    {
        let ghost before = r@.map_values(|x: String| x@);
        match name_set_get(s, i) {
            Some(v) => {
                r.push(v);
            },
            None => {},
        }
        assert(r@.map_values(|x: String| x@) =~= before.push(name_set_items(*s)[i as int]));
        i = i + 1;
    }
    r
}

} // verus!
