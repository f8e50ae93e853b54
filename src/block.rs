//! Fenced blocks inside host documents: reading the lines of a block, and
//! writing a block back while keeping the rest of the document.
use vstd::prelude::*;
use vstd::string::{StrSliceExecFns, StringExecFns};

use crate::text::{
    chars_of, is_ws, lemma_ws_run_bounds, trim_end, trim_end_at, ws_run,
    ws_run_at,
};

verus! {

/// Opening fence of an outline block embedded in a document.
pub const MD_BLOCK_START: &'static str = "```md todo";

/// Closing fence of an embedded block.
pub const MD_BLOCK_END: &'static str = "```";

/// Opening fence of a project configuration block embedded in a document.
pub const CONFIG_BLOCK_START: &'static str = "```toml project";

/// `c` is `m`, or an upper-case ASCII letter whose lower-case form is `m`.
pub open spec fn same_letter(c: char, m: char) -> bool {
    c == m || ('A' <= c && c <= 'Z' && (c as u32) + 32 == (m as u32))
}

/// `s[a..b]` equals the lower-case ASCII text `m` once its ASCII letters are lowered.
/// Where `m` holds neither `k` nor `i` (the Kelvin sign lowers to `k`, and the dotted
/// capital I to an `i` with a combining dot), this is what comparing
/// `s[a..b].to_lowercase()` with `m` decides; both fences of this module qualify.
pub open spec fn equal_ignoring_case(s: Seq<char>, a: int, b: int, m: Seq<char>) -> bool {
    b - a == m.len() && forall|i: int| 0 <= i < m.len() ==> same_letter(#[trigger] s[a + i], m[i])
}

/// The line, with surrounding white space dropped, is the marker `m`, whatever the case of its letters.
pub open spec fn is_marker_line(s: Seq<char>, m: Seq<char>) -> bool {
    let a = ws_run(s, 0);
    equal_ignoring_case(s, a, trim_end(s, a, s.len() as int), m)
}

/// A line that starts, once trailing white space is dropped, with a fence.
pub open spec fn is_fence_line(s: Seq<char>) -> bool {
    s.len() >= 3 && s[0] == '`' && s[1] == '`' && s[2] == '`'
}

/// A fence with text right after it opens a nested block.
pub open spec fn opens_nested(s: Seq<char>) -> bool {
    trim_end(s, 0, s.len() as int) > 3 && !is_ws(s[3])
}

/// Where a scan of a host document stands: inside the block or not, and how deep in nested fences.
pub ghost struct BlockScan {
    pub in_block: bool,
    pub inner: nat,
}

/// One line of the host document: the new scan state, and whether the line belongs to the block.
pub open spec fn scan_line(st: BlockScan, s: Seq<char>) -> (BlockScan, bool) {
    if !st.in_block {
        (BlockScan { in_block: is_marker_line(s, MD_BLOCK_START@), inner: st.inner }, false)
    } else if is_fence_line(s.subrange(0, trim_end(s, 0, s.len() as int))) {
        if opens_nested(s) {
            (BlockScan { in_block: true, inner: st.inner + 1 }, true)
        } else if st.inner == 0 {
            (BlockScan { in_block: false, inner: 0 }, false)
        } else {
            (BlockScan { in_block: true, inner: (st.inner - 1) as nat }, true)
        }
    } else {
        (st, true)
    }
}

pub open spec fn scan_state(lines: Seq<Seq<char>>, n: int) -> BlockScan
    decreases n,
{
    if n <= 0 {
        BlockScan { in_block: false, inner: 0 }
    } else {
        scan_line(scan_state(lines, n - 1), lines[n - 1]).0
    }
}

/// The numbered lines of the first `n` lines of a host document that lie inside outline blocks.
pub open spec fn block_lines_spec(lines: Seq<Seq<char>>, n: int) -> Seq<(usize, Seq<char>)>
    decreases n,
{
    if n <= 0 {
        Seq::empty()
    } else {
        let prev = block_lines_spec(lines, n - 1);
        if scan_line(scan_state(lines, n - 1), lines[n - 1]).1 {
            prev.push(((n - 1) as usize, lines[n - 1]))
        } else {
            prev
        }
    }
}

/// Every line of a document, numbered from 0.
pub open spec fn numbered_spec(lines: Seq<Seq<char>>) -> Seq<(usize, Seq<char>)> {
    Seq::new(lines.len(), |i: int| (i as usize, lines[i]))
}

pub open spec fn string_views(v: Seq<String>) -> Seq<Seq<char>> {
    v.map_values(|s: String| s@)
}

pub open spec fn numbered_views(v: Seq<(usize, String)>) -> Seq<(usize, Seq<char>)> {
    v.map_values(|p: (usize, String)| (p.0, p.1@))
}

pub(crate) fn is_marker_line_exec(line: &str, m: &str) -> (r: bool)
    ensures
        r == is_marker_line(line@, m@),
{
    let s = chars_of(line);
    let mc = chars_of(m);
    proof {
        lemma_ws_run_bounds(s@, 0);
    }
    let a = ws_run_at(&s, 0);
    let b = trim_end_at(&s, a, s.len());
    if b - a != mc.len() {
        return false;
    }
    let mut i: usize = 0;
    while i < mc.len()
        invariant
            a <= b <= s@.len(),
            b - a == mc@.len(),
            a == ws_run(s@, 0),
            b == trim_end(s@, a as int, s@.len() as int),
            mc@ == m@,
            s@ == line@,
            i <= mc@.len(),
            forall|j: int| 0 <= j < i ==> same_letter(#[trigger] s@[a + j], mc@[j]),
        decreases mc@.len() - i,
    {
        let c = s[a + i];
        let mch = mc[i];
        if !(c == mch || ('A' <= c && c <= 'Z' && (c as u32) + 32 == (mch as u32))) {
            assert(!same_letter(s@[a + i], mc@[i as int]));
            return false;
        }
        i = i + 1;
    }
    true
}

fn scan_line_exec(in_block: bool, inner: usize, line: &str) -> (r: (bool, usize, bool))
    requires
        inner < usize::MAX,
    ensures
        ({
            let (st, keep) = scan_line(BlockScan { in_block, inner: inner as nat }, line@);
            r.0 == st.in_block && r.1 == st.inner && r.2 == keep
        }),
        r.1 <= inner + 1,
{
    if !in_block {
        let starts = is_marker_line_exec(line, MD_BLOCK_START);
        (starts, inner, false)
    } else {
        let s = chars_of(line);
        let t = trim_end_at(&s, 0, s.len());
        if t >= 3 && s[0] == '`' && s[1] == '`' && s[2] == '`' {
            if t > 3 && !crate::text::is_ws_char(s[3]) {
                (true, inner + 1, true)
            } else if inner == 0 {
                (false, 0, false)
            } else {
                (true, inner - 1, true)
            }
        } else {
            (true, inner, true)
        }
    }
}

/// The numbered lines of a host document that lie inside its outline blocks.
pub fn block_lines(lines: &Vec<String>) -> (r: Vec<(usize, String)>)
    ensures
        numbered_views(r@) == block_lines_spec(string_views(lines@), lines@.len() as int),
{
    let ghost ls = string_views(lines@);
    let mut r: Vec<(usize, String)> = Vec::new();
    let mut in_block = false;
    let mut inner: usize = 0;
    let mut i: usize = 0;
    while i < lines.len()
        invariant
            ls == string_views(lines@),
            i <= lines@.len(),
            inner <= i,
            scan_state(ls, i as int) == (BlockScan { in_block, inner: inner as nat }),
            numbered_views(r@) == block_lines_spec(ls, i as int),
        decreases lines@.len() - i,
    {
        let (b, n, keep) = scan_line_exec(in_block, inner, lines[i].as_str());
        if keep {
            let ghost before = numbered_views(r@);
            r.push((i, lines[i].clone()));
            assert(numbered_views(r@) =~= before.push((i, ls[i as int])));
        }
        in_block = b;
        inner = n;
        i = i + 1;
    }
    r
}

/// Every line of a document, numbered from 0.
pub fn numbered(lines: &Vec<String>) -> (r: Vec<(usize, String)>)
    ensures
        numbered_views(r@) == numbered_spec(string_views(lines@)),
{
    let mut r: Vec<(usize, String)> = Vec::new();
    let mut i: usize = 0;
    while i < lines.len()
        invariant
            i <= lines@.len(),
            numbered_views(r@) =~= numbered_spec(string_views(lines@)).subrange(0, i as int),
        decreases lines@.len() - i,
    {
        let ghost before = numbered_views(r@);
        r.push((i, lines[i].clone()));
        assert(numbered_views(r@) =~= before.push((i, string_views(lines@)[i as int])));
        i = i + 1;
    }
    r
}

/// The lines of a block: its opening fence, its body, its closing fence.
pub open spec fn block_of(start: Seq<char>, end: Seq<char>, body: Seq<Seq<char>>) -> Seq<Seq<char>> {
    seq![start] + body + seq![end]
}

/// The text of the first `n` lines of a document that lie between a `start` and an
/// `end` marker line, each followed by a line feed.
pub open spec fn marked_text(lines: Seq<Seq<char>>, n: int, start: Seq<char>, end: Seq<char>) -> (
    Seq<char>,
    bool,
)
    decreases n,
{
    if n <= 0 {
        (Seq::empty(), false)
    } else {
        let (text, inside) = marked_text(lines, n - 1, start, end);
        let l = lines[n - 1];
        if is_marker_line(l, start) {
            (text, true)
        } else if is_marker_line(l, end) {
            (text, false)
        } else if inside {
            (text + l + seq!['\n'], true)
        } else {
            (text, false)
        }
    }
}

/// The text held between the `start` and `end` marker lines of a document, without
/// its trailing white space.
pub open spec fn marked_block_text(lines: Seq<Seq<char>>, start: Seq<char>, end: Seq<char>) -> Seq<
    char,
> {
    let t = marked_text(lines, lines.len() as int, start, end).0;
    t.subrange(0, trim_end(t, 0, t.len() as int))
}

/// The text held between the `start` and `end` marker lines of a document.
pub fn block_text(lines: &Vec<String>, start: &str, end: &str) -> (r: String)
    ensures
        r@ == marked_block_text(string_views(lines@), start@, end@),
{
    let ghost ls = string_views(lines@);
    let mut text = String::new();
    let mut inside = false;
    let mut i: usize = 0;
    while i < lines.len()
        invariant
            ls == string_views(lines@),
            i <= lines@.len(),
            marked_text(ls, i as int, start@, end@) == (text@, inside),
        decreases lines@.len() - i,
    {
        let line = lines[i].as_str();
        if is_marker_line_exec(line, start) {
            inside = true;
        } else if is_marker_line_exec(line, end) {
            inside = false;
        } else if inside {
            let ghost t0 = text@;
            proof {
                reveal_strlit("\n");
            }
            text.append(line);
            text.append("\n");
            assert(text@ =~= t0 + ls[i as int] + seq!['\n']);
        }
        i = i + 1;
    }
    let s = chars_of(text.as_str());
    let t = trim_end_at(&s, 0, s.len());
    String::from_str(text.as_str().substring_char(0, t))
}

} // verus!
