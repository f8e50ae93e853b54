//! Adding an issue to the text of an issues file or of a manifest.
use vstd::prelude::*;
use vstd::string::{StrSliceExecFns, StringExecFns};

use crate::block::{MD_BLOCK_END, MD_BLOCK_START};
use crate::issue::Issue;
use crate::placement::Placement;
use crate::text::{chars_of, is_ws, is_ws_char, line_end, line_end_at};

verus! {

/// `m` occurs in `h` at position `p`.
pub open spec fn occurs_at(h: Seq<char>, m: Seq<char>, p: int) -> bool {
    0 <= p && p + m.len() <= h.len() && h.subrange(p, p + m.len() as int) == m
}

/// The first position at or after `i` where `m` occurs, or -1.
pub open spec fn next_occurrence(h: Seq<char>, m: Seq<char>, i: int) -> int
    decreases h.len() + 1 - i,
{
    if i < 0 || i + m.len() > h.len() {
        -1
    } else if occurs_at(h, m, i) {
        i
    } else {
        next_occurrence(h, m, i + 1)
    }
}

/// An occurrence at `p` that starts a line and is followed by white space or the end.
pub open spec fn is_mark_at(h: Seq<char>, m: Seq<char>, p: int) -> bool {
    (p == 0 || h[p - 1] == '\n') && (p + m.len() == h.len() || is_ws(h[p + m.len()]))
}

/// Among the occurrences of `m` found left to right without overlap from `i` on,
/// the first at or after `from` that is a mark: its start and end.
pub open spec fn mark_range_from(h: Seq<char>, m: Seq<char>, from: int, i: int) -> Option<(int, int)>
    decreases h.len() + 1 - i,
{
    let p = next_occurrence(h, m, i);
    if p < 0 || p < i || p + m.len() > h.len() {
        None
    } else if p >= from && is_mark_at(h, m, p) {
        Some((p, p + m.len()))
    } else {
        mark_range_from(h, m, from, p + if m.len() == 0 {
            1
        } else {
            m.len() as int
        })
    }
}

proof fn lemma_no_mark_beyond(h: Seq<char>, m: Seq<char>, from: int, i: int)
    requires
        from > h.len(),
    ensures
        mark_range_from(h, m, from, i) is None,
    decreases h.len() + 1 - i,
{
    let p = next_occurrence(h, m, i);
    if !(p < 0 || p < i || p + m.len() > h.len()) {
        lemma_no_mark_beyond(h, m, from, p + if m.len() == 0 {
            1
        } else {
            m.len() as int
        });
    }
}

fn occurs_at_exec(h: &Vec<char>, m: &Vec<char>, p: usize) -> (r: bool)
    requires
        p + m.len() <= h.len(),
    ensures
        r == occurs_at(h@, m@, p as int),
{
    let mut k: usize = 0;
    while k < m.len()
        invariant
            p + m.len() <= h.len(),
            k <= m@.len(),
            forall|j: int| 0 <= j < k ==> h@[p + j] == m@[j],
        decreases m@.len() - k,
    {
        if h[p + k] != m[k] {
            assert(h@.subrange(p as int, p + m@.len())[k as int] != m@[k as int]);
            return false;
        }
        k = k + 1;
    }
    assert(h@.subrange(p as int, p + m@.len()) =~= m@);
    true
}

/// The character range of the first mark `mark` at or after `from_idx` that starts a
/// line and is followed by white space or the end of `haystack`.
pub fn get_newline_mark_range(haystack: &str, mark: &str, from_idx: usize) -> (r: Option<(usize, usize)>)
    ensures
        r matches Some((a, b)) ==> a <= b <= haystack@.len() && b - a == mark@.len(),
        match mark_range_from(haystack@, mark@, from_idx as int, 0) {
            Some((a, b)) => r matches Some((x, y)) && x == a && y == b,
            None => r is None,
        },
{
    let h = chars_of(haystack);
    let m = chars_of(mark);
    let step: usize = if m.len() == 0 {
        1
    } else {
        m.len()
    };
    let mut i: usize = 0;
    while i <= h.len()
        invariant
            h@ == haystack@,
            m@ == mark@,
            step == (if m@.len() == 0 {
                1
            } else {
                m@.len() as int
            }),
            mark_range_from(h@, m@, from_idx as int, 0) == mark_range_from(h@, m@, from_idx as int, i as int),
        decreases h@.len() + 1 - i,
    {
        // Find the next occurrence at or after `i`.
        let mut p = i;
        let mut found = false;
        while p <= h.len() && h.len() - p >= m.len() && !found
            invariant
                i <= p,
                h@ == haystack@,
                m@ == mark@,
                found ==> occurs_at(h@, m@, p as int) && next_occurrence(h@, m@, i as int) == p,
                !found ==> next_occurrence(h@, m@, i as int) == next_occurrence(h@, m@, p as int),
            decreases h@.len() + 1 - p, if found { 0int } else { 1int },
        {
            if occurs_at_exec(&h, &m, p) {
                found = true;
            } else {
                proof {
                    if m@.len() == 0 {
                        assert(h@.subrange(p as int, p as int) =~= m@);
                    }
                }
                p = p + 1;
            }
        }
        if !found {
            assert(next_occurrence(h@, m@, p as int) == -1);
            assert(mark_range_from(h@, m@, from_idx as int, i as int) is None);
            return None;
        }
        let end = p + m.len();
        let fits = (p == 0 || h[p - 1] == '\n') && (end == h.len() || is_ws_char(h[end]));
        if p >= from_idx && fits {
            return Some((p, end));
        }
        if p == h.len() {
            assert(next_occurrence(h@, m@, p + step) == -1);
            assert(mark_range_from(h@, m@, from_idx as int, p + step) is None);
            assert(mark_range_from(h@, m@, from_idx as int, i as int) == mark_range_from(h@, m@, from_idx as int, p + step));
            return None;
        }
        i = p + step;
    }
    None
}

/// The lines of a text as `str::lines` gives them, from position `i` on: split at
/// line feeds, a carriage return before a line feed dropped, no line after a final line feed.
pub open spec fn lines_from(s: Seq<char>, i: int) -> Seq<Seq<char>>
    decreases s.len() - i,
{
    if i < 0 || i >= s.len() {
        Seq::empty()
    } else {
        let e = line_end(s, i);
        if e < i || e >= s.len() {
            seq![s.subrange(i, s.len() as int)]
        } else {
            seq![ended_line(s, i, e)] + lines_from(s, e + 1)
        }
    }
}

/// The line `s[i..e]` ended by the line feed at `e`, without a carriage return before it.
pub open spec fn ended_line(s: Seq<char>, i: int, e: int) -> Seq<char> {
    if e > i && s[e - 1] == '\r' {
        s.subrange(i, e - 1)
    } else {
        s.subrange(i, e)
    }
}

/// `prefix`, then each line on a line of its own indented by two spaces.
pub open spec fn indented_lines(prefix: Seq<char>, lines: Seq<Seq<char>>) -> Seq<char>
    decreases lines.len(),
{
    if lines.len() == 0 {
        prefix
    } else {
        indented_lines(prefix, lines.drop_last()) + seq!['\n', ' ', ' '] + lines.last()
    }
}

/// The outline text of an issue: its header line, then its content indented.
pub open spec fn issue_text(name: Seq<char>, content: Seq<char>) -> Seq<char> {
    indented_lines(seq!['-', ' '] + name, lines_from(content, 0))
}

/// `c`, ending with a line feed unless it is empty.
pub open spec fn with_final_newline(c: Seq<char>) -> Seq<char> {
    if c.len() > 0 && c.last() != '\n' {
        c.push('\n')
    } else {
        c
    }
}

/// `c` followed by a new outline block holding `text`.
pub open spec fn with_new_block(c: Seq<char>, text: Seq<char>) -> Seq<char> {
    with_final_newline(c) + MD_BLOCK_START@ + seq!['\n'] + text + seq!['\n'] + MD_BLOCK_END@ + seq!['\n']
}

/// `c` with `inserted` put at position `at`.
pub open spec fn insert_at(c: Seq<char>, at: int, inserted: Seq<char>) -> Seq<char> {
    c.subrange(0, at) + inserted + c.subrange(at, c.len() as int)
}

/// The text of a file once `text` is added as its first issue.
pub open spec fn added_first(block: bool, c: Seq<char>, text: Seq<char>) -> Seq<char> {
    if !block {
        text + seq!['\n'] + c
    } else {
        match mark_range_from(c, MD_BLOCK_START@, 0, 0) {
            Some((_, e)) => insert_at(c, line_end(c, e), seq!['\n'] + text),
            None => with_new_block(c, text),
        }
    }
}

/// The text of a file once `text` is added as its last issue.
pub open spec fn added_last(block: bool, c: Seq<char>, text: Seq<char>) -> Seq<char> {
    if !block {
        with_final_newline(c) + text + seq!['\n']
    } else {
        match mark_range_from(c, MD_BLOCK_START@, 0, 0) {
            Some((_, e)) => match mark_range_from(c, MD_BLOCK_END@, e + 1, 0) {
                Some((s2, _)) => insert_at(c, s2, text + seq!['\n']),
                None => with_final_newline(c) + text + seq!['\n'],
            },
            None => with_new_block(c, text),
        }
    }
}

pub(crate) fn with_final_newline_exec(c: &str) -> (r: String)
    ensures
        r@ == with_final_newline(c@),
{
    let n = c.unicode_len();
    let mut r = String::from_str(c);
    if n > 0 && c.get_char(n - 1) != '\n' {
        proof {
            reveal_strlit("\n");
        }
        r.append("\n");
        assert(r@ =~= c@.push('\n'));
    }
    r
}

fn with_new_block_exec(c: &str, text: &str) -> (r: String)
    ensures
        r@ == with_new_block(c@, text@),
{
    proof {
        reveal_strlit("\n");
    }
    let mut r = with_final_newline_exec(c);
    r.append(MD_BLOCK_START);
    r.append("\n");
    r.append(text);
    r.append("\n");
    r.append(MD_BLOCK_END);
    r.append("\n");
    r
}

fn insert_at_exec(c: &str, at: usize, first: &str, second: &str) -> (r: String)
    requires
        at <= c@.len(),
    ensures
        r@ == insert_at(c@, at as int, first@ + second@),
{
    let n = c.unicode_len();
    let mut r = String::from_str(c.substring_char(0, at));
    r.append(first);
    r.append(second);
    r.append(c.substring_char(at, n));
    assert(r@ =~= insert_at(c@, at as int, first@ + second@));
    r
}

impl Issue {
    /// The outline text of the issue: `- name`, then each content line indented by two spaces.
    pub fn to_text(&self) -> (r: String)
        ensures
            r@ == issue_text(self.name@, self.content@),
    {
        proof {
            reveal_strlit("- ");
            reveal_strlit("\n  ");
        }
        let mut text = String::from_str("- ").concat(self.name.as_str());
        let ghost prefix = seq!['-', ' '] + self.name@;
        assert(text@ =~= prefix);
        let c = chars_of(self.content.as_str());
        let ghost all = lines_from(c@, 0);
        let ghost mut done: Seq<Seq<char>> = Seq::empty();
        let mut i: usize = 0;
        while i < c.len()
            invariant
                c@ == self.content@,
                all == lines_from(c@, 0),
                i <= c@.len(),
                all == done + lines_from(c@, i as int),
                text@ == indented_lines(prefix, done),
            decreases c@.len() - i,
        {
            let e = line_end_at(&c, i);
            let stop = if e < c.len() && e > i && c[e - 1] == '\r' {
                e - 1
            } else {
                e
            };
            let line = self.content.as_str().substring_char(i, stop);
            let ghost l = line@;
            assert(lines_from(c@, i as int) == seq![l] + lines_from(c@, e + 1));
            proof {
                reveal_strlit("\n  ");
                assert("\n  "@ =~= seq!['\n', ' ', ' ']);
            }
            text.append("\n  ");
            text.append(line);
            proof {
                assert(indented_lines(prefix, done.push(l)) == indented_lines(prefix, done) + seq![
                    '\n',
                    ' ',
                    ' ',
                ] + l) by {
                    assert(done.push(l).drop_last() =~= done);
                }
                assert(text@ =~= indented_lines(prefix, done) + seq!['\n', ' ', ' '] + l);
                assert(done + lines_from(c@, i as int) =~= done.push(l) + lines_from(c@, e + 1));
                done = done.push(l);
            }
            if e >= c.len() {
                i = c.len();
                assert(lines_from(c@, i as int) =~= Seq::<Seq<char>>::empty());
                assert(lines_from(c@, e + 1) =~= Seq::<Seq<char>>::empty());
            } else {
                i = e + 1;
            }
        }
        assert(lines_from(c@, i as int) =~= Seq::<Seq<char>>::empty());
        assert(done + Seq::<Seq<char>>::empty() =~= done);
        text
    }

    /// The text of the file `destination` (now `content`) once the issue is added as its first one.
    pub fn add_first<P>(&self, destination: &Placement<P>, content: &str) -> (r: String)
        ensures
            r@ == added_first(destination.is_block(), content@, issue_text(self.name@, self.content@)),
    {
        proof {
            reveal_strlit("\n");
        }
        let text = self.to_text();
        assert("\n"@ =~= seq!['\n']);
        match destination {
            Placement::WholeFile(_) => {
                assert("\n"@ =~= seq!['\n']);
                let r = text.concat("\n").concat(content);
                assert(r@ =~= text@ + seq!['\n'] + content@);
                r
            },
            Placement::CodeBlockInFile(_) => match get_newline_mark_range(content, MD_BLOCK_START, 0) {
                Some((_, e)) => {
                    let c = chars_of(content);
                    let idx = line_end_at(&c, e);
                    let r = insert_at_exec(content, idx, "\n", text.as_str());
                    assert("\n"@ + text@ =~= seq!['\n'] + text@);
                    r
                },
                None => with_new_block_exec(content, text.as_str()),
            },
        }
    }

    /// The text of the file `destination` (now `content`) once the issue is added as its last one.
    pub fn add_last<P>(&self, destination: &Placement<P>, content: &str) -> (r: String)
        ensures
            r@ == added_last(destination.is_block(), content@, issue_text(self.name@, self.content@)),
    {
        proof {
            reveal_strlit("\n");
        }
        let text = self.to_text();
        assert("\n"@ =~= seq!['\n']);
        match destination {
            Placement::WholeFile(_) => {
                let r = with_final_newline_exec(content).concat(text.as_str()).concat("\n");
                assert(r@ =~= with_final_newline(content@) + text@ + seq!['\n']);
                r
            },
            Placement::CodeBlockInFile(_) => match get_newline_mark_range(content, MD_BLOCK_START, 0) {
                Some((_, e)) => {
                    if e == usize::MAX {
                        let c0 = chars_of(content);
                        assert(c0.len() == content@.len());
                        proof {
                            lemma_no_mark_beyond(content@, MD_BLOCK_END@, e + 1, 0);
                        }
                        let r = with_final_newline_exec(content).concat(text.as_str()).concat("\n");
                        assert(r@ =~= with_final_newline(content@) + text@ + seq!['\n']);
                        return r;
                    }
                    match get_newline_mark_range(content, MD_BLOCK_END, e + 1) {
                        Some((s2, _)) => {
                            let r = insert_at_exec(content, s2, text.as_str(), "\n");
                            assert(text@ + "\n"@ =~= text@ + seq!['\n']);
                            r
                        },
                        None => {
                            let r = with_final_newline_exec(content).concat(text.as_str()).concat("\n");
                            assert(r@ =~= with_final_newline(content@) + text@ + seq!['\n']);
                            r
                        },
                    }
                },
                None => with_new_block_exec(content, text.as_str()),
            },
        }
    }
}

} // verus!
