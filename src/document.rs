//! Host documents as text: their lines, and writing a fenced block into them
//! while every byte outside the block stays as it was.
use vstd::prelude::*;
use vstd::string::{StrSliceExecFns, StringExecFns};

use crate::block::{is_marker_line, is_marker_line_exec, string_views};
use crate::save::{ended_line, lines_from, with_final_newline, with_final_newline_exec};
use crate::text::{chars_of, line_end, line_end_at};

verus! {

/// The lines, each followed by a line feed.
pub open spec fn joined_lines(v: Seq<Seq<char>>) -> Seq<char>
    decreases v.len(),
{
    if v.len() == 0 {
        Seq::empty()
    } else {
        joined_lines(v.drop_last()) + v.last() + seq!['\n']
    }
}

/// The position of the first line at or after position `i` (a line start) that is the
/// marker `m`, or -1; lines are taken as `lines_from` takes them.
pub open spec fn marker_line_from(s: Seq<char>, m: Seq<char>, i: int) -> int
    decreases s.len() - i,
{
    if i < 0 || i >= s.len() {
        -1
    } else {
        let e = line_end(s, i);
        if e < i || e >= s.len() {
            if is_marker_line(s.subrange(i, s.len() as int), m) {
                i
            } else {
                -1
            }
        } else if is_marker_line(ended_line(s, i, e), m) {
            i
        } else {
            marker_line_from(s, m, e + 1)
        }
    }
}

/// A document with a block opened by `start`, holding `body` and closed by `end`,
/// written into it. Where the document has a `start` line, the text between that
/// line and the next `end` line is replaced (up to the end of the document where no
/// `end` line follows); elsewhere the block is appended. A document that does not
/// exist yet is a title heading and the block.
pub open spec fn spliced_text(
    existing: Option<Seq<char>>,
    title: Seq<char>,
    start: Seq<char>,
    end: Seq<char>,
    body: Seq<Seq<char>>,
) -> Seq<char> {
    let block = joined_lines(seq![start] + body + seq![end]);
    match existing {
        None => joined_lines(seq![seq!['#', ' '] + title, Seq::empty()]) + block,
        Some(h) => {
            let a = marker_line_from(h, start, 0);
            if a < 0 {
                with_final_newline(h) + block
            } else {
                let e = line_end(h, a);
                if e >= h.len() {
                    h + seq!['\n'] + joined_lines(body + seq![end])
                } else {
                    let b = marker_line_from(h, end, e + 1);
                    if b < 0 {
                        h.subrange(0, e + 1) + joined_lines(body + seq![end])
                    } else {
                        h.subrange(0, e + 1) + joined_lines(body) + h.subrange(b, h.len() as int)
                    }
                }
            }
        },
    }
}

pub proof fn lemma_line_end_facts(s: Seq<char>, i: int)
    requires
        0 <= i <= s.len(),
    ensures
        i <= line_end(s, i) <= s.len(),
        line_end(s, i) < s.len() ==> s[line_end(s, i)] == '\n',
        forall|k: int| i <= k < line_end(s, i) ==> #[trigger] s[k] != '\n',
    decreases s.len() - i,
{
    if i < s.len() && s[i] != '\n' {
        lemma_line_end_facts(s, i + 1);
    }
}

proof fn lemma_line_end_prefix(x: Seq<char>, y: Seq<char>, i: int)
    requires
        0 <= i <= x.len(),
        line_end(x, i) < x.len(),
    ensures
        line_end(x + y, i) == line_end(x, i),
    decreases x.len() - i,
{
    if i < x.len() && x[i] != '\n' {
        lemma_line_end_prefix(x, y, i + 1);
    }
}

proof fn lemma_line_end_shift(x: Seq<char>, y: Seq<char>, j: int)
    requires
        0 <= j,
    ensures
        line_end(x + y, x.len() + j) == x.len() + line_end(y, j),
    decreases y.len() - j,
{
    if j < y.len() && y[j] != '\n' {
        lemma_line_end_shift(x, y, j + 1);
    }
}

proof fn lemma_lines_shift(x: Seq<char>, y: Seq<char>, j: int)
    requires
        0 <= j,
    ensures
        lines_from(x + y, x.len() + j) == lines_from(y, j),
    decreases y.len() - j,
{
    if j < y.len() {
        lemma_line_end_shift(x, y, j);
        lemma_line_end_facts(y, j);
        let e = line_end(y, j);
        let s = x + y;
        if e >= y.len() {
            assert(s.subrange(x.len() + j, s.len() as int) =~= y.subrange(j, y.len() as int));
        } else {
            assert(ended_line(s, x.len() + j, x.len() + e) =~= ended_line(y, j, e));
            lemma_lines_shift(x, y, e + 1);
        }
    }
}

/// The lines of two texts, the first ending with a line feed (or empty), are the
/// lines of each in turn.
pub proof fn lemma_lines_concat(x: Seq<char>, y: Seq<char>, i: int)
    requires
        0 <= i <= x.len(),
        x.len() == 0 || x.last() == '\n',
    ensures
        lines_from(x + y, i) == lines_from(x, i) + lines_from(y, 0),
    decreases x.len() - i,
{
    if i == x.len() {
        lemma_lines_shift(x, y, 0);
        assert(lines_from(x, i) =~= Seq::<Seq<char>>::empty());
        assert(lines_from(x, i) + lines_from(y, 0) =~= lines_from(y, 0));
    } else {
        lemma_line_end_facts(x, i);
        let e = line_end(x, i);
        assert(e < x.len()) by {
            if e >= x.len() {
                assert(x[x.len() - 1] != '\n');
            }
        }
        lemma_line_end_prefix(x, y, i);
        let s = x + y;
        assert(ended_line(s, i, e) =~= ended_line(x, i, e));
        lemma_lines_concat(x, y, e + 1);
        assert(lines_from(x, i) == seq![ended_line(x, i, e)] + lines_from(x, e + 1));
        assert(lines_from(s, i) == seq![ended_line(s, i, e)] + lines_from(s, e + 1));
        assert(seq![ended_line(x, i, e)] + (lines_from(x, e + 1) + lines_from(y, 0)) =~= (seq![
            ended_line(x, i, e),
        ] + lines_from(x, e + 1)) + lines_from(y, 0));
    }
}

/// A line without line feeds and not ending with a carriage return.
pub open spec fn is_plain_line(l: Seq<char>) -> bool {
    (forall|k: int| 0 <= k < l.len() ==> #[trigger] l[k] != '\n') && (l.len() == 0 || l.last() != '\r')
}

proof fn lemma_lines_one(l: Seq<char>)
    requires
        is_plain_line(l),
    ensures
        lines_from(l + seq!['\n'], 0) == seq![l],
{
    let s = l + seq!['\n'];
    lemma_line_end_facts(s, 0);
    assert(line_end(s, 0) == l.len()) by {
        if line_end(s, 0) < l.len() {
            assert(s[line_end(s, 0)] == l[line_end(s, 0)]);
        }
        if line_end(s, 0) > l.len() {
            assert(s[l.len() as int] == '\n');
        }
    }
    assert(ended_line(s, 0, l.len() as int) =~= l);
    assert(lines_from(s, l.len() + 1int) =~= Seq::<Seq<char>>::empty());
    assert(seq![l] + Seq::<Seq<char>>::empty() =~= seq![l]);
}

/// Joining plain lines and splitting the result gives the lines back.
pub proof fn lemma_lines_joined(v: Seq<Seq<char>>)
    requires
        forall|k: int| 0 <= k < v.len() ==> is_plain_line(#[trigger] v[k]),
    ensures
        lines_from(joined_lines(v), 0) == v,
        joined_lines(v).len() == 0 || joined_lines(v).last() == '\n',
    decreases v.len(),
{
    if v.len() == 0 {
        assert(lines_from(Seq::<char>::empty(), 0) =~= v);
    } else {
        let init = v.drop_last();
        assert forall|k: int| 0 <= k < init.len() implies is_plain_line(#[trigger] init[k]) by {
            assert(init[k] == v[k]);
        }
        lemma_lines_joined(init);
        assert(is_plain_line(v[v.len() - 1]));
        lemma_lines_one(v.last());
        let x = joined_lines(init);
        assert(joined_lines(v) =~= x + (v.last() + seq!['\n']));
        lemma_lines_concat(x, v.last() + seq!['\n'], 0);
        assert(init + seq![v.last()] =~= v);
    }
}

proof fn lemma_lines_final_newline_from(h: Seq<char>, i: int)
    requires
        0 <= i < h.len(),
        h.last() != '\n',
        h.last() != '\r',
    ensures
        lines_from(h.push('\n'), i) == lines_from(h, i),
    decreases h.len() - i,
{
    let s = h.push('\n');
    lemma_line_end_facts(h, i);
    let e = line_end(h, i);
    if e >= h.len() {
        lemma_line_end_facts(s, i);
        assert(line_end(s, i) == h.len()) by {
            let e2 = line_end(s, i);
            if e2 < h.len() {
                assert(s[e2] == h[e2]);
                assert(h[e2] != '\n');
            }
            if e2 > h.len() {
                assert(s[h.len() as int] == '\n');
            }
        }
        assert(ended_line(s, i, h.len() as int) =~= h.subrange(i, h.len() as int));
        assert(lines_from(s, h.len() + 1int) =~= Seq::<Seq<char>>::empty());
        assert(seq![h.subrange(i, h.len() as int)] + Seq::<Seq<char>>::empty() =~= seq![h.subrange(i, h.len() as int)]);
    } else {
        assert(h =~= h.subrange(0, h.len() as int));
        lemma_line_end_prefix(h, seq!['\n'], i);
        assert(s =~= h + seq!['\n']);
        assert(ended_line(s, i, e) =~= ended_line(h, i, e));
        assert(e + 1 < h.len()) by {
            if e + 1 >= h.len() {
                assert(h[e] == '\n');
            }
        }
        lemma_lines_final_newline_from(h, e + 1);
    }
}

/// Ending a text with a line feed does not change its lines, unless it ends with a carriage return.
pub proof fn lemma_lines_final_newline(h: Seq<char>)
    requires
        h.len() == 0 || h.last() != '\r',
    ensures
        lines_from(with_final_newline(h), 0) == lines_from(h, 0),
        with_final_newline(h).len() == 0 || with_final_newline(h).last() == '\n',
{
    if h.len() > 0 && h.last() != '\n' {
        lemma_lines_final_newline_from(h, 0);
    }
}

/// A text none of whose lines is the marker `m` has no marker line.
pub proof fn lemma_no_marker_line(s: Seq<char>, m: Seq<char>, i: int)
    requires
        0 <= i,
        forall|k: int| 0 <= k < lines_from(s, i).len() ==> !is_marker_line(#[trigger] lines_from(s, i)[k], m),
    ensures
        marker_line_from(s, m, i) == -1,
    decreases s.len() - i,
{
    if 0 <= i < s.len() {
        lemma_line_end_facts(s, i);
        let e = line_end(s, i);
        if e < s.len() {
            assert(lines_from(s, i)[0] == ended_line(s, i, e));
            assert forall|k: int| 0 <= k < lines_from(s, e + 1).len() implies !is_marker_line(#[trigger] lines_from(s, e + 1)[k], m) by {
                assert(lines_from(s, i)[k + 1] == lines_from(s, e + 1)[k]);
            }
            lemma_no_marker_line(s, m, e + 1);
        } else {
            assert(lines_from(s, i)[0] == s.subrange(i, s.len() as int));
        }
    }
}

/// The lines, each followed by a line feed.
pub fn join_lines(v: &Vec<String>) -> (r: String)
    ensures
        r@ == joined_lines(string_views(v@)),
{
    let mut r = String::new();
    let mut i: usize = 0;
    while i < v.len()
        invariant
            i <= v@.len(),
            r@ == joined_lines(string_views(v@).subrange(0, i as int)),
        decreases v@.len() - i,
    {
        proof {
            reveal_strlit("\n");
        }
        let ghost before = r@;
        r.append(v[i].as_str());
        r.append("\n");
        proof {
            let sv = string_views(v@);
            assert(sv.subrange(0, i + 1).drop_last() =~= sv.subrange(0, i as int));
            assert(r@ =~= before + sv[i as int] + seq!['\n']);
        }
        i = i + 1;
    }
    assert(string_views(v@).subrange(0, i as int) =~= string_views(v@));
    r
}

/// The lines of a text, as `str::lines` gives them.
pub fn split_lines(text: &str) -> (r: Vec<String>)
    ensures
        string_views(r@) == lines_from(text@, 0),
{
    let c = chars_of(text);
    let mut r: Vec<String> = Vec::new();
    let mut i: usize = 0;
    assert(string_views(r@) =~= Seq::<Seq<char>>::empty());
    while i < c.len()
        invariant
            c@ == text@,
            i <= c@.len(),
            lines_from(c@, 0) == string_views(r@) + lines_from(c@, i as int),
        decreases c@.len() - i,
    {
        let e = line_end_at(&c, i);
        let ghost before = string_views(r@);
        if e >= c.len() {
            let line = String::from_str(text.substring_char(i, c.len()));
            r.push(line);
            assert(string_views(r@) =~= before.push(c@.subrange(i as int, c@.len() as int)));
            assert(lines_from(c@, i as int) == seq![c@.subrange(i as int, c@.len() as int)]);
            i = c.len();
            assert(lines_from(c@, i as int) =~= Seq::<Seq<char>>::empty());
        } else {
            let stop = if e > i && c[e - 1] == '\r' {
                e - 1
            } else {
                e
            };
            let line = String::from_str(text.substring_char(i, stop));
            let ghost l = line@;
            assert(l == ended_line(c@, i as int, e as int));
            r.push(line);
            assert(string_views(r@) =~= before.push(l));
            assert(lines_from(c@, i as int) == seq![l] + lines_from(c@, e + 1));
            assert(before + (seq![l] + lines_from(c@, e + 1)) =~= before.push(l) + lines_from(c@, e + 1));
            i = e + 1;
        }
    }
    assert(lines_from(c@, i as int) =~= Seq::<Seq<char>>::empty());
    assert(string_views(r@) + Seq::<Seq<char>>::empty() =~= string_views(r@));
    r
}

/// The position of the first line at or after `i` (a line start) that is the marker `m`.
fn find_marker_line(text: &str, c: &Vec<char>, m: &str, from: usize) -> (r: Option<usize>)
    requires
        c@ == text@,
        from <= c@.len(),
    ensures
        match r {
            Some(a) => a as int == marker_line_from(c@, m@, from as int) && a < c@.len(),
            None => marker_line_from(c@, m@, from as int) == -1,
        },
{
    let mut i = from;
    while i < c.len()
        invariant
            c@ == text@,
            i <= c@.len(),
            marker_line_from(c@, m@, from as int) == marker_line_from(c@, m@, i as int),
        decreases c@.len() - i,
    {
        let e = line_end_at(c, i);
        if e >= c.len() {
            if is_marker_line_exec(text.substring_char(i, c.len()), m) {
                return Some(i);
            }
            return None;
        }
        let stop = if e > i && c[e - 1] == '\r' {
            e - 1
        } else {
            e
        };
        let line = text.substring_char(i, stop);
        assert(line@ == ended_line(c@, i as int, e as int));
        if is_marker_line_exec(line, m) {
            return Some(i);
        }
        i = e + 1;
    }
    None
}

fn one_more(v: &Vec<String>, last: &str) -> (r: Vec<String>)
    ensures
        string_views(r@) == string_views(v@) + seq![last@],
{
    let mut r: Vec<String> = Vec::new();
    let mut i: usize = 0;
    while i < v.len()
        invariant
            i <= v@.len(),
            string_views(r@) =~= string_views(v@).subrange(0, i as int),
        decreases v@.len() - i,
    {
        let ghost before = string_views(r@);
        r.push(v[i].clone());
        assert(string_views(r@) =~= before.push(string_views(v@)[i as int]));
        i = i + 1;
    }
    let ghost before = string_views(r@);
    r.push(String::from_str(last));
    assert(string_views(r@) =~= before.push(last@));
    assert(string_views(v@).subrange(0, i as int) =~= string_views(v@));
    r
}

/// Writes a block holding the lines `body` into a document (`None` where it does not
/// exist yet); outside the block every character of the document stays as it was.
pub fn splice_block(
    existing: Option<&str>,
    title: &str,
    start: &str,
    end: &str,
    body: &Vec<String>,
) -> (r: String)
    ensures
        r@ == spliced_text(
            match existing {
                Some(h) => Some(h@),
                None => None,
            },
            title@,
            start@,
            end@,
            string_views(body@),
        ),
{
    let mut with_start: Vec<String> = Vec::new();
    with_start.push(String::from_str(start));
    assert(string_views(with_start@) =~= seq![start@]);
    let mut i: usize = 0;
    while i < body.len()
        invariant
            i <= body@.len(),
            string_views(with_start@) =~= seq![start@] + string_views(body@).subrange(0, i as int),
        decreases body@.len() - i,
    {
        let ghost before = string_views(with_start@);
        with_start.push(body[i].clone());
        assert(string_views(with_start@) =~= before.push(string_views(body@)[i as int]));
        i = i + 1;
    }
    assert(string_views(body@).subrange(0, i as int) =~= string_views(body@));
    let all = one_more(&with_start, end);
    let block = join_lines(&all);
    match existing {
        None => {
            proof {
                reveal_strlit("# ");
                reveal_strlit("");
            }
            let mut heading: Vec<String> = Vec::new();
            let first = String::from_str("# ").concat(title);
            assert(first@ =~= seq!['#', ' '] + title@);
            heading.push(first);
            heading.push(String::new());
            assert(string_views(heading@) =~= seq![seq!['#', ' '] + title@, Seq::<char>::empty()]);
            join_lines(&heading).concat(block.as_str())
        },
        Some(h) => {
            let c = chars_of(h);
            match find_marker_line(h, &c, start, 0) {
                None => with_final_newline_exec(h).concat(block.as_str()),
                Some(a) => {
                    let e = line_end_at(&c, a);
                    let rest = one_more(body, end);
                    proof {
                        reveal_strlit("\n");
                    }
                    if e >= c.len() {
                        let r = String::from_str(h).concat("\n").concat(join_lines(&rest).as_str());
                        assert(r@ =~= h@ + seq!['\n'] + joined_lines(string_views(body@) + seq![end@]));
                        r
                    } else {
                        let head = String::from_str(h.substring_char(0, e + 1));
                        match find_marker_line(h, &c, end, e + 1) {
                            None => head.concat(join_lines(&rest).as_str()),
                            Some(b) => head.concat(join_lines(body).as_str()).concat(
                                h.substring_char(b, c.len()),
                            ),
                        }
                    }
                },
            }
        },
    }
}

} // verus!
