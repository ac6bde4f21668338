//! Texts line by line, and blocks of lines between two markers.

use vstd::prelude::*;

use crate::text::{
    chars_of, join_texts, joined, law_joined_texts_keep_their_order, same_chars, string_of, trim_end,
    trim_start, trimmed,
};

verus! {

/// The position of the first `c`, or the length of the text.
pub open spec fn first_position(s: Seq<char>, c: char) -> int
    decreases s.len(),
{
    if s.len() == 0 || s[0] == c {
        0
    } else {
        1 + first_position(s.drop_first(), c)
    }
}

/// The first position is in the text or its end, holds `c`, and none before it
/// does.
pub proof fn lemma_first_position(s: Seq<char>, c: char)
    ensures
        0 <= first_position(s, c) <= s.len(),
        first_position(s, c) < s.len() ==> s[first_position(s, c)] == c,
        forall|i: int| 0 <= i < first_position(s, c) ==> #[trigger] s[i] != c,
    decreases s.len(),
{
    if s.len() > 0 && s[0] != c {
        lemma_first_position(s.drop_first(), c);
        let n = first_position(s.drop_first(), c);
        assert forall|i: int| 0 <= i < n + 1 implies #[trigger] s[i] != c by {
            if i > 0 {
                assert(s.drop_first()[i - 1] == s[i]);
            }
        }
        if n < s.drop_first().len() {
            assert(s.drop_first()[n] == s[n + 1]);
        }
    }
}

/// A position that holds `c` while none before it does is the first one.
pub proof fn lemma_is_first_position(s: Seq<char>, c: char, n: int)
    requires
        0 <= n <= s.len(),
        n < s.len() ==> s[n] == c,
        forall|i: int| 0 <= i < n ==> #[trigger] s[i] != c,
    ensures
        first_position(s, c) == n,
{
    lemma_first_position(s, c);
    let m = first_position(s, c);
    if m < n {
        assert(s[m] != c);
    }
    if n < m {
        assert(s[n] != c);
    }
}

/// A line without the carriage return at its end.
pub open spec fn without_cr(line: Seq<char>) -> Seq<char> {
    if line.len() > 0 && line.last() == '\r' {
        line.drop_last()
    } else {
        line
    }
}

/// The lines of a text. A line feed ends a line, with or without a carriage
/// return before it; the last line may lack one.
pub open spec fn lines_of(s: Seq<char>) -> Seq<Seq<char>>
    decreases s.len(),
{
    let n = first_position(s, '\n');
    if s.len() == 0 {
        Seq::empty()
    } else if 0 <= n < s.len() {
        seq![without_cr(s.take(n))] + lines_of(s.skip(n + 1))
    } else {
        seq![s]
    }
}

/// Lines as a text, a line feed behind each.
pub open spec fn unlines(ls: Seq<Seq<char>>) -> Seq<char>
    decreases ls.len(),
{
    if ls.len() == 0 {
        Seq::empty()
    } else {
        unlines(ls.drop_last()) + ls.last().push('\n')
    }
}

/// Whether a line can stand in a text as it is: it holds no line feed, and no
/// carriage return ends it.
pub open spec fn plain_line(l: Seq<char>) -> bool {
    &&& forall|i: int| 0 <= i < l.len() ==> #[trigger] l[i] != '\n'
    &&& l.len() > 0 ==> l.last() != '\r'
}

/// Whether every line can stand in a text as it is.
pub open spec fn plain_lines(ls: Seq<Seq<char>>) -> bool {
    forall|i: int| 0 <= i < ls.len() ==> plain_line(#[trigger] ls[i])
}

/// Whether a text is one line at most: it holds no line feed.
pub open spec fn one_line(l: Seq<char>) -> bool {
    forall|i: int| 0 <= i < l.len() ==> #[trigger] l[i] != '\n'
}

/// A line that ends in a line feed is read in front of the rest.
pub proof fn lemma_lines_of_line(l: Seq<char>, rest: Seq<char>)
    requires
        one_line(l),
    ensures
        lines_of(l.push('\n') + rest) == seq![without_cr(l)] + lines_of(rest),
{
    let s = l.push('\n') + rest;
    let n = l.len() as int;
    assert forall|i: int| 0 <= i < n implies #[trigger] s[i] != '\n' by {
        assert(s[i] == l[i]);
    }
    assert(s[n] == '\n');
    lemma_is_first_position(s, '\n', n);
    assert(s.take(n) =~= l);
    assert(s.skip(n + 1) =~= rest);
}

/// Lines are read from the text they make, each without the carriage return at
/// its end.
pub proof fn lemma_written_lines_are_read(ls: Seq<Seq<char>>, rest: Seq<char>)
    requires
        forall|i: int| 0 <= i < ls.len() ==> one_line(#[trigger] ls[i]),
    ensures
        lines_of(unlines(ls) + rest) == ls.map_values(|l: Seq<char>| without_cr(l)) + lines_of(
            rest,
        ),
    decreases ls.len(),
{
    let f = |l: Seq<char>| without_cr(l);
    if ls.len() == 0 {
        assert(unlines(ls) + rest =~= rest);
        assert(ls.map_values(f) + lines_of(rest) =~= lines_of(rest));
    } else {
        let l = ls.last();
        let front = ls.drop_last();
        let tail = l.push('\n') + rest;
        assert(ls[ls.len() - 1] == l);
        lemma_lines_of_line(l, rest);
        assert forall|i: int| 0 <= i < front.len() implies one_line(#[trigger] front[i]) by {
            assert(front[i] == ls[i]);
        }
        lemma_written_lines_are_read(front, tail);
        assert(unlines(ls) + rest =~= unlines(front) + tail);
        assert(front.map_values(f) + (seq![f(l)] + lines_of(rest)) =~= ls.map_values(f) + lines_of(
            rest,
        ));
    }
}

/// Lines that can stand as they are read back from the text they make.
pub proof fn lemma_lines_read_back(ls: Seq<Seq<char>>, rest: Seq<char>)
    requires
        plain_lines(ls),
    ensures
        lines_of(unlines(ls) + rest) == ls + lines_of(rest),
{
    assert forall|i: int| 0 <= i < ls.len() implies one_line(#[trigger] ls[i]) by {
        assert(plain_line(ls[i]));
    }
    lemma_written_lines_are_read(ls, rest);
    let read = ls.map_values(|l: Seq<char>| without_cr(l));
    assert forall|i: int| 0 <= i < ls.len() implies read[i] == ls[i] by {
        assert(plain_line(ls[i]));
    }
    assert(read =~= ls);
}

/// Lines behind others make a text behind theirs.
pub proof fn lemma_unlines_append(a: Seq<Seq<char>>, b: Seq<Seq<char>>)
    ensures
        unlines(a + b) == unlines(a) + unlines(b),
    decreases b.len(),
{
    if b.len() == 0 {
        assert(a + b =~= a);
        assert(unlines(a) + unlines(b) =~= unlines(a));
    } else {
        assert((a + b).drop_last() =~= a + b.drop_last());
        assert((a + b).last() == b.last());
        lemma_unlines_append(a, b.drop_last());
        assert(unlines(a + b) =~= unlines(a) + unlines(b));
    }
}

/// Whether a text is made of lines that all end in a line feed, without a carriage
/// return before it.
pub open spec fn whole_lines(s: Seq<char>) -> bool {
    &&& s.len() > 0 ==> s.last() == '\n'
    &&& forall|i: int| 0 < i < s.len() && s[i] == '\n' ==> #[trigger] s[i - 1] != '\r'
}

/// A text of whole lines is made by the lines that are read from it.
pub proof fn lemma_whole_lines_are_kept(s: Seq<char>)
    requires
        whole_lines(s),
    ensures
        unlines(lines_of(s)) == s,
        plain_lines(lines_of(s)),
    decreases s.len(),
{
    let n = first_position(s, '\n');
    lemma_first_position(s, '\n');
    if s.len() > 0 {
        if n == s.len() {
            assert(s[s.len() - 1] != '\n');
        }
        let l = s.take(n);
        let rest = s.skip(n + 1);
        assert forall|i: int| 0 < i < rest.len() && rest[i] == '\n' implies #[trigger] rest[i - 1]
            != '\r' by {
            assert(s[n + 1 + i] == '\n');
            assert(s[n + 1 + i - 1] != '\r');
        }
        lemma_whole_lines_are_kept(rest);
        if n > 0 {
            assert(s[n - 1] != '\r');
            assert(l.last() == s[n - 1]);
        }
        assert(without_cr(l) == l);
        lemma_unlines_append(seq![l], lines_of(rest));
        assert(seq![l].drop_last() =~= Seq::empty());
        assert(unlines(seq![l].drop_last()) =~= Seq::empty());
        assert(unlines(seq![l]) =~= l.push('\n'));
        assert(l.push('\n') + rest =~= s);
        let ls = lines_of(s);
        assert forall|i: int| 0 <= i < ls.len() implies plain_line(#[trigger] ls[i]) by {
            if i == 0 {
                assert forall|j: int| 0 <= j < l.len() implies #[trigger] l[j] != '\n' by {
                    assert(s[j] != '\n');
                }
            } else {
                assert(ls[i] == lines_of(rest)[i - 1]);
            }
        }
    }
}

/// The lines of a text.
pub fn split_lines(s: &str) -> (r: Vec<String>)
    ensures
        r.deep_view() == lines_of(s@),
{
    let cs = chars_of(s);
    let ghost t = s@;
    let mut r: Vec<String> = Vec::new();
    let mut p: usize = 0;
    proof {
        assert(t.skip(0) =~= t);
        assert(r.deep_view() + lines_of(t.skip(0)) =~= lines_of(t));
    }
    while p < cs.len()
        invariant
            t == cs@,
            p <= cs@.len(),
            r.deep_view() + lines_of(t.skip(p as int)) == lines_of(t),
        decreases cs@.len() - p,
    {
        let ghost rest = t.skip(p as int);
        let mut q: usize = p;
        while q < cs.len() && cs[q] != '\n'
            invariant
                t == cs@,
                rest == t.skip(p as int),
                p <= q <= cs@.len(),
                forall|i: int| p <= i < q ==> #[trigger] cs@[i] != '\n',
            decreases cs@.len() - q,
        {
            q += 1;
        }
        let ghost n = q - p;
        proof {
            assert forall|i: int| 0 <= i < n implies #[trigger] rest[i] != '\n' by {
                assert(rest[i] == cs@[p + i]);
            }
            if q < cs@.len() {
                assert(rest[n] == cs@[q as int]);
            }
            lemma_is_first_position(rest, '\n', n);
        }
        let ghost before = r.deep_view();
        if q < cs.len() {
            let end: usize = if q > p && cs[q - 1] == '\r' {
                q - 1
            } else {
                q
            };
            let line = string_of(vstd::slice::slice_subrange(cs.as_slice(), p, end));
            r.push(line);
            proof {
                assert(rest.take(n) =~= cs@.subrange(p as int, q as int));
                if q > p {
                    assert(rest.take(n).last() == cs@[q - 1]);
                }
                assert(line@ =~= without_cr(rest.take(n)));
                assert(r.deep_view() =~= before.push(line@));
                assert(rest.skip(n + 1) =~= t.skip(q + 1));
                assert(r.deep_view() + lines_of(t.skip(q + 1)) =~= before + lines_of(rest));
            }
            p = q + 1;
        } else {
            let line = string_of(vstd::slice::slice_subrange(cs.as_slice(), p, q));
            r.push(line);
            proof {
                assert(line@ =~= rest);
                assert(r.deep_view() =~= before.push(line@));
                assert(t.skip(q as int) =~= Seq::<char>::empty());
                assert(r.deep_view() + lines_of(t.skip(q as int)) =~= before + lines_of(rest));
            }
            p = q;
        }
    }
    proof {
        assert(t.skip(p as int) =~= Seq::<char>::empty());
        assert(r.deep_view() + lines_of(t.skip(p as int)) =~= r.deep_view());
    }
    r
}

/// Lines as a text, a line feed behind each.
pub fn join_lines(ls: &Vec<String>) -> (r: String)
    ensures
        r@ == unlines(ls.deep_view()),
{
    let ghost v = ls.deep_view();
    let mut r = String::new();
    let mut i: usize = 0;
    proof {
        assert(v.take(0) =~= Seq::empty());
    }
    while i < ls.len()
        invariant
            i <= ls@.len(),
            v == ls.deep_view(),
            r@ == unlines(v.take(i as int)),
        decreases ls@.len() - i,
    {
        let ghost before = r@;
        r.append(ls[i].as_str());
        r.push('\n');
        proof {
            assert(v.take(i + 1).drop_last() =~= v.take(i as int));
            assert(v.take(i + 1).last() == v[i as int]);
            assert(r@ =~= before + v[i as int].push('\n'));
        }
        i += 1;
    }
    proof {
        assert(v.take(v.len() as int) =~= v);
    }
    r
}

/// How the markers of a block are recognised.
pub struct MarkersView {
    pub begin: Seq<char>,
    pub end: Seq<char>,
    /// Whether white space around a marker is overlooked.
    pub trimmed: bool,
}

/// Whether a line is the given marker.
pub open spec fn is_marker(m: MarkersView, line: Seq<char>, marker: Seq<char>) -> bool {
    if m.trimmed {
        trimmed(line) == marker
    } else {
        line == marker
    }
}

/// Whether the line behind `ls` stands inside a block.
pub open spec fn inside_block(m: MarkersView, ls: Seq<Seq<char>>) -> bool
    decreases ls.len(),
{
    if ls.len() == 0 {
        false
    } else if is_marker(m, ls.last(), m.begin) {
        true
    } else if is_marker(m, ls.last(), m.end) {
        false
    } else {
        inside_block(m, ls.drop_last())
    }
}

/// The lines outside all blocks, without the markers.
pub open spec fn outside_lines(m: MarkersView, ls: Seq<Seq<char>>) -> Seq<Seq<char>>
    decreases ls.len(),
{
    if ls.len() == 0 {
        Seq::empty()
    } else {
        let rest = outside_lines(m, ls.drop_last());
        if is_marker(m, ls.last(), m.begin) || is_marker(m, ls.last(), m.end) || inside_block(
            m,
            ls.drop_last(),
        ) {
            rest
        } else {
            rest.push(ls.last())
        }
    }
}

/// The lines inside all blocks, without the markers.
pub open spec fn inside_lines(m: MarkersView, ls: Seq<Seq<char>>) -> Seq<Seq<char>>
    decreases ls.len(),
{
    if ls.len() == 0 {
        Seq::empty()
    } else {
        let rest = inside_lines(m, ls.drop_last());
        if !is_marker(m, ls.last(), m.begin) && !is_marker(m, ls.last(), m.end) && inside_block(
            m,
            ls.drop_last(),
        ) {
            rest.push(ls.last())
        } else {
            rest
        }
    }
}

/// Whether no line is a marker.
pub open spec fn no_markers(m: MarkersView, ls: Seq<Seq<char>>) -> bool {
    forall|i: int|
        0 <= i < ls.len() ==> !is_marker(m, #[trigger] ls[i], m.begin) && !is_marker(
            m,
            ls[i],
            m.end,
        )
}

/// What is left outside holds no marker and only lines that were there.
pub proof fn lemma_outside_lines(m: MarkersView, ls: Seq<Seq<char>>)
    ensures
        no_markers(m, outside_lines(m, ls)),
        forall|i: int|
            0 <= i < outside_lines(m, ls).len() ==> ls.contains(
                #[trigger] outside_lines(m, ls)[i],
            ),
    decreases ls.len(),
{
    if ls.len() > 0 {
        lemma_outside_lines(m, ls.drop_last());
        let rest = outside_lines(m, ls.drop_last());
        let all = outside_lines(m, ls);
        assert forall|i: int| 0 <= i < all.len() implies ls.contains(#[trigger] all[i]) by {
            if i < rest.len() {
                assert(all[i] == rest[i]);
                assert(ls.drop_last().contains(rest[i]));
                let j = choose|j: int| 0 <= j < ls.drop_last().len() && ls.drop_last()[j] == rest[i];
                assert(ls[j] == rest[i]);
            } else {
                assert(ls[ls.len() - 1] == all[i]);
            }
        }
        assert forall|i: int| 0 <= i < all.len() implies !is_marker(m, #[trigger] all[i], m.begin)
            && !is_marker(m, all[i], m.end) by {
            if i < rest.len() {
                assert(all[i] == rest[i]);
            }
        }
    }
}

/// Lines without a marker stay outside as they are, behind whatever is outside.
pub proof fn lemma_outside_append(m: MarkersView, a: Seq<Seq<char>>, b: Seq<Seq<char>>)
    requires
        no_markers(m, b),
        !inside_block(m, a),
    ensures
        outside_lines(m, a + b) == outside_lines(m, a) + b,
        !inside_block(m, a + b),
    decreases b.len(),
{
    if b.len() == 0 {
        assert(a + b =~= a);
        assert(outside_lines(m, a) + b =~= outside_lines(m, a));
    } else {
        assert((a + b).drop_last() =~= a + b.drop_last());
        assert((a + b).last() == b.last());
        assert forall|i: int| 0 <= i < b.drop_last().len() implies !is_marker(
            m,
            #[trigger] b.drop_last()[i],
            m.begin,
        ) && !is_marker(m, b.drop_last()[i], m.end) by {
            assert(b.drop_last()[i] == b[i]);
        }
        lemma_outside_append(m, a, b.drop_last());
        assert(outside_lines(m, a) + b =~= (outside_lines(m, a) + b.drop_last()).push(b.last()));
    }
}

/// A block behind some lines leaves nothing outside.
pub proof fn lemma_block_is_inside(m: MarkersView, a: Seq<Seq<char>>, body: Seq<Seq<char>>)
    requires
        no_markers(m, body),
        is_marker(m, m.begin, m.begin),
        is_marker(m, m.end, m.end),
        !is_marker(m, m.end, m.begin),
    ensures
        ({
            let block = seq![m.begin] + body + seq![m.end];
            &&& outside_lines(m, a + block) == outside_lines(m, a)
            &&& !inside_block(m, a + block)
        }),
{
    let opened = a.push(m.begin);
    lemma_body_is_inside(m, opened, body);
    let all = a + (seq![m.begin] + body + seq![m.end]);
    assert(opened.drop_last() =~= a);
    assert(all.drop_last() =~= opened + body);
    assert(all.last() == m.end);
}

proof fn lemma_body_is_inside(m: MarkersView, opened: Seq<Seq<char>>, body: Seq<Seq<char>>)
    requires
        no_markers(m, body),
        inside_block(m, opened),
    ensures
        outside_lines(m, opened + body) == outside_lines(m, opened),
        inside_block(m, opened + body),
    decreases body.len(),
{
    if body.len() == 0 {
        assert(opened + body =~= opened);
    } else {
        assert((opened + body).drop_last() =~= opened + body.drop_last());
        assert forall|i: int| 0 <= i < body.drop_last().len() implies !is_marker(
            m,
            #[trigger] body.drop_last()[i],
            m.begin,
        ) && !is_marker(m, body.drop_last()[i], m.end) by {
            assert(body.drop_last()[i] == body[i]);
        }
        lemma_body_is_inside(m, opened, body.drop_last());
        assert((opened + body).last() == body.last());
    }
}

/// Lines without a marker that stand outside add nothing to what is inside.
pub proof fn lemma_inside_append(m: MarkersView, a: Seq<Seq<char>>, b: Seq<Seq<char>>)
    requires
        no_markers(m, b),
        !inside_block(m, a),
    ensures
        inside_lines(m, a + b) == inside_lines(m, a),
        !inside_block(m, a + b),
    decreases b.len(),
{
    if b.len() == 0 {
        assert(a + b =~= a);
    } else {
        assert((a + b).drop_last() =~= a + b.drop_last());
        assert((a + b).last() == b.last());
        assert forall|i: int| 0 <= i < b.drop_last().len() implies !is_marker(
            m,
            #[trigger] b.drop_last()[i],
            m.begin,
        ) && !is_marker(m, b.drop_last()[i], m.end) by {
            assert(b.drop_last()[i] == b[i]);
        }
        lemma_inside_append(m, a, b.drop_last());
    }
}

/// What is inside a block behind some lines is its body.
pub proof fn lemma_body_is_found(m: MarkersView, a: Seq<Seq<char>>, body: Seq<Seq<char>>)
    requires
        no_markers(m, body),
        is_marker(m, m.begin, m.begin),
        is_marker(m, m.end, m.end),
        !is_marker(m, m.end, m.begin),
    ensures
        inside_lines(m, a + (seq![m.begin] + body + seq![m.end])) == inside_lines(m, a) + body,
{
    let opened = a.push(m.begin);
    assert(opened.drop_last() =~= a);
    lemma_opened_body(m, opened, body);
    let all = a + (seq![m.begin] + body + seq![m.end]);
    assert(all.drop_last() =~= opened + body);
    assert(all.last() == m.end);
}

proof fn lemma_opened_body(m: MarkersView, opened: Seq<Seq<char>>, body: Seq<Seq<char>>)
    requires
        no_markers(m, body),
        inside_block(m, opened),
    ensures
        inside_lines(m, opened + body) == inside_lines(m, opened) + body,
        inside_block(m, opened + body),
    decreases body.len(),
{
    if body.len() == 0 {
        assert(opened + body =~= opened);
        assert(inside_lines(m, opened) + body =~= inside_lines(m, opened));
    } else {
        assert((opened + body).drop_last() =~= opened + body.drop_last());
        assert forall|i: int| 0 <= i < body.drop_last().len() implies !is_marker(
            m,
            #[trigger] body.drop_last()[i],
            m.begin,
        ) && !is_marker(m, body.drop_last()[i], m.end) by {
            assert(body.drop_last()[i] == body[i]);
        }
        lemma_opened_body(m, opened, body.drop_last());
        assert((opened + body).last() == body.last());
        assert(inside_lines(m, opened) + body =~= (inside_lines(m, opened)
            + body.drop_last()).push(body.last()));
    }
}

fn line_is(line: &str, marker: &str, overlook_space: bool) -> (r: bool)
    ensures
        r == (if overlook_space {
            trimmed(line@) == marker@
        } else {
            line@ == marker@
        }),
{
    let l = chars_of(line);
    let m = chars_of(marker);
    if overlook_space {
        same_chars(trim_end(trim_start(l.as_slice())), m.as_slice())
    } else {
        same_chars(l.as_slice(), m.as_slice())
    }
}

/// The lines outside all blocks, without the markers.
pub fn strip_blocks(ls: &Vec<String>, begin: &str, end: &str, overlook_space: bool) -> (r: Vec<
    String,
>)
    ensures
        r.deep_view() == outside_lines(
            MarkersView { begin: begin@, end: end@, trimmed: overlook_space },
            ls.deep_view(),
        ),
{
    let ghost m = MarkersView { begin: begin@, end: end@, trimmed: overlook_space };
    let ghost v = ls.deep_view();
    let mut r: Vec<String> = Vec::new();
    let mut inside: bool = false;
    let mut i: usize = 0;
    proof {
        assert(v.take(0) =~= Seq::empty());
        assert(r.deep_view() =~= Seq::empty());
    }
    while i < ls.len()
        invariant
            i <= ls@.len(),
            v == ls.deep_view(),
            m == (MarkersView { begin: begin@, end: end@, trimmed: overlook_space }),
            inside == inside_block(m, v.take(i as int)),
            r.deep_view() == outside_lines(m, v.take(i as int)),
        decreases ls@.len() - i,
    {
        proof {
            assert(v.take(i + 1).drop_last() =~= v.take(i as int));
            assert(v.take(i + 1).last() == v[i as int]);
        }
        if line_is(ls[i].as_str(), begin, overlook_space) {
            inside = true;
        } else if line_is(ls[i].as_str(), end, overlook_space) {
            inside = false;
        } else if !inside {
            let ghost before = r.deep_view();
            r.push(ls[i].clone());
            proof {
                assert(r.deep_view() =~= before.push(v[i as int]));
            }
        }
        i += 1;
    }
    proof {
        assert(v.take(v.len() as int) =~= v);
    }
    r
}

/// The lines inside all blocks, without the markers.
pub fn block_lines(ls: &Vec<String>, begin: &str, end: &str, overlook_space: bool) -> (r: Vec<
    String,
>)
    ensures
        r.deep_view() == inside_lines(
            MarkersView { begin: begin@, end: end@, trimmed: overlook_space },
            ls.deep_view(),
        ),
{
    let ghost m = MarkersView { begin: begin@, end: end@, trimmed: overlook_space };
    let ghost v = ls.deep_view();
    let mut r: Vec<String> = Vec::new();
    let mut inside: bool = false;
    let mut i: usize = 0;
    proof {
        assert(v.take(0) =~= Seq::empty());
        assert(r.deep_view() =~= Seq::empty());
    }
    while i < ls.len()
        invariant
            i <= ls@.len(),
            v == ls.deep_view(),
            m == (MarkersView { begin: begin@, end: end@, trimmed: overlook_space }),
            inside == inside_block(m, v.take(i as int)),
            r.deep_view() == inside_lines(m, v.take(i as int)),
        decreases ls@.len() - i,
    {
        proof {
            assert(v.take(i + 1).drop_last() =~= v.take(i as int));
            assert(v.take(i + 1).last() == v[i as int]);
        }
        if line_is(ls[i].as_str(), begin, overlook_space) {
            inside = true;
        } else if line_is(ls[i].as_str(), end, overlook_space) {
            inside = false;
        } else if inside {
            let ghost before = r.deep_view();
            r.push(ls[i].clone());
            proof {
                assert(r.deep_view() =~= before.push(v[i as int]));
            }
        }
        i += 1;
    }
    proof {
        assert(v.take(v.len() as int) =~= v);
    }
    r
}

/// The parts of a text between each two `c`.
pub open spec fn split_on(s: Seq<char>, c: char) -> Seq<Seq<char>>
    decreases s.len(),
{
    let n = first_position(s, c);
    if 0 <= n < s.len() {
        seq![s.take(n)] + split_on(s.skip(n + 1), c)
    } else {
        seq![s]
    }
}

/// The parts of a text between each two `c`.
pub fn split_text(cs: &[char], c: char) -> (r: Vec<String>)
    ensures
        r.deep_view() == split_on(cs@, c),
        r@.len() > 0,
{
    let ghost t = cs@;
    let mut r: Vec<String> = Vec::new();
    let mut p: usize = 0;
    proof {
        assert(t.skip(0) =~= t);
        assert(r.deep_view() + split_on(t.skip(0), c) =~= split_on(t, c));
    }
    loop
        invariant
            t == cs@,
            p <= cs@.len(),
            r.deep_view() + split_on(t.skip(p as int), c) == split_on(t, c),
        decreases cs@.len() - p,
    {
        let ghost rest = t.skip(p as int);
        let mut q: usize = p;
        while q < cs.len() && cs[q] != c
            invariant
                t == cs@,
                p <= q <= cs@.len(),
                forall|i: int| p <= i < q ==> #[trigger] cs@[i] != c,
            decreases cs@.len() - q,
        {
            q += 1;
        }
        let ghost n = q - p;
        proof {
            assert forall|i: int| 0 <= i < n implies #[trigger] rest[i] != c by {
                assert(rest[i] == cs@[p + i]);
            }
            if q < cs@.len() {
                assert(rest[n] == cs@[q as int]);
            }
            lemma_is_first_position(rest, c, n);
        }
        let ghost before = r.deep_view();
        let part = string_of(vstd::slice::slice_subrange(cs, p, q));
        r.push(part);
        proof {
            assert(r.deep_view() =~= before.push(part@));
            assert(part@ =~= rest.take(n));
        }
        if q == cs.len() {
            proof {
                assert(part@ =~= rest);
                assert(r.deep_view() =~= before + split_on(rest, c));
            }
            return r;
        }
        proof {
            assert(rest.skip(n + 1) =~= t.skip(q + 1));
            assert(r.deep_view() + split_on(t.skip(q + 1), c) =~= before + split_on(rest, c));
        }
        p = q + 1;
    }
}

/// Lines as a text, a line feed between each two and one at the end.
pub open spec fn file_text(ls: Seq<Seq<char>>) -> Seq<char> {
    joined(ls, "\n"@) + "\n"@
}

/// A file holds at least one line, if only an empty one.
pub open spec fn at_least_one_line(ls: Seq<Seq<char>>) -> Seq<Seq<char>> {
    if ls.len() == 0 {
        seq![Seq::empty()]
    } else {
        ls
    }
}

/// The text of a file ends every line in a line feed.
pub proof fn lemma_file_text(ls: Seq<Seq<char>>)
    ensures
        file_text(ls) == unlines(at_least_one_line(ls)),
    decreases ls.len(),
{
    reveal_strlit("\n");
    reveal_with_fuel(unlines, 2);
    let one = at_least_one_line(ls);
    if ls.len() <= 1 {
        assert(one.drop_last() =~= Seq::empty());
        assert(file_text(ls) =~= unlines(one));
    } else {
        lemma_file_text(ls.drop_last());
        assert(file_text(ls) =~= unlines(one));
    }
}

/// Lines as a text, a line feed between each two and one at the end.
pub fn join_file(ls: &Vec<String>) -> (r: String)
    ensures
        r@ == file_text(ls.deep_view()),
{
    let mut r = join_texts(ls, "\n");
    r.append("\n");
    r
}

/// What stands on either side of a separator is split for itself.
pub proof fn lemma_split_append(a: Seq<char>, b: Seq<char>, c: char)
    ensures
        split_on(a + seq![c] + b, c) == split_on(a, c) + split_on(b, c),
    decreases a.len(),
{
    let all = a + seq![c] + b;
    let n = first_position(a, c);
    lemma_first_position(a, c);
    if n < a.len() {
        let rest = a.skip(n + 1);
        lemma_split_append(rest, b, c);
        assert(all[n] == c);
        assert forall|i: int| 0 <= i < n implies #[trigger] all[i] != c by {
            assert(all[i] == a[i]);
        }
        lemma_is_first_position(all, c, n);
        assert(all.take(n) =~= a.take(n));
        assert(all.skip(n + 1) =~= rest + seq![c] + b);
        assert(split_on(all, c) =~= split_on(a, c) + split_on(b, c));
    } else {
        assert forall|i: int| 0 <= i < a.len() implies #[trigger] all[i] != c by {
            assert(all[i] == a[i]);
        }
        assert(all[a.len() as int] == c);
        lemma_is_first_position(all, c, a.len() as int);
        assert(all.take(a.len() as int) =~= a);
        assert(all.skip(a.len() as int + 1) =~= b);
        assert(split_on(all, c) =~= split_on(a, c) + split_on(b, c));
    }
}

/// A text without the separator is one part.
pub proof fn lemma_split_one(a: Seq<char>, c: char)
    requires
        !a.contains(c),
    ensures
        split_on(a, c) == seq![a],
{
    assert forall|i: int| 0 <= i < a.len() implies #[trigger] a[i] != c by {
        assert(a.contains(a[i]));
    }
    lemma_is_first_position(a, c, a.len() as int);
}

/// The parts of a text hold no separator, and joined by it they are the text.
pub proof fn law_parts_make_up_the_text(s: Seq<char>, c: char)
    ensures
        joined(split_on(s, c), seq![c]) == s,
        split_on(s, c).len() > 0,
        forall|i: int| 0 <= i < split_on(s, c).len() ==> !(#[trigger] split_on(s, c)[i]).contains(c),
    decreases s.len(),
{
    let n = first_position(s, c);
    lemma_first_position(s, c);
    let parts = split_on(s, c);
    if n < s.len() {
        let rest = s.skip(n + 1);
        let others = split_on(rest, c);
        law_parts_make_up_the_text(rest, c);
        law_joined_texts_keep_their_order(s.take(n), others, seq![c]);
        assert(s =~= s.take(n) + seq![c] + rest);
        assert forall|i: int| 0 <= i < parts.len() implies !(#[trigger] parts[i]).contains(c) by {
            if i > 0 {
                assert(parts[i] == others[i - 1]);
            } else {
                assert forall|j: int| 0 <= j < n implies #[trigger] s.take(n)[j] != c by {
                    assert(s[j] == s.take(n)[j]);
                }
            }
        }
    } else {
        assert(parts =~= seq![s]);
    }
}

/// Texts without the separator that are joined by it come apart again.
pub proof fn law_joined_texts_come_apart(parts: Seq<Seq<char>>, c: char)
    requires
        parts.len() > 0,
        forall|i: int| 0 <= i < parts.len() ==> !(#[trigger] parts[i]).contains(c),
    ensures
        split_on(joined(parts, seq![c]), c) == parts,
    decreases parts.len(),
{
    reveal_with_fuel(joined, 2);
    if parts.len() == 1 {
        lemma_split_one(parts[0], c);
        assert(parts =~= seq![parts[0]]);
    } else {
        let front = parts.drop_last();
        law_joined_texts_come_apart(front, c);
        lemma_split_append(joined(front, seq![c]), parts.last(), c);
        lemma_split_one(parts.last(), c);
        assert(front + seq![parts.last()] =~= parts);
    }
}

/// Each line of a text is followed by a line feed, and read again without it.
pub proof fn law_lines_end_in_line_feeds(l: Seq<char>, rest: Seq<char>)
    requires
        plain_line(l),
    ensures
        lines_of(l + "\n"@ + rest) == seq![l] + lines_of(rest),
        lines_of(l + "\r\n"@ + rest) == seq![l] + lines_of(rest),
        l.len() > 0 ==> lines_of(l) == seq![l],
        lines_of(Seq::empty()) == Seq::<Seq<char>>::empty(),
        unlines(seq![l]) == l + "\n"@,
{
    reveal_strlit("\n");
    reveal_strlit("\r\n");
    reveal_with_fuel(unlines, 2);
    lemma_lines_of_line(l, rest);
    assert(l + "\n"@ + rest =~= l.push('\n') + rest);
    let cr = l.push('\r');
    lemma_lines_of_line(cr, rest);
    assert(without_cr(cr) =~= l);
    assert(l + "\r\n"@ + rest =~= cr.push('\n') + rest);
    lemma_is_first_position(l, '\n', l.len() as int);
    assert(unlines(seq![l]) =~= l + "\n"@);
}

/// Of the lines of a file, those outside the markers and those between them are
/// told apart in order, and the markers belong to neither.
pub proof fn law_blocks_are_told_apart(
    m: MarkersView,
    before: Seq<Seq<char>>,
    body: Seq<Seq<char>>,
    after: Seq<Seq<char>>,
)
    requires
        no_markers(m, before),
        no_markers(m, body),
        no_markers(m, after),
        is_marker(m, m.begin, m.begin),
        is_marker(m, m.end, m.end),
        !is_marker(m, m.end, m.begin),
    ensures
        outside_lines(m, before + (seq![m.begin] + body + seq![m.end]) + after) == before + after,
        inside_lines(m, before + (seq![m.begin] + body + seq![m.end]) + after) == body,
{
    let none = Seq::<Seq<char>>::empty();
    let block = seq![m.begin] + body + seq![m.end];
    assert(none + before =~= before);
    lemma_outside_append(m, none, before);
    lemma_inside_append(m, none, before);
    lemma_block_is_inside(m, before, body);
    lemma_body_is_found(m, before, body);
    lemma_outside_append(m, before + block, after);
    lemma_inside_append(m, before + block, after);
    assert(none + body =~= body);
}

} // verus!
