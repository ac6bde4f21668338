//! Captured output of containers, generation by generation.

use vstd::prelude::*;

use crate::seqs::{lemma_filter_holds, lemma_filter_keeps_order};

verus! {

/// A captured line.
#[derive(Debug)]
pub struct LogLine {
    pub seq: i64,
    pub stream: String,
    pub ts: String,
    pub line: String,
}

/// A captured line.
pub struct LogLineView {
    pub seq: i64,
    pub stream: Seq<char>,
    pub ts: Seq<char>,
    pub line: Seq<char>,
}

impl View for LogLine {
    type V = LogLineView;

    open spec fn view(&self) -> LogLineView {
        LogLineView { seq: self.seq, stream: self.stream@, ts: self.ts@, line: self.line@ }
    }
}

impl DeepView for LogLine {
    type V = LogLineView;

    open spec fn deep_view(&self) -> LogLineView {
        self@
    }
}

impl Clone for LogLine {
    fn clone(&self) -> (r: Self)
        ensures
            r@ == self@,
    {
        LogLine {
            seq: self.seq,
            stream: self.stream.clone(),
            ts: self.ts.clone(),
            line: self.line.clone(),
        }
    }
}

/// A generation that is kept.
#[derive(Debug)]
pub struct LogGeneration {
    pub generation: i64,
    pub line_count: i64,
    pub first_ts: Option<String>,
    pub last_ts: Option<String>,
}

/// The number of the generation that follows the highest one.
pub open spec fn following(highest: Option<i64>) -> int {
    match highest {
        Some(g) => g + 1,
        None => 0,
    }
}

/// The number of a new generation, given the highest one that has lines.
pub fn next_generation(highest: Option<i64>) -> (r: i64)
    requires
        highest matches Some(g) ==> g < i64::MAX,
    ensures
        r == following(highest),
{
    match highest {
        Some(g) => g + 1,
        None => 0,
    }
}

/// The highest generation that is discarded when a new one begins: only the one
/// before it is kept.
pub open spec fn discarded(generation: int) -> int {
    generation - 2
}

/// The highest generation that is discarded when a new one begins.
pub fn discarded_up_to(generation: i64) -> (r: i64)
    requires
        generation >= i64::MIN + 2,
    ensures
        r == discarded(generation as int),
{
    generation - 2
}

/// Of the generations that there are, at most the highest one outlives the
/// beginning of a new one.
pub proof fn law_two_generations_are_kept(highest: Option<i64>, g: i64)
    requires
        highest matches Some(h) && g <= h < i64::MAX,
    ensures
        g > discarded(following(highest)) <==> Some(g) == highest,
{
}

/// Whether lines are in the order of their numbers.
pub open spec fn in_order(lines: Seq<LogLineView>) -> bool {
    forall|i: int, j: int|
        #![trigger lines[i], lines[j]]
        0 <= i < j < lines.len() ==> lines[i].seq < lines[j].seq
}

/// The lines before a number, or all.
pub open spec fn lines_before(lines: Seq<LogLineView>, before_seq: Option<i64>) -> Seq<LogLineView> {
    match before_seq {
        Some(before) => lines.filter(|l: LogLineView| l.seq < before),
        None => lines,
    }
}

/// The last so many of a list; a negative number means all.
pub open spec fn last_of<A>(s: Seq<A>, limit: i64) -> Seq<A> {
    if limit < 0 || s.len() <= limit {
        s
    } else {
        s.skip(s.len() - limit)
    }
}

/// A page of a generation's lines: the newest ones before a number, or the newest
/// of all; at most `limit`, oldest first.
pub fn log_page(lines: &Vec<LogLine>, before_seq: Option<i64>, limit: i64) -> (r: Vec<LogLine>)
    requires
        in_order(lines.deep_view()),
    ensures
        r.deep_view() == last_of(lines_before(lines.deep_view(), before_seq), limit),
{
    let ghost ls = lines.deep_view();
    let n = match before_seq {
        Some(before) => count_before(lines, before),
        None => lines.len(),
    };
    proof {
        assert(ls.take(ls.len() as int) =~= ls);
        assert(lines_before(ls, before_seq) == ls.take(n as int));
    }
    let start: usize = if limit < 0 || n as u128 <= limit as u128 {
        0
    } else {
        n - limit as usize
    };
    let mut r: Vec<LogLine> = Vec::new();
    let mut i: usize = start;
    proof {
        assert(r.deep_view() =~= ls.subrange(start as int, start as int));
    }
    while i < n
        invariant
            start <= i <= n <= lines@.len(),
            ls == lines.deep_view(),
            r.deep_view() == ls.subrange(start as int, i as int),
        decreases n - i,
    {
        let ghost before = r.deep_view();
        r.push(lines[i].clone());
        proof {
            assert(r.deep_view() =~= before.push(ls[i as int]));
            assert(ls.subrange(start as int, i + 1) =~= before.push(ls[i as int]));
        }
        i += 1;
    }
    proof {
        assert(ls.subrange(start as int, n as int) =~= last_of(ls.take(n as int), limit));
    }
    r
}

fn count_before(lines: &Vec<LogLine>, before: i64) -> (n: usize)
    requires
        in_order(lines.deep_view()),
    ensures
        n <= lines@.len(),
        lines.deep_view().filter(|l: LogLineView| l.seq < before) == lines.deep_view().take(
            n as int,
        ),
{
    let ghost ls = lines.deep_view();
    let ghost p = |l: LogLineView| l.seq < before;
    let mut n: usize = 0;
    proof {
        assert(ls.take(0).filter(p) =~= ls.take(0));
    }
    while n < lines.len() && lines[n].seq < before
        invariant
            n <= lines@.len(),
            ls == lines.deep_view(),
            p == (|l: LogLineView| l.seq < before),
            ls.take(n as int).filter(p) == ls.take(n as int),
        decreases lines@.len() - n,
    {
        proof {
            assert(ls.take(n + 1) =~= ls.take(n as int).push(ls[n as int]));
            ls.take(n as int).lemma_filter_push(ls[n as int], p);
        }
        n += 1;
    }
    proof {
        lemma_rest_is_left_out(ls, p, before, n as int, ls.len() as int);
        assert(ls.take(ls.len() as int) =~= ls);
    }
    n
}

proof fn lemma_rest_is_left_out(
    ls: Seq<LogLineView>,
    p: spec_fn(LogLineView) -> bool,
    before: i64,
    n: int,
    m: int,
)
    requires
        in_order(ls),
        p == (|l: LogLineView| l.seq < before),
        0 <= n <= m <= ls.len(),
        n < ls.len() ==> ls[n].seq >= before,
        ls.take(n).filter(p) == ls.take(n),
    ensures
        ls.take(m).filter(p) == ls.take(n),
    decreases m - n,
{
    if m > n {
        lemma_rest_is_left_out(ls, p, before, n, m - 1);
        assert(ls.take(m) =~= ls.take(m - 1).push(ls[m - 1]));
        ls.take(m - 1).lemma_filter_push(ls[m - 1], p);
        if m - 1 > n {
            assert(ls[n].seq < ls[m - 1].seq);
        }
    }
}

/// The first generation is the one of number 0, and each later one has the next
/// number.
pub proof fn law_generations_are_counted(g: i64)
    requires
        g < i64::MAX,
    ensures
        following(None) == 0,
        following(Some(g)) - g == 1,
{
}

/// A page holds lines before the number in their order; one that is left out stands
/// before all of the page, and only because the page is full. A negative limit
/// leaves out none.
pub proof fn law_page_holds_the_newest_lines(
    lines: Seq<LogLineView>,
    before_seq: Option<i64>,
    limit: i64,
)
    requires
        in_order(lines),
    ensures
        ({
            let page = last_of(lines_before(lines, before_seq), limit);
            &&& limit >= 0 ==> page.len() <= limit
            &&& in_order(page)
            &&& forall|i: int|
                0 <= i < page.len() ==> lines.contains(#[trigger] page[i]) && (
                before_seq matches Some(b) ==> page[i].seq < b)
            &&& forall|l: LogLineView|
                #![trigger lines.contains(l)]
                lines.contains(l) && (before_seq matches Some(b) ==> l.seq < b) && !page.contains(l)
                    ==> limit >= 0 && page.len() == limit && forall|i: int|
                    0 <= i < page.len() ==> l.seq < (#[trigger] page[i]).seq
        }),
{
    let page = last_of(lines_before(lines, before_seq), limit);
    let all = lines_before(lines, before_seq);
    let earlier = |a: LogLineView, b: LogLineView| a.seq < b.seq;
    if let Some(before) = before_seq {
        let p = |l: LogLineView| l.seq < before;
        lemma_filter_keeps_order(lines, p, earlier);
        assert forall|i: int, j: int|
            #![trigger all[i], all[j]]
            0 <= i < j < all.len() implies all[i].seq < all[j].seq by {
            assert(earlier(all[i], all[j]));
        }
        assert forall|l: LogLineView| #[trigger] all.contains(l) <==> lines.contains(l) && l.seq
            < before by {
            lemma_filter_holds(lines, p, l);
        }
    }
    let start = all.len() - page.len();
    assert forall|i: int| 0 <= i < page.len() implies #[trigger] page[i] == all[start + i] by {}
    assert forall|i: int| 0 <= i < page.len() implies lines.contains(#[trigger] page[i]) && (
    before_seq matches Some(b) ==> page[i].seq < b) by {
        assert(all.contains(all[start + i]));
    }
    assert forall|l: LogLineView|
        #![trigger lines.contains(l)]
        lines.contains(l) && (before_seq matches Some(b) ==> l.seq < b) && !page.contains(
            l,
        ) implies limit >= 0 && page.len() == limit && forall|i: int|
        0 <= i < page.len() ==> l.seq < (#[trigger] page[i]).seq by {
        assert(all.contains(l));
        let k = choose|k: int| 0 <= k < all.len() && all[k] == l;
        if k >= start {
            assert(page[k - start] == l);
        }
        assert forall|i: int| 0 <= i < page.len() implies l.seq < (#[trigger] page[i]).seq by {
            assert(all[k].seq < all[start + i].seq);
        }
    }
}

} // verus!
