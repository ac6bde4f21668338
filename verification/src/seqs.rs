//! Facts on sequences.

use vstd::prelude::*;

verus! {

/// A filtered list holds what the list holds and the filter lets through.
pub proof fn lemma_filter_holds<A>(s: Seq<A>, p: spec_fn(A) -> bool, x: A)
    ensures
        s.filter(p).contains(x) <==> s.contains(x) && p(x),
{
    let kept = s.filter(p);
    if kept.contains(x) {
        s.lemma_filter_contains_rev(p, x);
        let i = choose|i: int| 0 <= i < kept.len() && kept[i] == x;
        s.lemma_filter_pred(p, i);
    }
    if s.contains(x) && p(x) {
        let i = choose|i: int| 0 <= i < s.len() && s[i] == x;
        s.lemma_filter_contains(p, i);
    }
}

/// What a list is flattened to holds what any of its parts holds.
pub proof fn lemma_flat_map_holds<A, B>(s: Seq<A>, f: spec_fn(A) -> Seq<B>, x: B)
    ensures
        s.flat_map(f).contains(x) <==> exists|i: int|
            0 <= i < s.len() && #[trigger] f(s[i]).contains(x),
    decreases s.len(),
{
    if s.len() == 0 {
        assert(s.flat_map(f) =~= Seq::empty());
    } else {
        let front = s.drop_last();
        let a = front.flat_map(f);
        let b = f(s.last());
        front.lemma_flat_map_push(f, s.last());
        assert(front.push(s.last()) =~= s);
        lemma_flat_map_holds(front, f, x);
        assert(s.flat_map(f) == a + b);
        if s.flat_map(f).contains(x) {
            let k = choose|k: int| 0 <= k < (a + b).len() && (a + b)[k] == x;
            if k < a.len() {
                assert(a[k] == x);
                assert(a.contains(x));
                let i = choose|i: int| 0 <= i < front.len() && #[trigger] f(front[i]).contains(x);
                assert(f(s[i]).contains(x));
            } else {
                assert(b[k - a.len()] == x);
                assert(f(s[s.len() - 1]).contains(x));
            }
        }
        if exists|i: int| 0 <= i < s.len() && #[trigger] f(s[i]).contains(x) {
            let i = choose|i: int| 0 <= i < s.len() && #[trigger] f(s[i]).contains(x);
            if i < front.len() {
                assert(f(front[i]).contains(x));
                let k = choose|k: int| 0 <= k < a.len() && a[k] == x;
                assert((a + b)[k] == x);
            } else {
                let k = choose|k: int| 0 <= k < b.len() && b[k] == x;
                assert((a + b)[a.len() + k] == x);
            }
        }
    }
}

/// A list that is filtered and mapped holds what its elements are mapped to.
pub proof fn lemma_filter_map_holds<A, B>(s: Seq<A>, f: spec_fn(A) -> Option<B>, i: int)
    requires
        0 <= i < s.len(),
        f(s[i]) is Some,
    ensures
        s.filter_map(f).contains(f(s[i])->Some_0),
    decreases s.len(),
{
    let x = f(s[i])->Some_0;
    let k = s.len() - 1;
    let front = s.take(k);
    s.lemma_filter_map_take_succ(f, k);
    assert(s.take(k + 1) =~= s);
    if i < k {
        lemma_filter_map_holds(front, f, i);
        let a = front.filter_map(f);
        let n = choose|n: int| 0 <= n < a.len() && a[n] == x;
        assert(s.filter_map(f)[n] == x);
    } else {
        assert(s.filter_map(f)[front.filter_map(f).len() as int] == x);
    }
}

/// What a sequence holds with one element more.
pub proof fn lemma_push_holds<A>(s: Seq<A>, x: A, y: A)
    ensures
        s.push(x).contains(y) <==> s.contains(y) || y == x,
{
    let longer = s.push(x);
    if s.contains(y) {
        let i = choose|i: int| 0 <= i < s.len() && s[i] == y;
        assert(longer[i] == y);
    }
    assert(longer[s.len() as int] == x);
    if longer.contains(y) && y != x {
        let i = choose|i: int| 0 <= i < longer.len() && longer[i] == y;
        assert(s[i] == y);
    }
}

/// What two sequences hold together.
pub proof fn lemma_append_holds<A>(a: Seq<A>, b: Seq<A>, x: A)
    ensures
        (a + b).contains(x) <==> a.contains(x) || b.contains(x),
{
    let both = a + b;
    if a.contains(x) {
        let i = choose|i: int| 0 <= i < a.len() && a[i] == x;
        assert(both[i] == x);
    }
    if b.contains(x) {
        let i = choose|i: int| 0 <= i < b.len() && b[i] == x;
        assert(both[a.len() + i] == x);
    }
    if both.contains(x) {
        let i = choose|i: int| 0 <= i < both.len() && both[i] == x;
        if i < a.len() {
            assert(a[i] == x);
        } else {
            assert(b[i - a.len()] == x);
        }
    }
}

/// A filtered list keeps the order of the list.
pub proof fn lemma_filter_keeps_order<A>(
    s: Seq<A>,
    p: spec_fn(A) -> bool,
    before: spec_fn(A, A) -> bool,
)
    requires
        forall|i: int, j: int| 0 <= i < j < s.len() ==> #[trigger] before(s[i], s[j]),
    ensures
        forall|i: int, j: int|
            0 <= i < j < s.filter(p).len() ==> #[trigger] before(s.filter(p)[i], s.filter(p)[j]),
    decreases s.len(),
{
    if s.len() > 0 {
        let front = s.drop_last();
        let kept = front.filter(p);
        assert forall|i: int, j: int| 0 <= i < j < front.len() implies #[trigger] before(
            front[i],
            front[j],
        ) by {
            assert(before(s[i], s[j]));
        }
        lemma_filter_keeps_order(front, p, before);
        front.lemma_filter_push(s.last(), p);
        assert(front.push(s.last()) =~= s);
        assert forall|i: int, j: int| 0 <= i < j < s.filter(p).len() implies #[trigger] before(
            s.filter(p)[i],
            s.filter(p)[j],
        ) by {
            if j < kept.len() {
                assert(before(kept[i], kept[j]));
            } else {
                assert(kept.contains(kept[i]));
                lemma_filter_holds(front, p, kept[i]);
                let k = choose|k: int| 0 <= k < front.len() && front[k] == kept[i];
                assert(before(s[k], s[s.len() - 1]));
            }
        }
    }
}

} // verus!
