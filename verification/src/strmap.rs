//! An association list keyed by strings, kept in ascending key order.

use vstd::prelude::*;

use crate::text::{
    lemma_text_lt_asymmetric, lemma_text_lt_irreflexive, lemma_text_lt_total,
    lemma_text_lt_transitive, same_text, text_less, text_lt,
};

verus! {

/// Every text precedes all later ones.
pub open spec fn strictly_ascending(ks: Seq<Seq<char>>) -> bool {
    forall|i: int, j: int| #![trigger ks[i], ks[j]] 0 <= i < j < ks.len() ==> text_lt(ks[i], ks[j])
}

/// The elements of a set of texts in ascending order, each once.
pub open spec fn ascending(s: Set<Seq<char>>) -> Seq<Seq<char>> {
    choose|ks: Seq<Seq<char>>| #[trigger] strictly_ascending(ks) && ks.to_set() == s
}

/// Two strictly ascending sequences with the same elements are the same.
pub proof fn lemma_ascending_unique(a: Seq<Seq<char>>, b: Seq<Seq<char>>)
    requires
        strictly_ascending(a),
        strictly_ascending(b),
        a.to_set() == b.to_set(),
    ensures
        a == b,
    decreases a.len(),
{
    if a.len() == 0 {
        if b.len() > 0 {
            assert(b.to_set().contains(b[0]));
            assert(a.to_set().contains(b[0]));
        }
        assert(a =~= b);
    } else {
        assert(a.to_set().contains(a[0]));
        assert(b.to_set().contains(a[0]));
        let j = choose|j: int| 0 <= j < b.len() && b[j] == a[0];
        assert(b.to_set().contains(b[0]));
        assert(a.to_set().contains(b[0]));
        let i = choose|i: int| 0 <= i < a.len() && a[i] == b[0];
        if j > 0 {
            assert(text_lt(b[0], b[j]));
            if i > 0 {
                assert(text_lt(a[0], a[i]));
                lemma_text_lt_asymmetric(b[0], b[j]);
            } else {
                lemma_text_lt_irreflexive(b[0]);
            }
        }
        let ra = a.drop_first();
        let rb = b.drop_first();
        assert forall|k: Seq<char>| ra.to_set().contains(k) == rb.to_set().contains(k) by {
            if ra.to_set().contains(k) {
                let p = choose|p: int| 0 <= p < ra.len() && ra[p] == k;
                assert(a[p + 1] == k);
                assert(text_lt(a[0], a[p + 1]));
                lemma_text_lt_irreflexive(a[0]);
                assert(a.to_set().contains(k));
                let q = choose|q: int| 0 <= q < b.len() && b[q] == k;
                assert(rb[q - 1] == k);
            }
            if rb.to_set().contains(k) {
                let p = choose|p: int| 0 <= p < rb.len() && rb[p] == k;
                assert(b[p + 1] == k);
                assert(text_lt(b[0], b[p + 1]));
                lemma_text_lt_irreflexive(b[0]);
                assert(b.to_set().contains(k));
                let q = choose|q: int| 0 <= q < a.len() && a[q] == k;
                assert(ra[q - 1] == k);
            }
        }
        assert(ra.to_set() =~= rb.to_set());
        lemma_ascending_unique(ra, rb);
        assert forall|p: int| 0 <= p < a.len() implies a[p] == b[p] by {
            if p > 0 {
                assert(a[p] == ra[p - 1]);
                assert(b[p] == rb[p - 1]);
            }
        }
        assert(a.len() == ra.len() + 1);
        assert(b.len() == rb.len() + 1);
        assert(a =~= b);
    }
}

/// A strictly ascending sequence enumerates its own elements.
pub proof fn lemma_ascending_is(ks: Seq<Seq<char>>)
    requires
        strictly_ascending(ks),
    ensures
        ascending(ks.to_set()) == ks,
{
    let other = ascending(ks.to_set());
    assert(strictly_ascending(ks) && ks.to_set() == ks.to_set());
    lemma_ascending_unique(other, ks);
}

/// A strictly ascending sequence has as many elements as its set.
pub proof fn lemma_ascending_len(ks: Seq<Seq<char>>)
    requires
        strictly_ascending(ks),
    ensures
        ks.no_duplicates(),
        ks.to_set().finite(),
        ks.to_set().len() == ks.len(),
{
    assert forall|i: int, j: int| 0 <= i < ks.len() && 0 <= j < ks.len() && i != j implies ks[i]
        != ks[j] by {
        lemma_text_lt_irreflexive(ks[i]);
        if i < j {
            assert(text_lt(ks[i], ks[j]));
        } else {
            assert(text_lt(ks[j], ks[i]));
        }
    }
    ks.unique_seq_to_set();
    ks.lemma_cardinality_of_set();
}

/// With a text put in its place.
spec fn put_in_place(ks: Seq<Seq<char>>, x: Seq<char>) -> Seq<Seq<char>>
    decreases ks.len(),
{
    if ks.len() == 0 || text_lt(ks.last(), x) {
        ks.push(x)
    } else {
        put_in_place(ks.drop_last(), x).push(ks.last())
    }
}

proof fn lemma_put_in_place(ks: Seq<Seq<char>>, x: Seq<char>)
    requires
        strictly_ascending(ks),
        !ks.contains(x),
    ensures
        strictly_ascending(put_in_place(ks, x)),
        put_in_place(ks, x).to_set() == ks.to_set().insert(x),
    decreases ks.len(),
{
    let r = put_in_place(ks, x);
    if ks.len() == 0 || text_lt(ks.last(), x) {
        assert forall|i: int, j: int| #![trigger r[i], r[j]] 0 <= i < j < r.len() implies text_lt(
            r[i],
            r[j],
        ) by {
            if j == ks.len() {
                if i < ks.len() - 1 {
                    assert(text_lt(ks[i], ks.last()));
                    lemma_text_lt_transitive(ks[i], ks.last(), x);
                }
            } else {
                assert(text_lt(ks[i], ks[j]));
            }
        }
        assert forall|k: Seq<char>| r.to_set().contains(k) == ks.to_set().insert(x).contains(k) by {
            if ks.to_set().contains(k) {
                let i = choose|i: int| 0 <= i < ks.len() && ks[i] == k;
                assert(r[i] == k);
            }
            assert(r[ks.len() as int] == x);
        }
        assert(r.to_set() =~= ks.to_set().insert(x));
    } else {
        let rest = ks.drop_last();
        let last = ks.last();
        let head = put_in_place(rest, x);
        assert forall|i: int, j: int|
            #![trigger rest[i], rest[j]]
            0 <= i < j < rest.len() implies text_lt(rest[i], rest[j]) by {
            assert(rest[i] == ks[i] && rest[j] == ks[j]);
        }
        if rest.contains(x) {
            let i = choose|i: int| 0 <= i < rest.len() && rest[i] == x;
            assert(ks[i] == x);
        }
        lemma_put_in_place(rest, x);
        assert(ks.contains(last));
        lemma_text_lt_total(last, x);
        assert forall|i: int, j: int| #![trigger r[i], r[j]] 0 <= i < j < r.len() implies text_lt(
            r[i],
            r[j],
        ) by {
            if j == head.len() {
                assert(head.to_set().contains(head[i]));
                if head[i] != x {
                    assert(rest.to_set().contains(head[i]));
                    let p = choose|p: int| 0 <= p < rest.len() && rest[p] == head[i];
                    assert(text_lt(ks[p], ks[ks.len() - 1]));
                }
            } else {
                assert(text_lt(head[i], head[j]));
            }
        }
        assert forall|k: Seq<char>| r.to_set().contains(k) == ks.to_set().insert(x).contains(k) by {
            if r.to_set().contains(k) {
                let i = choose|i: int| 0 <= i < r.len() && r[i] == k;
                if i < head.len() {
                    assert(head.to_set().contains(head[i]));
                    if k != x {
                        assert(rest.to_set().contains(k));
                        let p = choose|p: int| 0 <= p < rest.len() && rest[p] == k;
                        assert(ks[p] == k);
                    }
                } else {
                    assert(ks[ks.len() - 1] == k);
                }
            }
            if ks.to_set().contains(k) {
                let i = choose|i: int| 0 <= i < ks.len() && ks[i] == k;
                if i < rest.len() {
                    assert(rest[i] == k);
                    assert(rest.to_set().contains(k));
                    assert(head.to_set().contains(k));
                    let p = choose|p: int| 0 <= p < head.len() && head[p] == k;
                    assert(r[p] == k);
                } else {
                    assert(r[head.len() as int] == k);
                }
            }
            assert(head.to_set().contains(x));
            let p = choose|p: int| 0 <= p < head.len() && head[p] == x;
            assert(r[p] == x);
        }
        assert(r.to_set() =~= ks.to_set().insert(x));
    }
}

/// Every finite set of texts can be written down in ascending order.
pub proof fn lemma_ascending_of_set(s: Set<Seq<char>>)
    requires
        s.finite(),
    ensures
        strictly_ascending(ascending(s)),
        ascending(s).to_set() == s,
    decreases s.len(),
{
    if s.len() == 0 {
        let none = Seq::<Seq<char>>::empty();
        assert(none.to_set() =~= s);
        assert(strictly_ascending(none));
    } else {
        let x = s.choose();
        let rest = s.remove(x);
        lemma_ascending_of_set(rest);
        let ks = ascending(rest);
        if ks.contains(x) {
            assert(ks.to_set().contains(x));
        }
        lemma_put_in_place(ks, x);
        assert(ks.to_set().insert(x) =~= s);
        assert(strictly_ascending(put_in_place(ks, x)));
    }
}

/// The first `i + 1` elements hold what the first `i` ones hold and the next.
pub proof fn lemma_take_next_set<T>(s: Seq<T>, i: int)
    requires
        0 <= i < s.len(),
    ensures
        s.take(i + 1).to_set() == s.take(i).to_set().insert(s[i]),
{
    let a = s.take(i);
    let b = s.take(i + 1);
    assert forall|x: T| b.to_set().contains(x) == a.to_set().insert(s[i]).contains(x) by {
        if b.contains(x) {
            let j = choose|j: int| 0 <= j < b.len() && b[j] == x;
            if j < i {
                assert(a[j] == x);
            }
        }
        if a.contains(x) {
            let j = choose|j: int| 0 <= j < a.len() && a[j] == x;
            assert(b[j] == x);
        }
        assert(b[i] == s[i]);
    }
    assert(b.to_set() =~= a.to_set().insert(s[i]));
}

/// The first `i + 1` elements are the first `i` ones and the next.
pub proof fn lemma_take_next<T>(s: Seq<T>, i: int)
    requires
        0 <= i < s.len(),
    ensures
        s.take(i + 1) == s.take(i).push(s[i]),
        forall|x: T|
            #![trigger s.take(i + 1).contains(x)]
            s.take(i + 1).contains(x) <==> (s.take(i).contains(x) || x == s[i]),
{
    let next = s.take(i + 1);
    assert(next =~= s.take(i).push(s[i]));
    assert forall|x: T|
        #![trigger s.take(i + 1).contains(x)]
        s.take(i + 1).contains(x) <==> (s.take(i).contains(x) || x == s[i]) by {
        if s.take(i).contains(x) {
            let p = choose|p: int| 0 <= p < i && s.take(i)[p] == x;
            assert(next[p] == x);
        }
        if next.contains(x) && x != s[i] {
            let p = choose|p: int| 0 <= p < next.len() && next[p] == x;
            assert(s.take(i)[p] == x);
        }
        assert(next[i] == s[i]);
    }
}

/// Whether cloning a `V` keeps the value it stands for.
pub open spec fn clone_keeps_view<V: DeepView + Clone>() -> bool {
    forall|a: V, b: V| #[trigger] cloned::<V>(a, b) ==> a.deep_view() == b.deep_view()
}

/// A map from strings to `V`, walked in ascending key order.
#[derive(Debug, PartialEq, Eq)]
pub struct StrMap<V> {
    entries: Vec<(String, V)>,
}

impl<V> StrMap<V> {
    spec fn key_seq(self) -> Seq<Seq<char>> {
        Seq::new(self.entries@.len(), |i: int| self.entries@[i].0@)
    }

    #[verifier::type_invariant]
    spec fn inv(self) -> bool {
        strictly_ascending(self.key_seq())
    }
}

impl<V: DeepView> View for StrMap<V> {
    type V = Map<Seq<char>, V::V>;

    closed spec fn view(&self) -> Map<Seq<char>, V::V> {
        Map::new(
            |k: Seq<char>| self.key_seq().contains(k),
            |k: Seq<char>| self.entries@[self.key_seq().index_of(k)].1.deep_view(),
        )
    }
}

impl<V: DeepView> DeepView for StrMap<V> {
    type V = Map<Seq<char>, V::V>;

    open spec fn deep_view(&self) -> Map<Seq<char>, V::V> {
        self@
    }
}

impl<V: DeepView> StrMap<V> {
    /// The keys in the order in which the map is walked.
    pub open spec fn keys(self) -> Seq<Seq<char>> {
        ascending(self@.dom())
    }

    proof fn lemma_keys(self)
        requires
            self.inv(),
        ensures
            self.keys() == self.key_seq(),
            self@.dom() == self.key_seq().to_set(),
            self@.dom().finite(),
            self@.dom().len() == self.entries@.len(),
            forall|i: int|
                #![trigger self.key_seq()[i]]
                0 <= i < self.entries@.len() ==> self@.dom().contains(self.key_seq()[i])
                    && self@[self.key_seq()[i]] == self.entries@[i].1.deep_view(),
    {
        let ks = self.key_seq();
        assert(self@.dom() =~= ks.to_set());
        lemma_ascending_is(ks);
        lemma_ascending_len(ks);
        assert forall|i: int| #![trigger ks[i]] 0 <= i < self.entries@.len() implies self@.dom().contains(
            ks[i],
        ) && self@[ks[i]] == self.entries@[i].1.deep_view() by {
            assert(ks.contains(ks[i]));
            let j = ks.index_of(ks[i]);
            assert(ks[j] == ks[i]);
            assert(j == i);
        }
    }

    /// The empty map.
    pub fn new() -> (m: Self)
        ensures
            m@ == Map::<Seq<char>, V::V>::empty(),
    {
        let m = StrMap { entries: Vec::new() };
        proof {
            assert(m@ =~= Map::<Seq<char>, V::V>::empty());
        }
        m
    }

    /// The number of keys.
    pub fn len(&self) -> (n: usize)
        ensures
            n == self@.dom().len(),
            n == self.keys().len(),
            self@.dom().finite(),
            strictly_ascending(self.keys()),
            self.keys().to_set() == self@.dom(),
    {
        proof {
            use_type_invariant(self);
            self.lemma_keys();
        }
        self.entries.len()
    }

    /// Whether the map holds no key.
    pub fn is_empty(&self) -> (b: bool)
        ensures
            b == (self@ == Map::<Seq<char>, V::V>::empty()),
    {
        proof {
            use_type_invariant(self);
            self.lemma_keys();
            if self.entries@.len() == 0 {
                assert(self@ =~= Map::<Seq<char>, V::V>::empty());
            } else {
                assert(self@.dom().contains(self.key_seq()[0]));
            }
        }
        self.entries.len() == 0
    }

    /// The first position whose key does not precede `key`.
    fn lower_bound(&self, key: &str) -> (pos: usize)
        requires
            self.inv(),
        ensures
            pos <= self.entries@.len(),
            forall|i: int| 0 <= i < pos ==> text_lt(#[trigger] self.entries@[i].0@, key@),
            pos < self.entries@.len() ==> !text_lt(self.entries@[pos as int].0@, key@),
    {
        let mut pos: usize = 0;
        while pos < self.entries.len()
            invariant
                pos <= self.entries@.len(),
                forall|i: int| 0 <= i < pos ==> text_lt(#[trigger] self.entries@[i].0@, key@),
            decreases self.entries@.len() - pos,
        {
            if !text_less(self.entries[pos].0.as_str(), key) {
                return pos;
            }
            pos += 1;
        }
        pos
    }

    /// The position of `key`.
    fn position(&self, key: &str) -> (r: Option<usize>)
        requires
            self.inv(),
        ensures
            match r {
                Some(i) => i < self.entries@.len() && self.entries@[i as int].0@ == key@,
                None => !self@.dom().contains(key@),
            },
    {
        let mut i: usize = 0;
        while i < self.entries.len()
            invariant
                i <= self.entries@.len(),
                forall|j: int| 0 <= j < i ==> #[trigger] self.entries@[j].0@ != key@,
            decreases self.entries@.len() - i,
        {
            if same_text(self.entries[i].0.as_str(), key) {
                return Some(i);
            }
            i += 1;
        }
        proof {
            self.lemma_keys();
            if self@.dom().contains(key@) {
                let j = choose|j: int| 0 <= j < self.key_seq().len() && self.key_seq()[j] == key@;
                assert(self.entries@[j].0@ == key@);
            }
        }
        None
    }

    /// Whether `key` is in the map.
    pub fn contains_key(&self, key: &str) -> (b: bool)
        ensures
            b == self@.dom().contains(key@),
    {
        proof {
            use_type_invariant(self);
            self.lemma_keys();
        }
        match self.position(key) {
            Some(i) => {
                proof {
                    assert(self.key_seq()[i as int] == key@);
                }
                true
            },
            None => false,
        }
    }

    /// The value stored under `key`.
    pub fn get(&self, key: &str) -> (r: Option<&V>)
        ensures
            match r {
                Some(v) => self@.dom().contains(key@) && v.deep_view() == self@[key@],
                None => !self@.dom().contains(key@),
            },
    {
        proof {
            use_type_invariant(self);
            self.lemma_keys();
        }
        match self.position(key) {
            Some(i) => {
                proof {
                    assert(self.key_seq()[i as int] == key@);
                }
                Some(&self.entries[i].1)
            },
            None => None,
        }
    }

    /// The key at a position of the walk.
    pub fn key_at(&self, i: usize) -> (k: &String)
        requires
            i < self@.dom().len(),
        ensures
            k@ == self.keys()[i as int],
            self@.dom().contains(k@),
    {
        proof {
            use_type_invariant(self);
            self.lemma_keys();
            assert(self.key_seq()[i as int] == self.entries@[i as int].0@);
        }
        &self.entries[i].0
    }

    /// The value at a position of the walk.
    pub fn value_at(&self, i: usize) -> (v: &V)
        requires
            i < self@.dom().len(),
        ensures
            v.deep_view() == self@[self.keys()[i as int]],
            self@.dom().contains(self.keys()[i as int]),
    {
        proof {
            use_type_invariant(self);
            self.lemma_keys();
            assert(self.key_seq()[i as int] == self.entries@[i as int].0@);
        }
        &self.entries[i].1
    }

    /// All keys, in the order of the walk.
    pub fn key_list(&self) -> (r: Vec<String>)
        ensures
            r.deep_view() == self.keys(),
            r.deep_view().to_set() == self@.dom(),
            strictly_ascending(r.deep_view()),
    {
        let mut r: Vec<String> = Vec::new();
        let n: usize = self.len();
        let mut i: usize = 0;
        while i < n
            invariant
                n == self@.dom().len(),
                n == self.keys().len(),
                i <= n,
                r.deep_view() == self.keys().take(i as int),
            decreases n - i,
        {
            let ghost before = r.deep_view();
            let key = self.key_at(i);
            r.push(key.clone());
            proof {
                assert(r.deep_view() =~= before.push(key@));
                lemma_take_next(self.keys(), i as int);
            }
            i += 1;
        }
        proof {
            assert(self.keys().take(n as int) =~= self.keys());
        }
        r
    }

    /// Stores `value` under `key`, replacing what was there.
    #[verifier::spinoff_prover]
    #[verifier::rlimit(50)]
    pub fn insert(&mut self, key: String, value: V)
        ensures
            final(self)@ == old(self)@.insert(key@, value.deep_view()),
    {
        proof {
            use_type_invariant(&*self);
            self.lemma_keys();
        }
        let ghost before = *self;
        let ghost k = key@;
        let ghost v = value.deep_view();
        let pos = self.lower_bound(key.as_str());
        let replace = pos < self.entries.len() && same_text(
            self.entries[pos].0.as_str(),
            key.as_str(),
        );
        let mut es: Vec<(String, V)> = Vec::new();
        core::mem::swap(&mut es, &mut self.entries);
        if replace {
            es.remove(pos);
        }
        es.insert(pos, (key, value));
        proof {
            let after = StrMap { entries: es };
            let old_keys = before.key_seq();
            let new_keys = after.key_seq();
            assert(new_keys[pos as int] == k);
            assert forall|i: int, j: int| #![trigger new_keys[i], new_keys[j]] 0 <= i < j
                < new_keys.len() implies text_lt(new_keys[i], new_keys[j]) by {
                let shift: int = if replace { 0 } else { 1 };
                if i < pos {
                    assert(new_keys[i] == old_keys[i]);
                }
                if i > pos {
                    assert(new_keys[i] == old_keys[i - shift]);
                }
                if j < pos {
                    assert(new_keys[j] == old_keys[j]);
                }
                if j > pos {
                    assert(new_keys[j] == old_keys[j - shift]);
                }
                if j == pos {
                    assert(before.entries@[i].0@ == old_keys[i]);
                } else if i == pos {
                    assert(before.entries@[pos as int].0@ == old_keys[pos as int]);
                    lemma_text_lt_total(k, old_keys[pos as int]);
                    if replace {
                        assert(text_lt(old_keys[pos as int], old_keys[j]));
                    } else if j - 1 > pos {
                        assert(text_lt(old_keys[pos as int], old_keys[j - 1]));
                        lemma_text_lt_transitive(k, old_keys[pos as int], old_keys[j - 1]);
                    }
                }
            }
            assert(after.inv());
            before.lemma_keys();
            after.lemma_keys();
            assert forall|q: Seq<char>| after@.dom().contains(q) == before@.dom().insert(k).contains(
                q,
            ) by {
                if after@.dom().contains(q) {
                    let i = choose|i: int| 0 <= i < new_keys.len() && new_keys[i] == q;
                    let shift: int = if replace { 0 } else { 1 };
                    if i < pos {
                        assert(old_keys[i] == q);
                    } else if i > pos {
                        assert(old_keys[i - shift] == q);
                    }
                }
                if before@.dom().contains(q) && q != k {
                    let i = choose|i: int| 0 <= i < old_keys.len() && old_keys[i] == q;
                    if i < pos {
                        assert(new_keys[i] == q);
                    } else if replace {
                        assert(new_keys[i] == q);
                    } else {
                        assert(new_keys[i + 1] == q);
                    }
                }
            }
            assert forall|q: Seq<char>| after@.dom().contains(q) implies #[trigger] after@[q]
                == before@.insert(k, v)[q] by {
                let i = choose|i: int| 0 <= i < new_keys.len() && new_keys[i] == q;
                let shift: int = if replace { 0 } else { 1 };
                if i < pos {
                    assert(old_keys[i] == q);
                    lemma_text_lt_irreflexive(k);
                } else if i > pos {
                    assert(old_keys[i - shift] == q);
                    assert(text_lt(new_keys[pos as int], new_keys[i]));
                    lemma_text_lt_irreflexive(k);
                }
            }
            assert(after@ =~= before@.insert(k, v));
        }
        self.entries = es;
    }

    /// Takes the value stored under `key` out of the map.
    #[verifier::spinoff_prover]
    #[verifier::rlimit(50)]
    pub fn remove(&mut self, key: &str) -> (r: Option<V>)
        ensures
            final(self)@ == old(self)@.remove(key@),
            match r {
                Some(v) => old(self)@.dom().contains(key@) && v.deep_view() == old(self)@[key@],
                None => !old(self)@.dom().contains(key@),
            },
    {
        proof {
            use_type_invariant(&*self);
            self.lemma_keys();
        }
        let ghost before = *self;
        match self.position(key) {
            None => {
                proof {
                    assert(self@ =~= before@.remove(key@));
                }
                None
            },
            Some(pos) => {
                let mut es: Vec<(String, V)> = Vec::new();
                core::mem::swap(&mut es, &mut self.entries);
                let taken = es.remove(pos);
                proof {
                    let after = StrMap { entries: es };
                    let old_keys = before.key_seq();
                    let new_keys = after.key_seq();
                    assert(old_keys[pos as int] == key@);
                    assert forall|i: int, j: int| #![trigger new_keys[i], new_keys[j]] 0 <= i < j
                        < new_keys.len() implies text_lt(new_keys[i], new_keys[j]) by {
                        assert(new_keys[i] == old_keys[if i < pos { i } else { i + 1 }]);
                        assert(new_keys[j] == old_keys[if j < pos { j } else { j + 1 }]);
                    }
                    assert(after.inv());
                    after.lemma_keys();
                    assert forall|q: Seq<char>| after@.dom().contains(q) == before@.dom().remove(
                        key@,
                    ).contains(q) by {
                        if after@.dom().contains(q) {
                            let i = choose|i: int| 0 <= i < new_keys.len() && new_keys[i] == q;
                            let o: int = if i < pos { i } else { i + 1 };
                            assert(old_keys[o] == q);
                            lemma_text_lt_irreflexive(q);
                            if o < pos {
                                assert(text_lt(old_keys[o], old_keys[pos as int]));
                            } else {
                                assert(text_lt(old_keys[pos as int], old_keys[o]));
                            }
                        }
                        if before@.dom().contains(q) && q != key@ {
                            let i = choose|i: int| 0 <= i < old_keys.len() && old_keys[i] == q;
                            assert(new_keys[if i < pos { i } else { i - 1 }] == q);
                        }
                    }
                    assert forall|q: Seq<char>| after@.dom().contains(q) implies #[trigger] after@[q]
                        == before@.remove(key@)[q] by {
                        let i = choose|i: int| 0 <= i < new_keys.len() && new_keys[i] == q;
                        assert(old_keys[if i < pos { i } else { i + 1 }] == q);
                    }
                    assert(after@ =~= before@.remove(key@));
                }
                self.entries = es;
                Some(taken.1)
            },
        }
    }
}

/// The texts in ascending order, each once.
pub fn sorted_unique(texts: &Vec<String>) -> (r: Vec<String>)
    ensures
        r.deep_view() == ascending(texts.deep_view().to_set()),
        r.deep_view().to_set() == texts.deep_view().to_set(),
        strictly_ascending(r.deep_view()),
{
    let ghost ts = texts.deep_view();
    let mut m: StrMap<bool> = StrMap::new();
    let mut i: usize = 0;
    while i < texts.len()
        invariant
            i <= texts@.len(),
            ts == texts.deep_view(),
            forall|k: Seq<char>|
                #![trigger m@.dom().contains(k)]
                m@.dom().contains(k) <==> ts.take(i as int).contains(k),
        decreases texts@.len() - i,
    {
        proof {
            lemma_take_next(ts, i as int);
        }
        m.insert(texts[i].clone(), true);
        i += 1;
    }
    proof {
        assert(ts.take(ts.len() as int) =~= ts);
        assert forall|k: Seq<char>| m@.dom().contains(k) == ts.to_set().contains(k) by {
            assert(ts.to_set().contains(k) == ts.contains(k));
        }
        assert(m@.dom() =~= ts.to_set());
    }
    m.key_list()
}

impl<V: DeepView + Clone> Clone for StrMap<V> {
    fn clone(&self) -> (r: Self)
        ensures
            clone_keeps_view::<V>() ==> r@ == self@,
    {
        proof {
            use_type_invariant(self);
        }
        let mut es: Vec<(String, V)> = Vec::new();
        let mut i: usize = 0;
        while i < self.entries.len()
            invariant
                self.inv(),
                i <= self.entries@.len(),
                es@.len() == i,
                forall|j: int| #![trigger es@[j]] 0 <= j < i ==> es@[j].0@ == self.entries@[j].0@,
                forall|j: int|
                    #![trigger es@[j]]
                    0 <= j < i ==> cloned::<V>(self.entries@[j].1, es@[j].1),
            decreases self.entries@.len() - i,
        {
            let k = self.entries[i].0.clone();
            let v = self.entries[i].1.clone();
            es.push((k, v));
            i += 1;
        }
        let ghost made = StrMap { entries: es };
        proof {
            assert(made.key_seq() =~= self.key_seq());
            assert(made.inv());
            if clone_keeps_view::<V>() {
                self.lemma_keys();
                made.lemma_keys();
                assert forall|q: Seq<char>| made@.dom().contains(q) implies #[trigger] made@[q]
                    == self@[q] by {
                    let j = choose|j: int| 0 <= j < made.key_seq().len() && made.key_seq()[j] == q;
                    assert(self.key_seq()[j] == q);
                    assert(cloned::<V>(self.entries@[j].1, es@[j].1));
                }
                assert(made@ =~= self@);
            }
        }
        StrMap { entries: es }
    }
}

impl<V: DeepView> Default for StrMap<V> {
    fn default() -> (m: Self)
        ensures
            m@ == Map::<Seq<char>, V::V>::empty(),
    {
        StrMap::new()
    }
}

} // verus!
