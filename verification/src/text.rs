//! Strings as sequences of characters: comparison, splitting and joining.

use vstd::prelude::*;
use vstd::utf8::{decode_utf8, valid_utf8};

verus! {

/// `String::push` appends one character to the end of the string.
pub assume_specification[ String::push ](s: &mut String, c: char)
    ensures
        final(s)@ == old(s)@.push(c),
;

/// Lexicographic order by code point. For UTF-8 text this is also the order
/// of the encoded bytes.
pub open spec fn text_lt(a: Seq<char>, b: Seq<char>) -> bool
    decreases a.len(),
{
    if b.len() == 0 {
        false
    } else if a.len() == 0 {
        true
    } else if a[0] == b[0] {
        text_lt(a.drop_first(), b.drop_first())
    } else {
        (a[0] as int) < (b[0] as int)
    }
}

/// No text precedes itself.
pub proof fn lemma_text_lt_irreflexive(a: Seq<char>)
    ensures
        !text_lt(a, a),
    decreases a.len(),
{
    if a.len() > 0 {
        lemma_text_lt_irreflexive(a.drop_first());
    }
}

/// Of two texts, neither or exactly one precedes the other.
pub proof fn lemma_text_lt_asymmetric(a: Seq<char>, b: Seq<char>)
    requires
        text_lt(a, b),
    ensures
        !text_lt(b, a),
        a != b,
    decreases a.len(),
{
    if a.len() > 0 && b.len() > 0 && a[0] == b[0] {
        lemma_text_lt_asymmetric(a.drop_first(), b.drop_first());
    }
}

/// The order is transitive.
pub proof fn lemma_text_lt_transitive(a: Seq<char>, b: Seq<char>, c: Seq<char>)
    requires
        text_lt(a, b),
        text_lt(b, c),
    ensures
        text_lt(a, c),
    decreases a.len(),
{
    if a.len() > 0 && b.len() > 0 && c.len() > 0 && a[0] == b[0] && b[0] == c[0] {
        lemma_text_lt_transitive(a.drop_first(), b.drop_first(), c.drop_first());
    }
}

/// Two different texts are always ordered.
pub proof fn lemma_text_lt_total(a: Seq<char>, b: Seq<char>)
    ensures
        a == b || text_lt(a, b) || text_lt(b, a),
    decreases a.len(),
{
    if a.len() > 0 && b.len() > 0 && a[0] == b[0] {
        lemma_text_lt_total(a.drop_first(), b.drop_first());
        if a.drop_first() == b.drop_first() {
            assert forall|i: int| 0 <= i < a.len() implies a[i] == b[i] by {
                if i > 0 {
                    assert(a[i] == a.drop_first()[i - 1]);
                    assert(b[i] == b.drop_first()[i - 1]);
                }
            }
            assert(a =~= b);
        }
    } else if a.len() == 0 && b.len() == 0 {
        assert(a =~= b);
    }
}

/// The characters of a string, in order.
pub fn chars_of(s: &str) -> (out: Vec<char>)
    ensures
        out@ == s@,
{
    let mut out: Vec<char> = Vec::new();
    for c in it: s.chars()
        invariant
            out@ == s@.take(it.index()),
            it.seq() == s@,
    {
        out.push(c);
        proof {
            assert(s@.take(it.index() + 1) =~= s@.take(it.index()).push(c));
        }
    }
    proof {
        assert(s@.take(s@.len() as int) =~= s@);
    }
    out
}

/// The string made of the given characters.
pub fn string_of(cs: &[char]) -> (out: String)
    ensures
        out@ == cs@,
{
    let mut out: String = String::new();
    let mut i: usize = 0;
    while i < cs.len()
        invariant
            i <= cs@.len(),
            out@ == cs@.take(i as int),
        decreases cs@.len() - i,
    {
        proof {
            assert(cs@.take(i + 1) =~= cs@.take(i as int).push(cs@[i as int]));
        }
        out.push(cs[i]);
        i += 1;
    }
    proof {
        assert(cs@.take(cs@.len() as int) =~= cs@);
    }
    out
}

/// Whether two strings hold the same characters.
pub fn same_text(a: &str, b: &str) -> (r: bool)
    ensures
        r == (a@ == b@),
{
    let x = chars_of(a);
    let y = chars_of(b);
    same_chars(x.as_slice(), y.as_slice())
}

/// Whether two character slices hold the same characters.
pub fn same_chars(a: &[char], b: &[char]) -> (r: bool)
    ensures
        r == (a@ == b@),
{
    if a.len() != b.len() {
        return false;
    }
    let mut i: usize = 0;
    while i < a.len()
        invariant
            i <= a@.len(),
            a@.len() == b@.len(),
            forall|j: int| 0 <= j < i ==> a@[j] == b@[j],
        decreases a@.len() - i,
    {
        if a[i] != b[i] {
            return false;
        }
        i += 1;
    }
    proof {
        assert(a@ =~= b@);
    }
    true
}

/// Whether one character precedes another by code point.
fn char_less(c: char, d: char) -> (r: bool)
    ensures
        r == ((c as int) < (d as int)),
{
    (c as u32) < (d as u32)
}

/// Whether `a` precedes `b` in lexicographic order.
pub fn text_less(a: &str, b: &str) -> (r: bool)
    ensures
        r == text_lt(a@, b@),
{
    let x = chars_of(a);
    let y = chars_of(b);
    let mut i: usize = 0;
    proof {
        assert(x@.skip(0) =~= x@);
        assert(y@.skip(0) =~= y@);
    }
    while i < x.len() && i < y.len()
        invariant
            i <= x@.len(),
            i <= y@.len(),
            x@ == a@,
            y@ == b@,
            text_lt(a@, b@) == text_lt(x@.skip(i as int), y@.skip(i as int)),
        decreases x@.len() - i,
    {
        proof {
            assert(x@.skip(i as int)[0] == x@[i as int]);
            assert(y@.skip(i as int)[0] == y@[i as int]);
            assert(x@.skip(i as int).drop_first() =~= x@.skip(i + 1));
            assert(y@.skip(i as int).drop_first() =~= y@.skip(i + 1));
        }
        if x[i] != y[i] {
            return char_less(x[i], y[i]);
        }
        i += 1;
    }
    i < y.len()
}

/// The result of `str::to_lowercase`, which maps every character by the
/// Unicode lowercase mapping.
pub uninterp spec fn lowercase(s: Seq<char>) -> Seq<char>;

/// `str::to_lowercase`: the lowercase equivalent of the string. The result
/// depends on the string alone.
pub assume_specification[ str::to_lowercase ](s: &str) -> (r: String)
    ensures
        r@ == lowercase(s@),
;

/// Whether a text is one of ASCII characters.
pub open spec fn is_ascii_text(s: Seq<char>) -> bool {
    forall|i: int| 0 <= i < s.len() ==> (#[trigger] s[i]) as u32 <= 127
}

/// One text after the other.
pub fn concat_text(a: &str, b: &str) -> (r: String)
    ensures
        r@ == a@ + b@,
{
    let mut r = a.to_owned();
    r.append(b);
    r
}

/// The texts one after the other, with `sep` between each two.
pub open spec fn joined(parts: Seq<Seq<char>>, sep: Seq<char>) -> Seq<char>
    decreases parts.len(),
{
    if parts.len() == 0 {
        Seq::empty()
    } else if parts.len() == 1 {
        parts[0]
    } else {
        joined(parts.drop_last(), sep) + sep + parts.last()
    }
}

/// The texts one after the other, with `sep` between each two.
pub fn join_texts(parts: &Vec<String>, sep: &str) -> (r: String)
    ensures
        r@ == joined(parts.deep_view(), sep@),
{
    let ghost ps = parts.deep_view();
    let mut r = String::new();
    let mut i: usize = 0;
    while i < parts.len()
        invariant
            i <= parts@.len(),
            ps == parts.deep_view(),
            r@ == joined(ps.take(i as int), sep@),
        decreases parts@.len() - i,
    {
        proof {
            assert(ps.take(i + 1).drop_last() =~= ps.take(i as int));
            assert(ps.take(i + 1).last() == parts@[i as int]@);
        }
        if i > 0 {
            r.append(sep);
        } else {
            proof {
                assert(ps.take(1)[0] == parts@[0]@);
                assert(r@ + parts@[0]@ =~= parts@[0]@);
            }
        }
        r.append(parts[i].as_str());
        i += 1;
    }
    proof {
        assert(ps.take(ps.len() as int) =~= ps);
    }
    r
}

/// Whether a list holds a text.
pub fn contains_text(v: &Vec<String>, s: &str) -> (r: bool)
    ensures
        r == v.deep_view().contains(s@),
{
    let ghost d = v.deep_view();
    let mut i: usize = 0;
    while i < v.len()
        invariant
            i <= v@.len(),
            d == v.deep_view(),
            forall|j: int| 0 <= j < i ==> #[trigger] d[j] != s@,
        decreases v@.len() - i,
    {
        if same_text(v[i].as_str(), s) {
            proof {
                assert(d[i as int] == s@);
            }
            return true;
        }
        i += 1;
    }
    false
}

/// Whether a character has the Unicode `White_Space` property.
pub open spec fn white_space(c: char) -> bool {
    let n = c as int;
    ||| 0x9 <= n <= 0xd
    ||| n == 0x20
    ||| n == 0x85
    ||| n == 0xa0
    ||| n == 0x1680
    ||| 0x2000 <= n <= 0x200a
    ||| n == 0x2028
    ||| n == 0x2029
    ||| n == 0x202f
    ||| n == 0x205f
    ||| n == 0x3000
}

/// Whether a character has the Unicode `White_Space` property.
pub fn is_white_space(c: char) -> (r: bool)
    ensures
        r == white_space(c),
{
    let n: u32 = c as u32;
    (0x9 <= n && n <= 0xd) || n == 0x20 || n == 0x85 || n == 0xa0 || n == 0x1680 || (0x2000 <= n
        && n <= 0x200a) || n == 0x2028 || n == 0x2029 || n == 0x202f || n == 0x205f || n == 0x3000
}

/// The text without leading white space.
pub open spec fn trimmed_start(s: Seq<char>) -> Seq<char>
    decreases s.len(),
{
    if s.len() > 0 && white_space(s[0]) {
        trimmed_start(s.drop_first())
    } else {
        s
    }
}

/// The text without trailing white space.
pub open spec fn trimmed_end(s: Seq<char>) -> Seq<char>
    decreases s.len(),
{
    if s.len() > 0 && white_space(s.last()) {
        trimmed_end(s.drop_last())
    } else {
        s
    }
}

/// The text without white space at either end.
pub open spec fn trimmed(s: Seq<char>) -> Seq<char> {
    trimmed_end(trimmed_start(s))
}

/// Removes trailing white space.
pub fn trim_end(s: &[char]) -> (r: &[char])
    ensures
        r@ == trimmed_end(s@),
{
    let mut n: usize = s.len();
    proof {
        assert(s@.take(n as int) =~= s@);
    }
    while n > 0
        invariant_except_break
            n <= s@.len(),
            trimmed_end(s@) == trimmed_end(s@.take(n as int)),
        ensures
            n <= s@.len(),
            trimmed_end(s@) == s@.take(n as int),
        decreases n,
    {
        proof {
            assert(s@.take(n as int).last() == s@[n - 1]);
            assert(s@.take(n as int).drop_last() =~= s@.take(n - 1));
        }
        if !is_white_space(s[n - 1]) {
            break;
        }
        n -= 1;
    }
    let r = vstd::slice::slice_subrange(s, 0, n);
    proof {
        assert(r@ =~= s@.take(n as int));
    }
    r
}

/// Removes leading white space.
pub fn trim_start(s: &[char]) -> (r: &[char])
    ensures
        r@ == trimmed_start(s@),
{
    let mut i: usize = 0;
    proof {
        assert(s@.skip(0) =~= s@);
    }
    while i < s.len()
        invariant_except_break
            i <= s@.len(),
            trimmed_start(s@) == trimmed_start(s@.skip(i as int)),
        ensures
            i <= s@.len(),
            trimmed_start(s@) == s@.skip(i as int),
        decreases s@.len() - i,
    {
        proof {
            assert(s@.skip(i as int)[0] == s@[i as int]);
            assert(s@.skip(i as int).drop_first() =~= s@.skip(i + 1));
        }
        if !is_white_space(s[i]) {
            break;
        }
        i += 1;
    }
    let r = vstd::slice::slice_subrange(s, i, s.len());
    proof {
        assert(r@ =~= s@.skip(i as int));
    }
    r
}

/// Whether `s` begins with `p`.
pub open spec fn begins_with(s: Seq<char>, p: Seq<char>) -> bool {
    s.len() >= p.len() && s.take(p.len() as int) == p
}

/// Whether `s` ends with `p`.
pub open spec fn finishes_with(s: Seq<char>, p: Seq<char>) -> bool {
    s.len() >= p.len() && s.skip(s.len() - p.len()) == p
}

/// What is left of `s` behind the prefix `p`.
pub fn after_prefix<'a>(s: &'a [char], p: &[char]) -> (r: Option<&'a [char]>)
    ensures
        match r {
            Some(rest) => begins_with(s@, p@) && rest@ == s@.skip(p@.len() as int),
            None => !begins_with(s@, p@),
        },
{
    if s.len() < p.len() {
        return None;
    }
    let head = vstd::slice::slice_subrange(s, 0, p.len());
    proof {
        assert(head@ =~= s@.take(p@.len() as int));
    }
    if !same_chars(head, p) {
        return None;
    }
    let rest = vstd::slice::slice_subrange(s, p.len(), s.len());
    proof {
        assert(rest@ =~= s@.skip(p@.len() as int));
    }
    Some(rest)
}

/// What is left of `s` before the suffix `p`.
pub fn before_suffix<'a>(s: &'a [char], p: &[char]) -> (r: Option<&'a [char]>)
    ensures
        match r {
            Some(rest) => finishes_with(s@, p@) && rest@ == s@.take(s@.len() - p@.len()),
            None => !finishes_with(s@, p@),
        },
{
    if s.len() < p.len() {
        return None;
    }
    let tail = vstd::slice::slice_subrange(s, s.len() - p.len(), s.len());
    proof {
        assert(tail@ =~= s@.skip(s@.len() - p@.len()));
    }
    if !same_chars(tail, p) {
        return None;
    }
    let rest = vstd::slice::slice_subrange(s, 0, s.len() - p.len());
    proof {
        assert(rest@ =~= s@.take(s@.len() - p@.len()));
    }
    Some(rest)
}

/// The text without the suffix `p`, however often it is repeated.
pub open spec fn without_suffixes(s: Seq<char>, p: Seq<char>) -> Seq<char>
    decreases s.len(),
{
    if p.len() > 0 && finishes_with(s, p) {
        without_suffixes(s.take(s.len() - p.len()), p)
    } else {
        s
    }
}

/// Removes the suffix `p`, however often it is repeated.
pub fn strip_suffixes<'a>(s: &'a [char], p: &[char]) -> (r: &'a [char])
    requires
        p@.len() > 0,
    ensures
        r@ == without_suffixes(s@, p@),
{
    let mut r = s;
    loop
        invariant
            p@.len() > 0,
            without_suffixes(s@, p@) == without_suffixes(r@, p@),
        decreases r@.len(),
    {
        match before_suffix(r, p) {
            Some(rest) => {
                r = rest;
            },
            None => {
                return r;
            },
        }
    }
}

/// The part of a text behind the last occurrence of `c`, or all of it.
pub open spec fn after_last(s: Seq<char>, c: char) -> Seq<char>
    decreases s.len(),
{
    if s.len() == 0 || s.last() == c {
        Seq::empty()
    } else {
        after_last(s.drop_last(), c).push(s.last())
    }
}

/// The part of a text behind the last occurrence of `c`, or all of it.
pub fn tail_after_last(s: &[char], c: char) -> (r: &[char])
    ensures
        r@ == after_last(s@, c),
{
    let mut i: usize = s.len();
    proof {
        assert(s@.take(i as int) =~= s@);
        assert(s@.skip(i as int) =~= Seq::<char>::empty());
        assert(after_last(s@, c) =~= after_last(s@.take(i as int), c) + s@.skip(i as int));
    }
    while i > 0
        invariant_except_break
            i <= s@.len(),
            after_last(s@, c) == after_last(s@.take(i as int), c) + s@.skip(i as int),
        ensures
            i <= s@.len(),
            after_last(s@, c) == s@.skip(i as int),
        decreases i,
    {
        let ghost head = s@.take(i as int);
        proof {
            assert(head.last() == s@[i - 1]);
            assert(head.drop_last() =~= s@.take(i - 1));
        }
        if s[i - 1] == c {
            proof {
                assert(after_last(s@, c) =~= s@.skip(i as int));
            }
            break;
        }
        proof {
            assert(after_last(head, c) + s@.skip(i as int) =~= after_last(s@.take(i - 1), c)
                + s@.skip(i - 1));
        }
        i -= 1;
        proof {
            if i == 0 {
                assert(after_last(s@.take(0), c) + s@.skip(0) =~= s@.skip(0));
            }
        }
    }
    proof {
        if s@.len() == 0 {
            assert(after_last(s@, c) =~= s@.skip(0));
        }
    }
    let r = vstd::slice::slice_subrange(s, i, s.len());
    proof {
        assert(r@ =~= s@.skip(i as int));
    }
    r
}

/// The text with the first `c` replaced by `d`.
pub open spec fn with_first_replaced(s: Seq<char>, c: char, d: char) -> Seq<char>
    decreases s.len(),
{
    if s.len() == 0 {
        s
    } else if s[0] == c {
        s.update(0, d)
    } else {
        seq![s[0]] + with_first_replaced(s.drop_first(), c, d)
    }
}

/// Replaces the first `c` by `d`.
pub fn replace_first(s: &[char], c: char, d: char) -> (r: Vec<char>)
    ensures
        r@ == with_first_replaced(s@, c, d),
{
    let mut r: Vec<char> = Vec::new();
    let mut i: usize = 0;
    proof {
        assert(s@.skip(0) =~= s@);
        assert(r@ + with_first_replaced(s@.skip(0), c, d) =~= with_first_replaced(s@, c, d));
    }
    while i < s.len()
        invariant
            i <= s@.len(),
            r@ == s@.take(i as int),
            with_first_replaced(s@, c, d) == r@ + with_first_replaced(s@.skip(i as int), c, d),
        decreases s@.len() - i,
    {
        proof {
            assert(s@.skip(i as int)[0] == s@[i as int]);
            assert(s@.skip(i as int).drop_first() =~= s@.skip(i + 1));
            assert(s@.take(i + 1) =~= s@.take(i as int).push(s@[i as int]));
        }
        if s[i] == c {
            let ghost before = r@;
            r.push(d);
            let mut j: usize = i + 1;
            while j < s.len()
                invariant
                    i < j <= s@.len(),
                    r@ == before.push(d) + s@.subrange(i + 1, j as int),
                decreases s@.len() - j,
            {
                r.push(s[j]);
                proof {
                    assert(s@.subrange(i + 1, j + 1) =~= s@.subrange(i + 1, j as int).push(
                        s@[j as int],
                    ));
                    assert(r@ =~= before.push(d) + s@.subrange(i + 1, j + 1));
                }
                j += 1;
            }
            proof {
                assert(r@ =~= before + s@.skip(i as int).update(0, d));
            }
            return r;
        }
        r.push(s[i]);
        proof {
            assert(s@.take(i as int) + (seq![s@[i as int]] + with_first_replaced(s@.skip(i + 1), c, d))
                =~= r@ + with_first_replaced(s@.skip(i + 1), c, d));
        }
        i += 1;
    }
    proof {
        assert(r@ + with_first_replaced(s@.skip(i as int), c, d) =~= r@);
    }
    r
}

/// A character as it stands in a label: ASCII letters in lower case and
/// digits as they are, a hyphen for all else.
pub open spec fn label_char(c: char) -> char {
    if 'a' <= c <= 'z' || '0' <= c <= '9' {
        c
    } else if 'A' <= c <= 'Z' {
        (c as int + 32) as char
    } else {
        '-'
    }
}

/// A text as a domain label.
pub open spec fn label_text(s: Seq<char>) -> Seq<char> {
    s.map_values(|c: char| label_char(c))
}

/// A character as it stands in a label.
pub fn to_label_char(c: char) -> (r: char)
    ensures
        r == label_char(c),
{
    if ('a' <= c && c <= 'z') || ('0' <= c && c <= '9') {
        c
    } else if 'A' <= c && c <= 'Z' {
        let n: u32 = c as u32;
        let m: u8 = (n + 32) as u8;
        m as char
    } else {
        '-'
    }
}

/// A text as a domain label.
pub fn sanitize_label(s: &str) -> (r: String)
    ensures
        r@ == label_text(s@),
{
    let cs = chars_of(s);
    let mut out = String::new();
    let mut i: usize = 0;
    while i < cs.len()
        invariant
            i <= cs@.len(),
            out@ == label_text(cs@.take(i as int)),
        decreases cs@.len() - i,
    {
        out.push(to_label_char(cs[i]));
        proof {
            assert(out@ =~= label_text(cs@.take(i + 1)));
        }
        i += 1;
    }
    proof {
        assert(cs@.take(cs@.len() as int) =~= cs@);
    }
    out
}

/// The texts of a list that another does not hold.
pub fn texts_without(v: &Vec<String>, w: &Vec<String>) -> (r: Vec<String>)
    ensures
        r.deep_view() == v.deep_view().filter(|s: Seq<char>| !w.deep_view().contains(s)),
{
    let ghost a = v.deep_view();
    let ghost b = w.deep_view();
    let ghost p = |s: Seq<char>| !b.contains(s);
    let mut r: Vec<String> = Vec::new();
    let mut i: usize = 0;
    proof {
        assert(r.deep_view() =~= a.take(0).filter(p));
    }
    while i < v.len()
        invariant
            i <= v@.len(),
            a == v.deep_view(),
            b == w.deep_view(),
            p == (|s: Seq<char>| !b.contains(s)),
            r.deep_view() == a.take(i as int).filter(p),
        decreases v@.len() - i,
    {
        proof {
            assert(a.take(i + 1) =~= a.take(i as int).push(a[i as int]));
            a.take(i as int).lemma_filter_push(a[i as int], p);
        }
        if !contains_text(w, v[i].as_str()) {
            let ghost before = r.deep_view();
            r.push(v[i].clone());
            proof {
                assert(r.deep_view() =~= before.push(a[i as int]));
            }
        }
        i += 1;
    }
    proof {
        assert(a.take(a.len() as int) =~= a);
        assert(p =~= (|s: Seq<char>| !w.deep_view().contains(s)));
    }
    r
}

/// What follows the first occurrence of a part, if it occurs.
pub open spec fn after_part(s: Seq<char>, p: Seq<char>) -> Option<Seq<char>>
    decreases s.len(),
{
    if begins_with(s, p) {
        Some(s.skip(p.len() as int))
    } else if s.len() == 0 {
        None
    } else {
        after_part(s.drop_first(), p)
    }
}

/// What follows the first occurrence of a part, if it occurs.
pub fn find_after<'a>(s: &'a [char], p: &[char]) -> (r: Option<&'a [char]>)
    ensures
        match r {
            Some(t) => after_part(s@, p@) == Some(t@),
            None => after_part(s@, p@) is None,
        },
{
    let mut i: usize = 0;
    proof {
        assert(s@.skip(0) =~= s@);
    }
    loop
        invariant
            i <= s@.len(),
            after_part(s@, p@) == after_part(s@.skip(i as int), p@),
        decreases s@.len() - i,
    {
        let rest = vstd::slice::slice_subrange(s, i, s.len());
        proof {
            assert(rest@ =~= s@.skip(i as int));
        }
        match after_prefix(rest, p) {
            Some(t) => {
                return Some(t);
            },
            None => {},
        }
        if i == s.len() {
            return None;
        }
        proof {
            assert(s@.skip(i as int).drop_first() =~= s@.skip(i + 1));
        }
        i += 1;
    }
}

/// The text of bytes, as `String::from_utf8_lossy` gives it.
pub uninterp spec fn lossy(bytes: Seq<u8>) -> Seq<char>;

/// `String::from_utf8_lossy`: a text that depends on the bytes alone. Bytes that
/// are UTF-8 give what they encode; what stands for other bytes is not stated.
#[verifier::external_body]
pub(crate) fn lossy_text(bytes: &[u8]) -> (r: String)
    ensures
        r@ == lossy(bytes@),
        valid_utf8(bytes@) ==> r@ == decode_utf8(bytes@),
{
    String::from_utf8_lossy(bytes).into_owned()
}

/// Blanks, tabs and line ends are white space; no other ASCII character is.
pub proof fn law_visible_characters_are_no_white_space(c: char)
    requires
        c as int <= 127,
    ensures
        white_space(c) <==> c == ' ' || c == '\t' || c == '\n' || c == '\r' || c as int == 0xb
            || c as int == 0xc,
{
}

/// Trimming takes off the white space at both ends, all of it and nothing else.
pub proof fn law_trimming_takes_off_white_space_only(
    front: Seq<char>,
    core: Seq<char>,
    back: Seq<char>,
)
    requires
        forall|i: int| 0 <= i < front.len() ==> white_space(#[trigger] front[i]),
        forall|i: int| 0 <= i < back.len() ==> white_space(#[trigger] back[i]),
        core.len() > 0 ==> !white_space(core[0]) && !white_space(core.last()),
    ensures
        trimmed(front + core + back) == core,
        core.len() > 0 ==> trimmed_start(front + core + back) == core + back,
        trimmed_end(core + back) == core,
    decreases front.len() + back.len(),
{
    let all = front + core + back;
    if front.len() > 0 {
        law_trimming_takes_off_white_space_only(front.drop_first(), core, back);
        assert(all[0] == front[0]);
        assert(all.drop_first() =~= front.drop_first() + core + back);
    } else if back.len() > 0 {
        law_trimming_takes_off_white_space_only(front, core, back.drop_last());
        assert(all =~= core + back);
        assert((core + back).last() == back.last());
        assert((core + back).drop_last() =~= core + back.drop_last());
        if core.len() > 0 {
            assert(all[0] == core[0]);
        } else {
            assert(all =~= back);
            assert(front + core + back.drop_last() =~= back.drop_last());
            lemma_white_space_is_trimmed(back);
        }
    } else {
        assert(all =~= core);
        assert(core + back =~= core);
    }
}

/// Nothing is left of white space.
proof fn lemma_white_space_is_trimmed(s: Seq<char>)
    requires
        forall|i: int| 0 <= i < s.len() ==> white_space(#[trigger] s[i]),
    ensures
        trimmed_start(s) == Seq::<char>::empty(),
    decreases s.len(),
{
    if s.len() > 0 {
        lemma_white_space_is_trimmed(s.drop_first());
    }
}

/// A text begins with what can be completed to it, and finishes with what it can
/// be completed by.
pub proof fn law_prefix_and_suffix_make_up_a_text(s: Seq<char>, a: Seq<char>, b: Seq<char>)
    ensures
        begins_with(a + b, a),
        finishes_with(a + b, b),
        begins_with(s, a) ==> s == a + s.skip(a.len() as int),
        finishes_with(s, b) ==> s == s.take(s.len() - b.len()) + b,
{
    assert((a + b).take(a.len() as int) =~= a);
    assert((a + b).skip((a + b).len() - b.len()) =~= b);
    if begins_with(s, a) {
        assert(s =~= a + s.skip(a.len() as int));
    }
    if finishes_with(s, b) {
        assert(s =~= s.take(s.len() - b.len()) + b);
    }
}

/// A suffix is taken off as often as it stands there.
pub proof fn law_suffixes_are_taken_off(s: Seq<char>, p: Seq<char>)
    requires
        p.len() > 0,
    ensures
        without_suffixes(s + p, p) == without_suffixes(s, p),
        !finishes_with(without_suffixes(s, p), p),
        !finishes_with(s, p) ==> without_suffixes(s, p) == s,
    decreases s.len(),
{
    law_prefix_and_suffix_make_up_a_text(s + p, s, p);
    assert((s + p).take((s + p).len() - p.len()) =~= s);
    if finishes_with(s, p) {
        law_suffixes_are_taken_off(s.take(s.len() - p.len()), p);
    }
}

/// What stands behind the last of some character is the longest end of the text
/// without it.
pub proof fn law_tail_stands_behind_the_last(front: Seq<char>, tail: Seq<char>, c: char)
    requires
        !tail.contains(c),
    ensures
        after_last(front + seq![c] + tail, c) == tail,
        after_last(tail, c) == tail,
    decreases tail.len(),
{
    let all = front + seq![c] + tail;
    if tail.len() == 0 {
        assert(all.last() == c);
        assert(tail =~= Seq::empty());
    } else {
        let shorter = tail.drop_last();
        assert forall|i: int| 0 <= i < shorter.len() implies #[trigger] shorter[i] != c by {
            assert(tail[i] == shorter[i]);
        }
        law_tail_stands_behind_the_last(front, shorter, c);
        assert(tail[tail.len() - 1] == tail.last());
        assert(all.last() == tail.last());
        assert(all.drop_last() =~= front + seq![c] + shorter);
        assert(shorter.push(tail.last()) =~= tail);
    }
}

/// A label has a character for each of the text, a lower-case letter or a digit as
/// it is, an upper-case letter in lower case, and a hyphen for anything else.
pub proof fn law_labels_are_lower_case(s: Seq<char>)
    ensures
        label_text(s).len() == s.len(),
        forall|i: int|
            0 <= i < s.len() ==> {
                let c = s[i];
                let l = #[trigger] label_text(s)[i];
                &&& ('a' <= c <= 'z' || '0' <= c <= '9') ==> l == c
                &&& 'A' <= c <= 'Z' ==> l as int - 'a' as int == c as int - 'A' as int
                &&& !('a' <= c <= 'z' || '0' <= c <= '9' || 'A' <= c <= 'Z') ==> l == '-'
            },
{
}

/// What stands behind a part is what stands behind its first occurrence; there is
/// nothing where it does not occur.
pub proof fn law_part_is_found_where_it_first_occurs(s: Seq<char>, p: Seq<char>)
    ensures
        match after_part(s, p) {
            Some(t) => {
                let k = s.len() - p.len() - t.len();
                &&& k >= 0
                &&& s == s.take(k) + p + t
                &&& forall|j: int| 0 <= j < k ==> !begins_with(#[trigger] s.skip(j), p)
            },
            None => forall|j: int| 0 <= j <= s.len() ==> !begins_with(#[trigger] s.skip(j), p),
        },
    decreases s.len(),
{
    assert(s.skip(0) =~= s);
    if begins_with(s, p) {
        assert(s =~= s.take(0) + p + s.skip(p.len() as int));
    } else if s.len() > 0 {
        let rest = s.drop_first();
        law_part_is_found_where_it_first_occurs(rest, p);
        assert forall|j: int| 1 <= j <= s.len() implies #[trigger] s.skip(j) == rest.skip(j - 1) by {
            assert(s.skip(j) =~= rest.skip(j - 1));
        }
        match after_part(rest, p) {
            Some(t) => {
                let k = s.len() - p.len() - t.len();
                assert(seq![s[0]] + rest =~= s);
                assert(s.take(k) =~= seq![s[0]] + rest.take(k - 1));
                assert(s =~= s.take(k) + p + t);
            },
            None => {},
        }
    }
}

/// The first of some character is replaced, and nothing else changes.
pub proof fn law_only_the_first_is_replaced(
    front: Seq<char>,
    rest: Seq<char>,
    c: char,
    d: char,
)
    requires
        !front.contains(c),
    ensures
        with_first_replaced(front + seq![c] + rest, c, d) == front + seq![d] + rest,
        with_first_replaced(front, c, d) == front,
    decreases front.len(),
{
    let all = front + seq![c] + rest;
    if front.len() == 0 {
        assert(all[0] == c);
        assert(all.update(0, d) =~= front + seq![d] + rest);
    } else {
        let shorter = front.drop_first();
        assert(front[0] != c);
        assert forall|i: int| 0 <= i < shorter.len() implies #[trigger] shorter[i] != c by {
            assert(front[i + 1] == shorter[i]);
        }
        law_only_the_first_is_replaced(shorter, rest, c, d);
        assert(all[0] == front[0]);
        assert(all.drop_first() =~= shorter + seq![c] + rest);
        assert(seq![front[0]] + (shorter + seq![d] + rest) =~= front + seq![d] + rest);
        assert(seq![front[0]] + shorter =~= front);
    }
}

/// Texts that are joined stand behind one another, with the separator between
/// each two.
pub proof fn law_joined_texts_keep_their_order(
    first: Seq<char>,
    others: Seq<Seq<char>>,
    sep: Seq<char>,
)
    ensures
        joined(seq![first], sep) == first,
        others.len() > 0 ==> joined(seq![first] + others, sep) == first + sep + joined(others, sep),
    decreases others.len(),
{
    reveal_with_fuel(joined, 2);
    let all = seq![first] + others;
    if others.len() == 1 {
        assert(all.drop_last() =~= seq![first]);
        assert(joined(all, sep) =~= first + sep + joined(others, sep));
    } else if others.len() > 1 {
        law_joined_texts_keep_their_order(first, others.drop_last(), sep);
        assert(all.drop_last() =~= seq![first] + others.drop_last());
        assert(all.last() == others.last());
        assert(joined(all, sep) =~= first + sep + joined(others, sep));
    }
}

/// The first character in which two texts differ decides which comes first; where
/// there is none, the shorter does.
pub proof fn law_first_difference_decides(
    common: Seq<char>,
    a: Seq<char>,
    b: Seq<char>,
)
    requires
        a.len() > 0 && b.len() > 0 ==> a[0] != b[0],
    ensures
        text_lt(common + a, common + b) <==> b.len() > 0 && (a.len() == 0 || (a[0] as int)
            < (b[0] as int)),
    decreases common.len(),
{
    let x = common + a;
    let y = common + b;
    if common.len() == 0 {
        assert(x =~= a);
        assert(y =~= b);
    } else {
        law_first_difference_decides(common.drop_first(), a, b);
        assert(x.drop_first() =~= common.drop_first() + a);
        assert(y.drop_first() =~= common.drop_first() + b);
        assert(x[0] == y[0]);
    }
}

} // verus!
