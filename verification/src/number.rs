//! Numbers as text.

use vstd::prelude::*;

use crate::text::chars_of;

verus! {

/// The character of a decimal digit.
pub open spec fn digit_char(d: int) -> char {
    ('0' as int + d) as char
}

/// A number in decimal.
pub open spec fn dec(n: nat) -> Seq<char>
    decreases n,
{
    if n < 10 {
        seq![digit_char(n as int)]
    } else {
        dec(n / 10).push(digit_char((n % 10) as int))
    }
}

/// Whether a character is a decimal digit.
pub open spec fn is_digit(c: char) -> bool {
    '0' <= c <= '9'
}

/// Whether a text is made of decimal digits, at least one.
pub open spec fn all_digits(s: Seq<char>) -> bool {
    s.len() > 0 && forall|i: int| 0 <= i < s.len() ==> is_digit(#[trigger] s[i])
}

/// The number that a text of decimal digits stands for.
pub open spec fn digits_value(s: Seq<char>) -> nat
    decreases s.len(),
{
    if s.len() == 0 {
        0
    } else {
        (digits_value(s.drop_last()) * 10 + (s.last() as int - '0' as int)) as nat
    }
}

/// The port that a text stands for: decimal digits, with a plus sign in front
/// or without, up to 65535.
pub open spec fn parsed_u16(s: Seq<char>) -> Option<u16> {
    let digits = if s.len() > 0 && s[0] == '+' {
        s.skip(1)
    } else {
        s
    };
    if all_digits(digits) && digits_value(digits) <= 65535 {
        Some(digits_value(digits) as u16)
    } else {
        None
    }
}

fn make_digit(d: u8) -> (c: char)
    requires
        d < 10,
    ensures
        c == digit_char(d as int),
{
    (48 + d) as char
}

/// A number in decimal.
pub fn decimal(n: u64) -> (r: String)
    ensures
        r@ == dec(n as nat),
    decreases n,
{
    if n < 10 {
        let mut r = String::new();
        r.push(make_digit(n as u8));
        proof {
            assert(r@ =~= dec(n as nat));
        }
        r
    } else {
        let mut r = decimal(n / 10);
        r.push(make_digit((n % 10) as u8));
        r
    }
}

proof fn lemma_prefix_value(s: Seq<char>, i: int)
    requires
        0 <= i <= s.len(),
        all_digits(s),
    ensures
        digits_value(s.take(i)) <= digits_value(s),
    decreases s.len() - i,
{
    if i < s.len() {
        lemma_prefix_value(s, i + 1);
        assert(s.take(i + 1).drop_last() =~= s.take(i));
        assert(s.take(i + 1).last() == s[i]);
        assert(is_digit(s[i]));
    } else {
        assert(s.take(i) =~= s);
    }
}

/// The number that a slice of decimal digits stands for, up to a limit.
pub fn parse_digits(s: &[char], limit: u32) -> (r: Option<u32>)
    requires
        limit <= 100_000_000,
    ensures
        r == (if all_digits(s@) && digits_value(s@) <= limit {
            Some(digits_value(s@) as u32)
        } else {
            None::<u32>
        }),
{
    if s.len() == 0 {
        return None;
    }
    let mut v: u32 = 0;
    let mut i: usize = 0;
    while i < s.len()
        invariant
            i <= s@.len(),
            limit <= 100_000_000,
            v <= limit,
            forall|j: int| 0 <= j < i ==> is_digit(#[trigger] s@[j]),
            v == digits_value(s@.take(i as int)),
        decreases s@.len() - i,
    {
        let c: char = s[i];
        if !('0' <= c && c <= '9') {
            proof {
                assert(!is_digit(s@[i as int]));
            }
            return None;
        }
        let d: u32 = c as u32 - 48;
        proof {
            assert(s@.take(i + 1).drop_last() =~= s@.take(i as int));
            assert(s@.take(i + 1).last() == c);
        }
        v = v * 10 + d;
        if v > limit {
            proof {
                if all_digits(s@) {
                    lemma_prefix_value(s@, i + 1);
                }
            }
            return None;
        }
        i += 1;
    }
    proof {
        assert(s@.take(s@.len() as int) =~= s@);
    }
    Some(v)
}

/// The port that a text stands for.
pub fn parse_u16(s: &str) -> (r: Option<u16>)
    ensures
        r == parsed_u16(s@),
{
    let cs = chars_of(s);
    parse_u16_chars(cs.as_slice())
}

/// The port that a text stands for.
pub fn parse_u16_chars(cs: &[char]) -> (r: Option<u16>)
    ensures
        r == parsed_u16(cs@),
{
    let digits = if cs.len() > 0 && cs[0] == '+' {
        let d = vstd::slice::slice_subrange(cs, 1, cs.len());
        proof {
            assert(d@ =~= cs@.skip(1));
        }
        d
    } else {
        cs
    };
    match parse_digits(digits, 65535) {
        Some(v) => Some(v as u16),
        None => None,
    }
}

/// Decimal digits read back as the number they were written from.
pub proof fn lemma_dec_reads_back(n: nat)
    ensures
        all_digits(dec(n)),
        digits_value(dec(n)) == n,
        dec(n)[0] != '+',
        dec(n).len() > 0,
    decreases n,
{
    if n < 10 {
        assert(dec(n).drop_last() =~= Seq::<char>::empty());
        assert(digits_value(Seq::<char>::empty()) == 0);
        assert(dec(n).last() == digit_char(n as int));
    } else {
        lemma_dec_reads_back(n / 10);
        let head = dec(n / 10);
        assert(dec(n).drop_last() =~= head);
        assert(dec(n).last() == digit_char((n % 10) as int));
        assert forall|i: int| 0 <= i < dec(n).len() implies is_digit(#[trigger] dec(n)[i]) by {
            if i < head.len() {
                assert(dec(n)[i] == head[i]);
            }
        }
        assert(dec(n)[0] == head[0]);
    }
}

/// A port written in decimal parses back.
pub proof fn law_port_text_reads_back(p: u16)
    ensures
        parsed_u16(dec(p as nat)) == Some(p),
{
    lemma_dec_reads_back(p as nat);
}

/// The character of a hexadecimal digit.
pub open spec fn hex_char(d: int) -> char {
    if d < 10 {
        ('0' as int + d) as char
    } else {
        ('a' as int + (d - 10)) as char
    }
}

/// A number in hexadecimal, in lower case.
pub open spec fn hex(n: nat) -> Seq<char>
    decreases n,
{
    if n < 16 {
        seq![hex_char(n as int)]
    } else {
        hex(n / 16).push(hex_char((n % 16) as int))
    }
}

/// A number in hexadecimal with zeros in front up to a width.
pub open spec fn hex_padded(n: nat, width: nat) -> Seq<char> {
    let h = hex(n);
    if h.len() >= width {
        h
    } else {
        Seq::new((width - h.len()) as nat, |i: int| '0') + h
    }
}

fn make_hex_digit(d: u8) -> (c: char)
    requires
        d < 16,
    ensures
        c == hex_char(d as int),
{
    if d < 10 {
        (48 + d) as char
    } else {
        (97 + (d - 10)) as char
    }
}

fn hex_chars(n: u64) -> (r: Vec<char>)
    ensures
        r@ == hex(n as nat),
    decreases n,
{
    if n < 16 {
        let mut r: Vec<char> = Vec::new();
        r.push(make_hex_digit(n as u8));
        proof {
            assert(r@ =~= hex(n as nat));
        }
        r
    } else {
        let mut r = hex_chars(n / 16);
        r.push(make_hex_digit((n % 16) as u8));
        r
    }
}

/// A number in hexadecimal with zeros in front up to a width.
pub fn hexadecimal(n: u64, width: usize) -> (r: Vec<char>)
    ensures
        r@ == hex_padded(n as nat, width as nat),
{
    let h = hex_chars(n);
    if h.len() >= width {
        return h;
    }
    let zeros: usize = width - h.len();
    let mut r: Vec<char> = Vec::new();
    let mut i: usize = 0;
    while i < zeros
        invariant
            i <= zeros,
            r@ == Seq::new(i as nat, |i: int| '0'),
        decreases zeros - i,
    {
        r.push('0');
        proof {
            assert(r@ =~= Seq::new((i + 1) as nat, |i: int| '0'));
        }
        i += 1;
    }
    let mut j: usize = 0;
    while j < h.len()
        invariant
            j <= h@.len(),
            r@ == Seq::new(zeros as nat, |i: int| '0') + h@.take(j as int),
        decreases h@.len() - j,
    {
        r.push(h[j]);
        proof {
            assert(h@.take(j + 1) =~= h@.take(j as int).push(h@[j as int]));
            assert(r@ =~= Seq::new(zeros as nat, |i: int| '0') + h@.take(j + 1));
        }
        j += 1;
    }
    proof {
        assert(h@.take(h@.len() as int) =~= h@);
    }
    r
}

/// A number is written from its digits, the highest first and none superfluous.
pub proof fn law_decimal_digits(n: nat, d: nat)
    requires
        d < 10,
    ensures
        dec(d) == seq!["0123456789"@[d as int]],
        n > 0 ==> dec(n * 10 + d) == dec(n).push("0123456789"@[d as int]),
{
    reveal_strlit("0123456789");
    assert("0123456789"@ =~= seq!['0', '1', '2', '3', '4', '5', '6', '7', '8', '9']);
    assert(digit_char(d as int) == "0123456789"@[d as int]);
    if n > 0 {
        assert((n * 10 + d) / 10 == n);
        assert((n * 10 + d) % 10 == d);
    }
}

/// A port is read from the digits of a number up to 65535, which a plus sign may
/// precede, and from nothing else.
pub proof fn law_ports_are_numbers(s: Seq<char>, n: nat)
    ensures
        n <= 65535 ==> parsed_u16(dec(n)) == Some(n as u16),
        n > 65535 ==> parsed_u16(dec(n)) is None,
        parsed_u16("+"@ + dec(n)) == parsed_u16(dec(n)),
        parsed_u16(Seq::empty()) is None,
        (exists|i: int|
            0 <= i < s.len() && !('0' <= #[trigger] s[i] <= '9') && (i > 0 || s[i] != '+'))
            ==> parsed_u16(s) is None,
{
    reveal_strlit("+");
    lemma_dec_reads_back(n);
    let signed = "+"@ + dec(n);
    assert(signed[0] == '+');
    assert(signed.skip(1) =~= dec(n));
    if exists|i: int|
        0 <= i < s.len() && !('0' <= #[trigger] s[i] <= '9') && (i > 0 || s[i] != '+') {
        let i = choose|i: int|
            0 <= i < s.len() && !('0' <= #[trigger] s[i] <= '9') && (i > 0 || s[i] != '+');
        if s[0] == '+' {
            assert(s.skip(1)[i - 1] == s[i]);
            assert(!is_digit(s.skip(1)[i - 1]));
        } else {
            assert(!is_digit(s[i]));
        }
    }
}

/// A number in hexadecimal has its digits, the highest first, behind as many zeros
/// as the width asks for.
pub proof fn law_hexadecimal_digits(n: nat, d: nat, width: nat)
    requires
        d < 16,
        width > 0,
    ensures
        hex_padded(d, 1) == seq!["0123456789abcdef"@[d as int]],
        hex_padded(n * 16 + d, width + 1) == hex_padded(n, width).push(
            "0123456789abcdef"@[d as int],
        ),
        hex_padded(n, width).len() >= width,
        hex_padded(0, width) == Seq::new(width, |i: int| '0'),
{
    reveal_strlit("0123456789abcdef");
    assert("0123456789abcdef"@ =~= seq![
        '0', '1', '2', '3', '4', '5', '6', '7', '8', '9', 'a', 'b', 'c', 'd', 'e', 'f',
    ]);
    let c = "0123456789abcdef"@[d as int];
    assert(hex_char(d as int) == c);
    assert(hex(d) =~= seq![c]);
    assert(hex(0) =~= seq!['0']);
    assert(hex_padded(0, width) =~= Seq::new(width, |i: int| '0'));
    if n > 0 {
        assert((n * 16 + d) / 16 == n);
        assert((n * 16 + d) % 16 == d);
        assert(hex(n * 16 + d) == hex(n).push(c));
    }
    assert(hex_padded(n * 16 + d, width + 1) =~= hex_padded(n, width).push(c));
}

/// A number that is written without superfluous zeros is written in the one way
/// there is.
pub proof fn lemma_digits_are_written_back(s: Seq<char>)
    requires
        all_digits(s),
        s.len() > 1 ==> s[0] != '0',
    ensures
        dec(digits_value(s)) == s,
        s.len() > 1 ==> digits_value(s) >= 10,
        s[0] != '0' ==> digits_value(s) > 0,
    decreases s.len(),
{
    let front = s.drop_last();
    let d = s.last() as int - '0' as int;
    assert(is_digit(s[s.len() - 1]));
    if front.len() == 0 {
        assert(digits_value(front) == 0);
        assert(dec(digits_value(s)) =~= s);
    } else {
        assert(front[0] == s[0]);
        assert forall|i: int| 0 <= i < front.len() implies is_digit(#[trigger] front[i]) by {
            assert(is_digit(s[i]));
        }
        lemma_digits_are_written_back(front);
        let n = digits_value(front);
        assert((n * 10 + d) / 10 == n as int);
        assert((n * 10 + d) % 10 == d);
        assert(dec(digits_value(s)) =~= s);
    }
}

/// A number below 256 has at most three digits.
pub proof fn lemma_octets_are_short(n: nat)
    requires
        n <= 255,
    ensures
        dec(n).len() <= 3,
        dec(n).len() > 1 ==> dec(n)[0] != '0',
{
    reveal_with_fuel(dec, 4);
}

} // verus!
