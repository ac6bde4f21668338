//! Packet filter rules and interface aliases for virtual addresses on macOS.

use vstd::prelude::*;

use crate::lines::{
    at_least_one_line, file_text, is_marker, join_file, law_joined_texts_come_apart,
    law_parts_make_up_the_text, lemma_block_is_inside, lemma_file_text, lemma_lines_read_back,
    lemma_outside_append, lemma_outside_lines, lines_of, no_markers, outside_lines, plain_line,
    plain_lines, split_lines, split_on, split_text, strip_blocks, unlines, MarkersView,
};
use crate::number::{
    all_digits, dec, decimal, digits_value, is_digit, lemma_dec_reads_back,
    lemma_digits_are_written_back, lemma_octets_are_short, parse_digits,
};
use crate::raw_net::laws::law_address_is_made_of_its_parts;
use crate::raw_net::{address, dotted, ipv4, ipv4_text, octets, RouteSpec};
use crate::strmap::lemma_take_next;
use crate::text::{
    after_part, after_prefix, begins_with, chars_of, find_after, is_white_space, joined,
    law_trimming_takes_off_white_space_only, same_text, string_of, trim_end, trim_start, trimmed,
    trimmed_start, white_space,
};

verus! {

/// The line before the hook in the packet filter's configuration.
pub const HOOK_MARKER_BEGIN: &'static str =
    "# --- fghjd raw-net anchor hook (managed; do not edit — see raw_net::macos) ---";

/// The line behind the hook.
pub const HOOK_MARKER_END: &'static str = "# --- end fghjd raw-net anchor hook ---";

/// The hook itself.
pub const ANCHOR_HOOK_LINE: &'static str = "rdr-anchor \"fghjd\"";

/// Whether an address belongs to 10.222.0.0/16.
pub open spec fn pool_address(ip: u32) -> bool {
    ip / 0x1_0000 == 0x0ade
}

/// Whether an address belongs to 10.222.0.0/16.
pub fn in_pool(ip: u32) -> (r: bool)
    ensures
        r == pool_address(ip),
{
    let (a, b, _, _) = octets(ip);
    a == 10 && b == 222
}

/// Whether numbers are in ascending order, each once.
pub open spec fn increasing(s: Seq<u32>) -> bool {
    forall|i: int, j: int| #![trigger s[i], s[j]] 0 <= i < j < s.len() ==> s[i] < s[j]
}

/// The addresses of a list in ascending order, each once.
pub fn sorted_addresses(ips: &Vec<u32>) -> (r: Vec<u32>)
    ensures
        increasing(r@),
        r@.to_set() == ips@.to_set(),
{
    let mut r: Vec<u32> = Vec::new();
    let mut i: usize = 0;
    proof {
        assert(r@.to_set() =~= ips@.take(0).to_set());
    }
    while i < ips.len()
        invariant
            i <= ips@.len(),
            increasing(r@),
            r@.to_set() == ips@.take(i as int).to_set(),
        decreases ips@.len() - i,
    {
        let x: u32 = ips[i];
        let ghost before = r@;
        let mut pos: usize = 0;
        while pos < r.len() && r[pos] < x
            invariant
                pos <= r@.len(),
                forall|k: int| 0 <= k < pos ==> #[trigger] r@[k] < x,
            decreases r@.len() - pos,
        {
            pos += 1;
        }
        if pos == r.len() || r[pos] != x {
            r.insert(pos, x);
        }
        proof {
            lemma_take_next(ips@, i as int);
            assert forall|k: u32| r@.to_set().contains(k) == (before.to_set().contains(k) || k == x) by {
                if before.to_set().contains(k) {
                    let p = choose|p: int| 0 <= p < before.len() && before[p] == k;
                    if r@.len() == before.len() {
                        assert(r@[p] == k);
                    } else if p < pos {
                        assert(r@[p] == k);
                    } else {
                        assert(r@[p + 1] == k);
                    }
                }
                assert(r@[pos as int] == x);
                if r@.to_set().contains(k) {
                    let p = choose|p: int| 0 <= p < r@.len() && r@[p] == k;
                    if r@.len() == before.len() {
                        assert(before[p] == k);
                    } else if p < pos {
                        assert(before[p] == k);
                    } else if p > pos {
                        assert(before[p - 1] == k);
                    }
                }
            }
            assert forall|k: u32| r@.to_set().contains(k) == ips@.take(i + 1).to_set().contains(k) by {
                assert(ips@.take(i + 1).contains(k) <==> (ips@.take(i as int).contains(k) || k == x));
                assert(ips@.take(i as int).to_set().contains(k) <==> ips@.take(i as int).contains(
                    k,
                ));
            }
            assert(r@.to_set() =~= ips@.take(i + 1).to_set());
        }
        i += 1;
    }
    proof {
        assert(ips@.take(ips@.len() as int) =~= ips@);
    }
    r
}

fn holds(v: &Vec<u32>, x: u32) -> (r: bool)
    ensures
        r == v@.to_set().contains(x),
{
    let mut i: usize = 0;
    while i < v.len()
        invariant
            i <= v@.len(),
            forall|j: int| 0 <= j < i ==> #[trigger] v@[j] != x,
        decreases v@.len() - i,
    {
        if v[i] == x {
            proof {
                assert(v@[i as int] == x);
            }
            return true;
        }
        i += 1;
    }
    false
}

fn missing_from(wanted: &Vec<u32>, there: &Vec<u32>) -> (r: Vec<u32>)
    ensures
        increasing(r@),
        r@.to_set() == wanted@.to_set().difference(there@.to_set()),
{
    let sorted = sorted_addresses(wanted);
    let mut r: Vec<u32> = Vec::new();
    let mut i: usize = 0;
    while i < sorted.len()
        invariant
            i <= sorted@.len(),
            increasing(sorted@),
            increasing(r@),
            forall|k: int| 0 <= k < r@.len() ==> sorted@.take(i as int).contains(#[trigger] r@[k]),
            forall|x: u32|
                #![trigger r@.contains(x)]
                r@.contains(x) <==> (sorted@.take(i as int).contains(x) && !there@.to_set().contains(
                    x,
                )),
        decreases sorted@.len() - i,
    {
        let x: u32 = sorted[i];
        let ghost before = r@;
        proof {
            lemma_take_next(sorted@, i as int);
        }
        if !holds(there, x) {
            r.push(x);
            proof {
                assert forall|a: int, b: int|
                    #![trigger r@[a], r@[b]]
                    0 <= a < b < r@.len() implies r@[a] < r@[b] by {
                    if b == before.len() {
                        assert(sorted@.take(i as int).contains(before[a]));
                        let p = choose|p: int| 0 <= p < i && sorted@.take(i as int)[p] == before[a];
                        assert(sorted@[p] < sorted@[i as int]);
                    } else {
                        assert(before[a] < before[b]);
                    }
                }
            }
        }
        proof {
            assert forall|y: u32|
                #![trigger r@.contains(y)]
                r@.contains(y) <==> (sorted@.take(i + 1).contains(y) && !there@.to_set().contains(y)) by {
                if before.contains(y) {
                    let p = choose|p: int| 0 <= p < before.len() && before[p] == y;
                    assert(r@[p] == y);
                }
                if r@.len() > before.len() {
                    assert(r@[before.len() as int] == x);
                }
            }
            assert forall|k: int| 0 <= k < r@.len() implies sorted@.take(i + 1).contains(
                #[trigger] r@[k],
            ) by {
                assert(r@.contains(r@[k]));
            }
        }
        i += 1;
    }
    proof {
        assert(sorted@.take(sorted@.len() as int) =~= sorted@);
        assert forall|x: u32|
            r@.to_set().contains(x) == wanted@.to_set().difference(there@.to_set()).contains(x) by {
            assert(r@.to_set().contains(x) <==> r@.contains(x));
            assert(sorted@.to_set().contains(x) <==> sorted@.contains(x));
        }
        assert(r@.to_set() =~= wanted@.to_set().difference(there@.to_set()));
    }
    r
}

/// The addresses to add and to remove so that the desired ones are there: each
/// list in ascending order.
pub fn diff_ips(current: &Vec<u32>, desired: &Vec<u32>) -> (r: (Vec<u32>, Vec<u32>))
    ensures
        increasing(r.0@),
        r.0@.to_set() == desired@.to_set().difference(current@.to_set()),
        increasing(r.1@),
        r.1@.to_set() == current@.to_set().difference(desired@.to_set()),
{
    (missing_from(desired, current), missing_from(current, desired))
}

/// Whether a text is an octet in decimal: up to three digits, no needless zero
/// in front.
pub open spec fn octet_text(s: Seq<char>) -> bool {
    &&& all_digits(s)
    &&& s.len() <= 3
    &&& s.len() > 1 ==> s[0] != '0'
    &&& digits_value(s) <= 255
}

/// The address that a text in dotted decimal form stands for.
pub open spec fn parsed_ipv4(s: Seq<char>) -> Option<u32> {
    let parts = split_on(s, '.');
    if parts.len() == 4 && octet_text(parts[0]) && octet_text(parts[1]) && octet_text(parts[2])
        && octet_text(parts[3]) {
        Some(
            address(
                digits_value(parts[0]) as u8,
                digits_value(parts[1]) as u8,
                digits_value(parts[2]) as u8,
                digits_value(parts[3]) as u8,
            ),
        )
    } else {
        None
    }
}

fn parse_octet(s: &str) -> (r: Option<u8>)
    ensures
        r == (if octet_text(s@) {
            Some(digits_value(s@) as u8)
        } else {
            None::<u8>
        }),
{
    let cs = chars_of(s);
    if cs.len() > 3 || (cs.len() > 1 && cs[0] == '0') {
        return None;
    }
    match parse_digits(cs.as_slice(), 255) {
        Some(v) => Some(v as u8),
        None => None,
    }
}

/// The address that a text in dotted decimal form stands for.
pub fn parse_ipv4(cs: &[char]) -> (r: Option<u32>)
    ensures
        r == parsed_ipv4(cs@),
{
    let parts = split_text(cs, '.');
    let ghost ps = parts.deep_view();
    if parts.len() != 4 {
        return None;
    }
    proof {
        assert(ps[0] == parts@[0]@ && ps[1] == parts@[1]@ && ps[2] == parts@[2]@ && ps[3]
            == parts@[3]@);
    }
    match (
        parse_octet(parts[0].as_str()),
        parse_octet(parts[1].as_str()),
        parse_octet(parts[2].as_str()),
        parse_octet(parts[3].as_str()),
    ) {
        (Some(a), Some(b), Some(c), Some(d)) => Some(ipv4(a, b, c, d)),
        _ => None,
    }
}

/// The text up to the first white space.
pub open spec fn up_to_white_space(s: Seq<char>) -> Seq<char>
    decreases s.len(),
{
    if s.len() == 0 || white_space(s[0]) {
        Seq::empty()
    } else {
        seq![s[0]] + up_to_white_space(s.drop_first())
    }
}

/// The first word of a text; empty if there is none.
pub open spec fn first_word(s: Seq<char>) -> Seq<char> {
    up_to_white_space(trimmed_start(s))
}

fn find_first_word(s: &[char]) -> (r: &[char])
    ensures
        r@ == first_word(s@),
{
    let t = trim_start(s);
    let mut i: usize = 0;
    proof {
        assert(t@.skip(0) =~= t@);
        assert(t@.take(0) + up_to_white_space(t@.skip(0)) =~= up_to_white_space(t@));
    }
    while i < t.len()
        invariant_except_break
            i <= t@.len(),
            up_to_white_space(t@) == t@.take(i as int) + up_to_white_space(t@.skip(i as int)),
        ensures
            i <= t@.len(),
            up_to_white_space(t@) == t@.take(i as int),
        decreases t@.len() - i,
    {
        proof {
            assert(t@.skip(i as int)[0] == t@[i as int]);
            assert(t@.skip(i as int).drop_first() =~= t@.skip(i + 1));
        }
        if is_white_space(t[i]) {
            proof {
                assert(t@.take(i as int) + up_to_white_space(t@.skip(i as int)) =~= t@.take(
                    i as int,
                ));
            }
            break;
        }
        proof {
            assert(t@.take(i as int) + (seq![t@[i as int]] + up_to_white_space(t@.skip(i + 1)))
                =~= t@.take(i + 1) + up_to_white_space(t@.skip(i + 1)));
        }
        i += 1;
        proof {
            if i == t@.len() {
                assert(t@.take(i as int) + up_to_white_space(t@.skip(i as int)) =~= t@.take(
                    i as int,
                ));
            }
        }
    }
    proof {
        if t@.len() == 0 {
            assert(up_to_white_space(t@) =~= t@.take(0));
        }
    }
    let r = vstd::slice::slice_subrange(t, 0, i);
    proof {
        assert(r@ =~= t@.take(i as int));
    }
    r
}

/// The pool address that a line of an interface listing shows.
pub open spec fn alias_of_line(line: Seq<char>) -> Option<u32> {
    let t = trimmed(line);
    if begins_with(t, "inet "@) {
        match parsed_ipv4(first_word(t.skip("inet "@.len() as int))) {
            Some(ip) if pool_address(ip) => Some(ip),
            _ => None,
        }
    } else {
        None
    }
}

fn find_alias(line: &str) -> (r: Option<u32>)
    ensures
        r == alias_of_line(line@),
{
    let cs = chars_of(line);
    let t = trim_end(trim_start(cs.as_slice()));
    let inet = chars_of("inet ");
    match after_prefix(t, inet.as_slice()) {
        None => None,
        Some(rest) => match parse_ipv4(find_first_word(rest)) {
            Some(ip) => if in_pool(ip) {
                Some(ip)
            } else {
                None
            },
            None => None,
        },
    }
}

/// The pool addresses that an interface listing shows, line by line.
pub fn parse_pool_aliases(listing: &str) -> (r: Vec<u32>)
    ensures
        r@ == lines_of(listing@).filter_map(|l: Seq<char>| alias_of_line(l)),
{
    let ls = split_lines(listing);
    let ghost v = ls.deep_view();
    let ghost f = |l: Seq<char>| alias_of_line(l);
    let mut r: Vec<u32> = Vec::new();
    let mut i: usize = 0;
    proof {
        assert(v.take(0).filter_map(f) =~= Seq::<u32>::empty());
    }
    while i < ls.len()
        invariant
            i <= ls@.len(),
            v == ls.deep_view(),
            f == (|l: Seq<char>| alias_of_line(l)),
            r@ == v.take(i as int).filter_map(f),
        decreases ls@.len() - i,
    {
        proof {
            v.lemma_filter_map_take_succ(f, i as int);
        }
        match find_alias(ls[i].as_str()) {
            Some(ip) => {
                r.push(ip);
            },
            None => {},
        }
        i += 1;
    }
    proof {
        assert(v.take(v.len() as int) =~= v);
    }
    r
}

/// The rule that sends a route's traffic to its host port.
pub open spec fn rule_text(r: RouteSpec) -> Seq<char> {
    "rdr pass on lo0 inet proto tcp from any to "@ + dotted(r.virtual_ip) + " port "@ + dec(
        r.container_port as nat,
    ) + " -> 127.0.0.1 port "@ + dec(r.host_port as nat)
}

/// The rules for all routes, one line each.
pub fn render_ruleset(routes: &Vec<RouteSpec>) -> (r: String)
    ensures
        r@ == unlines(routes@.map_values(|r: RouteSpec| rule_text(r))),
{
    let ghost f = |r: RouteSpec| rule_text(r);
    let mut out = String::new();
    let mut i: usize = 0;
    proof {
        assert(routes@.take(0).map_values(f) =~= Seq::empty());
    }
    while i < routes.len()
        invariant
            i <= routes@.len(),
            f == (|r: RouteSpec| rule_text(r)),
            out@ == unlines(routes@.take(i as int).map_values(f)),
        decreases routes@.len() - i,
    {
        let route = routes[i];
        let ghost before = out@;
        let mut line = "rdr pass on lo0 inet proto tcp from any to ".to_owned();
        line.append(ipv4_text(route.virtual_ip).as_str());
        line.append(" port ");
        line.append(decimal(route.container_port as u64).as_str());
        line.append(" -> 127.0.0.1 port ");
        line.append(decimal(route.host_port as u64).as_str());
        out.append(line.as_str());
        out.push('\n');
        proof {
            let next = routes@.take(i + 1).map_values(f);
            assert(next.drop_last() =~= routes@.take(i as int).map_values(f));
            assert(next.last() == rule_text(route));
            assert(line@ == rule_text(route));
            assert(out@ =~= before + line@.push('\n'));
        }
        i += 1;
    }
    proof {
        assert(routes@.take(routes@.len() as int) =~= routes@);
    }
    out
}

/// Whether a route comes before another: by address, then by container port,
/// then by host port.
pub open spec fn route_before(a: RouteSpec, b: RouteSpec) -> bool {
    a.virtual_ip < b.virtual_ip || (a.virtual_ip == b.virtual_ip && (a.container_port
        < b.container_port || (a.container_port == b.container_port && a.host_port < b.host_port)))
}

/// The routes in ascending order.
pub fn sort_routes(routes: &Vec<RouteSpec>) -> (r: Vec<RouteSpec>)
    ensures
        r@.to_multiset() == routes@.to_multiset(),
        forall|i: int, j: int|
            #![trigger r@[i], r@[j]]
            0 <= i < j < r@.len() ==> !route_before(r@[j], r@[i]),
{
    let mut r: Vec<RouteSpec> = Vec::new();
    let mut i: usize = 0;
    proof {
        assert(routes@.take(0) =~= r@);
    }
    while i < routes.len()
        invariant
            i <= routes@.len(),
            r@.to_multiset() == routes@.take(i as int).to_multiset(),
            forall|a: int, b: int|
                #![trigger r@[a], r@[b]]
                0 <= a < b < r@.len() ==> !route_before(r@[b], r@[a]),
        decreases routes@.len() - i,
    {
        let x = routes[i];
        let mut pos: usize = 0;
        while pos < r.len() && !comes_before(x, r[pos])
            invariant
                pos <= r@.len(),
                forall|k: int| 0 <= k < pos ==> !route_before(x, #[trigger] r@[k]),
            decreases r@.len() - pos,
        {
            pos += 1;
        }
        let ghost before = r@;
        r.insert(pos, x);
        proof {
            vstd::seq_lib::to_multiset_insert(before, pos as int, x);
            lemma_take_next(routes@, i as int);
            vstd::seq_lib::to_multiset_build(routes@.take(i as int), x);
            assert forall|a: int, b: int|
                #![trigger r@[a], r@[b]]
                0 <= a < b < r@.len() implies !route_before(r@[b], r@[a]) by {
                let oa: int = if a < pos { a } else { a - 1 };
                let ob: int = if b < pos { b } else { b - 1 };
                if a != pos {
                    assert(r@[a] == before[oa]);
                }
                if b != pos {
                    assert(r@[b] == before[ob]);
                }
                if a == pos && ob > pos {
                    assert(!route_before(before[ob], before[pos as int]));
                }
            }
        }
        i += 1;
    }
    proof {
        assert(routes@.take(routes@.len() as int) =~= routes@);
    }
    r
}

fn comes_before(a: RouteSpec, b: RouteSpec) -> (r: bool)
    ensures
        r == route_before(a, b),
{
    a.virtual_ip < b.virtual_ip || (a.virtual_ip == b.virtual_ip && (a.container_port
        < b.container_port || (a.container_port == b.container_port && a.host_port < b.host_port)))
}

/// The markers around the hook.
pub open spec fn hook_markers() -> MarkersView {
    MarkersView { begin: HOOK_MARKER_BEGIN@, end: HOOK_MARKER_END@, trimmed: false }
}

/// A configuration without the managed block.
pub open spec fn without_hook(conf: Seq<char>) -> Seq<char> {
    file_text(outside_lines(hook_markers(), lines_of(conf)))
}

/// A configuration without the managed block.
pub fn strip_managed_block(conf: &str) -> (r: String)
    ensures
        r@ == without_hook(conf@),
{
    let ls = split_lines(conf);
    join_file(&strip_blocks(&ls, HOOK_MARKER_BEGIN, HOOK_MARKER_END, false))
}

/// Whether a line hooks an anchor into the translation rules.
pub open spec fn translation_hook(line: Seq<char>) -> bool {
    let t = trimmed_start(line);
    begins_with(t, "nat-anchor"@) || begins_with(t, "rdr-anchor"@)
}

/// Whether a line hooks an anchor into the filter rules.
pub open spec fn filter_hook(line: Seq<char>) -> bool {
    begins_with(trimmed_start(line), "anchor"@)
}

/// The position behind the last translation hook, or 0 if there is none.
pub open spec fn behind_last_hook(ls: Seq<Seq<char>>) -> int
    decreases ls.len(),
{
    if ls.len() == 0 {
        0
    } else if translation_hook(ls.last()) {
        ls.len() as int
    } else {
        behind_last_hook(ls.drop_last())
    }
}

/// The position of the first filter hook, or the end.
pub open spec fn first_filter_hook(ls: Seq<Seq<char>>) -> int
    decreases ls.len(),
{
    if ls.len() == 0 || filter_hook(ls[0]) {
        0
    } else {
        1 + first_filter_hook(ls.drop_first())
    }
}

/// Where lines are inserted: behind the last translation hook, else before the
/// first filter hook, else at the end.
pub open spec fn insert_position(ls: Seq<Seq<char>>) -> int {
    if behind_last_hook(ls) > 0 {
        behind_last_hook(ls)
    } else {
        first_filter_hook(ls)
    }
}

/// Lines with others inserted among the translation rules.
pub open spec fn with_inserted(ls: Seq<Seq<char>>, new: Seq<Seq<char>>) -> Seq<Seq<char>> {
    let at = insert_position(ls);
    ls.take(at) + new + ls.skip(at)
}

proof fn lemma_insert_position(ls: Seq<Seq<char>>)
    ensures
        0 <= behind_last_hook(ls) <= ls.len(),
        0 <= first_filter_hook(ls) <= ls.len(),
        0 <= insert_position(ls) <= ls.len(),
    decreases ls.len(),
{
    if ls.len() > 0 {
        lemma_insert_position(ls.drop_last());
        lemma_insert_position(ls.drop_first());
    }
}

fn begins_behind_space(line: &str, prefix: &str) -> (r: bool)
    ensures
        r == begins_with(trimmed_start(line@), prefix@),
{
    let l = chars_of(line);
    let p = chars_of(prefix);
    match after_prefix(trim_start(l.as_slice()), p.as_slice()) {
        Some(_) => true,
        None => false,
    }
}

fn find_insert_position(ls: &Vec<String>) -> (r: usize)
    ensures
        r == insert_position(ls.deep_view()),
        r <= ls@.len(),
{
    let ghost v = ls.deep_view();
    proof {
        lemma_insert_position(v);
    }
    let mut n: usize = ls.len();
    proof {
        assert(v.take(n as int) =~= v);
    }
    while n > 0
        invariant
            n <= ls@.len(),
            v == ls.deep_view(),
            0 <= insert_position(v) <= v.len(),
            behind_last_hook(v) == behind_last_hook(v.take(n as int)),
        decreases n,
    {
        proof {
            assert(v.take(n as int).last() == v[n - 1]);
            assert(v.take(n as int).drop_last() =~= v.take(n - 1));
        }
        if begins_behind_space(ls[n - 1].as_str(), "nat-anchor") || begins_behind_space(
            ls[n - 1].as_str(),
            "rdr-anchor",
        ) {
            return n;
        }
        n -= 1;
    }
    let mut i: usize = 0;
    proof {
        assert(v.skip(0) =~= v);
    }
    while i < ls.len()
        invariant
            i <= ls@.len(),
            v == ls.deep_view(),
            0 <= insert_position(v) <= v.len(),
            behind_last_hook(v) == 0,
            first_filter_hook(v) == i + first_filter_hook(v.skip(i as int)),
        decreases ls@.len() - i,
    {
        proof {
            assert(v.skip(i as int)[0] == v[i as int]);
            assert(v.skip(i as int).drop_first() =~= v.skip(i + 1));
        }
        if begins_behind_space(ls[i].as_str(), "anchor") {
            return i;
        }
        i += 1;
    }
    ls.len()
}

/// A configuration with lines inserted among the translation rules.
pub fn insert_after_translation_hooks(conf: &str, insert_lines: &Vec<String>) -> (r: String)
    ensures
        r@ == file_text(with_inserted(lines_of(conf@), insert_lines.deep_view())),
{
    let ls = split_lines(conf);
    let ghost v = ls.deep_view();
    let ghost w = insert_lines.deep_view();
    let at = find_insert_position(&ls);
    let mut out: Vec<String> = Vec::new();
    let mut i: usize = 0;
    proof {
        assert(out.deep_view() =~= v.take(0));
    }
    while i < at
        invariant
            i <= at <= ls@.len(),
            v == ls.deep_view(),
            out.deep_view() == v.take(i as int),
        decreases at - i,
    {
        let ghost before = out.deep_view();
        out.push(ls[i].clone());
        proof {
            lemma_take_next(v, i as int);
            assert(out.deep_view() =~= before.push(v[i as int]));
        }
        i += 1;
    }
    let mut j: usize = 0;
    proof {
        assert(out.deep_view() =~= v.take(at as int) + w.take(0));
    }
    while j < insert_lines.len()
        invariant
            j <= insert_lines@.len(),
            w == insert_lines.deep_view(),
            out.deep_view() == v.take(at as int) + w.take(j as int),
        decreases insert_lines@.len() - j,
    {
        let ghost before = out.deep_view();
        out.push(insert_lines[j].clone());
        proof {
            lemma_take_next(w, j as int);
            assert(out.deep_view() =~= before.push(w[j as int]));
            assert(out.deep_view() =~= v.take(at as int) + w.take(j + 1));
        }
        j += 1;
    }
    proof {
        assert(w.take(w.len() as int) =~= w);
        assert(out.deep_view() =~= v.take(at as int) + w + v.subrange(at as int, at as int));
    }
    let mut k: usize = at;
    while k < ls.len()
        invariant
            at <= k <= ls@.len(),
            v == ls.deep_view(),
            out.deep_view() == v.take(at as int) + w + v.subrange(at as int, k as int),
        decreases ls@.len() - k,
    {
        let ghost before = out.deep_view();
        out.push(ls[k].clone());
        proof {
            assert(out.deep_view() =~= before.push(v[k as int]));
            assert(out.deep_view() =~= v.take(at as int) + w + v.subrange(at as int, k + 1));
        }
        k += 1;
    }
    proof {
        assert(v.subrange(at as int, v.len() as int) =~= v.skip(at as int));
    }
    join_file(&out)
}

/// The managed block.
pub open spec fn hook_block() -> Seq<Seq<char>> {
    seq![HOOK_MARKER_BEGIN@, ANCHOR_HOOK_LINE@, HOOK_MARKER_END@]
}

/// A configuration with the managed block, once.
pub open spec fn with_hook(conf: Seq<char>) -> Seq<char> {
    file_text(with_inserted(lines_of(without_hook(conf)), hook_block()))
}

/// A configuration with the managed block, once.
pub fn install_anchor_hook(conf: &str) -> (r: String)
    ensures
        r@ == with_hook(conf@),
{
    let cleaned = strip_managed_block(conf);
    let mut block: Vec<String> = Vec::new();
    block.push(HOOK_MARKER_BEGIN.to_owned());
    block.push(ANCHOR_HOOK_LINE.to_owned());
    block.push(HOOK_MARKER_END.to_owned());
    proof {
        assert(block.deep_view() =~= hook_block());
    }
    insert_after_translation_hooks(cleaned.as_str(), &block)
}

/// The configuration to write so that the hook is there, if it is not.
pub fn hook_to_install(conf: &str) -> (r: Option<String>)
    ensures
        match r {
            Some(text) => text@ == with_hook(conf@) && with_hook(conf@) != conf@,
            None => with_hook(conf@) == conf@,
        },
{
    let updated = install_anchor_hook(conf);
    if same_text(updated.as_str(), conf) {
        None
    } else {
        Some(updated)
    }
}

/// The configuration to write so that the hook is gone, if it is there.
pub fn hook_to_remove(conf: &str) -> (r: Option<String>)
    ensures
        match r {
            Some(text) => text@ == without_hook(conf@) && without_hook(conf@) != conf@,
            None => without_hook(conf@) == conf@,
        },
{
    let stripped = strip_managed_block(conf);
    if same_text(stripped.as_str(), conf) {
        None
    } else {
        Some(stripped)
    }
}

proof fn lemma_block_lines()
    ensures
        plain_line(HOOK_MARKER_BEGIN@),
        plain_line(HOOK_MARKER_END@),
        plain_line(ANCHOR_HOOK_LINE@),
        HOOK_MARKER_BEGIN@ != HOOK_MARKER_END@,
        ANCHOR_HOOK_LINE@ != HOOK_MARKER_BEGIN@,
        ANCHOR_HOOK_LINE@ != HOOK_MARKER_END@,
        HOOK_MARKER_BEGIN@.len() > 0,
        HOOK_MARKER_END@.len() > 0,
{
    reveal_strlit(
        "# --- fghjd raw-net anchor hook (managed; do not edit — see raw_net::macos) ---",
    );
    reveal_strlit("# --- end fghjd raw-net anchor hook ---");
    reveal_strlit("rdr-anchor \"fghjd\"");
    assert(HOOK_MARKER_BEGIN@.len() != HOOK_MARKER_END@.len());
    assert(ANCHOR_HOOK_LINE@.len() != HOOK_MARKER_BEGIN@.len());
    assert(ANCHOR_HOOK_LINE@.len() != HOOK_MARKER_END@.len());
}

proof fn lemma_lines_of_file(ls: Seq<Seq<char>>)
    requires
        plain_lines(ls),
    ensures
        lines_of(file_text(ls)) == at_least_one_line(ls),
{
    let one = at_least_one_line(ls);
    lemma_file_text(ls);
    assert forall|i: int| 0 <= i < one.len() implies plain_line(#[trigger] one[i]) by {
        if ls.len() > 0 {
            assert(one[i] == ls[i]);
        }
    }
    lemma_lines_read_back(one, Seq::empty());
    assert(unlines(one) + Seq::<char>::empty() =~= unlines(one));
    assert(one + lines_of(Seq::empty()) =~= one);
}

/// Where the managed block stands in a configuration into which it was put: all
/// that was outside a block before stands around it.
#[verifier::spinoff_prover]
#[verifier::rlimit(40)]
proof fn lemma_installed_lines(conf: Seq<char>)
    requires
        plain_lines(outside_lines(hook_markers(), lines_of(conf))),
    ensures
        ({
            let n = at_least_one_line(outside_lines(hook_markers(), lines_of(conf)));
            let at = insert_position(n);
            &&& 0 <= at <= n.len()
            &&& no_markers(hook_markers(), n)
            &&& lines_of(with_hook(conf)) == n.take(at) + hook_block() + n.skip(at)
        }),
{
    let m = hook_markers();
    let kept = outside_lines(m, lines_of(conf));
    let n = at_least_one_line(kept);
    lemma_block_lines();
    lemma_lines_of_file(kept);
    lemma_outside_lines(m, lines_of(conf));
    lemma_insert_position(n);
    let at = insert_position(n);
    let all = n.take(at) + hook_block() + n.skip(at);
    assert(all == with_inserted(n, hook_block()));
    assert forall|i: int| 0 <= i < n.len() implies !is_marker(m, #[trigger] n[i], m.begin)
        && !is_marker(m, n[i], m.end) by {
        if kept.len() > 0 {
            assert(n[i] == kept[i]);
        }
    }
    assert forall|i: int| 0 <= i < all.len() implies plain_line(#[trigger] all[i]) by {
        if i < at {
            assert(all[i] == n[i]);
        } else if i >= at + 3 {
            assert(all[i] == n[i - 3]);
        }
        if kept.len() > 0 {
            if i < at {
                assert(n[i] == kept[i]);
            } else if i >= at + 3 {
                assert(n[i - 3] == kept[i - 3]);
            }
        }
    }
    lemma_lines_of_file(all);
}

/// Taking the hook out of a configuration into which it was put gives what
/// taking it out before would have given. Lines that end in a carriage return of
/// their own are left out: reading them drops it.
pub proof fn law_stripping_undoes_installing(conf: Seq<char>)
    requires
        plain_lines(outside_lines(hook_markers(), lines_of(conf))),
    ensures
        without_hook(with_hook(conf)) == without_hook(conf),
{
    let m = hook_markers();
    let kept = outside_lines(m, lines_of(conf));
    let n = at_least_one_line(kept);
    lemma_block_lines();
    lemma_installed_lines(conf);
    let at = insert_position(n);
    let a = n.take(at);
    let b = n.skip(at);
    let all = a + hook_block() + b;
    assert forall|i: int| 0 <= i < a.len() implies !is_marker(m, #[trigger] a[i], m.begin)
        && !is_marker(m, a[i], m.end) by {
        assert(a[i] == n[i]);
    }
    assert forall|i: int| 0 <= i < b.len() implies !is_marker(m, #[trigger] b[i], m.begin)
        && !is_marker(m, b[i], m.end) by {
        assert(b[i] == n[at + i]);
    }
    lemma_outside_append(m, Seq::empty(), a);
    assert(Seq::<Seq<char>>::empty() + a =~= a);
    let body = seq![ANCHOR_HOOK_LINE@];
    lemma_block_is_inside(m, a, body);
    assert(seq![m.begin] + body + seq![m.end] =~= hook_block());
    lemma_outside_append(m, a + hook_block(), b);
    assert(outside_lines(m, all) =~= n);
    lemma_file_text(kept);
    lemma_file_text(n);
}

/// Whether a line stands among others at one place and at no other.
pub open spec fn stands_only_at(ls: Seq<Seq<char>>, line: Seq<char>, i: int) -> bool {
    &&& 0 <= i < ls.len()
    &&& forall|j: int| 0 <= j < ls.len() ==> ((#[trigger] ls[j] == line) <==> i == j)
}

/// A configuration into which the hook was put holds it once: exactly one line is
/// the marker that begins it, whatever blocks were there before.
pub proof fn law_hook_is_installed_once(conf: Seq<char>)
    requires
        plain_lines(outside_lines(hook_markers(), lines_of(conf))),
    ensures
        exists|i: int|
            #[trigger] stands_only_at(lines_of(with_hook(conf)), HOOK_MARKER_BEGIN@, i),
{
    let m = hook_markers();
    let n = at_least_one_line(outside_lines(m, lines_of(conf)));
    let at = insert_position(n);
    lemma_block_lines();
    lemma_installed_lines(conf);
    let all = lines_of(with_hook(conf));
    assert forall|j: int| 0 <= j < all.len() implies ((#[trigger] all[j] == HOOK_MARKER_BEGIN@)
        <==> at == j) by {
        if j < at {
            assert(all[j] == n[j]);
        } else if j >= at + 3 {
            assert(all[j] == n[j - 3]);
        }
    }
    assert(stands_only_at(all, HOOK_MARKER_BEGIN@, at));
}

/// Installing the hook again changes nothing.
pub proof fn law_installing_is_idempotent(conf: Seq<char>)
    requires
        plain_lines(outside_lines(hook_markers(), lines_of(conf))),
    ensures
        with_hook(with_hook(conf)) == with_hook(conf),
{
    law_stripping_undoes_installing(conf);
}

/// A configuration that never held the hook is given back by installing and
/// stripping it.
pub proof fn law_pristine_configuration_is_restored(ls: Seq<Seq<char>>)
    requires
        ls.len() > 0,
        plain_lines(ls),
        no_markers(hook_markers(), ls),
    ensures
        without_hook(with_hook(file_text(ls))) == file_text(ls),
{
    let m = hook_markers();
    lemma_lines_of_file(ls);
    lemma_outside_append(m, Seq::empty(), ls);
    assert(Seq::<Seq<char>>::empty() + ls =~= ls);
    assert(outside_lines(m, Seq::empty()) + ls =~= ls);
    law_stripping_undoes_installing(file_text(ls));
}

/// What brings interface aliases and rules up to date.
pub struct PfChanges {
    /// The routes, in ascending order.
    pub routes: Vec<RouteSpec>,
    /// The addresses to add to the interface.
    pub add: Vec<u32>,
    /// The addresses to remove from it.
    pub remove: Vec<u32>,
    /// Whether the packet filter has to be on.
    pub needs_pf: bool,
}

/// The addresses of routes.
pub open spec fn route_addresses(routes: Seq<RouteSpec>) -> Set<u32> {
    routes.map_values(|r: RouteSpec| r.virtual_ip).to_set()
}

/// The pool addresses that an interface listing shows.
pub open spec fn listed_addresses(listing: Seq<char>) -> Set<u32> {
    lines_of(listing).filter_map(|l: Seq<char>| alias_of_line(l)).to_set()
}

/// The packet filter as this process left it.
pub struct MacosPfBackend {
    applied: Vec<RouteSpec>,
    enabled_pf: bool,
}

/// The packet filter as this process left it: the routes in force, and whether
/// this process turned it on.
pub struct MacosPfBackendView {
    pub applied: Seq<RouteSpec>,
    pub enabled_pf: bool,
}

impl View for MacosPfBackend {
    type V = MacosPfBackendView;

    closed spec fn view(&self) -> MacosPfBackendView {
        MacosPfBackendView { applied: self.applied@, enabled_pf: self.enabled_pf }
    }
}

/// Whether the packet filter's own report says that it is on.
pub fn pf_status_enabled(report: &str) -> (r: bool)
    ensures
        r == (after_part(report@, "Enabled"@) is Some),
{
    let cs = chars_of(report);
    let word = chars_of("Enabled");
    find_after(cs.as_slice(), word.as_slice()).is_some()
}

impl MacosPfBackend {
    /// A packet filter that this process has not touched.
    pub fn new() -> (r: Self)
        ensures
            r@ == (MacosPfBackendView { applied: Seq::empty(), enabled_pf: false }),
    {
        MacosPfBackend { applied: Vec::new(), enabled_pf: false }
    }

    /// The routes in force.
    pub fn status(&self) -> (r: Vec<RouteSpec>)
        ensures
            r@ == self@.applied,
    {
        let r = self.applied.clone();
        proof {
            assert(r@ =~= self.applied@);
        }
        r
    }

    /// What has to change for given routes, given a listing of the interface.
    pub fn plan(&self, routes: &Vec<RouteSpec>, listing: &str) -> (r: PfChanges)
        ensures
            r.routes@.to_multiset() == routes@.to_multiset(),
            forall|i: int, j: int|
                #![trigger r.routes@[i], r.routes@[j]]
                0 <= i < j < r.routes@.len() ==> !route_before(r.routes@[j], r.routes@[i]),
            increasing(r.add@),
            r.add@.to_set() == route_addresses(r.routes@).difference(listed_addresses(listing@)),
            increasing(r.remove@),
            r.remove@.to_set() == listed_addresses(listing@).difference(
                route_addresses(r.routes@),
            ),
            r.needs_pf == (routes@.len() > 0),
    {
        let sorted = sort_routes(routes);
        let mut wanted: Vec<u32> = Vec::new();
        let ghost f = |r: RouteSpec| r.virtual_ip;
        let mut i: usize = 0;
        proof {
            assert(wanted@ =~= sorted@.take(0).map_values(f));
        }
        while i < sorted.len()
            invariant
                i <= sorted@.len(),
                f == (|r: RouteSpec| r.virtual_ip),
                wanted@ == sorted@.take(i as int).map_values(f),
            decreases sorted@.len() - i,
        {
            wanted.push(sorted[i].virtual_ip);
            proof {
                lemma_take_next(sorted@, i as int);
                assert(sorted@.take(i + 1).map_values(f) =~= sorted@.take(i as int).map_values(
                    f,
                ).push(f(sorted@[i as int])));
            }
            i += 1;
        }
        proof {
            assert(sorted@.take(sorted@.len() as int) =~= sorted@);
        }
        let current = parse_pool_aliases(listing);
        let (add, remove) = diff_ips(&current, &wanted);
        PfChanges { routes: sorted, add, remove, needs_pf: routes.len() > 0 }
    }

    /// Records what became of turning the packet filter on. That someone else had
    /// it on already is no failure.
    pub fn record_enable(&mut self, succeeded: bool, stderr: &str) -> (r: Result<(), String>)
        ensures
            final(self)@ == (MacosPfBackendView {
                enabled_pf: old(self)@.enabled_pf || succeeded,
                ..old(self)@
            }),
            if succeeded || after_part(stderr@, "already enabled"@) is Some {
                r is Ok
            } else {
                r matches Err(e) && e@ == "pfctl -e failed: "@ + trimmed(stderr@)
            },
    {
        if succeeded {
            self.enabled_pf = true;
            return Ok(());
        }
        let cs = chars_of(stderr);
        let words = chars_of("already enabled");
        if find_after(cs.as_slice(), words.as_slice()).is_some() {
            Ok(())
        } else {
            let mut e = "pfctl -e failed: ".to_owned();
            e.append(string_of(trim_end(trim_start(cs.as_slice()))).as_str());
            Err(e)
        }
    }

    /// Records that routes are in force.
    pub fn record_applied(&mut self, routes: Vec<RouteSpec>)
        ensures
            final(self)@ == (MacosPfBackendView { applied: routes@, ..old(self)@ }),
    {
        self.applied = routes;
    }

    /// Forgets the routes. Returns whether the packet filter is to be turned off:
    /// only if this process turned it on.
    pub fn clear(&mut self) -> (r: bool)
        ensures
            r == old(self)@.enabled_pf,
            final(self)@ == (MacosPfBackendView { applied: Seq::empty(), enabled_pf: false }),
    {
        let was = self.enabled_pf;
        self.enabled_pf = false;
        self.applied = Vec::new();
        was
    }
}

proof fn lemma_octet(n: u8)
    ensures
        octet_text(dec(n as nat)),
        digits_value(dec(n as nat)) == n,
        !dec(n as nat).contains('.'),
        forall|i: int| 0 <= i < dec(n as nat).len() ==> !white_space(#[trigger] dec(n as nat)[i]),
{
    lemma_dec_reads_back(n as nat);
    lemma_octets_are_short(n as nat);
    let text = dec(n as nat);
    assert forall|i: int| 0 <= i < text.len() implies #[trigger] text[i] != '.' && !white_space(
        text[i],
    ) by {
        assert(is_digit(text[i]));
    }
}

/// An address is read from its four parts with dots between them, written as
/// numbers are, and from nothing else.
pub proof fn law_address_text_reads_back(s: Seq<char>, ip: u32)
    ensures
        parsed_ipv4(s) == Some(ip) <==> s == dotted(ip),
{
    reveal_strlit(".");
    assert("."@ =~= seq!['.']);
    let a = (ip / 0x100_0000) as u8;
    let b = (ip / 0x1_0000 % 0x100) as u8;
    let c = (ip / 0x100 % 0x100) as u8;
    let d = (ip % 0x100) as u8;
    lemma_octet(a);
    lemma_octet(b);
    lemma_octet(c);
    lemma_octet(d);
    let ta = dec(a as nat);
    let tb = dec(b as nat);
    let tc = dec(c as nat);
    let td = dec(d as nat);
    let parts = seq![ta, tb, tc, td];
    reveal_with_fuel(joined, 4);
    assert(parts.drop_last() =~= seq![ta, tb, tc]);
    assert(seq![ta, tb, tc].drop_last() =~= seq![ta, tb]);
    assert(seq![ta, tb].drop_last() =~= seq![ta]);
    assert(joined(parts, seq!['.']) =~= dotted(ip));
    law_joined_texts_come_apart(parts, '.');
    assert(address(a, b, c, d) == ip);
    assert(parsed_ipv4(dotted(ip)) == Some(ip));
    if parsed_ipv4(s) == Some(ip) {
        let ps = split_on(s, '.');
        law_parts_make_up_the_text(s, '.');
        lemma_digits_are_written_back(ps[0]);
        lemma_digits_are_written_back(ps[1]);
        lemma_digits_are_written_back(ps[2]);
        lemma_digits_are_written_back(ps[3]);
        law_address_is_made_of_its_parts(
            digits_value(ps[0]) as u8,
            digits_value(ps[1]) as u8,
            digits_value(ps[2]) as u8,
            digits_value(ps[3]) as u8,
        );
        assert(ps =~= parts);
    }
}

/// The pool holds the addresses that begin with 10.222.
pub proof fn law_pool_begins_with_its_two_parts(a: u8, b: u8, c: u8, d: u8)
    ensures
        pool_address(address(a, b, c, d)) <==> a == 10 && b == 222,
{
}

proof fn lemma_first_word(word: Seq<char>, rest: Seq<char>)
    requires
        forall|i: int| 0 <= i < word.len() ==> !white_space(#[trigger] word[i]),
    ensures
        up_to_white_space(word + seq![' '] + rest) == word,
    decreases word.len(),
{
    let all = word + seq![' '] + rest;
    if word.len() == 0 {
        assert(all[0] == ' ');
        assert(word =~= Seq::empty());
    } else {
        lemma_first_word(word.drop_first(), rest);
        assert(all[0] == word[0]);
        assert(all.drop_first() =~= word.drop_first() + seq![' '] + rest);
        assert(seq![word[0]] + word.drop_first() =~= word);
    }
}

/// Of the lines that describe an interface, those that give an address of the pool
/// are its aliases: the address stands behind `inet`, whatever follows it.
pub proof fn law_aliases_are_addresses_of_the_pool(
    front: Seq<char>,
    ip: u32,
    rest: Seq<char>,
    line: Seq<char>,
)
    requires
        forall|i: int| 0 <= i < front.len() ==> white_space(#[trigger] front[i]),
        rest.len() > 0,
        !white_space(rest.last()),
    ensures
        alias_of_line(front + ("inet "@ + dotted(ip) + " "@ + rest)) == (if ip / 0x1_0000
            == 0x0ade {
            Some(ip)
        } else {
            None
        }),
        !begins_with(trimmed(line), "inet "@) ==> alias_of_line(line) is None,
        alias_of_line(line) matches Some(found) ==> found / 0x1_0000 == 0x0ade,
{
    reveal_strlit("inet ");
    reveal_strlit(" ");
    reveal_strlit(".");
    let core = "inet "@ + dotted(ip) + " "@ + rest;
    let none = Seq::<char>::empty();
    law_trimming_takes_off_white_space_only(front, core, none);
    assert(front + core + none =~= front + core);
    assert(core.take(5) =~= "inet "@);
    let text = dotted(ip);
    let tail = core.skip(5);
    assert(tail =~= text + seq![' '] + rest);
    lemma_octet((ip / 0x100_0000) as u8);
    lemma_octet((ip / 0x1_0000 % 0x100) as u8);
    lemma_octet((ip / 0x100 % 0x100) as u8);
    lemma_octet((ip % 0x100) as u8);
    assert forall|i: int| 0 <= i < text.len() implies !white_space(#[trigger] text[i]) by {
        let ta = dec((ip / 0x100_0000) as nat);
        let tb = dec((ip / 0x1_0000 % 0x100) as nat);
        let tc = dec((ip / 0x100 % 0x100) as nat);
        let td = dec((ip % 0x100) as nat);
        let x = ta.len() as int;
        let y = x + 1 + tb.len();
        let z = y + 1 + tc.len();
        if i < x {
            assert(text[i] == ta[i]);
        } else if i == x || i == y || i == z {
            assert(text[i] == '.');
        } else if i < y {
            assert(text[i] == tb[i - x - 1]);
        } else if i < z {
            assert(text[i] == tc[i - y - 1]);
        } else {
            assert(text[i] == td[i - z - 1]);
        }
    }
    lemma_dec_reads_back((ip / 0x100_0000) as nat);
    assert(tail[0] == text[0]);
    assert(trimmed_start(tail) == tail);
    lemma_first_word(text, rest);
    law_address_text_reads_back(text, ip);
}

/// A rule leads what is sent to a virtual address and a port to a port of the local
/// host.
pub proof fn law_rule_leads_to_the_local_host(r: RouteSpec)
    ensures
        rule_text(r) == "rdr pass on lo0 inet proto tcp from any to "@ + dotted(r.virtual_ip)
            + " port "@ + dec(r.container_port as nat) + " -> 127.0.0.1 port "@ + dec(
            r.host_port as nat,
        ),
{
}

/// Routes are ordered by their address, then by their port, then by the port that
/// they lead to.
pub proof fn law_routes_are_ordered_by_address_and_port(a: RouteSpec, b: RouteSpec)
    ensures
        a.virtual_ip < b.virtual_ip ==> route_before(a, b),
        a.virtual_ip == b.virtual_ip && a.container_port < b.container_port ==> route_before(a, b),
        a.virtual_ip == b.virtual_ip && a.container_port == b.container_port && a.host_port
            < b.host_port ==> route_before(a, b),
        a == b || route_before(a, b) || route_before(b, a),
        !(route_before(a, b) && route_before(b, a)),
{
}

proof fn lemma_behind_last_hook(ls: Seq<Seq<char>>)
    ensures
        forall|i: int|
            behind_last_hook(ls) <= i < ls.len() ==> !translation_hook(#[trigger] ls[i]),
        behind_last_hook(ls) > 0 ==> translation_hook(ls[behind_last_hook(ls) - 1]),
    decreases ls.len(),
{
    lemma_insert_position(ls);
    if ls.len() > 0 && !translation_hook(ls.last()) {
        let front = ls.drop_last();
        lemma_behind_last_hook(front);
        lemma_insert_position(front);
        assert forall|i: int| behind_last_hook(ls) <= i < ls.len() implies !translation_hook(
            #[trigger] ls[i],
        ) by {
            if i < front.len() {
                assert(front[i] == ls[i]);
            }
        }
        if behind_last_hook(front) > 0 {
            assert(front[behind_last_hook(front) - 1] == ls[behind_last_hook(front) - 1]);
        }
    }
}

proof fn lemma_first_filter_hook(ls: Seq<Seq<char>>)
    ensures
        forall|i: int| 0 <= i < first_filter_hook(ls) ==> !filter_hook(#[trigger] ls[i]),
        first_filter_hook(ls) < ls.len() ==> filter_hook(ls[first_filter_hook(ls)]),
    decreases ls.len(),
{
    if ls.len() > 0 && !filter_hook(ls[0]) {
        let rest = ls.drop_first();
        lemma_first_filter_hook(rest);
        lemma_insert_position(rest);
        assert forall|i: int| 0 <= i < first_filter_hook(ls) implies !filter_hook(
            #[trigger] ls[i],
        ) by {
            if i > 0 {
                assert(rest[i - 1] == ls[i]);
            }
        }
    }
}

/// Lines are inserted behind the last line that hooks a translation anchor in;
/// without one, before the first line that hooks a filter anchor in, and without
/// that at the end. The lines that were there stay as they are and in order.
pub proof fn law_hook_stands_behind_the_translation_hooks(
    ls: Seq<Seq<char>>,
    new: Seq<Seq<char>>,
)
    ensures
        exists|before: Seq<Seq<char>>, after: Seq<Seq<char>>|
            {
                &&& #[trigger] (before + after) == ls
                &&& with_inserted(ls, new) == before + new + after
                &&& forall|i: int| 0 <= i < after.len() ==> !translation_hook(#[trigger] after[i])
                &&& (exists|i: int| 0 <= i < ls.len() && translation_hook(#[trigger] ls[i]))
                    ==> before.len() > 0 && translation_hook(before.last())
                &&& (forall|i: int| 0 <= i < ls.len() ==> !translation_hook(#[trigger] ls[i])) ==> {
                    &&& forall|i: int| 0 <= i < before.len() ==> !filter_hook(#[trigger] before[i])
                    &&& after.len() > 0 ==> filter_hook(after[0])
                }
            },
{
    let at = insert_position(ls);
    lemma_insert_position(ls);
    lemma_behind_last_hook(ls);
    lemma_first_filter_hook(ls);
    let before = ls.take(at);
    let after = ls.skip(at);
    assert(before + after =~= ls);
    assert forall|i: int| 0 <= i < after.len() implies !translation_hook(#[trigger] after[i]) by {
        assert(after[i] == ls[at + i]);
    }
    if exists|i: int| 0 <= i < ls.len() && translation_hook(#[trigger] ls[i]) {
        let i = choose|i: int| 0 <= i < ls.len() && translation_hook(#[trigger] ls[i]);
        assert(behind_last_hook(ls) > 0);
        assert(before.last() == ls[at - 1]);
    }
    if forall|i: int| 0 <= i < ls.len() ==> !translation_hook(#[trigger] ls[i]) {
        assert(behind_last_hook(ls) == 0);
        assert forall|i: int| 0 <= i < before.len() implies !filter_hook(#[trigger] before[i]) by {
            assert(before[i] == ls[i]);
        }
        if after.len() > 0 {
            assert(after[0] == ls[at]);
        }
    }
}

/// A line hooks an anchor in by the word that it begins with, behind any white
/// space.
pub proof fn law_hooks_are_known_by_their_first_word(front: Seq<char>, rest: Seq<char>)
    requires
        forall|i: int| 0 <= i < front.len() ==> white_space(#[trigger] front[i]),
    ensures
        translation_hook(front + ("nat-anchor"@ + rest)),
        translation_hook(front + ("rdr-anchor"@ + rest)),
        !translation_hook(front + ("anchor"@ + rest)),
        filter_hook(front + ("anchor"@ + rest)),
        !filter_hook(front + ("rdr-anchor"@ + rest)),
{
    reveal_strlit("nat-anchor");
    reveal_strlit("rdr-anchor");
    reveal_strlit("anchor");
    let nat_line = "nat-anchor"@ + rest;
    let rdr_line = "rdr-anchor"@ + rest;
    let line = "anchor"@ + rest;
    lemma_start_is_trimmed(front, nat_line);
    lemma_start_is_trimmed(front, rdr_line);
    lemma_start_is_trimmed(front, line);
    assert(nat_line.take(10) =~= "nat-anchor"@);
    assert(rdr_line.take(10) =~= "rdr-anchor"@);
    assert(line.take(6) =~= "anchor"@);
    assert(line.len() >= 10 ==> line.take(10)[0] == 'a');
    assert("nat-anchor"@[0] == 'n' && "rdr-anchor"@[0] == 'r' && "anchor"@[0] == 'a');
    assert(rdr_line.take(6)[0] == 'r');
}

proof fn lemma_start_is_trimmed(front: Seq<char>, rest: Seq<char>)
    requires
        forall|i: int| 0 <= i < front.len() ==> white_space(#[trigger] front[i]),
        rest.len() > 0,
        !white_space(rest[0]),
    ensures
        trimmed_start(front + rest) == rest,
    decreases front.len(),
{
    let all = front + rest;
    if front.len() == 0 {
        assert(all =~= rest);
    } else {
        lemma_start_is_trimmed(front.drop_first(), rest);
        assert(all[0] == front[0]);
        assert(all.drop_first() =~= front.drop_first() + rest);
    }
}

/// The hook is one line that calls the daemon's anchor, between its two markers.
pub proof fn law_hook_calls_the_daemons_anchor()
    ensures
        hook_block().len() == 3,
        hook_block()[0] == HOOK_MARKER_BEGIN@,
        hook_block()[1] == "rdr-anchor \"fghjd\""@,
        hook_block()[2] == HOOK_MARKER_END@,
{
}

/// The configuration that the hook is installed in keeps its own lines in order, with
/// the hook behind the last line that hooks a translation anchor in; without one, before
/// the first line that hooks a filter anchor in, and without that at the end.
pub proof fn law_installed_hook_stands_in_its_place(conf: Seq<char>)
    requires
        plain_lines(outside_lines(hook_markers(), lines_of(conf))),
    ensures
        exists|before: Seq<Seq<char>>, after: Seq<Seq<char>>|
            {
                let own = before + after;
                &&& #[trigger] (before + after) == at_least_one_line(
                    outside_lines(hook_markers(), lines_of(conf)),
                )
                &&& lines_of(with_hook(conf)) == before + hook_block() + after
                &&& forall|i: int| 0 <= i < after.len() ==> !translation_hook(#[trigger] after[i])
                &&& (exists|i: int| 0 <= i < own.len() && translation_hook(#[trigger] own[i]))
                    ==> before.len() > 0 && translation_hook(before.last())
                &&& (forall|i: int| 0 <= i < own.len() ==> !translation_hook(#[trigger] own[i])) ==> {
                    &&& forall|i: int| 0 <= i < before.len() ==> !filter_hook(#[trigger] before[i])
                    &&& after.len() > 0 ==> filter_hook(after[0])
                }
            },
{
    let n = at_least_one_line(outside_lines(hook_markers(), lines_of(conf)));
    lemma_installed_lines(conf);
    law_hook_stands_behind_the_translation_hooks(n, hook_block());
}

} // verus!
