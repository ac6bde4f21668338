//! What holds of every table of addresses.

use vstd::arithmetic::div_mod::lemma_fundamental_div_mod_converse;
use vstd::prelude::*;
use vstd::utf8::encode_utf8;

use crate::number::{dec, parsed_u16};
use crate::raw_net::{
    address, address_of, assigned, assignment_order, digest_address, dotted, endpoint_routes,
    first_free, free_at, in_span, inserted_by_name, next_address, picked, port_numbers, probed,
    route_for_port, sha256_digest, sorted_by_name, table_of, virtual_ip, AssignmentView,
    RawEndpointView, RouteSpec, POOL_BASE, POOL_SPAN,
};
use crate::seqs::{lemma_filter_holds, lemma_filter_map_holds, lemma_flat_map_holds};
use crate::strmap::{
    ascending, lemma_ascending_of_set, lemma_ascending_unique, strictly_ascending,
};
use crate::text::{lemma_text_lt_total, lemma_text_lt_transitive, text_lt};

verus! {

/// Every name hashes to an address of the pool.
pub proof fn law_every_name_has_a_pool_address(name: Seq<char>)
    ensures
        in_span(virtual_ip(name)),
{
}

/// A name keeps its address as long as none of its ports is claimed there.
pub proof fn law_uncontested_name_stays(
    previous: Map<Seq<char>, u32>,
    a: AssignmentView,
    e: RawEndpointView,
)
    requires
        previous.dom().contains(e.raw_domain),
        free_at(previous[e.raw_domain], port_numbers(e.ports), a.claimed),
    ensures
        next_address(previous, a, e) == previous[e.raw_domain],
{
}

/// A name that is no longer active has no address in the table.
pub proof fn law_table_holds_active_names_only(
    previous: Map<Seq<char>, u32>,
    order: Seq<RawEndpointView>,
    name: Seq<char>,
)
    ensures
        assigned(previous, order).next.dom().contains(name) <==> exists|i: int|
            0 <= i < order.len() && (#[trigger] order[i]).raw_domain == name,
    decreases order.len(),
{
    if order.len() > 0 {
        let rest = order.drop_last();
        law_table_holds_active_names_only(previous, rest, name);
        if assigned(previous, order).next.dom().contains(name) {
            if order.last().raw_domain == name {
                assert(order[order.len() - 1].raw_domain == name);
            } else {
                let i = choose|i: int| 0 <= i < rest.len() && (#[trigger] rest[i]).raw_domain == name;
                assert(order[i].raw_domain == name);
            }
        }
        if exists|i: int| 0 <= i < order.len() && (#[trigger] order[i]).raw_domain == name {
            let i = choose|i: int| 0 <= i < order.len() && (#[trigger] order[i]).raw_domain == name;
            if i < rest.len() {
                assert(rest[i].raw_domain == name);
            }
        }
    }
}

proof fn lemma_insert_rearranges(s: Seq<RawEndpointView>, e: RawEndpointView)
    ensures
        inserted_by_name(s, e).to_multiset() =~= s.push(e).to_multiset(),
    decreases s.len(),
{
    broadcast use vstd::seq_lib::to_multiset_build;

    let r = inserted_by_name(s, e);
    if s.len() > 0 && text_lt(e.raw_domain, s.last().raw_domain) {
        lemma_insert_rearranges(s.drop_last(), e);
        assert(r.drop_last() =~= inserted_by_name(s.drop_last(), e));
        assert(s =~= s.drop_last().push(s.last()));
        vstd::seq_lib::to_multiset_build(s.drop_last(), s.last());
        vstd::seq_lib::to_multiset_build(s.drop_last(), e);
        vstd::seq_lib::to_multiset_build(inserted_by_name(s.drop_last(), e), s.last());
        vstd::seq_lib::to_multiset_build(s, e);
    }
}

proof fn lemma_sort_rearranges(s: Seq<RawEndpointView>)
    ensures
        sorted_by_name(s).to_multiset() =~= s.to_multiset(),
    decreases s.len(),
{
    if s.len() > 0 {
        lemma_sort_rearranges(s.drop_last());
        lemma_insert_rearranges(sorted_by_name(s.drop_last()), s.last());
        assert(s =~= s.drop_last().push(s.last()));
        vstd::seq_lib::to_multiset_build(s.drop_last(), s.last());
        vstd::seq_lib::to_multiset_build(sorted_by_name(s.drop_last()), s.last());
    }
}

proof fn lemma_filters_part(s: Seq<RawEndpointView>, p: spec_fn(RawEndpointView) -> bool)
    ensures
        s.filter(p).to_multiset().add(s.filter(|e: RawEndpointView| !p(e)).to_multiset())
            =~= s.to_multiset(),
    decreases s.len(),
{
    let q = |e: RawEndpointView| !p(e);
    if s.len() == 0 {
        reveal_with_fuel(Seq::filter, 1);
        assert(s.filter(p) =~= s);
        assert(s.filter(q) =~= s);
        s.to_multiset_ensures();
        assert(s.to_multiset().len() == 0);
    } else {
        let rest = s.drop_last();
        let last = s.last();
        lemma_filters_part(rest, p);
        assert(s =~= rest.push(last));
        rest.lemma_filter_push(last, p);
        rest.lemma_filter_push(last, q);
        vstd::seq_lib::to_multiset_build(rest, last);
        if p(last) {
            vstd::seq_lib::to_multiset_build(rest.filter(p), last);
        } else {
            vstd::seq_lib::to_multiset_build(rest.filter(q), last);
        }
    }
}

/// Ordering the endpoints neither adds nor loses one.
proof fn lemma_order_is_a_rearrangement(
    endpoints: Seq<RawEndpointView>,
    previous: Map<Seq<char>, u32>,
)
    ensures
        assignment_order(endpoints, previous).to_multiset() =~= endpoints.to_multiset(),
{
    let p = |e: RawEndpointView| previous.dom().contains(e.raw_domain);
    let q = |e: RawEndpointView| !previous.dom().contains(e.raw_domain);
    let not_p = |e: RawEndpointView| !p(e);
    assert(q =~= not_p);
    let a = endpoints.filter(p);
    let b = endpoints.filter(q);
    lemma_filters_part(endpoints, p);
    lemma_sort_rearranges(a);
    lemma_sort_rearranges(b);
    vstd::seq_lib::lemma_multiset_commutative(sorted_by_name(a), sorted_by_name(b));
}

/// The address that the `i`-th endpoint gets.
spec fn given(previous: Map<Seq<char>, u32>, order: Seq<RawEndpointView>, i: int) -> u32 {
    next_address(previous, assigned(previous, order.take(i)), order[i])
}

/// What is claimed is claimed at an address that was given out, for the ports of
/// the endpoint that got it.
proof fn lemma_claims_are_given(
    previous: Map<Seq<char>, u32>,
    order: Seq<RawEndpointView>,
    c: (u32, u16),
)
    requires
        assigned(previous, order).claimed.contains(c),
    ensures
        exists|i: int|
            0 <= i < order.len() && #[trigger] given(previous, order, i) == c.0 && port_numbers(
                order[i].ports,
            ).contains(c.1),
    decreases order.len(),
{
    if order.len() > 0 {
        let front = order.drop_last();
        let k = front.len() as int;
        assert(order.take(k) =~= front);
        if assigned(previous, front).claimed.contains(c) {
            lemma_claims_are_given(previous, front, c);
            let i = choose|i: int|
                0 <= i < front.len() && #[trigger] given(previous, front, i) == c.0
                    && port_numbers(front[i].ports).contains(c.1);
            assert(front.take(i) =~= order.take(i));
            assert(given(previous, order, i) == c.0);
        } else {
            assert(given(previous, order, k) == c.0);
        }
    }
}

proof fn lemma_free_or_blocked(
    naive: u32,
    ports: Seq<u16>,
    claimed: Set<(u32, u16)>,
    step: nat,
)
    ensures
        match first_free(naive, ports, claimed, step) {
            Some(ip) => free_at(ip, ports, claimed),
            None => forall|s: nat|
                step <= s < POOL_SPAN ==> !free_at(#[trigger] probed(naive, s), ports, claimed),
        },
    decreases POOL_SPAN - step,
{
    if step < POOL_SPAN && !free_at(probed(naive, step), ports, claimed) {
        lemma_free_or_blocked(naive, ports, claimed, step + 1);
    }
}

proof fn lemma_probes_differ(naive: u32, s: nat, t: nat)
    requires
        in_span(naive),
        s < t < POOL_SPAN,
    ensures
        probed(naive, s) != probed(naive, t),
{
    let a = naive - POOL_BASE - 1;
    let m = POOL_SPAN as int;
    if (a + s) % m == (a + t) % m {
        vstd::arithmetic::div_mod::lemma_fundamental_div_mod(a + s, m);
        vstd::arithmetic::div_mod::lemma_fundamental_div_mod(a + t, m);
        let q1 = (a + s) / m;
        let q2 = (a + t) / m;
        assert(t - s == m * q2 - m * q1);
        assert(m * q2 - m * q1 == m * (q2 - q1)) by (nonlinear_arith);
        assert(0 < m * (q2 - q1) < m);
        assert(false) by (nonlinear_arith)
            requires
                0 < m * (q2 - q1) < m,
                m > 0,
        ;
    }
}

/// Fewer addresses than the pool has cannot block all of it.
proof fn lemma_some_address_is_free(
    naive: u32,
    ports: Seq<u16>,
    claimed: Set<(u32, u16)>,
    used: Seq<u32>,
)
    requires
        in_span(naive),
        used.len() < POOL_SPAN,
        forall|c: (u32, u16)| #[trigger] claimed.contains(c) ==> used.contains(c.0),
    ensures
        first_free(naive, ports, claimed, 0) is Some,
{
    lemma_free_or_blocked(naive, ports, claimed, 0);
    if first_free(naive, ports, claimed, 0) is None {
        let tried = Seq::new(POOL_SPAN as nat, |s: int| probed(naive, s as nat));
        assert forall|s: int| 0 <= s < tried.len() implies used.contains(#[trigger] tried[s]) by {
            assert(!free_at(probed(naive, s as nat), ports, claimed));
            let i = choose|i: int|
                0 <= i < ports.len() && claimed.contains(
                    (probed(naive, s as nat), #[trigger] ports[i]),
                );
            assert(claimed.contains((tried[s], ports[i])));
        }
        assert forall|s: int, t: int|
            0 <= s < tried.len() && 0 <= t < tried.len() && s != t implies tried[s] != tried[t] by {
            if s < t {
                lemma_probes_differ(naive, s as nat, t as nat);
            } else {
                lemma_probes_differ(naive, t as nat, s as nat);
            }
        }
        tried.unique_seq_to_set();
        used.lemma_cardinality_of_set();
        assert forall|ip: u32| tried.to_set().contains(ip) implies used.to_set().contains(ip) by {
            let s = choose|s: int| 0 <= s < tried.len() && tried[s] == ip;
            assert(used.contains(tried[s]));
        }
        vstd::seq_lib::seq_to_set_is_finite(used);
        vstd::set_lib::lemma_len_subset(tried.to_set(), used.to_set());
    }
}

/// Whether no two endpoints have the same name.
pub open spec fn names_differ(s: Seq<RawEndpointView>) -> bool {
    forall|i: int, j: int|
        #![trigger s[i], s[j]]
        0 <= i < j < s.len() ==> s[i].raw_domain != s[j].raw_domain
}

/// Endpoints in another order have different names if they had them before.
proof fn lemma_rearranged(a: Seq<RawEndpointView>, b: Seq<RawEndpointView>)
    requires
        names_differ(a),
        a.to_multiset() == b.to_multiset(),
    ensures
        names_differ(b),
        a.len() == b.len(),
        forall|e: RawEndpointView| #[trigger] a.contains(e) <==> b.contains(e),
{
    assert(a.no_duplicates());
    a.lemma_multiset_has_no_duplicates();
    b.lemma_multiset_has_no_duplicates_conv();
    a.to_multiset_ensures();
    b.to_multiset_ensures();
    assert forall|e: RawEndpointView| #[trigger] a.contains(e) <==> b.contains(e) by {
        assert(a.contains(e) <==> a.to_multiset().count(e) > 0);
        assert(b.contains(e) <==> b.to_multiset().count(e) > 0);
    }
    assert forall|i: int, j: int|
        #![trigger b[i], b[j]]
        0 <= i < j < b.len() implies b[i].raw_domain != b[j].raw_domain by {
        assert(b.contains(b[i]));
        assert(b.contains(b[j]));
        assert(a.contains(b[i]));
        assert(a.contains(b[j]));
        let x = choose|x: int| 0 <= x < a.len() && a[x] == b[i];
        let y = choose|y: int| 0 <= y < a.len() && a[y] == b[j];
        assert(b[i] != b[j]);
        assert(x != y);
        if x < y {
            assert(a[x].raw_domain != a[y].raw_domain);
        } else {
            assert(a[y].raw_domain != a[x].raw_domain);
        }
    }
}

/// What the `i`-th endpoint gets stays in the table and stays claimed.
proof fn lemma_given_stays_given(
    previous: Map<Seq<char>, u32>,
    order: Seq<RawEndpointView>,
    i: int,
    k: int,
)
    requires
        0 <= i < k <= order.len(),
        names_differ(order),
    ensures
        ({
            let ip = next_address(previous, assigned(previous, order.take(i)), order[i]);
            let a = assigned(previous, order.take(k));
            &&& a.next.dom().contains(order[i].raw_domain)
            &&& a.next[order[i].raw_domain] == ip
            &&& forall|p: u16| #[trigger]
                port_numbers(order[i].ports).contains(p) ==> a.claimed.contains((ip, p))
        }),
    decreases k - i,
{
    assert(order.take(k).drop_last() =~= order.take(k - 1));
    assert(order.take(k).last() == order[k - 1]);
    if k > i + 1 {
        lemma_given_stays_given(previous, order, i, k - 1);
        assert(order[i].raw_domain != order[k - 1].raw_domain);
    }
}

proof fn lemma_order_never_shares(
    previous: Map<Seq<char>, u32>,
    order: Seq<RawEndpointView>,
    i: int,
    j: int,
    p: u16,
)
    requires
        names_differ(order),
        order.len() <= POOL_SPAN,
        0 <= i < j < order.len(),
        port_numbers(order[i].ports).contains(p),
        port_numbers(order[j].ports).contains(p),
    ensures
        ({
            let next = assigned(previous, order).next;
            next[order[i].raw_domain] != next[order[j].raw_domain]
        }),
{
    let n = order.len() as int;
    lemma_given_stays_given(previous, order, i, n);
    lemma_given_stays_given(previous, order, j, n);
    lemma_given_stays_given(previous, order, i, j);
    assert(order.take(n) =~= order);
    let before = assigned(previous, order.take(j));
    let e = order[j];
    let ports = port_numbers(e.ports);
    let front = order.take(j);
    let used = Seq::new(j as nat, |k: int| given(previous, front, k));
    assert forall|c: (u32, u16)| #[trigger] before.claimed.contains(c) implies used.contains(
        c.0,
    ) by {
        lemma_claims_are_given(previous, front, c);
        let k = choose|k: int|
            0 <= k < front.len() && #[trigger] given(previous, front, k) == c.0 && port_numbers(
                front[k].ports,
            ).contains(c.1);
        assert(used[k] == c.0);
    }
    lemma_some_address_is_free(virtual_ip(e.raw_domain), ports, before.claimed, used);
    lemma_free_or_blocked(virtual_ip(e.raw_domain), ports, before.claimed, 0);
    let ip = next_address(previous, before, e);
    assert(free_at(ip, ports, before.claimed));
    let q = choose|q: int| 0 <= q < ports.len() && ports[q] == p;
    assert(!before.claimed.contains((ip, ports[q])));
}

/// No two active names share an address and a port, as long as there are no more
/// of them than the pool has addresses.
pub proof fn law_no_two_names_share_an_address_and_port(
    previous: Map<Seq<char>, u32>,
    endpoints: Seq<RawEndpointView>,
    a: RawEndpointView,
    b: RawEndpointView,
    p: u16,
)
    requires
        names_differ(endpoints),
        endpoints.len() <= POOL_SPAN,
        endpoints.contains(a),
        endpoints.contains(b),
        a.raw_domain != b.raw_domain,
        port_numbers(a.ports).contains(p),
        port_numbers(b.ports).contains(p),
    ensures
        address_of(table_of(endpoints, previous), a.raw_domain) != address_of(
            table_of(endpoints, previous),
            b.raw_domain,
        ),
{
    let order = assignment_order(endpoints, previous);
    lemma_order_is_a_rearrangement(endpoints, previous);
    lemma_rearranged(endpoints, order);
    assert(order.contains(a));
    assert(order.contains(b));
    let i = choose|i: int| 0 <= i < order.len() && order[i] == a;
    let j = choose|j: int| 0 <= j < order.len() && order[j] == b;
    law_table_holds_active_names_only(previous, order, a.raw_domain);
    law_table_holds_active_names_only(previous, order, b.raw_domain);
    if i < j {
        lemma_order_never_shares(previous, order, i, j, p);
    } else {
        lemma_order_never_shares(previous, order, j, i, p);
    }
}

/// Endpoints that share nothing at the addresses that they had before all keep
/// them, in whatever order they get them.
proof fn lemma_unshared_addresses_are_kept(
    previous: Map<Seq<char>, u32>,
    order: Seq<RawEndpointView>,
    k: int,
)
    requires
        names_differ(order),
        0 <= k < order.len(),
        forall|i: int|
            0 <= i < order.len() ==> previous.dom().contains((#[trigger] order[i]).raw_domain),
        forall|i: int, j: int, p: u16|
            #![trigger port_numbers(order[i].ports).contains(p), port_numbers(order[j].ports).contains(p)]
            0 <= i < j < order.len() && port_numbers(order[i].ports).contains(p) && port_numbers(
                order[j].ports,
            ).contains(p) ==> previous[order[i].raw_domain] != previous[order[j].raw_domain],
    ensures
        given(previous, order, k) == previous[order[k].raw_domain],
    decreases k,
{
    let front = order.take(k);
    let before = assigned(previous, front);
    let ip = previous[order[k].raw_domain];
    let ports = port_numbers(order[k].ports);
    assert forall|q: int| 0 <= q < ports.len() implies !before.claimed.contains(
        (ip, #[trigger] ports[q]),
    ) by {
        if before.claimed.contains((ip, ports[q])) {
            lemma_claims_are_given(previous, front, (ip, ports[q]));
            let i = choose|i: int|
                0 <= i < front.len() && #[trigger] given(previous, front, i) == ip
                    && port_numbers(front[i].ports).contains(ports[q]);
            assert(front.take(i) =~= order.take(i));
            lemma_unshared_addresses_are_kept(previous, order, i);
            assert(port_numbers(order[i].ports).contains(ports[q]));
            assert(port_numbers(order[k].ports).contains(ports[q]));
        }
    }
    assert(free_at(ip, ports, before.claimed));
    assert(previous.dom().contains(order[k].raw_domain));
}

/// Every name that stays active keeps its address, whichever others leave and in
/// whatever order the names come, as long as there were no more of them than the
/// pool has addresses.
pub proof fn law_surviving_names_keep_their_addresses(
    previous: Map<Seq<char>, u32>,
    endpoints: Seq<RawEndpointView>,
    survivors: Seq<RawEndpointView>,
    e: RawEndpointView,
)
    requires
        names_differ(endpoints),
        endpoints.len() <= POOL_SPAN,
        names_differ(survivors),
        forall|i: int| 0 <= i < survivors.len() ==> endpoints.contains(#[trigger] survivors[i]),
        survivors.contains(e),
    ensures
        ({
            let first = table_of(endpoints, previous);
            let second = table_of(survivors, first);
            &&& first.dom().contains(e.raw_domain)
            &&& second.dom().contains(e.raw_domain)
            &&& second[e.raw_domain] == first[e.raw_domain]
        }),
{
    let first = table_of(endpoints, previous);
    let before = assignment_order(endpoints, previous);
    let order = assignment_order(survivors, first);
    lemma_order_is_a_rearrangement(endpoints, previous);
    lemma_rearranged(endpoints, before);
    lemma_order_is_a_rearrangement(survivors, first);
    lemma_rearranged(survivors, order);
    assert forall|i: int| 0 <= i < order.len() implies endpoints.contains(#[trigger] order[i])
        && first.dom().contains(order[i].raw_domain) by {
        assert(order.contains(order[i]));
        assert(survivors.contains(order[i]));
        assert(endpoints.contains(order[i]));
        assert(before.contains(order[i]));
        law_table_holds_active_names_only(previous, before, order[i].raw_domain);
    }
    assert forall|i: int, j: int, p: u16|
        #![trigger port_numbers(order[i].ports).contains(p), port_numbers(order[j].ports).contains(p)]
        0 <= i < j < order.len() && port_numbers(order[i].ports).contains(p) && port_numbers(
            order[j].ports,
        ).contains(p) implies first[order[i].raw_domain] != first[order[j].raw_domain] by {
        law_no_two_names_share_an_address_and_port(previous, endpoints, order[i], order[j], p);
    }
    assert(order.contains(e));
    let k = choose|k: int| 0 <= k < order.len() && order[k] == e;
    lemma_unshared_addresses_are_kept(first, order, k);
    lemma_given_stays_given(first, order, k, order.len() as int);
    assert(order.take(order.len() as int) =~= order);
}

proof fn lemma_insert_keeps_sorted(s: Seq<RawEndpointView>, e: RawEndpointView)
    requires
        strictly_ascending(s.map_values(|x: RawEndpointView| x.raw_domain)),
        forall|i: int| 0 <= i < s.len() ==> (#[trigger] s[i]).raw_domain != e.raw_domain,
    ensures
        strictly_ascending(
            inserted_by_name(s, e).map_values(|x: RawEndpointView| x.raw_domain),
        ),
    decreases s.len(),
{
    let f = |x: RawEndpointView| x.raw_domain;
    let names = s.map_values(f);
    let r = inserted_by_name(s, e);
    let after = r.map_values(f);
    if s.len() > 0 && text_lt(e.raw_domain, s.last().raw_domain) {
        let front = s.drop_last();
        assert(front.map_values(f) =~= names.drop_last());
        assert forall|i: int, j: int|
            #![trigger front.map_values(f)[i], front.map_values(f)[j]]
            0 <= i < j < front.len() implies text_lt(
            front.map_values(f)[i],
            front.map_values(f)[j],
        ) by {
            assert(text_lt(names[i], names[j]));
        }
        lemma_insert_keeps_sorted(front, e);
        lemma_insert_rearranges(front, e);
        let inner = inserted_by_name(front, e);
        inner.to_multiset_ensures();
        front.push(e).to_multiset_ensures();
        assert forall|i: int, j: int|
            #![trigger after[i], after[j]]
            0 <= i < j < after.len() implies text_lt(after[i], after[j]) by {
            if j < inner.len() {
                assert(inner.map_values(f)[i] == after[i]);
                assert(inner.map_values(f)[j] == after[j]);
            } else {
                assert(inner.contains(inner[i]));
                assert(inner.to_multiset().count(inner[i]) > 0);
                assert(front.push(e).contains(inner[i]));
                let k = choose|k: int| 0 <= k < front.push(e).len() && front.push(e)[k] == inner[i];
                if k < front.len() {
                    assert(text_lt(names[k], names[s.len() - 1]));
                }
            }
        }
    } else {
        if s.len() > 0 {
            lemma_text_lt_total(e.raw_domain, s.last().raw_domain);
            assert(s[s.len() - 1].raw_domain != e.raw_domain);
        }
        assert forall|i: int, j: int|
            #![trigger after[i], after[j]]
            0 <= i < j < after.len() implies text_lt(after[i], after[j]) by {
            if j < s.len() {
                assert(names[i] == after[i] && names[j] == after[j]);
            } else if i < s.len() - 1 {
                assert(text_lt(names[i], names[s.len() - 1]));
                lemma_text_lt_transitive(names[i], names[s.len() - 1], e.raw_domain);
            }
        }
    }
}

proof fn lemma_sorted_is_ascending(s: Seq<RawEndpointView>)
    requires
        names_differ(s),
    ensures
        strictly_ascending(sorted_by_name(s).map_values(|x: RawEndpointView| x.raw_domain)),
    decreases s.len(),
{
    if s.len() > 0 {
        let front = s.drop_last();
        assert forall|i: int, j: int|
            #![trigger front[i], front[j]]
            0 <= i < j < front.len() implies front[i].raw_domain != front[j].raw_domain by {
            assert(s[i].raw_domain != s[j].raw_domain);
        }
        lemma_sorted_is_ascending(front);
        lemma_sort_rearranges(front);
        let sorted = sorted_by_name(front);
        lemma_rearranged(front, sorted);
        assert forall|i: int| 0 <= i < sorted.len() implies (#[trigger] sorted[i]).raw_domain
            != s.last().raw_domain by {
            assert(sorted.contains(sorted[i]));
            assert(front.contains(sorted[i]));
            let k = choose|k: int| 0 <= k < front.len() && front[k] == sorted[i];
            assert(s[k].raw_domain != s[s.len() - 1].raw_domain);
        }
        lemma_insert_keeps_sorted(sorted, s.last());
    }
}

/// Endpoints of different names sort to the same sequence, in whatever order they
/// come.
proof fn lemma_sorting_forgets_the_order(a: Seq<RawEndpointView>, b: Seq<RawEndpointView>)
    requires
        names_differ(a),
        names_differ(b),
        forall|e: RawEndpointView| #[trigger] a.contains(e) <==> b.contains(e),
    ensures
        sorted_by_name(a) == sorted_by_name(b),
{
    let f = |x: RawEndpointView| x.raw_domain;
    let sa = sorted_by_name(a);
    let sb = sorted_by_name(b);
    lemma_sort_rearranges(a);
    lemma_sort_rearranges(b);
    lemma_rearranged(a, sa);
    lemma_rearranged(b, sb);
    lemma_sorted_is_ascending(a);
    lemma_sorted_is_ascending(b);
    let na = sa.map_values(f);
    let nb = sb.map_values(f);
    assert forall|n: Seq<char>| na.to_set().contains(n) <==> nb.to_set().contains(n) by {
        if na.contains(n) {
            let i = choose|i: int| 0 <= i < na.len() && na[i] == n;
            assert(sa.contains(sa[i]));
            assert(a.contains(sa[i]));
            assert(b.contains(sa[i]));
            assert(sb.contains(sa[i]));
            let j = choose|j: int| 0 <= j < sb.len() && sb[j] == sa[i];
            assert(nb[j] == n);
        }
        if nb.contains(n) {
            let i = choose|i: int| 0 <= i < nb.len() && nb[i] == n;
            assert(sb.contains(sb[i]));
            assert(b.contains(sb[i]));
            assert(a.contains(sb[i]));
            assert(sa.contains(sb[i]));
            let j = choose|j: int| 0 <= j < sa.len() && sa[j] == sb[i];
            assert(na[j] == n);
        }
    }
    assert(na.to_set() =~= nb.to_set());
    lemma_ascending_unique(na, nb);
    assert(na.len() == nb.len());
    assert forall|i: int| 0 <= i < sa.len() implies sa[i] == sb[i] by {
        assert(na[i] == nb[i]);
        assert(sa.contains(sa[i]));
        assert(a.contains(sa[i]));
        assert(b.contains(sa[i]));
        assert(sb.contains(sa[i]));
        let j = choose|j: int| 0 <= j < sb.len() && sb[j] == sa[i];
        if j < i {
            assert(sb[j].raw_domain != sb[i].raw_domain);
        } else if i < j {
            assert(sb[i].raw_domain != sb[j].raw_domain);
        }
    }
    assert(sa =~= sb);
}

proof fn lemma_filtered_names_differ(s: Seq<RawEndpointView>, p: spec_fn(RawEndpointView) -> bool)
    requires
        names_differ(s),
    ensures
        names_differ(s.filter(p)),
    decreases s.len(),
{
    reveal(Seq::filter);
    if s.len() > 0 {
        let front = s.drop_last();
        assert forall|i: int, j: int|
            #![trigger front[i], front[j]]
            0 <= i < j < front.len() implies front[i].raw_domain != front[j].raw_domain by {
            assert(s[i].raw_domain != s[j].raw_domain);
        }
        lemma_filtered_names_differ(front, p);
        let kept = front.filter(p);
        let r = s.filter(p);
        assert forall|i: int, j: int|
            #![trigger r[i], r[j]]
            0 <= i < j < r.len() implies r[i].raw_domain != r[j].raw_domain by {
            if j < kept.len() {
                assert(kept[i] == r[i] && kept[j] == r[j]);
            } else {
                assert(kept[i] == r[i]);
                assert(kept.contains(kept[i]));
                lemma_filter_holds(front, p, kept[i]);
                let k = choose|k: int| 0 <= k < front.len() && front[k] == kept[i];
                assert(s[k].raw_domain != s[s.len() - 1].raw_domain);
            }
        }
    }
}

/// Endpoints of different names get the same addresses in whatever order they
/// come.
pub proof fn law_order_of_endpoints_does_not_matter(
    previous: Map<Seq<char>, u32>,
    endpoints: Seq<RawEndpointView>,
    rearranged: Seq<RawEndpointView>,
)
    requires
        names_differ(endpoints),
        rearranged.to_multiset() == endpoints.to_multiset(),
    ensures
        table_of(rearranged, previous) == table_of(endpoints, previous),
{
    let p = |e: RawEndpointView| previous.dom().contains(e.raw_domain);
    let q = |e: RawEndpointView| !previous.dom().contains(e.raw_domain);
    lemma_rearranged(endpoints, rearranged);
    lemma_filtered_names_differ(endpoints, p);
    lemma_filtered_names_differ(endpoints, q);
    lemma_filtered_names_differ(rearranged, p);
    lemma_filtered_names_differ(rearranged, q);
    assert forall|e: RawEndpointView| #[trigger]
        endpoints.filter(p).contains(e) <==> rearranged.filter(p).contains(e) by {
        lemma_filter_holds(endpoints, p, e);
        lemma_filter_holds(rearranged, p, e);
        assert(endpoints.contains(e) <==> rearranged.contains(e));
    }
    assert forall|e: RawEndpointView| #[trigger]
        endpoints.filter(q).contains(e) <==> rearranged.filter(q).contains(e) by {
        lemma_filter_holds(endpoints, q, e);
        lemma_filter_holds(rearranged, q, e);
        assert(endpoints.contains(e) <==> rearranged.contains(e));
    }
    lemma_sorting_forgets_the_order(endpoints.filter(p), rearranged.filter(p));
    lemma_sorting_forgets_the_order(endpoints.filter(q), rearranged.filter(q));
}

/// An address is made of its four parts, and written with dots between them.
pub proof fn law_address_is_made_of_its_parts(a: u8, b: u8, c: u8, d: u8)
    ensures
        address(a, b, c, d) / 0x100_0000 == a,
        address(a, b, c, d) / 0x1_0000 % 0x100 == b,
        address(a, b, c, d) / 0x100 % 0x100 == c,
        address(a, b, c, d) % 0x100 == d,
        dotted(address(a, b, c, d)) == dec(a as nat) + "."@ + dec(b as nat) + "."@ + dec(c as nat)
            + "."@ + dec(d as nat),
{
    let n = a * 0x100_0000 + b * 0x1_0000 + c * 0x100 + d;
    lemma_fundamental_div_mod_converse(n, 0x100_0000, a as int, b * 0x1_0000 + c * 0x100 + d);
    lemma_fundamental_div_mod_converse(n, 0x1_0000, a * 0x100 + b, c * 0x100 + d);
    lemma_fundamental_div_mod_converse(a * 0x100 + b, 0x100, a as int, b as int);
    lemma_fundamental_div_mod_converse(n, 0x100, a * 0x1_0000 + b * 0x100 + c, d as int);
    lemma_fundamental_div_mod_converse(
        a * 0x1_0000 + b * 0x100 + c,
        0x100,
        a * 0x100 + b,
        c as int,
    );
    assert(address(a, b, c, d) == n);
}

/// A name's own address is drawn from 10.222.0.1 up to 10.222.255.254 by the first
/// four bytes of its digest, the highest first.
pub proof fn law_digest_draws_an_address_of_the_pool(d: Seq<u8>)
    requires
        d.len() >= 4,
    ensures
        address(10, 222, 0, 1) <= digest_address(d) <= address(10, 222, 255, 254),
        digest_address(d) - address(10, 222, 0, 1) == address(d[0], d[1], d[2], d[3]) % 65534,
{
}

/// A name has the address that the table gives it, and otherwise its own.
pub proof fn law_table_gives_the_address(table: Map<Seq<char>, u32>, name: Seq<char>)
    ensures
        table.contains_key(name) ==> address_of(table, name) == table[name],
        !table.contains_key(name) ==> address_of(table, name) == digest_address(
            sha256_digest(encode_utf8(name)),
        ),
{
}

/// The ports that an endpoint claims are the numbers among its ports.
pub proof fn law_claimed_ports_are_numbers(ports: Map<Seq<char>, u16>, p: u16)
    requires
        ports.dom().finite(),
    ensures
        port_numbers(ports).contains(p) <==> exists|key: Seq<char>| #[trigger]
            ports.contains_key(key) && parsed_u16(key) == Some(p),
{
    let f = |key: Seq<char>| parsed_u16(key);
    let keys = ascending(ports.dom());
    lemma_ascending_of_set(ports.dom());
    if port_numbers(ports).contains(p) {
        keys.lemma_filter_map_contains(f, p);
        let key = choose|key: Seq<char>| #[trigger] keys.contains(key) && f(key) == Some(p);
        assert(keys.to_set().contains(key));
        assert(ports.contains_key(key));
    }
    if exists|key: Seq<char>| #[trigger] ports.contains_key(key) && parsed_u16(key) == Some(p) {
        let key = choose|key: Seq<char>| #[trigger]
            ports.contains_key(key) && parsed_u16(key) == Some(p);
        assert(keys.to_set().contains(key));
        let i = choose|i: int| 0 <= i < keys.len() && keys[i] == key;
        lemma_filter_map_holds(keys, f, i);
    }
}

/// Each numbered port of an endpoint has a route: from the endpoint's address and
/// this port to the port of the host that it is published on. There are no others.
pub proof fn law_routes_lead_from_port_to_published_port(
    table: Map<Seq<char>, u32>,
    endpoints: Seq<RawEndpointView>,
    r: RouteSpec,
)
    requires
        forall|i: int| 0 <= i < endpoints.len() ==> (#[trigger] endpoints[i]).ports.dom().finite(),
    ensures
        endpoints.flat_map(|e: RawEndpointView| endpoint_routes(table, e)).contains(r)
            <==> exists|i: int| 0 <= i < endpoints.len() && #[trigger] leads(table, endpoints[i], r),
{
    let g = |e: RawEndpointView| endpoint_routes(table, e);
    lemma_flat_map_holds(endpoints, g, r);
    assert forall|i: int| 0 <= i < endpoints.len() implies (#[trigger] g(endpoints[i]).contains(r)
        <==> leads(table, endpoints[i], r)) by {
        let e = endpoints[i];
        let f = |port: Seq<char>| route_for_port(table, e, port);
        let keys = ascending(e.ports.dom());
        lemma_ascending_of_set(e.ports.dom());
        if keys.filter_map(f).contains(r) {
            keys.lemma_filter_map_contains(f, r);
            let port = choose|port: Seq<char>| #[trigger] keys.contains(port) && f(port) == Some(r);
            assert(keys.to_set().contains(port));
            assert(e.ports.contains_key(port));
        }
        if leads(table, e, r) {
            let port = choose|port: Seq<char>| #[trigger]
                e.ports.contains_key(port) && parsed_u16(port) == Some(r.container_port)
                    && e.ports[port] == r.host_port;
            assert(keys.to_set().contains(port));
            let k = choose|k: int| 0 <= k < keys.len() && keys[k] == port;
            lemma_filter_map_holds(keys, f, k);
        }
    }
    if endpoints.flat_map(g).contains(r) {
        let i = choose|i: int| 0 <= i < endpoints.len() && #[trigger] g(endpoints[i]).contains(r);
        assert(leads(table, endpoints[i], r));
    }
    if exists|i: int| 0 <= i < endpoints.len() && #[trigger] leads(table, endpoints[i], r) {
        let i = choose|i: int| 0 <= i < endpoints.len() && #[trigger] leads(table, endpoints[i], r);
        assert(g(endpoints[i]).contains(r));
    }
}

/// Whether a route leads from an endpoint's address and one of its ports to the
/// port of the host that this one is published on.
pub open spec fn leads(table: Map<Seq<char>, u32>, e: RawEndpointView, r: RouteSpec) -> bool {
    &&& r.virtual_ip == address_of(table, e.raw_domain)
    &&& exists|port: Seq<char>| #[trigger]
        e.ports.contains_key(port) && parsed_u16(port) == Some(r.container_port) && e.ports[port]
            == r.host_port
}

proof fn lemma_first_free(
    naive: u32,
    ports: Seq<u16>,
    claimed: Set<(u32, u16)>,
    step: nat,
    k: nat,
)
    requires
        step <= k < 65534,
        free_at(probed(naive, k), ports, claimed),
        forall|j: nat| step <= j < k ==> !free_at(#[trigger] probed(naive, j), ports, claimed),
    ensures
        first_free(naive, ports, claimed, step) == Some(probed(naive, k)),
    decreases k - step,
{
    if step < k {
        assert(!free_at(probed(naive, step), ports, claimed));
        lemma_first_free(naive, ports, claimed, step + 1, k);
    }
}

/// A name that cannot keep an address gets the first one from its own upwards at
/// which none of its ports is claimed, and behind the last address of the pool the
/// first one follows. One that can keep its address does.
pub proof fn law_next_free_address_is_picked(
    preferred: u32,
    naive: u32,
    ports: Seq<u16>,
    claimed: Set<(u32, u16)>,
    k: nat,
)
    requires
        in_span(naive),
        k < 65534,
        free_at(
            (address(10, 222, 0, 1) + (naive - address(10, 222, 0, 1) + k) % 65534) as u32,
            ports,
            claimed,
        ),
        forall|j: nat|
            j < k ==> !free_at(
                #[trigger] ((address(10, 222, 0, 1) + (naive - address(10, 222, 0, 1) + j) % 65534) as u32),
                ports,
                claimed,
            ),
    ensures
        ({
            let found = (address(10, 222, 0, 1) + (naive - address(10, 222, 0, 1) + k)
                % 65534) as u32;
            &&& picked(None, naive, ports, claimed) == found
            &&& !free_at(preferred, ports, claimed) ==> picked(
                Some(preferred),
                naive,
                ports,
                claimed,
            ) == found
            &&& free_at(preferred, ports, claimed) ==> picked(
                Some(preferred),
                naive,
                ports,
                claimed,
            ) == preferred
            &&& k == 0 ==> found == naive
        }),
{
    let base = address(10, 222, 0, 1);
    assert forall|j: nat| #[trigger] probed(naive, j) == (base + (naive - base + j) % 65534) as u32 by {}
    assert forall|j: nat| j < k implies !free_at(#[trigger] probed(naive, j), ports, claimed) by {
        assert(probed(naive, j) == (base + (naive - base + j) % 65534) as u32);
    }
    lemma_first_free(naive, ports, claimed, 0, k);
}

/// An address is free for ports if none of them is claimed at it.
pub proof fn law_free_means_that_no_port_is_claimed(
    ip: u32,
    ports: Seq<u16>,
    claimed: Set<(u32, u16)>,
)
    ensures
        free_at(ip, ports, claimed) <==> forall|p: u16| #[trigger]
            ports.contains(p) ==> !claimed.contains((ip, p)),
{
    if free_at(ip, ports, claimed) {
        assert forall|p: u16| #[trigger] ports.contains(p) implies !claimed.contains((ip, p)) by {
            let i = choose|i: int| 0 <= i < ports.len() && ports[i] == p;
            assert(!claimed.contains((ip, ports[i])));
        }
    } else {
        let i = choose|i: int| 0 <= i < ports.len() && claimed.contains((ip, #[trigger] ports[i]));
        assert(ports.contains(ports[i]));
    }
}

/// A new name gets its own address as long as none of its ports is claimed there, and
/// the table gives each name the address that it gets when its turn comes.
pub proof fn law_new_name_gets_its_own_address(
    previous: Map<Seq<char>, u32>,
    order: Seq<RawEndpointView>,
    e: RawEndpointView,
    p: u16,
)
    ensures
        ({
            let before = assigned(previous, order);
            let after = assigned(previous, order.push(e));
            let ip = next_address(previous, before, e);
            &&& !previous.contains_key(e.raw_domain) && free_at(
                virtual_ip(e.raw_domain),
                port_numbers(e.ports),
                before.claimed,
            ) ==> ip == virtual_ip(e.raw_domain)
            &&& after.next.contains_key(e.raw_domain) && after.next[e.raw_domain] == ip
            &&& port_numbers(e.ports).contains(p) ==> after.claimed.contains((ip, p))
        }),
{
    assert(order.push(e).drop_last() =~= order);
    let naive = virtual_ip(e.raw_domain);
    law_every_name_has_a_pool_address(e.raw_domain);
    assert(probed(naive, 0) == naive);
}

} // verus!
