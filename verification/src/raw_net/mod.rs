//! Virtual addresses for names in the raw zone.

use vstd::prelude::*;
use vstd::utf8::encode_utf8;

pub mod laws;
pub mod macos;

use crate::number::{dec, decimal, parse_u16, parsed_u16};
use crate::strmap::{ascending, lemma_take_next, StrMap};
use crate::text::{text_less, text_lt};

verus! {

/// What a node offers in the raw zone: its name and, by container port, the
/// host ports that are published.
#[derive(Debug, PartialEq, Eq)]
pub struct RawEndpoint {
    pub raw_domain: String,
    pub ports: StrMap<u16>,
}

/// The view of a [`RawEndpoint`].
pub struct RawEndpointView {
    pub raw_domain: Seq<char>,
    pub ports: Map<Seq<char>, u16>,
}

impl View for RawEndpoint {
    type V = RawEndpointView;

    open spec fn view(&self) -> RawEndpointView {
        RawEndpointView { raw_domain: self.raw_domain@, ports: self.ports@ }
    }
}

impl DeepView for RawEndpoint {
    type V = RawEndpointView;

    open spec fn deep_view(&self) -> RawEndpointView {
        self@
    }
}

impl Clone for RawEndpoint {
    fn clone(&self) -> (r: Self)
        ensures
            r@ == self@,
    {
        RawEndpoint { raw_domain: self.raw_domain.clone(), ports: self.ports.clone() }
    }
}

/// The first address of the pool that virtual addresses are taken from,
/// 10.222.0.0.
pub const POOL_BASE: u32 = 0x0ade_0000;

/// How many addresses of the pool are given out: all of a /16 but the first
/// and the last.
pub const POOL_SPAN: u32 = 65534;

/// The address with the given octets.
pub open spec fn address(a: u8, b: u8, c: u8, d: u8) -> u32 {
    (a * 0x100_0000 + b * 0x1_0000 + c * 0x100 + d) as u32
}

/// The address with the given octets.
pub fn ipv4(a: u8, b: u8, c: u8, d: u8) -> (r: u32)
    ensures
        r == address(a, b, c, d),
{
    a as u32 * 0x100_0000 + b as u32 * 0x1_0000 + c as u32 * 0x100 + d as u32
}

/// The octets of an address.
pub fn octets(ip: u32) -> (r: (u8, u8, u8, u8))
    ensures
        address(r.0, r.1, r.2, r.3) == ip,
        r.0 == ip / 0x100_0000,
        r.1 == ip / 0x1_0000 % 0x100,
        r.2 == ip / 0x100 % 0x100,
        r.3 == ip % 0x100,
{
    proof {
        let q = ip / 0x100;
        let p = q / 0x100;
        assert(q == ip / 0x100 && ip == q * 0x100 + ip % 0x100);
        assert(q == p * 0x100 + q % 0x100);
        assert(p == ip / 0x1_0000 && p / 0x100 == ip / 0x100_0000);
        assert(p == (p / 0x100) * 0x100 + p % 0x100);
    }
    (
        (ip / 0x100_0000) as u8,
        (ip / 0x1_0000 % 0x100) as u8,
        (ip / 0x100 % 0x100) as u8,
        (ip % 0x100) as u8,
    )
}

/// An address in dotted decimal form.
pub open spec fn dotted(ip: u32) -> Seq<char> {
    dec((ip / 0x100_0000) as nat) + "."@ + dec((ip / 0x1_0000 % 0x100) as nat) + "."@ + dec(
        (ip / 0x100 % 0x100) as nat,
    ) + "."@ + dec((ip % 0x100) as nat)
}

/// An address in dotted decimal form.
pub fn ipv4_text(ip: u32) -> (r: String)
    ensures
        r@ == dotted(ip),
{
    let (a, b, c, d) = octets(ip);
    let mut r = decimal(a as u64);
    r.append(".");
    r.append(decimal(b as u64).as_str());
    r.append(".");
    r.append(decimal(c as u64).as_str());
    r.append(".");
    r.append(decimal(d as u64).as_str());
    r
}

/// Whether an address is one that the pool gives out.
pub open spec fn in_span(ip: u32) -> bool {
    POOL_BASE < ip <= POOL_BASE + POOL_SPAN
}

/// The SHA-256 digest of some bytes, as `sha2::Sha256::digest` computes it.
pub uninterp spec fn sha256_digest(data: Seq<u8>) -> Seq<u8>;

/// `sha2::Sha256::digest`: the 32 bytes of the SHA-256 digest, which depend on
/// the data alone.
#[verifier::external_body]
fn sha256(data: &[u8]) -> (digest: Vec<u8>)
    ensures
        digest@ == sha256_digest(data@),
        digest@.len() == 32,
{
    <sha2::Sha256 as sha2::Digest>::digest(data).to_vec()
}

/// The address that a digest stands for: its first four bytes, big endian,
/// folded into the pool.
pub open spec fn digest_address(d: Seq<u8>) -> u32 {
    (POOL_BASE + 1 + address(d[0], d[1], d[2], d[3]) % POOL_SPAN) as u32
}

/// The address that a digest stands for.
pub fn address_of_digest(d: &[u8]) -> (r: u32)
    requires
        d@.len() >= 4,
    ensures
        r == digest_address(d@),
        in_span(r),
{
    POOL_BASE + 1 + ipv4(d[0], d[1], d[2], d[3]) % POOL_SPAN
}

/// The address that a name hashes to.
pub open spec fn virtual_ip(name: Seq<char>) -> u32 {
    digest_address(sha256_digest(encode_utf8(name)))
}

/// The address that a name hashes to. It is always one of the pool's.
pub fn virtual_ip_for(name: &str) -> (r: u32)
    ensures
        r == virtual_ip(name@),
        in_span(r),
{
    let digest = sha256(name.as_bytes());
    address_of_digest(digest.as_slice())
}

/// Whether none of the ports is claimed at an address.
pub open spec fn free_at(ip: u32, ports: Seq<u16>, claimed: Set<(u32, u16)>) -> bool {
    forall|i: int| 0 <= i < ports.len() ==> !claimed.contains((ip, #[trigger] ports[i]))
}

/// The address that is tried after `step` others, counted from where a name
/// hashes to and wrapping within the pool.
pub open spec fn probed(naive: u32, step: nat) -> u32 {
    (POOL_BASE + 1 + (naive - POOL_BASE - 1 + step) % (POOL_SPAN as int)) as u32
}

/// The first address from the `step`-th on where all ports are free.
pub open spec fn first_free(
    naive: u32,
    ports: Seq<u16>,
    claimed: Set<(u32, u16)>,
    step: nat,
) -> Option<u32>
    decreases POOL_SPAN - step,
{
    if step >= POOL_SPAN {
        None
    } else if free_at(probed(naive, step), ports, claimed) {
        Some(probed(naive, step))
    } else {
        first_free(naive, ports, claimed, step + 1)
    }
}

/// The address for a name: the preferred one while it is free, else the first
/// free one from where the name hashes to, and that itself if none is.
pub open spec fn picked(
    preferred: Option<u32>,
    naive: u32,
    ports: Seq<u16>,
    claimed: Set<(u32, u16)>,
) -> u32 {
    match preferred {
        Some(ip) if free_at(ip, ports, claimed) => ip,
        _ => match first_free(naive, ports, claimed, 0) {
            Some(ip) => ip,
            None => naive,
        },
    }
}

fn claims(claimed: &Vec<(u32, u16)>, ip: u32, port: u16) -> (r: bool)
    ensures
        r == claimed@.to_set().contains((ip, port)),
{
    let mut i: usize = 0;
    while i < claimed.len()
        invariant
            i <= claimed@.len(),
            forall|j: int| 0 <= j < i ==> #[trigger] claimed@[j] != (ip, port),
        decreases claimed@.len() - i,
    {
        if claimed[i].0 == ip && claimed[i].1 == port {
            proof {
                assert(claimed@[i as int] == (ip, port));
            }
            return true;
        }
        i += 1;
    }
    false
}

fn is_free_at(ip: u32, ports: &Vec<u16>, claimed: &Vec<(u32, u16)>) -> (r: bool)
    ensures
        r == free_at(ip, ports@, claimed@.to_set()),
{
    let mut i: usize = 0;
    while i < ports.len()
        invariant
            i <= ports@.len(),
            forall|j: int|
                0 <= j < i ==> !claimed@.to_set().contains((ip, #[trigger] ports@[j])),
        decreases ports@.len() - i,
    {
        if claims(claimed, ip, ports[i]) {
            return false;
        }
        i += 1;
    }
    true
}

/// Picks the address for a name. Probing needs a start behind the pool's first
/// address.
pub fn pick_ip(
    preferred: Option<u32>,
    naive: u32,
    ports: &Vec<u16>,
    claimed: &Vec<(u32, u16)>,
) -> (r: u32)
    requires
        (preferred is Some && free_at(preferred->Some_0, ports@, claimed@.to_set())) || (POOL_BASE
            < naive && naive - POOL_BASE - 1 + POOL_SPAN <= u32::MAX),
    ensures
        r == picked(preferred, naive, ports@, claimed@.to_set()),
{
    if let Some(ip) = preferred {
        if is_free_at(ip, ports, claimed) {
            return ip;
        }
    }
    let start: u32 = naive - POOL_BASE - 1;
    let mut step: u32 = 0;
    while step < POOL_SPAN
        invariant
            step <= POOL_SPAN,
            start == naive - POOL_BASE - 1,
            start + POOL_SPAN <= u32::MAX,
            preferred is Some ==> !free_at(preferred->Some_0, ports@, claimed@.to_set()),
            first_free(naive, ports@, claimed@.to_set(), 0) == first_free(
                naive,
                ports@,
                claimed@.to_set(),
                step as nat,
            ),
        decreases POOL_SPAN - step,
    {
        let ip: u32 = POOL_BASE + 1 + (start + step) % POOL_SPAN;
        if is_free_at(ip, ports, claimed) {
            return ip;
        }
        step += 1;
    }
    naive
}

/// The ports of an endpoint that are numbers.
pub open spec fn port_numbers(ports: Map<Seq<char>, u16>) -> Seq<u16> {
    ascending(ports.dom()).filter_map(|k: Seq<char>| parsed_u16(k))
}

fn collect_port_numbers(ports: &StrMap<u16>) -> (r: Vec<u16>)
    ensures
        r@ == port_numbers(ports@),
{
    let ghost ks = ports.keys();
    let ghost f = |k: Seq<char>| parsed_u16(k);
    let mut r: Vec<u16> = Vec::new();
    let n: usize = ports.len();
    let mut i: usize = 0;
    proof {
        assert(ks.take(0).filter_map(f) =~= Seq::<u16>::empty());
    }
    while i < n
        invariant
            n == ports@.dom().len(),
            n == ks.len(),
            ks == ports.keys(),
            f == (|k: Seq<char>| parsed_u16(k)),
            i <= n,
            r@ == ks.take(i as int).filter_map(f),
        decreases n - i,
    {
        let key = ports.key_at(i);
        proof {
            ks.lemma_filter_map_take_succ(f, i as int);
        }
        match parse_u16(key.as_str()) {
            Some(p) => {
                r.push(p);
            },
            None => {},
        }
        i += 1;
    }
    proof {
        assert(ks.take(n as int) =~= ks);
    }
    r
}

/// With an endpoint put behind all that its name does not precede.
pub open spec fn inserted_by_name(s: Seq<RawEndpointView>, e: RawEndpointView) -> Seq<
    RawEndpointView,
>
    decreases s.len(),
{
    if s.len() > 0 && text_lt(e.raw_domain, s.last().raw_domain) {
        inserted_by_name(s.drop_last(), e).push(s.last())
    } else {
        s.push(e)
    }
}

/// The endpoints sorted by name; those of one name keep their order.
pub open spec fn sorted_by_name(s: Seq<RawEndpointView>) -> Seq<RawEndpointView>
    decreases s.len(),
{
    if s.len() == 0 {
        s
    } else {
        inserted_by_name(sorted_by_name(s.drop_last()), s.last())
    }
}

/// The order in which endpoints get their addresses: those that had one
/// before, then the others, each by name.
pub open spec fn assignment_order(
    endpoints: Seq<RawEndpointView>,
    previous: Map<Seq<char>, u32>,
) -> Seq<RawEndpointView> {
    sorted_by_name(
        endpoints.filter(|e: RawEndpointView| previous.dom().contains(e.raw_domain)),
    ) + sorted_by_name(
        endpoints.filter(|e: RawEndpointView| !previous.dom().contains(e.raw_domain)),
    )
}

/// What has been given out so far.
pub struct AssignmentView {
    pub claimed: Set<(u32, u16)>,
    pub next: Map<Seq<char>, u32>,
}

/// The address that an endpoint gets next.
pub open spec fn next_address(
    previous: Map<Seq<char>, u32>,
    a: AssignmentView,
    e: RawEndpointView,
) -> u32 {
    let preferred = if previous.dom().contains(e.raw_domain) {
        Some(previous[e.raw_domain])
    } else {
        None
    };
    picked(preferred, virtual_ip(e.raw_domain), port_numbers(e.ports), a.claimed)
}

/// What has been given out once the endpoints of `order` have their addresses.
pub open spec fn assigned(previous: Map<Seq<char>, u32>, order: Seq<RawEndpointView>) -> AssignmentView
    decreases order.len(),
{
    if order.len() == 0 {
        AssignmentView { claimed: Set::empty(), next: Map::empty() }
    } else {
        let before = assigned(previous, order.drop_last());
        let e = order.last();
        let ip = next_address(previous, before, e);
        AssignmentView {
            claimed: before.claimed.union(
                Set::new(|c: (u32, u16)| c.0 == ip && port_numbers(e.ports).contains(c.1)),
            ),
            next: before.next.insert(e.raw_domain, ip),
        }
    }
}

/// The table of addresses that some endpoints get, given the one before.
pub open spec fn table_of(
    endpoints: Seq<RawEndpointView>,
    previous: Map<Seq<char>, u32>,
) -> Map<Seq<char>, u32> {
    assigned(previous, assignment_order(endpoints, previous)).next
}

fn insert_by_name<'a>(v: &mut Vec<&'a RawEndpoint>, e: &'a RawEndpoint)
    ensures
        final(v).deep_view() == inserted_by_name(old(v).deep_view(), e@),
{
    let ghost s = v.deep_view();
    let mut pos: usize = v.len();
    proof {
        assert(s.take(pos as int) =~= s);
        assert(inserted_by_name(s.take(pos as int), e@) + s.skip(pos as int) =~= inserted_by_name(
            s,
            e@,
        ));
    }
    while pos > 0 && text_less(e.raw_domain.as_str(), v[pos - 1].raw_domain.as_str())
        invariant
            pos <= v@.len(),
            s == v.deep_view(),
            inserted_by_name(s, e@) == inserted_by_name(s.take(pos as int), e@) + s.skip(
                pos as int,
            ),
        decreases pos,
    {
        proof {
            let head = s.take(pos as int);
            assert(head.last() == s[pos - 1]);
            assert(head.drop_last() =~= s.take(pos - 1));
            assert(inserted_by_name(head, e@) + s.skip(pos as int) =~= inserted_by_name(
                s.take(pos - 1),
                e@,
            ) + s.skip(pos - 1));
        }
        pos -= 1;
    }
    v.insert(pos, e);
    proof {
        let head = s.take(pos as int);
        if pos > 0 {
            assert(head.last() == s[pos - 1]);
        }
        assert(v.deep_view() =~= head.push(e@) + s.skip(pos as int));
    }
}

fn order_endpoints<'a>(endpoints: &'a Vec<RawEndpoint>, previous: &StrMap<u32>, known: bool) -> (r:
    Vec<&'a RawEndpoint>)
    ensures
        r.deep_view() == sorted_by_name(
            endpoints.deep_view().filter(
                |e: RawEndpointView| previous@.dom().contains(e.raw_domain) == known,
            ),
        ),
{
    let ghost es = endpoints.deep_view();
    let ghost p = |e: RawEndpointView| previous@.dom().contains(e.raw_domain) == known;
    let mut r: Vec<&'a RawEndpoint> = Vec::new();
    let mut i: usize = 0;
    proof {
        assert(es.take(0).filter(p) =~= Seq::empty());
        assert(r.deep_view() =~= Seq::empty());
    }
    while i < endpoints.len()
        invariant
            i <= endpoints@.len(),
            es == endpoints.deep_view(),
            p == (|e: RawEndpointView| previous@.dom().contains(e.raw_domain) == known),
            r.deep_view() == sorted_by_name(es.take(i as int).filter(p)),
        decreases endpoints@.len() - i,
    {
        let e = &endpoints[i];
        let ghost kept = es.take(i as int).filter(p);
        proof {
            assert(es[i as int] == e@);
            lemma_take_next(es, i as int);
            es.take(i as int).lemma_filter_push(es[i as int], p);
        }
        if previous.contains_key(e.raw_domain.as_str()) == known {
            insert_by_name(&mut r, e);
            proof {
                assert(kept.push(e@).drop_last() =~= kept);
                assert(kept.push(e@).last() == e@);
            }
        }
        i += 1;
    }
    proof {
        assert(es.take(es.len() as int) =~= es);
    }
    r
}

/// Gives every endpoint an address: the one it had before as long as none of
/// its ports is claimed there by another name.
pub fn assign(endpoints: &Vec<RawEndpoint>, previous: &StrMap<u32>) -> (r: StrMap<u32>)
    ensures
        r@ == table_of(endpoints.deep_view(), previous@),
{
    let mut order = order_endpoints(endpoints, previous, true);
    let mut newcomers = order_endpoints(endpoints, previous, false);
    let ghost o1 = order.deep_view();
    let ghost o2 = newcomers.deep_view();
    order.append(&mut newcomers);
    let ghost os = order.deep_view();
    proof {
        assert(os =~= o1 + o2);
        let es = endpoints.deep_view();
        let in_a = |e: RawEndpointView| previous@.dom().contains(e.raw_domain) == true;
        let in_b = |e: RawEndpointView| previous@.dom().contains(e.raw_domain);
        assert(in_a =~= in_b);
        let out_a = |e: RawEndpointView| previous@.dom().contains(e.raw_domain) == false;
        let out_b = |e: RawEndpointView| !previous@.dom().contains(e.raw_domain);
        assert(out_a =~= out_b);
        assert(os == assignment_order(es, previous@));
    }
    let mut claimed: Vec<(u32, u16)> = Vec::new();
    let mut next: StrMap<u32> = StrMap::new();
    let mut i: usize = 0;
    proof {
        assert(os.take(0) =~= Seq::empty());
        assert(claimed@.to_set() =~= Set::<(u32, u16)>::empty());
    }
    while i < order.len()
        invariant
            i <= order@.len(),
            os == order.deep_view(),
            next@ == assigned(previous@, os.take(i as int)).next,
            claimed@.to_set() == assigned(previous@, os.take(i as int)).claimed,
        decreases order@.len() - i,
    {
        let e = order[i];
        proof {
            assert(os[i as int] == e@);
            assert(os.take(i + 1).drop_last() =~= os.take(i as int));
            assert(os.take(i + 1).last() == e@);
        }
        let ports = collect_port_numbers(&e.ports);
        let naive = virtual_ip_for(e.raw_domain.as_str());
        let preferred = match previous.get(e.raw_domain.as_str()) {
            Some(ip) => Some(*ip),
            None => None,
        };
        let ip = pick_ip(preferred, naive, &ports, &claimed);
        let ghost before = claimed@;
        let mut j: usize = 0;
        while j < ports.len()
            invariant
                j <= ports@.len(),
                forall|c: (u32, u16)|
                    #![trigger claimed@.to_set().contains(c)]
                    claimed@.to_set().contains(c) <==> (before.to_set().contains(c) || (c.0 == ip
                        && ports@.take(j as int).contains(c.1))),
            decreases ports@.len() - j,
        {
            let ghost so_far = claimed@;
            claimed.push((ip, ports[j]));
            proof {
                lemma_take_next(ports@, j as int);
                assert forall|c: (u32, u16)|
                    #![trigger claimed@.to_set().contains(c)]
                    claimed@.to_set().contains(c) <==> (before.to_set().contains(c) || (c.0 == ip
                        && ports@.take(j + 1).contains(c.1))) by {
                    lemma_push_contains(so_far, (ip, ports@[j as int]), c);
                    assert(so_far.to_set().contains(c) <==> (before.to_set().contains(c) || (c.0
                        == ip && ports@.take(j as int).contains(c.1))));
                }
            }
            j += 1;
        }
        proof {
            assert(ports@.take(ports@.len() as int) =~= ports@);
            assert(claimed@.to_set() =~= before.to_set().union(
                Set::new(|c: (u32, u16)| c.0 == ip && port_numbers(e@.ports).contains(c.1)),
            ));
        }
        next.insert(e.raw_domain.clone(), ip);
        i += 1;
    }
    proof {
        assert(os.take(os.len() as int) =~= os);
    }
    next
}

proof fn lemma_push_contains<T>(s: Seq<T>, x: T, y: T)
    ensures
        s.push(x).to_set().contains(y) <==> (s.to_set().contains(y) || y == x),
{
    if s.to_set().contains(y) {
        let i = choose|i: int| 0 <= i < s.len() && s[i] == y;
        assert(s.push(x)[i] == y);
    }
    assert(s.push(x)[s.len() as int] == x);
}

/// One translation rule: what reaches `virtual_ip:container_port` goes to
/// `127.0.0.1:host_port`.
#[derive(Debug, Clone, Copy, PartialEq, Eq, Structural)]
pub struct RouteSpec {
    pub virtual_ip: u32,
    pub container_port: u16,
    pub host_port: u16,
}

impl DeepView for RouteSpec {
    type V = RouteSpec;

    open spec fn deep_view(&self) -> RouteSpec {
        *self
    }
}

/// The address of a name: the assigned one, or the one that it hashes to.
pub open spec fn address_of(table: Map<Seq<char>, u32>, name: Seq<char>) -> u32 {
    if table.dom().contains(name) {
        table[name]
    } else {
        virtual_ip(name)
    }
}

/// The rule for one port of an endpoint, if the port is a number.
pub open spec fn route_for_port(
    table: Map<Seq<char>, u32>,
    e: RawEndpointView,
    port: Seq<char>,
) -> Option<RouteSpec> {
    match parsed_u16(port) {
        Some(p) => Some(
            RouteSpec {
                virtual_ip: address_of(table, e.raw_domain),
                container_port: p,
                host_port: e.ports[port],
            },
        ),
        None => None,
    }
}

/// The rules for all ports of an endpoint.
pub open spec fn endpoint_routes(table: Map<Seq<char>, u32>, e: RawEndpointView) -> Seq<RouteSpec> {
    ascending(e.ports.dom()).filter_map(|port: Seq<char>| route_for_port(table, e, port))
}

/// The address of a name: the assigned one, or the one that it hashes to.
pub fn resolve(table: &StrMap<u32>, name: &str) -> (r: u32)
    ensures
        r == address_of(table@, name@),
{
    match table.get(name) {
        Some(ip) => *ip,
        None => virtual_ip_for(name),
    }
}

/// The rules for all ports of all endpoints.
pub fn routes_for(endpoints: &Vec<RawEndpoint>, assigned: &StrMap<u32>) -> (r: Vec<RouteSpec>)
    ensures
        r@ == endpoints.deep_view().flat_map(
            |e: RawEndpointView| endpoint_routes(assigned@, e),
        ),
{
    let ghost es = endpoints.deep_view();
    let ghost f = |e: RawEndpointView| endpoint_routes(assigned@, e);
    let mut r: Vec<RouteSpec> = Vec::new();
    let mut i: usize = 0;
    proof {
        assert(es.take(0).flat_map(f) =~= Seq::<RouteSpec>::empty());
    }
    while i < endpoints.len()
        invariant
            i <= endpoints@.len(),
            es == endpoints.deep_view(),
            f == (|e: RawEndpointView| endpoint_routes(assigned@, e)),
            r@ == es.take(i as int).flat_map(f),
        decreases endpoints@.len() - i,
    {
        let e = &endpoints[i];
        let ip = resolve(assigned, e.raw_domain.as_str());
        let ghost before = r@;
        let ghost ks = e.ports.keys();
        let ghost g = |port: Seq<char>| route_for_port(assigned@, e@, port);
        let n: usize = e.ports.len();
        let mut j: usize = 0;
        proof {
            assert(before + ks.take(0).filter_map(g) =~= before);
        }
        while j < n
            invariant
                n == e.ports@.dom().len(),
                n == ks.len(),
                ks == e.ports.keys(),
                g == (|port: Seq<char>| route_for_port(assigned@, e@, port)),
                ip == address_of(assigned@, e@.raw_domain),
                j <= n,
                r@ == before + ks.take(j as int).filter_map(g),
            decreases n - j,
        {
            let port = e.ports.key_at(j);
            let host_port: u16 = *e.ports.value_at(j);
            proof {
                ks.lemma_filter_map_take_succ(g, j as int);
            }
            match parse_u16(port.as_str()) {
                Some(container_port) => {
                    r.push(RouteSpec { virtual_ip: ip, container_port, host_port });
                    proof {
                        assert(r@ =~= before + ks.take(j + 1).filter_map(g));
                    }
                },
                None => {
                    proof {
                        assert(r@ =~= before + ks.take(j + 1).filter_map(g));
                    }
                },
            }
            j += 1;
        }
        proof {
            assert(ks.take(n as int) =~= ks);
            assert(es[i as int] == e@);
            es.lemma_flat_map_take_append(f, i as int);
        }
        i += 1;
    }
    proof {
        assert(es.take(es.len() as int) =~= es);
    }
    r
}

/// Brings the table of addresses up to date with the active endpoints, and
/// returns the rules that are to be in force.
pub fn reconcile(table: &mut StrMap<u32>, endpoints: &Vec<RawEndpoint>) -> (r: Vec<RouteSpec>)
    ensures
        final(table)@ == table_of(endpoints.deep_view(), old(table)@),
        r@ == endpoints.deep_view().flat_map(
            |e: RawEndpointView| endpoint_routes(final(table)@, e),
        ),
{
    let next = assign(endpoints, table);
    let r = routes_for(endpoints, &next);
    *table = next;
    r
}

/// Forgets every address that was given out.
pub fn clear(table: &mut StrMap<u32>)
    ensures
        final(table)@ == Map::<Seq<char>, u32>::empty(),
{
    *table = StrMap::new();
}

/// What is said, once, where addresses cannot be made reachable.
pub const UNREACHABLE_WARNING: &'static str =
    "fghjd: host-reachable raw ports (*.fghj.raw.internal) aren't implemented on this platform yet — raw-zone names will resolve to a virtual IP, but nothing will answer on it";

/// Stands in for a packet filter where there is none.
pub struct NoopBackend {
    warned: bool,
}

impl NoopBackend {
    /// Whether the warning was given.
    pub closed spec fn has_warned(self) -> bool {
        self.warned
    }

    /// One that has not warned yet.
    pub fn new() -> (r: Self)
        ensures
            !r.has_warned(),
    {
        NoopBackend { warned: false }
    }

    /// Puts no rule in force. Returns whether the warning is due: for the first
    /// rules that there are.
    pub fn apply(&mut self, routes: &Vec<RouteSpec>) -> (r: bool)
        ensures
            r == (routes@.len() > 0 && !old(self).has_warned()),
            final(self).has_warned() == (old(self).has_warned() || routes@.len() > 0),
    {
        let due = routes.len() > 0 && !self.warned;
        if due {
            self.warned = true;
        }
        due
    }

    /// The rules in force: none.
    pub fn status(&self) -> (r: Vec<RouteSpec>)
        ensures
            r@.len() == 0,
    {
        Vec::new()
    }
}

} // verus!
