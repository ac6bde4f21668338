//! A small DNS server's rules: which names are answered, how a query is read,
//! how a response is built, and which resolver files route names to it.

use vstd::prelude::*;

use crate::number::{dec, decimal, law_port_text_reads_back, parse_u16_chars, parsed_u16};
use crate::query::{is_under_wildcard, under_wildcard};
use crate::raw_net::octets;
use crate::strmap::{ascending, lemma_take_next, StrMap};
use crate::text::{
    after_prefix, before_suffix, begins_with, chars_of, contains_text, finishes_with, join_texts,
    joined, lossy, lossy_text, same_text,
};

pub mod laws;

verus! {

/// The zone that the host's server is authoritative for.
pub const ZONE: &'static str = "fghj.internal";

/// The zone of names that lead to a container without the proxy in between.
pub const ZONE_RAW: &'static str = "fghj.raw.internal";

/// 127.0.0.1: where every name of the zone leads on the host.
pub const ANSWER: u32 = 0x7f00_0001;

/// How many seconds an answer may be kept.
pub const ANSWER_TTL: u32 = 5;

/// The record type of IPv4 addresses.
pub const TYPE_A: u16 = 1;

/// The class of internet records.
pub const CLASS_IN: u16 = 1;

/// Whether a name is the zone or lies below it.
pub open spec fn zone_name(qname: Seq<char>) -> bool {
    under_wildcard(qname, ZONE@)
}

/// Whether a name (in lower case) is the zone or lies below it.
pub fn in_zone(qname: &str) -> (r: bool)
    ensures
        r == zone_name(qname@),
{
    is_under_wildcard(qname, ZONE)
}

/// Whether a name (in lower case) is the given zone or lies below it.
pub fn matches_zone(qname: &str, zone: &str) -> (r: bool)
    ensures
        r == under_wildcard(qname@, zone@),
{
    is_under_wildcard(qname, zone)
}

/// Whether a name lies in a top level domain that is never delegated on the
/// internet.
pub open spec fn reserved_alias(host: Seq<char>) -> bool {
    ||| under_wildcard(host, "local"@)
    ||| under_wildcard(host, "test"@)
    ||| under_wildcard(host, "internal"@)
    ||| under_wildcard(host, "localhost"@)
}

/// Whether a name lies in a top level domain that is never delegated on the
/// internet.
pub fn is_reserved_alias(host: &str) -> (r: bool)
    ensures
        r == reserved_alias(host@),
{
    is_under_wildcard(host, "local") || is_under_wildcard(host, "test") || is_under_wildcard(
        host,
        "internal",
    ) || is_under_wildcard(host, "localhost")
}

/// Whether a name may have a certificate: always in the zone; elsewhere only
/// under a reserved domain, and only if it is routed; never in the raw zone.
pub open spec fn certifiable(name: Seq<char>, routed: bool) -> bool {
    zone_name(name) || (reserved_alias(name) && routed && !under_wildcard(name, ZONE_RAW@))
}

/// Whether a name may have a certificate.
pub fn cert_eligible(name: &str, routed: bool) -> (r: bool)
    ensures
        r == certifiable(name@, routed),
{
    in_zone(name) || (is_reserved_alias(name) && routed && !is_under_wildcard(name, ZONE_RAW))
}

/// What a server answers for: the address of each name that it recognizes.
pub trait ZoneSource {
    /// The address that is answered for a name (in lower case).
    spec fn answers(&self, qname: Seq<char>) -> Option<u32>;

    /// The address that is answered for a name (in lower case).
    fn answer_for(&self, qname: &str) -> (r: Option<u32>)
        ensures
            r == self.answers(qname@),
    ;
}

/// A letter from A to Z in lower case; any other character as it is.
pub open spec fn ascii_lower_char(c: char) -> char {
    if 'A' as int <= c as int <= 'Z' as int {
        (c as int + 32) as char
    } else {
        c
    }
}

/// A text with its letters from A to Z in lower case.
pub open spec fn ascii_lower(s: Seq<char>) -> Seq<char> {
    s.map_values(|c: char| ascii_lower_char(c))
}

fn to_ascii_lower_char(c: char) -> (r: char)
    ensures
        r == ascii_lower_char(c),
{
    if 'A' <= c && c <= 'Z' {
        (c as u8 + 32) as char
    } else {
        c
    }
}

/// A text with its letters from A to Z in lower case.
pub fn to_ascii_lower(s: &str) -> (r: String)
    ensures
        r@ == ascii_lower(s@),
{
    let cs = chars_of(s);
    let mut out = String::new();
    let mut i: usize = 0;
    while i < cs.len()
        invariant
            i <= cs@.len(),
            out@ == ascii_lower(cs@.take(i as int)),
        decreases cs@.len() - i,
    {
        out.push(to_ascii_lower_char(cs[i]));
        proof {
            lemma_take_next(cs@, i as int);
            assert(ascii_lower(cs@.take(i + 1)) =~= ascii_lower(cs@.take(i as int)).push(
                ascii_lower_char(cs@[i as int]),
            ));
        }
        i += 1;
    }
    proof {
        assert(cs@.take(cs@.len() as int) =~= cs@);
    }
    out
}

/// A query of one question.
pub struct Query {
    pub id: u16,
    pub opcode: u8,
    pub rd: bool,
    pub qname: String,
    pub qtype: u16,
    pub qclass: u16,
    /// The question as it was received.
    pub question_bytes: Vec<u8>,
}

/// A query of one question.
pub struct QueryView {
    pub id: u16,
    pub opcode: u8,
    pub rd: bool,
    pub qname: Seq<char>,
    pub qtype: u16,
    pub qclass: u16,
    pub question: Seq<u8>,
}

impl View for Query {
    type V = QueryView;

    open spec fn view(&self) -> QueryView {
        QueryView {
            id: self.id,
            opcode: self.opcode,
            rd: self.rd,
            qname: self.qname@,
            qtype: self.qtype,
            qclass: self.qclass,
            question: self.question_bytes@,
        }
    }
}

/// Two bytes as a number, the higher first.
pub open spec fn number16(b: Seq<u8>, i: int) -> u16 {
    (b[i] * 256 + b[i + 1]) as u16
}

fn read_number16(b: &[u8], i: usize) -> (r: u16)
    requires
        i + 1 < b@.len(),
    ensures
        r == number16(b@, i as int),
{
    b[i] as u16 * 256 + b[i + 1] as u16
}

/// The labels of a name and the position behind it. A label longer than 63 bytes
/// does not exist: the two highest bits mark a pointer, which no question holds.
pub open spec fn question_name(buf: Seq<u8>, pos: int) -> Option<(Seq<Seq<u8>>, int)>
    decreases buf.len() - pos,
{
    if pos < 0 || pos >= buf.len() {
        None
    } else {
        let n = buf[pos] as int;
        if n == 0 {
            Some((Seq::empty(), pos + 1))
        } else if n >= 64 || pos + 1 + n > buf.len() {
            None
        } else {
            match question_name(buf, pos + 1 + n) {
                Some((rest, end)) => Some((seq![buf.subrange(pos + 1, pos + 1 + n)] + rest, end)),
                None => None,
            }
        }
    }
}

/// The labels of a name as a text.
pub open spec fn name_text(labels: Seq<Seq<u8>>) -> Seq<char> {
    joined(labels.map_values(|l: Seq<u8>| lossy(l)), "."@)
}

/// The query that a packet holds: `None` for one that is cut short, that asks
/// more or less than one question, or whose name holds a pointer.
pub open spec fn parsed_query(buf: Seq<u8>) -> Option<QueryView> {
    if buf.len() < 12 || number16(buf, 4) != 1 {
        None
    } else {
        match question_name(buf, 12) {
            Some((labels, pos)) => if pos + 4 > buf.len() {
                None
            } else {
                Some(
                    QueryView {
                        id: number16(buf, 0),
                        opcode: (buf[2] / 8 % 16) as u8,
                        rd: buf[2] % 2 == 1,
                        qname: name_text(labels),
                        qtype: number16(buf, pos),
                        qclass: number16(buf, pos + 2),
                        question: buf.subrange(12, pos + 4),
                    },
                )
            },
            None => None,
        }
    }
}

/// A name that begins with given labels.
spec fn continued(labels: Seq<Seq<u8>>, rest: Option<(Seq<Seq<u8>>, int)>) -> Option<
    (Seq<Seq<u8>>, int),
> {
    match rest {
        Some((more, end)) => Some((labels + more, end)),
        None => None,
    }
}

/// The labels of a name, each as a text, and the position behind the name.
fn read_name(buf: &[u8], start: usize) -> (r: Option<(Vec<String>, usize)>)
    ensures
        match question_name(buf@, start as int) {
            Some((raw, stop)) => match r {
                Some((labels, end)) => end == stop && start < end <= buf@.len()
                    && labels.deep_view() == raw.map_values(|l: Seq<u8>| lossy(l)),
                None => false,
            },
            None => r is None,
        },
{
    let ghost whole = question_name(buf@, start as int);
    let ghost f = |l: Seq<u8>| lossy(l);
    let ghost mut raw: Seq<Seq<u8>> = Seq::empty();
    let mut labels: Vec<String> = Vec::new();
    let mut pos: usize = start;
    proof {
        if let Some((more, _)) = whole {
            assert(raw + more =~= more);
        }
        assert(labels.deep_view() =~= raw.map_values(f));
    }
    while pos < buf.len()
        invariant
            start <= pos,
            whole == question_name(buf@, start as int),
            f == (|l: Seq<u8>| lossy(l)),
            whole == continued(raw, question_name(buf@, pos as int)),
            labels.deep_view() == raw.map_values(f),
        decreases buf@.len() - pos,
    {
        let n: usize = buf[pos] as usize;
        if n == 0 {
            proof {
                assert(raw + Seq::<Seq<u8>>::empty() =~= raw);
            }
            return Some((labels, pos + 1));
        }
        if n >= 64 || n > buf.len() - pos - 1 {
            return None;
        }
        let bytes = vstd::slice::slice_subrange(buf, pos + 1, pos + 1 + n);
        let ghost before = labels.deep_view();
        let label = lossy_text(bytes);
        labels.push(label);
        proof {
            assert(labels.deep_view() =~= before.push(label@));
            assert(raw.push(bytes@).map_values(f) =~= raw.map_values(f).push(f(bytes@)));
            if let Some((more, _)) = question_name(buf@, pos + 1 + n) {
                assert(raw + (seq![bytes@] + more) =~= raw.push(bytes@) + more);
            }
            raw = raw.push(bytes@);
        }
        pos = pos + 1 + n;
    }
    None
}

/// Reads a query of one question.
pub fn parse_query(buf: &[u8]) -> (r: Option<Query>)
    ensures
        match r {
            Some(q) => parsed_query(buf@) == Some(q@),
            None => parsed_query(buf@) is None,
        },
{
    if buf.len() < 12 || read_number16(buf, 4) != 1 {
        return None;
    }
    match read_name(buf, 12) {
        None => None,
        Some((labels, pos)) => {
            if buf.len() - pos < 4 {
                return None;
            }
            let question = vstd::slice::slice_subrange(buf, 12, pos + 4);
            let question_bytes = slice_to_vec(question);
            Some(
                Query {
                    id: read_number16(buf, 0),
                    opcode: buf[2] / 8 % 16,
                    rd: buf[2] % 2 == 1,
                    qname: join_texts(&labels, "."),
                    qtype: read_number16(buf, pos),
                    qclass: read_number16(buf, pos + 2),
                    question_bytes,
                },
            )
        },
    }
}

fn slice_to_vec(s: &[u8]) -> (r: Vec<u8>)
    ensures
        r@ == s@,
{
    let mut r: Vec<u8> = Vec::new();
    push_all(&mut r, s);
    proof {
        assert(r@ =~= s@);
    }
    r
}

fn push_all(out: &mut Vec<u8>, s: &[u8])
    ensures
        final(out)@ == old(out)@ + s@,
{
    let ghost start = out@;
    let mut i: usize = 0;
    proof {
        assert(start + s@.take(0) =~= start);
    }
    while i < s.len()
        invariant
            i <= s@.len(),
            out@ == start + s@.take(i as int),
        decreases s@.len() - i,
    {
        out.push(s[i]);
        proof {
            assert(start + s@.take(i + 1) =~= (start + s@.take(i as int)).push(s@[i as int]));
        }
        i += 1;
    }
    proof {
        assert(s@.take(s@.len() as int) =~= s@);
    }
}

/// A number as two bytes, the higher first.
pub open spec fn bytes16(n: u16) -> Seq<u8> {
    seq![(n / 256) as u8, (n % 256) as u8]
}

/// An address as four bytes.
pub open spec fn bytes32(n: u32) -> Seq<u8> {
    seq![
        (n / 0x100_0000) as u8,
        (n / 0x1_0000 % 256) as u8,
        (n / 256 % 256) as u8,
        (n % 256) as u8,
    ]
}

fn push16(out: &mut Vec<u8>, n: u16)
    ensures
        final(out)@ == old(out)@ + bytes16(n),
{
    let ghost start = out@;
    out.push((n / 256) as u8);
    out.push((n % 256) as u8);
    proof {
        assert(out@ =~= start + bytes16(n));
    }
}

fn push32(out: &mut Vec<u8>, n: u32)
    ensures
        final(out)@ == old(out)@ + bytes32(n),
{
    let ghost start = out@;
    let (a, b, c, d) = octets(n);
    out.push(a);
    out.push(b);
    out.push(c);
    out.push(d);
    proof {
        assert(out@ =~= start + bytes32(n));
    }
}

/// Whether a response carries an address: the name is known, and an IPv4 address
/// was asked for.
pub open spec fn carries_answer(q: QueryView, answer: Option<u32>) -> bool {
    answer is Some && q.qtype == TYPE_A && q.qclass == CLASS_IN
}

/// The response code: 0 for a known name, 3 for an unknown one.
pub open spec fn response_code(answer: Option<u32>) -> u8 {
    if answer is Some {
        0
    } else {
        3
    }
}

/// The flags of a response: that it is one, the query's kind, whether it is
/// authoritative (for a known name only), and whether recursion was desired.
pub open spec fn response_flags(q: QueryView, answer: Option<u32>) -> u8 {
    (0x80 + q.opcode % 16 * 8 + (if answer is Some {
        4int
    } else {
        0
    }) + (if q.rd {
        1int
    } else {
        0
    })) as u8
}

/// The header of a response.
pub open spec fn response_header(q: QueryView, answer: Option<u32>) -> Seq<u8> {
    bytes16(q.id) + seq![response_flags(q, answer), response_code(answer)] + bytes16(1)
        + bytes16(
        if carries_answer(q, answer) {
            1u16
        } else {
            0u16
        },
    ) + bytes16(0) + bytes16(0)
}

/// The record that carries an address for the name in the question.
pub open spec fn answer_record(ip: u32) -> Seq<u8> {
    seq![0xc0u8, 0x0cu8] + bytes16(TYPE_A) + bytes16(CLASS_IN) + bytes32(ANSWER_TTL) + bytes16(4)
        + bytes32(ip)
}

/// The response to a query: an authoritative one for a known name, with the
/// address if an address was asked for, and else that there is no such name.
pub open spec fn response(q: QueryView, answer: Option<u32>) -> Seq<u8> {
    response_header(q, answer) + q.question + (if carries_answer(q, answer) {
        answer_record(answer->0)
    } else {
        Seq::empty()
    })
}

/// Builds the response to a query, given the address of its name.
pub fn build_response(query: &Query, answer: Option<u32>) -> (r: Vec<u8>)
    ensures
        r@ == response(query@, answer),
{
    let known = answer.is_some();
    let carries = known && query.qtype == TYPE_A && query.qclass == CLASS_IN;
    let rcode: u8 = if known {
        0
    } else {
        3
    };
    let authoritative: u8 = if known {
        4
    } else {
        0
    };
    let recursion: u8 = if query.rd {
        1
    } else {
        0
    };
    let mut resp: Vec<u8> = Vec::new();
    push16(&mut resp, query.id);
    resp.push(0x80 + query.opcode % 16 * 8 + authoritative + recursion);
    resp.push(rcode);
    push16(&mut resp, 1);
    push16(
        &mut resp,
        if carries {
            1
        } else {
            0
        },
    );
    push16(&mut resp, 0);
    push16(&mut resp, 0);
    proof {
        assert(resp@ =~= response_header(query@, answer));
    }
    push_all(&mut resp, query.question_bytes.as_slice());
    let ghost head = resp@;
    match answer {
        Some(ip) => {
            if carries {
                resp.push(0xc0);
                resp.push(0x0c);
                push16(&mut resp, TYPE_A);
                push16(&mut resp, CLASS_IN);
                push32(&mut resp, ANSWER_TTL);
                push16(&mut resp, 4);
                push32(&mut resp, ip);
                proof {
                    assert(resp@ =~= head + answer_record(ip));
                }
            }
        },
        None => {},
    }
    proof {
        assert(resp@ =~= response(query@, answer));
    }
    resp
}

/// What a server does with a packet.
pub enum Reaction {
    /// Nothing.
    Ignore,
    /// Hands the packet on to another server, as it is.
    Forward,
    /// Sends a response.
    Respond(Vec<u8>),
}

/// What a server does with a packet.
pub enum ReactionView {
    Ignore,
    Forward,
    Respond(Seq<u8>),
}

impl View for Reaction {
    type V = ReactionView;

    open spec fn view(&self) -> ReactionView {
        match self {
            Reaction::Ignore => ReactionView::Ignore,
            Reaction::Forward => ReactionView::Forward,
            Reaction::Respond(bytes) => ReactionView::Respond(bytes@),
        }
    }
}

/// What a server does with a packet: one that is no query is ignored, and a name
/// that is not recognized is handed on where there is a server to hand it to.
pub open spec fn reaction<Z: ZoneSource>(
    packet: Seq<u8>,
    zones: Z,
    has_upstream: bool,
) -> ReactionView {
    match parsed_query(packet) {
        None => ReactionView::Ignore,
        Some(q) => {
            let answer = zones.answers(ascii_lower(q.qname));
            if answer is None && has_upstream {
                ReactionView::Forward
            } else {
                ReactionView::Respond(response(q, answer))
            }
        },
    }
}

/// What a server does with a packet.
pub fn react<Z: ZoneSource>(packet: &[u8], zones: &Z, has_upstream: bool) -> (r: Reaction)
    ensures
        r@ == reaction(packet@, *zones, has_upstream),
{
    match parse_query(packet) {
        None => Reaction::Ignore,
        Some(query) => {
            let name = to_ascii_lower(query.qname.as_str());
            let answer = zones.answer_for(name.as_str());
            if answer.is_none() && has_upstream {
                Reaction::Forward
            } else {
                Reaction::Respond(build_response(&query, answer))
            }
        },
    }
}

/// The beginning of a resolver file.
pub const RESOLVER_HEAD: &'static str = "nameserver 127.0.0.1\nport ";

/// What a resolver file holds that routes a zone to a port.
pub open spec fn resolver_text(port: u16) -> Seq<char> {
    RESOLVER_HEAD@ + dec(port as nat) + "\n"@
}

/// What a resolver file holds that routes a zone to a port.
pub fn resolver_content(port: u16) -> (r: String)
    ensures
        r@ == resolver_text(port),
{
    let mut r = RESOLVER_HEAD.to_owned();
    r.append(decimal(port as u64).as_str());
    r.append("\n");
    r
}

/// The port of a resolver file of the form that this server writes.
pub open spec fn resolver_port(content: Seq<char>) -> Option<u16> {
    if begins_with(content, RESOLVER_HEAD@) {
        let rest = content.skip(RESOLVER_HEAD@.len() as int);
        if finishes_with(rest, "\n"@) {
            parsed_u16(rest.take(rest.len() - 1))
        } else {
            None
        }
    } else {
        None
    }
}

/// The port of a resolver file of the form that this server writes.
pub fn parse_fghjd_resolver_port(content: &str) -> (r: Option<u16>)
    ensures
        r == resolver_port(content@),
{
    let cs = chars_of(content);
    let head = chars_of(RESOLVER_HEAD);
    let feed = chars_of("\n");
    proof {
        reveal_strlit("\n");
    }
    match after_prefix(cs.as_slice(), head.as_slice()) {
        None => None,
        Some(rest) => match before_suffix(rest, feed.as_slice()) {
            None => None,
            Some(port) => parse_u16_chars(port),
        },
    }
}

/// Whether a resolver file has the form that this server writes.
pub fn is_fghjd_resolver_content(content: &str) -> (r: bool)
    ensures
        r == (resolver_port(content@) is Some),
{
    parse_fghjd_resolver_port(content).is_some()
}

/// A resolver file that this server writes is recognized, with its port.
pub proof fn law_resolver_file_reads_back(port: u16)
    ensures
        resolver_port(resolver_text(port)) == Some(port),
{
    reveal_strlit("\n");
    let text = resolver_text(port);
    let rest = text.skip(RESOLVER_HEAD@.len() as int);
    assert(text.take(RESOLVER_HEAD@.len() as int) =~= RESOLVER_HEAD@);
    assert(rest =~= dec(port as nat) + "\n"@);
    assert(rest.skip(rest.len() - 1) =~= "\n"@);
    assert(rest.take(rest.len() - 1) =~= dec(port as nat));
    law_port_text_reads_back(port);
}

/// The zones that files of this server's own form route, with the port of each,
/// in the order of their names.
pub open spec fn managed_zones(files: Map<Seq<char>, Seq<char>>) -> Seq<(Seq<char>, u16)> {
    ascending(files.dom()).filter_map(|name: Seq<char>| managed_zone(files, name))
}

/// The zone that a file routes.
pub open spec fn managed_zone(files: Map<Seq<char>, Seq<char>>, name: Seq<char>) -> Option<
    (Seq<char>, u16),
> {
    match resolver_port(files[name]) {
        Some(port) => Some((name, port)),
        None => None,
    }
}

/// The zones that the files of a directory route to this server.
pub fn managed_resolver_zones(files: &StrMap<String>) -> (r: Vec<(String, u16)>)
    ensures
        r.deep_view() == managed_zones(files@),
{
    let ghost ks = files.keys();
    let ghost f = |name: Seq<char>| managed_zone(files@, name);
    let mut r: Vec<(String, u16)> = Vec::new();
    let n: usize = files.len();
    let mut i: usize = 0;
    proof {
        assert(r.deep_view() =~= ks.take(0).filter_map(f));
    }
    while i < n
        invariant
            n == files@.dom().len(),
            n == ks.len(),
            ks == files.keys(),
            f == (|name: Seq<char>| managed_zone(files@, name)),
            i <= n,
            r.deep_view() == ks.take(i as int).filter_map(f),
        decreases n - i,
    {
        proof {
            ks.lemma_filter_map_take_succ(f, i as int);
        }
        let name = files.key_at(i);
        match parse_fghjd_resolver_port(files.value_at(i).as_str()) {
            Some(port) => {
                let ghost before = r.deep_view();
                r.push((name.clone(), port));
                proof {
                    assert(r.deep_view() =~= before.push((name@, port)));
                }
            },
            None => {},
        }
        i += 1;
    }
    proof {
        assert(ks.take(n as int) =~= ks);
    }
    r
}

/// The changes that bring a resolver directory up to date.
pub struct ResolverChanges {
    /// What the files below are to hold.
    pub content: String,
    /// The files to write.
    pub write: Vec<String>,
    /// The files to remove.
    pub remove: Vec<String>,
}

/// The zones whose file is missing or holds something else, each once.
pub open spec fn zones_to_write(
    files: Map<Seq<char>, Seq<char>>,
    content: Seq<char>,
    zones: Seq<Seq<char>>,
) -> Seq<Seq<char>>
    decreases zones.len(),
{
    if zones.len() == 0 {
        Seq::empty()
    } else {
        let before = zones_to_write(files, content, zones.drop_last());
        let zone = zones.last();
        if (files.contains_key(zone) && files[zone] == content) || before.contains(zone) {
            before
        } else {
            before.push(zone)
        }
    }
}

/// The files of this server's own form that belong to no zone of the list.
pub open spec fn files_to_remove(
    files: Map<Seq<char>, Seq<char>>,
    zones: Seq<Seq<char>>,
) -> Seq<Seq<char>> {
    ascending(files.dom()).filter(
        |name: Seq<char>| !zones.contains(name) && resolver_port(files[name]) is Some,
    )
}

/// The changes after which each zone is routed to the port, and none that this
/// server routed before is left over. Files of another form stay.
pub fn sync_resolver_files(files: &StrMap<String>, port: u16, zones: &Vec<String>) -> (r:
    ResolverChanges)
    ensures
        r.content@ == resolver_text(port),
        r.write.deep_view() == zones_to_write(files@, resolver_text(port), zones.deep_view()),
        r.remove.deep_view() == files_to_remove(files@, zones.deep_view()),
{
    let content = resolver_content(port);
    let ghost zs = zones.deep_view();
    let mut write: Vec<String> = Vec::new();
    let mut i: usize = 0;
    proof {
        assert(write.deep_view() =~= zones_to_write(files@, content@, zs.take(0)));
    }
    while i < zones.len()
        invariant
            i <= zones@.len(),
            zs == zones.deep_view(),
            write.deep_view() == zones_to_write(files@, content@, zs.take(i as int)),
        decreases zones@.len() - i,
    {
        let zone = &zones[i];
        let ghost before = write.deep_view();
        proof {
            assert(zs.take(i + 1).drop_last() =~= zs.take(i as int));
            assert(zs.take(i + 1).last() == zone@);
        }
        let current = match files.get(zone.as_str()) {
            Some(text) => same_text(text.as_str(), content.as_str()),
            None => false,
        };
        if !current && !contains_text(&write, zone.as_str()) {
            write.push(zone.clone());
            proof {
                assert(write.deep_view() =~= before.push(zone@));
            }
        }
        i += 1;
    }
    proof {
        assert(zs.take(zs.len() as int) =~= zs);
    }
    let remove = stale_files(files, zones);
    ResolverChanges { content, write, remove }
}

fn stale_files(files: &StrMap<String>, zones: &Vec<String>) -> (r: Vec<String>)
    ensures
        r.deep_view() == files_to_remove(files@, zones.deep_view()),
{
    let ghost ks = files.keys();
    let ghost zs = zones.deep_view();
    let ghost p = |name: Seq<char>| !zs.contains(name) && resolver_port(files@[name]) is Some;
    let mut r: Vec<String> = Vec::new();
    let n: usize = files.len();
    let mut i: usize = 0;
    proof {
        assert(r.deep_view() =~= ks.take(0).filter(p));
    }
    while i < n
        invariant
            n == files@.dom().len(),
            n == ks.len(),
            ks == files.keys(),
            zs == zones.deep_view(),
            p == (|name: Seq<char>| !zs.contains(name) && resolver_port(files@[name]) is Some),
            i <= n,
            r.deep_view() == ks.take(i as int).filter(p),
        decreases n - i,
    {
        let name = files.key_at(i);
        proof {
            lemma_take_next(ks, i as int);
            ks.take(i as int).lemma_filter_push(ks[i as int], p);
        }
        if !contains_text(zones, name.as_str()) && is_fghjd_resolver_content(
            files.value_at(i).as_str(),
        ) {
            let ghost before = r.deep_view();
            r.push(name.clone());
            proof {
                assert(r.deep_view() =~= before.push(name@));
            }
        }
        i += 1;
    }
    proof {
        assert(ks.take(n as int) =~= ks);
    }
    r
}

/// The zones that are routed to this server: its own two and the given ones.
pub open spec fn routed_zones(wildcard_zones: Seq<Seq<char>>) -> Seq<Seq<char>> {
    seq![ZONE@, ZONE_RAW@] + wildcard_zones
}

/// The changes that route this server's zones to it, given what the resolver
/// directory holds; `None` where the system has no such directory.
pub fn install_os_resolver_config(
    macos: bool,
    files: &StrMap<String>,
    port: u16,
    wildcard_zones: &Vec<String>,
) -> (r: Option<ResolverChanges>)
    ensures
        r is Some <==> macos,
        match r {
            Some(c) => {
                let zones = routed_zones(wildcard_zones.deep_view());
                &&& c.content@ == resolver_text(port)
                &&& c.write.deep_view() == zones_to_write(files@, resolver_text(port), zones)
                &&& c.remove.deep_view() == files_to_remove(files@, zones)
            },
            None => true,
        },
{
    if !macos {
        return None;
    }
    let ghost ws = wildcard_zones.deep_view();
    let mut zones: Vec<String> = Vec::new();
    zones.push(ZONE.to_owned());
    zones.push(ZONE_RAW.to_owned());
    let mut i: usize = 0;
    proof {
        assert(zones.deep_view() =~= routed_zones(ws.take(0)));
    }
    while i < wildcard_zones.len()
        invariant
            i <= wildcard_zones@.len(),
            ws == wildcard_zones.deep_view(),
            zones.deep_view() == routed_zones(ws.take(i as int)),
        decreases wildcard_zones@.len() - i,
    {
        let ghost before = zones.deep_view();
        zones.push(wildcard_zones[i].clone());
        proof {
            assert(zones.deep_view() =~= before.push(ws[i as int]));
            assert(routed_zones(ws.take(i + 1)) =~= before.push(ws[i as int]));
        }
        i += 1;
    }
    proof {
        assert(ws.take(ws.len() as int) =~= ws);
    }
    Some(sync_resolver_files(files, port, &zones))
}

/// The files to remove so that nothing is routed to this server any more, given
/// what the resolver directory holds.
pub fn clear_os_resolver_config(macos: bool, files: &StrMap<String>) -> (r: Vec<String>)
    ensures
        r.deep_view() == (if macos {
            files_to_remove(files@, Seq::empty())
        } else {
            Seq::empty()
        }),
{
    let none: Vec<String> = Vec::new();
    proof {
        assert(none.deep_view() =~= Seq::empty());
    }
    if macos {
        stale_files(files, &none)
    } else {
        none
    }
}

} // verus!
