//! The control API's rules.

use vstd::prelude::*;

use crate::action::Action;
use crate::lines::{
    first_position, lemma_is_first_position, lemma_split_append, lemma_split_one, split_on,
    split_text,
};
use crate::raw_net::{address_of, resolve, RawEndpoint, RawEndpointView};
use crate::runs::DEFAULT_RUN_ID;
use crate::state::{ContainerInfo, RunSpec, WorkspaceState};
use crate::strmap::StrMap;
use crate::text::{chars_of, concat_text, same_chars, string_of};

verus! {

/// How many lines of a container's output are given by default.
pub const DEFAULT_TAIL: usize = 200;

/// How many lines of captured output are given by default.
pub const DEFAULT_HISTORY_LIMIT: i64 = 500;

/// How many of the daemon's own messages are given by default.
pub const DEFAULT_DAEMON_LOGS_LIMIT: usize = 500;

/// The answer to a request that names no workspace, or one that is not served.
pub const UNKNOWN_WORKSPACE: &'static str =
    "unknown or missing ?workspace=<id>; POST /workspaces first";

/// The value of a `key=value` piece, if it is the key's.
pub open spec fn piece_value(piece: Seq<char>, key: Seq<char>) -> Option<Seq<char>> {
    let n = first_position(piece, '=');
    if 0 <= n < piece.len() && piece.take(n) == key {
        Some(piece.skip(n + 1))
    } else {
        None
    }
}

/// The first value of a key among pieces.
pub open spec fn first_value(pieces: Seq<Seq<char>>, key: Seq<char>) -> Option<Seq<char>>
    decreases pieces.len(),
{
    if pieces.len() == 0 {
        None
    } else {
        match piece_value(pieces[0], key) {
            Some(v) => Some(v),
            None => first_value(pieces.drop_first(), key),
        }
    }
}

/// The value of a key in a query string. Nothing in it is decoded.
pub open spec fn query_value(query: Seq<char>, key: Seq<char>) -> Option<Seq<char>> {
    first_value(split_on(query, '&'), key)
}

fn value_of_piece(piece: &str, key: &str) -> (r: Option<String>)
    ensures
        r.deep_view() == piece_value(piece@, key@),
{
    let cs = chars_of(piece);
    let k = chars_of(key);
    let mut n: usize = 0;
    while n < cs.len() && cs[n] != '='
        invariant
            n <= cs@.len(),
            forall|i: int| 0 <= i < n ==> #[trigger] cs@[i] != '=',
        decreases cs@.len() - n,
    {
        n += 1;
    }
    proof {
        lemma_is_first_position(cs@, '=', n as int);
    }
    if n == cs.len() {
        return None;
    }
    let front = vstd::slice::slice_subrange(cs.as_slice(), 0, n);
    let back = vstd::slice::slice_subrange(cs.as_slice(), n + 1, cs.len());
    proof {
        assert(front@ =~= cs@.take(n as int));
        assert(back@ =~= cs@.skip(n + 1));
    }
    if same_chars(front, k.as_slice()) {
        Some(string_of(back))
    } else {
        None
    }
}

/// The value of a key in a query string.
pub fn query_param(query: &str, key: &str) -> (r: Option<String>)
    ensures
        r.deep_view() == query_value(query@, key@),
{
    let cs = chars_of(query);
    let pieces = split_text(cs.as_slice(), '&');
    let ghost ps = pieces.deep_view();
    let mut i: usize = 0;
    proof {
        assert(ps.skip(0) =~= ps);
    }
    while i < pieces.len()
        invariant
            i <= pieces@.len(),
            ps == pieces.deep_view(),
            ps == split_on(query@, '&'),
            first_value(ps, key@) == first_value(ps.skip(i as int), key@),
        decreases pieces@.len() - i,
    {
        proof {
            assert(ps.skip(i as int)[0] == pieces@[i as int]@);
            assert(ps.skip(i as int).drop_first() =~= ps.skip(i + 1));
        }
        match value_of_piece(pieces[i].as_str(), key) {
            Some(v) => {
                return Some(v);
            },
            None => {},
        }
        i += 1;
    }
    None
}

/// That there is no such run.
pub fn no_such_run(run_id: &str) -> (r: String)
    ensures
        r@ == "no such run: "@ + run_id@,
{
    concat_text("no such run: ", run_id)
}

/// The run that a request plans: the one that it names, or else the default one.
pub open spec fn planned_id(run_id: Option<Seq<char>>) -> Seq<char> {
    match run_id {
        Some(id) => id,
        None => DEFAULT_RUN_ID@,
    }
}

/// The action that a request for a run amounts to, and the run's id.
pub fn plan_run(spec_of_run: RunSpec) -> (r: (String, Action))
    ensures
        r.0@ == planned_id(spec_of_run@.run_id),
        match r.1 {
            Action::RunPlanned { run_id, plan } => run_id@ == r.0@ && plan@ == spec_of_run@,
            _ => false,
        },
{
    let run_id = match &spec_of_run.run_id {
        Some(id) => id.clone(),
        None => DEFAULT_RUN_ID.to_owned(),
    };
    (run_id.clone(), Action::RunPlanned { run_id, plan: spec_of_run })
}

/// A node's container.
pub fn container_for<'a>(state: &'a WorkspaceState, run_id: &str, node_id: &str) -> (r: Option<
    &'a ContainerInfo,
>)
    ensures
        match r {
            Some(c) => {
                &&& state@.runs.contains_key(run_id@)
                &&& state@.runs[run_id@].containers.contains_key(node_id@)
                &&& c@ == state@.runs[run_id@].containers[node_id@]
            },
            None => !state@.runs.contains_key(run_id@)
                || !state@.runs[run_id@].containers.contains_key(node_id@),
        },
{
    match state.runs.get(run_id) {
        Some(run) => run.containers.get(node_id),
        None => None,
    }
}

/// The raw name that an address belongs to: that of the last endpoint with it.
pub open spec fn name_of_address(
    endpoints: Seq<RawEndpointView>,
    addresses: Map<Seq<char>, u32>,
    ip: u32,
) -> Option<Seq<char>>
    decreases endpoints.len(),
{
    if endpoints.len() == 0 {
        None
    } else if address_of(addresses, endpoints.last().raw_domain) == ip {
        Some(endpoints.last().raw_domain)
    } else {
        name_of_address(endpoints.drop_last(), addresses, ip)
    }
}

/// The raw name that an address belongs to.
pub fn raw_domain_of(endpoints: &Vec<RawEndpoint>, addresses: &StrMap<u32>, ip: u32) -> (r: Option<
    String,
>)
    ensures
        r.deep_view() == name_of_address(endpoints.deep_view(), addresses@, ip),
{
    let ghost es = endpoints.deep_view();
    let mut n: usize = endpoints.len();
    proof {
        assert(es.take(n as int) =~= es);
    }
    while n > 0
        invariant
            n <= endpoints@.len(),
            es == endpoints.deep_view(),
            name_of_address(es, addresses@, ip) == name_of_address(
                es.take(n as int),
                addresses@,
                ip,
            ),
        decreases n,
    {
        let e = &endpoints[n - 1];
        proof {
            assert(es.take(n as int).last() == e@);
            assert(es.take(n as int).drop_last() =~= es.take(n - 1));
        }
        if resolve(addresses, e.raw_domain.as_str()) == ip {
            return Some(e.raw_domain.clone());
        }
        n -= 1;
    }
    None
}

proof fn lemma_first_value(a: Seq<Seq<char>>, b: Seq<Seq<char>>, key: Seq<char>)
    ensures
        first_value(a + b, key) == (match first_value(a, key) {
            Some(v) => Some(v),
            None => first_value(b, key),
        }),
    decreases a.len(),
{
    if a.len() == 0 {
        assert(a + b =~= b);
    } else {
        lemma_first_value(a.drop_first(), b, key);
        assert((a + b).drop_first() =~= a.drop_first() + b);
        assert((a + b)[0] == a[0]);
    }
}

/// A key has the value that stands behind it and an equals sign, up to the next
/// ampersand; of several values the first counts. Other keys, and pieces without a
/// value, do not.
pub proof fn law_query_holds_what_its_pieces_say(
    key: Seq<char>,
    name: Seq<char>,
    value: Seq<char>,
    front: Seq<char>,
    rest: Seq<char>,
)
    requires
        !name.contains('='),
        !name.contains('&'),
        !value.contains('&'),
    ensures
        query_value(name + "="@ + value, key) == (if name == key {
            Some(value)
        } else {
            None
        }),
        query_value(name, key) is None,
        query_value(front + "&"@ + rest, key) == (match query_value(front, key) {
            Some(v) => Some(v),
            None => query_value(rest, key),
        }),
{
    reveal_strlit("=");
    reveal_strlit("&");
    assert("&"@ =~= seq!['&']);
    let piece = name + "="@ + value;
    let n = name.len() as int;
    assert forall|i: int| 0 <= i < piece.len() implies #[trigger] piece[i] != '&' by {
        if i < n {
            assert(name.contains(name[i]));
        } else if i > n {
            assert(value.contains(value[i - n - 1]));
        }
    }
    assert forall|i: int| 0 <= i < n implies #[trigger] piece[i] != '=' by {
        assert(name.contains(name[i]));
    }
    assert(piece[n] == '=');
    lemma_is_first_position(piece, '=', n);
    assert(piece.take(n) =~= name);
    assert(piece.skip(n + 1) =~= value);
    lemma_split_one(piece, '&');
    lemma_split_one(name, '&');
    assert forall|i: int| 0 <= i < n implies #[trigger] name[i] != '=' by {
        assert(name.contains(name[i]));
    }
    lemma_is_first_position(name, '=', n);
    reveal_with_fuel(first_value, 2);
    assert(seq![piece].drop_first().len() == 0);
    assert(seq![name].drop_first().len() == 0);
    lemma_split_append(front, rest, '&');
    lemma_first_value(split_on(front, '&'), split_on(rest, '&'), key);
}

/// A request without a run's id is for the default run.
pub proof fn law_run_is_the_default_one_unless_named(id: Seq<char>)
    ensures
        planned_id(Some(id)) == id,
        planned_id(None) == "default"@,
{
}

/// The name that an address belongs to is that of an endpoint with this address,
/// and the last such one; without a name, no endpoint has it.
pub proof fn law_address_belongs_to_an_endpoint(
    endpoints: Seq<RawEndpointView>,
    addresses: Map<Seq<char>, u32>,
    ip: u32,
)
    ensures
        match name_of_address(endpoints, addresses, ip) {
            Some(name) => exists|i: int|
                #![trigger endpoints[i]]
                0 <= i < endpoints.len() && endpoints[i].raw_domain == name && address_of(
                    addresses,
                    name,
                ) == ip && forall|j: int|
                    i < j < endpoints.len() ==> address_of(
                        addresses,
                        (#[trigger] endpoints[j]).raw_domain,
                    ) != ip,
            None => forall|j: int|
                0 <= j < endpoints.len() ==> address_of(
                    addresses,
                    (#[trigger] endpoints[j]).raw_domain,
                ) != ip,
        },
    decreases endpoints.len(),
{
    if endpoints.len() > 0 {
        let front = endpoints.drop_last();
        let last = endpoints.len() - 1;
        law_address_belongs_to_an_endpoint(front, addresses, ip);
        if address_of(addresses, endpoints.last().raw_domain) == ip {
            assert(endpoints[last].raw_domain == endpoints.last().raw_domain);
        } else {
            assert forall|j: int| 0 <= j < last implies #[trigger] endpoints[j] == front[j] by {}
            match name_of_address(front, addresses, ip) {
                Some(name) => {
                    let i = choose|i: int|
                        #![trigger front[i]]
                        0 <= i < front.len() && front[i].raw_domain == name && address_of(
                            addresses,
                            name,
                        ) == ip && forall|j: int|
                            i < j < front.len() ==> address_of(
                                addresses,
                                (#[trigger] front[j]).raw_domain,
                            ) != ip;
                    assert(endpoints[i].raw_domain == name);
                },
                None => {},
            }
        }
    }
}

} // verus!
