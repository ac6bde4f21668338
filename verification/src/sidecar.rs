//! The proxy inside a run's network: which names it answers for.

use vstd::prelude::*;

use crate::dns::ZoneSource;
use crate::proxy::{Backend, BackendView, RouteResolver};
use crate::query::{
    at_or_below, is_under_wildcard, law_wildcard_takes_in_its_domain_and_all_below, under_wildcard,
};
use crate::text::same_text;

verus! {

/// An entry of a route table.
#[derive(Debug)]
pub struct RouteFileEntry {
    pub lookup: String,
    pub wildcard: bool,
    pub connect_host: String,
    pub connect_port: u16,
}

/// Whether an entry answers for a name: by itself, or as a wildcard.
pub open spec fn entry_matches(e: RouteFileEntry, host: Seq<char>, wildcard: bool) -> bool {
    if wildcard {
        e.wildcard && under_wildcard(host, e.lookup@)
    } else {
        !e.wildcard && e.lookup@ == host
    }
}

/// The position of the first entry that answers for a name, or the number of
/// entries.
pub open spec fn entry_position(es: Seq<RouteFileEntry>, host: Seq<char>, wildcard: bool) -> int
    decreases es.len(),
{
    if es.len() == 0 || entry_matches(es[0], host, wildcard) {
        0
    } else {
        1 + entry_position(es.drop_first(), host, wildcard)
    }
}

/// Where a name is answered: an exact entry wins over every wildcard one, and the
/// first of several wins.
pub open spec fn table_route(es: Seq<RouteFileEntry>, host: Seq<char>) -> Option<BackendView> {
    let exact = entry_position(es, host, false);
    let wild = entry_position(es, host, true);
    if exact < es.len() {
        Some(BackendView { host: es[exact].connect_host@, port: es[exact].connect_port })
    } else if wild < es.len() {
        Some(BackendView { host: es[wild].connect_host@, port: es[wild].connect_port })
    } else {
        None
    }
}

fn find_entry(es: &Vec<RouteFileEntry>, host: &str, wildcard: bool) -> (r: usize)
    ensures
        r == entry_position(es@, host@, wildcard),
        r <= es@.len(),
{
    let mut i: usize = 0;
    proof {
        assert(es@.skip(0) =~= es@);
    }
    while i < es.len()
        invariant
            i <= es@.len(),
            entry_position(es@, host@, wildcard) == i + entry_position(
                es@.skip(i as int),
                host@,
                wildcard,
            ),
        decreases es@.len() - i,
    {
        proof {
            assert(es@.skip(i as int)[0] == es@[i as int]);
            assert(es@.skip(i as int).drop_first() =~= es@.skip(i + 1));
        }
        let e = &es[i];
        let hit = if wildcard {
            e.wildcard && is_under_wildcard(host, e.lookup.as_str())
        } else {
            !e.wildcard && same_text(e.lookup.as_str(), host)
        };
        if hit {
            return i;
        }
        i += 1;
    }
    i
}

/// The route table that was last read, and the proxy's own address.
pub struct FileRoutes {
    pub own_ip: u32,
    pub routes: Vec<RouteFileEntry>,
}

impl RouteResolver for FileRoutes {
    open spec fn routed(&self, host: Seq<char>) -> Option<BackendView> {
        table_route(self.routes@, host)
    }

    fn resolve(&self, host: &str) -> (r: Option<Backend>) {
        let exact = find_entry(&self.routes, host, false);
        let i = if exact < self.routes.len() {
            exact
        } else {
            find_entry(&self.routes, host, true)
        };
        if i < self.routes.len() {
            let e = &self.routes[i];
            Some(Backend { host: e.connect_host.clone(), port: e.connect_port })
        } else {
            None
        }
    }
}

impl ZoneSource for FileRoutes {
    open spec fn answers(&self, qname: Seq<char>) -> Option<u32> {
        if table_route(self.routes@, qname) is Some {
            Some(self.own_ip)
        } else {
            None
        }
    }

    fn answer_for(&self, qname: &str) -> (r: Option<u32>) {
        match self.resolve(qname) {
            Some(_) => Some(self.own_ip),
            None => None,
        }
    }
}

/// The proxy answers for exactly the names that it routes.
pub proof fn law_answered_names_are_routed(f: FileRoutes, qname: Seq<char>)
    ensures
        f.answers(qname) is Some <==> f.routed(qname) is Some,
        f.answers(qname) matches Some(ip) ==> ip == f.own_ip,
{
}

proof fn lemma_entry_position(es: Seq<RouteFileEntry>, host: Seq<char>, wildcard: bool, k: int)
    requires
        0 <= k <= es.len(),
        k < es.len() ==> entry_matches(es[k], host, wildcard),
        forall|j: int| 0 <= j < k ==> !entry_matches(#[trigger] es[j], host, wildcard),
    ensures
        entry_position(es, host, wildcard) == k,
    decreases es.len(),
{
    if es.len() > 0 && k > 0 {
        let rest = es.drop_first();
        assert(!entry_matches(es[0], host, wildcard));
        assert forall|j: int| 0 <= j < k - 1 implies !entry_matches(
            #[trigger] rest[j],
            host,
            wildcard,
        ) by {
            assert(rest[j] == es[j + 1]);
        }
        if k < es.len() {
            assert(rest[k - 1] == es[k]);
        }
        lemma_entry_position(rest, host, wildcard, k - 1);
    }
}

/// A name goes where the first entry of just this name leads to, whatever
/// wildcards stand in the table.
pub proof fn law_exact_entry_wins(es: Seq<RouteFileEntry>, host: Seq<char>, k: int)
    requires
        0 <= k < es.len(),
        !es[k].wildcard,
        es[k].lookup@ == host,
        forall|j: int| 0 <= j < k ==> (#[trigger] es[j]).wildcard || es[j].lookup@ != host,
    ensures
        table_route(es, host) matches Some(b) && b.host == es[k].connect_host@ && b.port
            == es[k].connect_port,
{
    lemma_entry_position(es, host, false, k);
}

/// A name that has no entry of its own goes where the first wildcard of its domain
/// or of one above it leads to.
pub proof fn law_first_wildcard_entry_is_next(es: Seq<RouteFileEntry>, host: Seq<char>, k: int)
    requires
        0 <= k < es.len(),
        es[k].wildcard,
        at_or_below(host, es[k].lookup@),
        forall|j: int|
            0 <= j < es.len() ==> (#[trigger] es[j]).wildcard || es[j].lookup@ != host,
        forall|j: int|
            0 <= j < k ==> !(#[trigger] es[j]).wildcard || !at_or_below(host, es[j].lookup@),
    ensures
        table_route(es, host) matches Some(b) && b.host == es[k].connect_host@ && b.port
            == es[k].connect_port,
{
    lemma_entry_position(es, host, false, es.len() as int);
    law_wildcard_takes_in_its_domain_and_all_below(host, es[k].lookup@);
    assert forall|j: int| 0 <= j < k implies !entry_matches(#[trigger] es[j], host, true) by {
        law_wildcard_takes_in_its_domain_and_all_below(host, es[j].lookup@);
    }
    lemma_entry_position(es, host, true, k);
}

/// A name that no entry takes in is routed nowhere.
pub proof fn law_unlisted_name_is_routed_nowhere(es: Seq<RouteFileEntry>, host: Seq<char>)
    requires
        forall|j: int|
            0 <= j < es.len() ==> if (#[trigger] es[j]).wildcard {
                !at_or_below(host, es[j].lookup@)
            } else {
                es[j].lookup@ != host
            },
    ensures
        table_route(es, host) is None,
{
    assert forall|j: int| 0 <= j < es.len() implies !entry_matches(#[trigger] es[j], host, true) by {
        law_wildcard_takes_in_its_domain_and_all_below(host, es[j].lookup@);
    }
    lemma_entry_position(es, host, true, es.len() as int);
    lemma_entry_position(es, host, false, es.len() as int);
}

} // verus!
