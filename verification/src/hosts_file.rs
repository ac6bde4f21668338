//! The block of host names that the daemon owns in the hosts file.

use vstd::prelude::*;

use crate::lines::{
    block_lines, inside_lines, is_marker, join_lines, lemma_block_is_inside, lemma_body_is_found,
    lemma_inside_append, lemma_outside_append, lemma_outside_lines, lemma_unlines_append,
    lemma_whole_lines_are_kept, lemma_written_lines_are_read, lines_of, no_markers, one_line,
    outside_lines, plain_line, plain_lines, split_lines, strip_blocks, unlines, whole_lines,
    without_cr, MarkersView,
};
use crate::strmap::{
    ascending, lemma_ascending_len, lemma_ascending_of_set, lemma_take_next, sorted_unique,
};
use crate::text::{
    after_prefix, begins_with, chars_of, concat_text, law_trimming_takes_off_white_space_only,
    string_of, trimmed, trimmed_end, trimmed_start, white_space,
};

verus! {

/// The line before the managed block.
pub const BEGIN_MARKER: &'static str = "# fghj-managed-begin";

/// The line behind the managed block.
pub const END_MARKER: &'static str = "# fghj-managed-end";

/// Where the hosts file is.
pub fn hosts_path() -> (r: String)
    ensures
        r@ == "/etc/hosts"@,
{
    "/etc/hosts".to_owned()
}

/// The markers of the managed block, recognised with white space around them.
pub open spec fn host_markers() -> MarkersView {
    MarkersView { begin: BEGIN_MARKER@, end: END_MARKER@, trimmed: true }
}

/// The line that sends a host to this machine.
pub open spec fn host_line(host: Seq<char>) -> Seq<char> {
    "127.0.0.1 "@ + host
}

/// The managed block for some hosts: one line for each, in ascending order,
/// between the markers. No hosts, no block.
pub open spec fn host_block(hosts: Seq<Seq<char>>) -> Seq<Seq<char>> {
    if hosts.len() == 0 {
        Seq::empty()
    } else {
        seq![BEGIN_MARKER@] + ascending(hosts.to_set()).map_values(
            |h: Seq<char>| host_line(h),
        ) + seq![END_MARKER@]
    }
}

/// The hosts file with the managed block for `hosts`: every line outside the
/// block as it was, the block behind them.
pub open spec fn synced(existing: Seq<char>, hosts: Seq<Seq<char>>) -> Seq<char> {
    unlines(outside_lines(host_markers(), lines_of(existing)) + host_block(hosts))
}

/// The hosts file with the managed block for `hosts`.
pub fn sync(existing: &str, hosts: &Vec<String>) -> (r: String)
    ensures
        r@ == synced(existing@, hosts.deep_view()),
{
    let ls = split_lines(existing);
    let mut out = strip_blocks(&ls, BEGIN_MARKER, END_MARKER, true);
    let ghost kept = out.deep_view();
    if hosts.len() > 0 {
        let sorted = sorted_unique(hosts);
        let ghost hs = sorted.deep_view();
        let ghost f = |h: Seq<char>| host_line(h);
        out.push(BEGIN_MARKER.to_owned());
        proof {
            assert(out.deep_view() =~= kept + (seq![BEGIN_MARKER@] + hs.take(0).map_values(f)));
        }
        let mut i: usize = 0;
        while i < sorted.len()
            invariant
                i <= sorted@.len(),
                hs == sorted.deep_view(),
                f == (|h: Seq<char>| host_line(h)),
                out.deep_view() == kept + (seq![BEGIN_MARKER@] + hs.take(i as int).map_values(f)),
            decreases sorted@.len() - i,
        {
            let ghost before = out.deep_view();
            let line = concat_text("127.0.0.1 ", sorted[i].as_str());
            out.push(line);
            proof {
                lemma_take_next(hs, i as int);
                assert(line@ == f(hs[i as int]));
                assert(out.deep_view() =~= before.push(line@));
                assert(out.deep_view() =~= kept + (seq![BEGIN_MARKER@] + hs.take(i + 1).map_values(
                    f,
                )));
            }
            i += 1;
        }
        let ghost before = out.deep_view();
        out.push(END_MARKER.to_owned());
        proof {
            assert(hs.take(hs.len() as int) =~= hs);
            assert(out.deep_view() =~= before.push(END_MARKER@));
            assert(out.deep_view() =~= kept + host_block(hosts.deep_view()));
        }
    } else {
        proof {
            assert(kept + host_block(hosts.deep_view()) =~= kept);
        }
    }
    join_lines(&out)
}

proof fn lemma_trimmed_end_keeps_the_start(s: Seq<char>)
    requires
        s.len() > 0,
        !white_space(s[0]),
    ensures
        trimmed_end(s).len() > 0,
        trimmed_end(s)[0] == s[0],
    decreases s.len(),
{
    if white_space(s.last()) {
        assert(s.drop_last().len() > 0);
        assert(s.drop_last()[0] == s[0]);
        lemma_trimmed_end_keeps_the_start(s.drop_last());
    }
}

/// A line that sends a host to this machine is no marker, with or without a
/// carriage return that may end it.
proof fn lemma_host_line_is_no_marker(host: Seq<char>)
    ensures
        !is_marker(host_markers(), without_cr(host_line(host)), BEGIN_MARKER@),
        !is_marker(host_markers(), without_cr(host_line(host)), END_MARKER@),
{
    reveal_strlit("127.0.0.1 ");
    reveal_strlit("# fghj-managed-begin");
    reveal_strlit("# fghj-managed-end");
    let l = without_cr(host_line(host));
    assert(host_line(host)[0] == '1');
    assert(l[0] == '1');
    assert(trimmed_start(l) == l);
    lemma_trimmed_end_keeps_the_start(l);
    assert(BEGIN_MARKER@[0] == '#');
    assert(END_MARKER@[0] == '#');
}

proof fn lemma_markers_are_markers()
    ensures
        is_marker(host_markers(), BEGIN_MARKER@, BEGIN_MARKER@),
        is_marker(host_markers(), END_MARKER@, END_MARKER@),
        !is_marker(host_markers(), END_MARKER@, BEGIN_MARKER@),
        plain_line(BEGIN_MARKER@),
        plain_line(END_MARKER@),
{
    reveal_strlit("# fghj-managed-begin");
    reveal_strlit("# fghj-managed-end");
    assert(trimmed(BEGIN_MARKER@) == BEGIN_MARKER@);
    assert(trimmed(END_MARKER@) == END_MARKER@);
    assert(END_MARKER@.len() != BEGIN_MARKER@.len());
}

/// Whether each host fits into one line of the file.
pub open spec fn one_line_hosts(hosts: Seq<Seq<char>>) -> bool {
    forall|i: int| 0 <= i < hosts.len() ==> one_line(#[trigger] hosts[i])
}

/// Whether each host can stand in a line of the file as it is.
pub open spec fn plain_hosts(hosts: Seq<Seq<char>>) -> bool {
    forall|i: int| 0 <= i < hosts.len() ==> plain_line(#[trigger] hosts[i])
}

/// The managed block as it is read back.
spec fn block_read(hosts: Seq<Seq<char>>) -> Seq<Seq<char>> {
    seq![BEGIN_MARKER@] + ascending(hosts.to_set()).map_values(
        |h: Seq<char>| without_cr(host_line(h)),
    ) + seq![END_MARKER@]
}

proof fn lemma_block_is_read(hosts: Seq<Seq<char>>)
    requires
        one_line_hosts(hosts),
    ensures
        forall|i: int| 0 <= i < host_block(hosts).len() ==> one_line(#[trigger] host_block(hosts)[i]),
        hosts.len() > 0 ==> host_block(hosts).map_values(|l: Seq<char>| without_cr(l))
            == block_read(hosts),
        no_markers(
            host_markers(),
            ascending(hosts.to_set()).map_values(|h: Seq<char>| without_cr(host_line(h))),
        ),
{
    vstd::seq_lib::seq_to_set_is_finite(hosts);
    lemma_ascending_of_set(hosts.to_set());
    let sorted = ascending(hosts.to_set());
    lemma_markers_are_markers();
    let block = host_block(hosts);
    let body = sorted.map_values(|h: Seq<char>| without_cr(host_line(h)));
    assert forall|i: int| 0 <= i < body.len() implies !is_marker(
        host_markers(),
        #[trigger] body[i],
        BEGIN_MARKER@,
    ) && !is_marker(host_markers(), body[i], END_MARKER@) by {
        lemma_host_line_is_no_marker(sorted[i]);
    }
    assert forall|i: int| 0 <= i < block.len() implies one_line(#[trigger] block[i]) by {
        if 0 < i < block.len() - 1 {
            let h = sorted[i - 1];
            assert(block[i] == host_line(h));
            assert(sorted.to_set().contains(h));
            assert(hosts.to_set().contains(h));
            let j = choose|j: int| 0 <= j < hosts.len() && hosts[j] == h;
            assert(one_line(hosts[j]));
            reveal_strlit("127.0.0.1 ");
            let l = host_line(h);
            assert forall|k: int| 0 <= k < l.len() implies #[trigger] l[k] != '\n' by {
                if k >= "127.0.0.1 "@.len() {
                    assert(l[k] == h[k - "127.0.0.1 "@.len()]);
                }
            }
        } else if i == 0 {
            assert(block[i] == BEGIN_MARKER@);
        } else {
            assert(block[i] == END_MARKER@);
        }
    }
    if hosts.len() > 0 {
        assert(without_cr(BEGIN_MARKER@) == BEGIN_MARKER@);
        assert(without_cr(END_MARKER@) == END_MARKER@);
        assert(block.map_values(|l: Seq<char>| without_cr(l)) =~= block_read(hosts));
    }
}

/// The lines of a file into which hosts were synced: those that it held outside
/// the block, and the block behind them.
proof fn lemma_synced_lines(existing: Seq<char>, hosts: Seq<Seq<char>>)
    requires
        plain_lines(outside_lines(host_markers(), lines_of(existing))),
        one_line_hosts(hosts),
    ensures
        lines_of(synced(existing, hosts)) == outside_lines(host_markers(), lines_of(existing)) + (
        if hosts.len() == 0 {
            Seq::empty()
        } else {
            block_read(hosts)
        }),
        outside_lines(host_markers(), lines_of(synced(existing, hosts))) == outside_lines(
            host_markers(),
            lines_of(existing),
        ),
{
    let m = host_markers();
    let kept = outside_lines(m, lines_of(existing));
    let block = host_block(hosts);
    let all = kept + block;
    let f = |l: Seq<char>| without_cr(l);
    lemma_block_is_read(hosts);
    lemma_outside_lines(m, lines_of(existing));
    assert forall|i: int| 0 <= i < all.len() implies one_line(#[trigger] all[i]) by {
        if i < kept.len() {
            assert(all[i] == kept[i]);
            assert(plain_line(kept[i]));
        } else {
            assert(all[i] == block[i - kept.len()]);
        }
    }
    lemma_written_lines_are_read(all, Seq::empty());
    assert(unlines(all) + Seq::<char>::empty() =~= unlines(all));
    assert forall|i: int| 0 <= i < kept.len() implies without_cr(kept[i]) == kept[i] by {
        assert(plain_line(kept[i]));
    }
    assert(all.map_values(f) + lines_of(Seq::empty()) =~= kept + block.map_values(f));
    lemma_outside_append(m, Seq::empty(), kept);
    assert(Seq::<Seq<char>>::empty() + kept =~= kept);
    if hosts.len() > 0 {
        lemma_markers_are_markers();
        let body = ascending(hosts.to_set()).map_values(|h: Seq<char>| without_cr(host_line(h)));
        lemma_block_is_inside(m, kept, body);
    } else {
        assert(block.map_values(f) =~= Seq::empty());
        assert(kept + Seq::<Seq<char>>::empty() =~= kept);
    }
}

/// Syncing again with the same hosts changes nothing. Lines that end in a
/// carriage return of their own are left out: reading them drops it.
pub proof fn law_sync_is_idempotent(
    existing: Seq<char>,
    hosts: Seq<Seq<char>>,
)
    requires
        plain_lines(outside_lines(host_markers(), lines_of(existing))),
        one_line_hosts(hosts),
    ensures
        synced(synced(existing, hosts), hosts) == synced(existing, hosts),
{
    lemma_synced_lines(existing, hosts);
}

/// The last sync decides: what an earlier one put into the block is gone.
pub proof fn law_later_sync_replaces_the_block(
    existing: Seq<char>,
    earlier: Seq<Seq<char>>,
    later: Seq<Seq<char>>,
)
    requires
        plain_lines(outside_lines(host_markers(), lines_of(existing))),
        one_line_hosts(earlier),
    ensures
        synced(synced(existing, earlier), later) == synced(existing, later),
{
    lemma_synced_lines(existing, earlier);
}

/// Hosts that are the same but for their order and for repetitions make the same
/// file.
pub proof fn law_order_of_hosts_does_not_matter(
    existing: Seq<char>,
    hosts: Seq<Seq<char>>,
    others: Seq<Seq<char>>,
)
    requires
        hosts.to_set() == others.to_set(),
    ensures
        synced(existing, hosts) == synced(existing, others),
{
    if hosts.len() > 0 {
        assert(hosts.to_set().contains(hosts[0]));
        assert(others.to_set().contains(hosts[0]));
    }
    if others.len() > 0 {
        assert(others.to_set().contains(others[0]));
        assert(hosts.to_set().contains(others[0]));
    }
}

/// A file of whole lines without a managed block is kept to the letter: hosts that
/// are synced into it stand in one block behind it, sorted and each once; syncing
/// the same hosts again, in any order, changes nothing; and syncing none gives the
/// file back.
pub proof fn law_file_is_kept_around_the_block(
    file: Seq<char>,
    hosts: Seq<Seq<char>>,
    again: Seq<Seq<char>>,
)
    requires
        whole_lines(file),
        no_markers(host_markers(), lines_of(file)),
        one_line_hosts(hosts),
        hosts.to_set() == again.to_set(),
    ensures
        synced(file, hosts) == file + unlines(host_block(hosts)),
        synced(synced(file, hosts), again) == synced(file, hosts),
        synced(synced(file, hosts), Seq::empty()) == file,
{
    let m = host_markers();
    let ls = lines_of(file);
    lemma_whole_lines_are_kept(file);
    lemma_outside_append(m, Seq::empty(), ls);
    assert(Seq::<Seq<char>>::empty() + ls =~= ls);
    assert(outside_lines(m, Seq::empty()) + ls =~= ls);
    lemma_unlines_append(ls, host_block(hosts));
    lemma_synced_lines(file, hosts);
    law_order_of_hosts_does_not_matter(synced(file, hosts), hosts, again);
    assert(ls + host_block(Seq::empty()) =~= ls);
}

/// The host that a line sends to this machine.
pub open spec fn host_of_line(line: Seq<char>) -> Option<Seq<char>> {
    if begins_with(line, "127.0.0.1 "@) {
        Some(line.skip("127.0.0.1 "@.len() as int))
    } else {
        None
    }
}

/// The hosts that the managed block of a file sends to this machine.
pub open spec fn managed(existing: Seq<char>) -> Seq<Seq<char>> {
    inside_lines(host_markers(), lines_of(existing)).filter_map(|l: Seq<char>| host_of_line(l))
}

/// The hosts that the managed block of a file sends to this machine.
pub fn managed_hosts(existing: &str) -> (r: Vec<String>)
    ensures
        r.deep_view() == managed(existing@),
{
    let ls = split_lines(existing);
    let inside = block_lines(&ls, BEGIN_MARKER, END_MARKER, true);
    let front = chars_of("127.0.0.1 ");
    let ghost v = inside.deep_view();
    let ghost f = |l: Seq<char>| host_of_line(l);
    let mut r: Vec<String> = Vec::new();
    let mut i: usize = 0;
    proof {
        assert(r.deep_view() =~= v.take(0).filter_map(f));
    }
    while i < inside.len()
        invariant
            i <= inside@.len(),
            v == inside.deep_view(),
            f == (|l: Seq<char>| host_of_line(l)),
            front@ == "127.0.0.1 "@,
            r.deep_view() == v.take(i as int).filter_map(f),
        decreases inside@.len() - i,
    {
        proof {
            v.lemma_filter_map_take_succ(f, i as int);
            assert(f(v[i as int]) == host_of_line(inside@[i as int]@));
        }
        let cs = chars_of(inside[i].as_str());
        match after_prefix(cs.as_slice(), front.as_slice()) {
            Some(host) => {
                let ghost before = r.deep_view();
                let host = string_of(host);
                r.push(host);
                proof {
                    assert(r.deep_view() =~= before.push(host@));
                }
            },
            None => {},
        }
        i += 1;
    }
    proof {
        assert(v.take(v.len() as int) =~= v);
    }
    r
}

proof fn lemma_host_lines_read_back(hosts: Seq<Seq<char>>)
    ensures
        hosts.map_values(|h: Seq<char>| host_line(h)).filter_map(
            |l: Seq<char>| host_of_line(l),
        ) == hosts,
    decreases hosts.len(),
{
    let line = |h: Seq<char>| host_line(h);
    let f = |l: Seq<char>| host_of_line(l);
    let body = hosts.map_values(line);
    if hosts.len() == 0 {
        assert(body =~= Seq::empty());
        assert(body.filter_map(f) =~= hosts);
    } else {
        let k = hosts.len() - 1;
        lemma_host_lines_read_back(hosts.drop_last());
        assert(body.take(k) =~= hosts.drop_last().map_values(line));
        body.lemma_filter_map_take_succ(f, k);
        assert(body.take(k + 1) =~= body);
        let l = body[k];
        let h = hosts[k];
        assert(l == host_line(h));
        assert(l.take("127.0.0.1 "@.len() as int) =~= "127.0.0.1 "@);
        assert(l.skip("127.0.0.1 "@.len() as int) =~= h);
        assert(f(l) == Some(h));
        assert(hosts =~= hosts.drop_last().push(h));
    }
}

/// The hosts that were synced are read back, in ascending order; one that ends in a
/// carriage return without it.
pub proof fn law_synced_hosts_read_back(existing: Seq<char>, hosts: Seq<Seq<char>>)
    requires
        plain_lines(outside_lines(host_markers(), lines_of(existing))),
        one_line_hosts(hosts),
    ensures
        managed(synced(existing, hosts)) == ascending(hosts.to_set()).map_values(
            |h: Seq<char>| without_cr(h),
        ),
        plain_hosts(hosts) ==> managed(synced(existing, hosts)) == ascending(hosts.to_set()),
{
    let m = host_markers();
    let kept = outside_lines(m, lines_of(existing));
    let sorted = ascending(hosts.to_set());
    let f = |l: Seq<char>| host_of_line(l);
    let read = sorted.map_values(|h: Seq<char>| without_cr(h));
    lemma_block_is_read(hosts);
    lemma_synced_lines(existing, hosts);
    lemma_outside_lines(m, lines_of(existing));
    lemma_inside_append(m, Seq::empty(), kept);
    assert(Seq::<Seq<char>>::empty() + kept =~= kept);
    assert(inside_lines(m, kept) =~= Seq::empty());
    vstd::seq_lib::seq_to_set_is_finite(hosts);
    lemma_ascending_of_set(hosts.to_set());
    if hosts.len() > 0 {
        lemma_markers_are_markers();
        let body = sorted.map_values(|h: Seq<char>| without_cr(host_line(h)));
        lemma_body_is_found(m, kept, body);
        assert(inside_lines(m, kept) + body =~= body);
        assert(body =~= read.map_values(|h: Seq<char>| host_line(h))) by {
            reveal_strlit("127.0.0.1 ");
            assert forall|i: int| 0 <= i < sorted.len() implies without_cr(
                host_line(sorted[i]),
            ) == host_line(without_cr(sorted[i])) by {
                let h = sorted[i];
                if h.len() > 0 {
                    assert(host_line(h).last() == h.last());
                    assert(host_line(h).drop_last() =~= host_line(h.drop_last()));
                } else {
                    assert(host_line(h).last() == ' ');
                }
            }
        }
        lemma_host_lines_read_back(read);
    } else {
        assert(kept + Seq::<Seq<char>>::empty() =~= kept);
        assert(sorted =~= Seq::empty()) by {
            if sorted.len() > 0 {
                assert(sorted.to_set().contains(sorted[0]));
                assert(hosts.to_set().contains(sorted[0]));
            }
        }
        assert(inside_lines(m, kept).filter_map(f) =~= Seq::empty());
        assert(read =~= Seq::empty());
    }
    if plain_hosts(hosts) {
        assert forall|i: int| 0 <= i < sorted.len() implies read[i] == sorted[i] by {
            assert(sorted.to_set().contains(sorted[i]));
            assert(hosts.to_set().contains(sorted[i]));
            let j = choose|j: int| 0 <= j < hosts.len() && hosts[j] == sorted[i];
            assert(plain_line(hosts[j]));
        }
        assert(read =~= sorted);
    }
}

/// The block stands between its two markers and leads each host, once, to the local
/// address; without hosts there is none.
pub proof fn law_block_leads_each_host_to_the_local_address(
    hosts: Seq<Seq<char>>,
    host: Seq<char>,
)
    ensures
        host_block(Seq::empty()) == Seq::<Seq<char>>::empty(),
        hosts.len() > 0 ==> {
            let block = host_block(hosts);
            &&& block.len() == hosts.to_set().len() + 2
            &&& block[0] == "# fghj-managed-begin"@
            &&& block.last() == "# fghj-managed-end"@
            &&& hosts.contains(host) ==> block.contains("127.0.0.1 "@ + host)
            &&& forall|i: int|
                0 < i < block.len() - 1 ==> exists|h: Seq<char>|
                    #[trigger] hosts.contains(h) && #[trigger] block[i] == "127.0.0.1 "@ + h
        },
{
    if hosts.len() > 0 {
        let block = host_block(hosts);
        let hs = ascending(hosts.to_set());
        vstd::seq_lib::seq_to_set_is_finite(hosts);
        lemma_ascending_of_set(hosts.to_set());
        lemma_ascending_len(hs);
        assert(block[0] == BEGIN_MARKER@);
        if hosts.contains(host) {
            assert(hs.to_set().contains(host));
            let k = choose|k: int| 0 <= k < hs.len() && hs[k] == host;
            assert(block[k + 1] == host_line(host));
        }
        assert forall|i: int| 0 < i < block.len() - 1 implies exists|h: Seq<char>|
            #[trigger] hosts.contains(h) && #[trigger] block[i] == "127.0.0.1 "@ + h by {
            let h = hs[i - 1];
            assert(block[i] == host_line(h));
            assert(hs.to_set().contains(h));
            assert(hosts.to_set().contains(h));
            assert(hosts.contains(h));
        }
    }
}

/// A marker is one with any white space around it.
pub proof fn law_indented_markers_are_markers(front: Seq<char>, back: Seq<char>)
    requires
        forall|i: int| 0 <= i < front.len() ==> white_space(#[trigger] front[i]),
        forall|i: int| 0 <= i < back.len() ==> white_space(#[trigger] back[i]),
    ensures
        is_marker(
            host_markers(),
            front + "# fghj-managed-begin"@ + back,
            host_markers().begin,
        ),
        is_marker(host_markers(), front + "# fghj-managed-end"@ + back, host_markers().end),
{
    reveal_strlit("# fghj-managed-begin");
    reveal_strlit("# fghj-managed-end");
    law_trimming_takes_off_white_space_only(front, "# fghj-managed-begin"@, back);
    law_trimming_takes_off_white_space_only(front, "# fghj-managed-end"@, back);
}

} // verus!
