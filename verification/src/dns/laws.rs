//! What holds of all queries, responses and resolver files.

use vstd::prelude::*;

use crate::dns::{
    ascii_lower, bytes16, bytes32, carries_answer, certifiable, files_to_remove,
    law_resolver_file_reads_back, managed_zone, managed_zones, name_text, number16, parsed_query,
    question_name, reaction, reserved_alias, resolver_port, resolver_text, response,
    response_header, routed_zones, zone_name, zones_to_write, QueryView, ReactionView, ZoneSource,
    ZONE, ZONE_RAW,
};
use crate::number::dec;
use crate::query::{
    at_or_below, law_wildcard_takes_in_its_domain_and_all_below, under_wildcard,
};
use crate::seqs::{lemma_append_holds, lemma_filter_holds};
use crate::strmap::{ascending, lemma_ascending_is, lemma_ascending_of_set, strictly_ascending};
use crate::text::{
    begins_with, finishes_with, law_joined_texts_keep_their_order, lossy, text_lt,
};

verus! {

/// A name as it stands in a question: the length of each label before the label,
/// and a zero at the end.
pub open spec fn encoded_name(labels: Seq<Seq<u8>>) -> Seq<u8>
    decreases labels.len(),
{
    if labels.len() == 0 {
        seq![0u8]
    } else {
        seq![labels[0].len() as u8] + labels[0] + encoded_name(labels.drop_first())
    }
}

/// A packet that asks one question.
pub open spec fn encoded_query(
    id: u16,
    flags: u8,
    labels: Seq<Seq<u8>>,
    qtype: u16,
    qclass: u16,
) -> Seq<u8> {
    bytes16(id) + seq![flags, 0u8] + bytes16(1) + bytes16(0) + bytes16(0) + bytes16(0)
        + encoded_name(labels) + bytes16(qtype) + bytes16(qclass)
}

/// Whether labels can stand in a name.
pub open spec fn proper_labels(labels: Seq<Seq<u8>>) -> bool {
    forall|i: int| 0 <= i < labels.len() ==> 0 < (#[trigger] labels[i]).len() < 64
}

proof fn lemma_name_reads_back(head: Seq<u8>, labels: Seq<Seq<u8>>, tail: Seq<u8>)
    requires
        proper_labels(labels),
    ensures
        question_name(head + encoded_name(labels) + tail, head.len() as int) == Some(
            (labels, (head + encoded_name(labels)).len() as int),
        ),
    decreases labels.len(),
{
    let name = encoded_name(labels);
    let buf = head + name + tail;
    let pos = head.len() as int;
    assert(buf[pos] == name[0]);
    if labels.len() > 0 {
        let first = labels[0];
        let rest = labels.drop_first();
        assert(0 < labels[0].len() < 64);
        assert forall|i: int| 0 <= i < rest.len() implies 0 < (#[trigger] rest[i]).len() < 64 by {
            assert(rest[i] == labels[i + 1]);
        }
        let longer = head + (seq![first.len() as u8] + first);
        lemma_name_reads_back(longer, rest, tail);
        assert(longer + encoded_name(rest) + tail =~= buf);
        assert(longer + encoded_name(rest) =~= head + name);
        assert(buf.subrange(pos + 1, pos + 1 + first.len()) =~= first);
        assert(seq![first] + rest =~= labels);
    } else {
        assert(labels =~= Seq::empty());
    }
}

/// Every packet that asks one question for a name of proper labels is read, and
/// nothing of it is lost.
pub proof fn law_query_reads_back(
    id: u16,
    flags: u8,
    labels: Seq<Seq<u8>>,
    qtype: u16,
    qclass: u16,
)
    requires
        proper_labels(labels),
    ensures
        parsed_query(encoded_query(id, flags, labels, qtype, qclass)) == Some(
            (QueryView {
                id,
                opcode: (flags / 8 % 16) as u8,
                rd: flags % 2 == 1,
                qname: name_text(labels),
                qtype,
                qclass,
                question: encoded_name(labels) + bytes16(qtype) + bytes16(qclass),
            }),
        ),
{
    let head = bytes16(id) + seq![flags, 0u8] + bytes16(1) + bytes16(0) + bytes16(0) + bytes16(0);
    let name = encoded_name(labels);
    let tail = bytes16(qtype) + bytes16(qclass);
    let buf = encoded_query(id, flags, labels, qtype, qclass);
    assert(buf =~= head + name + tail);
    lemma_name_reads_back(head, labels, tail);
    let pos = (head + name).len() as int;
    assert(buf[0] == bytes16(id)[0] && buf[1] == bytes16(id)[1]);
    assert(buf[4] == bytes16(1)[0] && buf[5] == bytes16(1)[1]);
    assert(buf[pos] == bytes16(qtype)[0] && buf[pos + 1] == bytes16(qtype)[1]);
    assert(buf[pos + 2] == bytes16(qclass)[0] && buf[pos + 3] == bytes16(qclass)[1]);
    assert(buf.subrange(12, pos + 4) =~= name + bytes16(qtype) + bytes16(qclass));
}

proof fn lemma_name_is_cut(buf: Seq<u8>, pos: int, k: int)
    requires
        0 <= pos,
        0 <= k <= buf.len(),
        question_name(buf, pos) is Some,
    ensures
        pos < question_name(buf, pos)->Some_0.1 <= buf.len(),
        question_name(buf.take(k), pos) == (if k < question_name(buf, pos)->Some_0.1 {
            None
        } else {
            question_name(buf, pos)
        }),
    decreases buf.len() - pos,
{
    let n = buf[pos] as int;
    let cut = buf.take(k);
    if n != 0 {
        lemma_name_is_cut(buf, pos + 1 + n, k);
        if pos + 1 + n <= k {
            assert(cut[pos] == buf[pos]);
            assert(cut.subrange(pos + 1, pos + 1 + n) =~= buf.subrange(pos + 1, pos + 1 + n));
        }
    }
}

proof fn lemma_name_is_followed(buf: Seq<u8>, pos: int, tail: Seq<u8>)
    requires
        0 <= pos,
        question_name(buf, pos) is Some,
    ensures
        question_name(buf + tail, pos) == question_name(buf, pos),
    decreases buf.len() - pos,
{
    let n = buf[pos] as int;
    let longer = buf + tail;
    assert(longer[pos] == buf[pos]);
    if n != 0 {
        lemma_name_is_followed(buf, pos + 1 + n, tail);
        assert(longer.subrange(pos + 1, pos + 1 + n) =~= buf.subrange(pos + 1, pos + 1 + n));
    }
}

/// The question of a query is what stands behind the header, byte for byte.
pub proof fn law_question_is_part_of_the_packet(buf: Seq<u8>)
    requires
        parsed_query(buf) is Some,
    ensures
        ({
            let question = parsed_query(buf)->Some_0.question;
            &&& 12 + question.len() <= buf.len()
            &&& question == buf.subrange(12, 12 + question.len() as int)
        }),
{
    lemma_name_is_cut(buf, 12, buf.len() as int);
}

/// A packet is read up to the end of its question: cut off before that it holds
/// no query, cut off anywhere behind it holds the same one.
pub proof fn law_query_needs_all_of_its_question(buf: Seq<u8>, k: int)
    requires
        parsed_query(buf) is Some,
        0 <= k <= buf.len(),
    ensures
        parsed_query(buf.take(k)) == (if k < 12 + parsed_query(buf)->Some_0.question.len() {
            None
        } else {
            parsed_query(buf)
        }),
{
    let cut = buf.take(k);
    let pos = question_name(buf, 12)->Some_0.1;
    lemma_name_is_cut(buf, 12, k);
    if k >= 12 {
        assert(cut[0] == buf[0] && cut[1] == buf[1] && cut[2] == buf[2]);
        assert(cut[4] == buf[4] && cut[5] == buf[5]);
    }
    if k >= pos + 4 {
        assert(cut[pos] == buf[pos] && cut[pos + 1] == buf[pos + 1]);
        assert(cut[pos + 2] == buf[pos + 2] && cut[pos + 3] == buf[pos + 3]);
        assert(cut.subrange(12, pos + 4) =~= buf.subrange(12, pos + 4));
    }
}

/// Bytes behind the question do not matter.
pub proof fn law_bytes_behind_the_question_do_not_matter(buf: Seq<u8>, tail: Seq<u8>)
    requires
        parsed_query(buf) is Some,
    ensures
        parsed_query(buf + tail) == parsed_query(buf),
{
    let longer = buf + tail;
    let pos = question_name(buf, 12)->Some_0.1;
    lemma_name_is_cut(buf, 12, buf.len() as int);
    lemma_name_is_followed(buf, 12, tail);
    assert(longer[0] == buf[0] && longer[1] == buf[1] && longer[2] == buf[2]);
    assert(longer[4] == buf[4] && longer[5] == buf[5]);
    assert(longer[pos] == buf[pos] && longer[pos + 1] == buf[pos + 1]);
    assert(longer[pos + 2] == buf[pos + 2] && longer[pos + 3] == buf[pos + 3]);
    assert(longer.subrange(12, pos + 4) =~= buf.subrange(12, pos + 4));
}

/// A response carries the query's number and, behind its header, the question as
/// it was received.
pub proof fn law_response_echoes_query(q: QueryView, answer: Option<u32>)
    ensures
        response(q, answer).len() >= 12 + q.question.len(),
        number16(response(q, answer), 0) == q.id,
        response(q, answer).subrange(12, 12 + q.question.len() as int) == q.question,
{
    let r = response(q, answer);
    assert(r[0] == bytes16(q.id)[0] && r[1] == bytes16(q.id)[1]);
    assert(r.subrange(12, 12 + q.question.len() as int) =~= q.question);
}

/// A response is marked as one. It claims authority for a known name and for no
/// other, and it says that the name exists exactly if it is known.
pub proof fn law_response_claims_known_names_only(q: QueryView, answer: Option<u32>)
    ensures
        response(q, answer)[2] >= 0x80,
        response(q, answer)[2] / 4 % 2 == 1 <==> answer is Some,
        response(q, answer)[3] == (if answer is Some {
            0u8
        } else {
            3u8
        }),
{
    let r = response(q, answer);
    assert(r[2] == response_header(q, answer)[2]);
    assert(r[3] == response_header(q, answer)[3]);
}

/// A response counts one answer exactly if it carries one; the answer's last four
/// bytes are the address.
pub proof fn law_response_carries_the_address(q: QueryView, answer: Option<u32>)
    ensures
        number16(response(q, answer), 6) == (if carries_answer(q, answer) {
            1u16
        } else {
            0u16
        }),
        match answer {
            Some(ip) if carries_answer(q, answer) => {
                let r = response(q, answer);
                r.subrange(r.len() - 4, r.len() as int) == bytes32(ip)
            },
            _ => response(q, answer).len() == 12 + q.question.len(),
        },
{
    let r = response(q, answer);
    let count = bytes16(
        if carries_answer(q, answer) {
            1u16
        } else {
            0u16
        },
    );
    assert(r[6] == count[0] && r[7] == count[1]);
    if carries_answer(q, answer) {
        assert(r.subrange(r.len() - 4, r.len() as int) =~= bytes32(answer->0));
    }
}

/// No name outside the reserved domains ever has a certificate, routed or not.
pub proof fn law_certificates_stay_in_reserved_domains(name: Seq<char>, routed: bool)
    ensures
        certifiable(name, routed) ==> reserved_alias(name),
{
    reveal_strlit("fghj.internal");
    reveal_strlit("internal");
    reveal_strlit(".");
    if zone_name(name) {
        let suffix = "."@ + "internal"@;
        if name == ZONE@ {
            assert(name.skip(name.len() - suffix.len()) =~= suffix);
        } else {
            let long = "."@ + ZONE@;
            assert(name.skip(name.len() - long.len()) == long);
            assert forall|i: int| 0 <= i < suffix.len() implies name.skip(
                name.len() - suffix.len(),
            )[i] == suffix[i] by {
                assert(long[i + 5] == suffix[i]);
                assert(name.skip(name.len() - long.len())[i + 5] == long[i + 5]);
            }
            assert(name.skip(name.len() - suffix.len()) =~= suffix);
        }
        assert(finishes_with(name, suffix));
        assert(under_wildcard(name, "internal"@));
    }
}

/// No name of the raw zone ever has a certificate, routed or not.
pub proof fn law_raw_names_are_never_certified(name: Seq<char>, routed: bool)
    requires
        under_wildcard(name, ZONE_RAW@),
    ensures
        !certifiable(name, routed),
{
    reveal_strlit("fghj.internal");
    reveal_strlit("fghj.raw.internal");
    reveal_strlit(".");
    let raw = "."@ + ZONE_RAW@;
    let long = "."@ + ZONE@;
    if zone_name(name) {
        let n = name.len() as int;
        // The tenth character from the end differs in the two zones.
        if name == ZONE_RAW@ {
            assert(name[n - 10] == 'w');
            assert(name.skip(n - long.len())[4] == long[4]);
        } else {
            assert(name.skip(n - raw.len())[8] == raw[8]);
            if name == ZONE@ {
                assert(name.len() < raw.len());
            } else {
                assert(name.skip(n - long.len())[4] == long[4]);
            }
        }
        assert(false);
    }
}

/// What a directory holds once files were removed and others written.
pub open spec fn after_changes(
    files: Map<Seq<char>, Seq<char>>,
    write: Seq<Seq<char>>,
    content: Seq<char>,
    remove: Seq<Seq<char>>,
) -> Map<Seq<char>, Seq<char>> {
    Map::new(
        |name: Seq<char>| write.contains(name) || (files.contains_key(name) && !remove.contains(name)),
        |name: Seq<char>|
            if write.contains(name) {
                content
            } else {
                files[name]
            },
    )
}

/// What a resolver directory holds once its zones were brought up to date.
pub open spec fn synced_directory(
    files: Map<Seq<char>, Seq<char>>,
    port: u16,
    zones: Seq<Seq<char>>,
) -> Map<Seq<char>, Seq<char>> {
    after_changes(
        files,
        zones_to_write(files, resolver_text(port), zones),
        resolver_text(port),
        files_to_remove(files, zones),
    )
}

proof fn lemma_zones_to_write(
    files: Map<Seq<char>, Seq<char>>,
    content: Seq<char>,
    zones: Seq<Seq<char>>,
    name: Seq<char>,
)
    ensures
        zones_to_write(files, content, zones).contains(name) <==> zones.contains(name) && !(
        files.contains_key(name) && files[name] == content),
    decreases zones.len(),
{
    if zones.len() > 0 {
        let shorter = zones.drop_last();
        let before = zones_to_write(files, content, shorter);
        lemma_zones_to_write(files, content, shorter, name);
        lemma_zones_to_write(files, content, shorter, zones.last());
        assert(zones =~= shorter.push(zones.last()));
        assert(zones.contains(name) <==> shorter.contains(name) || name == zones.last()) by {
            if zones.contains(name) {
                let i = choose|i: int| 0 <= i < zones.len() && zones[i] == name;
                if i < shorter.len() {
                    assert(shorter[i] == name);
                }
            }
            if shorter.contains(name) {
                let i = choose|i: int| 0 <= i < shorter.len() && shorter[i] == name;
                assert(zones[i] == name);
            }
            assert(zones[zones.len() - 1] == zones.last());
        }
        let zone = zones.last();
        let longer = before.push(zone);
        assert(longer.contains(name) <==> before.contains(name) || name == zone) by {
            if before.contains(name) {
                let i = choose|i: int| 0 <= i < before.len() && before[i] == name;
                assert(longer[i] == name);
            }
            assert(longer[before.len() as int] == zone);
            if longer.contains(name) {
                let i = choose|i: int| 0 <= i < longer.len() && longer[i] == name;
                if i < before.len() {
                    assert(before[i] == name);
                }
            }
        }
    }
}

proof fn lemma_files_to_remove(
    files: Map<Seq<char>, Seq<char>>,
    zones: Seq<Seq<char>>,
    name: Seq<char>,
)
    requires
        files.dom().finite(),
    ensures
        files_to_remove(files, zones).contains(name) <==> files.contains_key(name)
            && !zones.contains(name) && resolver_port(files[name]) is Some,
{
    let p = |n: Seq<char>| !zones.contains(n) && resolver_port(files[n]) is Some;
    let ks = ascending(files.dom());
    lemma_ascending_of_set(files.dom());
    let kept = files_to_remove(files, zones);
    assert(ks.to_set().contains(name) <==> ks.contains(name));
    if kept.contains(name) {
        ks.lemma_filter_contains_rev(p, name);
        let i = choose|i: int| 0 <= i < kept.len() && kept[i] == name;
        ks.lemma_filter_pred(p, i);
    }
    if ks.contains(name) && p(name) {
        let i = choose|i: int| 0 <= i < ks.len() && ks[i] == name;
        ks.lemma_filter_contains(p, i);
    }
}

/// After a sync the files of this server's own form are exactly those of the
/// zones, each with the port; files of another form under other names are as
/// they were.
pub proof fn law_sync_routes_exactly_the_zones(
    files: Map<Seq<char>, Seq<char>>,
    port: u16,
    zones: Seq<Seq<char>>,
    name: Seq<char>,
)
    requires
        files.dom().finite(),
    ensures
        ({
            let after = synced_directory(files, port, zones);
            &&& zones.contains(name) ==> after.contains_key(name) && after[name] == resolver_text(
                port,
            )
            &&& (after.contains_key(name) && resolver_port(after[name]) is Some)
                <==> zones.contains(name)
            &&& !zones.contains(name) && files.contains_key(name) && resolver_port(
                files[name],
            ) is None ==> after.contains_key(name) && after[name] == files[name]
            &&& !zones.contains(name) && !files.contains_key(name) ==> !after.contains_key(name)
        }),
{
    lemma_zones_to_write(files, resolver_text(port), zones, name);
    lemma_files_to_remove(files, zones, name);
    law_resolver_file_reads_back(port);
}

proof fn lemma_synced_directory_is_finite(
    files: Map<Seq<char>, Seq<char>>,
    port: u16,
    zones: Seq<Seq<char>>,
)
    requires
        files.dom().finite(),
    ensures
        synced_directory(files, port, zones).dom().finite(),
{
    let after = synced_directory(files, port, zones);
    let written = zones_to_write(files, resolver_text(port), zones).to_set();
    vstd::seq_lib::seq_to_set_is_finite(zones_to_write(files, resolver_text(port), zones));
    vstd::set_lib::lemma_set_subset_finite(files.dom().union(written), after.dom());
}

/// A second sync changes nothing.
pub proof fn law_second_sync_changes_nothing(
    files: Map<Seq<char>, Seq<char>>,
    port: u16,
    zones: Seq<Seq<char>>,
)
    requires
        files.dom().finite(),
    ensures
        zones_to_write(synced_directory(files, port, zones), resolver_text(port), zones)
            == Seq::<Seq<char>>::empty(),
        files_to_remove(synced_directory(files, port, zones), zones) == Seq::<Seq<char>>::empty(),
{
    let after = synced_directory(files, port, zones);
    lemma_synced_directory_is_finite(files, port, zones);
    let write = zones_to_write(after, resolver_text(port), zones);
    let remove = files_to_remove(after, zones);
    if write.len() > 0 {
        lemma_zones_to_write(after, resolver_text(port), zones, write[0]);
        law_sync_routes_exactly_the_zones(files, port, zones, write[0]);
        assert(write.contains(write[0]));
    }
    if remove.len() > 0 {
        lemma_files_to_remove(after, zones, remove[0]);
        law_sync_routes_exactly_the_zones(files, port, zones, remove[0]);
        assert(remove.contains(remove[0]));
    }
    assert(write =~= Seq::empty());
    assert(remove =~= Seq::empty());
}

proof fn lemma_managed_are_the_zones(
    files: Map<Seq<char>, Seq<char>>,
    port: u16,
    zones: Seq<Seq<char>>,
    names: Seq<Seq<char>>,
)
    requires
        strictly_ascending(names),
        forall|i: int|
            0 <= i < names.len() ==> resolver_port(files[#[trigger] names[i]]) == (
            if zones.contains(names[i]) {
                Some(port)
            } else {
                None
            }),
    ensures
        ({
            let kept = names.filter(|n: Seq<char>| zones.contains(n));
            &&& strictly_ascending(kept)
            &&& names.filter_map(|n: Seq<char>| managed_zone(files, n)) == kept.map_values(
                |n: Seq<char>| (n, port),
            )
        }),
    decreases names.len(),
{
    reveal(Seq::filter);
    let p = |n: Seq<char>| zones.contains(n);
    let f = |n: Seq<char>| managed_zone(files, n);
    let g = |n: Seq<char>| (n, port);
    if names.len() == 0 {
        assert(names.filter_map(f) =~= names.filter(p).map_values(g));
    } else {
        let front = names.drop_last();
        let last = names.last();
        assert forall|i: int| 0 <= i < front.len() implies resolver_port(
            files[#[trigger] front[i]],
        ) == (if zones.contains(front[i]) {
            Some(port)
        } else {
            None
        }) by {
            assert(front[i] == names[i]);
        }
        lemma_managed_are_the_zones(files, port, zones, front);
        let kept = front.filter(p);
        assert(names[names.len() - 1] == last);
        if p(last) {
            let longer = kept.push(last);
            assert forall|i: int, j: int|
                #![trigger longer[i], longer[j]]
                0 <= i < j < longer.len() implies text_lt(longer[i], longer[j]) by {
                if j < kept.len() {
                    assert(kept[i] == longer[i] && kept[j] == longer[j]);
                } else {
                    assert(kept.contains(kept[i]));
                    lemma_filter_holds(front, p, kept[i]);
                    let k = choose|k: int| 0 <= k < front.len() && front[k] == kept[i];
                    assert(text_lt(names[k], names[names.len() - 1]));
                }
            }
            assert(longer.map_values(g) =~= kept.map_values(g) + seq![(last, port)]);
        }
    }
}

/// After a sync the zones that are read from the directory are those that were
/// synced, in the order of their names and each once, with the port.
pub proof fn law_synced_zones_read_back(
    files: Map<Seq<char>, Seq<char>>,
    port: u16,
    zones: Seq<Seq<char>>,
)
    requires
        files.dom().finite(),
    ensures
        managed_zones(synced_directory(files, port, zones)) == ascending(
            zones.to_set(),
        ).map_values(|z: Seq<char>| (z, port)),
{
    let after = synced_directory(files, port, zones);
    lemma_synced_directory_is_finite(files, port, zones);
    let names = ascending(after.dom());
    lemma_ascending_of_set(after.dom());
    law_resolver_file_reads_back(port);
    assert forall|i: int| 0 <= i < names.len() implies resolver_port(
        after[#[trigger] names[i]],
    ) == (if zones.contains(names[i]) {
        Some(port)
    } else {
        None
    }) by {
        assert(names.to_set().contains(names[i]));
        law_sync_routes_exactly_the_zones(files, port, zones, names[i]);
    }
    lemma_managed_are_the_zones(after, port, zones, names);
    let p = |n: Seq<char>| zones.contains(n);
    let kept = names.filter(p);
    assert forall|z: Seq<char>| kept.to_set().contains(z) <==> zones.to_set().contains(z) by {
        lemma_filter_holds(names, p, z);
        law_sync_routes_exactly_the_zones(files, port, zones, z);
        assert(names.to_set().contains(z) <==> names.contains(z));
        assert(kept.to_set().contains(z) <==> kept.contains(z));
        assert(zones.to_set().contains(z) <==> zones.contains(z));
    }
    assert(kept.to_set() =~= zones.to_set());
    lemma_ascending_is(kept);
}

/// Numbers stand in a packet with the high byte first.
pub proof fn law_numbers_have_the_high_byte_first(n: u16, m: u32)
    ensures
        bytes16(n).len() == 2,
        bytes16(n)[0] * 0x100 + bytes16(n)[1] == n,
        number16(bytes16(n), 0) == n,
        bytes32(m).len() == 4,
        bytes32(m)[0] * 0x100_0000 + bytes32(m)[1] * 0x1_0000 + bytes32(m)[2] * 0x100 + bytes32(
            m,
        )[3] == m,
{
}

/// A response to a question for an address carries one record: it refers to the
/// name of the question, is an address of the internet class, holds for five
/// seconds and gives the four bytes of the address. The rest of the header says
/// that there is one question, and nothing else.
pub proof fn law_response_is_laid_out(q: QueryView, ip: u32)
    requires
        q.qtype == 1,
        q.qclass == 1,
    ensures
        ({
            let r = response(q, Some(ip));
            let n = (12 + q.question.len()) as int;
            &&& r.len() == n + 16
            &&& r[2] == 0x80 + q.opcode % 16 * 8 + 4 + (if q.rd {
                1int
            } else {
                0
            })
            &&& r[4] == 0 && r[5] == 1
            &&& r[6] == 0 && r[7] == 1
            &&& r[8] == 0 && r[9] == 0 && r[10] == 0 && r[11] == 0
            &&& r[n] == 0xc0 && r[n + 1] == 12
            &&& r[n + 2] == 0 && r[n + 3] == 1
            &&& r[n + 4] == 0 && r[n + 5] == 1
            &&& r[n + 6] == 0 && r[n + 7] == 0 && r[n + 8] == 0 && r[n + 9] == 5
            &&& r[n + 10] == 0 && r[n + 11] == 4
            &&& ip == r[n + 12] * 0x100_0000 + r[n + 13] * 0x1_0000 + r[n + 14] * 0x100 + r[n + 15]
        }),
{
}

/// A response carries no record for a name that is not known, nor to a question
/// for anything but an address of the internet class.
pub proof fn law_other_questions_get_no_record(q: QueryView, answer: Option<u32>)
    requires
        answer is None || q.qtype != 1 || q.qclass != 1,
    ensures
        ({
            let r = response(q, answer);
            &&& r.len() == 12 + q.question.len()
            &&& r[5] == 1 && r[6] == 0 && r[7] == 0
            &&& r[8] == 0 && r[9] == 0 && r[10] == 0 && r[11] == 0
            &&& r[2] % 2 == if q.rd {
                1int
            } else {
                0
            }
            &&& r[2] / 8 % 16 == q.opcode % 16
        }),
{
}

/// What is no query is passed over; a name that is known is answered, whatever the
/// case of its letters; one that is not is handed on where there is someone to hand
/// it to, and said not to exist otherwise.
pub proof fn law_known_names_are_answered<Z: ZoneSource>(
    packet: Seq<u8>,
    zones: Z,
    has_upstream: bool,
)
    ensures
        match parsed_query(packet) {
            None => reaction(packet, zones, has_upstream) is Ignore,
            Some(q) => {
                let known = zones.answers(ascii_lower(q.qname));
                &&& known is Some ==> reaction(packet, zones, has_upstream)
                    == ReactionView::Respond(response(q, known))
                &&& known is None && has_upstream ==> reaction(packet, zones, has_upstream)
                    is Forward
                &&& known is None && !has_upstream ==> reaction(packet, zones, has_upstream)
                    == ReactionView::Respond(response(q, None))
            },
        },
{
}

/// The lower case of a name differs from it in the upper-case letters alone.
pub proof fn law_only_upper_case_letters_are_lowered(s: Seq<char>)
    ensures
        ascii_lower(s).len() == s.len(),
        forall|i: int|
            0 <= i < s.len() ==> {
                let c = s[i];
                let l = #[trigger] ascii_lower(s)[i];
                &&& 'A' <= c <= 'Z' ==> l as int - 'a' as int == c as int - 'A' as int
                &&& !('A' <= c <= 'Z') ==> l == c
            },
{
}

/// The labels of a name are joined by dots, the first in front.
pub proof fn law_labels_are_joined_by_dots(first: Seq<u8>, rest: Seq<Seq<u8>>)
    ensures
        name_text(Seq::empty()) == Seq::<char>::empty(),
        name_text(seq![first]) == lossy(first),
        rest.len() > 0 ==> name_text(seq![first] + rest) == lossy(first) + "."@ + name_text(rest),
{
    let f = |l: Seq<u8>| lossy(l);
    let others = rest.map_values(f);
    law_joined_texts_keep_their_order(lossy(first), others, "."@);
    assert(seq![first].map_values(f) =~= seq![lossy(first)]);
    assert((seq![first] + rest).map_values(f) =~= seq![lossy(first)] + others);
}

/// The daemon's zone is `fghj.internal`; the reserved domains are `local`, `test`,
/// `internal` and `localhost`; each with all that is below.
pub proof fn law_zones_take_in_all_below(name: Seq<char>)
    ensures
        zone_name(name) <==> at_or_below(name, "fghj.internal"@),
        reserved_alias(name) <==> at_or_below(name, "local"@) || at_or_below(name, "test"@)
            || at_or_below(name, "internal"@) || at_or_below(name, "localhost"@),
{
    law_wildcard_takes_in_its_domain_and_all_below(name, "fghj.internal"@);
    law_wildcard_takes_in_its_domain_and_all_below(name, "local"@);
    law_wildcard_takes_in_its_domain_and_all_below(name, "test"@);
    law_wildcard_takes_in_its_domain_and_all_below(name, "internal"@);
    law_wildcard_takes_in_its_domain_and_all_below(name, "localhost"@);
}

/// A resolver file leads to the local host and a port; a file that is not of this
/// form names no port.
pub proof fn law_resolver_file_leads_to_the_local_host(port: u16, content: Seq<char>)
    ensures
        resolver_text(port) == "nameserver 127.0.0.1\nport "@ + dec(port as nat) + "\n"@,
        resolver_port(content) is Some ==> begins_with(content, "nameserver 127.0.0.1\nport "@)
            && content.last() == '\n',
{
    reveal_strlit("\n");
    if resolver_port(content) is Some {
        let rest = content.skip("nameserver 127.0.0.1\nport "@.len() as int);
        assert(rest.skip(rest.len() - 1)[0] == '\n');
        assert(rest.last() == content.last());
    }
}

/// The zones that are led to the daemon are its own two, and those of the
/// wildcards.
pub proof fn law_own_zones_are_always_routed(wildcard_zones: Seq<Seq<char>>, zone: Seq<char>)
    ensures
        routed_zones(wildcard_zones).contains(zone) <==> zone == "fghj.internal"@ || zone
            == "fghj.raw.internal"@ || wildcard_zones.contains(zone),
{
    let own = seq![ZONE@, ZONE_RAW@];
    lemma_append_holds(own, wildcard_zones, zone);
    assert(own[0] == ZONE@ && own[1] == ZONE_RAW@);
}

} // verus!
