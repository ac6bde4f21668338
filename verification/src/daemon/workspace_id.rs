//! A workspace's id.

use vstd::prelude::*;
use vstd::utf8::encode_utf8;

use crate::lines::{lemma_split_append, lemma_split_one, split_on};
use crate::number::{hex_padded, hexadecimal};
use crate::paths::{
    file_name, file_name_of, joined_path, law_entries_lie_within_their_directory, path_parts,
    plain_name, telling,
};
use crate::text::{label_text, sanitize_label, string_of};

verus! {

/// The 64-bit FNV-1a hash of bytes.
pub open spec fn fnv1a(bytes: Seq<u8>) -> u64
    decreases bytes.len(),
{
    if bytes.len() == 0 {
        0xcbf2_9ce4_8422_2325u64
    } else {
        (fnv1a(bytes.drop_last()) ^ (bytes.last() as u64)).wrapping_mul(0x100_0000_01b3u64)
    }
}

/// The 64-bit FNV-1a hash of bytes.
pub fn hash_bytes(bytes: &[u8]) -> (r: u64)
    ensures
        r == fnv1a(bytes@),
{
    let mut hash: u64 = 0xcbf2_9ce4_8422_2325;
    let mut i: usize = 0;
    while i < bytes.len()
        invariant
            i <= bytes@.len(),
            hash == fnv1a(bytes@.take(i as int)),
        decreases bytes@.len() - i,
    {
        proof {
            assert(bytes@.take(i + 1).drop_last() =~= bytes@.take(i as int));
            assert(bytes@.take(i + 1).last() == bytes@[i as int]);
        }
        hash = (hash ^ (bytes[i] as u64)).wrapping_mul(0x100_0000_01b3);
        i += 1;
    }
    proof {
        assert(bytes@.take(bytes@.len() as int) =~= bytes@);
    }
    hash
}

/// The name of a workspace's directory, or else `workspace`.
pub open spec fn stem(path: Seq<char>) -> Seq<char> {
    match file_name_of(path) {
        Some(name) => name,
        None => "workspace"@,
    }
}

/// The name of a workspace's directory, or else `workspace`.
pub fn stem_of(path: &str) -> (r: String)
    ensures
        r@ == stem(path@),
{
    match file_name(path) {
        Some(name) => name,
        None => "workspace".to_owned(),
    }
}

/// A workspace's id: its directory's name as a label, and the hash of its path.
pub open spec fn id_of(path: Seq<char>) -> Seq<char> {
    label_text(stem(path)) + "-"@ + hex_padded(fnv1a(encode_utf8(path)) as nat, 12)
}

/// A workspace's id. It depends on the path alone.
pub fn workspace_id(path: &str) -> (r: String)
    ensures
        r@ == id_of(path@),
{
    let hash = hash_bytes(path.as_bytes());
    let mut id = sanitize_label(stem_of(path).as_str());
    id.append("-");
    id.append(string_of(hexadecimal(hash, 12).as_slice()).as_str());
    id
}

/// The part of a domain that a workspace stands for.
pub open spec fn domain_label_of(path: Seq<char>) -> Seq<char> {
    label_text(stem(path))
}

/// The part of a domain that a workspace stands for.
pub fn domain_label(path: &str) -> (r: String)
    ensures
        r@ == domain_label_of(path@),
{
    sanitize_label(stem_of(path).as_str())
}

/// An id carries its workspace's label in front.
pub proof fn law_id_begins_with_the_label(path: Seq<char>)
    ensures
        crate::text::begins_with(id_of(path), domain_label_of(path) + "-"@),
{
    let front = domain_label_of(path) + "-"@;
    assert(id_of(path).take(front.len() as int) =~= front);
}

/// The hash starts at its offset basis, and each byte is mixed in before the
/// result is multiplied by its prime.
pub proof fn law_hash_takes_in_each_byte(bytes: Seq<u8>, next: u8)
    ensures
        fnv1a(Seq::empty()) == 14695981039346656037,
        fnv1a(bytes.push(next)) == ((fnv1a(bytes) ^ (next as u64)) * 1099511628211int)
            % 0x1_0000_0000_0000_0000,
{
    assert(bytes.push(next).drop_last() =~= bytes);
}

/// A workspace's label is its directory's name as a label, and the id has the hash
/// of the whole path behind it; the root directory is called `workspace`.
pub proof fn law_workspace_is_named_by_its_directory(dir: Seq<char>, name: Seq<char>)
    requires
        dir.len() > 0,
        plain_name(name),
    ensures
        domain_label_of(joined_path(dir, name)) == label_text(name),
        id_of(joined_path(dir, name)) == label_text(name) + "-"@ + hex_padded(
            fnv1a(encode_utf8(joined_path(dir, name))) as nat,
            12,
        ),
        domain_label_of("/"@) == "workspace"@,
{
    law_entries_lie_within_their_directory(dir, name);
    reveal_strlit("/");
    reveal_strlit("workspace");
    let none = Seq::<char>::empty();
    assert("/"@ =~= none + seq!['/'] + none);
    lemma_split_append(none, none, '/');
    lemma_split_one(none, '/');
    let parts = split_on("/"@, '/');
    assert(parts =~= seq![none].push(none));
    seq![none].lemma_filter_push(none, |part: Seq<char>| telling(part));
    Seq::<Seq<char>>::empty().lemma_filter_push(none, |part: Seq<char>| telling(part));
    assert(Seq::<Seq<char>>::empty().push(none) =~= seq![none]);
    assert(Seq::<Seq<char>>::empty().filter(|part: Seq<char>| telling(part)).len() == 0) by {
        reveal(Seq::filter);
    }
    assert(path_parts("/"@) =~= seq!["/"@]);
    assert(label_text("workspace"@) =~= "workspace"@);
}

} // verus!
