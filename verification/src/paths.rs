//! Paths, part by part.

use vstd::prelude::*;

use crate::lines::{
    law_parts_make_up_the_text, lemma_split_append, lemma_split_one, split_on, split_text,
};
use crate::strmap::lemma_take_next;
use crate::text::{chars_of, same_text};

verus! {

/// A path below a directory. An absolute path is where it is.
pub open spec fn joined_path(dir: Seq<char>, name: Seq<char>) -> Seq<char> {
    if dir.len() == 0 || (name.len() > 0 && name[0] == '/') {
        name
    } else if dir.last() == '/' {
        dir + name
    } else {
        dir + "/"@ + name
    }
}

/// A path below a directory.
pub fn join_path(dir: &str, name: &str) -> (r: String)
    ensures
        r@ == joined_path(dir@, name@),
{
    let cs = chars_of(dir);
    let ns = chars_of(name);
    if ns.len() > 0 && ns[0] == '/' {
        return name.to_owned();
    }
    let mut r = dir.to_owned();
    if cs.len() > 0 && cs[cs.len() - 1] != '/' {
        r.append("/");
    }
    r.append(name);
    proof {
        assert(r@ =~= joined_path(dir@, name@));
    }
    r
}

/// Whether a part of a path says something: an empty one and a dot do not.
pub open spec fn telling(part: Seq<char>) -> bool {
    part.len() > 0 && part != "."@
}

/// What a path begins with: a slash for the root, a dot if it is written.
pub open spec fn path_start(path: Seq<char>) -> Seq<Seq<char>> {
    if path.len() > 0 && path[0] == '/' {
        seq!["/"@]
    } else if split_on(path, '/')[0] == "."@ {
        seq!["."@]
    } else {
        Seq::empty()
    }
}

/// The parts of a path. Two texts name one path if their parts are the same.
pub open spec fn path_parts(path: Seq<char>) -> Seq<Seq<char>> {
    path_start(path) + split_on(path, '/').filter(|part: Seq<char>| telling(part))
}

/// The parts of a path.
pub fn parts_of(path: &str) -> (r: Vec<String>)
    ensures
        r.deep_view() == path_parts(path@),
{
    let cs = chars_of(path);
    let pieces = split_text(cs.as_slice(), '/');
    let ghost ps = pieces.deep_view();
    let ghost p = |part: Seq<char>| telling(part);
    let mut r: Vec<String> = Vec::new();
    proof {
        assert(ps[0] == pieces@[0]@);
    }
    if cs.len() > 0 && cs[0] == '/' {
        r.push("/".to_owned());
    } else if same_text(pieces[0].as_str(), ".") {
        r.push(".".to_owned());
    }
    let ghost start = r.deep_view();
    let mut i: usize = 0;
    proof {
        assert(start =~= path_start(path@));
        assert(start + ps.take(0).filter(p) =~= start);
    }
    while i < pieces.len()
        invariant
            i <= pieces@.len(),
            ps == pieces.deep_view(),
            p == (|part: Seq<char>| telling(part)),
            r.deep_view() == start + ps.take(i as int).filter(p),
        decreases pieces@.len() - i,
    {
        proof {
            lemma_take_next(ps, i as int);
            ps.take(i as int).lemma_filter_push(ps[i as int], p);
        }
        let piece = &pieces[i];
        let ghost before = r.deep_view();
        if !piece.as_str().is_empty() && !same_text(piece.as_str(), ".") {
            r.push(piece.clone());
            proof {
                assert(r.deep_view() =~= before.push(ps[i as int]));
                assert(r.deep_view() =~= start + ps.take(i + 1).filter(p));
            }
        }
        i += 1;
    }
    proof {
        assert(ps.take(ps.len() as int) =~= ps);
    }
    r
}

/// The last part of a path, if it is a name.
pub open spec fn file_name_of(path: Seq<char>) -> Option<Seq<char>> {
    let parts = path_parts(path);
    if parts.len() == 0 || parts.last() == "/"@ || parts.last() == "."@ || parts.last() == ".."@ {
        None
    } else {
        Some(parts.last())
    }
}

/// The last part of a path, if it is a name.
pub fn file_name(path: &str) -> (r: Option<String>)
    ensures
        r.deep_view() == file_name_of(path@),
{
    let parts = parts_of(path);
    if parts.len() == 0 {
        return None;
    }
    let last = &parts[parts.len() - 1];
    proof {
        assert(parts.deep_view().last() == last@);
    }
    if same_text(last.as_str(), "/") || same_text(last.as_str(), ".") || same_text(
        last.as_str(),
        "..",
    ) {
        None
    } else {
        Some(last.clone())
    }
}

/// Whether two texts name one path.
pub open spec fn same_path_of(a: Seq<char>, b: Seq<char>) -> bool {
    path_parts(a) == path_parts(b)
}

/// Whether a path is a directory or lies below it.
pub open spec fn path_within(path: Seq<char>, dir: Seq<char>) -> bool {
    let ps = path_parts(path);
    let ds = path_parts(dir);
    ds.len() <= ps.len() && ps.take(ds.len() as int) == ds
}

fn shared_parts(a: &Vec<String>, b: &Vec<String>) -> (r: usize)
    ensures
        r <= a@.len(),
        r <= b@.len(),
        a.deep_view().take(r as int) == b.deep_view().take(r as int),
        r < a@.len() && r < b@.len() ==> a.deep_view()[r as int] != b.deep_view()[r as int],
{
    let ghost av = a.deep_view();
    let ghost bv = b.deep_view();
    let mut i: usize = 0;
    proof {
        assert(av.take(0) =~= bv.take(0));
    }
    while i < a.len() && i < b.len() && same_text(a[i].as_str(), b[i].as_str())
        invariant
            i <= a@.len(),
            i <= b@.len(),
            av == a.deep_view(),
            bv == b.deep_view(),
            av.take(i as int) == bv.take(i as int),
        decreases a@.len() - i,
    {
        proof {
            assert(av[i as int] == bv[i as int]);
            assert(av.take(i + 1) =~= av.take(i as int).push(av[i as int]));
            assert(bv.take(i + 1) =~= bv.take(i as int).push(bv[i as int]));
        }
        i += 1;
    }
    i
}

/// Whether two texts name one path.
pub fn same_path(a: &str, b: &str) -> (r: bool)
    ensures
        r == same_path_of(a@, b@),
{
    let x = parts_of(a);
    let y = parts_of(b);
    let n = shared_parts(&x, &y);
    proof {
        if n == x@.len() && n == y@.len() {
            assert(x.deep_view().take(n as int) =~= x.deep_view());
            assert(y.deep_view().take(n as int) =~= y.deep_view());
        } else {
            assert(x.deep_view().len() == x@.len() && y.deep_view().len() == y@.len());
            assert(x.deep_view() != y.deep_view());
        }
    }
    n == x.len() && n == y.len()
}

/// Whether a path is a directory or lies below it.
pub fn lies_within(path: &str, dir: &str) -> (r: bool)
    ensures
        r == path_within(path@, dir@),
{
    let ps = parts_of(path);
    let ds = parts_of(dir);
    let n = shared_parts(&ps, &ds);
    proof {
        let a = ps.deep_view();
        let b = ds.deep_view();
        if n == b.len() {
            assert(b.take(n as int) =~= b);
        } else if b.len() <= a.len() {
            assert(a.take(b.len() as int)[n as int] == a[n as int]);
        }
    }
    n == ds.len()
}

/// A plain name: the name of an entry of a directory.
pub open spec fn plain_name(name: Seq<char>) -> bool {
    name.len() > 0 && !name.contains('/') && name != "."@ && name != ".."@
}

/// What stands in a directory is one part longer than the directory, lies within
/// it, is not the directory itself, and goes by its own name.
pub proof fn law_entries_lie_within_their_directory(dir: Seq<char>, name: Seq<char>)
    requires
        dir.len() > 0,
        plain_name(name),
    ensures
        joined_path(dir, name) == dir + "/"@ + name || joined_path(dir, name) == dir + name,
        path_parts(joined_path(dir, name)) == path_parts(dir).push(name),
        path_within(joined_path(dir, name), dir),
        path_within(dir, dir),
        !path_within(dir, joined_path(dir, name)),
        !same_path_of(joined_path(dir, name), dir),
        file_name_of(joined_path(dir, name)) == Some(name),
{
    reveal_strlit("/");
    reveal_strlit(".");
    let f = |part: Seq<char>| telling(part);
    let path = joined_path(dir, name);
    let none = Seq::<Seq<char>>::empty();
    lemma_split_one(name, '/');
    assert(name.contains(name[0]));
    let slash = if dir.last() == '/' {
        dir.drop_last()
    } else {
        dir
    };
    assert(path =~= slash + seq!['/'] + name);
    lemma_split_append(slash, name, '/');
    let front = split_on(slash, '/');
    law_parts_make_up_the_text(slash, '/');
    assert(split_on(path, '/') == front.push(name)) by {
        assert(split_on(path, '/') =~= front.push(name));
    }
    front.lemma_filter_push(name, f);
    if dir.last() == '/' {
        assert(dir =~= slash + seq!['/'] + Seq::<char>::empty());
        lemma_split_append(slash, Seq::empty(), '/');
        lemma_split_one(Seq::empty(), '/');
        assert(split_on(dir, '/') =~= front.push(Seq::empty()));
        front.lemma_filter_push(Seq::empty(), f);
    }
    assert(split_on(path, '/')[0] == front[0]);
    assert(path[0] == dir[0]);
    assert(path_start(path) == path_start(dir));
    assert(path_parts(path) =~= path_parts(dir).push(name));
    assert(path_parts(path).take(path_parts(dir).len() as int) =~= path_parts(dir));
    assert(path_parts(dir).take(path_parts(dir).len() as int) =~= path_parts(dir));
    assert("/"@ =~= seq!['/']);
    assert("/"@.contains("/"@[0]));
}

/// A slash at the end of a path, and a part that stays where it is, add nothing; a part
/// that goes up is one of its own, and no name.
pub proof fn law_dots_and_slashes_add_nothing(dir: Seq<char>, name: Seq<char>)
    requires
        dir.len() > 0,
        !name.contains('/'),
    ensures
        same_path_of(dir + "/"@, dir),
        same_path_of(dir + "/"@ + "."@, dir),
        name.len() > 0 && name != "."@ ==> path_parts(dir + "/"@ + name) == path_parts(dir).push(
            name,
        ),
        file_name_of(dir + "/"@ + ".."@) is None,
        file_name_of("/"@) is None,
{
    reveal_strlit("/");
    reveal_strlit(".");
    reveal_strlit("..");
    assert("/"@ =~= seq!['/']);
    let none = Seq::<char>::empty();
    lemma_appended_part(dir, none);
    assert(dir + seq!['/'] + none =~= dir + "/"@);
    assert(!none.contains('/'));
    lemma_appended_part(dir, "."@);
    lemma_appended_part(dir, ".."@);
    lemma_appended_part(dir, name);
    assert(path_parts(dir + "/"@ + ".."@).last() == ".."@);
    let f = |part: Seq<char>| telling(part);
    lemma_split_append(none, none, '/');
    lemma_split_one(none, '/');
    assert(none + seq!['/'] + none =~= "/"@);
    let parts = split_on("/"@, '/');
    assert(parts =~= Seq::<Seq<char>>::empty().push(none).push(none));
    Seq::<Seq<char>>::empty().lemma_filter_push(none, f);
    Seq::<Seq<char>>::empty().push(none).lemma_filter_push(none, f);
    assert(Seq::<Seq<char>>::empty().filter(f).len() == 0) by {
        reveal(Seq::filter);
    }
    assert(path_parts("/"@) =~= seq!["/"@]);
}

/// What stands behind a slash is one more part, if it tells anything.
proof fn lemma_appended_part(dir: Seq<char>, name: Seq<char>)
    requires
        dir.len() > 0,
        !name.contains('/'),
    ensures
        path_parts(dir + seq!['/'] + name) == (if name.len() > 0 && name != "."@ {
            path_parts(dir).push(name)
        } else {
            path_parts(dir)
        }),
{
    let f = |part: Seq<char>| telling(part);
    let path = dir + seq!['/'] + name;
    let parts = split_on(dir, '/');
    lemma_split_append(dir, name, '/');
    lemma_split_one(name, '/');
    law_parts_make_up_the_text(dir, '/');
    assert(split_on(path, '/') =~= parts.push(name));
    parts.lemma_filter_push(name, f);
    assert(path[0] == dir[0]);
    assert(split_on(path, '/')[0] == parts[0]);
    assert(path_start(path) == path_start(dir));
    assert(path_parts(path) =~= if name.len() > 0 && name != "."@ {
        path_parts(dir).push(name)
    } else {
        path_parts(dir)
    });
}

} // verus!
