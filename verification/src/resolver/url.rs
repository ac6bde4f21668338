//! Names of repos by their git URL.

use vstd::prelude::*;

use crate::text::{
    after_last, after_prefix, begins_with, chars_of, finishes_with, law_suffixes_are_taken_off,
    law_tail_stands_behind_the_last, law_trimming_takes_off_white_space_only, lowercase,
    replace_first, string_of, strip_suffixes, tail_after_last, trim_end, trim_start, trimmed,
    white_space, with_first_replaced, without_suffixes,
};

verus! {

/// The folder name of a repo: the last path segment of its URL without a
/// trailing `.git`.
pub open spec fn repo_name(repo: Seq<char>) -> Seq<char> {
    without_suffixes(after_last(repo, '/'), ".git"@)
}

/// The folder name of a repo: the last path segment of its URL without a
/// trailing `.git`.
pub fn repo_name_from_url(repo: &str) -> (r: String)
    ensures
        r@ == repo_name(repo@),
{
    let cs = chars_of(repo);
    let git = chars_of(".git");
    proof {
        reveal_strlit(".git");
    }
    string_of(strip_suffixes(tail_after_last(cs.as_slice(), '/'), git.as_slice()))
}

/// A URL without its scheme.
pub open spec fn without_scheme(u: Seq<char>) -> Seq<char> {
    if begins_with(u, "ssh://"@) {
        u.skip("ssh://"@.len() as int)
    } else if begins_with(u, "https://"@) {
        u.skip("https://"@.len() as int)
    } else if begins_with(u, "http://"@) {
        u.skip("http://"@.len() as int)
    } else {
        u
    }
}

/// `git@host:path` written as `host/path`; any other text as it is.
pub open spec fn without_git_user(u: Seq<char>) -> Seq<char> {
    if begins_with(u, "git@"@) {
        with_first_replaced(u.skip("git@"@.len() as int), ':', '/')
    } else {
        u
    }
}

/// One form for all the spellings of a repo's URL.
pub open spec fn normalized(repo: Seq<char>) -> Seq<char> {
    let u = without_git_user(without_scheme(trimmed(repo)));
    lowercase(without_suffixes(without_suffixes(u, ".git"@), "/"@))
}

/// One form for all the spellings of a repo's URL.
pub fn normalize_repo_url(repo: &str) -> (r: String)
    ensures
        r@ == normalized(repo@),
{
    let cs = chars_of(repo);
    let u = trim_end(trim_start(cs.as_slice()));
    let ssh = chars_of("ssh://");
    let https = chars_of("https://");
    let http = chars_of("http://");
    let bare = match after_prefix(u, ssh.as_slice()) {
        Some(rest) => rest,
        None => match after_prefix(u, https.as_slice()) {
            Some(rest) => rest,
            None => match after_prefix(u, http.as_slice()) {
                Some(rest) => rest,
                None => u,
            },
        },
    };
    let user = chars_of("git@");
    let replaced: Vec<char>;
    let path: &[char] = match after_prefix(bare, user.as_slice()) {
        Some(rest) => {
            replaced = replace_first(rest, ':', '/');
            replaced.as_slice()
        },
        None => bare,
    };
    let git = chars_of(".git");
    let slash = chars_of("/");
    proof {
        reveal_strlit(".git");
        reveal_strlit("/");
    }
    let stripped = strip_suffixes(strip_suffixes(path, git.as_slice()), slash.as_slice());
    string_of(stripped).to_lowercase()
}

proof fn lemma_first_replaced(host: Seq<char>, rest: Seq<char>)
    requires
        !host.contains(':'),
    ensures
        with_first_replaced(host + seq![':'] + rest, ':', '/') == host + seq!['/'] + rest,
    decreases host.len(),
{
    let s = host + seq![':'] + rest;
    if host.len() == 0 {
        assert(s[0] == ':');
        assert(s.update(0, '/') =~= host + seq!['/'] + rest);
    } else {
        assert(s[0] == host[0]);
        assert(host.contains(host[0]));
        let tail = host.drop_first();
        assert(!tail.contains(':')) by {
            if tail.contains(':') {
                let i = choose|i: int| 0 <= i < tail.len() && tail[i] == ':';
                assert(host[i + 1] == ':');
            }
        }
        assert(s.drop_first() =~= tail + seq![':'] + rest);
        lemma_first_replaced(tail, rest);
        assert(seq![host[0]] + (tail + seq!['/'] + rest) =~= host + seq!['/'] + rest);
    }
}

/// The spellings `git@host:path.git`, `https://host/path.git` and
/// `ssh://host/path` of a repo's URL have one form.
pub proof fn law_spellings_of_a_repo_are_one(host: Seq<char>, path: Seq<char>)
    requires
        !host.contains(':'),
        !begins_with(host + "/"@, "git@"@),
        path.len() > 0 ==> !white_space(path.last()),
    ensures
        normalized("git@"@ + host + ":"@ + path + ".git"@) == normalized(
            "https://"@ + host + "/"@ + path + ".git"@,
        ),
        normalized("ssh://"@ + host + "/"@ + path) == normalized(
            "https://"@ + host + "/"@ + path + ".git"@,
        ),
{
    reveal_strlit("git@");
    reveal_strlit("ssh://");
    reveal_strlit("https://");
    reveal_strlit("http://");
    reveal_strlit(".git");
    reveal_strlit("/");
    reveal_strlit(":");
    let plain = host + "/"@ + path;
    let dotted = plain + ".git"@;
    let git = "git@"@ + host + ":"@ + path + ".git"@;
    let https = "https://"@ + host + "/"@ + path + ".git"@;
    let ssh = "ssh://"@ + host + "/"@ + path;
    assert(git[0] == 'g' && git.last() == 't');
    assert(https[0] == 'h' && https.last() == 't');
    assert(ssh[0] == 's');
    assert(ssh.last() == if path.len() > 0 {
        path.last()
    } else {
        '/'
    });
    assert(trimmed(git) == git);
    assert(trimmed(https) == https);
    assert(trimmed(ssh) == ssh);
    // The user is no scheme.
    assert(git.take(6)[0] == 'g');
    assert("ssh://"@[0] == 's');
    assert(!begins_with(git, "ssh://"@));
    assert(git.take(8)[0] == 'g' || git.len() < 8);
    assert("https://"@[0] == 'h');
    assert(!begins_with(git, "https://"@));
    assert(git.take(7)[0] == 'g');
    assert("http://"@[0] == 'h');
    assert(!begins_with(git, "http://"@));
    assert(without_scheme(git) == git);
    assert(git.take(4) =~= "git@"@);
    assert(git.skip(4) =~= host + seq![':'] + (path + ".git"@));
    lemma_first_replaced(host, path + ".git"@);
    assert(host + seq!['/'] + (path + ".git"@) =~= dotted);
    assert(without_git_user(without_scheme(git)) == dotted);
    // The schemes are taken off.
    assert(https.take(6)[0] == 'h');
    assert(!begins_with(https, "ssh://"@));
    assert(https.take(8) =~= "https://"@);
    assert(https.skip(8) =~= dotted);
    assert(ssh.take(6) =~= "ssh://"@);
    assert(ssh.skip(6) =~= plain);
    assert(without_scheme(https) == dotted);
    assert(without_scheme(ssh) == plain);
    assert(!begins_with(dotted, "git@"@)) by {
        if begins_with(dotted, "git@"@) {
            lemma_no_user(host, path + ".git"@);
            assert(host + "/"@ + (path + ".git"@) =~= dotted);
        }
    }
    assert(!begins_with(plain, "git@"@)) by {
        lemma_no_user(host, path);
    }
    // The ending is taken off, however often it is repeated.
    assert(dotted.skip(dotted.len() - 4) =~= ".git"@);
    assert(dotted.take(dotted.len() - 4) =~= plain);
    assert(without_suffixes(dotted, ".git"@) == without_suffixes(plain, ".git"@));
}

proof fn lemma_no_user(host: Seq<char>, rest: Seq<char>)
    requires
        !begins_with(host + "/"@, "git@"@),
    ensures
        !begins_with(host + "/"@ + rest, "git@"@),
{
    reveal_strlit("git@");
    reveal_strlit("/");
    let front = host + "/"@;
    let all = front + rest;
    if begins_with(all, "git@"@) {
        if front.len() >= 4 {
            assert(front.take(4) =~= all.take(4));
        } else {
            // The slash stands among the first four characters.
            let k = front.len() - 1;
            assert(front[k] == '/');
            assert(all.take(4)[k] == '/');
            assert("git@"@[k] != '/');
        }
    }
}

/// A repo is named like the last segment of its URL, with or without the ending
/// `.git`.
pub proof fn law_repo_is_named_by_its_last_segment(front: Seq<char>, name: Seq<char>)
    requires
        !name.contains('/'),
        !finishes_with(name, ".git"@),
    ensures
        repo_name(front + "/"@ + name) == name,
        repo_name(front + "/"@ + name + ".git"@) == name,
        repo_name(name) == name,
{
    reveal_strlit("/");
    reveal_strlit(".git");
    assert("/"@ =~= seq!['/']);
    let ended = name + ".git"@;
    assert(!ended.contains('/')) by {
        if ended.contains('/') {
            let i = choose|i: int| 0 <= i < ended.len() && ended[i] == '/';
            if i < name.len() {
                assert(name[i] == '/');
            } else {
                assert(ended[i] == ".git"@[i - name.len()]);
            }
        }
    }
    law_tail_stands_behind_the_last(front, name, '/');
    law_tail_stands_behind_the_last(front, ended, '/');
    law_suffixes_are_taken_off(name, ".git"@);
    assert(front + "/"@ + name + ".git"@ =~= front + seq!['/'] + ended);
}

/// The form of a repo's URL is its host and path in lower case, without scheme
/// and ending; white space around it does not matter.
pub proof fn law_form_is_host_and_path(host: Seq<char>, path: Seq<char>)
    requires
        !host.contains(':'),
        !begins_with(host + "/"@, "git@"@),
        path.len() > 0,
        !white_space(path.last()),
        path.last() != '/',
        !finishes_with(path, ".git"@),
    ensures
        normalized("https://"@ + host + "/"@ + path + ".git"@) == lowercase(host + "/"@ + path),
        normalized(" "@ + ("https://"@ + host + "/"@ + path + ".git"@) + "\n"@) == lowercase(
            host + "/"@ + path,
        ),
        normalized("http://"@ + host + "/"@ + path) == lowercase(host + "/"@ + path),
{
    reveal_strlit("git@");
    reveal_strlit("ssh://");
    reveal_strlit("https://");
    reveal_strlit("http://");
    reveal_strlit(".git");
    reveal_strlit("/");
    reveal_strlit(" ");
    reveal_strlit("\n");
    let plain = host + "/"@ + path;
    let dotted = plain + ".git"@;
    let https = "https://"@ + host + "/"@ + path + ".git"@;
    let http = "http://"@ + host + "/"@ + path;
    let none = Seq::<char>::empty();
    assert(https[0] == 'h' && https.last() == 't');
    assert(http[0] == 'h' && http.last() == path.last());
    law_trimming_takes_off_white_space_only(none, https, none);
    law_trimming_takes_off_white_space_only(" "@, https, "\n"@);
    law_trimming_takes_off_white_space_only(none, http, none);
    assert(none + https + none =~= https);
    assert(none + http + none =~= http);
    assert(https.take(6)[0] == 'h' && "ssh://"@[0] == 's');
    assert(http.take(6)[0] == 'h');
    assert(https.take(8) =~= "https://"@);
    assert(https.skip(8) =~= dotted);
    assert(http.take(7) =~= "http://"@);
    assert(http.skip(7) =~= plain);
    assert(!begins_with(http, "https://"@)) by {
        if begins_with(http, "https://"@) {
            assert(http.take(8)[4] == ':' && "https://"@[4] == 's');
        }
    }
    assert(without_scheme(https) == dotted);
    assert(without_scheme(http) == plain);
    lemma_no_user(host, path + ".git"@);
    lemma_no_user(host, path);
    assert(host + "/"@ + (path + ".git"@) =~= dotted);
    law_suffixes_are_taken_off(plain, ".git"@);
    assert(!finishes_with(plain, ".git"@)) by {
        if finishes_with(plain, ".git"@) {
            let end = plain.skip(plain.len() - 4);
            if path.len() >= 4 {
                assert(path.skip(path.len() - 4) =~= end);
            } else {
                let k = 3 - path.len();
                assert(end[k] == '/');
                assert(".git"@[k] != '/');
            }
        }
    }
    assert(!finishes_with(plain, "/"@)) by {
        if finishes_with(plain, "/"@) {
            assert(plain.skip(plain.len() - 1)[0] == path.last());
            assert("/"@[0] == '/');
        }
    }
    law_suffixes_are_taken_off(plain, "/"@);
}

} // verus!
