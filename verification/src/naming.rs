//! Laws of derived names: what a source implies about what it is called.

use crate::number::{decimal, decimal_reads_back, is_digit, unsigned_32};
use crate::store::{a_clean_name_is_left_as_it_is, is_clean};
use crate::text::{before_either, begins, ends, found, joined, lemma_before_either};
use crate::text::{lemma_before_either_bounds, lemma_found, lemma_found_at, lemma_found_none};
use crate::text::{lemma_segments_around, lemma_segments_hold, lemma_segments_plain, parted};
use crate::text::{segments, without_ending};
use crate::url::{after_scheme, behind, is_scheme_char, last_two, lower, lowered, marker_at};
use crate::url::{marker_from, path_segments, repo_label, repo_name, request_of, request_text};
use crate::url::{scheme_len, scheme_of, web_segments, without_git, without_query, Forge};
use crate::url::RequestText;
use vstd::prelude::*;

verus! {

/// Whether a text can be one segment of the path of a URL.
pub open spec fn is_segment(s: Seq<char>) -> bool {
    s.len() > 0 && !s.contains('/') && !s.contains('?') && !s.contains('#')
}

/// Whether a text can be the host of a URL: where a slash or a mark stands, the
/// host has ended.
pub open spec fn is_host(s: Seq<char>) -> bool {
    !s.contains('/') && !s.contains('?') && !s.contains('#')
}

// ---------------------------------------------------------------------------
// Lemmas on URLs
// ---------------------------------------------------------------------------

/// The parts of a URL that a browser shows.
proof fn lemma_web(scheme: Seq<char>, rest: Seq<char>)
    requires
        scheme == "http"@ || scheme == "https"@,
    ensures
        scheme_len(scheme + "://"@ + rest) == Some(scheme.len()),
        scheme_of(scheme + "://"@ + rest) == Some(scheme),
        after_scheme(scheme + "://"@ + rest) == rest,
{
    reveal_strlit("http");
    reveal_strlit("https");
    reveal_strlit("://");
    let n = scheme.len() as int;
    let s = scheme + "://"@ + rest;
    assert forall|m: int| 0 <= m < n implies !begins(#[trigger] s.skip(m), "://"@) by {
        if begins(s.skip(m), "://"@) {
            assert(s.skip(m).take(3)[0] == s[m]);
        }
    }
    assert(s.skip(n).take(3) =~= "://"@);
    lemma_found_at(s, "://"@, scheme.len());
    assert forall|i: int| 0 <= i < n implies is_scheme_char(#[trigger] s[i]) by {}
    assert(lowered(s.take(n)) =~= scheme) by {
        assert forall|i: int| 0 <= i < n implies lower(s.take(n)[i]) == scheme[i] by {}
    }
    assert(s.skip(n + 3) =~= rest);
}

/// The parts of an `https` URL.
proof fn lemma_https(rest: Seq<char>)
    ensures
        scheme_len("https://"@ + rest) == Some(5nat),
        scheme_of("https://"@ + rest) == Some("https"@),
        after_scheme("https://"@ + rest) == rest,
{
    reveal_strlit("https://");
    reveal_strlit("https");
    reveal_strlit("://");
    lemma_web("https"@, rest);
    assert("https"@ + "://"@ =~= "https://"@);
}

/// A text is parted at the first separator.
proof fn lemma_parted(a: Seq<char>, c: char, b: Seq<char>)
    requires
        !a.contains(c),
    ensures
        parted(a.push(c) + b, c) == Some((a, b)),
        behind(a.push(c) + b, c) == b,
{
    let s = a.push(c) + b;
    assert forall|j: int| 0 <= j < a.len() implies s[j] != c by {
        assert(s[j] == a[j]);
    }
    assert(s[a.len() as int] == c);
    lemma_before_either(s, c, c, a.len());
    assert(s.take(a.len() as int) =~= a);
    assert(s.skip(a.len() as int + 1) =~= b);
}

/// A query does not start inside a text that has neither mark in it.
proof fn lemma_without_query(a: Seq<char>, tail: Seq<char>)
    requires
        !a.contains('?'),
        !a.contains('#'),
    ensures
        without_query(a + tail) == a + without_query(tail),
{
    let s = a + tail;
    let n = before_either(tail, '?', '#');
    lemma_before_either_bounds(tail, '?', '#');
    assert forall|j: int| 0 <= j < a.len() + n implies s[j] != '?' && s[j] != '#' by {
        if j < a.len() {
            assert(s[j] == a[j]);
        } else {
            assert(s[j] == tail[j - a.len()]);
        }
    }
    lemma_before_either(s, '?', '#', a.len() + n);
    assert(s.take((a.len() + n) as int) =~= a + tail.take(n as int));
}

/// A text with neither mark in it has no query.
proof fn lemma_no_query(a: Seq<char>)
    requires
        !a.contains('?'),
        !a.contains('#'),
    ensures
        without_query(a) == a,
{
    let none = Seq::<char>::empty();
    lemma_without_query(a, none);
    assert(a + none =~= a);
    assert(a + without_query(none) =~= a);
}

/// The path of a URL without a query is what follows the host.
proof fn lemma_behind_host(host: Seq<char>, path: Seq<char>)
    requires
        is_host(host),
        without_query(path) == path,
    ensures
        behind(without_query(host.push('/') + path), '/') == path,
{
    let front = host.push('/');
    assert forall|c: char| c == '?' || c == '#' implies !front.contains(c) by {
        if front.contains(c) {
            let k = choose|k: int| 0 <= k < front.len() && front[k] == c;
            assert(host[k] == c);
        }
    }
    lemma_without_query(front, path);
    lemma_parted(host, '/', path);
}

/// What a joined text holds is in its parts, or is the separator.
proof fn lemma_joined_contains(parts: Seq<Seq<char>>, c: char)
    requires
        c != '/',
        forall|i: int| 0 <= i < parts.len() ==> !(#[trigger] parts[i]).contains(c),
    ensures
        !joined(parts, seq!['/']).contains(c),
    decreases parts.len(),
{
    if parts.len() > 1 {
        let front = parts.drop_last();
        assert forall|i: int| 0 <= i < front.len() implies !(#[trigger] front[i]).contains(c) by {
            assert(front[i] == parts[i]);
        }
        lemma_joined_contains(front, c);
        let s = joined(parts, seq!['/']);
        let head = joined(front, seq!['/']);
        if s.contains(c) {
            let k = choose|k: int| 0 <= k < s.len() && s[k] == c;
            if k < head.len() {
                assert(head[k] == c);
            } else if k > head.len() {
                assert(parts.last()[k - head.len() - 1] == c);
            }
            assert(!parts[parts.len() - 1].contains(c));
        }
    } else if parts.len() == 1 {
        assert(!parts[0].contains(c));
    }
}

/// Segments that are joined by slashes are found again.
proof fn lemma_segments_joined(parts: Seq<Seq<char>>)
    requires
        forall|i: int| 0 <= i < parts.len() ==> is_segment(#[trigger] parts[i]),
    ensures
        segments(joined(parts, seq!['/'])) == parts,
    decreases parts.len(),
{
    if parts.len() == 0 {
        lemma_segments_plain(Seq::empty());
        assert(parts =~= Seq::<Seq<char>>::empty());
    } else if parts.len() == 1 {
        assert(is_segment(parts[0]));
        lemma_segments_plain(parts[0]);
        assert(parts =~= seq![parts[0]]);
    } else {
        let front = parts.drop_last();
        assert forall|i: int| 0 <= i < front.len() implies is_segment(#[trigger] front[i]) by {
            assert(front[i] == parts[i]);
        }
        lemma_segments_joined(front);
        let last = parts.last();
        assert(is_segment(parts[parts.len() - 1]));
        lemma_segments_plain(last);
        let head = joined(front, seq!['/']);
        lemma_segments_around(head, last);
        assert(head + seq!['/'] + last =~= head.push('/') + last);
        assert(parts =~= front + seq![last]);
    }
}

/// The name that the path of a repository implies: two segments become the
/// owner and the repository.
proof fn lemma_label(user: Seq<char>, repo: Seq<char>)
    ensures
        joined(last_two(without_git(seq![user, repo])), seq!['-']) == user + "-"@ + without_ending(
            repo,
            ".git"@,
        ),
{
    reveal_strlit("-");
    let two = without_git(seq![user, repo]);
    let last = without_ending(repo, ".git"@);
    assert(two =~= seq![user, last]);
    assert(two.drop_last() =~= seq![user]);
    reveal_with_fuel(joined, 3);
    assert("-"@ =~= seq!['-']);
    assert(joined(two, seq!['-']) =~= user + "-"@ + last);
}

/// Dropping the ending that was added gives the text back.
proof fn lemma_without_ending(s: Seq<char>, p: Seq<char>)
    ensures
        without_ending(s + p, p) == s,
{
    assert((s + p).skip(s.len() as int) =~= p);
    assert((s + p).take(s.len() as int) =~= s);
}

/// A segment with `.git` added is still a segment.
proof fn lemma_git_segment(repo: Seq<char>)
    requires
        is_segment(repo),
    ensures
        is_segment(repo + ".git"@),
{
    reveal_strlit(".git");
    let s = repo + ".git"@;
    assert forall|c: char| (c == '/' || c == '?' || c == '#') implies !s.contains(c) by {
        if s.contains(c) {
            let k = choose|k: int| 0 <= k < s.len() && s[k] == c;
            if k < repo.len() {
                assert(repo[k] == c);
            } else {
                assert(".git"@[k - repo.len()] == c);
            }
        }
    }
}

/// Two segments with a slash between them are found again.
proof fn lemma_two_segments(a: Seq<char>, b: Seq<char>)
    requires
        is_segment(a),
        is_segment(b),
    ensures
        without_query(a + "/"@ + b) == a + "/"@ + b,
        segments(a + "/"@ + b) == seq![a, b],
{
    reveal_strlit("/");
    let s = a + "/"@ + b;
    assert forall|c: char| c == '?' || c == '#' implies !s.contains(c) by {
        if s.contains(c) {
            let k = choose|k: int| 0 <= k < s.len() && s[k] == c;
            if k < a.len() {
                assert(a[k] == c);
            } else if k > a.len() {
                assert(b[k - a.len() - 1] == c);
            }
        }
    }
    lemma_no_query(s);
    assert(s =~= a.push('/') + b);
    lemma_segments_around(a, b);
    lemma_segments_plain(a);
    lemma_segments_plain(b);
    assert(seq![a] + seq![b] =~= seq![a, b]);
}

// ---------------------------------------------------------------------------
// Repositories
// ---------------------------------------------------------------------------

/// The path of `https://<host>/<user>/<repo>` has two segments.
proof fn lemma_https_segments(host: Seq<char>, user: Seq<char>, repo: Seq<char>)
    requires
        is_host(host),
        is_segment(user),
        is_segment(repo),
    ensures
        path_segments("https://"@ + host + "/"@ + user + "/"@ + repo) == seq![user, repo],
{
    reveal_strlit("/");
    let url = "https://"@ + host + "/"@ + user + "/"@ + repo;
    let path = user + "/"@ + repo;
    let rest = host.push('/') + path;
    assert(url =~= "https://"@ + rest);
    lemma_https(rest);
    lemma_two_segments(user, repo);
    lemma_behind_host(host, path);
}

/// `https://<host>/<user>/<repo>.git` is called `<user>-<repo>`.
pub proof fn an_https_repository_is_called_by_owner_and_name(
    host: Seq<char>,
    user: Seq<char>,
    repo: Seq<char>,
)
    requires
        is_host(host),
        is_segment(user),
        is_segment(repo),
    ensures
        ({
            let url = "https://"@ + host + "/"@ + user + "/"@ + repo + ".git"@;
            &&& repo_label(url) == user + "-"@ + repo
            &&& is_clean(user + "-"@ + repo) ==> repo_name(url) == Some(user + "-"@ + repo)
        }),
{
    let front = "https://"@ + host + "/"@ + user + "/"@;
    assert(front + repo + ".git"@ =~= front + (repo + ".git"@));
    lemma_git_segment(repo);
    lemma_https_segments(host, user, repo + ".git"@);
    lemma_label(user, repo + ".git"@);
    lemma_without_ending(repo, ".git"@);
    if is_clean(user + "-"@ + repo) {
        a_clean_name_is_left_as_it_is(user + "-"@ + repo);
    }
}

/// `https://<host>/<user>/<repo>`, without the suffix, is called the same.
pub proof fn the_git_suffix_makes_no_difference(
    host: Seq<char>,
    user: Seq<char>,
    repo: Seq<char>,
)
    requires
        is_host(host),
        is_segment(user),
        is_segment(repo),
        !ends(repo, ".git"@),
    ensures
        repo_name("https://"@ + host + "/"@ + user + "/"@ + repo) == repo_name(
            "https://"@ + host + "/"@ + user + "/"@ + repo + ".git"@,
        ),
{
    let front = "https://"@ + host + "/"@ + user + "/"@;
    assert(front + repo + ".git"@ =~= front + (repo + ".git"@));
    lemma_https_segments(host, user, repo);
    lemma_label(user, repo);
    lemma_git_segment(repo);
    lemma_https_segments(host, user, repo + ".git"@);
    lemma_label(user, repo + ".git"@);
    lemma_without_ending(repo, ".git"@);
}

/// `<login>@<host>:<user>/<repo>.git` is called `<user>-<repo>` too.
pub proof fn an_ssh_repository_is_called_by_owner_and_name(
    login: Seq<char>,
    host: Seq<char>,
    user: Seq<char>,
    repo: Seq<char>,
)
    requires
        !login.contains('@'),
        !login.contains('/'),
        !host.contains(':'),
        !host.contains('/'),
        is_segment(user),
        is_segment(repo),
    ensures
        ({
            let url = login + "@"@ + host + ":"@ + user + "/"@ + repo + ".git"@;
            &&& repo_label(url) == user + "-"@ + repo
            &&& is_clean(user + "-"@ + repo) ==> repo_name(url) == Some(user + "-"@ + repo)
        }),
{
    reveal_strlit("/");
    reveal_strlit("@");
    reveal_strlit(":");
    let url = login + "@"@ + host + ":"@ + user + "/"@ + repo + ".git"@;
    let path = user + "/"@ + (repo + ".git"@);
    let tail = host.push(':') + path;
    assert(url =~= login.push('@') + tail);
    lemma_git_segment(repo);
    lemma_one_slash(login, host, user, repo + ".git"@);
    assert(url =~= login + "@"@ + host + ":"@ + user + "/"@ + (repo + ".git"@));
    lemma_parted(login, '@', tail);
    lemma_parted(host, ':', path);
    lemma_two_segments(user, repo + ".git"@);
    lemma_label(user, repo + ".git"@);
    lemma_without_ending(repo, ".git"@);
    if is_clean(user + "-"@ + repo) {
        a_clean_name_is_left_as_it_is(user + "-"@ + repo);
    }
}

/// An address with a single slash in it has no scheme.
proof fn lemma_one_slash(login: Seq<char>, host: Seq<char>, user: Seq<char>, repo: Seq<char>)
    requires
        !login.contains('/'),
        !host.contains('/'),
        is_segment(user),
        is_segment(repo),
    ensures
        scheme_len(login + "@"@ + host + ":"@ + user + "/"@ + repo) is None,
{
    reveal_strlit("/");
    reveal_strlit("@");
    reveal_strlit(":");
    reveal_strlit("://");
    let a = login + "@"@ + host + ":"@ + user;
    let s = a + "/"@ + repo;
    assert forall|j: int| 0 <= j < s.len() && j != a.len() implies s[j] != '/' by {
        let n1 = login.len();
        let n2 = host.len();
        if j < a.len() {
            assert(s[j] == a[j]);
            if j < n1 {
                assert(a[j] == login[j]);
            } else if j == n1 {
            } else if j < n1 + 1 + n2 {
                assert(a[j] == host[j - n1 - 1]);
            } else if j == n1 + 1 + n2 {
            } else {
                assert(a[j] == user[j - n1 - n2 - 2]);
            }
        } else {
            assert(s[j] == repo[j - a.len() - 1]);
        }
    }
    assert forall|m: int| 0 <= m <= s.len() implies !begins(#[trigger] s.skip(m), "://"@) by {
        if begins(s.skip(m), "://"@) {
            assert(s.skip(m).take(3)[1] == s[m + 1]);
            assert(s.skip(m).take(3)[2] == s[m + 2]);
        }
    }
    lemma_found_none(s, "://"@);
}

/// The owner keeps two people's forks of one project from colliding: the names
/// of the same repository under different owners differ.
pub proof fn forks_do_not_collide(
    host: Seq<char>,
    user: Seq<char>,
    other: Seq<char>,
    repo: Seq<char>,
)
    requires
        is_host(host),
        is_segment(user),
        is_segment(other),
        is_segment(repo),
        is_clean(user + "-"@ + repo),
        is_clean(other + "-"@ + repo),
        user != other,
    ensures
        repo_name("https://"@ + host + "/"@ + user + "/"@ + repo + ".git"@) != repo_name(
            "https://"@ + host + "/"@ + other + "/"@ + repo + ".git"@,
        ),
{
    an_https_repository_is_called_by_owner_and_name(host, user, repo);
    an_https_repository_is_called_by_owner_and_name(host, other, repo);
    let a = user + "-"@ + repo;
    let b = other + "-"@ + repo;
    if a == b {
        assert(user.len() == other.len());
        assert(a.take(user.len() as int) =~= user);
        assert(b.take(other.len() as int) =~= other);
    }
}

// ---------------------------------------------------------------------------
// Pull requests
// ---------------------------------------------------------------------------

/// What stands between the repository and the number of a request.
pub open spec fn marker_text(forge: Forge) -> Seq<char> {
    match forge {
        Forge::GitHub => "/pull/"@,
        Forge::GitLab => "/-/merge_requests/"@,
    }
}

/// The segments between the repository and the number of a request.
pub open spec fn marker_segments(forge: Forge) -> Seq<Seq<char>> {
    match forge {
        Forge::GitHub => seq!["pull"@],
        Forge::GitLab => seq!["-"@, "merge_requests"@],
    }
}

/// The address of the web page of a request: a host and the segments of the
/// repository, the marker, the number, and whatever follows.
pub open spec fn request_url(
    parts: Seq<Seq<char>>,
    forge: Forge,
    number: u32,
    tail: Seq<char>,
) -> Seq<char> {
    "https://"@ + joined(parts, seq!['/']) + marker_text(forge) + decimal(number as nat) + tail
}

/// Whether some segments are a host and a repository on it. A marker among them
/// would end the repository early.
pub open spec fn is_repository(parts: Seq<Seq<char>>) -> bool {
    &&& parts.len() >= 3
    &&& forall|i: int| 0 <= i < parts.len() ==> is_segment(#[trigger] parts[i])
    &&& forall|i: int|
        3 <= i < parts.len() ==> (#[trigger] parts[i]) != "pull"@ && parts[i] != "-"@
}

/// Whether a text can follow the number in the address of a request: nothing,
/// or more of the path, a query or a fragment.
pub open spec fn is_url_tail(tail: Seq<char>) -> bool {
    tail.len() == 0 || tail[0] == '/' || tail[0] == '?' || tail[0] == '#'
}

/// Digits are neither slashes nor marks.
proof fn lemma_decimal_is_segment(n: nat)
    ensures
        is_segment(decimal(n)),
{
    decimal_reads_back(n);
    let s = decimal(n);
    assert forall|c: char| (c == '/' || c == '?' || c == '#') implies !s.contains(c) by {
        if s.contains(c) {
            let k = choose|k: int| 0 <= k < s.len() && s[k] == c;
            assert(is_digit(s[k]));
        }
    }
}

/// The marker, between slashes, comes apart into its segments.
proof fn lemma_marker_segments(head: Seq<char>, forge: Forge, rest: Seq<char>)
    ensures
        segments(head + marker_text(forge) + rest) == segments(head) + marker_segments(forge)
            + segments(rest),
        !marker_text(forge).contains('?'),
        !marker_text(forge).contains('#'),
{
    match forge {
        Forge::GitHub => {
            reveal_strlit("/pull/");
            reveal_strlit("pull");
            let m = "pull"@;
            assert(head + "/pull/"@ + rest =~= head.push('/') + (m.push('/') + rest));
            lemma_segments_around(head, m.push('/') + rest);
            lemma_segments_around(m, rest);
            lemma_segments_plain(m);
            assert(segments(head) + (seq![m] + segments(rest)) =~= segments(head) + seq![m]
                + segments(rest));
        },
        Forge::GitLab => {
            reveal_strlit("/-/merge_requests/");
            reveal_strlit("-");
            reveal_strlit("merge_requests");
            let d = "-"@;
            let m = "merge_requests"@;
            assert(head + "/-/merge_requests/"@ + rest =~= head.push('/') + (d.push('/') + (m.push(
                '/',
            ) + rest)));
            lemma_segments_around(head, d.push('/') + (m.push('/') + rest));
            lemma_segments_around(d, m.push('/') + rest);
            lemma_segments_around(m, rest);
            lemma_segments_plain(d);
            lemma_segments_plain(m);
            assert(segments(head) + (seq![d] + (seq![m] + segments(rest))) =~= segments(head)
                + seq![d, m] + segments(rest));
        },
    }
}

/// What follows a number does not change its segment.
proof fn lemma_number_first(s: Seq<char>, tail: Seq<char>)
    requires
        is_segment(s),
        is_url_tail(tail),
    ensures
        segments(s + without_query(tail)).len() > 0,
        segments(s + without_query(tail))[0] == s,
{
    let rest = without_query(tail);
    lemma_before_either_bounds(tail, '?', '#');
    lemma_segments_plain(s);
    if rest.len() == 0 {
        assert(s + rest =~= s);
    } else {
        assert(rest[0] == tail[0]);
        assert(rest[0] == '/');
        let more = rest.drop_first();
        assert(s + rest =~= s.push('/') + more);
        lemma_segments_around(s, more);
    }
}

/// No marker among the segments of the repository: the search goes past them.
proof fn lemma_marker_behind(all: Seq<Seq<char>>, parts: Seq<Seq<char>>, i: int)
    requires
        is_repository(parts),
        3 <= i <= parts.len() <= all.len(),
        all.take(parts.len() as int) == parts,
    ensures
        marker_from(all, i) == marker_from(all, parts.len() as int),
    decreases parts.len() - i,
{
    if i < parts.len() {
        assert(all[i] == all.take(parts.len() as int)[i]);
        assert(marker_at(all, i) is None);
        lemma_marker_behind(all, parts, i + 1);
    }
}

/// The web page of a request is recognised, whatever the repository is called
/// and whatever follows the number, and becomes a clone of the repository with
/// the head of the request fetched into a branch.
pub proof fn a_request_page_is_recognised(
    parts: Seq<Seq<char>>,
    forge: Forge,
    number: u32,
    tail: Seq<char>,
)
    requires
        is_repository(parts),
        is_url_tail(tail),
    ensures
        ({
            let repo_url = "https://"@ + joined(parts, seq!['/']);
            request_of(request_url(parts, forge, number, tail)) == match repo_name(repo_url) {
                Some(repo) => Some(request_text(repo_url, repo, forge, number)),
                None => None,
            }
        }),
{
    let digits = decimal(number as nat);
    let arg = request_url(parts, forge, number, tail);
    lemma_request_segments(parts, forge, number, tail);
    let all = web_segments(arg);
    let more = segments(digits + without_query(tail));
    assert(all.take(parts.len() as int) =~= parts);
    lemma_marker_behind(all, parts, 3);
    lemma_marker_found(parts, forge, more);
    let at = parts.len() as int;
    assert(all[at + forge.marker_len()] == more[0]);
    decimal_reads_back(number as nat);
    assert(unsigned_32(digits) == Some(number));
    assert("https"@ + "://"@ =~= "https://"@) by {
        reveal_strlit("https");
        reveal_strlit("://");
        reveal_strlit("https://");
    }
}

/// The marker behind the segments of a repository is found.
proof fn lemma_marker_found(parts: Seq<Seq<char>>, forge: Forge, more: Seq<Seq<char>>)
    ensures
        marker_from(parts + marker_segments(forge) + more, parts.len() as int) == Some(
            (parts.len() as int, forge),
        ),
{
    let all = parts + marker_segments(forge) + more;
    let at = parts.len() as int;
    match forge {
        Forge::GitHub => {
            assert(all[at] == "pull"@);
        },
        Forge::GitLab => {
            assert(all[at] == "-"@);
            assert(all[at + 1] == "merge_requests"@);
            reveal_strlit("-");
            reveal_strlit("pull");
            assert("-"@.len() != "pull"@.len());
        },
    }
}

/// The address of a request has no query before its number.
proof fn lemma_request_has_no_query(parts: Seq<Seq<char>>, forge: Forge, number: u32, c: char)
    requires
        is_repository(parts),
        c == '?' || c == '#',
    ensures
        !(joined(parts, seq!['/']) + marker_text(forge) + decimal(number as nat)).contains(c),
{
    let host_path = joined(parts, seq!['/']);
    let digits = decimal(number as nat);
    let plain = host_path + marker_text(forge) + digits;
    lemma_decimal_is_segment(number as nat);
    lemma_marker_segments(host_path, forge, digits);
    assert forall|i: int| 0 <= i < parts.len() implies !(#[trigger] parts[i]).contains(c) by {
        assert(is_segment(parts[i]));
    }
    lemma_joined_contains(parts, c);
    if plain.contains(c) {
        let k = choose|k: int| 0 <= k < plain.len() && plain[k] == c;
        let n = host_path.len() as int;
        let m = marker_text(forge).len() as int;
        if k < n {
            assert(host_path[k] == c);
        } else if k < n + m {
            assert(marker_text(forge)[k - n] == c);
        } else {
            assert(digits[k - n - m] == c);
        }
    }
}

/// The segments of the address of a request: those of the repository, the
/// marker, the number, and more.
proof fn lemma_request_segments(
    parts: Seq<Seq<char>>,
    forge: Forge,
    number: u32,
    tail: Seq<char>,
)
    requires
        is_repository(parts),
        is_url_tail(tail),
    ensures
        ({
            let arg = request_url(parts, forge, number, tail);
            let more = segments(decimal(number as nat) + without_query(tail));
            &&& scheme_of(arg) == Some("https"@)
            &&& web_segments(arg) == parts + marker_segments(forge) + more
            &&& more.len() > 0
            &&& more[0] == decimal(number as nat)
        }),
{
    let host_path = joined(parts, seq!['/']);
    let digits = decimal(number as nat);
    let plain = host_path + marker_text(forge) + digits;
    let rest = plain + tail;
    assert(request_url(parts, forge, number, tail) =~= "https://"@ + rest);
    lemma_https(rest);
    lemma_request_has_no_query(parts, forge, number, '?');
    lemma_request_has_no_query(parts, forge, number, '#');
    lemma_without_query(plain, tail);
    assert(plain + without_query(tail) =~= host_path + marker_text(forge) + (digits
        + without_query(tail)));
    lemma_marker_segments(host_path, forge, digits + without_query(tail));
    lemma_segments_joined(parts);
    lemma_decimal_is_segment(number as nat);
    lemma_number_first(digits, tail);
}

/// What follows an address does not change its scheme.
proof fn lemma_scheme_kept(u: Seq<char>, tail: Seq<char>)
    requires
        scheme_len(u) is Some,
    ensures
        scheme_len(u + tail) == scheme_len(u),
        scheme_of(u + tail) == scheme_of(u),
        after_scheme(u + tail) == after_scheme(u) + tail,
{
    reveal_strlit("://");
    let all = u + tail;
    let n = scheme_len(u)->0;
    lemma_found(u, "://"@);
    assert forall|m: int| 0 <= m <= n && begins(#[trigger] all.skip(m), "://"@) implies begins(
        u.skip(m),
        "://"@,
    ) by {
        assert(all.skip(m).take(3) =~= u.skip(m).take(3));
    }
    assert(all.skip(n as int).take(3) =~= u.skip(n as int).take(3));
    lemma_found_at(all, "://"@, n);
    assert forall|i: int| 0 <= i < n implies is_scheme_char(#[trigger] all[i]) by {
        assert(all[i] == u[i]);
    }
    assert(all.take(n as int) =~= u.take(n as int));
    assert(all.skip(n as int + 3) =~= u.skip(n as int + 3) + tail);
}

/// What follows an address at a boundary adds segments behind the others.
proof fn lemma_web_segments_kept(u: Seq<char>, tail: Seq<char>) -> (more: Seq<Seq<char>>)
    requires
        scheme_len(u) is Some,
        is_url_tail(tail),
    ensures
        web_segments(u + tail) == web_segments(u) + more,
{
    lemma_scheme_kept(u, tail);
    let a = after_scheme(u);
    let n = before_either(a, '?', '#');
    lemma_before_either_bounds(a, '?', '#');
    if n < a.len() {
        // The query had begun already.
        let s = a + tail;
        assert forall|j: int| 0 <= j < n implies s[j] != '?' && s[j] != '#' by {
            assert(s[j] == a[j]);
        }
        assert(s[n as int] == a[n as int]);
        lemma_before_either(s, '?', '#', n);
        assert(s.take(n as int) =~= a.take(n as int));
        let more = Seq::<Seq<char>>::empty();
        assert(web_segments(u) + more =~= web_segments(u));
        more
    } else {
        assert(without_query(a) =~= a);
        assert(!a.contains('?') && !a.contains('#'));
        lemma_without_query(a, tail);
        let rest = without_query(tail);
        lemma_before_either_bounds(tail, '?', '#');
        if rest.len() == 0 {
            assert(a + rest =~= a);
            let more = Seq::<Seq<char>>::empty();
            assert(web_segments(u) + more =~= web_segments(u));
            more
        } else {
            assert(rest[0] == tail[0]);
            assert(rest[0] == '/');
            assert(a + rest =~= a.push('/') + rest.drop_first());
            lemma_segments_around(a, rest.drop_first());
            segments(rest.drop_first())
        }
    }
}

/// A marker with something behind it is found as well where more follows.
proof fn lemma_marker_kept(parts: Seq<Seq<char>>, more: Seq<Seq<char>>, i: int)
    requires
        0 <= i,
        marker_from(parts, i) matches Some((at, forge)) && at + forge.marker_len() < parts.len(),
    ensures
        marker_from(parts + more, i) == marker_from(parts, i),
        i <= (marker_from(parts, i)->0).0,
    decreases parts.len() - i,
{
    let all = parts + more;
    if i < parts.len() {
        assert(all[i] == parts[i]);
        if marker_at(parts, i) is None {
            lemma_marker_kept(parts, more, i + 1);
            let at = (marker_from(parts, i + 1)->0).0;
            assert(i + 1 <= at < parts.len());
            assert(all[i + 1] == parts[i + 1]);
        } else {
            reveal_strlit("pull");
            reveal_strlit("-");
            if parts[i] == "-"@ {
                assert(all[i + 1] == parts[i + 1]);
            }
        }
    }
}

/// Whatever follows the address of a request at a boundary, it is the address
/// of the same request.
proof fn lemma_request_kept(u: Seq<char>, tail: Seq<char>)
    requires
        request_of(u) is Some,
        is_url_tail(tail),
    ensures
        request_of(u + tail) == request_of(u),
{
    let parts = web_segments(u);
    let more = lemma_web_segments_kept(u, tail);
    lemma_scheme_kept(u, tail);
    lemma_marker_kept(parts, more, 3);
    let (at, forge) = marker_from(parts, 3)->0;
    assert((parts + more).take(at) =~= parts.take(at));
    assert((parts + more)[at + forge.marker_len()] == parts[at + forge.marker_len()]);
}

/// A query, a fragment and anything further down the path are ignored: with them
/// the address of a request is that of the same request.
pub proof fn what_follows_a_request_is_ignored(u: Seq<char>, s: Seq<char>)
    requires
        request_of(u) is Some,
    ensures
        request_of(u + "?"@ + s) == request_of(u),
        request_of(u + "#"@ + s) == request_of(u),
        request_of(u + "/"@) == request_of(u),
        request_of(u + "/"@ + s) == request_of(u),
{
    reveal_strlit("?");
    reveal_strlit("#");
    reveal_strlit("/");
    lemma_request_kept(u, "?"@ + s);
    lemma_request_kept(u, "#"@ + s);
    lemma_request_kept(u, "/"@);
    lemma_request_kept(u, "/"@ + s);
    assert(u + "?"@ + s =~= u + ("?"@ + s));
    assert(u + "#"@ + s =~= u + ("#"@ + s));
    assert(u + "/"@ + s =~= u + ("/"@ + s));
}

/// Before the first marker there is none.
proof fn lemma_no_marker_before(parts: Seq<Seq<char>>, i: int, at: int)
    requires
        3 <= i <= at <= parts.len(),
        marker_from(parts, i) matches Some((first, _)) && first == at,
    ensures
        at < parts.len(),
        marker_from(parts.take(at), i) is None,
    decreases at - i,
{
    let front = parts.take(at);
    if i < at {
        assert(front[i] == parts[i]);
        assert(marker_at(parts, i) is None);
        if i + 1 < at {
            assert(front[i + 1] == parts[i + 1]);
        }
        lemma_no_marker_before(parts, i + 1, at);
    }
}

/// The place of a marker is one of those that were searched.
proof fn lemma_marker_place(parts: Seq<Seq<char>>, i: int)
    ensures
        marker_from(parts, i) matches Some((at, _)) ==> i <= at < parts.len(),
    decreases parts.len() - i,
{
    if i < parts.len() && marker_at(parts, i) is None {
        lemma_marker_place(parts, i + 1);
    }
}

/// A request belongs to a repository: its address is that of no request, the
/// branch and the ref are those of a number, and the name is that of the
/// repository with the branch behind it.
pub proof fn a_request_belongs_to_a_repository(arg: Seq<char>)
    requires
        request_of(arg) is Some,
    ensures
        ({
            let r = request_of(arg)->0;
            &&& request_of(r.repo_url) is None
            &&& repo_name(r.repo_url) matches Some(repo) && r.name == repo + "-"@ + r.branch
            &&& exists|forge: Forge, number: u32|
                r.branch == forge.label() + "-"@ + #[trigger] decimal(number as nat)
                    && r.remote_ref == #[trigger] forge.ref_base() + "/"@ + decimal(number as nat)
                    + "/head"@
        }),
{
    let r = request_of(arg)->0;
    let parts = web_segments(arg);
    let scheme = scheme_of(arg)->0;
    lemma_marker_place(parts, 3);
    let (at, forge) = marker_from(parts, 3)->0;
    let number = unsigned_32(parts[at + forge.marker_len()])->0;
    let repo = repo_name(r.repo_url)->0;
    let digits = decimal(number as nat);
    assert(r == request_text(r.repo_url, repo, forge, number));
    assert(r.branch == forge.label() + "-"@ + digits);
    assert(r.remote_ref == forge.ref_base() + "/"@ + digits + "/head"@);
    assert(r.name =~= repo + "-"@ + r.branch);

    // The segments of the repository are found again in its address.
    let front = parts.take(at);
    let whole = without_query(after_scheme(arg));
    lemma_before_either_bounds(after_scheme(arg), '?', '#');
    assert(!whole.contains('?') && !whole.contains('#'));
    lemma_segments_hold(whole);
    assert forall|i: int| 0 <= i < front.len() implies is_segment(#[trigger] front[i]) by {
        assert(front[i] == segments(whole)[i]);
    }
    lemma_segments_joined(front);
    let host_path = joined(front, seq!['/']);
    assert forall|i: int| 0 <= i < front.len() implies !(#[trigger] front[i]).contains('?')
        && !front[i].contains('#') by {
        assert(is_segment(front[i]));
    }
    lemma_joined_contains(front, '?');
    lemma_joined_contains(front, '#');
    lemma_no_query(host_path);
    lemma_web(scheme, host_path);
    assert(web_segments(r.repo_url) == front);
    lemma_no_marker_before(parts, 3, at);
}

/// `https://<host>/<user>/<repo>/pull/<number>` is called
/// `<user>-<repo>-pr-<number>`, and with `-/merge_requests` in place of `pull`
/// it is called `<user>-<repo>-mr-<number>`.
pub proof fn a_request_is_called_by_owner_name_and_number(
    host: Seq<char>,
    user: Seq<char>,
    repo: Seq<char>,
    forge: Forge,
    number: u32,
    tail: Seq<char>,
)
    requires
        is_segment(host),
        is_segment(user),
        is_segment(repo),
        !ends(repo, ".git"@),
        is_clean(user + "-"@ + repo),
        is_url_tail(tail),
    ensures
        request_of(
            "https://"@ + host + "/"@ + user + "/"@ + repo + marker_text(forge) + decimal(
                number as nat,
            ) + tail,
        ) == Some(
            (RequestText {
                repo_url: "https://"@ + host + "/"@ + user + "/"@ + repo,
                remote_ref: forge.ref_base() + "/"@ + decimal(number as nat) + "/head"@,
                branch: forge.label() + "-"@ + decimal(number as nat),
                name: user + "-"@ + repo + "-"@ + forge.label() + "-"@ + decimal(number as nat),
            }),
        ),
{
    let parts = seq![host, user, repo];
    let repo_url = "https://"@ + host + "/"@ + user + "/"@ + repo;
    lemma_join_three(host, user, repo);
    assert(is_repository(parts));
    a_request_page_is_recognised(parts, forge, number, tail);
    lemma_request_url(repo_url, parts, forge, number, tail);
    an_https_repository_is_called_by_owner_and_name(host, user, repo);
    the_git_suffix_makes_no_difference(host, user, repo);
}

/// A host and two segments, joined.
proof fn lemma_join_three(host: Seq<char>, user: Seq<char>, repo: Seq<char>)
    ensures
        "https://"@ + joined(seq![host, user, repo], seq!['/']) == "https://"@ + host + "/"@ + user
            + "/"@ + repo,
{
    reveal_strlit("/");
    let three = seq![host, user, repo];
    let two = seq![host, user];
    let one = seq![host];
    assert(three.drop_last() =~= two);
    assert(two.drop_last() =~= one);
    assert(joined(one, seq!['/']) == host);
    assert(joined(two, seq!['/']) == host + seq!['/'] + user);
    assert(joined(three, seq!['/']) == host + seq!['/'] + user + seq!['/'] + repo);
    assert("/"@ =~= seq!['/']);
    assert("https://"@ + joined(three, seq!['/']) =~= "https://"@ + host + "/"@ + user + "/"@
        + repo);
}

/// The address of a request starts with that of its repository.
proof fn lemma_request_url(
    repo_url: Seq<char>,
    parts: Seq<Seq<char>>,
    forge: Forge,
    number: u32,
    tail: Seq<char>,
)
    requires
        repo_url == "https://"@ + joined(parts, seq!['/']),
    ensures
        request_url(parts, forge, number, tail) == repo_url + marker_text(forge) + decimal(
            number as nat,
        ) + tail,
{
}

// ---------------------------------------------------------------------------
// Addresses in general
// ---------------------------------------------------------------------------

/// Whether a text is the scheme of a URL: letters, digits, `+`, `-` and `.`.
pub open spec fn is_scheme(s: Seq<char>) -> bool {
    &&& s.len() > 0
    &&& forall|i: int|
        0 <= i < s.len() ==> {
            let c = #[trigger] s[i];
            'a' <= c <= 'z' || 'A' <= c <= 'Z' || '0' <= c <= '9' || c == '+' || c == '-' || c == '.'
        }
}

/// The parts of a URL.
pub proof fn a_url_comes_apart(scheme: Seq<char>, rest: Seq<char>)
    requires
        is_scheme(scheme),
    ensures
        scheme_len(scheme + "://"@ + rest) == Some(scheme.len()),
        scheme_of(scheme + "://"@ + rest) is Some,
        (scheme_of(scheme + "://"@ + rest)->0).len() == scheme.len(),
        forall|i: int|
            0 <= i < scheme.len() ==> {
                let c = #[trigger] scheme[i];
                let small = (scheme_of(scheme + "://"@ + rest)->0)[i];
                if 'A' <= c <= 'Z' {
                    small as int == c as int + 32
                } else {
                    small == c
                }
            },
        after_scheme(scheme + "://"@ + rest) == rest,
{
    reveal_strlit("://");
    let n = scheme.len() as int;
    let s = scheme + "://"@ + rest;
    assert forall|m: int| 0 <= m < n implies !begins(#[trigger] s.skip(m), "://"@) by {
        if begins(s.skip(m), "://"@) {
            assert(s.skip(m).take(3)[0] == s[m]);
            assert(s[m] == scheme[m]);
        }
    }
    assert(s.skip(n).take(3) =~= "://"@);
    lemma_found_at(s, "://"@, scheme.len());
    assert forall|i: int| 0 <= i < n implies is_scheme_char(#[trigger] s[i]) by {
        assert(s[i] == scheme[i]);
    }
    assert(s.take(n) =~= scheme);
    assert(s.skip(n + 3) =~= rest);
    assert forall|i: int| 0 <= i < scheme.len() implies {
        let c = #[trigger] scheme[i];
        let small = lowered(scheme)[i];
        if 'A' <= c <= 'Z' {
            small as int == c as int + 32
        } else {
            small == c
        }
    } by {
        let c = scheme[i];
        if 'A' <= c <= 'Z' {
            assert(lowered(scheme)[i] == (c as nat + 32) as char);
        }
    }
}

/// Whether a text holds no mark that starts a query or a fragment.
pub open spec fn has_no_mark(s: Seq<char>) -> bool {
    !s.contains('?') && !s.contains('#')
}

/// Whether a text can stand in front of a segment of a path: nothing, or
/// something that ends in a slash.
pub open spec fn is_front(s: Seq<char>) -> bool {
    has_no_mark(s) && (s.len() > 0 ==> s.last() == '/')
}

/// Whether a text can follow the path of an address without adding to it:
/// slashes, and then a query or a fragment or nothing.
pub open spec fn is_idle_tail(slashes: Seq<char>, query: Seq<char>) -> bool {
    &&& forall|i: int| 0 <= i < slashes.len() ==> #[trigger] slashes[i] == '/'
    &&& query.len() > 0 ==> query[0] == '?' || query[0] == '#'
}

/// Slashes hold no segment.
proof fn lemma_slashes(s: Seq<char>)
    requires
        forall|i: int| 0 <= i < s.len() ==> #[trigger] s[i] == '/',
    ensures
        segments(s) == Seq::<Seq<char>>::empty(),
    decreases s.len(),
{
    let none = Seq::<char>::empty();
    lemma_segments_plain(none);
    if s.len() == 0 {
        assert(s =~= none);
    } else {
        let rest = s.drop_first();
        assert forall|i: int| 0 <= i < rest.len() implies #[trigger] rest[i] == '/' by {
            assert(rest[i] == s[i + 1]);
        }
        lemma_slashes(rest);
        lemma_segments_around(none, rest);
        assert(s =~= none.push('/') + rest);
        assert(segments(none) + segments(rest) =~= Seq::<Seq<char>>::empty());
    }
}

/// Slashes at the end add no segment.
proof fn lemma_trailing_slashes(s: Seq<char>, slashes: Seq<char>)
    requires
        forall|i: int| 0 <= i < slashes.len() ==> #[trigger] slashes[i] == '/',
    ensures
        segments(s + slashes) == segments(s),
{
    if slashes.len() == 0 {
        assert(s + slashes =~= s);
    } else {
        let rest = slashes.drop_first();
        assert forall|i: int| 0 <= i < rest.len() implies #[trigger] rest[i] == '/' by {
            assert(rest[i] == slashes[i + 1]);
        }
        lemma_slashes(rest);
        lemma_segments_around(s, rest);
        assert(s + slashes =~= s.push('/') + rest);
        assert(segments(s) + segments(rest) =~= segments(s));
    }
}

/// A text made of texts without marks has none.
proof fn lemma_no_mark_concat(a: Seq<char>, b: Seq<char>)
    requires
        has_no_mark(a),
        has_no_mark(b),
    ensures
        has_no_mark(a + b),
{
    assert forall|c: char| !a.contains(c) && !b.contains(c) implies !(a + b).contains(c) by {
        if (a + b).contains(c) {
            let k = choose|k: int| 0 <= k < (a + b).len() && (a + b)[k] == c;
            if k < a.len() {
                assert(a[k] == c);
            } else {
                assert(b[k - a.len()] == c);
            }
        }
    }
}

/// The segments of a path that ends in two segments, whatever stands before them.
proof fn lemma_last_two_segments(
    front: Seq<char>,
    user: Seq<char>,
    repo: Seq<char>,
    slashes: Seq<char>,
    query: Seq<char>,
)
    requires
        is_front(front),
        is_segment(user),
        is_segment(repo),
        is_idle_tail(slashes, query),
    ensures
        ({
            let path = front + user + "/"@ + repo + slashes;
            &&& has_no_mark(path)
            &&& without_query(path + query) == path
            &&& segments(path) == segments(front) + seq![user, repo]
        }),
{
    reveal_strlit("/");
    let path = front + user + "/"@ + repo + slashes;
    assert(has_no_mark("/"@));
    assert(has_no_mark(slashes));
    lemma_no_mark_concat(front, user);
    lemma_no_mark_concat(front + user, "/"@);
    lemma_no_mark_concat(front + user + "/"@, repo);
    lemma_no_mark_concat(front + user + "/"@ + repo, slashes);
    lemma_without_query(path, query);
    lemma_before_either_bounds(query, '?', '#');
    assert(without_query(query) =~= Seq::<char>::empty()) by {
        if query.len() > 0 {
            assert(before_either(query, '?', '#') == 0);
        }
    }
    assert(path + Seq::<char>::empty() =~= path);

    let two = user + "/"@ + repo;
    lemma_two_segments(user, repo);
    if front.len() == 0 {
        assert(front + user + "/"@ + repo =~= two);
        lemma_segments_plain(front);
        assert(segments(front) + seq![user, repo] =~= seq![user, repo]);
    } else {
        let head = front.drop_last();
        assert(front + user + "/"@ + repo =~= head.push('/') + two);
        lemma_segments_around(head, two);
        lemma_segments_around(head, Seq::<char>::empty());
        lemma_segments_plain(Seq::<char>::empty());
        assert(front =~= head.push('/') + Seq::<char>::empty());
        assert(segments(head) + Seq::<Seq<char>>::empty() =~= segments(head));
    }
    lemma_trailing_slashes(front + user + "/"@ + repo, slashes);
}

/// The label of an address whose path ends in two segments.
proof fn lemma_label_of_last_two(before: Seq<Seq<char>>, user: Seq<char>, repo: Seq<char>)
    ensures
        joined(last_two(without_git(before + seq![user, repo])), seq!['-']) == user + "-"@
            + without_ending(repo, ".git"@),
{
    let all = before + seq![user, repo];
    let cut = without_git(all);
    let two = without_git(seq![user, repo]);
    lemma_label(user, repo);
    assert(all.last() == repo);
    assert(last_two(cut) =~= two) by {
        assert(cut.len() == before.len() + 2);
        assert(cut[cut.len() - 1] == without_ending(repo, ".git"@));
        assert(cut[cut.len() - 2] == user);
        assert(two =~= seq![user, without_ending(repo, ".git"@)]);
    }
    assert(last_two(two) == two);
}

/// What an address is called that has this label.
pub open spec fn named(label: Seq<char>) -> Option<Seq<char>> {
    if crate::store::cleaned(label).len() > 0 {
        Some(crate::store::cleaned(label))
    } else {
        None
    }
}

/// A URL is called by the last two segments of its path, owner and repository,
/// however many come before and whatever the scheme and the host are. A `.git`
/// behind the repository, slashes at the end, a query and a fragment make no
/// difference.
pub proof fn a_url_is_called_by_its_last_two_segments(
    scheme: Seq<char>,
    host: Seq<char>,
    front: Seq<char>,
    user: Seq<char>,
    repo: Seq<char>,
    slashes: Seq<char>,
    query: Seq<char>,
)
    requires
        is_scheme(scheme),
        is_host(host),
        is_front(front),
        is_segment(user),
        is_segment(repo),
        !ends(repo, ".git"@),
        is_idle_tail(slashes, query),
    ensures
        ({
            let url = scheme + "://"@ + host + "/"@ + front + user + "/"@ + repo;
            &&& repo_label(url + slashes + query) == user + "-"@ + repo
            &&& repo_label(url + ".git"@ + slashes + query) == user + "-"@ + repo
            &&& repo_name(url + slashes + query) == named(user + "-"@ + repo)
            &&& repo_name(url + ".git"@ + slashes + query) == named(user + "-"@ + repo)
        }),
{
    lemma_url_label(scheme, host, front, user, repo, slashes, query);
    lemma_git_segment(repo);
    lemma_url_label(scheme, host, front, user, repo + ".git"@, slashes, query);
    lemma_without_ending(repo, ".git"@);
    let url = scheme + "://"@ + host + "/"@ + front + user + "/"@;
    assert(url + repo + ".git"@ + slashes + query =~= url + (repo + ".git"@) + slashes + query);
}

proof fn lemma_url_label(
    scheme: Seq<char>,
    host: Seq<char>,
    front: Seq<char>,
    user: Seq<char>,
    repo: Seq<char>,
    slashes: Seq<char>,
    query: Seq<char>,
)
    requires
        is_scheme(scheme),
        is_host(host),
        is_front(front),
        is_segment(user),
        is_segment(repo),
        is_idle_tail(slashes, query),
    ensures
        ({
            let url = scheme + "://"@ + host + "/"@ + front + user + "/"@ + repo + slashes + query;
            &&& repo_label(url) == user + "-"@ + without_ending(repo, ".git"@)
            &&& repo_name(url) == named(user + "-"@ + without_ending(repo, ".git"@))
        }),
{
    reveal_strlit("/");
    let url = scheme + "://"@ + host + "/"@ + front + user + "/"@ + repo + slashes + query;
    let path = front + user + "/"@ + repo + slashes;
    let rest = host.push('/') + path + query;
    assert(url =~= scheme + "://"@ + rest);
    a_url_comes_apart(scheme, rest);
    lemma_last_two_segments(front, user, repo, slashes, query);
    // The query ends the address, and the host is cut off at the first slash.
    let whole = host.push('/') + path;
    assert(host.push('/') =~= host + "/"@);
    assert(has_no_mark("/"@));
    lemma_no_mark_concat(host, "/"@);
    lemma_no_mark_concat(host.push('/'), path);
    lemma_without_query(whole, query);
    assert(without_query(query) =~= Seq::<char>::empty()) by {
        lemma_before_either_bounds(query, '?', '#');
        if query.len() > 0 {
            assert(before_either(query, '?', '#') == 0);
        }
    }
    assert(whole + Seq::<char>::empty() =~= whole);
    lemma_parted(host, '/', path);
    lemma_no_query(path);
    assert(path_segments(url) == segments(front) + seq![user, repo]);
    lemma_label_of_last_two(segments(front), user, repo);
}

/// An ssh address is called by the last two segments of its path as well, however
/// many come before.
pub proof fn an_ssh_address_is_called_by_its_last_two_segments(
    login: Seq<char>,
    host: Seq<char>,
    front: Seq<char>,
    user: Seq<char>,
    repo: Seq<char>,
    slashes: Seq<char>,
    query: Seq<char>,
)
    requires
        !login.contains('@'),
        !login.contains('/'),
        !host.contains(':'),
        is_front(front),
        is_segment(user),
        is_segment(repo),
        !ends(repo, ".git"@),
        is_idle_tail(slashes, query),
    ensures
        ({
            let url = login + "@"@ + host + ":"@ + front + user + "/"@ + repo;
            &&& repo_label(url + slashes + query) == user + "-"@ + repo
            &&& repo_label(url + ".git"@ + slashes + query) == user + "-"@ + repo
            &&& repo_name(url + slashes + query) == named(user + "-"@ + repo)
            &&& repo_name(url + ".git"@ + slashes + query) == named(user + "-"@ + repo)
        }),
{
    lemma_ssh_label(login, host, front, user, repo, slashes, query);
    lemma_git_segment(repo);
    lemma_ssh_label(login, host, front, user, repo + ".git"@, slashes, query);
    lemma_without_ending(repo, ".git"@);
    let url = login + "@"@ + host + ":"@ + front + user + "/"@;
    assert(url + repo + ".git"@ + slashes + query =~= url + (repo + ".git"@) + slashes + query);
}

/// An address with an at sign before any slash has no scheme.
pub proof fn an_at_sign_rules_out_a_scheme(login: Seq<char>, rest: Seq<char>)
    requires
        !login.contains('/'),
    ensures
        scheme_len(login + "@"@ + rest) is None,
{
    reveal_strlit("@");
    reveal_strlit("://");
    let s = login + "@"@ + rest;
    lemma_found(s, "://"@);
    if let Some(n) = found(s, "://"@) {
        assert(s.skip(n as int).take(3)[1] == s[n as int + 1]);
        assert(s.skip(n as int).take(3)[0] == s[n as int]);
        if n < login.len() {
            if n + 1 < login.len() {
                assert(login[n as int + 1] == '/');
            }
        }
        assert(n > login.len());
        assert(s[login.len() as int] == '@');
        assert(!is_scheme_char(s[login.len() as int]));
    }
}

proof fn lemma_ssh_label(
    login: Seq<char>,
    host: Seq<char>,
    front: Seq<char>,
    user: Seq<char>,
    repo: Seq<char>,
    slashes: Seq<char>,
    query: Seq<char>,
)
    requires
        !login.contains('@'),
        !login.contains('/'),
        !host.contains(':'),
        is_front(front),
        is_segment(user),
        is_segment(repo),
        is_idle_tail(slashes, query),
    ensures
        ({
            let url = login + "@"@ + host + ":"@ + front + user + "/"@ + repo + slashes + query;
            &&& repo_label(url) == user + "-"@ + without_ending(repo, ".git"@)
            &&& repo_name(url) == named(user + "-"@ + without_ending(repo, ".git"@))
        }),
{
    reveal_strlit("@");
    reveal_strlit(":");
    let url = login + "@"@ + host + ":"@ + front + user + "/"@ + repo + slashes + query;
    let path = front + user + "/"@ + repo + slashes;
    let tail = host.push(':') + (path + query);
    assert(url =~= login.push('@') + tail);
    assert(url =~= login + "@"@ + tail);
    an_at_sign_rules_out_a_scheme(login, tail);
    lemma_parted(login, '@', tail);
    lemma_parted(host, ':', path + query);
    lemma_last_two_segments(front, user, repo, slashes, query);
    assert(path_segments(url) == segments(front) + seq![user, repo]);
    lemma_label_of_last_two(segments(front), user, repo);
}

/// A URL whose path is a single segment is called by that.
pub proof fn a_single_segment_is_the_name(scheme: Seq<char>, host: Seq<char>, repo: Seq<char>)
    requires
        is_scheme(scheme),
        is_host(host),
        is_segment(repo),
        !ends(repo, ".git"@),
    ensures
        repo_name(scheme + "://"@ + host + "/"@ + repo) == named(repo),
        repo_name(scheme + "://"@ + host + "/"@ + repo + ".git"@) == named(repo),
{
    lemma_single_segment(scheme, host, repo);
    lemma_git_segment(repo);
    lemma_single_segment(scheme, host, repo + ".git"@);
    lemma_without_ending(repo, ".git"@);
    let url = scheme + "://"@ + host + "/"@;
    assert(url + repo + ".git"@ =~= url + (repo + ".git"@));
}

proof fn lemma_single_segment(scheme: Seq<char>, host: Seq<char>, repo: Seq<char>)
    requires
        is_scheme(scheme),
        is_host(host),
        is_segment(repo),
    ensures
        repo_name(scheme + "://"@ + host + "/"@ + repo) == named(without_ending(repo, ".git"@)),
{
    reveal_strlit("/");
    let url = scheme + "://"@ + host + "/"@ + repo;
    let rest = host.push('/') + repo;
    assert(url =~= scheme + "://"@ + rest);
    a_url_comes_apart(scheme, rest);
    lemma_no_query(repo);
    lemma_behind_host(host, repo);
    lemma_segments_plain(repo);
    assert(path_segments(url) == seq![repo]);
    let cut = without_git(seq![repo]);
    assert(cut =~= seq![without_ending(repo, ".git"@)]);
    assert(joined(last_two(cut), seq!['-']) == without_ending(repo, ".git"@));
}

/// An ssh address whose path is a single segment is called by that.
pub proof fn a_single_segment_behind_a_host_is_the_name(
    login: Seq<char>,
    host: Seq<char>,
    repo: Seq<char>,
)
    requires
        !login.contains('@'),
        !login.contains('/'),
        !host.contains(':'),
        is_segment(repo),
        !ends(repo, ".git"@),
    ensures
        repo_name(login + "@"@ + host + ":"@ + repo) == named(repo),
        repo_name(login + "@"@ + host + ":"@ + repo + ".git"@) == named(repo),
{
    lemma_single_ssh_segment(login, host, repo);
    lemma_git_segment(repo);
    lemma_single_ssh_segment(login, host, repo + ".git"@);
    lemma_without_ending(repo, ".git"@);
    let url = login + "@"@ + host + ":"@;
    assert(url + repo + ".git"@ =~= url + (repo + ".git"@));
}

proof fn lemma_single_ssh_segment(login: Seq<char>, host: Seq<char>, repo: Seq<char>)
    requires
        !login.contains('@'),
        !login.contains('/'),
        !host.contains(':'),
        is_segment(repo),
    ensures
        repo_name(login + "@"@ + host + ":"@ + repo) == named(without_ending(repo, ".git"@)),
{
    reveal_strlit("@");
    reveal_strlit(":");
    let url = login + "@"@ + host + ":"@ + repo;
    let tail = host.push(':') + repo;
    assert(url =~= login.push('@') + tail);
    assert(url =~= login + "@"@ + tail);
    an_at_sign_rules_out_a_scheme(login, tail);
    lemma_parted(login, '@', tail);
    lemma_parted(host, ':', repo);
    lemma_no_query(repo);
    lemma_segments_plain(repo);
    assert(path_segments(url) == seq![repo]);
    let cut = without_git(seq![repo]);
    assert(cut =~= seq![without_ending(repo, ".git"@)]);
    assert(joined(last_two(cut), seq!['-']) == without_ending(repo, ".git"@));
}

/// An address that is neither a URL nor of the ssh form is called by its last two
/// segments too.
pub proof fn a_plain_address_is_called_by_its_last_two_segments(
    front: Seq<char>,
    user: Seq<char>,
    repo: Seq<char>,
    slashes: Seq<char>,
    query: Seq<char>,
)
    requires
        is_front(front),
        is_segment(user),
        is_segment(repo),
        !ends(repo, ".git"@),
        is_idle_tail(slashes, query),
        !(front + user + "/"@ + repo + slashes + query).contains('@'),
        !(front + user + "/"@ + repo + slashes + query).contains(':'),
    ensures
        repo_label(front + user + "/"@ + repo + slashes + query) == user + "-"@ + repo,
        repo_name(front + user + "/"@ + repo + slashes + query) == named(user + "-"@ + repo),
{
    reveal_strlit("://");
    let url = front + user + "/"@ + repo + slashes + query;
    lemma_found(url, "://"@);
    if let Some(n) = found(url, "://"@) {
        assert(url.skip(n as int).take(3)[0] == url[n as int]);
    }
    lemma_before_either_bounds(url, '@', '@');
    lemma_last_two_segments(front, user, repo, slashes, query);
    assert(path_segments(url) == segments(front) + seq![user, repo]);
    lemma_label_of_last_two(segments(front), user, repo);
}

/// A URL with nothing but a host, a query and a fragment has no name.
pub proof fn a_host_alone_has_no_name(scheme: Seq<char>, host: Seq<char>, query: Seq<char>)
    requires
        is_scheme(scheme),
        is_host(host),
        query.len() > 0 ==> query[0] == '?' || query[0] == '#',
    ensures
        path_segments(scheme + "://"@ + host + query).len() == 0,
        repo_name(scheme + "://"@ + host + query) is None,
{
    let rest = host + query;
    assert(scheme + "://"@ + host + query =~= scheme + "://"@ + rest);
    a_url_comes_apart(scheme, rest);
    lemma_without_query(host, query);
    assert(without_query(query) =~= Seq::<char>::empty()) by {
        lemma_before_either_bounds(query, '?', '#');
        if query.len() > 0 {
            assert(before_either(query, '?', '#') == 0);
        }
    }
    assert(host + Seq::<char>::empty() =~= host);
    lemma_before_either_bounds(host, '/', '/');
    assert(parted(host, '/') is None) by {
        if before_either(host, '/', '/') < host.len() {
            assert(host[before_either(host, '/', '/') as int] == '/');
        }
    }
    lemma_no_query(Seq::<char>::empty());
    lemma_segments_plain(Seq::<char>::empty());
}

// ---------------------------------------------------------------------------
// Requests in general
// ---------------------------------------------------------------------------

/// Whether a text is `http` or `https`, in any letters.
pub open spec fn is_web_scheme(s: Seq<char>) -> bool {
    &&& s.len() == 4 || s.len() == 5
    &&& s[0] == 'h' || s[0] == 'H'
    &&& s[1] == 't' || s[1] == 'T'
    &&& s[2] == 't' || s[2] == 'T'
    &&& s[3] == 'p' || s[3] == 'P'
    &&& s.len() == 5 ==> (s[4] == 's' || s[4] == 'S')
}

/// The web page of a request is recognised however its scheme is written, in
/// whatever group of groups its repository is, and whatever follows: a pull
/// request is fetched from `refs/pull`, a merge request from
/// `refs/merge-requests`, and the project is called after the repository, with
/// `pr` or `mr` and the number behind it.
pub proof fn every_request_page_is_recognised(
    scheme: Seq<char>,
    parts: Seq<Seq<char>>,
    merge: bool,
    digits: Seq<char>,
    number: u32,
    tail: Seq<char>,
)
    requires
        is_web_scheme(scheme),
        is_repository(parts),
        is_segment(digits),
        unsigned_32(digits) == Some(number),
        is_url_tail(tail),
    ensures
        ({
            let page = joined(parts, seq!['/']) + if merge {
                "/-/merge_requests/"@
            } else {
                "/pull/"@
            } + digits + tail;
            let repo_url = if scheme.len() == 4 {
                "http"@
            } else {
                "https"@
            } + "://"@ + joined(parts, seq!['/']);
            let n = decimal(number as nat);
            match (request_of(scheme + "://"@ + page), repo_name(repo_url)) {
                (Some(r), Some(repo)) => {
                    &&& r.repo_url == repo_url
                    &&& merge ==> r.branch == "mr-"@ + n && r.remote_ref == "refs/merge-requests/"@
                        + n + "/head"@ && r.name == repo + "-mr-"@ + n
                    &&& !merge ==> r.branch == "pr-"@ + n && r.remote_ref == "refs/pull/"@ + n
                        + "/head"@ && r.name == repo + "-pr-"@ + n
                },
                (None, None) => true,
                _ => false,
            }
        }),
{
    let forge = if merge {
        Forge::GitLab
    } else {
        Forge::GitHub
    };
    let host_path = joined(parts, seq!['/']);
    let rest = host_path + marker_text(forge) + digits + tail;
    let small = if scheme.len() == 4 {
        "http"@
    } else {
        "https"@
    };
    let arg = scheme + "://"@ + rest;
    reveal_strlit("http");
    reveal_strlit("https");
    a_url_comes_apart(scheme, rest);
    assert(scheme_of(arg)->0 =~= small);
    lemma_page_segments(parts, forge, digits, tail);
    let all = web_segments(arg);
    let more = segments(digits + without_query(tail));
    assert(all.take(parts.len() as int) =~= parts);
    lemma_marker_behind(all, parts, 3);
    lemma_marker_found(parts, forge, more);
    let at = parts.len() as int;
    assert(all[at + forge.marker_len()] == more[0]);
    let repo_url = small + "://"@ + host_path;
    if let Some(repo) = repo_name(repo_url) {
        lemma_request_words(repo_url, repo, forge, number);
    }
}

/// How a request is spelt.
proof fn lemma_request_words(
    repo_url: Seq<char>,
    repo: Seq<char>,
    forge: Forge,
    number: u32,
)
    ensures
        ({
            let r = request_text(repo_url, repo, forge, number);
            let n = decimal(number as nat);
            match forge {
                Forge::GitHub => r.branch == "pr-"@ + n && r.remote_ref == "refs/pull/"@ + n
                    + "/head"@ && r.name == repo + "-pr-"@ + n,
                Forge::GitLab => r.branch == "mr-"@ + n && r.remote_ref == "refs/merge-requests/"@
                    + n + "/head"@ && r.name == repo + "-mr-"@ + n,
            }
        }),
{
    reveal_strlit("-");
    reveal_strlit("/");
    reveal_strlit("pr");
    reveal_strlit("mr");
    reveal_strlit("pr-");
    reveal_strlit("mr-");
    reveal_strlit("-pr-");
    reveal_strlit("-mr-");
    assert("pr"@ + "-"@ =~= "pr-"@);
    assert("mr"@ + "-"@ =~= "mr-"@);
    assert("-"@ + "pr"@ + "-"@ =~= "-pr-"@);
    assert("-"@ + "mr"@ + "-"@ =~= "-mr-"@);
    assert("refs/pull"@ + "/"@ =~= "refs/pull/"@) by {
        reveal_strlit("refs/pull");
        reveal_strlit("refs/pull/");
    }
    assert("refs/merge-requests"@ + "/"@ =~= "refs/merge-requests/"@) by {
        reveal_strlit("refs/merge-requests");
        reveal_strlit("refs/merge-requests/");
    }
    let n = decimal(number as nat);
    let r = request_text(repo_url, repo, forge, number);
    match forge {
        Forge::GitHub => {
            assert(r.name =~= repo + ("-"@ + "pr"@ + "-"@) + n);
        },
        Forge::GitLab => {
            assert(r.name =~= repo + ("-"@ + "mr"@ + "-"@) + n);
        },
    }
}

/// The segments of the page of a request, behind the scheme.
proof fn lemma_page_segments(
    parts: Seq<Seq<char>>,
    forge: Forge,
    digits: Seq<char>,
    tail: Seq<char>,
)
    requires
        is_repository(parts),
        is_segment(digits),
        is_url_tail(tail),
    ensures
        ({
            let rest = joined(parts, seq!['/']) + marker_text(forge) + digits + tail;
            let more = segments(digits + without_query(tail));
            &&& segments(without_query(rest)) == parts + marker_segments(forge) + more
            &&& more.len() > 0
            &&& more[0] == digits
        }),
{
    let host_path = joined(parts, seq!['/']);
    let plain = host_path + marker_text(forge) + digits;
    assert forall|i: int| 0 <= i < parts.len() implies !(#[trigger] parts[i]).contains('?')
        && !parts[i].contains('#') by {
        assert(is_segment(parts[i]));
    }
    lemma_joined_contains(parts, '?');
    lemma_joined_contains(parts, '#');
    lemma_marker_segments(host_path, forge, digits);
    lemma_no_mark_concat(host_path, marker_text(forge));
    lemma_no_mark_concat(host_path + marker_text(forge), digits);
    lemma_without_query(plain, tail);
    assert(plain + without_query(tail) =~= host_path + marker_text(forge) + (digits
        + without_query(tail)));
    lemma_marker_segments(host_path, forge, digits + without_query(tail));
    lemma_segments_joined(parts);
    lemma_number_first(digits, tail);
}

/// Only a web page is a request, and only one whose path holds, behind a host, an
/// owner and a repository, `pull` or `-` and `merge_requests`, and then a number
/// that fits 32 bits. What stands before the first of these is the repository.
pub proof fn only_the_page_of_a_request_is_one(arg: Seq<char>)
    requires
        request_of(arg) is Some,
    ensures
        scheme_of(arg) == Some("http"@) || scheme_of(arg) == Some("https"@),
        ({
            let all = segments(without_query(after_scheme(arg)));
            exists|at: int|
                #![trigger all.take(at)]
                {
                    &&& 3 <= at < all.len()
                    &&& (request_of(arg)->0).repo_url == scheme_of(arg)->0 + "://"@ + joined(
                        all.take(at),
                        seq!['/'],
                    )
                    &&& {
                        ||| all[at] == "pull"@ && at + 1 < all.len() && unsigned_32(all[at + 1])
                            is Some
                        ||| all[at] == "-"@ && at + 2 < all.len() && all[at + 1]
                            == "merge_requests"@ && unsigned_32(all[at + 2]) is Some
                    }
                    &&& forall|k: int|
                        3 <= k < at ==> (#[trigger] all[k]) != "pull"@ && !(all[k] == "-"@ && all[k
                            + 1] == "merge_requests"@)
                }
        }),
{
    let all = web_segments(arg);
    lemma_marker_place(all, 3);
    let (at, forge) = marker_from(all, 3)->0;
    lemma_first_marker(all, 3, at);
    let front = all.take(at);
    assert((request_of(arg)->0).repo_url == scheme_of(arg)->0 + "://"@ + joined(
        front,
        seq!['/'],
    ));
}

/// The first marker is a marker, and none stands before it.
proof fn lemma_first_marker(all: Seq<Seq<char>>, i: int, at: int)
    requires
        0 <= i <= at < all.len(),
        marker_from(all, i) matches Some((first, _)) && first == at,
    ensures
        marker_at(all, at) == Some((marker_from(all, i)->0).1),
        forall|k: int|
            i <= k < at ==> (#[trigger] all[k]) != "pull"@ && !(all[k] == "-"@ && all[k + 1]
                == "merge_requests"@),
    decreases at - i,
{
    lemma_marker_place(all, i + 1);
    if i < at {
        assert(marker_at(all, i) is None);
        lemma_first_marker(all, i + 1, at);
        assert forall|k: int| i <= k < at implies (#[trigger] all[k]) != "pull"@ && !(all[k]
            == "-"@ && all[k + 1] == "merge_requests"@) by {
            if k > i {
                assert(all[k] != "pull"@);
            }
        }
    }
}

} // verus!
