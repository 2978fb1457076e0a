//! The shapes of repository and pull request addresses.

use crate::error::Error;
use crate::number::{decimal, parse_u32, push_decimal, unsigned_32};
use crate::store::{clean_name, cleaned};
use crate::text::{before_either, chars_of, drop_ending, find_either, find_word, found, is_word};
use crate::text::{join, joined, lemma_before_either_bounds, lemma_found, part, parted, segments};
use crate::text::{segments_of, string_of, texts, without_ending};
use vstd::prelude::*;
use vstd::slice::slice_subrange;

verus! {

// ---------------------------------------------------------------------------
// Schemes
// ---------------------------------------------------------------------------

/// Whether a character can stand in the scheme of a URL.
pub open spec fn is_scheme_char(c: char) -> bool {
    'a' <= c <= 'z' || 'A' <= c <= 'Z' || '0' <= c <= '9' || c == '+' || c == '-' || c == '.'
}

/// An ASCII letter in lower case; any other character as it is.
pub open spec fn lower(c: char) -> char {
    if 'A' <= c <= 'Z' {
        (c as nat + 32) as char
    } else {
        c
    }
}

/// A text with its ASCII letters in lower case.
pub open spec fn lowered(s: Seq<char>) -> Seq<char> {
    s.map_values(|c: char| lower(c))
}

/// How long the scheme in front of `://` is, where there is one.
pub open spec fn scheme_len(arg: Seq<char>) -> Option<nat> {
    match found(arg, "://"@) {
        Some(n) => if n > 0 && (forall|i: int| 0 <= i < n ==> is_scheme_char(#[trigger] arg[i])) {
            Some(n)
        } else {
            None
        },
        None => None,
    }
}

/// The scheme of a URL, in lower case.
pub open spec fn scheme_of(arg: Seq<char>) -> Option<Seq<char>> {
    match scheme_len(arg) {
        Some(n) => Some(lowered(arg.take(n as int))),
        None => None,
    }
}

/// What stands behind the `://` of a URL.
pub open spec fn after_scheme(arg: Seq<char>) -> Seq<char> {
    arg.skip(scheme_len(arg)->0 as int + 3)
}

/// Measures the scheme of a URL.
pub fn find_scheme(arg: &[char]) -> (r: Option<usize>)
    ensures
        match r {
            Some(n) => scheme_len(arg@) == Some(n as nat) && n + 3 <= arg@.len(),
            None => scheme_len(arg@) is None,
        },
{
    let n: usize = match find_word(arg, "://") {
        Some(n) => n,
        None => {
            return None;
        },
    };
    proof {
        reveal_strlit("://");
        lemma_found(arg@, "://"@);
    }
    if n == 0 {
        return None;
    }
    for i in 0..n
        invariant
            n <= arg@.len(),
            found(arg@, "://"@) == Some(n as nat),
            forall|j: int| 0 <= j < i ==> is_scheme_char(#[trigger] arg@[j]),
    {
        let c = arg[i];
        if !(('a' <= c && c <= 'z') || ('A' <= c && c <= 'Z') || ('0' <= c && c <= '9') || c == '+'
            || c == '-' || c == '.') {
            proof {
                assert(!is_scheme_char(arg@[i as int]));
            }
            return None;
        }
    }
    Some(n)
}

/// Puts a text in lower case.
pub fn to_lower(s: &[char]) -> (r: Vec<char>)
    ensures
        r@ == lowered(s@),
{
    let mut out: Vec<char> = Vec::new();
    for i in 0..s.len()
        invariant
            out@ == lowered(s@.take(i as int)),
    {
        let c = s[i];
        if 'A' <= c && c <= 'Z' {
            out.push((c as u8 + 32) as char);
        } else {
            out.push(c);
        }
        proof {
            assert(lowered(s@.take(i + 1)) =~= lowered(s@.take(i as int)).push(lower(c)));
        }
    }
    proof {
        assert(s@.take(s@.len() as int) =~= s@);
    }
    out
}

/// The lowercased `scheme` of a `scheme://...` argument.
pub fn url_scheme(arg: &str) -> (r: Option<String>)
    ensures
        match r {
            Some(scheme) => scheme_of(arg@) == Some(scheme@),
            None => scheme_of(arg@) is None,
        },
{
    let text = chars_of(arg);
    match find_scheme(&text) {
        Some(n) => {
            let head = slice_subrange(text.as_slice(), 0, n);
            Some(string_of(&to_lower(head)))
        },
        None => None,
    }
}

/// Whether an argument has the `user@host:path` form that git takes for ssh.
pub open spec fn scp_style(arg: Seq<char>) -> bool {
    match parted(arg, '@') {
        None => false,
        Some((user, rest)) => match parted(rest, ':') {
            None => false,
            Some((host, path)) => user.len() > 0 && host.len() > 0 && !host.contains('/')
                && path.len() > 0,
        },
    }
}

/// The `user@host:path` form git accepts as a shorthand for ssh.
pub fn is_scp_style(arg: &str) -> (r: bool)
    ensures
        r == scp_style(arg@),
{
    let text = chars_of(arg);
    let (user, rest) = match part(&text, '@') {
        Some(parts) => parts,
        None => {
            return false;
        },
    };
    let (host, path) = match part(rest, ':') {
        Some(parts) => parts,
        None => {
            return false;
        },
    };
    let slash = find_either(host, '/', '/');
    proof {
        lemma_before_either_bounds(host@, '/', '/');
        if slash < host@.len() {
            assert(host@[slash as int] == '/');
        }
    }
    user.len() > 0 && host.len() > 0 && slash == host.len() && path.len() > 0
}

// ---------------------------------------------------------------------------
// Paths of URLs
// ---------------------------------------------------------------------------

/// What follows the first `c`: nothing where there is none.
pub open spec fn behind(s: Seq<char>, c: char) -> Seq<char> {
    match parted(s, c) {
        Some((_, tail)) => tail,
        None => Seq::empty(),
    }
}

/// A text up to its query or fragment.
pub open spec fn without_query(s: Seq<char>) -> Seq<char> {
    s.take(before_either(s, '?', '#') as int)
}

/// What names the repository on its host. In a URL the query ends the address,
/// so that a slash in it is no part of the path. An address that is neither a
/// URL nor of the ssh form is taken whole.
pub open spec fn location(url: Seq<char>) -> Seq<char> {
    if scheme_len(url) is Some {
        behind(without_query(after_scheme(url)), '/')
    } else {
        match parted(url, '@') {
            Some((_, tail)) => behind(tail, ':'),
            None => url,
        }
    }
}

/// The path segments of a URL, without the host and any query or fragment.
pub open spec fn path_segments(url: Seq<char>) -> Seq<Seq<char>> {
    segments(without_query(location(url)))
}

/// Takes what follows the first `c`.
fn behind_char<'a>(s: &'a [char], c: char) -> (r: &'a [char])
    ensures
        r@ == behind(s@, c),
{
    match part(s, c) {
        Some((_, tail)) => tail,
        None => {
            let none = slice_subrange(s, 0, 0);
            proof {
                assert(none@ =~= Seq::<char>::empty());
            }
            none
        },
    }
}

/// Leaves out the query and the fragment.
fn drop_query<'a>(s: &'a [char]) -> (r: &'a [char])
    ensures
        r@ == without_query(s@),
{
    let n = find_either(s, '?', '#');
    slice_subrange(s, 0, n)
}

/// The path segments of a URL, with the host and any query or fragment removed.
pub fn url_path_segments(url: &str) -> (r: Vec<Vec<char>>)
    ensures
        texts(r@) == path_segments(url@),
{
    let text = chars_of(url);
    let rest = match find_scheme(&text) {
        Some(n) => {
            let len: usize = text.len();
            let after = slice_subrange(text.as_slice(), n + 3, len);
            proof {
                assert(after@ =~= after_scheme(url@));
            }
            behind_char(drop_query(after), '/')
        },
        None => match part(&text, '@') {
            Some((_, tail)) => behind_char(tail, ':'),
            None => text.as_slice(),
        },
    };
    segments_of(drop_query(rest))
}

// ---------------------------------------------------------------------------
// Names
// ---------------------------------------------------------------------------

/// Some segments with a `.git` dropped from the end of the last.
pub open spec fn without_git(parts: Seq<Seq<char>>) -> Seq<Seq<char>> {
    if parts.len() == 0 {
        parts
    } else {
        parts.update(parts.len() - 1, without_ending(parts.last(), ".git"@))
    }
}

/// The last two of some segments, or as many as there are.
pub open spec fn last_two(parts: Seq<Seq<char>>) -> Seq<Seq<char>> {
    if parts.len() > 2 {
        parts.skip(parts.len() - 2)
    } else {
        parts
    }
}

/// What a project is called after a repository, before it is cleaned: the
/// owner and the repository.
pub open spec fn repo_label(url: Seq<char>) -> Seq<char> {
    joined(last_two(without_git(path_segments(url))), seq!['-'])
}

/// The name that a repository URL implies, where it implies one.
pub open spec fn repo_name(url: Seq<char>) -> Option<Seq<char>> {
    if path_segments(url).len() > 0 && cleaned(repo_label(url)).len() > 0 {
        Some(cleaned(repo_label(url)))
    } else {
        None
    }
}

/// The `<user>-<repo>` name a repository URL implies. Including the owner keeps
/// two people's forks of the same project from colliding.
pub fn name_from_repo_url(url: &str) -> (r: Result<String, Error>)
    ensures
        match r {
            Ok(name) => repo_name(url@) == Some(name@),
            Err(Error::UnnamedUrl(shown)) => path_segments(url@).len() == 0 && shown@ == url@,
            Err(Error::UnnamedUrlBecause { url: shown, name }) => path_segments(url@).len() > 0
                && cleaned(repo_label(url@)).len() == 0 && shown@ == url@ && name@ == repo_label(
                url@,
            ),
            Err(_) => false,
        },
{
    let mut parts = url_path_segments(url);
    let ghost before = parts@;
    let n = parts.len();
    if n == 0 {
        return Err(Error::UnnamedUrl(url.to_owned()));
    }
    let last = vstd::slice::slice_to_vec(drop_ending(&parts[n - 1], ".git"));
    parts.set(n - 1, last);
    proof {
        assert(texts(parts@) =~= without_git(texts(before)));
    }
    let from: usize = if n > 2 {
        n - 2
    } else {
        0
    };
    let tail = slice_subrange(parts.as_slice(), from, n);
    proof {
        assert(texts(tail@) =~= last_two(texts(parts@)));
    }
    let label = string_of(&join(tail, '-'));
    match clean_name(&label) {
        Ok(name) => Ok(name),
        Err(_) => Err(Error::UnnamedUrlBecause { url: url.to_owned(), name: label }),
    }
}

// ---------------------------------------------------------------------------
// Pull requests
// ---------------------------------------------------------------------------

/// A GitHub pull request or GitLab merge request, read out of its web URL.
pub struct Request {
    /// The repository it belongs to.
    pub repo_url: String,
    /// The remote ref holding its head commit.
    pub remote_ref: String,
    /// The local branch to create from that ref.
    pub branch: String,
    /// The derived project name, e.g. "tobi-try-pr-139".
    pub name: String,
}

/// A request as texts.
pub struct RequestText {
    pub repo_url: Seq<char>,
    pub remote_ref: Seq<char>,
    pub branch: Seq<char>,
    pub name: Seq<char>,
}

impl View for Request {
    type V = RequestText;

    open spec fn view(&self) -> RequestText {
        RequestText {
            repo_url: self.repo_url@,
            remote_ref: self.remote_ref@,
            branch: self.branch@,
            name: self.name@,
        }
    }
}

/// The kinds of request.
#[derive(Clone, Copy, PartialEq, Eq, Structural)]
pub enum Forge {
    /// `<owner>/<repo>/pull/<number>`
    GitHub,
    /// `<group>/<repo>/-/merge_requests/<number>`
    GitLab,
}

impl Forge {
    /// What the project and the branch are labelled with.
    pub open spec fn label(self) -> Seq<char> {
        match self {
            Forge::GitHub => "pr"@,
            Forge::GitLab => "mr"@,
        }
    }

    /// Where the forge keeps the heads of its requests.
    pub open spec fn ref_base(self) -> Seq<char> {
        match self {
            Forge::GitHub => "refs/pull"@,
            Forge::GitLab => "refs/merge-requests"@,
        }
    }

    /// How many segments stand between the repository and the number.
    pub open spec fn marker_len(self) -> int {
        match self {
            Forge::GitHub => 1,
            Forge::GitLab => 2,
        }
    }
}

/// Which kind of request is marked at a segment, if any.
pub open spec fn marker_at(parts: Seq<Seq<char>>, i: int) -> Option<Forge> {
    if parts[i] == "pull"@ {
        Some(Forge::GitHub)
    } else if parts[i] == "-"@ && i + 1 < parts.len() && parts[i + 1] == "merge_requests"@ {
        Some(Forge::GitLab)
    } else {
        None
    }
}

/// The first marker from a segment on.
pub open spec fn marker_from(parts: Seq<Seq<char>>, i: int) -> Option<(int, Forge)>
    decreases parts.len() - i,
{
    if i >= parts.len() {
        None
    } else {
        match marker_at(parts, i) {
            Some(forge) => Some((i, forge)),
            None => marker_from(parts, i + 1),
        }
    }
}

/// A request, from what its URL was found to say.
pub open spec fn request_text(
    repo_url: Seq<char>,
    repo: Seq<char>,
    forge: Forge,
    number: u32,
) -> RequestText {
    RequestText {
        repo_url,
        remote_ref: forge.ref_base() + "/"@ + decimal(number as nat) + "/head"@,
        branch: forge.label() + "-"@ + decimal(number as nat),
        name: repo + "-"@ + forge.label() + "-"@ + decimal(number as nat),
    }
}

/// The segments of a URL from the host on.
pub open spec fn web_segments(arg: Seq<char>) -> Seq<Seq<char>> {
    segments(without_query(after_scheme(arg)))
}

/// Whether a URL is one that a browser shows.
pub open spec fn is_web(arg: Seq<char>) -> bool {
    scheme_of(arg) == Some("http"@) || scheme_of(arg) == Some("https"@)
}

/// The request that a URL is the web page of, if it is one.
///
/// The marker cannot come before the third segment, because a host, an owner
/// and a repository name have to precede it.
pub open spec fn request_of(arg: Seq<char>) -> Option<RequestText> {
    let parts = web_segments(arg);
    if !is_web(arg) {
        None
    } else {
        match marker_from(parts, 3) {
            None => None,
            Some((at, forge)) => {
                let number_at = at + forge.marker_len();
                let repo_url = scheme_of(arg)->0 + "://"@ + joined(parts.take(at), seq!['/']);
                if number_at >= parts.len() {
                    None
                } else {
                    match (unsigned_32(parts[number_at]), repo_name(repo_url)) {
                        (Some(number), Some(repo)) => Some(
                            request_text(repo_url, repo, forge, number),
                        ),
                        _ => None,
                    }
                }
            },
        }
    }
}

impl Forge {
    /// Builds the request that a URL was found to say.
    fn request(self, repo_url: String, repo: &str, number: u32) -> (r: Request)
        ensures
            r@ == request_text(repo_url@, repo@, self, number),
    {
        let (label, ref_base) = match self {
            Forge::GitHub => ("pr", "refs/pull"),
            Forge::GitLab => ("mr", "refs/merge-requests"),
        };
        let mut remote_ref = ref_base.to_owned().concat("/");
        push_decimal(&mut remote_ref, number as u64);
        let remote_ref = remote_ref.concat("/head");
        let mut branch = label.to_owned().concat("-");
        push_decimal(&mut branch, number as u64);
        let mut name = repo.to_owned().concat("-").concat(label).concat("-");
        push_decimal(&mut name, number as u64);
        Request { repo_url, remote_ref, branch, name }
    }
}

/// Finds the first marker from the third segment on.
fn find_marker(parts: &[Vec<char>]) -> (r: Option<(usize, Forge)>)
    ensures
        match r {
            Some((at, forge)) => marker_from(texts(parts@), 3) == Some((at as int, forge)) && at
                < parts@.len(),
            None => marker_from(texts(parts@), 3) is None,
        },
{
    let ghost all = texts(parts@);
    let mut i: usize = 3;
    while i < parts.len()
        invariant
            all == texts(parts@),
            3 <= i,
            marker_from(all, 3) == marker_from(all, i as int),
        decreases parts@.len() - i,
    {
        proof {
            assert(all[i as int] == parts@[i as int]@);
        }
        if is_word(&parts[i], "pull") {
            return Some((i, Forge::GitHub));
        }
        if is_word(&parts[i], "-") && i + 1 < parts.len() {
            proof {
                assert(all[i + 1] == parts@[i + 1]@);
            }
            if is_word(&parts[i + 1], "merge_requests") {
                proof {
                    reveal_strlit("pull");
                    reveal_strlit("-");
                }
                return Some((i, Forge::GitLab));
            }
        }
        proof {
            assert(marker_at(all, i as int) is None);
        }
        i = i + 1;
    }
    None
}

/// Recognises the web URL of a GitHub pull request or a GitLab merge request.
///
/// These address a page rather than a repository, so git cannot clone them
/// directly: the repository is cloned and the request's head ref fetched.
pub fn parse_request(arg: &str) -> (r: Option<Request>)
    ensures
        match r {
            Some(request) => request_of(arg@) == Some(request@),
            None => request_of(arg@) is None,
        },
{
    let text = chars_of(arg);
    let n: usize = match find_scheme(&text) {
        Some(n) => n,
        None => {
            return None;
        },
    };
    let scheme = to_lower(slice_subrange(text.as_slice(), 0, n));
    proof {
        assert(scheme_of(arg@) == Some(scheme@));
    }
    if !is_word(&scheme, "http") && !is_word(&scheme, "https") {
        return None;
    }
    let len: usize = text.len();
    let after = slice_subrange(text.as_slice(), n + 3, len);
    proof {
        assert(after@ =~= after_scheme(arg@));
    }
    let parts = segments_of(drop_query(after));
    let (at, forge) = match find_marker(&parts) {
        Some(marker) => marker,
        None => {
            return None;
        },
    };
    let skip: usize = match forge {
        Forge::GitHub => 1,
        Forge::GitLab => 2,
    };
    if skip >= parts.len() - at {
        return None;
    }
    proof {
        assert(texts(parts@)[at + skip] == parts@[at + skip]@);
    }
    let number: u32 = match parse_u32(&parts[at + skip]) {
        Some(number) => number,
        None => {
            return None;
        },
    };
    let front = slice_subrange(parts.as_slice(), 0, at);
    proof {
        assert(texts(front@) =~= texts(parts@).take(at as int));
    }
    let repo_url = string_of(&scheme).concat("://").concat(&string_of(&join(front, '/')));
    match name_from_repo_url(&repo_url) {
        Ok(repo) => Some(forge.request(repo_url, &repo, number)),
        Err(_) => None,
    }
}

/// Capital letters become the small ones, and nothing else changes.
pub proof fn capitals_become_small(s: Seq<char>)
    ensures
        lowered(s).len() == s.len(),
        forall|i: int|
            0 <= i < s.len() ==> if 'A' <= s[i] <= 'Z' {
                (#[trigger] lowered(s)[i]) as int == s[i] as int + 32
            } else {
                lowered(s)[i] == s[i]
            },
{
}

} // verus!
