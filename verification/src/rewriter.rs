//! Scanning text for links that use the broken CDN host, and rewriting each
//! one to its canonical form.
//!
//! A broken link is an `http` or `https` URL whose host is the broken CDN
//! host, followed by an attachments path with two numeric ids of 18 or 19
//! digits each and then a run of non-whitespace characters. The scan walks
//! the text left to right and reports non-overlapping occurrences in order of
//! first occurrence; the rewrite upgrades the scheme token `http://` (first
//! occurrence only) and swaps the broken host for the canonical one (first
//! occurrence only), leaving everything else in the matched substring alone.

use vstd::prelude::*;

verus! {

/// The decimal digits, as the id pattern counts them.
pub open spec fn is_digit(c: char) -> bool {
    c == '0' || c == '1' || c == '2' || c == '3' || c == '4' || c == '5' || c == '6' || c == '7'
        || c == '8' || c == '9'
}

/// Whitespace as the scan understands it: the Unicode white-space characters.
/// A link match extends to the first of these (or the end of the text).
pub open spec fn is_space(c: char) -> bool {
    c == '\t' || c == '\n' || c == '\u{B}' || c == '\u{C}' || c == '\r' || c == ' '
        || c == '\u{85}' || c == '\u{A0}' || c == '\u{1680}' || c == '\u{2000}' || c == '\u{2001}'
        || c == '\u{2002}' || c == '\u{2003}' || c == '\u{2004}' || c == '\u{2005}'
        || c == '\u{2006}' || c == '\u{2007}' || c == '\u{2008}' || c == '\u{2009}'
        || c == '\u{200A}' || c == '\u{2028}' || c == '\u{2029}' || c == '\u{202F}'
        || c == '\u{205F}' || c == '\u{3000}'
}

/// The scheme token of an unencrypted URL: `http://`.
pub open spec fn http_scheme() -> Seq<char> {
    seq!['h', 't', 't', 'p', ':', '/', '/']
}

/// The scheme token of an encrypted URL: `https://`.
pub open spec fn https_scheme() -> Seq<char> {
    seq!['h', 't', 't', 'p', 's', ':', '/', '/']
}

/// The host that clients fail to render: `media.discordapp.net`.
pub open spec fn broken_host() -> Seq<char> {
    seq!['m', 'e', 'd', 'i', 'a', '.', 'd', 'i', 's', 'c', 'o', 'r', 'd', 'a', 'p', 'p', '.', 'n', 'e', 't']
}

/// The canonical host a broken link is rewritten to: `cdn.discordapp.com`.
pub open spec fn fixed_host() -> Seq<char> {
    seq!['c', 'd', 'n', '.', 'd', 'i', 's', 'c', 'o', 'r', 'd', 'a', 'p', 'p', '.', 'c', 'o', 'm']
}

/// The path segment that follows the host: `/attachments/`.
pub open spec fn attachments_path() -> Seq<char> {
    seq!['/', 'a', 't', 't', 'a', 'c', 'h', 'm', 'e', 'n', 't', 's', '/']
}

/// `pat` occurs in `s` starting at index `i`.
pub open spec fn starts_with(s: Seq<char>, i: int, pat: Seq<char>) -> bool {
    &&& 0 <= i
    &&& i + pat.len() <= s.len()
    &&& forall|t: int| 0 <= t < pat.len() ==> s[i + t] == pat[t]
}

/// Length of the run of digits beginning at `i`.
pub open spec fn digit_run(s: Seq<char>, i: int) -> int
    decreases s.len() - i when 0 <= i <= s.len()
{
    if i < s.len() && is_digit(s[i]) {
        1 + digit_run(s, i + 1)
    } else {
        0
    }
}

/// Length of the run of non-whitespace characters beginning at `i`.
pub open spec fn nonspace_run(s: Seq<char>, i: int) -> int
    decreases s.len() - i when 0 <= i <= s.len()
{
    if i < s.len() && !is_space(s[i]) {
        1 + nonspace_run(s, i + 1)
    } else {
        0
    }
}

/// A message id at `j`: a maximal run of 18 or 19 digits closed by a `/`.
pub open spec fn snowflake_ok(s: Seq<char>, j: int) -> bool {
    let d = digit_run(s, j);
    &&& (d == 18 || d == 19)
    &&& j + d < s.len()
    &&& s[j + d] == '/'
}

/// One of the two accepted scheme tokens occurs at `i`.
pub open spec fn has_scheme(s: Seq<char>, i: int) -> bool {
    starts_with(s, i, https_scheme()) || starts_with(s, i, http_scheme())
}

/// Length of the scheme token at `i` (meaningful only under `has_scheme`).
pub open spec fn scheme_len(s: Seq<char>, i: int) -> int {
    if starts_with(s, i, https_scheme()) {
        8
    } else {
        7
    }
}

/// A broken link begins at `i`: scheme, broken host, attachments path, two
/// ids, and then whatever non-whitespace follows.
pub open spec fn has_match_at(s: Seq<char>, i: int) -> bool {
    let h = i + scheme_len(s, i);
    let j = h + 33;
    &&& has_scheme(s, i)
    &&& starts_with(s, h, broken_host())
    &&& starts_with(s, h + 20, attachments_path())
    &&& snowflake_ok(s, j)
    &&& snowflake_ok(s, j + digit_run(s, j) + 1)
}

/// End (one past the last character) of the broken link beginning at `i`,
/// meaningful only under `has_match_at`: the match swallows the maximal run
/// of non-whitespace after the second id's closing `/`.
pub open spec fn match_end(s: Seq<char>, i: int) -> int {
    let h = i + scheme_len(s, i);
    let j = h + 33;
    let j2 = j + digit_run(s, j) + 1;
    let p = j2 + digit_run(s, j2) + 1;
    p + nonspace_run(s, p)
}

/// Start indices of the matches the scan reports, searching from `i`:
/// leftmost first, and the search resumes only after a reported match ends.
pub open spec fn match_starts_from(s: Seq<char>, i: int) -> Seq<int>
    decreases s.len() - i when 0 <= i
{
    if i >= s.len() {
        Seq::empty()
    } else if has_match_at(s, i) {
        let e = match_end(s, i);
        let step = if i < e && e <= s.len() {
            e - i
        } else {
            1
        };
        seq![i] + match_starts_from(s, i + step)
    } else {
        match_starts_from(s, i + 1)
    }
}

/// Start indices of all matches in `s`, in order of first occurrence.
pub open spec fn match_starts(s: Seq<char>) -> Seq<int> {
    match_starts_from(s, 0)
}

/// The matched substring beginning at start index `i`.
pub open spec fn match_text(s: Seq<char>, i: int) -> Seq<char> {
    s.subrange(i, match_end(s, i))
}

/// Index of the first occurrence of `pat` in `s` at or after `i`, if any.
pub open spec fn first_occ_from(s: Seq<char>, pat: Seq<char>, i: int) -> Option<int>
    decreases s.len() - i when 0 <= i && 1 <= pat.len()
{
    if i + pat.len() > s.len() {
        None
    } else if starts_with(s, i, pat) {
        Some(i)
    } else {
        first_occ_from(s, pat, i + 1)
    }
}

/// Index of the first occurrence of `pat` in `s`, if any.
pub open spec fn first_occ(s: Seq<char>, pat: Seq<char>) -> Option<int> {
    first_occ_from(s, pat, 0)
}

/// `s` with the first occurrence of `pat`, if there is one, replaced by `rep`.
pub open spec fn replace_first(s: Seq<char>, pat: Seq<char>, rep: Seq<char>) -> Seq<char> {
    match first_occ(s, pat) {
        Some(q) => s.subrange(0, q) + rep + s.subrange(q + pat.len(), s.len() as int),
        None => s,
    }
}

/// The rewrite applied to one matched substring: upgrade the first `http://`
/// to `https://`, then swap the first broken host for the canonical host.
pub open spec fn rewrite_spec(m: Seq<char>) -> Seq<char> {
    replace_first(replace_first(m, http_scheme(), https_scheme()), broken_host(), fixed_host())
}

/// A digit run is a well-bounded slice of the text.
proof fn lemma_digit_run_bounds(s: Seq<char>, i: int)
    requires
        0 <= i <= s.len(),
    ensures
        0 <= digit_run(s, i),
        i + digit_run(s, i) <= s.len(),
    decreases s.len() - i,
{
    if i < s.len() && is_digit(s[i]) {
        lemma_digit_run_bounds(s, i + 1);
    }
}

/// A non-whitespace run is a well-bounded slice of the text.
proof fn lemma_nonspace_run_bounds(s: Seq<char>, i: int)
    requires
        0 <= i <= s.len(),
    ensures
        0 <= nonspace_run(s, i),
        i + nonspace_run(s, i) <= s.len(),
    decreases s.len() - i,
{
    if i < s.len() && !is_space(s[i]) {
        lemma_nonspace_run_bounds(s, i + 1);
    }
}

/// A match is at least as long as its fixed parts plus two shortest ids, and
/// it ends within the text.
proof fn lemma_match_bounds(s: Seq<char>, i: int)
    requires
        0 <= i,
        has_match_at(s, i),
    ensures
        i + 78 <= match_end(s, i),
        match_end(s, i) <= s.len(),
{
    let h = i + scheme_len(s, i);
    let j = h + 33;
    let j2 = j + digit_run(s, j) + 1;
    let p = j2 + digit_run(s, j2) + 1;
    assert(p <= s.len());
    lemma_nonspace_run_bounds(s, p);
}

/// Unfolding of the scan at a position where a match begins: the match is
/// reported and the scan resumes at its end.
proof fn lemma_match_step(s: Seq<char>, i: int)
    requires
        0 <= i < s.len(),
        has_match_at(s, i),
    ensures
        match_starts_from(s, i) == seq![i] + match_starts_from(s, match_end(s, i)),
{
    lemma_match_bounds(s, i);
}

/// Where the first occurrence of `pat` lies, nothing before it matches; where
/// there is none, nothing at all matches.
proof fn lemma_first_occ_props(s: Seq<char>, pat: Seq<char>, i: int)
    requires
        0 <= i,
        1 <= pat.len(),
    ensures
        match first_occ_from(s, pat, i) {
            Some(q) => i <= q && starts_with(s, q, pat) && forall|p: int|
                i <= p < q ==> !starts_with(s, p, pat),
            None => forall|p: int| i <= p ==> !starts_with(s, p, pat),
        },
    decreases s.len() - i,
{
    if i + pat.len() > s.len() {
    } else if starts_with(s, i, pat) {
    } else {
        lemma_first_occ_props(s, pat, i + 1);
    }
}

/// Decides `is_digit`.
fn is_digit_exec(c: char) -> (b: bool)
    ensures
        b == is_digit(c),
{
    c == '0' || c == '1' || c == '2' || c == '3' || c == '4' || c == '5' || c == '6' || c == '7'
        || c == '8' || c == '9'
}

/// Decides `is_space`.
fn is_space_exec(c: char) -> (b: bool)
    ensures
        b == is_space(c),
{
    c == '\t' || c == '\n' || c == '\u{B}' || c == '\u{C}' || c == '\r' || c == ' '
        || c == '\u{85}' || c == '\u{A0}' || c == '\u{1680}' || c == '\u{2000}' || c == '\u{2001}'
        || c == '\u{2002}' || c == '\u{2003}' || c == '\u{2004}' || c == '\u{2005}'
        || c == '\u{2006}' || c == '\u{2007}' || c == '\u{2008}' || c == '\u{2009}'
        || c == '\u{200A}' || c == '\u{2028}' || c == '\u{2029}' || c == '\u{202F}'
        || c == '\u{205F}' || c == '\u{3000}'
}

/// Decides `starts_with`.
fn starts_with_at(s: &Vec<char>, i: usize, pat: &Vec<char>) -> (b: bool)
    ensures
        b == starts_with(s@, i as int, pat@),
{
    if i > s.len() || s.len() - i < pat.len() {
        return false;
    }
    let mut t: usize = 0;
    while t < pat.len()
        invariant
            0 <= t <= pat@.len(),
            i + pat@.len() <= s@.len(),
            s@.len() <= usize::MAX,
            forall|u: int| 0 <= u < t ==> s@[i + u] == #[trigger] pat@[u],
        decreases pat@.len() - t,
    {
        if s[i + t] != pat[t] {
            assert(!starts_with(s@, i as int, pat@));
            return false;
        }
        t = t + 1;
    }
    true
}

/// Computes `digit_run`.
fn digit_run_exec(s: &Vec<char>, i: usize) -> (n: usize)
    requires
        i <= s@.len(),
    ensures
        n == digit_run(s@, i as int),
        i + n <= s@.len(),
{
    let mut j: usize = i;
    while j < s.len() && is_digit_exec(s[j])
        invariant
            i <= j <= s@.len(),
            digit_run(s@, i as int) == j - i + digit_run(s@, j as int),
        decreases s@.len() - j,
    {
        j = j + 1;
    }
    j - i
}

/// Computes `nonspace_run`.
fn nonspace_run_exec(s: &Vec<char>, i: usize) -> (n: usize)
    requires
        i <= s@.len(),
    ensures
        n == nonspace_run(s@, i as int),
        i + n <= s@.len(),
{
    let mut j: usize = i;
    while j < s.len() && !is_space_exec(s[j])
        invariant
            i <= j <= s@.len(),
            nonspace_run(s@, i as int) == j - i + nonspace_run(s@, j as int),
        decreases s@.len() - j,
    {
        j = j + 1;
    }
    j - i
}

/// The characters of `http_scheme`.
fn http_vec() -> (v: Vec<char>)
    ensures
        v@ == http_scheme(),
{
    let mut v: Vec<char> = Vec::new();
    v.push('h');
    v.push('t');
    v.push('t');
    v.push('p');
    v.push(':');
    v.push('/');
    v.push('/');
    proof {
        assert(v@ =~= http_scheme());
    }
    v
}

/// The characters of `https_scheme`.
fn https_vec() -> (v: Vec<char>)
    ensures
        v@ == https_scheme(),
{
    let mut v: Vec<char> = Vec::new();
    v.push('h');
    v.push('t');
    v.push('t');
    v.push('p');
    v.push('s');
    v.push(':');
    v.push('/');
    v.push('/');
    proof {
        assert(v@ =~= https_scheme());
    }
    v
}

/// The characters of `broken_host`.
fn host_vec() -> (v: Vec<char>)
    ensures
        v@ == broken_host(),
{
    let mut v: Vec<char> = Vec::new();
    v.push('m');
    v.push('e');
    v.push('d');
    v.push('i');
    v.push('a');
    v.push('.');
    v.push('d');
    v.push('i');
    v.push('s');
    v.push('c');
    v.push('o');
    v.push('r');
    v.push('d');
    v.push('a');
    v.push('p');
    v.push('p');
    v.push('.');
    v.push('n');
    v.push('e');
    v.push('t');
    proof {
        assert(v@ =~= broken_host());
    }
    v
}

/// The characters of `fixed_host`.
fn cdn_vec() -> (v: Vec<char>)
    ensures
        v@ == fixed_host(),
{
    let mut v: Vec<char> = Vec::new();
    v.push('c');
    v.push('d');
    v.push('n');
    v.push('.');
    v.push('d');
    v.push('i');
    v.push('s');
    v.push('c');
    v.push('o');
    v.push('r');
    v.push('d');
    v.push('a');
    v.push('p');
    v.push('p');
    v.push('.');
    v.push('c');
    v.push('o');
    v.push('m');
    proof {
        assert(v@ =~= fixed_host());
    }
    v
}

/// The characters of `attachments_path`.
fn path_vec() -> (v: Vec<char>)
    ensures
        v@ == attachments_path(),
{
    let mut v: Vec<char> = Vec::new();
    v.push('/');
    v.push('a');
    v.push('t');
    v.push('t');
    v.push('a');
    v.push('c');
    v.push('h');
    v.push('m');
    v.push('e');
    v.push('n');
    v.push('t');
    v.push('s');
    v.push('/');
    proof {
        assert(v@ =~= attachments_path());
    }
    v
}

/// Decides whether a match begins at `i` and, if one does, where it ends.
fn match_at(text: &Vec<char>, i: usize) -> (r: Option<usize>)
    requires
        i < text@.len(),
    ensures
        match r {
            Some(e) => has_match_at(text@, i as int) && e == match_end(text@, i as int),
            None => !has_match_at(text@, i as int),
        },
{
    proof {
        assert(text.len() == text@.len());
    }
    let https = https_vec();
    let http = http_vec();
    let host = host_vec();
    let path = path_vec();
    let k: usize = if starts_with_at(text, i, &https) {
        8
    } else if starts_with_at(text, i, &http) {
        7
    } else {
        return None;
    };
    let h = i + k;
    if !starts_with_at(text, h, &host) {
        return None;
    }
    let hp = h + 20;
    if !starts_with_at(text, hp, &path) {
        return None;
    }
    let j = hp + 13;
    let d1 = digit_run_exec(text, j);
    if !(d1 == 18 || d1 == 19) {
        return None;
    }
    if j + d1 == text.len() || text[j + d1] != '/' {
        return None;
    }
    let j2 = j + d1 + 1;
    let d2 = digit_run_exec(text, j2);
    if !(d2 == 18 || d2 == 19) {
        return None;
    }
    if j2 + d2 == text.len() || text[j2 + d2] != '/' {
        return None;
    }
    let p = j2 + d2 + 1;
    let r = nonspace_run_exec(text, p);
    Some(p + r)
}

/// Copies `s[from..to]` out into a fresh vector.
fn copy_range(s: &Vec<char>, from: usize, to: usize) -> (out: Vec<char>)
    requires
        from <= to <= s@.len(),
    ensures
        out@ == s@.subrange(from as int, to as int),
{
    let mut out: Vec<char> = Vec::new();
    let mut t: usize = from;
    while t < to
        invariant
            from <= t <= to <= s@.len(),
            out@ == s@.subrange(from as int, t as int),
        decreases to - t,
    {
        out.push(s[t]);
        proof {
            assert(out@ =~= s@.subrange(from as int, (t + 1) as int));
        }
        t = t + 1;
    }
    out
}

/// Appends `s[from..to]` to `out`.
pub(crate) fn append_range(out: &mut Vec<char>, s: &Vec<char>, from: usize, to: usize)
    requires
        from <= to <= s@.len(),
    ensures
        final(out)@ == old(out)@ + s@.subrange(from as int, to as int),
{
    let mut t: usize = from;
    while t < to
        invariant
            from <= t <= to <= s@.len(),
            out@ == old(out)@ + s@.subrange(from as int, t as int),
        decreases to - t,
    {
        out.push(s[t]);
        proof {
            assert(out@ =~= old(out)@ + s@.subrange(from as int, (t + 1) as int));
        }
        t = t + 1;
    }
    proof {
        assert(out@ =~= old(out)@ + s@.subrange(from as int, to as int));
    }
}

/// Finds the first occurrence of `pat` in `s`, if any.
fn find_first(s: &Vec<char>, pat: &Vec<char>) -> (r: Option<usize>)
    requires
        1 <= pat@.len(),
    ensures
        match r {
            Some(q) => first_occ(s@, pat@) == Some(q as int),
            None => first_occ(s@, pat@) is None,
        },
{
    if pat.len() > s.len() {
        return None;
    }
    let mut i: usize = 0;
    while i <= s.len() - pat.len()
        invariant
            0 <= i <= s@.len(),
            1 <= pat@.len() <= s@.len(),
            first_occ(s@, pat@) == first_occ_from(s@, pat@, i as int),
        decreases s@.len() - i,
    {
        if starts_with_at(s, i, pat) {
            return Some(i);
        }
        i = i + 1;
    }
    None
}

/// Replaces the first occurrence of `pat` in `s`, if any, with `rep`.
fn replace_first_exec(s: &Vec<char>, pat: &Vec<char>, rep: &Vec<char>) -> (out: Vec<char>)
    requires
        1 <= pat@.len(),
    ensures
        out@ == replace_first(s@, pat@, rep@),
{
    match find_first(s, pat) {
        None => {
            let out = copy_range(s, 0, s.len());
            proof {
                assert(out@ =~= s@);
            }
            out
        },
        Some(q) => {
            proof {
                assert(s.len() == s@.len());
                lemma_first_occ_props(s@, pat@, 0);
            }
            let mut out: Vec<char> = Vec::new();
            append_range(&mut out, s, 0, q);
            append_range(&mut out, rep, 0, rep.len());
            append_range(&mut out, s, q + pat.len(), s.len());
            proof {
                assert(rep@.subrange(0, rep@.len() as int) =~= rep@);
                assert(out@ =~= s@.subrange(0, q as int) + rep@ + s@.subrange(
                    q + pat@.len(),
                    s@.len() as int,
                ));
            }
            out
        },
    }
}

/// Applies `rewrite_spec` to one matched substring.
fn rewrite_match(m: &Vec<char>) -> (out: Vec<char>)
    ensures
        out@ == rewrite_spec(m@),
{
    let http = http_vec();
    let https = https_vec();
    let host = host_vec();
    let cdn = cdn_vec();
    let step1 = replace_first_exec(m, &http, &https);
    replace_first_exec(&step1, &host, &cdn)
}

/// One broken link found by a scan: where it starts in the scanned text, the
/// matched substring itself, and its rewritten (canonical) form.
pub struct LinkMatch {
    pub start: usize,
    pub text: Vec<char>,
    pub fixed: Vec<char>,
}

/// What `find_broken_links` promises of each entry it returns.
pub open spec fn link_match_ok(s: Seq<char>, lm: LinkMatch, st: int) -> bool {
    &&& lm.start == st
    &&& has_match_at(s, st)
    &&& lm.text@ == match_text(s, st)
    &&& lm.fixed@ == rewrite_spec(match_text(s, st))
}

/// The starts recorded in a sequence of scan results.
spec fn out_starts(v: Seq<LinkMatch>) -> Seq<int> {
    Seq::new(v.len(), |k: int| v[k].start as int)
}

/// Scans `text` and returns every broken link in order of first occurrence
/// (non-overlapping; each occurrence reported and rewritten independently).
pub fn find_broken_links(text: &Vec<char>) -> (out: Vec<LinkMatch>)
    ensures
        out@.len() == match_starts(text@).len(),
        forall|k: int|
            0 <= k < out@.len() ==> link_match_ok(text@, #[trigger] out@[k], match_starts(text@)[k]),
{
    let mut out: Vec<LinkMatch> = Vec::new();
    let mut i: usize = 0;
    while i < text.len()
        invariant
            0 <= i <= text@.len(),
            match_starts(text@) == out_starts(out@) + match_starts_from(text@, i as int),
            forall|k: int|
                0 <= k < out@.len() ==> link_match_ok(
                    text@,
                    #[trigger] out@[k],
                    out@[k].start as int,
                ),
        decreases text@.len() - i,
    {
        match match_at(text, i) {
            Some(e) => {
                proof {
                    lemma_match_bounds(text@, i as int);
                    lemma_match_step(text@, i as int);
                }
                let ghost prev = out@;
                let t = copy_range(text, i, e);
                let fixed = rewrite_match(&t);
                let lm = LinkMatch { start: i, text: t, fixed };
                out.push(lm);
                proof {
                    assert(out_starts(out@) =~= out_starts(prev) + seq![i as int]);
                    assert(match_starts(text@) =~= out_starts(out@) + match_starts_from(
                        text@,
                        e as int,
                    ));
                }
                i = e;
            },
            None => {
                i = i + 1;
            },
        }
    }
    proof {
        assert(match_starts_from(text@, i as int) == Seq::<int>::empty());
        assert(match_starts(text@) =~= out_starts(out@));
        assert forall|k: int|
            0 <= k < out@.len() implies link_match_ok(
            text@,
            #[trigger] out@[k],
            match_starts(text@)[k],
        ) by {
            assert(match_starts(text@)[k] == out_starts(out@)[k]);
            assert(out_starts(out@)[k] == out@[k].start as int);
        }
    }
    out
}

/// True when `text` contains at least one broken link.
pub fn has_broken_link(text: &Vec<char>) -> (b: bool)
    ensures
        b == (match_starts(text@).len() > 0),
{
    let found = find_broken_links(text);
    found.len() > 0
}

/// Scanning from `i` reports only positions where the pattern holds.
proof fn lemma_scan_sound_from(s: Seq<char>, i: int)
    requires
        0 <= i,
    ensures
        forall|k: int|
            0 <= k < match_starts_from(s, i).len() ==> has_match_at(
                s,
                #[trigger] match_starts_from(s, i)[k],
            ),
    decreases s.len() - i,
{
    if i >= s.len() {
    } else if has_match_at(s, i) {
        let e = match_end(s, i);
        let step: int = if i < e && e <= s.len() {
            e - i
        } else {
            1
        };
        lemma_scan_sound_from(s, i + step);
        assert(match_starts_from(s, i) == seq![i] + match_starts_from(s, i + step));
        assert forall|k: int|
            0 <= k < match_starts_from(s, i).len() implies has_match_at(
            s,
            #[trigger] match_starts_from(s, i)[k],
        ) by {
            if k == 0 {
                assert(match_starts_from(s, i)[0] == i);
            } else {
                assert(match_starts_from(s, i)[k] == match_starts_from(s, i + step)[k - 1]);
            }
        }
    } else {
        lemma_scan_sound_from(s, i + 1);
        assert(match_starts_from(s, i) == match_starts_from(s, i + 1));
    }
}

/// Scanning from `i` reports nothing when the pattern holds nowhere.
proof fn lemma_no_match_empty_from(s: Seq<char>, i: int)
    requires
        0 <= i,
        forall|j: int| !has_match_at(s, j),
    ensures
        match_starts_from(s, i).len() == 0,
    decreases s.len() - i,
{
    if i >= s.len() {
    } else {
        lemma_no_match_empty_from(s, i + 1);
    }
}

/// Law: a scan reports only positions where the broken-link pattern holds,
/// and text in which the pattern holds nowhere yields the empty result.
pub proof fn lemma_scan_sound(s: Seq<char>)
    ensures
        forall|k: int|
            0 <= k < match_starts(s).len() ==> has_match_at(s, #[trigger] match_starts(s)[k]),
        (forall|i: int| !has_match_at(s, i)) ==> match_starts(s).len() == 0,
{
    lemma_scan_sound_from(s, 0);
    if forall|i: int| !has_match_at(s, i) {
        lemma_no_match_empty_from(s, 0);
    }
}

/// Text with no occurrence of the broken host holds no match at all: every
/// match carries the broken host right after its scheme.
pub proof fn lemma_no_host_no_match(s: Seq<char>)
    requires
        forall|p: int| !starts_with(s, p, broken_host()),
    ensures
        match_starts(s).len() == 0,
{
    assert forall|i: int| !has_match_at(s, i) by {
        if has_match_at(s, i) {
            assert(starts_with(s, i + scheme_len(s, i), broken_host()));
        }
    }
    lemma_no_match_empty_from(s, 0);
}


/// Every character inside a non-whitespace run is non-whitespace.
proof fn lemma_nonspace_run_chars(s: Seq<char>, i: int)
    requires
        0 <= i <= s.len(),
    ensures
        forall|t: int| i <= t < i + nonspace_run(s, i) ==> !is_space(#[trigger] s[t]),
    decreases s.len() - i,
{
    if i < s.len() && !is_space(s[i]) {
        lemma_nonspace_run_chars(s, i + 1);
    }
}

/// On a run of characters that stays non-whitespace up to the end of the
/// text, the run reaches the end of the text.
proof fn lemma_nonspace_run_full(v: Seq<char>, r: int)
    requires
        0 <= r <= v.len(),
        forall|t: int| r <= t < v.len() ==> !is_space(#[trigger] v[t]),
    ensures
        nonspace_run(v, r) == v.len() - r,
    decreases v.len() - r,
{
    if r < v.len() {
        lemma_nonspace_run_full(v, r + 1);
    }
}

/// A digit run whose terminator lies inside the window `s[st..e]` is the
/// same run inside the window.
proof fn lemma_digit_run_transfer(s: Seq<char>, st: int, e: int, j: int)
    requires
        0 <= st <= j <= e <= s.len(),
        j + digit_run(s, j) < e,
    ensures
        digit_run(s.subrange(st, e), j - st) == digit_run(s, j),
    decreases e - j,
{
    let sub = s.subrange(st, e);
    lemma_digit_run_bounds(s, j);
    assert(sub[j - st] == s[j]);
    if is_digit(s[j]) {
        lemma_digit_run_transfer(s, st, e, j + 1);
    }
}

/// A pattern occurs inside the window `s[st..e]` exactly where it occurs in
/// `s`, as long as it would fit in the window.
proof fn lemma_starts_with_transfer(s: Seq<char>, st: int, e: int, r: int, pat: Seq<char>)
    requires
        0 <= st <= e <= s.len(),
        0 <= r,
        st + r + pat.len() <= e,
    ensures
        starts_with(s.subrange(st, e), r, pat) == starts_with(s, st + r, pat),
{
    let sub = s.subrange(st, e);
    assert forall|t: int| 0 <= t < pat.len() implies #[trigger] sub[r + t] == s[st + r + t] by {}
    if starts_with(sub, r, pat) {
        assert forall|t: int| 0 <= t < pat.len() implies s[st + r + t] == pat[t] by {
            assert(sub[r + t] == pat[t]);
        }
    }
    if starts_with(s, st + r, pat) {
        assert forall|t: int| 0 <= t < pat.len() implies sub[r + t] == pat[t] by {
            assert(s[st + r + t] == pat[t]);
        }
    }
}

/// A matched substring is, taken on its own, one whole match: the pattern
/// holds at its start, with the same scheme, and the match spans all of it.
/// This carries what the scan reports into `lemma_rewrite_idempotent`.
pub proof fn lemma_match_text_is_match(s: Seq<char>, st: int)
    requires
        0 <= st,
        has_match_at(s, st),
    ensures
        has_match_at(match_text(s, st), 0),
        match_end(match_text(s, st), 0) == match_text(s, st).len(),
        scheme_len(match_text(s, st), 0) == scheme_len(s, st),
{
    lemma_match_bounds(s, st);
    let e = match_end(s, st);
    let m = match_text(s, st);
    let k = scheme_len(s, st);
    lemma_starts_with_transfer(s, st, e, 0, https_scheme());
    lemma_starts_with_transfer(s, st, e, 0, http_scheme());
    assert(scheme_len(m, 0) == k);
    lemma_starts_with_transfer(s, st, e, k, broken_host());
    lemma_starts_with_transfer(s, st, e, k + 20, attachments_path());
    let j = st + k + 33;
    let d1 = digit_run(s, j);
    let j2 = j + d1 + 1;
    let d2 = digit_run(s, j2);
    let p = j2 + d2 + 1;
    lemma_nonspace_run_bounds(s, p);
    assert(e == p + nonspace_run(s, p));
    assert(j + d1 < e);
    assert(j2 + d2 < e);
    lemma_digit_run_transfer(s, st, e, j);
    assert(m[j - st + d1] == s[j + d1]);
    lemma_digit_run_transfer(s, st, e, j2);
    assert(m[j2 - st + d2] == s[j2 + d2]);
    assert(snowflake_ok(m, k + 33));
    assert(snowflake_ok(m, k + 33 + d1 + 1));
    lemma_nonspace_run_chars(s, p);
    assert forall|t: int| p - st <= t < m.len() implies !is_space(#[trigger] m[t]) by {
        assert(m[t] == s[st + t]);
    }
    lemma_nonspace_run_full(m, p - st);
    assert(match_end(m, 0) == (p - st) + (e - p));
}

/// After swapping the one broken host of `w` (sitting right after a
/// `https://` prefix and followed by a `/`) for the canonical host, the
/// broken host occurs nowhere, so nothing matches any more.
proof fn lemma_host_swap_clears(w: Seq<char>)
    requires
        29 <= w.len(),
        w.subrange(0, 8) == https_scheme(),
        starts_with(w, 8, broken_host()),
        forall|p: int| starts_with(w, p, broken_host()) ==> p == 8,
        w[28] == '/',
    ensures
        match_starts(replace_first(w, broken_host(), fixed_host())).len() == 0,
{
    let host = broken_host();
    lemma_first_occ_props(w, host, 0);
    let q1 = first_occ(w, host)->Some_0;
    assert(first_occ(w, host) is Some);
    assert(q1 == 8);
    let w2 = replace_first(w, host, fixed_host());
    assert(w2 == w.subrange(0, 8) + fixed_host() + w.subrange(28, w.len() as int));
    assert(w2.len() == w.len() - 2);
    assert forall|x: int| 0 <= x < 8 implies w2[x] == https_scheme()[x] by {
        assert(w2[x] == w.subrange(0, 8)[x]);
    }
    assert forall|u: int| 0 <= u < w2.len() - 26 implies #[trigger] w2[26 + u] == w[28 + u] by {}
    assert forall|p: int| !starts_with(w2, p, host) by {
        if 0 <= p && p + 20 <= w2.len() {
            if p < 8 {
                assert(w2[p] == https_scheme()[p]);
                assert(https_scheme()[p] != 'm');
                assert(!(w2[p + 0] == host[0]));
            } else if p < 25 {
                assert(w2[p] == fixed_host()[p - 8]);
                assert(fixed_host()[p - 8] != 'm');
                assert(!(w2[p + 0] == host[0]));
            } else if p == 25 {
                assert(w2[26] == w[28]);
                assert(host[1] == 'e');
                assert(!(w2[p + 1] == host[1]));
            } else {
                if starts_with(w2, p, host) {
                    assert forall|t: int| 0 <= t < 20 implies w[p + 2 + t] == host[t] by {
                        assert(w2[p + t] == host[t]);
                        assert(w2[26 + (p - 26 + t)] == w[28 + (p - 26 + t)]);
                    }
                    assert(starts_with(w, p + 2, host));
                    assert(false);
                }
            }
        }
    }
    lemma_no_host_no_match(w2);
}

/// Law (the rewrite is idempotent): the rewritten form of a matched substring
/// contains no broken link any more, provided the matched substring carries
/// the broken host only as its own host. (A match whose trailing part embeds
/// a second broken link keeps that embedded link, so such inputs are
/// excluded.)
#[verifier::rlimit(100)]
pub proof fn lemma_rewrite_idempotent(m: Seq<char>)
    requires
        has_match_at(m, 0),
        forall|p: int| starts_with(m, p, broken_host()) ==> p == scheme_len(m, 0),
    ensures
        match_starts(rewrite_spec(m)).len() == 0,
{
    let k = scheme_len(m, 0);
    let host = broken_host();
    let http = http_scheme();
    let https = https_scheme();
    assert forall|t: int| 0 <= t < 20 implies host[t] != 'h' by {}
    assert(starts_with(m, k, host));
    assert(starts_with(m, k + 20, attachments_path()));
    assert(m[k + 20] == attachments_path()[0]);
    assert(m[k + 20] == '/');
    lemma_match_bounds(m, 0);
    let m1 = replace_first(m, http, https);
    lemma_first_occ_props(m, http, 0);

    if k == 7 {
        // The match's own scheme is the first occurrence of `http://`, at 0.
        assert(starts_with(m, 0, http));
        let q = first_occ(m, http)->Some_0;
        assert(first_occ(m, http) is Some);
        assert(q == 0);
        assert(m1 == m.subrange(0, 0) + https + m.subrange(7, m.len() as int));
        assert(m1.len() == m.len() + 1);
        assert forall|x: int| 0 <= x < 8 implies #[trigger] m1[x] == https[x] by {}
        assert forall|x: int| 8 <= x < m1.len() implies #[trigger] m1[x] == m[x - 1] by {}
        assert(m1.subrange(0, 8) =~= https);
        assert(starts_with(m1, 8, host)) by {
            assert forall|t: int| 0 <= t < 20 implies m1[8 + t] == host[t] by {
                assert(m1[8 + t] == m[7 + t]);
            }
        }
        assert forall|y: int| starts_with(m1, y, host) implies y == 8 by {
            if 0 <= y < 8 {
                assert(m1[y] == https[y]);
                assert(https[y] != 'm');
                assert(!(m1[y + 0] == host[0]));
            } else if y >= 8 {
                assert forall|t: int| 0 <= t < 20 implies m[y - 1 + t] == host[t] by {
                    assert(m1[y + t] == host[t]);
                    assert(m1[y + t] == m[y + t - 1]);
                }
                assert(starts_with(m, y - 1, host));
            }
        }
        assert(m1[28] == m[27]);
    } else {
        // The match's own scheme is already `https://`.
        assert(starts_with(m, 0, https));
        assert(m.subrange(0, 8) =~= https);
        if first_occ(m, http) is Some {
            // A stray `http://` occurs in the trailing part of the match: its
            // replacement inserts one `s` well after the host.
            let q = first_occ(m, http)->Some_0;
            assert(starts_with(m, q, http));
            assert(m[q + 0] == http[0]);
            assert(q != 0) by {
                if q == 0 {
                    assert(m[4int] == http[4]);
                    assert(m[4int] == https[4]);
                }
            }
            assert(29 <= q) by {
                if q < 8 {
                    assert(m[q] == https[q]);
                    assert(https[q] != 'h' || q == 0);
                } else if q < 28 {
                    assert(m[q] == host[q - 8]);
                } else if q == 28 {
                    assert(m[28] == '/');
                }
            }
            assert(m1 == m.subrange(0, q) + https + m.subrange(q + 7, m.len() as int));
            assert(m1.len() == m.len() + 1);
            assert forall|x: int| 0 <= x < q implies #[trigger] m1[x] == m[x] by {}
            assert forall|u: int| 0 <= u < 8 implies #[trigger] m1[q + u] == https[u] by {}
            assert forall|x: int| q + 8 <= x < m1.len() implies #[trigger] m1[x] == m[x - 1] by {}
            assert(m1.subrange(0, 8) =~= https);
            assert(starts_with(m1, 8, host)) by {
                assert forall|t: int| 0 <= t < 20 implies m1[8 + t] == host[t] by {
                    assert(m1[8 + t] == m[8 + t]);
                }
            }
            assert forall|y: int| starts_with(m1, y, host) implies y == 8 by {
                if 0 <= y && y + 20 <= q {
                    assert forall|t: int| 0 <= t < 20 implies m[y + t] == host[t] by {
                        assert(m1[y + t] == host[t]);
                        assert(m1[y + t] == m[y + t]);
                    }
                    assert(starts_with(m, y, host));
                } else if y >= q + 8 {
                    assert forall|t: int| 0 <= t < 20 implies m[y - 1 + t] == host[t] by {
                        assert(m1[y + t] == host[t]);
                        assert(m1[y + t] == m[y + t - 1]);
                    }
                    assert(starts_with(m, y - 1, host));
                    assert(false);
                } else if y >= q {
                    // The supposed host would begin inside the inserted token.
                    assert(m1[y] == https[y - q]);
                    assert(https[y - q] != 'm');
                    assert(!(m1[y + 0] == host[0]));
                    assert(false);
                } else {
                    // The supposed host would span the inserted `h`, which the
                    // broken host does not contain.
                    assert(m1[q] == https[0]);
                    assert(m1[y + (q - y)] == host[q - y]);
                    assert(false);
                }
            }
            assert(m1[28] == m[28]);
        } else {
            // No `http://` anywhere: the scheme replacement changes nothing.
            assert(m1 == m);
            assert(starts_with(m1, 8, host));
            assert forall|y: int| #[trigger] starts_with(m1, y, host) implies y == 8 by {}
            assert(m1[28] == m[28]);
        }
    }
    assert(m1.subrange(0, 8) == https);
    assert(m1[28] == '/');
    lemma_host_swap_clears(m1);
}

/// Law, stated on the scan's own output: rewriting a link the scan reported
/// and scanning the result finds nothing further, under the occurrence
/// condition of `lemma_rewrite_idempotent` on the matched substring.
pub proof fn lemma_scan_output_idempotent(s: Seq<char>, k: int)
    requires
        0 <= k < match_starts(s).len(),
        forall|p: int|
            starts_with(match_text(s, match_starts(s)[k]), p, broken_host()) ==> p == scheme_len(
                match_text(s, match_starts(s)[k]),
                0,
            ),
    ensures
        match_starts(rewrite_spec(match_text(s, match_starts(s)[k]))).len() == 0,
{
    lemma_scan_sound(s);
    let st = match_starts(s)[k];
    assert(st >= 0) by {
        assert(has_match_at(s, st));
    }
    lemma_match_text_is_match(s, st);
    lemma_rewrite_idempotent(match_text(s, st));
}

} // verus!
