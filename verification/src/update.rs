//! Release checks: picking string fields out of the release feed and
//! comparing dotted version numbers.

use vstd::prelude::*;

use crate::text::{
    chars_of, extend_str, find_char, find_char_from, lemma_find_char_none, lemma_find_char_unique,
    string_of, sub_chars, trim_start_matches,
};

verus! {

/// A release that is newer than the running build.
pub struct ReleaseInfo {
    pub version: String,
    pub download_url: String,
    pub body: String,
}

// ---------------------------------------------------------------------
// Substring search
// ---------------------------------------------------------------------

/// `p` occurs in `s` at position `i`.
pub open spec fn occurs_at(s: Seq<char>, p: Seq<char>, i: int) -> bool {
    0 <= i && i + p.len() <= s.len() && s.subrange(i, i + p.len()) == p
}

/// First position `>= i` at which `p` occurs in `s`, or `-1`.
pub open spec fn find_sub_from(s: Seq<char>, p: Seq<char>, i: int) -> int
    decreases s.len() + 1 - i,
{
    if i < 0 || i + p.len() > s.len() {
        -1
    } else if occurs_at(s, p, i) {
        i
    } else {
        find_sub_from(s, p, i + 1)
    }
}

/// `str::find` with a string pattern, counted in characters.
pub open spec fn find_sub(s: Seq<char>, p: Seq<char>) -> int {
    find_sub_from(s, p, 0)
}

fn occurs_at_exec(s: &[char], p: &[char], i: usize) -> (r: bool)
    requires
        i + p@.len() <= s@.len(),
    ensures
        r == occurs_at(s@, p@, i as int),
{
    let mut k: usize = 0;
    while k < p.len()
        invariant
            i + p@.len() <= s@.len(),
            s@.len() == s.len(),
            k <= p@.len(),
            forall|j: int| 0 <= j < k ==> s@[i + j] == p@[j],
        decreases p@.len() - k,
    {
        if s[i + k] != p[k] {
            assert(s@.subrange(i as int, i + p@.len())[k as int] != p@[k as int]);
            return false;
        }
        k = k + 1;
    }
    assert(s@.subrange(i as int, i + p@.len()) =~= p@);
    true
}

pub(crate) fn find_sub_exec(s: &[char], p: &[char]) -> (r: Option<usize>)
    ensures
        match r {
            Some(i) => find_sub(s@, p@) == i,
            None => find_sub(s@, p@) == -1,
        },
{
    if p.len() > s.len() {
        return None;
    }
    let last = s.len() - p.len();
    let mut i: usize = 0;
    loop
        invariant
            last + p@.len() == s@.len(),
            i <= last,
            find_sub(s@, p@) == find_sub_from(s@, p@, i as int),
        decreases last - i,
    {
        if occurs_at_exec(s, p, i) {
            return Some(i);
        }
        if i == last {
            assert(find_sub_from(s@, p@, i + 1) == -1);
            return None;
        }
        i = i + 1;
    }
}

// ---------------------------------------------------------------------
// Picking a string field out of a JSON text
// ---------------------------------------------------------------------

/// Position of the `'"'` that closes a JSON string whose contents start at
/// `v[i]` (with `escaping` telling whether `v[i]` follows a backslash), or
/// `-1` when the string never closes.
pub open spec fn string_end(v: Seq<char>, i: int, escaping: bool) -> int
    decreases v.len() - i,
{
    if i < 0 || i >= v.len() {
        -1
    } else if escaping {
        string_end(v, i + 1, false)
    } else if v[i] == '\\' {
        string_end(v, i + 1, true)
    } else if v[i] == '"' {
        i
    } else {
        string_end(v, i + 1, false)
    }
}

/// The quoted form of a key: `"key"`.
pub open spec fn quoted(key: Seq<char>) -> Seq<char> {
    seq!['"'] + key + seq!['"']
}

/// Where the raw (still escaped) string value of `key` lies in `json`, as
/// a pair of character positions: the text after the first occurrence of
/// `"key"`, past the next `:`, past the next `"`, up to the first
/// unescaped `"`.
pub open spec fn json_string_span(json: Seq<char>, key: Seq<char>) -> Option<(int, int)> {
    let k = find_sub(json, quoted(key));
    if k < 0 {
        None
    } else {
        let a = k + quoted(key).len();
        let colon = find_char(json.skip(a), ':');
        if colon < 0 {
            None
        } else {
            let b = a + colon + 1;
            let q = find_char(json.skip(b), '"');
            if q < 0 {
                None
            } else {
                let start = b + q + 1;
                let e = string_end(json.skip(start), 0, false);
                if e < 0 {
                    None
                } else {
                    Some((start, start + e))
                }
            }
        }
    }
}

/// The raw string value of `key` in `json`, if present.
pub open spec fn json_string_value(json: Seq<char>, key: Seq<char>) -> Option<Seq<char>> {
    match json_string_span(json, key) {
        Some(span) => Some(json.subrange(span.0, span.1)),
        None => None,
    }
}

proof fn lemma_find_sub_from_bounds(s: Seq<char>, p: Seq<char>, i: int)
    ensures
        find_sub_from(s, p, i) == -1 || (i <= find_sub_from(s, p, i) && find_sub_from(s, p, i)
            + p.len() <= s.len()),
    decreases s.len() + 1 - i,
{
    if !(i < 0 || i + p.len() > s.len()) && !occurs_at(s, p, i) {
        lemma_find_sub_from_bounds(s, p, i + 1);
    }
}

fn quoted_key(key: &str) -> (r: Vec<char>)
    ensures
        r@ == quoted(key@),
{
    let mut q: Vec<char> = Vec::new();
    q.push('"');
    extend_str(&mut q, key);
    q.push('"');
    proof {
        assert(q@ =~= quoted(key@));
    }
    q
}

/// The end of the JSON string whose contents start at `v[from]`.
fn string_end_exec(v: &[char], from: usize) -> (r: Option<usize>)
    requires
        from <= v@.len(),
    ensures
        match r {
            Some(e) => string_end(v@.skip(from as int), 0, false) == e - from && from <= e
                < v@.len(),
            None => string_end(v@.skip(from as int), 0, false) == -1,
        },
{
    let ghost w = v@.skip(from as int);
    let mut escaping = false;
    let mut i = from;
    while i < v.len()
        invariant
            from <= i <= v@.len(),
            w == v@.skip(from as int),
            string_end(w, 0, false) == string_end(w, i - from, escaping),
        decreases v@.len() - i,
    {
        let ch = v[i];
        assert(w[i - from] == ch);
        if escaping {
            escaping = false;
        } else if ch == '\\' {
            escaping = true;
        } else if ch == '"' {
            return Some(i);
        }
        i = i + 1;
    }
    None
}

/// The raw string value of `key` in the JSON text `json`: the text after
/// the first `"key"`, its next `:` and the next `"`, up to the first
/// unescaped `"`. Escapes are kept as they are.
pub fn extract_json_string<'a>(json: &'a str, key: &str) -> (r: Option<&'a str>)
    ensures
        match r {
            Some(v) => json_string_value(json@, key@) == Some(v@),
            None => json_string_value(json@, key@).is_none(),
        },
{
    let s = chars_of(json);
    let search = quoted_key(key);
    let k = match find_sub_exec(s.as_slice(), search.as_slice()) {
        Some(k) => k,
        None => return None,
    };
    let n = s.len();
    let m = search.len();
    proof {
        lemma_find_sub_from_bounds(s@, search@, 0);
        assert(k + m <= n);
    }
    let a = k + m;
    let colon = match find_char_from(s.as_slice(), ':', a) {
        Some(c) => c,
        None => {
            proof {
                lemma_find_char_none(s@.skip(a as int), ':');
            }
            return None;
        },
    };
    proof {
        lemma_find_char_unique(s@.skip(a as int), ':', colon - a);
    }
    let b = colon + 1;
    let q = match find_char_from(s.as_slice(), '"', b) {
        Some(q) => q,
        None => {
            proof {
                lemma_find_char_none(s@.skip(b as int), '"');
            }
            return None;
        },
    };
    proof {
        lemma_find_char_unique(s@.skip(b as int), '"', q - b);
    }
    let start = q + 1;
    match string_end_exec(s.as_slice(), start) {
        Some(e) => {
            let v = json.substring_char(start, e);
            Some(v)
        },
        None => None,
    }
}

// ---------------------------------------------------------------------
// Version numbers
// ---------------------------------------------------------------------

pub open spec fn is_digit(c: char) -> bool {
    '0' <= c && c <= '9'
}

/// The pieces of `s` between characters that are not ASCII digits.
pub open spec fn digit_segments(s: Seq<char>) -> Seq<Seq<char>>
    decreases s.len(),
{
    if s.len() == 0 {
        seq![Seq::<char>::empty()]
    } else {
        let r = digit_segments(s.drop_last());
        if !is_digit(s.last()) {
            r.push(Seq::<char>::empty())
        } else {
            r.update(r.len() - 1, r.last().push(s.last()))
        }
    }
}

pub open spec fn non_empty(g: Seq<char>) -> bool {
    g.len() > 0
}

/// The maximal runs of ASCII digits in `s`, in order.
pub open spec fn digit_runs(s: Seq<char>) -> Seq<Seq<char>> {
    digit_segments(s).filter(|g: Seq<char>| non_empty(g))
}

/// The number a run of decimal digits stands for.
pub open spec fn digits_value(g: Seq<char>) -> nat
    decreases g.len(),
{
    if g.len() == 0 {
        0
    } else {
        digits_value(g.drop_last()) * 10 + ((g.last() as u32) - 48) as nat
    }
}

/// `u32`'s parse of a run of digits, with `0` when it does not fit.
pub open spec fn run_value(g: Seq<char>) -> u32 {
    if digits_value(g) <= u32::MAX {
        digits_value(g) as u32
    } else {
        0
    }
}

/// The `k`-th component of a version text, `0` when missing.
pub open spec fn component(s: Seq<char>, k: int) -> u32 {
    if k < digit_runs(s).len() {
        run_value(digit_runs(s)[k])
    } else {
        0
    }
}

/// `(major, minor, patch)`: the first three runs of digits.
pub open spec fn semver(s: Seq<char>) -> (u32, u32, u32) {
    (component(s, 0), component(s, 1), component(s, 2))
}

/// Lexicographic order on version triples.
pub open spec fn triple_gt(a: (u32, u32, u32), b: (u32, u32, u32)) -> bool {
    a.0 > b.0 || (a.0 == b.0 && (a.1 > b.1 || (a.1 == b.1 && a.2 > b.2)))
}

proof fn lemma_digits_value_grows(g: Seq<char>, c: char)
    requires
        is_digit(c),
    ensures
        digits_value(g.push(c)) >= digits_value(g),
        digits_value(g.push(c)) == digits_value(g) * 10 + ((c as u32) - 48) as nat,
{
    assert(g.push(c).drop_last() =~= g);
}

proof fn lemma_filter_push(a: Seq<Seq<char>>, x: Seq<char>)
    ensures
        a.push(x).filter(|g: Seq<char>| non_empty(g)) == (if non_empty(x) {
            a.filter(|g: Seq<char>| non_empty(g)).push(x)
        } else {
            a.filter(|g: Seq<char>| non_empty(g))
        }),
{
    reveal_with_fuel(Seq::filter, 1);
    assert(a.push(x).drop_last() =~= a);
}

/// Parses `major.minor.patch` from any text: the first three runs of ASCII
/// digits, each read as a `u32` (a run that does not fit, or a missing
/// run, reads as `0`).
pub fn parse_semver(v: &str) -> (r: (u32, u32, u32))
    ensures
        r == semver(v@),
{
    let s = chars_of(v);
    // values of the completed runs (at most three are kept)
    let mut vals: Vec<u32> = Vec::new();
    let mut cur: u64 = 0;
    let mut cur_len: usize = 0;
    let mut i: usize = 0;
    let ghost mut done: Seq<Seq<char>> = Seq::empty();
    proof {
        assert(s@.take(0) =~= Seq::<char>::empty());
    }
    while i < s.len()
        invariant
            i <= s@.len(),
            s@ == v@,
            digit_segments(s@.take(i as int)).len() >= 1,
            done == digit_segments(s@.take(i as int)).drop_last().filter(
                |g: Seq<char>| non_empty(g),
            ),
            cur_len == digit_segments(s@.take(i as int)).last().len(),
            cur_len <= i,
            cur <= u32::MAX + 1,
            cur == (if digits_value(digit_segments(s@.take(i as int)).last()) <= u32::MAX {
                digits_value(digit_segments(s@.take(i as int)).last()) as int
            } else {
                u32::MAX + 1
            }),
            vals@.len() == (if done.len() < 3 {
                done.len()
            } else {
                3
            }),
            forall|k: int| 0 <= k < vals@.len() ==> vals@[k] == run_value(#[trigger] done[k]),
        decreases s@.len() - i,
    {
        let c = s[i];
        let ghost prev = digit_segments(s@.take(i as int));
        proof {
            assert(s@.take(i + 1).drop_last() =~= s@.take(i as int));
            assert(s@.take(i + 1).last() == c);
        }
        if '0' <= c && c <= '9' {
            let d = (c as u32 - 48) as u64;
            proof {
                lemma_digits_value_grows(prev.last(), c);
            }
            if cur <= 4294967295 {
                let next = cur * 10 + d;
                cur = if next > 4294967295 {
                    4294967296
                } else {
                    next
                };
            }
            cur_len = cur_len + 1;
            proof {
                let ns = digit_segments(s@.take(i + 1));
                assert(ns.drop_last() =~= prev.drop_last());
            }
        } else {
            proof {
                let ns = digit_segments(s@.take(i + 1));
                assert(ns.drop_last() =~= prev);
                assert(prev =~= prev.drop_last().push(prev.last()));
                lemma_filter_push(prev.drop_last(), prev.last());
            }
            if cur_len > 0 {
                if vals.len() < 3 {
                    let value: u32 = if cur <= 4294967295 {
                        cur as u32
                    } else {
                        0
                    };
                    vals.push(value);
                }
                proof {
                    done = done.push(prev.last());
                }
            }
            cur = 0;
            cur_len = 0;
        }
        i = i + 1;
    }
    proof {
        assert(s@.take(s@.len() as int) =~= s@);
        let segs = digit_segments(s@);
        assert(segs =~= segs.drop_last().push(segs.last()));
        lemma_filter_push(segs.drop_last(), segs.last());
    }
    if cur_len > 0 && vals.len() < 3 {
        let value: u32 = if cur <= 4294967295 {
            cur as u32
        } else {
            0
        };
        vals.push(value);
    }
    let ghost runs = digit_runs(s@);
    let major = if vals.len() > 0 {
        vals[0]
    } else {
        0
    };
    let minor = if vals.len() > 1 {
        vals[1]
    } else {
        0
    };
    let patch = if vals.len() > 2 {
        vals[2]
    } else {
        0
    };
    (major, minor, patch)
}

/// `latest` names a later version than `current`.
pub fn is_newer(latest: &str, current: &str) -> (r: bool)
    ensures
        r == triple_gt(semver(latest@), semver(current@)),
{
    let a = parse_semver(latest);
    let b = parse_semver(current);
    a.0 > b.0 || (a.0 == b.0 && (a.1 > b.1 || (a.1 == b.1 && a.2 > b.2)))
}

// ---------------------------------------------------------------------
// Reading the release feed
// ---------------------------------------------------------------------

/// The page that lists releases, used when the feed names none.
pub open spec fn default_release_url() -> Seq<char> {
    "https://github.com/ccccyccccc/fastZIP/releases/latest"@
}

/// A string field of the feed, or `fallback` when it is missing.
pub open spec fn field_or(json: Seq<char>, key: Seq<char>, fallback: Seq<char>) -> Seq<char> {
    match json_string_value(json, key) {
        Some(v) => v,
        None => fallback,
    }
}

/// The version a feed announces: its `tag_name` (or `0.0.0`) without
/// leading `v`s.
pub open spec fn announced_version(json: Seq<char>) -> Seq<char> {
    trim_start_matches(field_or(json, "tag_name"@, "0.0.0"@), 'v')
}

/// What a release feed says when the running build is `current`: nothing
/// unless the announced version is newer; otherwise the version, the
/// `html_url` (or the release list) and the `body` (or nothing) as
/// `(version, download_url, body)`.
pub open spec fn release_from(json: Seq<char>, current: Seq<char>) -> Option<
    (Seq<char>, Seq<char>, Seq<char>),
> {
    let tag = announced_version(json);
    if !triple_gt(semver(tag), semver(current)) {
        None
    } else {
        Some((tag, field_or(json, "html_url"@, default_release_url()), field_or(json, "body"@, ""@)))
    }
}

/// Reads a release feed (the text the release endpoint answered) for a
/// build whose version is `current`.
pub fn release_from_response(body: &str, current: &str) -> (r: Option<ReleaseInfo>)
    ensures
        match r {
            Some(info) => release_from(body@, current@) == Some(
                (info.version@, info.download_url@, info.body@),
            ),
            None => release_from(body@, current@).is_none(),
        },
{
    let tag_raw: &str = match extract_json_string(body, "tag_name") {
        Some(t) => t,
        None => "0.0.0",
    };
    let tag_chars = chars_of(tag_raw);
    let (a, b) = trim_matches_start_range(tag_chars.as_slice(), 'v');
    let tag_trimmed = sub_chars(tag_chars.as_slice(), a, b);
    let tag = string_of(tag_trimmed.as_slice());
    if !is_newer(tag.as_str(), current) {
        return None;
    }
    let url: &str = match extract_json_string(body, "html_url") {
        Some(u) => u,
        None => "https://github.com/ccccyccccc/fastZIP/releases/latest",
    };
    let notes: &str = match extract_json_string(body, "body") {
        Some(n) => n,
        None => "",
    };
    Some(ReleaseInfo { version: tag, download_url: String::from_str(url), body: String::from_str(notes) })
}

/// Bounds of `trim_start_matches(s, c)` inside `s`.
fn trim_matches_start_range(s: &[char], c: char) -> (r: (usize, usize))
    ensures
        r.0 <= r.1 == s@.len(),
        s@.subrange(r.0 as int, r.1 as int) == trim_start_matches(s@, c),
{
    let mut a: usize = 0;
    assert(s@.subrange(0, s@.len() as int) =~= s@);
    while a < s.len() && s[a] == c
        invariant
            a <= s@.len(),
            trim_start_matches(s@, c) == trim_start_matches(s@.subrange(a as int, s@.len() as int), c),
        decreases s@.len() - a,
    {
        assert(s@.subrange(a as int, s@.len() as int).drop_first() =~= s@.subrange(a + 1, s@.len() as int));
        a = a + 1;
    }
    (a, s.len())
}

// ---------------------------------------------------------------------
// Laws
// ---------------------------------------------------------------------

/// "Newer than" never holds of a version and itself.
pub proof fn law_newer_irreflexive(v: Seq<char>)
    ensures
        !triple_gt(semver(v), semver(v)),
{
}

/// "Newer than" never holds both ways.
pub proof fn law_newer_asymmetric(a: Seq<char>, b: Seq<char>)
    ensures
        triple_gt(semver(a), semver(b)) ==> !triple_gt(semver(b), semver(a)),
{
}

/// "Newer than" is transitive.
pub proof fn law_newer_transitive(a: Seq<char>, b: Seq<char>, c: Seq<char>)
    ensures
        triple_gt(semver(a), semver(b)) && triple_gt(semver(b), semver(c)) ==> triple_gt(
            semver(a),
            semver(c),
        ),
{
}

proof fn lemma_digit_segments_nonempty(s: Seq<char>)
    ensures
        digit_segments(s).len() >= 1,
    decreases s.len(),
{
    if s.len() > 0 {
        lemma_digit_segments_nonempty(s.drop_last());
    }
}

proof fn lemma_digit_segments_prepend(c: char, s: Seq<char>)
    requires
        !is_digit(c),
    ensures
        digit_segments(seq![c] + s) == seq![Seq::<char>::empty()] + digit_segments(s),
    decreases s.len(),
{
    if s.len() == 0 {
        let e = Seq::<char>::empty();
        assert(s =~= e);
        assert((seq![c] + s).drop_last() =~= e);
        assert((seq![c] + s).last() == c);
        assert(digit_segments(e) =~= seq![e]);
        assert(digit_segments(seq![c] + s) =~= seq![e, e]);
        assert(digit_segments(seq![c] + s) =~= seq![e] + digit_segments(s));
    } else {
        let t = s.drop_last();
        assert((seq![c] + s).drop_last() =~= seq![c] + t);
        lemma_digit_segments_prepend(c, t);
        lemma_digit_segments_nonempty(t);
        assert(digit_segments(seq![c] + s) =~= seq![Seq::<char>::empty()] + digit_segments(s));
    }
}

/// A leading character that is not a digit (such as the `v` of `v1.2.3`)
/// does not change the version a text names.
pub proof fn law_leading_non_digit_ignored(c: char, s: Seq<char>)
    requires
        !is_digit(c),
    ensures
        semver(seq![c] + s) == semver(s),
{
    lemma_digit_segments_prepend(c, s);
    let e = seq![Seq::<char>::empty()];
    let d = digit_segments(s);
    broadcast use Seq::filter_distributes_over_add;
    assert((e + d).filter(|g: Seq<char>| non_empty(g)) == e.filter(|g: Seq<char>| non_empty(g))
        + d.filter(|g: Seq<char>| non_empty(g)));
    reveal_with_fuel(Seq::filter, 2);
    assert(e.filter(|g: Seq<char>| non_empty(g)) =~= Seq::<Seq<char>>::empty());
    assert(digit_runs(seq![c] + s) =~= digit_runs(s));
}

} // verus!
