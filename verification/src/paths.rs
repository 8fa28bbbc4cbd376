//! Paths the application works with: where archives are written, which
//! sources a selection stands for, and names for extraction conflicts.
//!
//! Paths are held as text. The path grammar (separators, prefixes, `.`
//! and `..` components) is the platform's: each single path operation is
//! `std::path`'s, and its result is named rather than restated.

use vstd::prelude::*;

use crate::archive::{detect_format, format_suffix, single_file_stream, CompressionFormat, CompressionOptions};
use crate::localization::{localized, LocaleState};
use crate::text::{
    chars_eq_str, chars_of, decimal, ends_with, extend_str, has_suffix, lower, lower_chars,
    push_decimal, string_of, sub_chars, trim, trimmed,
};
use crate::ui::Language;

verus! {

/// `Path::file_name` of a path.
pub uninterp spec fn file_name_of(p: Seq<char>) -> Option<Seq<char>>;

/// `Path::parent` of a path.
pub uninterp spec fn parent_of(p: Seq<char>) -> Option<Seq<char>>;

/// `Path::file_stem` of a path.
pub uninterp spec fn file_stem_of(p: Seq<char>) -> Option<Seq<char>>;

/// `Path::extension` of a path.
pub uninterp spec fn extension_of(p: Seq<char>) -> Option<Seq<char>>;

/// `Path::join` of two paths.
pub uninterp spec fn joined(base: Seq<char>, tail: Seq<char>) -> Seq<char>;

/// `Path::starts_with`: `base` is a prefix of `p`, component by component.
pub uninterp spec fn path_has_prefix(p: Seq<char>, base: Seq<char>) -> bool;

/// `Path::eq`: the two paths have the same components.
pub uninterp spec fn same_path(a: Seq<char>, b: Seq<char>) -> bool;

/// `Path::with_file_name`.
pub uninterp spec fn with_file_name_of(p: Seq<char>, name: Seq<char>) -> Seq<char>;

/// The final component of a path (`Path::file_name`), as text. Claimed:
/// the result is `file_name_of` the path.
#[verifier::external_body]
pub(crate) fn path_file_name(p: &str) -> (r: Option<String>)
    ensures
        match r {
            Some(n) => file_name_of(p@) == Some(n@),
            None => file_name_of(p@) is None,
        },
{
    match std::path::Path::new(p).file_name() {
        Some(n) => Some(n.to_string_lossy().into_owned()),
        None => None,
    }
}

/// The path without its final component (`Path::parent`). Claimed: the
/// result is `parent_of` the path, and it is shorter than the path (a
/// final component was taken off).
#[verifier::external_body]
pub(crate) fn path_parent(p: &str) -> (r: Option<String>)
    ensures
        match r {
            Some(n) => parent_of(p@) == Some(n@) && n@.len() < p@.len(),
            None => parent_of(p@) is None,
        },
{
    match std::path::Path::new(p).parent() {
        Some(n) => Some(n.to_string_lossy().into_owned()),
        None => None,
    }
}

/// The file name without its extension (`Path::file_stem`). Claimed: the
/// result is `file_stem_of` the path.
#[verifier::external_body]
pub(crate) fn path_file_stem(p: &str) -> (r: Option<String>)
    ensures
        match r {
            Some(n) => file_stem_of(p@) == Some(n@),
            None => file_stem_of(p@) is None,
        },
{
    match std::path::Path::new(p).file_stem() {
        Some(n) => Some(n.to_string_lossy().into_owned()),
        None => None,
    }
}

/// The extension of the file name (`Path::extension`). Claimed: the
/// result is `extension_of` the path.
#[verifier::external_body]
pub(crate) fn path_extension(p: &str) -> (r: Option<String>)
    ensures
        match r {
            Some(n) => extension_of(p@) == Some(n@),
            None => extension_of(p@) is None,
        },
{
    match std::path::Path::new(p).extension() {
        Some(n) => Some(n.to_string_lossy().into_owned()),
        None => None,
    }
}

/// `tail` appended to `base` (`Path::join`). Claimed: the result is
/// `joined(base, tail)`.
#[verifier::external_body]
pub(crate) fn path_join(base: &str, tail: &str) -> (r: String)
    ensures
        r@ == joined(base@, tail@),
{
    std::path::Path::new(base).join(tail).to_string_lossy().into_owned()
}

/// Whether `base` is a leading part of `p`, component by component
/// (`Path::starts_with`, which compares the two component lists). Claimed:
/// the result is `path_has_prefix`; a path starts with itself; a leading
/// part has no more components than the path, and where it has as many
/// the two paths are equal (`Path::eq` compares the components).
#[verifier::external_body]
pub(crate) fn path_starts_with(p: &str, base: &str) -> (r: bool)
    ensures
        r == path_has_prefix(p@, base@),
        p@ == base@ ==> r,
        r ==> component_count(base@) <= component_count(p@),
        r && component_count(base@) == component_count(p@) ==> same_path(p@, base@),
{
    std::path::Path::new(p).starts_with(base)
}

/// Whether two paths have the same components (`Path::eq`). Claimed: the
/// result is `same_path(a, b)`.
#[verifier::external_body]
pub(crate) fn path_eq(a: &str, b: &str) -> (r: bool)
    ensures
        r == same_path(a@, b@),
{
    std::path::Path::new(a) == std::path::Path::new(b)
}

/// The path with its final component replaced by `name`
/// (`Path::with_file_name`). Claimed: the result is `with_file_name_of`.
#[verifier::external_body]
pub(crate) fn path_with_file_name(p: &str, name: &str) -> (r: String)
    ensures
        r@ == with_file_name_of(p@, name@),
{
    std::path::Path::new(p).with_file_name(name).to_string_lossy().into_owned()
}


/// `Path`'s `<`: `a` sorts before `b`.
pub uninterp spec fn path_before(a: Seq<char>, b: Seq<char>) -> bool;

/// Whether `a` sorts before `b` as paths (`<` on `Path`, component by
/// component). Claimed: the result is `path_before(a, b)`, and paths that
/// sort one before the other are not equal (`Path`'s order agrees with
/// its `==`).
#[verifier::external_body]
fn path_less(a: &str, b: &str) -> (r: bool)
    ensures
        r == path_before(a@, b@),
        r ==> !same_path(a@, b@),
{
    std::path::Path::new(a) < std::path::Path::new(b)
}

// ---------------------------------------------------------------------
// Archive output paths
// ---------------------------------------------------------------------

/// The archive name endings taken off a file name before a format's own
/// ending is put on, longest forms first.
pub open spec fn known_suffixes() -> Seq<Seq<char>> {
    seq![
        ".tar.gz"@, ".tar.bz2"@, ".tar.xz"@, ".tgz"@, ".tbz2"@, ".txz"@, ".7z"@, ".zip"@,
        ".tar"@, ".bzip2"@, ".gz"@, ".bz2"@, ".xz"@, ".zst"@, ".zstd"@, ".tar.zst"@, ".tzst"@,
        ".lz4"@, ".tar.lz4"@, ".tlz4"@,
    ]
}

/// The archive name endings taken off a file name before a format's own
/// ending is put on.
pub fn known_archive_suffixes_for_output() -> (r: Vec<&'static str>)
    ensures
        r@.map_values(|s: &str| s@) == known_suffixes(),
{
    let r = vec![
        ".tar.gz", ".tar.bz2", ".tar.xz", ".tgz", ".tbz2", ".txz", ".7z", ".zip", ".tar",
        ".bzip2", ".gz", ".bz2", ".xz", ".zst", ".zstd", ".tar.zst", ".tzst", ".lz4",
        ".tar.lz4", ".tlz4",
    ];
    assert(r@.map_values(|s: &str| s@) =~= known_suffixes());
    r
}

/// Index of the first ending in `list` from `k` on that `l` ends with, or
/// `-1`.
pub open spec fn first_suffix_from(list: Seq<Seq<char>>, l: Seq<char>, k: int) -> int
    decreases list.len() - k,
{
    if k < 0 || k >= list.len() {
        -1
    } else if has_suffix(l, list[k]) {
        k
    } else {
        first_suffix_from(list, l, k + 1)
    }
}

/// A file name without the first known archive ending it has (ASCII case
/// ignored); unchanged where it has none.
pub open spec fn strip_archive_suffix(name: Seq<char>) -> Seq<char> {
    let k = first_suffix_from(known_suffixes(), lower(name), 0);
    if k >= 0 {
        name.take(name.len() - known_suffixes()[k].len())
    } else {
        name
    }
}

/// The path an archive of `format` is written to when asked for `path`:
/// unchanged where its name already has the format's ending (or it has no
/// name), else with any known archive ending replaced by the format's.
pub open spec fn with_archive_extension(path: Seq<char>, format: CompressionFormat) -> Seq<char> {
    match file_name_of(path) {
        None => path,
        Some(name) => if detect_format(name) == Some(format) {
            path
        } else {
            with_file_name_of(path, strip_archive_suffix(name) + format_suffix(format))
        },
    }
}

/// The compressed-tar endings: each is taken off whole.
pub open spec fn tar_endings() -> Seq<Seq<char>> {
    seq![".tar.gz"@, ".tar.bz2"@, ".tar.xz"@, ".tgz"@, ".tbz2"@, ".txz"@]
}

/// Where `x + e` ends with `d`, the last characters of `e` and `d` agree.
proof fn lemma_suffix_tail(x: Seq<char>, e: Seq<char>, d: Seq<char>, j: int)
    requires
        has_suffix(x + e, d),
        1 <= j <= e.len(),
        j <= d.len(),
    ensures
        e[e.len() - j] == d[d.len() - j],
{
    let s = x + e;
    assert(s.skip(s.len() - d.len())[d.len() - j] == s[s.len() - j]);
}

proof fn lemma_first_suffix_is(list: Seq<Seq<char>>, l: Seq<char>, i: int, k: int)
    requires
        0 <= k <= i < list.len(),
        has_suffix(l, list[i]),
        forall|q: int| 0 <= q < i ==> !has_suffix(l, #[trigger] list[q]),
    ensures
        first_suffix_from(list, l, k) == i,
    decreases i - k,
{
    if k < i {
        lemma_first_suffix_is(list, l, i, k + 1);
    }
}

proof fn lemma_strip_tar_ending(b: Seq<char>, i: int)
    requires
        0 <= i < 6,
    ensures
        strip_archive_suffix(b + tar_endings()[i]) == b,
{
    reveal_strlit(".tar.gz");
    reveal_strlit(".tar.bz2");
    reveal_strlit(".tar.xz");
    reveal_strlit(".tgz");
    reveal_strlit(".tbz2");
    reveal_strlit(".txz");
    let e = tar_endings()[i];
    let name = b + e;
    let ks = known_suffixes();
    assert(ks[0] == ".tar.gz"@ && ks[1] == ".tar.bz2"@ && ks[2] == ".tar.xz"@ && ks[3] == ".tgz"@
        && ks[4] == ".tbz2"@ && ks[5] == ".txz"@);
    reveal_with_fuel(crate::archive::no_upper, 9);
    assert(crate::archive::no_upper(e));
    crate::archive::lemma_no_upper_lower(e);
    let l = lower(name);
    assert(l =~= lower(b) + e);
    assert(has_suffix(l, ks[i])) by {
        assert(l.skip(l.len() - e.len()) =~= e);
    }
    // Each earlier ending differs from `e` in one of its last characters.
    assert forall|q: int| 0 <= q < i implies !has_suffix(l, #[trigger] ks[q]) by {
        let d = ks[q];
        if has_suffix(l, d) {
            if i == 2 && q == 0 {
                lemma_suffix_tail(lower(b), e, d, 2);
            } else if i == 3 && q == 0 {
                lemma_suffix_tail(lower(b), e, d, 3);
            } else if i == 3 && q == 2 {
                lemma_suffix_tail(lower(b), e, d, 2);
            } else if i == 4 && q == 1 {
                lemma_suffix_tail(lower(b), e, d, 4);
            } else if i == 5 && q == 0 {
                lemma_suffix_tail(lower(b), e, d, 2);
            } else if i == 5 && q == 2 {
                lemma_suffix_tail(lower(b), e, d, 3);
            } else if i == 5 && q == 3 {
                lemma_suffix_tail(lower(b), e, d, 2);
            } else {
                lemma_suffix_tail(lower(b), e, d, 1);
            }
        }
    }
    lemma_first_suffix_is(ks, l, i, 0);
    assert(name.take(name.len() - ks[i].len()) =~= b);
}

/// A file name ending in a compressed-tar ending (`.tar.gz`, `.tar.bz2`,
/// `.tar.xz`, `.tgz`, `.tbz2`, `.txz`) loses that whole ending, whatever
/// comes before it, and not just its last part (`.gz`, `.bz2`, `.xz`); so a
/// path with such a name, asked for in a format with another ending, gets
/// that format's ending in its place.
pub proof fn law_tar_endings_replaced_whole(path: Seq<char>, b: Seq<char>, format: CompressionFormat)
    ensures
        forall|i: int| 0 <= i < 6 ==> strip_archive_suffix(b + #[trigger] tar_endings()[i]) == b,
        forall|i: int|
            0 <= i < 6 && file_name_of(path) == Some(b + #[trigger] tar_endings()[i]) && detect_format(
                b + tar_endings()[i],
            ) != Some(format) ==> with_archive_extension(path, format) == with_file_name_of(
                path,
                b + format_suffix(format),
            ),
{
    assert forall|i: int| 0 <= i < 6 implies strip_archive_suffix(b + #[trigger] tar_endings()[i]) == b by {
        lemma_strip_tar_ending(b, i);
    }
}

proof fn lemma_first_suffix_bounds(list: Seq<Seq<char>>, l: Seq<char>, k: int)
    ensures
        first_suffix_from(list, l, k) == -1 || (k <= first_suffix_from(list, l, k) < list.len()
            && has_suffix(l, list[first_suffix_from(list, l, k)])),
    decreases list.len() - k,
{
    if 0 <= k < list.len() && !has_suffix(l, list[k]) {
        lemma_first_suffix_bounds(list, l, k + 1);
    }
}

/// The path with the format's archive ending: kept where the name already
/// ends so, else any known archive ending is replaced.
pub fn ensure_archive_extension(path: &str, format: CompressionFormat) -> (r: String)
    ensures
        r@ == with_archive_extension(path@, format),
{
    let file_name = match path_file_name(path) {
        Some(n) => n,
        None => return path.to_string(),
    };
    if format.matches_file_name(file_name.as_str()) {
        return path.to_string();
    }
    let name = chars_of(file_name.as_str());
    let lowered = lower_chars(name.as_slice());
    let suffixes = known_archive_suffixes_for_output();
    let ghost list = suffixes@.map_values(|s: &str| s@);
    let mut k: usize = 0;
    let mut found = false;
    let mut base = name.clone();
    proof {
        lemma_first_suffix_bounds(known_suffixes(), lower(name@), 0);
    }
    while k < suffixes.len() && !found
        invariant
            list == known_suffixes(),
            list == suffixes@.map_values(|s: &str| s@),
            list.len() == suffixes@.len(),
            k <= suffixes@.len(),
            lowered@ == lower(name@),
            lowered@.len() == name@.len(),
            !found ==> base@ == name@,
            !found ==> first_suffix_from(known_suffixes(), lower(name@), 0) == first_suffix_from(
                known_suffixes(),
                lower(name@),
                k as int,
            ),
            found ==> k < list.len() && first_suffix_from(known_suffixes(), lower(name@), 0) == k
                && base@ == name@.take(name@.len() - list[k as int].len()),
        decreases suffixes@.len() - k + (if found { 0int } else { 1int }),
    {
        let sfx = suffixes[k];
        assert(list[k as int] == sfx@);
        let sc = chars_of(sfx);
        if ends_with(lowered.as_slice(), sfx) {
            let cut = sub_chars(name.as_slice(), 0, name.len() - sc.len());
            proof {
                assert(name@.subrange(0, name@.len() - sfx@.len()) =~= name@.take(
                    name@.len() - sfx@.len(),
                ));
            }
            base = cut;
            found = true;
        } else {
            k = k + 1;
        }
    }
    let mut new_name = base;
    extend_str(&mut new_name, format.primary_suffix());
    let s = string_of(new_name.as_slice());
    proof {
        assert(new_name@ == strip_archive_suffix(name@) + format_suffix(format));
    }
    path_with_file_name(path, s.as_str())
}


/// The parents of the paths that have one, in order.
pub open spec fn parents_of(paths: Seq<Seq<char>>) -> Seq<Seq<char>>
    decreases paths.len(),
{
    if paths.len() == 0 {
        Seq::empty()
    } else {
        match parent_of(paths.last()) {
            Some(p) => parents_of(paths.drop_last()).push(p),
            None => parents_of(paths.drop_last()),
        }
    }
}

/// `shared` cut back, a component at a time (`PathBuf::pop`), until `p`
/// lies within it; `None` where it runs out of components first.
pub open spec fn cut_back_to(p: Seq<char>, shared: Seq<char>) -> Option<Seq<char>>
    decreases shared.len(),
{
    if path_has_prefix(p, shared) {
        Some(shared)
    } else {
        match parent_of(shared) {
            Some(q) => if q.len() < shared.len() {
                cut_back_to(p, q)
            } else {
                None
            },
            None => None,
        }
    }
}

/// The deepest directory that holds the first `n` of the parents.
pub open spec fn common_of(ps: Seq<Seq<char>>, n: nat) -> Option<Seq<char>>
    decreases n,
{
    if n == 0 {
        None
    } else if n == 1 {
        Some(ps[0])
    } else {
        match common_of(ps, (n - 1) as nat) {
            Some(s) => cut_back_to(ps[n - 1], s),
            None => None,
        }
    }
}

/// The deepest directory holding the parents of all the paths; `None`
/// where no path has a parent or they share none.
pub open spec fn common_parent(paths: Seq<Seq<char>>) -> Option<Seq<char>> {
    common_of(parents_of(paths), parents_of(paths).len())
}

fn cut_back(p: &str, shared: String) -> (r: Option<String>)
    ensures
        match r {
            Some(s) => cut_back_to(p@, shared@) == Some(s@),
            None => cut_back_to(p@, shared@) is None,
        },
    decreases shared@.len(),
{
    if path_starts_with(p, shared.as_str()) {
        return Some(shared);
    }
    match path_parent(shared.as_str()) {
        Some(q) => cut_back(p, q),
        None => None,
    }
}

/// The views of a slice of strings.
pub open spec fn views(v: Seq<String>) -> Seq<Seq<char>> {
    v.map_values(|s: String| s@)
}

/// The deepest directory holding the parents of all the sources.
pub fn common_source_parent(sources: &[String]) -> (r: Option<String>)
    ensures
        match r {
            Some(s) => common_parent(views(sources@)) == Some(s@),
            None => common_parent(views(sources@)) is None,
        },
{
    let mut shared: Option<String> = None;
    let mut seen: usize = 0;
    let mut i: usize = 0;
    while i < sources.len()
        invariant
            i <= sources@.len(),
            seen == parents_of(views(sources@.take(i as int))).len(),
            seen <= i,
            match shared {
                Some(s) => common_of(parents_of(views(sources@.take(i as int))), seen as nat) == Some(s@),
                None => common_of(parents_of(views(sources@.take(i as int))), seen as nat) is None,
            },
        decreases sources@.len() - i,
    {
        let ghost before = views(sources@.take(i as int));
        proof {
            assert(views(sources@.take(i + 1)).drop_last() =~= before);
            assert(views(sources@.take(i + 1)).last() == sources@[i as int]@);
        }
        match path_parent(sources[i].as_str()) {
            Some(p) => {
                let ghost ps = parents_of(views(sources@.take(i + 1)));
                proof {
                    assert(ps == parents_of(before).push(p@));
                    assert(ps.take(seen as int) =~= parents_of(before));
                    lemma_common_of_prefix(ps, parents_of(before), seen as nat);
                }
                if seen == 0 {
                    shared = Some(p);
                } else {
                    shared = match shared {
                        Some(s) => cut_back(p.as_str(), s),
                        None => None,
                    };
                }
                seen = seen + 1;
            },
            None => {},
        }
        i = i + 1;
    }
    proof {
        assert(sources@.take(sources@.len() as int) =~= sources@);
    }
    shared
}

proof fn lemma_common_of_prefix(long: Seq<Seq<char>>, short: Seq<Seq<char>>, n: nat)
    requires
        n <= short.len(),
        n <= long.len(),
        forall|j: int| 0 <= j < n ==> long[j] == short[j],
    ensures
        common_of(long, n) == common_of(short, n),
    decreases n,
{
    if n > 1 {
        lemma_common_of_prefix(long, short, (n - 1) as nat);
    }
}

/// A name, or the fallback where it is missing or empty.
pub open spec fn name_or(n: Option<Seq<char>>, fallback: Seq<char>) -> Seq<char> {
    match n {
        Some(x) if x.len() > 0 => x,
        _ => fallback,
    }
}

fn name_or_exec(n: Option<String>, fallback: &str) -> (r: String)
    ensures
        r@ == name_or(
            match n {
                Some(x) => Some(x@),
                None => None,
            },
            fallback@,
        ),
{
    match n {
        Some(x) => {
            if x.as_str().unicode_len() > 0 {
                x
            } else {
                fallback.to_string()
            }
        },
        None => fallback.to_string(),
    }
}

/// The parent of a path, `.` where it has none.
pub open spec fn parent_or_dot(p: Seq<char>) -> Seq<char> {
    match parent_of(p) {
        Some(q) => q,
        None => "."@,
    }
}

/// Where an archive of the sources is suggested to go: beside a single
/// source, named after it (after its whole name for a directory or for a
/// single-file stream format, after its stem otherwise); for several
/// sources, a bundle in their common parent directory.
pub open spec fn suggested_output(
    sources: Seq<Seq<char>>,
    first_is_file: bool,
    format: CompressionFormat,
    st: LocaleState,
) -> Option<Seq<char>> {
    if sources.len() == 0 {
        None
    } else if sources.len() == 1 {
        let first = sources[0];
        let default_name = localized(st, "archive"@, "归档"@);
        let base = if first_is_file && !single_file_stream(format) {
            name_or(file_stem_of(first), default_name)
        } else {
            name_or(file_name_of(first), default_name)
        };
        Some(joined(parent_or_dot(first), base + format_suffix(format)))
    } else {
        let dir = match common_parent(sources) {
            Some(d) => d,
            None => parent_or_dot(sources[0]),
        };
        Some(joined(dir, localized(st, "fastzip_bundle"@, "fastzip压缩包"@) + format_suffix(format)))
    }
}

fn parent_or_dot_exec(p: &str) -> (r: String)
    ensures
        r@ == parent_or_dot(p@),
{
    match path_parent(p) {
        Some(q) => q,
        None => ".".to_string(),
    }
}

/// The output path suggested for an archive of the sources
/// (`first_is_file` tells whether the first source is a regular file).
pub fn suggested_archive_output_path(
    sources: &[String],
    first_is_file: bool,
    format: CompressionFormat,
    language: Language,
    state: &LocaleState,
) -> (r: Option<String>)
    ensures
        match r {
            Some(p) => suggested_output(views(sources@), first_is_file, format, *state) == Some(p@),
            None => suggested_output(views(sources@), first_is_file, format, *state) is None,
        },
{
    if sources.len() == 0 {
        return None;
    }
    let first = sources[0].as_str();
    assert(views(sources@)[0] == first@);
    if sources.len() == 1 {
        let parent = parent_or_dot_exec(first);
        let default_name = language.text(state, "archive", "归档");
        let base = if first_is_file && !format.is_single_file_stream() {
            name_or_exec(path_file_stem(first), default_name)
        } else {
            name_or_exec(path_file_name(first), default_name)
        };
        let mut name = chars_of(base.as_str());
        extend_str(&mut name, format.primary_suffix());
        let name_s = string_of(name.as_slice());
        return Some(path_join(parent.as_str(), name_s.as_str()));
    }
    let dir = match common_source_parent(sources) {
        Some(d) => d,
        None => parent_or_dot_exec(first),
    };
    let mut name = chars_of(language.text(state, "fastzip_bundle", "fastzip压缩包"));
    extend_str(&mut name, format.primary_suffix());
    let name_s = string_of(name.as_slice());
    Some(path_join(dir.as_str(), name_s.as_str()))
}

// ---------------------------------------------------------------------
// Names for extraction conflicts
// ---------------------------------------------------------------------

/// The `index`-th alternative name for a destination that already
/// exists: `stem (index).ext` (or `stem (index)` without an extension)
/// beside it.
pub open spec fn conflict_candidate(destination: Seq<char>, index: nat) -> Seq<char> {
    let file_name = name_or(file_name_of(destination), "file"@);
    let stem = name_or(file_stem_of(destination), file_name);
    let tail = match extension_of(destination) {
        Some(e) if e.len() > 0 => "."@ + e,
        _ => Seq::empty(),
    };
    joined(parent_or_dot(destination), stem + " ("@ + decimal(index) + ")"@ + tail)
}

/// The `index`-th alternative path offered for a destination that
/// already exists.
pub fn conflict_candidate_path(destination: &str, index: u64) -> (r: String)
    ensures
        r@ == conflict_candidate(destination@, index as nat),
{
    let parent = parent_or_dot_exec(destination);
    let file_name = name_or_exec(path_file_name(destination), "file");
    let stem = name_or_exec(path_file_stem(destination), file_name.as_str());
    let mut name = chars_of(stem.as_str());
    extend_str(&mut name, " (");
    push_decimal(&mut name, index);
    extend_str(&mut name, ")");
    match path_extension(destination) {
        Some(e) => {
            if e.as_str().unicode_len() > 0 {
                extend_str(&mut name, ".");
                extend_str(&mut name, e.as_str());
            }
        },
        None => {},
    }
    let name_s = string_of(name.as_slice());
    proof {
        assert(name_s@ =~= name_or(file_stem_of(destination@), name_or(file_name_of(destination@), "file"@)) + " ("@ + decimal(index as nat) + ")"@ + match extension_of(destination@) {
            Some(e) if e.len() > 0 => "."@ + e,
            _ => Seq::<char>::empty(),
        });
    }
    path_join(parent.as_str(), name_s.as_str())
}

/// `p` is the same path as one of `paths`.
pub open spec fn among(p: Seq<char>, paths: Seq<Seq<char>>) -> bool {
    exists|j: int| 0 <= j < paths.len() && same_path(#[trigger] paths[j], p)
}

fn among_exec(p: &str, paths: &[String]) -> (r: bool)
    ensures
        r == among(p@, views(paths@)),
{
    let mut j: usize = 0;
    while j < paths.len()
        invariant
            j <= paths@.len(),
            forall|k: int| 0 <= k < j ==> !same_path(#[trigger] views(paths@)[k], p@),
        decreases paths@.len() - j,
    {
        if path_eq(paths[j].as_str(), p) {
            assert(views(paths@)[j as int] == paths@[j as int]@);
            return true;
        }
        j = j + 1;
    }
    false
}

/// Whether a candidate path may be taken: it does not exist
/// (`candidate_exists`), is not reserved for another conflict, and no
/// other entry is already renamed to it.
pub fn conflict_candidate_is_free(
    candidate: &str,
    candidate_exists: bool,
    reserved_paths: &[String],
    renamed_paths: &[String],
) -> (r: bool)
    ensures
        r == (!candidate_exists && !among(candidate@, views(reserved_paths@)) && !among(
            candidate@,
            views(renamed_paths@),
        )),
{
    !candidate_exists && !among_exec(candidate, reserved_paths) && !among_exec(candidate, renamed_paths)
}

/// The `index`-th alternative for `destination` may be taken: it is none
/// of the paths on disk beside it, reserved, or renamed to.
pub open spec fn candidate_free(
    destination: Seq<char>,
    index: nat,
    existing: Seq<Seq<char>>,
    reserved: Seq<Seq<char>>,
    renamed: Seq<Seq<char>>,
) -> bool {
    let c = conflict_candidate(destination, index);
    !among(c, existing) && !among(c, reserved) && !among(c, renamed)
}

/// The first free alternative path for an extraction destination that
/// exists: `stem (1).ext`, `stem (2).ext`, ... beside it, the first that
/// is none of `existing_paths` (the paths on disk beside it), reserved,
/// or renamed to; the destination itself where no index below `u64::MAX`
/// is free.
pub fn suggest_available_conflict_path(
    destination: &str,
    existing_paths: &[String],
    reserved_paths: &[String],
    renamed_paths: &[String],
) -> (r: String)
    ensures
        ({
            let ex = views(existing_paths@);
            let rs = views(reserved_paths@);
            let rn = views(renamed_paths@);
            ||| exists|k: nat|
                1 <= k < u64::MAX && r@ == conflict_candidate(destination@, k) && candidate_free(
                    destination@,
                    k,
                    ex,
                    rs,
                    rn,
                ) && forall|j: nat| 1 <= j < k ==> !#[trigger] candidate_free(destination@, j, ex, rs, rn)
            ||| r@ == destination@ && forall|j: nat|
                1 <= j < u64::MAX ==> !#[trigger] candidate_free(destination@, j, ex, rs, rn)
        }),
{
    let ghost ex = views(existing_paths@);
    let ghost rs = views(reserved_paths@);
    let ghost rn = views(renamed_paths@);
    let mut index: u64 = 1;
    while index < u64::MAX
        invariant
            1 <= index <= u64::MAX,
            ex == views(existing_paths@),
            rs == views(reserved_paths@),
            rn == views(renamed_paths@),
            forall|j: nat| 1 <= j < index ==> !#[trigger] candidate_free(destination@, j, ex, rs, rn),
        decreases u64::MAX - index,
    {
        let candidate = conflict_candidate_path(destination, index);
        let taken = among_exec(candidate.as_str(), existing_paths);
        if conflict_candidate_is_free(candidate.as_str(), taken, reserved_paths, renamed_paths) {
            assert(candidate_free(destination@, index as nat, ex, rs, rn));
            return candidate;
        }
        index = index + 1;
    }
    destination.to_string()
}


/// The kinds of components a path is made of (`std::path::Component`).
#[derive(Debug, Clone, Copy, PartialEq, Eq, Structural)]
pub enum ComponentKind {
    Prefix,
    RootDir,
    CurDir,
    ParentDir,
    Normal,
}

/// The kinds of the components of a path, in order (`Path::components`).
pub uninterp spec fn component_kinds(p: Seq<char>) -> Seq<ComponentKind>;

/// The kinds of a path's components (`Path::components`), one for each.
/// Claimed: the result is `component_kinds` of the path.
#[verifier::external_body]
fn path_component_kinds(p: &str) -> (r: Vec<ComponentKind>)
    ensures
        r@ == component_kinds(p@),
{
    std::path::Path::new(p).components().map(|c| match c {
        std::path::Component::Prefix(_) => ComponentKind::Prefix,
        std::path::Component::RootDir => ComponentKind::RootDir,
        std::path::Component::CurDir => ComponentKind::CurDir,
        std::path::Component::ParentDir => ComponentKind::ParentDir,
        std::path::Component::Normal(_) => ComponentKind::Normal,
    }).collect()
}

/// The path an extracted entry is renamed to: the new name beside the
/// destination.
pub fn rename_target_path(destination: &str, rename_value: &str) -> (r: String)
    ensures
        r@ == with_file_name_of(destination@, rename_value@),
{
    path_with_file_name(destination, rename_value)
}

/// Why a new name for a conflicting entry is refused, if it is.
pub open spec fn rename_outcome(
    destination: Seq<char>,
    value: Seq<char>,
    target_exists: bool,
    reserved: Seq<Seq<char>>,
    renamed: Seq<Seq<char>>,
    st: LocaleState,
) -> Result<Seq<char>, Seq<char>> {
    let target = with_file_name_of(destination, value);
    if value.len() == 0 {
        Err(localized(st, "The new file name cannot be empty."@, "新文件名不能为空。"@))
    } else if component_kinds(value) != seq![ComponentKind::Normal] {
        Err(
            localized(
                st,
                "Enter a file name only, not a folder path."@,
                "这里只能输入文件名，不能输入文件夹路径。"@,
            ),
        )
    } else if target_exists {
        Err(localized(st, "The selected rename target already exists."@, "选择的新文件名已存在。"@))
    } else if among(target, reserved) || among(target, renamed) {
        Err(
            localized(
                st,
                "The selected rename target is already reserved by another extracted file."@,
                "选择的新文件名已被其他解压文件占用。"@,
            ),
        )
    } else {
        Ok(target)
    }
}

/// Checks a new name for an extracted entry whose destination is taken:
/// it must be one plain file name, and the path it gives
/// (`rename_target_path`) must not exist (`target_exists`), be reserved
/// for another conflict, or be another entry's new path. Gives that path.
pub fn validate_extract_conflict_rename(
    destination: &str,
    rename_value: &str,
    target_exists: bool,
    reserved_paths: &[String],
    renamed_paths: &[String],
    language: Language,
    state: &LocaleState,
) -> (r: Result<String, String>)
    ensures
        match rename_outcome(
            destination@,
            rename_value@,
            target_exists,
            views(reserved_paths@),
            views(renamed_paths@),
            *state,
        ) {
            Ok(p) => r is Ok && r->Ok_0@ == p,
            Err(e) => r is Err && r->Err_0@ == e,
        },
{
    if rename_value.unicode_len() == 0 {
        return Err(language.text(state, "The new file name cannot be empty.", "新文件名不能为空。").to_string());
    }
    let kinds = path_component_kinds(rename_value);
    let single = kinds.len() == 1 && kinds[0] == ComponentKind::Normal;
    proof {
        if single {
            assert(kinds@ =~= seq![ComponentKind::Normal]);
        } else if kinds@.len() == 1 {
            assert(kinds@[0] != ComponentKind::Normal);
            assert(kinds@ != seq![ComponentKind::Normal]);
        }
    }
    if !single {
        return Err(language.text(
            state,
            "Enter a file name only, not a folder path.",
            "这里只能输入文件名，不能输入文件夹路径。",
        ).to_string());
    }
    let target = rename_target_path(destination, rename_value);
    if target_exists {
        return Err(language.text(
            state,
            "The selected rename target already exists.",
            "选择的新文件名已存在。",
        ).to_string());
    }
    if among_exec(target.as_str(), reserved_paths) || among_exec(target.as_str(), renamed_paths) {
        return Err(language.text(
            state,
            "The selected rename target is already reserved by another extracted file.",
            "选择的新文件名已被其他解压文件占用。",
        ).to_string());
    }
    Ok(target)
}

/// The name first offered for a conflicting entry: the file name of the
/// free path found for it (`conflict_candidate_path`).
pub fn default_extract_conflict_rename_value(candidate: &str) -> (r: Option<String>)
    ensures
        match r {
            Some(n) => file_name_of(candidate@) == Some(n@),
            None => file_name_of(candidate@) is None,
        },
{
    path_file_name(candidate)
}


/// A path as the user should see it; on this platform every path already
/// is (no verbatim `\\?\` prefixes to undo), so it is returned unchanged.
pub fn normalize_windows_user_path(path: &str) -> (r: String)
    ensures
        r@ == path@,
{
    path.to_string()
}


// ---------------------------------------------------------------------
// Paths chosen in the file manager
// ---------------------------------------------------------------------

/// How many components a path has (`Path::components().count()`).
pub open spec fn component_count(p: Seq<char>) -> nat {
    component_kinds(p).len()
}

/// `sorted` with `i` put after every entry whose path has at most as many
/// components as `ps[i]` (a stable insertion by component count).
pub open spec fn insert_by_count(ps: Seq<Seq<char>>, sorted: Seq<int>, i: int) -> Seq<int>
    decreases sorted.len(),
{
    if sorted.len() == 0 {
        seq![i]
    } else if component_count(ps[sorted.last()]) <= component_count(ps[i]) {
        sorted.push(i)
    } else {
        insert_by_count(ps, sorted.drop_last(), i).push(sorted.last())
    }
}

/// The positions `idx`, stably sorted by the component count of their
/// paths.
pub open spec fn sort_by_count(ps: Seq<Seq<char>>, idx: Seq<int>) -> Seq<int>
    decreases idx.len(),
{
    if idx.len() == 0 {
        Seq::empty()
    } else {
        insert_by_count(ps, sort_by_count(ps, idx.drop_last()), idx.last())
    }
}

/// The positions of `order` kept, in that order: each one whose path
/// lies within no path kept before it.
pub open spec fn keep_outermost(ps: Seq<Seq<char>>, order: Seq<int>) -> Seq<int>
    decreases order.len(),
{
    if order.len() == 0 {
        Seq::empty()
    } else {
        let kept = keep_outermost(ps, order.drop_last());
        let x = order.last();
        if exists|j: int| 0 <= j < kept.len() && path_has_prefix(ps[x], #[trigger] ps[kept[j]]) {
            kept
        } else {
            kept.push(x)
        }
    }
}

/// The positions below `n` whose path exists, in order.
pub open spec fn existing_upto(exists: Seq<bool>, n: nat) -> Seq<int>
    decreases n,
{
    if n == 0 {
        Seq::empty()
    } else if exists[n - 1] {
        existing_upto(exists, (n - 1) as nat).push(n - 1)
    } else {
        existing_upto(exists, (n - 1) as nat)
    }
}

/// The paths at the positions below `n` that are in `kept`, in order.
pub open spec fn chosen_upto(ps: Seq<Seq<char>>, kept: Seq<int>, n: nat) -> Seq<Seq<char>>
    decreases n,
{
    if n == 0 {
        Seq::empty()
    } else if kept.contains(n - 1) {
        chosen_upto(ps, kept, (n - 1) as nat).push(ps[n - 1])
    } else {
        chosen_upto(ps, kept, (n - 1) as nat)
    }
}

/// The paths to compress from a file-manager selection: the existing
/// ones, shallowest first, each dropped where it lies within one already
/// taken, given back in the selection's order.
pub open spec fn compression_selection(ps: Seq<Seq<char>>, exists: Seq<bool>) -> Seq<Seq<char>> {
    let kept = keep_outermost(ps, sort_by_count(ps, existing_upto(exists, ps.len())));
    chosen_upto(ps, kept, ps.len())
}

/// Each path sorts before every later one (a `BTreeSet<PathBuf>` walked in
/// order).
pub open spec fn selection_ordered(ps: Seq<Seq<char>>) -> bool {
    forall|i: int, j: int|
        0 <= i < j < ps.len() ==> path_before(#[trigger] ps[i], #[trigger] ps[j]) && !same_path(
            ps[i],
            ps[j],
        )
}

/// What `path_starts_with` states of each of its calls, holding for the
/// paths of `ps`: each starts with itself, and a leading part has no more
/// components than the path (and is the same path where it has as many).
pub open spec fn starts_with_facts(ps: Seq<Seq<char>>) -> bool {
    &&& forall|k: int| 0 <= k < ps.len() ==> path_has_prefix(#[trigger] ps[k], ps[k])
    &&& forall|k: int, l: int|
        0 <= k < ps.len() && 0 <= l < ps.len() && path_has_prefix(#[trigger] ps[k], #[trigger] ps[l])
            ==> component_count(ps[l]) <= component_count(ps[k]) && (component_count(ps[l])
            == component_count(ps[k]) ==> same_path(ps[k], ps[l]))
}

/// The positions in `s` are ordered by the component counts of their paths.
pub open spec fn count_sorted(ps: Seq<Seq<char>>, s: Seq<int>) -> bool {
    forall|a: int, b: int|
        0 <= a < b < s.len() ==> component_count(ps[#[trigger] s[a]]) <= component_count(
            ps[#[trigger] s[b]],
        )
}

/// Among positions with paths of the same component count, `s` keeps
/// their increasing order.
pub open spec fn count_stable(ps: Seq<Seq<char>>, s: Seq<int>) -> bool {
    forall|a: int, b: int|
        0 <= a < b < s.len() && component_count(ps[#[trigger] s[a]]) == component_count(
            ps[#[trigger] s[b]],
        ) ==> s[a] < s[b]
}

/// Strictly increasing positions.
pub open spec fn increasing(s: Seq<int>) -> bool {
    forall|a: int, b: int| 0 <= a < b < s.len() ==> #[trigger] s[a] < #[trigger] s[b]
}

proof fn lemma_insert_by_count_stable(ps: Seq<Seq<char>>, s: Seq<int>, i: int)
    requires
        count_stable(ps, s),
        forall|a: int| 0 <= a < s.len() ==> #[trigger] s[a] < i,
    ensures
        count_stable(ps, insert_by_count(ps, s, i)),
    decreases s.len(),
{
    let r = insert_by_count(ps, s, i);
    lemma_insert_by_count(ps, s, i);
    if s.len() == 0 {
    } else if component_count(ps[s.last()]) <= component_count(ps[i]) {
        assert forall|a: int, b: int|
            0 <= a < b < r.len() && component_count(ps[#[trigger] r[a]]) == component_count(
                ps[#[trigger] r[b]],
            ) implies r[a] < r[b] by {
            assert(r[a] == s[a]);
            if b < s.len() {
                assert(r[b] == s[b]);
            }
        }
    } else {
        let d = s.drop_last();
        let last = s.last();
        assert(count_stable(ps, d)) by {
            assert forall|a: int, b: int|
                0 <= a < b < d.len() && component_count(ps[#[trigger] d[a]]) == component_count(
                    ps[#[trigger] d[b]],
                ) implies d[a] < d[b] by {
                assert(d[a] == s[a] && d[b] == s[b]);
            }
        }
        assert forall|a: int| 0 <= a < d.len() implies #[trigger] d[a] < i by {
            assert(d[a] == s[a]);
        }
        lemma_insert_by_count_stable(ps, d, i);
        lemma_insert_by_count(ps, d, i);
        let m = insert_by_count(ps, d, i);
        assert(r == m.push(last));
        assert forall|a: int, b: int|
            0 <= a < b < r.len() && component_count(ps[#[trigger] r[a]]) == component_count(
                ps[#[trigger] r[b]],
            ) implies r[a] < r[b] by {
            if b == m.len() {
                assert(r[a] == m[a]);
                assert(r[b] == last);
                assert(m.contains(m[a]));
                if m[a] == i {
                    assert(component_count(ps[i]) < component_count(ps[last]));
                } else {
                    assert(d.contains(m[a]));
                    let q = choose|q: int| 0 <= q < d.len() && d[q] == m[a];
                    assert(s[q] == m[a]);
                    assert(s[s.len() - 1] == last);
                }
            } else {
                assert(r[a] == m[a] && r[b] == m[b]);
            }
        }
    }
}

proof fn lemma_sort_by_count_stable(ps: Seq<Seq<char>>, idx: Seq<int>)
    requires
        increasing(idx),
    ensures
        count_stable(ps, sort_by_count(ps, idx)),
    decreases idx.len(),
{
    if idx.len() > 0 {
        let d = idx.drop_last();
        assert(increasing(d)) by {
            assert forall|a: int, b: int| 0 <= a < b < d.len() implies #[trigger] d[a] < #[trigger] d[b] by {
                assert(d[a] == idx[a] && d[b] == idx[b]);
            }
        }
        lemma_sort_by_count_stable(ps, d);
        lemma_sort_by_count(ps, d);
        let sd = sort_by_count(ps, d);
        assert forall|a: int| 0 <= a < sd.len() implies #[trigger] sd[a] < idx.last() by {
            assert(sd.contains(sd[a]));
            let q = choose|q: int| 0 <= q < d.len() && d[q] == sd[a];
            assert(idx[q] == sd[a]);
        }
        lemma_insert_by_count_stable(ps, sd, idx.last());
    }
}

proof fn lemma_existing_upto_increasing(exists: Seq<bool>, n: nat)
    requires
        n <= exists.len(),
    ensures
        increasing(existing_upto(exists, n)),
        forall|a: int| 0 <= a < existing_upto(exists, n).len() ==> #[trigger] existing_upto(exists, n)[a] < n,
    decreases n,
{
    if n > 0 {
        lemma_existing_upto_increasing(exists, (n - 1) as nat);
        let prev = existing_upto(exists, (n - 1) as nat);
        if exists[n - 1] {
            let e = prev.push(n - 1);
            assert forall|a: int, b: int| 0 <= a < b < e.len() implies #[trigger] e[a] < #[trigger] e[b] by {
                assert(e[a] == prev[a]);
                if b < prev.len() {
                    assert(e[b] == prev[b]);
                }
            }
            assert forall|a: int| 0 <= a < e.len() implies #[trigger] e[a] < n by {
                if a < prev.len() {
                    assert(e[a] == prev[a]);
                }
            }
        }
    }
}

proof fn lemma_keep_outermost_stable(ps: Seq<Seq<char>>, order: Seq<int>)
    requires
        count_stable(ps, order),
    ensures
        count_stable(ps, keep_outermost(ps, order)),
    decreases order.len(),
{
    if order.len() > 0 {
        let d = order.drop_last();
        let x = order.last();
        let kept = keep_outermost(ps, d);
        let r = keep_outermost(ps, order);
        assert(count_stable(ps, d)) by {
            assert forall|a: int, b: int|
                0 <= a < b < d.len() && component_count(ps[#[trigger] d[a]]) == component_count(
                    ps[#[trigger] d[b]],
                ) implies d[a] < d[b] by {
                assert(d[a] == order[a] && d[b] == order[b]);
            }
        }
        lemma_keep_outermost_stable(ps, d);
        lemma_keep_outermost(ps, d);
        if r != kept {
            assert(r == kept.push(x));
            assert forall|a: int, b: int|
                0 <= a < b < r.len() && component_count(ps[#[trigger] r[a]]) == component_count(
                    ps[#[trigger] r[b]],
                ) implies r[a] < r[b] by {
                assert(r[a] == kept[a]);
                if b < kept.len() {
                    assert(r[b] == kept[b]);
                } else {
                    assert(kept.contains(kept[a]));
                    let q = choose|q: int| 0 <= q < d.len() && d[q] == kept[a];
                    assert(order[q] == kept[a]);
                    assert(order[order.len() - 1] == x);
                }
            }
        }
    }
}

/// The positions below `n` that are in `kept`, in increasing order.
pub open spec fn chosen_positions(kept: Seq<int>, n: nat) -> Seq<int>
    decreases n,
{
    if n == 0 {
        Seq::empty()
    } else if kept.contains(n - 1) {
        chosen_positions(kept, (n - 1) as nat).push(n - 1)
    } else {
        chosen_positions(kept, (n - 1) as nat)
    }
}

proof fn lemma_insert_by_count(ps: Seq<Seq<char>>, s: Seq<int>, i: int)
    ensures
        insert_by_count(ps, s, i).len() == s.len() + 1,
        forall|v: int| #[trigger] insert_by_count(ps, s, i).contains(v) <==> (s.contains(v) || v == i),
        count_sorted(ps, s) ==> count_sorted(ps, insert_by_count(ps, s, i)),
    decreases s.len(),
{
    let r = insert_by_count(ps, s, i);
    if s.len() == 0 {
        assert(r == seq![i]);
        assert forall|v: int| #[trigger] r.contains(v) <==> (s.contains(v) || v == i) by {
            if v == i {
                assert(r[0] == i);
            }
        }
    } else if component_count(ps[s.last()]) <= component_count(ps[i]) {
        assert forall|v: int| #[trigger] r.contains(v) <==> (s.contains(v) || v == i) by {
            if s.contains(v) {
                let k = choose|k: int| 0 <= k < s.len() && s[k] == v;
                assert(r[k] == v);
            }
            if v == i {
                assert(r[s.len() as int] == i);
            }
            if r.contains(v) {
                let k = choose|k: int| 0 <= k < r.len() && r[k] == v;
                if k < s.len() {
                    assert(s[k] == v);
                }
            }
        }
        if count_sorted(ps, s) {
            assert forall|a: int, b: int| 0 <= a < b < r.len() implies component_count(
                ps[#[trigger] r[a]],
            ) <= component_count(ps[#[trigger] r[b]]) by {
                if b == s.len() {
                    assert(r[a] == s[a]);
                    if a < s.len() - 1 {
                        assert(component_count(ps[s[a]]) <= component_count(ps[s[s.len() - 1]]));
                    }
                } else {
                    assert(r[a] == s[a] && r[b] == s[b]);
                }
            }
        }
    } else {
        let d = s.drop_last();
        let last = s.last();
        lemma_insert_by_count(ps, d, i);
        let m = insert_by_count(ps, d, i);
        assert(r == m.push(last));
        assert forall|v: int| #[trigger] r.contains(v) <==> (s.contains(v) || v == i) by {
            if r.contains(v) {
                let k = choose|k: int| 0 <= k < r.len() && r[k] == v;
                if k < m.len() {
                    assert(m.contains(v));
                    if d.contains(v) {
                        let q = choose|q: int| 0 <= q < d.len() && d[q] == v;
                        assert(s[q] == v);
                    }
                } else {
                    assert(s[s.len() - 1] == v);
                }
            }
            if s.contains(v) {
                let k = choose|k: int| 0 <= k < s.len() && s[k] == v;
                if k < s.len() - 1 {
                    assert(d[k] == v);
                    assert(d.contains(v));
                    assert(m.contains(v));
                    let q = choose|q: int| 0 <= q < m.len() && m[q] == v;
                    assert(r[q] == v);
                } else {
                    assert(r[m.len() as int] == v);
                }
            }
            if v == i {
                assert(m.contains(v));
                let q = choose|q: int| 0 <= q < m.len() && m[q] == v;
                assert(r[q] == v);
            }
        }
        if count_sorted(ps, s) {
            assert(count_sorted(ps, d)) by {
                assert forall|a: int, b: int| 0 <= a < b < d.len() implies component_count(
                    ps[#[trigger] d[a]],
                ) <= component_count(ps[#[trigger] d[b]]) by {
                    assert(d[a] == s[a] && d[b] == s[b]);
                }
            }
            assert forall|a: int, b: int| 0 <= a < b < r.len() implies component_count(
                ps[#[trigger] r[a]],
            ) <= component_count(ps[#[trigger] r[b]]) by {
                if b == m.len() {
                    assert(r[a] == m[a]);
                    assert(m.contains(m[a]));
                    if d.contains(m[a]) {
                        let q = choose|q: int| 0 <= q < d.len() && d[q] == m[a];
                        assert(s[q] == m[a]);
                        assert(component_count(ps[s[q]]) <= component_count(ps[s[s.len() - 1]]));
                    }
                } else {
                    assert(r[a] == m[a] && r[b] == m[b]);
                }
            }
        }
    }
}

proof fn lemma_sort_by_count(ps: Seq<Seq<char>>, idx: Seq<int>)
    ensures
        sort_by_count(ps, idx).len() == idx.len(),
        forall|v: int| #[trigger] sort_by_count(ps, idx).contains(v) <==> idx.contains(v),
        count_sorted(ps, sort_by_count(ps, idx)),
    decreases idx.len(),
{
    if idx.len() > 0 {
        let d = idx.drop_last();
        lemma_sort_by_count(ps, d);
        lemma_insert_by_count(ps, sort_by_count(ps, d), idx.last());
        assert forall|v: int| #[trigger] sort_by_count(ps, idx).contains(v) <==> idx.contains(v) by {
            if idx.contains(v) {
                let k = choose|k: int| 0 <= k < idx.len() && idx[k] == v;
                if k < idx.len() - 1 {
                    assert(d[k] == v);
                }
            }
            if d.contains(v) {
                let k = choose|k: int| 0 <= k < d.len() && d[k] == v;
                assert(idx[k] == v);
            }
        }
    }
}

proof fn lemma_existing_upto(exists: Seq<bool>, n: nat)
    requires
        n <= exists.len(),
    ensures
        forall|v: int| #[trigger] existing_upto(exists, n).contains(v) <==> (0 <= v < n && exists[v]),
    decreases n,
{
    if n > 0 {
        let prev = existing_upto(exists, (n - 1) as nat);
        lemma_existing_upto(exists, (n - 1) as nat);
        assert forall|v: int| #[trigger] existing_upto(exists, n).contains(v) <==> (0 <= v < n
            && exists[v]) by {
            assert(prev.contains(v) <==> (0 <= v < n - 1 && exists[v]));
            if exists[n - 1] {
                let e = prev.push(n - 1);
                if e.contains(v) {
                    let k = choose|k: int| 0 <= k < e.len() && e[k] == v;
                    if k < prev.len() {
                        assert(prev[k] == v);
                    }
                }
                if 0 <= v < n && exists[v] {
                    if v < n - 1 {
                        assert(prev.contains(v));
                        let k = choose|k: int| 0 <= k < prev.len() && prev[k] == v;
                        assert(e[k] == v);
                    } else {
                        assert(e[prev.len() as int] == v);
                    }
                }
            }
        }
    }
}

proof fn lemma_keep_outermost(ps: Seq<Seq<char>>, order: Seq<int>)
    ensures
        forall|v: int| #[trigger] keep_outermost(ps, order).contains(v) ==> order.contains(v),
        count_sorted(ps, order) ==> count_sorted(ps, keep_outermost(ps, order)),
        forall|a: int, b: int|
            0 <= a < b < keep_outermost(ps, order).len() ==> !path_has_prefix(
                ps[#[trigger] keep_outermost(ps, order)[b]],
                ps[#[trigger] keep_outermost(ps, order)[a]],
            ),
        forall|p: int|
            0 <= p < order.len() ==> keep_outermost(ps, order).contains(#[trigger] order[p]) || exists|
                j: int,
            |
                0 <= j < keep_outermost(ps, order).len() && path_has_prefix(
                    ps[order[p]],
                    ps[#[trigger] keep_outermost(ps, order)[j]],
                ),
    decreases order.len(),
{
    if order.len() > 0 {
        let d = order.drop_last();
        let x = order.last();
        let kept = keep_outermost(ps, d);
        let r = keep_outermost(ps, order);
        lemma_keep_outermost(ps, d);
        let inside = exists|j: int| 0 <= j < kept.len() && path_has_prefix(ps[x], #[trigger] ps[kept[j]]);
        if inside {
            assert(r == kept);
        } else {
            assert(r == kept.push(x));
        }
        assert forall|v: int| #[trigger] r.contains(v) implies order.contains(v) by {
            let k = choose|k: int| 0 <= k < r.len() && r[k] == v;
            if k < kept.len() {
                assert(r[k] == kept[k]);
                assert(kept.contains(v));
                let q = choose|q: int| 0 <= q < d.len() && d[q] == v;
                assert(order[q] == v);
            } else {
                assert(order[order.len() - 1] == v);
            }
        }
        if count_sorted(ps, order) {
            assert(count_sorted(ps, d)) by {
                assert forall|a: int, b: int| 0 <= a < b < d.len() implies component_count(
                    ps[#[trigger] d[a]],
                ) <= component_count(ps[#[trigger] d[b]]) by {
                    assert(d[a] == order[a] && d[b] == order[b]);
                }
            }
            assert forall|a: int, b: int| 0 <= a < b < r.len() implies component_count(
                ps[#[trigger] r[a]],
            ) <= component_count(ps[#[trigger] r[b]]) by {
                if b < kept.len() {
                    assert(r[a] == kept[a] && r[b] == kept[b]);
                } else {
                    assert(r[a] == kept[a]);
                    assert(kept.contains(kept[a]));
                    let q = choose|q: int| 0 <= q < d.len() && d[q] == kept[a];
                    assert(order[q] == kept[a]);
                    assert(component_count(ps[order[q]]) <= component_count(ps[order[order.len() - 1]]));
                }
            }
        }
        assert forall|a: int, b: int| 0 <= a < b < r.len() implies !path_has_prefix(
            ps[#[trigger] r[b]],
            ps[#[trigger] r[a]],
        ) by {
            if b < kept.len() {
                assert(r[a] == kept[a] && r[b] == kept[b]);
            } else {
                assert(r[a] == kept[a]);
                assert(r[b] == x);
                if path_has_prefix(ps[x], ps[kept[a]]) {
                    assert(inside);
                }
            }
        }
        assert forall|p: int| 0 <= p < order.len() implies r.contains(#[trigger] order[p]) || exists|
            j: int,
        | 0 <= j < r.len() && path_has_prefix(ps[order[p]], ps[#[trigger] r[j]]) by {
            if p < d.len() {
                assert(d[p] == order[p]);
                if kept.contains(d[p]) {
                    let k = choose|k: int| 0 <= k < kept.len() && kept[k] == d[p];
                    assert(r[k] == d[p]);
                } else {
                    let j = choose|j: int| 0 <= j < kept.len() && path_has_prefix(ps[d[p]], ps[#[trigger] kept[j]]);
                    assert(r[j] == kept[j]);
                }
            } else if inside {
                let j = choose|j: int| 0 <= j < kept.len() && path_has_prefix(ps[x], #[trigger] ps[kept[j]]);
                assert(r[j] == kept[j]);
            } else {
                assert(r[kept.len() as int] == x);
            }
        }
    }
}

proof fn lemma_chosen_positions(ps: Seq<Seq<char>>, kept: Seq<int>, n: nat)
    ensures
        chosen_upto(ps, kept, n) == chosen_positions(kept, n).map_values(|k: int| ps[k]),
        forall|a: int, b: int|
            0 <= a < b < chosen_positions(kept, n).len() ==> #[trigger] chosen_positions(kept, n)[a]
                < #[trigger] chosen_positions(kept, n)[b],
        forall|a: int|
            0 <= a < chosen_positions(kept, n).len() ==> 0 <= #[trigger] chosen_positions(kept, n)[a]
                < n && kept.contains(chosen_positions(kept, n)[a]),
        forall|k: int| 0 <= k < n && kept.contains(k) ==> #[trigger] chosen_positions(kept, n).contains(k),
    decreases n,
{
    if n > 0 {
        let m = (n - 1) as nat;
        lemma_chosen_positions(ps, kept, m);
        let c = chosen_positions(kept, m);
        if kept.contains(n - 1) {
            assert(chosen_positions(kept, n).map_values(|k: int| ps[k]) =~= c.map_values(|k: int| ps[k]).push(
                ps[n - 1],
            ));
            assert forall|k: int| 0 <= k < n && kept.contains(k) implies #[trigger] chosen_positions(kept, n).contains(k) by {
                if k < n - 1 {
                    assert(c.contains(k));
                    let q = choose|q: int| 0 <= q < c.len() && c[q] == k;
                    assert(c.push(n - 1)[q] == k);
                } else {
                    assert(c.push(n - 1)[c.len() as int] == k);
                }
            }
        } else {
            assert forall|k: int| 0 <= k < n && kept.contains(k) implies #[trigger] chosen_positions(kept, n).contains(k) by {
                assert(k < n - 1);
            }
        }
    } else {
        assert(chosen_upto(ps, kept, n) =~= chosen_positions(kept, n).map_values(|k: int| ps[k]));
    }
}

/// What is taken from a file-manager selection: only existing selected
/// paths, in the selection's order (so sorted where the selection is);
/// no path taken lies within another taken path that has fewer components,
/// or as many and comes before it; and every existing selected path is
/// taken or lies within a path taken. With what `path_starts_with` states
/// of every call (a path starts with itself; a leading part has no more
/// components, and is the same path where it has as many), this gives the
/// plain forms: no path taken starts with another, and every existing
/// selected path starts with a path taken.
pub proof fn law_compression_selection(ps: Seq<Seq<char>>, exists: Seq<bool>)
    requires
        exists.len() == ps.len(),
    ensures
        selection_ordered(ps) ==> selection_ordered(compression_selection(ps, exists)),
        forall|i: int|
            0 <= i < compression_selection(ps, exists).len() ==> exists|k: int|
                0 <= k < ps.len() && exists[k] && #[trigger] compression_selection(ps, exists)[i]
                    == ps[k],
        forall|i: int, j: int|
            0 <= i < compression_selection(ps, exists).len() && 0 <= j < compression_selection(
                ps,
                exists,
            ).len() && i != j && (component_count(#[trigger] compression_selection(ps, exists)[i])
                < component_count(#[trigger] compression_selection(ps, exists)[j]) || (i < j
                && component_count(compression_selection(ps, exists)[i]) == component_count(
                compression_selection(ps, exists)[j],
            ))) ==> !path_has_prefix(
                compression_selection(ps, exists)[j],
                compression_selection(ps, exists)[i],
            ),
        forall|k: int|
            0 <= k < ps.len() && exists[k] ==> compression_selection(ps, exists).contains(
                #[trigger] ps[k],
            ) || exists|i: int|
                0 <= i < compression_selection(ps, exists).len() && path_has_prefix(
                    ps[k],
                    #[trigger] compression_selection(ps, exists)[i],
                ),
        selection_ordered(ps) && starts_with_facts(ps) ==> forall|i: int, j: int|
            0 <= i < compression_selection(ps, exists).len() && 0 <= j < compression_selection(
                ps,
                exists,
            ).len() && i != j ==> !path_has_prefix(
                #[trigger] compression_selection(ps, exists)[j],
                #[trigger] compression_selection(ps, exists)[i],
            ),
        starts_with_facts(ps) ==> forall|k: int|
            0 <= k < ps.len() && exists[k] ==> exists|i: int|
                0 <= i < compression_selection(ps, exists).len() && path_has_prefix(
                    #[trigger] ps[k],
                    compression_selection(ps, exists)[i],
                ),
{
    let n = ps.len();
    let ex = existing_upto(exists, n);
    let order = sort_by_count(ps, ex);
    let kept = keep_outermost(ps, order);
    let pos = chosen_positions(kept, n);
    let r = compression_selection(ps, exists);
    lemma_existing_upto(exists, n);
    lemma_sort_by_count(ps, ex);
    lemma_keep_outermost(ps, order);
    lemma_chosen_positions(ps, kept, n);
    assert(r == pos.map_values(|k: int| ps[k]));
    assert(r.len() == pos.len());
    // Each position taken exists.
    assert forall|a: int| 0 <= a < pos.len() implies exists[#[trigger] pos[a]] && 0 <= pos[a] < n by {
        assert(kept.contains(pos[a]));
        assert(order.contains(pos[a]));
        assert(ex.contains(pos[a]));
    }
    if selection_ordered(ps) {
        assert forall|i: int, j: int| 0 <= i < j < r.len() implies path_before(
            #[trigger] r[i],
            #[trigger] r[j],
        ) by {
            assert(r[i] == ps[pos[i]] && r[j] == ps[pos[j]]);
            assert(pos[i] < pos[j]);
        }
    }
    assert forall|i: int| 0 <= i < r.len() implies exists|k: int|
        0 <= k < ps.len() && exists[k] && #[trigger] r[i] == ps[k] by {
        assert(r[i] == ps[pos[i]]);
        assert(exists[pos[i]]);
    }
    lemma_existing_upto_increasing(exists, n);
    lemma_sort_by_count_stable(ps, ex);
    lemma_keep_outermost_stable(ps, order);
    assert forall|i: int, j: int|
        0 <= i < r.len() && 0 <= j < r.len() && i != j && (component_count(#[trigger] r[i])
            < component_count(#[trigger] r[j]) || (i < j && component_count(r[i]) == component_count(
            r[j],
        ))) implies !path_has_prefix(r[j], r[i]) by {
        let pi = pos[i];
        let pj = pos[j];
        assert(r[i] == ps[pi] && r[j] == ps[pj]);
        assert(kept.contains(pi) && kept.contains(pj));
        let a = choose|a: int| 0 <= a < kept.len() && kept[a] == pi;
        let b = choose|b: int| 0 <= b < kept.len() && kept[b] == pj;
        if b < a {
            assert(component_count(ps[kept[b]]) <= component_count(ps[kept[a]]));
            assert(pos[i] < pos[j]);
        }
        assert(a != b);
        assert(!path_has_prefix(ps[kept[b]], ps[kept[a]]));
    }
    assert forall|k: int| 0 <= k < ps.len() && exists[k] implies r.contains(#[trigger] ps[k])
        || exists|i: int| 0 <= i < r.len() && path_has_prefix(ps[k], #[trigger] r[i]) by {
        assert(ex.contains(k));
        assert(order.contains(k));
        let p = choose|p: int| 0 <= p < order.len() && order[p] == k;
        if kept.contains(order[p]) {
            assert(pos.contains(k));
            let a = choose|a: int| 0 <= a < pos.len() && pos[a] == k;
            assert(r[a] == ps[k]);
        } else {
            let j = choose|j: int| 0 <= j < kept.len() && path_has_prefix(ps[order[p]], ps[#[trigger] kept[j]]);
            let v = kept[j];
            assert(kept.contains(v));
            assert(order.contains(v));
            assert(ex.contains(v));
            assert(0 <= v < n);
            assert(pos.contains(v));
            let a = choose|a: int| 0 <= a < pos.len() && pos[a] == v;
            assert(r[a] == ps[v]);
        }
    }
    if selection_ordered(ps) && starts_with_facts(ps) {
        assert forall|i: int, j: int| 0 <= i < r.len() && 0 <= j < r.len() && i != j implies !path_has_prefix(
            #[trigger] r[j],
            #[trigger] r[i],
        ) by {
            let pi = pos[i];
            let pj = pos[j];
            assert(r[i] == ps[pi] && r[j] == ps[pj]);
            assert(0 <= pi < n && 0 <= pj < n);
            if path_has_prefix(ps[pj], ps[pi]) {
                assert(component_count(ps[pi]) <= component_count(ps[pj]));
                if component_count(ps[pi]) < component_count(ps[pj]) {
                    assert(!path_has_prefix(r[j], r[i]));
                } else if i < j {
                    assert(!path_has_prefix(r[j], r[i]));
                } else {
                    assert(same_path(ps[pj], ps[pi]));
                    assert(pj < pi);
                    assert(!same_path(ps[pj], ps[pi]));
                }
            }
        }
    }
    if starts_with_facts(ps) {
        assert forall|k: int| 0 <= k < ps.len() && exists[k] implies exists|i: int|
            0 <= i < r.len() && path_has_prefix(#[trigger] ps[k], r[i]) by {
            if r.contains(ps[k]) {
                let a = choose|a: int| 0 <= a < r.len() && r[a] == ps[k];
                assert(path_has_prefix(ps[k], ps[k]));
                assert(path_has_prefix(ps[k], r[a]));
            } else {
                let i = choose|i: int| 0 <= i < r.len() && path_has_prefix(ps[k], #[trigger] r[i]);
                assert(path_has_prefix(ps[k], r[i]));
            }
        }
    }
}

fn insert_by_count_exec(counts: &Vec<usize>, sorted: &mut Vec<usize>, i: usize, Ghost(ps): Ghost<Seq<Seq<char>>>)
    requires
        i < counts@.len(),
        counts@.len() == ps.len(),
        forall|k: int| 0 <= k < counts@.len() ==> counts@[k] == component_count(#[trigger] ps[k]),
        forall|k: int| 0 <= k < old(sorted)@.len() ==> #[trigger] old(sorted)@[k] < counts@.len(),
    ensures
        final(sorted)@.map_values(|x: usize| x as int) == insert_by_count(
            ps,
            old(sorted)@.map_values(|x: usize| x as int),
            i as int,
        ),
        forall|k: int| 0 <= k < final(sorted)@.len() ==> #[trigger] final(sorted)@[k] < counts@.len(),
    decreases old(sorted)@.len(),
{
    let ghost before = sorted@.map_values(|x: usize| x as int);
    if sorted.len() == 0 {
        sorted.push(i);
        assert(sorted@.map_values(|x: usize| x as int) =~= seq![i as int]);
        return;
    }
    let last = sorted[sorted.len() - 1];
    assert(before.last() == last as int);
    if counts[last] <= counts[i] {
        sorted.push(i);
        assert(sorted@.map_values(|x: usize| x as int) =~= before.push(i as int));
    } else {
        let popped = sorted.pop();
        assert(sorted@.map_values(|x: usize| x as int) =~= before.drop_last());
        insert_by_count_exec(counts, sorted, i, Ghost(ps));
        let ghost mid = sorted@.map_values(|x: usize| x as int);
        sorted.push(last);
        assert(sorted@.map_values(|x: usize| x as int) =~= mid.push(last as int));
    }
}

fn contains_index(v: &Vec<usize>, i: usize) -> (r: bool)
    ensures
        r == v@.map_values(|x: usize| x as int).contains(i as int),
{
    let ghost m = v@.map_values(|x: usize| x as int);
    let mut k: usize = 0;
    while k < v.len()
        invariant
            k <= v@.len(),
            m == v@.map_values(|x: usize| x as int),
            forall|j: int| 0 <= j < k ==> m[j] != i as int,
        decreases v@.len() - k,
    {
        if v[k] == i {
            assert(m[k as int] == i as int);
            return true;
        }
        k = k + 1;
    }
    false
}

/// The paths to compress from a file-manager selection: `selected_paths`
/// in the selection's order (each sorting before the next as `Path`
/// orders them, as a `BTreeSet<PathBuf>` holds them), `exists[i]` telling
/// whether the `i`-th exists. Missing paths are dropped, and so is every
/// path that lies within another one taken (shallower ones are taken
/// first); what is left comes back sorted.
pub fn normalize_file_manager_compression_paths(selected_paths: &[String], exists: &[bool]) -> (r: Vec<String>)
    requires
        exists@.len() == selected_paths@.len(),
        selection_ordered(views(selected_paths@)),
    ensures
        views(r@) == compression_selection(views(selected_paths@), exists@),
        selection_ordered(views(r@)),
{
    proof {
        law_compression_selection(views(selected_paths@), exists@);
    }
    let ghost ps = views(selected_paths@);
    let n = selected_paths.len();
    let mut counts: Vec<usize> = Vec::new();
    let mut i: usize = 0;
    while i < n
        invariant
            n == selected_paths@.len(),
            ps == views(selected_paths@),
            i <= n,
            counts@.len() == i,
            forall|k: int| 0 <= k < i ==> counts@[k] == component_count(#[trigger] ps[k]),
        decreases n - i,
    {
        let kinds = path_component_kinds(selected_paths[i].as_str());
        assert(ps[i as int] == selected_paths@[i as int]@);
        counts.push(kinds.len());
        i = i + 1;
    }
    let mut sorted: Vec<usize> = Vec::new();
    let mut i: usize = 0;
    while i < n
        invariant
            n == selected_paths@.len(),
            exists@.len() == n,
            ps.len() == n,
            counts@.len() == n,
            i <= n,
            forall|k: int| 0 <= k < n ==> counts@[k] == component_count(#[trigger] ps[k]),
            forall|k: int| 0 <= k < sorted@.len() ==> #[trigger] sorted@[k] < n,
            sorted@.map_values(|x: usize| x as int) == sort_by_count(ps, existing_upto(exists@, i as nat)),
        decreases n - i,
    {
        if exists[i] {
            insert_by_count_exec(&counts, &mut sorted, i, Ghost(ps));
            assert(existing_upto(exists@, (i + 1) as nat).drop_last() =~= existing_upto(exists@, i as nat));
        }
        i = i + 1;
    }
    let ghost order = sorted@.map_values(|x: usize| x as int);
    let mut kept: Vec<usize> = Vec::new();
    let mut t: usize = 0;
    while t < sorted.len()
        invariant
            n == selected_paths@.len(),
            ps == views(selected_paths@),
            order == sorted@.map_values(|x: usize| x as int),
            t <= sorted@.len(),
            forall|k: int| 0 <= k < sorted@.len() ==> #[trigger] sorted@[k] < n,
            forall|k: int| 0 <= k < kept@.len() ==> #[trigger] kept@[k] < n,
            kept@.map_values(|x: usize| x as int) == keep_outermost(ps, order.take(t as int)),
        decreases sorted@.len() - t,
    {
        let x = sorted[t];
        let ghost km = kept@.map_values(|y: usize| y as int);
        let mut inside = false;
        let mut j: usize = 0;
        while j < kept.len()
            invariant
                n == selected_paths@.len(),
                ps == views(selected_paths@),
                x < n,
                j <= kept@.len(),
                km == kept@.map_values(|y: usize| y as int),
                forall|k: int| 0 <= k < kept@.len() ==> #[trigger] kept@[k] < n,
                inside == exists|q: int| 0 <= q < j && path_has_prefix(ps[x as int], #[trigger] ps[km[q]]),
            decreases kept@.len() - j,
        {
            let k = kept[j];
            assert(ps[k as int] == selected_paths@[k as int]@);
            assert(ps[x as int] == selected_paths@[x as int]@);
            if path_starts_with(selected_paths[x].as_str(), selected_paths[k].as_str()) {
                inside = true;
                assert(path_has_prefix(ps[x as int], ps[km[j as int]]));
            }
            j = j + 1;
        }
        proof {
            assert(order.take(t + 1).drop_last() =~= order.take(t as int));
            assert(order.take(t + 1).last() == x as int);
        }
        if !inside {
            kept.push(x);
            proof {
                assert(kept@.map_values(|y: usize| y as int) =~= km.push(x as int));
            }
        }
        t = t + 1;
    }
    proof {
        assert(order.take(sorted@.len() as int) =~= order);
    }
    let ghost kv = kept@.map_values(|y: usize| y as int);
    let mut out: Vec<String> = Vec::new();
    let mut i: usize = 0;
    while i < n
        invariant
            n == selected_paths@.len(),
            ps == views(selected_paths@),
            kv == kept@.map_values(|y: usize| y as int),
            i <= n,
            views(out@) == chosen_upto(ps, kv, i as nat),
        decreases n - i,
    {
        if contains_index(&kept, i) {
            let p = selected_paths[i].clone();
            assert(p@ == ps[i as int]);
            out.push(p);
            assert(views(out@) =~= chosen_upto(ps, kv, i as nat).push(ps[i as int]));
        }
        i = i + 1;
    }
    out
}

/// Whether each of `ps` sorts before every later one.
fn ordered_paths(ps: &[String]) -> (r: bool)
    ensures
        r == selection_ordered(views(ps@)),
{
    let ghost v = views(ps@);
    let mut i: usize = 0;
    while i < ps.len()
        invariant
            v == views(ps@),
            i <= ps@.len(),
            forall|a: int, b: int|
                0 <= a < i && a < b < v.len() ==> path_before(#[trigger] v[a], #[trigger] v[b])
                    && !same_path(v[a], v[b]),
        decreases ps@.len() - i,
    {
        let mut j: usize = i + 1;
        while j < ps.len()
            invariant
                v == views(ps@),
                i < ps@.len(),
                i < j <= ps@.len(),
                forall|a: int, b: int|
                    0 <= a < i && a < b < v.len() ==> path_before(#[trigger] v[a], #[trigger] v[b])
                        && !same_path(v[a], v[b]),
                forall|b: int| i < b < j ==> path_before(v[i as int], #[trigger] v[b]) && !same_path(v[i as int], v[b]),
            decreases ps@.len() - j,
        {
            assert(v[i as int] == ps@[i as int]@ && v[j as int] == ps@[j as int]@);
            if !path_less(ps[i].as_str(), ps[j].as_str()) {
                return false;
            }
            j = j + 1;
        }
        i = i + 1;
    }
    true
}

/// The paths to compress from a file-manager selection, as
/// `normalize_file_manager_compression_paths` gives them, where the
/// selection is in `Path` order; `None` where it is not.
pub fn normalize_file_manager_selection(selected_paths: &[String], exists: &[bool]) -> (r: Option<Vec<String>>)
    requires
        exists@.len() == selected_paths@.len(),
    ensures
        match r {
            Some(v) => selection_ordered(views(selected_paths@)) && views(v@) == compression_selection(
                views(selected_paths@),
                exists@,
            ),
            None => !selection_ordered(views(selected_paths@)),
        },
{
    if ordered_paths(selected_paths) {
        Some(normalize_file_manager_compression_paths(selected_paths, exists))
    } else {
        None
    }
}

// ---------------------------------------------------------------------
// The selection as a set of paths
// ---------------------------------------------------------------------

/// There are visible paths and each of them is selected.
pub open spec fn all_selected(visible: Seq<Seq<char>>, selected: Seq<Seq<char>>) -> bool {
    visible.len() > 0 && forall|i: int| 0 <= i < visible.len() ==> among(#[trigger] visible[i], selected)
}

/// Whether every visible path of the file manager is selected (and there
/// is at least one).
pub fn all_visible_selected(visible: &[String], selected: &[String]) -> (r: bool)
    ensures
        r == all_selected(views(visible@), views(selected@)),
{
    if visible.len() == 0 {
        return false;
    }
    let ghost v = views(visible@);
    let mut i: usize = 0;
    while i < visible.len()
        invariant
            v == views(visible@),
            i <= visible@.len(),
            forall|k: int| 0 <= k < i ==> among(#[trigger] v[k], views(selected@)),
        decreases visible@.len() - i,
    {
        assert(v[i as int] == visible@[i as int]@);
        if !among_exec(visible[i].as_str(), selected) {
            return false;
        }
        i = i + 1;
    }
    true
}

/// `selected` with each of `visible` added, in order, unless the same path
/// is already there.
pub open spec fn with_added(selected: Seq<Seq<char>>, visible: Seq<Seq<char>>) -> Seq<Seq<char>>
    decreases visible.len(),
{
    if visible.len() == 0 {
        selected
    } else {
        let s = with_added(selected, visible.drop_last());
        if among(visible.last(), s) {
            s
        } else {
            s.push(visible.last())
        }
    }
}

/// `selected` without the paths that are the same path as one of `visible`.
pub open spec fn without(selected: Seq<Seq<char>>, visible: Seq<Seq<char>>) -> Seq<Seq<char>>
    decreases selected.len(),
{
    if selected.len() == 0 {
        selected
    } else {
        let s = without(selected.drop_last(), visible);
        if among(selected.last(), visible) {
            s
        } else {
            s.push(selected.last())
        }
    }
}

/// The selection after "select all" (`select`) or "select none" on the
/// visible paths: each visible path added unless already selected, or
/// every selected path that is visible taken out.
pub fn select_visible(selected: &[String], visible: &[String], select: bool) -> (r: Vec<String>)
    ensures
        views(r@) == (if select {
            with_added(views(selected@), views(visible@))
        } else {
            without(views(selected@), views(visible@))
        }),
{
    let ghost sv = views(selected@);
    let ghost vv = views(visible@);
    let mut out: Vec<String> = Vec::new();
    if select {
        let mut k: usize = 0;
        while k < selected.len()
            invariant
                k <= selected@.len(),
                sv == views(selected@),
                views(out@) == sv.take(k as int),
            decreases selected@.len() - k,
        {
            let ghost before = views(out@);
            let c = selected[k].clone();
            assert(c@ == sv[k as int]);
            out.push(c);
            assert(views(out@) =~= before.push(sv[k as int]));
            k = k + 1;
            assert(views(out@) =~= sv.take(k as int));
        }
        assert(sv.take(selected@.len() as int) =~= sv);
        assert(vv.take(0) =~= Seq::<Seq<char>>::empty());
        let mut i: usize = 0;
        while i < visible.len()
            invariant
                i <= visible@.len(),
                sv == views(selected@),
                vv == views(visible@),
                views(out@) == with_added(sv, vv.take(i as int)),
            decreases visible@.len() - i,
        {
            assert(vv.take(i + 1).drop_last() =~= vv.take(i as int));
            assert(vv.take(i + 1).last() == visible@[i as int]@);
            if !among_exec(visible[i].as_str(), out.as_slice()) {
                let ghost before = views(out@);
                out.push(visible[i].clone());
                assert(views(out@) =~= before.push(vv[i as int]));
            }
            i = i + 1;
        }
        assert(vv.take(visible@.len() as int) =~= vv);
    } else {
        let mut k: usize = 0;
        assert(sv.take(0) =~= Seq::<Seq<char>>::empty());
        while k < selected.len()
            invariant
                k <= selected@.len(),
                sv == views(selected@),
                vv == views(visible@),
                views(out@) == without(sv.take(k as int), vv),
            decreases selected@.len() - k,
        {
            assert(sv.take(k + 1).drop_last() =~= sv.take(k as int));
            assert(sv.take(k + 1).last() == selected@[k as int]@);
            if !among_exec(selected[k].as_str(), visible) {
                let ghost before = views(out@);
                out.push(selected[k].clone());
                assert(views(out@) =~= before.push(sv[k as int]));
            }
            k = k + 1;
        }
        assert(sv.take(selected@.len() as int) =~= sv);
    }
    out
}

/// Where `x` goes among `s`: before the first path it sorts before, or
/// at the end.
pub open spec fn insert_position(s: Seq<Seq<char>>, x: Seq<char>) -> int
    decreases s.len(),
{
    if s.len() == 0 {
        0
    } else if path_before(x, s[0]) {
        0
    } else {
        1 + insert_position(s.drop_first(), x)
    }
}

/// `x` put into `s` at its place, unless the same path is already there.
pub open spec fn insert_path(s: Seq<Seq<char>>, x: Seq<char>) -> Seq<Seq<char>> {
    if among(x, s) {
        s
    } else {
        s.insert(insert_position(s, x), x)
    }
}

/// The paths put one by one, in order, into a list kept in `Path` order,
/// each same path only once (as a `BTreeSet<PathBuf>` holds them).
pub open spec fn sorted_paths(ps: Seq<Seq<char>>) -> Seq<Seq<char>>
    decreases ps.len(),
{
    if ps.len() == 0 {
        Seq::empty()
    } else {
        insert_path(sorted_paths(ps.drop_last()), ps.last())
    }
}

proof fn lemma_insert_position(s: Seq<Seq<char>>, x: Seq<char>)
    ensures
        0 <= insert_position(s, x) <= s.len(),
    decreases s.len(),
{
    if s.len() > 0 && !path_before(x, s[0]) {
        lemma_insert_position(s.drop_first(), x);
    }
}

proof fn lemma_insert_path(s: Seq<Seq<char>>, x: Seq<char>)
    ensures
        forall|y: Seq<char>| s.contains(y) ==> #[trigger] insert_path(s, x).contains(y),
        forall|y: Seq<char>| #[trigger] insert_path(s, x).contains(y) ==> s.contains(y) || y == x,
        forall|y: Seq<char>| among(y, s) ==> #[trigger] among(y, insert_path(s, x)),
        insert_path(s, x).contains(x) || among(x, insert_path(s, x)),
{
    lemma_insert_position(s, x);
    let t = insert_path(s, x);
    if !among(x, s) {
        let p = insert_position(s, x);
        assert(t == s.insert(p, x));
        assert(t[p] == x);
        assert forall|y: Seq<char>| s.contains(y) implies #[trigger] t.contains(y) by {
            let j = choose|j: int| 0 <= j < s.len() && s[j] == y;
            if j < p {
                assert(t[j] == y);
            } else {
                assert(t[j + 1] == y);
            }
        }
        assert forall|y: Seq<char>| #[trigger] t.contains(y) implies s.contains(y) || y == x by {
            let j = choose|j: int| 0 <= j < t.len() && t[j] == y;
            if j < p {
                assert(s[j] == y);
            } else if j > p {
                assert(s[j - 1] == y);
            }
        }
        assert forall|y: Seq<char>| among(y, s) implies #[trigger] among(y, t) by {
            let j = choose|j: int| 0 <= j < s.len() && same_path(#[trigger] s[j], y);
            if j < p {
                assert(t[j] == s[j]);
            } else {
                assert(t[j + 1] == s[j]);
            }
        }
    }
}

/// Building the sorted selection keeps it: every path in it is one of the
/// selected paths, and every selected path is in it or is the same path
/// as one in it.
pub proof fn law_sorted_paths_keep_selection(ps: Seq<Seq<char>>)
    ensures
        forall|i: int| 0 <= i < sorted_paths(ps).len() ==> ps.contains(#[trigger] sorted_paths(ps)[i]),
        forall|k: int|
            0 <= k < ps.len() ==> sorted_paths(ps).contains(#[trigger] ps[k]) || among(
                ps[k],
                sorted_paths(ps),
            ),
    decreases ps.len(),
{
    if ps.len() > 0 {
        let d = ps.drop_last();
        let x = ps.last();
        let s = sorted_paths(d);
        let t = sorted_paths(ps);
        law_sorted_paths_keep_selection(d);
        lemma_insert_path(s, x);
        assert(t == insert_path(s, x));
        assert forall|i: int| 0 <= i < t.len() implies ps.contains(#[trigger] t[i]) by {
            assert(t.contains(t[i]));
            if s.contains(t[i]) {
                let j = choose|j: int| 0 <= j < s.len() && s[j] == t[i];
                assert(d.contains(s[j]));
                let q = choose|q: int| 0 <= q < d.len() && d[q] == s[j];
                assert(ps[q] == t[i]);
            } else {
                assert(ps[ps.len() - 1] == t[i]);
            }
        }
        assert forall|k: int| 0 <= k < ps.len() implies t.contains(#[trigger] ps[k]) || among(ps[k], t) by {
            if k < d.len() {
                assert(d[k] == ps[k]);
                if s.contains(d[k]) {
                    assert(t.contains(d[k]));
                } else {
                    assert(among(d[k], s));
                    assert(among(d[k], t));
                }
            }
        }
    }
}

fn insert_path_exec(out: &mut Vec<String>, x: &String)
    ensures
        views(final(out)@) == insert_path(views(old(out)@), x@),
{
    let ghost s = views(out@);
    if among_exec(x.as_str(), out.as_slice()) {
        return;
    }
    proof {
        lemma_insert_position(s, x@);
        assert(s.skip(0) =~= s);
    }
    let mut p: usize = 0;
    while p < out.len()
        invariant_except_break
            p <= out@.len(),
            s == views(out@),
            insert_position(s, x@) == p + insert_position(s.skip(p as int), x@),
        ensures
            p <= out@.len(),
            s == views(out@),
            insert_position(s, x@) == p,
        decreases out@.len() - p,
    {
        assert(s[p as int] == out@[p as int]@);
        assert(s.skip(p as int)[0] == s[p as int]);
        if path_less(x.as_str(), out[p].as_str()) {
            break;
        }
        assert(s.skip(p as int).drop_first() =~= s.skip(p + 1));
        p = p + 1;
    }
    out.insert(p, x.clone());
    assert(views(out@) =~= s.insert(p as int, x@));
}

/// The selected paths in `Path` order, each same path once, as a
/// `BTreeSet<PathBuf>` would hold them: each path is put in before the
/// first one it sorts before. Where the list so built is not in `Path`
/// order throughout, `None`.
pub fn sort_file_manager_selection(paths: &[String]) -> (r: Option<Vec<String>>)
    ensures
        match r {
            Some(v) => views(v@) == sorted_paths(views(paths@)) && selection_ordered(views(v@)),
            None => !selection_ordered(sorted_paths(views(paths@))),
        },
{
    let ghost ps = views(paths@);
    let mut out: Vec<String> = Vec::new();
    let mut i: usize = 0;
    proof {
        assert(ps.take(0) =~= Seq::<Seq<char>>::empty());
    }
    while i < paths.len()
        invariant
            i <= paths@.len(),
            ps == views(paths@),
            views(out@) == sorted_paths(ps.take(i as int)),
        decreases paths@.len() - i,
    {
        assert(ps.take(i + 1).drop_last() =~= ps.take(i as int));
        assert(ps.take(i + 1).last() == paths@[i as int]@);
        insert_path_exec(&mut out, &paths[i]);
        i = i + 1;
    }
    proof {
        assert(ps.take(paths@.len() as int) =~= ps);
    }
    if ordered_paths(out.as_slice()) {
        Some(out)
    } else {
        None
    }
}


/// The output path after the format changes from `previous` to `format`:
/// where it was empty or still the path suggested for the old format, the
/// path suggested for the new one (when there is one); otherwise unchanged.
pub open spec fn output_after_switch(
    sources: Seq<Seq<char>>,
    first_is_file: bool,
    previous: CompressionFormat,
    format: CompressionFormat,
    current: Seq<char>,
    st: LocaleState,
) -> Seq<char> {
    let cur = trim(current);
    if previous != format && (cur.len() == 0 || suggested_output(sources, first_is_file, previous, st)
        == Some(cur)) && suggested_output(sources, first_is_file, format, st) is Some {
        suggested_output(sources, first_is_file, format, st)->0
    } else {
        current
    }
}

/// Switches the compression format: encrypted file names are turned off
/// where the new format cannot encrypt them, and the output path follows
/// the new format while it was empty or still the suggested one. Whether
/// anything changed (nothing does when the format is the same).
pub fn apply_compression_format(
    options: &mut CompressionOptions,
    output_path: &mut String,
    sources: &[String],
    first_is_file: bool,
    format: CompressionFormat,
    language: Language,
    state: &LocaleState,
) -> (r: bool)
    ensures
        r == (old(options).format != format),
        !r ==> *final(options) == *old(options) && final(output_path)@ == old(output_path)@,
        r ==> final(options).format == format && final(options).encrypt_file_names == (
            old(options).encrypt_file_names && format == CompressionFormat::SevenZip) && (CompressionOptions {
            format: old(options).format,
            encrypt_file_names: old(options).encrypt_file_names,
            ..*final(options)
        }) == *old(options),
        final(output_path)@ == output_after_switch(
            views(sources@),
            first_is_file,
            old(options).format,
            format,
            old(output_path)@,
            *state,
        ),
{
    let previous = options.format;
    if previous == format {
        return false;
    }
    let previous_suggested = suggested_archive_output_path(sources, first_is_file, previous, language, state);
    let current = trimmed(chars_of(output_path.as_str()).as_slice());
    options.format = format;
    if !format.supports_encrypt_file_names() {
        options.encrypt_file_names = false;
    }
    let follows = current.len() == 0 || match &previous_suggested {
        Some(s) => chars_eq_str(current.as_slice(), s.as_str()),
        None => false,
    };
    if follows {
        if let Some(next) = suggested_archive_output_path(sources, first_is_file, format, language, state) {
            *output_path = next;
        }
    }
    true
}

} // verus!
