//! The settings file: an INI text with a `[ui]` section (language and
//! theme) and a `[presets]` section (named compression presets).
//!
//! Reading and writing the file itself is left to the caller; everything
//! here maps file contents to values and values to file contents.

use vstd::prelude::*;

use crate::archive::{
    detect_format, format_suffix, CompressionFormat, CompressionLevel, ZipCompressionMethod,
};
use crate::paths::{joined, path_eq, path_join, same_path};
use crate::update::{digits_value, is_digit};
use crate::text::{
    decimal, digit_char, push_decimal,
    chars_eq, chars_eq_str, chars_of, lower_chars, lex_lt, lex_less, lemma_lex_total,
    lemma_lex_transitive, eq_ignore_ascii_case, eq_ignore_ascii_case_str, eq_ignore_case, extend_chars,
    extend_str, find_char, find_char_from, is_white, lemma_find_char, lemma_find_char_none,
    lemma_find_char_unique, lemma_trim_end_keeps_first, lines, lines_of, lower, segments, string_of, strip_cr, sub_chars, trimmed,
    trim, trim_end, trim_end_matches, trim_matches, trim_matches_range, trim_range, trim_start,
    trim_start_matches,
};

verus! {

// ---------------------------------------------------------------------
// The shape of one line
// ---------------------------------------------------------------------

/// Blank lines and `;` / `#` comments carry nothing.
pub open spec fn is_skippable(t: Seq<char>) -> bool {
    t.len() == 0 || t[0] == ';' || t[0] == '#'
}

/// `[name]` opens a section; the name is trimmed.
pub open spec fn section_header(t: Seq<char>) -> Option<Seq<char>> {
    if t.len() >= 2 && t[0] == '[' && t.last() == ']' {
        Some(trim(t.subrange(1, t.len() - 1)))
    } else {
        None
    }
}

/// The trimmed key of a `key=value` line.
pub open spec fn line_key(t: Seq<char>) -> Seq<char> {
    trim(t.take(find_char(t, '=')))
}

/// A value as the reader keeps it: trimmed, then stripped of surrounding
/// double quotes, then of surrounding single quotes.
pub open spec fn clean_value(v: Seq<char>) -> Seq<char> {
    trim_matches(trim_matches(trim(v), '"'), '\'')
}

/// The trimmed line `t` is a `key=value` line whose key is `key`.
pub open spec fn is_entry_for(t: Seq<char>, key: Seq<char>) -> bool {
    find_char(t, '=') >= 0 && eq_ignore_case(line_key(t), key)
}

// ---------------------------------------------------------------------
// Reading a value
// ---------------------------------------------------------------------

/// Scans `ls` (the file's lines) with `cur` the current section name. The
/// first `key=` line inside a section named `section` (both compared
/// without ASCII case) decides: its cleaned value, or nothing when that is
/// empty.
pub open spec fn ini_scan(ls: Seq<Seq<char>>, cur: Seq<char>, section: Seq<char>, key: Seq<
    char,
>) -> Option<Seq<char>>
    decreases ls.len(),
{
    if ls.len() == 0 {
        None
    } else {
        let t = trim(ls[0]);
        let rest = ls.drop_first();
        if is_skippable(t) {
            ini_scan(rest, cur, section, key)
        } else if section_header(t) is Some {
            ini_scan(rest, section_header(t)->0, section, key)
        } else if !eq_ignore_case(cur, section) || !is_entry_for(t, key) {
            ini_scan(rest, cur, section, key)
        } else {
            let v = clean_value(t.skip(find_char(t, '=') + 1));
            if v.len() == 0 {
                None
            } else {
                Some(v)
            }
        }
    }
}

/// The value the settings text `contents` gives `key` in `section`.
pub open spec fn ini_value(contents: Seq<char>, section: Seq<char>, key: Seq<char>) -> Option<
    Seq<char>,
> {
    ini_scan(lines(contents), Seq::empty(), section, key)
}

/// `[name]`-line test on a trimmed line held in `t[a..b]`.
fn header_bounds(t: &[char], a: usize, b: usize) -> (r: Option<(usize, usize)>)
    requires
        a <= b <= t@.len(),
    ensures
        match r {
            Some(bounds) => section_header(t@.subrange(a as int, b as int)) == Some(
                t@.subrange(bounds.0 as int, bounds.1 as int),
            ) && a <= bounds.0 <= bounds.1 <= b,
            None => section_header(t@.subrange(a as int, b as int)) is None,
        },
{
    if b - a >= 2 && t[a] == '[' && t[b - 1] == ']' {
        let (x, y) = trim_range(t, a + 1, b - 1);
        proof {
            let s = t@.subrange(a as int, b as int);
            assert(s.subrange(1, s.len() - 1) =~= t@.subrange(a + 1, b - 1));
        }
        Some((x, y))
    } else {
        None
    }
}

/// Whether the trimmed line `t` is a `key=` line for `key`, and where its
/// `=` is.
fn entry_eq(t: &[char], key: &[char]) -> (r: Option<usize>)
    ensures
        match r {
            Some(p) => is_entry_for(t@, key@) && find_char(t@, '=') == p && p < t@.len(),
            None => !is_entry_for(t@, key@),
        },
{
    match find_char_from(t, '=', 0) {
        None => {
            proof {
                assert(t@.skip(0) =~= t@);
                lemma_find_char_none(t@, '=');
            }
            None
        },
        Some(p) => {
            proof {
                lemma_find_char_unique(t@, '=', p as int);
            }
            let (x, y) = trim_range(t, 0, p);
            let k = sub_chars(t, x, y);
            proof {
                assert(t@.subrange(0, p as int) =~= t@.take(p as int));
            }
            if eq_ignore_ascii_case(k.as_slice(), key) {
                Some(p)
            } else {
                None
            }
        },
    }
}

/// The cleaned form of `t[a..b]`.
fn clean_range(t: &[char], a: usize, b: usize) -> (r: Vec<char>)
    requires
        a <= b <= t@.len(),
    ensures
        r@ == clean_value(t@.subrange(a as int, b as int)),
{
    let (x, y) = trim_range(t, a, b);
    let (x2, y2) = trim_matches_range(t, x, y, '"');
    let (x3, y3) = trim_matches_range(t, x2, y2, '\'');
    sub_chars(t, x3, y3)
}

/// The value of `target_key` in section `target_section` of the settings
/// text `contents`: the first `key=value` line for it inside such a
/// section (names compared without ASCII case) decides; its value is
/// trimmed and stripped of surrounding quotes, and an empty value reads as
/// none. Blank lines and `;`/`#` comments are skipped.
pub fn parse_ini_value(contents: &str, target_section: &str, target_key: &str) -> (r: Option<
    String,
>)
    ensures
        match r {
            Some(v) => ini_value(contents@, target_section@, target_key@) == Some(v@),
            None => ini_value(contents@, target_section@, target_key@).is_none(),
        },
{
    let text = chars_of(contents);
    let section = chars_of(target_section);
    let key = chars_of(target_key);
    let ls = lines_of(text.as_slice());
    let ghost lsv = lines(contents@);
    let mut current: Vec<char> = Vec::new();
    let mut i: usize = 0;
    proof {
        assert(ls@.len() == lsv.len());
        assert(lsv.skip(0) =~= lsv);
    }
    while i < ls.len()
        invariant
            i <= ls@.len(),
            ls@.len() == lsv.len(),
            forall|k: int| 0 <= k < ls@.len() ==> #[trigger] ls@[k]@ == lsv[k],
            section@ == target_section@,
            key@ == target_key@,
            ini_value(contents@, target_section@, target_key@) == ini_scan(
                lsv.skip(i as int),
                current@,
                section@,
                key@,
            ),
        decreases ls@.len() - i,
    {
        let raw = &ls[i];
        let ghost rest = lsv.skip(i as int);
        proof {
            assert(rest[0] == raw@);
            assert(rest.drop_first() =~= lsv.skip(i + 1));
        }
        let (a, b) = trim_range(raw.as_slice(), 0, raw.len());
        proof {
            assert(raw@.subrange(0, raw@.len() as int) =~= raw@);
        }
        let t = sub_chars(raw.as_slice(), a, b);
        if t.len() == 0 || t[0] == ';' || t[0] == '#' {
            i = i + 1;
            continue;
        }
        proof {
            assert(t@.subrange(0, t@.len() as int) =~= t@);
        }
        match header_bounds(t.as_slice(), 0, t.len()) {
            Some((x, y)) => {
                current = sub_chars(t.as_slice(), x, y);
                i = i + 1;
                continue;
            },
            None => {},
        }
        if !eq_ignore_ascii_case(current.as_slice(), section.as_slice()) {
            i = i + 1;
            continue;
        }
        match entry_eq(t.as_slice(), key.as_slice()) {
            None => {
                i = i + 1;
                continue;
            },
            Some(p) => {
                let v = clean_range(t.as_slice(), p + 1, t.len());
                proof {
                    assert(t@.subrange(p + 1, t@.len() as int) =~= t@.skip(p + 1));
                }
                if v.len() == 0 {
                    return None;
                }
                return Some(string_of(v.as_slice()));
            },
        }
    }
    None
}

// ---------------------------------------------------------------------
// Writing the `[ui]` section
// ---------------------------------------------------------------------

/// The text of a list of lines, each followed by `"\r\n"`.
pub open spec fn join_crlf(ls: Seq<Seq<char>>) -> Seq<char>
    decreases ls.len(),
{
    if ls.len() == 0 {
        Seq::empty()
    } else {
        join_crlf(ls.drop_last()) + ls.last() + seq!['\r', '\n']
    }
}

/// The header comment of the settings file.
pub open spec fn settings_comment() -> Seq<char> {
    "; FastZIP user preferences"@
}

/// The lines of a settings file holding the given language and theme.
pub open spec fn settings_lines(language: Option<Seq<char>>, theme: Option<Seq<char>>) -> Seq<
    Seq<char>,
> {
    let base = seq![settings_comment(), "[ui]"@];
    let with_lang = match language {
        Some(l) => base.push("language="@ + l),
        None => base,
    };
    match theme {
        Some(t) => with_lang.push("theme="@ + t),
        None => with_lang,
    }
}

fn push_line(out: &mut Vec<char>, line: &[char])
    ensures
        final(out)@ == old(out)@ + line@ + seq!['\r', '\n'],
{
    extend_chars(out, line);
    out.push('\r');
    out.push('\n');
    proof {
        assert(final(out)@ =~= old(out)@ + line@ + seq!['\r', '\n']);
    }
}

/// The settings file text holding `language` and `theme`: a comment line,
/// `[ui]`, then `language=…` and `theme=…` for the values given, each line
/// ended by `"\r\n"`.
pub fn settings_file_contents(language: Option<&str>, theme: Option<&str>) -> (r: String)
    ensures
        r@ == join_crlf(
            settings_lines(
                match language {
                    Some(l) => Some(l@),
                    None => None,
                },
                match theme {
                    Some(t) => Some(t@),
                    None => None,
                },
            ),
        ),
{
    let ghost lang_v: Option<Seq<char>> = match language {
        Some(l) => Some(l@),
        None => None,
    };
    let ghost theme_v: Option<Seq<char>> = match theme {
        Some(t) => Some(t@),
        None => None,
    };
    let mut out: Vec<char> = Vec::new();
    let comment = chars_of("; FastZIP user preferences");
    push_line(&mut out, comment.as_slice());
    let header = chars_of("[ui]");
    push_line(&mut out, header.as_slice());
    let ghost mut ls: Seq<Seq<char>> = seq![comment@, header@];
    proof {
        assert(ls.drop_last() =~= seq![comment@]);
        assert(seq![comment@].drop_last() =~= Seq::<Seq<char>>::empty());
        assert(join_crlf(Seq::<Seq<char>>::empty()) == Seq::<char>::empty());
        assert(join_crlf(seq![comment@]) =~= comment@ + seq!['\r', '\n']);
        assert(out@ =~= join_crlf(ls));
    }
    match language {
        Some(l) => {
            let mut line = chars_of("language=");
            extend_str(&mut line, l);
            push_line(&mut out, line.as_slice());
            proof {
                let old_ls = ls;
                ls = ls.push(line@);
                assert(ls.drop_last() =~= old_ls);
                assert(out@ =~= join_crlf(ls));
            }
        },
        None => {},
    }
    match theme {
        Some(t) => {
            let mut line = chars_of("theme=");
            extend_str(&mut line, t);
            push_line(&mut out, line.as_slice());
            proof {
                let old_ls = ls;
                ls = ls.push(line@);
                assert(ls.drop_last() =~= old_ls);
                assert(out@ =~= join_crlf(ls));
            }
        },
        None => {},
    }
    proof {
        assert(ls =~= settings_lines(lang_v, theme_v));
    }
    string_of(out.as_slice())
}

// ---------------------------------------------------------------------
// Lines of a joined text
// ---------------------------------------------------------------------

/// No line break inside.
pub open spec fn single_line(l: Seq<char>) -> bool {
    forall|i: int| 0 <= i < l.len() ==> l[i] != '\n'
}

proof fn lemma_segments_append_line(x: Seq<char>, y: Seq<char>)
    requires
        segments(x).last().len() == 0,
        single_line(y),
    ensures
        segments(x + y) == segments(x).drop_last().push(y),
    decreases y.len(),
{
    crate::text::lemma_segments_nonempty(x);
    let sx = segments(x);
    if y.len() == 0 {
        assert(x + y =~= x);
        assert(y =~= Seq::<char>::empty());
        assert(sx.last() =~= Seq::<char>::empty());
        assert(sx.drop_last().push(y) =~= sx);
    } else {
        let z = y.drop_last();
        assert(single_line(z)) by {
            assert forall|i: int| 0 <= i < z.len() implies z[i] != '\n' by {
                assert(z[i] == y[i]);
            }
        }
        assert((x + y).drop_last() =~= x + z);
        assert((x + y).last() == y.last());
        assert(y.last() != '\n') by {
            assert(y[y.len() - 1] == y.last());
        }
        lemma_segments_append_line(x, z);
        let r = segments(x + z);
        assert(r == sx.drop_last().push(z));
        assert(z.push(y.last()) =~= y);
        assert(segments(x + y) == r.update(r.len() - 1, r.last().push(y.last())));
        assert(segments(x + y) =~= sx.drop_last().push(y));
    }
}

/// The lines of a text joined with `"\r\n"` are the joined lines.
pub proof fn lemma_lines_join_crlf(ls: Seq<Seq<char>>)
    requires
        forall|k: int| 0 <= k < ls.len() ==> single_line(#[trigger] ls[k]),
    ensures
        lines(join_crlf(ls)) == ls,
{
    lemma_segments_join_crlf(ls);
    let segs = segments(join_crlf(ls));
    let m = ls.map_values(|l: Seq<char>| l.push('\r'));
    assert(segs.drop_last() =~= m);
    assert forall|k: int| 0 <= k < ls.len() implies strip_cr(#[trigger] m[k]) == ls[k] by {
        assert(m[k].drop_last() =~= ls[k]);
    }
    assert(lines(join_crlf(ls)) =~= ls);
}

proof fn lemma_segments_join_crlf(ls: Seq<Seq<char>>)
    requires
        forall|k: int| 0 <= k < ls.len() ==> single_line(#[trigger] ls[k]),
    ensures
        segments(join_crlf(ls)) == ls.map_values(|l: Seq<char>| l.push('\r')).push(
            Seq::<char>::empty(),
        ),
    decreases ls.len(),
{
    if ls.len() == 0 {
        assert(segments(Seq::<char>::empty()) =~= seq![Seq::<char>::empty()]);
        assert(ls.map_values(|l: Seq<char>| l.push('\r')).push(Seq::<char>::empty()) =~= seq![
            Seq::<char>::empty(),
        ]);
    } else {
        let init = ls.drop_last();
        let l = ls.last();
        assert(forall|k: int| 0 <= k < init.len() ==> init[k] == ls[k]);
        lemma_segments_join_crlf(init);
        let x = join_crlf(init);
        let y = l.push('\r');
        assert(single_line(l) ==> single_line(y)) by {
            assert(ls[ls.len() - 1] == l);
        }
        assert(single_line(y)) by {
            assert(ls[ls.len() - 1] == l);
            assert forall|i: int| 0 <= i < y.len() implies y[i] != '\n' by {
                if i < l.len() {
                    assert(y[i] == l[i]);
                }
            }
        }
        lemma_segments_append_line(x, y);
        let full = join_crlf(ls);
        assert(full =~= (x + y).push('\n'));
        assert(full.drop_last() =~= x + y);
        assert(segments(full) =~= ls.map_values(|l: Seq<char>| l.push('\r')).push(
            Seq::<char>::empty(),
        ));
    }
}

// ---------------------------------------------------------------------
// Values that read back as written
// ---------------------------------------------------------------------

/// A value that the reader keeps exactly as written: not empty, no line
/// break, no surrounding whitespace or quotes.
pub open spec fn is_plain_value(v: Seq<char>) -> bool {
    &&& v.len() > 0
    &&& single_line(v)
    &&& !is_white(v[0])
    &&& !is_white(v.last())
    &&& v[0] != '"'
    &&& v[0] != '\''
    &&& v.last() != '"'
    &&& v.last() != '\''
}

proof fn lemma_plain_trim(v: Seq<char>)
    requires
        v.len() > 0,
        !is_white(v[0]),
        !is_white(v.last()),
    ensures
        trim(v) == v,
{
}

proof fn lemma_plain_clean(v: Seq<char>)
    requires
        is_plain_value(v),
    ensures
        clean_value(v) == v,
{
    lemma_plain_trim(v);
}

/// `prefix + v` read as a trimmed line whose key is `prefix` without its
/// final `=`.
proof fn lemma_entry_line(prefix: Seq<char>, v: Seq<char>)
    requires
        prefix.len() >= 2,
        prefix.last() == '=',
        forall|i: int| 0 <= i < prefix.len() - 1 ==> prefix[i] != '=' && prefix[i] != '\n',
        !is_white(prefix[0]),
        !is_white(prefix[prefix.len() - 2]),
        prefix[0] != '[' && prefix[0] != ';' && prefix[0] != '#',
        is_plain_value(v),
    ensures
        trim(prefix + v) == prefix + v,
        !is_skippable(prefix + v),
        section_header(prefix + v) is None,
        find_char(prefix + v, '=') == prefix.len() - 1,
        line_key(prefix + v) == prefix.drop_last(),
        clean_value((prefix + v).skip(prefix.len() as int)) == v,
        single_line(prefix + v),
{
    let t = prefix + v;
    assert(t[0] == prefix[0]);
    assert(t.last() == v.last());
    lemma_plain_trim(t);
    lemma_find_char_unique(t, '=', prefix.len() - 1);
    assert(t.take(prefix.len() - 1) =~= prefix.drop_last());
    lemma_plain_trim(prefix.drop_last());
    assert(t.skip(prefix.len() as int) =~= v);
    lemma_plain_clean(v);
    assert forall|i: int| 0 <= i < t.len() implies t[i] != '\n' by {
        if i >= prefix.len() {
            assert(t[i] == v[i - prefix.len()]);
        }
    }
}

/// The language and the theme written to the settings file read back as
/// written (and a missing one reads back as missing), for values the
/// reader keeps as written.
pub proof fn law_ui_settings_read_back(language: Option<Seq<char>>, theme: Option<Seq<char>>)
    requires
        language is Some ==> is_plain_value(language->0),
        theme is Some ==> is_plain_value(theme->0),
    ensures
        ini_value(join_crlf(settings_lines(language, theme)), "ui"@, "language"@) == language,
        ini_value(join_crlf(settings_lines(language, theme)), "ui"@, "theme"@) == theme,
{
    reveal_strlit("; FastZIP user preferences");
    reveal_strlit("[ui]");
    reveal_strlit("ui");
    reveal_strlit("language=");
    reveal_strlit("theme=");
    reveal_strlit("language");
    reveal_strlit("theme");
    let ls = settings_lines(language, theme);
    let c = settings_comment();
    let h = "[ui]"@;
    lemma_plain_trim(c);
    lemma_plain_trim(h);
    assert(h.subrange(1, 3) =~= "ui"@);
    lemma_plain_trim("ui"@);
    assert(lower("ui"@) =~= lower("ui"@));
    if let Some(l) = language {
        lemma_entry_line("language="@, l);
        assert(("language="@).drop_last() =~= "language"@);
    }
    if let Some(t) = theme {
        lemma_entry_line("theme="@, t);
        assert(("theme="@).drop_last() =~= "theme"@);
    }
    assert(lower("language"@) != lower("theme"@)) by {
        assert(lower("language"@).len() != lower("theme"@).len());
    }
    assert(forall|k: int| 0 <= k < ls.len() ==> single_line(#[trigger] ls[k])) by {
        assert forall|k: int| 0 <= k < ls.len() implies single_line(#[trigger] ls[k]) by {
            if k == 0 {
                assert(ls[k] == c);
            } else if k == 1 {
                assert(ls[k] == h);
            }
        }
    }
    lemma_lines_join_crlf(ls);
    let e = Seq::<char>::empty();
    let ui = "ui"@;
    let r0 = ls.drop_first();
    let r1 = r0.drop_first();
    assert(ls[0] == c);
    assert(r0[0] == h);
    assert(is_skippable(trim(c)));
    assert(section_header(trim(h)) == Some(ui));
    assert(eq_ignore_case(ui, ui));
    assert(ini_scan(ls, e, ui, "language"@) == ini_scan(r0, e, ui, "language"@));
    assert(ini_scan(r0, e, ui, "language"@) == ini_scan(r1, ui, ui, "language"@));
    assert(ini_scan(ls, e, ui, "theme"@) == ini_scan(r0, e, ui, "theme"@));
    assert(ini_scan(r0, e, ui, "theme"@) == ini_scan(r1, ui, ui, "theme"@));
    let lk = "language"@;
    let tk = "theme"@;
    match language {
        Some(l) => {
            let r2 = r1.drop_first();
            let ll = "language="@ + l;
            assert(r1[0] == ll);
            assert(line_key(ll) == lk);
            assert(is_entry_for(ll, lk));
            assert(!is_entry_for(ll, tk));
            assert(ini_scan(r1, ui, ui, lk) == Some(l));
            assert(ini_scan(r1, ui, ui, tk) == ini_scan(r2, ui, ui, tk));
            match theme {
                Some(t) => {
                    let tl = "theme="@ + t;
                    assert(r2[0] == tl);
                    assert(line_key(tl) == tk);
                    assert(is_entry_for(tl, tk));
                    assert(ini_scan(r2, ui, ui, tk) == Some(t));
                },
                None => {
                    assert(r2.len() == 0);
                },
            }
        },
        None => {
            assert(ini_scan(r1, ui, ui, lk) == ini_scan(r1, ui, ui, lk));
            match theme {
                Some(t) => {
                    let tl = "theme="@ + t;
                    assert(r1[0] == tl);
                    assert(line_key(tl) == tk);
                    assert(is_entry_for(tl, tk));
                    assert(!is_entry_for(tl, lk));
                    assert(ini_scan(r1, ui, ui, tk) == Some(t));
                    assert(r1.drop_first().len() == 0);
                    assert(ini_scan(r1, ui, ui, lk) == ini_scan(r1.drop_first(), ui, ui, lk));
                },
                None => {
                    assert(r1.len() == 0);
                },
            }
        },
    }
}

// ---------------------------------------------------------------------
// The `[presets]` section
// ---------------------------------------------------------------------

pub open spec fn presets_name() -> Seq<char> {
    "presets"@
}

/// The trimmed line `t` opens a `[presets]` section (any ASCII case).
pub open spec fn opens_presets(t: Seq<char>) -> bool {
    section_header(t) is Some && eq_ignore_case(section_header(t)->0, presets_name())
}

/// The `name=value` line that stores a preset.
pub open spec fn preset_entry(name: Seq<char>, value: Seq<char>) -> Seq<char> {
    name + seq!['='] + value
}

/// Rewrites the lines `ls` of an existing file for saving `entry` under
/// `name`: inside `[presets]` sections the first line for `name` becomes
/// `entry`. Returns the new lines, whether a `[presets]` section was seen
/// and whether a line was replaced. `in_p`: inside a presets section.
pub open spec fn upsert_scan(
    ls: Seq<Seq<char>>,
    in_p: bool,
    found: bool,
    replaced: bool,
    name: Seq<char>,
    entry: Seq<char>,
) -> (Seq<Seq<char>>, bool, bool)
    decreases ls.len(),
{
    if ls.len() == 0 {
        (Seq::empty(), found, replaced)
    } else {
        let l = ls[0];
        let t = trim(l);
        let rest = ls.drop_first();
        if is_skippable(t) {
            let r = upsert_scan(rest, in_p, found, replaced, name, entry);
            (seq![l] + r.0, r.1, r.2)
        } else if section_header(t) is Some {
            let p = opens_presets(t);
            let r = upsert_scan(rest, p, found || p, replaced, name, entry);
            (seq![l] + r.0, r.1, r.2)
        } else if in_p && !replaced && is_entry_for(t, name) {
            let r = upsert_scan(rest, in_p, found, true, name, entry);
            (seq![entry] + r.0, r.1, r.2)
        } else {
            let r = upsert_scan(rest, in_p, found, replaced, name, entry);
            (seq![l] + r.0, r.1, r.2)
        }
    }
}

/// The lines of the settings file after saving preset `name` with `value`
/// over the lines `ls` of the existing file: the first entry for `name`
/// in a `[presets]` section is replaced; without one the entry is added
/// at the end of the file, after a new `[presets]` header when the file
/// has no such section.
pub open spec fn upsert_lines(ls: Seq<Seq<char>>, name: Seq<char>, value: Seq<char>) -> Seq<
    Seq<char>,
> {
    let entry = preset_entry(name, value);
    let r = upsert_scan(ls, false, false, false, name, entry);
    if !r.1 {
        r.0 + seq!["[presets]"@, entry]
    } else if !r.2 {
        r.0.push(entry)
    } else {
        r.0
    }
}

/// The lines of an optional existing file.
pub open spec fn existing_lines(existing: Option<Seq<char>>) -> Seq<Seq<char>> {
    match existing {
        Some(c) => lines(c),
        None => Seq::empty(),
    }
}

fn opens_presets_exec(t: &[char]) -> (r: bool)
    ensures
        r == opens_presets(t@),
{
    proof {
        assert(t@.subrange(0, t@.len() as int) =~= t@);
    }
    match header_bounds(t, 0, t.len()) {
        Some((x, y)) => {
            let n = sub_chars(t, x, y);
            eq_ignore_ascii_case_str(n.as_slice(), "presets")
        },
        None => false,
    }
}

/// The text of the settings file after saving preset `name` with `value`,
/// given the text of the existing file (if any). Lines are ended by
/// `"\r\n"`.
pub fn save_preset(existing: Option<&str>, name: &str, value: &str) -> (r: String)
    ensures
        r@ == join_crlf(
            upsert_lines(
                existing_lines(
                    match existing {
                        Some(c) => Some(c@),
                        None => None,
                    },
                ),
                name@,
                value@,
            ),
        ),
{
    let ghost ex: Option<Seq<char>> = match existing {
        Some(c) => Some(c@),
        None => None,
    };
    let ghost ls = existing_lines(ex);
    let name_c = chars_of(name);
    let mut entry = name_c.clone();
    entry.push('=');
    extend_str(&mut entry, value);
    proof {
        assert(entry@ =~= preset_entry(name@, value@));
    }
    let raw_lines: Vec<Vec<char>> = match existing {
        Some(c) => {
            let cs = chars_of(c);
            lines_of(cs.as_slice())
        },
        None => Vec::new(),
    };
    let mut out: Vec<char> = Vec::new();
    let mut in_presets = false;
    let mut found = false;
    let mut replaced = false;
    let ghost mut done: Seq<Seq<char>> = Seq::empty();
    let mut i: usize = 0;
    proof {
        assert(ls.skip(0) =~= ls);
    }
    while i < raw_lines.len()
        invariant
            i <= raw_lines@.len(),
            raw_lines@.len() == ls.len(),
            forall|k: int| 0 <= k < raw_lines@.len() ==> #[trigger] raw_lines@[k]@ == ls[k],
            entry@ == preset_entry(name@, value@),
            name_c@ == name@,
            out@ == join_crlf(done),
            in_presets ==> found,
            ({
                let r = upsert_scan(ls.skip(i as int), in_presets, found, replaced, name@, entry@);
                let all = upsert_scan(ls, false, false, false, name@, entry@);
                all.0 == done + r.0 && all.1 == r.1 && all.2 == r.2
            }),
        decreases raw_lines@.len() - i,
    {
        let raw = &raw_lines[i];
        let ghost rest = ls.skip(i as int);
        proof {
            assert(rest[0] == raw@);
            assert(rest.drop_first() =~= ls.skip(i + 1));
        }
        let t = trimmed(raw.as_slice());
        let ghost p0 = in_presets;
        let ghost f0 = found;
        let ghost r0 = replaced;
        let ghost line_out: Seq<char>;
        if t.len() == 0 || t[0] == ';' || t[0] == '#' {
            push_line(&mut out, raw.as_slice());
            proof {
                line_out = raw@;
            }
        } else {
            proof {
                assert(t@.subrange(0, t@.len() as int) =~= t@);
            }
            match header_bounds(t.as_slice(), 0, t.len()) {
                Some(_) => {
                    in_presets = opens_presets_exec(t.as_slice());
                    found = found || in_presets;
                    push_line(&mut out, raw.as_slice());
                    proof {
                        line_out = raw@;
                    }
                },
                None => {
                    let mut matched = false;
                    if in_presets && !replaced {
                        match entry_eq(t.as_slice(), name_c.as_slice()) {
                            Some(_) => {
                                matched = true;
                            },
                            None => {},
                        }
                    }
                    if matched {
                        push_line(&mut out, entry.as_slice());
                        replaced = true;
                        proof {
                            line_out = entry@;
                        }
                    } else {
                        push_line(&mut out, raw.as_slice());
                        proof {
                            line_out = raw@;
                        }
                    }
                },
            }
        }
        proof {
            let old_done = done;
            done = done.push(line_out);
            assert(done.drop_last() =~= old_done);
            let nr = upsert_scan(ls.skip(i + 1), in_presets, found, replaced, name@, entry@);
            let orr = upsert_scan(rest, p0, f0, r0, name@, entry@);
            assert(orr.0 == seq![line_out] + nr.0 && orr.1 == nr.1 && orr.2 == nr.2);
            assert(done + nr.0 =~= old_done + orr.0);
        }
        i = i + 1;
    }
    proof {
        assert(ls.skip(raw_lines@.len() as int) =~= Seq::<Seq<char>>::empty());
        assert(done =~= upsert_scan(ls, false, false, false, name@, entry@).0);
    }
    let ghost mut final_lines = done;
    if !found {
        let header = chars_of("[presets]");
        push_line(&mut out, header.as_slice());
        push_line(&mut out, entry.as_slice());
        proof {
            let d1 = done.push(header@);
            let d2 = d1.push(entry@);
            assert(d1.drop_last() =~= done);
            assert(d2.drop_last() =~= d1);
            final_lines = d2;
            assert(join_crlf(d1) == join_crlf(done) + header@ + seq!['\r', '\n']);
            assert(out@ =~= join_crlf(d2));
            assert(d2 =~= done + seq!["[presets]"@, entry@]);
        }
    } else if !replaced {
        push_line(&mut out, entry.as_slice());
        proof {
            let d1 = done.push(entry@);
            assert(d1.drop_last() =~= done);
            final_lines = d1;
            assert(out@ =~= join_crlf(d1));
        }
    }
    proof {
        assert(final_lines =~= upsert_lines(ls, name@, value@));
    }
    string_of(out.as_slice())
}

/// The lines kept when deleting preset `name`: inside `[presets]`
/// sections, `key=value` lines for `name` (that do not start with `[`)
/// are dropped; every other line stays as it was.
pub open spec fn remove_scan(ls: Seq<Seq<char>>, in_p: bool, name: Seq<char>) -> Seq<Seq<char>>
    decreases ls.len(),
{
    if ls.len() == 0 {
        Seq::empty()
    } else {
        let l = ls[0];
        let t = trim(l);
        let rest = ls.drop_first();
        if in_p && !is_skippable(t) && t[0] != '[' && is_entry_for(t, name) {
            remove_scan(rest, in_p, name)
        } else {
            let p = if section_header(t) is Some {
                opens_presets(t)
            } else {
                in_p
            };
            seq![l] + remove_scan(rest, p, name)
        }
    }
}

/// The text of the settings file after deleting preset `name` from the
/// file text `contents`: its entries inside `[presets]` sections are
/// dropped, every other line is kept (ended by `"\r\n"`).
pub fn delete_preset(contents: &str, name: &str) -> (r: String)
    ensures
        r@ == join_crlf(remove_scan(lines(contents@), false, name@)),
{
    let ghost ls = lines(contents@);
    let name_c = chars_of(name);
    let cs = chars_of(contents);
    let raw_lines = lines_of(cs.as_slice());
    let mut out: Vec<char> = Vec::new();
    let mut in_presets = false;
    let ghost mut done: Seq<Seq<char>> = Seq::empty();
    let mut i: usize = 0;
    proof {
        assert(ls.skip(0) =~= ls);
    }
    while i < raw_lines.len()
        invariant
            i <= raw_lines@.len(),
            raw_lines@.len() == ls.len(),
            forall|k: int| 0 <= k < raw_lines@.len() ==> #[trigger] raw_lines@[k]@ == ls[k],
            name_c@ == name@,
            out@ == join_crlf(done),
            remove_scan(ls, false, name@) == done + remove_scan(ls.skip(i as int), in_presets, name@),
        decreases raw_lines@.len() - i,
    {
        let raw = &raw_lines[i];
        let ghost rest = ls.skip(i as int);
        let ghost p0 = in_presets;
        proof {
            assert(rest[0] == raw@);
            assert(rest.drop_first() =~= ls.skip(i + 1));
        }
        let t = trimmed(raw.as_slice());
        let mut drop = false;
        if in_presets && t.len() > 0 && t[0] != ';' && t[0] != '#' && t[0] != '[' {
            match entry_eq(t.as_slice(), name_c.as_slice()) {
                Some(_) => {
                    drop = true;
                },
                None => {},
            }
        }
        if !drop {
            proof {
                assert(t@.subrange(0, t@.len() as int) =~= t@);
            }
            match header_bounds(t.as_slice(), 0, t.len()) {
                Some(_) => {
                    in_presets = opens_presets_exec(t.as_slice());
                },
                None => {},
            }
            push_line(&mut out, raw.as_slice());
            proof {
                let old_done = done;
                done = done.push(raw@);
                assert(done.drop_last() =~= old_done);
                assert(remove_scan(rest, p0, name@) == seq![raw@] + remove_scan(
                    ls.skip(i + 1),
                    in_presets,
                    name@,
                ));
                assert(done + remove_scan(ls.skip(i + 1), in_presets, name@) =~= old_done
                    + remove_scan(rest, p0, name@));
            }
        }
        i = i + 1;
    }
    proof {
        assert(ls.skip(raw_lines@.len() as int) =~= Seq::<Seq<char>>::empty());
        assert(done =~= remove_scan(ls, false, name@));
    }
    string_of(out.as_slice())
}

// ---------------------------------------------------------------------
// Laws of the `[presets]` section
// ---------------------------------------------------------------------

/// A preset name that is written and read back as it is: not empty, one
/// line, no `=`, no surrounding whitespace, and not starting like a
/// section header or a comment.
pub open spec fn is_plain_key(k: Seq<char>) -> bool {
    &&& k.len() > 0
    &&& single_line(k)
    &&& forall|i: int| 0 <= i < k.len() ==> k[i] != '='
    &&& !is_white(k[0])
    &&& !is_white(k.last())
    &&& k[0] != '['
    &&& k[0] != ';'
    &&& k[0] != '#'
}

/// Some line of `ls` opens a `[presets]` section.
pub open spec fn has_presets_header(ls: Seq<Seq<char>>) -> bool {
    exists|k: int| 0 <= k < ls.len() && opens_presets(trim(#[trigger] ls[k]))
}

/// Some `[presets]` section of `ls` holds an entry for `name`.
pub open spec fn entry_in(ls: Seq<Seq<char>>, in_p: bool, name: Seq<char>) -> bool
    decreases ls.len(),
{
    if ls.len() == 0 {
        false
    } else {
        let t = trim(ls[0]);
        let rest = ls.drop_first();
        if is_skippable(t) {
            entry_in(rest, in_p, name)
        } else if section_header(t) is Some {
            entry_in(rest, opens_presets(t), name)
        } else if in_p && is_entry_for(t, name) {
            true
        } else {
            entry_in(rest, in_p, name)
        }
    }
}

/// The section in force after the lines `ls`, starting in `cur`.
pub open spec fn section_after(ls: Seq<Seq<char>>, cur: Seq<char>) -> Seq<char>
    decreases ls.len(),
{
    if ls.len() == 0 {
        cur
    } else {
        let t = trim(ls[0]);
        if !is_skippable(t) && section_header(t) is Some {
            section_after(ls.drop_first(), section_header(t)->0)
        } else {
            section_after(ls.drop_first(), cur)
        }
    }
}

proof fn lemma_segments_single(s: Seq<char>)
    ensures
        forall|k: int| 0 <= k < segments(s).len() ==> single_line(#[trigger] segments(s)[k]),
    decreases s.len(),
{
    if s.len() > 0 {
        lemma_segments_single(s.drop_last());
        crate::text::lemma_segments_nonempty(s.drop_last());
        let r = segments(s.drop_last());
        if s.last() != '\n' {
            let nl = r.last().push(s.last());
            assert(single_line(r[r.len() - 1]));
            assert(single_line(nl)) by {
                assert forall|i: int| 0 <= i < nl.len() implies nl[i] != '\n' by {
                    if i < nl.len() - 1 {
                        assert(nl[i] == r[r.len() - 1][i]);
                    }
                }
            }
        }
    }
}

/// No line of a text holds a line break.
pub proof fn lemma_lines_single(s: Seq<char>)
    ensures
        forall|k: int| 0 <= k < lines(s).len() ==> single_line(#[trigger] lines(s)[k]),
{
    lemma_segments_single(s);
    crate::text::lemma_segments_nonempty(s);
    let segs = segments(s);
    assert forall|k: int| 0 <= k < lines(s).len() implies single_line(#[trigger] lines(s)[k]) by {
        if k < segs.len() - 1 {
            assert(single_line(segs[k]));
            let l = segs[k];
            assert(single_line(strip_cr(l))) by {
                assert forall|i: int| 0 <= i < strip_cr(l).len() implies strip_cr(l)[i] != '\n' by {
                    assert(strip_cr(l)[i] == l[i]);
                }
            }
        } else {
            assert(single_line(segs[segs.len() - 1]));
        }
    }
}

/// A line starting with `[` is never an entry for a key that is not empty
/// and does not start with `[`.
proof fn lemma_bracket_not_entry(t: Seq<char>, name: Seq<char>)
    requires
        deletable_key(name),
        t.len() > 0,
        t[0] == '[',
    ensures
        !is_entry_for(t, name),
{
    lemma_find_char(t, '=');
    let p = find_char(t, '=');
    if p >= 0 {
        let k = line_key(t);
        if p == 0 {
            assert(t.take(0) =~= Seq::<char>::empty());
            assert(lower(k).len() != lower(name).len());
        } else {
            let x = t.take(p);
            assert(x[0] == '[');
            assert(trim_start(x) == x);
            lemma_trim_end_keeps_first(x);
            assert(k[0] == '[');
            if lower(k) == lower(name) {
                assert(lower(k)[0] == lower(name)[0]);
            }
        }
    }
}

proof fn lemma_presets_not_empty_name()
    ensures
        !eq_ignore_case(Seq::<char>::empty(), presets_name()),
{
    reveal_strlit("presets");
    assert(lower(Seq::<char>::empty()).len() != lower(presets_name()).len());
}

proof fn lemma_remove_scan_single(ls: Seq<Seq<char>>, in_p: bool, name: Seq<char>)
    requires
        forall|k: int| 0 <= k < ls.len() ==> single_line(#[trigger] ls[k]),
    ensures
        forall|k: int|
            0 <= k < remove_scan(ls, in_p, name).len() ==> single_line(
                #[trigger] remove_scan(ls, in_p, name)[k],
            ),
    decreases ls.len(),
{
    if ls.len() > 0 {
        let t = trim(ls[0]);
        let rest = ls.drop_first();
        assert(forall|k: int| 0 <= k < rest.len() ==> rest[k] == ls[k + 1]);
        let p = if section_header(t) is Some {
            opens_presets(t)
        } else {
            in_p
        };
        lemma_remove_scan_single(rest, in_p, name);
        lemma_remove_scan_single(rest, p, name);
        assert(single_line(ls[0]));
        let r = remove_scan(ls, in_p, name);
        if in_p && !is_skippable(t) && t[0] != '[' && is_entry_for(t, name) {
            let r2 = remove_scan(rest, in_p, name);
            assert(r == r2);
            assert forall|k: int| 0 <= k < r.len() implies single_line(#[trigger] r[k]) by {
                assert(single_line(r2[k]));
            }
        } else {
            let r2 = remove_scan(rest, p, name);
            assert(r == seq![ls[0]] + r2);
            assert forall|k: int| 0 <= k < r.len() implies single_line(#[trigger] r[k]) by {
                if k > 0 {
                    assert(r[k] == r2[k - 1]);
                    assert(single_line(r2[k - 1]));
                }
            }
        }
    }
}

proof fn lemma_remove_none(ls: Seq<Seq<char>>, in_p: bool, cur: Seq<char>, name: Seq<char>)
    requires
        deletable_key(name),
        in_p == eq_ignore_case(cur, presets_name()),
    ensures
        ini_scan(remove_scan(ls, in_p, name), cur, presets_name(), name) is None,
    decreases ls.len(),
{
    if ls.len() > 0 {
        let l = ls[0];
        let t = trim(l);
        let rest = ls.drop_first();
        if in_p && !is_skippable(t) && t[0] != '[' && is_entry_for(t, name) {
            lemma_remove_none(rest, in_p, cur, name);
        } else {
            let r = remove_scan(ls, in_p, name);
            assert(r[0] == l);
            if is_skippable(t) {
                assert(r.drop_first() =~= remove_scan(rest, in_p, name));
                lemma_remove_none(rest, in_p, cur, name);
            } else if section_header(t) is Some {
                assert(r.drop_first() =~= remove_scan(rest, opens_presets(t), name));
                lemma_remove_none(rest, opens_presets(t), section_header(t)->0, name);
            } else {
                assert(r.drop_first() =~= remove_scan(rest, in_p, name));
                if t[0] == '[' {
                    lemma_bracket_not_entry(t, name);
                }
                lemma_remove_none(rest, in_p, cur, name);
            }
        }
    }
}

/// A preset name whose entries deleting removes wherever reading finds
/// them: not empty and not starting with `[`. Deleting passes over lines
/// that start with `[`, while reading takes such a line (`[a=1`, or `[=1`
/// for the empty name) as an entry when it is no section header, so for
/// those names the entry survives.
pub open spec fn deletable_key(k: Seq<char>) -> bool {
    k.len() > 0 && k[0] != '['
}

/// After deleting a preset, reading it gives nothing.
pub proof fn law_deleted_preset_reads_none(contents: Seq<char>, name: Seq<char>)
    requires
        deletable_key(name),
    ensures
        ini_value(join_crlf(remove_scan(lines(contents), false, name)), presets_name(), name)
            is None,
{
    let ls = lines(contents);
    lemma_lines_single(contents);
    lemma_remove_scan_single(ls, false, name);
    lemma_lines_join_crlf(remove_scan(ls, false, name));
    lemma_presets_not_empty_name();
    lemma_remove_none(ls, false, Seq::empty(), name);
}

proof fn lemma_upsert_no_presets(
    ls: Seq<Seq<char>>,
    found: bool,
    replaced: bool,
    name: Seq<char>,
    entry: Seq<char>,
)
    requires
        !has_presets_header(ls),
    ensures
        upsert_scan(ls, false, found, replaced, name, entry) == (ls, found, replaced),
    decreases ls.len(),
{
    if ls.len() > 0 {
        let rest = ls.drop_first();
        assert(!opens_presets(trim(ls[0])));
        assert(!has_presets_header(rest)) by {
            if has_presets_header(rest) {
                let k = choose|k: int| 0 <= k < rest.len() && opens_presets(trim(#[trigger] rest[k]));
                assert(rest[k] == ls[k + 1]);
            }
        }
        lemma_upsert_no_presets(rest, found, replaced, name, entry);
        assert(seq![ls[0]] + rest =~= ls);
    }
}

proof fn lemma_scan_past_other_sections(
    ls: Seq<Seq<char>>,
    x: Seq<Seq<char>>,
    cur: Seq<char>,
    name: Seq<char>,
)
    requires
        !has_presets_header(ls),
        !eq_ignore_case(cur, presets_name()),
    ensures
        ini_scan(ls + x, cur, presets_name(), name) == ini_scan(
            x,
            section_after(ls, cur),
            presets_name(),
            name,
        ),
        !eq_ignore_case(section_after(ls, cur), presets_name()),
    decreases ls.len(),
{
    if ls.len() == 0 {
        assert(ls + x =~= x);
    } else {
        let rest = ls.drop_first();
        let t = trim(ls[0]);
        assert(!opens_presets(t));
        assert(!has_presets_header(rest)) by {
            if has_presets_header(rest) {
                let k = choose|k: int| 0 <= k < rest.len() && opens_presets(trim(#[trigger] rest[k]));
                assert(rest[k] == ls[k + 1]);
            }
        }
        assert((ls + x)[0] == ls[0]);
        assert((ls + x).drop_first() =~= rest + x);
        if !is_skippable(t) && section_header(t) is Some {
            lemma_scan_past_other_sections(rest, x, section_header(t)->0, name);
        } else {
            lemma_scan_past_other_sections(rest, x, cur, name);
        }
    }
}

proof fn lemma_upsert_flags(
    ls: Seq<Seq<char>>,
    in_p: bool,
    found: bool,
    name: Seq<char>,
    entry: Seq<char>,
)
    requires
        entry_in(ls, in_p, name),
        in_p ==> found,
    ensures
        upsert_scan(ls, in_p, found, false, name, entry).1,
        upsert_scan(ls, in_p, found, false, name, entry).2,
    decreases ls.len(),
{
    let t = trim(ls[0]);
    let rest = ls.drop_first();
    if is_skippable(t) {
        lemma_upsert_flags(rest, in_p, found, name, entry);
    } else if section_header(t) is Some {
        lemma_upsert_flags(rest, opens_presets(t), found || opens_presets(t), name, entry);
    } else if in_p && is_entry_for(t, name) {
        lemma_upsert_keeps_flags(rest, in_p, found, true, name, entry);
    } else {
        lemma_upsert_flags(rest, in_p, found, name, entry);
    }
}

proof fn lemma_upsert_keeps_flags(
    ls: Seq<Seq<char>>,
    in_p: bool,
    found: bool,
    replaced: bool,
    name: Seq<char>,
    entry: Seq<char>,
)
    ensures
        found ==> upsert_scan(ls, in_p, found, replaced, name, entry).1,
        replaced ==> upsert_scan(ls, in_p, found, replaced, name, entry).2,
    decreases ls.len(),
{
    if ls.len() > 0 {
        let t = trim(ls[0]);
        let rest = ls.drop_first();
        if is_skippable(t) {
            lemma_upsert_keeps_flags(rest, in_p, found, replaced, name, entry);
        } else if section_header(t) is Some {
            lemma_upsert_keeps_flags(
                rest,
                opens_presets(t),
                found || opens_presets(t),
                replaced,
                name,
                entry,
            );
        } else if in_p && !replaced && is_entry_for(t, name) {
            lemma_upsert_keeps_flags(rest, in_p, found, true, name, entry);
        } else {
            lemma_upsert_keeps_flags(rest, in_p, found, replaced, name, entry);
        }
    }
}

proof fn lemma_entry_facts(name: Seq<char>, value: Seq<char>)
    requires
        is_plain_key(name),
        is_plain_value(value),
    ensures
        ({
            let e = preset_entry(name, value);
            &&& trim(e) == e
            &&& !is_skippable(e)
            &&& section_header(e) is None
            &&& is_entry_for(e, name)
            &&& clean_value(e.skip(find_char(e, '=') + 1)) == value
            &&& single_line(e)
        }),
{
    let prefix = name.push('=');
    assert(preset_entry(name, value) =~= prefix + value);
    assert(prefix.drop_last() =~= name);
    assert(prefix[prefix.len() - 2] == name.last());
    lemma_entry_line(prefix, value);
}

proof fn lemma_upsert_reads_back(
    ls: Seq<Seq<char>>,
    in_p: bool,
    found: bool,
    cur: Seq<char>,
    name: Seq<char>,
    value: Seq<char>,
)
    requires
        is_plain_key(name),
        is_plain_value(value),
        in_p == eq_ignore_case(cur, presets_name()),
        entry_in(ls, in_p, name),
    ensures
        ini_scan(
            upsert_scan(ls, in_p, found, false, name, preset_entry(name, value)).0,
            cur,
            presets_name(),
            name,
        ) == Some(value),
    decreases ls.len(),
{
    let entry = preset_entry(name, value);
    lemma_entry_facts(name, value);
    let t = trim(ls[0]);
    let rest = ls.drop_first();
    let out = upsert_scan(ls, in_p, found, false, name, entry).0;
    if is_skippable(t) {
        let r = upsert_scan(rest, in_p, found, false, name, entry);
        assert(out == seq![ls[0]] + r.0);
        assert(out[0] == ls[0]);
        assert(out.drop_first() =~= r.0);
        lemma_upsert_reads_back(rest, in_p, found, cur, name, value);
    } else if section_header(t) is Some {
        let p = opens_presets(t);
        let r = upsert_scan(rest, p, found || p, false, name, entry);
        assert(out == seq![ls[0]] + r.0);
        assert(out[0] == ls[0]);
        assert(out.drop_first() =~= r.0);
        lemma_upsert_reads_back(rest, p, found || p, section_header(t)->0, name, value);
    } else if in_p && is_entry_for(t, name) {
        let r = upsert_scan(rest, in_p, found, true, name, entry);
        assert(out == seq![entry] + r.0);
        assert(out[0] == entry);
    } else {
        let r = upsert_scan(rest, in_p, found, false, name, entry);
        assert(out == seq![ls[0]] + r.0);
        assert(out[0] == ls[0]);
        assert(out.drop_first() =~= r.0);
        lemma_upsert_reads_back(rest, in_p, found, cur, name, value);
    }
}

proof fn lemma_upsert_single(
    ls: Seq<Seq<char>>,
    in_p: bool,
    found: bool,
    replaced: bool,
    name: Seq<char>,
    entry: Seq<char>,
)
    requires
        forall|k: int| 0 <= k < ls.len() ==> single_line(#[trigger] ls[k]),
        single_line(entry),
    ensures
        forall|k: int|
            0 <= k < upsert_scan(ls, in_p, found, replaced, name, entry).0.len() ==> single_line(
                #[trigger] upsert_scan(ls, in_p, found, replaced, name, entry).0[k],
            ),
    decreases ls.len(),
{
    if ls.len() > 0 {
        let t = trim(ls[0]);
        let rest = ls.drop_first();
        assert(forall|k: int| 0 <= k < rest.len() ==> rest[k] == ls[k + 1]);
        assert(single_line(ls[0]));
        let (p2, f2, r2) = if is_skippable(t) {
            (in_p, found, replaced)
        } else if section_header(t) is Some {
            (opens_presets(t), found || opens_presets(t), replaced)
        } else if in_p && !replaced && is_entry_for(t, name) {
            (in_p, found, true)
        } else {
            (in_p, found, replaced)
        };
        lemma_upsert_single(rest, p2, f2, r2, name, entry);
        let tail = upsert_scan(rest, p2, f2, r2, name, entry).0;
        let out = upsert_scan(ls, in_p, found, replaced, name, entry).0;
        assert(out.drop_first() =~= tail);
        assert forall|k: int| 0 <= k < out.len() implies single_line(#[trigger] out[k]) by {
            if k > 0 {
                assert(out[k] == tail[k - 1]);
                assert(single_line(tail[k - 1]));
            }
        }
    }
}

proof fn lemma_scan_past_no_entry(
    ls: Seq<Seq<char>>,
    x: Seq<Seq<char>>,
    cur: Seq<char>,
    name: Seq<char>,
)
    requires
        !entry_in(ls, eq_ignore_case(cur, presets_name()), name),
    ensures
        ini_scan(ls + x, cur, presets_name(), name) == ini_scan(
            x,
            section_after(ls, cur),
            presets_name(),
            name,
        ),
    decreases ls.len(),
{
    if ls.len() == 0 {
        assert(ls + x =~= x);
    } else {
        let rest = ls.drop_first();
        let t = trim(ls[0]);
        assert((ls + x)[0] == ls[0]);
        assert((ls + x).drop_first() =~= rest + x);
        if !is_skippable(t) && section_header(t) is Some {
            lemma_scan_past_no_entry(rest, x, section_header(t)->0, name);
        } else {
            lemma_scan_past_no_entry(rest, x, cur, name);
        }
    }
}

proof fn lemma_upsert_no_entry(
    ls: Seq<Seq<char>>,
    in_p: bool,
    found: bool,
    name: Seq<char>,
    entry: Seq<char>,
)
    requires
        !entry_in(ls, in_p, name),
    ensures
        upsert_scan(ls, in_p, found, false, name, entry).0 == ls,
        !upsert_scan(ls, in_p, found, false, name, entry).2,
        upsert_scan(ls, in_p, found, false, name, entry).1 == (found || has_presets_header(ls)),
    decreases ls.len(),
{
    if ls.len() == 0 {
        assert(!has_presets_header(ls));
    } else {
        let rest = ls.drop_first();
        let t = trim(ls[0]);
        let p = opens_presets(t);
        if !is_skippable(t) && section_header(t) is Some {
            lemma_upsert_no_entry(rest, p, found || p, name, entry);
        } else {
            lemma_upsert_no_entry(rest, in_p, found, name, entry);
            if is_skippable(t) {
                assert(!p);
            }
        }
        let r = upsert_scan(ls, in_p, found, false, name, entry);
        assert(r.0 =~= ls) by {
            assert(ls =~= seq![ls[0]] + rest);
        }
        assert(has_presets_header(ls) == (opens_presets(t) || has_presets_header(rest))) by {
            if has_presets_header(rest) {
                let k = choose|k: int| 0 <= k < rest.len() && opens_presets(trim(#[trigger] rest[k]));
                assert(rest[k] == ls[k + 1]);
            }
            if has_presets_header(ls) && !opens_presets(t) {
                let k = choose|k: int| 0 <= k < ls.len() && opens_presets(trim(#[trigger] ls[k]));
                assert(k != 0);
                assert(ls[k] == rest[k - 1]);
            }
        }
    }
}

/// A preset saved to the user's file reads back from it, and so from the
/// settings files read in order with that file first: when the file had
/// an entry for the name already, had no `[presets]` section, or ended in
/// one.
pub proof fn law_saved_preset_reads_back(
    existing: Option<Seq<char>>,
    name: Seq<char>,
    value: Seq<char>,
)
    requires
        is_plain_key(name),
        is_plain_value(value),
        entry_in(existing_lines(existing), false, name) || !has_presets_header(
            existing_lines(existing),
        ) || eq_ignore_case(section_after(existing_lines(existing), Seq::empty()), presets_name()),
    ensures
        ini_value(join_crlf(upsert_lines(existing_lines(existing), name, value)), presets_name(), name)
            == Some(value),
        forall|others: Seq<Seq<char>>|
            first_value(
                seq![join_crlf(upsert_lines(existing_lines(existing), name, value))] + others,
                presets_name(),
                name,
            ) == Some(value),
{
    let ls = existing_lines(existing);
    let entry = preset_entry(name, value);
    let e = Seq::<char>::empty();
    lemma_entry_facts(name, value);
    lemma_presets_not_empty_name();
    match existing {
        Some(c) => lemma_lines_single(c),
        None => {},
    }
    assert(forall|k: int| 0 <= k < ls.len() ==> single_line(#[trigger] ls[k]));
    lemma_upsert_single(ls, false, false, false, name, entry);
    let r = upsert_scan(ls, false, false, false, name, entry);
    let out = upsert_lines(ls, name, value);
    if entry_in(ls, false, name) {
        lemma_upsert_flags(ls, false, false, name, entry);
        assert(out == r.0);
        lemma_lines_join_crlf(out);
        lemma_upsert_reads_back(ls, false, false, e, name, value);
    } else if !has_presets_header(ls) {
        lemma_upsert_no_presets(ls, false, false, name, entry);
        let x = seq!["[presets]"@, entry];
        assert(out == ls + x);
        reveal_strlit("[presets]");
        reveal_strlit("presets");
        let h = "[presets]"@;
        assert(single_line(h));
        assert forall|k: int| 0 <= k < out.len() implies single_line(#[trigger] out[k]) by {
            if k < ls.len() {
                assert(out[k] == ls[k]);
            } else if k == ls.len() {
                assert(out[k] == h);
            } else {
                assert(out[k] == entry);
            }
        }
        lemma_lines_join_crlf(out);
        lemma_scan_past_other_sections(ls, x, e, name);
        lemma_plain_trim(h);
        assert(h.subrange(1, 8) =~= presets_name());
        lemma_plain_trim(presets_name());
        assert(section_header(trim(h)) == Some(presets_name()));
        let c2 = section_after(ls, e);
        assert(x[0] == h);
        assert(x.drop_first()[0] == entry);
        assert(ini_scan(x, c2, presets_name(), name) == ini_scan(
            x.drop_first(),
            presets_name(),
            presets_name(),
            name,
        ));
    } else {
        lemma_upsert_no_entry(ls, false, false, name, entry);
        assert(out == ls.push(entry));
        let x = seq![entry];
        assert(ls.push(entry) == ls + x);
        assert forall|k: int| 0 <= k < out.len() implies single_line(#[trigger] out[k]) by {
            if k < ls.len() {
                assert(out[k] == ls[k]);
            }
        }
        lemma_lines_join_crlf(out);
        assert(!eq_ignore_case(e, presets_name())) by {
            lemma_presets_not_empty_name();
        }
        lemma_scan_past_no_entry(ls, x, e, name);
        let c2 = section_after(ls, e);
        assert(x[0] == entry);
        assert(x.drop_first().len() == 0);
    }
    let saved = join_crlf(out);
    assert forall|others: Seq<Seq<char>>| first_value(
        seq![saved] + others,
        presets_name(),
        name,
    ) == Some(value) by {
        assert((seq![saved] + others)[0] == saved);
    }
}

// ---------------------------------------------------------------------
// Preset values
// ---------------------------------------------------------------------

/// Why a stored preset value could not be read.
#[derive(Debug, Clone, PartialEq, Eq)]
pub enum PresetError {
    /// The value does not have five `|`-separated fields (the count).
    FieldCount(usize),
    /// The first field is not the file ending of a known format.
    UnknownFormat(String),
    /// The second field names no compression level.
    UnknownLevel(String),
    /// The third field names no ZIP compression method.
    UnknownMethod(String),
}

pub open spec fn level_str(l: CompressionLevel) -> Seq<char> {
    match l {
        CompressionLevel::Fastest => "fastest"@,
        CompressionLevel::Fast => "fast"@,
        CompressionLevel::Normal => "normal"@,
        CompressionLevel::Maximum => "maximum"@,
        CompressionLevel::Ultra => "ultra"@,
    }
}

pub open spec fn method_str(m: ZipCompressionMethod) -> Seq<char> {
    match m {
        ZipCompressionMethod::Deflate => "deflate"@,
        ZipCompressionMethod::Stored => "stored"@,
        ZipCompressionMethod::Bzip2 => "bzip2"@,
        ZipCompressionMethod::Zstd => "zstd"@,
        ZipCompressionMethod::Xz => "xz"@,
    }
}

/// The level a (lower-cased) name stands for.
pub open spec fn level_named(n: Seq<char>) -> Option<CompressionLevel> {
    if n == "fastest"@ {
        Some(CompressionLevel::Fastest)
    } else if n == "fast"@ {
        Some(CompressionLevel::Fast)
    } else if n == "normal"@ {
        Some(CompressionLevel::Normal)
    } else if n == "maximum"@ {
        Some(CompressionLevel::Maximum)
    } else if n == "ultra"@ {
        Some(CompressionLevel::Ultra)
    } else {
        None
    }
}

/// The method a (lower-cased) name stands for.
pub open spec fn method_named(n: Seq<char>) -> Option<ZipCompressionMethod> {
    if n == "deflate"@ {
        Some(ZipCompressionMethod::Deflate)
    } else if n == "stored"@ {
        Some(ZipCompressionMethod::Stored)
    } else if n == "bzip2"@ {
        Some(ZipCompressionMethod::Bzip2)
    } else if n == "zstd"@ {
        Some(ZipCompressionMethod::Zstd)
    } else if n == "xz"@ {
        Some(ZipCompressionMethod::Xz)
    } else {
        None
    }
}

pub fn level_name(level: CompressionLevel) -> (r: &'static str)
    ensures
        r@ == level_str(level),
{
    match level {
        CompressionLevel::Fastest => "fastest",
        CompressionLevel::Fast => "fast",
        CompressionLevel::Normal => "normal",
        CompressionLevel::Maximum => "maximum",
        CompressionLevel::Ultra => "ultra",
    }
}

pub fn method_name(method: ZipCompressionMethod) -> (r: &'static str)
    ensures
        r@ == method_str(method),
{
    match method {
        ZipCompressionMethod::Deflate => "deflate",
        ZipCompressionMethod::Stored => "stored",
        ZipCompressionMethod::Bzip2 => "bzip2",
        ZipCompressionMethod::Zstd => "zstd",
        ZipCompressionMethod::Xz => "xz",
    }
}

/// The level named `name`, compared after lower-casing. (For these
/// all-ASCII names, Unicode and ASCII lower-casing agree.)
pub fn parse_level_name(name: &str) -> (r: Result<CompressionLevel, PresetError>)
    ensures
        match r {
            Ok(l) => level_named(lower(name@)) == Some(l),
            Err(e) => level_named(lower(name@)) is None && (e matches PresetError::UnknownLevel(t)
                && t@ == name@),
        },
{
    let n = lower_chars(chars_of(name).as_slice());
    if chars_eq_str(n.as_slice(), "fastest") {
        Ok(CompressionLevel::Fastest)
    } else if chars_eq_str(n.as_slice(), "fast") {
        Ok(CompressionLevel::Fast)
    } else if chars_eq_str(n.as_slice(), "normal") {
        Ok(CompressionLevel::Normal)
    } else if chars_eq_str(n.as_slice(), "maximum") {
        Ok(CompressionLevel::Maximum)
    } else if chars_eq_str(n.as_slice(), "ultra") {
        Ok(CompressionLevel::Ultra)
    } else {
        Err(PresetError::UnknownLevel(String::from_str(name)))
    }
}

/// The ZIP method named `name`, compared after lower-casing.
pub fn parse_method_name(name: &str) -> (r: Result<ZipCompressionMethod, PresetError>)
    ensures
        match r {
            Ok(m) => method_named(lower(name@)) == Some(m),
            Err(e) => method_named(lower(name@)) is None && (e matches PresetError::UnknownMethod(t)
                && t@ == name@),
        },
{
    let n = lower_chars(chars_of(name).as_slice());
    if chars_eq_str(n.as_slice(), "deflate") {
        Ok(ZipCompressionMethod::Deflate)
    } else if chars_eq_str(n.as_slice(), "stored") {
        Ok(ZipCompressionMethod::Stored)
    } else if chars_eq_str(n.as_slice(), "bzip2") {
        Ok(ZipCompressionMethod::Bzip2)
    } else if chars_eq_str(n.as_slice(), "zstd") {
        Ok(ZipCompressionMethod::Zstd)
    } else if chars_eq_str(n.as_slice(), "xz") {
        Ok(ZipCompressionMethod::Xz)
    } else {
        Err(PresetError::UnknownMethod(String::from_str(name)))
    }
}

/// The stored form of a preset: format ending, level, method, thread count
/// and `yes`/`no` for encrypted file names, separated by `|`.
pub open spec fn encoded_preset(
    format: CompressionFormat,
    level: CompressionLevel,
    method: ZipCompressionMethod,
    threads: u32,
    encrypt: bool,
) -> Seq<char> {
    format_suffix(format) + "|"@ + level_str(level) + "|"@ + method_str(method) + "|"@ + decimal(
        threads as nat,
    ) + "|"@ + (if encrypt {
        "yes"@
    } else {
        "no"@
    })
}

pub fn encode_preset_value(
    format: CompressionFormat,
    level: CompressionLevel,
    method: ZipCompressionMethod,
    threads: u32,
    encrypt_file_names: bool,
) -> (r: String)
    ensures
        r@ == encoded_preset(format, level, method, threads, encrypt_file_names),
{
    let mut out: Vec<char> = Vec::new();
    extend_str(&mut out, format.primary_suffix());
    extend_str(&mut out, "|");
    extend_str(&mut out, level_name(level));
    extend_str(&mut out, "|");
    extend_str(&mut out, method_name(method));
    extend_str(&mut out, "|");
    push_decimal(&mut out, threads as u64);
    extend_str(&mut out, "|");
    extend_str(&mut out, if encrypt_file_names { "yes" } else { "no" });
    proof {
        assert(out@ =~= encoded_preset(format, level, method, threads, encrypt_file_names));
    }
    string_of(out.as_slice())
}

/// The pieces of `s` between `sep` characters (at least one), as
/// `str::split` with a character gives them.
pub open spec fn pieces(s: Seq<char>, sep: char) -> Seq<Seq<char>>
    decreases s.len(),
{
    if s.len() == 0 {
        seq![Seq::<char>::empty()]
    } else {
        let r = pieces(s.drop_last(), sep);
        if s.last() == sep {
            r.push(Seq::<char>::empty())
        } else {
            r.update(r.len() - 1, r.last().push(s.last()))
        }
    }
}

proof fn lemma_pieces_nonempty(s: Seq<char>, sep: char)
    ensures
        pieces(s, sep).len() >= 1,
    decreases s.len(),
{
    if s.len() > 0 {
        lemma_pieces_nonempty(s.drop_last(), sep);
    }
}

fn split_on(s: &[char], sep: char) -> (r: Vec<Vec<char>>)
    ensures
        r@.len() == pieces(s@, sep).len(),
        forall|k: int| 0 <= k < r@.len() ==> #[trigger] r@[k]@ == pieces(s@, sep)[k],
{
    let mut done: Vec<Vec<char>> = Vec::new();
    let mut cur: Vec<char> = Vec::new();
    let mut i: usize = 0;
    proof {
        assert(s@.take(0) =~= Seq::<char>::empty());
    }
    while i < s.len()
        invariant
            i <= s@.len(),
            pieces(s@.take(i as int), sep).len() >= 1,
            done@.len() == pieces(s@.take(i as int), sep).len() - 1,
            forall|k: int|
                0 <= k < done@.len() ==> #[trigger] done@[k]@ == pieces(s@.take(i as int), sep)[k],
            cur@ == pieces(s@.take(i as int), sep).last(),
        decreases s@.len() - i,
    {
        let c = s[i];
        proof {
            assert(s@.take(i + 1).drop_last() =~= s@.take(i as int));
            assert(s@.take(i + 1).last() == c);
        }
        if c == sep {
            done.push(cur);
            cur = Vec::new();
        } else {
            cur.push(c);
        }
        i = i + 1;
    }
    proof {
        assert(s@.take(s@.len() as int) =~= s@);
    }
    done.push(cur);
    done
}

/// All characters are ASCII digits.
pub open spec fn all_digits(d: Seq<char>) -> bool {
    forall|i: int| 0 <= i < d.len() ==> is_digit(d[i])
}

/// `u32::from_str`: an optional `+`, then at least one ASCII digit, with a
/// value that fits.
pub open spec fn parse_u32(s: Seq<char>) -> Option<u32> {
    let d = if s.len() > 0 && s[0] == '+' {
        s.drop_first()
    } else {
        s
    };
    if d.len() == 0 || !all_digits(d) || digits_value(d) > u32::MAX {
        None
    } else {
        Some(digits_value(d) as u32)
    }
}

fn parse_u32_exec(s: &[char]) -> (r: Option<u32>)
    ensures
        r == parse_u32(s@),
{
    let start: usize = if s.len() > 0 && s[0] == '+' {
        1
    } else {
        0
    };
    let ghost d = if s@.len() > 0 && s@[0] == '+' {
        s@.drop_first()
    } else {
        s@
    };
    proof {
        assert(d =~= s@.skip(start as int));
    }
    if start >= s.len() {
        return None;
    }
    let mut acc: u64 = 0;
    let mut i = start;
    while i < s.len()
        invariant
            start <= i <= s@.len(),
            start < s@.len(),
            d =~= s@.skip(start as int),
            d == (if s@.len() > 0 && s@[0] == '+' {
                s@.drop_first()
            } else {
                s@
            }),
            all_digits(s@.subrange(start as int, i as int)),
            acc == digits_value(s@.subrange(start as int, i as int)),
            acc <= u32::MAX,
        decreases s@.len() - i,
    {
        let c = s[i];
        let ghost pre = s@.subrange(start as int, i as int);
        proof {
            assert(s@.subrange(start as int, i + 1).drop_last() =~= pre);
        }
        if !('0' <= c && c <= '9') {
            proof {
                assert(d[i - start] == c);
                assert(!is_digit(d[i - start]));
                assert(!all_digits(d));
            }
            return None;
        }
        let next = acc * 10 + (c as u32 - 48) as u64;
        if next > 4294967295 {
            proof {
                let q = s@.subrange(start as int, i + 1);
                assert(q.drop_last() =~= pre);
                assert(q.last() == c);
                assert(digits_value(q) == digits_value(pre) * 10 + ((c as u32) - 48) as nat);
                assert(next == digits_value(q));
                if all_digits(d) {
                    lemma_digits_prefix_grows(d, i + 1 - start);
                    assert(d.take(i + 1 - start) =~= q);
                    assert(digits_value(d) > u32::MAX);
                }
            }
            return None;
        }
        acc = next;
        i = i + 1;
        proof {
            assert(all_digits(s@.subrange(start as int, i as int))) by {
                let q = s@.subrange(start as int, i as int);
                assert forall|j: int| 0 <= j < q.len() implies is_digit(q[j]) by {
                    if j < q.len() - 1 {
                        assert(q[j] == pre[j]);
                    }
                }
            }
        }
    }
    proof {
        assert(s@.subrange(start as int, s@.len() as int) =~= d);
    }
    Some(acc as u32)
}

/// Digit values never shrink as digits are appended.
proof fn lemma_digits_prefix_grows(g: Seq<char>, n: int)
    requires
        0 <= n <= g.len(),
        all_digits(g),
    ensures
        digits_value(g) >= digits_value(g.take(n)),
    decreases g.len() - n,
{
    if n < g.len() {
        lemma_digits_prefix_grows(g, n + 1);
        let t1 = g.take(n + 1);
        assert(t1.drop_last() =~= g.take(n));
        assert(t1.last() == g[n]);
        assert(is_digit(g[n]));
        assert(digits_value(t1) == digits_value(g.take(n)) * 10 + ((g[n] as u32) - 48) as nat);
    } else {
        assert(g.take(n) =~= g);
    }
}

/// What a stored preset value reads as.
pub open spec fn decoded_preset(value: Seq<char>) -> Result<
    (CompressionFormat, CompressionLevel, ZipCompressionMethod, u32, bool),
    (),
> {
    let p = pieces(value, '|');
    if p.len() != 5 {
        Err(())
    } else {
        match (
            detect_format("dummy"@ + p[0]),
            level_named(lower(p[1])),
            method_named(lower(p[2])),
        ) {
            (Some(f), Some(l), Some(m)) => Ok(
                (
                    f,
                    l,
                    m,
                    match parse_u32(p[3]) {
                        Some(t) => t,
                        None => 1,
                    },
                    p[4] == "yes"@,
                ),
            ),
            _ => Err(()),
        }
    }
}

/// Reads a stored preset value: five `|`-separated fields, the format
/// (its file ending), the level, the ZIP method, the thread count (`1`
/// when unreadable) and `yes` for encrypted file names. The first field
/// that cannot be read decides the error.
pub fn decode_preset_value(value: &str) -> (r: Result<
    (CompressionFormat, CompressionLevel, ZipCompressionMethod, u32, bool),
    PresetError,
>)
    ensures
        match r {
            Ok(v) => decoded_preset(value@) == Ok::<_, ()>(v),
            Err(e) => decoded_preset(value@) is Err && match e {
                PresetError::FieldCount(n) => n == pieces(value@, '|').len(),
                PresetError::UnknownFormat(_) => pieces(value@, '|').len() == 5 && detect_format(
                    "dummy"@ + pieces(value@, '|')[0],
                ) is None,
                PresetError::UnknownLevel(_) => pieces(value@, '|').len() == 5 && detect_format(
                    "dummy"@ + pieces(value@, '|')[0],
                ) is Some && level_named(lower(pieces(value@, '|')[1])) is None,
                PresetError::UnknownMethod(_) => pieces(value@, '|').len() == 5 && detect_format(
                    "dummy"@ + pieces(value@, '|')[0],
                ) is Some && level_named(lower(pieces(value@, '|')[1])) is Some && method_named(
                    lower(pieces(value@, '|')[2]),
                ) is None,
            },
        },
{
    let cs = chars_of(value);
    let parts = split_on(cs.as_slice(), '|');
    if parts.len() != 5 {
        return Err(PresetError::FieldCount(parts.len()));
    }
    let mut name = chars_of("dummy");
    extend_chars(&mut name, parts[0].as_slice());
    let name_s = string_of(name.as_slice());
    let format = match CompressionFormat::detect(name_s.as_str()) {
        Some(f) => f,
        None => return Err(PresetError::UnknownFormat(string_of(parts[0].as_slice()))),
    };
    let level_text = string_of(parts[1].as_slice());
    let level = match parse_level_name(level_text.as_str()) {
        Ok(l) => l,
        Err(e) => return Err(e),
    };
    let method_text = string_of(parts[2].as_slice());
    let method = match parse_method_name(method_text.as_str()) {
        Ok(m) => m,
        Err(e) => return Err(e),
    };
    let threads = match parse_u32_exec(parts[3].as_slice()) {
        Some(t) => t,
        None => 1,
    };
    let encrypt = chars_eq_str(parts[4].as_slice(), "yes");
    Ok((format, level, method, threads, encrypt))
}

/// Has no `sep` character.
pub open spec fn free_of(y: Seq<char>, sep: char) -> bool {
    forall|i: int| 0 <= i < y.len() ==> y[i] != sep
}

proof fn lemma_pieces_append(x: Seq<char>, y: Seq<char>, sep: char)
    requires
        free_of(y, sep),
    ensures
        pieces(x.push(sep) + y, sep) == pieces(x, sep).push(y),
    decreases y.len(),
{
    if y.len() == 0 {
        assert(x.push(sep) + y =~= x.push(sep));
        assert(x.push(sep).drop_last() =~= x);
        assert(y =~= Seq::<char>::empty());
    } else {
        let z = y.drop_last();
        assert(free_of(z, sep)) by {
            assert forall|i: int| 0 <= i < z.len() implies z[i] != sep by {
                assert(z[i] == y[i]);
            }
        }
        lemma_pieces_append(x, z, sep);
        let w = x.push(sep) + y;
        assert(w.drop_last() =~= x.push(sep) + z);
        assert(w.last() == y[y.len() - 1]);
        assert(z.push(y.last()) =~= y);
        lemma_pieces_nonempty(x.push(sep) + z, sep);
        assert(pieces(w, sep) =~= pieces(x, sep).push(y));
    }
}

proof fn lemma_pieces_whole(y: Seq<char>, sep: char)
    requires
        free_of(y, sep),
    ensures
        pieces(y, sep) == seq![y],
    decreases y.len(),
{
    if y.len() == 0 {
        assert(y =~= Seq::<char>::empty());
    } else {
        let z = y.drop_last();
        assert(free_of(z, sep)) by {
            assert forall|i: int| 0 <= i < z.len() implies z[i] != sep by {
                assert(z[i] == y[i]);
            }
        }
        lemma_pieces_whole(z, sep);
        assert(z.push(y.last()) =~= y);
        assert(y.last() == y[y.len() - 1]);
        assert(pieces(y, sep) =~= seq![y]);
    }
}

proof fn lemma_digit_char(k: int)
    requires
        0 <= k < 10,
    ensures
        (digit_char(k) as u32) == 48 + k,
        is_digit(digit_char(k)),
{
}

proof fn lemma_decimal_facts(n: nat)
    ensures
        decimal(n).len() > 0,
        all_digits(decimal(n)),
        digits_value(decimal(n)) == n,
    decreases n,
{
    if n >= 10 {
        lemma_decimal_facts(n / 10);
        let d = decimal(n);
        lemma_digit_char((n % 10) as int);
        assert(d.drop_last() =~= decimal(n / 10));
        assert(d.last() == digit_char((n % 10) as int));
        assert forall|i: int| 0 <= i < d.len() implies is_digit(d[i]) by {
            if i < d.len() - 1 {
                assert(d[i] == decimal(n / 10)[i]);
            }
        }
        assert(digits_value(d) == digits_value(decimal(n / 10)) * 10 + ((d.last() as u32)
            - 48) as nat);
        assert((n / 10) * 10 + n % 10 == n);
    } else {
        lemma_digit_char(n as int);
        let d = decimal(n);
        assert(d.drop_last() =~= Seq::<char>::empty());
        assert(digits_value(d) == digits_value(d.drop_last()) * 10 + ((d.last() as u32)
            - 48) as nat);
    }
}

/// `c` does not occur, checked from the last character backwards.
pub open spec fn lacks(s: Seq<char>, c: char) -> bool
    decreases s.len(),
{
    if s.len() == 0 {
        true
    } else {
        s.last() != c && lacks(s.drop_last(), c)
    }
}

proof fn lemma_lacks(s: Seq<char>, c: char)
    requires
        lacks(s, c),
    ensures
        free_of(s, c),
    decreases s.len(),
{
    if s.len() > 0 {
        lemma_lacks(s.drop_last(), c);
        assert forall|i: int| 0 <= i < s.len() implies s[i] != c by {
            if i < s.len() - 1 {
                assert(s.drop_last()[i] == s[i]);
            }
        }
    }
}

proof fn lemma_suffix_round(format: CompressionFormat)
    ensures
        free_of(format_suffix(format), '|'),
        crate::archive::no_upper(format_suffix(format)),
{
    reveal_strlit(".7z");
    reveal_strlit(".zip");
    reveal_strlit(".tar");
    reveal_strlit(".tar.gz");
    reveal_strlit(".tar.bz2");
    reveal_strlit(".tar.xz");
    reveal_strlit(".gz");
    reveal_strlit(".bz2");
    reveal_strlit(".xz");
    reveal_strlit(".zst");
    reveal_strlit(".tar.zst");
    reveal_strlit(".lz4");
    reveal_strlit(".tar.lz4");
    reveal_with_fuel(lacks, 9);
    reveal_with_fuel(crate::archive::no_upper, 9);
    assert(lacks(format_suffix(format), '|'));
    lemma_lacks(format_suffix(format), '|');
}

proof fn lemma_level_round(level: CompressionLevel)
    ensures
        free_of(level_str(level), '|'),
        level_named(lower(level_str(level))) == Some(level),
{
    reveal_strlit("fastest");
    reveal_strlit("fast");
    reveal_strlit("normal");
    reveal_strlit("maximum");
    reveal_strlit("ultra");
    reveal_with_fuel(lacks, 8);
    reveal_with_fuel(crate::archive::no_upper, 8);
    let b = level_str(level);
    assert(lacks(b, '|'));
    lemma_lacks(b, '|');
    assert(crate::archive::no_upper(b));
    crate::archive::lemma_no_upper_lower(b);
    assert(("maximum"@)[0] != ("fastest"@)[0]);
}

proof fn lemma_method_round(method: ZipCompressionMethod)
    ensures
        free_of(method_str(method), '|'),
        method_named(lower(method_str(method))) == Some(method),
{
    reveal_strlit("deflate");
    reveal_strlit("stored");
    reveal_strlit("bzip2");
    reveal_strlit("zstd");
    reveal_strlit("xz");
    reveal_with_fuel(lacks, 8);
    reveal_with_fuel(crate::archive::no_upper, 8);
    let c = method_str(method);
    assert(lacks(c, '|'));
    lemma_lacks(c, '|');
    assert(crate::archive::no_upper(c));
    crate::archive::lemma_no_upper_lower(c);
}

proof fn lemma_flag_round(encrypt: bool)
    ensures
        free_of(
            if encrypt {
                "yes"@
            } else {
                "no"@
            },
            '|',
        ),
        ((if encrypt {
            "yes"@
        } else {
            "no"@
        }) == "yes"@) == encrypt,
{
    reveal_strlit("yes");
    reveal_strlit("no");
    reveal_with_fuel(lacks, 4);
    let e = if encrypt {
        "yes"@
    } else {
        "no"@
    };
    assert(lacks(e, '|'));
    lemma_lacks(e, '|');
    if !encrypt {
        assert(("no"@).len() != ("yes"@).len());
    }
}

/// A preset names each ZIP method by the codec's own lower-case name:
/// exactly "deflate", "stored", "bzip2", "zstd" and "xz" are read as
/// Deflate, Stored, BZip2, Zstandard and XZ, nothing else is read as a
/// method, and each method is written so that it reads back as itself
/// (so it is written under that same name).
pub proof fn law_method_codec_names(n: Seq<char>, m: ZipCompressionMethod)
    ensures
        method_named(n) == Some(ZipCompressionMethod::Deflate) <==> n == "deflate"@,
        method_named(n) == Some(ZipCompressionMethod::Stored) <==> n == "stored"@,
        method_named(n) == Some(ZipCompressionMethod::Bzip2) <==> n == "bzip2"@,
        method_named(n) == Some(ZipCompressionMethod::Zstd) <==> n == "zstd"@,
        method_named(n) == Some(ZipCompressionMethod::Xz) <==> n == "xz"@,
        method_named(lower(method_str(m))) == Some(m),
        lower(method_str(m)) == method_str(m),
{
    reveal_strlit("deflate");
    reveal_strlit("stored");
    reveal_strlit("bzip2");
    reveal_strlit("zstd");
    reveal_strlit("xz");
    assert(("deflate"@).len() == 7 && ("stored"@).len() == 6 && ("bzip2"@).len() == 5
        && ("zstd"@).len() == 4 && ("xz"@).len() == 2);
    lemma_method_round(m);
    reveal_with_fuel(crate::archive::no_upper, 8);
    assert(crate::archive::no_upper(method_str(m)));
    crate::archive::lemma_no_upper_lower(method_str(m));
}

/// A preset names each compression level by its own lower-case name:
/// exactly "fastest", "fast", "normal", "maximum" and "ultra" are read as
/// those levels, and each level is written under that name.
pub proof fn law_level_names(n: Seq<char>, l: CompressionLevel)
    ensures
        level_named(n) == Some(CompressionLevel::Fastest) <==> n == "fastest"@,
        level_named(n) == Some(CompressionLevel::Fast) <==> n == "fast"@,
        level_named(n) == Some(CompressionLevel::Normal) <==> n == "normal"@,
        level_named(n) == Some(CompressionLevel::Maximum) <==> n == "maximum"@,
        level_named(n) == Some(CompressionLevel::Ultra) <==> n == "ultra"@,
        level_named(lower(level_str(l))) == Some(l),
        lower(level_str(l)) == level_str(l),
{
    reveal_strlit("fastest");
    reveal_strlit("fast");
    reveal_strlit("normal");
    reveal_strlit("maximum");
    reveal_strlit("ultra");
    assert(("fastest"@).len() == 7 && ("fast"@).len() == 4 && ("normal"@).len() == 6
        && ("maximum"@).len() == 7 && ("ultra"@).len() == 5);
    assert(("fastest"@)[0] != ("maximum"@)[0]);
    lemma_level_round(l);
    reveal_with_fuel(crate::archive::no_upper, 8);
    assert(crate::archive::no_upper(level_str(l)));
    crate::archive::lemma_no_upper_lower(level_str(l));
}

/// A stored preset reads back as the preset that was stored.
pub proof fn law_preset_value_round_trip(
    format: CompressionFormat,
    level: CompressionLevel,
    method: ZipCompressionMethod,
    threads: u32,
    encrypt: bool,
)
    ensures
        decoded_preset(encoded_preset(format, level, method, threads, encrypt)) == Ok::<_, ()>(
            (format, level, method, threads, encrypt),
        ),
{
    let a = format_suffix(format);
    let b = level_str(level);
    let c = method_str(method);
    let d = decimal(threads as nat);
    let e = if encrypt {
        "yes"@
    } else {
        "no"@
    };
    let bar = "|"@;
    reveal_strlit("|");
    assert(bar =~= seq!['|']);
    lemma_suffix_round(format);
    lemma_level_round(level);
    lemma_method_round(method);
    lemma_flag_round(encrypt);
    lemma_decimal_facts(threads as nat);
    assert(free_of(d, '|'));
    lemma_pieces_whole(a, '|');
    lemma_pieces_append(a, b, '|');
    lemma_pieces_append(a + bar + b, c, '|');
    lemma_pieces_append(a + bar + b + bar + c, d, '|');
    lemma_pieces_append(a + bar + b + bar + c + bar + d, e, '|');
    assert((a + bar + b) =~= a.push('|') + b);
    assert((a + bar + b + bar + c) =~= (a + bar + b).push('|') + c);
    assert((a + bar + b + bar + c + bar + d) =~= (a + bar + b + bar + c).push('|') + d);
    let all = encoded_preset(format, level, method, threads, encrypt);
    assert(all =~= (a + bar + b + bar + c + bar + d).push('|') + e);
    let p = pieces(all, '|');
    assert(p =~= seq![a, b, c, d, e]);
    crate::archive::lemma_detect_own_suffix(format);
    assert(d[0] != '+') by {
        assert(is_digit(d[0]));
    }
    assert(parse_u32(d) == Some(threads));
}

// ---------------------------------------------------------------------
// Reading values from the settings files
// ---------------------------------------------------------------------

/// The views of a list of strings.
pub open spec fn texts(files: Seq<String>) -> Seq<Seq<char>> {
    files.map_values(|f: String| f@)
}

/// The value found in the first file (in search order) that has one.
pub open spec fn first_value(files: Seq<Seq<char>>, section: Seq<char>, key: Seq<char>) -> Option<
    Seq<char>,
>
    decreases files.len(),
{
    if files.len() == 0 {
        None
    } else {
        match ini_value(files[0], section, key) {
            Some(v) => Some(v),
            None => first_value(files.drop_first(), section, key),
        }
    }
}

fn first_value_exec(files: &[String], section: &str, key: &str) -> (r: Option<String>)
    ensures
        match r {
            Some(v) => first_value(texts(files@), section@, key@) == Some(v@),
            None => first_value(texts(files@), section@, key@) is None,
        },
{
    let mut i: usize = 0;
    proof {
        assert(texts(files@).skip(0) =~= texts(files@));
    }
    while i < files.len()
        invariant
            i <= files@.len(),
            first_value(texts(files@), section@, key@) == first_value(
                texts(files@).skip(i as int),
                section@,
                key@,
            ),
        decreases files@.len() - i,
    {
        let ghost rest = texts(files@).skip(i as int);
        proof {
            assert(rest[0] == files@[i as int]@);
            assert(rest.drop_first() =~= texts(files@).skip(i + 1));
        }
        match parse_ini_value(files[i].as_str(), section, key) {
            Some(v) => return Some(v),
            None => {},
        }
        i = i + 1;
    }
    None
}

/// The saved interface language: the first of the settings files (texts
/// in search order) that gives `language` in `[ui]` a value.
pub fn load_preferred_language_value(files: &[String]) -> (r: Option<String>)
    ensures
        match r {
            Some(v) => first_value(texts(files@), "ui"@, "language"@) == Some(v@),
            None => first_value(texts(files@), "ui"@, "language"@) is None,
        },
{
    first_value_exec(files, "ui", "language")
}

/// The saved theme: the first of the settings files that gives `theme` in
/// `[ui]` a value.
pub fn load_preferred_theme(files: &[String]) -> (r: Option<String>)
    ensures
        match r {
            Some(v) => first_value(texts(files@), "ui"@, "theme"@) == Some(v@),
            None => first_value(texts(files@), "ui"@, "theme"@) is None,
        },
{
    first_value_exec(files, "ui", "theme")
}

/// The preset saved as `name`: the first of the settings files that gives
/// `name` in `[presets]` a value.
pub fn load_preset(files: &[String], name: &str) -> (r: Option<String>)
    ensures
        match r {
            Some(v) => first_value(texts(files@), presets_name(), name@) == Some(v@),
            None => first_value(texts(files@), presets_name(), name@) is None,
        },
{
    first_value_exec(files, "presets", name)
}

/// The value of `key` in `[ui]` of a settings file, if the file exists.
pub open spec fn ui_value(file: Option<Seq<char>>, key: Seq<char>) -> Option<Seq<char>> {
    match file {
        Some(c) => ini_value(c, "ui"@, key),
        None => None,
    }
}

fn read_settings_key(file: Option<&str>, key: &str) -> (r: Option<String>)
    ensures
        match r {
            Some(v) => ui_value(
                match file {
                    Some(c) => Some(c@),
                    None => None,
                },
                key@,
            ) == Some(v@),
            None => ui_value(
                match file {
                    Some(c) => Some(c@),
                    None => None,
                },
                key@,
            ) is None,
        },
{
    match file {
        Some(c) => parse_ini_value(c, "ui", key),
        None => None,
    }
}

/// The new text of the user's settings file when the language is set to
/// `value`: the theme of the current file (`user_file`, if it exists) is
/// kept; the file is written anew with just the `[ui]` section.
pub fn save_preferred_language_value(user_file: Option<&str>, value: &str) -> (r: String)
    ensures
        r@ == join_crlf(
            settings_lines(
                Some(value@),
                ui_value(
                    match user_file {
                        Some(c) => Some(c@),
                        None => None,
                    },
                    "theme"@,
                ),
            ),
        ),
{
    let theme = read_settings_key(user_file, "theme");
    match theme {
        Some(t) => settings_file_contents(Some(value), Some(t.as_str())),
        None => settings_file_contents(Some(value), None),
    }
}

/// The new text of the user's settings file when the theme is set to
/// `value`: the language of the current file is kept; the file is written
/// anew with just the `[ui]` section.
pub fn save_preferred_theme_value(user_file: Option<&str>, value: &str) -> (r: String)
    ensures
        r@ == join_crlf(
            settings_lines(
                ui_value(
                    match user_file {
                        Some(c) => Some(c@),
                        None => None,
                    },
                    "language"@,
                ),
                Some(value@),
            ),
        ),
{
    let language = read_settings_key(user_file, "language");
    match language {
        Some(l) => settings_file_contents(Some(l.as_str()), Some(value)),
        None => settings_file_contents(None, Some(value)),
    }
}


proof fn lemma_single_trims(s: Seq<char>, c: char)
    requires
        single_line(s),
    ensures
        single_line(trim_start(s)),
        single_line(trim_end(s)),
        single_line(trim_start_matches(s, c)),
        single_line(trim_end_matches(s, c)),
    decreases s.len(),
{
    if s.len() > 0 {
        assert(single_line(s.drop_first())) by {
            assert forall|i: int| 0 <= i < s.drop_first().len() implies s.drop_first()[i] != '\n' by {
                assert(s.drop_first()[i] == s[i + 1]);
            }
        }
        assert(single_line(s.drop_last())) by {
            assert forall|i: int| 0 <= i < s.drop_last().len() implies s.drop_last()[i] != '\n' by {
                assert(s.drop_last()[i] == s[i]);
            }
        }
        lemma_single_trims(s.drop_first(), c);
        lemma_single_trims(s.drop_last(), c);
    }
}

proof fn lemma_single_clean(v: Seq<char>)
    requires
        single_line(v),
    ensures
        single_line(clean_value(v)),
{
    lemma_single_trims(v, '"');
    lemma_single_trims(trim_start(v), '"');
    let a = trim(v);
    lemma_single_trims(a, '"');
    lemma_single_trims(trim_start_matches(a, '"'), '"');
    let b = trim_matches(a, '"');
    lemma_single_trims(b, '\'');
    lemma_single_trims(trim_start_matches(b, '\''), '\'');
}

proof fn lemma_scan_value_single(ls: Seq<Seq<char>>, cur: Seq<char>, section: Seq<char>, key: Seq<char>)
    requires
        forall|k: int| 0 <= k < ls.len() ==> single_line(#[trigger] ls[k]),
    ensures
        ini_scan(ls, cur, section, key) is Some ==> single_line(ini_scan(ls, cur, section, key)->0),
    decreases ls.len(),
{
    if ls.len() > 0 {
        let rest = ls.drop_first();
        assert forall|k: int| 0 <= k < rest.len() implies single_line(#[trigger] rest[k]) by {
            assert(rest[k] == ls[k + 1]);
        }
        let t = trim(ls[0]);
        lemma_single_trims(ls[0], ' ');
        lemma_single_trims(trim_start(ls[0]), ' ');
        if is_skippable(t) {
            lemma_scan_value_single(rest, cur, section, key);
        } else if section_header(t) is Some {
            lemma_scan_value_single(rest, section_header(t)->0, section, key);
        } else if !eq_ignore_case(cur, section) || !is_entry_for(t, key) {
            lemma_scan_value_single(rest, cur, section, key);
        } else {
            let s = t.skip(find_char(t, '=') + 1);
            lemma_find_char(t, '=');
            assert(single_line(s)) by {
                assert forall|i: int| 0 <= i < s.len() implies s[i] != '\n' by {
                    assert(s[i] == t[i + find_char(t, '=') + 1]);
                }
            }
            lemma_single_clean(s);
        }
    }
}

/// Every value read from a settings file is one line.
proof fn lemma_ui_value_single(file: Option<Seq<char>>, key: Seq<char>)
    ensures
        ui_value(file, key) is Some ==> single_line(ui_value(file, key)->0),
{
    if let Some(c) = file {
        lemma_lines_single(c);
        lemma_scan_value_single(lines(c), Seq::empty(), "ui"@, key);
    }
}

proof fn lemma_trim_end_after(p: Seq<char>, v: Seq<char>)
    requires
        p.len() > 0,
        !is_white(p.last()),
    ensures
        trim_end(p + v) == p + trim_end(v),
    decreases v.len(),
{
    if v.len() == 0 {
        assert(p + v =~= p);
        assert(p + trim_end(v) =~= p);
    } else {
        assert((p + v).last() == v.last());
        assert((p + v).drop_last() =~= p + v.drop_last());
        lemma_trim_end_after(p, v.drop_last());
    }
}

/// A `prefix`-value line with any one-line value: it is an entry whose
/// key is the prefix without its `=`.
proof fn lemma_any_entry_line(prefix: Seq<char>, v: Seq<char>)
    requires
        prefix.len() >= 2,
        prefix.last() == '=',
        forall|i: int| 0 <= i < prefix.len() - 1 ==> prefix[i] != '=' && prefix[i] != '\n',
        !is_white(prefix[0]),
        !is_white(prefix[prefix.len() - 2]),
        prefix[0] != '[' && prefix[0] != ';' && prefix[0] != '#',
        single_line(v),
    ensures
        !is_skippable(trim(prefix + v)),
        section_header(trim(prefix + v)) is None,
        find_char(trim(prefix + v), '=') >= 0,
        line_key(trim(prefix + v)) == prefix.drop_last(),
        single_line(prefix + v),
{
    let l = prefix + v;
    assert(l[0] == prefix[0]);
    assert(trim_start(l) == l);
    lemma_trim_end_after(prefix, v);
    let t = trim(l);
    assert(t == prefix + trim_end(v));
    assert(t[0] == prefix[0]);
    assert(t[prefix.len() - 1] == '=');
    lemma_find_char_unique(t, '=', prefix.len() - 1);
    assert(t.take(prefix.len() - 1) =~= prefix.drop_last());
    lemma_plain_trim(prefix.drop_last());
    assert forall|i: int| 0 <= i < l.len() implies l[i] != '\n' by {
        if i >= prefix.len() {
            assert(l[i] == v[i - prefix.len()]);
        }
    }
}

/// The settings file holding `language` and `theme`: each value written as
/// the reader keeps it reads back as written, whatever one-line value the
/// other key holds; a missing value reads back as missing.
pub proof fn law_ui_value_reads_back(language: Option<Seq<char>>, theme: Option<Seq<char>>)
    requires
        language is Some ==> single_line(language->0),
        theme is Some ==> single_line(theme->0),
    ensures
        (language is None || is_plain_value(language->0)) ==> ini_value(
            join_crlf(settings_lines(language, theme)),
            "ui"@,
            "language"@,
        ) == language,
        (theme is None || is_plain_value(theme->0)) ==> ini_value(
            join_crlf(settings_lines(language, theme)),
            "ui"@,
            "theme"@,
        ) == theme,
{
    reveal_strlit("; FastZIP user preferences");
    reveal_strlit("[ui]");
    reveal_strlit("ui");
    reveal_strlit("language=");
    reveal_strlit("theme=");
    reveal_strlit("language");
    reveal_strlit("theme");
    let ls = settings_lines(language, theme);
    let c = settings_comment();
    let h = "[ui]"@;
    lemma_plain_trim(c);
    lemma_plain_trim(h);
    assert(h.subrange(1, 3) =~= "ui"@);
    lemma_plain_trim("ui"@);
    let lk = "language"@;
    let tk = "theme"@;
    assert(("language="@).drop_last() =~= lk);
    assert(("theme="@).drop_last() =~= tk);
    assert(lower(lk) != lower(tk)) by {
        assert(lower(lk).len() != lower(tk).len());
    }
    if let Some(l) = language {
        lemma_any_entry_line("language="@, l);
        if is_plain_value(l) {
            lemma_entry_line("language="@, l);
        }
    }
    if let Some(t) = theme {
        lemma_any_entry_line("theme="@, t);
        if is_plain_value(t) {
            lemma_entry_line("theme="@, t);
        }
    }
    assert(forall|k: int| 0 <= k < ls.len() ==> single_line(#[trigger] ls[k])) by {
        assert forall|k: int| 0 <= k < ls.len() implies single_line(#[trigger] ls[k]) by {
            if k == 0 {
                assert(ls[k] == c);
            } else if k == 1 {
                assert(ls[k] == h);
            }
        }
    }
    lemma_lines_join_crlf(ls);
    let e = Seq::<char>::empty();
    let ui = "ui"@;
    let r0 = ls.drop_first();
    let r1 = r0.drop_first();
    assert(ls[0] == c);
    assert(r0[0] == h);
    assert(is_skippable(trim(c)));
    assert(section_header(trim(h)) == Some(ui));
    assert(ini_scan(ls, e, ui, lk) == ini_scan(r0, e, ui, lk));
    assert(ini_scan(r0, e, ui, lk) == ini_scan(r1, ui, ui, lk));
    assert(ini_scan(ls, e, ui, tk) == ini_scan(r0, e, ui, tk));
    assert(ini_scan(r0, e, ui, tk) == ini_scan(r1, ui, ui, tk));
    match language {
        Some(l) => {
            let r2 = r1.drop_first();
            let ll = "language="@ + l;
            assert(r1[0] == ll);
            assert(!is_entry_for(trim(ll), tk));
            assert(eq_ignore_case(ui, ui));
            if is_plain_value(l) {
                assert(trim(ll) == ll);
                assert(line_key(ll) == lk);
                assert(is_entry_for(ll, lk));
                assert(ini_scan(r1, ui, ui, lk) == Some(l));
                assert(ini_scan(ls, e, ui, lk) == Some(l));
                assert(ini_value(join_crlf(ls), ui, lk) == Some(l));
            }
            assert(ini_scan(r1, ui, ui, tk) == ini_scan(r2, ui, ui, tk));
            match theme {
                Some(t) => {
                    let tl = "theme="@ + t;
                    assert(r2[0] == tl);
                    assert(r2.drop_first().len() == 0);
                    if is_plain_value(t) {
                        assert(trim(tl) == tl);
                        assert(line_key(tl) == tk);
                        assert(is_entry_for(tl, tk));
                        assert(ini_scan(r2, ui, ui, tk) == Some(t));
                    }
                },
                None => {
                    assert(r2.len() == 0);
                },
            }
        },
        None => {
            match theme {
                Some(t) => {
                    let tl = "theme="@ + t;
                    assert(r1[0] == tl);
                    assert(!is_entry_for(trim(tl), lk));
                    assert(r1.drop_first().len() == 0);
                    assert(ini_scan(r1, ui, ui, lk) == ini_scan(r1.drop_first(), ui, ui, lk));
                    if is_plain_value(t) {
                        assert(trim(tl) == tl);
                        assert(line_key(tl) == tk);
                        assert(is_entry_for(tl, tk));
                        assert(ini_scan(r1, ui, ui, tk) == Some(t));
                    }
                },
                None => {
                    assert(r1.len() == 0);
                },
            }
        },
    }
}

/// Setting the language and reading the file back gives that language;
/// the theme reads as it did before where the reader keeps it as written
/// (or it was missing).
pub proof fn law_language_saved_theme_kept(user_file: Option<Seq<char>>, value: Seq<char>)
    requires
        is_plain_value(value),
    ensures
        ({
            let theme = ui_value(user_file, "theme"@);
            let new_file = join_crlf(settings_lines(Some(value), theme));
            &&& ini_value(new_file, "ui"@, "language"@) == Some(value)
            &&& (theme is None || is_plain_value(theme->0)) ==> ini_value(new_file, "ui"@, "theme"@)
                == theme
        }),
{
    lemma_ui_value_single(user_file, "theme"@);
    law_ui_value_reads_back(Some(value), ui_value(user_file, "theme"@));
}

/// Setting the theme and reading the file back gives that theme; the
/// language reads as it did before where the reader keeps it as written
/// (or it was missing).
pub proof fn law_theme_saved_language_kept(user_file: Option<Seq<char>>, value: Seq<char>)
    requires
        is_plain_value(value),
    ensures
        ({
            let language = ui_value(user_file, "language"@);
            let new_file = join_crlf(settings_lines(language, Some(value)));
            &&& ini_value(new_file, "ui"@, "theme"@) == Some(value)
            &&& (language is None || is_plain_value(language->0)) ==> ini_value(
                new_file,
                "ui"@,
                "language"@,
            ) == language
        }),
{
    lemma_ui_value_single(user_file, "language"@);
    law_ui_value_reads_back(ui_value(user_file, "language"@), Some(value));
}

// ---------------------------------------------------------------------
// Listing presets
// ---------------------------------------------------------------------

/// The keys (trimmed, not empty) of the `key=value` lines inside
/// `[presets]` sections of `ls`, in order.
pub open spec fn preset_keys(ls: Seq<Seq<char>>, in_p: bool) -> Seq<Seq<char>>
    decreases ls.len(),
{
    if ls.len() == 0 {
        Seq::empty()
    } else {
        let t = trim(ls[0]);
        let rest = ls.drop_first();
        if is_skippable(t) {
            preset_keys(rest, in_p)
        } else if section_header(t) is Some {
            preset_keys(rest, opens_presets(t))
        } else if in_p && find_char(t, '=') >= 0 && line_key(t).len() > 0 {
            seq![line_key(t)] + preset_keys(rest, in_p)
        } else {
            preset_keys(rest, in_p)
        }
    }
}

/// The preset keys of all files, file by file.
pub open spec fn all_preset_keys(files: Seq<Seq<char>>) -> Seq<Seq<char>>
    decreases files.len(),
{
    if files.len() == 0 {
        Seq::empty()
    } else {
        preset_keys(lines(files[0]), false) + all_preset_keys(files.drop_first())
    }
}

/// Strictly increasing.
pub open spec fn strictly_sorted(v: Seq<Seq<char>>) -> bool {
    forall|i: int, j: int| 0 <= i < j < v.len() ==> lex_lt(#[trigger] v[i], #[trigger] v[j])
}

/// The views of a list of buffers.
pub open spec fn buffers(v: Seq<Vec<char>>) -> Seq<Seq<char>> {
    v.map_values(|x: Vec<char>| x@)
}

/// Adds `x` to the strictly sorted list `v` unless it is there.
fn insert_sorted(v: &mut Vec<Vec<char>>, x: Vec<char>)
    requires
        strictly_sorted(buffers(old(v)@)),
    ensures
        strictly_sorted(buffers(final(v)@)),
        forall|y: Seq<char>| buffers(final(v)@).contains(y) <==> (buffers(old(v)@).contains(y) || y
            == x@),
{
    let ghost old_b = buffers(v@);
    let mut pos: usize = 0;
    while pos < v.len() && lex_less(v[pos].as_slice(), x.as_slice())
        invariant
            pos <= v@.len(),
            v@ == old(v)@,
            old_b == buffers(v@),
            strictly_sorted(old_b),
            forall|k: int| 0 <= k < pos ==> lex_lt(#[trigger] old_b[k], x@),
        decreases v@.len() - pos,
    {
        pos = pos + 1;
    }
    if pos < v.len() && chars_eq(v[pos].as_slice(), x.as_slice()) {
        proof {
            assert(old_b[pos as int] == x@);
        }
        return;
    }
    let ghost xv = x@;
    proof {
        if pos < old_b.len() {
            assert(!lex_lt(old_b[pos as int], xv));
            assert(old_b[pos as int] != xv);
            lemma_lex_total(old_b[pos as int], xv);
        }
    }
    v.insert(pos, x);
    proof {
        let nb = buffers(v@);
        assert(nb =~= old_b.insert(pos as int, xv));
        assert forall|i: int, j: int| 0 <= i < j < nb.len() implies lex_lt(
            #[trigger] nb[i],
            #[trigger] nb[j],
        ) by {
            if j < pos {
                assert(nb[i] == old_b[i] && nb[j] == old_b[j]);
            } else if j == pos {
                assert(nb[i] == old_b[i]);
            } else if i == pos {
                assert(nb[j] == old_b[j - 1]);
                if j - 1 > pos {
                    lemma_lex_transitive(xv, old_b[pos as int], old_b[j - 1]);
                }
            } else if i < pos {
                assert(nb[i] == old_b[i] && nb[j] == old_b[j - 1]);
                lemma_lex_transitive(old_b[i], xv, old_b[pos as int]);
                if j - 1 > pos {
                    lemma_lex_transitive(old_b[i], old_b[pos as int], old_b[j - 1]);
                }
            } else {
                assert(nb[i] == old_b[i - 1] && nb[j] == old_b[j - 1]);
            }
        }
        assert forall|y: Seq<char>| nb.contains(y) <==> (old_b.contains(y) || y == xv) by {
            if nb.contains(y) {
                let k = choose|k: int| 0 <= k < nb.len() && nb[k] == y;
                if k < pos {
                    assert(old_b[k] == y);
                } else if k > pos {
                    assert(old_b[k - 1] == y);
                }
            }
            if old_b.contains(y) {
                let k = choose|k: int| 0 <= k < old_b.len() && old_b[k] == y;
                if k < pos {
                    assert(nb[k] == y);
                } else {
                    assert(nb[k + 1] == y);
                }
            }
            if y == xv {
                assert(nb[pos as int] == y);
            }
        }
    }
}

/// The preset keys of one file's lines, added to `names`.
fn collect_preset_keys(names: &mut Vec<Vec<char>>, contents: &str)
    requires
        strictly_sorted(buffers(old(names)@)),
    ensures
        strictly_sorted(buffers(final(names)@)),
        forall|y: Seq<char>| buffers(final(names)@).contains(y) <==> (buffers(old(names)@).contains(y)
            || preset_keys(lines(contents@), false).contains(y)),
{
    let cs = chars_of(contents);
    let raw_lines = lines_of(cs.as_slice());
    let ghost ls = lines(contents@);
    let ghost start = buffers(names@);
    let mut in_presets = false;
    let mut i: usize = 0;
    proof {
        assert(ls.skip(0) =~= ls);
    }
    while i < raw_lines.len()
        invariant
            i <= raw_lines@.len(),
            raw_lines@.len() == ls.len(),
            forall|k: int| 0 <= k < raw_lines@.len() ==> #[trigger] raw_lines@[k]@ == ls[k],
            strictly_sorted(buffers(names@)),
            forall|y: Seq<char>|
                (buffers(names@).contains(y) || preset_keys(ls.skip(i as int), in_presets).contains(
                    y,
                )) <==> (start.contains(y) || preset_keys(ls, false).contains(y)),
        decreases raw_lines@.len() - i,
    {
        let raw = &raw_lines[i];
        let ghost rest = ls.skip(i as int);
        let ghost p0 = in_presets;
        let ghost before = buffers(names@);
        proof {
            assert(rest[0] == raw@);
            assert(rest.drop_first() =~= ls.skip(i + 1));
            assert forall|y: Seq<char>|
                (before.contains(y) || preset_keys(rest, p0).contains(y)) <==> (start.contains(y)
                    || preset_keys(ls, false).contains(y)) by {}
        }
        let t = trimmed(raw.as_slice());
        let ghost mut key_added: Option<Seq<char>> = None;
        if t.len() == 0 || t[0] == ';' || t[0] == '#' {
        } else {
            proof {
                assert(t@.subrange(0, t@.len() as int) =~= t@);
            }
            match header_bounds(t.as_slice(), 0, t.len()) {
                Some(_) => {
                    in_presets = opens_presets_exec(t.as_slice());
                },
                None => {
                    if in_presets {
                        match find_char_from(t.as_slice(), '=', 0) {
                            Some(p) => {
                                proof {
                                    lemma_find_char_unique(t@, '=', p as int);
                                }
                                let (x, y) = trim_range(t.as_slice(), 0, p);
                                proof {
                                    assert(t@.subrange(0, p as int) =~= t@.take(p as int));
                                }
                                if x < y {
                                    let key = sub_chars(t.as_slice(), x, y);
                                    proof {
                                        key_added = Some(key@);
                                    }
                                    insert_sorted(names, key);
                                }
                            },
                            None => {
                                proof {
                                    assert(t@.skip(0) =~= t@);
                                    lemma_find_char_none(t@, '=');
                                }
                            },
                        }
                    }
                },
            }
        }
        proof {
            let nk = preset_keys(ls.skip(i + 1), in_presets);
            let ok = preset_keys(rest, p0);
            match key_added {
                Some(k) => {
                    assert(ok =~= seq![k] + nk);
                    assert forall|y: Seq<char>| ok.contains(y) <==> (y == k || nk.contains(y)) by {
                        if ok.contains(y) && y != k {
                            let j = choose|j: int| 0 <= j < ok.len() && ok[j] == y;
                            assert(nk[j - 1] == y);
                        }
                        if nk.contains(y) {
                            let j = choose|j: int| 0 <= j < nk.len() && nk[j] == y;
                            assert(ok[j + 1] == y);
                        }
                        if y == k {
                            assert(ok[0] == y);
                        }
                    }
                },
                None => {
                    assert(ok =~= nk);
                },
            }
            assert forall|y: Seq<char>|
                (buffers(names@).contains(y) || nk.contains(y)) <==> (before.contains(y)
                    || ok.contains(y)) by {
                match key_added {
                    Some(k) => {},
                    None => {},
                }
            }
            assert forall|y: Seq<char>|
                (buffers(names@).contains(y) || preset_keys(ls.skip(i + 1), in_presets).contains(y))
                    <==> (start.contains(y) || preset_keys(ls, false).contains(y)) by {
                assert((buffers(names@).contains(y) || nk.contains(y)) <==> (before.contains(y)
                    || ok.contains(y)));
                assert((before.contains(y) || preset_keys(rest, p0).contains(y)) <==> (start.contains(
                    y,
                ) || preset_keys(ls, false).contains(y)));
            }
        }
        i = i + 1;
    }
    proof {
        assert(ls.skip(raw_lines@.len() as int) =~= Seq::<Seq<char>>::empty());
    }
}

/// The names of all saved presets over the settings files (texts in
/// search order): the keys inside `[presets]` sections, each once, in
/// increasing order.
pub fn list_preset_names(files: &[String]) -> (r: Vec<String>)
    ensures
        strictly_sorted(r@.map_values(|s: String| s@)),
        forall|y: Seq<char>| r@.map_values(|s: String| s@).contains(y) <==> all_preset_keys(
            texts(files@),
        ).contains(y),
        forall|k: int| 0 <= k < r@.len() ==> #[trigger] r@[k]@.len() > 0,
{
    let mut names: Vec<Vec<char>> = Vec::new();
    let mut i: usize = 0;
    proof {
        assert(texts(files@).skip(0) =~= texts(files@));
    }
    while i < files.len()
        invariant
            i <= files@.len(),
            strictly_sorted(buffers(names@)),
            forall|y: Seq<char>|
                (buffers(names@).contains(y) || all_preset_keys(texts(files@).skip(i as int)).contains(
                    y,
                )) <==> #[trigger] all_preset_keys(texts(files@)).contains(y),
        decreases files@.len() - i,
    {
        let ghost rest = texts(files@).skip(i as int);
        let ghost before = buffers(names@);
        proof {
            assert forall|y: Seq<char>|
                (before.contains(y) || all_preset_keys(rest).contains(y)) <==> all_preset_keys(
                    texts(files@),
                ).contains(y) by {}
            assert(rest[0] == files@[i as int]@);
            assert(rest.drop_first() =~= texts(files@).skip(i + 1));
            let a = preset_keys(lines(rest[0]), false);
            let b = all_preset_keys(rest.drop_first());
            assert(all_preset_keys(rest) == a + b);
            assert forall|y: Seq<char>| (a + b).contains(y) <==> (a.contains(y) || b.contains(y)) by {
                if (a + b).contains(y) {
                    let j = choose|j: int| 0 <= j < (a + b).len() && (a + b)[j] == y;
                    if j >= a.len() {
                        assert(b[j - a.len()] == y);
                    }
                }
                if a.contains(y) {
                    let j = choose|j: int| 0 <= j < a.len() && a[j] == y;
                    assert((a + b)[j] == y);
                }
                if b.contains(y) {
                    let j = choose|j: int| 0 <= j < b.len() && b[j] == y;
                    assert((a + b)[j + a.len()] == y);
                }
            }
        }
        collect_preset_keys(&mut names, files[i].as_str());
        proof {
            let a = preset_keys(lines(rest[0]), false);
            let b = all_preset_keys(rest.drop_first());
            assert forall|y: Seq<char>|
                (buffers(names@).contains(y) || all_preset_keys(texts(files@).skip(i + 1)).contains(
                    y,
                )) <==> all_preset_keys(texts(files@)).contains(y) by {
                assert(buffers(names@).contains(y) <==> (before.contains(y) || a.contains(y)));
                assert(all_preset_keys(rest).contains(y) <==> (a.contains(y) || b.contains(y)));
                assert((before.contains(y) || all_preset_keys(rest).contains(y))
                    <==> all_preset_keys(texts(files@)).contains(y));
            }
        }
        i = i + 1;
    }
    proof {
        assert(texts(files@).skip(files@.len() as int) =~= Seq::<Seq<char>>::empty());
    }
    let mut out: Vec<String> = Vec::new();
    let mut k: usize = 0;
    while k < names.len()
        invariant
            k <= names@.len(),
            out@.len() == k,
            forall|j: int| 0 <= j < k ==> #[trigger] out@[j]@ == names@[j]@,
        decreases names@.len() - k,
    {
        out.push(string_of(names[k].as_slice()));
        k = k + 1;
    }
    proof {
        let v = out@.map_values(|s: String| s@);
        assert(v =~= buffers(names@));
        lemma_all_preset_keys_nonempty(texts(files@));
        assert forall|k: int| 0 <= k < out@.len() implies #[trigger] out@[k]@.len() > 0 by {
            assert(v[k] == out@[k]@);
            let all = all_preset_keys(texts(files@));
            assert(buffers(names@).contains(v[k]));
            assert(all_preset_keys(texts(files@).skip(files@.len() as int)).len() == 0);
            assert(all.contains(v[k]));
            let j = choose|j: int| 0 <= j < all.len() && all[j] == v[k];
            assert(all[j].len() > 0);
        }
    }
    out
}

proof fn lemma_preset_keys_nonempty(ls: Seq<Seq<char>>, in_p: bool)
    ensures
        forall|k: int| 0 <= k < preset_keys(ls, in_p).len() ==> #[trigger] preset_keys(ls, in_p)[k].len() > 0,
    decreases ls.len(),
{
    if ls.len() > 0 {
        let t = trim(ls[0]);
        let rest = ls.drop_first();
        lemma_preset_keys_nonempty(rest, in_p);
        lemma_preset_keys_nonempty(rest, opens_presets(t));
        let whole = preset_keys(ls, in_p);
        if is_skippable(t) {
            assert(whole == preset_keys(rest, in_p));
        } else if section_header(t) is Some {
            assert(whole == preset_keys(rest, opens_presets(t)));
        } else if in_p && find_char(t, '=') >= 0 && line_key(t).len() > 0 {
            let r = preset_keys(rest, in_p);
            assert(whole == seq![line_key(t)] + r);
            assert forall|k: int| 0 <= k < whole.len() implies #[trigger] whole[k].len() > 0 by {
                if k > 0 {
                    assert(whole[k] == r[k - 1]);
                }
            }
        } else {
            assert(whole == preset_keys(rest, in_p));
        }
    }
}

proof fn lemma_all_preset_keys_nonempty(files: Seq<Seq<char>>)
    ensures
        forall|k: int| 0 <= k < all_preset_keys(files).len() ==> #[trigger] all_preset_keys(files)[k].len() > 0,
    decreases files.len(),
{
    if files.len() > 0 {
        let a = preset_keys(lines(files[0]), false);
        let b = all_preset_keys(files.drop_first());
        lemma_preset_keys_nonempty(lines(files[0]), false);
        lemma_all_preset_keys_nonempty(files.drop_first());
        assert forall|k: int| 0 <= k < (a + b).len() implies #[trigger] (a + b)[k].len() > 0 by {
            if k >= a.len() {
                assert((a + b)[k] == b[k - a.len()]);
            } else {
                assert((a + b)[k] == a[k]);
            }
        }
    }
}


// ---------------------------------------------------------------------
// Where settings live
// ---------------------------------------------------------------------

/// The settings file under a data directory: `root/FastZIP/settings.ini`.
pub open spec fn settings_file_under(root: Seq<char>) -> Seq<char> {
    joined(joined(root, "FastZIP"@), "settings.ini"@)
}

/// The settings file under a data directory, where the directory is known.
pub fn user_settings_path(local_app_data: Option<&str>) -> (r: Option<String>)
    ensures
        match local_app_data {
            Some(root) => r is Some && r->0@ == settings_file_under(root@),
            None => r is None,
        },
{
    match local_app_data {
        Some(root) => {
            let dir = path_join(root, "FastZIP");
            Some(path_join(dir.as_str(), "settings.ini"))
        },
        None => None,
    }
}

/// The machine-wide settings file, where the shared data directory is
/// known.
pub fn common_settings_path(program_data: Option<&str>) -> (r: Option<String>)
    ensures
        match program_data {
            Some(root) => r is Some && r->0@ == settings_file_under(root@),
            None => r is None,
        },
{
    user_settings_path(program_data)
}

/// The settings files read, in order: the user's (under `LOCALAPPDATA`),
/// then the machine's (under `PROGRAMDATA`) unless it is the same path.
pub open spec fn search_paths(local: Option<Seq<char>>, common: Option<Seq<char>>) -> Seq<Seq<char>> {
    let user: Seq<Seq<char>> = match local {
        Some(root) => seq![settings_file_under(root)],
        None => Seq::empty(),
    };
    match common {
        Some(root) => if user.len() == 1 && same_path(user[0], settings_file_under(root)) {
            user
        } else {
            user.push(settings_file_under(root))
        },
        None => user,
    }
}

/// The settings files read, in order, from the values of `LOCALAPPDATA`
/// and `PROGRAMDATA`.
pub fn settings_search_paths(local_app_data: Option<&str>, program_data: Option<&str>) -> (r: Vec<String>)
    ensures
        r@.map_values(|s: String| s@) == search_paths(
            match local_app_data {
                Some(x) => Some(x@),
                None => None,
            },
            match program_data {
                Some(x) => Some(x@),
                None => None,
            },
        ),
{
    let mut paths: Vec<String> = Vec::new();
    if let Some(path) = user_settings_path(local_app_data) {
        paths.push(path);
    }
    if let Some(path) = common_settings_path(program_data) {
        let dup = paths.len() == 1 && path_eq(paths[0].as_str(), path.as_str());
        if !dup {
            paths.push(path);
        }
    }
    assert(paths@.map_values(|s: String| s@) =~= search_paths(
        match local_app_data {
            Some(x) => Some(x@),
            None => None,
        },
        match program_data {
            Some(x) => Some(x@),
            None => None,
        },
    ));
    paths
}

/// Whether FastZIP starts with the session: it never does on this
/// platform.
pub fn load_autostart_enabled() -> (r: Result<bool, String>)
    ensures
        r == Ok::<bool, String>(false),
{
    Ok(false)
}

/// Turning start-with-the-session on or off: not supported on this
/// platform, which the error says.
pub fn save_autostart_enabled(executable_path: &str, enabled: bool) -> (r: Result<(), String>)
    ensures
        r is Err && r->Err_0@ == "Autostart is not supported on this platform"@,
{
    Err("Autostart is not supported on this platform".to_string())
}

} // verus!
