//! Interface languages: the supported locales, reading locale codes, the
//! current locale and translated messages.

use vstd::prelude::*;

use crate::text::{
    chars_eq, chars_eq_str, chars_of, eq_ignore_ascii_case_str, eq_ignore_case, find_char_from,
    is_white, lemma_find_char_none, lemma_find_char_unique, lemma_trim_map, lemma_trim_shape,
    lemma_trim_unchanged, lines, lines_of, lower, lower_chars, string_of, sub_chars, trim, trimmed,
    find_char, ascii_lower,
};

verus! {

/// A supported interface language.
#[derive(Debug, Clone, Copy, PartialEq, Eq)]
pub struct AppLocale {
    pub code: &'static str,
    pub display_name: &'static str,
}

/// The codes of the supported locales, in order.
pub open spec fn locale_codes() -> Seq<Seq<char>> {
    seq![
        "en"@,
        "zh-CN"@,
        "ja"@,
        "ko"@,
        "fr"@,
        "de"@,
        "es"@,
        "it"@,
        "pt-BR"@,
        "ru"@,
        "ar"@,
        "tr"@,
    ]
}

/// The names the supported locales are shown with, in order.
pub open spec fn locale_names() -> Seq<Seq<char>> {
    seq![
        "English"@,
        "简体中文"@,
        "日本語"@,
        "한국어"@,
        "Français"@,
        "Deutsch"@,
        "Español"@,
        "Italiano"@,
        "Português (Brasil)"@,
        "Русский"@,
        "العربية"@,
        "Türkçe"@,
    ]
}

/// `l` is the `i`-th supported locale.
pub open spec fn is_locale(l: AppLocale, i: int) -> bool {
    0 <= i < 12 && l.code@ == locale_codes()[i] && l.display_name@ == locale_names()[i]
}

/// The `i`-th supported locale.
fn locale_at(i: usize) -> (r: AppLocale)
    requires
        i < 12,
    ensures
        is_locale(r, i as int),
{
    match i {
        0 => AppLocale { code: "en", display_name: "English" },
        1 => AppLocale { code: "zh-CN", display_name: "简体中文" },
        2 => AppLocale { code: "ja", display_name: "日本語" },
        3 => AppLocale { code: "ko", display_name: "한국어" },
        4 => AppLocale { code: "fr", display_name: "Français" },
        5 => AppLocale { code: "de", display_name: "Deutsch" },
        6 => AppLocale { code: "es", display_name: "Español" },
        7 => AppLocale { code: "it", display_name: "Italiano" },
        8 => AppLocale { code: "pt-BR", display_name: "Português (Brasil)" },
        9 => AppLocale { code: "ru", display_name: "Русский" },
        10 => AppLocale { code: "ar", display_name: "العربية" },
        _ => AppLocale { code: "tr", display_name: "Türkçe" },
    }
}

/// The supported locales, English first and Simplified Chinese second.
pub fn supported_locales() -> (r: Vec<AppLocale>)
    ensures
        r@.len() == 12,
        forall|i: int| 0 <= i < 12 ==> is_locale(#[trigger] r@[i], i),
{
    let mut r: Vec<AppLocale> = Vec::new();
    let mut i: usize = 0;
    while i < 12
        invariant
            i <= 12,
            r@.len() == i,
            forall|k: int| 0 <= k < i ==> is_locale(#[trigger] r@[k], k),
        decreases 12 - i,
    {
        r.push(locale_at(i));
        i = i + 1;
    }
    r
}

pub fn english_locale() -> (r: AppLocale)
    ensures
        is_locale(r, 0),
{
    locale_at(0)
}

pub fn chinese_locale() -> (r: AppLocale)
    ensures
        is_locale(r, 1),
{
    locale_at(1)
}

/// The locale is Simplified Chinese (code compared without ASCII case).
pub open spec fn chinese_code(code: Seq<char>) -> bool {
    eq_ignore_case(code, "zh-CN"@)
}

pub fn locale_is_chinese(locale: &AppLocale) -> (r: bool)
    ensures
        r == chinese_code(locale.code@),
{
    let c = chars_of(locale.code);
    eq_ignore_ascii_case_str(c.as_slice(), "zh-CN")
}

// ---------------------------------------------------------------------
// Reading locale codes
// ---------------------------------------------------------------------

/// `'_'` read as `'-'`.
pub open spec fn dash(c: char) -> char {
    if c == '_' {
        '-'
    } else {
        c
    }
}

/// A locale code as it is compared: trimmed, `_` read as `-`, ASCII
/// lower-cased.
pub open spec fn normalized_code(v: Seq<char>) -> Seq<char> {
    lower(trim(v).map_values(|c: char| dash(c)))
}

fn normalize_locale_code(value: &str) -> (r: Vec<char>)
    ensures
        r@ == normalized_code(value@),
{
    let t = trimmed(chars_of(value).as_slice());
    let mut d: Vec<char> = Vec::new();
    let mut i: usize = 0;
    while i < t.len()
        invariant
            i <= t@.len(),
            d@ == t@.take(i as int).map_values(|c: char| dash(c)),
        decreases t@.len() - i,
    {
        let c = t[i];
        d.push(if c == '_' { '-' } else { c });
        i = i + 1;
        proof {
            assert(d@ =~= t@.take(i as int).map_values(|c: char| dash(c)));
        }
    }
    proof {
        assert(t@.take(t@.len() as int) =~= t@);
    }
    lower_chars(d.as_slice())
}

/// Which supported locale a normalized code (or one of its regional
/// forms) names.
pub open spec fn code_index(n: Seq<char>) -> Option<int> {
    if n == "en"@ || n == "en-us"@ || n == "en-gb"@ {
        Some(0)
    } else if n == "zh"@ || n == "zh-cn"@ || n == "zh-hans"@ || n == "zh-sg"@ || n
        == "zh-hans-cn"@ {
        Some(1)
    } else if n == "ja"@ || n == "ja-jp"@ {
        Some(2)
    } else if n == "ko"@ || n == "ko-kr"@ {
        Some(3)
    } else if n == "fr"@ || n == "fr-fr"@ {
        Some(4)
    } else if n == "de"@ || n == "de-de"@ {
        Some(5)
    } else if n == "es"@ || n == "es-es"@ || n == "es-419"@ || n == "es-mx"@ {
        Some(6)
    } else if n == "it"@ || n == "it-it"@ {
        Some(7)
    } else if n == "pt"@ || n == "pt-br"@ {
        Some(8)
    } else if n == "ru"@ || n == "ru-ru"@ {
        Some(9)
    } else if n == "ar"@ || n == "ar-sa"@ || n == "ar-eg"@ {
        Some(10)
    } else if n == "tr"@ || n == "tr-tr"@ {
        Some(11)
    } else {
        None
    }
}

/// The supported locale a code names, if any.
pub open spec fn locale_index_for(v: Seq<char>) -> Option<int> {
    code_index(normalized_code(v))
}

fn is_one_of(n: &[char], a: &str, b: &str, c: &str, d: &str, e: &str) -> (r: bool)
    ensures
        r == (n@ == a@ || n@ == b@ || n@ == c@ || n@ == d@ || n@ == e@),
{
    chars_eq_str(n, a) || chars_eq_str(n, b) || chars_eq_str(n, c) || chars_eq_str(n, d)
        || chars_eq_str(n, e)
}

fn code_index_exec(n: &[char]) -> (r: Option<usize>)
    ensures
        match r {
            Some(i) => code_index(n@) == Some(i as int) && i < 12,
            None => code_index(n@) is None,
        },
{
    if is_one_of(n, "en", "en-us", "en-gb", "en", "en") {
        Some(0)
    } else if is_one_of(n, "zh", "zh-cn", "zh-hans", "zh-sg", "zh-hans-cn") {
        Some(1)
    } else if is_one_of(n, "ja", "ja-jp", "ja", "ja", "ja") {
        Some(2)
    } else if is_one_of(n, "ko", "ko-kr", "ko", "ko", "ko") {
        Some(3)
    } else if is_one_of(n, "fr", "fr-fr", "fr", "fr", "fr") {
        Some(4)
    } else if is_one_of(n, "de", "de-de", "de", "de", "de") {
        Some(5)
    } else if is_one_of(n, "es", "es-es", "es-419", "es-mx", "es") {
        Some(6)
    } else if is_one_of(n, "it", "it-it", "it", "it", "it") {
        Some(7)
    } else if is_one_of(n, "pt", "pt-br", "pt", "pt", "pt") {
        Some(8)
    } else if is_one_of(n, "ru", "ru-ru", "ru", "ru", "ru") {
        Some(9)
    } else if is_one_of(n, "ar", "ar-sa", "ar-eg", "ar", "ar") {
        Some(10)
    } else if is_one_of(n, "tr", "tr-tr", "tr", "tr", "tr") {
        Some(11)
    } else {
        None
    }
}

/// The supported locale a code such as `zh_CN`, `en-US` or ` ja ` names:
/// the code is trimmed, `_` is read as `-` and ASCII case is ignored.
pub fn locale_for_code(value: &str) -> (r: Option<AppLocale>)
    ensures
        match r {
            Some(l) => locale_index_for(value@) is Some && is_locale(
                l,
                locale_index_for(value@)->0,
            ),
            None => locale_index_for(value@) is None,
        },
{
    let n = normalize_locale_code(value);
    match code_index_exec(n.as_slice()) {
        Some(i) => Some(locale_at(i)),
        None => None,
    }
}

// ---------------------------------------------------------------------
// Choosing the locale at start-up
// ---------------------------------------------------------------------

/// The locale a Windows UI language identifier stands for (by its primary
/// language, the low ten bits); English for the others.
pub open spec fn windows_language_index(lang_id: u16) -> int {
    let primary = (lang_id as int) % 1024;
    if primary == 0x01 {
        10
    } else if primary == 0x04 {
        1
    } else if primary == 0x07 {
        5
    } else if primary == 0x09 {
        0
    } else if primary == 0x0A {
        6
    } else if primary == 0x0C {
        4
    } else if primary == 0x10 {
        7
    } else if primary == 0x11 {
        2
    } else if primary == 0x12 {
        3
    } else if primary == 0x16 {
        8
    } else if primary == 0x19 {
        9
    } else if primary == 0x1F {
        11
    } else {
        0
    }
}

/// The first of `candidates` that names a supported locale.
pub open spec fn first_known(candidates: Seq<Option<Seq<char>>>) -> Option<int>
    decreases candidates.len(),
{
    if candidates.len() == 0 {
        None
    } else {
        match candidates[0] {
            Some(v) if locale_index_for(v) is Some => locale_index_for(v),
            _ => first_known(candidates.drop_first()),
        }
    }
}

/// The views of optional strings.
pub open spec fn opt_views(v: Seq<Option<String>>) -> Seq<Option<Seq<char>>> {
    v.map_values(
        |o: Option<String>|
            match o {
                Some(s) => Some(s@),
                None => None,
            },
    )
}

/// The locale to start with, from what the environment offers, in order
/// of precedence: `candidates` (the `FASTZIP_LANG` variable, the saved
/// language, then `LC_ALL`, `LC_MESSAGES` and `LANG`), then the Windows
/// UI language when there is one, else English.
pub fn detect_app_locale(candidates: &[Option<String>], windows_ui_language: Option<u16>) -> (r:
    AppLocale)
    ensures
        is_locale(
            r,
            match first_known(opt_views(candidates@)) {
                Some(i) => i,
                None => match windows_ui_language {
                    Some(id) => windows_language_index(id),
                    None => 0,
                },
            },
        ),
{
    let mut i: usize = 0;
    proof {
        assert(opt_views(candidates@).skip(0) =~= opt_views(candidates@));
    }
    while i < candidates.len()
        invariant
            i <= candidates@.len(),
            first_known(opt_views(candidates@)) == first_known(
                opt_views(candidates@).skip(i as int),
            ),
        decreases candidates@.len() - i,
    {
        let ghost rest = opt_views(candidates@).skip(i as int);
        proof {
            assert(rest.drop_first() =~= opt_views(candidates@).skip(i + 1));
            assert(rest[0] == match candidates@[i as int] {
                Some(s) => Some(s@),
                None => None,
            });
        }
        match &candidates[i] {
            Some(v) => match locale_for_code(v.as_str()) {
                Some(l) => return l,
                None => {},
            },
            None => {},
        }
        i = i + 1;
    }
    match windows_ui_language {
        Some(id) => {
            let primary = id & 0x03ff;
            proof {
                assert(primary == (id as int) % 1024) by (bit_vector)
                    requires
                        primary == id & 0x03ff,
                ;
            }
            let k: usize = if primary == 0x0001 {
                10
            } else if primary == 0x0004 {
                1
            } else if primary == 0x0007 {
                5
            } else if primary == 0x0009 {
                0
            } else if primary == 0x000A {
                6
            } else if primary == 0x000C {
                4
            } else if primary == 0x0010 {
                7
            } else if primary == 0x0011 {
                2
            } else if primary == 0x0012 {
                3
            } else if primary == 0x0016 {
                8
            } else if primary == 0x0019 {
                9
            } else if primary == 0x001F {
                11
            } else {
                0
            };
            locale_at(k)
        },
        None => english_locale(),
    }
}

// ---------------------------------------------------------------------
// Message catalogs
// ---------------------------------------------------------------------

/// The translations of one locale: `(english, translation)` pairs in the
/// order of the catalog file; a later pair for the same text wins.
pub struct Catalog {
    pub code: String,
    pub entries: Vec<(String, String)>,
}

/// The pairs of a catalog as texts.
pub open spec fn pairs_view(v: Seq<(String, String)>) -> Seq<(Seq<char>, Seq<char>)> {
    v.map_values(|p: (String, String)| (p.0@, p.1@))
}

/// The `(msgid, translation)` pairs of a catalog file's lines: each line
/// is trimmed, blank lines and `#` comments are skipped, and a line is
/// split at its first tab (lines without one are skipped).
pub open spec fn catalog_pairs(ls: Seq<Seq<char>>) -> Seq<(Seq<char>, Seq<char>)>
    decreases ls.len(),
{
    if ls.len() == 0 {
        Seq::empty()
    } else {
        let t = trim(ls[0]);
        let rest = catalog_pairs(ls.drop_first());
        if t.len() == 0 || t[0] == '#' || find_char(t, '\t') < 0 {
            rest
        } else {
            let p = find_char(t, '\t');
            seq![(t.take(p), t.skip(p + 1))] + rest
        }
    }
}

/// The translation of `english` in a list of pairs: the last pair for it.
pub open spec fn lookup_pairs(pairs: Seq<(Seq<char>, Seq<char>)>, english: Seq<char>) -> Option<
    Seq<char>,
>
    decreases pairs.len(),
{
    if pairs.len() == 0 {
        None
    } else if pairs.last().0 == english {
        Some(pairs.last().1)
    } else {
        lookup_pairs(pairs.drop_last(), english)
    }
}

/// Reads a catalog file: `english<TAB>translation` lines.
pub fn parse_catalog(contents: &str) -> (r: Vec<(String, String)>)
    ensures
        pairs_view(r@) == catalog_pairs(lines(contents@)),
{
    let cs = chars_of(contents);
    let raw_lines = lines_of(cs.as_slice());
    let ghost ls = lines(contents@);
    let mut out: Vec<(String, String)> = Vec::new();
    let mut i: usize = 0;
    proof {
        assert(ls.skip(0) =~= ls);
    }
    while i < raw_lines.len()
        invariant
            i <= raw_lines@.len(),
            raw_lines@.len() == ls.len(),
            forall|k: int| 0 <= k < raw_lines@.len() ==> #[trigger] raw_lines@[k]@ == ls[k],
            catalog_pairs(ls) == pairs_view(out@) + catalog_pairs(ls.skip(i as int)),
        decreases raw_lines@.len() - i,
    {
        let ghost rest = ls.skip(i as int);
        proof {
            assert(rest[0] == raw_lines@[i as int]@);
            assert(rest.drop_first() =~= ls.skip(i + 1));
        }
        let t = trimmed(raw_lines[i].as_slice());
        if t.len() > 0 && t[0] != '#' {
            match find_char_from(t.as_slice(), '\t', 0) {
                Some(p) => {
                    proof {
                        lemma_find_char_unique(t@, '\t', p as int);
                    }
                    let id = sub_chars(t.as_slice(), 0, p);
                    let tr = sub_chars(t.as_slice(), p + 1, t.len());
                    let ghost old_out = pairs_view(out@);
                    out.push((string_of(id.as_slice()), string_of(tr.as_slice())));
                    proof {
                        assert(t@.subrange(0, p as int) =~= t@.take(p as int));
                        assert(t@.subrange(p + 1, t@.len() as int) =~= t@.skip(p + 1));
                        assert(pairs_view(out@) =~= old_out.push((t@.take(p as int), t@.skip(p + 1))));
                    }
                },
                None => {
                    proof {
                        assert(t@.skip(0) =~= t@);
                        lemma_find_char_none(t@, '\t');
                    }
                },
            }
        }
        i = i + 1;
    }
    proof {
        assert(ls.skip(raw_lines@.len() as int) =~= Seq::<Seq<char>>::empty());
    }
    out
}

/// The codes that have a catalog of translations.
pub open spec fn catalog_code(n: Seq<char>) -> bool {
    n == "ja"@ || n == "ko"@ || n == "fr"@ || n == "de"@ || n == "es"@ || n == "it"@ || n
        == "pt-br"@ || n == "ru"@ || n == "ar"@ || n == "tr"@
}

// ---------------------------------------------------------------------
// The current locale
// ---------------------------------------------------------------------

/// The interface language in force and the catalogs of translations.
pub struct LocaleState {
    current: AppLocale,
    catalogs: Vec<Catalog>,
}

impl LocaleState {
    /// The locale in force.
    pub closed spec fn locale(&self) -> AppLocale {
        self.current
    }

    /// The registered catalogs as `(code, pairs)`.
    pub closed spec fn catalog_list(&self) -> Seq<(Seq<char>, Seq<(Seq<char>, Seq<char>)>)> {
        self.catalogs@.map_values(|c: Catalog| (c.code@, pairs_view(c.entries@)))
    }

    /// A state with `locale` in force and no catalogs.
    pub fn new(locale: AppLocale) -> (r: LocaleState)
        ensures
            r.locale() == locale,
            r.catalog_list().len() == 0,
    {
        let r = LocaleState { current: locale, catalogs: Vec::new() };
        proof {
            assert(r.catalog_list() =~= Seq::<(Seq<char>, Seq<(Seq<char>, Seq<char>)>)>::empty());
        }
        r
    }

    /// Registers the catalog file `contents` for the locale `code`.
    pub fn add_catalog(&mut self, code: &str, contents: &str)
        ensures
            final(self).locale() == old(self).locale(),
            final(self).catalog_list() == old(self).catalog_list().push(
                (normalized_code(code@), catalog_pairs(lines(contents@))),
            ),
    {
        let entries = parse_catalog(contents);
        let n = normalize_locale_code(code);
        let c = Catalog { code: string_of(n.as_slice()), entries };
        let ghost before = self.catalog_list();
        self.catalogs.push(c);
        proof {
            assert(self.catalog_list() =~= before.push(
                (normalized_code(code@), catalog_pairs(lines(contents@))),
            ));
        }
    }
}

/// The first registered catalog for code `n`.
pub open spec fn catalog_index(list: Seq<(Seq<char>, Seq<(Seq<char>, Seq<char>)>)>, n: Seq<char>, k: int) -> Option<int>
    decreases list.len() - k,
{
    if k < 0 || k >= list.len() {
        None
    } else if list[k].0 == n {
        Some(k)
    } else {
        catalog_index(list, n, k + 1)
    }
}

/// The translation of `english` for `locale_code` in the registered
/// catalogs: only the codes that have catalogs are looked up.
pub open spec fn translation(st: LocaleState, locale_code: Seq<char>, english: Seq<char>) -> Option<
    Seq<char>,
> {
    let n = normalized_code(locale_code);
    if !catalog_code(n) {
        None
    } else {
        match catalog_index(st.catalog_list(), n, 0) {
            Some(k) => lookup_pairs(st.catalog_list()[k].1, english),
            None => None,
        }
    }
}

/// The text shown for a message given in English and Chinese, in the
/// current locale: Chinese for Simplified Chinese, English for English,
/// otherwise the catalog's translation of the English text, or the
/// English text itself.
pub open spec fn localized(st: LocaleState, english: Seq<char>, chinese: Seq<char>) -> Seq<char> {
    let code = st.locale().code@;
    if chinese_code(code) {
        chinese
    } else if eq_ignore_case(code, "en"@) {
        english
    } else {
        match translation(st, code, english) {
            Some(t) => t,
            None => english,
        }
    }
}

pub fn current_locale(state: &LocaleState) -> (r: AppLocale)
    ensures
        r == state.locale(),
{
    state.current
}

pub fn set_current_locale(state: &mut LocaleState, locale: AppLocale)
    ensures
        final(state).locale() == locale,
        final(state).catalog_list() == old(state).catalog_list(),
{
    state.current = locale;
}

/// Switches to the locale a code names, or to English when it names
/// none; returns the locale now in force.
pub fn set_current_locale_by_code(state: &mut LocaleState, value: &str) -> (r: AppLocale)
    ensures
        r == final(state).locale(),
        final(state).catalog_list() == old(state).catalog_list(),
        is_locale(
            r,
            match locale_index_for(value@) {
                Some(i) => i,
                None => 0,
            },
        ),
{
    let locale = match locale_for_code(value) {
        Some(l) => l,
        None => english_locale(),
    };
    set_current_locale(state, locale);
    locale
}

fn catalog_for(state: &LocaleState, locale_code: &str) -> (r: Option<usize>)
    ensures
        match r {
            Some(k) => catalog_code(normalized_code(locale_code@)) && catalog_index(
                state.catalog_list(),
                normalized_code(locale_code@),
                0,
            ) == Some(k as int) && k < state.catalog_list().len(),
            None => !catalog_code(normalized_code(locale_code@)) || catalog_index(
                state.catalog_list(),
                normalized_code(locale_code@),
                0,
            ) is None,
        },
{
    let n = normalize_locale_code(locale_code);
    let known = chars_eq_str(n.as_slice(), "ja") || chars_eq_str(n.as_slice(), "ko")
        || chars_eq_str(n.as_slice(), "fr") || chars_eq_str(n.as_slice(), "de")
        || chars_eq_str(n.as_slice(), "es") || chars_eq_str(n.as_slice(), "it")
        || chars_eq_str(n.as_slice(), "pt-br") || chars_eq_str(n.as_slice(), "ru")
        || chars_eq_str(n.as_slice(), "ar") || chars_eq_str(n.as_slice(), "tr");
    if !known {
        return None;
    }
    let mut k: usize = 0;
    while k < state.catalogs.len()
        invariant
            k <= state.catalogs@.len(),
            n@ == normalized_code(locale_code@),
            catalog_code(n@),
            catalog_index(state.catalog_list(), n@, 0) == catalog_index(
                state.catalog_list(),
                n@,
                k as int,
            ),
        decreases state.catalogs@.len() - k,
    {
        let c = chars_of(state.catalogs[k].code.as_str());
        proof {
            assert(state.catalog_list()[k as int].0 == state.catalogs@[k as int].code@);
        }
        if chars_eq(c.as_slice(), n.as_slice()) {
            return Some(k);
        }
        k = k + 1;
    }
    None
}

/// The translation of `english` for `locale_code`, if a catalog has one.
fn lookup_translation<'a>(state: &'a LocaleState, locale_code: &str, english: &str) -> (r: Option<
    &'a str,
>)
    ensures
        match r {
            Some(t) => translation(*state, locale_code@, english@) == Some(t@),
            None => translation(*state, locale_code@, english@) is None,
        },
{
    let k = match catalog_for(state, locale_code) {
        Some(k) => k,
        None => return None,
    };
    let cat = &state.catalogs[k];
    let ghost pairs = pairs_view(cat.entries@);
    proof {
        assert(state.catalog_list()[k as int].1 == pairs);
        assert(translation(*state, locale_code@, english@) == lookup_pairs(pairs, english@));
    }
    let e = chars_of(english);
    let mut j = cat.entries.len();
    proof {
        assert(pairs.take(j as int) =~= pairs);
    }
    while j > 0
        invariant
            j <= cat.entries@.len(),
            pairs == pairs_view(cat.entries@),
            e@ == english@,
            translation(*state, locale_code@, english@) == lookup_pairs(pairs, english@),
            lookup_pairs(pairs, english@) == lookup_pairs(pairs.take(j as int), english@),
        decreases j,
    {
        let key = chars_of(cat.entries[j - 1].0.as_str());
        proof {
            assert(pairs.take(j as int).last() == pairs[j - 1]);
            assert(pairs.take(j as int).drop_last() =~= pairs.take(j - 1));
        }
        if chars_eq(key.as_slice(), e.as_slice()) {
            return Some(cat.entries[j - 1].1.as_str());
        }
        j = j - 1;
    }
    None
}

/// The text to show for a message given in English and Chinese.
pub fn localize_message<'a>(state: &'a LocaleState, english: &'a str, chinese: &'a str) -> (r: &'a str)
    ensures
        r@ == localized(*state, english@, chinese@),
{
    let locale = current_locale(state);
    if locale_is_chinese(&locale) {
        return chinese;
    }
    let code = chars_of(locale.code);
    if eq_ignore_ascii_case_str(code.as_slice(), "en") {
        return english;
    }
    match lookup_translation(state, locale.code, english) {
        Some(t) => t,
        None => english,
    }
}

// ---------------------------------------------------------------------
// Laws
// ---------------------------------------------------------------------

/// `lower(s) == t`, checked from the last character backwards.
pub open spec fn lowers_to(s: Seq<char>, t: Seq<char>) -> bool
    decreases s.len(),
{
    if s.len() == 0 {
        t.len() == 0
    } else {
        t.len() > 0 && crate::text::ascii_lower(s.last()) == t.last() && lowers_to(
            s.drop_last(),
            t.drop_last(),
        )
    }
}

proof fn lemma_lowers_to(s: Seq<char>, t: Seq<char>)
    requires
        lowers_to(s, t),
    ensures
        lower(s) == t,
    decreases s.len(),
{
    if s.len() > 0 {
        lemma_lowers_to(s.drop_last(), t.drop_last());
        assert(lower(s.drop_last()).len() == s.len() - 1);
        assert(t.len() == s.len());
        assert forall|i: int| 0 <= i < s.len() implies lower(s)[i] == t[i] by {
            if i < s.len() - 1 {
                assert(lower(s.drop_last())[i] == t.drop_last()[i]);
            } else {
                assert(s[i] == s.last());
                assert(t[i] == t.last());
            }
        }
        assert(lower(s) =~= t);
    } else {
        assert(lower(s) =~= t);
    }
}

proof fn lemma_no_dash_change(s: Seq<char>)
    requires
        crate::settings::lacks(s, '_'),
    ensures
        s.map_values(|c: char| dash(c)) == s,
    decreases s.len(),
{
    if s.len() > 0 {
        lemma_no_dash_change(s.drop_last());
        assert forall|i: int| 0 <= i < s.len() implies s.map_values(|c: char| dash(c))[i] == s[i] by {
            if i < s.len() - 1 {
                assert(s.drop_last().map_values(|c: char| dash(c))[i] == s.drop_last()[i]);
            }
        }
        assert(s.map_values(|c: char| dash(c)) =~= s);
    } else {
        assert(s.map_values(|c: char| dash(c)) =~= s);
    }
}

/// ASCII upper-casing of one character (`char::to_ascii_uppercase`).
pub open spec fn ascii_upper(c: char) -> char {
    if 'a' <= c && c <= 'z' {
        ((c as u32) - 32) as char
    } else {
        c
    }
}

/// ASCII upper-casing of a whole text (`str::to_ascii_uppercase`).
pub open spec fn upper(s: Seq<char>) -> Seq<char> {
    s.map_values(|c: char| ascii_upper(c))
}

/// Reading a code is insensitive to what its reading already does: a code
/// names the same locale as its normalized form and as its ASCII
/// upper-cased form, and what it names is one of the supported locales.
pub proof fn law_locale_code_normal_forms(v: Seq<char>)
    ensures
        normalized_code(normalized_code(v)) == normalized_code(v),
        locale_index_for(normalized_code(v)) == locale_index_for(v),
        normalized_code(upper(v)) == normalized_code(v),
        locale_index_for(upper(v)) == locale_index_for(v),
        locale_index_for(v) matches Some(i) ==> 0 <= i < 12,
{
    let t = trim(v);
    let g = |c: char| ascii_lower(dash(c));
    let n = normalized_code(v);
    // The normalized form is a character map of the trimmed code.
    assert(n =~= t.map_values(g));
    lemma_trim_shape(v);
    assert(forall|c: char| #[trigger] is_white(g(c)) == is_white(c));
    if n.len() > 0 {
        assert(n[0] == g(t[0]));
        assert(n.last() == g(t.last()));
    }
    lemma_trim_unchanged(n);
    assert(n.map_values(|c: char| dash(c)) =~= n);
    assert(lower(n) =~= n);
    // Upper-casing keeps whiteness, `_` and the lower-cased form.
    let u = |c: char| ascii_upper(c);
    assert(forall|c: char| #[trigger] is_white(u(c)) == is_white(c));
    lemma_trim_map(v, u);
    assert(upper(v) =~= v.map_values(u));
    assert(trim(upper(v)) == t.map_values(u));
    assert(normalized_code(upper(v)) =~= n);
}

/// A code names the locale of its language, whether it is written as the
/// bare language (`de`) or as one of the regional forms known for it
/// (`de-DE`, `de_de`, ...): English (en, en-US, en-GB), Simplified Chinese
/// (zh, zh-CN, zh-Hans, zh-SG, zh-Hans-CN), Japanese (ja, ja-JP), Korean
/// (ko, ko-KR), French (fr, fr-FR), German (de, de-DE), Spanish (es,
/// es-ES, es-419, es-MX), Italian (it, it-IT), Portuguese (pt, pt-BR),
/// Russian (ru, ru-RU), Arabic (ar, ar-SA, ar-EG) and Turkish (tr, tr-TR).
pub proof fn law_regional_codes(v: Seq<char>)
    ensures
        normalized_code(v) == "en"@ ==> locale_index_for(v) == Some(0int),
        normalized_code(v) == "en-us"@ ==> locale_index_for(v) == Some(0int),
        normalized_code(v) == "en-gb"@ ==> locale_index_for(v) == Some(0int),
        normalized_code(v) == "zh"@ ==> locale_index_for(v) == Some(1int),
        normalized_code(v) == "zh-cn"@ ==> locale_index_for(v) == Some(1int),
        normalized_code(v) == "zh-hans"@ ==> locale_index_for(v) == Some(1int),
        normalized_code(v) == "zh-sg"@ ==> locale_index_for(v) == Some(1int),
        normalized_code(v) == "zh-hans-cn"@ ==> locale_index_for(v) == Some(1int),
        normalized_code(v) == "ja"@ ==> locale_index_for(v) == Some(2int),
        normalized_code(v) == "ja-jp"@ ==> locale_index_for(v) == Some(2int),
        normalized_code(v) == "ko"@ ==> locale_index_for(v) == Some(3int),
        normalized_code(v) == "ko-kr"@ ==> locale_index_for(v) == Some(3int),
        normalized_code(v) == "fr"@ ==> locale_index_for(v) == Some(4int),
        normalized_code(v) == "fr-fr"@ ==> locale_index_for(v) == Some(4int),
        normalized_code(v) == "de"@ ==> locale_index_for(v) == Some(5int),
        normalized_code(v) == "de-de"@ ==> locale_index_for(v) == Some(5int),
        normalized_code(v) == "es"@ ==> locale_index_for(v) == Some(6int),
        normalized_code(v) == "es-es"@ ==> locale_index_for(v) == Some(6int),
        normalized_code(v) == "es-419"@ ==> locale_index_for(v) == Some(6int),
        normalized_code(v) == "es-mx"@ ==> locale_index_for(v) == Some(6int),
        normalized_code(v) == "it"@ ==> locale_index_for(v) == Some(7int),
        normalized_code(v) == "it-it"@ ==> locale_index_for(v) == Some(7int),
        normalized_code(v) == "pt"@ ==> locale_index_for(v) == Some(8int),
        normalized_code(v) == "pt-br"@ ==> locale_index_for(v) == Some(8int),
        normalized_code(v) == "ru"@ ==> locale_index_for(v) == Some(9int),
        normalized_code(v) == "ru-ru"@ ==> locale_index_for(v) == Some(9int),
        normalized_code(v) == "ar"@ ==> locale_index_for(v) == Some(10int),
        normalized_code(v) == "ar-sa"@ ==> locale_index_for(v) == Some(10int),
        normalized_code(v) == "ar-eg"@ ==> locale_index_for(v) == Some(10int),
        normalized_code(v) == "tr"@ ==> locale_index_for(v) == Some(11int),
        normalized_code(v) == "tr-tr"@ ==> locale_index_for(v) == Some(11int),
{
    // Each code differs from every earlier one in the table by its length,
    // its first letter, or (for the regional forms) its fourth.
    reveal_strlit("en");
    reveal_strlit("en-us");
    reveal_strlit("en-gb");
    reveal_strlit("zh");
    reveal_strlit("zh-cn");
    reveal_strlit("zh-hans");
    reveal_strlit("zh-sg");
    reveal_strlit("zh-hans-cn");
    reveal_strlit("ja");
    reveal_strlit("ja-jp");
    reveal_strlit("ko");
    reveal_strlit("ko-kr");
    reveal_strlit("fr");
    reveal_strlit("fr-fr");
    reveal_strlit("de");
    reveal_strlit("de-de");
    reveal_strlit("es");
    reveal_strlit("es-es");
    reveal_strlit("es-419");
    reveal_strlit("es-mx");
    reveal_strlit("it");
    reveal_strlit("it-it");
    reveal_strlit("pt");
    reveal_strlit("pt-br");
    reveal_strlit("ru");
    reveal_strlit("ru-ru");
    reveal_strlit("ar");
    reveal_strlit("ar-sa");
    reveal_strlit("ar-eg");
    reveal_strlit("tr");
    reveal_strlit("tr-tr");
    assert(("en"@)[0] == 'e' && ("en"@)[1] == 'n');
    assert(("en-us"@)[0] == 'e' && ("en-us"@)[1] == 'n' && ("en-us"@)[3] == 'u');
    assert(("en-gb"@)[0] == 'e' && ("en-gb"@)[1] == 'n' && ("en-gb"@)[3] == 'g');
    assert(("zh"@)[0] == 'z' && ("zh"@)[1] == 'h');
    assert(("zh-cn"@)[0] == 'z' && ("zh-cn"@)[1] == 'h' && ("zh-cn"@)[3] == 'c');
    assert(("zh-hans"@)[0] == 'z' && ("zh-hans"@)[1] == 'h');
    assert(("zh-sg"@)[0] == 'z' && ("zh-sg"@)[1] == 'h' && ("zh-sg"@)[3] == 's');
    assert(("zh-hans-cn"@)[0] == 'z' && ("zh-hans-cn"@)[1] == 'h');
    assert(("ja"@)[0] == 'j' && ("ja"@)[1] == 'a');
    assert(("ja-jp"@)[0] == 'j' && ("ja-jp"@)[1] == 'a' && ("ja-jp"@)[3] == 'j');
    assert(("ko"@)[0] == 'k' && ("ko"@)[1] == 'o');
    assert(("ko-kr"@)[0] == 'k' && ("ko-kr"@)[1] == 'o' && ("ko-kr"@)[3] == 'k');
    assert(("fr"@)[0] == 'f' && ("fr"@)[1] == 'r');
    assert(("fr-fr"@)[0] == 'f' && ("fr-fr"@)[1] == 'r' && ("fr-fr"@)[3] == 'f');
    assert(("de"@)[0] == 'd' && ("de"@)[1] == 'e');
    assert(("de-de"@)[0] == 'd' && ("de-de"@)[1] == 'e' && ("de-de"@)[3] == 'd');
    assert(("es"@)[0] == 'e' && ("es"@)[1] == 's');
    assert(("es-es"@)[0] == 'e' && ("es-es"@)[1] == 's' && ("es-es"@)[3] == 'e');
    assert(("es-419"@)[0] == 'e' && ("es-419"@)[1] == 's');
    assert(("es-mx"@)[0] == 'e' && ("es-mx"@)[1] == 's' && ("es-mx"@)[3] == 'm');
    assert(("it"@)[0] == 'i' && ("it"@)[1] == 't');
    assert(("it-it"@)[0] == 'i' && ("it-it"@)[1] == 't' && ("it-it"@)[3] == 'i');
    assert(("pt"@)[0] == 'p' && ("pt"@)[1] == 't');
    assert(("pt-br"@)[0] == 'p' && ("pt-br"@)[1] == 't' && ("pt-br"@)[3] == 'b');
    assert(("ru"@)[0] == 'r' && ("ru"@)[1] == 'u');
    assert(("ru-ru"@)[0] == 'r' && ("ru-ru"@)[1] == 'u' && ("ru-ru"@)[3] == 'r');
    assert(("ar"@)[0] == 'a' && ("ar"@)[1] == 'r');
    assert(("ar-sa"@)[0] == 'a' && ("ar-sa"@)[1] == 'r' && ("ar-sa"@)[3] == 's');
    assert(("ar-eg"@)[0] == 'a' && ("ar-eg"@)[1] == 'r' && ("ar-eg"@)[3] == 'e');
    assert(("tr"@)[0] == 't' && ("tr"@)[1] == 'r');
    assert(("tr-tr"@)[0] == 't' && ("tr-tr"@)[1] == 'r' && ("tr-tr"@)[3] == 't');
}

/// The normalized form of each supported locale's own code.
pub open spec fn own_code_normalized(i: int) -> Seq<char> {
    if i == 1 {
        "zh-cn"@
    } else if i == 8 {
        "pt-br"@
    } else {
        locale_codes()[i]
    }
}

/// Every supported locale is found again by its own code, written in
/// either ASCII case.
pub proof fn law_locale_code_round_trip(i: int)
    requires
        0 <= i < 12,
    ensures
        locale_index_for(locale_codes()[i]) == Some(i),
        locale_index_for(upper(locale_codes()[i])) == Some(i),
{
    law_locale_code_normal_forms(locale_codes()[i]);
    reveal_strlit("en");
    reveal_strlit("zh-CN");
    reveal_strlit("ja");
    reveal_strlit("ko");
    reveal_strlit("fr");
    reveal_strlit("de");
    reveal_strlit("es");
    reveal_strlit("it");
    reveal_strlit("pt-BR");
    reveal_strlit("ru");
    reveal_strlit("ar");
    reveal_strlit("tr");
    reveal_strlit("zh-cn");
    reveal_strlit("pt-br");
    reveal_strlit("en-us");
    reveal_strlit("en-gb");
    reveal_strlit("zh");
    reveal_strlit("zh-hans");
    reveal_strlit("zh-sg");
    reveal_strlit("zh-hans-cn");
    reveal_strlit("ja-jp");
    reveal_strlit("ko-kr");
    reveal_strlit("fr-fr");
    reveal_strlit("de-de");
    reveal_strlit("es-es");
    reveal_strlit("es-419");
    reveal_strlit("es-mx");
    reveal_strlit("it-it");
    reveal_strlit("pt");
    reveal_strlit("ru-ru");
    reveal_strlit("ar-sa");
    reveal_strlit("ar-eg");
    reveal_strlit("tr-tr");
    let c = locale_codes()[i];
    let n = own_code_normalized(i);
    assert(trim(c) == c) by {
        assert(!is_white(c[0]) && !is_white(c.last()));
    }
    reveal_with_fuel(crate::settings::lacks, 6);
    assert(crate::settings::lacks(c, '_'));
    lemma_no_dash_change(c);
    reveal_with_fuel(lowers_to, 6);
    assert(lowers_to(c, n));
    lemma_lowers_to(c, n);
    assert(normalized_code(c) == n);
    assert(code_index(n) == Some(i)) by {
        assert(("zh-cn"@)[0] != ("en-us"@)[0]);
        assert(("zh-cn"@)[0] != ("en-gb"@)[0]);
        assert(("pt-br"@)[0] != ("en-us"@)[0]);
        assert(("pt-br"@)[0] != ("en-gb"@)[0]);
        assert(("pt-br"@)[0] != ("zh-cn"@)[0]);
        assert(("pt-br"@)[0] != ("zh-sg"@)[0]);
        assert(("pt-br"@)[0] != ("ja-jp"@)[0]);
        assert(("pt-br"@)[0] != ("ko-kr"@)[0]);
        assert(("pt-br"@)[0] != ("fr-fr"@)[0]);
        assert(("pt-br"@)[0] != ("de-de"@)[0]);
        assert(("pt-br"@)[0] != ("es-es"@)[0]);
        assert(("pt-br"@)[0] != ("es-mx"@)[0]);
        assert(("pt-br"@)[0] != ("it-it"@)[0]);
        assert(("zh-cn"@)[0] != ("en"@)[0]);
    }
}

} // verus!
