//! Texts of the user interface: labels of choices and states, message
//! templates, sizes and durations, descriptions of compression settings,
//! and the theme to start with.

use vstd::prelude::*;

use crate::localization::{localize_message, localized, locale_is_chinese, chinese_code, AppLocale, LocaleState};
use crate::archive::{
    CompressionFormat, CompressionLevel, CompressionOptions, ExtractOptions, OverwriteMode,
    ZipCompressionMethod,
};
use crate::settings::{first_value, load_preferred_theme, texts};
use crate::text::{
    chars_of, decimal, decimal2, extend_chars, extend_str, has_prefix, lower, lower_chars,
    push_decimal, push_decimal2, string_of,
};
use crate::update::{find_sub, find_sub_exec};

verus! {

/// The language family the interface is laid out for.
#[derive(Debug, Clone, Copy, PartialEq, Eq, Structural)]
pub enum Language {
    English,
    ChineseSimplified,
}

impl Language {
    /// Simplified Chinese for the Simplified Chinese locale, English for
    /// every other.
    pub fn detect(locale: &AppLocale) -> (r: Language)
        ensures
            r == (if chinese_code(locale.code@) {
                Language::ChineseSimplified
            } else {
                Language::English
            }),
    {
        if locale_is_chinese(locale) {
            Language::ChineseSimplified
        } else {
            Language::English
        }
    }

    /// The text to show for a message given in English and Chinese: it
    /// follows the current locale (not `self`).
    pub fn text<'a>(self, state: &'a LocaleState, english: &'a str, chinese: &'a str) -> (r: &'a str)
        ensures
            r@ == localized(*state, english@, chinese@),
    {
        localize_message(state, english, chinese)
    }

    /// A message in the current locale with its placeholders filled in.
    pub fn format(
        self,
        state: &LocaleState,
        english: &str,
        chinese: &str,
        replacements: &[(&str, String)],
    ) -> (r: String)
        ensures
            r@ == render(localized(*state, english@, chinese@), pairs_of(replacements@)),
    {
        apply_template(self.text(state, english, chinese), replacements)
    }
}


// ---------------------------------------------------------------------
// Message templates
// ---------------------------------------------------------------------

/// `str::replace`: every non-overlapping occurrence of `p` in `s`, found
/// from the left, replaced by `v`; an empty `p` puts `v` before every
/// character and at the end.
pub open spec fn replace_all(s: Seq<char>, p: Seq<char>, v: Seq<char>) -> Seq<char>
    decreases s.len(),
{
    if s.len() == 0 {
        if p.len() == 0 {
            v
        } else {
            s
        }
    } else if p.len() == 0 {
        v + seq![s[0]] + replace_all(s.drop_first(), p, v)
    } else if has_prefix(s, p) {
        v + replace_all(s.skip(p.len() as int), p, v)
    } else {
        seq![s[0]] + replace_all(s.drop_first(), p, v)
    }
}

/// The replacement pairs as text.
pub open spec fn pairs_of(r: Seq<(&str, String)>) -> Seq<(Seq<char>, Seq<char>)> {
    r.map_values(|x: (&str, String)| (x.0@, x.1@))
}

/// A template with each replacement applied in turn.
pub open spec fn render(t: Seq<char>, r: Seq<(Seq<char>, Seq<char>)>) -> Seq<char>
    decreases r.len(),
{
    if r.len() == 0 {
        t
    } else {
        replace_all(render(t, r.drop_last()), r.last().0, r.last().1)
    }
}

fn prefix_at(s: &[char], i: usize, p: &[char]) -> (r: bool)
    requires
        i <= s@.len(),
    ensures
        r == has_prefix(s@.skip(i as int), p@),
{
    if p.len() > s.len() - i {
        return false;
    }
    let mut k: usize = 0;
    while k < p.len()
        invariant
            i + p@.len() <= s@.len(),
            i + p.len() <= s.len(),
            k <= p@.len(),
            forall|j: int| 0 <= j < k ==> s@[i + j] == p@[j],
        decreases p@.len() - k,
    {
        if s[i + k] != p[k] {
            assert(s@.skip(i as int).take(p@.len() as int)[k as int] != p@[k as int]);
            return false;
        }
        k = k + 1;
    }
    assert(s@.skip(i as int).take(p@.len() as int) =~= p@);
    true
}

fn replace_chars(s: &[char], p: &[char], v: &[char]) -> (r: Vec<char>)
    ensures
        r@ == replace_all(s@, p@, v@),
{
    let mut out: Vec<char> = Vec::new();
    let mut i: usize = 0;
    proof {
        assert(s@.skip(0) =~= s@);
    }
    while i < s.len()
        invariant
            i <= s@.len(),
            out@ + replace_all(s@.skip(i as int), p@, v@) == replace_all(s@, p@, v@),
        decreases s@.len() - i,
    {
        let ghost rest = s@.skip(i as int);
        if p.len() == 0 {
            extend_chars(&mut out, v);
            out.push(s[i]);
            proof {
                assert(rest.drop_first() =~= s@.skip(i + 1));
                assert(out@ + replace_all(s@.skip(i + 1), p@, v@) =~= replace_all(s@, p@, v@));
            }
            i = i + 1;
        } else if prefix_at(s, i, p) {
            extend_chars(&mut out, v);
            proof {
                assert(rest.skip(p@.len() as int) =~= s@.skip(i + p@.len()));
                assert(out@ + replace_all(s@.skip(i + p@.len()), p@, v@) =~= replace_all(s@, p@, v@));
            }
            i = i + p.len();
        } else {
            out.push(s[i]);
            proof {
                assert(rest.drop_first() =~= s@.skip(i + 1));
                assert(out@ + replace_all(s@.skip(i + 1), p@, v@) =~= replace_all(s@, p@, v@));
            }
            i = i + 1;
        }
    }
    if p.len() == 0 {
        extend_chars(&mut out, v);
    }
    proof {
        assert(s@.skip(i as int).len() == 0);
        assert(out@ =~= replace_all(s@, p@, v@));
    }
    out
}

/// A template with each `(placeholder, value)` pair applied in order, every
/// occurrence of the placeholder replaced by the value.
pub fn apply_template(template: &str, replacements: &[(&str, String)]) -> (r: String)
    ensures
        r@ == render(template@, pairs_of(replacements@)),
{
    let mut rendered = chars_of(template);
    let mut i: usize = 0;
    while i < replacements.len()
        invariant
            i <= replacements@.len(),
            rendered@ == render(template@, pairs_of(replacements@.take(i as int))),
        decreases replacements@.len() - i,
    {
        let (placeholder, value) = &replacements[i];
        let p = chars_of(placeholder);
        let v = chars_of(value.as_str());
        rendered = replace_chars(rendered.as_slice(), p.as_slice(), v.as_slice());
        proof {
            assert(pairs_of(replacements@.take(i + 1)).drop_last() =~= pairs_of(
                replacements@.take(i as int),
            ));
        }
        i = i + 1;
    }
    assert(replacements@.take(replacements@.len() as int) =~= replacements@);
    string_of(rendered.as_slice())
}

/// A message in the current locale with its placeholders filled in.
pub fn localize_format(
    state: &LocaleState,
    english: &str,
    chinese: &str,
    replacements: &[(&str, String)],
) -> (r: String)
    ensures
        r@ == render(localized(*state, english@, chinese@), pairs_of(replacements@)),
{
    apply_template(localize_message(state, english, chinese), replacements)
}


// ---------------------------------------------------------------------
// Theme
// ---------------------------------------------------------------------

/// Light or dark appearance.
#[derive(Debug, Clone, Copy, PartialEq, Eq, Structural)]
pub enum ThemeMode {
    Light,
    Dark,
}

/// The theme a setting's text asks for: dark where it mentions `dark`,
/// else light where it mentions `light` (ASCII case ignored).
pub open spec fn theme_choice(v: Seq<char>) -> Option<ThemeMode> {
    if find_sub(lower(v), "dark"@) >= 0 {
        Some(ThemeMode::Dark)
    } else if find_sub(lower(v), "light"@) >= 0 {
        Some(ThemeMode::Light)
    } else {
        None
    }
}

/// The first theme asked for by the environment values, in order.
pub open spec fn env_theme(values: Seq<Option<Seq<char>>>) -> Option<ThemeMode>
    decreases values.len(),
{
    if values.len() == 0 {
        None
    } else {
        match values[0] {
            Some(v) if theme_choice(v) is Some => theme_choice(v),
            _ => env_theme(values.drop_first()),
        }
    }
}

/// The theme to start with: the environment's (`FASTZIP_THEME`, then
/// `APP_THEME`), else the saved preference, else light.
pub open spec fn detected_theme(env: Seq<Option<Seq<char>>>, files: Seq<Seq<char>>) -> ThemeMode {
    match env_theme(env) {
        Some(t) => t,
        None => match first_value(files, "ui"@, "theme"@) {
            Some(v) if theme_choice(v) is Some => theme_choice(v)->0,
            _ => ThemeMode::Light,
        },
    }
}

/// The views of optional strings.
pub open spec fn opt_texts(v: Seq<Option<String>>) -> Seq<Option<Seq<char>>> {
    v.map_values(
        |o: Option<String>|
            match o {
                Some(s) => Some(s@),
                None => None,
            },
    )
}

fn theme_choice_exec(v: &str) -> (r: Option<ThemeMode>)
    ensures
        r == theme_choice(v@),
{
    let chars = chars_of(v);
    let low = lower_chars(chars.as_slice());
    let dark = chars_of("dark");
    let light = chars_of("light");
    if find_sub_exec(low.as_slice(), dark.as_slice()).is_some() {
        Some(ThemeMode::Dark)
    } else if find_sub_exec(low.as_slice(), light.as_slice()).is_some() {
        Some(ThemeMode::Light)
    } else {
        None
    }
}

impl ThemeMode {
    /// The theme to start with, from the values of the `FASTZIP_THEME` and
    /// `APP_THEME` environment variables (in that order) and the settings
    /// files' contents.
    pub fn detect(env_values: &[Option<String>], settings_files: &[String]) -> (r: ThemeMode)
        ensures
            r == detected_theme(opt_texts(env_values@), texts(settings_files@)),
    {
        let mut i: usize = 0;
        proof {
            assert(opt_texts(env_values@).skip(0) =~= opt_texts(env_values@));
        }
        while i < env_values.len()
            invariant
                i <= env_values@.len(),
                env_theme(opt_texts(env_values@)) == env_theme(opt_texts(env_values@).skip(i as int)),
            decreases env_values@.len() - i,
        {
            proof {
                assert(opt_texts(env_values@).skip(i as int).drop_first() =~= opt_texts(
                    env_values@,
                ).skip(i + 1));
            }
            if let Some(v) = &env_values[i] {
                if let Some(t) = theme_choice_exec(v.as_str()) {
                    return t;
                }
            }
            i = i + 1;
        }
        if let Some(v) = load_preferred_theme(settings_files) {
            if let Some(t) = theme_choice_exec(v.as_str()) {
                return t;
            }
        }
        ThemeMode::Light
    }

    /// Whether the theme is dark.
    pub fn is_dark(self) -> (r: bool)
        ensures
            r == (self == ThemeMode::Dark),
    {
        match self {
            ThemeMode::Dark => true,
            ThemeMode::Light => false,
        }
    }

    /// The theme's name in the current locale.
    pub fn label<'a>(self, language: Language, state: &'a LocaleState) -> (r: &'a str)
        ensures
            r@ == (match self {
                ThemeMode::Light => localized(*state, "Light"@, "浅色"@),
                ThemeMode::Dark => localized(*state, "Dark"@, "深色"@),
            }),
    {
        match self {
            ThemeMode::Light => language.text(state, "Light", "浅色"),
            ThemeMode::Dark => language.text(state, "Dark", "深色"),
        }
    }
}

// ---------------------------------------------------------------------
// Choices and states
// ---------------------------------------------------------------------

/// What to do with files that already exist when extracting, as offered
/// in the interface.
#[derive(Debug, Clone, Copy, PartialEq, Eq, Structural)]
pub enum GuiOverwriteMode {
    Ask,
    Overwrite,
    Skip,
    Error,
}

impl GuiOverwriteMode {
    /// The choice's text in the current locale.
    pub fn label<'a>(self, language: Language, state: &'a LocaleState) -> (r: &'a str)
        ensures
            r@ == (match self {
                GuiOverwriteMode::Ask => localized(*state, "Ask before overwrite"@, "覆盖前询问"@),
                GuiOverwriteMode::Overwrite => localized(
                    *state,
                    "Overwrite existing files"@,
                    "覆盖已存在文件"@,
                ),
                GuiOverwriteMode::Skip => localized(*state, "Skip existing files"@, "跳过已存在文件"@),
                GuiOverwriteMode::Error => localized(*state, "Fail on conflicts"@, "遇到冲突时中止"@),
            }),
    {
        match self {
            GuiOverwriteMode::Ask => language.text(state, "Ask before overwrite", "覆盖前询问"),
            GuiOverwriteMode::Overwrite => language.text(
                state,
                "Overwrite existing files",
                "覆盖已存在文件",
            ),
            GuiOverwriteMode::Skip => language.text(state, "Skip existing files", "跳过已存在文件"),
            GuiOverwriteMode::Error => language.text(state, "Fail on conflicts", "遇到冲突时中止"),
        }
    }

    /// The extraction mode the choice runs with: asking (once conflicts
    /// are settled) overwrites.
    pub fn to_core(self) -> (r: OverwriteMode)
        ensures
            r == (match self {
                GuiOverwriteMode::Ask | GuiOverwriteMode::Overwrite => OverwriteMode::Overwrite,
                GuiOverwriteMode::Skip => OverwriteMode::Skip,
                GuiOverwriteMode::Error => OverwriteMode::Error,
            }),
    {
        match self {
            GuiOverwriteMode::Ask | GuiOverwriteMode::Overwrite => OverwriteMode::Overwrite,
            GuiOverwriteMode::Skip => OverwriteMode::Skip,
            GuiOverwriteMode::Error => OverwriteMode::Error,
        }
    }
}

/// What a queued task does.
#[derive(Debug, Clone, Copy, PartialEq, Eq, Structural)]
pub enum TaskKind {
    Compress,
    Extract,
}

impl TaskKind {
    /// The kind's name in the current locale.
    pub fn label<'a>(self, language: Language, state: &'a LocaleState) -> (r: &'a str)
        ensures
            r@ == (match self {
                TaskKind::Compress => localized(*state, "Compress"@, "压缩"@),
                TaskKind::Extract => localized(*state, "Extract"@, "解压"@),
            }),
    {
        match self {
            TaskKind::Compress => language.text(state, "Compress", "压缩"),
            TaskKind::Extract => language.text(state, "Extract", "解压"),
        }
    }
}

/// Where a queued task stands.
#[derive(Debug, Clone, Copy, PartialEq, Eq, Structural)]
pub enum TaskState {
    Queued,
    Running,
    Canceling,
    Completed,
    Canceled,
    Failed,
}

impl TaskState {
    /// The state's name in the current locale.
    pub fn label<'a>(self, language: Language, state: &'a LocaleState) -> (r: &'a str)
        ensures
            r@ == (match self {
                TaskState::Queued => localized(*state, "Queued"@, "排队中"@),
                TaskState::Running => localized(*state, "Running"@, "进行中"@),
                TaskState::Canceling => localized(*state, "Canceling"@, "正在取消"@),
                TaskState::Completed => localized(*state, "Completed"@, "已完成"@),
                TaskState::Canceled => localized(*state, "Canceled"@, "已取消"@),
                TaskState::Failed => localized(*state, "Failed"@, "失败"@),
            }),
    {
        match self {
            TaskState::Queued => language.text(state, "Queued", "排队中"),
            TaskState::Running => language.text(state, "Running", "进行中"),
            TaskState::Canceling => language.text(state, "Canceling", "正在取消"),
            TaskState::Completed => language.text(state, "Completed", "已完成"),
            TaskState::Canceled => language.text(state, "Canceled", "已取消"),
            TaskState::Failed => language.text(state, "Failed", "失败"),
        }
    }
}

/// What a queued task works on.
#[allow(inconsistent_fields)]
pub enum TaskSpec {
    Compress {
        sources: Vec<String>,
        excluded_paths: Vec<String>,
        output_path: String,
        options: CompressionOptions,
    },
    Extract { archive_path: String, options: ExtractOptions },
}

impl TaskSpec {
    /// Where the task writes: the archive for compression, the output
    /// directory for extraction.
    pub fn output_path(&self) -> (r: &str)
        ensures
            r@ == (match self {
                TaskSpec::Compress { output_path, .. } => output_path@,
                TaskSpec::Extract { options, .. } => options.output_dir@,
            }),
    {
        match self {
            TaskSpec::Compress { output_path, .. } => output_path.as_str(),
            TaskSpec::Extract { options, .. } => options.output_dir.as_str(),
        }
    }
}

// ---------------------------------------------------------------------
// Compression option texts
// ---------------------------------------------------------------------

/// The name shown for an archive format.
pub open spec fn format_label(f: CompressionFormat) -> Seq<char> {
    match f {
        CompressionFormat::SevenZip => "7Z"@,
        CompressionFormat::Zip => "ZIP"@,
        CompressionFormat::Tar => "TAR"@,
        CompressionFormat::TarGz => "TAR.GZ"@,
        CompressionFormat::TarBz2 => "TAR.BZ2"@,
        CompressionFormat::TarXz => "TAR.XZ"@,
        CompressionFormat::Gz => "GZ"@,
        CompressionFormat::Bz2 => "BZ2"@,
        CompressionFormat::Xz => "XZ"@,
        CompressionFormat::Zst => "ZST"@,
        CompressionFormat::TarZst => "TAR.ZST"@,
        CompressionFormat::Lz4 => "LZ4"@,
        CompressionFormat::TarLz4 => "TAR.LZ4"@,
    }
}

/// The name shown for an archive format (the same in every language).
pub fn compression_format_label(format: CompressionFormat, language: Language) -> (r: &'static str)
    ensures
        r@ == format_label(format),
{
    match format {
        CompressionFormat::SevenZip => "7Z",
        CompressionFormat::Zip => "ZIP",
        CompressionFormat::Tar => "TAR",
        CompressionFormat::TarGz => "TAR.GZ",
        CompressionFormat::TarBz2 => "TAR.BZ2",
        CompressionFormat::TarXz => "TAR.XZ",
        CompressionFormat::Gz => "GZ",
        CompressionFormat::Bz2 => "BZ2",
        CompressionFormat::Xz => "XZ",
        CompressionFormat::Zst => "ZST",
        CompressionFormat::TarZst => "TAR.ZST",
        CompressionFormat::Lz4 => "LZ4",
        CompressionFormat::TarLz4 => "TAR.LZ4",
    }
}

/// The name shown for a compression level in the current locale.
pub fn compression_level_label<'a>(level: CompressionLevel, language: Language, state: &'a LocaleState) -> (r: &'a str)
    ensures
        r@ == (match level {
            CompressionLevel::Fastest => localized(*state, "Fastest"@, "极速"@),
            CompressionLevel::Fast => localized(*state, "Fast"@, "快速"@),
            CompressionLevel::Normal => localized(*state, "Normal"@, "标准"@),
            CompressionLevel::Maximum => localized(*state, "Maximum"@, "高压缩"@),
            CompressionLevel::Ultra => localized(*state, "Ultra"@, "极限"@),
        }),
{
    match level {
        CompressionLevel::Fastest => language.text(state, "Fastest", "极速"),
        CompressionLevel::Fast => language.text(state, "Fast", "快速"),
        CompressionLevel::Normal => language.text(state, "Normal", "标准"),
        CompressionLevel::Maximum => language.text(state, "Maximum", "高压缩"),
        CompressionLevel::Ultra => language.text(state, "Ultra", "极限"),
    }
}

/// The name shown for a ZIP compression method; only storing is
/// translated.
pub fn zip_method_label<'a>(method: ZipCompressionMethod, language: Language, state: &'a LocaleState) -> (r: &'a str)
    ensures
        r@ == (match method {
            ZipCompressionMethod::Deflate => "Deflate"@,
            ZipCompressionMethod::Stored => localized(*state, "Store"@, "仅存储"@),
            ZipCompressionMethod::Bzip2 => "BZip2"@,
            ZipCompressionMethod::Zstd => "Zstandard"@,
            ZipCompressionMethod::Xz => "XZ"@,
        }),
{
    match method {
        ZipCompressionMethod::Deflate => "Deflate",
        ZipCompressionMethod::Stored => language.text(state, "Store", "仅存储"),
        ZipCompressionMethod::Bzip2 => "BZip2",
        ZipCompressionMethod::Zstd => "Zstandard",
        ZipCompressionMethod::Xz => "XZ",
    }
}

/// The split-volume sizes offered, as (value, label) text pairs.
pub open spec fn split_presets(st: LocaleState) -> Seq<(Seq<char>, Seq<char>)> {
    seq![
        (""@, localized(st, "No split volumes"@, "不分卷"@)),
        ("1.44M"@, localized(st, "1.44M (Floppy)"@, "1.44M（软盘）"@)),
        ("2.88M"@, localized(st, "2.88M (Floppy)"@, "2.88M（软盘）"@)),
        ("10M"@, "10M"@),
        ("100M"@, "100M"@),
        ("1G"@, "1G"@),
        ("4G"@, "4G"@),
        ("650M"@, localized(st, "650M (CD)"@, "650M（CD）"@)),
        ("700M"@, localized(st, "700M (CD)"@, "700M（CD）"@)),
        ("4092M"@, localized(st, "4092M (FAT32)"@, "4092M（FAT32）"@)),
        ("4480M"@, localized(st, "4480M (DVD)"@, "4480M（DVD）"@)),
        ("8128M"@, localized(st, "8128M (DVD DL)"@, "8128M（双层 DVD）"@)),
        ("23040M"@, localized(st, "23040M (Blu-ray)"@, "23040M（蓝光）"@)),
    ]
}

/// The split-volume sizes offered, each with its label in the current
/// locale; the empty value means no splitting.
pub fn split_volume_size_presets<'a>(language: Language, state: &'a LocaleState) -> (r: Vec<(&'a str, &'a str)>)
    ensures
        r@.map_values(|x: (&str, &str)| (x.0@, x.1@)) == split_presets(*state),
{
    let r = vec![
        ("", language.text(state, "No split volumes", "不分卷")),
        ("1.44M", language.text(state, "1.44M (Floppy)", "1.44M（软盘）")),
        ("2.88M", language.text(state, "2.88M (Floppy)", "2.88M（软盘）")),
        ("10M", "10M"),
        ("100M", "100M"),
        ("1G", "1G"),
        ("4G", "4G"),
        ("650M", language.text(state, "650M (CD)", "650M（CD）")),
        ("700M", language.text(state, "700M (CD)", "700M（CD）")),
        ("4092M", language.text(state, "4092M (FAT32)", "4092M（FAT32）")),
        ("4480M", language.text(state, "4480M (DVD)", "4480M（DVD）")),
        ("8128M", language.text(state, "8128M (DVD DL)", "8128M（双层 DVD）")),
        ("23040M", language.text(state, "23040M (Blu-ray)", "23040M（蓝光）")),
    ];
    assert(r@.map_values(|x: (&str, &str)| (x.0@, x.1@)) =~= split_presets(*state));
    r
}

// ---------------------------------------------------------------------
// Durations and log lines
// ---------------------------------------------------------------------

/// A duration in whole seconds, compactly: hours and minutes, minutes and
/// seconds, or seconds, the second figure of two digits.
pub open spec fn compact_duration(total: nat, st: LocaleState) -> Seq<char> {
    let hours = total / 3600;
    let minutes = (total % 3600) / 60;
    let seconds = total % 60;
    let hl = localized(st, "h"@, "时"@);
    let ml = localized(st, "m"@, "分"@);
    let sl = localized(st, "s"@, "秒"@);
    if hours > 0 {
        decimal(hours) + hl + seq![' '] + decimal2(minutes) + ml
    } else if minutes > 0 {
        decimal(minutes) + ml + seq![' '] + decimal2(seconds) + sl
    } else {
        decimal(seconds) + sl
    }
}

/// A duration of `total_seconds` whole seconds (`Duration::as_secs`),
/// compactly, with unit letters in the current locale.
pub fn format_duration_compact(total_seconds: u64, language: Language, state: &LocaleState) -> (r: String)
    ensures
        r@ == compact_duration(total_seconds as nat, *state),
{
    let hours = total_seconds / 3600;
    let minutes = (total_seconds % 3600) / 60;
    let seconds = total_seconds % 60;
    let h_label = language.text(state, "h", "时");
    let m_label = language.text(state, "m", "分");
    let s_label = language.text(state, "s", "秒");
    let mut out: Vec<char> = Vec::new();
    if hours > 0 {
        push_decimal(&mut out, hours);
        extend_str(&mut out, h_label);
        out.push(' ');
        push_decimal2(&mut out, minutes);
        extend_str(&mut out, m_label);
    } else if minutes > 0 {
        push_decimal(&mut out, minutes);
        extend_str(&mut out, m_label);
        out.push(' ');
        push_decimal2(&mut out, seconds);
        extend_str(&mut out, s_label);
    } else {
        push_decimal(&mut out, seconds);
        extend_str(&mut out, s_label);
    }
    assert(out@ =~= compact_duration(total_seconds as nat, *state));
    string_of(out.as_slice())
}

/// The first line of the log, in the current locale.
pub fn initial_ready_log(language: Language, state: &LocaleState) -> (r: String)
    ensures
        r@ == localized(*state, "Native formats loaded successfully."@, "原生格式已加载。"@),
{
    language.text(state, "Native formats loaded successfully.", "原生格式已加载。").to_string()
}

/// The log line on the archive engine, in the current locale.
pub fn initial_backend_log(language: Language, state: &LocaleState) -> (r: String)
    ensures
        r@ == localized(
            *state,
            "Engine initialized. Multi-threading enabled."@,
            "引擎已初始化，多线程已启用。"@,
        ),
{
    language.text(
        state,
        "Engine initialized. Multi-threading enabled.",
        "引擎已初始化，多线程已启用。",
    ).to_string()
}


// ---------------------------------------------------------------------
// Sizes
// ---------------------------------------------------------------------

/// `2^e`.
pub open spec fn two_pow(e: nat) -> nat
    decreases e,
{
    if e == 0 {
        1
    } else {
        2 * two_pow((e - 1) as nat)
    }
}

/// The number of binary digits of `n` (`0` for `0`).
pub open spec fn bit_len(n: nat) -> nat
    decreases n,
{
    if n == 0 {
        0
    } else {
        1 + bit_len(n / 2)
    }
}

/// `n` rounded to the nearest number with at most 53 significant binary
/// digits, ties to even: the value `n as f64` holds (for `n < 2^64`).
pub open spec fn as_double(n: nat) -> nat {
    let len = bit_len(n);
    if len <= 53 {
        n
    } else {
        let unit = two_pow((len - 53) as nat);
        let q = n / unit;
        let r = n % unit;
        if 2 * r > unit || (2 * r == unit && q % 2 == 1) {
            (q + 1) * unit
        } else {
            q * unit
        }
    }
}

/// How many times a size is divided by 1024 before it is shown (at most
/// four: B, KB, MB, GB, TB).
pub open spec fn size_unit_index(f: nat) -> nat {
    if f >= two_pow(40) {
        4
    } else if f >= two_pow(30) {
        3
    } else if f >= two_pow(20) {
        2
    } else if f >= two_pow(10) {
        1
    } else {
        0
    }
}

/// `f / 2^(10 k)` in tenths, rounded to the nearest tenth, ties to even.
pub open spec fn tenths(f: nat, k: nat) -> nat {
    let d = two_pow(10 * k);
    let t = 10 * f;
    let w = t / d;
    let rem = t % d;
    if 2 * rem > d || (2 * rem == d && w % 2 == 1) {
        w + 1
    } else {
        w
    }
}

/// The name of the `k`-th size unit in the current locale.
pub open spec fn size_unit(st: LocaleState, k: nat) -> Seq<char> {
    if k == 0 {
        localized(st, "B"@, "B"@)
    } else if k == 1 {
        localized(st, "KB"@, "KB"@)
    } else if k == 2 {
        localized(st, "MB"@, "MB"@)
    } else if k == 3 {
        localized(st, "GB"@, "GB"@)
    } else {
        localized(st, "TB"@, "TB"@)
    }
}

/// A byte count for display: exact below 1 KiB, else in the largest unit
/// up to TiB that it reaches, with one decimal (as `{:.1}` renders the
/// `f64` quotient); `-` where the size is unknown.
pub open spec fn size_text(value: Option<u64>, st: LocaleState) -> Seq<char> {
    match value {
        None => localized(st, "-"@, "-"@),
        Some(bytes) => {
            let f = as_double(bytes as nat);
            let k = size_unit_index(f);
            if k == 0 {
                decimal(bytes as nat) + " "@ + size_unit(st, 0)
            } else {
                let w = tenths(f, k);
                decimal(w / 10) + "."@ + decimal((w % 10) as nat) + " "@ + size_unit(st, k)
            }
        },
    }
}

proof fn lemma_two_pow_add(a: nat, b: nat)
    ensures
        two_pow(a + b) == two_pow(a) * two_pow(b),
    decreases a,
{
    if a > 0 {
        lemma_two_pow_add((a - 1) as nat, b);
        assert(two_pow(a + b) == 2 * two_pow((a - 1 + b) as nat));
        assert(two_pow(a) * two_pow(b) == 2 * (two_pow((a - 1) as nat) * two_pow(b))) by (nonlinear_arith)
            requires
                two_pow(a) == 2 * two_pow((a - 1) as nat),
        ;
    } else {
        assert(two_pow(0) == 1);
        assert(a + b == b);
    }
}

proof fn lemma_two_pow_positive(e: nat)
    ensures
        two_pow(e) >= 1,
    decreases e,
{
    if e > 0 {
        lemma_two_pow_positive((e - 1) as nat);
    }
}

proof fn lemma_bit_len_bound(n: nat)
    ensures
        n < two_pow(bit_len(n)),
    decreases n,
{
    if n > 0 {
        lemma_bit_len_bound(n / 2);
    }
}

proof fn lemma_two_pow_monotonic(a: nat, b: nat)
    requires
        a <= b,
    ensures
        two_pow(a) <= two_pow(b),
    decreases b,
{
    if a < b {
        lemma_two_pow_monotonic(a, (b - 1) as nat);
        lemma_two_pow_positive((b - 1) as nat);
    }
}

/// `bit_len` of `n`, computed.
fn bit_length(n: u64) -> (r: u32)
    ensures
        r == bit_len(n as nat),
        r <= 64,
{
    let mut m: u64 = n;
    let mut len: u32 = 0;
    proof {
        lemma_u64_below_two_pow_64(n);
        lemma_bit_len_le(n as nat, 64);
    }
    while m > 0
        invariant
            bit_len(n as nat) == len + bit_len(m as nat),
            len + bit_len(m as nat) <= 64,
        decreases m,
    {
        m = m / 2;
        len = len + 1;
    }
    proof {
        lemma_bit_len_bound(n as nat);
    }
    len
}

proof fn lemma_bit_len_le(n: nat, e: nat)
    requires
        n < two_pow(e),
    ensures
        bit_len(n) <= e,
    decreases n,
{
    if n > 0 && e > 0 {
        lemma_bit_len_le(n / 2, (e - 1) as nat);
    } else if n > 0 {
        assert(two_pow(0) == 1);
    }
}

fn two_pow_exec(e: u32) -> (r: u128)
    requires
        e <= 64,
    ensures
        r == two_pow(e as nat),
{
    let mut r: u128 = 1;
    let mut i: u32 = 0;
    while i < e
        invariant
            i <= e <= 64,
            r == two_pow(i as nat),
        decreases e - i,
    {
        proof {
            lemma_two_pow_monotonic((i + 1) as nat, 64);
            lemma_u64_below_two_pow_64(0);
        }
        r = r * 2;
        i = i + 1;
    }
    r
}

proof fn lemma_u64_below_two_pow_64(n: u64)
    ensures
        (n as nat) < two_pow(64),
        two_pow(64) == 0x1_0000_0000_0000_0000,
{
    assert(two_pow(64) == 0x1_0000_0000_0000_0000) by {
            reveal_with_fuel(two_pow, 65);
        }
}

/// `bytes as f64`, as an integer (it is one, and at most `2^64`).
fn double_of(n: u64) -> (r: u128)
    ensures
        r == as_double(n as nat),
        r <= 0x1_0000_0000_0000_0000,
{
    proof {
        lemma_u64_below_two_pow_64(n);
        lemma_bit_len_le(n as nat, 64);
    }
    let len = bit_length(n);
    if len <= 53 {
        return n as u128;
    }
    let unit = two_pow_exec(len - 53);
    proof {
        lemma_two_pow_positive((len - 53) as nat);
    }
    let x = n as u128;
    let q = x / unit;
    let rem = x % unit;
    proof {
        lemma_two_pow_positive((len - 53) as nat);
        lemma_two_pow_add(53, (len - 53) as nat);
        lemma_bit_len_bound(n as nat);
        assert(two_pow(53) == 9007199254740992) by {
            reveal_with_fuel(two_pow, 54);
        }
        lemma_two_pow_monotonic(len as nat, 64);
        vstd::arithmetic::div_mod::lemma_fundamental_div_mod(x as int, unit as int);
        let a = two_pow(53);
        assert(q < a && (q + 1) * unit <= a * unit) by (nonlinear_arith)
            requires
                x == unit * q + rem,
                0 <= rem < unit,
                x < a * unit,
                unit >= 1,
                q >= 0,
        ;
    }
    let up = 2 * rem > unit || (2 * rem == unit && q % 2 == 1);
    if up {
        (q + 1) * unit
    } else {
        q * unit
    }
}

fn size_unit_text<'a>(language: Language, state: &'a LocaleState, k: u32) -> (r: &'a str)
    ensures
        r@ == size_unit(*state, k as nat),
{
    if k == 0 {
        language.text(state, "B", "B")
    } else if k == 1 {
        language.text(state, "KB", "KB")
    } else if k == 2 {
        language.text(state, "MB", "MB")
    } else if k == 3 {
        language.text(state, "GB", "GB")
    } else {
        language.text(state, "TB", "TB")
    }
}

/// A byte count for display in the current locale's units: exact below
/// 1 KiB (`512 B`), else with one decimal in the largest unit up to TiB
/// that it reaches (`1.5 KB`); `-` where the size is unknown.
pub fn format_size(value: Option<u64>, language: Language, state: &LocaleState) -> (r: String)
    ensures
        r@ == size_text(value, *state),
{
    let bytes = match value {
        None => {
            return language.text(state, "-", "-").to_string();
        },
        Some(b) => b,
    };
    let f = double_of(bytes);
    proof {
        assert(two_pow(10) == 1024) by {
            reveal_with_fuel(two_pow, 11);
        }
        assert(two_pow(20) == 1048576) by {
            reveal_with_fuel(two_pow, 21);
        }
        assert(two_pow(30) == 1073741824) by {
            reveal_with_fuel(two_pow, 31);
        }
        assert(two_pow(40) == 1099511627776) by {
            reveal_with_fuel(two_pow, 41);
        }
    }
    let k: u32 = if f >= 1099511627776 {
        4
    } else if f >= 1073741824 {
        3
    } else if f >= 1048576 {
        2
    } else if f >= 1024 {
        1
    } else {
        0
    };
    let mut out: Vec<char> = Vec::new();
    if k == 0 {
        push_decimal(&mut out, bytes);
        out.push(' ');
        extend_str(&mut out, size_unit_text(language, state, 0));
        proof {
            reveal_strlit(" ");
            assert(out@ =~= size_text(value, *state));
        }
        return string_of(out.as_slice());
    }
    let d: u128 = if k == 4 {
        1099511627776
    } else if k == 3 {
        1073741824
    } else if k == 2 {
        1048576
    } else {
        1024
    };
    proof {
        assert(two_pow(10 * 4) == 1099511627776) by {
            reveal_with_fuel(two_pow, 41);
        }
        assert(two_pow(10 * 3) == 1073741824) by {
            reveal_with_fuel(two_pow, 31);
        }
        assert(two_pow(10 * 2) == 1048576) by {
            reveal_with_fuel(two_pow, 21);
        }
        assert(two_pow(10 * 1) == 1024) by {
            reveal_with_fuel(two_pow, 11);
        }
        assert(d == two_pow(10 * (k as nat)));
    }
    let t = 10 * f;
    let w0 = t / d;
    let rem = t % d;
    proof {
        vstd::arithmetic::div_mod::lemma_div_is_ordered_by_denominator(t as int, 1024, d as int);
        assert(t / 1024 <= 10 * 0x1_0000_0000_0000_0000 / 1024);
    }
    let w = if 2 * rem > d || (2 * rem == d && w0 % 2 == 1) {
        w0 + 1
    } else {
        w0
    };
    push_decimal(&mut out, (w / 10) as u64);
    out.push('.');
    push_decimal(&mut out, (w % 10) as u64);
    out.push(' ');
    extend_str(&mut out, size_unit_text(language, state, k));
    proof {
        reveal_strlit(" ");
        reveal_strlit(".");
        assert(out@ =~= size_text(value, *state));
    }
    string_of(out.as_slice())
}


// ---------------------------------------------------------------------
// Descriptions of compression settings
// ---------------------------------------------------------------------

/// How the chosen settings compress, in the current locale.
pub open spec fn method_description(o: CompressionOptions, st: LocaleState) -> Seq<char> {
    match o.format {
        CompressionFormat::SevenZip => localized(st, "LZMA2 stream"@, "LZMA2 压缩流"@),
        CompressionFormat::Zip => match o.zip_method {
            ZipCompressionMethod::Stored => localized(st, "Store (direct write)"@, "仅存储（直接写入）"@),
            ZipCompressionMethod::Deflate if o.thread_count > 1 => localized(
                st,
                "Deflate (parallel file workers)"@,
                "Deflate（并行文件工作线程）"@,
            ),
            ZipCompressionMethod::Bzip2 if o.thread_count > 1 => localized(
                st,
                "BZip2 (parallel file workers)"@,
                "BZip2（并行文件工作线程）"@,
            ),
            ZipCompressionMethod::Zstd if o.thread_count > 1 => localized(
                st,
                "Zstandard (parallel file workers)"@,
                "Zstandard（并行文件工作线程）"@,
            ),
            ZipCompressionMethod::Xz if o.thread_count > 1 => localized(
                st,
                "XZ (limited parallel workers)"@,
                "XZ（限量并行工作线程）"@,
            ),
            ZipCompressionMethod::Deflate => "Deflate"@,
            ZipCompressionMethod::Bzip2 => "BZip2"@,
            ZipCompressionMethod::Zstd => "Zstandard"@,
            ZipCompressionMethod::Xz => "XZ"@,
        },
        CompressionFormat::Tar => localized(st, "Tar stream"@, "TAR 归档"@),
        CompressionFormat::TarGz | CompressionFormat::Gz => localized(st, "GZip stream"@, "GZip 压缩流"@),
        CompressionFormat::TarBz2 | CompressionFormat::Bz2 => localized(st, "BZip2 stream"@, "BZip2 压缩流"@),
        CompressionFormat::TarXz | CompressionFormat::Xz => localized(st, "XZ stream"@, "XZ 压缩流"@),
        CompressionFormat::TarZst | CompressionFormat::Zst => localized(st, "Zstd stream"@, "Zstd 压缩流"@),
        CompressionFormat::TarLz4 | CompressionFormat::Lz4 => localized(st, "LZ4 stream"@, "LZ4 压缩流"@),
    }
}

/// How the chosen settings compress, in the current locale.
pub fn compression_method_description_for(
    options: &CompressionOptions,
    language: Language,
    state: &LocaleState,
) -> (r: String)
    ensures
        r@ == method_description(*options, *state),
{
    let text = match options.format {
        CompressionFormat::SevenZip => language.text(state, "LZMA2 stream", "LZMA2 压缩流"),
        CompressionFormat::Zip => match options.zip_method {
            ZipCompressionMethod::Stored => language.text(state, "Store (direct write)", "仅存储（直接写入）"),
            ZipCompressionMethod::Deflate if options.thread_count > 1 => language.text(
                state,
                "Deflate (parallel file workers)",
                "Deflate（并行文件工作线程）",
            ),
            ZipCompressionMethod::Bzip2 if options.thread_count > 1 => language.text(
                state,
                "BZip2 (parallel file workers)",
                "BZip2（并行文件工作线程）",
            ),
            ZipCompressionMethod::Zstd if options.thread_count > 1 => language.text(
                state,
                "Zstandard (parallel file workers)",
                "Zstandard（并行文件工作线程）",
            ),
            ZipCompressionMethod::Xz if options.thread_count > 1 => language.text(
                state,
                "XZ (limited parallel workers)",
                "XZ（限量并行工作线程）",
            ),
            _ => zip_method_label(options.zip_method, language, state),
        },
        CompressionFormat::Tar => language.text(state, "Tar stream", "TAR 归档"),
        CompressionFormat::TarGz | CompressionFormat::Gz => language.text(state, "GZip stream", "GZip 压缩流"),
        CompressionFormat::TarBz2 | CompressionFormat::Bz2 => language.text(state, "BZip2 stream", "BZip2 压缩流"),
        CompressionFormat::TarXz | CompressionFormat::Xz => language.text(state, "XZ stream", "XZ 压缩流"),
        CompressionFormat::TarZst | CompressionFormat::Zst => language.text(state, "Zstd stream", "Zstd 压缩流"),
        CompressionFormat::TarLz4 | CompressionFormat::Lz4 => language.text(state, "LZ4 stream", "LZ4 压缩流"),
    };
    text.to_string()
}

/// What the dictionary size is under the chosen settings.
pub open spec fn dictionary_text(o: CompressionOptions, st: LocaleState) -> Seq<char> {
    match o.format {
        CompressionFormat::SevenZip => match o.level {
            CompressionLevel::Fastest => localized(st, "LZMA2 preset (~1 MB)"@, "LZMA2 预设（约 1 MB）"@),
            CompressionLevel::Fast => localized(st, "LZMA2 preset (~4 MB)"@, "LZMA2 预设（约 4 MB）"@),
            CompressionLevel::Normal => localized(st, "LZMA2 preset (~8 MB)"@, "LZMA2 预设（约 8 MB）"@),
            CompressionLevel::Maximum => localized(st, "LZMA2 preset (~16 MB)"@, "LZMA2 预设（约 16 MB）"@),
            CompressionLevel::Ultra => localized(st, "LZMA2 preset (~32 MB)"@, "LZMA2 预设（约 32 MB）"@),
        },
        CompressionFormat::Zip => match o.zip_method {
            ZipCompressionMethod::Deflate => localized(st, "Fixed by Deflate (32 KB)"@, "由 Deflate 固定（32 KB）"@),
            ZipCompressionMethod::Stored => localized(st, "Not used for Store mode"@, "Store 模式不使用字典"@),
            _ => localized(st, "Managed internally by the selected codec"@, "由所选编码器内部自动管理"@),
        },
        _ => localized(st, "Not exposed for TAR-based formats"@, "TAR 系列格式当前不暴露此参数"@),
    }
}

/// What the dictionary size is under the chosen settings, in the current
/// locale.
pub fn compression_dictionary_text_for(
    options: &CompressionOptions,
    language: Language,
    state: &LocaleState,
) -> (r: String)
    ensures
        r@ == dictionary_text(*options, *state),
{
    let text = match options.format {
        CompressionFormat::SevenZip => match options.level {
            CompressionLevel::Fastest => language.text(state, "LZMA2 preset (~1 MB)", "LZMA2 预设（约 1 MB）"),
            CompressionLevel::Fast => language.text(state, "LZMA2 preset (~4 MB)", "LZMA2 预设（约 4 MB）"),
            CompressionLevel::Normal => language.text(state, "LZMA2 preset (~8 MB)", "LZMA2 预设（约 8 MB）"),
            CompressionLevel::Maximum => language.text(state, "LZMA2 preset (~16 MB)", "LZMA2 预设（约 16 MB）"),
            CompressionLevel::Ultra => language.text(state, "LZMA2 preset (~32 MB)", "LZMA2 预设（约 32 MB）"),
        },
        CompressionFormat::Zip => match options.zip_method {
            ZipCompressionMethod::Deflate => language.text(state, "Fixed by Deflate (32 KB)", "由 Deflate 固定（32 KB）"),
            ZipCompressionMethod::Stored => language.text(state, "Not used for Store mode", "Store 模式不使用字典"),
            _ => language.text(state, "Managed internally by the selected codec", "由所选编码器内部自动管理"),
        },
        _ => language.text(state, "Not exposed for TAR-based formats", "TAR 系列格式当前不暴露此参数"),
    };
    text.to_string()
}

/// What the word size is under the chosen settings.
pub open spec fn word_size_text(o: CompressionOptions, st: LocaleState) -> Seq<char> {
    if o.format == CompressionFormat::Zip && o.zip_method == ZipCompressionMethod::Deflate {
        localized(st, "Codec default"@, "编码器默认值"@)
    } else if o.format == CompressionFormat::SevenZip {
        localized(st, "Currently uses the native LZMA2 preset"@, "当前跟随原生 LZMA2 预设"@)
    } else {
        localized(st, "Not configurable in the current backend"@, "当前后端暂不支持配置"@)
    }
}

/// What the word size is under the chosen settings, in the current locale.
pub fn compression_word_size_text_for(
    options: &CompressionOptions,
    language: Language,
    state: &LocaleState,
) -> (r: String)
    ensures
        r@ == word_size_text(*options, *state),
{
    let text = match options.format {
        CompressionFormat::Zip if options.zip_method == ZipCompressionMethod::Deflate => language.text(
            state,
            "Codec default",
            "编码器默认值",
        ),
        CompressionFormat::SevenZip => language.text(
            state,
            "Currently uses the native LZMA2 preset",
            "当前跟随原生 LZMA2 预设",
        ),
        _ => language.text(state, "Not configurable in the current backend", "当前后端暂不支持配置"),
    };
    text.to_string()
}

/// Whether solid blocks are used under the chosen settings.
pub open spec fn solid_text(o: CompressionOptions, st: LocaleState) -> Seq<char> {
    if o.format == CompressionFormat::SevenZip {
        localized(
            st,
            "Adaptive solid batching for compressible files"@,
            "对可压缩文件使用自适应固实分批"@,
        )
    } else {
        localized(
            st,
            "Solid block mode is not available for the current formats"@,
            "当前支持的格式不提供固实块模式"@,
        )
    }
}

/// Whether solid blocks are used under the chosen settings, in the
/// current locale.
pub fn compression_solid_text_for(
    options: &CompressionOptions,
    language: Language,
    state: &LocaleState,
) -> (r: String)
    ensures
        r@ == solid_text(*options, *state),
{
    if options.format == CompressionFormat::SevenZip {
        return language.text(
            state,
            "Adaptive solid batching for compressible files",
            "对可压缩文件使用自适应固实分批",
        ).to_string();
    }
    language.text(
        state,
        "Solid block mode is not available for the current formats",
        "当前支持的格式不提供固实块模式",
    ).to_string()
}

/// A template with its thread count filled in.
pub open spec fn with_threads(t: Seq<char>, n: nat) -> Seq<char> {
    render(t, seq![("{thread_count}"@, decimal(n))])
}

/// The memory the chosen settings take, roughly.
pub open spec fn memory_text(o: CompressionOptions, st: LocaleState) -> Seq<char> {
    let n: nat = if o.thread_count >= 1 {
        o.thread_count as nat
    } else {
        1
    };
    match o.format {
        CompressionFormat::SevenZip | CompressionFormat::TarXz | CompressionFormat::Xz => if n == 1 {
            localized(st, "High (~64 MB+)"@, "高（约 64 MB+）"@)
        } else {
            with_threads(
                localized(st, "High (~64 MB+ x {thread_count} threads)"@, "高（约 64 MB+ x {thread_count} 个线程）"@),
                n,
            )
        },
        CompressionFormat::Zip => match o.zip_method {
            ZipCompressionMethod::Stored => localized(st, "Very low (< 8 MB, direct write)"@, "很低（< 8 MB，直接写入）"@),
            ZipCompressionMethod::Deflate => if n == 1 {
                localized(st, "Low (< 16 MB)"@, "低（< 16 MB）"@)
            } else {
                with_threads(
                    localized(
                        st,
                        "Low to medium (< 16 MB x {thread_count} workers)"@,
                        "低到中（< 16 MB x {thread_count} 个工作线程）"@,
                    ),
                    n,
                )
            },
            ZipCompressionMethod::Bzip2 => with_threads(
                localized(
                    st,
                    "Medium (~32 MB x up to {thread_count} workers)"@,
                    "中（约 32 MB x 最多 {thread_count} 个工作线程）"@,
                ),
                if n <= 8 { n } else { 8 },
            ),
            ZipCompressionMethod::Zstd => with_threads(
                localized(
                    st,
                    "Medium (32-64 MB x up to {thread_count} workers)"@,
                    "中（32-64 MB x 最多 {thread_count} 个工作线程）"@,
                ),
                if n <= 16 { n } else { 16 },
            ),
            ZipCompressionMethod::Xz => with_threads(
                localized(
                    st,
                    "High (64 MB+ x up to {thread_count} workers)"@,
                    "高（64 MB+ x 最多 {thread_count} 个工作线程）"@,
                ),
                if n <= 4 { n } else { 4 },
            ),
        },
        CompressionFormat::TarGz | CompressionFormat::Gz => localized(st, "Low (< 16 MB)"@, "低（< 16 MB）"@),
        CompressionFormat::TarBz2 | CompressionFormat::Bz2 | CompressionFormat::Zst
        | CompressionFormat::TarZst => localized(st, "Medium (~32 MB)"@, "中（约 32 MB）"@),
        CompressionFormat::Tar | CompressionFormat::Lz4 | CompressionFormat::TarLz4 => localized(
            st,
            "Very low (< 8 MB)"@,
            "很低（< 8 MB）"@,
        ),
    }
}

fn threads_template(language: Language, state: &LocaleState, english: &str, chinese: &str, n: u32) -> (r: String)
    ensures
        r@ == with_threads(localized(*state, english@, chinese@), n as nat),
{
    let mut digits: Vec<char> = Vec::new();
    push_decimal(&mut digits, n as u64);
    let reps = vec![("{thread_count}", string_of(digits.as_slice()))];
    proof {
        assert(pairs_of(reps@) =~= seq![("{thread_count}"@, decimal(n as nat))]);
    }
    language.format(state, english, chinese, reps.as_slice())
}

/// The memory the chosen settings take, roughly, in the current locale.
pub fn compression_memory_text_for(
    options: &CompressionOptions,
    language: Language,
    state: &LocaleState,
) -> (r: String)
    ensures
        r@ == memory_text(*options, *state),
{
    let n: u32 = if options.thread_count >= 1 {
        options.thread_count
    } else {
        1
    };
    match options.format {
        CompressionFormat::SevenZip | CompressionFormat::TarXz | CompressionFormat::Xz => {
            if n == 1 {
                language.text(state, "High (~64 MB+)", "高（约 64 MB+）").to_string()
            } else {
                threads_template(
                    language,
                    state,
                    "High (~64 MB+ x {thread_count} threads)",
                    "高（约 64 MB+ x {thread_count} 个线程）",
                    n,
                )
            }
        },
        CompressionFormat::Zip => match options.zip_method {
            ZipCompressionMethod::Stored => language.text(
                state,
                "Very low (< 8 MB, direct write)",
                "很低（< 8 MB，直接写入）",
            ).to_string(),
            ZipCompressionMethod::Deflate => if n == 1 {
                language.text(state, "Low (< 16 MB)", "低（< 16 MB）").to_string()
            } else {
                threads_template(
                    language,
                    state,
                    "Low to medium (< 16 MB x {thread_count} workers)",
                    "低到中（< 16 MB x {thread_count} 个工作线程）",
                    n,
                )
            },
            ZipCompressionMethod::Bzip2 => threads_template(
                language,
                state,
                "Medium (~32 MB x up to {thread_count} workers)",
                "中（约 32 MB x 最多 {thread_count} 个工作线程）",
                if n <= 8 { n } else { 8 },
            ),
            ZipCompressionMethod::Zstd => threads_template(
                language,
                state,
                "Medium (32-64 MB x up to {thread_count} workers)",
                "中（32-64 MB x 最多 {thread_count} 个工作线程）",
                if n <= 16 { n } else { 16 },
            ),
            ZipCompressionMethod::Xz => threads_template(
                language,
                state,
                "High (64 MB+ x up to {thread_count} workers)",
                "高（64 MB+ x 最多 {thread_count} 个工作线程）",
                if n <= 4 { n } else { 4 },
            ),
        },
        CompressionFormat::TarGz | CompressionFormat::Gz => language.text(
            state,
            "Low (< 16 MB)",
            "低（< 16 MB）",
        ).to_string(),
        CompressionFormat::TarBz2 | CompressionFormat::Bz2 | CompressionFormat::Zst
        | CompressionFormat::TarZst => language.text(state, "Medium (~32 MB)", "中（约 32 MB）").to_string(),
        CompressionFormat::Tar | CompressionFormat::Lz4 | CompressionFormat::TarLz4 => language.text(
            state,
            "Very low (< 8 MB)",
            "很低（< 8 MB）",
        ).to_string(),
    }
}

} // verus!
