//! Requests that start the application from outside (opening an archive,
//! or compressing files chosen in the system's file manager) and the
//! texts of the window that follows such a compression.

use vstd::prelude::*;

use crate::archive::{default_options, threaded_format, CompressionFormat, CompressionOptions};
use crate::localization::{localize_message, localized, LocaleState};
use crate::paths::{path_eq, same_path, suggested_archive_output_path, suggested_output, views};
use crate::text::{chars_of, decimal, extend_str, push_decimal, string_of};
use crate::ui::{format_size, localize_format, pairs_of, render, size_text, Language};

verus! {

/// What the application was started to do.
pub enum GuiLaunchRequest {
    OpenArchive(String),
}

/// A compression run asked for from the file manager.
pub struct ShellCompressionRequest {
    pub sources: Vec<String>,
    pub output_path: String,
    pub options: CompressionOptions,
}

/// Arguments the file manager hands over unexpanded.
pub open spec fn is_placeholder(s: Seq<char>) -> bool {
    s == "%1"@ || s == "%L"@ || s == "%V"@ || s == "%*"@ || s == "%0"@ || s == "%2"@ || s == "%3"@
        || s == "%4"@ || s == "%5"@ || s == "%6"@ || s == "%7"@ || s == "%8"@ || s == "%9"@
}

/// Positions of the sources that are kept: no placeholder, and no path
/// already kept before.
pub open spec fn kept_sources(s: Seq<Seq<char>>) -> Seq<int>
    decreases s.len(),
{
    if s.len() == 0 {
        Seq::empty()
    } else {
        let prev = kept_sources(s.drop_last());
        let x = s.last();
        if is_placeholder(x) || exists|j: int|
            0 <= j < prev.len() && same_path(#[trigger] s[prev[j]], x) {
            prev
        } else {
            prev.push(s.len() - 1)
        }
    }
}

/// The first kept position whose source does not exist, or `-1`.
pub open spec fn first_missing(kept: Seq<int>, exists: Seq<bool>, k: int) -> int
    decreases kept.len() - k,
{
    if k < 0 || k >= kept.len() {
        -1
    } else if !exists[kept[k]] {
        kept[k]
    } else {
        first_missing(kept, exists, k + 1)
    }
}

/// The worker thread count used by default: the parallelism the machine
/// reports (`std::thread::available_parallelism`), at least one.
pub open spec fn default_threads(parallelism: Option<u32>) -> u32 {
    match parallelism {
        Some(n) if n >= 1 => n,
        _ => 1,
    }
}

/// The worker thread count used by default, from the parallelism the
/// machine reports (`None` where it reports none).
pub fn default_compression_thread_count(parallelism: Option<u32>) -> (r: u32)
    ensures
        r == default_threads(parallelism),
{
    match parallelism {
        Some(n) => if n >= 1 {
            n
        } else {
            1
        },
        None => 1,
    }
}

fn is_placeholder_exec(s: &str) -> (r: bool)
    ensures
        r == is_placeholder(s@),
{
    let c = crate::text::chars_of(s);
    let c = c.as_slice();
    use_eq(c, "%1") || use_eq(c, "%L") || use_eq(c, "%V") || use_eq(c, "%*") || use_eq(c, "%0")
        || use_eq(c, "%2") || use_eq(c, "%3") || use_eq(c, "%4") || use_eq(c, "%5") || use_eq(c, "%6")
        || use_eq(c, "%7") || use_eq(c, "%8") || use_eq(c, "%9")
}

fn use_eq(c: &[char], s: &str) -> (r: bool)
    ensures
        r == (c@ == s@),
{
    crate::text::chars_eq_str(c, s)
}

/// The request for compressing `sources` from the file manager.
/// `exists[i]` and `is_file[i]` tell whether `sources[i]` exists and is a
/// regular file; `parallelism` is what the machine reports.
///
/// Placeholders and repeated paths are dropped; it fails where nothing is
/// left or a kept source does not exist. The output path is the one given,
/// else the suggested one; the thread count is the default for formats
/// that use threads, else one.
pub fn create_shell_compression_request(
    sources: Vec<String>,
    exists: &[bool],
    is_file: &[bool],
    format: CompressionFormat,
    output_path: Option<String>,
    parallelism: Option<u32>,
    state: &LocaleState,
) -> (r: Result<ShellCompressionRequest, String>)
    requires
        exists@.len() == sources@.len(),
        is_file@.len() == sources@.len(),
    ensures
        ({
            let s = views(sources@);
            let kept = kept_sources(s);
            let missing = first_missing(kept, exists@, 0);
            let kept_paths = kept.map_values(|i: int| s[i]);
            &&& kept.len() == 0 ==> r is Err && r->Err_0@ == localized(
                *state,
                "Pick files or folders to compress first."@,
                "请先选择待压缩的文件或文件夹。"@,
            )
            &&& kept.len() > 0 && missing >= 0 ==> r is Err && r->Err_0@ == render(
                localized(
                    *state,
                    "Compression source not found: {source_path}"@,
                    "未找到待压缩源：{source_path}"@,
                ),
                seq![("{source_path}"@, s[missing])],
            )
            &&& kept.len() > 0 && missing < 0 ==> r is Ok && views(r->Ok_0.sources@) == kept_paths
                && r->Ok_0.output_path@ == (match output_path {
                Some(o) => o@,
                None => suggested_output(
                    kept_paths,
                    is_file@[kept[0]],
                    format,
                    *state,
                )->0,
            }) && r->Ok_0.options == (CompressionOptions {
                format,
                thread_count: if threaded_format(format) {
                    default_threads(parallelism)
                } else {
                    1
                },
                ..default_options()
            })
        }),
{
    let ghost s = views(sources@);
    let mut normalized: Vec<String> = Vec::new();
    let mut kept_exists: Vec<bool> = Vec::new();
    let mut kept_is_file: Vec<bool> = Vec::new();
    let ghost mut kept: Seq<int> = Seq::empty();
    let mut i: usize = 0;
    while i < sources.len()
        invariant
            i <= sources@.len(),
            s == views(sources@),
            exists@.len() == sources@.len(),
            is_file@.len() == sources@.len(),
            kept == kept_sources(s.take(i as int)),
            normalized@.len() == kept.len(),
            kept_exists@.len() == kept.len(),
            kept_is_file@.len() == kept.len(),
            forall|j: int| 0 <= j < kept.len() ==> 0 <= #[trigger] kept[j] < i,
            forall|j: int| 0 <= j < kept.len() ==> (#[trigger] normalized@[j])@ == s[kept[j]],
            forall|j: int| 0 <= j < kept.len() ==> #[trigger] kept_exists@[j] == exists@[kept[j]],
            forall|j: int| 0 <= j < kept.len() ==> #[trigger] kept_is_file@[j] == is_file@[kept[j]],
        decreases sources@.len() - i,
    {
        let source = &sources[i];
        proof {
            assert(s.take(i + 1).drop_last() =~= s.take(i as int));
            assert(s.take(i + 1).last() == s[i as int]);
            assert forall|j: int| 0 <= j < kept.len() implies s.take(i + 1)[kept[j]] == s[kept[j]] by {}
        }
        if !is_placeholder_exec(source.as_str()) {
            let mut dup = false;
            let mut j: usize = 0;
            while j < normalized.len()
                invariant
                    j <= normalized@.len(),
                    normalized@.len() == kept.len(),
                    !dup ==> forall|k: int| 0 <= k < j ==> !same_path(#[trigger] s[kept[k]], source@),
                    dup ==> exists|k: int| 0 <= k < kept.len() && same_path(#[trigger] s[kept[k]], source@),
                    forall|k: int|
                        0 <= k < kept.len() ==> (#[trigger] normalized@[k])@ == s[kept[k]],
                decreases normalized@.len() - j,
            {
                if path_eq(normalized[j].as_str(), source.as_str()) {
                    dup = true;
                }
                j = j + 1;
            }
            if !dup {
                proof {
                    assert(!(exists|k: int| 0 <= k < kept.len() && same_path(#[trigger] s.take(i + 1)[kept[k]], s.take(i + 1).last())));
                }
                let copy = source.clone();
                assert(copy@ == s[i as int]);
                normalized.push(copy);
                kept_exists.push(exists[i]);
                kept_is_file.push(is_file[i]);
                proof {
                    kept = kept.push(i as int);
                    assert(kept_sources(s.take(i + 1)) == kept);
                }
            } else {
                proof {
                    assert(exists|k: int| 0 <= k < kept.len() && same_path(#[trigger] s.take(i + 1)[kept[k]], s.take(i + 1).last()));
                }
            }
        }
        i = i + 1;
    }
    proof {
        assert(s.take(sources@.len() as int) =~= s);
    }
    if normalized.len() == 0 {
        return Err(localize_message(
            state,
            "Pick files or folders to compress first.",
            "请先选择待压缩的文件或文件夹。",
        ).to_string());
    }
    let mut k: usize = 0;
    while k < normalized.len()
        invariant
            k <= normalized@.len(),
            kept_exists@.len() == kept.len(),
            normalized@.len() == kept.len(),
            exists@.len() == sources@.len(),
            s == views(sources@),
            kept == kept_sources(s),
            first_missing(kept, exists@, 0) == first_missing(kept, exists@, k as int),
            forall|j: int| 0 <= j < kept.len() ==> 0 <= #[trigger] kept[j] < exists@.len(),
            forall|j: int| 0 <= j < kept.len() ==> (#[trigger] normalized@[j])@ == s[kept[j]],
            forall|j: int| 0 <= j < kept.len() ==> #[trigger] kept_exists@[j] == exists@[kept[j]],
        decreases normalized@.len() - k,
    {
        if !kept_exists[k] {
            let reps = vec![("{source_path}", normalized[k].clone())];
            proof {
                assert(kept_exists@[k as int] == exists@[kept[k as int]]);
                assert(first_missing(kept, exists@, k as int) == kept[k as int]);
                assert(normalized@[k as int]@ == s[kept[k as int]]);
                assert(pairs_of(reps@) =~= seq![("{source_path}"@, s[kept[k as int]])]);
            }
let message = localize_format(
                state,
                "Compression source not found: {source_path}",
                "未找到待压缩源：{source_path}",
                reps.as_slice(),
            );
            return Err(message);
        }
        k = k + 1;
    }
    let out = match output_path {
        Some(o) => o,
        None => {
            let suggested = suggested_archive_output_path(
                normalized.as_slice(),
                kept_is_file[0],
                format,
                Language::English,
                state,
            );
            assert(views(normalized@) =~= kept.map_values(|i: int| s[i]));
            match suggested {
                Some(p) => p,
                None => {
                    return Err(localize_message(
                        state,
                        "Failed to determine an output path for the selected sources",
                        "无法确定所选源的输出路径",
                    ).to_string());
                },
            }
        },
    };
    let mut options = CompressionOptions::default();
    options.format = format;
    options.thread_count = if format.supports_thread_count() {
        default_compression_thread_count(parallelism)
    } else {
        1
    };
    assert(views(normalized@) =~= kept.map_values(|i: int| s[i]));
    Ok(ShellCompressionRequest {
        sources: normalized,
        output_path: out,
        options,
    })
}


/// Every source a request keeps is a real path, not a placeholder, and no
/// two of them are the same path.
pub proof fn law_shell_sources_distinct(sources: Seq<Seq<char>>)
    ensures
        forall|i: int|
            0 <= i < kept_sources(sources).len() ==> !is_placeholder(
                #[trigger] sources[kept_sources(sources)[i]],
            ),
        forall|i: int, j: int|
            0 <= i < j < kept_sources(sources).len() ==> !same_path(
                #[trigger] sources[kept_sources(sources)[i]],
                #[trigger] sources[kept_sources(sources)[j]],
            ),
    decreases sources.len(),
{
    lemma_kept_in_range(sources);
    if sources.len() > 0 {
        let rest = sources.drop_last();
        law_shell_sources_distinct(rest);
        lemma_kept_in_range(rest);
        let prev = kept_sources(rest);
        assert forall|k: int| 0 <= k < prev.len() implies rest[prev[k]] == sources[prev[k]] by {}
    }
}

proof fn lemma_kept_in_range(sources: Seq<Seq<char>>)
    ensures
        forall|i: int|
            0 <= i < kept_sources(sources).len() ==> 0 <= #[trigger] kept_sources(sources)[i]
                < sources.len(),
    decreases sources.len(),
{
    if sources.len() > 0 {
        let rest = sources.drop_last();
        lemma_kept_in_range(rest);
        let prev = kept_sources(rest);
        let now = kept_sources(sources);
        assert(now == prev || now == prev.push(sources.len() - 1));
        assert forall|i: int| 0 <= i < now.len() implies 0 <= #[trigger] now[i] < sources.len() by {
            if i < prev.len() {
                assert(now[i] == prev[i]);
            }
        }
    }
}


// ---------------------------------------------------------------------
// Progress of a compression run from the file manager
// ---------------------------------------------------------------------

/// Where a compression run from the file manager stands.
#[derive(Debug, Clone, Copy, PartialEq, Eq, Structural)]
pub enum ShellCompressionState {
    Running,
    Canceling,
    Completed,
    Canceled,
    Failed,
}

/// How a message is shown.
#[derive(Debug, Clone, Copy, PartialEq, Eq, Structural)]
pub enum FeedbackTone {
    Info,
    Success,
    Error,
}

/// What a finished compression wrote.
#[derive(Debug, Clone, Copy, PartialEq, Eq, Structural)]
pub struct CompressionSummary {
    pub files_added: u64,
    pub directories_added: u64,
    pub input_bytes: u64,
    pub output_bytes: u64,
}

/// A compression run from the file manager as its progress window shows
/// it.
pub struct ShellCompressionProgress {
    pub output_path: String,
    pub state: ShellCompressionState,
    pub total_bytes: u64,
    pub processed_bytes: u64,
    pub report: Option<CompressionSummary>,
    pub error_message: Option<String>,
}

/// The headline of the progress window.
pub open spec fn status_headline(s: ShellCompressionState, st: LocaleState) -> Seq<char> {
    match s {
        ShellCompressionState::Running => localized(st, "Compressing..."@, "正在压缩..."@),
        ShellCompressionState::Canceling => localized(st, "Canceling..."@, "正在取消..."@),
        ShellCompressionState::Completed => localized(st, "Compression complete."@, "压缩完成。"@),
        ShellCompressionState::Canceled => localized(st, "Compression canceled."@, "压缩已取消。"@),
        ShellCompressionState::Failed => localized(st, "Compression failed."@, "压缩失败。"@),
    }
}

/// The line under the headline: progress while running, what was written
/// once complete, the archive path once canceled, the error once failed.
pub open spec fn status_detail(p: ShellCompressionProgress, st: LocaleState) -> Seq<char> {
    match p.state {
        ShellCompressionState::Running | ShellCompressionState::Canceling => if p.total_bytes == 0 {
            localized(st, "Preparing compression task..."@, "正在准备压缩任务..."@)
        } else {
            size_text(Some(p.processed_bytes), st) + " / "@ + size_text(Some(p.total_bytes), st)
        },
        ShellCompressionState::Completed => match p.report {
            Some(r) => decimal(r.files_added as nat) + " "@ + localized(st, "files"@, "个文件"@)
                + ", "@ + decimal(r.directories_added as nat) + " "@ + localized(st, "dirs"@, "个目录"@)
                + "  ·  "@ + size_text(Some(r.input_bytes), st) + " → "@ + size_text(
                Some(r.output_bytes),
                st,
            ),
            None => Seq::empty(),
        },
        ShellCompressionState::Canceled => p.output_path@,
        ShellCompressionState::Failed => match p.error_message {
            Some(e) => e@,
            None => localized(st, "Unknown error"@, "未知错误"@),
        },
    }
}

impl ShellCompressionProgress {
    /// The headline of the progress window, in the current locale.
    pub fn status_text(&self, language: Language, state: &LocaleState) -> (r: String)
        ensures
            r@ == status_headline(self.state, *state),
    {
        let text = match self.state {
            ShellCompressionState::Running => language.text(state, "Compressing...", "正在压缩..."),
            ShellCompressionState::Canceling => language.text(state, "Canceling...", "正在取消..."),
            ShellCompressionState::Completed => language.text(state, "Compression complete.", "压缩完成。"),
            ShellCompressionState::Canceled => language.text(state, "Compression canceled.", "压缩已取消。"),
            ShellCompressionState::Failed => language.text(state, "Compression failed.", "压缩失败。"),
        };
        text.to_string()
    }

    /// The line under the headline, in the current locale.
    pub fn detail_text(&self, language: Language, state: &LocaleState) -> (r: String)
        ensures
            r@ == status_detail(*self, *state),
    {
        match self.state {
            ShellCompressionState::Running | ShellCompressionState::Canceling => {
                if self.total_bytes == 0 {
                    return language.text(state, "Preparing compression task...", "正在准备压缩任务...").to_string();
                }
                let mut out = chars_of(format_size(Some(self.processed_bytes), language, state).as_str());
                extend_str(&mut out, " / ");
                extend_str(&mut out, format_size(Some(self.total_bytes), language, state).as_str());
                string_of(out.as_slice())
            },
            ShellCompressionState::Completed => match self.report {
                Some(r) => {
                    let mut out: Vec<char> = Vec::new();
                    push_decimal(&mut out, r.files_added);
                    extend_str(&mut out, " ");
                    extend_str(&mut out, language.text(state, "files", "个文件"));
                    extend_str(&mut out, ", ");
                    push_decimal(&mut out, r.directories_added);
                    extend_str(&mut out, " ");
                    extend_str(&mut out, language.text(state, "dirs", "个目录"));
                    extend_str(&mut out, "  ·  ");
                    extend_str(&mut out, format_size(Some(r.input_bytes), language, state).as_str());
                    extend_str(&mut out, " → ");
                    extend_str(&mut out, format_size(Some(r.output_bytes), language, state).as_str());
                    string_of(out.as_slice())
                },
                None => String::new(),
            },
            ShellCompressionState::Canceled => self.output_path.clone(),
            ShellCompressionState::Failed => match &self.error_message {
                Some(e) => e.clone(),
                None => language.text(state, "Unknown error", "未知错误").to_string(),
            },
        }
    }

    /// How the window's progress is shown: success once complete, error
    /// once failed, plain information otherwise.
    pub fn progress_tone(&self) -> (r: FeedbackTone)
        ensures
            r == (match self.state {
                ShellCompressionState::Completed => FeedbackTone::Success,
                ShellCompressionState::Failed => FeedbackTone::Error,
                _ => FeedbackTone::Info,
            }),
    {
        match self.state {
            ShellCompressionState::Completed => FeedbackTone::Success,
            ShellCompressionState::Failed => FeedbackTone::Error,
            _ => FeedbackTone::Info,
        }
    }
}

} // verus!
