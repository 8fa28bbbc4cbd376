//! Archive formats and compression choices, and how archive file names
//! end.

use vstd::prelude::*;

use crate::text::{chars_of, ends_with, has_suffix, lower, lower_chars};

verus! {

/// The archive formats FastZIP writes.
#[derive(Debug, Clone, Copy, PartialEq, Eq, Structural)]
pub enum CompressionFormat {
    SevenZip,
    Zip,
    Tar,
    TarGz,
    TarBz2,
    TarXz,
    Gz,
    Bz2,
    Xz,
    Zst,
    TarZst,
    Lz4,
    TarLz4,
}

/// Compression effort.
#[derive(Debug, Clone, Copy, PartialEq, Eq, Structural)]
pub enum CompressionLevel {
    Fastest,
    Fast,
    Normal,
    Maximum,
    Ultra,
}

/// How entries of a ZIP archive are compressed.
#[derive(Debug, Clone, Copy, PartialEq, Eq, Structural)]
pub enum ZipCompressionMethod {
    Deflate,
    Stored,
    Bzip2,
    Zstd,
    Xz,
}

/// What extraction does with files that already exist.
#[derive(Debug, Clone, Copy, PartialEq, Eq, Structural)]
pub enum OverwriteMode {
    Overwrite,
    Skip,
    Error,
}

/// Settings of one compression run.
pub struct CompressionOptions {
    pub format: CompressionFormat,
    pub level: CompressionLevel,
    pub zip_method: ZipCompressionMethod,
    pub thread_count: u32,
    pub password: Option<String>,
    pub encrypt_file_names: bool,
    pub split_volume_size: Option<u64>,
    pub sfx: bool,
}

/// The settings a compression run starts from: a ZIP archive at normal
/// level with Deflate, one thread, no password, no split volumes and no
/// self-extractor.
pub open spec fn default_options() -> CompressionOptions {
    CompressionOptions {
        format: CompressionFormat::Zip,
        level: CompressionLevel::Normal,
        zip_method: ZipCompressionMethod::Deflate,
        thread_count: 1,
        password: None,
        encrypt_file_names: false,
        split_volume_size: None,
        sfx: false,
    }
}

impl Default for CompressionOptions {
    fn default() -> (r: CompressionOptions)
        ensures
            r == default_options(),
    {
        CompressionOptions {
            format: CompressionFormat::Zip,
            level: CompressionLevel::Normal,
            zip_method: ZipCompressionMethod::Deflate,
            thread_count: 1,
            password: None,
            encrypt_file_names: false,
            split_volume_size: None,
            sfx: false,
        }
    }
}

/// Settings of one extraction run.
pub struct ExtractOptions {
    pub output_dir: String,
    pub overwrite_mode: OverwriteMode,
    pub keep_paths: bool,
    pub password: Option<String>,
    pub scan_files: bool,
}

/// The file name ending an archive of this format is written with.
pub open spec fn format_suffix(f: CompressionFormat) -> Seq<char> {
    match f {
        CompressionFormat::SevenZip => ".7z"@,
        CompressionFormat::Zip => ".zip"@,
        CompressionFormat::Tar => ".tar"@,
        CompressionFormat::TarGz => ".tar.gz"@,
        CompressionFormat::TarBz2 => ".tar.bz2"@,
        CompressionFormat::TarXz => ".tar.xz"@,
        CompressionFormat::Gz => ".gz"@,
        CompressionFormat::Bz2 => ".bz2"@,
        CompressionFormat::Xz => ".xz"@,
        CompressionFormat::Zst => ".zst"@,
        CompressionFormat::TarZst => ".tar.zst"@,
        CompressionFormat::Lz4 => ".lz4"@,
        CompressionFormat::TarLz4 => ".tar.lz4"@,
    }
}

/// The file name endings that are recognized, in the order they are
/// tried: the `.tar.*` forms and their short aliases come first.
pub open spec fn suffix_table() -> Seq<(Seq<char>, CompressionFormat)> {
    seq![
        (".tar.gz"@, CompressionFormat::TarGz),
        (".tgz"@, CompressionFormat::TarGz),
        (".tar.bz2"@, CompressionFormat::TarBz2),
        (".tbz2"@, CompressionFormat::TarBz2),
        (".tar.xz"@, CompressionFormat::TarXz),
        (".txz"@, CompressionFormat::TarXz),
        (".tar.zst"@, CompressionFormat::TarZst),
        (".tzst"@, CompressionFormat::TarZst),
        (".tar.lz4"@, CompressionFormat::TarLz4),
        (".tlz4"@, CompressionFormat::TarLz4),
        (".7z"@, CompressionFormat::SevenZip),
        (".zip"@, CompressionFormat::Zip),
        (".tar"@, CompressionFormat::Tar),
        (".gz"@, CompressionFormat::Gz),
        (".bz2"@, CompressionFormat::Bz2),
        (".bzip2"@, CompressionFormat::Bz2),
        (".xz"@, CompressionFormat::Xz),
        (".zst"@, CompressionFormat::Zst),
        (".zstd"@, CompressionFormat::Zst),
        (".lz4"@, CompressionFormat::Lz4),
    ]
}

/// The first entry of `table` from `k` on whose ending ends `name`.
pub open spec fn detect_from(table: Seq<(Seq<char>, CompressionFormat)>, name: Seq<char>, k: int) -> Option<
    CompressionFormat,
>
    decreases table.len() - k,
{
    if k < 0 || k >= table.len() {
        None
    } else if has_suffix(name, table[k].0) {
        Some(table[k].1)
    } else {
        detect_from(table, name, k + 1)
    }
}

/// The format an archive file name stands for, by its ending (ASCII case
/// ignored).
pub open spec fn detect_format(name: Seq<char>) -> Option<CompressionFormat> {
    detect_from(suffix_table(), lower(name), 0)
}

/// Formats that hold a single compressed file rather than an archive.
pub open spec fn single_file_stream(f: CompressionFormat) -> bool {
    match f {
        CompressionFormat::Gz | CompressionFormat::Bz2 | CompressionFormat::Xz
        | CompressionFormat::Zst | CompressionFormat::Lz4 => true,
        _ => false,
    }
}

/// Formats whose encoders run on several threads.
pub open spec fn threaded_format(f: CompressionFormat) -> bool {
    match f {
        CompressionFormat::SevenZip | CompressionFormat::Zip | CompressionFormat::Xz
        | CompressionFormat::TarXz | CompressionFormat::Zst | CompressionFormat::TarZst => true,
        _ => false,
    }
}

/// `has_suffix`, compared from the last character backwards.
pub open spec fn ends_rec(s: Seq<char>, p: Seq<char>) -> bool
    decreases p.len(),
{
    if p.len() == 0 {
        true
    } else if s.len() == 0 {
        false
    } else {
        s.last() == p.last() && ends_rec(s.drop_last(), p.drop_last())
    }
}

/// No ASCII upper-case letter, checked from the last character backwards.
pub open spec fn no_upper(s: Seq<char>) -> bool
    decreases s.len(),
{
    if s.len() == 0 {
        true
    } else {
        !('A' <= s.last() && s.last() <= 'Z') && no_upper(s.drop_last())
    }
}

pub proof fn lemma_ends_rec(s: Seq<char>, p: Seq<char>)
    ensures
        has_suffix(s, p) == ends_rec(s, p),
    decreases p.len(),
{
    if p.len() > 0 && s.len() > 0 {
        lemma_ends_rec(s.drop_last(), p.drop_last());
        if has_suffix(s, p) {
            assert(s.skip(s.len() - p.len()).drop_last() =~= s.drop_last().skip(
                s.drop_last().len() - p.drop_last().len(),
            ));
            assert(s.last() == s.skip(s.len() - p.len()).last());
        }
        if ends_rec(s, p) {
            let a = s.drop_last().skip(s.drop_last().len() - p.drop_last().len());
            assert(a == p.drop_last());
            assert(s.skip(s.len() - p.len()) =~= a.push(s.last()));
            assert(p =~= p.drop_last().push(p.last()));
        }
    } else if p.len() == 0 {
        assert(s.skip(s.len() - p.len()) =~= p);
    }
}

pub proof fn lemma_no_upper_lower(s: Seq<char>)
    requires
        no_upper(s),
    ensures
        lower(s) == s,
    decreases s.len(),
{
    if s.len() > 0 {
        lemma_no_upper_lower(s.drop_last());
        assert(lower(s) =~= s) by {
            assert forall|i: int| 0 <= i < s.len() implies lower(s)[i] == s[i] by {
                if i < s.len() - 1 {
                    assert(lower(s.drop_last())[i] == s.drop_last()[i]);
                }
            }
        }
    } else {
        assert(lower(s) =~= s);
    }
}

/// The name `stem + ending-of-f` is recognized as `f`, for a stem that is
/// not itself mistaken for part of an ending.
#[verifier::spinoff_prover]
#[verifier::rlimit(60)]
pub proof fn lemma_detect_own_suffix(f: CompressionFormat)
    ensures
        detect_format("dummy"@ + format_suffix(f)) == Some(f),
{
    let name = "dummy"@ + format_suffix(f);
    reveal_strlit("dummy");
    reveal_strlit(".tar.gz");
    reveal_strlit(".tgz");
    reveal_strlit(".tar.bz2");
    reveal_strlit(".tbz2");
    reveal_strlit(".tar.xz");
    reveal_strlit(".txz");
    reveal_strlit(".tar.zst");
    reveal_strlit(".tzst");
    reveal_strlit(".tar.lz4");
    reveal_strlit(".tlz4");
    reveal_strlit(".7z");
    reveal_strlit(".zip");
    reveal_strlit(".tar");
    reveal_strlit(".gz");
    reveal_strlit(".bz2");
    reveal_strlit(".bzip2");
    reveal_strlit(".xz");
    reveal_strlit(".zst");
    reveal_strlit(".zstd");
    reveal_strlit(".lz4");
    reveal_with_fuel(no_upper, 16);
    assert(no_upper(name));
    lemma_no_upper_lower(name);
    let t = suffix_table();
    assert forall|k: int| 0 <= k < t.len() implies has_suffix(name, #[trigger] t[k].0) == ends_rec(
        name,
        t[k].0,
    ) by {
        lemma_ends_rec(name, t[k].0);
    }
    reveal_with_fuel(ends_rec, 10);
    reveal_with_fuel(detect_from, 21);
}

fn suffix_table_exec() -> (r: Vec<(&'static str, CompressionFormat)>)
    ensures
        r@.len() == suffix_table().len(),
        forall|k: int|
            0 <= k < r@.len() ==> (#[trigger] r@[k]).0@ == suffix_table()[k].0 && r@[k].1
                == suffix_table()[k].1,
{
    let r = vec![
        (".tar.gz", CompressionFormat::TarGz),
        (".tgz", CompressionFormat::TarGz),
        (".tar.bz2", CompressionFormat::TarBz2),
        (".tbz2", CompressionFormat::TarBz2),
        (".tar.xz", CompressionFormat::TarXz),
        (".txz", CompressionFormat::TarXz),
        (".tar.zst", CompressionFormat::TarZst),
        (".tzst", CompressionFormat::TarZst),
        (".tar.lz4", CompressionFormat::TarLz4),
        (".tlz4", CompressionFormat::TarLz4),
        (".7z", CompressionFormat::SevenZip),
        (".zip", CompressionFormat::Zip),
        (".tar", CompressionFormat::Tar),
        (".gz", CompressionFormat::Gz),
        (".bz2", CompressionFormat::Bz2),
        (".bzip2", CompressionFormat::Bz2),
        (".xz", CompressionFormat::Xz),
        (".zst", CompressionFormat::Zst),
        (".zstd", CompressionFormat::Zst),
        (".lz4", CompressionFormat::Lz4),
    ];
    r
}

impl CompressionFormat {
    /// The file name ending archives of this format get, such as `.tar.gz`.
    pub fn primary_suffix(&self) -> (r: &'static str)
        ensures
            r@ == format_suffix(*self),
    {
        match self {
            CompressionFormat::SevenZip => ".7z",
            CompressionFormat::Zip => ".zip",
            CompressionFormat::Tar => ".tar",
            CompressionFormat::TarGz => ".tar.gz",
            CompressionFormat::TarBz2 => ".tar.bz2",
            CompressionFormat::TarXz => ".tar.xz",
            CompressionFormat::Gz => ".gz",
            CompressionFormat::Bz2 => ".bz2",
            CompressionFormat::Xz => ".xz",
            CompressionFormat::Zst => ".zst",
            CompressionFormat::TarZst => ".tar.zst",
            CompressionFormat::Lz4 => ".lz4",
            CompressionFormat::TarLz4 => ".tar.lz4",
        }
    }

    /// The format a file name stands for, by its ending (ASCII case
    /// ignored); `None` for other names.
    pub fn detect(file_name: &str) -> (r: Option<CompressionFormat>)
        ensures
            r == detect_format(file_name@),
    {
        let name = chars_of(file_name);
        let low = lower_chars(name.as_slice());
        let table = suffix_table_exec();
        let mut k: usize = 0;
        while k < table.len()
            invariant
                k <= table@.len(),
                table@.len() == suffix_table().len(),
                forall|j: int|
                    0 <= j < table@.len() ==> (#[trigger] table@[j]).0@ == suffix_table()[j].0
                        && table@[j].1 == suffix_table()[j].1,
                low@ == lower(file_name@),
                detect_format(file_name@) == detect_from(suffix_table(), low@, k as int),
            decreases table@.len() - k,
        {
            let (suffix, format) = table[k];
            if ends_with(low.as_slice(), suffix) {
                return Some(format);
            }
            k = k + 1;
        }
        None
    }

    /// The file name ends like an archive of this format.
    pub fn matches_file_name(&self, file_name: &str) -> (r: bool)
        ensures
            r == (detect_format(file_name@) == Some(*self)),
    {
        match CompressionFormat::detect(file_name) {
            Some(f) => f == *self,
            None => false,
        }
    }

    /// The format holds one compressed file rather than an archive.
    pub fn is_single_file_stream(&self) -> (r: bool)
        ensures
            r == single_file_stream(*self),
    {
        match self {
            CompressionFormat::Gz | CompressionFormat::Bz2 | CompressionFormat::Xz
            | CompressionFormat::Zst | CompressionFormat::Lz4 => true,
            _ => false,
        }
    }

    /// Whether the format can encrypt its contents with a password (ZIP and
    /// 7z can).
    pub fn supports_password_encryption(&self) -> (r: bool)
        ensures
            r == (*self == CompressionFormat::Zip || *self == CompressionFormat::SevenZip),
    {
        match self {
            CompressionFormat::Zip | CompressionFormat::SevenZip => true,
            _ => false,
        }
    }

    /// Whether the format has a choice of ZIP compression methods (only ZIP
    /// has).
    pub fn supports_zip_method(&self) -> (r: bool)
        ensures
            r == (*self == CompressionFormat::Zip),
    {
        match self {
            CompressionFormat::Zip => true,
            _ => false,
        }
    }

    /// Whether the format can encrypt the names of its entries (only 7z
    /// can).
    pub fn supports_encrypt_file_names(&self) -> (r: bool)
        ensures
            r == (*self == CompressionFormat::SevenZip),
    {
        match self {
            CompressionFormat::SevenZip => true,
            _ => false,
        }
    }

    /// The format's encoder runs on several threads.
    pub fn supports_thread_count(&self) -> (r: bool)
        ensures
            r == threaded_format(*self),
    {
        match self {
            CompressionFormat::SevenZip | CompressionFormat::Zip | CompressionFormat::Xz
            | CompressionFormat::TarXz | CompressionFormat::Zst | CompressionFormat::TarZst => true,
            _ => false,
        }
    }
}

} // verus!
