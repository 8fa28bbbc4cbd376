//! What kind of file a path holds: by the first bytes of its content when
//! they are known, else by its name.

use vstd::prelude::*;

use crate::localization::{localized, LocaleState};
use crate::paths::{file_name_of, path_file_name};
use crate::text::{
    chars_eq, chars_eq_str, chars_of, ends_with, has_prefix, has_suffix, lower, lower_chars,
    starts_with, sub_chars, trim, trim_matches, trim_matches_range, trim_start, trimmed,
};
use crate::ui::Language;

verus! {

/// The kinds of files the file manager tells apart.
#[derive(Debug, Clone, Copy, PartialEq, Eq, Structural)]
pub enum DetectedFileKind {
    Directory,
    Zip,
    SevenZip,
    Rar,
    Tar,
    TarGz,
    TarBz2,
    TarXz,
    Gzip,
    Bzip2,
    Xz,
    Pdf,
    Png,
    Jpeg,
    Gif,
    Webp,
    Bmp,
    Tiff,
    Ico,
    Avif,
    Heic,
    Docx,
    Xlsx,
    Pptx,
    Epub,
    Odt,
    Ods,
    Odp,
    Apk,
    Jar,
    Exe,
    Mp3,
    Wav,
    Flac,
    Ogg,
    Mp4,
    Mov,
    Webm,
    Avi,
    Svg,
    Json,
    Xml,
    Rtf,
    Txt,
    Other,
}

/// The short label of a kind (every kind but `Other` has a fixed one).
pub open spec fn kind_label(k: DetectedFileKind) -> Seq<char> {
    match k {
        DetectedFileKind::Directory => "DIR"@,
        DetectedFileKind::Zip => "ZIP"@,
        DetectedFileKind::SevenZip => "7Z"@,
        DetectedFileKind::Rar => "RAR"@,
        DetectedFileKind::Tar => "TAR"@,
        DetectedFileKind::TarGz => "TAR.GZ"@,
        DetectedFileKind::TarBz2 => "TAR.BZ2"@,
        DetectedFileKind::TarXz => "TAR.XZ"@,
        DetectedFileKind::Gzip => "GZ"@,
        DetectedFileKind::Bzip2 => "BZ2"@,
        DetectedFileKind::Xz => "XZ"@,
        DetectedFileKind::Pdf => "PDF"@,
        DetectedFileKind::Png => "PNG"@,
        DetectedFileKind::Jpeg => "JPG"@,
        DetectedFileKind::Gif => "GIF"@,
        DetectedFileKind::Webp => "WEBP"@,
        DetectedFileKind::Bmp => "BMP"@,
        DetectedFileKind::Tiff => "TIFF"@,
        DetectedFileKind::Ico => "ICO"@,
        DetectedFileKind::Avif => "AVIF"@,
        DetectedFileKind::Heic => "HEIC"@,
        DetectedFileKind::Docx => "DOCX"@,
        DetectedFileKind::Xlsx => "XLSX"@,
        DetectedFileKind::Pptx => "PPTX"@,
        DetectedFileKind::Epub => "EPUB"@,
        DetectedFileKind::Odt => "ODT"@,
        DetectedFileKind::Ods => "ODS"@,
        DetectedFileKind::Odp => "ODP"@,
        DetectedFileKind::Apk => "APK"@,
        DetectedFileKind::Jar => "JAR"@,
        DetectedFileKind::Exe => "EXE"@,
        DetectedFileKind::Mp3 => "MP3"@,
        DetectedFileKind::Wav => "WAV"@,
        DetectedFileKind::Flac => "FLAC"@,
        DetectedFileKind::Ogg => "OGG"@,
        DetectedFileKind::Mp4 => "MP4"@,
        DetectedFileKind::Mov => "MOV"@,
        DetectedFileKind::Webm => "WEBM"@,
        DetectedFileKind::Avi => "AVI"@,
        DetectedFileKind::Svg => "SVG"@,
        DetectedFileKind::Json => "JSON"@,
        DetectedFileKind::Xml => "XML"@,
        DetectedFileKind::Rtf => "RTF"@,
        DetectedFileKind::Txt => "TXT"@,
        DetectedFileKind::Other => "Other"@,
    }
}

impl DetectedFileKind {
    /// The label shown for the kind; `Other` is translated.
    pub fn label<'a>(self, language: Language, state: &'a LocaleState) -> (r: &'a str)
        ensures
            self != DetectedFileKind::Other ==> r@ == kind_label(self),
            self == DetectedFileKind::Other ==> r@ == localized(*state, "Other"@, "其他"@),
    {
        match self {
            DetectedFileKind::Directory => "DIR",
            DetectedFileKind::Zip => "ZIP",
            DetectedFileKind::SevenZip => "7Z",
            DetectedFileKind::Rar => "RAR",
            DetectedFileKind::Tar => "TAR",
            DetectedFileKind::TarGz => "TAR.GZ",
            DetectedFileKind::TarBz2 => "TAR.BZ2",
            DetectedFileKind::TarXz => "TAR.XZ",
            DetectedFileKind::Gzip => "GZ",
            DetectedFileKind::Bzip2 => "BZ2",
            DetectedFileKind::Xz => "XZ",
            DetectedFileKind::Pdf => "PDF",
            DetectedFileKind::Png => "PNG",
            DetectedFileKind::Jpeg => "JPG",
            DetectedFileKind::Gif => "GIF",
            DetectedFileKind::Webp => "WEBP",
            DetectedFileKind::Bmp => "BMP",
            DetectedFileKind::Tiff => "TIFF",
            DetectedFileKind::Ico => "ICO",
            DetectedFileKind::Avif => "AVIF",
            DetectedFileKind::Heic => "HEIC",
            DetectedFileKind::Docx => "DOCX",
            DetectedFileKind::Xlsx => "XLSX",
            DetectedFileKind::Pptx => "PPTX",
            DetectedFileKind::Epub => "EPUB",
            DetectedFileKind::Odt => "ODT",
            DetectedFileKind::Ods => "ODS",
            DetectedFileKind::Odp => "ODP",
            DetectedFileKind::Apk => "APK",
            DetectedFileKind::Jar => "JAR",
            DetectedFileKind::Exe => "EXE",
            DetectedFileKind::Mp3 => "MP3",
            DetectedFileKind::Wav => "WAV",
            DetectedFileKind::Flac => "FLAC",
            DetectedFileKind::Ogg => "OGG",
            DetectedFileKind::Mp4 => "MP4",
            DetectedFileKind::Mov => "MOV",
            DetectedFileKind::Webm => "WEBM",
            DetectedFileKind::Avi => "AVI",
            DetectedFileKind::Svg => "SVG",
            DetectedFileKind::Json => "JSON",
            DetectedFileKind::Xml => "XML",
            DetectedFileKind::Rtf => "RTF",
            DetectedFileKind::Txt => "TXT",
            DetectedFileKind::Other => language.text(state, "Other", "其他"),
        }
    }

    /// Only plain ZIP archives offer the extract action.
    pub fn show_extract_action(self) -> (r: bool)
        ensures
            r == (self == DetectedFileKind::Zip),
    {
        match self {
            DetectedFileKind::Zip => true,
            _ => false,
        }
    }
}

// ---------------------------------------------------------------------
// Byte signatures
// ---------------------------------------------------------------------

/// `b` begins with the bytes `p`.
pub open spec fn starts_bytes(b: Seq<u8>, p: Seq<u8>) -> bool {
    p.len() <= b.len() && b.take(p.len() as int) == p
}

fn bytes_start(b: &[u8], p: &[u8]) -> (r: bool)
    ensures
        r == starts_bytes(b@, p@),
{
    if p.len() > b.len() {
        return false;
    }
    let mut i: usize = 0;
    while i < p.len()
        invariant
            p@.len() <= b@.len(),
            i <= p@.len(),
            forall|j: int| 0 <= j < i ==> b@[j] == p@[j],
        decreases p@.len() - i,
    {
        if b[i] != p[i] {
            assert(b@.take(p@.len() as int)[i as int] != p@[i as int]);
            return false;
        }
        i = i + 1;
    }
    assert(b@.take(p@.len() as int) =~= p@);
    true
}

/// `b[at..at + p.len()]` is `p`.
pub open spec fn bytes_at(b: Seq<u8>, at: int, p: Seq<u8>) -> bool {
    0 <= at && at + p.len() <= b.len() && b.subrange(at, at + p.len()) == p
}

fn bytes_at_exec(b: &[u8], at: usize, p: &[u8]) -> (r: bool)
    ensures
        r == bytes_at(b@, at as int, p@),
{
    if at > b.len() || p.len() > b.len() - at {
        return false;
    }
    let mut i: usize = 0;
    while i < p.len()
        invariant
            at + p@.len() <= b@.len(),
            at + p.len() <= b.len(),
            i <= p@.len(),
            forall|j: int| 0 <= j < i ==> b@[at + j] == p@[j],
        decreases p@.len() - i,
    {
        if b[at + i] != p[i] {
            assert(b@.subrange(at as int, at + p@.len())[i as int] != p@[i as int]);
            return false;
        }
        i = i + 1;
    }
    assert(b@.subrange(at as int, at + p@.len()) =~= p@);
    true
}

pub open spec fn png_sig(b: Seq<u8>) -> bool {
    starts_bytes(b, seq![0x89u8, 0x50, 0x4E, 0x47, 0x0D, 0x0A, 0x1A, 0x0A])
}

/// Whether the bytes start like a PNG image.
pub fn looks_like_png_signature(bytes: &[u8]) -> (r: bool)
    ensures
        r == png_sig(bytes@),
{
    let p = vec![0x89u8, 0x50, 0x4E, 0x47, 0x0D, 0x0A, 0x1A, 0x0A];
    proof {
        assert(p@ =~= seq![0x89u8, 0x50, 0x4E, 0x47, 0x0D, 0x0A, 0x1A, 0x0A]);
    }
    bytes_start(bytes, p.as_slice())
}

pub open spec fn jpeg_sig(b: Seq<u8>) -> bool {
    b.len() >= 3 && b[0] == 0xFF && b[1] == 0xD8 && b[2] == 0xFF
}

/// Whether the bytes start like a JPEG image.
pub fn looks_like_jpeg_signature(bytes: &[u8]) -> (r: bool)
    ensures
        r == jpeg_sig(bytes@),
{
    bytes.len() >= 3 && bytes[0] == 0xFF && bytes[1] == 0xD8 && bytes[2] == 0xFF
}

pub open spec fn gif_sig(b: Seq<u8>) -> bool {
    starts_bytes(b, seq![0x47u8, 0x49, 0x46, 0x38, 0x37, 0x61]) || starts_bytes(
        b,
        seq![0x47u8, 0x49, 0x46, 0x38, 0x39, 0x61],
    )
}

/// Whether the bytes start like a GIF image (`GIF87a` or `GIF89a`).
pub fn looks_like_gif_signature(bytes: &[u8]) -> (r: bool)
    ensures
        r == gif_sig(bytes@),
{
    let a = vec![0x47u8, 0x49, 0x46, 0x38, 0x37, 0x61];
    let b = vec![0x47u8, 0x49, 0x46, 0x38, 0x39, 0x61];
    proof {
        assert(a@ =~= seq![0x47u8, 0x49, 0x46, 0x38, 0x37, 0x61]);
        assert(b@ =~= seq![0x47u8, 0x49, 0x46, 0x38, 0x39, 0x61]);
    }
    bytes_start(bytes, a.as_slice()) || bytes_start(bytes, b.as_slice())
}

pub open spec fn ico_sig(b: Seq<u8>) -> bool {
    starts_bytes(b, seq![0x00u8, 0x00, 0x01, 0x00])
}

/// Whether the bytes start like a Windows icon.
pub fn looks_like_ico_signature(bytes: &[u8]) -> (r: bool)
    ensures
        r == ico_sig(bytes@),
{
    let p = vec![0x00u8, 0x00, 0x01, 0x00];
    proof {
        assert(p@ =~= seq![0x00u8, 0x00, 0x01, 0x00]);
    }
    bytes_start(bytes, p.as_slice())
}

pub open spec fn bmp_sig(b: Seq<u8>) -> bool {
    starts_bytes(b, seq![0x42u8, 0x4D])
}

/// Whether the bytes start like a BMP image (`BM`).
pub fn looks_like_bmp_signature(bytes: &[u8]) -> (r: bool)
    ensures
        r == bmp_sig(bytes@),
{
    let p = vec![0x42u8, 0x4D];
    proof {
        assert(p@ =~= seq![0x42u8, 0x4D]);
    }
    bytes_start(bytes, p.as_slice())
}

pub open spec fn tiff_sig(b: Seq<u8>) -> bool {
    starts_bytes(b, seq![0x49u8, 0x49, 0x2A, 0x00]) || starts_bytes(b, seq![0x4Du8, 0x4D, 0x00, 0x2A])
}

/// Whether the bytes start like a TIFF image, in either byte order.
pub fn looks_like_tiff_signature(bytes: &[u8]) -> (r: bool)
    ensures
        r == tiff_sig(bytes@),
{
    let a = vec![0x49u8, 0x49, 0x2A, 0x00];
    let b = vec![0x4Du8, 0x4D, 0x00, 0x2A];
    proof {
        assert(a@ =~= seq![0x49u8, 0x49, 0x2A, 0x00]);
        assert(b@ =~= seq![0x4Du8, 0x4D, 0x00, 0x2A]);
    }
    bytes_start(bytes, a.as_slice()) || bytes_start(bytes, b.as_slice())
}

pub open spec fn pdf_sig(b: Seq<u8>) -> bool {
    starts_bytes(b, seq![0x25u8, 0x50, 0x44, 0x46, 0x2D])
}

/// Whether the bytes start like a PDF document (`%PDF-`).
pub fn looks_like_pdf_signature(bytes: &[u8]) -> (r: bool)
    ensures
        r == pdf_sig(bytes@),
{
    let p = vec![0x25u8, 0x50, 0x44, 0x46, 0x2D];
    proof {
        assert(p@ =~= seq![0x25u8, 0x50, 0x44, 0x46, 0x2D]);
    }
    bytes_start(bytes, p.as_slice())
}

/// `{\rtf`
pub open spec fn rtf_sig(b: Seq<u8>) -> bool {
    starts_bytes(b, seq![0x7Bu8, 0x5C, 0x72, 0x74, 0x66])
}

/// Whether the bytes start like an RTF document (`{\\rtf`).
pub fn looks_like_rtf_signature(bytes: &[u8]) -> (r: bool)
    ensures
        r == rtf_sig(bytes@),
{
    let p = vec![0x7Bu8, 0x5C, 0x72, 0x74, 0x66];
    proof {
        assert(p@ =~= seq![0x7Bu8, 0x5C, 0x72, 0x74, 0x66]);
    }
    bytes_start(bytes, p.as_slice())
}

pub open spec fn zip_sig(b: Seq<u8>) -> bool {
    starts_bytes(b, seq![0x50u8, 0x4B, 0x03, 0x04]) || starts_bytes(b, seq![0x50u8, 0x4B, 0x05, 0x06])
        || starts_bytes(b, seq![0x50u8, 0x4B, 0x07, 0x08])
}

/// Whether the bytes start with one of the ZIP record signatures.
pub fn looks_like_zip_signature(bytes: &[u8]) -> (r: bool)
    ensures
        r == zip_sig(bytes@),
{
    let a = vec![0x50u8, 0x4B, 0x03, 0x04];
    let b = vec![0x50u8, 0x4B, 0x05, 0x06];
    let c = vec![0x50u8, 0x4B, 0x07, 0x08];
    proof {
        assert(a@ =~= seq![0x50u8, 0x4B, 0x03, 0x04]);
        assert(b@ =~= seq![0x50u8, 0x4B, 0x05, 0x06]);
        assert(c@ =~= seq![0x50u8, 0x4B, 0x07, 0x08]);
    }
    bytes_start(bytes, a.as_slice()) || bytes_start(bytes, b.as_slice()) || bytes_start(
        bytes,
        c.as_slice(),
    )
}

pub open spec fn sevenzip_sig(b: Seq<u8>) -> bool {
    starts_bytes(b, seq![0x37u8, 0x7A, 0xBC, 0xAF, 0x27, 0x1C])
}

/// Whether the bytes start like a 7z archive.
pub fn looks_like_7z_signature(bytes: &[u8]) -> (r: bool)
    ensures
        r == sevenzip_sig(bytes@),
{
    let p = vec![0x37u8, 0x7A, 0xBC, 0xAF, 0x27, 0x1C];
    proof {
        assert(p@ =~= seq![0x37u8, 0x7A, 0xBC, 0xAF, 0x27, 0x1C]);
    }
    bytes_start(bytes, p.as_slice())
}

pub open spec fn rar_sig(b: Seq<u8>) -> bool {
    starts_bytes(b, seq![0x52u8, 0x61, 0x72, 0x21, 0x1A, 0x07, 0x00]) || starts_bytes(
        b,
        seq![0x52u8, 0x61, 0x72, 0x21, 0x1A, 0x07, 0x01, 0x00],
    )
}

/// Whether the bytes start like a RAR archive (version 4 or 5).
pub fn looks_like_rar_signature(bytes: &[u8]) -> (r: bool)
    ensures
        r == rar_sig(bytes@),
{
    let a = vec![0x52u8, 0x61, 0x72, 0x21, 0x1A, 0x07, 0x00];
    let b = vec![0x52u8, 0x61, 0x72, 0x21, 0x1A, 0x07, 0x01, 0x00];
    proof {
        assert(a@ =~= seq![0x52u8, 0x61, 0x72, 0x21, 0x1A, 0x07, 0x00]);
        assert(b@ =~= seq![0x52u8, 0x61, 0x72, 0x21, 0x1A, 0x07, 0x01, 0x00]);
    }
    bytes_start(bytes, a.as_slice()) || bytes_start(bytes, b.as_slice())
}

/// `ustar` at offset 257 (of a header longer than 262 bytes).
pub open spec fn tar_sig(b: Seq<u8>) -> bool {
    b.len() > 262 && bytes_at(b, 257, seq![0x75u8, 0x73, 0x74, 0x61, 0x72])
}

/// Whether the bytes hold a `ustar` header magic at offset 257.
pub fn looks_like_tar_signature(bytes: &[u8]) -> (r: bool)
    ensures
        r == tar_sig(bytes@),
{
    let p = vec![0x75u8, 0x73, 0x74, 0x61, 0x72];
    proof {
        assert(p@ =~= seq![0x75u8, 0x73, 0x74, 0x61, 0x72]);
    }
    bytes.len() > 262 && bytes_at_exec(bytes, 257, p.as_slice())
}

pub open spec fn gzip_sig(b: Seq<u8>) -> bool {
    starts_bytes(b, seq![0x1Fu8, 0x8B])
}

/// Whether the bytes start like a gzip stream.
pub fn looks_like_gzip_signature(bytes: &[u8]) -> (r: bool)
    ensures
        r == gzip_sig(bytes@),
{
    let p = vec![0x1Fu8, 0x8B];
    proof {
        assert(p@ =~= seq![0x1Fu8, 0x8B]);
    }
    bytes_start(bytes, p.as_slice())
}

/// `BZh`
pub open spec fn bzip2_sig(b: Seq<u8>) -> bool {
    starts_bytes(b, seq![0x42u8, 0x5A, 0x68])
}

/// Whether the bytes start like a bzip2 stream (`BZh`).
pub fn looks_like_bzip2_signature(bytes: &[u8]) -> (r: bool)
    ensures
        r == bzip2_sig(bytes@),
{
    let p = vec![0x42u8, 0x5A, 0x68];
    proof {
        assert(p@ =~= seq![0x42u8, 0x5A, 0x68]);
    }
    bytes_start(bytes, p.as_slice())
}

pub open spec fn xz_sig(b: Seq<u8>) -> bool {
    starts_bytes(b, seq![0xFDu8, 0x37, 0x7A, 0x58, 0x5A, 0x00])
}

/// Whether the bytes start like an xz stream.
pub fn looks_like_xz_signature(bytes: &[u8]) -> (r: bool)
    ensures
        r == xz_sig(bytes@),
{
    let p = vec![0xFDu8, 0x37, 0x7A, 0x58, 0x5A, 0x00];
    proof {
        assert(p@ =~= seq![0xFDu8, 0x37, 0x7A, 0x58, 0x5A, 0x00]);
    }
    bytes_start(bytes, p.as_slice())
}

/// A RIFF container (`RIFF`) of the given form type at offset 8.
pub open spec fn riff_sig(b: Seq<u8>, kind: Seq<u8>) -> bool {
    b.len() >= 12 && starts_bytes(b, seq![0x52u8, 0x49, 0x46, 0x46]) && b.subrange(8, 12) == kind
}

/// Whether the bytes are a RIFF container of the given form type.
pub fn looks_like_riff_kind(bytes: &[u8], kind: &[u8; 4]) -> (r: bool)
    ensures
        r == riff_sig(bytes@, kind@),
{
    let p = vec![0x52u8, 0x49, 0x46, 0x46];
    proof {
        assert(p@ =~= seq![0x52u8, 0x49, 0x46, 0x46]);
    }
    if bytes.len() < 12 || !bytes_start(bytes, p.as_slice()) {
        return false;
    }
    let k = kind.as_slice();
    proof {
        assert(k@.len() == 4);
    }
    bytes_at_exec(bytes, 8, k)
}

/// `fLaC`
pub open spec fn flac_sig(b: Seq<u8>) -> bool {
    starts_bytes(b, seq![0x66u8, 0x4C, 0x61, 0x43])
}

/// Whether the bytes start like a FLAC stream (`fLaC`).
pub fn looks_like_flac_signature(bytes: &[u8]) -> (r: bool)
    ensures
        r == flac_sig(bytes@),
{
    let p = vec![0x66u8, 0x4C, 0x61, 0x43];
    proof {
        assert(p@ =~= seq![0x66u8, 0x4C, 0x61, 0x43]);
    }
    bytes_start(bytes, p.as_slice())
}

/// `OggS`
pub open spec fn ogg_sig(b: Seq<u8>) -> bool {
    starts_bytes(b, seq![0x4Fu8, 0x67, 0x67, 0x53])
}

/// Whether the bytes start like an Ogg stream (`OggS`).
pub fn looks_like_ogg_signature(bytes: &[u8]) -> (r: bool)
    ensures
        r == ogg_sig(bytes@),
{
    let p = vec![0x4Fu8, 0x67, 0x67, 0x53];
    proof {
        assert(p@ =~= seq![0x4Fu8, 0x67, 0x67, 0x53]);
    }
    bytes_start(bytes, p.as_slice())
}

/// An EBML header whose bytes contain `webm` somewhere.
pub open spec fn webm_sig(b: Seq<u8>) -> bool {
    starts_bytes(b, seq![0x1Au8, 0x45, 0xDF, 0xA3]) && exists|i: int|
        bytes_at(b, i, seq![0x77u8, 0x65, 0x62, 0x6D])
}

/// Whether the bytes start like an EBML file that mentions `webm`.
pub fn looks_like_webm_signature(bytes: &[u8]) -> (r: bool)
    ensures
        r == webm_sig(bytes@),
{
    let p = vec![0x1Au8, 0x45, 0xDF, 0xA3];
    let w = vec![0x77u8, 0x65, 0x62, 0x6D];
    proof {
        assert(p@ =~= seq![0x1Au8, 0x45, 0xDF, 0xA3]);
        assert(w@ =~= seq![0x77u8, 0x65, 0x62, 0x6D]);
    }
    if !bytes_start(bytes, p.as_slice()) {
        return false;
    }
    let mut i: usize = 0;
    while i < bytes.len() && bytes.len() - i >= 4
        invariant
            w@ == seq![0x77u8, 0x65, 0x62, 0x6D],
            starts_bytes(bytes@, seq![0x1Au8, 0x45, 0xDF, 0xA3]),
            forall|j: int| 0 <= j < i ==> !bytes_at(bytes@, j, w@),
        decreases bytes@.len() - i,
    {
        if bytes_at_exec(bytes, i, w.as_slice()) {
            assert(bytes_at(bytes@, i as int, seq![0x77u8, 0x65, 0x62, 0x6D]));
            return true;
        }
        i = i + 1;
    }
    assert forall|j: int| !bytes_at(bytes@, j, seq![0x77u8, 0x65, 0x62, 0x6D]) by {
        if j >= i {
            assert(!(j + 4 <= bytes@.len()));
        }
    }
    false
}

pub open spec fn mp3_sig(b: Seq<u8>) -> bool {
    starts_bytes(b, seq![0x49u8, 0x44, 0x33]) || (b.len() >= 4 && b[0] == 0xFF && (b[1] & 0xE0)
        == 0xE0 && (b[1] & 0x06) != 0 && (b[2] & 0xF0) != 0xF0 && (b[2] & 0x0C) != 0x0C)
}

/// Whether the bytes start like an MP3 file: an ID3 tag or an MPEG audio frame
/// header.
pub fn looks_like_mp3_signature(bytes: &[u8]) -> (r: bool)
    ensures
        r == mp3_sig(bytes@),
{
    let p = vec![0x49u8, 0x44, 0x33];
    proof {
        assert(p@ =~= seq![0x49u8, 0x44, 0x33]);
    }
    bytes_start(bytes, p.as_slice()) || (bytes.len() >= 4 && bytes[0] == 0xFF && (bytes[1] & 0xE0)
        == 0xE0 && (bytes[1] & 0x06) != 0 && (bytes[2] & 0xF0) != 0xF0 && (bytes[2] & 0x0C)
        != 0x0C)
}

/// `MZ`
pub open spec fn exe_sig(b: Seq<u8>) -> bool {
    starts_bytes(b, seq![0x4Du8, 0x5A])
}

/// Whether the bytes start like a DOS or Windows executable (`MZ`).
pub fn looks_like_exe_signature(bytes: &[u8]) -> (r: bool)
    ensures
        r == exe_sig(bytes@),
{
    let p = vec![0x4Du8, 0x5A];
    proof {
        assert(p@ =~= seq![0x4Du8, 0x5A]);
    }
    bytes_start(bytes, p.as_slice())
}

// ---------------------------------------------------------------------
// ISO base media files (MP4, MOV, HEIC, AVIF)
// ---------------------------------------------------------------------

/// The compatible brands (4-byte chunks from offset 8) include `brand`.
pub open spec fn has_brand(b: Seq<u8>, brand: Seq<u8>) -> bool {
    exists|k: int| 0 <= k && #[trigger] bytes_at(b, 8 + 4 * k, brand)
}

fn has_brand_exec(b: &[u8], brand: &[u8]) -> (r: bool)
    requires
        brand@.len() == 4,
    ensures
        r == has_brand(b@, brand@),
{
    let mut off: usize = 8;
    let ghost mut k: int = 0;
    while off < b.len() && b.len() - off >= 4
        invariant
            off == 8 + 4 * k,
            k >= 0,
            brand@.len() == 4,
            forall|j: int| 0 <= j < k ==> !#[trigger] bytes_at(b@, 8 + 4 * j, brand@),
        decreases b@.len() - off,
    {
        if bytes_at_exec(b, off, brand) {
            assert(bytes_at(b@, 8 + 4 * k, brand@));
            return true;
        }
        off = off + 4;
        proof {
            k = k + 1;
        }
    }
    assert forall|j: int| 0 <= j implies !#[trigger] bytes_at(b@, 8 + 4 * j, brand@) by {
        if j >= k {
            assert(8 + 4 * j + 4 > b@.len());
        }
    }
    false
}

pub open spec fn ftyp() -> Seq<u8> {
    seq![0x66u8, 0x74, 0x79, 0x70]
}

pub open spec fn brand_qt() -> Seq<u8> {
    seq![0x71u8, 0x74, 0x20, 0x20]
}

/// The HEIF/HEVC brands.
pub open spec fn heif_brands() -> Seq<Seq<u8>> {
    seq![
        seq![0x68u8, 0x65, 0x69, 0x63],
        seq![0x68u8, 0x65, 0x69, 0x78],
        seq![0x68u8, 0x65, 0x76, 0x63],
        seq![0x68u8, 0x65, 0x76, 0x78],
        seq![0x68u8, 0x65, 0x69, 0x66],
        seq![0x68u8, 0x65, 0x69, 0x6D],
        seq![0x68u8, 0x65, 0x69, 0x73],
    ]
}

/// The MP4 brands.
pub open spec fn mp4_brands() -> Seq<Seq<u8>> {
    seq![
        seq![0x69u8, 0x73, 0x6F, 0x6D],
        seq![0x69u8, 0x73, 0x6F, 0x32],
        seq![0x6Du8, 0x70, 0x34, 0x31],
        seq![0x6Du8, 0x70, 0x34, 0x32],
        seq![0x6Du8, 0x70, 0x37, 0x31],
        seq![0x4Du8, 0x53, 0x4E, 0x56],
        seq![0x61u8, 0x76, 0x63, 0x31],
        seq![0x64u8, 0x61, 0x73, 0x68],
        seq![0x4Du8, 0x34, 0x56, 0x20],
        seq![0x4Du8, 0x34, 0x41, 0x20],
    ]
}

pub open spec fn has_any_brand(b: Seq<u8>, brands: Seq<Seq<u8>>) -> bool {
    exists|j: int| 0 <= j < brands.len() && has_brand(b, #[trigger] brands[j])
}

/// The kind of an ISO base media file (`ftyp` box at offset 4), by its
/// major brand and compatible brands.
pub open spec fn iso_media_kind(b: Seq<u8>) -> Option<DetectedFileKind> {
    if b.len() < 16 || b.subrange(4, 8) != ftyp() {
        None
    } else if has_brand(b, seq![0x61u8, 0x76, 0x69, 0x66]) || has_brand(b, seq![0x61u8, 0x76, 0x69, 0x73]) {
        Some(DetectedFileKind::Avif)
    } else if heif_brands().contains(b.subrange(8, 12)) || b.subrange(8, 12) == brand_qt() {
        if b.subrange(8, 12) == brand_qt() {
            Some(DetectedFileKind::Mov)
        } else {
            Some(DetectedFileKind::Heic)
        }
    } else if has_any_brand(b, heif_brands()) {
        Some(DetectedFileKind::Heic)
    } else if has_brand(b, brand_qt()) {
        Some(DetectedFileKind::Mov)
    } else if has_any_brand(b, mp4_brands()) {
        Some(DetectedFileKind::Mp4)
    } else {
        None
    }
}

fn brand_list(which: bool) -> (r: Vec<Vec<u8>>)
    ensures
        r@.len() == (if which { heif_brands() } else { mp4_brands() }).len(),
        forall|j: int| 0 <= j < r@.len() ==> #[trigger] r@[j]@ == (if which { heif_brands() } else { mp4_brands() })[j],
{
    let r = if which {
        vec![
            vec![0x68u8, 0x65, 0x69, 0x63],
            vec![0x68u8, 0x65, 0x69, 0x78],
            vec![0x68u8, 0x65, 0x76, 0x63],
            vec![0x68u8, 0x65, 0x76, 0x78],
            vec![0x68u8, 0x65, 0x69, 0x66],
            vec![0x68u8, 0x65, 0x69, 0x6D],
            vec![0x68u8, 0x65, 0x69, 0x73],
        ]
    } else {
        vec![
            vec![0x69u8, 0x73, 0x6F, 0x6D],
            vec![0x69u8, 0x73, 0x6F, 0x32],
            vec![0x6Du8, 0x70, 0x34, 0x31],
            vec![0x6Du8, 0x70, 0x34, 0x32],
            vec![0x6Du8, 0x70, 0x37, 0x31],
            vec![0x4Du8, 0x53, 0x4E, 0x56],
            vec![0x61u8, 0x76, 0x63, 0x31],
            vec![0x64u8, 0x61, 0x73, 0x68],
            vec![0x4Du8, 0x34, 0x56, 0x20],
            vec![0x4Du8, 0x34, 0x41, 0x20],
        ]
    };
    proof {
        let t = if which { heif_brands() } else { mp4_brands() };
        assert forall|j: int| 0 <= j < r@.len() implies #[trigger] r@[j]@ == t[j] by {
            assert(r@[j]@ =~= t[j]);
        }
    }
    r
}

fn has_any_brand_exec(b: &[u8], which: bool) -> (r: bool)
    ensures
        r == has_any_brand(b@, if which { heif_brands() } else { mp4_brands() }),
{
    let list = brand_list(which);
    let ghost t = if which { heif_brands() } else { mp4_brands() };
    let mut j: usize = 0;
    while j < list.len()
        invariant
            j <= list@.len(),
            list@.len() == t.len(),
            t == (if which { heif_brands() } else { mp4_brands() }),
            forall|i: int| 0 <= i < list@.len() ==> #[trigger] list@[i]@ == t[i],
            forall|i: int| 0 <= i < j ==> !has_brand(b@, #[trigger] t[i]),
        decreases list@.len() - j,
    {
        proof {
            assert(list@[j as int]@ == t[j as int]);
            assert(t[j as int].len() == 4);
        }
        if has_brand_exec(b, list[j].as_slice()) {
            return true;
        }
        j = j + 1;
    }
    false
}

fn is_major_brand_in(b: &[u8], which: bool) -> (r: bool)
    requires
        b@.len() >= 12,
    ensures
        r == (if which { heif_brands() } else { mp4_brands() }).contains(b@.subrange(8, 12)),
{
    let list = brand_list(which);
    let ghost t = if which { heif_brands() } else { mp4_brands() };
    let mut j: usize = 0;
    while j < list.len()
        invariant
            b@.len() >= 12,
            j <= list@.len(),
            list@.len() == t.len(),
            t == (if which { heif_brands() } else { mp4_brands() }),
            forall|i: int| 0 <= i < list@.len() ==> #[trigger] list@[i]@ == t[i],
            forall|i: int| 0 <= i < j ==> t[i] != b@.subrange(8, 12),
        decreases list@.len() - j,
    {
        if bytes_at_exec(b, 8, list[j].as_slice()) {
            assert(t[j as int] == b@.subrange(8, 12));
            return true;
        }
        j = j + 1;
    }
    false
}

/// The kind an ISO base media file (`ftyp` box) is, by its brands.
pub fn detect_iso_base_media_kind(bytes: &[u8]) -> (r: Option<DetectedFileKind>)
    ensures
        r == iso_media_kind(bytes@),
{
    let f = vec![0x66u8, 0x74, 0x79, 0x70];
    proof {
        assert(f@ =~= ftyp());
    }
    if bytes.len() < 16 || !bytes_at_exec(bytes, 4, f.as_slice()) {
        return None;
    }
    let avif = vec![0x61u8, 0x76, 0x69, 0x66];
    let avis = vec![0x61u8, 0x76, 0x69, 0x73];
    let qt = vec![0x71u8, 0x74, 0x20, 0x20];
    proof {
        assert(avif@ =~= seq![0x61u8, 0x76, 0x69, 0x66]);
        assert(avis@ =~= seq![0x61u8, 0x76, 0x69, 0x73]);
        assert(qt@ =~= brand_qt());
    }
    if has_brand_exec(bytes, avif.as_slice()) || has_brand_exec(bytes, avis.as_slice()) {
        return Some(DetectedFileKind::Avif);
    }
    let major_qt = bytes_at_exec(bytes, 8, qt.as_slice());
    if is_major_brand_in(bytes, true) || major_qt {
        if major_qt {
            return Some(DetectedFileKind::Mov);
        }
        return Some(DetectedFileKind::Heic);
    }
    if has_any_brand_exec(bytes, true) {
        return Some(DetectedFileKind::Heic);
    }
    if has_brand_exec(bytes, qt.as_slice()) {
        return Some(DetectedFileKind::Mov);
    }
    if has_any_brand_exec(bytes, false) {
        return Some(DetectedFileKind::Mp4);
    }
    None
}

// ---------------------------------------------------------------------
// Text files
// ---------------------------------------------------------------------

/// Control bytes other than tab, line feed and carriage return.
pub open spec fn is_control(x: u8) -> bool {
    (0x01 <= x && x <= 0x08) || x == 0x0B || x == 0x0C || (0x0E <= x && x <= 0x1F)
}

/// How many control bytes `s` holds.
pub open spec fn control_count(s: Seq<u8>) -> nat
    decreases s.len(),
{
    if s.len() == 0 {
        0
    } else {
        control_count(s.drop_last()) + (if is_control(s.last()) { 1nat } else { 0nat })
    }
}

/// A byte-order mark of UTF-16 (either byte order).
pub open spec fn utf16_bom(b: Seq<u8>) -> bool {
    starts_bytes(b, seq![0xFFu8, 0xFE]) || starts_bytes(b, seq![0xFEu8, 0xFF])
}

/// Content that reads as text: a UTF-16 byte-order mark, or no zero byte
/// and at most one control byte in ten among the first 2048 bytes.
pub open spec fn text_like(b: Seq<u8>) -> bool {
    let n = if b.len() < 2048 { b.len() } else { 2048 };
    b.len() > 0 && (utf16_bom(b) || (!b.contains(0u8) && control_count(b.take(n as int)) * 10 <= n))
}

fn utf16_bom_exec(b: &[u8]) -> (r: bool)
    ensures
        r == utf16_bom(b@),
{
    let a = vec![0xFFu8, 0xFE];
    let c = vec![0xFEu8, 0xFF];
    proof {
        assert(a@ =~= seq![0xFFu8, 0xFE]);
        assert(c@ =~= seq![0xFEu8, 0xFF]);
    }
    bytes_start(b, a.as_slice()) || bytes_start(b, c.as_slice())
}

/// Whether the bytes look like text: a UTF-16 byte-order mark, or no NUL byte
/// and few control characters in the first 2048 bytes.
pub fn looks_like_text(bytes: &[u8]) -> (r: bool)
    ensures
        r == text_like(bytes@),
{
    if bytes.len() == 0 {
        return false;
    }
    if utf16_bom_exec(bytes) {
        return true;
    }
    let mut i: usize = 0;
    while i < bytes.len()
        invariant
            i <= bytes@.len(),
            !utf16_bom(bytes@),
            forall|j: int| 0 <= j < i ==> bytes@[j] != 0u8,
        decreases bytes@.len() - i,
    {
        if bytes[i] == 0 {
            assert(bytes@.contains(0u8));
            return false;
        }
        i = i + 1;
    }
    let n: usize = if bytes.len() < 2048 { bytes.len() } else { 2048 };
    let mut count: usize = 0;
    let mut k: usize = 0;
    while k < n
        invariant
            n <= bytes@.len(),
            n <= 2048,
            k <= n,
            count == control_count(bytes@.take(k as int)),
            count <= k,
        decreases n - k,
    {
        let x = bytes[k];
        proof {
            assert(bytes@.take(k + 1).drop_last() =~= bytes@.take(k as int));
        }
        if (0x01 <= x && x <= 0x08) || x == 0x0B || x == 0x0C || (0x0E <= x && x <= 0x1F) {
            count = count + 1;
        }
        k = k + 1;
    }
    count * 10 <= n
}

/// `String::from_utf8_lossy`: the text the bytes decode to, with each
/// invalid sequence read as `U+FFFD`.
pub uninterp spec fn lossy_text(b: Seq<u8>) -> Seq<char>;

/// Decodes bytes as UTF-8, replacing invalid sequences
/// (`String::from_utf8_lossy`). Claimed: the result is `lossy_text` of the
/// bytes, and for valid UTF-8 it is the decoding of the bytes.
#[verifier::external_body]
fn utf8_lossy(bytes: &[u8]) -> (r: String)
    ensures
        r@ == lossy_text(bytes@),
        vstd::utf8::valid_utf8(bytes@) ==> r@ == vstd::utf8::decode_utf8(bytes@),
{
    String::from_utf8_lossy(bytes).to_string()
}

/// The kind of a text file by how its content starts (after leading
/// whitespace, ASCII case ignored).
pub open spec fn text_kind_of(lowered: Seq<char>) -> DetectedFileKind {
    if has_prefix(lowered, "{\\rtf"@) {
        DetectedFileKind::Rtf
    } else if has_prefix(lowered, "{"@) || has_prefix(lowered, "["@) {
        DetectedFileKind::Json
    } else if has_prefix(lowered, "<svg"@) || crate::update::find_sub(lowered, "<svg"@) >= 0 {
        DetectedFileKind::Svg
    } else if has_prefix(lowered, "<?xml"@) || (has_prefix(lowered, "<"@) && !has_prefix(
        lowered,
        "<!doctype html"@,
    ) && !has_prefix(lowered, "<html"@)) {
        DetectedFileKind::Xml
    } else {
        DetectedFileKind::Txt
    }
}

/// The UTF-8 byte-order mark.
pub open spec fn utf8_bom(b: Seq<u8>) -> bool {
    starts_bytes(b, seq![0xEFu8, 0xBB, 0xBF])
}

/// The kind of a file whose content looks like text.
pub open spec fn text_file_kind(b: Seq<u8>) -> DetectedFileKind {
    if utf16_bom(b) {
        DetectedFileKind::Txt
    } else {
        let body = if utf8_bom(b) { b.skip(3) } else { b };
        text_kind_of(lower(trim_start(lossy_text(body))))
    }
}

fn trim_start_chars(s: &[char]) -> (r: Vec<char>)
    ensures
        r@ == trim_start(s@),
{
    let mut a: usize = 0;
    proof {
        assert(s@.subrange(0, s@.len() as int) =~= s@);
    }
    while a < s.len() && crate::text::is_whitespace(s[a])
        invariant
            a <= s@.len(),
            trim_start(s@) == trim_start(s@.subrange(a as int, s@.len() as int)),
        decreases s@.len() - a,
    {
        assert(s@.subrange(a as int, s@.len() as int).drop_first() =~= s@.subrange(a + 1, s@.len() as int));
        a = a + 1;
    }
    crate::text::sub_chars(s, a, s.len())
}

/// The bytes after a UTF-8 byte-order mark, or all of them.
pub open spec fn text_body(b: Seq<u8>) -> Seq<u8> {
    if utf8_bom(b) {
        b.skip(3)
    } else {
        b
    }
}

/// The kind of a file whose bytes look like text, by how its text starts.
/// Where the bytes (after a UTF-8 byte-order mark) are valid UTF-8, the
/// text is their decoding.
pub fn detect_text_file_kind(bytes: &[u8]) -> (r: DetectedFileKind)
    ensures
        r == text_file_kind(bytes@),
        !utf16_bom(bytes@) && vstd::utf8::valid_utf8(text_body(bytes@)) ==> r == text_kind_of(
            lower(trim_start(vstd::utf8::decode_utf8(text_body(bytes@)))),
        ),
{
    if utf16_bom_exec(bytes) {
        return DetectedFileKind::Txt;
    }
    let bom = vec![0xEFu8, 0xBB, 0xBF];
    proof {
        assert(bom@ =~= seq![0xEFu8, 0xBB, 0xBF]);
    }
    let snippet = if bytes_start(bytes, bom.as_slice()) {
        let mut rest: Vec<u8> = Vec::new();
        let mut i: usize = 3;
        while i < bytes.len()
            invariant
                3 <= i <= bytes@.len(),
                rest@ == bytes@.subrange(3, i as int),
            decreases bytes@.len() - i,
        {
            rest.push(bytes[i]);
            i = i + 1;
            assert(rest@ =~= bytes@.subrange(3, i as int));
        }
        assert(rest@ =~= bytes@.skip(3));
        utf8_lossy(rest.as_slice())
    } else {
        utf8_lossy(bytes)
    };
    let chars = chars_of(snippet.as_str());
    let trimmed = trim_start_chars(chars.as_slice());
    let low = lower_chars(trimmed.as_slice());
    let l = low.as_slice();
    if starts_with(l, "{\\rtf") {
        return DetectedFileKind::Rtf;
    }
    if starts_with(l, "{") || starts_with(l, "[") {
        return DetectedFileKind::Json;
    }
    let svg = chars_of("<svg");
    let found = crate::update::find_sub_exec(l, svg.as_slice());
    if starts_with(l, "<svg") || found.is_some() {
        return DetectedFileKind::Svg;
    }
    if starts_with(l, "<?xml") || (starts_with(l, "<") && !starts_with(l, "<!doctype html")
        && !starts_with(l, "<html")) {
        return DetectedFileKind::Xml;
    }
    DetectedFileKind::Txt
}


// ---------------------------------------------------------------------
// Kinds by file name
// ---------------------------------------------------------------------

/// The text a path is known by for its kind: its final component, or the
/// whole path where it has none, ASCII lower-cased.
pub open spec fn lower_name_of(path: Seq<char>) -> Seq<char> {
    lower(
        match file_name_of(path) {
            Some(n) => n,
            None => path,
        },
    )
}

/// The kind a lower-cased file name suggests by its ending: archives and
/// images.
pub open spec fn archive_or_image_by_name(n: Seq<char>) -> DetectedFileKind {
    if has_suffix(n, ".tar.gz"@) || has_suffix(n, ".tgz"@) {
        DetectedFileKind::TarGz
    } else if has_suffix(n, ".tar.bz2"@) || has_suffix(n, ".tbz2"@) {
        DetectedFileKind::TarBz2
    } else if has_suffix(n, ".tar.xz"@) || has_suffix(n, ".txz"@) {
        DetectedFileKind::TarXz
    } else if has_suffix(n, ".7z"@) {
        DetectedFileKind::SevenZip
    } else if has_suffix(n, ".zip"@) {
        DetectedFileKind::Zip
    } else if has_suffix(n, ".rar"@) {
        DetectedFileKind::Rar
    } else if has_suffix(n, ".tar"@) {
        DetectedFileKind::Tar
    } else if has_suffix(n, ".gz"@) {
        DetectedFileKind::Gzip
    } else if has_suffix(n, ".bz2"@) || has_suffix(n, ".bzip2"@) {
        DetectedFileKind::Bzip2
    } else if has_suffix(n, ".xz"@) {
        DetectedFileKind::Xz
    } else if has_suffix(n, ".png"@) {
        DetectedFileKind::Png
    } else if has_suffix(n, ".jpg"@) || has_suffix(n, ".jpeg"@) {
        DetectedFileKind::Jpeg
    } else if has_suffix(n, ".gif"@) {
        DetectedFileKind::Gif
    } else if has_suffix(n, ".webp"@) {
        DetectedFileKind::Webp
    } else if has_suffix(n, ".bmp"@) {
        DetectedFileKind::Bmp
    } else if has_suffix(n, ".tif"@) || has_suffix(n, ".tiff"@) {
        DetectedFileKind::Tiff
    } else if has_suffix(n, ".ico"@) {
        DetectedFileKind::Ico
    } else if has_suffix(n, ".avif"@) {
        DetectedFileKind::Avif
    } else if has_suffix(n, ".heic"@) || has_suffix(n, ".heif"@) {
        DetectedFileKind::Heic
    } else {
        document_or_media_by_name(n)
    }
}

/// The kind a lower-cased file name suggests by its ending: documents,
/// media and text; `Other` when no ending is known.
pub open spec fn document_or_media_by_name(n: Seq<char>) -> DetectedFileKind {
    if has_suffix(n, ".pdf"@) {
        DetectedFileKind::Pdf
    } else if has_suffix(n, ".docx"@) {
        DetectedFileKind::Docx
    } else if has_suffix(n, ".xlsx"@) {
        DetectedFileKind::Xlsx
    } else if has_suffix(n, ".pptx"@) {
        DetectedFileKind::Pptx
    } else if has_suffix(n, ".epub"@) {
        DetectedFileKind::Epub
    } else if has_suffix(n, ".odt"@) {
        DetectedFileKind::Odt
    } else if has_suffix(n, ".ods"@) {
        DetectedFileKind::Ods
    } else if has_suffix(n, ".odp"@) {
        DetectedFileKind::Odp
    } else if has_suffix(n, ".apk"@) {
        DetectedFileKind::Apk
    } else if has_suffix(n, ".jar"@) {
        DetectedFileKind::Jar
    } else if has_suffix(n, ".exe"@) {
        DetectedFileKind::Exe
    } else if has_suffix(n, ".mp3"@) {
        DetectedFileKind::Mp3
    } else if has_suffix(n, ".wav"@) {
        DetectedFileKind::Wav
    } else if has_suffix(n, ".flac"@) {
        DetectedFileKind::Flac
    } else if has_suffix(n, ".ogg"@) {
        DetectedFileKind::Ogg
    } else if has_suffix(n, ".mp4"@) || has_suffix(n, ".m4v"@) {
        DetectedFileKind::Mp4
    } else if has_suffix(n, ".mov"@) {
        DetectedFileKind::Mov
    } else if has_suffix(n, ".webm"@) {
        DetectedFileKind::Webm
    } else if has_suffix(n, ".avi"@) {
        DetectedFileKind::Avi
    } else if has_suffix(n, ".svg"@) {
        DetectedFileKind::Svg
    } else if has_suffix(n, ".json"@) {
        DetectedFileKind::Json
    } else if has_suffix(n, ".xml"@) {
        DetectedFileKind::Xml
    } else if has_suffix(n, ".rtf"@) {
        DetectedFileKind::Rtf
    } else if has_suffix(n, ".txt"@) || has_suffix(n, ".md"@) || has_suffix(n, ".toml"@) || has_suffix(n, ".yaml"@) || has_suffix(n, ".yml"@) || has_suffix(n, ".ini"@) || has_suffix(n, ".log"@) {
        DetectedFileKind::Txt
    } else {
        DetectedFileKind::Other
    }
}

fn document_or_media_kind(n: &[char]) -> (r: DetectedFileKind)
    ensures
        r == document_or_media_by_name(n@),
{
    if ends_with(n, ".pdf") {
        DetectedFileKind::Pdf
    } else if ends_with(n, ".docx") {
        DetectedFileKind::Docx
    } else if ends_with(n, ".xlsx") {
        DetectedFileKind::Xlsx
    } else if ends_with(n, ".pptx") {
        DetectedFileKind::Pptx
    } else if ends_with(n, ".epub") {
        DetectedFileKind::Epub
    } else if ends_with(n, ".odt") {
        DetectedFileKind::Odt
    } else if ends_with(n, ".ods") {
        DetectedFileKind::Ods
    } else if ends_with(n, ".odp") {
        DetectedFileKind::Odp
    } else if ends_with(n, ".apk") {
        DetectedFileKind::Apk
    } else if ends_with(n, ".jar") {
        DetectedFileKind::Jar
    } else if ends_with(n, ".exe") {
        DetectedFileKind::Exe
    } else if ends_with(n, ".mp3") {
        DetectedFileKind::Mp3
    } else if ends_with(n, ".wav") {
        DetectedFileKind::Wav
    } else if ends_with(n, ".flac") {
        DetectedFileKind::Flac
    } else if ends_with(n, ".ogg") {
        DetectedFileKind::Ogg
    } else if ends_with(n, ".mp4") || ends_with(n, ".m4v") {
        DetectedFileKind::Mp4
    } else if ends_with(n, ".mov") {
        DetectedFileKind::Mov
    } else if ends_with(n, ".webm") {
        DetectedFileKind::Webm
    } else if ends_with(n, ".avi") {
        DetectedFileKind::Avi
    } else if ends_with(n, ".svg") {
        DetectedFileKind::Svg
    } else if ends_with(n, ".json") {
        DetectedFileKind::Json
    } else if ends_with(n, ".xml") {
        DetectedFileKind::Xml
    } else if ends_with(n, ".rtf") {
        DetectedFileKind::Rtf
    } else if ends_with(n, ".txt") || ends_with(n, ".md") || ends_with(n, ".toml") || ends_with(n, ".yaml") || ends_with(n, ".yml") || ends_with(n, ".ini") || ends_with(n, ".log") {
        DetectedFileKind::Txt
    } else {
        DetectedFileKind::Other
    }
}

fn archive_or_image_kind(n: &[char]) -> (r: DetectedFileKind)
    ensures
        r == archive_or_image_by_name(n@),
{
    if ends_with(n, ".tar.gz") || ends_with(n, ".tgz") {
        DetectedFileKind::TarGz
    } else if ends_with(n, ".tar.bz2") || ends_with(n, ".tbz2") {
        DetectedFileKind::TarBz2
    } else if ends_with(n, ".tar.xz") || ends_with(n, ".txz") {
        DetectedFileKind::TarXz
    } else if ends_with(n, ".7z") {
        DetectedFileKind::SevenZip
    } else if ends_with(n, ".zip") {
        DetectedFileKind::Zip
    } else if ends_with(n, ".rar") {
        DetectedFileKind::Rar
    } else if ends_with(n, ".tar") {
        DetectedFileKind::Tar
    } else if ends_with(n, ".gz") {
        DetectedFileKind::Gzip
    } else if ends_with(n, ".bz2") || ends_with(n, ".bzip2") {
        DetectedFileKind::Bzip2
    } else if ends_with(n, ".xz") {
        DetectedFileKind::Xz
    } else if ends_with(n, ".png") {
        DetectedFileKind::Png
    } else if ends_with(n, ".jpg") || ends_with(n, ".jpeg") {
        DetectedFileKind::Jpeg
    } else if ends_with(n, ".gif") {
        DetectedFileKind::Gif
    } else if ends_with(n, ".webp") {
        DetectedFileKind::Webp
    } else if ends_with(n, ".bmp") {
        DetectedFileKind::Bmp
    } else if ends_with(n, ".tif") || ends_with(n, ".tiff") {
        DetectedFileKind::Tiff
    } else if ends_with(n, ".ico") {
        DetectedFileKind::Ico
    } else if ends_with(n, ".avif") {
        DetectedFileKind::Avif
    } else if ends_with(n, ".heic") || ends_with(n, ".heif") {
        DetectedFileKind::Heic
    } else {
        document_or_media_kind(n)
    }
}

/// The lower-cased final component of a path (the whole path where it has
/// no final component).
pub fn lower_file_name(path: &str) -> (r: Vec<char>)
    ensures
        r@ == lower_name_of(path@),
{
    let name = match path_file_name(path) {
        Some(n) => chars_of(n.as_str()),
        None => chars_of(path),
    };
    lower_chars(name.as_slice())
}

/// The kind a path's name suggests; directories are `Directory`.
pub open spec fn name_based_kind(path: Seq<char>, is_dir: bool) -> DetectedFileKind {
    if is_dir {
        DetectedFileKind::Directory
    } else {
        archive_or_image_by_name(lower_name_of(path))
    }
}

/// The kind of a path by its name alone.
pub fn detect_name_based_file_kind(path: &str, is_dir: bool) -> (r: DetectedFileKind)
    ensures
        r == name_based_kind(path@, is_dir),
{
    if is_dir {
        return DetectedFileKind::Directory;
    }
    let lower_name = lower_file_name(path);
    archive_or_image_kind(lower_name.as_slice())
}

/// A compressed stream whose name shows a tar inside is a compressed tar.
pub open spec fn refined_kind(lower_name: Seq<char>, kind: DetectedFileKind) -> DetectedFileKind {
    match kind {
        DetectedFileKind::Gzip if has_suffix(lower_name, ".tar.gz"@) || has_suffix(
            lower_name,
            ".tgz"@,
        ) => DetectedFileKind::TarGz,
        DetectedFileKind::Bzip2 if has_suffix(lower_name, ".tar.bz2"@) || has_suffix(
            lower_name,
            ".tbz2"@,
        ) => DetectedFileKind::TarBz2,
        DetectedFileKind::Xz if has_suffix(lower_name, ".tar.xz"@) || has_suffix(
            lower_name,
            ".txz"@,
        ) => DetectedFileKind::TarXz,
        _ => kind,
    }
}

proof fn lemma_ends_with_ending(b: Seq<char>, e: Seq<char>)
    ensures
        has_suffix(b + e, e),
{
    assert((b + e).skip((b + e).len() - e.len()) =~= e);
}

/// A gzip, bzip2 or xz stream whose (lower-cased) name ends as the
/// matching compressed tar (`.tar.gz` or `.tgz`, `.tar.bz2` or `.tbz2`,
/// `.tar.xz` or `.txz`) is that compressed tar, whatever comes before the
/// ending; such a stream is otherwise left as it is, and the name never
/// changes any other kind.
pub proof fn law_compressed_tar_names(b: Seq<char>, n: Seq<char>, kind: DetectedFileKind)
    ensures
        refined_kind(b + ".tar.gz"@, DetectedFileKind::Gzip) == DetectedFileKind::TarGz,
        refined_kind(b + ".tgz"@, DetectedFileKind::Gzip) == DetectedFileKind::TarGz,
        refined_kind(b + ".tar.bz2"@, DetectedFileKind::Bzip2) == DetectedFileKind::TarBz2,
        refined_kind(b + ".tbz2"@, DetectedFileKind::Bzip2) == DetectedFileKind::TarBz2,
        refined_kind(b + ".tar.xz"@, DetectedFileKind::Xz) == DetectedFileKind::TarXz,
        refined_kind(b + ".txz"@, DetectedFileKind::Xz) == DetectedFileKind::TarXz,
        refined_kind(n, DetectedFileKind::Gzip) == DetectedFileKind::TarGz || refined_kind(
            n,
            DetectedFileKind::Gzip,
        ) == DetectedFileKind::Gzip,
        refined_kind(n, DetectedFileKind::Bzip2) == DetectedFileKind::TarBz2 || refined_kind(
            n,
            DetectedFileKind::Bzip2,
        ) == DetectedFileKind::Bzip2,
        refined_kind(n, DetectedFileKind::Xz) == DetectedFileKind::TarXz || refined_kind(
            n,
            DetectedFileKind::Xz,
        ) == DetectedFileKind::Xz,
        kind != DetectedFileKind::Gzip && kind != DetectedFileKind::Bzip2 && kind
            != DetectedFileKind::Xz ==> refined_kind(n, kind) == kind,
{
    lemma_ends_with_ending(b, ".tar.gz"@);
    lemma_ends_with_ending(b, ".tgz"@);
    lemma_ends_with_ending(b, ".tar.bz2"@);
    lemma_ends_with_ending(b, ".tbz2"@);
    lemma_ends_with_ending(b, ".tar.xz"@);
    lemma_ends_with_ending(b, ".txz"@);
}

/// Refines a kind found from content by the path's name: a gzip, bzip2 or
/// xz stream named as a compressed tar is that compressed tar.
pub fn refine_file_kind_with_name(path: &str, kind: DetectedFileKind) -> (r: DetectedFileKind)
    ensures
        r == refined_kind(lower_name_of(path@), kind),
{
    let lower_name = lower_file_name(path);
    let n = lower_name.as_slice();
    match kind {
        DetectedFileKind::Gzip => {
            if ends_with(n, ".tar.gz") || ends_with(n, ".tgz") {
                DetectedFileKind::TarGz
            } else {
                kind
            }
        },
        DetectedFileKind::Bzip2 => {
            if ends_with(n, ".tar.bz2") || ends_with(n, ".tbz2") {
                DetectedFileKind::TarBz2
            } else {
                kind
            }
        },
        DetectedFileKind::Xz => {
            if ends_with(n, ".tar.xz") || ends_with(n, ".txz") {
                DetectedFileKind::TarXz
            } else {
                kind
            }
        },
        _ => kind,
    }
}


// ---------------------------------------------------------------------
// ZIP containers
// ---------------------------------------------------------------------

/// The names `ZipArchive::file_names` lists for the archive the bytes
/// hold, in its order; `None` where `ZipArchive::new` refuses the bytes.
pub uninterp spec fn zip_listing(archive: Seq<u8>) -> Option<Seq<Seq<char>>>;

/// The bytes one `Read::read` of at most `limit` bytes gives from the
/// start of the named entry (`ZipArchive::by_name`); `None` where the
/// archive, the entry or the read fails.
pub uninterp spec fn zip_entry_head(archive: Seq<u8>, name: Seq<char>, limit: nat) -> Option<Seq<u8>>;

/// Opens the bytes as a ZIP archive (`zip::ZipArchive::new` over a
/// cursor) and lists its entry names (`ZipArchive::file_names`). Claimed:
/// the result is `zip_listing` of the bytes.
#[verifier::external_body]
fn zip_names(bytes: &[u8]) -> (r: Option<Vec<String>>)
    ensures
        match r {
            Some(v) => zip_listing(bytes@) == Some(v.deep_view()),
            None => zip_listing(bytes@) is None,
        },
{
    match zip::ZipArchive::new(std::io::Cursor::new(bytes)) {
        Ok(archive) => Some(archive.file_names().map(String::from).collect()),
        Err(_) => None,
    }
}

/// Reads the start of one entry of the ZIP archive the bytes hold
/// (`ZipArchive::by_name`, then one `Read::read` into a buffer of `limit`
/// bytes). Claimed: the result is `zip_entry_head` of the arguments.
#[verifier::external_body]
fn zip_read_head(bytes: &[u8], name: &str, limit: usize) -> (r: Option<Vec<u8>>)
    ensures
        match r {
            Some(v) => zip_entry_head(bytes@, name@, limit as nat) == Some(v@),
            None => zip_entry_head(bytes@, name@, limit as nat) is None,
        },
{
    let mut archive = zip::ZipArchive::new(std::io::Cursor::new(bytes)).ok()?;
    let mut entry = archive.by_name(name).ok()?;
    let mut buffer = vec![0u8; limit];
    let read = std::io::Read::read(&mut entry, &mut buffer).ok()?;
    buffer.truncate(read);
    Some(buffer)
}

/// How many bytes of a `mimetype` entry are read.
pub const ZIP_MIMETYPE_READ_LIMIT: usize = 128;

/// The media type a `mimetype` entry declares: decoded, stripped of NUL
/// characters and whitespace, ASCII lower-cased.
pub open spec fn mimetype_text(raw: Seq<u8>) -> Seq<char> {
    lower(trim(trim(trim_matches(lossy_text(raw), '\0'))))
}

/// The kind an OpenDocument or EPUB media type names.
pub open spec fn mimetype_kind(m: Seq<char>) -> Option<DetectedFileKind> {
    if m == "application/epub+zip"@ {
        Some(DetectedFileKind::Epub)
    } else if m == "application/vnd.oasis.opendocument.text"@ {
        Some(DetectedFileKind::Odt)
    } else if m == "application/vnd.oasis.opendocument.spreadsheet"@ {
        Some(DetectedFileKind::Ods)
    } else if m == "application/vnd.oasis.opendocument.presentation"@ {
        Some(DetectedFileKind::Odp)
    } else {
        None
    }
}

/// The kind of a ZIP archive with the given entry names and `mimetype`
/// entry head: an Office Open XML package, an OpenDocument or EPUB file,
/// an Android package, a Java archive, or a plain ZIP archive.
pub open spec fn listing_kind(names: Seq<Seq<char>>, mimetype: Option<Seq<u8>>) -> DetectedFileKind {
    let ct = names.contains("[Content_Types].xml"@);
    if ct && names.contains("word/document.xml"@) {
        DetectedFileKind::Docx
    } else if ct && names.contains("xl/workbook.xml"@) {
        DetectedFileKind::Xlsx
    } else if ct && names.contains("ppt/presentation.xml"@) {
        DetectedFileKind::Pptx
    } else if mimetype is Some && mimetype_kind(mimetype_text(mimetype->0)) is Some {
        mimetype_kind(mimetype_text(mimetype->0))->0
    } else if names.contains("AndroidManifest.xml"@) && names.contains("classes.dex"@) {
        DetectedFileKind::Apk
    } else if names.contains("META-INF/MANIFEST.MF"@) {
        DetectedFileKind::Jar
    } else {
        DetectedFileKind::Zip
    }
}

/// The kind of a file whose content starts like a ZIP archive: a plain ZIP
/// archive where the bytes cannot be read as one.
pub open spec fn zip_container_kind(content: Seq<u8>) -> DetectedFileKind {
    match zip_listing(content) {
        Some(names) => listing_kind(
            names,
            zip_entry_head(content, "mimetype"@, ZIP_MIMETYPE_READ_LIMIT as nat),
        ),
        None => DetectedFileKind::Zip,
    }
}

fn has_name(names: &Vec<String>, name: &str) -> (r: bool)
    ensures
        r == names.deep_view().contains(name@),
{
    let target = chars_of(name);
    let mut i: usize = 0;
    while i < names.len()
        invariant
            i <= names@.len(),
            target@ == name@,
            forall|j: int| 0 <= j < i ==> names.deep_view()[j] != name@,
        decreases names@.len() - i,
    {
        let n = chars_of(names[i].as_str());
        if chars_eq(n.as_slice(), target.as_slice()) {
            assert(names.deep_view()[i as int] == name@);
            return true;
        }
        i = i + 1;
    }
    false
}

fn mimetype_kind_exec(m: &[char]) -> (r: Option<DetectedFileKind>)
    ensures
        r == mimetype_kind(m@),
{
    if chars_eq_str(m, "application/epub+zip") {
        Some(DetectedFileKind::Epub)
    } else if chars_eq_str(m, "application/vnd.oasis.opendocument.text") {
        Some(DetectedFileKind::Odt)
    } else if chars_eq_str(m, "application/vnd.oasis.opendocument.spreadsheet") {
        Some(DetectedFileKind::Ods)
    } else if chars_eq_str(m, "application/vnd.oasis.opendocument.presentation") {
        Some(DetectedFileKind::Odp)
    } else {
        None
    }
}

/// The kind of a ZIP archive from its entry names and the head of its
/// `mimetype` entry (as `zip_names` and `zip_read_head` give them).
pub fn classify_zip_listing(names: &Vec<String>, mimetype: Option<&[u8]>) -> (r: DetectedFileKind)
    ensures
        r == listing_kind(
            names.deep_view(),
            match mimetype {
                Some(m) => Some(m@),
                None => None,
            },
        ),
{
    let ct = has_name(names, "[Content_Types].xml");
    if ct && has_name(names, "word/document.xml") {
        return DetectedFileKind::Docx;
    }
    if ct && has_name(names, "xl/workbook.xml") {
        return DetectedFileKind::Xlsx;
    }
    if ct && has_name(names, "ppt/presentation.xml") {
        return DetectedFileKind::Pptx;
    }
    if let Some(raw) = mimetype {
        let text = chars_of(utf8_lossy(raw).as_str());
        let (a, b) = trim_matches_range(text.as_slice(), 0, text.len(), '\0');
        proof {
            assert(text@.subrange(0, text@.len() as int) =~= text@);
        }
        let stripped = sub_chars(text.as_slice(), a, b);
        let once = trimmed(stripped.as_slice());
        let twice = trimmed(once.as_slice());
        let low = lower_chars(twice.as_slice());
        if let Some(k) = mimetype_kind_exec(low.as_slice()) {
            return k;
        }
    }
    if has_name(names, "AndroidManifest.xml") && has_name(names, "classes.dex") {
        return DetectedFileKind::Apk;
    }
    if has_name(names, "META-INF/MANIFEST.MF") {
        return DetectedFileKind::Jar;
    }
    DetectedFileKind::Zip
}

/// The kind of a file whose content starts like a ZIP archive, told from
/// the archive's entries.
pub fn detect_zip_container_kind(content: &[u8]) -> (r: DetectedFileKind)
    ensures
        r == zip_container_kind(content@),
{
    match zip_names(content) {
        Some(names) => {
            let head = zip_read_head(content, "mimetype", ZIP_MIMETYPE_READ_LIMIT);
            match head {
                Some(h) => classify_zip_listing(&names, Some(h.as_slice())),
                None => classify_zip_listing(&names, None),
            }
        },
        None => DetectedFileKind::Zip,
    }
}


// ---------------------------------------------------------------------
// Kinds by content
// ---------------------------------------------------------------------

/// How many leading bytes of a file its kind is told from.
pub const FILE_KIND_SNIFF_BYTES: usize = 4096;

/// The leading bytes of a file that its kind is told from.
pub open spec fn sniff_header(content: Seq<u8>) -> Seq<u8> {
    if content.len() <= FILE_KIND_SNIFF_BYTES {
        content
    } else {
        content.take(FILE_KIND_SNIFF_BYTES as int)
    }
}

/// The kind the later signatures give (media, executables, text), or
/// `Other`.
pub open spec fn late_signature_kind(h: Seq<u8>) -> DetectedFileKind {
    if tar_sig(h) {
        DetectedFileKind::Tar
    } else if gzip_sig(h) {
        DetectedFileKind::Gzip
    } else if bzip2_sig(h) {
        DetectedFileKind::Bzip2
    } else if xz_sig(h) {
        DetectedFileKind::Xz
    } else if flac_sig(h) {
        DetectedFileKind::Flac
    } else if ogg_sig(h) {
        DetectedFileKind::Ogg
    } else if riff_sig(h, seq![0x57u8, 0x41, 0x56, 0x45]) {
        DetectedFileKind::Wav
    } else if riff_sig(h, seq![0x41u8, 0x56, 0x49, 0x20]) {
        DetectedFileKind::Avi
    } else if iso_media_kind(h) is Some {
        iso_media_kind(h)->0
    } else if webm_sig(h) {
        DetectedFileKind::Webm
    } else if mp3_sig(h) {
        DetectedFileKind::Mp3
    } else if exe_sig(h) {
        DetectedFileKind::Exe
    } else if text_like(h) {
        text_file_kind(h)
    } else {
        DetectedFileKind::Other
    }
}

/// The kind the leading bytes `h` of a file show, checked in a fixed order
/// (images, documents, archives, media, executables, text); `zip` is the
/// kind given to content that starts like a ZIP archive.
pub open spec fn signature_kind(h: Seq<u8>, zip: DetectedFileKind) -> DetectedFileKind {
    if png_sig(h) {
        DetectedFileKind::Png
    } else if jpeg_sig(h) {
        DetectedFileKind::Jpeg
    } else if gif_sig(h) {
        DetectedFileKind::Gif
    } else if ico_sig(h) {
        DetectedFileKind::Ico
    } else if bmp_sig(h) {
        DetectedFileKind::Bmp
    } else if tiff_sig(h) {
        DetectedFileKind::Tiff
    } else if riff_sig(h, seq![0x57u8, 0x45, 0x42, 0x50]) {
        DetectedFileKind::Webp
    } else if pdf_sig(h) {
        DetectedFileKind::Pdf
    } else if rtf_sig(h) {
        DetectedFileKind::Rtf
    } else if sevenzip_sig(h) {
        DetectedFileKind::SevenZip
    } else if rar_sig(h) {
        DetectedFileKind::Rar
    } else if zip_sig(h) {
        zip
    } else {
        late_signature_kind(h)
    }
}

/// The kind of an existing file with the given content: `Other` for an
/// empty file, else the kind its leading bytes show, refined by its name.
pub open spec fn content_kind(path: Seq<char>, content: Seq<u8>) -> DetectedFileKind {
    if content.len() == 0 {
        DetectedFileKind::Other
    } else {
        refined_kind(
            lower_name_of(path),
            signature_kind(sniff_header(content), zip_container_kind(content)),
        )
    }
}

fn late_signature_kind_exec(h: &[u8]) -> (r: DetectedFileKind)
    ensures
        r == late_signature_kind(h@),
{
    let wave: [u8; 4] = [0x57u8, 0x41, 0x56, 0x45];
    let avi: [u8; 4] = [0x41u8, 0x56, 0x49, 0x20];
    proof {
        assert(wave@ =~= seq![0x57u8, 0x41, 0x56, 0x45]);
        assert(avi@ =~= seq![0x41u8, 0x56, 0x49, 0x20]);
    }
    if looks_like_tar_signature(h) {
        DetectedFileKind::Tar
    } else if looks_like_gzip_signature(h) {
        DetectedFileKind::Gzip
    } else if looks_like_bzip2_signature(h) {
        DetectedFileKind::Bzip2
    } else if looks_like_xz_signature(h) {
        DetectedFileKind::Xz
    } else if looks_like_flac_signature(h) {
        DetectedFileKind::Flac
    } else if looks_like_ogg_signature(h) {
        DetectedFileKind::Ogg
    } else if looks_like_riff_kind(h, &wave) {
        DetectedFileKind::Wav
    } else if looks_like_riff_kind(h, &avi) {
        DetectedFileKind::Avi
    } else if let Some(kind) = detect_iso_base_media_kind(h) {
        kind
    } else if looks_like_webm_signature(h) {
        DetectedFileKind::Webm
    } else if looks_like_mp3_signature(h) {
        DetectedFileKind::Mp3
    } else if looks_like_exe_signature(h) {
        DetectedFileKind::Exe
    } else if looks_like_text(h) {
        detect_text_file_kind(h)
    } else {
        DetectedFileKind::Other
    }
}

/// The kind of an existing file from its content (the whole file as read)
/// and its path: its leading bytes decide, a ZIP archive is told apart by
/// its entries, and the name refines compressed tars.
pub fn detect_existing_file_kind(path: &str, content: &[u8]) -> (r: DetectedFileKind)
    ensures
        r == content_kind(path@, content@),
{
    if content.len() == 0 {
        return DetectedFileKind::Other;
    }
    let n = if content.len() <= FILE_KIND_SNIFF_BYTES {
        content.len()
    } else {
        FILE_KIND_SNIFF_BYTES
    };
    let h = &content[0..n];
    proof {
        assert(h@ =~= sniff_header(content@));
    }
    let webp: [u8; 4] = [0x57u8, 0x45, 0x42, 0x50];
    proof {
        assert(webp@ =~= seq![0x57u8, 0x45, 0x42, 0x50]);
    }
    let base_kind = if looks_like_png_signature(h) {
        DetectedFileKind::Png
    } else if looks_like_jpeg_signature(h) {
        DetectedFileKind::Jpeg
    } else if looks_like_gif_signature(h) {
        DetectedFileKind::Gif
    } else if looks_like_ico_signature(h) {
        DetectedFileKind::Ico
    } else if looks_like_bmp_signature(h) {
        DetectedFileKind::Bmp
    } else if looks_like_tiff_signature(h) {
        DetectedFileKind::Tiff
    } else if looks_like_riff_kind(h, &webp) {
        DetectedFileKind::Webp
    } else if looks_like_pdf_signature(h) {
        DetectedFileKind::Pdf
    } else if looks_like_rtf_signature(h) {
        DetectedFileKind::Rtf
    } else if looks_like_7z_signature(h) {
        DetectedFileKind::SevenZip
    } else if looks_like_rar_signature(h) {
        DetectedFileKind::Rar
    } else if looks_like_zip_signature(h) {
        detect_zip_container_kind(content)
    } else {
        late_signature_kind_exec(h)
    };
    refine_file_kind_with_name(path, base_kind)
}

/// The kind of a path: `Directory` for a directory, the kind its content
/// shows where the content could be read (`content` is `None` where the
/// path is not a readable file), else the kind its name suggests.
pub open spec fn file_kind(path: Seq<char>, is_dir: bool, content: Option<Seq<u8>>) -> DetectedFileKind {
    if is_dir {
        DetectedFileKind::Directory
    } else {
        match content {
            Some(c) => content_kind(path, c),
            None => name_based_kind(path, false),
        }
    }
}

/// The kind of a path, from its content where it is a readable file
/// (`content`), else from its name.
pub fn detect_file_kind(path: &str, is_dir: bool, content: Option<&[u8]>) -> (r: DetectedFileKind)
    ensures
        r == file_kind(
            path@,
            is_dir,
            match content {
                Some(c) => Some(c@),
                None => None,
            },
        ),
{
    if is_dir {
        return DetectedFileKind::Directory;
    }
    match content {
        Some(c) => detect_existing_file_kind(path, c),
        None => detect_name_based_file_kind(path, is_dir),
    }
}

/// The label of a path's kind, as `detect_file_kind` finds it.
pub fn file_kind_from_path(
    path: &str,
    is_dir: bool,
    content: Option<&[u8]>,
    language: Language,
    state: &LocaleState,
) -> (r: String)
    ensures
        ({
            let k = file_kind(
                path@,
                is_dir,
                match content {
                    Some(c) => Some(c@),
                    None => None,
                },
            );
            &&& k != DetectedFileKind::Other ==> r@ == kind_label(k)
            &&& k == DetectedFileKind::Other ==> r@ == localized(*state, "Other"@, "其他"@)
        }),
{
    let kind = detect_file_kind(path, is_dir, content);
    kind.label(language, state).to_string()
}


/// Content decides a file's kind: two files with the same non-empty
/// content are of the same kind whatever their names, except that a gzip,
/// bzip2 or xz stream named as a compressed tar is that compressed tar.
pub proof fn law_content_decides_kind(a: Seq<char>, b: Seq<char>, content: Seq<u8>)
    requires
        content.len() > 0,
        ({
            let k = signature_kind(sniff_header(content), zip_container_kind(content));
            k != DetectedFileKind::Gzip && k != DetectedFileKind::Bzip2 && k != DetectedFileKind::Xz
        }),
    ensures
        file_kind(a, false, Some(content)) == file_kind(b, false, Some(content)),
        file_kind(a, false, Some(content)) == signature_kind(
            sniff_header(content),
            zip_container_kind(content),
        ),
{
}

} // verus!
