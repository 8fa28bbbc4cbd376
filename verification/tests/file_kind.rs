use std::io::{Cursor, Write};

use fastzip::file_kind::{
    detect_file_kind, detect_name_based_file_kind, file_kind_from_path, lower_file_name,
    refine_file_kind_with_name, DetectedFileKind,
};
use fastzip::localization::{chinese_locale, english_locale, LocaleState};
use fastzip::ui::Language;
use zip::write::SimpleFileOptions;
use zip::ZipWriter;

fn zip_bytes(entries: &[(&str, &str)]) -> Vec<u8> {
    let mut zip = ZipWriter::new(Cursor::new(Vec::new()));
    let options = SimpleFileOptions::default();
    for (name, data) in entries {
        zip.start_file(*name, options).unwrap();
        zip.write_all(data.as_bytes()).unwrap();
    }
    zip.finish().unwrap().into_inner()
}

#[test]
fn detects_png_from_signature_without_relying_on_extension() {
    let content = [0x89, b'P', b'N', b'G', 0x0D, 0x0A, 0x1A, 0x0A, 0x00, 0x00];
    assert_eq!(
        detect_file_kind("image.data", false, Some(&content[..])),
        DetectedFileKind::Png
    );
}

#[test]
fn keeps_unknown_binary_files_as_other_even_with_popular_extensions() {
    let content = [0x00, 0x01, 0x02, 0x03, 0x04];
    assert_eq!(
        detect_file_kind("fake.png", false, Some(&content[..])),
        DetectedFileKind::Other
    );
}

#[test]
fn distinguishes_docx_packages_from_plain_zip_archives() {
    let content = zip_bytes(&[
        ("[Content_Types].xml", r#"<?xml version="1.0" encoding="UTF-8"?>"#),
        ("word/document.xml", r#"<w:document xmlns:w="urn:test"></w:document>"#),
    ]);
    let kind = detect_file_kind("package.bin", false, Some(&content[..]));
    assert_eq!(kind, DetectedFileKind::Docx);
    assert!(!kind.show_extract_action());
}

#[test]
fn detects_raw_zip_archives_without_zip_extensions() {
    let content = zip_bytes(&[("hello.txt", "hello world")]);
    let kind = detect_file_kind("archive.data", false, Some(&content[..]));
    assert_eq!(kind, DetectedFileKind::Zip);
    assert!(kind.show_extract_action());
}

#[test]
fn falls_back_to_known_name_mapping_only_when_content_is_unavailable() {
    assert_eq!(
        detect_file_kind("report.pdf", false, None),
        DetectedFileKind::Pdf
    );
    assert_eq!(
        detect_file_kind("unknown.custom", false, None),
        DetectedFileKind::Other
    );
}

#[test]
fn directories_and_empty_files() {
    assert_eq!(detect_file_kind("photos.zip", true, None), DetectedFileKind::Directory);
    assert_eq!(detect_file_kind("empty.txt", false, Some(&[][..])), DetectedFileKind::Other);
}

#[test]
fn compressed_tars_are_told_by_name() {
    let gzip = [0x1F, 0x8B, 0x08, 0x00, 0x00, 0x00];
    assert_eq!(detect_file_kind("logs.TAR.GZ", false, Some(&gzip[..])), DetectedFileKind::TarGz);
    assert_eq!(detect_file_kind("logs.tgz", false, Some(&gzip[..])), DetectedFileKind::TarGz);
    assert_eq!(detect_file_kind("logs.gz", false, Some(&gzip[..])), DetectedFileKind::Gzip);
    assert_eq!(
        refine_file_kind_with_name("a/b.tar.xz", DetectedFileKind::Xz),
        DetectedFileKind::TarXz
    );
    assert_eq!(
        refine_file_kind_with_name("a/b.tar.xz", DetectedFileKind::Zip),
        DetectedFileKind::Zip
    );
}

#[test]
fn text_content_kinds() {
    assert_eq!(detect_file_kind("a.bin", false, Some(&b"  {\"k\": 1}"[..])), DetectedFileKind::Json);
    assert_eq!(detect_file_kind("a.bin", false, Some(&b"{\\rtf1 hi}"[..])), DetectedFileKind::Rtf);
    assert_eq!(
        detect_file_kind("a.bin", false, Some(&b"<?xml version=\"1.0\"?><SVG></SVG>"[..])),
        DetectedFileKind::Svg
    );
    assert_eq!(detect_file_kind("a.bin", false, Some(&b"<note>x</note>"[..])), DetectedFileKind::Xml);
    assert_eq!(detect_file_kind("a.bin", false, Some(&b"<!DOCTYPE html><p>"[..])), DetectedFileKind::Txt);
    assert_eq!(detect_file_kind("a.json", false, Some(&b"plain words"[..])), DetectedFileKind::Txt);
    assert_eq!(
        detect_file_kind("a.bin", false, Some(&b"\xEF\xBB\xBF[1, 2]"[..])),
        DetectedFileKind::Json
    );
}

#[test]
fn zip_packages_by_mimetype_and_manifest() {
    let epub = zip_bytes(&[("mimetype", "\0 application/EPUB+zip \0"), ("a.xhtml", "<p/>")]);
    assert_eq!(detect_file_kind("book.bin", false, Some(&epub[..])), DetectedFileKind::Epub);
    let odt = zip_bytes(&[("mimetype", "application/vnd.oasis.opendocument.text")]);
    assert_eq!(detect_file_kind("doc.zip", false, Some(&odt[..])), DetectedFileKind::Odt);
    let apk = zip_bytes(&[("AndroidManifest.xml", "x"), ("classes.dex", "y")]);
    assert_eq!(detect_file_kind("app.zip", false, Some(&apk[..])), DetectedFileKind::Apk);
    let jar = zip_bytes(&[("META-INF/MANIFEST.MF", "Manifest-Version: 1.0")]);
    assert_eq!(detect_file_kind("lib.zip", false, Some(&jar[..])), DetectedFileKind::Jar);
    let broken = [b'P', b'K', 0x03, 0x04, 0x00, 0x00];
    assert_eq!(detect_file_kind("broken.docx", false, Some(&broken[..])), DetectedFileKind::Zip);
}

#[test]
fn media_signatures() {
    let mut wav = b"RIFF\x00\x00\x00\x00WAVEfmt ".to_vec();
    wav.extend_from_slice(&[0; 4]);
    assert_eq!(detect_file_kind("a", false, Some(&wav[..])), DetectedFileKind::Wav);
    let webp = b"RIFF\x00\x00\x00\x00WEBPVP8 ";
    assert_eq!(detect_file_kind("a", false, Some(&webp[..])), DetectedFileKind::Webp);
    assert_eq!(detect_file_kind("a", false, Some(&b"%PDF-1.7\n"[..])), DetectedFileKind::Pdf);
    assert_eq!(detect_file_kind("a", false, Some(&b"MZ\x90\x00"[..])), DetectedFileKind::Exe);
}

#[test]
fn names_map_to_kinds() {
    assert_eq!(detect_name_based_file_kind("dir/Photo.JPEG", false), DetectedFileKind::Jpeg);
    assert_eq!(detect_name_based_file_kind("notes.md", false), DetectedFileKind::Txt);
    assert_eq!(detect_name_based_file_kind("backup.tar.bz2", false), DetectedFileKind::TarBz2);
    assert_eq!(detect_name_based_file_kind("clip.m4v", false), DetectedFileKind::Mp4);
    assert_eq!(detect_name_based_file_kind("anything", true), DetectedFileKind::Directory);
    assert_eq!(lower_file_name("/Some/Dir/MiXeD.TXT").into_iter().collect::<String>(), "mixed.txt");
}

#[test]
fn kind_labels_follow_the_locale() {
    let english = LocaleState::new(english_locale());
    let chinese = LocaleState::new(chinese_locale());
    assert_eq!(file_kind_from_path("x.tar.gz", false, None, Language::English, &english), "TAR.GZ");
    assert_eq!(file_kind_from_path("x.custom", false, None, Language::English, &english), "Other");
    assert_eq!(
        file_kind_from_path("x.custom", false, None, Language::ChineseSimplified, &chinese),
        "其他"
    );
    assert_eq!(DetectedFileKind::Jpeg.label(Language::English, &english), "JPG");
}
