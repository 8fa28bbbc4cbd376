use fastzip::archive::{CompressionFormat, CompressionLevel, CompressionOptions, ZipCompressionMethod};
use fastzip::compress::{check_compress_request, commit_compression_options};
use fastzip::localization::{english_locale, LocaleState};
use fastzip::ui::Language;

fn options(format: CompressionFormat, password: Option<&str>, encrypt_file_names: bool) -> CompressionOptions {
    CompressionOptions {
        format,
        password: password.map(|p| p.to_string()),
        encrypt_file_names,
        ..CompressionOptions::default()
    }
}

fn error_of(r: Result<(String, CompressionOptions), String>) -> String {
    match r {
        Ok((path, _)) => panic!("expected an error, got the output path {path}"),
        Err(e) => e,
    }
}

fn accepted(r: Result<(String, CompressionOptions), String>) -> (String, CompressionOptions) {
    match r {
        Ok(v) => v,
        Err(e) => panic!("expected acceptance, got {e}"),
    }
}

fn strings(v: &[&str]) -> Vec<String> {
    v.iter().map(|s| s.to_string()).collect()
}

#[test]
fn committed_options_follow_the_format() {
    let mut zip = CompressionOptions::default();
    commit_compression_options(
        &mut zip,
        CompressionLevel::Maximum,
        ZipCompressionMethod::Zstd,
        0,
        String::new(),
        Some(1024),
        true,
    );
    assert_eq!(zip.format, CompressionFormat::Zip);
    assert_eq!(zip.level, CompressionLevel::Maximum);
    assert_eq!(zip.zip_method, ZipCompressionMethod::Zstd);
    assert_eq!(zip.thread_count, 1);
    assert_eq!(zip.password, None);
    assert_eq!(zip.split_volume_size, Some(1024));
    assert!(!zip.encrypt_file_names);

    let mut seven = options(CompressionFormat::SevenZip, None, false);
    commit_compression_options(
        &mut seven,
        CompressionLevel::Fast,
        ZipCompressionMethod::Stored,
        8,
        "secret".to_string(),
        None,
        true,
    );
    assert_eq!(seven.zip_method, ZipCompressionMethod::Deflate);
    assert_eq!(seven.thread_count, 8);
    assert_eq!(seven.password.as_deref(), Some("secret"));
    assert!(seven.encrypt_file_names);

    let mut zip_named = CompressionOptions::default();
    commit_compression_options(
        &mut zip_named,
        CompressionLevel::Normal,
        ZipCompressionMethod::Deflate,
        2,
        "secret".to_string(),
        None,
        true,
    );
    assert!(!zip_named.encrypt_file_names);
}

#[test]
fn compress_requests_are_checked_in_order() {
    let state = LocaleState::new(english_locale());
    let en = Language::English;
    let sources = strings(&["/data/a.txt", "/data/b"]);

    let none = check_compress_request(&[], &[], "/out/x.zip", options(CompressionFormat::Zip, None, false), "", en, &state);
    assert_eq!(
        error_of(none), "Pick files or folders to compress first.");

    let missing = check_compress_request(&sources, &[true, false], "/out/x.zip", options(CompressionFormat::Zip, None, false), "", en, &state);
    assert_eq!(
        error_of(missing), "Compression source not found: /data/b");

    let no_output = check_compress_request(&sources, &[true, true], "   ", options(CompressionFormat::Zip, None, false), "", en, &state);
    assert_eq!(
        error_of(no_output), "Choose the archive output path first.");

    let unconfirmed_empty = check_compress_request(&sources, &[true, true], "/out/x", options(CompressionFormat::Zip, None, false), "pw", en, &state);
    assert_eq!(
        error_of(unconfirmed_empty),
        "Compression password is empty. Enter a password and confirm it before starting."
    );

    let with_password = options(CompressionFormat::Zip, Some("pw"), false);
    let mismatch = check_compress_request(&sources, &[true, true], "/out/x", options(CompressionFormat::Zip, Some("pw"), false), "px", en, &state);
    assert_eq!(
        error_of(mismatch), "Compression passwords do not match.");

    let tar = options(CompressionFormat::TarGz, Some("pw"), false);
    let unsupported = check_compress_request(&sources, &[true, true], "/out/x", tar, "pw", en, &state);
    assert_eq!(
        error_of(unsupported), "TAR.GZ does not support password encryption in FastZIP.");

    let zip_names = options(CompressionFormat::Zip, Some("pw"), true);
    let names = check_compress_request(&sources, &[true, true], "/out/x", zip_names, "pw", en, &state);
    assert_eq!(
        error_of(names), "Only 7Z archives support encrypted file names.");

    let (path, settled) =
        accepted(check_compress_request(&sources, &[true, true], " /out/x ", with_password, "pw", en, &state));
    assert_eq!(path, "/out/x.zip");
    assert_eq!(settled.password.as_deref(), Some("pw"));

    let names_without_password = options(CompressionFormat::Zip, None, true);
    let (path, settled) = accepted(check_compress_request(
        &sources,
        &[true, true],
        "/out/x.7z",
        names_without_password,
        "",
        en,
        &state,
    ));
    assert_eq!(path, "/out/x.zip");
    assert_eq!(settled.password, None);
    assert!(!settled.encrypt_file_names);
}
