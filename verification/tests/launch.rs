use fastzip::archive::CompressionFormat;
use fastzip::launch::{
    create_shell_compression_request, default_compression_thread_count, CompressionSummary,
    FeedbackTone, ShellCompressionProgress, ShellCompressionState,
};
use fastzip::localization::{chinese_locale, english_locale, LocaleState};
use fastzip::ui::Language;

fn strings(v: &[&str]) -> Vec<String> {
    v.iter().map(|s| s.to_string()).collect()
}

#[test]
fn placeholders_and_repeats_are_dropped() {
    let state = LocaleState::new(english_locale());
    let sources = strings(&["%1", "/a/x.txt", "/a//x.txt", "/a/y.txt", "%V"]);
    let request = create_shell_compression_request(
        sources,
        &[true; 5],
        &[true; 5],
        CompressionFormat::Zip,
        None,
        Some(8),
        &state,
    )
    .expect("request");
    assert_eq!(request.sources, strings(&["/a/x.txt", "/a/y.txt"]));
    assert_eq!(request.output_path, "/a/fastzip_bundle.zip");
    assert_eq!(request.options.format, CompressionFormat::Zip);
    assert_eq!(request.options.thread_count, 8);
}

#[test]
fn given_output_and_single_threaded_formats() {
    let state = LocaleState::new(english_locale());
    let request = create_shell_compression_request(
        strings(&["/a/x.txt"]),
        &[true],
        &[true],
        CompressionFormat::TarGz,
        Some("/out/x.tgz".to_string()),
        Some(8),
        &state,
    )
    .expect("request");
    assert_eq!(request.output_path, "/out/x.tgz");
    assert_eq!(request.options.thread_count, 1);
}

#[test]
fn nothing_to_compress_is_an_error() {
    let state = LocaleState::new(english_locale());
    let result = create_shell_compression_request(
        strings(&["%1", "%L"]),
        &[true, true],
        &[false, false],
        CompressionFormat::Zip,
        None,
        None,
        &state,
    );
    assert_eq!(result.err(), Some("Pick files or folders to compress first.".to_string()));
}

#[test]
fn missing_source_is_an_error() {
    let state = LocaleState::new(english_locale());
    let result = create_shell_compression_request(
        strings(&["/a/x.txt", "/a/y.txt"]),
        &[true, false],
        &[true, false],
        CompressionFormat::SevenZip,
        None,
        None,
        &state,
    );
    assert_eq!(result.err(), Some("Compression source not found: /a/y.txt".to_string()));
}

#[test]
fn default_thread_count_is_at_least_one() {
    assert_eq!(default_compression_thread_count(Some(12)), 12);
    assert_eq!(default_compression_thread_count(Some(0)), 1);
    assert_eq!(default_compression_thread_count(None), 1);
}

#[test]
fn progress_window_texts() {
    let state = LocaleState::new(english_locale());
    let mut p = ShellCompressionProgress {
        output_path: "/out/a.zip".to_string(),
        state: ShellCompressionState::Running,
        total_bytes: 0,
        processed_bytes: 0,
        report: None,
        error_message: None,
    };
    assert_eq!(p.status_text(Language::English, &state), "Compressing...");
    assert_eq!(p.detail_text(Language::English, &state), "Preparing compression task...");
    p.total_bytes = 2048;
    p.processed_bytes = 512;
    assert_eq!(p.detail_text(Language::English, &state), "512 B / 2.0 KB");
    assert_eq!(p.progress_tone(), FeedbackTone::Info);
    p.state = ShellCompressionState::Completed;
    assert_eq!(p.detail_text(Language::English, &state), "");
    p.report = Some(CompressionSummary { files_added: 3, directories_added: 1, input_bytes: 3072, output_bytes: 100 });
    assert_eq!(p.detail_text(Language::English, &state), "3 files, 1 dirs  ·  3.0 KB → 100 B");
    assert_eq!(p.progress_tone(), FeedbackTone::Success);
    p.state = ShellCompressionState::Canceled;
    assert_eq!(p.detail_text(Language::English, &state), "/out/a.zip");
    p.state = ShellCompressionState::Failed;
    assert_eq!(p.detail_text(Language::English, &state), "Unknown error");
    p.error_message = Some("disk full".to_string());
    assert_eq!(p.detail_text(Language::English, &state), "disk full");
    assert_eq!(p.progress_tone(), FeedbackTone::Error);
    let chinese = LocaleState::new(chinese_locale());
    assert_eq!(p.status_text(Language::ChineseSimplified, &chinese), "压缩失败。");
}
