use fastzip::archive::{
    CompressionFormat, CompressionLevel, CompressionOptions, ExtractOptions, OverwriteMode,
    ZipCompressionMethod,
};
use fastzip::localization::{chinese_locale, english_locale, LocaleState};
use fastzip::ui::{
    apply_template, compression_dictionary_text_for, compression_format_label,
    compression_memory_text_for, compression_method_description_for, compression_solid_text_for,
    compression_word_size_text_for, compression_level_label, format_duration_compact,
    initial_backend_log, initial_ready_log, localize_format, split_volume_size_presets,
    zip_method_label, GuiOverwriteMode, Language, TaskKind, TaskSpec, TaskState, ThemeMode,
};

#[test]
fn templates_replace_every_occurrence_in_order() {
    let reps = [("{name}", "a.zip".to_string()), ("{n}", "3".to_string())];
    assert_eq!(apply_template("{name}: {n} of {n}", &reps), "a.zip: 3 of 3");
    assert_eq!(apply_template("no placeholders", &reps), "no placeholders");
    let chained = [("{a}", "{b}".to_string()), ("{b}", "x".to_string())];
    assert_eq!(apply_template("{a}", &chained), "x");
    assert_eq!(apply_template("abc", &[("", "-".to_string())]), "-a-b-c-");
    assert_eq!(apply_template("aaa", &[("aa", "b".to_string())]), "ba");
}

#[test]
fn localized_templates() {
    let english = LocaleState::new(english_locale());
    let chinese = LocaleState::new(chinese_locale());
    let reps = [("{path}", "/x".to_string())];
    assert_eq!(localize_format(&english, "Missing {path}", "缺少 {path}", &reps), "Missing /x");
    assert_eq!(localize_format(&chinese, "Missing {path}", "缺少 {path}", &reps), "缺少 /x");
    assert_eq!(Language::English.format(&chinese, "E {path}", "中 {path}", &reps), "中 /x");
}

#[test]
fn compact_durations() {
    let english = LocaleState::new(english_locale());
    let chinese = LocaleState::new(chinese_locale());
    assert_eq!(format_duration_compact(3725, Language::English, &english), "1h 02m");
    assert_eq!(format_duration_compact(125, Language::English, &english), "2m 05s");
    assert_eq!(format_duration_compact(7, Language::English, &english), "7s");
    assert_eq!(format_duration_compact(0, Language::English, &english), "0s");
    assert_eq!(format_duration_compact(90061, Language::English, &english), "25h 01m");
    assert_eq!(format_duration_compact(3725, Language::ChineseSimplified, &chinese), "1时 02分");
}

#[test]
fn theme_detection_order() {
    let none: Vec<Option<String>> = vec![None, None];
    assert_eq!(ThemeMode::detect(&[Some("Dark Mode".to_string()), None], &[]), ThemeMode::Dark);
    assert_eq!(
        ThemeMode::detect(&[Some("auto".to_string()), Some("LIGHT".to_string())], &[]),
        ThemeMode::Light
    );
    let files = vec!["[ui]\ntheme=dark\n".to_string()];
    assert_eq!(ThemeMode::detect(&none, &files), ThemeMode::Dark);
    assert_eq!(ThemeMode::detect(&[Some("light".to_string())], &files), ThemeMode::Light);
    assert_eq!(ThemeMode::detect(&none, &[]), ThemeMode::Light);
    assert!(ThemeMode::Dark.is_dark());
    assert!(!ThemeMode::Light.is_dark());
}

#[test]
fn choice_and_state_labels() {
    let english = LocaleState::new(english_locale());
    let chinese = LocaleState::new(chinese_locale());
    assert_eq!(ThemeMode::Dark.label(Language::English, &english), "Dark");
    assert_eq!(ThemeMode::Light.label(Language::ChineseSimplified, &chinese), "浅色");
    assert_eq!(GuiOverwriteMode::Skip.label(Language::English, &english), "Skip existing files");
    assert_eq!(TaskKind::Extract.label(Language::ChineseSimplified, &chinese), "解压");
    assert_eq!(TaskState::Canceling.label(Language::English, &english), "Canceling");
    assert_eq!(GuiOverwriteMode::Ask.to_core(), OverwriteMode::Overwrite);
    assert_eq!(GuiOverwriteMode::Error.to_core(), OverwriteMode::Error);
}

#[test]
fn compression_option_labels() {
    let english = LocaleState::new(english_locale());
    let chinese = LocaleState::new(chinese_locale());
    assert_eq!(compression_format_label(CompressionFormat::TarZst, Language::English), "TAR.ZST");
    assert_eq!(compression_level_label(CompressionLevel::Ultra, Language::English, &english), "Ultra");
    assert_eq!(zip_method_label(ZipCompressionMethod::Stored, Language::ChineseSimplified, &chinese), "仅存储");
    assert_eq!(zip_method_label(ZipCompressionMethod::Zstd, Language::ChineseSimplified, &chinese), "Zstandard");
    let presets = split_volume_size_presets(Language::English, &english);
    assert_eq!(presets.len(), 13);
    assert_eq!(presets[0], ("", "No split volumes"));
    assert_eq!(presets[3], ("10M", "10M"));
    assert_eq!(presets[12], ("23040M", "23040M (Blu-ray)"));
}

#[test]
fn task_output_paths_and_log_lines() {
    let compress = TaskSpec::Compress {
        sources: vec!["/a".to_string()],
        excluded_paths: vec![],
        output_path: "/out/a.zip".to_string(),
        options: CompressionOptions { format: CompressionFormat::Zip, thread_count: 2, ..CompressionOptions::default() },
    };
    assert_eq!(compress.output_path(), "/out/a.zip");
    let extract = TaskSpec::Extract {
        archive_path: "/in/a.zip".to_string(),
        options: ExtractOptions {
            output_dir: "/out/a".to_string(),
            overwrite_mode: OverwriteMode::Skip,
            keep_paths: true,
            password: None,
            scan_files: false,
        },
    };
    assert_eq!(extract.output_path(), "/out/a");
    let english = LocaleState::new(english_locale());
    assert_eq!(initial_ready_log(Language::English, &english), "Native formats loaded successfully.");
    assert_eq!(
        initial_backend_log(Language::English, &english),
        "Engine initialized. Multi-threading enabled."
    );
}

#[test]
fn compression_setting_descriptions() {
    let english = LocaleState::new(english_locale());
    let chinese = LocaleState::new(chinese_locale());
    let mut o = CompressionOptions::default();
    o.format = CompressionFormat::Zip;
    o.zip_method = ZipCompressionMethod::Deflate;
    o.thread_count = 4;
    assert_eq!(compression_method_description_for(&o, Language::English, &english), "Deflate (parallel file workers)");
    assert_eq!(compression_memory_text_for(&o, Language::English, &english), "Low to medium (< 16 MB x 4 workers)");
    assert_eq!(compression_dictionary_text_for(&o, Language::English, &english), "Fixed by Deflate (32 KB)");
    assert_eq!(compression_word_size_text_for(&o, Language::English, &english), "Codec default");
    o.thread_count = 1;
    assert_eq!(compression_method_description_for(&o, Language::English, &english), "Deflate");
    assert_eq!(compression_memory_text_for(&o, Language::English, &english), "Low (< 16 MB)");
    o.zip_method = ZipCompressionMethod::Xz;
    o.thread_count = 12;
    assert_eq!(compression_memory_text_for(&o, Language::English, &english), "High (64 MB+ x up to 4 workers)");
    o.format = CompressionFormat::SevenZip;
    o.level = CompressionLevel::Ultra;
    assert_eq!(compression_dictionary_text_for(&o, Language::English, &english), "LZMA2 preset (~32 MB)");
    assert_eq!(compression_memory_text_for(&o, Language::ChineseSimplified, &chinese), "高（约 64 MB+ x 12 个线程）");
    assert_eq!(compression_solid_text_for(&o, Language::English, &english), "Adaptive solid batching for compressible files");
    o.thread_count = 0;
    assert_eq!(compression_memory_text_for(&o, Language::English, &english), "High (~64 MB+)");
    o.format = CompressionFormat::TarLz4;
    assert_eq!(compression_memory_text_for(&o, Language::English, &english), "Very low (< 8 MB)");
    assert_eq!(compression_dictionary_text_for(&o, Language::English, &english), "Not exposed for TAR-based formats");
    assert_eq!(compression_method_description_for(&o, Language::English, &english), "LZ4 stream");
}
