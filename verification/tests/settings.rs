use fastzip::archive::{CompressionFormat, CompressionLevel, ZipCompressionMethod};
use fastzip::settings::{
    decode_preset_value, delete_preset, encode_preset_value, level_name, list_preset_names,
    load_autostart_enabled, load_preferred_language_value, load_preferred_theme, load_preset,
    method_name, parse_ini_value, parse_level_name, parse_method_name, save_autostart_enabled,
    save_preferred_language_value, save_preferred_theme_value, save_preset, settings_file_contents,
    settings_search_paths, PresetError,
};

#[test]
fn ui_settings_file_layout_and_read_back() {
    let contents = settings_file_contents(Some("zh-CN"), Some("dark"));
    assert_eq!(
        contents,
        "; FastZIP user preferences\r\n[ui]\r\nlanguage=zh-CN\r\ntheme=dark\r\n"
    );
    assert_eq!(parse_ini_value(&contents, "ui", "language"), Some("zh-CN".to_string()));
    assert_eq!(parse_ini_value(&contents, "UI", "Theme"), Some("dark".to_string()));
    assert_eq!(parse_ini_value(&contents, "presets", "theme"), None);
}

#[test]
fn ini_values_are_trimmed_and_unquoted() {
    let text = "# c\n[Other]\nlanguage=fr\n[ ui ]\n; note\nlanguage = \"ja\" \ntheme=''\n";
    assert_eq!(parse_ini_value(text, "ui", "language"), Some("ja".to_string()));
    assert_eq!(parse_ini_value(text, "ui", "theme"), None);
    assert_eq!(parse_ini_value(text, "other", "language"), Some("fr".to_string()));
}

#[test]
fn saving_one_ui_value_keeps_the_other() {
    let user = settings_file_contents(Some("en"), Some("light"));
    let after_language = save_preferred_language_value(Some(&user), "de");
    assert_eq!(parse_ini_value(&after_language, "ui", "language"), Some("de".to_string()));
    assert_eq!(parse_ini_value(&after_language, "ui", "theme"), Some("light".to_string()));
    let after_theme = save_preferred_theme_value(Some(&after_language), "dark");
    assert_eq!(parse_ini_value(&after_theme, "ui", "language"), Some("de".to_string()));
    assert_eq!(parse_ini_value(&after_theme, "ui", "theme"), Some("dark".to_string()));
    let fresh = save_preferred_theme_value(None, "dark");
    assert_eq!(fresh, "; FastZIP user preferences\r\n[ui]\r\ntheme=dark\r\n");
}

#[test]
fn first_settings_file_with_a_value_wins() {
    let files = vec![
        "[ui]\ntheme=dark\n".to_string(),
        "[ui]\nlanguage=ko\ntheme=light\n".to_string(),
    ];
    assert_eq!(load_preferred_theme(&files), Some("dark".to_string()));
    assert_eq!(load_preferred_language_value(&files), Some("ko".to_string()));
    assert_eq!(load_preferred_language_value(&[]), None);
}

#[test]
fn presets_save_load_list_and_delete() {
    let first = save_preset(None, "fast", "zip|fast");
    let second = save_preset(Some(&first), "archive", "7z|ultra");
    let third = save_preset(Some(&second), "fast", "zip|fastest");
    let files = vec![third.clone()];
    assert_eq!(load_preset(&files, "fast"), Some("zip|fastest".to_string()));
    assert_eq!(load_preset(&files, "archive"), Some("7z|ultra".to_string()));
    assert_eq!(list_preset_names(&files), vec!["archive".to_string(), "fast".to_string()]);
    let removed = delete_preset(&third, "fast");
    assert_eq!(load_preset(&[removed.clone()], "fast"), None);
    assert_eq!(load_preset(&[removed], "archive"), Some("7z|ultra".to_string()));
}

#[test]
fn preset_names_from_several_files_are_sorted_and_unique() {
    let files = vec!["[presets]\nb=1\na=2\n".to_string(), "[presets]\nc=3\na=4\n".to_string()];
    assert_eq!(
        list_preset_names(&files),
        vec!["a".to_string(), "b".to_string(), "c".to_string()]
    );
    let blank_keys = vec!["[presets]\n = 1\n=2\n  d = 4\n[other]\ne=5\n".to_string()];
    assert_eq!(list_preset_names(&blank_keys), vec!["d".to_string()]);
}

#[test]
fn preset_values_round_trip() {
    let value = encode_preset_value(
        CompressionFormat::TarXz,
        CompressionLevel::Maximum,
        ZipCompressionMethod::Zstd,
        6,
        true,
    );
    assert_eq!(value, ".tar.xz|maximum|zstd|6|yes");
    assert_eq!(
        decode_preset_value(&value),
        Ok((CompressionFormat::TarXz, CompressionLevel::Maximum, ZipCompressionMethod::Zstd, 6, true))
    );
    assert_eq!(level_name(CompressionLevel::Fastest), "fastest");
    assert_eq!(method_name(ZipCompressionMethod::Stored), "stored");
    assert_eq!(parse_level_name("NORMAL"), Ok(CompressionLevel::Normal));
    assert_eq!(parse_method_name("Deflate"), Ok(ZipCompressionMethod::Deflate));
}

#[test]
fn preset_value_errors() {
    assert_eq!(decode_preset_value("a|b"), Err(PresetError::FieldCount(2)));
    assert!(matches!(decode_preset_value(".rar|fast|deflate|1|no"), Err(PresetError::UnknownFormat(_))));
    assert!(matches!(decode_preset_value(".zip|quick|deflate|1|no"), Err(PresetError::UnknownLevel(_))));
    assert!(matches!(decode_preset_value(".zip|fast|lzma|1|no"), Err(PresetError::UnknownMethod(_))));
    assert!(parse_level_name("medium").is_err());
    assert!(parse_method_name("brotli").is_err());
}

#[test]
fn settings_locations() {
    assert_eq!(
        settings_search_paths(Some("/l"), Some("/p")),
        vec!["/l/FastZIP/settings.ini".to_string(), "/p/FastZIP/settings.ini".to_string()]
    );
    assert_eq!(
        settings_search_paths(Some("/d"), Some("/d/")),
        vec!["/d/FastZIP/settings.ini".to_string()]
    );
    assert_eq!(settings_search_paths(None, Some("/p")), vec!["/p/FastZIP/settings.ini".to_string()]);
    assert!(settings_search_paths(None, None).is_empty());
}

#[test]
fn autostart_is_not_available_here() {
    assert_eq!(load_autostart_enabled(), Ok(false));
    assert_eq!(
        save_autostart_enabled("/usr/bin/fastzip", true),
        Err("Autostart is not supported on this platform".to_string())
    );
}

#[test]
fn deleting_presets_by_unusual_names() {
    let contents = "[presets]\r\n  Spaced Name = 1|2\r\n[a=3\r\n=4\r\n".to_string();
    let removed = delete_preset(&contents, "spaced name");
    assert_eq!(load_preset(&[removed.clone()], "spaced name"), None);
    // Lines starting with `[` are passed over by deleting but read as entries.
    assert_eq!(load_preset(&[removed.clone()], "[a"), Some("3".to_string()));
    let removed_bracket = delete_preset(&contents, "[a");
    assert_eq!(load_preset(&[removed_bracket], "[a"), Some("3".to_string()));
}
