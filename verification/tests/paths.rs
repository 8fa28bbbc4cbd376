use fastzip::archive::{CompressionFormat, CompressionOptions};
use fastzip::localization::{chinese_locale, english_locale, LocaleState};
use fastzip::paths::{
    apply_compression_format,
    common_source_parent, conflict_candidate_is_free, conflict_candidate_path,
    default_extract_conflict_rename_value, ensure_archive_extension,
    known_archive_suffixes_for_output, normalize_file_manager_compression_paths, normalize_file_manager_selection, all_visible_selected, select_visible, sort_file_manager_selection,
    normalize_windows_user_path, rename_target_path, suggest_available_conflict_path, suggested_archive_output_path,
    validate_extract_conflict_rename,
};
use fastzip::ui::Language;

fn strings(v: &[&str]) -> Vec<String> {
    v.iter().map(|s| s.to_string()).collect()
}

#[test]
fn archive_extension_is_replaced_or_kept() {
    assert_eq!(ensure_archive_extension("/tmp/out/data.tar.gz", CompressionFormat::Zip), "/tmp/out/data.zip");
    assert_eq!(ensure_archive_extension("/tmp/a.zip", CompressionFormat::Zip), "/tmp/a.zip");
    assert_eq!(ensure_archive_extension("/tmp/a.ZIP", CompressionFormat::Zip), "/tmp/a.ZIP");
    assert_eq!(ensure_archive_extension("/tmp/notes", CompressionFormat::SevenZip), "/tmp/notes.7z");
    assert_eq!(ensure_archive_extension("/tmp/Data.TGZ", CompressionFormat::TarXz), "/tmp/Data.tar.xz");
    assert_eq!(ensure_archive_extension("/tmp/report.txt", CompressionFormat::Gz), "/tmp/report.txt.gz");
    assert_eq!(ensure_archive_extension("/", CompressionFormat::Zip), "/");
}

#[test]
fn known_suffixes_list() {
    let list = known_archive_suffixes_for_output();
    assert_eq!(list.len(), 20);
    assert_eq!(list[0], ".tar.gz");
    assert_eq!(list[19], ".tlz4");
}

#[test]
fn single_source_output_is_beside_it() {
    let english = LocaleState::new(english_locale());
    let dir = strings(&["/home/u/docs"]);
    assert_eq!(
        suggested_archive_output_path(&dir, false, CompressionFormat::Zip, Language::English, &english),
        Some("/home/u/docs.zip".to_string())
    );
    let file = strings(&["/home/u/report.txt"]);
    assert_eq!(
        suggested_archive_output_path(&file, true, CompressionFormat::SevenZip, Language::English, &english),
        Some("/home/u/report.7z".to_string())
    );
    assert_eq!(
        suggested_archive_output_path(&file, true, CompressionFormat::Gz, Language::English, &english),
        Some("/home/u/report.txt.gz".to_string())
    );
    assert_eq!(
        suggested_archive_output_path(&[], true, CompressionFormat::Zip, Language::English, &english),
        None
    );
}

#[test]
fn several_sources_bundle_in_their_common_parent() {
    let english = LocaleState::new(english_locale());
    let chinese = LocaleState::new(chinese_locale());
    let sources = strings(&["/home/u/a/x.txt", "/home/u/b/y.txt"]);
    assert_eq!(
        suggested_archive_output_path(&sources, true, CompressionFormat::Zip, Language::English, &english),
        Some("/home/u/fastzip_bundle.zip".to_string())
    );
    assert_eq!(
        suggested_archive_output_path(&sources, true, CompressionFormat::Zip, Language::ChineseSimplified, &chinese),
        Some("/home/u/fastzip压缩包.zip".to_string())
    );
}

#[test]
fn common_parent_of_sources() {
    assert_eq!(
        common_source_parent(&strings(&["/a/b/c.txt", "/a/b/d/e.txt"])),
        Some("/a/b".to_string())
    );
    assert_eq!(common_source_parent(&strings(&["/a/b/c.txt"])), Some("/a/b".to_string()));
    assert_eq!(common_source_parent(&strings(&["/x/1", "/y/2"])), Some("/".to_string()));
    assert_eq!(common_source_parent(&strings(&["a/1", "b/2"])), Some("".to_string()));
    assert_eq!(common_source_parent(&strings(&["/", "/"])), None);
    assert_eq!(common_source_parent(&[]), None);
}

#[test]
fn conflict_candidates() {
    assert_eq!(conflict_candidate_path("/tmp/report.pdf", 1), "/tmp/report (1).pdf");
    assert_eq!(conflict_candidate_path("/tmp/README", 2), "/tmp/README (2)");
    assert_eq!(conflict_candidate_path("/tmp/archive.tar.gz", 3), "/tmp/archive.tar (3).gz");
    let reserved = strings(&["/tmp/report (1).pdf"]);
    let renamed = strings(&["/tmp/report (2).pdf"]);
    assert!(!conflict_candidate_is_free("/tmp/report (1).pdf", false, &reserved, &renamed));
    assert!(!conflict_candidate_is_free("/tmp/report (2).pdf", false, &reserved, &renamed));
    assert!(!conflict_candidate_is_free("/tmp/report (3).pdf", true, &reserved, &renamed));
    assert!(conflict_candidate_is_free("/tmp/report (3).pdf", false, &reserved, &renamed));
    assert!(!conflict_candidate_is_free("/tmp//report (1).pdf", false, &reserved, &renamed));
}

#[test]
fn file_manager_selection_keeps_outermost_existing_paths() {
    let selected = strings(&["/a", "/a/b", "/c", "/c/d", "/e"]);
    let exists = [true, true, true, true, false];
    assert_eq!(normalize_file_manager_compression_paths(&selected, &exists), strings(&["/a", "/c"]));
    let separate = strings(&["/x/y", "/z"]);
    assert_eq!(normalize_file_manager_compression_paths(&separate, &[true, true]), separate);
    let nested_only = strings(&["/p/q", "/p/q/r"]);
    assert_eq!(normalize_file_manager_compression_paths(&nested_only, &[true, true]), strings(&["/p/q"]));
    let inner_missing = strings(&["/m", "/m/n", "/m/n/o"]);
    assert_eq!(
        normalize_file_manager_compression_paths(&inner_missing, &[false, true, true]),
        strings(&["/m/n"])
    );
    assert!(normalize_file_manager_compression_paths(&selected, &[false; 5]).is_empty());
    assert_eq!(normalize_windows_user_path("/home/u/file"), "/home/u/file");
}

#[test]
fn conflict_renames_are_checked() {
    let english = LocaleState::new(english_locale());
    let reserved = strings(&["/out/a (1).txt"]);
    let renamed = strings(&["/out/b.txt"]);
    let check = |value: &str, exists: bool| {
        validate_extract_conflict_rename("/out/a.txt", value, exists, &reserved, &renamed, Language::English, &english)
    };
    assert_eq!(check("c.txt", false), Ok("/out/c.txt".to_string()));
    assert_eq!(check("", false), Err("The new file name cannot be empty.".to_string()));
    assert_eq!(check("dir/c.txt", false), Err("Enter a file name only, not a folder path.".to_string()));
    assert_eq!(check("..", false), Err("Enter a file name only, not a folder path.".to_string()));
    assert_eq!(check("c.txt", true), Err("The selected rename target already exists.".to_string()));
    assert_eq!(
        check("b.txt", false),
        Err("The selected rename target is already reserved by another extracted file.".to_string())
    );
    assert_eq!(
        check("a (1).txt", false),
        Err("The selected rename target is already reserved by another extracted file.".to_string())
    );
    assert_eq!(rename_target_path("/out/a.txt", "z.bin"), "/out/z.bin");
    assert_eq!(default_extract_conflict_rename_value("/out/a (2).txt"), Some("a (2).txt".to_string()));
    assert_eq!(default_extract_conflict_rename_value("/"), None);
}

#[test]
fn switching_format_moves_a_suggested_output_only() {
    let english = LocaleState::new(english_locale());
    let sources = strings(&["/home/u/docs"]);
    let mut options = CompressionOptions { format: CompressionFormat::SevenZip, encrypt_file_names: true, ..CompressionOptions::default() };
    let mut output = "/home/u/docs.7z".to_string();
    assert!(apply_compression_format(&mut options, &mut output, &sources, false, CompressionFormat::Zip, Language::English, &english));
    assert_eq!(output, "/home/u/docs.zip");
    assert_eq!(options.format, CompressionFormat::Zip);
    assert!(!options.encrypt_file_names);
    let mut custom = "/elsewhere/mine.zip".to_string();
    assert!(apply_compression_format(&mut options, &mut custom, &sources, false, CompressionFormat::TarGz, Language::English, &english));
    assert_eq!(custom, "/elsewhere/mine.zip");
    let mut empty = "  ".to_string();
    assert!(apply_compression_format(&mut options, &mut empty, &sources, false, CompressionFormat::Xz, Language::English, &english));
    assert_eq!(empty, "/home/u/docs.xz");
    assert!(!apply_compression_format(&mut options, &mut empty, &sources, false, CompressionFormat::Xz, Language::English, &english));
}

#[test]
fn file_manager_selection_must_be_in_path_order() {
    let sorted = strings(&["/a", "/a/b", "/b"]);
    assert_eq!(normalize_file_manager_selection(&sorted, &[true, true, true]), Some(strings(&["/a", "/b"])));
    let unsorted = strings(&["/b", "/a"]);
    assert_eq!(normalize_file_manager_selection(&unsorted, &[true, true]), None);
    let repeated = strings(&["/a", "/a"]);
    assert_eq!(normalize_file_manager_selection(&repeated, &[true, true]), None);
}

#[test]
fn conflict_suggestion_takes_the_first_free_index() {
    let existing = strings(&["/tmp/report.pdf", "/tmp/report (1).pdf"]);
    let reserved = strings(&["/tmp/report (2).pdf"]);
    let renamed = strings(&["/tmp/report (3).pdf"]);
    assert_eq!(
        suggest_available_conflict_path("/tmp/report.pdf", &existing, &reserved, &renamed),
        "/tmp/report (4).pdf"
    );
    assert_eq!(suggest_available_conflict_path("/tmp/report.pdf", &[], &[], &[]), "/tmp/report (1).pdf");
    assert_eq!(suggest_available_conflict_path("/tmp/notes", &strings(&["/tmp/notes (1)"]), &[], &[]), "/tmp/notes (2)");
}

#[test]
fn visible_paths_are_selected_and_cleared_together() {
    let visible = strings(&["/d/a", "/d/b"]);
    assert!(!all_visible_selected(&[], &visible));
    assert!(!all_visible_selected(&visible, &strings(&["/d/a"])));
    assert!(all_visible_selected(&visible, &strings(&["/d/b", "/x", "/d/a"])));
    let all = select_visible(&strings(&["/x", "/d/a"]), &visible, true);
    assert_eq!(all, strings(&["/x", "/d/a", "/d/b"]));
    assert!(all_visible_selected(&visible, &all));
    let none = select_visible(&all, &visible, false);
    assert_eq!(none, strings(&["/x"]));
}

#[test]
fn selection_is_sorted_like_a_path_set() {
    let sorted = sort_file_manager_selection(&strings(&["/b", "/a/c", "/a", "/b", "/a//c"]));
    assert_eq!(sorted, Some(strings(&["/a", "/a/c", "/b"])));
    let paths = sorted.unwrap();
    let exists = vec![true; paths.len()];
    let taken = normalize_file_manager_compression_paths(&paths, &exists);
    assert_eq!(taken, strings(&["/a", "/b"]));
    for (i, a) in taken.iter().enumerate() {
        for (j, b) in taken.iter().enumerate() {
            if i != j {
                assert!(!std::path::Path::new(b).starts_with(a));
            }
        }
    }
    for p in &paths {
        assert!(taken.iter().any(|t| std::path::Path::new(p).starts_with(t)));
    }
}
