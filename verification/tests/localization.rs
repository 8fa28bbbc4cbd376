use fastzip::localization::{
    chinese_locale, current_locale, detect_app_locale, english_locale, locale_for_code,
    locale_is_chinese, localize_message, parse_catalog, set_current_locale,
    set_current_locale_by_code, supported_locales, LocaleState,
};

#[test]
fn supported_locales_start_with_english_and_chinese() {
    let locales = supported_locales();
    assert_eq!(locales.len(), 12);
    assert_eq!(locales[0].code, "en");
    assert_eq!(locales[1].code, "zh-CN");
    assert_eq!(english_locale(), locales[0]);
    assert_eq!(chinese_locale(), locales[1]);
    assert!(locale_is_chinese(&chinese_locale()));
    assert!(!locale_is_chinese(&english_locale()));
}

#[test]
fn locale_codes_are_normalized() {
    assert_eq!(locale_for_code(" zh_cn ").map(|l| l.code), Some("zh-CN"));
    assert_eq!(locale_for_code("pt_br").map(|l| l.code), Some("pt-BR"));
    assert_eq!(locale_for_code("JA").map(|l| l.code), Some("ja"));
    assert_eq!(locale_for_code("xx"), None);
    for locale in supported_locales() {
        assert_eq!(locale_for_code(locale.code), Some(locale));
        assert_eq!(locale_for_code(&locale.code.to_ascii_uppercase()), Some(locale));
        let normal = locale.code.trim().replace('_', "-").to_ascii_lowercase();
        assert_eq!(locale_for_code(&normal), Some(locale));
    }
    for code in ["  Zh_Hans ", "EN-gb", "es_419", "ar-EG\t", "klingon"] {
        let normal = code.trim().replace('_', "-").to_ascii_lowercase();
        assert_eq!(locale_for_code(code), locale_for_code(&normal));
    }
}

#[test]
fn switching_by_code_examples() {
    let mut state = LocaleState::new(english_locale());
    assert_eq!(set_current_locale_by_code(&mut state, "xx-YY"), english_locale());
    assert_eq!(current_locale(&state), english_locale());
    assert_eq!(set_current_locale_by_code(&mut state, "ja_JP").code, "ja");
    assert_eq!(current_locale(&state).code, "ja");
}

#[test]
fn detection_follows_precedence() {
    let c = |v: &[Option<&str>]| v.iter().map(|o| o.map(|s| s.to_string())).collect::<Vec<_>>();
    assert_eq!(detect_app_locale(&c(&[None, Some("fr")]), Some(0x0411)).code, "fr");
    assert_eq!(detect_app_locale(&c(&[Some("klingon"), None]), Some(0x0411)).code, "ja");
    assert_eq!(detect_app_locale(&c(&[None]), None).code, "en");
}

#[test]
fn switching_locales() {
    let mut state = LocaleState::new(english_locale());
    set_current_locale(&mut state, chinese_locale());
    assert_eq!(current_locale(&state), chinese_locale());
    let now = set_current_locale_by_code(&mut state, "unknown");
    assert_eq!(now, english_locale());
    assert_eq!(current_locale(&state), english_locale());
}

#[test]
fn messages_follow_the_current_locale_and_catalogs() {
    let mut state = LocaleState::new(english_locale());
    assert_eq!(localize_message(&state, "Open", "打开"), "Open");
    state.add_catalog("fr", "Open\tOuvrir\nClose\tFermer\n");
    set_current_locale_by_code(&mut state, "fr");
    assert_eq!(localize_message(&state, "Open", "打开"), "Ouvrir");
    assert_eq!(localize_message(&state, "Save", "保存"), "Save");
    set_current_locale_by_code(&mut state, "zh-CN");
    assert_eq!(localize_message(&state, "Open", "打开"), "打开");
}

#[test]
fn catalogs_are_tab_separated_lines() {
    let pairs = parse_catalog("A\tB\r\nno tab here\nC\tD\n");
    assert_eq!(pairs, vec![("A".to_string(), "B".to_string()), ("C".to_string(), "D".to_string())]);
}
