use fastzip::localization::{english_locale, LocaleState};
use fastzip::ui::{format_size, Language};

fn float_rendering(bytes: u64) -> String {
    let units = ["B", "KB", "MB", "GB", "TB"];
    let mut size = bytes as f64;
    let mut index = 0usize;
    while size >= 1024.0 && index < units.len() - 1 {
        size /= 1024.0;
        index += 1;
    }
    if index == 0 {
        format!("{bytes} {}", units[index])
    } else {
        format!("{size:.1} {}", units[index])
    }
}

#[test]
fn sizes_render_exactly_and_in_units() {
    let state = LocaleState::new(english_locale());
    assert_eq!(format_size(None, Language::English, &state), "-");
    assert_eq!(format_size(Some(0), Language::English, &state), "0 B");
    assert_eq!(format_size(Some(1023), Language::English, &state), "1023 B");
    assert_eq!(format_size(Some(1024), Language::English, &state), "1.0 KB");
    assert_eq!(format_size(Some(1536), Language::English, &state), "1.5 KB");
    assert_eq!(format_size(Some(5 * 1024 * 1024), Language::English, &state), "5.0 MB");
    assert_eq!(format_size(Some(3 << 40), Language::English, &state), "3.0 TB");
    assert_eq!(format_size(Some(u64::MAX), Language::English, &state), "16777216.0 TB");
}

#[test]
fn sizes_agree_with_the_float_rendering() {
    let state = LocaleState::new(english_locale());
    let mut samples: Vec<u64> = vec![
        1280, 1331, 1075, 1126, 2047, 2048, 1048575, 1048576, 1073741823, 1099511627775,
        1099511627776, 1 << 53, (1 << 53) + 1, (1 << 53) + 3, (1 << 60) + 12345, u64::MAX - 1,
        u64::MAX,
    ];
    let mut x: u64 = 0x2545F4914F6CDD1D;
    for i in 0..4000u32 {
        x ^= x << 13;
        x ^= x >> 7;
        x ^= x << 17;
        samples.push(x >> (i % 64));
    }
    for k in 0..5u32 {
        for tenth in 0..40u64 {
            let base = 1u64 << (10 * k);
            samples.push(base * tenth / 20 + base);
            samples.push((base * tenth * 5) / 100 + base * 3);
        }
    }
    for bytes in samples {
        assert_eq!(
            format_size(Some(bytes), Language::English, &state),
            float_rendering(bytes),
            "size {bytes}"
        );
    }
}
