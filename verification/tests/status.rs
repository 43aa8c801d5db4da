use vram_booster::status::{ceiling_reserve_mib, format_text, human_bytes, printable};

#[test]
fn printable_drops_control_characters() {
    let raw = "app\u{1b}[2J-\u{7f}x\u{9b}y\u{a0}z\n";
    let want: String = raw.chars().filter(|c| !c.is_control()).collect();
    assert_eq!(printable(raw), want);
    assert_eq!(printable(raw), "app[2J-xy\u{a0}z");
}

#[test]
fn control_characters_agree_with_std() {
    for code in 0u32..0x3000 {
        if let Some(c) = char::from_u32(code) {
            let s = c.to_string();
            assert_eq!(printable(&s).is_empty(), c.is_control(), "U+{code:04X}");
        }
    }
}

#[test]
fn format_text_marks_empty() {
    assert_eq!(format_text(""), "(none)");
    assert_eq!(format_text("app-x.scope"), "app-x.scope");
}

#[test]
fn human_bytes_matches_the_status_example() {
    assert_eq!(human_bytes(8573157376), "8573157376 (8176 MiB, 7.98 GiB)");
    assert_eq!(human_bytes(7715841638), "7715841638 (7358 MiB, 7.19 GiB)");
    assert_eq!(human_bytes(1048576), "1048576 (1 MiB)");
    assert_eq!(human_bytes(0), "0 (0 MiB)");
}

fn float_human_bytes(b: u64) -> String {
    let mb = b / (1024 * 1024);
    let gb = mb as f64 / 1024.0;
    if gb >= 1.0 {
        format!("{b} ({mb} MiB, {gb:.2} GiB)")
    } else {
        format!("{b} ({mb} MiB)")
    }
}

#[test]
fn human_bytes_agrees_with_float_formatting() {
    let mib = 1024 * 1024u64;
    for mb in (0..70000u64).chain([1152, 1024 * 1024, 1 << 40, (1 << 44) - 1]) {
        let b = mb * mib + (mb % 7) * 1000;
        assert_eq!(human_bytes(b), float_human_bytes(b), "{b}");
    }
    assert_eq!(human_bytes(u64::MAX), float_human_bytes(u64::MAX));
}

#[test]
fn reserve_shown_in_mib() {
    assert_eq!(ceiling_reserve_mib(8192 * 1048576, 7936 * 1048576), 256);
    assert_eq!(ceiling_reserve_mib(1, 5), 0);
}
