use vram_booster::dmem::{dmem_entry, dmem_line, dmem_low_has_value, parse_dmem_capacity, pick_dmem_region};

#[test]
fn dmem_entry_reads_the_first_listing() {
    let body = "drm/a/vram max\ndrm/b/vram 100\ndrm/b/vram 200\n";
    assert_eq!(dmem_entry(body, "drm/a/vram"), Some("max".to_string()));
    assert_eq!(dmem_entry(body, "drm/b/vram"), Some("100".to_string()));
    assert_eq!(dmem_entry(body, "drm/c/vram"), None);
    // a line naming the key without a value is passed over
    assert_eq!(dmem_entry("drm/a/vram\ndrm/a/vram 5\n", "drm/a/vram"), Some("5".to_string()));
    assert_eq!(dmem_entry("", "drm/a/vram"), None);
}

#[test]
fn written_line_is_read_back() {
    let line = dmem_line("drm/0000:2d:00.0/vram", "7715841638");
    assert_eq!(line, "drm/0000:2d:00.0/vram 7715841638\n");
    assert_eq!(dmem_entry(&line, "drm/0000:2d:00.0/vram"), Some("7715841638".to_string()));
    assert!(dmem_low_has_value(&line, "drm/0000:2d:00.0/vram", 7715841638));
}

#[test]
fn has_value_needs_a_number() {
    assert!(dmem_low_has_value("drm/a 5\n", "drm/a", 5));
    assert!(dmem_low_has_value("drm/a +5\n", "drm/a", 5));
    assert!(!dmem_low_has_value("drm/a max\n", "drm/a", 0));
    assert!(dmem_low_has_value("other 1\ndrm/a 0\n", "drm/a", 0));
}

#[test]
fn capacity_keeps_order_and_skips_zero_and_non_drm() {
    let body = "drm/b/vram 10\r\nsystem 5\ndrm/a/vram 20 extra\ndrm/c/vram 0\ndrm/d/vram -1\n";
    assert_eq!(
        parse_dmem_capacity(body),
        vec![("drm/b/vram".to_string(), 10), ("drm/a/vram".to_string(), 20)]
    );
}

#[test]
fn pick_region_largest_last_of_equals() {
    let es = vec![
        ("drm/a".to_string(), 10),
        ("drm/b".to_string(), 30),
        ("drm/c".to_string(), 30),
        ("drm/d".to_string(), 5),
    ];
    assert_eq!(pick_dmem_region(&es, None), Some(("drm/c".to_string(), 30)));
    assert_eq!(pick_dmem_region(&es, Some("drm/a")), Some(("drm/a".to_string(), 10)));
    assert_eq!(pick_dmem_region(&es, Some("drm/x")), None);
    assert_eq!(pick_dmem_region(&Vec::new(), None), None);
}
