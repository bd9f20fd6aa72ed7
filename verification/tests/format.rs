use acme_disk_use::format_size;

#[test]
fn test_format_size_human_readable() {
    assert_eq!(format_size(0, true), "0 B");
    assert_eq!(format_size(512, true), "512 B");
    assert_eq!(format_size(1024, true), "1.00 KB");
    assert_eq!(format_size(1536, true), "1.50 KB");
    assert_eq!(format_size(1024 * 1024, true), "1.00 MB");
    assert_eq!(format_size(1024 * 1024 * 1024, true), "1.00 GB");
    assert_eq!(format_size(1024_u64.pow(4), true), "1.00 TB");

    // Test non-human-readable format
    assert_eq!(format_size(0, false), "0 bytes");
    assert_eq!(format_size(1024, false), "1024 bytes");
    assert_eq!(format_size(1234567, false), "1234567 bytes");
}

/// The same size formatted with floating-point arithmetic.
fn with_floats(bytes: u64) -> String {
    let units = ["B", "KB", "MB", "GB", "TB"];
    if bytes == 0 {
        return "0 B".to_string();
    }
    let mut size = bytes as f64;
    let mut unit = 0;
    while size >= 1024.0 && unit < units.len() - 1 {
        size /= 1024.0;
        unit += 1;
    }
    if unit == 0 {
        format!("{} {}", bytes, units[unit])
    } else {
        format!("{:.2} {}", size, units[unit])
    }
}

#[test]
fn format_size_agrees_with_floats_near_unit_borders() {
    for unit in 1..=6u32 {
        let border = 1024u64.pow(unit);
        for offset in 0..2000u64 {
            assert_eq!(format_size(border + offset, true), with_floats(border + offset));
            assert_eq!(format_size(border - 1 - offset, true), with_floats(border - 1 - offset));
        }
    }
}

#[test]
fn format_size_agrees_with_floats_on_ties() {
    // 1.125 KB, 1.375 KB and their like lie half-way between two hundredths.
    for eighths in 0..4000u64 {
        let bytes = 1024 + 128 * eighths;
        assert_eq!(format_size(bytes, true), with_floats(bytes));
        let bytes = 1024 * 1024 + 128 * 1024 * eighths;
        assert_eq!(format_size(bytes, true), with_floats(bytes));
    }
    assert_eq!(format_size(1024 + 128, true), "1.12 KB");
    assert_eq!(format_size(1024 + 3 * 128, true), "1.38 KB");
}

#[test]
fn format_size_agrees_with_floats_beyond_exact_doubles() {
    let exact = 1u64 << 53;
    for offset in 0..5000u64 {
        assert_eq!(format_size(exact + offset, true), with_floats(exact + offset));
        assert_eq!(format_size(u64::MAX - offset, true), with_floats(u64::MAX - offset));
        let spread = exact + offset * 0x3_0000_0421;
        assert_eq!(format_size(spread, true), with_floats(spread));
    }
    assert_eq!(format_size(u64::MAX, true), "16777216.00 TB");
}

#[test]
fn format_size_agrees_with_floats_on_scattered_sizes() {
    let mut bytes: u64 = 1;
    for _ in 0..20000 {
        bytes = bytes.wrapping_mul(6364136223846793005).wrapping_add(1442695040888963407);
        let shift = (bytes >> 58) as u32;
        let size = bytes >> shift;
        assert_eq!(format_size(size, true), with_floats(size));
        assert_eq!(format_size(size, false), format!("{} bytes", size));
    }
}

#[test]
fn format_size_rounds_up_into_the_next_thousand() {
    assert_eq!(format_size(1024 * 1024 - 1, true), "1024.00 KB");
    assert_eq!(format_size(1023, true), "1023 B");
}
