use rustsync::numfmt::format_size;

fn float_reference(bytes: u64) -> String {
    let units = ["B", "KB", "MB", "GB", "TB"];
    let mut size = bytes as f64;
    for unit in units {
        if size < 1024.0 {
            return format!("{size:.1} {unit}");
        }
        size /= 1024.0;
    }
    format!("{size:.1} PB")
}

#[test]
fn format_size_small_values() {
    assert_eq!(format_size(0), "0.0 B");
    assert_eq!(format_size(1), "1.0 B");
    assert_eq!(format_size(1023), "1023.0 B");
    assert_eq!(format_size(1024), "1.0 KB");
    assert_eq!(format_size(1536), "1.5 KB");
    assert_eq!(format_size(1048576), "1.0 MB");
}

#[test]
fn format_size_agrees_with_float_formatting() {
    for b in 0u64..20000 {
        assert_eq!(format_size(b), float_reference(b), "bytes = {b}");
    }
    let mut x: u64 = 0x9e3779b97f4a7c15;
    for _ in 0..200000 {
        x = x.wrapping_mul(6364136223846793005).wrapping_add(1442695040888963407);
        let shift = (x >> 58) as u32;
        let b = x >> shift;
        assert_eq!(format_size(b), float_reference(b), "bytes = {b}");
    }
    for e in 0..64u32 {
        let p = 1u64 << e;
        for d in [0u64, 1, 2, 3, 512, 1023, 1024, 1025] {
            for b in [p.wrapping_add(d), p.wrapping_sub(d), p.wrapping_mul(5).wrapping_add(d)] {
                assert_eq!(format_size(b), float_reference(b), "bytes = {b}");
            }
        }
    }
    for b in [u64::MAX, u64::MAX - 1, (1u64 << 53) + 1, (1u64 << 53) + 3, 1280, 1024 * 1024 + 52428 + 4] {
        assert_eq!(format_size(b), float_reference(b), "bytes = {b}");
    }
}
