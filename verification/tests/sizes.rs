use convert_to_jpg::utils::{format_file_size, GB, KB, MB};

fn float_reference(bytes: u64) -> String {
    if bytes >= GB {
        format!("{:.1} GB", bytes as f64 / GB as f64)
    } else if bytes >= MB {
        format!("{:.1} MB", bytes as f64 / MB as f64)
    } else if bytes >= KB {
        format!("{:.1} KB", bytes as f64 / KB as f64)
    } else {
        format!("{} B", bytes)
    }
}

#[test]
fn format_file_size_examples() {
    assert_eq!(format_file_size(0), "0 B");
    assert_eq!(format_file_size(1023), "1023 B");
    assert_eq!(format_file_size(1024), "1.0 KB");
    assert_eq!(format_file_size(1536), "1.5 KB");
    assert_eq!(format_file_size(2_516_582), "2.4 MB");
    assert_eq!(format_file_size(1_048_575), "1024.0 KB");
    assert_eq!(format_file_size(1_073_741_824), "1.0 GB");
    assert_eq!(format_file_size(u64::MAX), "17179869184.0 GB");
}

#[test]
fn format_file_size_rounds_ties_to_even() {
    // 1280 / 1024 = 1.25 exactly; 1.25 is written with one decimal as 1.2
    assert_eq!(format_file_size(1280), float_reference(1280));
    assert_eq!(format_file_size(1280), "1.2 KB");
    // 1.75 KB rounds up to the even tenth 1.8
    assert_eq!(format_file_size(1792), "1.8 KB");
}

#[test]
fn format_file_size_matches_float_division() {
    let mut samples: Vec<u64> = Vec::new();
    for b in 0..70_000u64 {
        samples.push(b);
    }
    for k in 0..64u32 {
        let p = 1u64 << k;
        for d in 0..8u64 {
            samples.push(p.wrapping_add(d));
            samples.push(p.wrapping_sub(d));
            samples.push(p.wrapping_mul(3).wrapping_add(d));
        }
    }
    let mut x: u64 = 0x9E37_79B9_7F4A_7C15;
    for _ in 0..200_000 {
        x ^= x << 13;
        x ^= x >> 7;
        x ^= x << 17;
        samples.push(x);
        samples.push(x >> (x % 64));
    }
    for t in 0..2000u64 {
        // sizes whose quotient lies exactly halfway between two tenths
        samples.push(t * 1024 * 1024 * 1024 / 10 + 1024 * 1024 * 1024 / 20);
        samples.push(t * 1024 * 1024 / 10 + 1024 * 1024 / 20);
        samples.push(t * 1024 / 10 + 1024 / 20);
        samples.push((1u64 << 60) + t * 1024);
    }
    for b in samples {
        assert_eq!(format_file_size(b), float_reference(b), "size {}", b);
    }
}
