use solana_validator_snapshot_keeper::config::size::{format_size, parse_size, ByteSize, SizeError};

#[test]
fn parses_units() {
    assert_eq!(parse_size("60mb").unwrap(), 60 * 1024 * 1024);
    assert_eq!(parse_size("1gb").unwrap(), 1024 * 1024 * 1024);
    assert_eq!(parse_size("100kb").unwrap(), 100 * 1024);
    assert_eq!(parse_size("1024b").unwrap(), 1024);
    assert_eq!(parse_size("2").unwrap(), 2 * 1024 * 1024);
    assert_eq!(parse_size("1.5gb").unwrap(), (1.5 * 1024.0 * 1024.0 * 1024.0) as u64);
}

#[test]
fn rejects_garbage() {
    assert!(parse_size("").is_err());
    assert!(parse_size("abc").is_err());
    assert!(parse_size("10pb").is_err());
}

#[test]
fn size_errors_name_their_cause() {
    assert_eq!(parse_size(""), Err(SizeError::Empty));
    assert_eq!(parse_size(" \t\n "), Err(SizeError::Empty));
    assert_eq!(parse_size("abc"), Err(SizeError::MissingNumber));
    assert_eq!(parse_size("mb"), Err(SizeError::MissingNumber));
    assert_eq!(parse_size("1.2.3mb"), Err(SizeError::InvalidNumber("1.2.3".to_string())));
    assert_eq!(parse_size(".mb"), Err(SizeError::InvalidNumber(".".to_string())));
    assert_eq!(parse_size("10pb"), Err(SizeError::InvalidUnit("pb".to_string())));
    assert_eq!(parse_size("10 PB "), Err(SizeError::InvalidUnit("pb".to_string())));
    assert_eq!(parse_size("10 m b"), Err(SizeError::InvalidUnit("m b".to_string())));
}

#[test]
fn size_units_ignore_case_and_space() {
    assert_eq!(parse_size("  60MB "), Ok(60 * 1024 * 1024));
    assert_eq!(parse_size("60 Mb"), Ok(60 * 1024 * 1024));
    assert_eq!(parse_size("3TB"), Ok(3 * (1u64 << 40)));
    assert_eq!(parse_size("7 KB"), Ok(7 * 1024));
    assert_eq!(parse_size("\u{3000}5b\u{a0}"), Ok(5));
}

#[test]
fn size_decimals_and_saturation() {
    assert_eq!(parse_size("0.5kb"), Ok(512));
    assert_eq!(parse_size(".5kb"), Ok(512));
    assert_eq!(parse_size("5.kb"), Ok(5 * 1024));
    assert_eq!(parse_size("0.1kb"), Ok(102));
    assert_eq!(parse_size("1.25b"), Ok(1));
    assert_eq!(parse_size("99999999999999999999999tb"), Ok(u64::MAX));
    assert_eq!(parse_size("16777216tb"), Ok(u64::MAX));
    assert_eq!(parse_size("16777215tb"), Ok(16777215u64 << 40));
}

#[test]
fn size_reads_number_as_nearest_float() {
    assert_eq!(parse_size("9007199254740993b"), Ok(9007199254740992));
    assert_eq!(parse_size("9007199254740995b"), Ok(9007199254740996));
    assert_eq!(parse_size("9007199254740993.0000001b"), Ok(9007199254740994));
    assert_eq!(parse_size("0.99999999999999999999b"), Ok(1));
    assert_eq!(parse_size("0.9999999999999999b"), Ok(0));
    assert_eq!(parse_size("18446744073709551615b"), Ok(u64::MAX));
    assert_eq!(parse_size("18446744073709550592b"), Ok(u64::MAX));
    assert_eq!(parse_size("18446744073709549568b"), Ok(18446744073709549568));
    assert_eq!(parse_size("0.1b"), Ok(0));
    assert_eq!(parse_size("0.3kb"), Ok(307));
}

const UNITS: [(&str, f64); 6] = [
    ("b", 1.0),
    ("kb", 1024.0),
    ("mb", 1048576.0),
    ("", 1048576.0),
    ("gb", 1073741824.0),
    ("tb", 1099511627776.0),
];

fn float_size(number: &str, unit: f64) -> u64 {
    (number.parse::<f64>().unwrap() * unit) as u64
}

/// The result is what the float computation `(number as f64 * unit) as u64`
/// gives, rounding of long numbers included.
#[test]
fn size_matches_float_computation() {
    let numbers = [
        "0", "1", "3", "12", "1.5", "0.25", "7.75", "100", "4096", "0.125", "123.5", "0.1",
        "0.3", "2.675", "1.9999999999999999999", "0.99999999999999999999",
        "0.9999999999999999", "0.99999999999999994", "0.99999999999999995",
        "9007199254740993", "9007199254740995", "9007199254740992.5",
        "9007199254740993.0000000000000000001", "12345678901234567891",
        "18446744073709551615", "18446744073709550592", "18446744073709550591.99",
        "0.000000000000000000001", "0.00000000000095367431640625",
        "0.000000000000476837158203125", "0.0000000000004768371582031249999",
        "0.0000000000004768371582031250001", "16777215.999999999999",
        "4503599627370495.5", "4503599627370496.5", "4503599627370497.5",
        "123456789.123456789123456789", "1.", ".5", "00000000000000000000000000001.5",
        "3.14159265358979323846264338327950288419716939937510",
    ];
    for (u, m) in UNITS.iter() {
        for n in numbers.iter() {
            let s = format!("{n}{u}");
            assert_eq!(parse_size(&s), Ok(float_size(n, *m)), "{s}");
        }
    }
}

/// The same on many generated decimals, short and long.
#[test]
fn size_matches_float_computation_on_generated_numbers() {
    let mut state: u64 = 0x2545_F491_4F6C_DD1D;
    let mut next = move || {
        state ^= state << 13;
        state ^= state >> 7;
        state ^= state << 17;
        state
    };
    for _ in 0..3000 {
        let int_len = (next() % 22) as usize;
        let frac_len = (next() % 26) as usize;
        let mut n = String::new();
        for _ in 0..int_len {
            n.push(char::from(b'0' + (next() % 10) as u8));
        }
        if frac_len > 0 || int_len == 0 {
            n.push('.');
            for _ in 0..frac_len.max(1) {
                n.push(char::from(b'0' + (next() % 10) as u8));
            }
        }
        let (u, m) = UNITS[(next() % 6) as usize];
        let s = format!("{n}{u}");
        assert_eq!(parse_size(&s), Ok(float_size(&n, m)), "{s}");
    }
}

/// Numbers too long for any float still read as the float would.
#[test]
fn size_of_very_long_numbers() {
    let big = format!("1{}", "0".repeat(400));
    assert_eq!(parse_size(&format!("{big}b")), Ok(u64::MAX));
    let tiny = format!("0.{}1", "0".repeat(400));
    assert_eq!(parse_size(&format!("{tiny}tb")), Ok(0));
    let near_one = format!("0.{}", "9".repeat(300));
    assert_eq!(parse_size(&format!("{near_one}b")), Ok(1));
    assert_eq!(parse_size(&format!("{near_one}kb")), Ok(1024));
}

#[test]
fn byte_size_holds_its_bytes() {
    assert_eq!(ByteSize(42).as_u64(), 42);
    assert_eq!(ByteSize::default().as_u64(), 0);
}

fn float_format(bytes: u64) -> String {
    const KB: u64 = 1024;
    const MB: u64 = KB * 1024;
    const GB: u64 = MB * 1024;
    if bytes >= GB {
        format!("{:.1} GB", bytes as f64 / GB as f64)
    } else if bytes >= MB {
        format!("{:.1} MB", bytes as f64 / MB as f64)
    } else if bytes >= KB {
        format!("{:.1} KB", bytes as f64 / KB as f64)
    } else {
        format!("{bytes} B")
    }
}

#[test]
fn format_size_examples() {
    assert_eq!(format_size(0), "0 B");
    assert_eq!(format_size(1023), "1023 B");
    assert_eq!(format_size(1024), "1.0 KB");
    assert_eq!(format_size(1536), "1.5 KB");
    assert_eq!(format_size(60 * 1024 * 1024), "60.0 MB");
    assert_eq!(format_size(3 * 1024 * 1024 * 1024 / 2), "1.5 GB");
    assert_eq!(format_size(1024 * 1024 - 1), "1024.0 KB");
}

/// The text is what `{:.1}` prints for the float quotient, ties included.
#[test]
fn format_size_matches_float_formatting() {
    let mut samples: Vec<u64> = vec![
        0, 1, 9, 10, 99, 100, 1000, 1023, 1024, 1025, 1075, 1076, 1126, 1280, 1331, 1332,
        1792, 2304, 10239, 10240, 52480, 1048575, 1048576, 1048577, 1310720, 1363148,
        1073741823, 1073741824, 1073741825, 1342177280, 1395864371, 1395864372,
        (1u64 << 53) - 1, 1u64 << 53, (1u64 << 53) + 1, (1u64 << 53) + 2, (1u64 << 53) + 3,
        (1u64 << 54) + 2, (1u64 << 54) + 6, (1u64 << 60) + 255, (1u64 << 60) + 256,
        (1u64 << 60) + 257, u64::MAX, u64::MAX - 1024, u64::MAX - 2047, u64::MAX - 2048,
    ];
    for k in 0..4096u64 {
        samples.push(1024 + k * 51);
        samples.push((1u64 << 20) + k * 52429);
        samples.push((1u64 << 30) + k * 53687091);
        samples.push((1u64 << 40) + k.wrapping_mul(0x9E37_79B9_7F4A_7C15) % (1u64 << 40));
        samples.push(u64::MAX - k.wrapping_mul(0x9E37_79B9) % (1u64 << 52));
    }
    for b in samples {
        assert_eq!(format_size(b), float_format(b), "{b}");
    }
}

#[test]
fn small_sizes_round_trip_through_text() {
    for b in 0..1024u64 {
        assert_eq!(parse_size(&format_size(b)), Ok(b));
    }
    // larger sizes are written to a tenth of their unit
    assert_eq!(parse_size(&format_size(1500)), Ok(1536));
}

#[test]
fn sizes_round_trip_through_text_closely() {
    let mut samples: Vec<u64> = vec![1024, 1500, 1535, 1536, 1048575, 1048576, 1073741823, u64::MAX];
    let mut state: u64 = 0x9E37_79B9_7F4A_7C15;
    for _ in 0..5000 {
        state ^= state << 13;
        state ^= state >> 7;
        state ^= state << 17;
        samples.push(state >> (state % 64));
    }
    for b in samples {
        let r = parse_size(&format_size(b)).unwrap();
        assert!(r.abs_diff(b) <= b / 16 + 1, "{b} -> {r}");
    }
    // whole numbers of the unit come back exactly
    for n in 1..1024u64 {
        assert_eq!(parse_size(&format_size(n * 1024)), Ok(n * 1024));
        assert_eq!(parse_size(&format_size(n << 20)), Ok(n << 20));
        assert_eq!(parse_size(&format_size(n << 30)), Ok(n << 30));
    }
    let top = (u64::MAX >> 30) << 30;
    assert_eq!(parse_size(&format_size(top)), Ok(top));
    assert_eq!(parse_size(&format_size(7 << 50)), Ok(7 << 50));
}

#[test]
fn format_size_decimal_is_close_to_ratio() {
    let mut state: u64 = 0x1234_5678_9ABC_DEF1;
    for _ in 0..5000 {
        state ^= state << 13;
        state ^= state >> 7;
        state ^= state << 17;
        let b = (state >> (state % 54)).max(1024);
        let text = format_size(b);
        let (num, unit) = text.split_once(' ').unwrap();
        let u: u128 = match unit {
            "GB" => 1 << 30,
            "MB" => 1 << 20,
            _ => 1 << 10,
        };
        let (w, d) = num.split_once('.').unwrap();
        let t: u128 = w.parse::<u128>().unwrap() * 10 + d.parse::<u128>().unwrap();
        let diff = (t * u).abs_diff(10 * b as u128);
        let slack = if b < (1u64 << 53) { 0 } else { 40960 };
        assert!(2 * diff <= u + slack, "{b} -> {text}");
    }
}
