use dd_ng::size::{parse_size, parse_size_arg, SizeError};

#[test]
fn documented_sizes() {
    assert_eq!(parse_size("4194304"), Ok(4194304));
    assert_eq!(parse_size("4M"), Ok(4194304));
    assert_eq!(parse_size("16M"), Ok(16 << 20));
    assert_eq!(parse_size("1.5G"), Ok(1610612736));
    assert_eq!(parse_size("512K"), Ok(524288));
    assert_eq!(parse_size("2GiB"), Ok(2147483648));
    assert_eq!(parse_size("1000KB"), Ok(1000000));
}

#[test]
fn units_in_every_form() {
    assert_eq!(parse_size("3"), Ok(3));
    assert_eq!(parse_size("3b"), Ok(3));
    assert_eq!(parse_size("3 B"), Ok(3));
    let units: [(&str, u32); 5] = [("k", 1), ("m", 2), ("g", 3), ("t", 4), ("p", 5)];
    for (u, power) in units {
        let iec: u64 = 3 * 1024u64.pow(power);
        let si: u64 = 3 * 1000u64.pow(power);
        assert_eq!(parse_size(&format!("3{u}")), Ok(iec));
        assert_eq!(parse_size(&format!("3{u}i")), Ok(iec));
        assert_eq!(parse_size(&format!("3{u}ib")), Ok(iec));
        assert_eq!(parse_size(&format!("3{u}b")), Ok(si));
        assert_eq!(parse_size(&format!("3{}", u.to_uppercase())), Ok(iec));
        assert_eq!(parse_size(&format!("3{}iB", u.to_uppercase())), Ok(iec));
        assert_eq!(parse_size(&format!("3{}B", u.to_uppercase())), Ok(si));
    }
}

#[test]
fn space_and_underscores_do_not_matter() {
    assert_eq!(parse_size("  1_000  "), Ok(1000));
    assert_eq!(parse_size("\u{2003}4\u{a0}M\n"), Ok(4194304));
    assert_eq!(parse_size("1_._5K"), Ok(1536));
    assert_eq!(parse_size(".5K"), Ok(512));
    assert_eq!(parse_size("5.K"), Ok(5120));
    assert_eq!(parse_size("0"), Ok(0));
    assert_eq!(parse_size("0.9"), Ok(0));
}

#[test]
fn each_error() {
    assert_eq!(parse_size(""), Err(SizeError::Empty));
    assert_eq!(parse_size(" \t\n"), Err(SizeError::Empty));
    assert_eq!(parse_size("M"), Err(SizeError::NoNumber));
    assert_eq!(parse_size("___"), Err(SizeError::NoNumber));
    assert_eq!(parse_size("-1"), Err(SizeError::NoNumber));
    assert_eq!(parse_size("."), Err(SizeError::BadNumber));
    assert_eq!(parse_size("1.2.3"), Err(SizeError::BadNumber));
    assert_eq!(parse_size(&format!("{}.0", "9".repeat(400))), Err(SizeError::NotFinite));
    assert_eq!(parse_size(&"9".repeat(400)), Err(SizeError::NotFinite));
    assert_eq!(parse_size(&"9".repeat(300)), Err(SizeError::TooLarge));
    assert_eq!(parse_size("1X"), Err(SizeError::UnknownUnit));
    assert_eq!(parse_size("1bb"), Err(SizeError::UnknownUnit));
    assert_eq!(parse_size("1kbi"), Err(SizeError::UnknownUnit));
    assert_eq!(parse_size("1e5"), Err(SizeError::UnknownUnit));
    assert_eq!(parse_size("16777217T"), Err(SizeError::TooLarge));
    assert_eq!(parse_size("20000P"), Err(SizeError::TooLarge));
}

#[test]
fn errors_come_in_order() {
    let huge = "9".repeat(400);
    assert_eq!(parse_size(&format!("{huge}.5X")), Err(SizeError::NotFinite));
    assert_eq!(parse_size(&format!("{huge}X")), Err(SizeError::NotFinite));
    assert_eq!(parse_size(&format!("{}X", "9".repeat(300))), Err(SizeError::UnknownUnit));
    assert_eq!(parse_size("1..X"), Err(SizeError::BadNumber));
    assert_eq!(parse_size("99999999999999999999X"), Err(SizeError::UnknownUnit));
}

#[test]
fn messages_of_errors() {
    assert_eq!(parse_size_arg("4M"), Ok(4194304));
    assert_eq!(parse_size_arg(" "), Err("empty size".to_string()));
    assert_eq!(
        parse_size_arg(" MB "),
        Err("size \"MB\" has no numeric part".to_string())
    );
    assert_eq!(
        parse_size_arg("1.2.3"),
        Err("bad number in size \"1.2.3\"".to_string())
    );
    assert_eq!(
        parse_size_arg(&format!("{}.", "9".repeat(400))),
        Err("size must be non-negative and finite".to_string())
    );
    assert_eq!(
        parse_size_arg("1 \"Xb"),
        Err("unknown size unit \"\\\"x\" in \"1 \\\"Xb\"".to_string())
    );
    assert_eq!(
        parse_size_arg("20000P"),
        Err("size \"20000P\" too large".to_string())
    );
}

#[test]
fn the_top_of_the_range() {
    assert_eq!(parse_size("18446744073709551615"), Ok(u64::MAX));
    assert_eq!(parse_size("18446744073709551616"), Err(SizeError::TooLarge));
    assert_eq!(parse_size("16383P"), Ok(16383 << 50));
    assert_eq!(parse_size("16384P"), Err(SizeError::TooLarge));
    assert_eq!(parse_size("18014398509481983K"), Ok(18014398509481983 << 10));
    assert_eq!(parse_size("18446PB"), Ok(18446000000000000000));
    assert_eq!(parse_size("18447PB"), Err(SizeError::TooLarge));
    // With a point, the largest sizes are rounded to 2^64, which counts as the
    // largest.
    assert_eq!(parse_size("18446744073709551615.0"), Ok(u64::MAX));
    assert_eq!(parse_size("18446744073709555000.0"), Err(SizeError::TooLarge));
}

#[test]
fn whole_sizes_are_exact() {
    assert_eq!(parse_size("9007199254740993"), Ok(9007199254740993));
    assert_eq!(parse_size("9_007_199_254_740_993 B"), Ok(9007199254740993));
    assert_eq!(parse_size("9007199254740993kB"), Ok(9007199254740993000));
    for n in [0u64, 1, 7, 4095, 123456789, 8796093022207, 9007199254740995] {
        assert_eq!(parse_size(&n.to_string()), Ok(n));
        assert_eq!(parse_size(&format!("{n}K")), Ok(n * 1024));
        assert_eq!(parse_size(&format!("{n}kB")), Ok(n * 1000));
    }
}

#[test]
fn zeros_behind_the_point_change_nothing() {
    assert_eq!(parse_size("4.M"), Ok(4194304));
    assert_eq!(parse_size("4.000M"), Ok(4194304));
    assert_eq!(parse_size("9007199254740992.00"), Ok(9007199254740992));
    assert_eq!(parse_size("9007199254740993.0"), Ok(9007199254740992));
}

#[test]
fn upper_and_lower_case_are_the_same() {
    for (a, b) in [("4MIB", "4mib"), ("1.5Gb", "1.5gB"), ("7X", "7x"), ("K", "k")] {
        assert_eq!(parse_size(a), parse_size(b));
    }
}

/// A whole number of units, in wide arithmetic.
fn by_integers(num: &str, unit: u64) -> Result<u64, SizeError> {
    if !num.parse::<f64>().unwrap().is_finite() {
        return Err(SizeError::NotFinite);
    }
    let bytes = num.parse::<u128>().ok().and_then(|n| n.checked_mul(unit as u128));
    match bytes.and_then(|b| u64::try_from(b).ok()) {
        Some(b) => Ok(b),
        None => Err(SizeError::TooLarge),
    }
}

fn by_doubles(num: &str, unit: u64) -> Result<u64, SizeError> {
    let n: f64 = num.parse().unwrap();
    if !n.is_finite() {
        return Err(SizeError::NotFinite);
    }
    let bytes = n * (unit as f64);
    if bytes > (u64::MAX as f64) {
        return Err(SizeError::TooLarge);
    }
    Ok(bytes as u64)
}

#[test]
fn sizes_with_a_point_are_what_doubles_make_of_them() {
    let mut nums: Vec<String> = vec![];
    let mut x: u64 = 88172645463325252;
    for i in 0..400u32 {
        x ^= x << 13;
        x ^= x >> 7;
        x ^= x << 17;
        let whole = x >> (i % 60);
        let rest = x.wrapping_mul(0x9E3779B97F4A7C15);
        nums.push(format!("{whole}"));
        nums.push(format!("{whole}.{rest}"));
        nums.push(format!("0.{}{rest}", "0".repeat((i % 40) as usize)));
        nums.push(format!("{whole}{}", "0".repeat((i % 8) as usize)));
    }
    for n in ["0.1", "0.3", "1.0000000000000002", "4503599627370496.5", "4503599627370497.5"] {
        nums.push(n.to_string());
    }
    nums.push(format!("0.{}1", "0".repeat(330)));
    nums.push(format!("0.{}1", "0".repeat(400)));
    nums.push("179769313486231570".to_string() + &"0".repeat(291));
    nums.push("179769313486231580".to_string() + &"0".repeat(291));
    nums.push("179769313486231590".to_string() + &"0".repeat(291));
    nums.push("1".to_string() + &"0".repeat(308));
    nums.push("1".to_string() + &"0".repeat(309));
    let units: [(&str, u64); 11] = [
        ("", 1),
        ("K", 1 << 10),
        ("M", 1 << 20),
        ("G", 1 << 30),
        ("T", 1 << 40),
        ("P", 1 << 50),
        ("KB", 1000),
        ("MB", 1000000),
        ("GB", 1000000000),
        ("TB", 1000000000000),
        ("PB", 1000000000000000),
    ];
    for n in &nums {
        for (u, size) in units {
            let read = parse_size(&format!("{n}{u}"));
            if n.contains('.') {
                assert_eq!(read, by_doubles(n, size), "{n}{u}");
            } else {
                assert_eq!(read, by_integers(n, size), "{n}{u}");
                let pointed = format!("{n}.{u}");
                assert_eq!(parse_size(&pointed), by_doubles(n, size), "{pointed}");
            }
        }
    }
}
