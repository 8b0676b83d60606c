use lib::ryu::{format_digits, write_f64_bits, write_int, Decomposed};

fn text(ds: &[u8], k: i32, neg: bool) -> String {
    let mut digits = [0u8; 17];
    digits[..ds.len()].copy_from_slice(ds);
    let d = Decomposed { digits, n: ds.len(), k, neg };
    let mut out = String::new();
    format_digits(&mut out, &d);
    out
}

#[test]
fn ryu_plain_decimals() {
    assert_eq!(text(&[1, 2, 3], 1, false), "1.23");
    assert_eq!(text(&[1, 2, 3], 0, false), "0.123");
    assert_eq!(text(&[1, 2, 3], -2, false), "0.00123");
    assert_eq!(text(&[1, 2, 3], 5, false), "12300.0");
    assert_eq!(text(&[1, 2, 3], 3, false), "123.0");
    assert_eq!(text(&[1, 2, 3], 1, true), "-1.23");
    assert_eq!(text(&[5], -4, false), "0.00005");
}

#[test]
fn ryu_scientific() {
    assert_eq!(text(&[1, 2, 3], 20, false), "1.23e+19");
    assert_eq!(text(&[1, 2, 3], -6, false), "1.23e-7");
    assert_eq!(text(&[5], 21, false), "5e+20");
    assert_eq!(text(&[1], 17, true), "-1e+16");
    assert_eq!(text(&[2, 5], -5, false), "2.5e-6");
}

#[test]
fn ryu_integers() {
    let mut s = String::new();
    write_int(&mut s, -5);
    write_int(&mut s, 0);
    write_int(&mut s, i64::MIN);
    assert_eq!(s, "-50-9223372036854775808");
}

fn estimate(f: f64) -> i32 {
    if f.is_finite() && f != 0.0 {
        f.abs().log10().ceil() as i32
    } else {
        0
    }
}

fn float_text(f: f64) -> String {
    let mut s = String::new();
    write_f64_bits(&mut s, f.to_bits(), estimate(f));
    s
}

#[test]
fn ryu_shortest_round_values() {
    assert_eq!(float_text(1.0), "1.0");
    assert_eq!(float_text(0.1), "0.1");
    assert_eq!(float_text(-2.5), "-2.5");
    assert_eq!(float_text(123.456), "123.456");
    assert_eq!(float_text(100.0), "100.0");
    assert_eq!(float_text(0.3), "0.3");
    assert_eq!(float_text(1.0 / 3.0), "0.3333333333333333");
    assert_eq!(float_text(2.0 / 3.0), "0.6666666666666666");
}

#[test]
fn ryu_shortest_extremes() {
    assert_eq!(float_text(f64::MAX), "1.7976931348623157e+308");
    assert_eq!(float_text(f64::MIN_POSITIVE), "2.2250738585072014e-308");
    assert_eq!(float_text(5e-324), "5e-324");
    assert_eq!(float_text(1e21), "1e+21");
    assert_eq!(float_text(1e16), "1e+16");
    assert_eq!(float_text(1e15), "1000000000000000.0");
    assert_eq!(float_text(1e-7), "1e-7");
    assert_eq!(float_text(0.000001), "1e-6");
    assert_eq!(float_text(0.00001), "0.00001");
}

#[test]
fn ryu_special_values() {
    assert_eq!(float_text(f64::NAN), "NaN");
    assert_eq!(float_text(f64::INFINITY), "inf");
    assert_eq!(float_text(f64::NEG_INFINITY), "-inf");
    assert_eq!(float_text(0.0), "0.0");
    assert_eq!(float_text(-0.0), "-0.0");
}

#[test]
fn ryu_estimate_off_by_some_gives_the_same_text() {
    for f in [0.1, 1.0, 123.456, 9.999999999999999e22, 5e-324, f64::MAX, 1e23, 0.3] {
        let k = estimate(f);
        let want = float_text(f);
        for delta in [-3, -1, 1, 3] {
            let mut s = String::new();
            write_f64_bits(&mut s, f.to_bits(), k + delta);
            assert_eq!(s, want, "estimate {} for {}", k + delta, f);
        }
    }
}

#[test]
fn ryu_shortest_reads_back() {
    for f in [0.1, 0.2, 0.7, 1.5e-10, 6.02214076e23, 3.141592653589793, 2.718281828459045, 1e100, 123456789.0] {
        let t = float_text(f);
        assert_eq!(t.parse::<f64>().unwrap(), f, "{}", t);
    }
}

#[test]
fn ryu_last_digit_ten_carries() {
    assert_eq!(float_text(1e23), "1e+23");
    assert_eq!(float_text(9.5), "9.5");
    assert_eq!(float_text(1e22), "1e+22");
    for f in [1e23, 9.999999999999999e22, 1e-5, 99.99999999999999, 0.9999999999999999] {
        let t = float_text(f);
        assert_eq!(t.parse::<f64>().unwrap(), f, "{}", t);
    }
}

#[test]
fn ryu_many_floats_read_back() {
    let mut x: u64 = 0x9E37_79B9_7F4A_7C15;
    for _ in 0..20000 {
        x = x.wrapping_add(0x9E37_79B9_7F4A_7C15);
        let mut z = x;
        z = (z ^ (z >> 30)).wrapping_mul(0xBF58_476D_1CE4_E5B9);
        z = (z ^ (z >> 27)).wrapping_mul(0x94D0_49BB_1331_11EB);
        z ^= z >> 31;
        let f = f64::from_bits(z);
        if !f.is_finite() {
            continue;
        }
        let t = float_text(f);
        assert_eq!(t.parse::<f64>().unwrap().to_bits(), f.to_bits(), "{}", t);
    }
    for e in -320..=308 {
        let f: f64 = format!("1e{}", e).parse().unwrap();
        let t = float_text(f);
        assert_eq!(t.parse::<f64>().unwrap(), f, "{}", t);
    }
}

#[test]
fn ryu_estimate_changes_nothing() {
    for f in [1.0f64, 0.1, 1e300, 5e-324, 123.456, f64::MAX, 2.0 / 3.0] {
        let bits = f.to_bits();
        let mut want = String::new();
        write_f64_bits(&mut want, bits, estimate(f));
        for k in [-350i32, -20, 0, 1, 17, 300, 350] {
            let mut got = String::new();
            write_f64_bits(&mut got, bits, k);
            assert_eq!(got, want);
        }
    }
}
