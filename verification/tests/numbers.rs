//! The arithmetic on bit patterns agrees with the arithmetic of the machine.

use srvaudit::float::{Double, Format, Single};
use srvaudit::natural::Natural;
use srvaudit::number::{read_i32, read_u16, read_u32, read_u64};
use srvaudit::parse::{format_bytes, human_to_bytes, parse_pct};
use srvaudit::reading::{eq_ignoring_case, read_double, read_single};
use srvaudit::rows::bar;

/// A fixed sequence of numbers that look random.
struct Numbers {
    state: u64,
}

impl Numbers {
    fn next(&mut self) -> u64 {
        self.state = self
            .state
            .wrapping_mul(6364136223846793005)
            .wrapping_add(1442695040888963407);
        self.state ^ (self.state >> 29)
    }
}

fn numbers() -> Numbers {
    Numbers { state: 20260907 }
}

fn chars(s: &str) -> Vec<char> {
    s.chars().collect()
}

const SINGLES: [f32; 24] = [
    0.0,
    -0.0,
    1.0,
    -1.0,
    0.4,
    0.5,
    0.6,
    1.5,
    2.5,
    9.5,
    80.0,
    89.5,
    89.999_99,
    90.0,
    96.0,
    99.5,
    100.0,
    100.5,
    1e10,
    3.4e38,
    1e-40,
    f32::INFINITY,
    f32::NEG_INFINITY,
    f32::MIN_POSITIVE,
];

#[test]
fn singles_print_as_the_machine_prints_them() {
    for x in SINGLES {
        assert_eq!(Single { bits: x.to_bits() }.show(), format!("{x:.0}"), "{x}");
    }
    assert_eq!(Single { bits: f32::NAN.to_bits() }.show(), "NaN");
    let mut n = numbers();
    for _ in 0..3000 {
        let x = f32::from_bits(n.next() as u32);
        if !x.is_nan() {
            assert_eq!(Single { bits: x.to_bits() }.show(), format!("{x:.0}"), "{x}");
        }
    }
}

#[test]
fn doubles_print_as_the_machine_prints_them() {
    let mut n = numbers();
    for i in 0..3000 {
        // Small magnitudes, where the digits behind the point matter.
        let x = (n.next() % 1_000_000_000) as f64 / 997_001.0;
        let d = Double { bits: x.to_bits() };
        match i % 3 {
            0 => assert_eq!(d.show(0), format!("{x:.0}")),
            1 => assert_eq!(d.show(1), format!("{x:.1}")),
            _ => assert_eq!(d.show(2), format!("{x:.2}")),
        }
    }
    for x in [0.0, 0.005, 0.015, 0.025, 0.05, 0.25, 0.35, 2.675, 1e300, -1.25, f64::INFINITY] {
        let d = Double { bits: x.to_bits() };
        assert_eq!(d.show(0), format!("{x:.0}"));
        assert_eq!(d.show(1), format!("{x:.1}"));
        assert_eq!(d.show(2), format!("{x:.2}"));
    }
}

#[test]
fn thresholds_are_the_machine_s() {
    for x in SINGLES {
        for n in [0u64, 80, 85, 90, 100] {
            assert_eq!(Single { bits: x.to_bits() }.reaches(n), x >= n as f32, "{x} {n}");
        }
    }
    assert!(!Single { bits: f32::NAN.to_bits() }.reaches(0));
}

#[test]
fn positions_order_singles_totally() {
    let mut all: Vec<f32> = SINGLES.to_vec();
    all.push(f32::NAN);
    for x in &all {
        for y in &all {
            let a = Single { bits: x.to_bits() }.position();
            let b = Single { bits: y.to_bits() }.position();
            assert_eq!(a.cmp(&b), x.total_cmp(y), "{x} {y}");
        }
    }
}

#[test]
fn quotients_round_as_the_machine_rounds() {
    let mut n = numbers();
    for _ in 0..2000 {
        let (a, b) = (n.next() >> (n.next() % 60), 1 + (n.next() >> (n.next() % 60)));
        let s = Format::Single;
        let q = s.divide(s.from_integer(a), s.from_integer(b));
        assert_eq!(q as u32, (a as f32 / b as f32).to_bits(), "{a}/{b}");
        let d = Format::Double;
        let q = d.divide(d.from_integer(a), d.from_integer(b));
        assert_eq!(q, (a as f64 / b as f64).to_bits(), "{a}/{b}");
    }
    for x in SINGLES {
        if x >= 0.0 {
            let by = Single { bits: x.to_bits() }.divided_by(100);
            assert_eq!(by.bits, (x / 100.0).to_bits(), "{x}");
        }
    }
}

#[test]
fn products_round_as_the_machine_rounds() {
    let mut n = numbers();
    for _ in 0..2000 {
        let (a, b) = (n.next() >> (n.next() % 60), n.next() % 5000);
        let d = Format::Double;
        assert_eq!(
            d.multiply(d.from_integer(a), b),
            (a as f64 * b as f64).to_bits(),
            "{a}*{b}"
        );
        let s = Format::Single;
        assert_eq!(
            s.times(s.from_integer(a), s.from_integer(b)) as u32,
            (a as f32 * b as f32).to_bits(),
            "{a}*{b}"
        );
    }
}

#[test]
fn integers_come_out_as_the_machine_casts_them() {
    let mut n = numbers();
    for _ in 0..2000 {
        let x = (n.next() % 100_000_000) as f64 / 4096.0;
        let d = Format::Double;
        assert_eq!(d.truncate(x.to_bits()), x as u64);
        let y = (n.next() % 100_000) as f32 / 64.0;
        let s = Format::Single;
        assert_eq!(s.round_off(u64::from(y.to_bits())), y.round() as u64);
    }
    assert_eq!(Format::Double.truncate(f64::INFINITY.to_bits()), u64::MAX);
    assert_eq!(Single::from_u64(u64::MAX).bits, (u64::MAX as f32).to_bits());
}

#[test]
fn texts_read_as_std_reads_them() {
    let texts = [
        "0", "-0", "+0", "1", "1.", ".5", "-.5", ".", "", "+", "-", "e5", "1e5", "1E5", "1e+5", "1e-5",
        "1e", "1e+", "1.5e3", "12.5%", " 1", "1 ", "inf", "-inf", "+Infinity", "infinity", "infinit",
        "nan", "NaN", "-nan", "1_000", "0x10", "1e400", "1e-400", "3.4028236e38", "1e39", "1e-46",
        "0.1", "0.2", "0.30000000000000004", "16777217", "9007199254740993", "123456789012345678901234567890",
        "0.000000000000000000000000000000000000000000001", "2.2250738585072014e-308", "4.9e-324", "1e0000001",
        "1e99999999999999999999", "0e99999999999999999999", "--1", "1-", "١", "１",
    ];
    for t in texts {
        let ours = read_double(&chars(t)).map(|d| d.bits);
        let theirs = t.parse::<f64>().ok().map(|x| x.to_bits());
        match t.parse::<f64>() {
            Ok(x) if x.is_nan() => assert!(f64::from_bits(ours.unwrap()).is_nan(), "{t}"),
            _ => assert_eq!(ours, theirs, "{t}"),
        }
        let ours = read_single(&chars(t)).map(|d| d.bits);
        let theirs = t.parse::<f32>().ok().map(|x| x.to_bits());
        match t.parse::<f32>() {
            Ok(x) if x.is_nan() => assert!(f32::from_bits(ours.unwrap()).is_nan(), "{t}"),
            _ => assert_eq!(ours, theirs, "{t}"),
        }
    }
    let mut n = numbers();
    for _ in 0..1500 {
        let t = format!("{}.{}e{}", n.next() % 100_000, n.next(), (n.next() % 80) as i64 - 40);
        assert_eq!(
            read_double(&chars(&t)).map(|d| d.bits),
            t.parse::<f64>().ok().map(|x| x.to_bits()),
            "{t}"
        );
        assert_eq!(
            read_single(&chars(&t)).map(|d| d.bits),
            t.parse::<f32>().ok().map(|x| x.to_bits()),
            "{t}"
        );
    }
}

#[test]
fn integers_read_as_std_reads_them() {
    for t in [
        "", "0", "7", "+7", "-7", "-0", "007", "65535", "65536", "4294967295", "4294967296",
        "18446744073709551615", "18446744073709551616", "2147483647", "2147483648", "-2147483648",
        "-2147483649", "1a", " 1", "+", "-", "++1", "+-1",
    ] {
        let c = chars(t);
        assert_eq!(read_u16(&c), t.parse::<u16>().ok(), "{t}");
        assert_eq!(read_u32(&c), t.parse::<u32>().ok(), "{t}");
        assert_eq!(read_u64(&c), t.parse::<u64>().ok(), "{t}");
        assert_eq!(read_i32(&c), t.parse::<i32>().ok(), "{t}");
    }
}

#[test]
fn naturals_are_exact() {
    let mut n = numbers();
    for _ in 0..300 {
        let (a, k, b) = (n.next(), n.next() % 1_000_000, n.next() % 1_000_000);
        let big = Natural::from_u64(a).mul_add(k, b);
        let exact = u128::from(a) * u128::from(k) + u128::from(b);
        assert_eq!(big.decimal(), exact.to_string());
        let d = 1 + n.next() % 1_000_000;
        let (q, r) = big.div_rem(d);
        assert_eq!(q.decimal(), (exact / u128::from(d)).to_string());
        assert_eq!(u128::from(r), exact % u128::from(d));
        assert_eq!(big.shl(7).decimal(), (exact << 7).to_string());
        assert_eq!(big.shr(7).decimal(), (exact >> 7).to_string());
    }
    assert!(Natural::zero().is_zero());
    assert_eq!(Natural::from_u64(u64::MAX).shl(3).saturate(), u64::MAX);
}

#[test]
fn sizes_read_as_the_formula_says() {
    for (t, k) in [
        ("B", 1.0f64),
        ("", 1.0),
        ("K", 1024.0),
        ("k", 1024.0),
        ("M", 1024.0 * 1024.0),
        ("G", 1024.0 * 1024.0 * 1024.0),
        ("T", 1024.0f64.powi(4)),
    ] {
        for x in ["0", "1", "1.5", "4.0", "12", "999.9", "0.3"] {
            let text = format!("{x}{t}");
            let expect = (x.parse::<f64>().unwrap() * k) as u64;
            assert_eq!(human_to_bytes(&text), Some(expect), "{text}");
        }
    }
    assert_eq!(human_to_bytes(""), None);
    assert_eq!(human_to_bytes("K"), None);
    assert_eq!(human_to_bytes("-1K"), Some(0));
    assert_eq!(human_to_bytes("1P"), Some(1 << 50));
    assert_eq!(human_to_bytes("1X"), None);
    assert_eq!(human_to_bytes("99999P"), Some(u64::MAX));
}

#[test]
fn sizes_print_as_the_formula_says() {
    let mut n = numbers();
    for _ in 0..1500 {
        let b = n.next() >> (n.next() % 64);
        let mut value = b as f64;
        let mut unit = 0;
        while value >= 1024.0 && unit < 5 {
            value /= 1024.0;
            unit += 1;
        }
        let name = ["B", "K", "M", "G", "T", "P"][unit];
        let expect = if unit == 0 {
            format!("{b}B")
        } else if value >= 10.0 {
            format!("{value:.0}{name}")
        } else {
            format!("{value:.1}{name}")
        };
        assert_eq!(format_bytes(b), expect, "{b}");
    }
}

#[test]
fn percentages_lose_their_sign() {
    assert_eq!(parse_pct(&chars("96%")).map(|p| p.bits), Some(96.0f32.to_bits()));
    assert_eq!(parse_pct(&chars(" 7.5% ")).map(|p| p.bits), Some(7.5f32.to_bits()));
    assert_eq!(parse_pct(&chars("-")), None);
}

#[test]
fn bars_are_proportional() {
    let show = |x: f32, w: usize| bar(Single { bits: x.to_bits() }, w);
    assert_eq!(show(0.5, 10), "█████");
    assert_eq!(show(1.0, 4), "████");
    assert_eq!(show(7.0, 4), "████");
    assert_eq!(show(-1.0, 4), "");
    assert_eq!(show(f32::NAN, 4), "");
    assert_eq!(show(0.25, 2), "▌");
    assert_eq!(show(1.0 / 16.0, 2), "▏");
    assert_eq!(show(0.96, 12), "███████████▌");
    for i in 0..200 {
        for w in [0usize, 1, 7, 12, 20] {
            let x = i as f32 / 100.0 - 0.25;
            let units = (x.clamp(0.0, 1.0) * w as f32 * 8.0).round() as usize;
            let mut expect = "█".repeat((units / 8).min(w));
            if units / 8 < w && units % 8 > 0 {
                expect.push(['▏', '▎', '▍', '▌', '▋', '▊', '▉'][units % 8 - 1]);
            }
            assert_eq!(show(x, w), expect, "{x} {w}");
        }
    }
}

#[test]
fn ascii_case_does_not_tell_words_apart() {
    assert!(eq_ignoring_case("Running", "running"));
    assert!(!eq_ignoring_case("Running", "runnin"));
    assert!(!eq_ignoring_case("é", "É"));
}
