use tracing_texray::chart::width;
use tracing_texray::double::{Double, Float};
use tracing_texray::format::{format_bytes, format_signed_kb, format_streaming_duration};
use tracing_texray::time::{pretty_duration, Duration};

/// A small linear congruential generator: the same numbers on every run.
fn numbers(seed: u64, n: usize) -> Vec<u64> {
    let mut state = seed;
    let mut out = vec![];
    for _ in 0..n {
        state = state.wrapping_mul(6364136223846793005).wrapping_add(1442695040888963407);
        let shift = (state >> 58) as u32;
        state = state.wrapping_mul(6364136223846793005).wrapping_add(1442695040888963407);
        out.push(state >> shift);
    }
    out
}

fn value(d: Double) -> f64 {
    d.mant as f64 * 2f64.powi(d.exp)
}

fn bytes_in_floats(kb: u64) -> String {
    let kb_f = kb as f64;
    if kb < 1024 {
        format!("{kb_f:.2} KiB")
    } else if kb < 1024 * 1024 {
        format!("{:.2} MiB", kb_f / 1024.0)
    } else {
        format!("{:.2} GiB", kb_f / (1024.0 * 1024.0))
    }
}

fn streaming_in_floats(nanos: u128) -> String {
    if nanos < 1_000 {
        format!("{nanos}ns")
    } else if nanos < 1_000_000 {
        format!("{:.2}μs", nanos as f64 / 1_000.0)
    } else if nanos < 1_000_000_000 {
        format!("{:.2}ms", nanos as f64 / 1_000_000.0)
    } else if nanos < 60_000_000_000 {
        format!("{:.2}s", nanos as f64 / 1_000_000_000.0)
    } else if nanos < 3_600_000_000_000 {
        let secs = nanos as f64 / 1_000_000_000.0;
        format!("{:.2}m", secs / 60.0)
    } else {
        let secs = nanos as f64 / 1_000_000_000.0;
        format!("{:.2}h", secs / 3_600.0)
    }
}

fn width_in_floats(chars: usize, outer: u128, inner: u128) -> usize {
    if inner == 0 || outer == 0 {
        return 0;
    }
    let secs = |n: u128| {
        std::time::Duration::new((n / 1_000_000_000) as u64, (n % 1_000_000_000) as u32)
            .as_secs_f64()
    };
    let ratio = secs(inner) / secs(outer);
    (ratio * chars as f64).round() as usize
}

#[test]
fn integers_round_as_floats_do() {
    for n in numbers(1, 3000) {
        assert_eq!(value(Double::from_u128(n as u128)), n as f64, "{n}");
        let big = (n as u128) << 61 | 0x1_2345;
        assert_eq!(value(Double::from_u128(big)), big as f64, "{big}");
    }
    // Halfway between two doubles: to the even mantissa, down and up.
    assert_eq!(Double::from_u128((1 << 53) + 1), Double { mant: 1 << 52, exp: 1 });
    assert_eq!(Double::from_u128((1 << 53) + 3), Double { mant: (1 << 52) + 2, exp: 1 });
    // A mantissa that rounds up to the next power of two.
    assert_eq!(Double::from_u128((1 << 54) - 1), Double { mant: 1 << 52, exp: 2 });
}

#[test]
fn quotients_and_products_round_as_floats_do() {
    let ns = numbers(2, 2000);
    for pair in ns.chunks(2) {
        let (a, b) = (pair[0].max(1), pair[1].max(1));
        let (x, y) = (Double::from_u128(a as u128), Double::from_u128(b as u128));
        assert_eq!(value(x.div(y)), a as f64 / b as f64, "{a} / {b}");
        assert_eq!(value(x.mul(y)), a as f64 * b as f64, "{a} * {b}");
    }
    assert_eq!(Double::from_u128(1).div(Double::from_u128(3)).mant, 0x15_5555_5555_5555);
}

#[test]
fn seconds_round_as_floats_do() {
    for n in numbers(3, 3000) {
        let d = std::time::Duration::from_nanos(n);
        let ours = Duration { nanos: n as u128 }.as_secs();
        assert_eq!(value(ours), d.as_secs_f64(), "{n}");
    }
    for secs in numbers(4, 2000) {
        for nanos in [0u32, 1, 499_999_999, 500_000_000, 999_999_999] {
            let d = std::time::Duration::new(secs, nanos);
            let ours = Duration { nanos: d.as_nanos() }.as_secs();
            assert_eq!(value(ours), d.as_secs_f64(), "{secs}s {nanos}ns");
        }
    }
}

#[test]
fn sizes_format_as_floats_do() {
    for kb in 0..20_000u64 {
        assert_eq!(format_bytes(kb), bytes_in_floats(kb));
    }
    for kb in numbers(5, 3000) {
        assert_eq!(format_bytes(kb), bytes_in_floats(kb));
    }
    assert_eq!(format_bytes(u64::MAX), bytes_in_floats(u64::MAX));
    // A tie in the second decimal goes to the even digit.
    assert_eq!(format_bytes(1152), "1.12 MiB");
    assert_eq!(format_bytes(1408), "1.38 MiB");
}

#[test]
fn durations_format_as_floats_do() {
    for nanos in 0..30_000u128 {
        let d = Duration { nanos };
        assert_eq!(format_streaming_duration(d), streaming_in_floats(nanos));
    }
    for n in numbers(6, 3000) {
        let nanos = n as u128;
        assert_eq!(
            format_streaming_duration(Duration { nanos }),
            streaming_in_floats(nanos)
        );
    }
    // 1.015 is not a double: the nearest one is below it.
    assert_eq!(format_streaming_duration(Duration { nanos: 1_015 }), "1.01μs");
    let longest = std::time::Duration::MAX.as_nanos();
    assert_eq!(
        format_streaming_duration(Duration { nanos: longest }),
        streaming_in_floats(longest)
    );
}

#[test]
fn widths_round_as_floats_do() {
    let ns = numbers(7, 3000);
    for t in ns.chunks(3) {
        let (outer, inner) = (t[0] as u128, t[1] as u128);
        for chars in [1usize, 20, 104, 120, 4097, t[2] as usize] {
            assert_eq!(
                width(chars, Duration { nanos: outer }, Duration { nanos: inner }),
                width_in_floats(chars, outer, inner),
                "{chars} columns, {inner} of {outer}"
            );
        }
    }
}

#[test]
fn width_of_nothing_is_zero() {
    let (d, zero) = (Duration { nanos: 5 }, Duration { nanos: 0 });
    assert_eq!(width(80, d, zero), 0);
    assert_eq!(width(80, zero, d), 0);
    assert_eq!(width(0, d, d), 0);
}

#[test]
fn full_length_fills_the_chart() {
    for n in numbers(8, 300) {
        let d = Duration { nanos: n as u128 + 1 };
        assert_eq!(width(104, d, d), 104);
    }
}

#[test]
fn longer_spans_are_not_narrower() {
    let outer = Duration { nanos: 1_000_003 };
    let mut last = 0;
    for nanos in (0..1_000_003u128).step_by(997) {
        let w = width(97, outer, Duration { nanos });
        assert!(last <= w && w <= 97);
        last = w;
    }
}

#[test]
fn huge_widths_are_cut_off() {
    let (second, nano) = (Duration { nanos: u64::MAX as u128 }, Duration { nanos: 1 });
    assert_eq!(width(usize::MAX, nano, second), usize::MAX);
}

#[test]
fn signed_sizes_wrap_in_64_bits() {
    assert_eq!(format_signed_kb(0, u64::MAX), "-1.00 KiB");
    assert_eq!(format_signed_kb(u64::MAX, 0), "+1.00 KiB");
    assert_eq!(
        format_signed_kb(0, 1 << 63),
        format!("-{}", bytes_in_floats(1 << 63))
    );
    assert_eq!(format_signed_kb(7, 3), "-4.00 KiB");
}

#[test]
fn floats_format_as_std_does() {
    let mut cases = vec![
        0.0,
        -0.0,
        1.5,
        -2.25,
        0.0000005,
        0.0000015,
        1e-300,
        f64::MIN_POSITIVE,
        5e-324,
        1e21,
        1.7976931348623157e308,
    ];
    for bits in numbers(9, 2000) {
        cases.push(f64::from_bits(bits));
        cases.push(bits as f64 / 1e9);
    }
    for x in cases.into_iter().filter(|x| x.is_finite()) {
        let Float::Finite { negative, magnitude } = Float::from_bits(x.to_bits()) else {
            panic!("{x} is finite");
        };
        let mut text = if negative { "-".to_string() } else { String::new() };
        magnitude.push_fixed(&mut text, 6);
        assert_eq!(text, format!("{x:.6}"), "{:#x}", x.to_bits());
    }
    let bits = |x: f64| Float::from_bits(x.to_bits());
    assert_eq!(bits(f64::NAN), Float::NotANumber);
    assert_eq!(bits(f64::INFINITY), Float::Infinite { negative: false });
    assert_eq!(bits(f64::NEG_INFINITY), Float::Infinite { negative: true });
}

#[test]
fn pretty_durations_cut_off() {
    let pretty = |nanos| pretty_duration(Duration { nanos });
    assert_eq!(pretty(0), "0ns");
    assert_eq!(pretty(999), "999ns");
    assert_eq!(pretty(1_999), "1μs");
    assert_eq!(pretty(509_000), "509μs");
    assert_eq!(pretty(52_999_999), "52ms");
    assert_eq!(pretty(10_000_000_000), "10s ");
    assert_eq!(pretty(59_999_999_999), "59s ");
    assert_eq!(pretty(60_000_000_000), "1m ");
    assert_eq!(pretty(7_200_000_000_000), "120m ");
}
