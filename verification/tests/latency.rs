use cf_do_locator::latency::{below, clears_margin, is_number, Latency};

fn verdict(prev: f64, new: f64) -> bool {
    clears_margin(Latency { bits: prev.to_bits() }, Latency { bits: new.to_bits() })
}

fn expected(prev: f64, new: f64) -> bool {
    let margin = 15.0f64.max(prev * 0.20);
    prev - new >= margin
}

fn agree(prev: f64, new: f64) {
    assert_eq!(verdict(prev, new), expected(prev, new), "{prev:e} {new:e}");
}

struct Numbers(u64);

impl Numbers {
    fn next(&mut self) -> u64 {
        self.0 ^= self.0 << 13;
        self.0 ^= self.0 >> 7;
        self.0 ^= self.0 << 17;
        self.0
    }
}

fn neighbours(x: f64) -> Vec<f64> {
    let mut v = Vec::new();
    for d in 0..6u64 {
        v.push(f64::from_bits(x.to_bits().wrapping_add(d)));
        v.push(f64::from_bits(x.to_bits().wrapping_sub(d)));
    }
    v
}

#[test]
fn margins_in_milliseconds() {
    // Up to 75 ms the margin is 15 ms, beyond it is 20 %.
    assert!(verdict(40.0, 25.0));
    assert!(!verdict(40.0, 25.5));
    assert!(verdict(75.0, 60.0));
    assert!(!verdict(75.0, 60.25));
    assert!(verdict(100.0, 80.0));
    assert!(!verdict(100.0, 80.5));
    assert!(!verdict(100.0, 85.0));
    assert!(verdict(250.0, 200.0));
    assert!(!verdict(250.0, 200.0001));
    assert!(!verdict(10.0, 0.0));
    assert!(verdict(10.0, -5.0));
    assert!(verdict(-10.0, -25.0));
    assert!(!verdict(-10.0, -24.9));
    assert!(!verdict(38.0, 40.0));
    assert!(!verdict(-1.0, 1.0));
    assert!(!verdict(0.0, 0.0));
}

#[test]
fn whole_milliseconds() {
    for a in -50i64..400 {
        for b in -50i64..400 {
            let want = a - b >= 15 && 5 * (a - b) >= a;
            assert_eq!(verdict(a as f64, b as f64), want);
            assert_eq!(expected(a as f64, b as f64), want);
        }
    }
}

#[test]
fn special_values() {
    let values = [
        0.0,
        -0.0,
        f64::INFINITY,
        f64::NEG_INFINITY,
        f64::NAN,
        -f64::NAN,
        f64::from_bits(0x7ff0_0000_0000_0001),
        f64::MAX,
        f64::MIN,
        f64::MIN_POSITIVE,
        -f64::MIN_POSITIVE,
        f64::from_bits(1),
        -f64::from_bits(1),
        f64::from_bits(0x000f_ffff_ffff_ffff),
        1.0,
        -1.0,
        15.0,
        75.0,
        1e300,
        -1e300,
        9007199254740992.0,
        2f64.powi(1023),
        2f64.powi(-60),
    ];
    for p in values {
        for n in values {
            agree(p, n);
        }
    }
}

#[test]
fn near_the_margin() {
    let mut numbers = Numbers(0x1234_5678_9abc_def1);
    for _ in 0..20000 {
        let p = (numbers.next() % 600_000) as f64 / 1000.0;
        let margin = 15.0f64.max(p * 0.20);
        for n in neighbours(p - margin) {
            agree(p, n);
        }
        for n in neighbours(p * 0.8) {
            agree(p, n);
        }
    }
    for p in neighbours(15.0) {
        for n in [2f64.powi(-52), 2f64.powi(-51), 2f64.powi(-50), 1e-300, -1e-300, 0.0] {
            agree(p, n);
        }
    }
}

#[test]
fn any_bit_patterns() {
    let mut numbers = Numbers(0x0bad_cafe_dead_beef);
    for _ in 0..200_000 {
        let p = f64::from_bits(numbers.next());
        agree(p, f64::from_bits(numbers.next()));
        // exponents close together
        let n = f64::from_bits((p.to_bits() & 0xfff0_0000_0000_0000) ^ (numbers.next() >> 10));
        agree(p, n);
        agree(n, p);
        agree(p, -n);
    }
}

#[test]
fn accepted_changes_stay() {
    for (p, n, m) in [(100.0, 20.0, 3.0), (40.0, 25.0, 24.0), (15.0, 0.0, -7.5)] {
        assert!(verdict(p, n));
        assert!(!verdict(n, p));
        assert!(verdict(p, m));
        assert!(n < p);
    }
}

#[test]
fn rounding_decides_at_the_edge() {
    // Below 15 the numbers are 2^-49 apart; what lies half way is rounded to 15.
    assert!(verdict(15.0, 2f64.powi(-52)));
    assert!(verdict(15.0, 2f64.powi(-50)));
    assert!(!verdict(15.0, 1.5 * 2f64.powi(-50)));
    assert!(!verdict(15.0, 2f64.powi(-49)));
}

#[test]
fn order_of_latencies() {
    let less = |a: f64, b: f64| below(Latency { bits: a.to_bits() }, Latency { bits: b.to_bits() });
    assert!(less(38.0, 40.0));
    assert!(!less(40.0, 38.0));
    assert!(!less(40.0, 40.0));
    let edges = [
        0.0,
        -0.0,
        f64::from_bits(1),
        -f64::from_bits(1),
        f64::MIN_POSITIVE,
        -f64::MIN_POSITIVE,
        1.0,
        -1.0,
        f64::MAX,
        f64::MIN,
        f64::INFINITY,
        f64::NEG_INFINITY,
        f64::NAN,
        -f64::NAN,
    ];
    for a in edges {
        assert_eq!(is_number(Latency { bits: a.to_bits() }), !a.is_nan());
        for b in edges {
            assert_eq!(less(a, b), a < b, "{a:e} {b:e}");
        }
    }
    let mut numbers = Numbers(0x0dd_ba11_5eed_0001);
    for _ in 0..100_000 {
        let a = f64::from_bits(numbers.next());
        let b = f64::from_bits(numbers.next());
        assert_eq!(less(a, b), a < b, "{a:e} {b:e}");
        for n in neighbours(a) {
            assert_eq!(less(a, n), a < n, "{a:e} {n:e}");
        }
    }
}
