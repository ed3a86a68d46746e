use garuda::double::{Double, LEAST, TOP};
use garuda::scheduler::{Pacing, PREFILL_TOKENS_INITIAL, PREFILL_TOKENS_MAX, PREFILL_TOKENS_MIN};
use std::time::Duration;

/// What the library makes of a number that `f64` holds.
fn double(x: f64) -> Double {
    let bits = x.to_bits();
    let (exponent, fraction) = ((bits >> 52) as i64, bits & (TOP / 2 - 1));
    if x == 0.0 {
        Double::of(0)
    } else if exponent == 0 {
        Double::new(fraction, LEAST)
    } else {
        Double::new(fraction + TOP / 2, exponent - 1075)
    }
}

struct Lcg(u64);

impl Lcg {
    fn next(&mut self) -> u64 {
        self.0 = self.0.wrapping_mul(6364136223846793005).wrapping_add(1442695040888963407);
        self.0 >> 20
    }
}

fn same(d: Double, x: f64) {
    if x == 0.0 {
        assert!(d.is_zero());
    } else {
        assert_eq!(d, double(x), "{x:e}");
    }
}

#[test]
fn averages_are_those_of_f64() {
    let mut r = Lcg(7);
    let (old, new) = (double(0.7), double(0.3));
    for start in [0.0, 1.0, 3.0, 0.1, 1e-300, 9007199254740993.0, 1.5e19] {
        let (mut d, mut x) = (double(start), start);
        for i in 0..4000 {
            let won = match i / 500 % 4 {
                0 => 1,
                1 => 0,
                2 => r.next() % 9,
                _ => r.next() << (r.next() % 20),
            };
            d = d.blend(old, Double::of(won), new);
            x = x * 0.7 + won as f64 * 0.3;
            same(d, x);
            for limit in [0, 1, 4, 1000] {
                let want = (x.ceil() as usize).saturating_add(1).min(limit);
                assert_eq!(d.ceiling_and_one(limit), want, "{x:e} up to {limit}");
            }
            assert_eq!(d.is_below(double(0.35)), x < 0.35);
        }
    }
}

/// An average that falls towards one stays above it for as long as it does in `f64`.
#[test]
fn an_average_is_not_cut_short() {
    let mut d = Double::of(3);
    for _ in 0..65 {
        d = d.blend(double(0.7), Double::of(1), double(0.3));
    }
    assert_eq!(d.ceiling_and_one(8), 3);
    // One that falls towards zero never reaches it.
    let mut d = Double::of(1);
    for _ in 0..5000 {
        d = d.blend(double(0.7), Double::of(0), double(0.3));
    }
    assert!(!d.is_zero());
    assert_eq!(d.ceiling_and_one(8), 2);
}

#[test]
fn sums_and_quotients_are_those_of_f64() {
    let mut r = Lcg(11);
    for _ in 0..20_000 {
        let (a, b) = (r.next() >> (r.next() % 44), (r.next() >> (r.next() % 44)) + 1);
        let (x, y) = (a as f64 / b as f64, b as f64 / 1e9);
        let (d, e) = (Double::of(a).over(Double::of(b)), Double::of(b).over(Double::of(1_000_000_000)));
        same(d, x);
        same(e, y);
        same(d.plus(e), x + y);
        same(d.over(e), x / y);
        assert_eq!(d.is_below(e), x < y);
        if x >= y {
            let want = ((x / y) as usize).clamp(1, 512);
            assert_eq!(d.whole_ratio(e, 1, 512), want, "{x:e} over {y:e}");
        }
    }
}

/// The estimates in seconds, and the chunk they come to.
#[test]
fn pacing_is_that_of_f64() {
    let mut r = Lcg(5);
    for _ in 0..200 {
        let (mut p, mut step, mut token) = (Pacing::default(), None::<f64>, None::<f64>);
        let blend = |prev: Option<f64>, s: f64| match prev {
            Some(x) => x * (1.0 - 0.25) + s * 0.25,
            None => s,
        };
        for _ in 0..60 {
            let nanos = r.next() >> (r.next() % 44);
            let time = Duration::from_nanos(nanos).as_secs_f64();
            if r.next() % 2 == 0 {
                p.observe_decode(nanos);
                step = Some(blend(step, time));
            } else {
                let tokens = (r.next() % 700) as usize;
                p.observe_prefill(nanos, tokens);
                if tokens > 0 {
                    token = Some(blend(token, time / tokens as f64));
                }
            }
            let want = match (step, token) {
                (Some(s), Some(t)) if t > 0.0 => {
                    ((s / t) as usize).clamp(PREFILL_TOKENS_MIN, PREFILL_TOKENS_MAX)
                }
                _ => PREFILL_TOKENS_INITIAL,
            };
            assert_eq!(p.chunk(), want);
        }
    }
}
