use always_on_memory::binary64::Binary64;

struct Rng(u64);

impl Rng {
    fn next(&mut self) -> u64 {
        self.0 ^= self.0 << 13;
        self.0 ^= self.0 >> 7;
        self.0 ^= self.0 << 17;
        self.0
    }
}

fn sample() -> Vec<u64> {
    let mut r = Rng(88172645463325252);
    let mut bits: Vec<u64> = vec![
        0,
        1,
        1 << 63,
        (1 << 63) + 1,
        0x7ff0000000000000,
        0xfff0000000000000,
        0x7ff8000000000000,
        0x000fffffffffffff,
        0x0010000000000000,
        0x7fefffffffffffff,
        0x3ff0000000000000,
        0x3ff0000000000001,
        0x3fefffffffffffff,
        0xbff0000000000000,
    ];
    for _ in 0..60 {
        bits.push(r.next());
    }
    for i in 0..100 {
        let x = (r.next() >> 11) as f64 / (1u64 << 53) as f64 * if i % 3 == 0 { -3.0 } else { 1.0 };
        bits.push(x.to_bits());
    }
    for _ in 0..40 {
        let shift = 12 + r.next() % 50;
        bits.push(r.next() >> shift);
    }
    bits
}

fn same(expected: f64, got: Binary64) {
    let got = f64::from_bits(got.to_bits());
    assert!(
        expected.to_bits() == got.to_bits() || (expected.is_nan() && got.is_nan()),
        "{expected} {got}"
    );
}

#[test]
fn arithmetic_is_that_of_the_hardware() {
    let all = sample();
    for &x in &all {
        for &y in &all {
            let (fx, fy) = (f64::from_bits(x), f64::from_bits(y));
            let (bx, by) = (Binary64::from_bits(x), Binary64::from_bits(y));
            same(fx + fy, bx.plus(by));
            same(fx - fy, bx.minus(by));
            same(fx * fy, bx.times(by));
            same(fx / fy, bx.over(by));
            assert_eq!(fx < fy, bx.lt(by));
            assert_eq!(fx <= fy, bx.le(by));
        }
    }
}

#[test]
fn roots_are_those_of_the_hardware() {
    for &x in &sample() {
        same(f64::from_bits(x).sqrt(), Binary64::from_bits(x).sqrt());
    }
}

#[test]
fn signs_and_counts_are_those_of_the_hardware() {
    for &x in &sample() {
        same(f64::from_bits(x).abs(), Binary64::from_bits(x).abs());
        same(-f64::from_bits(x), Binary64::from_bits(x).neg());
        same(x as usize as f64, Binary64::of(x as usize));
        same((x >> 3) as usize as f64, Binary64::of((x >> 3) as usize));
        assert_eq!(f64::from_bits(x).is_nan(), Binary64::from_bits(x).nan());
        assert_eq!(f64::from_bits(x).is_infinite(), Binary64::from_bits(x).infinite());
        assert_eq!(f64::from_bits(x) == 0.0, Binary64::from_bits(x).is_zero());
    }
    same(0.0, Binary64::zero());
    same(-0.0, Binary64::negative_zero());
    same(1.0, Binary64::one());
    same(2.0, Binary64::two());
}

#[test]
fn clamping_moves_into_the_range() {
    let (low, high) = (Binary64::zero(), Binary64::one());
    for &x in &sample() {
        let f = f64::from_bits(x);
        same(f.clamp(0.0, 1.0), Binary64::from_bits(x).clamp(low, high));
    }
}

#[test]
fn rounding_goes_to_the_nearest_even() {
    let num = |x: f64| Binary64::from_bits(x.to_bits());
    // 0.1 + 0.2 is the neighbour of 0.3.
    assert_eq!(num(0.1).plus(num(0.2)).to_bits(), 0x3fd3333333333334);
    // Half a unit in the last place goes to the even neighbour.
    let tiny = Binary64::from_bits(0x3ca0000000000000);
    assert_eq!(Binary64::one().plus(tiny).to_bits(), 0x3ff0000000000000);
    assert_eq!(Binary64::from_bits(0x3ff0000000000001).plus(tiny).to_bits(), 0x3ff0000000000002);
}
