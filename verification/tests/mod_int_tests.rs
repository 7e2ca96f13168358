use algebra::mod_int::ModInt;

const PRIME_MOD: i64 = 1_000_000_007;
const INF: i64 = 1 << 60;

#[test]
fn zero_test() {
    let a = ModInt::new(1_000_000_000i64, PRIME_MOD);
    let b = ModInt::new(7i64, PRIME_MOD);
    let c = a.add(b);
    assert_eq!(c.value(), 0);
}

#[test]
fn pow_test() {
    let a = ModInt::new(3i64, PRIME_MOD);
    let a = a.pow(4i64);
    assert_eq!(a.value(), 81);
}

#[test]
fn div_test() {
    for i in 1..100000i64 {
        let mut a = ModInt::new(1i64, PRIME_MOD);
        a.div_assign(i);
        a.mul_assign(i);
        assert_eq!(a.value(), 1);
    }
}

#[test]
fn edge_cases() {
    const MOD: i128 = 1_000_000_007;

    let a = ModInt::new(1_000_000_000i64, PRIME_MOD).mul(INF);
    assert_eq!(
        a.value(),
        ((1_000_000_000i128 * i128::from(INF)) % MOD) as i64
    );

    let mut a = ModInt::new(1_000_000_000i64, PRIME_MOD);
    a.mul_assign(INF);
    assert_eq!(
        a.value(),
        ((1_000_000_000i128 * i128::from(INF)) % MOD) as i64
    );

    let a = ModInt::new(1_000_000_000i64, PRIME_MOD).add(INF);
    assert_eq!(
        a.value(),
        ((1_000_000_000i128 + i128::from(INF)) % MOD) as i64
    );

    let mut a = ModInt::new(1_000_000_000i64, PRIME_MOD);
    a.add_assign(INF);
    assert_eq!(
        a.value(),
        ((1_000_000_000i128 + i128::from(INF)) % MOD) as i64
    );

    let a = ModInt::new(1_000_000_000i64, PRIME_MOD).sub(INF);
    assert_eq!(
        a.value(),
        ((1_000_000_000i128 + MOD - (INF as i128) % MOD) % MOD) as i64
    );

    let mut a = ModInt::new(1_000_000_000i64, PRIME_MOD);
    a.sub_assign(INF);
    assert_eq!(
        a.value(),
        ((1_000_000_000i128 + MOD - (INF as i128) % MOD) % MOD) as i64
    );

    let a = ModInt::new(1_000_000_000i64, PRIME_MOD).div(INF);
    assert_eq!(a.value(), 961239577);

    let mut a = ModInt::new(1_000_000_000i64, PRIME_MOD);
    a.div_assign(INF);
    assert_eq!(a.value(), 961239577);
}

#[test]
fn overflow_guard() {
    let a = ModInt::new(1_000_000_007i64 * 10, PRIME_MOD);
    assert_eq!(a.value(), 0);
}

#[test]
fn initialize_from_various_primitives() {
    let a = ModInt::new(100usize, PRIME_MOD);
    let b = ModInt::new(100i64, PRIME_MOD);
    assert_eq!(a.value(), b.value());
    // A value near the top of its own type reduces through the widening
    // intermediate.
    let big = ModInt::new(usize::MAX, PRIME_MOD);
    assert_eq!(
        big.value() as u128,
        (usize::MAX as u128) % (PRIME_MOD as u128)
    );
}

#[test]
fn negative_values_reduce_into_range() {
    let a = ModInt::new(-1i64, PRIME_MOD);
    assert_eq!(a.value(), PRIME_MOD - 1);
    let b = ModInt::new(i64::MIN, PRIME_MOD);
    assert!(b.value() >= 0 && b.value() < PRIME_MOD);
    assert_eq!(
        (b.value() as i128 - i64::MIN as i128) % PRIME_MOD as i128,
        0
    );
}

#[test]
fn ring_laws_concrete() {
    // Reducing before or after combining gives the same residues.
    let m = 97i64;
    for (a, b) in [(1234i64, 5678i64), (96, 96), (0, 41), (193, 388)] {
        let left = ModInt::new(a + b, m);
        let right = ModInt::new(a, m).add(ModInt::new(b, m));
        assert_eq!(left.value(), right.value());

        let left = ModInt::new(a - b, m);
        let right = ModInt::new(a, m).sub(ModInt::new(b, m));
        assert_eq!(left.value(), right.value());

        let left = ModInt::new(a * b, m);
        let right = ModInt::new(a, m).mul(ModInt::new(b, m));
        assert_eq!(left.value(), right.value());
    }
}

#[test]
fn division_recovers_dividend() {
    // Dividing and multiplying back by the same nonzero divisor returns
    // the dividend, for the Fermat-inverse division as well.
    let m = 1_000_000_007i64;
    for (a, b) in [(123i64, 456i64), (0, 3), (1_000_000_006, 2), (77, 1_000_000_006)] {
        let dividend = ModInt::new(a, m);
        let back = dividend.div(b).mul(b);
        assert_eq!(back.value(), dividend.value());
    }
}

#[test]
fn pow_matches_repeated_multiplication() {
    let m = 1_000_000_007i64;
    for a in [2i64, 3, 10, 999_999_999] {
        for e in 0..12i64 {
            let fast = ModInt::new(a, m).pow(e);
            let mut slow = ModInt::new(1i64, m);
            for _ in 0..e {
                slow = slow.mul(a);
            }
            assert_eq!(fast.value(), slow.value());
        }
    }
}
