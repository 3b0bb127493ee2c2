use unit_calc::ieee::{at_least_one, power_of_two, whole_degree, whole_power};

fn samples() -> Vec<f64> {
    let mut all: Vec<f64> = vec![
        0.0,
        -0.0,
        5e-324,
        -5e-324,
        2.2250738585072014e-308,
        0.25,
        0.49999999999999994,
        0.5,
        -0.5,
        0.75,
        0.9999999999999999,
        1.0,
        -1.0,
        1.0000000000000002,
        1.4999999999999998,
        1.5,
        2.0,
        2.4999999999999996,
        2.5,
        -2.5,
        3.0,
        3.5,
        126.5,
        127.0,
        127.49999999999999,
        127.5,
        128.0,
        -127.5,
        -128.0,
        -128.5,
        129.0,
        255.0,
        256.0,
        1000.75,
        2147483647.5,
        4294967295.0,
        4294967295.5,
        4294967296.0,
        4294967297.0,
        4294967423.0,
        -4294967295.0,
        -4294967296.0,
        -4294967297.0,
        4503599627370495.5,
        4503599627370496.0,
        4503599627370497.0,
        -4503599627370497.0,
        9007199254740992.0,
        9007199254740994.0,
        18446744073709551616.0,
        18446744082299486208.0,
        1e300,
        -1e300,
        f64::MAX,
        f64::MIN,
        f64::INFINITY,
        f64::NEG_INFINITY,
        f64::NAN,
        -f64::NAN,
    ];
    let mut state: u64 = 0x2545_f491_4f6c_dd1d;
    let mut i = 0;
    while i < 20000 {
        state ^= state << 13;
        state ^= state >> 7;
        state ^= state << 17;
        all.push(f64::from_bits(state));
        // The same fraction with exponents around one and around two to the 32nd.
        let fraction = state & 0x000f_ffff_ffff_ffff;
        let sign = state & 0x8000_0000_0000_0000;
        let exponent = 1015 + (state >> 52) % 100;
        all.push(f64::from_bits(sign | (exponent << 52) | fraction));
        i += 1;
    }
    all
}

#[test]
fn at_least_one_agrees_with_the_double() {
    for x in samples() {
        assert_eq!(at_least_one(x.to_bits()), x.abs() >= 1.0, "{}", x);
    }
}

#[test]
fn whole_power_agrees_with_the_double() {
    for x in samples() {
        assert_eq!(whole_power(x.to_bits()), x.round() as i8, "{}", x);
    }
}

#[test]
fn whole_degree_agrees_with_the_double() {
    for x in samples() {
        let expected = x.round().rem_euclid(2f64.powi(32)) as i8;
        assert_eq!(whole_degree(x.to_bits()), expected, "{}", x);
    }
}

#[test]
fn whole_power_rounds_halves_away_from_zero() {
    assert_eq!(whole_power(2.5f64.to_bits()), 3);
    assert_eq!(whole_power((-2.5f64).to_bits()), -3);
    assert_eq!(whole_power(3.0f64.to_bits()), 3);
    assert_eq!(whole_power(1e9f64.to_bits()), 127);
    assert_eq!(whole_power((-1e9f64).to_bits()), -128);
    assert_eq!(whole_power(f64::NAN.to_bits()), 0);
}

#[test]
fn whole_degree_wraps_and_saturates() {
    assert_eq!(whole_degree(2.0f64.to_bits()), 2);
    assert_eq!(whole_degree(200.0f64.to_bits()), 127);
    assert_eq!(whole_degree((-2.0f64).to_bits()), 127);
    assert_eq!(whole_degree(4294967298.0f64.to_bits()), 2);
    assert_eq!(whole_degree((-4294967294.0f64).to_bits()), 2);
    assert_eq!(whole_degree(f64::INFINITY.to_bits()), 0);
    assert_eq!(whole_degree(f64::NAN.to_bits()), 0);
}

#[test]
fn power_of_two_doubles() {
    assert_eq!(power_of_two(0), 1);
    assert_eq!(power_of_two(10), 1024);
    assert_eq!(power_of_two(63), 0x8000_0000_0000_0000);
}
