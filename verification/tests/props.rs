use ckb_fixed::{FixedError, I64F64};

fn from_bytes(b: &[u8]) -> I64F64 {
    I64F64::new(b).unwrap()
}

#[test]
fn round_trip_all_patterns() {
    let patterns: Vec<[u8; 16]> = vec![
        [0; 16],
        [0xFF; 16],
        [2, 0, 0, 0, 0, 0, 0, 0, 0, 0, 0, 0, 0, 0, 0, 0],
        [0, 0, 0, 0, 0, 0, 0, 0, 214, 255, 255, 255, 255, 255, 255, 255],
        [0x0a, 0x0a, 0, 0, 0, 0, 0, 0, 0, 0, 0, 0, 0, 0, 0, 0x80],
        [1, 2, 3, 4, 5, 6, 7, 8, 9, 10, 11, 12, 13, 14, 15, 16],
        [0, 0, 0, 0, 0, 0, 0, 0, 0, 0, 0, 0, 0, 0, 0, 0x80],
    ];
    for p in patterns {
        let v = I64F64::new(&p).unwrap();
        assert_eq!(v.to_le_bytes(), p.to_vec());
    }
}

#[test]
fn decode_wrong_length() {
    assert!(matches!(I64F64::new(&[]), Err(FixedError::InvalidEncoding)));
    assert!(matches!(
        I64F64::new(&[0; 15]),
        Err(FixedError::InvalidEncoding)
    ));
    assert!(matches!(
        I64F64::new(&[0; 17]),
        Err(FixedError::InvalidEncoding)
    ));
}

#[test]
fn log2_exact_on_powers_of_two() {
    let v = I64F64::from_num(1024).unwrap();
    let r = v.log2().unwrap();
    assert!(r.eq(&I64F64::from_num(10).unwrap()));

    let one = I64F64::from_num(1).unwrap();
    assert!(one.log2().unwrap().eq(&I64F64::from_num(0).unwrap()));

    // 2^-62, a power of two below one: its log2 is exactly -62
    let mut small = [0u8; 16];
    small[0] = 4;
    let r = from_bytes(&small).log2().unwrap();
    assert!(r.eq(&I64F64::from_num(-62).unwrap()));
}

#[test]
fn domain_rejection() {
    let m42 = I64F64::from_num(-42).unwrap();
    assert!(matches!(m42.ln(), Err(FixedError::DomainError)));
    assert!(matches!(m42.log2(), Err(FixedError::DomainError)));
    assert!(matches!(m42.sqrt(), Err(FixedError::DomainError)));

    // exp has no lower-bound domain restriction: exp(-42) is a tiny
    // positive value, ten raw units
    let r = m42.exp().unwrap();
    let mut ten_units = [0u8; 16];
    ten_units[0] = 10;
    assert_eq!(r.to_le_bytes(), ten_units.to_vec());

    let zero = I64F64::from_num(0).unwrap();
    assert!(matches!(zero.ln(), Err(FixedError::DomainError)));
    assert!(matches!(zero.pow(&m42), Err(FixedError::DomainError)));
    assert!(matches!(m42.pow(&m42), Err(FixedError::DomainError)));
    assert!(matches!(zero.powi(-3), Err(FixedError::DomainError)));
}

#[test]
fn near_zero_overflow() {
    // two raw units: the smallest positive values have no representable
    // inverse, so the logarithms overflow
    let mut tiny = [0u8; 16];
    tiny[0] = 2;
    let v = from_bytes(&tiny);
    assert!(matches!(v.ln(), Err(FixedError::Overflow)));
    assert!(matches!(v.log2(), Err(FixedError::Overflow)));

    tiny[0] = 3;
    let v3 = from_bytes(&tiny);
    assert!(v3.ln().is_ok());
}

#[test]
fn periodic_tolerance_vs_overflow_asymmetry() {
    let bytes = [
        0x0a, 0x0a, 0, 0, 0, 0, 0, 0, 0, 0, 0, 0, 0, 0, 0, 0x80,
    ];
    let v = from_bytes(&bytes);
    assert!(matches!(v.exp(), Err(FixedError::Overflow)));
    assert!(v.sin().is_ok());
    assert!(v.cos().is_ok());
}

#[test]
fn rounding_idempotence() {
    let values = vec![
        I64F64::from_str("2.5").unwrap(),
        I64F64::from_str("-2.5").unwrap(),
        I64F64::from_str("0.4999").unwrap(),
        I64F64::from_str("-123.456").unwrap(),
        I64F64::from_num(7).unwrap(),
        I64F64::from_num(-7).unwrap(),
    ];
    for v in values {
        let f = v.floor();
        assert!(f.floor().eq(&f));
        let c = v.ceil();
        assert!(c.ceil().eq(&c));
        let r = v.round();
        assert!(r.round().eq(&r));
    }
}

#[test]
fn rounding_directions() {
    let v = I64F64::from_str("2.5").unwrap();
    assert!(v.floor().eq(&I64F64::from_num(2).unwrap()));
    assert!(v.ceil().eq(&I64F64::from_num(3).unwrap()));
    assert!(v.round().eq(&I64F64::from_num(3).unwrap()));

    let w = I64F64::from_str("-2.5").unwrap();
    assert!(w.floor().eq(&I64F64::from_num(-3).unwrap()));
    assert!(w.ceil().eq(&I64F64::from_num(-2).unwrap()));
    // ties round away from zero
    assert!(w.round().eq(&I64F64::from_num(-3).unwrap()));
}

#[test]
fn powi_identities() {
    let one = I64F64::from_num(1).unwrap();
    for a in [7i64, -3, 1, 1000000] {
        let v = I64F64::from_num(a).unwrap();
        assert!(v.powi(0).unwrap().eq(&one));
    }

    let two = I64F64::from_num(2).unwrap();
    assert!(two
        .powi(10)
        .unwrap()
        .eq(&I64F64::from_num(1024).unwrap()));
    assert!(two
        .powi(-2)
        .unwrap()
        .eq(&I64F64::from_str("0.25").unwrap()));

    // a negative exponent equals the positive exponent on the inverse
    let four = I64F64::from_num(4).unwrap();
    let lhs = four.powi(-3).unwrap();
    let rhs = one.div(&four).powi(3).unwrap();
    assert!(lhs.eq(&rhs));
}

#[test]
fn powi_zero_base() {
    let zero = I64F64::from_num(0).unwrap();
    assert!(zero
        .powi(5)
        .unwrap()
        .eq(&I64F64::from_num(0).unwrap()));
    assert!(zero
        .powi(0)
        .unwrap()
        .eq(&I64F64::from_num(1).unwrap()));
}

#[test]
fn elementary_exactness() {
    let six = I64F64::from_num(6).unwrap();
    let seven = I64F64::from_num(7).unwrap();
    assert!(six.mul(&seven).eq(&I64F64::from_num(42).unwrap()));

    let one = I64F64::from_num(1).unwrap();
    let two = I64F64::from_num(2).unwrap();
    assert!(one.div(&two).eq(&I64F64::from_str("0.5").unwrap()));

    // division rounds towards zero
    let mone = I64F64::from_num(-1).unwrap();
    assert!(mone.div(&two).eq(&I64F64::from_str("-0.5").unwrap()));

    assert!(six.sub(&seven).eq(&mone));
    assert!(six.lt(&seven));
    assert!(seven.gt(&six));
    assert!(six.le(&six));
    assert!(seven.ge(&six));
    assert!(!six.eq(&seven));
}

#[test]
fn sqrt_exactness() {
    let four = I64F64::from_num(4).unwrap();
    assert!(four.sqrt().unwrap().eq(&I64F64::from_num(2).unwrap()));

    // sqrt(2): the exact floor of the scaled square root
    let two = I64F64::from_num(2).unwrap();
    let expected: Vec<u8> = vec![8, 201, 188, 243, 103, 230, 9, 106, 1, 0, 0, 0, 0, 0, 0, 0];
    assert_eq!(two.sqrt().unwrap().to_le_bytes(), expected);

    let zero = I64F64::from_num(0).unwrap();
    assert!(zero.sqrt().unwrap().eq(&zero));
}

#[test]
fn exp_ln_values() {
    let zero = I64F64::from_num(0).unwrap();
    let one = I64F64::from_num(1).unwrap();
    assert!(zero.exp().unwrap().eq(&one));

    // exp(1) lands exactly on the e constant of the engine
    let e_bytes: Vec<u8> = vec![106, 42, 237, 138, 98, 81, 225, 183, 2, 0, 0, 0, 0, 0, 0, 0];
    assert_eq!(one.exp().unwrap().to_le_bytes(), e_bytes);

    // ln(2) lands exactly on the ln-2 constant of the engine
    let two = I64F64::from_num(2).unwrap();
    let ln2_bytes: Vec<u8> = vec![171, 121, 207, 209, 247, 23, 114, 177, 0, 0, 0, 0, 0, 0, 0, 0];
    assert_eq!(two.ln().unwrap().to_le_bytes(), ln2_bytes);

    assert!(one.ln().unwrap().eq(&zero));

    // exp overflows past the 64 integer bits
    assert!(matches!(
        I64F64::from_num(44).unwrap().exp(),
        Err(FixedError::Overflow)
    ));
    assert!(I64F64::from_num(42).unwrap().exp().is_ok());
}

#[test]
fn trig_values() {
    let zero = I64F64::from_num(0).unwrap();
    let one = I64F64::from_num(1).unwrap();
    assert!(zero.sin().unwrap().eq(&zero));
    assert!(zero.cos().unwrap().eq(&one));
    assert!(zero.tan().unwrap().eq(&zero));

    let sin1: Vec<u8> = vec![34, 112, 103, 72, 120, 164, 106, 215, 0, 0, 0, 0, 0, 0, 0, 0];
    let cos1: Vec<u8> = vec![146, 92, 52, 168, 125, 64, 81, 138, 0, 0, 0, 0, 0, 0, 0, 0];
    let tan1: Vec<u8> = vec![140, 91, 58, 238, 203, 69, 178, 142, 1, 0, 0, 0, 0, 0, 0, 0];
    assert_eq!(one.sin().unwrap().to_le_bytes(), sin1);
    assert_eq!(one.cos().unwrap().to_le_bytes(), cos1);
    assert_eq!(one.tan().unwrap().to_le_bytes(), tan1);

    // sine is odd
    let mone = I64F64::from_num(-1).unwrap();
    let zero_minus_sin1 = zero.sub(&one.sin().unwrap());
    assert!(mone.sin().unwrap().eq(&zero_minus_sin1));
    // cosine is even
    assert!(mone.cos().unwrap().eq(&one.cos().unwrap()));

    // huge arguments still reduce
    assert!(I64F64::from_num(1000000).unwrap().sin().is_ok());
    assert!(I64F64::from_num(-1000000).unwrap().cos().is_ok());
}

#[test]
fn pow_errors() {
    let two = I64F64::from_num(2).unwrap();
    // a tiny base overflows inside ln
    let mut tiny = [0u8; 16];
    tiny[0] = 2;
    assert!(matches!(
        from_bytes(&tiny).pow(&two),
        Err(FixedError::Overflow)
    ));
    // a huge scaled logarithm overflows inside exp
    let big = I64F64::from_num(1000000).unwrap();
    assert!(matches!(big.pow(&big), Err(FixedError::Overflow)));
}

#[test]
fn from_str_accepts() {
    assert!(I64F64::from_str("42")
        .unwrap()
        .eq(&I64F64::from_num(42).unwrap()));
    assert!(I64F64::from_str("-42")
        .unwrap()
        .eq(&I64F64::from_num(-42).unwrap()));
    assert!(I64F64::from_str("+42")
        .unwrap()
        .eq(&I64F64::from_num(42).unwrap()));
    assert!(I64F64::from_str("5.")
        .unwrap()
        .eq(&I64F64::from_num(5).unwrap()));
    assert!(I64F64::from_str(".5")
        .unwrap()
        .eq(&I64F64::from_str("0.5").unwrap()));
    assert!(I64F64::from_str("-0.25")
        .unwrap()
        .eq(&I64F64::from_num(-1).unwrap().div(&I64F64::from_num(4).unwrap())));
}

#[test]
fn from_str_rejects() {
    for s in [
        "", "+", "-", ".", "+.", "abc", "1e5", "1.2.3", "1_000", " 1", "1 ", "0x10", "--1", "1-",
        "NaN",
    ] {
        assert!(
            matches!(I64F64::from_str(s), Err(FixedError::InvalidNumber)),
            "accepted: {}",
            s
        );
    }
    // out of range: the integer part needs more than 63 bits
    assert!(matches!(
        I64F64::from_str("9223372036854775808"),
        Err(FixedError::InvalidNumber)
    ));
    assert!(I64F64::from_str("9223372036854775807").is_ok());
}

#[test]
fn to_string_prints_decimal() {
    assert_eq!(I64F64::from_num(42).unwrap().to_string(), "42");
    assert_eq!(I64F64::from_str("1.5").unwrap().to_string(), "1.5");
    assert_eq!(I64F64::from_num(-7).unwrap().to_json(), "-7");
}
