use ckb_fixed::differential::{outcomes_agree, Error};
use ckb_fixed::{FixedError, I64F64};

fn run_twice<F: Fn() -> Result<I64F64, FixedError>>(f: F) -> bool {
    // the differential harness compares the encoded outcome of two
    // separately executed calls of the same operation
    let to_outcome = |r: Result<I64F64, FixedError>| -> Result<Vec<u8>, Error> {
        r.map(|v| v.to_le_bytes()).map_err(|_| Error::General)
    };
    let a = to_outcome(f());
    let b = to_outcome(f());
    outcomes_agree(&a, &b)
}

#[test]
fn test_basic() {
    let value = I64F64::from_num(42).unwrap();
    let value2 = I64F64::from_num(1).unwrap();
    let result = value.add(&value2);
    let rust_value = I64F64::from_num(43).unwrap();

    assert_eq!(rust_value.to_le_bytes(), result.to_le_bytes());
    let new_value = I64F64::new(&rust_value.to_le_bytes()).unwrap();
    assert_eq!(rust_value.to_le_bytes(), new_value.to_le_bytes());
}

#[test]
fn test_transcendental() {
    let a = 42;
    let b = 3;

    let value = I64F64::from_num(a).unwrap();
    let value2 = I64F64::from_num(b).unwrap();
    let result = value.pow(&value2).unwrap();
    let expected: Vec<u8> = vec![
        12, 129, 233, 255, 255, 255, 255, 255, 103, 33, 1, 0, 0, 0, 0, 0,
    ];

    assert_eq!(expected, result.to_le_bytes());
    let new_value = I64F64::new(&result.to_le_bytes()).unwrap();
    assert_eq!(result.to_le_bytes(), new_value.to_le_bytes());
}

#[test]
fn test_from_str() {
    let const_value = "123.45";
    let value = I64F64::from_str(const_value).unwrap();
    let expected: Vec<u8> = vec![51, 51, 51, 51, 51, 51, 51, 115, 123, 0, 0, 0, 0, 0, 0, 0];
    assert_eq!(expected, value.to_le_bytes());
}

#[test]
fn test_return_error() {
    let a = -42;

    let value = I64F64::from_num(a).unwrap();
    let result = value.ln();
    assert!(result.is_err());
}

#[test]
fn test_native_return_error() {
    let a = I64F64::from_num(-42).unwrap();
    let result = a.ln();
    assert!(result.is_err());
}

// test cases from fuzzing
#[test]
fn test_fuzzing() {
    let bytes = [
        2, 0x00, 0x00, 0x00, 0x00, 0x00, 0x00, 0x00, 0x00, 0x00, 0x00, 0x00, 0x00, 0x00, 0x00,
        0x00,
    ];
    let value = I64F64::new(&bytes).unwrap();
    let result = value.ln();
    assert!(result.is_err());

    let rust_value = I64F64::new(&bytes).unwrap();
    let rust_result = rust_value.ln();
    assert!(rust_result.is_err());

    assert!(run_twice(|| I64F64::new(&bytes).unwrap().ln()));
}

#[test]
fn test_fuzzing_2() {
    let bytes = [
        0x0a, 0x0a, 0x00, 0x00, 0x00, 0x00, 0x00, 0x00, 0x00, 0x00, 0x00, 0x00, 0x00, 0x00, 0x00,
        0x80,
    ];
    let value = I64F64::new(&bytes).unwrap();
    let result = value.exp();
    assert!(result.is_err());

    let rust_value = I64F64::new(&bytes).unwrap();
    let rust_result = rust_value.exp();
    assert!(rust_result.is_err());

    assert!(run_twice(|| I64F64::new(&bytes).unwrap().exp()));
}

#[test]
fn test_fuzzing_3() {
    let bytes = [
        0x0a, 0x0a, 0x00, 0x00, 0x00, 0x00, 0x00, 0x00, 0x00, 0x00, 0x00, 0x00, 0x00, 0x00, 0x00,
        0x80,
    ];
    let rust_value = I64F64::new(&bytes).unwrap();
    let rust_result = rust_value.sin();
    assert!(rust_result.is_ok());

    let value = I64F64::new(&bytes).unwrap();
    let result = value.sin();
    assert!(result.is_ok());

    assert!(run_twice(|| I64F64::new(&bytes).unwrap().sin()));
}

#[test]
fn test_fuzzing_4() {
    let bytes = [
        0x00, 0x00, 0x00, 0x00, 0x00, 0x00, 0x00, 0x00, 0x00, 0x00, 0x00, 0x00, 0x00, 0x00, 0x00,
        0x80,
    ];
    let rust_value = I64F64::new(&bytes).unwrap();
    let rust_result = rust_value.exp();
    assert!(rust_result.is_err());

    let value = I64F64::new(&bytes).unwrap();
    let result = value.exp();
    assert!(result.is_err());

    assert!(run_twice(|| I64F64::new(&bytes).unwrap().exp()));
}
