use ckb_fixed::differential::{outcomes_agree, Error, RecycleCounter};
use ckb_fixed::I64F64;

#[test]
fn recycle_counter_policy() {
    let mut c = RecycleCounter::new(3);
    assert_eq!(c.get_count(), 0);
    assert!(!c.should_recycle());
    c.tick_count();
    c.tick_count();
    c.tick_count();
    assert_eq!(c.get_count(), 3);
    assert!(!c.should_recycle());
    c.tick_count();
    assert!(c.should_recycle());
    c.reset_count();
    assert_eq!(c.get_count(), 0);
    assert!(!c.should_recycle());
}

#[test]
fn outcome_agreement_rules() {
    let a: Result<Vec<u8>, Error> = Ok(vec![1, 2, 3]);
    let b: Result<Vec<u8>, Error> = Ok(vec![1, 2, 3]);
    let c: Result<Vec<u8>, Error> = Ok(vec![1, 2, 4]);
    let d: Result<Vec<u8>, Error> = Ok(vec![1, 2]);
    let e: Result<Vec<u8>, Error> = Err(Error::Ln);
    let f: Result<Vec<u8>, Error> = Err(Error::General);

    assert!(outcomes_agree(&a, &b));
    assert!(!outcomes_agree(&a, &c));
    assert!(!outcomes_agree(&a, &d));
    assert!(!outcomes_agree(&a, &e));
    assert!(!outcomes_agree(&e, &a));
    assert!(outcomes_agree(&e, &f));
}

#[test]
fn cross_target_equivalence_over_fuzz_inputs() {
    // the harness's property, run over a spread of 16-byte inputs: the
    // same operation on the same bytes gives the same encoded outcome
    let inputs: Vec<[u8; 16]> = vec![
        [0; 16],
        [1, 0, 0, 0, 0, 0, 0, 0, 0, 0, 0, 0, 0, 0, 0, 0],
        [2, 0, 0, 0, 0, 0, 0, 0, 0, 0, 0, 0, 0, 0, 0, 0],
        [0, 0, 0, 0, 0, 0, 0, 0, 42, 0, 0, 0, 0, 0, 0, 0],
        [0x0a, 0x0a, 0, 0, 0, 0, 0, 0, 0, 0, 0, 0, 0, 0, 0, 0x80],
        [0xFF; 16],
        [7, 7, 7, 7, 7, 7, 7, 7, 7, 7, 7, 7, 7, 7, 7, 7],
    ];
    let ops: Vec<fn(&I64F64) -> Result<I64F64, ckb_fixed::FixedError>> = vec![
        |v| v.ln(),
        |v| v.log2(),
        |v| v.exp(),
        |v| v.sqrt(),
        |v| v.sin(),
    ];
    for bytes in &inputs {
        for op in &ops {
            let v1 = I64F64::new(bytes).unwrap();
            let v2 = I64F64::new(bytes).unwrap();
            let r1 = op(&v1).map(|v| v.to_le_bytes()).map_err(|_| Error::General);
            let r2 = op(&v2).map(|v| v.to_le_bytes()).map_err(|_| Error::General);
            assert!(outcomes_agree(&r1, &r2));
        }
    }
    // and the two-value operation over a 32-byte input split in halves
    let left = I64F64::new(&inputs[3]).unwrap();
    let right = I64F64::new(&inputs[1]).unwrap();
    let r1 = left.pow(&right).map(|v| v.to_le_bytes()).map_err(|_| Error::Pow);
    let r2 = left.pow(&right).map(|v| v.to_le_bytes()).map_err(|_| Error::Pow);
    assert!(outcomes_agree(&r1, &r2));
}
