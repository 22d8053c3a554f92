use lbf_eval::error::ErrorKind;
use lbf_eval::test_vector::{TestVector, TestVectorType};

fn bits(s: &str) -> Vec<bool> {
    s.chars().map(|c| c == '1').collect()
}

#[test]
fn a_short_table_is_filled_up() {
    let tv = TestVector::new(bits("10"), 4).unwrap();
    assert_eq!(tv.val, bits("1000"));
    assert_eq!(tv.tv_type, TestVectorType::Zero);
    let tv = TestVector::new(vec![], 3).unwrap();
    assert_eq!(tv.val, bits("000"));
    assert_eq!(tv.tv_type, TestVectorType::Zero);
    let tv = TestVector::new(bits("0110"), 4).unwrap();
    assert_eq!(tv.val, bits("0110"));
    assert_eq!(tv.tv_type, TestVectorType::Zero);
    let tv = TestVector::new(vec![], 0).unwrap();
    assert_eq!(tv.val, bits(""));
}

#[test]
fn the_three_types() {
    // the upper entries differ from those below them
    let tv = TestVector::new(bits("10100"), 4).unwrap();
    assert_eq!((tv.val.clone(), tv.tv_type), (bits("10100"), TestVectorType::Half));
    let tv = TestVector::new(bits("01001011"), 4).unwrap();
    assert_eq!(tv.tv_type, TestVectorType::Half);
    // both are false
    let tv = TestVector::new(bits("0001000"), 4).unwrap();
    assert_eq!(tv.tv_type, TestVectorType::Zero);
    // both are true
    let tv = TestVector::new(bits("110011"), 4).unwrap();
    assert_eq!(tv.tv_type, TestVectorType::One);
    let tv = TestVector::new(bits("11"), 1).unwrap();
    assert_eq!(tv.tv_type, TestVectorType::One);
}

#[test]
fn a_table_succeeds_exactly_if_its_upper_entries_agree() {
    let p = 3usize;
    for len in 0..=2 * p {
        for code in 0u32..(1 << len) {
            let val: Vec<bool> = (0..len).map(|i| code >> i & 1 == 1).collect();
            let kinds: Vec<(bool, bool)> = (p..len).map(|i| (val[i], val[i - p])).collect();
            let class = |(a, b): (bool, bool)| if a != b { 0 } else if a { 1 } else { 2 };
            let agree = kinds.iter().all(|k| class(*k) == class(kinds[0]));
            match TestVector::new(val.clone(), p) {
                Ok(tv) => {
                    assert!(agree, "{:?}", val);
                    assert!(tv.val.len() >= p && tv.val[..val.len()] == val[..]);
                }
                Err(e) => {
                    assert!(!agree, "{:?}", val);
                    assert_eq!(e.kind, ErrorKind::TableInconsistent);
                }
            }
        }
    }
}

#[test]
fn tables_that_are_no_test_vectors() {
    assert_eq!(TestVector::new(bits("000000000"), 4).unwrap_err().kind, ErrorKind::TableTooLong);
    assert_eq!(TestVector::new(bits("0"), 0).unwrap_err().kind, ErrorKind::TableTooLong);
    // too long comes before inconsistent
    assert_eq!(TestVector::new(bits("010101100"), 4).unwrap_err().kind, ErrorKind::TableTooLong);
    assert_eq!(TestVector::new(bits("000010"), 4).unwrap_err().kind, ErrorKind::TableInconsistent);
    assert_eq!(TestVector::new(bits("110010"), 4).unwrap_err().kind, ErrorKind::TableInconsistent);
    assert_eq!(TestVector::new(bits("0100"), 2).unwrap_err().kind, ErrorKind::TableInconsistent);
}

#[test]
fn entries_as_numbers() {
    let tv = TestVector::new(bits("10100"), 4).unwrap();
    let got: Vec<u64> = (0..5).map(|i| tv.test_vec_fnc(i)).collect();
    assert_eq!(got, [1, 0, 1, 0, 0]);
}
