use dmglr::error::DmglrError;
use dmglr::ompi::{demangle, format_vector, mangle, CORE_NUMBER};
use dmglr::smt::SMT;

#[test]
fn mangle_examples_l2() {
    assert_eq!(mangle(0, &SMT::L2), 0);
    assert_eq!(mangle(32, &SMT::L2), 16);
    assert_eq!(mangle(1, &SMT::L2), 32);
    assert_eq!(mangle(2, &SMT::L2), 1);
    assert_eq!(mangle(64, &SMT::L2), 64);
    assert_eq!(mangle(65, &SMT::L2), 96);
    assert_eq!(mangle(127, &SMT::L2), 127);
}

#[test]
fn mangle_examples_l4() {
    assert_eq!(mangle(0, &SMT::L4), 0);
    assert_eq!(mangle(1, &SMT::L4), 32);
    assert_eq!(mangle(2, &SMT::L4), 64);
    assert_eq!(mangle(3, &SMT::L4), 96);
    assert_eq!(mangle(4, &SMT::L4), 1);
    assert_eq!(mangle(128, &SMT::L4), 128);
    assert_eq!(mangle(255, &SMT::L4), 255);
}

#[test]
fn mangle_l4_folds_rows_beyond_the_table() {
    assert_eq!(mangle(256, &SMT::L4), 128);
    assert_eq!(mangle(260, &SMT::L4), 129);
}

#[test]
fn demangle_examples_l2() {
    assert_eq!(demangle(0, &SMT::L2).unwrap(), 0);
    assert_eq!(demangle(64, &SMT::L2).unwrap(), 64);
    assert_eq!(demangle(1, &SMT::L2).unwrap(), 2);
    assert_eq!(demangle(32, &SMT::L2).unwrap(), 1);
    assert_eq!(demangle(127, &SMT::L2).unwrap(), 127);
}

#[test]
fn demangle_examples_l4() {
    assert_eq!(demangle(0, &SMT::L4).unwrap(), 0);
    assert_eq!(demangle(32, &SMT::L4).unwrap(), 1);
    assert_eq!(demangle(1, &SMT::L4).unwrap(), 4);
    assert_eq!(demangle(128, &SMT::L4).unwrap(), 128);
    assert_eq!(demangle(255, &SMT::L4).unwrap(), 255);
}

#[test]
fn demangle_out_of_range_exactly_past_the_last_thread() {
    assert!(demangle(127, &SMT::L2).is_ok());
    assert!(matches!(demangle(128, &SMT::L2), Err(DmglrError::OutOfRange(128))));
    assert!(demangle(255, &SMT::L4).is_ok());
    assert!(matches!(demangle(256, &SMT::L4), Err(DmglrError::OutOfRange(256))));
    assert!(matches!(demangle(u32::MAX, &SMT::L4), Err(DmglrError::OutOfRange(u32::MAX))));
}

#[test]
fn round_trips_on_the_valid_domain() {
    for smt in [SMT::L2, SMT::L4] {
        let count = smt.width() * 64;
        for hw in 0..count {
            let o = mangle(hw, &smt);
            assert!(o < count);
            assert_eq!(demangle(o, &smt).unwrap(), hw);
            let back = demangle(hw, &smt).unwrap();
            assert_eq!(mangle(back, &smt), hw);
        }
    }
}

#[test]
fn format_vector_joins_with_commas() {
    assert_eq!(format_vector(&vec![5]), "5");
    assert_eq!(format_vector(&vec![0, 22, 333, 4096]), "0,22,333,4096");
}

#[test]
fn core_number_is_thirty_two() {
    assert_eq!(CORE_NUMBER, 32);
}
