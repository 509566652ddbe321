use dmglr::error::DmglrError;
use dmglr::smt::SMT;

#[test]
fn profile_constants() {
    assert_eq!(SMT::L2.width(), 2);
    assert_eq!(SMT::L4.width(), 4);
    assert_eq!(SMT::L2.get_jump(), 32);
    assert_eq!(SMT::L4.get_jump(), 128);
    assert_eq!(SMT::L2.get_extra_threads(), 64);
    assert_eq!(SMT::L4.get_extra_threads(), 128);
    assert_eq!(u32::from(&SMT::L2), 2);
    assert_eq!(u32::from(&SMT::L4), 4);
}

#[test]
fn parse_levels() {
    assert_eq!(SMT::parse("2").unwrap(), SMT::L2);
    assert_eq!(SMT::parse("4").unwrap(), SMT::L4);
    assert_eq!("2".parse::<SMT>().unwrap(), SMT::L2);
}

#[test]
fn parse_rejects_other_levels() {
    for text in ["3", "8", "", "x", "-2", "256", "4 ", "+4", "04", "+02", "002", "24"] {
        match SMT::parse(text) {
            Err(DmglrError::InvalidSmtLevel(t)) => assert_eq!(t, text),
            other => panic!("unexpected {:?}", other),
        }
    }
    assert!(matches!("1".parse::<SMT>(), Err(DmglrError::InvalidSmtLevel(_))));
}
