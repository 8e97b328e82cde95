use hamcrest::type_of;
use std::any::TypeId;

#[test]
fn same_type_matches() {
    assert_eq!(type_of::<u8>().matches(3u8), Ok(()));
    assert_eq!(type_of::<String>().matches(String::from("x")), Ok(()));
}

#[test]
fn other_type_reports_its_identifier() {
    assert_eq!(type_of::<u8>().matches(3u16), Err(TypeId::of::<u16>()));
    assert_eq!(type_of::<i64>().matches_id(TypeId::of::<bool>()), Err(TypeId::of::<bool>()));
}
