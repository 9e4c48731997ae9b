use sema::bridge;
use sema::resolve_bridge::base_name;
use sema::text::matches_module;

#[test]
fn base_name_of_a_plain_type() {
    assert_eq!(base_name("MotorConfig"), "MotorConfig");
}

#[test]
fn base_name_drops_generics() {
    assert_eq!(base_name("Vec < T >"), "Vec");
    assert_eq!(base_name("HashMap<K, V>"), "HashMap");
}

#[test]
fn base_name_keeps_the_last_path_segment() {
    assert_eq!(base_name("path :: to :: Foo"), "Foo");
    assert_eq!(base_name("crate :: motor :: Device < u8 >"), "Device");
    assert_eq!(base_name(""), "");
}

#[test]
fn bridge_base_name_does_not_trim_the_last_piece() {
    assert_eq!(bridge::base_name("Vec<T>"), "Vec");
    assert_eq!(bridge::base_name("path::to::Foo"), "Foo");
    assert_eq!(bridge::base_name("path :: to :: Foo"), " Foo");
}

#[test]
fn module_path_string_joins_names_from_the_root() {
    let chain = vec![Some("state".to_string()), Some("motor".to_string()), None];
    assert_eq!(bridge::module_path_string(&chain), "crate::motor::state");
    assert_eq!(bridge::module_path_string(&vec![None]), "");
    assert_eq!(bridge::module_path_string(&vec![]), "");
    assert_eq!(bridge::module_path_string(&vec![Some("motor".to_string()), None]), "crate::motor");
}

#[test]
fn base_name_trims_any_whitespace() {
    assert_eq!(base_name("\tVec<T>\n"), "Vec");
    assert_eq!(base_name("  a ::  b  "), "b");
    assert_eq!(bridge::base_name("  a ::  b  "), "  b");
}

#[test]
fn module_matching_goes_by_whole_segments() {
    assert!(matches_module("crate::motor", "motor"));
    assert!(matches_module("crate::motor", "crate::motor"));
    assert!(matches_module("crate::motor::state", "motor"));
    assert!(!matches_module("crate::motorbike", "motor"));
    assert!(!matches_module("crate::motor", "mot"));
    assert!(matches_module("", ""));
    assert!(!matches_module("crate::motor", ""));
}
