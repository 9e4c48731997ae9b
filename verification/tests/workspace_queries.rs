use sema::analysis;
use sema::query::{AnyItem, SemaItem};
use sema::resolve::ItemId;
use sema::resolve::SourceText;
use sema::workspaces::Workspace;

const LIB: &str = "pub mod motor;

#[derive(Debug, Clone)]
pub struct TopLevelState {
    pub position: f32,
    pub velocity: f32,
}

pub trait Device {
    fn tick(&self);
    fn name(&self) -> &str;
    fn my_mom(&self) -> u32;
}
";

const MOTOR: &str = "use crate::Device;

pub struct MotorState {
    pub position: f32,
    velocity: f32,
}

pub enum MotorCommand {
    Move { target: f32 },
    Stop,
    Home,
}

pub struct MotorConfig {
    pub max_vel: f32,
}

impl Device for MotorConfig {
    fn tick(&self) {}
    fn name(&self) -> &str {
        \"motor\"
    }
    fn my_mom(&self) -> u32 {
        2 as u32
    }
}
";

const SRC_DIR: &str = "fixtures/basic/src";
const ENTRY: &str = "fixtures/basic/src/lib.rs";
const MOTOR_FILE: &str = "fixtures/basic/src/motor/mod.rs";

fn sources() -> Vec<SourceText> {
    vec![
        SourceText { path: ENTRY.to_string(), content: LIB.to_string() },
        SourceText { path: MOTOR_FILE.to_string(), content: MOTOR.to_string() },
    ]
}

fn workspace() -> Workspace {
    match analysis(sources(), SRC_DIR, ENTRY) {
        Ok(ws) => ws,
        Err(e) => panic!("{}", e.message()),
    }
}

fn sorted_names<T: SemaItem>(items: Vec<T>) -> Vec<String> {
    let mut names: Vec<String> = items.iter().map(|i| i.name()).collect();
    names.sort();
    names
}

#[test]
fn finds_every_struct() {
    let ws = workspace();
    assert_eq!(sorted_names(ws.structs().collect()), vec!["MotorConfig", "MotorState", "TopLevelState"]);
}

#[test]
fn named_is_an_exact_match() {
    let ws = workspace();
    let found = ws.structs().named("MotorConfig").collect();
    assert_eq!(found.len(), 1);
    assert_eq!(found[0].mod_path(), "crate::motor");
    assert_eq!(found[0].file(), MOTOR_FILE);
    assert!(ws.structs().named("Motor").collect().is_empty());
}

#[test]
fn public_keeps_pub_items_only() {
    let ws = workspace();
    assert_eq!(ws.structs().public().count(), 3);
    assert_eq!(ws.impls().public().count(), 0);
}

#[test]
fn in_module_keeps_the_module_and_those_below() {
    let ws = workspace();
    assert_eq!(sorted_names(ws.structs().in_module("motor").collect()), vec!["MotorConfig", "MotorState"]);
    assert_eq!(sorted_names(ws.structs().in_module("crate::motor").collect()), vec!["MotorConfig", "MotorState"]);
    assert_eq!(ws.impls().in_module("crate::motor").count(), 1);
    assert_eq!(ws.structs().in_module("mot").count(), 0);
    assert_eq!(ws.structs().in_module("motorbike").count(), 0);
    assert_eq!(sorted_names(ws.structs().in_module("").collect()), vec!["TopLevelState"]);
    assert_eq!(sorted_names(ws.structs().in_module("crate").collect()), vec!["MotorConfig", "MotorState"]);
}

#[test]
fn with_attribute_needs_a_single_identifier_path() {
    let ws = workspace();
    assert_eq!(sorted_names(ws.structs().with_attribute("derive").collect()), vec!["TopLevelState"]);
    assert_eq!(ws.structs().with_attribute("Debug").count(), 0);
    assert_eq!(ws.functions().with_attribute("handler").count(), 0);
}

#[test]
fn named_matching_uses_the_closure() {
    let ws = workspace();
    let found = ws.structs().named_matching(|n| n.ends_with("State")).collect();
    assert_eq!(sorted_names(found), vec!["MotorState", "TopLevelState"]);
}

#[test]
fn filters_chain_in_either_order() {
    let ws = workspace();
    let a = sorted_names(ws.structs().named("MotorState").public().in_module("motor").collect());
    let b = sorted_names(ws.structs().in_module("motor").public().named("MotorState").collect());
    assert_eq!(a, b);
    assert_eq!(a, vec!["MotorState"]);
}

#[test]
fn filter_with_a_closure() {
    let ws = workspace();
    let found = ws.structs().filter(|s| s.name().len() == 10).collect();
    assert_eq!(sorted_names(found), vec!["MotorState"]);
}

#[test]
fn count_any_first_and_collect_agree() {
    let ws = workspace();
    assert_eq!(ws.enums().count(), ws.enums().collect().len());
    assert!(ws.enums().any());
    assert!(!ws.enums().named("Nope").any());
    assert_eq!(ws.enums().first().map(|e| e.name()), Some("MotorCommand".to_string()));
    assert!(ws.traits().named("Nope").first().is_none());
    assert_eq!(ws.enums().into_iter().count(), 1);
}

#[test]
fn with_impl_keeps_everything() {
    let ws = workspace();
    assert_eq!(ws.structs().with_impl(&ws).count(), 3);
}

#[test]
fn enums_and_traits_carry_their_module_path() {
    let ws = workspace();
    let enums = ws.enums().collect();
    assert_eq!(enums.len(), 1);
    assert_eq!(enums[0].name(), "MotorCommand");
    assert_eq!(enums[0].mod_path(), "crate::motor");
    assert!(enums[0].is_public());
    let traits = ws.traits().named("Device").collect();
    assert_eq!(traits.len(), 1);
    assert_eq!(traits[0].mod_path(), "");
    assert_eq!(traits[0].file(), ENTRY);
}

#[test]
fn root_items_have_an_empty_module_path() {
    let ws = workspace();
    let top = ws.structs().named("TopLevelState").collect();
    assert_eq!(top[0].mod_path(), "");
    assert_eq!(top[0].id(), ItemId::from("", "TopLevelState"));
}

#[test]
fn impl_links_to_its_self_type() {
    let ws = workspace();
    let impls = ws.impls().collect();
    assert_eq!(impls.len(), 1);
    let i = impls[0];
    let config = ws.structs().named("MotorConfig").collect()[0];
    assert_eq!(i.self_ty.written, "MotorConfig");
    assert_eq!(i.self_ty.resolved, Some(config.id));
    let t = i.trait_.as_ref().unwrap();
    assert_eq!(t.written, "Device");
    // `use` statements are not followed, so the trait stays unresolved.
    assert_eq!(t.resolved, None);
    assert_eq!(i.mod_path(), "crate::motor");
    assert_eq!(i.name(), "implcrate::motor");
    assert!(!i.is_public());
    assert_eq!(i.id, ItemId::from("motor", "impl_MotorConfig__Device"));
}

#[test]
fn struct_cross_references() {
    let ws = workspace();
    let config = ws.structs().named("MotorConfig").collect()[0];
    assert_eq!(config.impls(&ws).len(), 1);
    assert_eq!(config.implementations(&ws).len(), 1);
    let methods = config.methods(&ws);
    let names: Vec<&str> = methods.iter().map(|m| m.name.as_str()).collect();
    assert_eq!(names, vec!["tick", "name", "my_mom"]);
    assert!(methods.iter().all(|m| m.params == 1 && !m.is_async && !m.is_unsafe));
    assert!(config.trait_impls(&ws).is_empty());
    let state = ws.structs().named("MotorState").collect()[0];
    assert!(state.impls(&ws).is_empty());
    assert!(state.methods(&ws).is_empty());
}

#[test]
fn trait_impl_blocks_follow_resolution() {
    let ws = workspace();
    let device = ws.traits().named("Device").collect()[0];
    assert!(device.impl_blocks(&ws).is_empty());
    assert!(!ws.has_implementors(device.id));
}

#[test]
fn lookups_by_id() {
    let ws = workspace();
    let config_id = ItemId::from("motor", "MotorConfig");
    assert_eq!(ws.struct_by_id(config_id).map(|s| s.name()), Some("MotorConfig".to_string()));
    assert!(ws.has_impls_for(config_id));
    assert_eq!(ws.impls_for_struct(config_id).len(), 1);
    let device_id = ItemId::from("", "Device");
    assert_eq!(ws.trait_by_id(device_id).map(|t| t.name()), Some("Device".to_string()));
    assert!(ws.struct_by_id(device_id).is_none());
    assert!(ws.impls_of_trait(device_id).is_empty());
    match ws.by_id(device_id) {
        Some(AnyItem::Trait(t)) => assert_eq!(t.name(), "Device"),
        _ => panic!("Device not found by id"),
    }
    match ws.by_id(ItemId::from("motor", "MotorCommand")) {
        Some(AnyItem::Enum(e)) => assert_eq!(e.name(), "MotorCommand"),
        _ => panic!("MotorCommand not found by id"),
    }
    assert!(ws.by_id(ItemId::from("motor", "Missing")).is_none());
}

#[test]
fn all_items_skips_functions() {
    let ws = workspace();
    // three structs, one enum, one trait and one impl block
    assert_eq!(ws.all_items().count(), 6);
    assert_eq!(ws.functions().count(), 0);
}

#[test]
fn rerun_directives_list_manifest_then_each_file_once() {
    let ws = workspace();
    let lines = ws.rerun_directives();
    assert_eq!(lines.len(), 3);
    assert_eq!(lines[0], "cargo:rerun-if-changed=Cargo.toml");
    assert!(lines.contains(&format!("cargo:rerun-if-changed={}", ENTRY)));
    assert!(lines.contains(&format!("cargo:rerun-if-changed={}", MOTOR_FILE)));
}

#[test]
fn missing_entry_is_an_error() {
    let result = analysis(sources(), SRC_DIR, "fixtures/basic/src/main.rs");
    match result {
        Err(e) => assert_eq!(
            e.message(),
            "entry file fixtures/basic/src/main.rs was not found under fixtures/basic/src (or failed to read/parse)"
        ),
        Ok(_) => panic!("expected an error"),
    }
}

#[test]
fn entry_that_does_not_parse_is_an_error() {
    let broken = vec![SourceText { path: ENTRY.to_string(), content: "pub struct {".to_string() }];
    assert!(analysis(broken, SRC_DIR, ENTRY).is_err());
}

#[test]
fn unreachable_files_are_left_out() {
    let mut srcs = sources();
    srcs.push(SourceText { path: "fixtures/basic/src/stray.rs".to_string(), content: "pub struct Stray;".to_string() });
    let ws = match analysis(srcs, SRC_DIR, ENTRY) {
        Ok(ws) => ws,
        Err(e) => panic!("{}", e.message()),
    };
    assert_eq!(ws.structs().named("Stray").count(), 0);
    assert_eq!(ws.rerun_directives().len(), 3);
}

#[test]
fn free_functions_are_collected() {
    let srcs = vec![SourceText {
        path: ENTRY.to_string(),
        content: "#[handler]\npub fn serve() {}\nfn helper(x: u8) -> u8 { x }\n".to_string(),
    }];
    let ws = match analysis(srcs, SRC_DIR, ENTRY) {
        Ok(ws) => ws,
        Err(e) => panic!("{}", e.message()),
    };
    assert_eq!(sorted_names(ws.functions().collect()), vec!["helper", "serve"]);
    assert_eq!(sorted_names(ws.functions().with_attribute("handler").collect()), vec!["serve"]);
    assert_eq!(sorted_names(ws.functions().public().collect()), vec!["serve"]);
}

#[test]
fn trait_resolved_in_the_same_module_links_both_ways() {
    let srcs = vec![SourceText {
        path: ENTRY.to_string(),
        content: "pub trait Drive { fn go(&self); }\npub struct Car;\nimpl Drive for Car { fn go(&self) {} }\nimpl Car { pub async fn park(&mut self, spot: u8) {} }\n".to_string(),
    }];
    let ws = match analysis(srcs, SRC_DIR, ENTRY) {
        Ok(ws) => ws,
        Err(e) => panic!("{}", e.message()),
    };
    let car = ws.structs().named("Car").collect()[0];
    let drive = ws.traits().named("Drive").collect()[0];
    let traits = car.trait_impls(&ws);
    assert_eq!(traits.len(), 1);
    assert_eq!(traits[0].name(), "Drive");
    let blocks = drive.impl_blocks(&ws);
    assert_eq!(blocks.len(), 1);
    assert_eq!(blocks[0].self_ty.resolved, Some(car.id));
    assert!(ws.has_implementors(drive.id));
    let methods = car.methods(&ws);
    assert_eq!(methods.len(), 2);
    assert_eq!(methods[1].name, "park");
    assert_eq!(methods[1].params, 2);
    assert!(methods[1].is_async);
    assert_eq!(ws.impls().collect()[0].id, ItemId::from("", "impl_Car__Drive"));
    assert_eq!(ws.impls().collect()[1].id, ItemId::from("", "impl_Car"));
    assert!(ws.impls().collect()[1].trait_.is_none());
    assert_eq!(ws.impls().collect()[1].self_ty.written, "Car");
}

#[test]
fn restricted_visibility_is_not_public_in_queries() {
    let srcs = vec![SourceText {
        path: ENTRY.to_string(),
        content: "pub(crate) fn inner() {}
pub fn outer() {}
pub(super) struct Half;
".to_string(),
    }];
    let ws = match analysis(srcs, SRC_DIR, ENTRY) {
        Ok(ws) => ws,
        Err(e) => panic!("{}", e.message()),
    };
    assert_eq!(sorted_names(ws.functions().public().collect()), vec!["outer"]);
    assert_eq!(ws.structs().public().count(), 0);
}

#[test]
fn by_id_finds_free_functions_too() {
    let srcs = vec![SourceText { path: ENTRY.to_string(), content: "pub fn serve() {}\n".to_string() }];
    let ws = match analysis(srcs, SRC_DIR, ENTRY) {
        Ok(ws) => ws,
        Err(e) => panic!("{}", e.message()),
    };
    match ws.by_id(ItemId::from("", "serve")) {
        Some(AnyItem::Function(f)) => assert_eq!(f.name(), "serve"),
        _ => panic!("function not found by id"),
    }
}

#[test]
fn attrs_are_the_node_attributes() {
    let ws = workspace();
    let top = ws.structs().named("TopLevelState").collect()[0];
    assert_eq!(top.attrs().len(), 1);
    let config = ws.structs().named("MotorConfig").collect()[0];
    assert!(config.attrs().is_empty());
}

#[test]
fn public_and_attributes_read_the_syntax_tree() {
    let srcs = vec![SourceText {
        path: ENTRY.to_string(),
        content: "pub(crate) struct Hidden;\n#[serde::skip]\n#[marker]\npub struct Shown;\nstruct Private;\n".to_string(),
    }];
    let ws = match analysis(srcs, SRC_DIR, ENTRY) {
        Ok(ws) => ws,
        Err(e) => panic!("{}", e.message()),
    };
    assert_eq!(sorted_names(ws.structs().public().collect()), vec!["Shown"]);
    assert_eq!(sorted_names(ws.structs().with_attribute("marker").collect()), vec!["Shown"]);
    assert_eq!(ws.structs().with_attribute("skip").count(), 0);
    assert_eq!(ws.structs().with_attribute("serde").count(), 0);
}

#[test]
fn methods_are_read_from_the_impl_blocks() {
    let srcs = vec![SourceText {
        path: ENTRY.to_string(),
        content: "pub struct S;\nimpl S {\n    const K: u8 = 1;\n    pub async fn a(&self, x: u8) {}\n    unsafe fn b() {}\n}\nimpl S { fn c(self) {} }\n".to_string(),
    }];
    let ws = match analysis(srcs, SRC_DIR, ENTRY) {
        Ok(ws) => ws,
        Err(e) => panic!("{}", e.message()),
    };
    let s = ws.structs().named("S").collect()[0];
    let facts: Vec<(String, usize, bool, bool)> =
        s.methods(&ws).into_iter().map(|m| (m.name, m.params, m.is_async, m.is_unsafe)).collect();
    assert_eq!(facts, vec![
        ("a".to_string(), 2, true, false),
        ("b".to_string(), 0, false, true),
        ("c".to_string(), 1, false, false),
    ]);
}

#[test]
fn closure_filters_commute() {
    let ws = workspace();
    let a = sorted_names(ws.structs().filter(|s| s.name().starts_with("Motor")).filter(|s| s.name().ends_with("State")).collect());
    let b = sorted_names(ws.structs().filter(|s| s.name().ends_with("State")).filter(|s| s.name().starts_with("Motor")).collect());
    assert_eq!(a, b);
    assert_eq!(a, vec!["MotorState"]);
}
