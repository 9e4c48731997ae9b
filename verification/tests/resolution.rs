use sema::resolve::{CallVisitor, Db, ItemId, ItemKind, ModuleId, SourceText};

const LIB: &str = "pub mod motor;

pub trait Device {
    fn tick(&self);
}

pub mod inline {
    pub struct Inner;
}

pub const LIMIT: u32 = 3;
";

const MOTOR: &str = "use crate::Device;

pub enum MotorCommand {
    Move { target: f32 },
    Stop,
}

pub struct MotorConfig {
    pub max_vel: f32,
}

impl MotorConfig {
    pub fn new() -> Self {
        MotorConfig { max_vel: 1.0 }
    }
}

impl Device for MotorConfig {
    fn tick(&self) {}
}

pub trait Drive {
    fn go(&self);
}

impl Drive for MotorCommand {
    fn go(&self) {}
}

impl Unknown for MotorConfig {}
";

const SRC_DIR: &str = "src";
const ENTRY: &str = "src/lib.rs";
const MOTOR_FILE: &str = "src/motor.rs";

fn db() -> Db {
    let sources = vec![
        SourceText { path: ENTRY.to_string(), content: LIB.to_string() },
        SourceText { path: MOTOR_FILE.to_string(), content: MOTOR.to_string() },
    ];
    match Db::build(sources, SRC_DIR, ENTRY) {
        Ok(db) => db,
        Err(e) => panic!("{}", e.message()),
    }
}

fn path(segments: &[&str]) -> Vec<String> {
    segments.iter().map(|s| s.to_string()).collect()
}

#[test]
fn resolves_a_module_then_an_item() {
    let db = db();
    let root = ModuleId::from(ENTRY.to_string());
    assert_eq!(db.resolve_path(&root, &path(&["motor", "MotorConfig"])), Some(ItemId::from("motor", "MotorConfig")));
    assert_eq!(db.resolve_path(&root, &path(&["Device"])), Some(ItemId::from("", "Device")));
}

#[test]
fn resolves_enum_variants_and_inherent_methods_to_their_type() {
    let db = db();
    let motor = ModuleId::from(MOTOR_FILE.to_string());
    assert_eq!(db.resolve_path(&motor, &path(&["MotorCommand", "Stop"])), Some(ItemId::from("motor", "MotorCommand")));
    assert_eq!(db.resolve_path(&motor, &path(&["MotorConfig", "new"])), Some(ItemId::from("motor", "MotorConfig")));
    assert_eq!(db.resolve_path(&motor, &path(&["MotorCommand", "Halt"])), None);
}

#[test]
fn unresolvable_paths_give_none() {
    let db = db();
    let motor = ModuleId::from(MOTOR_FILE.to_string());
    assert_eq!(db.resolve_path(&motor, &path(&[])), None);
    assert_eq!(db.resolve_path(&motor, &path(&["Device"])), None);
    assert_eq!(db.resolve_path(&motor, &path(&["nothing", "here"])), None);
}

#[test]
fn item_table_holds_items_of_reached_modules() {
    let db = db();
    let mut names: Vec<(String, String)> = db.items().iter().map(|i| (i.mod_path.clone(), i.name.clone())).collect();
    names.sort();
    let expected: Vec<(String, String)> = vec![
        ("", "Device"),
        ("", "LIMIT"),
        ("", "inline"),
        ("motor", "Drive"),
        ("motor", "MotorCommand"),
        ("motor", "MotorConfig"),
        // the `use` item: every item kind the table does not handle gets this name
        ("motor", "unhandled"),
    ]
    .into_iter()
    .map(|(a, b)| (a.to_string(), b.to_string()))
    .collect();
    assert_eq!(names, expected);
    for item in db.items() {
        assert_eq!(item.id, ItemId::from(item.mod_path.as_str(), item.name.as_str()));
    }
    let inline = db.items().iter().find(|i| i.name == "inline").unwrap();
    assert!(matches!(inline.kind, ItemKind::Module(_)));
    let command = db.items().iter().find(|i| i.name == "MotorCommand").unwrap();
    assert_eq!(command.variants, vec!["Move".to_string(), "Stop".to_string()]);
}

#[test]
fn impls_resolve_target_and_trait_where_possible() {
    let db = db();
    let impls = db.impls();
    // `impl Unknown for MotorConfig` keeps its target; an impl whose target
    // does not resolve would be dropped.
    assert_eq!(impls.len(), 4);
    let config = ItemId::from("motor", "MotorConfig");
    let command = ItemId::from("motor", "MotorCommand");
    let drive = ItemId::from("motor", "Drive");
    assert_eq!(impls[0].target_type, config);
    assert_eq!(impls[0].trait_, None);
    assert_eq!(impls[0].methods, vec!["new".to_string()]);
    assert_eq!(impls[1].target_type, config);
    assert_eq!(impls[1].trait_, None);
    assert_eq!(impls[2].target_type, command);
    assert_eq!(impls[2].trait_, Some(drive));
    assert_eq!(impls[3].trait_, None);
    for i in impls {
        assert_eq!(i.mod_path, "motor");
        assert_eq!(i.parent.file_path(), MOTOR_FILE);
    }
}

#[test]
fn impl_with_unresolved_target_is_dropped() {
    let sources = vec![SourceText { path: ENTRY.to_string(), content: "impl Ghost {}\npub struct Real;\nimpl Real {}\n".to_string() }];
    let db = match Db::build(sources, SRC_DIR, ENTRY) {
        Ok(db) => db,
        Err(e) => panic!("{}", e.message()),
    };
    assert_eq!(db.impls().len(), 1);
    assert_eq!(db.impls()[0].target_type, ItemId::from("", "Real"));
}

#[test]
fn nested_module_file_layout_is_linked() {
    let sources = vec![
        SourceText { path: ENTRY.to_string(), content: "pub mod motor;".to_string() },
        SourceText { path: "src/motor/mod.rs".to_string(), content: "pub mod state;".to_string() },
        SourceText { path: "src/motor/state.rs".to_string(), content: "pub struct Pos;".to_string() },
    ];
    let db = match Db::build(sources, SRC_DIR, ENTRY) {
        Ok(db) => db,
        Err(e) => panic!("{}", e.message()),
    };
    assert_eq!(db.items().len(), 1);
    assert_eq!(db.items()[0].mod_path, "motor::state");
    let root = ModuleId::from(ENTRY.to_string());
    assert_eq!(db.resolve_path(&root, &path(&["motor", "state", "Pos"])), Some(ItemId::from("motor::state", "Pos")));
}

#[test]
fn module_id_gives_back_its_file() {
    let id = ModuleId::from("src/motor/mod.rs".to_string());
    assert_eq!(id.file_path(), "src/motor/mod.rs");
    assert!(id.same_as(&ModuleId::from("src/motor/mod.rs".to_string())));
    assert!(!id.same_as(&ModuleId::from("src/motor.rs".to_string())));
}

#[test]
fn item_ids_are_stable_per_path_and_name() {
    assert_eq!(ItemId::from("motor", "MotorConfig"), ItemId::from("motor", "MotorConfig"));
    assert_ne!(ItemId::from("motor", "MotorConfig"), ItemId::from("", "MotorConfig"));
    assert_ne!(ItemId::from("motor", "MotorConfig"), ItemId::from("motor", "MotorState"));
}

#[test]
fn from_name_is_fnv1a_from_a_zero_state() {
    assert_eq!(ItemId::from_name("motor", "MotorConfig").value(), 9090473963194012216);
    assert_eq!(ItemId::from_name("", "Device").value(), 17557285050872668598);
    assert_eq!(ItemId::from_name("a", "b").value(), 6643798087787705971);
}

#[test]
fn call_visitor_starts_empty_and_records_calls() {
    let mut v = CallVisitor::new();
    assert!(v.calls.is_empty());
    v.record_path_call(Some(path(&["Vec", "new"])));
    v.record_path_call(None);
    v.record_method_call("push".to_string());
    assert_eq!(v.calls, vec![path(&["Vec", "new"]), path(&["push"])]);
}

#[test]
fn crate_paths_resolve_from_the_root() {
    let db = db();
    let motor = ModuleId::from(MOTOR_FILE.to_string());
    assert_eq!(db.resolve_path(&motor, &path(&["crate", "Device"])), Some(ItemId::from("", "Device")));
    assert_eq!(db.resolve_path(&motor, &path(&["crate", "motor", "MotorConfig"])), Some(ItemId::from("motor", "MotorConfig")));
    assert_eq!(db.resolve_path(&motor, &path(&["crate", "Nothing"])), None);
}

#[test]
fn trait_named_by_crate_path_resolves() {
    let sources = vec![
        SourceText { path: ENTRY.to_string(), content: "pub mod motor;\npub trait Device {}\n".to_string() },
        SourceText { path: MOTOR_FILE.to_string(), content: "pub struct M;\nimpl crate::Device for M {}\n".to_string() },
    ];
    let db = match Db::build(sources, SRC_DIR, ENTRY) {
        Ok(db) => db,
        Err(e) => panic!("{}", e.message()),
    };
    assert_eq!(db.impls().len(), 1);
    assert_eq!(db.impls()[0].trait_, Some(ItemId::from("", "Device")));
}

#[test]
fn mod_declarations_link_to_the_file_beside_the_declaring_one() {
    let sources = vec![
        SourceText { path: ENTRY.to_string(), content: "pub mod motor;\npub mod state;".to_string() },
        SourceText { path: "src/motor/mod.rs".to_string(), content: "pub mod state;".to_string() },
        SourceText { path: "src/motor/state.rs".to_string(), content: "pub struct Inner;".to_string() },
        SourceText { path: "src/state.rs".to_string(), content: "pub struct Outer;".to_string() },
        SourceText { path: "other/state.rs".to_string(), content: "pub struct Stray;".to_string() },
    ];
    let db = match Db::build(sources, SRC_DIR, ENTRY) {
        Ok(db) => db,
        Err(e) => panic!("{}", e.message()),
    };
    let mut found: Vec<(String, String)> = db.items().iter().map(|i| (i.mod_path.clone(), i.name.clone())).collect();
    found.sort();
    assert_eq!(found, vec![
        ("motor::state".to_string(), "Inner".to_string()),
        ("state".to_string(), "Outer".to_string()),
    ]);
}

#[test]
fn restricted_visibility_is_not_public_and_other_kinds_are_unhandled() {
    let sources = vec![SourceText {
        path: ENTRY.to_string(),
        content: "pub(crate) struct Hidden;\npub struct Shown;\npub type Alias = u8;\npub static S: u8 = 1;\n".to_string(),
    }];
    let db = match Db::build(sources, SRC_DIR, ENTRY) {
        Ok(db) => db,
        Err(e) => panic!("{}", e.message()),
    };
    let hidden = db.items().iter().find(|i| i.name == "Hidden").unwrap();
    assert!(!hidden.is_pub);
    let shown = db.items().iter().find(|i| i.name == "Shown").unwrap();
    assert!(shown.is_pub);
    let unhandled: Vec<_> = db.items().iter().filter(|i| i.name == "unhandled").collect();
    // both the type alias and the static get the one id of `unhandled`
    assert_eq!(unhandled.len(), 1);
    assert!(!unhandled[0].is_pub);
    assert!(matches!(unhandled[0].kind, ItemKind::Unhandled));
    assert_eq!(unhandled[0].id, ItemId::from("", "unhandled"));
}

#[test]
fn counts_resolved_calls() {
    let db = db();
    let motor = ModuleId::from(MOTOR_FILE.to_string());
    let calls = vec![path(&["MotorConfig", "new"]), path(&["Nope"]), path(&["crate", "Device"])];
    assert_eq!(db.count_resolved(&motor, &calls), (2, 1));
}

#[test]
fn self_and_super_are_plain_names() {
    let sources = vec![
        SourceText { path: ENTRY.to_string(), content: "pub mod motor;\npub trait Device {}\n".to_string() },
        SourceText { path: "src/motor/mod.rs".to_string(), content: "pub mod state;\npub struct M;\n".to_string() },
        SourceText { path: "src/motor/state.rs".to_string(), content: "pub struct S;\n".to_string() },
    ];
    let db = match Db::build(sources, SRC_DIR, ENTRY) {
        Ok(db) => db,
        Err(e) => panic!("{}", e.message()),
    };
    let state = ModuleId::from("src/motor/state.rs".to_string());
    let motor = ModuleId::from("src/motor/mod.rs".to_string());
    assert_eq!(db.resolve_path(&state, &path(&["super", "M"])), None);
    assert_eq!(db.resolve_path(&motor, &path(&["self", "M"])), None);
    assert_eq!(db.resolve_path(&motor, &path(&["state", "S"])), Some(ItemId::from("motor::state", "S")));
    assert_eq!(db.resolve_path(&motor, &path(&["state", "self", "S"])), None);
}

fn built(sources: Vec<SourceText>) -> Db {
    match Db::build(sources, SRC_DIR, ENTRY) {
        Ok(db) => db,
        Err(e) => panic!("{}", e.message()),
    }
}

fn table(db: &Db) -> Vec<(String, String)> {
    let mut found: Vec<(String, String)> = db.items().iter().map(|i| (i.mod_path.clone(), i.name.clone())).collect();
    found.sort();
    found
}

#[test]
fn a_flat_file_wins_over_a_mod_rs() {
    let db = built(vec![
        SourceText { path: ENTRY.to_string(), content: "mod a;".to_string() },
        SourceText { path: "src/a/mod.rs".to_string(), content: "pub struct Nested;".to_string() },
        SourceText { path: "src/a.rs".to_string(), content: "pub struct Flat;".to_string() },
    ]);
    assert_eq!(table(&db), vec![("a".to_string(), "Flat".to_string())]);
}

#[test]
fn files_no_declaration_names_stay_out_of_the_tree() {
    let db = built(vec![
        SourceText { path: ENTRY.to_string(), content: "pub struct A;\nmod missing;".to_string() },
        SourceText { path: "src/extra.rs".to_string(), content: "pub struct B;".to_string() },
        SourceText { path: "src/bin/other.rs".to_string(), content: "pub struct C;\nimpl C {}".to_string() },
    ]);
    assert_eq!(table(&db), vec![("".to_string(), "A".to_string())]);
    assert!(db.impls().is_empty());
}

#[test]
fn a_declared_file_that_does_not_parse_is_not_linked() {
    let db = built(vec![
        SourceText { path: ENTRY.to_string(), content: "mod a;".to_string() },
        SourceText { path: "src/a.rs".to_string(), content: "pub struct {".to_string() },
        SourceText { path: "src/a/mod.rs".to_string(), content: "pub struct Nested;".to_string() },
    ]);
    assert_eq!(table(&db), vec![("a".to_string(), "Nested".to_string())]);
}

#[test]
fn descending_into_a_child_is_resolving_from_it() {
    let db = db();
    let root = ModuleId::from(ENTRY.to_string());
    let motor = ModuleId::from(MOTOR_FILE.to_string());
    for rest in [vec!["MotorConfig"], vec!["MotorConfig", "new"], vec!["MotorCommand", "Stop"], vec!["Nope"]] {
        let mut full = vec!["motor"];
        full.extend(rest.iter().copied());
        assert_eq!(db.resolve_path(&root, &path(&full)), db.resolve_path(&motor, &path(&rest)));
    }
}
