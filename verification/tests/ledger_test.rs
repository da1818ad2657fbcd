use packs::package_todo::{PackageTodo, ViolationGroup};
use packs::{
    default_enforce_dependencies, parse_checker_setting, CheckerSetting, Pack, PacksError,
    RawPack, SourceLocation,
};

fn foo_pack_with_ledger() -> Pack {
    let bar_group = ViolationGroup {
        violation_types: vec![String::from("dependency")],
        files: vec![String::from("packs/foo/app/services/foo.rb")],
    };
    let baz_group = ViolationGroup {
        violation_types: vec![String::from("dependency"), String::from("privacy")],
        files: vec![String::from("packs/foo/app/services/foo.rb")],
    };
    let todo = PackageTodo {
        violations_by_defining_pack: vec![(
            String::from("packs/bar"),
            vec![
                (String::from("::Bar"), bar_group),
                (String::from("::Baz"), baz_group),
            ],
        )],
    };
    Pack {
        yml: String::from("packs/foo/package.yml"),
        name: String::from("packs/foo"),
        relative_path: String::from("packs/foo"),
        dependencies: Vec::new(),
        ignored_dependencies: Vec::new(),
        package_todo: todo,
        enforce_dependencies: CheckerSetting::False,
    }
}

#[test]
fn all_violations_expands_types_times_files() {
    let pack = foo_pack_with_ledger();
    let violations = pack.all_violations();
    assert_eq!(violations.len(), 3);

    assert_eq!(violations[0].violation_type, "dependency");
    assert_eq!(violations[0].constant_name, "::Bar");
    assert_eq!(violations[0].file, "packs/foo/app/services/foo.rb");
    assert_eq!(violations[0].referencing_pack_name, "packs/foo");
    assert_eq!(violations[0].defining_pack_name, "packs/bar");

    assert_eq!(violations[1].violation_type, "dependency");
    assert_eq!(violations[1].constant_name, "::Baz");
    assert_eq!(violations[1].file, "packs/foo/app/services/foo.rb");

    assert_eq!(violations[2].violation_type, "privacy");
    assert_eq!(violations[2].constant_name, "::Baz");
    assert_eq!(violations[2].file, "packs/foo/app/services/foo.rb");
}

#[test]
fn all_violations_empty_ledger() {
    let mut pack = foo_pack_with_ledger();
    pack.package_todo = PackageTodo::empty();
    assert_eq!(pack.all_violations().len(), 0);
}

#[test]
fn manifest_omitting_enforce_dependencies_is_off() {
    let raw = RawPack {
        dependencies: Vec::new(),
        ignored_dependencies: Vec::new(),
        enforce_dependencies: None,
    };
    let pack = Pack::from_raw(
        String::from("packs/foo/package.yml"),
        String::from("packs/foo"),
        String::from("packs/foo"),
        raw,
        PackageTodo::empty(),
    )
    .unwrap();
    assert_eq!(pack.enforce_dependencies, CheckerSetting::False);
    assert!(pack.enforce_dependencies.is_false());
}

#[test]
fn manifest_enforce_dependencies_values() {
    let mk = |value: Option<&str>| RawPack {
        dependencies: Vec::new(),
        ignored_dependencies: Vec::new(),
        enforce_dependencies: value.map(String::from),
    };
    let build = |raw: RawPack| {
        Pack::from_raw(
            String::from("packs/foo/package.yml"),
            String::from("packs/foo"),
            String::from("packs/foo"),
            raw,
            PackageTodo::empty(),
        )
    };
    assert_eq!(
        build(mk(Some("true"))).unwrap().enforce_dependencies,
        CheckerSetting::True
    );
    assert_eq!(
        build(mk(Some("strict"))).unwrap().enforce_dependencies,
        CheckerSetting::Strict
    );
    assert_eq!(
        build(mk(Some("false"))).unwrap().enforce_dependencies,
        CheckerSetting::False
    );
    assert_eq!(
        build(mk(Some("sometimes"))).unwrap_err(),
        PacksError::MalformedEnforceDependencies
    );
}

#[test]
fn parse_checker_setting_maps_strings() {
    assert_eq!(parse_checker_setting("false").unwrap(), CheckerSetting::False);
    assert_eq!(parse_checker_setting("true").unwrap(), CheckerSetting::True);
    assert_eq!(parse_checker_setting("strict").unwrap(), CheckerSetting::Strict);
    assert!(parse_checker_setting("").is_err());
}

#[test]
fn default_enforce_dependencies_is_false_string() {
    assert_eq!(default_enforce_dependencies(), "false");
    assert_eq!(
        parse_checker_setting(&default_enforce_dependencies()).unwrap(),
        CheckerSetting::False
    );
}

#[test]
fn source_location_default_is_origin() {
    let loc = SourceLocation::default();
    assert_eq!(loc.line, 0);
    assert_eq!(loc.column, 0);
}
