use packs::pack_set::PackSet;
use packs::package_todo::PackageTodo;
use packs::{CheckerSetting, Pack};

fn mk_pack(name: &str, yml: &str) -> Pack {
    Pack {
        yml: String::from(yml),
        name: String::from(name),
        relative_path: String::from(name),
        dependencies: Vec::new(),
        ignored_dependencies: Vec::new(),
        package_todo: PackageTodo::empty(),
        enforce_dependencies: CheckerSetting::False,
    }
}

fn fixture_pack(name: &str) -> Pack {
    let yml = format!("tests/fixtures/simple_app/{}/package.yml", name);
    mk_pack(name, &yml)
}

#[test]
fn test_for_file() {
    let pack_set = PackSet::build(vec![fixture_pack("packs/foo"), fixture_pack("packs/bar")]);
    let absolute_file_path = "tests/fixtures/simple_app/packs/foo/app/services/foo.rb";
    assert_eq!(
        Some(String::from("packs/foo")),
        pack_set.for_file(absolute_file_path)
    );
}

#[test]
fn nested_pack_shadows_ancestor() {
    let pack_set = PackSet::build(vec![fixture_pack("packs/foo"), fixture_pack("packs/foo/bar")]);
    // The longer name sorts first.
    assert_eq!(pack_set.packs[0].name, "packs/foo/bar");
    assert_eq!(pack_set.packs[1].name, "packs/foo");
    // A file under the nested pack resolves to it, never to the ancestor.
    let owner = pack_set.for_file("tests/fixtures/simple_app/packs/foo/bar/app/services/x.rb");
    assert_eq!(owner, Some(String::from("packs/foo/bar")));
}

#[test]
fn for_file_no_owner() {
    let pack_set = PackSet::build(vec![fixture_pack("packs/foo")]);
    assert_eq!(
        pack_set.for_file("tests/fixtures/simple_app/lib/outside.rb"),
        None
    );
}

#[test]
fn for_file_prefix_not_substring() {
    // A file under packs/foo_extra must not match pack packs/foo.
    let pack_set = PackSet::build(vec![fixture_pack("packs/foo")]);
    assert_eq!(
        pack_set.for_file("tests/fixtures/simple_app/packs/foo_extra/x.rb"),
        None
    );
}

#[test]
fn build_sorts_by_length_then_name() {
    let pack_set = PackSet::build(vec![
        fixture_pack("packs/b"),
        fixture_pack("packs/a"),
        fixture_pack("packs/long_one"),
    ]);
    assert_eq!(pack_set.packs[0].name, "packs/long_one");
    assert_eq!(pack_set.packs[1].name, "packs/a");
    assert_eq!(pack_set.packs[2].name, "packs/b");
}

#[test]
fn build_dedups_by_name_last_write_wins() {
    let mut first = fixture_pack("packs/foo");
    first.dependencies = vec![String::from("packs/old")];
    let mut second = fixture_pack("packs/foo");
    second.dependencies = vec![String::from("packs/new")];
    let pack_set = PackSet::build(vec![first, second]);
    assert_eq!(pack_set.packs.len(), 1);
    assert_eq!(pack_set.packs[0].name, "packs/foo");
    assert_eq!(pack_set.packs[0].dependencies, vec![String::from("packs/new")]);
}

#[test]
fn for_pack_finds_by_name() {
    let pack_set = PackSet::build(vec![fixture_pack("packs/foo"), fixture_pack("packs/bar")]);
    let pack = pack_set.for_pack("packs/bar");
    assert_eq!(pack.name, "packs/bar");
}
