use packs::package_todo::{PackageTodo, ViolationGroup};

fn sample_ledger() -> PackageTodo {
    let bar_group = ViolationGroup {
        violation_types: vec![String::from("dependency")],
        files: vec![String::from("packs/foo/app/services/foo.rb")],
    };
    let baz_group = ViolationGroup {
        violation_types: vec![String::from("dependency"), String::from("privacy")],
        files: vec![String::from("packs/foo/app/services/foo.rb")],
    };
    PackageTodo {
        violations_by_defining_pack: vec![(
            String::from("packs/bar"),
            vec![
                (String::from("::Bar"), bar_group),
                (String::from("::Baz"), baz_group),
            ],
        )],
    }
}

fn assert_todo_eq(a: &PackageTodo, b: &PackageTodo) {
    assert_eq!(
        a.violations_by_defining_pack.len(),
        b.violations_by_defining_pack.len()
    );
    for (ea, eb) in a
        .violations_by_defining_pack
        .iter()
        .zip(b.violations_by_defining_pack.iter())
    {
        assert_eq!(ea.0, eb.0);
        assert_eq!(ea.1.len(), eb.1.len());
        for (ca, cb) in ea.1.iter().zip(eb.1.iter()) {
            assert_eq!(ca.0, cb.0);
            assert_eq!(ca.1.violation_types, cb.1.violation_types);
            assert_eq!(ca.1.files, cb.1.files);
        }
    }
}

#[test]
fn serialize_emits_expected_lines() {
    let lines = sample_ledger().serialize_lines();
    let expected = vec![
        "packs/bar:",
        "  \"::Bar\":",
        "    violations:",
        "    - dependency",
        "    files:",
        "    - packs/foo/app/services/foo.rb",
        "  \"::Baz\":",
        "    violations:",
        "    - dependency",
        "    - privacy",
        "    files:",
        "    - packs/foo/app/services/foo.rb",
    ];
    assert_eq!(lines, expected);
}

#[test]
fn serialize_then_deserialize_round_trips() {
    let ledger = sample_ledger();
    let lines = ledger.serialize_lines();
    let back = PackageTodo::deserialize_lines(&lines).expect("round trip must parse");
    assert_todo_eq(&ledger, &back);
}

#[test]
fn empty_ledger_round_trips() {
    let ledger = PackageTodo::empty();
    let lines = ledger.serialize_lines();
    assert!(lines.is_empty());
    let back = PackageTodo::deserialize_lines(&lines).expect("empty ledger must parse");
    assert_eq!(back.violations_by_defining_pack.len(), 0);
}

#[test]
fn deserialize_rejects_malformed_lines() {
    // A constant key with no open pack.
    assert!(PackageTodo::deserialize_lines(&vec![String::from("  \"::Bar\":")]).is_none());
    // A pack whose constant never declares its sections.
    assert!(PackageTodo::deserialize_lines(&vec![
        String::from("packs/bar:"),
        String::from("  \"::Bar\":"),
        String::from("    - dependency"),
    ])
    .is_none());
    // A truncated ledger that stops inside the violations section.
    assert!(PackageTodo::deserialize_lines(&vec![
        String::from("packs/bar:"),
        String::from("  \"::Bar\":"),
        String::from("    violations:"),
    ])
    .is_none());
}
