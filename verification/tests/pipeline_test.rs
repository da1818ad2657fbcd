use packs::cache::ContentCache;
use packs::pack_set::PackSet;
use packs::package_todo::PackageTodo;
use packs::reference_extractor::{
    autoload_paths_from_config, get_all_references, get_all_references_new, relative_of,
    ExtractedReference, PackageNames, ProcessedFile, Reference, UnresolvedReference,
};
use packs::resolver::ConstantResolver;
use packs::{CheckerSetting, Pack, SourceLocation};

fn mk_pack(name: &str) -> Pack {
    Pack {
        yml: format!("/app/{}/package.yml", name),
        name: String::from(name),
        relative_path: String::from(name),
        dependencies: Vec::new(),
        ignored_dependencies: Vec::new(),
        package_todo: PackageTodo::empty(),
        enforce_dependencies: CheckerSetting::False,
    }
}

fn assert_ref_eq(a: &Reference, b: &Reference) {
    assert_eq!(a.constant_name, b.constant_name);
    assert_eq!(a.defining_pack_name, b.defining_pack_name);
    assert_eq!(a.relative_defining_file, b.relative_defining_file);
    assert_eq!(a.referencing_pack_name, b.referencing_pack_name);
    assert_eq!(a.relative_referencing_file, b.relative_referencing_file);
    assert_eq!(a.source_location.line, b.source_location.line);
    assert_eq!(a.source_location.column, b.source_location.column);
}

fn sample_world() -> (PackSet, ConstantResolver, Vec<ProcessedFile>) {
    let pack_set = PackSet::build(vec![mk_pack("packs/foo"), mk_pack("packs/bar")]);
    let resolver = ConstantResolver::from_definitions(vec![(
        String::from("::Bar"),
        String::from("/app/packs/bar/app/models/bar.rb"),
    )]);
    let file = ProcessedFile {
        absolute_path: String::from("/app/packs/foo/app/services/foo.rb"),
        unresolved_references: vec![
            UnresolvedReference {
                name: String::from("Bar"),
                namespace_path: vec![String::from("Foo")],
                location: SourceLocation { line: 3, column: 7 },
            },
            UnresolvedReference {
                name: String::from("Missing"),
                namespace_path: Vec::new(),
                location: SourceLocation { line: 9, column: 1 },
            },
        ],
    };
    (pack_set, resolver, vec![file])
}

#[test]
fn resolver_searches_innermost_namespace_first() {
    let resolver = ConstantResolver::from_definitions(vec![
        (String::from("::Bar"), String::from("/app/packs/bar/app/models/bar.rb")),
        (String::from("::Foo::Bar"), String::from("/app/packs/foo/app/models/foo/bar.rb")),
    ]);
    let hit = resolver
        .resolve("Bar", &vec![String::from("Foo")])
        .unwrap();
    assert_eq!(hit.0, "::Foo::Bar");
    assert_eq!(hit.1, vec![String::from("/app/packs/foo/app/models/foo/bar.rb")]);
    // Without the nesting, the global definition is found.
    let global = resolver.resolve("Bar", &Vec::new()).unwrap();
    assert_eq!(global.0, "::Bar");
    // A name defined nowhere is unresolvable, not an error.
    assert!(resolver.resolve("Qux", &vec![String::from("Foo")]).is_none());
}

#[test]
fn pipeline_resolves_and_attaches_packs() {
    let (pack_set, resolver, files) = sample_world();
    let refs = get_all_references("/app", &pack_set, &resolver, &files);
    assert_eq!(refs.len(), 2);

    assert_eq!(refs[0].constant_name, "::Bar");
    assert_eq!(refs[0].defining_pack_name, Some(String::from("packs/bar")));
    assert_eq!(
        refs[0].relative_defining_file,
        Some(String::from("packs/bar/app/models/bar.rb"))
    );
    assert_eq!(refs[0].referencing_pack_name, "packs/foo");
    assert_eq!(refs[0].relative_referencing_file, "packs/foo/app/services/foo.rb");
    assert_eq!(refs[0].source_location.line, 3);
    assert_eq!(refs[0].source_location.column, 7);

    // The unresolvable usage is kept, with no defining pack.
    assert_eq!(refs[1].constant_name, "Missing");
    assert_eq!(refs[1].defining_pack_name, None);
    assert_eq!(refs[1].relative_defining_file, None);
    assert_eq!(refs[1].referencing_pack_name, "packs/foo");
}

#[test]
fn pipeline_skips_files_outside_every_pack() {
    let (pack_set, resolver, _) = sample_world();
    let stray = ProcessedFile {
        absolute_path: String::from("/elsewhere/script.rb"),
        unresolved_references: vec![UnresolvedReference {
            name: String::from("Bar"),
            namespace_path: Vec::new(),
            location: SourceLocation { line: 1, column: 1 },
        }],
    };
    let refs = get_all_references("/app", &pack_set, &resolver, &vec![stray]);
    assert_eq!(refs.len(), 0);
}

#[test]
fn warm_cache_run_equals_cold_run() {
    let (pack_set, resolver, files) = sample_world();
    let cold = get_all_references("/app", &pack_set, &resolver, &files);

    // Populate the cache with the extraction results, then serve from it.
    let mut cache = ContentCache::new();
    let fingerprint: u64 = 42;
    cache.store(
        files[0].absolute_path.clone(),
        fingerprint,
        files[0].unresolved_references.clone(),
    );
    let idx = cache
        .lookup(&files[0].absolute_path, fingerprint)
        .expect("warm cache must hit for an unchanged file");
    let served = ProcessedFile {
        absolute_path: files[0].absolute_path.clone(),
        unresolved_references: cache.entries[idx].2.clone(),
    };
    let warm = get_all_references("/app", &pack_set, &resolver, &vec![served]);

    assert_eq!(cold.len(), warm.len());
    for (a, b) in cold.iter().zip(warm.iter()) {
        assert_ref_eq(a, b);
    }
}

#[test]
fn cache_misses_on_changed_fingerprint() {
    let mut cache = ContentCache::new();
    cache.store(String::from("/app/a.rb"), 1, Vec::new());
    assert!(cache.lookup("/app/a.rb", 1).is_some());
    assert!(cache.lookup("/app/a.rb", 2).is_none());
    assert!(cache.lookup("/app/b.rb", 1).is_none());
    // Re-storing under a new fingerprint replaces the entry.
    cache.store(String::from("/app/a.rb"), 2, Vec::new());
    assert!(cache.lookup("/app/a.rb", 2).is_some());
    assert!(cache.lookup("/app/a.rb", 1).is_none());
    assert_eq!(cache.entries.len(), 1);
}

#[test]
fn find_pack_name_takes_longest_contained() {
    let pack_set = PackSet::build(vec![mk_pack("packs/foo"), mk_pack("packs/foo/bar")]);
    let names = PackageNames::new(&pack_set);
    assert_eq!(names.names, vec![String::from("packs/foo"), String::from("packs/foo/bar")]);
    let found = names.find_pack_name("packs/foo/bar/app/services/x.rb");
    assert_eq!(found, Some(String::from("packs/foo/bar")));
    let nothing = names.find_pack_name("lib/outside.rb");
    assert_eq!(nothing, Some(String::from(".")));
}

#[test]
fn extra_reference_fields_attaches_pack_names() {
    let pack_set = PackSet::build(vec![mk_pack("packs/foo"), mk_pack("packs/bar")]);
    let names = PackageNames::new(&pack_set);
    let fields = names.extra_reference_fields(
        "packs/foo/app/services/foo.rb",
        Some("packs/bar/app/models/bar.rb"),
    );
    assert_eq!(fields.referencing_pack_name, Some(String::from("packs/foo")));
    assert_eq!(fields.defining_pack_name, Some(String::from("packs/bar")));
    let no_def = names.extra_reference_fields("packs/foo/app/services/foo.rb", None);
    assert_eq!(no_def.defining_pack_name, None);
}

#[test]
fn autoload_paths_merge_and_normalize() {
    let defaults = vec![String::from("/app/packs/foo/app/models")];
    let customs = vec![
        (String::from("/app/lib"), String::from("::Object")),
        (String::from("/app/packs/foo/app/models"), String::from("::Foo")),
    ];
    let map = autoload_paths_from_config(defaults, customs);
    assert_eq!(map.len(), 2);
    assert_eq!(map[0].0, "/app/packs/foo/app/models");
    assert_eq!(map[0].1, "::Foo");
    assert_eq!(map[1].0, "/app/lib");
    assert_eq!(map[1].1, "");
}

#[test]
fn delegated_extraction_keeps_only_pack_owned_records() {
    let records = vec![
        ExtractedReference {
            constant_name: String::from("::Bar"),
            relative_defining_file: Some(String::from("packs/bar/app/models/bar.rb")),
            relative_referencing_file: String::from("packs/foo/app/services/foo.rb"),
            source_location: SourceLocation { line: 3, column: 7 },
            referencing_pack_name: Some(String::from("packs/foo")),
            defining_pack_name: Some(String::from("packs/bar")),
        },
        ExtractedReference {
            constant_name: String::from("::Loose"),
            relative_defining_file: None,
            relative_referencing_file: String::from("lib/outside.rb"),
            source_location: SourceLocation { line: 1, column: 1 },
            referencing_pack_name: None,
            defining_pack_name: None,
        },
    ];
    let refs = get_all_references_new(records);
    assert_eq!(refs.len(), 1);
    assert_eq!(refs[0].constant_name, "::Bar");
    assert_eq!(refs[0].referencing_pack_name, "packs/foo");
    assert_eq!(refs[0].defining_pack_name, Some(String::from("packs/bar")));
}

#[test]
fn relative_of_strips_root_prefix() {
    assert_eq!(
        relative_of("/app", "/app/packs/foo/app/services/foo.rb"),
        "packs/foo/app/services/foo.rb"
    );
    assert_eq!(relative_of("/app", "/elsewhere/x.rb"), "/elsewhere/x.rb");
    assert_eq!(relative_of("/app", "/apples/x.rb"), "/apples/x.rb");
}

#[test]
fn convention_resolver_names_files_from_paths() {
    let roots = vec![
        (String::from("/app/packs/foo/app/services"), String::from("")),
        (String::from("/app/packs/admin/app/models"), String::from("::Admin")),
    ];
    let files = vec![
        String::from("/app/packs/foo/app/services/foo_bar/baz_qux.rb"),
        String::from("/app/packs/admin/app/models/user.rb"),
        String::from("/elsewhere/x.rb"),
    ];
    let resolver = ConstantResolver::from_autoload_paths(&roots, &files);
    assert_eq!(resolver.definitions.len(), 2);
    assert_eq!(resolver.definitions[0].0, "::FooBar::BazQux");
    assert_eq!(resolver.definitions[0].1, files[0]);
    assert_eq!(resolver.definitions[1].0, "::Admin::User");
    assert_eq!(resolver.definitions[1].1, files[1]);
    let hit = resolver
        .resolve("BazQux", &vec![String::from("FooBar")])
        .unwrap();
    assert_eq!(hit.0, "::FooBar::BazQux");
}
