use kryzhen::file::{apply_implicit_deps, is_migration_file, load_files, SourceFile};
use kryzhen::graph::topo_sort;
use kryzhen::ledger::AppliedMigrations;
use kryzhen::types::{checksum, Error, Migration, MigrationName};
use kryzhen::validation::{check_checksums, check_duplicate_names};
use sha2::{Digest, Sha256};

fn mig(name: &str, requires: &[&str]) -> Migration {
    Migration {
        name: MigrationName(name.into()),
        description: String::new(),
        requires: requires
            .iter()
            .map(|s| MigrationName(s.to_string()))
            .collect(),
        script: String::new(),
        checksum: checksum(""),
    }
}

fn with_body(name: &str, body: &str) -> Migration {
    Migration {
        name: MigrationName(name.into()),
        description: String::new(),
        requires: vec![],
        script: body.into(),
        checksum: checksum(body),
    }
}

fn names(ms: &[Migration]) -> Vec<String> {
    ms.iter().map(|m| m.name.0.clone()).collect()
}

fn source(label: &str, text: &str) -> SourceFile {
    SourceFile {
        label: label.to_string(),
        text: text.to_string(),
    }
}

// ---------------------------------------------------------------------------
// Names, errors and checksums
// ---------------------------------------------------------------------------

#[test]
fn migration_name_displays_inner_string() {
    assert_eq!(
        MigrationName("tables/phone".into()).to_string(),
        "tables/phone"
    );
}

#[test]
fn error_messages_render() {
    let e = Error::DuplicateName(MigrationName("a".into()));
    assert_eq!(e.to_string(), "duplicate migration name: a");
}

#[test]
fn every_error_has_its_message() {
    let name = |s: &str| MigrationName(s.to_string());
    let parse = Error::Parse {
        file: "a.sql".into(),
        message: "bad".into(),
    };
    assert_eq!(parse.to_string(), "parse error in a.sql: bad");
    let dangling = Error::DanglingDependency {
        migration: name("a"),
        missing: name("b"),
    };
    assert_eq!(
        dangling.to_string(),
        "migration a requires b, which does not exist"
    );
    let cycle = Error::Cycle(vec![name("a"), name("b \"c\"")]);
    assert_eq!(
        cycle.to_string(),
        format!(
            "dependency cycle detected involving: {:?}",
            vec![name("a"), name("b \"c\"")]
        )
    );
    assert_eq!(
        Error::Cycle(vec![]).to_string(),
        "dependency cycle detected involving: []"
    );
    assert_eq!(
        Error::ChecksumMismatch(name("a")).to_string(),
        "checksum mismatch for already-applied migration [a]: file content changed — \
         run `kryzhen hack fix-checksum a` to update"
    );
    let corrupt = Error::CorruptChecksum {
        name: name("a"),
        len: 1030,
    };
    assert_eq!(
        corrupt.to_string(),
        "migration a has a 1030-byte checksum in the database; expected 32"
    );
}

#[test]
fn checksum_trims_surrounding_whitespace() {
    assert_eq!(checksum("  SELECT 1;  "), checksum("SELECT 1;"));
    assert_eq!(checksum("\n\tSELECT 1;\n"), checksum("SELECT 1;"));
}

#[test]
fn checksum_is_plain_sha256_of_trimmed_body() {
    let mut h = Sha256::new();
    h.update(b"SELECT 1;"); // exact trimmed bytes, no hidden transformation
    let expected: [u8; 32] = h.finalize().into();
    assert_eq!(checksum("  SELECT 1;  "), expected);
}

#[test]
fn checksum_of_the_empty_body() {
    assert_eq!(
        checksum(" \n")[..4],
        [0xe3, 0xb0, 0xc4, 0x42],
    );
    assert_ne!(checksum("a b"), checksum("ab"));
}

#[test]
fn white_space_is_that_of_unicode() {
    for u in 0..=0x10ffff_u32 {
        if let Some(c) = char::from_u32(u) {
            assert_eq!(kryzhen::text::char_is_whitespace(c), c.is_whitespace());
            assert_eq!(
                kryzhen::text::char_is_key_char(c),
                c.is_alphanumeric() || c == '_'
            );
        }
    }
}

// ---------------------------------------------------------------------------
// Files
// ---------------------------------------------------------------------------

#[test]
fn first_block_unchanged_others_require_predecessor() {
    let out = apply_implicit_deps(vec![mig("a", &[]), mig("b", &[]), mig("c", &[])]);
    assert!(out[0].requires.is_empty());
    assert_eq!(out[1].requires, vec![MigrationName("a".into())]);
    assert_eq!(out[2].requires, vec![MigrationName("b".into())]);
}

#[test]
fn implicit_merges_with_explicit_without_duplication() {
    let out = apply_implicit_deps(vec![mig("a", &[]), mig("b", &["x"])]);
    assert_eq!(
        out[1].requires,
        vec![MigrationName("x".into()), MigrationName("a".into())]
    );
}

#[test]
fn implicit_not_duplicated_if_already_explicit() {
    let out = apply_implicit_deps(vec![mig("a", &[]), mig("b", &["a"])]);
    assert_eq!(out[1].requires, vec![MigrationName("a".into())]);
}

#[test]
fn implicit_deps_applied_twice_change_nothing() {
    let once = apply_implicit_deps(vec![mig("a", &["z"]), mig("b", &[]), mig("c", &["a"])]);
    let twice = apply_implicit_deps(once.clone());
    assert_eq!(once, twice);
}

#[test]
fn load_dir_reads_sql_and_applies_implicit_deps() {
    let migs = load_files(&[source(
        "two.sql",
        "-- #!migration\n-- name: \"a\",\n-- description: \"x\";\nSELECT 1;\n\
         -- #!migration\n-- name: \"b\",\n-- description: \"y\";\nSELECT 2;\n",
    )])
    .unwrap();
    assert_eq!(migs.len(), 2);
    assert_eq!(migs[1].requires, vec![MigrationName("a".into())]);
}

#[test]
fn implicit_dep_does_not_duplicate_explicit_predecessor() {
    let migs = load_files(&[source(
        "tables/phone.sql",
        "-- #!migration\n-- name: \"tables/phone\",\n-- description: \"Phone numbers.\",\n\
         -- requires: [\"tables/person\"];\nCREATE TABLE phone (id bigint);\n\n\
         -- #!migration\n-- name: \"tables/phone/name\",\n-- description: \"Adds a name.\",\n\
         -- requires: [\"tables/phone\"];\nALTER TABLE phone ADD COLUMN name text;\n",
    )])
    .unwrap();
    let phone_name = migs
        .iter()
        .find(|m| m.name == MigrationName("tables/phone/name".into()))
        .expect("tables/phone/name migration present");
    assert_eq!(
        phone_name.requires,
        vec![MigrationName("tables/phone".into())],
        "explicit predecessor must not be duplicated by the implicit in-file dep"
    );
}

#[test]
fn mallard_test_block_is_rejected() {
    let err = load_files(&[
        source(
            "schema.sql",
            "-- #!migration\n-- name: \"schema\",\n-- description: \"s\";\nCREATE SCHEMA c;\n",
        ),
        source(
            "tests/person.sql",
            "-- #!test\n-- name: \"tests/person\",\n-- description: \"t\";\nSELECT 1;\n",
        ),
    ])
    .unwrap_err();
    assert!(
        matches!(err, kryzhen::Error::Parse { .. }),
        "a #!test block must be a parse error, got: {err:?}"
    );
}

#[test]
fn files_do_not_depend_on_each_other() {
    let block = |n: &str| format!("-- #!migration\n-- name: \"{n}\",\n-- description: \"x\";\nSELECT 1;\n");
    let migs = load_files(&[
        source("1.sql", &block("a")),
        source("2.sql", &(block("b") + &block("c"))),
        source("3.sql", ""),
    ])
    .unwrap();
    assert_eq!(names(&migs), vec!["a", "b", "c"]);
    assert!(migs[1].requires.is_empty());
    assert_eq!(migs[2].requires, vec![MigrationName("b".into())]);
}

#[test]
fn first_file_that_does_not_parse_is_reported() {
    match load_files(&[source("1.sql", ""), source("2.sql", "x"), source("3.sql", "y")]) {
        Err(Error::Parse { file, .. }) => assert_eq!(file, "2.sql"),
        _ => panic!("a parse error was due"),
    }
}

#[test]
fn migration_files_have_the_extension_sql() {
    assert!(is_migration_file("a.sql"));
    assert!(is_migration_file("a.b.sql"));
    assert!(!is_migration_file(".sql"));
    assert!(!is_migration_file("sql"));
    assert!(!is_migration_file("a.SQL"));
    assert!(!is_migration_file("a.sql.bak"));
}

// ---------------------------------------------------------------------------
// Order
// ---------------------------------------------------------------------------

#[test]
fn orders_dependencies_before_dependents() {
    let out = topo_sort(vec![mig("b", &["a"]), mig("a", &[])]).unwrap();
    assert_eq!(names(&out), vec!["a", "b"]);
}

#[test]
fn independent_roots_emitted_smallest_first() {
    // `a` and `z` have no dependencies, so both are ready from the start; the
    // deterministic tie-break must emit the lexicographically smaller name first.
    let out = topo_sort(vec![mig("z", &[]), mig("a", &[])]).unwrap();
    assert_eq!(names(&out), vec!["a", "z"]);
}

#[test]
fn diamond_orders_root_first_and_sink_last() {
    let out = topo_sort(vec![
        mig("d", &["b", "c"]),
        mig("b", &["a"]),
        mig("c", &["a"]),
        mig("a", &[]),
    ])
    .unwrap();
    let n = names(&out);
    let pos = |x: &str| n.iter().position(|y| y == x).unwrap();
    assert!(pos("a") < pos("b") && pos("a") < pos("c"));
    assert!(pos("b") < pos("d") && pos("c") < pos("d"));
}

#[test]
fn detects_cycle() {
    let err = topo_sort(vec![mig("a", &["b"]), mig("b", &["a"])]).unwrap_err();
    assert!(matches!(err, Error::Cycle(_)));
}

#[test]
fn dangling_dependency_errors() {
    let err = topo_sort(vec![mig("a", &["missing"])]).unwrap_err();
    assert!(matches!(err, Error::DanglingDependency { .. }));
}

#[test]
fn order_does_not_depend_on_the_input_order() {
    let ms = vec![
        mig("e", &["b", "d"]),
        mig("a", &["d"]),
        mig("d", &[]),
        mig("b", &[]),
        mig("c", &["a", "a"]),
    ];
    let mut reversed = ms.clone();
    reversed.reverse();
    let out = topo_sort(ms).unwrap();
    assert_eq!(names(&out), vec!["b", "d", "a", "c", "e"]);
    assert_eq!(names(&topo_sort(reversed).unwrap()), names(&out));
}

#[test]
fn cycle_names_what_cannot_be_placed() {
    let err = topo_sort(vec![
        mig("root", &[]),
        mig("a", &["b"]),
        mig("b", &["a", "root"]),
        mig("after", &["a"]),
        mig("own", &["own"]),
    ])
    .unwrap_err();
    match err {
        Error::Cycle(names) => {
            let mut names: Vec<String> = names.into_iter().map(|n| n.0).collect();
            names.sort();
            assert_eq!(names, vec!["a", "after", "b", "own"]);
        }
        other => panic!("unexpected error {other:?}"),
    }
}

#[test]
fn last_of_two_with_one_name_counts() {
    let out = topo_sort(vec![mig("a", &["gone"]), mig("a", &[])]).unwrap();
    assert_eq!(names(&out), vec!["a"]);
    assert!(out[0].requires.is_empty());
}

#[test]
fn names_are_ordered_by_their_characters() {
    let out = topo_sort(vec![
        mig("b", &[]),
        mig("é", &[]),
        mig("B", &[]),
        mig("ab", &[]),
        mig("a", &[]),
        mig("𐍈", &[]),
        mig("\u{ffff}", &[]),
    ])
    .unwrap();
    let mut expected = names(&out);
    expected.sort();
    assert_eq!(names(&out), expected);
}

// ---------------------------------------------------------------------------
// Validation
// ---------------------------------------------------------------------------

#[test]
fn duplicate_names_rejected() {
    let err = check_duplicate_names(&[with_body("a", "x"), with_body("a", "y")]).unwrap_err();
    assert!(matches!(err, Error::DuplicateName(_)));
}

#[test]
fn unique_names_ok() {
    assert!(check_duplicate_names(&[with_body("a", "x"), with_body("b", "y")]).is_ok());
}

#[test]
fn first_repeated_name_is_reported() {
    let ms: Vec<Migration> = ["a", "b", "c", "b", "a"].iter().map(|n| mig(n, &[])).collect();
    match check_duplicate_names(&ms) {
        Err(Error::DuplicateName(name)) => assert_eq!(name.0, "b"),
        _ => panic!("a duplicate was due"),
    }
}

#[test]
fn matching_checksum_ok() {
    let disk = [with_body("a", "SELECT 1;")];
    let mut applied = AppliedMigrations::new();
    applied.insert(MigrationName("a".into()), checksum("SELECT 1;"));
    assert!(check_checksums(&disk, &applied).is_ok());
}

#[test]
fn changed_checksum_rejected() {
    let disk = [with_body("a", "SELECT 2;")];
    let mut applied = AppliedMigrations::new();
    applied.insert(MigrationName("a".into()), checksum("SELECT 1;"));
    let err = check_checksums(&disk, &applied).unwrap_err();
    assert!(matches!(err, Error::ChecksumMismatch(_)));
}

#[test]
fn unapplied_migration_ignored_by_checksum_check() {
    let disk = [with_body("new", "SELECT 9;")];
    let applied = AppliedMigrations::new();
    assert!(check_checksums(&disk, &applied).is_ok());
}

#[test]
fn first_changed_migration_is_reported() {
    let disk = [with_body("a", "1"), with_body("b", "2"), with_body("c", "3")];
    let mut applied = AppliedMigrations::new();
    applied.insert(MigrationName("a".into()), checksum("1"));
    applied.insert(MigrationName("b".into()), checksum("x"));
    applied.insert(MigrationName("c".into()), checksum("y"));
    match check_checksums(&disk, &applied) {
        Err(Error::ChecksumMismatch(name)) => assert_eq!(name.0, "b"),
        _ => panic!("a mismatch was due"),
    }
}
