use kryzhen::connection::{
    connect_attempts, parse_sslmode, pgpass_lookup, unknown_mode_message, SslMode, TlsPolicy,
};
use kryzhen::hack::{
    dependents_message, dependents_of, find_migration, not_found_message, unsatisfied_message,
};
use kryzhen::ledger::{
    collect_names, decode_applied, AppliedMigrations, AppliedNames, AppliedRow, ChecksumRow,
};
use kryzhen::messages::{
    added_report, conversion_report, convert_phase_report, deleted_report, fixed_report,
    import_phase_report, import_report, run_report,
};
use kryzhen::postgres::{needs_upgrade, quote_ident, search_path_statement, DEFAULT_SCHEMA};
use kryzhen::run::{plan, prepare};
use kryzhen::sqlx_import::{Receipt, ReceiptEntry};
use kryzhen::types::{checksum, cycle_message, Error, Migration, MigrationName};
use kryzhen::{hack_add, hack_delete, hack_fix_checksum, HackError, Report};

fn mig(name: &str, requires: &[&str], body: &str) -> Migration {
    Migration {
        name: MigrationName(name.into()),
        description: format!("desc of {name}"),
        requires: requires
            .iter()
            .map(|s| MigrationName(s.to_string()))
            .collect(),
        script: body.into(),
        checksum: checksum(body),
    }
}

fn stored(name: &str, body: &str) -> ChecksumRow {
    ChecksumRow {
        name: name.to_string(),
        checksum: checksum(body).to_vec(),
    }
}

fn applied(name: &str, requires: &[&str]) -> AppliedRow {
    AppliedRow {
        name: MigrationName(name.into()),
        requires: requires
            .iter()
            .map(|s| MigrationName(s.to_string()))
            .collect(),
    }
}

fn names(ms: &[Migration]) -> Vec<String> {
    ms.iter().map(|m| m.name.0.clone()).collect()
}

// ---------------------------------------------------------------------------
// Runs
// ---------------------------------------------------------------------------

#[test]
fn run_applies_in_dependency_order_and_is_idempotent() {
    let ms = [mig("b", &["a"], "CREATE TABLE b ();"), mig("a", &[], "CREATE TABLE a ();")];
    let ordered = prepare(&ms).unwrap();
    assert_eq!(names(&ordered), vec!["a", "b"]);
    let mut sums = AppliedMigrations::new();
    let mut here = AppliedNames::new();
    let first = plan(&ordered, &sums, &here, false).unwrap();
    assert_eq!(first.report.applied, vec!["a", "b"]);
    assert!(first.report.already_applied.is_empty());
    assert_eq!(names(&first.to_apply), vec!["a", "b"]);
    for m in first.to_apply {
        sums.insert(m.name.clone(), m.checksum);
        here.insert(m.name);
    }
    let second = plan(&ordered, &sums, &here, false).unwrap();
    assert!(second.report.applied.is_empty());
    assert!(second.to_apply.is_empty());
    assert_eq!(second.report.already_applied, vec!["a", "b"]);
}

#[test]
fn dry_run_reports_and_applies_nothing() {
    let ordered = prepare(&[mig("a", &[], "1")]).unwrap();
    let p = plan(&ordered, &AppliedMigrations::new(), &AppliedNames::new(), true).unwrap();
    assert_eq!(p.report.applied, vec!["a"]);
    assert!(p.to_apply.is_empty());
}

#[test]
fn lagging_schema_catches_up() {
    let ordered = prepare(&[mig("a", &[], "1"), mig("b", &["a"], "2")]).unwrap();
    let mut sums = AppliedMigrations::new();
    sums.insert(MigrationName("a".into()), checksum("1"));
    sums.insert(MigrationName("b".into()), checksum("2"));
    let there = collect_names(vec!["a".to_string()]);
    let p = plan(&ordered, &sums, &there, false).unwrap();
    assert_eq!(p.report.applied, vec!["b"]);
    assert_eq!(p.report.already_applied, vec!["a"]);
}

#[test]
fn edited_migration_stops_the_run() {
    let ordered = prepare(&[mig("a", &[], "1"), mig("b", &[], "edited")]).unwrap();
    let mut sums = AppliedMigrations::new();
    sums.insert(MigrationName("b".into()), checksum("2"));
    match plan(&ordered, &sums, &AppliedNames::new(), false) {
        Err(Error::ChecksumMismatch(name)) => assert_eq!(name.0, "b"),
        _ => panic!("a mismatch was due"),
    }
}

#[test]
fn fixed_checksum_lets_the_run_go_on() {
    let ordered = prepare(&[mig("a", &[], "edited"), mig("b", &[], "2")]).unwrap();
    let here = AppliedNames::new();
    let mut sums = AppliedMigrations::new();
    sums.insert(MigrationName("a".into()), checksum("1"));
    assert!(plan(&ordered, &sums, &here, false).is_err());
    let fixed = hack_fix_checksum(&ordered, "a", &[stored("a", "1")]).unwrap();
    sums.insert(fixed.name.clone(), fixed.checksum);
    assert!(plan(&ordered, &sums, &here, false).is_ok());
}

#[test]
fn added_migration_is_not_applied() {
    let ordered = prepare(&[mig("a", &[], "1"), mig("b", &["a"], "2")]).unwrap();
    let here = collect_names(vec!["a".to_string()]);
    let p = plan(&ordered, &AppliedMigrations::new(), &here, false).unwrap();
    assert_eq!(names(&p.to_apply), vec!["b"]);
    let none = collect_names(vec![]);
    let p = plan(&ordered, &AppliedMigrations::new(), &none, false).unwrap();
    assert_eq!(names(&p.to_apply), vec!["a", "b"]);
}

#[test]
fn pending_migrations_follow_what_they_require() {
    let ordered = prepare(&[
        mig("a", &["z"], ""),
        mig("m", &[], ""),
        mig("z", &["m"], ""),
        mig("b", &["a", "m"], ""),
    ])
    .unwrap();
    let here = collect_names(vec!["m".to_string()]);
    let p = plan(&ordered, &AppliedMigrations::new(), &here, false).unwrap();
    assert_eq!(p.report.applied, vec!["z", "a", "b"]);
    assert_eq!(p.report.already_applied, vec!["m"]);
}

#[test]
fn preparing_reports_each_error() {
    assert!(matches!(
        prepare(&[mig("a", &["x"], ""), mig("a", &[], "")]),
        Err(Error::DuplicateName(n)) if n.0 == "a"
    ));
    assert!(matches!(
        prepare(&[mig("a", &["x"], "")]),
        Err(Error::DanglingDependency { migration, missing }) if migration.0 == "a" && missing.0 == "x"
    ));
    assert!(matches!(prepare(&[mig("a", &["a"], "")]), Err(Error::Cycle(_))));
    assert!(prepare(&[]).unwrap().is_empty());
}

#[test]
fn report_starts_empty() {
    let r = Report::default();
    assert!(r.applied.is_empty() && r.already_applied.is_empty());
}

// ---------------------------------------------------------------------------
// What the database holds
// ---------------------------------------------------------------------------

#[test]
fn stored_checksums_are_decoded() {
    let rows = [stored("a", "1"), stored("b", "2"), stored("a", "3")];
    let sums = decode_applied(&rows).unwrap();
    assert_eq!(sums.len(), 2);
    assert!(!sums.is_empty());
    assert_eq!(sums.get(&MigrationName("a".into())), Some(checksum("3")));
    assert_eq!(sums.get(&MigrationName("c".into())), None);
    assert!(sums.contains_key(&MigrationName("b".into())));
    assert!(decode_applied(&[]).unwrap().is_empty());
}

#[test]
fn corrupt_checksum_is_an_error() {
    let rows = [
        stored("a", "1"),
        ChecksumRow {
            name: "b".to_string(),
            checksum: vec![0; 31],
        },
        ChecksumRow {
            name: "c".to_string(),
            checksum: vec![],
        },
    ];
    assert!(matches!(
        decode_applied(&rows),
        Err(Error::CorruptChecksum { name, len: 31 }) if name.0 == "b"
    ));
}

#[test]
fn older_ledgers_are_upgraded() {
    assert!(needs_upgrade(0));
    assert!(!needs_upgrade(1));
    assert!(!needs_upgrade(2));
}

#[test]
fn schema_names_are_quoted() {
    assert_eq!(DEFAULT_SCHEMA, "public");
    assert_eq!(quote_ident("tenant_a"), "\"tenant_a\"");
    assert_eq!(quote_ident("a\"b\"\""), "\"a\"\"b\"\"\"\"\"");
    assert_eq!(quote_ident(""), "\"\"");
    assert_eq!(
        search_path_statement("tenant a"),
        "SET LOCAL search_path TO \"tenant a\""
    );
}

// ---------------------------------------------------------------------------
// Escape hatches
// ---------------------------------------------------------------------------

#[test]
fn add_needs_all_requirements() {
    let ms = [mig("a", &[], "1"), mig("b", &["a", "c"], "2")];
    let m = hack_add(&ms, "b", &[stored("a", "1"), stored("c", "3")]).unwrap();
    assert_eq!(m.name.0, "b");
    assert_eq!(m.script, "2");
    match hack_add(&ms, "b", &[stored("a", "1")]) {
        Err(HackError::UnsatisfiedRequires { name, missing }) => {
            assert_eq!((name.as_str(), missing.as_str()), ("b", "c"));
        }
        _ => panic!("an unmet requirement was due"),
    }
    assert!(matches!(hack_add(&ms, "x", &[]), Err(HackError::NotFound(n)) if n == "x"));
    let corrupt = ChecksumRow {
        name: "a".to_string(),
        checksum: vec![1],
    };
    assert!(matches!(hack_add(&ms, "b", &[corrupt]), Err(HackError::Core(_))));
}

#[test]
fn first_migration_of_a_name_is_found() {
    let ms = [mig("a", &[], "1"), mig("a", &[], "2")];
    assert_eq!(find_migration(&ms, "a").unwrap().script, "1");
    assert!(matches!(find_migration(&ms, "b"), Err(HackError::NotFound(_))));
}

#[test]
fn fix_checksum_needs_an_applied_migration() {
    let ms = [mig("a", &[], "new")];
    assert_eq!(hack_fix_checksum(&ms, "a", &[stored("a", "old")]).unwrap().script, "new");
    assert!(matches!(hack_fix_checksum(&ms, "a", &[]), Err(HackError::NotFound(n)) if n == "a"));
    assert!(matches!(
        hack_fix_checksum(&ms, "b", &[stored("b", "1")]),
        Err(HackError::NotFound(n)) if n == "b"
    ));
}

#[test]
fn delete_is_refused_while_something_depends() {
    let rows = [applied("a", &[]), applied("b", &["a"]), applied("c", &["b", "a"])];
    match hack_delete("a", &rows) {
        Err(HackError::HasDependents { name, dependents }) => {
            assert_eq!(name, "a");
            let mut dependents = dependents;
            dependents.sort();
            assert_eq!(dependents, vec!["b", "c"]);
        }
        _ => panic!("dependents were due"),
    }
    assert_eq!(hack_delete("c", &rows).unwrap().0, "c");
    assert_eq!(hack_delete("unknown", &rows).unwrap().0, "unknown");
    assert_eq!(hack_delete("own", &[applied("own", &["own"])]).unwrap().0, "own");
}

#[test]
fn later_row_of_a_name_counts() {
    let rows = [applied("b", &["a"]), applied("b", &[]), applied("c", &[]), applied("c", &["a"])];
    assert_eq!(dependents_of(&rows, "a"), vec!["c"]);
}

#[test]
fn hack_errors_have_their_messages() {
    let s = |t: &str| t.to_string();
    assert_eq!(
        HackError::NotFound(s("a\"b")).to_string(),
        "migration \"a\\\"b\" not found in the supplied migration list"
    );
    assert_eq!(
        HackError::UnsatisfiedRequires {
            name: s("a"),
            missing: s("b")
        }
        .to_string(),
        "cannot add \"a\": required migration \"b\" is not yet applied"
    );
    assert_eq!(
        HackError::HasDependents {
            name: s("a"),
            dependents: vec![s("b"), s("c")]
        }
        .to_string(),
        "cannot delete \"a\": it is required by applied migration(s): [\"b\", \"c\"]"
    );
    assert_eq!(
        HackError::Core(Error::DuplicateName(MigrationName(s("a")))).to_string(),
        "duplicate migration name: a"
    );
}

#[test]
fn messages_hold_what_is_shown() {
    let items = vec!["x".to_string(), "y".to_string()];
    assert_eq!(not_found_message("<a>"), "migration <a> not found in the supplied migration list");
    assert_eq!(
        unsatisfied_message("<a>", "<b>"),
        "cannot add <a>: required migration <b> is not yet applied"
    );
    assert_eq!(
        dependents_message("<a>", &items),
        "cannot delete <a>: it is required by applied migration(s): [x, y]"
    );
    assert_eq!(cycle_message(&items), "dependency cycle detected involving: [x, y]");
    assert_eq!(
        unknown_mode_message("<m>"),
        "unknown sslmode <m>; use disable, prefer, require, verify-ca, or verify-full"
    );
}

// ---------------------------------------------------------------------------
// Connections
// ---------------------------------------------------------------------------

#[test]
fn ssl_modes_have_their_names() {
    assert_eq!(parse_sslmode("disable"), Ok(SslMode::Disable));
    assert_eq!(parse_sslmode("prefer"), Ok(SslMode::Prefer));
    assert_eq!(parse_sslmode("require"), Ok(SslMode::Require));
    assert_eq!(parse_sslmode("verify-ca"), Ok(SslMode::VerifyCa));
    assert_eq!(parse_sslmode("verify-full"), Ok(SslMode::VerifyFull));
    assert_eq!(
        parse_sslmode("Disable").unwrap_err(),
        "unknown sslmode \"Disable\"; use disable, prefer, require, verify-ca, or verify-full"
    );
}

#[test]
fn password_file_is_searched_from_the_top() {
    let content = "\n# comment:5432:db:u:no\nother:*:*:*:no\n  h:5432:db:u:pa:ss \r\n*:*:*:*:last";
    let look = |h: &str, p: u16, d: &str, u: &str| pgpass_lookup(content, h, p, d, u);
    assert_eq!(look("h", 5432, "db", "u"), Some("pa:ss".to_string()));
    assert_eq!(look("h", 5433, "db", "u"), Some("last".to_string()));
    assert_eq!(look("other", 1, "x", "y"), Some("no".to_string()));
    assert_eq!(pgpass_lookup("h:5432:db:u", "h", 5432, "db", "u"), None);
    assert_eq!(pgpass_lookup("h:5432:db:u:", "h", 5432, "db", "u"), Some(String::new()));
    assert_eq!(pgpass_lookup("", "h", 5432, "db", "u"), None);
}

#[test]
fn attempts_follow_the_mode() {
    let lax = Some(TlsPolicy {
        verify_certificate: false,
        verify_hostname: false,
    });
    let attempts = connect_attempts("h", 5432, "u", "db", Some("pw".to_string()), SslMode::Prefer);
    assert_eq!(attempts.len(), 2);
    assert_eq!(
        attempts[0].conn_str,
        "host=h port=5432 user=u dbname=db password=pw sslmode=prefer"
    );
    assert_eq!(attempts[0].tls, lax);
    assert_eq!(
        attempts[1].conn_str,
        "host=h port=5432 user=u dbname=db password=pw sslmode=disable"
    );
    assert_eq!(attempts[1].tls, None);
    let single = |mode: SslMode| {
        let mut attempts = connect_attempts("h", 1, "u", "db", None, mode);
        assert_eq!(attempts.len(), 1);
        let a = attempts.remove(0);
        (a.conn_str, a.tls)
    };
    let base = "host=h port=1 user=u dbname=db";
    assert_eq!(single(SslMode::Disable), (format!("{base} sslmode=disable"), None));
    assert_eq!(single(SslMode::Require), (format!("{base} sslmode=require"), lax));
    assert_eq!(
        single(SslMode::VerifyCa).1,
        Some(TlsPolicy {
            verify_certificate: true,
            verify_hostname: false
        })
    );
    assert_eq!(
        single(SslMode::VerifyFull),
        (
            format!("{base} sslmode=require"),
            Some(TlsPolicy {
                verify_certificate: true,
                verify_hostname: true
            })
        )
    );
}

// ---------------------------------------------------------------------------
// Reports
// ---------------------------------------------------------------------------

#[test]
fn runs_are_reported() {
    let report = |applied: &[&str], already: &[&str]| Report {
        applied: applied.iter().map(|s| s.to_string()).collect(),
        already_applied: already.iter().map(|s| s.to_string()).collect(),
    };
    assert_eq!(run_report(&report(&[], &["a"]), true), vec!["Nothing to apply."]);
    assert_eq!(
        run_report(&report(&["a", "b"], &[]), true),
        vec!["Would apply (in order):", "  a", "  b"]
    );
    assert_eq!(
        run_report(&report(&[], &["a", "b"]), false),
        vec!["Already up to date (2 applied)."]
    );
    assert_eq!(
        run_report(&report(&["a"], &["b"]), false),
        vec!["Applied 1 migration(s):", "  a"]
    );
}

#[test]
fn imports_are_reported() {
    let receipt = |newly_converted: usize, already_imported: bool| Receipt {
        migrations: vec![ReceiptEntry {
            version: 1,
            sqlx_description: String::new(),
            kryzhen_name: String::new(),
            filename: String::new(),
            sqlx_checksum_hex: String::new(),
        }],
        newly_converted,
        already_imported,
    };
    assert_eq!(
        conversion_report(&receipt(0, false), "p"),
        "Already converted (1 migration(s) already have headers). Nothing written."
    );
    assert_eq!(
        conversion_report(&receipt(10, false), "m/r.json"),
        "Converted 10 migration(s). Receipt written to: m/r.json\n\n\
         Next step: kryzhen hack migrate-from sqlx import"
    );
    assert_eq!(
        import_report(&receipt(0, false)),
        "Imported 1 migration(s) into mallard.applied_migrations. _sqlx_migrations dropped.\n\n\
         You can now use `kryzhen migrate` as normal."
    );
    assert_eq!(
        import_report(&receipt(0, true)),
        "Already imported (_sqlx_migrations not present). Nothing to do."
    );
    assert_eq!(convert_phase_report(&receipt(0, false)), "already converted (1 migration(s)).");
    assert_eq!(convert_phase_report(&receipt(2, false)), "2 migration(s) converted.");
    assert_eq!(
        import_phase_report(&receipt(0, false)),
        "1 migration(s) imported. _sqlx_migrations dropped."
    );
    assert_eq!(
        import_phase_report(&receipt(0, true)),
        "already imported (_sqlx_migrations not present)."
    );
}

#[test]
fn escape_hatches_are_reported() {
    assert_eq!(added_report("a"), "Recorded \"a\" as applied.");
    assert_eq!(deleted_report("a"), "Removed \"a\" from applied_migrations.");
    assert_eq!(fixed_report("a"), "Fixed checksum for \"a\".");
}
