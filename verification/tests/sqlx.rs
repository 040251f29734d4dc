use kryzhen::file::{load_files, SourceFile};
use kryzhen::ledger::{AppliedMigrations, AppliedNames};
use kryzhen::parser::parse_file;
use kryzhen::run::{plan, prepare};
use kryzhen::sqlx_import::convert::{digest_file, missing_hint, Conversion, FileDigest, Step};
use kryzhen::sqlx_import::files::{best_key, collect_sql_files, find_file_for};
use kryzhen::sqlx_import::header::build_header;
use kryzhen::sqlx_import::import::{check_history, plan_import};
use kryzhen::sqlx_import::receipt::{file_missing_message, find_entry, SqlxRow};
use kryzhen::sqlx_import::text::hex;
use kryzhen::sqlx_import::{
    extract_description_and_body, normalise_name, Receipt, ReceiptEntry, SqlxImportError,
    RECEIPT_FILENAME,
};
use kryzhen::types::{checksum, Error, Migration, MigrationName};
use sha2::{Digest, Sha384};

fn sha384(text: &str) -> Vec<u8> {
    Sha384::digest(text.as_bytes()).to_vec()
}

fn row(version: i64, description: &str, content: &str) -> SqlxRow {
    SqlxRow {
        version,
        description: description.to_string(),
        checksum: sha384(content),
    }
}

fn entry(version: i64, description: &str, content: &str) -> ReceiptEntry {
    ReceiptEntry {
        version,
        sqlx_description: description.to_string(),
        kryzhen_name: normalise_name(description),
        filename: format!("{version}.sql"),
        sqlx_checksum_hex: hex(&sha384(content)),
    }
}

fn digest(filename: &str, content: &str) -> FileDigest {
    digest_file(filename.to_string(), content.as_bytes())
}

fn mig(name: &str, body: &str) -> Migration {
    Migration {
        name: MigrationName(name.into()),
        description: String::new(),
        requires: vec![],
        script: body.into(),
        checksum: checksum(body),
    }
}

/// Run a conversion against files held in memory. Gives the receipt and what was written.
fn run(
    rows: Vec<SqlxRow>,
    known: Vec<ReceiptEntry>,
    files: &[(&str, &str)],
) -> Result<(Receipt, Vec<(String, String)>), SqlxImportError> {
    let digests = files.iter().map(|(f, c)| digest(f, c)).collect();
    let mut conversion = Conversion::start(rows, known, digests, "migrations".to_string());
    let mut written = Vec::new();
    loop {
        match conversion.next_step()? {
            Step::Done(receipt) => return Ok((receipt, written)),
            Step::Read(filename) => {
                let content = files.iter().find(|(f, _)| *f == filename).unwrap().1;
                if let Some(text) = conversion.accept_content(content)? {
                    written.push((filename, text));
                }
            }
            Step::Guess(guess) => {
                let bytes = guess.as_ref().and_then(|g| {
                    files
                        .iter()
                        .find(|(f, _)| f == g)
                        .map(|(_, c)| c.as_bytes().to_vec())
                });
                return Err(conversion.file_missing(guess, bytes));
            }
        }
    }
}

// ---------------------------------------------------------------------------
// Texts
// ---------------------------------------------------------------------------

#[test]
fn normalise_name_strips_prefix_and_replaces_spaces() {
    assert_eq!(normalise_name("001_create users"), "create-users");
    assert_eq!(normalise_name("create users"), "create-users");
    assert_eq!(
        normalise_name("database search path"),
        "database-search-path"
    );
    assert_eq!(normalise_name("123_add email index"), "add-email-index");
}

#[test]
fn normalise_name_strips_only_a_numeric_prefix() {
    assert_eq!(normalise_name("_users"), "_users");
    assert_eq!(normalise_name("12"), "12");
    assert_eq!(normalise_name("12_"), "");
    assert_eq!(normalise_name("1_2_x y"), "2_x-y");
    assert_eq!(normalise_name("12 users"), "12-users");
    assert_eq!(normalise_name("٣_users"), "٣_users");
    assert_eq!(normalise_name(""), "");
}

#[test]
fn extract_description_and_body_separates_comments() {
    let content = "-- First line\n-- Second line\nSELECT 1;\n";
    let (desc, body) = extract_description_and_body(content);
    assert_eq!(desc, "First line Second line");
    assert_eq!(body, "SELECT 1;");
}

#[test]
fn extract_description_and_body_no_comments() {
    let content = "SELECT 1;\n";
    let (desc, body) = extract_description_and_body(content);
    assert_eq!(desc, "");
    assert_eq!(body, "SELECT 1;");
}

#[test]
fn extract_description_and_body_of_unusual_files() {
    let split = |s: &str| extract_description_and_body(s);
    let both = |d: &str, b: &str| (d.to_string(), b.to_string());
    assert_eq!(split(""), both("", ""));
    assert_eq!(split("-- only a comment"), both("only a comment", ""));
    assert_eq!(split("--\n--  \n  -- a  \n--b\nX"), both("a b", "X"));
    assert_eq!(split("-- a\r\n-- b\r\nSELECT 1;\r\n"), both("a b", "SELECT 1;"));
    assert_eq!(split("\n-- a\nX"), both("", "-- a\nX"));
    assert_eq!(split("-- a\n\n-- b\nX\n"), both("a", "-- b\nX"));
    assert_eq!(split("---- a\nX"), both("-- a", "X"));
}

#[test]
fn build_header_no_requires() {
    let h = build_header("create-users", "create users", &[]);
    assert!(h.contains("-- #!migration"));
    assert!(h.contains("name: \"create-users\""));
    assert!(h.contains("description: \"create users\";"));
    assert!(!h.contains("requires"));
}

#[test]
fn build_header_with_requires() {
    let h = build_header("add-index", "add index", &["create-users".to_string()]);
    assert!(h.contains("requires: \"create-users\";"));
}

#[test]
fn build_header_is_written_line_by_line() {
    assert_eq!(
        build_header("a", "", &[]),
        "-- #!migration\n-- name: \"a\",\n-- description: \"a\";"
    );
    assert_eq!(
        build_header("a", "d", &["x".to_string(), "y".to_string()]),
        "-- #!migration\n-- name: \"a\",\n-- description: \"d\",\n-- requires: [\"x\", \"y\"];"
    );
}

#[test]
fn header_and_body_parse_back() {
    let needed = ["x y".to_string(), "\\z".to_string(), "".to_string()];
    for n in 0..=needed.len() {
        let header = build_header("na;me", "de, [scription]", &needed[..n]);
        let ms = parse_file(&format!("{header}\nSELECT 1;\n"), "f.sql").unwrap();
        assert_eq!(ms.len(), 1);
        assert_eq!(ms[0].name.0, "na;me");
        assert_eq!(ms[0].description, "de, [scription]");
        let requires: Vec<String> = ms[0].requires.iter().map(|r| r.0.clone()).collect();
        assert_eq!(requires, needed[..n]);
        assert_eq!(ms[0].script, "SELECT 1;");
    }
}

#[test]
fn hex_has_two_lower_case_digits_for_each_byte() {
    assert_eq!(hex(&[]), "");
    assert_eq!(hex(&[0x00, 0x0f, 0xa5, 0xff, 0x9c]), "000fa5ff9c");
    let all: Vec<u8> = (0..=255).collect();
    let expected: String = all.iter().map(|b| format!("{b:02x}")).collect();
    assert_eq!(hex(&all), expected);
}

#[test]
fn receipt_filename_is_hidden_json() {
    assert_eq!(RECEIPT_FILENAME, ".kryzhen-import-receipt.json");
}

// ---------------------------------------------------------------------------
// Files
// ---------------------------------------------------------------------------

#[test]
fn sql_files_are_listed_in_order() {
    let names: Vec<String> = ["b.sql", "a.txt", ".sql", "10.sql", "9.sql", "b.sql", "a.sql"]
        .iter()
        .map(|s| s.to_string())
        .collect();
    assert_eq!(
        collect_sql_files(names),
        vec![".sql", "10.sql", "9.sql", "a.sql", "b.sql", "b.sql"]
    );
}

#[test]
fn file_is_guessed_by_name() {
    let files: Vec<String> = ["001_Create_Users.sql", "002_users-add-email.sql", "x.sql"]
        .iter()
        .map(|s| s.to_string())
        .collect();
    let guess = |d: &str| find_file_for(&files, d, &normalise_name(d));
    assert_eq!(guess("create users"), Some("001_Create_Users.sql".to_string()));
    assert_eq!(guess("CREATE USERS"), Some("001_Create_Users.sql".to_string()));
    assert_eq!(guess("5_Create users"), Some("001_Create_Users.sql".to_string()));
    assert_eq!(guess("add email"), Some("002_users-add-email.sql".to_string()));
    assert_eq!(guess("prefix x suffix"), Some("x.sql".to_string()));
    assert_eq!(guess("drop orders"), None);
}

#[test]
fn exact_name_wins_over_resemblance() {
    let files: Vec<String> = ["a_users.sql", "users.sql"].iter().map(|s| s.to_string()).collect();
    assert_eq!(find_file_for(&files, "users", "users"), Some("users.sql".to_string()));
    assert_eq!(find_file_for(&files[..1], "users", "users"), Some("a_users.sql".to_string()));
    assert_eq!(find_file_for(&[], "users", "users"), None);
}

#[test]
fn best_key_is_exact_or_similar() {
    let keys: Vec<String> = ["ab", "b", "c", "b"].iter().map(|s| s.to_string()).collect();
    assert_eq!(best_key(&keys, "c", "b"), Some(1));
    assert_eq!(best_key(&keys, "c", "x"), Some(2));
    assert_eq!(best_key(&keys, "-", "a"), Some(0));
    assert_eq!(best_key(&keys, "-", "zbz"), Some(1));
    assert_eq!(best_key(&keys, "-", "z"), None);
}

// ---------------------------------------------------------------------------
// Convert
// ---------------------------------------------------------------------------

#[test]
fn conversion_rewrites_files_and_makes_a_receipt() {
    let users = "-- Users table\nCREATE TABLE users ();\n";
    let index = "CREATE INDEX i ON users (id);";
    let (receipt, written) = run(
        vec![row(1, "create users", users), row(2, "002_add index", index)],
        vec![],
        &[("001_create_users.sql", users), ("002_add_index.sql", index)],
    )
    .unwrap();
    assert_eq!(receipt.newly_converted, 2);
    assert!(!receipt.already_imported);
    assert_eq!(receipt.migrations.len(), 2);
    assert_eq!(receipt.migrations[0].version, 1);
    assert_eq!(receipt.migrations[0].kryzhen_name, "create-users");
    assert_eq!(receipt.migrations[0].filename, "001_create_users.sql");
    assert_eq!(receipt.migrations[0].sqlx_checksum_hex, hex(&sha384(users)));
    assert_eq!(receipt.migrations[1].kryzhen_name, "add-index");
    assert_eq!(receipt.migrations[1].sqlx_description, "002_add index");
    assert_eq!(
        written,
        vec![
            (
                "001_create_users.sql".to_string(),
                "-- #!migration\n-- name: \"create-users\",\n-- description: \"Users table\";\n\
                 CREATE TABLE users ();\n"
                    .to_string()
            ),
            (
                "002_add_index.sql".to_string(),
                "-- #!migration\n-- name: \"add-index\",\n-- description: \"add-index\",\n\
                 -- requires: \"create-users\";\nCREATE INDEX i ON users (id);\n"
                    .to_string()
            ),
        ]
    );
    let parsed = parse_file(&written[1].1, "002_add_index.sql").unwrap();
    assert_eq!(parsed[0].name.0, "add-index");
    assert_eq!(parsed[0].requires, vec![MigrationName("create-users".into())]);
    assert_eq!(parsed[0].checksum, checksum(index));
}

#[test]
fn files_are_found_by_content() {
    let (receipt, _) = run(
        vec![row(7, "one", "1")],
        vec![],
        &[("b.sql", "1"), ("one.sql", "other"), ("z.sql", "1")],
    )
    .unwrap();
    assert_eq!(receipt.migrations[0].filename, "b.sql");
}

#[test]
fn file_with_a_header_is_left_alone() {
    let content = "-- #!migration\n-- name: \"mine\",\n-- description: \"d\";\nSELECT 1;\n";
    let (receipt, written) = run(vec![row(1, "one", content)], vec![], &[("1.sql", content)]).unwrap();
    assert_eq!(receipt.newly_converted, 0);
    assert_eq!(receipt.migrations.len(), 1);
    assert!(written.is_empty());
}

#[test]
fn converting_again_changes_nothing() {
    let rows = || vec![row(1, "one", "1"), row(2, "two", "2")];
    let (first, written) = run(rows(), vec![], &[("1.sql", "1"), ("2.sql", "2")]).unwrap();
    assert_eq!(written.len(), 2);
    let after: Vec<(&str, &str)> = written.iter().map(|(f, t)| (f.as_str(), t.as_str())).collect();
    let (second, written_again) = run(rows(), first.migrations.clone(), &after).unwrap();
    assert!(written_again.is_empty());
    assert_eq!(second.newly_converted, 0);
    assert_eq!(second.migrations.len(), 2);
    for (a, b) in first.migrations.iter().zip(&second.migrations) {
        assert_eq!(
            (a.version, &a.kryzhen_name, &a.filename, &a.sqlx_checksum_hex),
            (b.version, &b.kryzhen_name, &b.filename, &b.sqlx_checksum_hex)
        );
    }
}

#[test]
fn new_row_behind_known_ones_requires_the_row_before() {
    let (receipt, written) = run(
        vec![row(1, "one", "1"), row(2, "two", "2")],
        vec![entry(1, "one", "1")],
        &[("2.sql", "2")],
    )
    .unwrap();
    assert_eq!(receipt.newly_converted, 1);
    assert_eq!(receipt.migrations[0].filename, "1.sql");
    assert!(written[0].1.contains("-- requires: \"one\";"));
}

#[test]
fn receipt_that_contradicts_the_database_is_an_error() {
    let mut known = entry(1, "one", "1");
    known.kryzhen_name = "known-name".to_string();
    match run(vec![row(1, "one", "2")], vec![known], &[]) {
        Err(SqlxImportError::ReceiptDbMismatch {
            name,
            receipt_hex,
            db_hex,
        }) => {
            assert_eq!(name, "known-name");
            assert_eq!(receipt_hex, hex(&sha384("1")));
            assert_eq!(db_hex, hex(&sha384("2")));
        }
        _ => panic!("a mismatch was due"),
    }
}

#[test]
fn missing_file_is_reported_with_a_hint() {
    let hint_of = |files: &[(&str, &str)]| match run(vec![row(3, "create users", "x")], vec![], files) {
        Err(SqlxImportError::FileMissing {
            version,
            description,
            dir,
            sqlx_hex,
            hint,
        }) => {
            assert_eq!(version, 3);
            assert_eq!(description, "create users");
            assert_eq!(dir, "migrations");
            assert_eq!(sqlx_hex, hex(&sha384("x")));
            hint
        }
        _ => panic!("a missing file was due"),
    };
    assert_eq!(
        hint_of(&[("3_create_users.sql", "edited")]),
        format!(
            "  guessed file:   3_create_users.sql\n  its checksum:   {}",
            hex(&sha384("edited"))
        )
    );
    assert_eq!(
        hint_of(&[("orders.sql", "y")]),
        "  no file name matches the migration description"
    );
    let c = Conversion::start(vec![row(3, "create users", "x")], vec![], vec![], "d".to_string());
    let e = c.file_missing(Some("gone.sql".to_string()), None);
    assert_eq!(
        e.to_string(),
        format!(
            "migration version 3 (\"create users\") has no matching file in d\n  \
             sqlx checksum:  {}\n  guessed file:   gone.sql (does not exist)",
            hex(&sha384("x"))
        )
    );
}

#[test]
fn file_that_changed_meanwhile_is_an_error() {
    let mut c = Conversion::start(
        vec![row(1, "one", "1")],
        vec![],
        vec![digest("1.sql", "1")],
        "d".to_string(),
    );
    assert!(matches!(c.next_step(), Ok(Step::Read(f)) if f == "1.sql"));
    match c.accept_content("changed") {
        Err(SqlxImportError::ChecksumMismatch {
            filename,
            expected,
            got,
        }) => {
            assert_eq!(filename, "1.sql");
            assert_eq!(expected, hex(&sha384("1")));
            assert_eq!(got, hex(&sha384("changed")));
        }
        _ => panic!("a mismatch was due"),
    }
    // The conversion stays as it is: it still waits for the file.
    assert!(matches!(c.next_step(), Ok(Step::Read(f)) if f == "1.sql"));
}

#[test]
fn digest_decides_whether_content_is_accepted() {
    let start = || {
        let mut c = Conversion::start(
            vec![row(1, "one", "1")],
            vec![],
            vec![digest("1.sql", "1")],
            "d".to_string(),
        );
        assert!(matches!(c.next_step(), Ok(Step::Read(_))));
        c
    };
    let mut c = start();
    let text = c.accept_digested("SELECT 1;", &sha384("1")).unwrap().unwrap();
    assert_eq!(
        text,
        "-- #!migration\n-- name: \"one\",\n-- description: \"one\";\nSELECT 1;\n"
    );
    match c.next_step() {
        Ok(Step::Done(receipt)) => {
            assert_eq!((receipt.migrations.len(), receipt.newly_converted), (1, 1));
        }
        _ => panic!("a receipt was due"),
    }
    let mut c = start();
    assert!(c.accept_digested("1", &[0xab]).is_err());
    assert!(matches!(c.next_step(), Ok(Step::Read(_))));
}

#[test]
fn hints_name_the_guessed_file() {
    let guess = Some("f.sql".to_string());
    assert_eq!(
        missing_hint(&guess, &Some(vec![0xab, 0x01])),
        "  guessed file:   f.sql\n  its checksum:   ab01"
    );
    assert_eq!(missing_hint(&guess, &None), "  guessed file:   f.sql (does not exist)");
    assert_eq!(
        missing_hint(&None, &None),
        "  no file name matches the migration description"
    );
    assert_eq!(
        file_missing_message(-3, "<d>", "dir", "ab", "hint"),
        "migration version -3 (<d>) has no matching file in dir\n  sqlx checksum:  ab\nhint"
    );
}

#[test]
fn last_entry_of_a_version_counts() {
    let mut second = entry(1, "one", "2");
    second.filename = "second.sql".to_string();
    let entries = [entry(1, "one", "1"), second, entry(2, "two", "3")];
    assert_eq!(find_entry(&entries, 1).unwrap().filename, "second.sql");
    assert!(find_entry(&entries, 3).is_none());
}

// ---------------------------------------------------------------------------
// Import
// ---------------------------------------------------------------------------

#[test]
fn converted_history_verifies() {
    let rows = || vec![row(1, "one", "1"), row(2, "two", "2")];
    let (receipt, _) = run(rows(), vec![], &[("1.sql", "1"), ("2.sql", "2")]).unwrap();
    assert!(check_history(&receipt.migrations, &rows()).is_ok());
    assert!(check_history(&receipt.migrations, &rows()[..1]).is_ok());
    assert!(check_history(&receipt.migrations, &[]).is_ok());
}

#[test]
fn unknown_row_is_an_error() {
    let r = check_history(&[entry(1, "one", "1")], &[row(1, "one", "1"), row(5, "five", "5")]);
    assert!(matches!(r, Err(SqlxImportError::UnknownMigration { version: 5 })));
}

#[test]
fn row_with_another_checksum_is_an_error() {
    match check_history(&[entry(1, "one", "1")], &[row(1, "one", "x")]) {
        Err(SqlxImportError::ReceiptDbMismatch {
            name,
            receipt_hex,
            db_hex,
        }) => {
            assert_eq!(name, "one");
            assert_eq!(receipt_hex, hex(&sha384("1")));
            assert_eq!(db_hex, hex(&sha384("x")));
        }
        _ => panic!("a mismatch was due"),
    }
}

#[test]
fn gap_in_the_history_is_an_error() {
    let entries = [entry(1, "one", "1"), entry(2, "two", "2"), entry(3, "three", "3")];
    let r = check_history(&entries, &[row(3, "three", "3")]);
    assert!(matches!(
        r,
        Err(SqlxImportError::InconsistentHistory {
            missing_version: 1,
            present_version: 3
        })
    ));
    assert!(check_history(&entries, &[row(1, "one", "1"), row(2, "two", "2")]).is_ok());
}

#[test]
fn import_records_what_is_not_stored() {
    let entries = [
        entry(1, "one", "1"),
        entry(2, "two", "2"),
        entry(3, "", "3"),
        entry(4, "four", "4"),
    ];
    let rows = [row(1, "one", "1"), row(2, "two", "2"), row(3, "", "3")];
    let migrations = [mig("", "B3"), mig("two", "B2"), mig("two", "other"), mig("one", "B1")];
    let mut stored = AppliedMigrations::new();
    stored.insert(MigrationName("one".into()), checksum("B1"));
    let plan = plan_import(&entries, &rows, &stored, &migrations);
    assert!(plan.failure.is_none());
    assert_eq!(plan.records.len(), 2);
    assert_eq!(plan.records[0].name.0, "two");
    assert_eq!(plan.records[0].description, "two");
    assert_eq!(plan.records[0].requires, vec![MigrationName("one".into())]);
    assert_eq!(plan.records[0].script, "B2");
    assert_eq!(plan.records[0].checksum, checksum("B2"));
    assert_eq!(plan.records[1].name.0, "");
    assert_eq!(plan.records[1].requires, vec![MigrationName("two".into())]);
}

#[test]
fn description_falls_back_to_the_name() {
    let mut e = entry(1, "", "1");
    e.kryzhen_name = "given-name".to_string();
    let plan = plan_import(
        &[e],
        &[row(1, "", "1")],
        &AppliedMigrations::new(),
        &[mig("given-name", "B")],
    );
    assert_eq!(plan.records[0].description, "given-name");
    assert!(plan.records[0].requires.is_empty());
}

#[test]
fn migration_that_was_not_supplied_ends_the_import() {
    let entries = [entry(1, "one", "1"), entry(2, "two", "2"), entry(3, "three", "3")];
    let rows = [row(1, "one", "1"), row(2, "two", "2"), row(3, "three", "3")];
    let migrations = [mig("one", "B1"), mig("three", "B3")];
    let plan = plan_import(&entries, &rows, &AppliedMigrations::new(), &migrations);
    assert_eq!(plan.records.len(), 1);
    assert_eq!(plan.records[0].name.0, "one");
    let e = plan.failure.unwrap();
    assert!(matches!(&e, SqlxImportError::MigrationNotSupplied { name } if name == "two"));
    assert_eq!(
        e.to_string(),
        "I/O error: migration 'two' not found in supplied migrations slice"
    );
}

#[test]
fn importing_again_records_nothing() {
    let entries = [entry(1, "one", "1"), entry(2, "two", "2")];
    let rows = [row(1, "one", "1"), row(2, "two", "2")];
    let migrations = [mig("one", "B1"), mig("two", "B2")];
    let mut stored = AppliedMigrations::new();
    let first = plan_import(&entries, &rows, &stored, &migrations);
    assert_eq!(first.records.len(), 2);
    for m in first.records {
        stored.insert(m.name, m.checksum);
    }
    let second = plan_import(&entries, &rows, &stored, &[]);
    assert!(second.records.is_empty());
    assert!(second.failure.is_none());
}

#[test]
fn converted_and_imported_migrations_are_not_run_again() {
    let rows = || vec![row(1, "create users", "CREATE TABLE u ();"), row(2, "add index", "-- why\nX;")];
    let files = [("1.sql", "CREATE TABLE u ();"), ("2.sql", "-- why\nX;")];
    let (receipt, written) = run(rows(), vec![], &files).unwrap();
    let sources: Vec<SourceFile> = written
        .into_iter()
        .map(|(label, text)| SourceFile { label, text })
        .collect();
    let migrations = load_files(&sources).unwrap();
    assert!(check_history(&receipt.migrations, &rows()).is_ok());
    let mut stored = AppliedMigrations::new();
    let mut here = AppliedNames::new();
    let imported = plan_import(&receipt.migrations, &rows(), &stored, &migrations);
    assert!(imported.failure.is_none());
    assert_eq!(imported.records.len(), 2);
    for m in imported.records {
        stored.insert(m.name.clone(), m.checksum);
        here.insert(m.name);
    }
    let p = plan(&prepare(&migrations).unwrap(), &stored, &here, false).unwrap();
    assert!(p.to_apply.is_empty());
    assert_eq!(p.report.already_applied, vec!["create-users", "add-index"]);
}

#[test]
fn receipt_of_an_earlier_import() {
    let receipt = Receipt {
        migrations: vec![entry(1, "one", "1")],
        newly_converted: 1,
        already_imported: false,
    };
    let again = receipt.imported_before();
    assert!(again.already_imported);
    assert_eq!(again.newly_converted, 1);
    assert_eq!(again.migrations.len(), 1);
    assert_eq!(again.migrations[0].kryzhen_name, "one");
    assert!(!receipt.clone().already_imported);
}

#[test]
fn every_import_error_has_its_message() {
    let s = |t: &str| t.to_string();
    assert_eq!(
        SqlxImportError::NoReceipt { path: s("m/r.json") }.to_string(),
        "no receipt found at m/r.json; run `kryzhen hack migrate-from sqlx convert` first"
    );
    assert_eq!(
        SqlxImportError::ChecksumMismatch {
            filename: s("1.sql"),
            expected: s("aa"),
            got: s("bb")
        }
        .to_string(),
        "checksum mismatch for 1.sql:\n  expected (sqlx): aa\n  got (disk):      bb\n\
         The file differs from what sqlx applied."
    );
    assert_eq!(
        SqlxImportError::ReceiptDbMismatch {
            name: s("n"),
            receipt_hex: s("aa"),
            db_hex: s("bb")
        }
        .to_string(),
        "_sqlx_migrations checksum mismatch for n: receipt has aa, DB has bb"
    );
    assert_eq!(
        SqlxImportError::InconsistentHistory {
            missing_version: i64::MIN,
            present_version: 20240101
        }
        .to_string(),
        "_sqlx_migrations contains version 20240101 but its receipt predecessor \
         version -9223372036854775808 is absent — history is inconsistent"
    );
    assert_eq!(
        SqlxImportError::UnknownMigration { version: -7 }.to_string(),
        "_sqlx_migrations contains version -7 which is not in the receipt — \
         unknown migration; cannot import"
    );
    assert_eq!(
        SqlxImportError::Core(Error::DuplicateName(MigrationName("a".into()))).to_string(),
        "duplicate migration name: a"
    );
}
