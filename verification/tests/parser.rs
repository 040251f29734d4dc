use kryzhen::parser::{migration_file, parse_file, quoted_string};
use kryzhen::types::{checksum, Error, MigrationName};

fn chars(s: &str) -> Vec<char> {
    s.chars().collect()
}

fn read_quoted(s: &str) -> Option<String> {
    quoted_string(&chars(s), 0).map(|(value, _)| value)
}

#[test]
fn parses_single_block() {
    let text = "-- #!migration\n\
                -- name: \"tables/phone\",\n\
                -- description: \"Phone numbers attached to a person.\",\n\
                -- requires: [\"tables/person\"];\n\
                CREATE TABLE phone (id bigint);\n";
    let m = parse_file(text, "phone.sql").unwrap();
    assert_eq!(m.len(), 1);
    assert_eq!(m[0].name, MigrationName("tables/phone".into()));
    assert_eq!(m[0].description, "Phone numbers attached to a person.");
    assert_eq!(m[0].requires, vec![MigrationName("tables/person".into())]);
    assert_eq!(m[0].script, "CREATE TABLE phone (id bigint);");
    assert_eq!(m[0].checksum, checksum("CREATE TABLE phone (id bigint);"));
}

#[test]
fn requires_optional() {
    let text = "-- #!migration\n\
                -- name: \"a\",\n\
                -- description: \"first\";\n\
                SELECT 1;\n";
    let m = parse_file(text, "a.sql").unwrap();
    assert!(m[0].requires.is_empty());
}

#[test]
fn requires_can_be_single_string() {
    let text = "-- #!migration\n\
                -- name: \"b\",\n\
                -- description: \"second\",\n\
                -- requires: \"a\";\n\
                SELECT 2;\n";
    let m = parse_file(text, "b.sql").unwrap();
    assert_eq!(m[0].requires, vec![MigrationName("a".into())]);
}

#[test]
fn parses_multiple_blocks_in_file_order() {
    let text = "-- #!migration\n\
                -- name: \"a\",\n\
                -- description: \"first\";\n\
                CREATE TABLE a ();\n\
                -- #!migration\n\
                -- name: \"b\",\n\
                -- description: \"second\";\n\
                CREATE TABLE b ();\n";
    let m = parse_file(text, "multi.sql").unwrap();
    assert_eq!(m.len(), 2);
    assert_eq!(m[0].name, MigrationName("a".into()));
    assert_eq!(m[1].name, MigrationName("b".into()));
    assert_eq!(m[0].script, "CREATE TABLE a ();");
    assert_eq!(m[1].script, "CREATE TABLE b ();");
}

#[test]
fn missing_name_is_error() {
    let text = "-- #!migration\n\
                -- description: \"no name\";\n\
                SELECT 1;\n";
    assert!(matches!(
        parse_file(text, "x.sql").unwrap_err(),
        Error::Parse { .. }
    ));
}

#[test]
fn body_preserves_leading_sql_comment() {
    let text = "-- #!migration\n\
                -- name: \"initial\",\n\
                -- description: \"sets up the graph\";\n\
                -- Create the AGE graph if it doesn't already exist.\n\
                SELECT 1;\n";
    let m = parse_file(text, "001.sql").unwrap();
    assert!(
        m[0].script.starts_with("--"),
        "body should preserve leading `--` comment, got: {:?}",
        m[0].script
    );
    assert_eq!(
        m[0].script,
        "-- Create the AGE graph if it doesn't already exist.\nSELECT 1;"
    );
}

#[test]
fn description_with_semicolon_and_backticks() {
    let text = "-- #!migration\n\
                -- name: \"belief-embeddings\",\n\
                -- description: \"embeddings; backfilled by `mimir reembed`\",\n\
                -- requires: \"database-search-path\";\n\
                CREATE TABLE t ();\n";
    let m = parse_file(text, "003.sql").unwrap();
    assert_eq!(m[0].name, MigrationName("belief-embeddings".into()));
    assert!(m[0].description.contains(';'));
    assert!(m[0].description.contains('`'));
    assert_eq!(
        m[0].requires,
        vec![MigrationName("database-search-path".into())]
    );
}

#[test]
fn quoted_string_plain() {
    assert_eq!(read_quoted(r#""hello""#).unwrap(), "hello");
}

#[test]
fn quoted_string_escaped_quote() {
    assert_eq!(read_quoted(r#""say \"hi\"""#).unwrap(), r#"say "hi""#);
}

#[test]
fn quoted_string_escaped_backslash() {
    assert_eq!(read_quoted(r#""a\\b""#).unwrap(), r#"a\b"#);
}

#[test]
fn quoted_string_escaped_backslash_before_quote() {
    assert_eq!(read_quoted(r#""a\\\"b""#).unwrap(), r#"a\"b"#);
}

#[test]
fn description_with_escaped_quote() {
    let text = "-- #!migration\n\
                -- name: \"x\",\n\
                -- description: \"say \\\"hi\\\"\";\n\
                SELECT 1;\n";
    let m = parse_file(text, "x.sql").unwrap();
    assert_eq!(m[0].description, r#"say "hi""#);
}

#[test]
fn quoted_string_says_where_it_ends() {
    let text = chars(r#"ab "cd" ef"#);
    assert_eq!(quoted_string(&text, 3), Some(("cd".to_string(), 7)));
    assert_eq!(quoted_string(&text, 0), None);
    assert_eq!(quoted_string(&chars(r#""open"#), 0), None);
    assert_eq!(quoted_string(&chars(r#""lone \ backslash""#), 0).unwrap().0, r"lone \ backslash");
}

#[test]
fn escaped_text_reads_back() {
    let original = r#"a "b" \ c\\"#;
    let escaped = original.replace('\\', "\\\\").replace('"', "\\\"");
    assert_eq!(read_quoted(&format!("\"{escaped}\"")).unwrap(), original);
}

#[test]
fn empty_text_holds_no_migration() {
    assert_eq!(parse_file("", "empty.sql").unwrap().len(), 0);
}

#[test]
fn text_without_a_directive_is_an_error() {
    match parse_file("SELECT 1;\n", "plain.sql").unwrap_err() {
        Error::Parse { file, message } => {
            assert_eq!(file, "plain.sql");
            assert_eq!(
                message,
                "parse error at line 1, column 1\n  |\n1 | SELECT 1;\n  | ^\n"
            );
        }
        other => panic!("unexpected error {other:?}"),
    }
}

#[test]
fn parse_error_points_at_the_failing_block() {
    let text = "-- #!migration\n-- name: \"a\",\n-- description: \"x\";\nSELECT 1;\n\
                -- #!migration\n-- name: \"b\";\nSELECT 2;\n";
    let e = parse_file(text, "two.sql").unwrap_err();
    assert!(e.to_string().starts_with("parse error in two.sql: "));
}

#[test]
fn failures_have_a_position() {
    let good = "-- #!migration\n-- name: \"ä\",\n-- description: \"x\";\nSELECT 1;\n";
    let at = |text: &str| migration_file(&chars(text)).map(|ms| ms.len());
    assert_eq!(at(good), Ok(1));
    assert_eq!(at("x"), Err(0));
    assert_eq!(at(&format!("{good}-- #!other\n")), Err(good.chars().count() - 1));
    let unnamed = "-- #!migration\n-- name: \"b\";\nSELECT 2;\n";
    assert_eq!(
        at(&format!("{good}{unnamed}")),
        Err(good.chars().count() + unnamed.chars().count())
    );
}

#[test]
fn test_directive_is_an_error() {
    let alone = "-- #!test\n-- name: \"t\",\n-- description: \"d\";\nSELECT 1;\n";
    assert!(parse_file(alone, "t.sql").is_err());
    let behind = format!("-- #!migration\n-- name: \"a\",\n-- description: \"x\";\nSELECT 1;\n{alone}");
    assert!(parse_file(&behind, "t.sql").is_err());
    let ahead = format!("{alone}-- #!migration\n-- name: \"a\",\n-- description: \"x\";\nSELECT 1;\n");
    assert!(parse_file(&ahead, "t.sql").is_err());
}

#[test]
fn text_that_only_mentions_a_test_directive_is_skipped() {
    let block = "-- #!migration\n-- name: \"a\",\n-- description: \"x\";\nSELECT 1;\n";
    for ahead in [
        "no -- #!test\n",
        "-- see -- #!test\n",
        "  -- #!test\n",
        "-- #!testing\n",
        "-- #!test_1\n",
        "-- #!tests are elsewhere\n",
    ] {
        let m = parse_file(&format!("{ahead}{block}"), "a.sql").unwrap();
        assert_eq!(m.len(), 1, "{ahead:?}");
        assert_eq!(m[0].name.0, "a");
        let m = parse_file(&format!("{block}{ahead}{block}"), "a.sql").unwrap();
        assert_eq!(m.len(), 2, "{ahead:?}");
    }
    for ahead in ["-- #!test\n", "-- #!test", "x\n-- #!test\n", "-- #!test: t\n", "\n-- #!test\r\n"] {
        assert!(parse_file(&format!("{ahead}{block}"), "a.sql").is_err(), "{ahead:?}");
    }
}

#[test]
fn joined_files_hold_the_blocks_of_both() {
    let block = |n: &str, body: &str| {
        format!("-- #!migration\n-- name: \"{n}\",\n-- description: \"d\";\n{body}\n")
    };
    let first = format!("preamble\n{}\n{}", block("a", "SELECT 1;\n\n"), block("b", "-- c\nSELECT 2;"));
    let second = block("c", "SELECT 3;") + &block("d", "SELECT 4;");
    let mut parts = parse_file(&first, "f").unwrap();
    parts.extend(parse_file(&second, "f").unwrap());
    assert_eq!(parts.len(), 4);
    assert_eq!(parse_file(&(first + &second), "f").unwrap(), parts);
    let empty = "-- #!migration\n-- name: \"e\",\n-- description: \"d\";\n";
    assert_eq!(parse_file(&format!("{empty}{second}"), "f").unwrap().len(), 3);
}

#[test]
fn blank_body_does_not_swallow_the_next_block() {
    let text = "-- #!migration\n-- name: \"a\",\n-- description: \"x\";\n\
                -- #!migration\n-- name: \"b\",\n-- description: \"y\";\nSELECT 2;\n";
    let m = parse_file(text, "two.sql").unwrap();
    assert_eq!(m.len(), 2);
    assert_eq!(m[0].script, "");
    assert_eq!(m[1].script, "SELECT 2;");
}

#[test]
fn list_of_requirements_keeps_its_order() {
    let text = "-- #!migration\n-- name: \"c\",\n-- description: \"x\",\n\
                -- requires: [ \"b\" , \"a\",\"d\" ] ;\nSELECT 1;\n";
    let m = parse_file(text, "c.sql").unwrap();
    assert_eq!(
        m[0].requires,
        vec![
            MigrationName("b".into()),
            MigrationName("a".into()),
            MigrationName("d".into())
        ]
    );
    let empty = "-- #!migration\n-- name: \"c\",\n-- description: \"x\",\n-- requires: [];\nSELECT 1;\n";
    assert!(parse_file(empty, "c.sql").unwrap()[0].requires.is_empty());
}

#[test]
fn list_in_place_of_a_name_is_an_error() {
    let text = "-- #!migration\n-- name: [\"a\"],\n-- description: \"x\";\nSELECT 1;\n";
    assert!(parse_file(text, "a.sql").is_err());
    let no_description = "-- #!migration\n-- name: \"a\";\nSELECT 1;\n";
    assert!(parse_file(no_description, "a.sql").is_err());
}

#[test]
fn keys_may_hold_letters_of_any_script() {
    let text = "-- #!migration\n-- größe_1: \"?\",\n-- name: \"a\",\n-- description: \"x\";\nSELECT 1;\n";
    assert_eq!(parse_file(text, "a.sql").unwrap()[0].name.0, "a");
    let dash = "-- #!migration\n-- not-a-key: \"?\",\n-- name: \"a\",\n-- description: \"x\";\nSELECT 1;\n";
    assert!(parse_file(dash, "a.sql").is_err());
    let sign = "-- #!migration\n-- €: \"?\",\n-- name: \"a\",\n-- description: \"x\";\nSELECT 1;\n";
    assert!(parse_file(sign, "a.sql").is_err());
}

#[test]
fn bodies_are_trimmed() {
    let text = "-- #!migration\n-- name: \"a\",\n-- description: \"x\";\n\n\t SELECT 1;\u{a0}\n\n";
    let m = parse_file(text, "a.sql").unwrap();
    assert_eq!(m[0].script, "SELECT 1;");
    assert_eq!(m[0].checksum, checksum("SELECT 1;"));
}
