//! What messages and reports say: every name and every number that they are given, in fixed
//! words.
use crate::connection::unknown_mode;
use crate::hack::{dependents_text, hack_message, HackError};
use crate::messages::{
    added_text, conversion_text, convert_phase_text, deleted_text, fixed_text, import_phase_text,
    import_text, indented, run_lines,
};
use crate::render::{bracketed, decimal, join, signed_decimal};
use crate::sqlx_import::receipt::{import_message, SqlxImportError};
use crate::text_laws::law_join;
use crate::types::{debug_form, debug_names, error_message, Error};
use vstd::prelude::*;
use vstd::string::*;

verus! {

// ---------------------------------------------------------------------------
// Reports
// ---------------------------------------------------------------------------

/// A run that applied something, or would, is reported by a line that says so and then one
/// line for each name, in order. One that did not says that there was nothing to do.
pub proof fn law_run_report(
    applied: Seq<Seq<char>>,
    already_applied: Seq<Seq<char>>,
    dry_run: bool,
)
    ensures
        applied.len() > 0 ==> {
            let lines = run_lines(applied, already_applied, dry_run);
            &&& lines.len() == 1 + applied.len()
            &&& dry_run ==> lines[0] == "Would apply (in order):"@
            &&& !dry_run ==> lines[0] == "Applied "@ + decimal(applied.len()) + " migration(s):"@
            &&& forall|i: int| 0 <= i < applied.len() ==> lines[i + 1] == "  "@ + #[trigger] applied[i]
        },
        applied.len() == 0 ==> run_lines(applied, already_applied, true) == seq![
            "Nothing to apply."@,
        ],
        applied.len() == 0 ==> run_lines(applied, already_applied, false) == seq![
            "Already up to date ("@ + decimal(already_applied.len()) + " applied)."@,
        ],
{
    let lines = run_lines(applied, already_applied, dry_run);
    if applied.len() > 0 {
        assert forall|i: int| 0 <= i < applied.len() implies lines[i + 1] == "  "@
            + #[trigger] applied[i] by {
            assert(lines[i + 1] == indented(applied)[i]);
        }
    }
}

/// The reports of a conversion and of an import.
pub proof fn law_import_reports(count: nat, converted: nat, path: Seq<char>)
    ensures
        conversion_text(count, 0, path) == "Already converted ("@ + decimal(count)
            + " migration(s) already have headers). Nothing written."@,
        converted > 0 ==> conversion_text(count, converted, path) == "Converted "@ + decimal(
            converted,
        ) + " migration(s). Receipt written to: "@ + path
            + "\n\nNext step: kryzhen hack migrate-from sqlx import"@,
        import_text(count, true)
            == "Already imported (_sqlx_migrations not present). Nothing to do."@,
        import_text(count, false) == "Imported "@ + decimal(count)
            + " migration(s) into mallard.applied_migrations. _sqlx_migrations dropped."@
            + "\n\nYou can now use `kryzhen migrate` as normal."@,
        convert_phase_text(count, 0) == "already converted ("@ + decimal(count)
            + " migration(s))."@,
        converted > 0 ==> convert_phase_text(count, converted) == decimal(converted)
            + " migration(s) converted."@,
        import_phase_text(count, true) == "already imported (_sqlx_migrations not present)."@,
        import_phase_text(count, false) == decimal(count)
            + " migration(s) imported. _sqlx_migrations dropped."@,
{
    reveal_strlit("");
    assert(""@ + decimal(converted) =~= decimal(converted));
    assert(""@ + decimal(count) =~= decimal(count));
}

/// The reports of records edited by hand name the migration.
pub proof fn law_hack_reports(shown: Seq<char>)
    ensures
        added_text(shown) == "Recorded "@ + shown + " as applied."@,
        deleted_text(shown) == "Removed "@ + shown + " from applied_migrations."@,
        fixed_text(shown) == "Fixed checksum for "@ + shown + "."@,
{
}

// ---------------------------------------------------------------------------
// Errors
// ---------------------------------------------------------------------------

/// A list in brackets: the items with commas between them.
pub proof fn law_bracketed(a: Seq<Seq<char>>, item: Seq<char>)
    ensures
        bracketed(Seq::empty()) == "["@ + "]"@,
        bracketed(seq![item]) == "["@ + item + "]"@,
        a.len() > 0 ==> exists|list: Seq<char>| bracketed(a) == #[trigger] ("["@ + list + "]"@)
            && bracketed(a + seq![item]) == "["@ + (list + ", "@ + item) + "]"@,
{
    let none = Seq::<Seq<char>>::empty();
    law_join(none, none, item, ", "@);
    assert("["@ + Seq::<char>::empty() + "]"@ =~= "["@ + "]"@);
    if a.len() > 0 {
        law_join(a, seq![item], item, ", "@);
        let list = join(a, ", "@);
        assert(bracketed(a) == "["@ + list + "]"@);
    }
}

/// The messages of errors name the file, the migration or the migrations that they are about.
pub proof fn law_error_messages(e: Error)
    ensures
        match e {
            Error::Parse { file, message } => error_message(e) == "parse error in "@ + file@
                + ": "@ + message@,
            Error::DuplicateName(name) => error_message(e) == "duplicate migration name: "@ + name@,
            Error::DanglingDependency { migration, missing } => error_message(e) == "migration "@
                + migration@ + " requires "@ + missing@ + ", which does not exist"@,
            Error::Cycle(names) => {
                let shown = debug_names(names.deep_view());
                &&& error_message(e) == "dependency cycle detected involving: "@ + bracketed(shown)
                &&& shown.len() == names@.len()
                &&& forall|i: int|
                    0 <= i < names@.len() ==> shown[i] == "MigrationName("@ + debug_form(
                        (#[trigger] names@[i])@,
                    ) + ")"@
            },
            Error::ChecksumMismatch(name) => error_message(e)
                == "checksum mismatch for already-applied migration ["@ + name@
                + "]: file content changed — run `kryzhen hack fix-checksum "@ + name@
                + "` to update"@,
            Error::CorruptChecksum { name, len } => error_message(e) == "migration "@ + name@
                + " has a "@ + decimal(len as nat) + "-byte checksum in the database; expected 32"@,
        },
{
}

/// The messages of errors about records edited by hand.
pub proof fn law_hack_messages(e: HackError)
    ensures
        match e {
            HackError::NotFound(name) => hack_message(e) == "migration "@ + debug_form(name@)
                + " not found in the supplied migration list"@,
            HackError::UnsatisfiedRequires { name, missing } => hack_message(e) == "cannot add "@
                + debug_form(name@) + ": required migration "@ + debug_form(missing@)
                + " is not yet applied"@,
            HackError::HasDependents { name, dependents } => exists|shown: Seq<Seq<char>>|
                {
                    &&& hack_message(e) == "cannot delete "@ + debug_form(name@)
                        + ": it is required by applied migration(s): "@ + #[trigger] bracketed(
                        shown,
                    )
                    &&& shown.len() == dependents@.len()
                    &&& forall|i: int|
                        0 <= i < dependents@.len() ==> shown[i] == debug_form(
                            (#[trigger] dependents@[i])@,
                        )
                },
            HackError::Core(inner) => hack_message(e) == error_message(inner),
        },
{
    match e {
        HackError::HasDependents { name, dependents } => {
            let shown = dependents.deep_view().map_values(|n: Seq<char>| debug_form(n));
            assert(hack_message(e) == dependents_text(debug_form(name@), shown));
            assert(hack_message(e) == "cannot delete "@ + debug_form(name@)
                + ": it is required by applied migration(s): "@ + bracketed(shown));
        },
        _ => {},
    }
}

/// The messages of errors about an import.
pub proof fn law_import_messages(e: SqlxImportError)
    ensures
        match e {
            SqlxImportError::NoReceipt { path } => import_message(e) == "no receipt found at "@
                + path@ + "; run `kryzhen hack migrate-from sqlx convert` first"@,
            SqlxImportError::FileMissing { version, description, dir, sqlx_hex, hint } => {
                import_message(e) == "migration version "@ + signed_decimal(version as int) + " ("@
                    + debug_form(description@) + ") has no matching file in "@ + dir@
                    + "\n  sqlx checksum:  "@ + sqlx_hex@ + "\n"@ + hint@
            },
            SqlxImportError::ChecksumMismatch { filename, expected, got } => import_message(e)
                == "checksum mismatch for "@ + filename@ + ":\n  expected (sqlx): "@ + expected@
                + "\n  got (disk):      "@ + got@ + "\nThe file differs from what sqlx applied."@,
            SqlxImportError::ReceiptDbMismatch { name, receipt_hex, db_hex } => import_message(e)
                == "_sqlx_migrations checksum mismatch for "@ + name@ + ": receipt has "@
                + receipt_hex@ + ", DB has "@ + db_hex@,
            SqlxImportError::InconsistentHistory { missing_version, present_version } => {
                import_message(e) == "_sqlx_migrations contains version "@ + signed_decimal(
                    present_version as int,
                ) + " but its receipt predecessor version "@ + signed_decimal(
                    missing_version as int,
                ) + " is absent — history is inconsistent"@
            },
            SqlxImportError::UnknownMigration { version } => import_message(e)
                == "_sqlx_migrations contains version "@ + signed_decimal(version as int)
                + " which is not in the receipt — unknown migration; cannot import"@,
            SqlxImportError::MigrationNotSupplied { name } => import_message(e)
                == "I/O error: migration '"@ + name@ + "' not found in supplied migrations slice"@,
            SqlxImportError::Core(inner) => import_message(e) == error_message(inner),
        },
{
}

/// A name that no mode has is shown, with the names that there are.
pub proof fn law_unknown_mode_message(shown: Seq<char>)
    ensures
        unknown_mode(shown) == "unknown sslmode "@ + shown
            + "; use disable, prefer, require, verify-ca, or verify-full"@,
{
}

} // verus!
