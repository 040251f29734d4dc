//! The rows of `_sqlx_migrations`, the receipt of a conversion, and the errors of an import.
use super::text::{hex_of, normalised};
use crate::render::{i64_text, signed_decimal};
use crate::types::{debug_form, debug_text, error_message, Error};
use vstd::prelude::*;
use vstd::string::*;

verus! {

// ---------------------------------------------------------------------------
// Rows and entries
// ---------------------------------------------------------------------------

/// A row of `_sqlx_migrations`.
pub struct SqlxRow {
    pub version: i64,
    pub description: String,
    pub checksum: Vec<u8>,
}

/// A row as mathematical values.
pub struct SqlxRowView {
    pub version: i64,
    pub description: Seq<char>,
    pub checksum: Seq<u8>,
}

impl DeepView for SqlxRow {
    type V = SqlxRowView;

    open spec fn deep_view(&self) -> SqlxRowView {
        SqlxRowView {
            version: self.version,
            description: self.description@,
            checksum: self.checksum@,
        }
    }
}

/// One entry in the receipt: one sqlx migration.
#[derive(Debug)]
pub struct ReceiptEntry {
    pub version: i64,
    /// sqlx description field, e.g. `"create users"`.
    pub sqlx_description: String,
    /// Migration name derived from the description.
    pub kryzhen_name: String,
    /// Filename relative to the migrations directory, e.g. `"001_create_users.sql"`.
    pub filename: String,
    /// Hex SHA-384 as stored in `_sqlx_migrations.checksum`.
    pub sqlx_checksum_hex: String,
}

/// An entry as mathematical values.
pub struct EntryView {
    pub version: i64,
    pub sqlx_description: Seq<char>,
    pub kryzhen_name: Seq<char>,
    pub filename: Seq<char>,
    pub sqlx_checksum_hex: Seq<char>,
}

impl DeepView for ReceiptEntry {
    type V = EntryView;

    open spec fn deep_view(&self) -> EntryView {
        EntryView {
            version: self.version,
            sqlx_description: self.sqlx_description@,
            kryzhen_name: self.kryzhen_name@,
            filename: self.filename@,
            sqlx_checksum_hex: self.sqlx_checksum_hex@,
        }
    }
}

impl Clone for ReceiptEntry {
    fn clone(&self) -> (res: Self)
        ensures
            res.deep_view() == self.deep_view(),
    {
        ReceiptEntry {
            version: self.version,
            sqlx_description: self.sqlx_description.clone(),
            kryzhen_name: self.kryzhen_name.clone(),
            filename: self.filename.clone(),
            sqlx_checksum_hex: self.sqlx_checksum_hex.clone(),
        }
    }
}

/// The entry of a row whose migration was applied from `filename`.
pub open spec fn fresh_entry(row: SqlxRowView, filename: Seq<char>) -> EntryView {
    EntryView {
        version: row.version,
        sqlx_description: row.description,
        kryzhen_name: normalised(row.description),
        filename,
        sqlx_checksum_hex: hex_of(row.checksum),
    }
}

/// The entry of a version; of two with one version the later counts.
pub open spec fn entry_for(entries: Seq<EntryView>, version: i64) -> Option<EntryView>
    decreases entries.len(),
{
    if entries.len() == 0 {
        None
    } else if entries.last().version == version {
        Some(entries.last())
    } else {
        entry_for(entries.drop_last(), version)
    }
}

/// A version has an entry exactly where some entry bears it, and then it is the last one that
/// does.
pub proof fn law_entry_for(entries: Seq<EntryView>, version: i64)
    ensures
        entry_for(entries, version) is None <==> forall|i: int|
            0 <= i < entries.len() ==> (#[trigger] entries[i]).version != version,
        forall|i: int|
            0 <= i < entries.len() && (#[trigger] entries[i]).version == version && (forall|j: int|
                i < j < entries.len() ==> (#[trigger] entries[j]).version != version) ==> entry_for(
                entries,
                version,
            ) == Some(entries[i]),
        entry_for(entries, version) matches Some(e) ==> exists|i: int|
            {
                &&& 0 <= i < entries.len()
                &&& #[trigger] entries[i] == e
                &&& entries[i].version == version
                &&& forall|j: int| i < j < entries.len() ==> (#[trigger] entries[j]).version
                    != version
            },
    decreases entries.len(),
{
    if entries.len() > 0 {
        let n = entries.len() - 1;
        assert(entries[n] == entries.last());
        if entries.last().version != version {
            let front = entries.drop_last();
            law_entry_for(front, version);
            assert forall|i: int| 0 <= i < n implies front[i] == #[trigger] entries[i] by {}
            if entry_for(front, version) is None {
                assert forall|i: int| 0 <= i < entries.len() implies (
                #[trigger] entries[i]).version != version by {
                    if i < n {
                        assert(front[i].version != version);
                    }
                }
            } else {
                let e = entry_for(front, version)->0;
                let i = choose|i: int|
                    {
                        &&& 0 <= i < front.len()
                        &&& #[trigger] front[i] == e
                        &&& front[i].version == version
                        &&& forall|j: int| i < j < front.len() ==> (#[trigger] front[j]).version
                            != version
                    };
                assert(entries[i] == e);
                assert forall|j: int| i < j < entries.len() implies (#[trigger] entries[j]).version
                    != version by {
                    if j < n {
                        assert(front[j].version != version);
                    }
                }
                assert forall|k: int|
                    0 <= k < entries.len() && (#[trigger] entries[k]).version == version && (
                    forall|j: int|
                        k < j < entries.len() ==> (#[trigger] entries[j]).version
                            != version) implies entry_for(entries, version) == Some(entries[k]) by {
                    if k < i {
                        assert(entries[i].version != version);
                    }
                }
            }
        }
    }
}

/// Find the entry of a version.
pub fn find_entry<'a>(entries: &'a [ReceiptEntry], version: i64) -> (found: Option<
    &'a ReceiptEntry,
>)
    ensures
        match found {
            Some(e) => entry_for(entries.deep_view(), version) == Some(e.deep_view()),
            None => entry_for(entries.deep_view(), version) is None,
        },
{
    let ghost es = entries.deep_view();
    let mut i: usize = entries.len();
    assert(es.take(es.len() as int) =~= es);
    while i > 0
        invariant
            es == entries.deep_view(),
            i <= entries@.len(),
            entry_for(es, version) == entry_for(es.take(i as int), version),
        decreases i,
    {
        assert(es.take(i as int).drop_last() =~= es.take(i - 1));
        assert(es.take(i as int).last() == es[i - 1]);
        assert(es[i - 1] == entries@[i - 1].deep_view());
        if entries[i - 1].version == version {
            return Some(&entries[i - 1]);
        }
        i -= 1;
    }
    None
}

// ---------------------------------------------------------------------------
// Receipt
// ---------------------------------------------------------------------------

/// Conventional receipt filename within a migrations directory.
pub const RECEIPT_FILENAME: &'static str = ".kryzhen-import-receipt.json";

/// What a conversion leaves behind, to be kept alongside the rewritten migration files. It
/// holds the sqlx checksums needed to verify `_sqlx_migrations` on any machine before
/// importing.
#[derive(Debug)]
pub struct Receipt {
    pub migrations: Vec<ReceiptEntry>,
    /// Number of files rewritten this run (0 if all already had headers).
    pub newly_converted: usize,
    /// True when import found that `_sqlx_migrations` was already dropped.
    pub already_imported: bool,
}

/// A copy of a list of entries.
fn clone_entries(entries: &[ReceiptEntry]) -> (copy: Vec<ReceiptEntry>)
    ensures
        copy.deep_view() == entries.deep_view(),
{
    let mut copy: Vec<ReceiptEntry> = Vec::new();
    let mut i: usize = 0;
    while i < entries.len()
        invariant
            i <= entries@.len(),
            copy@.len() == i,
            forall|k: int|
                0 <= k < i ==> (#[trigger] copy@[k]).deep_view() == entries@[k].deep_view(),
        decreases entries@.len() - i,
    {
        copy.push(entries[i].clone());
        i += 1;
    }
    assert(copy.deep_view() =~= entries.deep_view());
    copy
}

impl Clone for Receipt {
    fn clone(&self) -> (res: Self)
        ensures
            res.migrations.deep_view() == self.migrations.deep_view(),
            res.newly_converted == self.newly_converted,
            res.already_imported == self.already_imported,
    {
        let list = self.migrations.as_slice();
        assert(list.deep_view() =~= self.migrations.deep_view());
        Receipt {
            migrations: clone_entries(list),
            newly_converted: self.newly_converted,
            already_imported: self.already_imported,
        }
    }
}

impl Receipt {
    /// What import answers when there is nothing left to import.
    pub fn imported_before(&self) -> (res: Receipt)
        ensures
            res.migrations.deep_view() == self.migrations.deep_view(),
            res.newly_converted == self.newly_converted,
            res.already_imported,
    {
        let mut res = self.clone();
        res.already_imported = true;
        res
    }
}

// ---------------------------------------------------------------------------
// Errors
// ---------------------------------------------------------------------------

/// Errors specific to the import from sqlx.
#[derive(Debug)]
pub enum SqlxImportError {
    NoReceipt { path: String },
    FileMissing {
        version: i64,
        description: String,
        dir: String,
        sqlx_hex: String,
        /// What is known of a file that the migration may have been applied from.
        hint: String,
    },
    ChecksumMismatch { filename: String, expected: String, got: String },
    ReceiptDbMismatch { name: String, receipt_hex: String, db_hex: String },
    InconsistentHistory { missing_version: i64, present_version: i64 },
    UnknownMigration { version: i64 },
    /// No migration of this name was supplied.
    MigrationNotSupplied { name: String },
    Core(Error),
}

/// The message for a migration that no file matches, given how its description is shown.
pub open spec fn file_missing_text(
    version: i64,
    shown: Seq<char>,
    dir: Seq<char>,
    sqlx_hex: Seq<char>,
    hint: Seq<char>,
) -> Seq<char> {
    "migration version "@ + signed_decimal(version as int) + " ("@ + shown
        + ") has no matching file in "@ + dir + "\n  sqlx checksum:  "@ + sqlx_hex + "\n"@ + hint
}

/// The message for a migration that no file matches, given how its description is shown.
pub fn file_missing_message(version: i64, shown: &str, dir: &str, sqlx_hex: &str, hint: &str) -> (s:
    String)
    ensures
        s@ == file_missing_text(version, shown@, dir@, sqlx_hex@, hint@),
{
    let mut s = String::new();
    s.append("migration version ");
    s.append(i64_text(version).as_str());
    s.append(" (");
    s.append(shown);
    s.append(") has no matching file in ");
    s.append(dir);
    s.append("\n  sqlx checksum:  ");
    s.append(sqlx_hex);
    s.append("\n");
    s.append(hint);
    s
}

/// The message of an error.
pub open spec fn import_message(e: SqlxImportError) -> Seq<char> {
    match e {
        SqlxImportError::NoReceipt { path } => "no receipt found at "@ + path@
            + "; run `kryzhen hack migrate-from sqlx convert` first"@,
        SqlxImportError::FileMissing { version, description, dir, sqlx_hex, hint } => {
            file_missing_text(version, debug_form(description@), dir@, sqlx_hex@, hint@)
        },
        SqlxImportError::ChecksumMismatch { filename, expected, got } => "checksum mismatch for "@
            + filename@ + ":\n  expected (sqlx): "@ + expected@ + "\n  got (disk):      "@ + got@
            + "\nThe file differs from what sqlx applied."@,
        SqlxImportError::ReceiptDbMismatch { name, receipt_hex, db_hex } => {
            "_sqlx_migrations checksum mismatch for "@ + name@ + ": receipt has "@ + receipt_hex@
                + ", DB has "@ + db_hex@
        },
        SqlxImportError::InconsistentHistory { missing_version, present_version } => {
            "_sqlx_migrations contains version "@ + signed_decimal(present_version as int)
                + " but its receipt predecessor version "@ + signed_decimal(missing_version as int)
                + " is absent — history is inconsistent"@
        },
        SqlxImportError::UnknownMigration { version } => "_sqlx_migrations contains version "@
            + signed_decimal(version as int)
            + " which is not in the receipt — unknown migration; cannot import"@,
        SqlxImportError::MigrationNotSupplied { name } => "I/O error: migration '"@ + name@
            + "' not found in supplied migrations slice"@,
        SqlxImportError::Core(e) => error_message(e),
    }
}

impl SqlxImportError {
    /// The error's message.
    pub fn to_string(&self) -> (s: String)
        ensures
            s@ == import_message(*self),
    {
        let mut s = String::new();
        match self {
            SqlxImportError::NoReceipt { path } => {
                s.append("no receipt found at ");
                s.append(path.as_str());
                s.append("; run `kryzhen hack migrate-from sqlx convert` first");
            },
            SqlxImportError::FileMissing { version, description, dir, sqlx_hex, hint } => {
                s.append(
                    file_missing_message(
                        *version,
                        debug_text(description.as_str()).as_str(),
                        dir.as_str(),
                        sqlx_hex.as_str(),
                        hint.as_str(),
                    ).as_str(),
                );
            },
            SqlxImportError::ChecksumMismatch { filename, expected, got } => {
                s.append("checksum mismatch for ");
                s.append(filename.as_str());
                s.append(":\n  expected (sqlx): ");
                s.append(expected.as_str());
                s.append("\n  got (disk):      ");
                s.append(got.as_str());
                s.append("\nThe file differs from what sqlx applied.");
            },
            SqlxImportError::ReceiptDbMismatch { name, receipt_hex, db_hex } => {
                s.append("_sqlx_migrations checksum mismatch for ");
                s.append(name.as_str());
                s.append(": receipt has ");
                s.append(receipt_hex.as_str());
                s.append(", DB has ");
                s.append(db_hex.as_str());
            },
            SqlxImportError::InconsistentHistory { missing_version, present_version } => {
                s.append("_sqlx_migrations contains version ");
                s.append(i64_text(*present_version).as_str());
                s.append(" but its receipt predecessor version ");
                s.append(i64_text(*missing_version).as_str());
                s.append(" is absent — history is inconsistent");
            },
            SqlxImportError::UnknownMigration { version } => {
                s.append("_sqlx_migrations contains version ");
                s.append(i64_text(*version).as_str());
                s.append(" which is not in the receipt — unknown migration; cannot import");
            },
            SqlxImportError::MigrationNotSupplied { name } => {
                s.append("I/O error: migration '");
                s.append(name.as_str());
                s.append("' not found in supplied migrations slice");
            },
            SqlxImportError::Core(e) => {
                s.append(e.to_string().as_str());
            },
        }
        assert(s@ =~= import_message(*self));
        s
    }
}

} // verus!
