//! What the mathematical values of the library's types hold: every field, in full.
use crate::connection::Attempt;
use crate::file::SourceFile;
use crate::ledger::{AppliedRow, ChecksumRow};
use crate::sqlx_import::convert::FileDigest;
use crate::sqlx_import::receipt::{ReceiptEntry, SqlxRow};
use crate::types::{Migration, MigrationName};
use vstd::prelude::*;
use vstd::string::*;

verus! {

/// The value of a migration holds its name, its description, every name that it requires, its
/// script and its checksum.
pub proof fn law_migration_view(m: Migration)
    ensures
        m@.name == m.name.0@,
        m@.description == m.description@,
        m@.requires.len() == m.requires@.len(),
        forall|i: int| 0 <= i < m.requires@.len() ==> m@.requires[i] == (#[trigger] m.requires@[i]).0@,
        m@.script == m.script@,
        m@.checksum == m.checksum@,
        m.deep_view() == m@,
{
}

/// The value of a migration name is its text.
pub proof fn law_name_view(n: MigrationName)
    ensures
        n@ == n.0@,
        n.deep_view() == n.0@,
{
}

/// The values of rows hold what the rows hold.
pub proof fn law_row_views(c: ChecksumRow, a: AppliedRow, r: SqlxRow)
    ensures
        c.deep_view().name == c.name@,
        c.deep_view().checksum == c.checksum@,
        a.deep_view().name == a.name.0@,
        a.deep_view().requires.len() == a.requires@.len(),
        forall|i: int|
            0 <= i < a.requires@.len() ==> a.deep_view().requires[i] == (
            #[trigger] a.requires@[i]).0@,
        r.deep_view().version == r.version,
        r.deep_view().description == r.description@,
        r.deep_view().checksum == r.checksum@,
{
}

/// The value of a receipt's entry holds what the entry holds.
pub proof fn law_entry_view(e: ReceiptEntry)
    ensures
        e.deep_view().version == e.version,
        e.deep_view().sqlx_description == e.sqlx_description@,
        e.deep_view().kryzhen_name == e.kryzhen_name@,
        e.deep_view().filename == e.filename@,
        e.deep_view().sqlx_checksum_hex == e.sqlx_checksum_hex@,
{
}

/// The values of files hold what the files hold, and those of attempts what the attempts hold.
pub proof fn law_file_views(s: SourceFile, d: FileDigest, a: Attempt)
    ensures
        s.deep_view().label == s.label@,
        s.deep_view().text == s.text@,
        d.deep_view().filename == d.filename@,
        d.deep_view().checksum == d.checksum@,
        a.deep_view().conn_str == a.conn_str@,
        a.deep_view().tls == a.tls,
{
}

} // verus!
