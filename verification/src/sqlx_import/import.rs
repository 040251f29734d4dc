//! Phase two: verify `_sqlx_migrations` against a receipt, and say what is to be recorded.
use super::convert::{
    is_converted, law_entries_are_found, law_entries_match_rows, versions_are_distinct,
    FileDigestView,
};
use super::receipt::{
    entry_for, find_entry, law_entry_for, EntryView, ReceiptEntry, SqlxImportError, SqlxRow, SqlxRowView,
};
use super::text::{hex, hex_of};
use crate::graph::{by_name, is_sorted, names_of};
use crate::ledger::AppliedMigrations;
use crate::run::{
    law_plan_is_a_partition, law_prepare_keeps_migrations, lemma_recorded, pending, recorded,
};
use crate::text::same_text;
use crate::types::{Migration, MigrationName, MigrationView};
use crate::validation::{differs_at, unique_names};
use vstd::prelude::*;
use vstd::string::*;

verus! {

// ---------------------------------------------------------------------------
// Verifying the history
// ---------------------------------------------------------------------------

/// The receipt has an entry for the row, with the row's checksum.
pub open spec fn is_vouched_for(entries: Seq<EntryView>, row: SqlxRowView) -> bool {
    entry_for(entries, row.version) matches Some(e) && e.sqlx_checksum_hex == hex_of(row.checksum)
}

/// A row has this version.
pub open spec fn has_version(rows: Seq<SqlxRowView>, version: i64) -> bool {
    exists|i: int| 0 <= i < rows.len() && (#[trigger] rows[i]).version == version
}

/// The receipt has an entry `j` before row `i`, and no row has its version.
pub open spec fn is_gap(
    entries: Seq<EntryView>,
    rows: Seq<SqlxRowView>,
    i: int,
    j: int,
) -> bool {
    &&& 0 <= i < rows.len()
    &&& 0 <= j < entries.len()
    &&& entries[j].version < rows[i].version
    &&& !has_version(rows, entries[j].version)
}

/// Whether a row has a version.
fn any_version(rows: &[SqlxRow], version: i64) -> (r: bool)
    ensures
        r == has_version(rows.deep_view(), version),
{
    let ghost vs = rows.deep_view();
    let mut i: usize = 0;
    while i < rows.len()
        invariant
            vs == rows.deep_view(),
            i <= rows@.len(),
            forall|j: int| 0 <= j < i ==> (#[trigger] vs[j]).version != version,
        decreases rows@.len() - i,
    {
        assert(vs[i as int] == rows@[i as int].deep_view());
        if rows[i].version == version {
            return true;
        }
        i += 1;
    }
    false
}

/// The first row that the receipt does not vouch for.
fn check_rows(entries: &[ReceiptEntry], rows: &[SqlxRow]) -> (r: Result<(), SqlxImportError>)
    ensures
        match r {
            Ok(()) => forall|i: int|
                0 <= i < rows@.len() ==> is_vouched_for(
                    entries.deep_view(),
                    #[trigger] rows.deep_view()[i],
                ),
            Err(e) => exists|i: int| #[trigger]
                refuses_row(entries.deep_view(), rows.deep_view(), i, e),
        },
{
    let ghost es = entries.deep_view();
    let ghost vs = rows.deep_view();
    let mut i: usize = 0;
    while i < rows.len()
        invariant
            es == entries.deep_view(),
            vs == rows.deep_view(),
            i <= rows@.len(),
            forall|j: int| 0 <= j < i ==> is_vouched_for(es, #[trigger] vs[j]),
        decreases rows@.len() - i,
    {
        let row = &rows[i];
        assert(vs[i as int] == row.deep_view());
        let db_hex = hex(row.checksum.as_slice());
        match find_entry(entries, row.version) {
            Some(entry) => {
                if !same_text(db_hex.as_str(), entry.sqlx_checksum_hex.as_str()) {
                    let e = SqlxImportError::ReceiptDbMismatch {
                        name: entry.kryzhen_name.clone(),
                        receipt_hex: entry.sqlx_checksum_hex.clone(),
                        db_hex,
                    };
                    assert(refuses_row(es, vs, i as int, e));
                    return Err(e);
                }
            },
            None => {
                let e = SqlxImportError::UnknownMigration { version: row.version };
                assert(refuses_row(es, vs, i as int, e));
                return Err(e);
            },
        }
        i += 1;
    }
    Ok(())
}

/// `e` is the error for row `i`, the first that the receipt does not vouch for.
pub open spec fn refuses_row(
    entries: Seq<EntryView>,
    rows: Seq<SqlxRowView>,
    i: int,
    e: SqlxImportError,
) -> bool {
    &&& 0 <= i < rows.len()
    &&& forall|j: int| 0 <= j < i ==> is_vouched_for(entries, #[trigger] rows[j])
    &&& match entry_for(entries, rows[i].version) {
        Some(entry) => {
            &&& entry.sqlx_checksum_hex != hex_of(rows[i].checksum)
            &&& e matches SqlxImportError::ReceiptDbMismatch { name, receipt_hex, db_hex }
            &&& name@ == entry.kryzhen_name
            &&& receipt_hex@ == entry.sqlx_checksum_hex
            &&& db_hex@ == hex_of(rows[i].checksum)
        },
        None => e matches SqlxImportError::UnknownMigration { version } && version
            == rows[i].version,
    }
}

/// `e` is the error for the gap at row `i` and entry `j`, the first of all by row and then by
/// entry.
pub open spec fn reports_gap(
    entries: Seq<EntryView>,
    rows: Seq<SqlxRowView>,
    i: int,
    j: int,
    e: SqlxImportError,
) -> bool {
    &&& is_gap(entries, rows, i, j)
    &&& forall|a: int, b: int| a < i || (a == i && b < j) ==> !#[trigger] is_gap(entries, rows, a, b)
    &&& e matches SqlxImportError::InconsistentHistory { missing_version, present_version }
    &&& missing_version == entries[j].version
    &&& present_version == rows[i].version
}

/// Verify the rows of `_sqlx_migrations` against the entries of a receipt: each row must have
/// an entry with its checksum, and every entry with a lower version than some row must have a
/// row too.
pub fn check_history(entries: &[ReceiptEntry], rows: &[SqlxRow]) -> (r: Result<
    (),
    SqlxImportError,
>)
    ensures
        ({
            let es = entries.deep_view();
            let vs = rows.deep_view();
            let vouched = forall|i: int|
                0 <= i < vs.len() ==> is_vouched_for(es, #[trigger] vs[i]);
            match r {
                Ok(()) => {
                    &&& vouched
                    &&& forall|i: int, j: int| !#[trigger] is_gap(es, vs, i, j)
                    &&& forall|i: int, j: int|
                        0 <= i < vs.len() && 0 <= j < es.len() && (#[trigger] es[j]).version < (
                        #[trigger] vs[i]).version ==> exists|k: int|
                            0 <= k < vs.len() && (#[trigger] vs[k]).version == es[j].version
                },
                Err(e) => {
                    ||| exists|i: int| #[trigger] refuses_row(es, vs, i, e)
                    ||| vouched && exists|i: int, j: int| #[trigger] reports_gap(es, vs, i, j, e)
                },
            }
        }),
{
    let ghost es = entries.deep_view();
    let ghost vs = rows.deep_view();
    match check_rows(entries, rows) {
        Ok(()) => {},
        Err(e) => return Err(e),
    }
    let mut i: usize = 0;
    while i < rows.len()
        invariant
            es == entries.deep_view(),
            vs == rows.deep_view(),
            i <= rows@.len(),
            forall|k: int| 0 <= k < vs.len() ==> is_vouched_for(es, #[trigger] vs[k]),
            forall|a: int, b: int| a < i ==> !#[trigger] is_gap(es, vs, a, b),
        decreases rows@.len() - i,
    {
        let mut j: usize = 0;
        while j < entries.len()
            invariant
                es == entries.deep_view(),
                vs == rows.deep_view(),
                i < rows@.len(),
                j <= entries@.len(),
                forall|k: int| 0 <= k < vs.len() ==> is_vouched_for(es, #[trigger] vs[k]),
                forall|a: int, b: int|
                    a < i || (a == i && b < j) ==> !#[trigger] is_gap(es, vs, a, b),
            decreases entries@.len() - j,
        {
            assert(vs[i as int] == rows@[i as int].deep_view());
            assert(es[j as int] == entries@[j as int].deep_view());
            if entries[j].version < rows[i].version && !any_version(rows, entries[j].version) {
                let e = SqlxImportError::InconsistentHistory {
                    missing_version: entries[j].version,
                    present_version: rows[i].version,
                };
                assert(reports_gap(es, vs, i as int, j as int, e));
                return Err(e);
            }
            assert(!is_gap(es, vs, i as int, j as int));
            j += 1;
        }
        assert forall|a: int, b: int| a < i + 1 implies !#[trigger] is_gap(es, vs, a, b) by {
            if a == i && b < entries@.len() {
                assert(!is_gap(es, vs, a, b));
            }
        }
        i += 1;
    }
    assert forall|a: int, b: int| !#[trigger] is_gap(es, vs, a, b) by {
        if a >= rows@.len() {
            assert(!is_gap(es, vs, a, b));
        }
    }
    proof {
        law_history_without_gap(es, vs);
    }
    Ok(())
}

/// A receipt vouches for a row exactly where an entry bears the row's version and holds its
/// checksum in hex, and no later entry bears that version.
pub proof fn law_vouched_for(entries: Seq<EntryView>, row: SqlxRowView)
    ensures
        is_vouched_for(entries, row) <==> exists|i: int|
            {
                &&& 0 <= i < entries.len()
                &&& (#[trigger] entries[i]).version == row.version
                &&& entries[i].sqlx_checksum_hex == hex_of(row.checksum)
                &&& forall|j: int| i < j < entries.len() ==> (#[trigger] entries[j]).version
                    != row.version
            },
{
    law_entry_for(entries, row.version);
}

/// A history has no gap exactly where every entry of the receipt that is older than some row
/// has a row of its own: the versions of the rows are the first ones of the receipt.
pub proof fn law_history_without_gap(entries: Seq<EntryView>, rows: Seq<SqlxRowView>)
    ensures
        (forall|i: int, j: int| !#[trigger] is_gap(entries, rows, i, j)) <==> (forall|
            i: int,
            j: int,
        |
            0 <= i < rows.len() && 0 <= j < entries.len() && (#[trigger] entries[j]).version < (
            #[trigger] rows[i]).version ==> exists|k: int|
                0 <= k < rows.len() && (#[trigger] rows[k]).version == entries[j].version),
{
    if forall|i: int, j: int| !#[trigger] is_gap(entries, rows, i, j) {
        assert forall|i: int, j: int|
            0 <= i < rows.len() && 0 <= j < entries.len() && (#[trigger] entries[j]).version < (
            #[trigger] rows[i]).version implies exists|k: int|
            0 <= k < rows.len() && (#[trigger] rows[k]).version == entries[j].version by {
            assert(!is_gap(entries, rows, i, j));
        }
    }
}

// ---------------------------------------------------------------------------
// Planning
// ---------------------------------------------------------------------------

/// The entries whose versions were applied on this database, in receipt order.
pub open spec fn applied_entries(entries: Seq<EntryView>, rows: Seq<SqlxRowView>) -> Seq<
    EntryView,
> {
    entries.filter(|e: EntryView| has_version(rows, e.version))
}

/// The first migration that bears `name`.
pub open spec fn named(ms: Seq<MigrationView>, name: Seq<char>) -> Option<MigrationView>
    decreases ms.len(),
{
    if ms.len() == 0 {
        None
    } else if ms[0].name == name {
        Some(ms[0])
    } else {
        named(ms.skip(1), name)
    }
}

/// What is recorded for the entry at position `i`: it requires the entry before it, and has
/// the body and the checksum of the migration `m`.
pub open spec fn record_of(entries: Seq<EntryView>, i: int, m: MigrationView) -> MigrationView {
    MigrationView {
        name: entries[i].kryzhen_name,
        description: if entries[i].sqlx_description.len() == 0 {
            entries[i].kryzhen_name
        } else {
            entries[i].sqlx_description
        },
        requires: if i > 0 {
            seq![entries[i - 1].kryzhen_name]
        } else {
            seq![]
        },
        script: m.script,
        checksum: m.checksum,
    }
}

/// What is to be recorded for the first `k` of the applied entries, and the name of the first
/// of them that is neither stored nor among the migrations. Nothing behind that one counts.
pub open spec fn planned(
    entries: Seq<EntryView>,
    stored: Map<Seq<char>, Seq<u8>>,
    ms: Seq<MigrationView>,
    k: int,
) -> (Seq<MigrationView>, Option<Seq<char>>)
    decreases k,
{
    if k <= 0 {
        (seq![], None)
    } else {
        let (records, missing) = planned(entries, stored, ms, k - 1);
        let name = entries[k - 1].kryzhen_name;
        if missing is Some || stored.contains_key(name) {
            (records, missing)
        } else {
            match named(ms, name) {
                Some(m) => (records.push(record_of(entries, k - 1, m)), None),
                None => (records, Some(name)),
            }
        }
    }
}

/// What an import records, one after the other, and the error in which it ends, if any.
pub struct ImportPlan {
    pub records: Vec<Migration>,
    pub failure: Option<SqlxImportError>,
}

/// Find the first migration that bears a name.
fn find_named<'a>(ms: &'a [Migration], name: &str) -> (found: Option<&'a Migration>)
    ensures
        match found {
            Some(m) => named(ms.deep_view(), name@) == Some(m@),
            None => named(ms.deep_view(), name@) is None,
        },
{
    let ghost vs = ms.deep_view();
    let mut i: usize = 0;
    assert(vs.skip(0) =~= vs);
    while i < ms.len()
        invariant
            vs == ms.deep_view(),
            i <= ms@.len(),
            named(vs, name@) == named(vs.skip(i as int), name@),
        decreases ms@.len() - i,
    {
        assert(vs[i as int] == ms@[i as int]@);
        assert(vs.skip(i as int).skip(1) =~= vs.skip(i + 1));
        if same_text(ms[i].name.0.as_str(), name) {
            return Some(&ms[i]);
        }
        i += 1;
    }
    None
}

/// The entries whose versions were applied on this database.
fn keep_applied(entries: &[ReceiptEntry], rows: &[SqlxRow]) -> (kept: Vec<ReceiptEntry>)
    ensures
        kept.deep_view() == applied_entries(entries.deep_view(), rows.deep_view()),
{
    let ghost es = entries.deep_view();
    let ghost vs = rows.deep_view();
    let mut kept: Vec<ReceiptEntry> = Vec::new();
    let mut i: usize = 0;
    proof {
        reveal(Seq::filter);
        assert(es.take(0) =~= Seq::<EntryView>::empty());
        assert(kept.deep_view() =~= applied_entries(es.take(0), vs));
    }
    while i < entries.len()
        invariant
            es == entries.deep_view(),
            vs == rows.deep_view(),
            i <= entries@.len(),
            kept.deep_view() == applied_entries(es.take(i as int), vs),
        decreases entries@.len() - i,
    {
        let ghost before = kept.deep_view();
        proof {
            reveal(Seq::filter);
            assert(es[i as int] == entries@[i as int].deep_view());
            assert(es.take(i + 1).drop_last() =~= es.take(i as int));
            assert(es.take(i + 1).last() == es[i as int]);
        }
        if any_version(rows, entries[i].version) {
            kept.push(entries[i].clone());
            assert(kept.deep_view() =~= before.push(es[i as int]));
        }
        i += 1;
    }
    assert(es.take(es.len() as int) =~= es);
    kept
}

/// What is recorded for an entry.
fn make_record(entries: &Vec<ReceiptEntry>, i: usize, m: &Migration) -> (record: Migration)
    requires
        i < entries@.len(),
    ensures
        record@ == record_of(entries.deep_view(), i as int, m@),
{
    let entry = &entries[i];
    assert(entries.deep_view()[i as int] == entry.deep_view());
    let description = if entry.sqlx_description.as_str().unicode_len() == 0 {
        entry.kryzhen_name.clone()
    } else {
        entry.sqlx_description.clone()
    };
    let mut needed: Vec<MigrationName> = Vec::new();
    if i > 0 {
        assert(entries.deep_view()[i - 1] == entries@[i - 1].deep_view());
        needed.push(MigrationName(entries[i - 1].kryzhen_name.clone()));
    }
    let record = Migration {
        name: MigrationName(entry.kryzhen_name.clone()),
        description,
        requires: needed,
        script: m.script.clone(),
        checksum: m.checksum,
    };
    assert(record.requires.deep_view() =~= record_of(
        entries.deep_view(),
        i as int,
        m@,
    ).requires);
    record
}

/// Say what is to be recorded: for each entry that was applied on this database and is not
/// stored yet, the migration of its name, requiring the entry before it. An entry of whose
/// name no migration was supplied ends the import.
pub fn plan_import(
    entries: &[ReceiptEntry],
    rows: &[SqlxRow],
    stored: &AppliedMigrations,
    migrations: &[Migration],
) -> (plan: ImportPlan)
    ensures
        ({
            let es = applied_entries(entries.deep_view(), rows.deep_view());
            let (records, missing) = planned(
                es,
                stored@,
                migrations.deep_view(),
                es.len() as int,
            );
            &&& plan.records.deep_view() == records
            &&& match plan.failure {
                Some(e) => e matches SqlxImportError::MigrationNotSupplied { name } && missing
                    == Some(name@),
                None => missing is None,
            }
        }),
{
    let applied = keep_applied(entries, rows);
    let ghost es = applied.deep_view();
    let ghost ms = migrations.deep_view();
    let mut records: Vec<Migration> = Vec::new();
    let mut i: usize = 0;
    assert(records.deep_view() =~= Seq::<MigrationView>::empty());
    while i < applied.len()
        invariant
            es == applied.deep_view(),
            es == applied_entries(entries.deep_view(), rows.deep_view()),
            ms == migrations.deep_view(),
            i <= applied@.len(),
            planned(es, stored@, ms, i as int) == (
                records.deep_view(),
                None::<Seq<char>>,
            ),
        decreases applied@.len() - i,
    {
        let name = MigrationName(applied[i].kryzhen_name.clone());
        assert(es[i as int] == applied@[i as int].deep_view());
        if !stored.contains_key(&name) {
            match find_named(migrations, name.0.as_str()) {
                Some(m) => {
                    let ghost before = records.deep_view();
                    let record = make_record(&applied, i, m);
                    let ghost added = record@;
                    records.push(record);
                    assert(records.deep_view() =~= before.push(added));
                },
                None => {
                    proof {
                        lemma_failure_is_final(es, stored@, ms, i + 1, es.len() as int);
                    }
                    return ImportPlan {
                        records,
                        failure: Some(SqlxImportError::MigrationNotSupplied { name: name.0 }),
                    };
                },
            }
        }
        i += 1;
    }
    ImportPlan { records, failure: None }
}

/// Nothing counts behind an entry that ends the import.
proof fn lemma_failure_is_final(
    entries: Seq<EntryView>,
    stored: Map<Seq<char>, Seq<u8>>,
    ms: Seq<MigrationView>,
    k: int,
    n: int,
)
    requires
        k <= n,
        planned(entries, stored, ms, k).1 is Some,
    ensures
        planned(entries, stored, ms, n) == planned(entries, stored, ms, k),
    decreases n - k,
{
    if k < n {
        lemma_failure_is_final(entries, stored, ms, k, n - 1);
    }
}

// ---------------------------------------------------------------------------
// Laws
// ---------------------------------------------------------------------------

/// Convert, then import: on the rows from which a receipt was made, the history is verified.
pub proof fn law_converted_history_verifies(
    rows: Seq<SqlxRowView>,
    known: Seq<EntryView>,
    files: Seq<FileDigestView>,
    entries: Seq<EntryView>,
)
    requires
        is_converted(rows, known, files, entries),
        versions_are_distinct(rows),
    ensures
        forall|i: int| 0 <= i < rows.len() ==> is_vouched_for(entries, #[trigger] rows[i]),
        forall|i: int, j: int| !#[trigger] is_gap(entries, rows, i, j),
        applied_entries(entries, rows) == entries,
{
    assert forall|i: int| 0 <= i < rows.len() implies is_vouched_for(
        entries,
        #[trigger] rows[i],
    ) by {
        law_entries_are_found(rows, known, files, entries, i);
        law_entries_match_rows(rows, known, files, entries, i);
    }
    assert forall|j: int| 0 <= j < entries.len() implies has_version(
        rows,
        (#[trigger] entries[j]).version,
    ) by {
        law_entries_match_rows(rows, known, files, entries, j);
        assert(rows[j].version == entries[j].version);
    }
    lemma_filter_all(entries, rows);
}

/// On a database that is behind, where only the first `k` of the rows from which a receipt was
/// made were applied, the history is verified too.
pub proof fn law_earlier_history_verifies(
    rows: Seq<SqlxRowView>,
    known: Seq<EntryView>,
    files: Seq<FileDigestView>,
    entries: Seq<EntryView>,
    k: int,
)
    requires
        is_converted(rows, known, files, entries),
        forall|i: int, j: int|
            0 <= i < j < rows.len() ==> (#[trigger] rows[i]).version < (#[trigger] rows[j]).version,
        0 <= k <= rows.len(),
    ensures
        forall|i: int| 0 <= i < k ==> is_vouched_for(entries, #[trigger] rows.take(k)[i]),
        forall|i: int, j: int| !#[trigger] is_gap(entries, rows.take(k), i, j),
{
    law_converted_history_verifies(rows, known, files, entries);
    assert forall|i: int| 0 <= i < k implies is_vouched_for(
        entries,
        #[trigger] rows.take(k)[i],
    ) by {
        assert(is_vouched_for(entries, rows[i]));
    }
    assert forall|i: int, j: int| !#[trigger] is_gap(entries, rows.take(k), i, j) by {
        if is_gap(entries, rows.take(k), i, j) {
            law_entries_match_rows(rows, known, files, entries, j);
            assert(rows[j].version < rows[i].version);
            assert(j < i);
            assert(rows.take(k)[j].version == entries[j].version);
        }
    }
}

/// Where each entry was applied, all of them are kept.
proof fn lemma_filter_all(entries: Seq<EntryView>, rows: Seq<SqlxRowView>)
    requires
        forall|j: int|
            0 <= j < entries.len() ==> has_version(rows, (#[trigger] entries[j]).version),
    ensures
        applied_entries(entries, rows) == entries,
    decreases entries.len(),
{
    reveal(Seq::filter);
    if entries.len() > 0 {
        let t = entries.drop_last();
        assert forall|j: int| 0 <= j < t.len() implies has_version(
            rows,
            (#[trigger] t[j]).version,
        ) by {
            assert(t[j] == entries[j]);
        }
        lemma_filter_all(t, rows);
        assert(has_version(rows, entries[entries.len() - 1].version));
        assert(t.push(entries.last()) =~= entries);
    } else {
        assert(entries =~= Seq::<EntryView>::empty());
    }
}

/// Importing again records nothing: where all the applied entries are stored, there is nothing
/// to record and no migration is missed.
pub proof fn law_reimport_records_nothing(
    entries: Seq<EntryView>,
    stored: Map<Seq<char>, Seq<u8>>,
    ms: Seq<MigrationView>,
    k: int,
)
    requires
        0 <= k <= entries.len(),
        forall|i: int|
            0 <= i < entries.len() ==> stored.contains_key((#[trigger] entries[i]).kryzhen_name),
    ensures
        planned(entries, stored, ms, k) == (Seq::<MigrationView>::empty(), None::<Seq<char>>),
    decreases k,
{
    if k > 0 {
        law_reimport_records_nothing(entries, stored, ms, k - 1);
        assert(stored.contains_key(entries[k - 1].kryzhen_name));
    }
}

/// After an import that did not fail, every applied entry is stored: either it was before, or
/// it is among what the import recorded. What it recorded was not stored before.
pub proof fn law_import_stores_every_entry(
    entries: Seq<EntryView>,
    stored: Map<Seq<char>, Seq<u8>>,
    ms: Seq<MigrationView>,
    k: int,
)
    requires
        0 <= k <= entries.len(),
        planned(entries, stored, ms, k).1 is None,
    ensures
        forall|i: int|
            0 <= i < k ==> stored.contains_key((#[trigger] entries[i]).kryzhen_name) || exists|
                p: int,
            |
                0 <= p < planned(entries, stored, ms, k).0.len() && (#[trigger] planned(
                    entries,
                    stored,
                    ms,
                    k,
                ).0[p]).name == entries[i].kryzhen_name,
        forall|p: int|
            0 <= p < planned(entries, stored, ms, k).0.len() ==> !stored.contains_key(
                (#[trigger] planned(entries, stored, ms, k).0[p]).name,
            ),
    decreases k,
{
    if k > 0 {
        let (before, missing) = planned(entries, stored, ms, k - 1);
        let (after, _) = planned(entries, stored, ms, k);
        law_import_stores_every_entry(entries, stored, ms, k - 1);
        assert forall|i: int| 0 <= i < k implies stored.contains_key(
            (#[trigger] entries[i]).kryzhen_name,
        ) || exists|p: int|
            0 <= p < after.len() && (#[trigger] after[p]).name == entries[i].kryzhen_name by {
            if !stored.contains_key(entries[i].kryzhen_name) {
                if i < k - 1 {
                    let p = choose|p: int|
                        0 <= p < before.len() && (#[trigger] before[p]).name
                            == entries[i].kryzhen_name;
                    assert(after[p].name == entries[i].kryzhen_name);
                } else {
                    assert(after[after.len() - 1].name == entries[i].kryzhen_name);
                }
            }
        }
        assert forall|p: int| 0 <= p < after.len() implies !stored.contains_key(
            (#[trigger] after[p]).name,
        ) by {
            if p < before.len() {
                assert(after[p] == before[p]);
            }
        }
    }
}

/// However far an import gets, what it has recorded by then has all that it requires: the
/// migration before it is stored, or was recorded earlier.
pub proof fn law_import_requires_are_met(
    entries: Seq<EntryView>,
    stored: Map<Seq<char>, Seq<u8>>,
    ms: Seq<MigrationView>,
    k: int,
    p: int,
    r: Seq<char>,
)
    requires
        0 <= k <= entries.len(),
        0 <= p < planned(entries, stored, ms, k).0.len(),
        planned(entries, stored, ms, k).0[p].requires.contains(r),
    ensures
        stored.contains_key(r) || exists|q: int|
            0 <= q < p && (#[trigger] planned(entries, stored, ms, k).0[q]).name == r,
    decreases k,
{
    if k > 0 {
        let (before, missing) = planned(entries, stored, ms, k - 1);
        let (after, _) = planned(entries, stored, ms, k);
        if p < before.len() {
            assert(after[p] == before[p]);
            law_import_requires_are_met(entries, stored, ms, k - 1, p, r);
            if !stored.contains_key(r) {
                let q = choose|q: int| 0 <= q < p && (#[trigger] before[q]).name == r;
                assert(after[q].name == r);
            }
        } else {
            law_import_stores_every_entry(entries, stored, ms, k - 1);
            assert(r == entries[k - 2].kryzhen_name);
            if !stored.contains_key(r) {
                let q = choose|q: int| 0 <= q < before.len() && (#[trigger] before[q]).name == r;
                assert(after[q].name == r);
            }
        }
    }
}

/// A migration that is found is one of those supplied, and bears the name.
proof fn lemma_named(ms: Seq<MigrationView>, name: Seq<char>)
    ensures
        named(ms, name) matches Some(m) ==> ms.contains(m) && m.name == name,
    decreases ms.len(),
{
    if ms.len() > 0 {
        if ms[0].name == name {
            assert(ms.contains(ms[0]));
        } else {
            lemma_named(ms.skip(1), name);
            match named(ms.skip(1), name) {
                Some(m) => {
                    let k = choose|k: int| 0 <= k < ms.skip(1).len() && ms.skip(1)[k] == m;
                    assert(ms[k + 1] == m);
                },
                None => {},
            }
        }
    }
}

/// Each record has the name and the checksum of a migration that was supplied.
proof fn lemma_record_is_supplied(
    entries: Seq<EntryView>,
    stored: Map<Seq<char>, Seq<u8>>,
    ms: Seq<MigrationView>,
    k: int,
    p: int,
)
    requires
        0 <= p < planned(entries, stored, ms, k).0.len(),
    ensures
        exists|m: MigrationView| #[trigger]
            ms.contains(m) && m.name == planned(entries, stored, ms, k).0[p].name && m.checksum
                == planned(entries, stored, ms, k).0[p].checksum,
    decreases k,
{
    if k > 0 {
        let (before, _) = planned(entries, stored, ms, k - 1);
        let (after, _) = planned(entries, stored, ms, k);
        if p < before.len() {
            assert(after[p] == before[p]);
            lemma_record_is_supplied(entries, stored, ms, k - 1, p);
        } else {
            let name = entries[k - 1].kryzhen_name;
            lemma_named(ms, name);
            let m = named(ms, name)->0;
            assert(ms.contains(m) && m.name == after[p].name && m.checksum == after[p].checksum);
        }
    }
}

/// After an import, runs go on as normal: migrations that passed the checksum check before
/// still pass it, and what the import recorded is not applied again.
pub proof fn law_run_after_import(
    entries: Seq<EntryView>,
    stored: Map<Seq<char>, Seq<u8>>,
    ms: Seq<MigrationView>,
    order: Seq<MigrationView>,
    applied: Set<Seq<char>>,
    k: int,
)
    requires
        unique_names(ms),
        is_sorted(by_name(ms), order),
        forall|i: int| !#[trigger] differs_at(order, stored, i),
    ensures
        ({
            let done = planned(entries, stored, ms, k).0;
            let applied_after = applied.union(names_of(done).to_set());
            &&& forall|i: int| !#[trigger] differs_at(order, recorded(stored, done), i)
            &&& forall|m: MigrationView| #[trigger]
                pending(order, applied_after).contains(m) <==> pending(order, applied).contains(m)
                    && !names_of(done).contains(m.name)
        }),
{
    let done = planned(entries, stored, ms, k).0;
    let applied_after = applied.union(names_of(done).to_set());
    law_prepare_keeps_migrations(ms, order);
    assert forall|i: int| !#[trigger] differs_at(order, recorded(stored, done), i) by {
        if 0 <= i < order.len() {
            let n = order[i].name;
            lemma_recorded(stored, done, n);
            assert(!differs_at(order, stored, i));
            if recorded(stored, done).contains_key(n) && !stored.contains_key(n) {
                let p = choose|p: int|
                    0 <= p < done.len() && (#[trigger] done[p]).name == n && done[p].checksum
                        == recorded(stored, done)[n];
                lemma_record_is_supplied(entries, stored, ms, k, p);
                let m = choose|m: MigrationView| #[trigger]
                    ms.contains(m) && m.name == done[p].name && m.checksum == done[p].checksum;
                assert(order.contains(m));
                let q = choose|q: int| 0 <= q < order.len() && order[q] == m;
                assert(order[q].name == order[i].name);
            }
        }
    }
    law_plan_is_a_partition(order, applied);
    law_plan_is_a_partition(order, applied_after);
}

} // verus!
