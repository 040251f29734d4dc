//! What holds of an import, said of the receipt's entries, the rows and the migrations
//! themselves.
use super::import::{
    applied_entries, has_version, is_vouched_for, named, planned, refuses_row, reports_gap,
};
use super::receipt::{law_entry_for, EntryView, SqlxImportError, SqlxRowView};
use super::text::hex_of;
use crate::types::MigrationView;
use vstd::prelude::*;
use vstd::string::*;

verus! {

/// An entry counts exactly where some row has its version, and the entries that count keep
/// their order.
pub proof fn law_applied_entries(
    a: Seq<EntryView>,
    e: EntryView,
    b: Seq<EntryView>,
    rows: Seq<SqlxRowView>,
)
    ensures
        applied_entries(Seq::empty(), rows) == Seq::<EntryView>::empty(),
        (exists|i: int| 0 <= i < rows.len() && (#[trigger] rows[i]).version == e.version)
            ==> applied_entries(a + seq![e] + b, rows) == applied_entries(a, rows) + seq![e]
            + applied_entries(b, rows),
        (forall|i: int| 0 <= i < rows.len() ==> (#[trigger] rows[i]).version != e.version)
            ==> applied_entries(a + seq![e] + b, rows) == applied_entries(a, rows)
            + applied_entries(b, rows),
{
    reveal(Seq::filter);
    let p = |e: EntryView| has_version(rows, e.version);
    let one = seq![e];
    Seq::filter_distributes_over_add(a + one, b, p);
    Seq::filter_distributes_over_add(a, one, p);
    assert(one.drop_last() =~= Seq::<EntryView>::empty());
    assert(Seq::<EntryView>::empty().filter(p) =~= Seq::<EntryView>::empty());
    assert(one.filter(p) =~= if has_version(rows, e.version) { one } else { Seq::empty() });
    assert(applied_entries(a, rows) + Seq::<EntryView>::empty() =~= applied_entries(a, rows));
}

/// A name leads to the first migration that bears it, and to none exactly where none does.
pub proof fn law_named(ms: Seq<MigrationView>, name: Seq<char>)
    ensures
        named(ms, name) is None <==> forall|i: int|
            0 <= i < ms.len() ==> (#[trigger] ms[i]).name != name,
        named(ms, name) matches Some(m) ==> exists|i: int|
            {
                &&& 0 <= i < ms.len()
                &&& #[trigger] ms[i] == m
                &&& m.name == name
                &&& forall|j: int| 0 <= j < i ==> (#[trigger] ms[j]).name != name
            },
    decreases ms.len(),
{
    if ms.len() > 0 && ms[0].name != name {
        let more = ms.skip(1);
        law_named(more, name);
        assert forall|i: int| 0 <= i < more.len() implies #[trigger] more[i] == ms[i + 1] by {}
        match named(more, name) {
            Some(m) => {
                let i = choose|i: int|
                    {
                        &&& 0 <= i < more.len()
                        &&& #[trigger] more[i] == m
                        &&& m.name == name
                        &&& forall|j: int| 0 <= j < i ==> (#[trigger] more[j]).name != name
                    };
                assert(ms[i + 1] == m);
                assert forall|j: int| 0 <= j < i + 1 implies (#[trigger] ms[j]).name != name by {
                    if j > 0 {
                        assert(more[j - 1].name != name);
                    }
                }
            },
            None => {
                assert forall|i: int| 0 <= i < ms.len() implies (#[trigger] ms[i]).name
                    != name by {
                    if i > 0 {
                        assert(more[i - 1].name != name);
                    }
                }
            },
        }
    } else if ms.len() > 0 {
        assert(ms[0].name == name);
    }
}

/// `r` records the entry at `i`: it bears the entry's name, has its description (the name where
/// there is none), requires the entry before it, and has the script and the checksum of the
/// first migration of that name.
pub open spec fn records(
    entries: Seq<EntryView>,
    ms: Seq<MigrationView>,
    i: int,
    r: MigrationView,
) -> bool {
    &&& r.name == entries[i].kryzhen_name
    &&& r.description == if entries[i].sqlx_description.len() > 0 {
        entries[i].sqlx_description
    } else {
        entries[i].kryzhen_name
    }
    &&& i == 0 ==> r.requires.len() == 0
    &&& i > 0 ==> r.requires.len() == 1 && r.requires[0] == entries[i - 1].kryzhen_name
    &&& exists|j: int|
        {
            &&& 0 <= j < ms.len()
            &&& (#[trigger] ms[j]).name == r.name
            &&& r.script == ms[j].script
            &&& r.checksum == ms[j].checksum
            &&& forall|k: int| 0 <= k < j ==> (#[trigger] ms[k]).name != r.name
        }
}

/// The records `rs` are for the entries at the places `at`, in order, and these are all of the
/// first `n` entries that are not stored.
pub open spec fn records_all(
    entries: Seq<EntryView>,
    stored: Map<Seq<char>, Seq<u8>>,
    ms: Seq<MigrationView>,
    rs: Seq<MigrationView>,
    at: Seq<int>,
    n: int,
) -> bool {
    &&& rs.len() == at.len()
    &&& forall|p: int, q: int| 0 <= p < q < at.len() ==> #[trigger] at[p] < #[trigger] at[q]
    &&& forall|p: int|
        0 <= p < at.len() ==> {
            &&& 0 <= #[trigger] at[p] < n
            &&& !stored.contains_key(entries[at[p]].kryzhen_name)
            &&& records(entries, ms, at[p], rs[p])
        }
    &&& forall|i: int|
        0 <= i < n && !stored.contains_key((#[trigger] entries[i]).kryzhen_name) ==> at.contains(i)
}

/// An import records, in order, exactly the entries that are not stored: all of them, or those
/// up to the first whose migration was not supplied, which it then names.
pub proof fn law_import_records(
    entries: Seq<EntryView>,
    stored: Map<Seq<char>, Seq<u8>>,
    ms: Seq<MigrationView>,
    k: int,
)
    requires
        0 <= k <= entries.len(),
    ensures
        ({
            let (rs, missing) = planned(entries, stored, ms, k);
            exists|at: Seq<int>, n: int|
                {
                    &&& #[trigger] records_all(entries, stored, ms, rs, at, n)
                    &&& missing is None ==> n == k
                    &&& missing matches Some(name) ==> {
                        &&& 0 <= n < k
                        &&& entries[n].kryzhen_name == name
                        &&& !stored.contains_key(name)
                        &&& forall|j: int| 0 <= j < ms.len() ==> (#[trigger] ms[j]).name != name
                    }
                }
        }),
    decreases k,
{
    let (rs, missing) = planned(entries, stored, ms, k);
    if k == 0 {
        let none = Seq::<int>::empty();
        assert(records_all(entries, stored, ms, rs, none, 0));
    } else {
        law_import_records(entries, stored, ms, k - 1);
        let (before, missing_before) = planned(entries, stored, ms, k - 1);
        let (at, n) = choose|at: Seq<int>, n: int|
            {
                &&& #[trigger] records_all(entries, stored, ms, before, at, n)
                &&& missing_before is None ==> n == k - 1
                &&& missing_before matches Some(name) ==> {
                    &&& 0 <= n < k - 1
                    &&& entries[n].kryzhen_name == name
                    &&& !stored.contains_key(name)
                    &&& forall|j: int| 0 <= j < ms.len() ==> (#[trigger] ms[j]).name != name
                }
            };
        let name = entries[k - 1].kryzhen_name;
        if missing_before is Some {
            assert(records_all(entries, stored, ms, rs, at, n));
        } else if stored.contains_key(name) {
            assert(records_all(entries, stored, ms, rs, at, k));
        } else {
            law_named(ms, name);
            match named(ms, name) {
                Some(m) => {
                    lemma_one_more(entries, stored, ms, before, at, k - 1, rs.last());
                    assert(rs =~= before.push(rs.last()));
                    assert(records_all(entries, stored, ms, rs, at.push(k - 1), k));
                },
                None => {
                    assert(records_all(entries, stored, ms, rs, at, k - 1));
                },
            }
        }
    }
}

/// One record more for one entry more.
proof fn lemma_one_more(
    entries: Seq<EntryView>,
    stored: Map<Seq<char>, Seq<u8>>,
    ms: Seq<MigrationView>,
    rs: Seq<MigrationView>,
    at: Seq<int>,
    n: int,
    r: MigrationView,
)
    requires
        0 <= n < entries.len(),
        records_all(entries, stored, ms, rs, at, n),
        !stored.contains_key(entries[n].kryzhen_name),
        records(entries, ms, n, r),
    ensures
        records_all(entries, stored, ms, rs.push(r), at.push(n), n + 1),
{
    let more = at.push(n);
    assert forall|p: int| 0 <= p < more.len() implies {
        &&& 0 <= #[trigger] more[p] < n + 1
        &&& !stored.contains_key(entries[more[p]].kryzhen_name)
        &&& records(entries, ms, more[p], rs.push(r)[p])
    } by {
        if p < at.len() {
            assert(more[p] == at[p]);
            assert(rs.push(r)[p] == rs[p]);
        }
    }
    assert forall|i: int|
        0 <= i < n + 1 && !stored.contains_key((#[trigger] entries[i]).kryzhen_name) implies
        more.contains(i) by {
        if i < n {
            let p = choose|p: int| 0 <= p < at.len() && at[p] == i;
            assert(more[p] == i);
        } else {
            assert(more[at.len() as int] == i);
        }
    }
    assert forall|p: int, q: int| 0 <= p < q < more.len() implies #[trigger] more[p]
        < #[trigger] more[q] by {
        assert(more[p] == at[p]);
        if q < at.len() {
            assert(more[q] == at[q]);
        }
    }
}

/// A row is refused only where the receipt does not vouch for it, and the first such row is:
/// as unknown where no entry bears its version, else with the checksum of the last entry that
/// does, which is another than the row's.
pub proof fn law_refused_row(
    entries: Seq<EntryView>,
    rows: Seq<SqlxRowView>,
    i: int,
    e: SqlxImportError,
)
    requires
        refuses_row(entries, rows, i, e),
    ensures
        0 <= i < rows.len(),
        !is_vouched_for(entries, rows[i]),
        forall|j: int| 0 <= j < i ==> is_vouched_for(entries, #[trigger] rows[j]),
        (forall|k: int| 0 <= k < entries.len() ==> (#[trigger] entries[k]).version
            != rows[i].version) ==> (e matches SqlxImportError::UnknownMigration { version }
            && version == rows[i].version),
        forall|k: int|
            0 <= k < entries.len() && (#[trigger] entries[k]).version == rows[i].version && (forall|
                j: int,
            |
                k < j < entries.len() ==> (#[trigger] entries[j]).version != rows[i].version) ==> {
                &&& e matches SqlxImportError::ReceiptDbMismatch { name, receipt_hex, db_hex }
                &&& name@ == entries[k].kryzhen_name
                &&& receipt_hex@ == entries[k].sqlx_checksum_hex
                &&& db_hex@ == hex_of(rows[i].checksum)
                &&& receipt_hex@ != db_hex@
            },
{
    law_entry_for(entries, rows[i].version);
}

/// A gap is reported only where there is one: an entry is older than a row, and no row has the
/// entry's version. The error gives both versions.
pub proof fn law_reported_gap(
    entries: Seq<EntryView>,
    rows: Seq<SqlxRowView>,
    i: int,
    j: int,
    e: SqlxImportError,
)
    requires
        reports_gap(entries, rows, i, j, e),
    ensures
        0 <= i < rows.len(),
        0 <= j < entries.len(),
        entries[j].version < rows[i].version,
        forall|k: int| 0 <= k < rows.len() ==> (#[trigger] rows[k]).version != entries[j].version,
        e matches SqlxImportError::InconsistentHistory { missing_version, present_version }
            && missing_version == entries[j].version && present_version == rows[i].version,
{
}

} // verus!
