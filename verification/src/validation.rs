//! Checks made before anything is applied: [`check_duplicate_names`] rejects colliding
//! migration names, and [`check_checksums`] rejects an already-applied migration whose file
//! has changed since it was applied.
use crate::ledger::AppliedMigrations;
use crate::types::{Error, Migration, MigrationView, Result};
use vstd::hash_set::StringHashSet;
use vstd::prelude::*;

verus! {

/// No two of `ms` have the same name.
pub open spec fn unique_names(ms: Seq<MigrationView>) -> bool {
    forall|i: int, j: int|
        0 <= i < j < ms.len() ==> (#[trigger] ms[i]).name != (#[trigger] ms[j]).name
}

/// A migration at position `i` bears a name that one before it bears.
pub open spec fn repeats_at(ms: Seq<MigrationView>, i: int) -> bool {
    0 <= i < ms.len() && exists|j: int| 0 <= j < i && (#[trigger] ms[j]).name == ms[i].name
}

/// Error if two migrations share a name; the error gives the name that is the first to come
/// a second time.
pub fn check_duplicate_names(migrations: &[Migration]) -> (r: Result<()>)
    ensures
        match r {
            Ok(()) => unique_names(migrations.deep_view()),
            Err(e) => e matches Error::DuplicateName(name) && exists|i: int|
                {
                    &&& #[trigger] repeats_at(migrations.deep_view(), i)
                    &&& name@ == migrations.deep_view()[i].name
                    &&& forall|j: int|
                        j < i ==> !#[trigger] repeats_at(migrations.deep_view(), j)
                },
        },
{
    let ghost ms = migrations.deep_view();
    let mut seen = StringHashSet::new();
    let mut i: usize = 0;
    while i < migrations.len()
        invariant
            ms == migrations.deep_view(),
            i <= migrations@.len(),
            forall|n: Seq<char>|
                seen@.contains(n) <==> exists|j: int| 0 <= j < i && (#[trigger] ms[j]).name == n,
            forall|j: int| j < i ==> !#[trigger] repeats_at(ms, j),
        decreases migrations@.len() - i,
    {
        assert(ms[i as int] == migrations@[i as int]@);
        if seen.contains(migrations[i].name.0.as_str()) {
            assert(repeats_at(ms, i as int));
            return Err(Error::DuplicateName(migrations[i].name.clone()));
        }
        assert(!repeats_at(ms, i as int));
        let ghost before = seen@;
        let _ = seen.insert(migrations[i].name.0.clone());
        proof {
            assert forall|n: Seq<char>| seen@.contains(n) <==> exists|j: int|
                0 <= j < i + 1 && (#[trigger] ms[j]).name == n by {
                if before.contains(n) {
                    let j = choose|j: int| 0 <= j < i && (#[trigger] ms[j]).name == n;
                    assert(ms[j].name == n);
                }
                if n == ms[i as int].name {
                    assert(0 <= i < i + 1 && ms[i as int].name == n);
                }
                if exists|j: int| 0 <= j < i + 1 && (#[trigger] ms[j]).name == n {
                    let j = choose|j: int| 0 <= j < i + 1 && (#[trigger] ms[j]).name == n;
                    if j < i {
                        assert(before.contains(n));
                    }
                }
            }
        }
        i += 1;
    }
    proof {
        assert forall|a: int, b: int| 0 <= a < b < ms.len() implies (#[trigger] ms[a]).name != (
        #[trigger] ms[b]).name by {
            assert(!repeats_at(ms, b));
        }
    }
    Ok(())
}

/// The migration at position `i` is applied, and its stored checksum is another than the one
/// that it has now.
pub open spec fn differs_at(
    disk: Seq<MigrationView>,
    stored: Map<Seq<char>, Seq<u8>>,
    i: int,
) -> bool {
    &&& 0 <= i < disk.len()
    &&& stored.contains_key(disk[i].name)
    &&& stored[disk[i].name] != disk[i].checksum
}

/// Whether two checksums are the same.
fn same_checksum(a: &[u8; 32], b: &[u8; 32]) -> (same: bool)
    ensures
        same == (a@ == b@),
{
    let mut i: usize = 0;
    while i < 32
        invariant
            i <= 32,
            forall|k: int| 0 <= k < i ==> a@[k] == b@[k],
        decreases 32 - i,
    {
        if a[i] != b[i] {
            return false;
        }
        i += 1;
    }
    assert(a@ =~= b@);
    true
}

/// Error if an already-applied migration's checksum differs from the stored one; the error
/// names the first such migration.
pub fn check_checksums(disk: &[Migration], applied: &AppliedMigrations) -> (r: Result<()>)
    ensures
        match r {
            Ok(()) => forall|i: int| !#[trigger] differs_at(disk.deep_view(), applied@, i),
            Err(e) => e matches Error::ChecksumMismatch(name) && exists|i: int|
                {
                    &&& #[trigger] differs_at(disk.deep_view(), applied@, i)
                    &&& name@ == disk.deep_view()[i].name
                    &&& forall|j: int|
                        j < i ==> !#[trigger] differs_at(disk.deep_view(), applied@, j)
                },
        },
{
    let ghost ms = disk.deep_view();
    let mut i: usize = 0;
    while i < disk.len()
        invariant
            ms == disk.deep_view(),
            i <= disk@.len(),
            forall|j: int| j < i ==> !#[trigger] differs_at(ms, applied@, j),
        decreases disk@.len() - i,
    {
        assert(ms[i as int] == disk@[i as int]@);
        if let Some(stored) = applied.get(&disk[i].name) {
            if !same_checksum(&stored, &disk[i].checksum) {
                assert(differs_at(ms, applied@, i as int));
                return Err(Error::ChecksumMismatch(disk[i].name.clone()));
            }
        }
        assert(!differs_at(ms, applied@, i as int));
        i += 1;
    }
    Ok(())
}

} // verus!
