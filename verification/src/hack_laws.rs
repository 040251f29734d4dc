//! What holds of the records that are edited by hand, said of the migrations and of the stored
//! rows themselves.
use crate::hack::{depends_on, first_named, first_unmet, none_named, rows_are_sound};
use crate::ledger::{
    law_every_stored_row_counts, requires_by_name, stored_bytes, AppliedRowView, ChecksumRowView,
};
use crate::types::MigrationView;
use vstd::prelude::*;

verus! {

/// A name is found exactly where some migration bears it, and the migration that is found is
/// the first that does.
pub proof fn law_migration_is_found(ms: Seq<MigrationView>, name: Seq<char>)
    ensures
        none_named(ms, name) <==> !exists|i: int|
            0 <= i < ms.len() && (#[trigger] ms[i]).name == name,
        (exists|i: int| #[trigger] first_named(ms, name, i)) <==> exists|i: int|
            0 <= i < ms.len() && (#[trigger] ms[i]).name == name,
        forall|i: int| #[trigger]
            first_named(ms, name, i) ==> {
                &&& 0 <= i < ms.len()
                &&& ms[i].name == name
                &&& forall|j: int| 0 <= j < i ==> (#[trigger] ms[j]).name != name
            },
    decreases ms.len(),
{
    if exists|i: int| #[trigger] first_named(ms, name, i) {
        let i = choose|i: int| #[trigger] first_named(ms, name, i);
        assert(ms[i].name == name);
    }
    if ms.len() > 0 {
        let front = ms.drop_last();
        let n = front.len() as int;
        law_migration_is_found(front, name);
        if exists|i: int| #[trigger] first_named(front, name, i) {
            let i = choose|i: int| #[trigger] first_named(front, name, i);
            assert forall|j: int| 0 <= j < i implies (#[trigger] ms[j]).name != name by {
                assert(front[j].name != name);
            }
            assert(first_named(ms, name, i));
        } else {
            assert forall|j: int| 0 <= j < n implies (#[trigger] ms[j]).name != name by {
                assert(front[j].name != name);
            }
            if ms[n].name == name {
                assert(first_named(ms, name, n));
            }
        }
    }
}

/// A requirement is unmet exactly where no stored row bears its name; the one that is reported
/// is the first of them.
pub proof fn law_unmet_requirement(needed: Seq<Seq<char>>, rows: Seq<ChecksumRowView>)
    ensures
        (exists|t: int| #[trigger] first_unmet(needed, stored_bytes(rows), t)) <==> (exists|t: int|
            0 <= t < needed.len() && forall|i: int|
                0 <= i < rows.len() ==> (#[trigger] rows[i]).name != #[trigger] needed[t]),
        forall|t: int| #[trigger]
            first_unmet(needed, stored_bytes(rows), t) ==> {
                &&& 0 <= t < needed.len()
                &&& forall|i: int| 0 <= i < rows.len() ==> (#[trigger] rows[i]).name != needed[t]
                &&& forall|u: int|
                    0 <= u < t ==> exists|i: int|
                        0 <= i < rows.len() && (#[trigger] rows[i]).name == #[trigger] needed[u]
            },
    decreases needed.len(),
{
    let applied = stored_bytes(rows);
    law_every_stored_row_counts(rows);
    if exists|t: int| #[trigger] first_unmet(needed, applied, t) {
        let t = choose|t: int| #[trigger] first_unmet(needed, applied, t);
        assert forall|i: int| 0 <= i < rows.len() implies (#[trigger] rows[i]).name != needed[t] by {
            assert(!applied.contains_key(needed[t]));
        }
    }
    assert forall|t: int| #[trigger] first_unmet(needed, applied, t) implies {
        &&& 0 <= t < needed.len()
        &&& forall|i: int| 0 <= i < rows.len() ==> (#[trigger] rows[i]).name != needed[t]
        &&& forall|u: int|
            0 <= u < t ==> exists|i: int|
                0 <= i < rows.len() && (#[trigger] rows[i]).name == #[trigger] needed[u]
    } by {
        assert forall|u: int| 0 <= u < t implies exists|i: int|
            0 <= i < rows.len() && (#[trigger] rows[i]).name == #[trigger] needed[u] by {
            assert(applied.contains_key(needed[u]));
        }
        assert(!applied.contains_key(needed[t]));
    }
    if needed.len() > 0 {
        let front = needed.drop_last();
        let n = front.len() as int;
        law_unmet_requirement(front, rows);
        if exists|t: int| #[trigger] first_unmet(front, applied, t) {
            let t = choose|t: int| #[trigger] first_unmet(front, applied, t);
            assert forall|u: int| 0 <= u < t implies applied.contains_key(
                #[trigger] needed[u],
            ) by {
                assert(applied.contains_key(front[u]));
            }
            assert(first_unmet(needed, applied, t));
        } else {
            assert forall|u: int| 0 <= u < n implies applied.contains_key(
                #[trigger] needed[u],
            ) by {
                if !applied.contains_key(needed[u]) {
                    assert(front[u] == needed[u]);
                    assert forall|i: int| 0 <= i < rows.len() implies (#[trigger] rows[i]).name
                        != front[u] by {}
                }
            }
            if !applied.contains_key(needed[n]) {
                assert(first_unmet(needed, applied, n));
            }
        }
    }
}

/// A migration stands in the way of deleting another exactly where the last row that bears its
/// name lists the other, which has another name.
pub proof fn law_dependent(rows: Seq<AppliedRowView>, n: Seq<char>, target: Seq<char>)
    ensures
        depends_on(requires_by_name(rows), n, target) <==> n != target && exists|i: int|
            {
                &&& 0 <= i < rows.len()
                &&& (#[trigger] rows[i]).name == n
                &&& rows[i].requires.contains(target)
                &&& forall|j: int| i < j < rows.len() ==> (#[trigger] rows[j]).name != n
            },
    decreases rows.len(),
{
    if rows.len() > 0 {
        let front = rows.drop_last();
        let last = rows.len() - 1;
        law_dependent(front, n, target);
        if rows[last].name == n {
            assert forall|i: int|
                0 <= i < rows.len() && (#[trigger] rows[i]).name == n && (forall|j: int|
                    i < j < rows.len() ==> (#[trigger] rows[j]).name != n) implies i == last by {
                if i < last {
                    assert(rows[last].name != n);
                }
            }
        } else {
            assert forall|i: int| 0 <= i < front.len() implies #[trigger] front[i]
                == rows[i] by {}
            if exists|i: int|
                {
                    &&& 0 <= i < front.len()
                    &&& (#[trigger] front[i]).name == n
                    &&& front[i].requires.contains(target)
                    &&& forall|j: int| i < j < front.len() ==> (#[trigger] front[j]).name != n
                } {
                let i = choose|i: int|
                    {
                        &&& 0 <= i < front.len()
                        &&& (#[trigger] front[i]).name == n
                        &&& front[i].requires.contains(target)
                        &&& forall|j: int| i < j < front.len() ==> (#[trigger] front[j]).name != n
                    };
                assert(rows[i].name == n);
                assert forall|j: int| i < j < rows.len() implies (#[trigger] rows[j]).name
                    != n by {
                    if j < last {
                        assert(front[j].name != n);
                    }
                }
            }
            if exists|i: int|
                {
                    &&& 0 <= i < rows.len()
                    &&& (#[trigger] rows[i]).name == n
                    &&& rows[i].requires.contains(target)
                    &&& forall|j: int| i < j < rows.len() ==> (#[trigger] rows[j]).name != n
                } {
                let i = choose|i: int|
                    {
                        &&& 0 <= i < rows.len()
                        &&& (#[trigger] rows[i]).name == n
                        &&& rows[i].requires.contains(target)
                        &&& forall|j: int| i < j < rows.len() ==> (#[trigger] rows[j]).name != n
                    };
                assert(front[i].name == n);
                assert forall|j: int| i < j < front.len() implies (#[trigger] front[j]).name
                    != n by {
                    assert(rows[j].name != n);
                }
            }
        }
    }
}

/// Rows are sound exactly where every checksum has 32 bytes.
pub proof fn law_sound_rows(rows: Seq<ChecksumRowView>)
    ensures
        rows_are_sound(rows) <==> forall|i: int|
            0 <= i < rows.len() ==> (#[trigger] rows[i]).checksum.len() == 32,
{
}

} // verus!
