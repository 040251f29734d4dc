//! Planning a run: [`prepare`] validates migrations and puts them in order, [`plan`] checks
//! them against what the database holds and says which of them are still to be applied.
use crate::file::{implicit_deps, law_every_block_is_loaded, law_implicit_deps, loaded, SourceView};
use crate::grammar;
use crate::graph::{
    by_name, comes_next, has_cycle, is_closed, is_dangling, is_smallest_first, is_sorted, is_stuck, names_of,
    needs, topo_sort,
};
use crate::graph_laws::{lemma_by_name_unique, law_each_placed_once, law_requires_come_first};
use crate::hack::law_add_keeps_requires_applied;
use crate::ledger::{requires_are_applied, AppliedMigrations, AppliedNames};
use crate::types::{Error, Migration, MigrationView, Result};
use crate::validation::{
    check_checksums, check_duplicate_names, differs_at, repeats_at, unique_names,
};
use vstd::prelude::*;

verus! {

// ---------------------------------------------------------------------------
// Report
// ---------------------------------------------------------------------------

/// Summary of a run. Both lists are in the order in which migrations are applied.
#[derive(Clone, Debug)]
pub struct Report {
    /// Names applied this run, or, in a dry run, the names that would be applied.
    pub applied: Vec<String>,
    /// Names that were already applied before this run.
    pub already_applied: Vec<String>,
}

impl Default for Report {
    fn default() -> (report: Self)
        ensures
            report.applied@.len() == 0,
            report.already_applied@.len() == 0,
    {
        Report { applied: Vec::new(), already_applied: Vec::new() }
    }
}

// ---------------------------------------------------------------------------
// Preparing
// ---------------------------------------------------------------------------

/// A copy of a list of migrations.
fn clone_migrations(ms: &[Migration]) -> (copy: Vec<Migration>)
    ensures
        copy.deep_view() == ms.deep_view(),
{
    let mut copy: Vec<Migration> = Vec::new();
    let mut i: usize = 0;
    while i < ms.len()
        invariant
            i <= ms@.len(),
            copy@.len() == i,
            forall|k: int| 0 <= k < i ==> (#[trigger] copy@[k])@ == ms@[k]@,
        decreases ms@.len() - i,
    {
        copy.push(ms[i].clone());
        i += 1;
    }
    assert(copy.deep_view() =~= ms.deep_view());
    copy
}

/// Validate names and put the migrations in the order in which they are to be applied.
pub fn prepare(migrations: &[Migration]) -> (r: Result<Vec<Migration>>)
    ensures
        ({
            let ms = migrations.deep_view();
            match r {
                Ok(order) => {
                    &&& unique_names(ms)
                    &&& is_closed(by_name(ms))
                    &&& !has_cycle(by_name(ms))
                    &&& is_sorted(by_name(ms), order.deep_view())
                },
                Err(Error::DuplicateName(name)) => exists|i: int|
                    {
                        &&& #[trigger] repeats_at(ms, i)
                        &&& name@ == ms[i].name
                        &&& forall|j: int| j < i ==> !#[trigger] repeats_at(ms, j)
                    },
                Err(Error::DanglingDependency { migration, missing }) => {
                    &&& unique_names(ms)
                    &&& is_dangling(by_name(ms), migration@, missing@)
                },
                Err(Error::Cycle(names)) => {
                    &&& unique_names(ms)
                    &&& is_closed(by_name(ms))
                    &&& has_cycle(by_name(ms))
                    &&& is_stuck(by_name(ms), names.deep_view())
                },
                Err(_) => false,
            }
        }),
{
    match check_duplicate_names(migrations) {
        Ok(()) => {},
        Err(e) => return Err(e),
    }
    let copy = clone_migrations(migrations);
    topo_sort(copy)
}

/// What is prepared is what was given: each migration comes out once, unchanged, and nothing
/// else does.
pub proof fn law_prepare_keeps_migrations(
    ms: Seq<MigrationView>,
    order: Seq<MigrationView>,
)
    requires
        unique_names(ms),
        is_sorted(by_name(ms), order),
    ensures
        unique_names(order),
        order.no_duplicates(),
        order.len() == ms.len(),
        forall|m: MigrationView| #[trigger] order.contains(m) <==> ms.contains(m),
{
    let nodes = by_name(ms);
    lemma_by_name_unique(ms);
    law_each_placed_once(nodes, names_of(order));
    assert forall|i: int, j: int| 0 <= i < j < order.len() implies (#[trigger] order[i]).name != (
    #[trigger] order[j]).name by {
        assert(names_of(order)[i] != names_of(order)[j]);
    }
    assert forall|m: MigrationView| #[trigger] order.contains(m) <==> ms.contains(m) by {
        if order.contains(m) {
            let i = choose|i: int| 0 <= i < order.len() && order[i] == m;
            assert(order[i] == nodes[order[i].name]);
            lemma_placed_is_node(nodes, names_of(order), i);
            assert(names_of(order)[i] == m.name);
            let k = choose|k: int| 0 <= k < ms.len() && (#[trigger] ms[k]).name == m.name;
            assert(ms[k] == m);
        }
        if ms.contains(m) {
            let k = choose|k: int| 0 <= k < ms.len() && ms[k] == m;
            assert(nodes.contains_key(ms[k].name));
            assert(names_of(order).contains(m.name));
            let i = choose|i: int| 0 <= i < names_of(order).len() && names_of(order)[i] == m.name;
            assert(order[i].name == m.name);
            assert(order[i] == nodes[order[i].name]);
            assert(order.contains(order[i]));
        }
    }
    assert(ms.no_duplicates());
    assert(order.to_set() =~= ms.to_set());
    order.unique_seq_to_set();
    ms.unique_seq_to_set();
}

/// The blocks of a file are put in file order: each comes after the block before it in the
/// file.
pub proof fn law_blocks_follow_file_order(
    files: Seq<SourceView>,
    order: Seq<MigrationView>,
    f: int,
    i: int,
    p: int,
)
    requires
        0 <= f < files.len(),
        grammar::file(files[f].text) matches Ok(blocks) && 0 < i < blocks.len(),
        unique_names(loaded(files)),
        is_sorted(by_name(loaded(files)), order),
        0 <= p < order.len(),
        order[p].name == grammar::file(files[f].text)->Ok_0[i].name,
    ensures
        exists|q: int|
            0 <= q < p && (#[trigger] order[q]).name == grammar::file(files[f].text)->Ok_0[i
                - 1].name,
{
    let ms = loaded(files);
    let nodes = by_name(ms);
    let blocks = grammar::file(files[f].text)->Ok_0;
    let before = blocks[i - 1].name;
    let names = names_of(order);
    law_every_block_is_loaded(files, f, i);
    law_implicit_deps(blocks, i);
    lemma_by_name_unique(ms);
    let k = choose|k: int| 0 <= k < ms.len() && ms[k] == implicit_deps(blocks)[i];
    assert(nodes.contains_key(ms[k].name) && nodes[ms[k].name] == ms[k]);
    assert(names[p] == order[p].name);
    assert(needs(nodes, names[p], before));
    law_requires_come_first(nodes, names, p, before);
    let q = choose|q: int| 0 <= q < p && names[q] == before;
    assert(order[q].name == before);
}

/// What an order places is a migration.
proof fn lemma_placed_is_node(
    nodes: Map<Seq<char>, MigrationView>,
    order: Seq<Seq<char>>,
    i: int,
)
    requires
        is_smallest_first(nodes, order),
        0 <= i < order.len(),
    ensures
        nodes.contains_key(order[i]),
{
    assert(comes_next(nodes, order.take(i), order[i]));
}

// ---------------------------------------------------------------------------
// Planning
// ---------------------------------------------------------------------------

/// The migrations of `ms` that are not applied, in their order.
pub open spec fn pending(ms: Seq<MigrationView>, applied: Set<Seq<char>>) -> Seq<MigrationView> {
    ms.filter(|m: MigrationView| !applied.contains(m.name))
}

/// The migrations of `ms` that are applied, in their order.
pub open spec fn skipped(ms: Seq<MigrationView>, applied: Set<Seq<char>>) -> Seq<MigrationView> {
    ms.filter(|m: MigrationView| applied.contains(m.name))
}

/// What a run does: the migrations to apply, one after the other, and the report that is due
/// when all of them have been applied.
pub struct Plan {
    pub to_apply: Vec<Migration>,
    pub report: Report,
}

/// Check the ordered migrations against the checksums that are stored, and plan the run:
/// what is not yet applied to the schema is to be applied, and nothing in a dry run.
pub fn plan(
    ordered: &[Migration],
    stored: &AppliedMigrations,
    applied: &AppliedNames,
    dry_run: bool,
) -> (r: Result<Plan>)
    ensures
        ({
            let ms = ordered.deep_view();
            match r {
                Ok(plan) => {
                    &&& forall|i: int| !#[trigger] differs_at(ms, stored@, i)
                    &&& plan.to_apply.deep_view() == (if dry_run {
                        Seq::<MigrationView>::empty()
                    } else {
                        pending(ms, applied@)
                    })
                    &&& plan.report.applied.deep_view() == names_of(pending(ms, applied@))
                    &&& plan.report.already_applied.deep_view() == names_of(
                        skipped(ms, applied@),
                    )
                },
                Err(e) => e matches Error::ChecksumMismatch(name) && exists|i: int|
                    {
                        &&& #[trigger] differs_at(ms, stored@, i)
                        &&& name@ == ms[i].name
                        &&& forall|j: int| j < i ==> !#[trigger] differs_at(ms, stored@, j)
                    },
            }
        }),
{
    match check_checksums(ordered, stored) {
        Ok(()) => {},
        Err(e) => return Err(e),
    }
    let ghost ms = ordered.deep_view();
    let mut report = Report::default();
    let mut to_apply: Vec<Migration> = Vec::new();
    let mut i: usize = 0;
    proof {
        assert(ms.take(0) =~= Seq::<MigrationView>::empty());
        lemma_filter_empty(|m: MigrationView| !applied@.contains(m.name));
        lemma_filter_empty(|m: MigrationView| applied@.contains(m.name));
        assert(report.applied.deep_view() =~= names_of(pending(ms.take(0), applied@)));
        assert(report.already_applied.deep_view() =~= names_of(skipped(ms.take(0), applied@)));
        assert(to_apply.deep_view() =~= Seq::<MigrationView>::empty());
    }
    while i < ordered.len()
        invariant
            ms == ordered.deep_view(),
            i <= ordered@.len(),
            to_apply.deep_view() == (if dry_run {
                Seq::<MigrationView>::empty()
            } else {
                pending(ms.take(i as int), applied@)
            }),
            report.applied.deep_view() == names_of(pending(ms.take(i as int), applied@)),
            report.already_applied.deep_view() == names_of(skipped(ms.take(i as int), applied@)),
        decreases ordered@.len() - i,
    {
        let m = &ordered[i];
        let ghost was = report;
        let ghost before = to_apply.deep_view();
        proof {
            assert(ms[i as int] == m@);
            assert(ms.take(i + 1) =~= ms.take(i as int).push(m@));
            lemma_filter_push(
                ms.take(i as int),
                m@,
                |m: MigrationView| !applied@.contains(m.name),
            );
            lemma_filter_push(
                ms.take(i as int),
                m@,
                |m: MigrationView| applied@.contains(m.name),
            );
        }
        if applied.contains(&m.name) {
            report.already_applied.push(m.name.0.clone());
            assert(report.already_applied.deep_view() =~= was.already_applied.deep_view().push(
                m@.name,
            ));
            assert(report.already_applied.deep_view() =~= names_of(
                skipped(ms.take(i + 1), applied@),
            ));
        } else {
            if !dry_run {
                to_apply.push(m.clone());
                assert(to_apply.deep_view() =~= before.push(m@));
            }
            report.applied.push(m.name.0.clone());
            assert(report.applied.deep_view() =~= was.applied.deep_view().push(m@.name));
            assert(report.applied.deep_view() =~= names_of(pending(ms.take(i + 1), applied@)));
        }
        i += 1;
    }
    assert(ms.take(ms.len() as int) =~= ms);
    Ok(Plan { to_apply, report })
}

proof fn lemma_filter_empty<A>(keep: spec_fn(A) -> bool)
    ensures
        Seq::<A>::empty().filter(keep) == Seq::<A>::empty(),
{
    reveal(Seq::filter);
}

proof fn lemma_filter_push<A>(s: Seq<A>, x: A, keep: spec_fn(A) -> bool)
    ensures
        s.push(x).filter(keep) == (if keep(x) {
            s.filter(keep).push(x)
        } else {
            s.filter(keep)
        }),
{
    reveal(Seq::filter);
    assert(s.push(x).drop_last() =~= s);
}

// ---------------------------------------------------------------------------
// Laws of a run
// ---------------------------------------------------------------------------

/// A filtered sequence holds what passes, and nothing else.
proof fn lemma_filter_members<A>(s: Seq<A>, keep: spec_fn(A) -> bool)
    ensures
        forall|x: A| #[trigger] s.filter(keep).contains(x) <==> s.contains(x) && keep(x),
    decreases s.len(),
{
    if s.len() == 0 {
        assert(s =~= Seq::<A>::empty());
        lemma_filter_empty(keep);
    } else {
        let t = s.drop_last();
        let y = s.last();
        lemma_filter_members(t, keep);
        lemma_filter_push(t, y, keep);
        assert(t.push(y) =~= s);
        assert forall|x: A| #[trigger] s.filter(keep).contains(x) <==> s.contains(x) && keep(x) by {
            let f = s.filter(keep);
            if f.contains(x) {
                let p = choose|p: int| 0 <= p < f.len() && f[p] == x;
                if p < t.filter(keep).len() {
                    assert(t.filter(keep)[p] == x);
                    assert(t.filter(keep).contains(x));
                    let q = choose|q: int| 0 <= q < t.len() && t[q] == x;
                    assert(s[q] == x);
                } else {
                    assert(x == y);
                    assert(s[s.len() - 1] == y);
                }
            }
            if s.contains(x) && keep(x) {
                let q = choose|q: int| 0 <= q < s.len() && s[q] == x;
                if q < t.len() {
                    assert(t[q] == x);
                    assert(t.filter(keep).contains(x));
                    let p = choose|p: int| 0 <= p < t.filter(keep).len() && t.filter(keep)[p] == x;
                    assert(f[p] == x);
                } else {
                    assert(f[f.len() - 1] == x);
                }
            }
        }
    }
}

/// What stands before an item of a filtered sequence is what passes of what stands before it
/// in the sequence itself.
proof fn lemma_filter_prefix<A>(s: Seq<A>, keep: spec_fn(A) -> bool, i: int) -> (k: int)
    requires
        0 <= i < s.filter(keep).len(),
    ensures
        0 <= k < s.len(),
        s[k] == s.filter(keep)[i],
        s.take(k).filter(keep) == s.filter(keep).take(i),
    decreases s.len(),
{
    if s.len() == 0 {
        assert(s =~= Seq::<A>::empty());
        lemma_filter_empty(keep);
        0
    } else {
        let t = s.drop_last();
        let y = s.last();
        lemma_filter_push(t, y, keep);
        assert(t.push(y) =~= s);
        if i < t.filter(keep).len() {
            let k = lemma_filter_prefix(t, keep, i);
            assert(t.take(k) =~= s.take(k));
            assert(t.filter(keep).take(i) =~= s.filter(keep).take(i));
            k
        } else {
            assert(s.take(s.len() - 1) =~= t);
            assert(s.filter(keep).take(i) =~= t.filter(keep));
            s.len() - 1
        }
    }
}

/// Each migration is either to be applied or already applied, and never both.
pub proof fn law_plan_is_a_partition(
    ms: Seq<MigrationView>,
    applied: Set<Seq<char>>,
)
    ensures
        pending(ms, applied).len() + skipped(ms, applied).len() == ms.len(),
        forall|m: MigrationView|
            #![trigger pending(ms, applied).contains(m)]
            #![trigger skipped(ms, applied).contains(m)]
            ms.contains(m) ==> (pending(ms, applied).contains(m) <==> !skipped(
                ms,
                applied,
            ).contains(m)),
        forall|m: MigrationView|
            #![trigger pending(ms, applied).contains(m)]
            pending(ms, applied).contains(m) <==> ms.contains(m) && !applied.contains(m.name),
        forall|m: MigrationView|
            #![trigger skipped(ms, applied).contains(m)]
            skipped(ms, applied).contains(m) <==> ms.contains(m) && applied.contains(m.name),
    decreases ms.len(),
{
    let due = |m: MigrationView| !applied.contains(m.name);
    let done = |m: MigrationView| applied.contains(m.name);
    lemma_filter_members(ms, due);
    lemma_filter_members(ms, done);
    if ms.len() == 0 {
        assert(ms =~= Seq::<MigrationView>::empty());
        lemma_filter_empty(due);
        lemma_filter_empty(done);
    } else {
        law_plan_is_a_partition(ms.drop_last(), applied);
        lemma_filter_push(ms.drop_last(), ms.last(), due);
        lemma_filter_push(ms.drop_last(), ms.last(), done);
        assert(ms.drop_last().push(ms.last()) =~= ms);
    }
}

/// When its turn comes, all that a migration requires is applied: either it was before the
/// run, or it is applied earlier in the run.
pub proof fn law_requires_are_met(
    nodes: Map<Seq<char>, MigrationView>,
    order: Seq<MigrationView>,
    applied: Set<Seq<char>>,
    i: int,
    r: Seq<char>,
)
    requires
        is_sorted(nodes, order),
        0 <= i < pending(order, applied).len(),
        pending(order, applied)[i].requires.contains(r),
    ensures
        applied.contains(r) || exists|j: int|
            0 <= j < i && (#[trigger] pending(order, applied)[j]).name == r,
{
    let due = |m: MigrationView| !applied.contains(m.name);
    let todo = pending(order, applied);
    let names = names_of(order);
    let k = lemma_filter_prefix(order, due, i);
    lemma_placed_is_node(nodes, names, k);
    assert(names[k] == order[k].name);
    assert(order[k] == nodes[order[k].name]);
    assert(needs(nodes, names[k], r));
    law_requires_come_first(nodes, names, k, r);
    let j = choose|j: int| 0 <= j < k && names[j] == r;
    if !applied.contains(r) {
        lemma_filter_members(order.take(k), due);
        assert(order.take(k)[j] == order[j]);
        assert(order.take(k).contains(order[j]));
        assert(todo.take(i).contains(order[j]));
        let p = choose|p: int| 0 <= p < todo.take(i).len() && todo.take(i)[p] == order[j];
        assert(todo[p].name == r);
    }
}

/// The stored checksums once the migrations `done` have been recorded: one that is already
/// stored stays.
pub open spec fn recorded(
    stored: Map<Seq<char>, Seq<u8>>,
    done: Seq<MigrationView>,
) -> Map<Seq<char>, Seq<u8>>
    decreases done.len(),
{
    if done.len() == 0 {
        stored
    } else {
        let before = recorded(stored, done.drop_last());
        if before.contains_key(done.last().name) {
            before
        } else {
            before.insert(done.last().name, done.last().checksum)
        }
    }
}

/// What recording stores is either what was stored or the checksum of what was recorded.
pub proof fn lemma_recorded(
    stored: Map<Seq<char>, Seq<u8>>,
    done: Seq<MigrationView>,
    n: Seq<char>,
)
    ensures
        stored.contains_key(n) ==> recorded(stored, done).contains_key(n) && recorded(
            stored,
            done,
        )[n] == stored[n],
        recorded(stored, done).contains_key(n) && !stored.contains_key(n) ==> exists|i: int|
            0 <= i < done.len() && (#[trigger] done[i]).name == n && done[i].checksum == recorded(
                stored,
                done,
            )[n],
    decreases done.len(),
{
    if done.len() > 0 {
        let t = done.drop_last();
        lemma_recorded(stored, t, n);
        if recorded(stored, done).contains_key(n) && !stored.contains_key(n) {
            if recorded(stored, t).contains_key(n) {
                let i = choose|i: int|
                    0 <= i < t.len() && (#[trigger] t[i]).name == n && t[i].checksum == recorded(
                        stored,
                        t,
                    )[n];
                assert(done[i].name == n);
            } else {
                assert(done[done.len() - 1].name == n);
            }
        }
    }
}

/// Running again is safe: once a run has applied and recorded what was to be applied, the
/// same migrations pass the checksum check, none of them is to be applied, and all of them
/// are reported as already applied.
pub proof fn law_rerun_applies_nothing(
    order: Seq<MigrationView>,
    stored: Map<Seq<char>, Seq<u8>>,
    applied: Set<Seq<char>>,
)
    requires
        unique_names(order),
        forall|i: int| !#[trigger] differs_at(order, stored, i),
    ensures
        ({
            let done = pending(order, applied);
            let stored_after = recorded(stored, done);
            let applied_after = applied.union(names_of(done).to_set());
            &&& forall|i: int| !#[trigger] differs_at(order, stored_after, i)
            &&& pending(order, applied_after) == Seq::<MigrationView>::empty()
            &&& skipped(order, applied_after) == order
        }),
{
    let done = pending(order, applied);
    let stored_after = recorded(stored, done);
    let applied_after = applied.union(names_of(done).to_set());
    law_plan_is_a_partition(order, applied);
    assert forall|i: int| !#[trigger] differs_at(order, stored_after, i) by {
        if 0 <= i < order.len() {
            let n = order[i].name;
            lemma_recorded(stored, done, n);
            assert(!differs_at(order, stored, i));
            if stored_after.contains_key(n) && !stored.contains_key(n) {
                let p = choose|p: int|
                    0 <= p < done.len() && (#[trigger] done[p]).name == n && done[p].checksum
                        == stored_after[n];
                assert(done.contains(done[p]));
                assert(order.contains(done[p]));
                let q = choose|q: int| 0 <= q < order.len() && order[q] == done[p];
                assert(order[q].name == order[i].name);
            }
        }
    }
    assert forall|i: int| 0 <= i < order.len() implies applied_after.contains(
        (#[trigger] order[i]).name,
    ) by {
        if !applied.contains(order[i].name) {
            assert(order.contains(order[i]));
            assert(done.contains(order[i]));
            let p = choose|p: int| 0 <= p < done.len() && done[p] == order[i];
            assert(names_of(done)[p] == order[i].name);
            assert(names_of(done).contains(order[i].name));
        }
    }
    lemma_all_applied(order, applied_after);
}

/// With all of them applied, nothing is to be applied.
proof fn lemma_all_applied(ms: Seq<MigrationView>, applied: Set<Seq<char>>)
    requires
        forall|i: int| 0 <= i < ms.len() ==> applied.contains((#[trigger] ms[i]).name),
    ensures
        pending(ms, applied) == Seq::<MigrationView>::empty(),
        skipped(ms, applied) == ms,
    decreases ms.len(),
{
    let due = |m: MigrationView| !applied.contains(m.name);
    let done = |m: MigrationView| applied.contains(m.name);
    if ms.len() == 0 {
        assert(ms =~= Seq::<MigrationView>::empty());
        lemma_filter_empty(due);
        lemma_filter_empty(done);
    } else {
        let t = ms.drop_last();
        assert forall|i: int| 0 <= i < t.len() implies applied.contains((#[trigger] t[i]).name) by {
            assert(t[i] == ms[i]);
        }
        lemma_all_applied(t, applied);
        assert(applied.contains(ms[ms.len() - 1].name));
        lemma_filter_push(t, ms.last(), due);
        lemma_filter_push(t, ms.last(), done);
        assert(t.push(ms.last()) =~= ms);
    }
}

/// A run against one schema leaves every other schema as it was: what is to be applied there
/// is planned from that schema's own names, and the checksums that the run recorded do not
/// stand in its way.
pub proof fn law_schemas_are_independent(
    order: Seq<MigrationView>,
    stored: Map<Seq<char>, Seq<u8>>,
    here: Set<Seq<char>>,
    there: Set<Seq<char>>,
)
    requires
        unique_names(order),
        forall|i: int| !#[trigger] differs_at(order, stored, i),
    ensures
        forall|i: int|
            !#[trigger] differs_at(order, recorded(stored, pending(order, here)), i),
        forall|m: MigrationView| #[trigger]
            pending(order, there).contains(m) <==> order.contains(m) && !there.contains(m.name),
{
    law_rerun_applies_nothing(order, stored, here);
    law_plan_is_a_partition(order, there);
}

/// An edited file is caught: where the checksum of an applied migration is no longer the
/// stored one, the check fails, and it fails nowhere else.
pub proof fn law_edited_file_is_caught(
    order: Seq<MigrationView>,
    stored: Map<Seq<char>, Seq<u8>>,
)
    ensures
        (exists|i: int| #[trigger] differs_at(order, stored, i)) <==> exists|m: MigrationView|
            #[trigger] order.contains(m) && stored.contains_key(m.name) && stored[m.name]
                != m.checksum,
{
    if exists|i: int| #[trigger] differs_at(order, stored, i) {
        let i = choose|i: int| #[trigger] differs_at(order, stored, i);
        assert(order.contains(order[i]));
    }
    if exists|m: MigrationView| #[trigger]
        order.contains(m) && stored.contains_key(m.name) && stored[m.name] != m.checksum {
        let m = choose|m: MigrationView| #[trigger]
            order.contains(m) && stored.contains_key(m.name) && stored[m.name] != m.checksum;
        let i = choose|i: int| 0 <= i < order.len() && order[i] == m;
        assert(differs_at(order, stored, i));
    }
}

/// Storing the checksum that a migration has now lets it pass, and changes nothing for any
/// other migration.
pub proof fn law_fixed_checksum_passes(
    order: Seq<MigrationView>,
    stored: Map<Seq<char>, Seq<u8>>,
    m: MigrationView,
    i: int,
)
    requires
        unique_names(order),
        order.contains(m),
    ensures
        differs_at(order, stored.insert(m.name, m.checksum), i) <==> differs_at(order, stored, i)
            && order[i].name != m.name,
{
    let k = choose|k: int| 0 <= k < order.len() && order[k] == m;
    if 0 <= i < order.len() && order[i].name == m.name {
        assert(order[i].name == order[k].name);
        assert(i == k);
    }
}

/// A migration that was recorded without being run is not applied; all others are planned as
/// before.
pub proof fn law_added_is_not_applied(
    order: Seq<MigrationView>,
    applied: Set<Seq<char>>,
    name: Seq<char>,
)
    ensures
        forall|m: MigrationView| #[trigger]
            pending(order, applied.insert(name)).contains(m) <==> pending(order, applied).contains(
                m,
            ) && m.name != name,
{
    law_plan_is_a_partition(order, applied);
    law_plan_is_a_partition(order, applied.insert(name));
}

/// A migration whose record was removed is applied again; all others are planned as before.
pub proof fn law_deleted_is_applied_again(
    order: Seq<MigrationView>,
    applied: Set<Seq<char>>,
    name: Seq<char>,
)
    ensures
        forall|m: MigrationView| #[trigger]
            pending(order, applied.remove(name)).contains(m) <==> pending(order, applied).contains(
                m,
            ) || (order.contains(m) && m.name == name),
{
    law_plan_is_a_partition(order, applied);
    law_plan_is_a_partition(order, applied.remove(name));
}

/// What each applied migration requires, once the migrations `done` have been applied.
pub open spec fn requires_after(
    applied: Map<Seq<char>, Seq<Seq<char>>>,
    done: Seq<MigrationView>,
) -> Map<Seq<char>, Seq<Seq<char>>>
    decreases done.len(),
{
    if done.len() == 0 {
        applied
    } else {
        requires_after(applied, done.drop_last()).insert(done.last().name, done.last().requires)
    }
}

/// Applying adds the names of what was applied.
proof fn lemma_requires_after(
    applied: Map<Seq<char>, Seq<Seq<char>>>,
    done: Seq<MigrationView>,
    n: Seq<char>,
)
    requires
        applied.contains_key(n) || exists|j: int|
            0 <= j < done.len() && (#[trigger] done[j]).name == n,
    ensures
        requires_after(applied, done).contains_key(n),
    decreases done.len(),
{
    if done.len() > 0 && done.last().name != n {
        let t = done.drop_last();
        if !applied.contains_key(n) {
            let j = choose|j: int| 0 <= j < done.len() && (#[trigger] done[j]).name == n;
            assert(t[j].name == n);
        }
        lemma_requires_after(applied, t, n);
    }
}

/// However far a run gets, what is applied by then has all that it requires.
pub proof fn law_run_keeps_requires_applied(
    nodes: Map<Seq<char>, MigrationView>,
    order: Seq<MigrationView>,
    applied: Map<Seq<char>, Seq<Seq<char>>>,
    k: int,
)
    requires
        is_sorted(nodes, order),
        requires_are_applied(applied),
        0 <= k <= pending(order, applied.dom()).len(),
    ensures
        requires_are_applied(requires_after(applied, pending(order, applied.dom()).take(k))),
    decreases k,
{
    let todo = pending(order, applied.dom());
    if k == 0 {
        assert(todo.take(0) =~= Seq::<MigrationView>::empty());
    } else {
        law_run_keeps_requires_applied(nodes, order, applied, k - 1);
        let done = todo.take(k - 1);
        let m = todo[k - 1];
        assert(todo.take(k).drop_last() =~= done);
        assert(todo.take(k).last() == m);
        assert forall|t: int| 0 <= t < m.requires.len() implies requires_after(
            applied,
            done,
        ).contains_key(#[trigger] m.requires[t]) by {
            let r = m.requires[t];
            assert(m.requires.contains(r));
            law_requires_are_met(nodes, order, applied.dom(), k - 1, r);
            if !applied.contains_key(r) {
                let j = choose|j: int| 0 <= j < k - 1 && (#[trigger] todo[j]).name == r;
                assert(done[j].name == r);
            }
            lemma_requires_after(applied, done, r);
        }
        law_add_keeps_requires_applied(requires_after(applied, done), m);
    }
}

} // verus!
