//! What holds of an order and of a run, said of the lists of migrations themselves: where each
//! migration stands, what is refused, and what is applied and what is skipped.
use crate::graph::{
    by_name, comes_next, has_cycle, is_closed, is_cycle, is_dangling, is_ready, is_smallest_first,
    is_sorted, is_stuck, names_of, needs,
};
use crate::graph_laws::{
    law_each_placed_once, law_requires_come_first, lemma_by_name_unique, lemma_cycle_is_not_placed,
};
use crate::run::{pending, skipped};
use crate::search::lex_lt;
use crate::types::MigrationView;
use crate::validation::{differs_at, repeats_at, unique_names};
use vstd::prelude::*;

verus! {

// ---------------------------------------------------------------------------
// Names
// ---------------------------------------------------------------------------

/// Every migration is known by its name, and of several with one name the last counts.
pub proof fn law_last_of_a_name_counts(ms: Seq<MigrationView>)
    ensures
        forall|n: Seq<char>| #[trigger]
            by_name(ms).contains_key(n) <==> exists|i: int|
                0 <= i < ms.len() && (#[trigger] ms[i]).name == n,
        forall|i: int|
            0 <= i < ms.len() && (forall|j: int|
                i < j < ms.len() ==> (#[trigger] ms[j]).name != ms[i].name) ==> by_name(ms)[(
            #[trigger] ms[i]).name] == ms[i],
    decreases ms.len(),
{
    if ms.len() > 0 {
        let front = ms.drop_last();
        let last = ms.last();
        law_last_of_a_name_counts(front);
        assert forall|n: Seq<char>| #[trigger] by_name(ms).contains_key(n) implies exists|i: int|
            0 <= i < ms.len() && (#[trigger] ms[i]).name == n by {
            if n == last.name {
                assert(ms[ms.len() - 1].name == n);
            } else {
                assert(by_name(front).contains_key(n));
                let i = choose|i: int| 0 <= i < front.len() && (#[trigger] front[i]).name == n;
                assert(ms[i].name == n);
            }
        }
        assert forall|n: Seq<char>|
            (exists|i: int| 0 <= i < ms.len() && (#[trigger] ms[i]).name == n) implies
            #[trigger] by_name(ms).contains_key(n) by {
            let i = choose|i: int| 0 <= i < ms.len() && (#[trigger] ms[i]).name == n;
            if i < front.len() {
                assert(front[i].name == n);
                assert(by_name(front).contains_key(n));
            }
        }
        assert forall|i: int|
            0 <= i < ms.len() && (forall|j: int|
                i < j < ms.len() ==> (#[trigger] ms[j]).name != ms[i].name) implies by_name(ms)[(
        #[trigger] ms[i]).name] == ms[i] by {
            if i < front.len() {
                assert(ms[ms.len() - 1].name != ms[i].name);
                assert(front[i] == ms[i]);
                assert forall|j: int| i < j < front.len() implies (#[trigger] front[j]).name
                    != front[i].name by {
                    assert(ms[j].name != ms[i].name);
                }
            }
        }
    }
}

/// Names are refused as colliding exactly where two migrations bear one name; the first name
/// that comes a second time is one that an earlier migration bears.
pub proof fn law_colliding_names(ms: Seq<MigrationView>)
    ensures
        unique_names(ms) <==> !exists|i: int, j: int|
            0 <= i < j < ms.len() && (#[trigger] ms[i]).name == (#[trigger] ms[j]).name,
        (exists|k: int| #[trigger] repeats_at(ms, k)) <==> exists|i: int, j: int|
            0 <= i < j < ms.len() && (#[trigger] ms[i]).name == (#[trigger] ms[j]).name,
        forall|k: int| #[trigger]
            repeats_at(ms, k) ==> 0 <= k < ms.len() && exists|i: int|
                0 <= i < k && (#[trigger] ms[i]).name == ms[k].name,
{
    if exists|k: int| #[trigger] repeats_at(ms, k) {
        let k = choose|k: int| #[trigger] repeats_at(ms, k);
        let i = choose|i: int| 0 <= i < k && (#[trigger] ms[i]).name == ms[k].name;
        assert(0 <= i < k < ms.len() && ms[i].name == ms[k].name);
    }
    if exists|i: int, j: int|
        0 <= i < j < ms.len() && (#[trigger] ms[i]).name == (#[trigger] ms[j]).name {
        let (i, j) = choose|i: int, j: int|
            0 <= i < j < ms.len() && (#[trigger] ms[i]).name == (#[trigger] ms[j]).name;
        assert(repeats_at(ms, j));
    }
}

// ---------------------------------------------------------------------------
// Requirements that nothing meets
// ---------------------------------------------------------------------------

/// A requirement is dangling exactly where a migration lists it and no migration bears it.
pub proof fn law_dangling_requirement(ms: Seq<MigrationView>, n: Seq<char>, missing: Seq<char>)
    requires
        unique_names(ms),
    ensures
        is_dangling(by_name(ms), n, missing) <==> {
            &&& exists|i: int, t: int|
                #![trigger ms[i].requires[t]]
                {
                    &&& 0 <= i < ms.len()
                    &&& ms[i].name == n
                    &&& 0 <= t < ms[i].requires.len()
                    &&& ms[i].requires[t] == missing
                }
            &&& forall|j: int| 0 <= j < ms.len() ==> (#[trigger] ms[j]).name != missing
        },
{
    lemma_by_name_unique(ms);
    law_last_of_a_name_counts(ms);
    if is_dangling(by_name(ms), n, missing) {
        let i = choose|i: int| 0 <= i < ms.len() && (#[trigger] ms[i]).name == n;
        let t = choose|t: int| 0 <= t < ms[i].requires.len() && ms[i].requires[t] == missing;
        assert(ms[i].requires[t] == missing);
    }
}

/// Nothing is dangling exactly where everything that a migration lists is a migration's name.
pub proof fn law_closed_requirements(ms: Seq<MigrationView>)
    requires
        unique_names(ms),
    ensures
        is_closed(by_name(ms)) <==> forall|i: int, t: int|
            #![trigger ms[i].requires[t]]
            0 <= i < ms.len() && 0 <= t < ms[i].requires.len() ==> exists|j: int|
                0 <= j < ms.len() && (#[trigger] ms[j]).name == ms[i].requires[t],
{
    if is_closed(by_name(ms)) {
        assert forall|i: int, t: int|
            #![trigger ms[i].requires[t]]
            0 <= i < ms.len() && 0 <= t < ms[i].requires.len() implies exists|j: int|
            0 <= j < ms.len() && (#[trigger] ms[j]).name == ms[i].requires[t] by {
            law_dangling_requirement(ms, ms[i].name, ms[i].requires[t]);
            assert(!is_dangling(by_name(ms), ms[i].name, ms[i].requires[t]));
        }
    } else {
        let (n, r) = choose|n: Seq<char>, r: Seq<char>| #[trigger] is_dangling(by_name(ms), n, r);
        law_dangling_requirement(ms, n, r);
        let (i, t) = choose|i: int, t: int|
            #![trigger ms[i].requires[t]]
            {
                &&& 0 <= i < ms.len()
                &&& ms[i].name == n
                &&& 0 <= t < ms[i].requires.len()
                &&& ms[i].requires[t] == r
            };
        assert(ms[i].requires[t] == r);
    }
}

// ---------------------------------------------------------------------------
// The order
// ---------------------------------------------------------------------------

/// In a sorted list every requirement of a migration is the name of one before it.
pub proof fn law_order_meets_requirements(
    ms: Seq<MigrationView>,
    order: Seq<MigrationView>,
    i: int,
    t: int,
)
    requires
        is_sorted(by_name(ms), order),
        0 <= i < order.len(),
        0 <= t < order[i].requires.len(),
    ensures
        exists|j: int| 0 <= j < i && (#[trigger] order[j]).name == order[i].requires[t],
{
    let nodes = by_name(ms);
    let ns = names_of(order);
    let r = order[i].requires[t];
    assert(ns[i] == order[i].name);
    assert(comes_next(nodes, ns.take(i), ns[i]));
    assert(order[i] == nodes[order[i].name]);
    assert(nodes[ns[i]].requires.contains(r));
    assert(needs(nodes, ns[i], r));
    law_requires_come_first(nodes, ns, i, r);
    let j = choose|j: int| 0 <= j < i && ns[j] == r;
    assert(order[j].name == r);
}

/// A sorted list holds every migration, each once, and nothing else.
pub proof fn law_order_holds_each_once(ms: Seq<MigrationView>, order: Seq<MigrationView>)
    requires
        unique_names(ms),
        is_sorted(by_name(ms), order),
    ensures
        forall|i: int|
            0 <= i < ms.len() ==> exists|j: int|
                0 <= j < order.len() && #[trigger] order[j] == #[trigger] ms[i],
        forall|j: int|
            0 <= j < order.len() ==> exists|i: int|
                0 <= i < ms.len() && #[trigger] order[j] == #[trigger] ms[i],
        forall|i: int, j: int|
            0 <= i < j < order.len() ==> (#[trigger] order[i]).name != (#[trigger] order[j]).name,
{
    let nodes = by_name(ms);
    let ns = names_of(order);
    lemma_by_name_unique(ms);
    law_each_placed_once(nodes, ns);
    assert forall|i: int| 0 <= i < ms.len() implies exists|j: int|
        0 <= j < order.len() && #[trigger] order[j] == #[trigger] ms[i] by {
        assert(nodes.contains_key(ms[i].name));
        let j = choose|j: int| 0 <= j < ns.len() && ns[j] == ms[i].name;
        assert(order[j] == nodes[order[j].name]);
    }
    assert forall|j: int| 0 <= j < order.len() implies exists|i: int|
        0 <= i < ms.len() && #[trigger] order[j] == #[trigger] ms[i] by {
        assert(comes_next(nodes, ns.take(j), ns[j]));
        assert(ns[j] == order[j].name);
        let i = choose|i: int| 0 <= i < ms.len() && (#[trigger] ms[i]).name == ns[j];
        assert(order[j] == ms[i]);
    }
    assert forall|i: int, j: int| 0 <= i < j < order.len() implies (#[trigger] order[i]).name != (
    #[trigger] order[j]).name by {
        assert(ns[i] == order[i].name && ns[j] == order[j].name);
    }
}

/// Names decide wherever requirements do not: where a migration stands at `k` though all that
/// it requires stands before `i`, the one at `i` has the smaller name.
pub proof fn law_smaller_name_first(
    ms: Seq<MigrationView>,
    order: Seq<MigrationView>,
    i: int,
    k: int,
)
    requires
        is_sorted(by_name(ms), order),
        0 <= i < k < order.len(),
        forall|t: int|
            0 <= t < order[k].requires.len() ==> exists|j: int|
                0 <= j < i && (#[trigger] order[j]).name == #[trigger] order[k].requires[t],
    ensures
        lex_lt(order[i].name, order[k].name),
{
    let nodes = by_name(ms);
    let ns = names_of(order);
    assert(ns[i] == order[i].name && ns[k] == order[k].name);
    assert(comes_next(nodes, ns.take(i), ns[i]));
    assert(comes_next(nodes, ns.take(k), ns[k]));
    assert(order[k] == nodes[order[k].name]);
    law_each_placed_once(nodes, ns);
    assert(is_ready(nodes, ns.take(i), ns[k])) by {
        if ns.take(i).contains(ns[k]) {
            let p = choose|p: int| 0 <= p < i && ns.take(i)[p] == ns[k];
            assert(ns[p] == ns[k]);
        }
        assert forall|r: Seq<char>| #[trigger] needs(nodes, ns[k], r) implies ns.take(i).contains(
            r,
        ) by {
            let t = choose|t: int| 0 <= t < order[k].requires.len() && order[k].requires[t] == r;
            let j = choose|j: int|
                0 <= j < i && (#[trigger] order[j]).name == order[k].requires[t];
            assert(ns.take(i)[j] == r);
        }
    }
    assert(ns[k] != ns[i]);
}

// ---------------------------------------------------------------------------
// Cycles
// ---------------------------------------------------------------------------

/// The migrations at the places `path` require each other in turn, and the last is the first.
pub open spec fn is_loop(ms: Seq<MigrationView>, path: Seq<int>) -> bool {
    &&& path.len() >= 2
    &&& path[0] == path[path.len() - 1]
    &&& forall|i: int| 0 <= i < path.len() ==> 0 <= #[trigger] path[i] < ms.len()
    &&& forall|i: int|
        0 <= i < path.len() - 1 ==> ms[#[trigger] path[i]].requires.contains(ms[path[i + 1]].name)
}

/// The names along a loop make a cycle.
proof fn lemma_loop_names(ms: Seq<MigrationView>, path: Seq<int>)
    requires
        unique_names(ms),
        is_loop(ms, path),
    ensures
        is_cycle(by_name(ms), Seq::new(path.len(), |i: int| ms[path[i]].name)),
{
    lemma_by_name_unique(ms);
    let names = Seq::new(path.len(), |i: int| ms[path[i]].name);
    assert forall|i: int| 0 <= i < names.len() - 1 implies needs(
        by_name(ms),
        #[trigger] names[i],
        names[i + 1],
    ) by {
        let m = ms[path[i]];
        assert(0 <= path[i] < ms.len());
        assert(by_name(ms)[m.name] == m);
    }
    assert(names.first() == names.last());
}

/// There is a cycle exactly where migrations require each other in a circle.
pub proof fn law_cycle_is_a_loop(ms: Seq<MigrationView>)
    requires
        unique_names(ms),
    ensures
        has_cycle(by_name(ms)) <==> exists|path: Seq<int>| is_loop(ms, path),
{
    lemma_by_name_unique(ms);
    if exists|path: Seq<int>| is_loop(ms, path) {
        let path = choose|path: Seq<int>| is_loop(ms, path);
        lemma_loop_names(ms, path);
    }
    if has_cycle(by_name(ms)) {
        let names = choose|names: Seq<Seq<char>>| is_cycle(by_name(ms), names);
        let path = Seq::new(
            names.len(),
            |i: int| choose|j: int| 0 <= j < ms.len() && (#[trigger] ms[j]).name == names[i],
        );
        assert forall|i: int| 0 <= i < path.len() implies 0 <= #[trigger] path[i] < ms.len()
            && ms[path[i]].name == names[i] by {
            if i < path.len() - 1 {
                assert(needs(by_name(ms), names[i], names[i + 1]));
            } else {
                assert(needs(by_name(ms), names[0], names[1]));
                assert(names[i] == names[0]);
            }
            assert(by_name(ms).contains_key(names[i]));
        }
        assert forall|i: int| 0 <= i < path.len() - 1 implies ms[#[trigger] path[i]].requires.contains(
            ms[path[i + 1]].name,
        ) by {
            assert(needs(by_name(ms), names[i], names[i + 1]));
            assert(by_name(ms)[names[i]] == ms[path[i]]);
            assert(ms[path[i + 1]].name == names[i + 1]);
        }
        assert(names.first() == names.last());
        assert(is_loop(ms, path));
    }
}

/// The names that a cycle error gives: each is a migration's and requires another of them, no
/// other migration requires any of them, and every migration on a circle is among them.
pub proof fn law_stuck_names(ms: Seq<MigrationView>, stuck: Seq<Seq<char>>)
    requires
        unique_names(ms),
        is_stuck(by_name(ms), stuck),
    ensures
        stuck.len() > 0,
        stuck.no_duplicates(),
        forall|n: Seq<char>| #[trigger]
            stuck.contains(n) ==> exists|i: int, t: int|
                #![trigger ms[i].requires[t]]
                {
                    &&& 0 <= i < ms.len()
                    &&& ms[i].name == n
                    &&& 0 <= t < ms[i].requires.len()
                    &&& stuck.contains(ms[i].requires[t])
                },
        forall|i: int, t: int|
            #![trigger ms[i].requires[t]]
            0 <= i < ms.len() && !stuck.contains(ms[i].name) && 0 <= t < ms[i].requires.len()
                ==> !stuck.contains(ms[i].requires[t]),
        forall|path: Seq<int>|
            is_loop(ms, path) ==> stuck.contains(ms[#[trigger] path[0]].name),
{
    let nodes = by_name(ms);
    lemma_by_name_unique(ms);
    let order = choose|order: Seq<Seq<char>>|
        {
            &&& #[trigger] is_smallest_first(nodes, order)
            &&& forall|n: Seq<char>|
                #[trigger] nodes.contains_key(n) ==> (order.contains(n) <==> !stuck.contains(n))
        };
    assert forall|n: Seq<char>| #[trigger] stuck.contains(n) implies exists|i: int, t: int|
        #![trigger ms[i].requires[t]]
        {
            &&& 0 <= i < ms.len()
            &&& ms[i].name == n
            &&& 0 <= t < ms[i].requires.len()
            &&& stuck.contains(ms[i].requires[t])
        } by {
        let r = choose|r: Seq<char>| stuck.contains(r) && #[trigger] needs(nodes, n, r);
        assert(nodes.contains_key(n));
        let i = choose|i: int| 0 <= i < ms.len() && (#[trigger] ms[i]).name == n;
        assert(nodes[ms[i].name] == ms[i]);
        let t = choose|t: int| 0 <= t < ms[i].requires.len() && ms[i].requires[t] == r;
        assert(ms[i].requires[t] == r);
    }
    assert forall|i: int, t: int|
        #![trigger ms[i].requires[t]]
        0 <= i < ms.len() && !stuck.contains(ms[i].name) && 0 <= t < ms[i].requires.len() implies
        !stuck.contains(ms[i].requires[t]) by {
        let r = ms[i].requires[t];
        assert(nodes.contains_key(ms[i].name));
        assert(order.contains(ms[i].name));
        let p = choose|p: int| 0 <= p < order.len() && order[p] == ms[i].name;
        assert(nodes[ms[i].name] == ms[i]);
        assert(needs(nodes, order[p], r));
        law_requires_come_first(nodes, order, p, r);
        let q = choose|q: int| 0 <= q < p && order[q] == r;
        assert(comes_next(nodes, order.take(q), order[q]));
        assert(nodes.contains_key(r));
        assert(order.contains(r));
    }
    assert forall|path: Seq<int>| is_loop(ms, path) implies stuck.contains(
        ms[#[trigger] path[0]].name,
    ) by {
        let names = Seq::new(path.len(), |i: int| ms[path[i]].name);
        lemma_loop_names(ms, path);
        lemma_cycle_is_not_placed(nodes, order, names);
        assert(names[0] == ms[path[0]].name);
        assert(0 <= path[0] < ms.len());
        assert(nodes.contains_key(ms[path[0]].name));
    }
}

// ---------------------------------------------------------------------------
// Runs
// ---------------------------------------------------------------------------

/// What a run applies and what it skips, migration by migration: each goes to one of the two
/// lists by whether its name is applied, and both keep the order.
pub proof fn law_each_is_applied_or_skipped(
    a: Seq<MigrationView>,
    m: MigrationView,
    b: Seq<MigrationView>,
    applied: Set<Seq<char>>,
)
    ensures
        pending(Seq::empty(), applied) == Seq::<MigrationView>::empty(),
        skipped(Seq::empty(), applied) == Seq::<MigrationView>::empty(),
        applied.contains(m.name) ==> {
            &&& pending(a + seq![m] + b, applied) == pending(a, applied) + pending(b, applied)
            &&& skipped(a + seq![m] + b, applied) == skipped(a, applied) + seq![m] + skipped(
                b,
                applied,
            )
        },
        !applied.contains(m.name) ==> {
            &&& pending(a + seq![m] + b, applied) == pending(a, applied) + seq![m] + pending(
                b,
                applied,
            )
            &&& skipped(a + seq![m] + b, applied) == skipped(a, applied) + skipped(b, applied)
        },
{
    reveal(Seq::filter);
    let p = |m: MigrationView| !applied.contains(m.name);
    let q = |m: MigrationView| applied.contains(m.name);
    let one = seq![m];
    Seq::filter_distributes_over_add(a + one, b, p);
    Seq::filter_distributes_over_add(a, one, p);
    Seq::filter_distributes_over_add(a + one, b, q);
    Seq::filter_distributes_over_add(a, one, q);
    assert(one.drop_last() =~= Seq::<MigrationView>::empty());
    assert(Seq::<MigrationView>::empty().filter(p) =~= Seq::<MigrationView>::empty());
    assert(Seq::<MigrationView>::empty().filter(q) =~= Seq::<MigrationView>::empty());
    assert(one.filter(p) =~= if applied.contains(m.name) { Seq::empty() } else { one });
    assert(one.filter(q) =~= if applied.contains(m.name) { one } else { Seq::empty() });
    assert(pending(a, applied) + Seq::<MigrationView>::empty() =~= pending(a, applied));
    assert(skipped(a, applied) + Seq::<MigrationView>::empty() =~= skipped(a, applied));
}

/// The names of a list are those of its migrations, one for one.
pub proof fn law_names(ms: Seq<MigrationView>)
    ensures
        names_of(ms).len() == ms.len(),
        forall|i: int| 0 <= i < ms.len() ==> names_of(ms)[i] == (#[trigger] ms[i]).name,
{
}

/// The check of stored checksums passes exactly where every migration that has one stored
/// still has it; a migration that it refuses has another.
pub proof fn law_checksums(disk: Seq<MigrationView>, stored: Map<Seq<char>, Seq<u8>>)
    ensures
        (forall|i: int| !#[trigger] differs_at(disk, stored, i)) <==> (forall|i: int|
            0 <= i < disk.len() && stored.contains_key((#[trigger] disk[i]).name)
                ==> stored[disk[i].name] == disk[i].checksum),
        forall|i: int| #[trigger]
            differs_at(disk, stored, i) <==> 0 <= i < disk.len() && stored.contains_key(
                disk[i].name,
            ) && stored[disk[i].name] != disk[i].checksum,
{
    if forall|i: int| !#[trigger] differs_at(disk, stored, i) {
        assert forall|i: int|
            0 <= i < disk.len() && stored.contains_key((#[trigger] disk[i]).name) implies
            stored[disk[i].name] == disk[i].checksum by {
            assert(!differs_at(disk, stored, i));
        }
    }
}

} // verus!
