//! What holds of every order that [`crate::graph::topo_sort`] gives, and when it gives one.
use crate::graph::{
    by_name, comes_next, covers, has_cycle, is_cycle, is_smallest_first, is_sorted,
    is_stuck, names_of, needs,
};
use crate::search::{lemma_lex_irreflexive, lemma_lex_transitive};
use crate::types::MigrationView;
use crate::validation::unique_names;
use vstd::prelude::*;

verus! {

// ---------------------------------------------------------------------------
// Orders
// ---------------------------------------------------------------------------

/// Each migration stands after everything that it requires.
pub proof fn law_requires_come_first(
    nodes: Map<Seq<char>, MigrationView>,
    order: Seq<Seq<char>>,
    i: int,
    r: Seq<char>,
)
    requires
        is_smallest_first(nodes, order),
        0 <= i < order.len(),
        needs(nodes, order[i], r),
    ensures
        exists|j: int| 0 <= j < i && order[j] == r,
{
    assert(comes_next(nodes, order.take(i), order[i]));
    assert(order.take(i).contains(r));
    let j = choose|j: int| 0 <= j < order.take(i).len() && order.take(i)[j] == r;
    assert(order[j] == r);
}

/// No migration is placed twice.
pub proof fn law_each_placed_once(
    nodes: Map<Seq<char>, MigrationView>,
    order: Seq<Seq<char>>,
)
    requires
        is_smallest_first(nodes, order),
    ensures
        order.no_duplicates(),
{
    assert forall|i: int, j: int| 0 <= i < j < order.len() implies order[i] != order[j] by {
        assert(comes_next(nodes, order.take(j), order[j]));
        assert(order.take(j)[i] == order[i]);
    }
}

/// Of two orders of the same migrations, the shorter is the beginning of the longer.
proof fn lemma_common_prefix(
    nodes: Map<Seq<char>, MigrationView>,
    a: Seq<Seq<char>>,
    b: Seq<Seq<char>>,
    n: int,
)
    requires
        is_smallest_first(nodes, a),
        is_smallest_first(nodes, b),
        0 <= n <= a.len(),
        n <= b.len(),
    ensures
        a.take(n) == b.take(n),
    decreases n,
{
    if n == 0 {
        assert(a.take(0) =~= b.take(0));
    } else {
        lemma_common_prefix(nodes, a, b, n - 1);
        let x = a[n - 1];
        let y = b[n - 1];
        assert(comes_next(nodes, a.take(n - 1), x));
        assert(comes_next(nodes, b.take(n - 1), y));
        if x != y {
            lemma_lex_transitive(x, y, x);
            lemma_lex_irreflexive(x);
        }
        assert(a.take(n) =~= a.take(n - 1).push(x));
        assert(b.take(n) =~= b.take(n - 1).push(y));
    }
}

/// The order is determined by the migrations: there is only one that is smallest-first and
/// complete.
pub proof fn law_order_is_unique(
    nodes: Map<Seq<char>, MigrationView>,
    a: Seq<MigrationView>,
    b: Seq<MigrationView>,
)
    requires
        is_sorted(nodes, a),
        is_sorted(nodes, b),
    ensures
        a == b,
{
    let x = names_of(a);
    let y = names_of(b);
    let n = if x.len() < y.len() {
        x.len() as int
    } else {
        y.len() as int
    };
    lemma_common_prefix(nodes, x, y, n);
    if x.len() < y.len() {
        assert(comes_next(nodes, y.take(n), y[n]));
        assert(x.contains(y[n]));
        assert(x.take(n) =~= x);
    }
    if y.len() < x.len() {
        assert(comes_next(nodes, x.take(n), x[n]));
        assert(y.contains(x[n]));
        assert(y.take(n) =~= y);
    }
    assert(x.take(n) =~= x);
    assert(y.take(n) =~= y);
    assert forall|i: int| 0 <= i < a.len() implies a[i] == b[i] by {
        assert(x[i] == a[i].name);
        assert(y[i] == b[i].name);
        assert(a[i] == nodes[a[i].name]);
        assert(b[i] == nodes[b[i].name]);
    }
    assert(a =~= b);
}

/// With unique names, each name leads to its migration.
pub proof fn lemma_by_name_unique(ms: Seq<MigrationView>)
    requires
        unique_names(ms),
    ensures
        forall|i: int|
            0 <= i < ms.len() ==> by_name(ms).contains_key((#[trigger] ms[i]).name) && by_name(
                ms,
            )[ms[i].name] == ms[i],
        forall|n: Seq<char>| #[trigger]
            by_name(ms).contains_key(n) ==> exists|i: int|
                0 <= i < ms.len() && (#[trigger] ms[i]).name == n,
    decreases ms.len(),
{
    if ms.len() > 0 {
        let r = ms.drop_last();
        assert(unique_names(r)) by {
            assert forall|i: int, j: int| 0 <= i < j < r.len() implies (#[trigger] r[i]).name != (
            #[trigger] r[j]).name by {
                assert(r[i] == ms[i] && r[j] == ms[j]);
            }
        }
        lemma_by_name_unique(r);
        assert forall|i: int| 0 <= i < ms.len() implies by_name(ms).contains_key(
            (#[trigger] ms[i]).name,
        ) && by_name(ms)[ms[i].name] == ms[i] by {
            if i < ms.len() - 1 {
                assert(r[i] == ms[i]);
                assert(ms[i].name != ms[ms.len() - 1].name);
            }
        }
        assert forall|n: Seq<char>| #[trigger] by_name(ms).contains_key(n) implies exists|i: int|
            0 <= i < ms.len() && (#[trigger] ms[i]).name == n by {
            if n == ms.last().name {
                assert(ms[ms.len() - 1].name == n);
            } else {
                assert(by_name(r).contains_key(n));
                let i = choose|i: int| 0 <= i < r.len() && (#[trigger] r[i]).name == n;
                assert(ms[i].name == n);
            }
        }
    }
}

/// In what order migrations with unique names are given makes no difference: the same
/// migrations come out in the same order.
pub proof fn law_input_order_is_irrelevant(
    ms: Seq<MigrationView>,
    ns: Seq<MigrationView>,
    a: Seq<MigrationView>,
    b: Seq<MigrationView>,
)
    requires
        unique_names(ms),
        unique_names(ns),
        forall|m: MigrationView| #[trigger] ms.contains(m) <==> ns.contains(m),
        is_sorted(by_name(ms), a),
        is_sorted(by_name(ns), b),
    ensures
        by_name(ms) == by_name(ns),
        a == b,
{
    lemma_by_name_unique(ms);
    lemma_by_name_unique(ns);
    assert forall|n: Seq<char>| by_name(ms).contains_key(n) implies by_name(ns).contains_key(n)
        && by_name(ns)[n] == by_name(ms)[n] by {
        let i = choose|i: int| 0 <= i < ms.len() && (#[trigger] ms[i]).name == n;
        assert(ms.contains(ms[i]));
        let j = choose|j: int| 0 <= j < ns.len() && ns[j] == ms[i];
        assert(ns[j].name == n);
    }
    assert forall|n: Seq<char>| by_name(ns).contains_key(n) implies by_name(ms).contains_key(
        n,
    ) by {
        let i = choose|i: int| 0 <= i < ns.len() && (#[trigger] ns[i]).name == n;
        assert(ns.contains(ns[i]));
        assert(ms.contains(ns[i]));
        let j = choose|j: int| 0 <= j < ms.len() && ms[j] == ns[i];
        assert(ms[j].name == n);
    }
    assert(by_name(ms) =~= by_name(ns));
    law_order_is_unique(by_name(ms), a, b);
}

// ---------------------------------------------------------------------------
// Cycles
// ---------------------------------------------------------------------------

/// Where everything can be placed, no migration requires itself, directly or through others.
pub proof fn law_sorted_has_no_cycle(
    nodes: Map<Seq<char>, MigrationView>,
    order: Seq<Seq<char>>,
)
    requires
        is_smallest_first(nodes, order),
        covers(nodes, order),
    ensures
        !has_cycle(nodes),
{
    if has_cycle(nodes) {
        let path = choose|path: Seq<Seq<char>>| is_cycle(nodes, path);
        assert(needs(nodes, path[0], path[1]));
        lemma_cycle_is_not_placed(nodes, order, path);
    }
}

/// No order places a migration that requires itself, directly or through others.
pub proof fn lemma_cycle_is_not_placed(
    nodes: Map<Seq<char>, MigrationView>,
    order: Seq<Seq<char>>,
    path: Seq<Seq<char>>,
)
    requires
        is_smallest_first(nodes, order),
        is_cycle(nodes, path),
    ensures
        !order.contains(path[0]),
{
    if order.contains(path[0]) {
        law_each_placed_once(nodes, order);
        let p = order.index_of(path[0]);
        lemma_descends(nodes, order, path, path.len() - 1);
        let q = choose|q: int|
            0 <= q < order.len() && order[q] == path[path.len() - 1] && q + (path.len() - 1)
                <= order.index_of(path[0]);
        assert(order[q] == order[p]);
    }
}

/// Following `requires` for `i` steps leads at least `i` places towards the front.
proof fn lemma_descends(
    nodes: Map<Seq<char>, MigrationView>,
    order: Seq<Seq<char>>,
    path: Seq<Seq<char>>,
    i: int,
)
    requires
        is_smallest_first(nodes, order),
        order.contains(path[0]),
        is_cycle(nodes, path),
        0 <= i < path.len(),
    ensures
        exists|q: int|
            0 <= q < order.len() && order[q] == path[i] && q + i <= order.index_of(path[0]),
    decreases i,
{
    if i == 0 {
        let p = order.index_of(path[0]);
        assert(order[p] == path[0] && p + 0 <= p);
    } else {
        lemma_descends(nodes, order, path, i - 1);
        let q = choose|q: int|
            0 <= q < order.len() && order[q] == path[i - 1] && q + (i - 1) <= order.index_of(
                path[0],
            );
        assert(needs(nodes, path[i - 1], path[i]));
        law_requires_come_first(nodes, order, q, path[i]);
        let j = choose|j: int| 0 <= j < q && order[j] == path[i];
        assert(0 <= j < order.len() && order[j] == path[i] && j + i <= order.index_of(path[0]));
    }
}

/// A member of `stuck` that `n` requires.
spec fn next_stuck(
    nodes: Map<Seq<char>, MigrationView>,
    stuck: Seq<Seq<char>>,
    n: Seq<char>,
) -> Seq<char> {
    choose|r: Seq<char>| stuck.contains(r) && #[trigger] needs(nodes, n, r)
}

/// A walk of `len` steps from `start` along `requires` that stays within `stuck`.
spec fn walk(
    nodes: Map<Seq<char>, MigrationView>,
    stuck: Seq<Seq<char>>,
    start: Seq<char>,
    len: nat,
) -> Seq<Seq<char>>
    decreases len,
{
    if len == 0 {
        seq![start]
    } else {
        let w = walk(nodes, stuck, start, (len - 1) as nat);
        w.push(next_stuck(nodes, stuck, w.last()))
    }
}

proof fn lemma_walk(
    nodes: Map<Seq<char>, MigrationView>,
    stuck: Seq<Seq<char>>,
    start: Seq<char>,
    len: nat,
)
    requires
        is_stuck(nodes, stuck),
        stuck.contains(start),
    ensures
        walk(nodes, stuck, start, len).len() == len + 1,
        forall|i: int|
            0 <= i <= len ==> stuck.contains(#[trigger] walk(nodes, stuck, start, len)[i]),
        forall|i: int|
            0 <= i < len ==> needs(
                nodes,
                #[trigger] walk(nodes, stuck, start, len)[i],
                walk(nodes, stuck, start, len)[i + 1],
            ),
    decreases len,
{
    if len > 0 {
        let w = walk(nodes, stuck, start, (len - 1) as nat);
        lemma_walk(nodes, stuck, start, (len - 1) as nat);
        assert(stuck.contains(w[len - 1]));
        assert(w.last() == w[len - 1]);
        let r = next_stuck(nodes, stuck, w.last());
        assert(stuck.contains(r) && needs(nodes, w.last(), r));
        let v = walk(nodes, stuck, start, len);
        assert forall|i: int| 0 <= i <= len implies stuck.contains(#[trigger] v[i]) by {
            if i < len {
                assert(v[i] == w[i]);
            }
        }
        assert forall|i: int| 0 <= i < len implies needs(nodes, #[trigger] v[i], v[i + 1]) by {
            assert(v[i] == w[i]);
            if i + 1 < len {
                assert(v[i + 1] == w[i + 1]);
            }
        }
    }
}

/// Where some migrations cannot be placed, one requires itself, directly or through others.
pub proof fn law_stuck_has_cycle(
    nodes: Map<Seq<char>, MigrationView>,
    stuck: Seq<Seq<char>>,
)
    requires
        is_stuck(nodes, stuck),
    ensures
        has_cycle(nodes),
{
    let n = stuck.len();
    let w = walk(nodes, stuck, stuck[0], n);
    assert(stuck.contains(stuck[0]));
    lemma_walk(nodes, stuck, stuck[0], n);
    lemma_repeats(w, stuck);
    let (a, b) = choose|a: int, b: int|
        0 <= a < b < w.len() && #[trigger] w[a] == #[trigger] w[b];
    lemma_loop_is_cycle(nodes, w, a, b);
}

/// Of more things than there are places, two are the same.
proof fn lemma_repeats(w: Seq<Seq<char>>, stuck: Seq<Seq<char>>)
    requires
        w.len() > stuck.len(),
        forall|i: int| 0 <= i < w.len() ==> stuck.contains(#[trigger] w[i]),
    ensures
        exists|a: int, b: int| 0 <= a < b < w.len() && #[trigger] w[a] == #[trigger] w[b],
{
    if forall|a: int, b: int| 0 <= a < b < w.len() ==> #[trigger] w[a] != #[trigger] w[b] {
        assert(w.no_duplicates());
        w.unique_seq_to_set();
        stuck.lemma_cardinality_of_set();
        assert forall|x: Seq<char>| w.to_set().contains(x) implies stuck.to_set().contains(x) by {
            let i = choose|i: int| 0 <= i < w.len() && w[i] == x;
            assert(stuck.contains(w[i]));
        }
        vstd::set_lib::lemma_len_subset(w.to_set(), stuck.to_set());
    }
}

/// A stretch of a walk that ends where it began is a cycle.
proof fn lemma_loop_is_cycle(
    nodes: Map<Seq<char>, MigrationView>,
    w: Seq<Seq<char>>,
    a: int,
    b: int,
)
    requires
        0 <= a < b < w.len(),
        w[a] == w[b],
        forall|i: int| 0 <= i < w.len() - 1 ==> needs(nodes, #[trigger] w[i], w[i + 1]),
    ensures
        has_cycle(nodes),
{
    let path = w.subrange(a, b + 1);
    assert forall|k: int| 0 <= k < path.len() - 1 implies needs(
        nodes,
        #[trigger] path[k],
        path[k + 1],
    ) by {
        assert(needs(nodes, w[a + k], w[a + k + 1]));
    }
    assert(is_cycle(nodes, path));
}

/// The migrations that cannot be placed are determined by the graph.
pub proof fn law_stuck_set_is_unique(
    nodes: Map<Seq<char>, MigrationView>,
    a: Seq<Seq<char>>,
    b: Seq<Seq<char>>,
)
    requires
        is_stuck(nodes, a),
        is_stuck(nodes, b),
    ensures
        forall|n: Seq<char>| a.contains(n) <==> b.contains(n),
{
    assert forall|n: Seq<char>| a.contains(n) <==> b.contains(n) by {
        if a.contains(n) {
            lemma_stuck_within(nodes, a, b, n);
        }
        if b.contains(n) {
            lemma_stuck_within(nodes, b, a, n);
        }
    }
}

proof fn lemma_stuck_within(
    nodes: Map<Seq<char>, MigrationView>,
    a: Seq<Seq<char>>,
    b: Seq<Seq<char>>,
    n: Seq<char>,
)
    requires
        is_stuck(nodes, a),
        is_stuck(nodes, b),
        a.contains(n),
    ensures
        b.contains(n),
{
    if !b.contains(n) {
        let order = choose|order: Seq<Seq<char>>|
            {
                &&& #[trigger] is_smallest_first(nodes, order)
                &&& forall|n: Seq<char>|
                    #[trigger] nodes.contains_key(n) ==> (order.contains(n) <==> !b.contains(n))
            };
        assert(nodes.contains_key(n));
        assert(order.contains(n));
        let i = choose|i: int| 0 <= i < order.len() && order[i] == n;
        lemma_placed_is_not_stuck(nodes, a, order, i);
    }
}

/// What an order places is in no set whose members each require another of the set.
proof fn lemma_placed_is_not_stuck(
    nodes: Map<Seq<char>, MigrationView>,
    stuck: Seq<Seq<char>>,
    order: Seq<Seq<char>>,
    i: int,
)
    requires
        is_stuck(nodes, stuck),
        is_smallest_first(nodes, order),
        0 <= i < order.len(),
    ensures
        !stuck.contains(order[i]),
    decreases i,
{
    if stuck.contains(order[i]) {
        let r = next_stuck(nodes, stuck, order[i]);
        assert(stuck.contains(r) && needs(nodes, order[i], r));
        law_requires_come_first(nodes, order, i, r);
        let j = choose|j: int| 0 <= j < i && order[j] == r;
        lemma_placed_is_not_stuck(nodes, stuck, order, j);
    }
}

} // verus!
