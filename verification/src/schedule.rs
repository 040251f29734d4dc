//! Scheduling of numbered tasks: each task after those it needs, and of the tasks that can
//! be next always the one with the smallest key.
use crate::search::{lemma_lex_total, lemma_lex_transitive, lex_lt, text_before};
use vstd::prelude::*;

verus! {

// ---------------------------------------------------------------------------
// What a schedule is
// ---------------------------------------------------------------------------

/// Every task that task `k` needs is among `done`, and task `k` is not.
pub open spec fn can_run(needs: Seq<Seq<usize>>, done: Seq<usize>, k: int) -> bool {
    &&& 0 <= k < needs.len()
    &&& !done.contains(k as usize)
    &&& forall|t: int| 0 <= t < needs[k].len() ==> done.contains(#[trigger] needs[k][t])
}

/// Task `k` can run next, and no other that can has a smaller key.
pub open spec fn runs_next(
    needs: Seq<Seq<usize>>,
    keys: Seq<Seq<char>>,
    done: Seq<usize>,
    k: int,
) -> bool {
    &&& can_run(needs, done, k)
    &&& forall|o: int| #[trigger] can_run(needs, done, o) ==> o == k || lex_lt(keys[k], keys[o])
}

/// Each task of `order` is the one that runs next after those before it.
pub open spec fn is_schedule(
    needs: Seq<Seq<usize>>,
    keys: Seq<Seq<char>>,
    order: Seq<usize>,
) -> bool {
    forall|i: int|
        0 <= i < order.len() ==> #[trigger] runs_next(needs, keys, order.take(i), order[i] as int)
}

/// The numbers of the tasks that each task needs are numbers of tasks.
pub open spec fn in_range(needs: Seq<Seq<usize>>) -> bool {
    forall|k: int, t: int|
        0 <= k < needs.len() && 0 <= t < needs[k].len() ==> 0 <= (#[trigger] needs[k][t])
            < needs.len()
}

/// No two tasks have the same key.
pub open spec fn distinct_keys(keys: Seq<Seq<char>>) -> bool {
    forall|i: int, j: int| 0 <= i < j < keys.len() ==> #[trigger] keys[i] != #[trigger] keys[j]
}

// ---------------------------------------------------------------------------
// Counting
// ---------------------------------------------------------------------------

/// How often `x` occurs in `s`.
spec fn count(s: Seq<usize>, x: usize) -> nat
    decreases s.len(),
{
    if s.len() == 0 {
        0
    } else {
        count(s.drop_last(), x) + (if s.last() == x {
            1nat
        } else {
            0nat
        })
    }
}

/// How many entries of `s` are not marked as placed.
spec fn unmet(s: Seq<usize>, placed: Seq<bool>) -> nat
    decreases s.len(),
{
    if s.len() == 0 {
        0
    } else {
        unmet(s.drop_last(), placed) + (if placed[s.last() as int] {
            0nat
        } else {
            1nat
        })
    }
}

proof fn lemma_count_push(s: Seq<usize>, y: usize, x: usize)
    ensures
        count(s.push(y), x) == count(s, x) + (if y == x {
            1nat
        } else {
            0nat
        }),
{
    assert(s.push(y).drop_last() =~= s);
}

/// A prefix of a list holds no more of `x` than the list.
proof fn lemma_count_take(s: Seq<usize>, n: int, x: usize)
    requires
        0 <= n <= s.len(),
    ensures
        count(s.take(n), x) <= count(s, x),
    decreases s.len() - n,
{
    if n < s.len() {
        lemma_count_take(s, n + 1, x);
        assert(s.take(n + 1).drop_last() =~= s.take(n));
    } else {
        assert(s.take(n) =~= s);
    }
}

/// Placing `j` meets as many entries as name it.
proof fn lemma_unmet_place(s: Seq<usize>, placed: Seq<bool>, j: usize)
    requires
        j < placed.len(),
        !placed[j as int],
        forall|t: int| 0 <= t < s.len() ==> #[trigger] s[t] < placed.len(),
    ensures
        unmet(s, placed) == unmet(s, placed.update(j as int, true)) + count(s, j),
    decreases s.len(),
{
    if s.len() > 0 {
        assert forall|t: int| 0 <= t < s.drop_last().len() implies #[trigger] s.drop_last()[t]
            < placed.len() by {
            assert(s.drop_last()[t] == s[t]);
        }
        assert(s[s.len() - 1] < placed.len());
        lemma_unmet_place(s.drop_last(), placed, j);
    }
}

/// Nothing is unmet exactly if every entry is placed.
proof fn lemma_unmet_zero(s: Seq<usize>, placed: Seq<bool>)
    ensures
        unmet(s, placed) == 0 <==> (forall|t: int|
            0 <= t < s.len() ==> placed[#[trigger] s[t] as int]),
    decreases s.len(),
{
    if s.len() > 0 {
        let r = s.drop_last();
        lemma_unmet_zero(r, placed);
        if unmet(s, placed) == 0 {
            assert forall|t: int| 0 <= t < s.len() implies placed[#[trigger] s[t] as int] by {
                if t < s.len() - 1 {
                    assert(r[t] == s[t]);
                }
            }
        }
        if forall|t: int| 0 <= t < s.len() ==> placed[#[trigger] s[t] as int] {
            assert forall|t: int| 0 <= t < r.len() implies placed[#[trigger] r[t] as int] by {
                assert(r[t] == s[t]);
            }
            assert(placed[s[s.len() - 1] as int]);
        }
    }
}

/// With nothing placed, every entry is unmet.
proof fn lemma_unmet_all(s: Seq<usize>, placed: Seq<bool>)
    requires
        forall|t: int| 0 <= t < s.len() ==> !placed[#[trigger] s[t] as int],
    ensures
        unmet(s, placed) == s.len(),
    decreases s.len(),
{
    if s.len() > 0 {
        let r = s.drop_last();
        assert forall|t: int| 0 <= t < r.len() implies !placed[#[trigger] r[t] as int] by {
            assert(r[t] == s[t]);
        }
        assert(!placed[s[s.len() - 1] as int]);
        lemma_unmet_all(r, placed);
    }
}

/// How many flags are not set.
spec fn unset(flags: Seq<bool>) -> nat
    decreases flags.len(),
{
    if flags.len() == 0 {
        0
    } else {
        unset(flags.drop_last()) + (if flags.last() {
            0nat
        } else {
            1nat
        })
    }
}

proof fn lemma_unset_set(flags: Seq<bool>, i: int)
    requires
        0 <= i < flags.len(),
        !flags[i],
    ensures
        unset(flags) == unset(flags.update(i, true)) + 1,
    decreases flags.len(),
{
    if i < flags.len() - 1 {
        lemma_unset_set(flags.drop_last(), i);
        assert(flags.update(i, true).drop_last() =~= flags.drop_last().update(i, true));
    } else {
        assert(flags.update(i, true).drop_last() =~= flags.drop_last());
    }
}

// ---------------------------------------------------------------------------
// Scheduling
// ---------------------------------------------------------------------------

/// Entry `j` lists the tasks that need task `j`, each as often as it names it.
spec fn is_reverse(needs: Seq<Seq<usize>>, dependents: Seq<Seq<usize>>) -> bool {
    &&& dependents.len() == needs.len()
    &&& in_range(dependents)
    &&& forall|j: usize, d: usize|
        j < needs.len() && d < needs.len() ==> #[trigger] count(dependents[j as int], d) == count(
            needs[d as int],
            j,
        )
}

/// How often task `d` names task `j`, counting only the tasks before `k` and the first `t`
/// entries of task `k`.
spec fn named_so_far(needs: Seq<Seq<usize>>, k: int, t: int, d: int, j: usize) -> nat {
    if d < k {
        count(needs[d], j)
    } else if d == k {
        count(needs[k].take(t), j)
    } else {
        0
    }
}

/// For each task, the tasks that need it.
fn reverse(needs: &Vec<Vec<usize>>) -> (dependents: Vec<Vec<usize>>)
    requires
        in_range(needs.deep_view()),
    ensures
        is_reverse(needs.deep_view(), dependents.deep_view()),
{
    let n = needs.len();
    let ghost rows = needs.deep_view();
    let mut dependents: Vec<Vec<usize>> = Vec::new();
    let mut i: usize = 0;
    while i < n
        invariant
            i <= n,
            dependents@.len() == i,
            forall|j: int| 0 <= j < i ==> (#[trigger] dependents@[j])@.len() == 0,
        decreases n - i,
    {
        dependents.push(Vec::new());
        i += 1;
    }
    let mut k: usize = 0;
    while k < n
        invariant
            n == needs@.len(),
            k <= n,
            rows == needs.deep_view(),
            in_range(rows),
            dependents@.len() == n,
            forall|j: int, t: int|
                0 <= j < n && 0 <= t < dependents@[j]@.len() ==> (#[trigger] dependents@[j]@[t])
                    < n,
            forall|j: usize, d: usize|
                j < n && d < n ==> #[trigger] count(dependents@[j as int]@, d) == named_so_far(
                    rows,
                    k as int,
                    0,
                    d as int,
                    j,
                ),
        decreases n - k,
    {
        let mut t: usize = 0;
        while t < needs[k].len()
            invariant
                n == needs@.len(),
                k < n,
                t <= needs@[k as int]@.len(),
                rows == needs.deep_view(),
                in_range(rows),
                dependents@.len() == n,
                forall|j: int, u: int|
                    0 <= j < n && 0 <= u < dependents@[j]@.len() ==> (
                    #[trigger] dependents@[j]@[u]) < n,
                forall|j: usize, d: usize|
                    j < n && d < n ==> #[trigger] count(dependents@[j as int]@, d) == named_so_far(
                        rows,
                        k as int,
                        t as int,
                        d as int,
                        j,
                    ),
            decreases needs@[k as int]@.len() - t,
        {
            let j = needs[k][t];
            assert(rows[k as int][t as int] == j);
            let ghost before = dependents@;
            dependents[j].push(k);
            proof {
                let row = rows[k as int];
                assert(row.take(t + 1).drop_last() =~= row.take(t as int));
                assert forall|i: usize, d: usize| i < n && d < n implies #[trigger] count(
                    dependents@[i as int]@,
                    d,
                ) == named_so_far(rows, k as int, t + 1, d as int, i) by {
                    lemma_count_push(before[j as int]@, k, d);
                    assert(count(before[i as int]@, d) == named_so_far(
                        rows,
                        k as int,
                        t as int,
                        d as int,
                        i,
                    ));
                }
            }
            t += 1;
        }
        proof {
            assert(rows[k as int].take(t as int) =~= rows[k as int]);
            assert forall|j: usize, d: usize| j < n && d < n implies #[trigger] count(
                dependents@[j as int]@,
                d,
            ) == named_so_far(rows, k + 1, 0, d as int, j) by {
                if k + 1 < n {
                    assert(rows[k + 1].take(0) =~= Seq::<usize>::empty());
                }
            }
        }
        k += 1;
    }
    proof {
        let b = dependents.deep_view();
        assert forall|j: usize, d: usize| j < n && d < n implies #[trigger] count(
            b[j as int],
            d,
        ) == count(rows[d as int], j) by {
            assert(b[j as int] =~= dependents@[j as int]@);
        }
        assert forall|j: int, t: int| 0 <= j < b.len() && 0 <= t < b[j].len() implies 0 <= (
        #[trigger] b[j][t]) < b.len() by {
            assert(dependents@[j]@[t] < n);
        }
    }
    dependents
}

/// The position in `ready` of the task with the smallest key.
fn smallest(ready: &Vec<usize>, keys: &Vec<Vec<char>>) -> (pos: usize)
    requires
        ready@.len() > 0,
        forall|i: int| 0 <= i < ready@.len() ==> #[trigger] ready@[i] < keys@.len(),
        distinct_keys(keys.deep_view()),
    ensures
        pos < ready@.len(),
        forall|o: usize|
            #[trigger] ready@.contains(o) ==> o == ready@[pos as int] || lex_lt(
                keys.deep_view()[ready@[pos as int] as int],
                keys.deep_view()[o as int],
            ),
{
    let ghost ks = keys.deep_view();
    let mut pos: usize = 0;
    let mut i: usize = 1;
    while i < ready.len()
        invariant
            pos < i <= ready@.len(),
            ks == keys.deep_view(),
            distinct_keys(ks),
            forall|j: int| 0 <= j < ready@.len() ==> #[trigger] ready@[j] < keys@.len(),
            forall|j: int|
                0 <= j < i ==> (#[trigger] ready@[j]) == ready@[pos as int] || lex_lt(
                    ks[ready@[pos as int] as int],
                    ks[ready@[j] as int],
                ),
        decreases ready@.len() - i,
    {
        let a = ready[i];
        let b = ready[pos];
        assert(ready@[i as int] < keys@.len() && ready@[pos as int] < keys@.len());
        assert(ks[a as int] =~= keys@[a as int]@ && ks[b as int] =~= keys@[b as int]@);
        if text_before(keys[a].as_slice(), keys[b].as_slice()) {
            proof {
                assert forall|j: int| 0 <= j < i + 1 implies (#[trigger] ready@[j]) == a || lex_lt(
                    ks[a as int],
                    ks[ready@[j] as int],
                ) by {
                    if j < i && ready@[j] != b {
                        lemma_lex_transitive(ks[a as int], ks[b as int], ks[ready@[j] as int]);
                    }
                }
            }
            pos = i;
        } else {
            proof {
                lemma_lex_total(ks[a as int], ks[b as int]);
            }
        }
        i += 1;
    }
    proof {
        assert forall|o: usize| #[trigger] ready@.contains(o) implies o == ready@[pos as int]
            || lex_lt(ks[ready@[pos as int] as int], ks[o as int]) by {
            let j = choose|j: int| 0 <= j < ready@.len() && ready@[j] == o;
            assert(ready@[j] == o);
        }
    }
    pos
}

/// The state between two steps: what is placed, what is not yet met, and what can run.
#[verifier::opaque]
spec fn consistent(
    needs: Seq<Seq<usize>>,
    order: Seq<usize>,
    placed: Seq<bool>,
    pending: Seq<usize>,
    ready: Seq<usize>,
) -> bool {
    &&& placed.len() == needs.len()
    &&& pending.len() == needs.len()
    &&& forall|k: usize| k < needs.len() ==> (#[trigger] placed[k as int] <==> order.contains(k))
    &&& forall|i: int| 0 <= i < order.len() ==> #[trigger] order[i] < needs.len()
    &&& forall|k: int|
        0 <= k < needs.len() ==> #[trigger] pending[k] == unmet(needs[k], placed)
    &&& forall|k: int| 0 <= k < needs.len() && #[trigger] placed[k] ==> pending[k] == 0
    &&& ready.no_duplicates()
    &&& forall|i: int| 0 <= i < ready.len() ==> #[trigger] ready[i] < needs.len()
    &&& forall|k: usize|
        k < needs.len() ==> (#[trigger] ready.contains(k) <==> !placed[k as int]
            && pending[k as int] == 0)
}

/// In a consistent state the ready tasks are those that can run.
proof fn lemma_ready_can_run(
    needs: Seq<Seq<usize>>,
    order: Seq<usize>,
    placed: Seq<bool>,
    pending: Seq<usize>,
    ready: Seq<usize>,
    k: usize,
)
    requires
        needs.len() <= usize::MAX,
        in_range(needs),
        consistent(needs, order, placed, pending, ready),
        k < needs.len(),
    ensures
        ready.contains(k) <==> can_run(needs, order, k as int),
{
    reveal(consistent);
    lemma_unmet_zero(needs[k as int], placed);
    assert(pending[k as int] == unmet(needs[k as int], placed));
    if ready.contains(k) {
        assert forall|t: int| 0 <= t < needs[k as int].len() implies order.contains(
            #[trigger] needs[k as int][t],
        ) by {
            assert(placed[needs[k as int][t] as int]);
        }
    }
    if can_run(needs, order, k as int) {
        assert forall|t: int| 0 <= t < needs[k as int].len() implies placed[
        #[trigger] needs[k as int][t] as int] by {
            assert(order.contains(needs[k as int][t]));
        }
        assert(!placed[k as int]);
    }
}

/// The order in which the tasks run: always the one with the smallest key among those that
/// can run, for as long as there is one.
pub fn schedule(needs: &Vec<Vec<usize>>, keys: &Vec<Vec<char>>) -> (order: Vec<usize>)
    requires
        needs@.len() == keys@.len(),
        in_range(needs.deep_view()),
        distinct_keys(keys.deep_view()),
    ensures
        is_schedule(needs.deep_view(), keys.deep_view(), order@),
        forall|k: int| !#[trigger] can_run(needs.deep_view(), order@, k),
{
    let n = needs.len();
    let ghost rows = needs.deep_view();
    let ghost ks = keys.deep_view();
    let dependents = reverse(needs);
    let mut order: Vec<usize> = Vec::new();
    let mut placed: Vec<bool> = Vec::new();
    let mut pending: Vec<usize> = Vec::new();
    let mut ready: Vec<usize> = Vec::new();
    let mut i: usize = 0;
    while i < n
        invariant
            n == needs@.len(),
            i <= n,
            rows == needs.deep_view(),
            placed@.len() == i,
            pending@.len() == i,
            forall|k: int| 0 <= k < i ==> !#[trigger] placed@[k],
            forall|k: int| 0 <= k < i ==> #[trigger] pending@[k] == rows[k].len(),
            ready@.no_duplicates(),
            forall|k: int| 0 <= k < ready@.len() ==> #[trigger] ready@[k] < i,
            forall|k: usize|
                k < i ==> (#[trigger] ready@.contains(k) <==> pending@[k as int] == 0),
        decreases n - i,
    {
        let ghost before = ready@;
        placed.push(false);
        pending.push(needs[i].len());
        if needs[i].len() == 0 {
            ready.push(i);
            proof {
                assert(ready@[before.len() as int] == i);
                assert forall|k: usize| k < i + 1 implies (#[trigger] ready@.contains(k)
                    <==> pending@[k as int] == 0) by {
                    if before.contains(k) {
                        let p = choose|p: int| 0 <= p < before.len() && before[p] == k;
                        assert(ready@[p] == k);
                    }
                    if ready@.contains(k) && k < i {
                        let p = choose|p: int| 0 <= p < ready@.len() && ready@[p] == k;
                        assert(before[p] == k);
                    }
                }
            }
        } else {
            assert(!ready@.contains(i)) by {
                if ready@.contains(i) {
                    let p = choose|p: int| 0 <= p < ready@.len() && ready@[p] == i;
                    assert(ready@[p] < i);
                }
            }
        }
        i += 1;
    }
    proof {
        reveal(consistent);
        assert forall|k: int| 0 <= k < n implies #[trigger] pending@[k] == unmet(
            rows[k],
            placed@,
        ) by {
            assert forall|t: int| 0 <= t < rows[k].len() implies !placed@[
            #[trigger] rows[k][t] as int] by {
                assert(rows[k][t] < n);
            }
            lemma_unmet_all(rows[k], placed@);
        }
        assert(consistent(rows, order@, placed@, pending@, ready@));
    }
    while ready.len() > 0
        invariant
            n == needs@.len() == keys@.len(),
            rows == needs.deep_view(),
            ks == keys.deep_view(),
            in_range(rows),
            distinct_keys(ks),
            is_reverse(rows, dependents.deep_view()),
            consistent(rows, order@, placed@, pending@, ready@),
            is_schedule(rows, ks, order@),
        decreases unset(placed@),
    {
        assert(forall|j: int| 0 <= j < ready@.len() ==> #[trigger] ready@[j] < n) by {
            reveal(consistent);
        }
        let pos = smallest(&ready, keys);
        let j = ready[pos];
        assert(ready@.contains(j));
        proof {
            lemma_ready_can_run(rows, order@, placed@, pending@, ready@, j);
            assert forall|o: int| #[trigger] can_run(rows, order@, o) implies o == j || lex_lt(
                ks[j as int],
                ks[o],
            ) by {
                lemma_ready_can_run(rows, order@, placed@, pending@, ready@, o as usize);
            }
            assert(runs_next(rows, ks, order@, j as int));
            lemma_schedule_push(rows, ks, order@, j);
        }
        run(needs, &dependents, j, pos, &mut order, &mut placed, &mut pending, &mut ready);
    }
    proof {
        assert forall|k: int| !#[trigger] can_run(rows, order@, k) by {
            if can_run(rows, order@, k) {
                lemma_ready_can_run(rows, order@, placed@, pending@, ready@, k as usize);
            }
        }
    }
    order
}

/// A schedule stays one with the task added that runs next.
proof fn lemma_schedule_push(
    needs: Seq<Seq<usize>>,
    keys: Seq<Seq<char>>,
    order: Seq<usize>,
    j: usize,
)
    requires
        is_schedule(needs, keys, order),
        runs_next(needs, keys, order, j as int),
    ensures
        is_schedule(needs, keys, order.push(j)),
{
    let longer = order.push(j);
    assert forall|i: int| 0 <= i < longer.len() implies #[trigger] runs_next(
        needs,
        keys,
        longer.take(i),
        longer[i] as int,
    ) by {
        assert(longer.take(i) =~= order.take(i));
        if i == order.len() {
            assert(order.take(i) =~= order);
        } else {
            assert(runs_next(needs, keys, order.take(i), order[i] as int));
        }
    }
}

/// Runs task `j`, which stands at `pos` among the ready tasks.
fn run(
    needs: &Vec<Vec<usize>>,
    dependents: &Vec<Vec<usize>>,
    j: usize,
    pos: usize,
    order: &mut Vec<usize>,
    placed: &mut Vec<bool>,
    pending: &mut Vec<usize>,
    ready: &mut Vec<usize>,
)
    requires
        in_range(needs.deep_view()),
        is_reverse(needs.deep_view(), dependents.deep_view()),
        consistent(needs.deep_view(), old(order)@, old(placed)@, old(pending)@, old(ready)@),
        pos < old(ready)@.len(),
        old(ready)@[pos as int] == j,
    ensures
        consistent(
            needs.deep_view(),
            final(order)@,
            final(placed)@,
            final(pending)@,
            final(ready)@,
        ),
        final(order)@ == old(order)@.push(j),
        unset(final(placed)@) < unset(old(placed)@),
{
    let ghost rows = needs.deep_view();
    let ghost deps = dependents.deep_view()[j as int];
    let ghost order0 = order@;
    let ghost placed0 = placed@;
    let ghost pending0 = pending@;
    let ghost ready0 = ready@;
    let n = needs.len();
    proof {
        reveal(consistent);
        assert(ready0[pos as int] < n);
        assert(ready0.contains(j));
        lemma_unset_set(placed0, j as int);
    }
    ready.swap_remove(pos);
    placed.set(j, true);
    order.push(j);
    proof {
        lemma_swap_remove(ready0, pos as int);
    }
    let ghost placed1 = placed@;
    let mut t: usize = 0;
    while t < dependents[j].len()
        invariant
            n == needs@.len() == rows.len(),
            rows == needs.deep_view(),
            j < n,
            deps == dependents.deep_view()[j as int],
            dependents@.len() == n,
            in_range(rows),
            is_reverse(rows, dependents.deep_view()),
            t <= dependents@[j as int]@.len(),
            placed0.len() == n,
            !placed0[j as int],
            placed@ == placed1,
            placed1 == placed0.update(j as int, true),
            unmet(rows[j as int], placed0) == 0,
            forall|k: int| 0 <= k < n && #[trigger] placed0[k] ==> unmet(rows[k], placed0) == 0,
            pending@.len() == n,
            forall|d: usize|
                d < n ==> #[trigger] pending@[d as int] + count(deps.take(t as int), d) == unmet(
                    rows[d as int],
                    placed0,
                ),
            ready@.no_duplicates(),
            forall|i: int| 0 <= i < ready@.len() ==> #[trigger] ready@[i] < n,
            forall|k: usize|
                k < n ==> (#[trigger] ready@.contains(k) <==> !placed1[k as int]
                    && pending@[k as int] == 0),
        decreases dependents@[j as int]@.len() - t,
    {
        let d = dependents[j][t];
        proof {
            assert(deps =~= dependents@[j as int]@);
            assert(dependents.deep_view()[j as int][t as int] == d);
            assert(deps.take(t + 1).drop_last() =~= deps.take(t as int));
            lemma_count_take(deps, t + 1, d);
            assert(count(dependents.deep_view()[j as int], d) == count(rows[d as int], j));
            lemma_unmet_place(rows[d as int], placed0, j);
            assert(pending@[d as int] + count(deps.take(t as int), d) == unmet(
                rows[d as int],
                placed0,
            ));
            assert(pending@[d as int] > 0);
            assert(!placed1[d as int]);
            assert(!ready@.contains(d));
            assert forall|o: usize| o != d implies #[trigger] count(deps.take(t + 1), o) == count(
                deps.take(t as int),
                o,
            ) by {}
        }
        let left: usize = pending[d] - 1;
        let ghost before_pending = pending@;
        let ghost before_ready = ready@;
        pending.set(d, left);
        if left == 0 {
            ready.push(d);
            proof {
                assert(ready@[before_ready.len() as int] == d);
                assert forall|k: usize| k < n implies (#[trigger] ready@.contains(k)
                    <==> !placed1[k as int] && pending@[k as int] == 0) by {
                    if before_ready.contains(k) {
                        let p = choose|p: int|
                            0 <= p < before_ready.len() && before_ready[p] == k;
                        assert(ready@[p] == k);
                    }
                    if ready@.contains(k) && k != d {
                        let p = choose|p: int| 0 <= p < ready@.len() && ready@[p] == k;
                        assert(before_ready[p] == k);
                    }
                }
            }
        }
        proof {
            assert forall|o: usize| o < n implies #[trigger] pending@[o as int] + count(
                deps.take(t + 1),
                o,
            ) == unmet(rows[o as int], placed0) by {
                assert(before_pending[o as int] + count(deps.take(t as int), o) == unmet(
                    rows[o as int],
                    placed0,
                ));
            }
        }
        t += 1;
    }
    proof {
        reveal(consistent);
        assert(deps =~= dependents@[j as int]@);
        assert(deps.take(t as int) =~= deps);
        assert forall|k: int| 0 <= k < n implies #[trigger] pending@[k] == unmet(
            rows[k],
            placed@,
        ) by {
            let d = k as usize;
            assert(pending@[d as int] + count(deps.take(t as int), d) == unmet(rows[k], placed0));
            assert(count(dependents.deep_view()[j as int], d) == count(rows[k], j));
            lemma_unmet_place(rows[k], placed0, j);
        }
        assert forall|k: usize| k < n implies (#[trigger] placed@[k as int] <==> order@.contains(
            k,
        )) by {
            assert(order@[order0.len() as int] == j);
            if order0.contains(k) {
                let p = choose|p: int| 0 <= p < order0.len() && order0[p] == k;
                assert(order@[p] == k);
            }
            if order@.contains(k) && k != j {
                let p = choose|p: int| 0 <= p < order@.len() && order@[p] == k;
                assert(order0[p] == k);
            }
            assert(placed0[k as int] <==> order0.contains(k));
        }
        assert forall|k: int| 0 <= k < n && #[trigger] placed@[k] implies pending@[k] == 0 by {
            let d = k as usize;
            assert(pending@[d as int] + count(deps.take(t as int), d) == unmet(rows[k], placed0));
            if k != j {
                assert(placed0[k]);
            }
        }
    }
}

/// Removing one entry of a list without duplicates leaves the others.
proof fn lemma_swap_remove(s: Seq<usize>, pos: int)
    requires
        0 <= pos < s.len(),
        s.no_duplicates(),
    ensures
        ({
            let r = s.update(pos, s.last()).drop_last();
            &&& r.no_duplicates()
            &&& forall|x: usize| #[trigger] r.contains(x) <==> s.contains(x) && x != s[pos]
        }),
{
    let r = s.update(pos, s.last()).drop_last();
    assert forall|x: usize| #[trigger] r.contains(x) <==> s.contains(x) && x != s[pos] by {
        if r.contains(x) {
            let i = choose|i: int| 0 <= i < r.len() && r[i] == x;
            if i == pos {
                assert(s[s.len() - 1] == x);
            } else {
                assert(s[i] == x);
            }
        }
        if s.contains(x) && x != s[pos] {
            let i = choose|i: int| 0 <= i < s.len() && s[i] == x;
            if i == s.len() - 1 {
                assert(r[pos] == x);
            } else {
                assert(r[i] == x);
            }
        }
    }
}

} // verus!
