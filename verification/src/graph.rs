//! Dependency graph: [`topo_sort`] orders migrations so each runs after its `requires`,
//! rejecting cycles ([`Error::Cycle`]) and dangling references
//! ([`Error::DanglingDependency`]). Among ready migrations the smallest name is emitted
//! first, giving a deterministic order.
use crate::graph_laws::{law_sorted_has_no_cycle, law_stuck_has_cycle};
use crate::schedule::{can_run, distinct_keys, in_range, is_schedule, runs_next, schedule};
use crate::search::lex_lt;
use crate::text::chars_of;
use crate::types::{Error, Migration, MigrationName, MigrationView, Result};
use vstd::hash_map::StringHashMap;
use vstd::prelude::*;

verus! {

// ---------------------------------------------------------------------------
// The graph
// ---------------------------------------------------------------------------

/// The migrations by name. Of several with one name, the last counts.
pub open spec fn by_name(ms: Seq<MigrationView>) -> Map<Seq<char>, MigrationView>
    decreases ms.len(),
{
    if ms.len() == 0 {
        Map::empty()
    } else {
        by_name(ms.drop_last()).insert(ms.last().name, ms.last())
    }
}

/// Migration `n` requires `r`.
pub open spec fn needs(nodes: Map<Seq<char>, MigrationView>, n: Seq<char>, r: Seq<char>) -> bool {
    nodes.contains_key(n) && nodes[n].requires.contains(r)
}

/// Migration `n` requires `missing`, which does not exist.
pub open spec fn is_dangling(
    nodes: Map<Seq<char>, MigrationView>,
    n: Seq<char>,
    missing: Seq<char>,
) -> bool {
    needs(nodes, n, missing) && !nodes.contains_key(missing)
}

/// Everything that is required exists.
pub open spec fn is_closed(nodes: Map<Seq<char>, MigrationView>) -> bool {
    forall|n: Seq<char>, r: Seq<char>| !#[trigger] is_dangling(nodes, n, r)
}

/// A walk along `requires` that ends where it started.
pub open spec fn is_cycle(nodes: Map<Seq<char>, MigrationView>, path: Seq<Seq<char>>) -> bool {
    &&& path.len() >= 2
    &&& path.first() == path.last()
    &&& forall|i: int|
        0 <= i < path.len() - 1 ==> needs(nodes, #[trigger] path[i], path[i + 1])
}

/// Some migration requires itself, directly or through others.
pub open spec fn has_cycle(nodes: Map<Seq<char>, MigrationView>) -> bool {
    exists|path: Seq<Seq<char>>| is_cycle(nodes, path)
}

// ---------------------------------------------------------------------------
// Orders
// ---------------------------------------------------------------------------

/// Migration `n` is not among `placed`, and everything that it requires is.
pub open spec fn is_ready(
    nodes: Map<Seq<char>, MigrationView>,
    placed: Seq<Seq<char>>,
    n: Seq<char>,
) -> bool {
    &&& nodes.contains_key(n)
    &&& !placed.contains(n)
    &&& forall|r: Seq<char>| #[trigger] needs(nodes, n, r) ==> placed.contains(r)
}

/// Migration `n` is ready, and has the smallest name of those that are.
pub open spec fn comes_next(
    nodes: Map<Seq<char>, MigrationView>,
    placed: Seq<Seq<char>>,
    n: Seq<char>,
) -> bool {
    &&& is_ready(nodes, placed, n)
    &&& forall|o: Seq<char>| #[trigger] is_ready(nodes, placed, o) ==> o == n || lex_lt(n, o)
}

/// Each name comes next after those before it.
pub open spec fn is_smallest_first(
    nodes: Map<Seq<char>, MigrationView>,
    order: Seq<Seq<char>>,
) -> bool {
    forall|i: int|
        0 <= i < order.len() ==> #[trigger] comes_next(nodes, order.take(i), order[i])
}

/// The order has a place for every migration.
pub open spec fn covers(nodes: Map<Seq<char>, MigrationView>, order: Seq<Seq<char>>) -> bool {
    forall|n: Seq<char>| #[trigger] nodes.contains_key(n) ==> order.contains(n)
}

/// The names of `ms`, in order.
pub open spec fn names_of(ms: Seq<MigrationView>) -> Seq<Seq<char>> {
    ms.map_values(|m: MigrationView| m.name)
}

/// `order` holds every migration once, each after all that it requires, and of those that
/// are ready always the one with the smallest name first.
pub open spec fn is_sorted(
    nodes: Map<Seq<char>, MigrationView>,
    order: Seq<MigrationView>,
) -> bool {
    &&& is_smallest_first(nodes, names_of(order))
    &&& covers(nodes, names_of(order))
    &&& forall|i: int| 0 <= i < order.len() ==> #[trigger] order[i] == nodes[order[i].name]
}

/// `stuck` lists, each once, the migrations that no order can place: each of them requires
/// one of them, and all the others can be placed.
pub open spec fn is_stuck(
    nodes: Map<Seq<char>, MigrationView>,
    stuck: Seq<Seq<char>>,
) -> bool {
    &&& stuck.len() > 0
    &&& stuck.no_duplicates()
    &&& forall|n: Seq<char>| #[trigger]
        stuck.contains(n) ==> nodes.contains_key(n) && exists|r: Seq<char>|
            stuck.contains(r) && #[trigger] needs(nodes, n, r)
    &&& exists|order: Seq<Seq<char>>|
        {
            &&& #[trigger] is_smallest_first(nodes, order)
            &&& forall|n: Seq<char>|
                #[trigger] nodes.contains_key(n) ==> (order.contains(n) <==> !stuck.contains(n))
        }
}

// ---------------------------------------------------------------------------
// Numbering
// ---------------------------------------------------------------------------

/// `vs` lists the migrations of `nodes`, each once, and `index` gives the place of each.
spec fn is_numbering(
    vs: Seq<MigrationView>,
    index: Map<Seq<char>, usize>,
    nodes: Map<Seq<char>, MigrationView>,
) -> bool {
    &&& forall|k: int|
        0 <= k < vs.len() ==> {
            &&& nodes.contains_key((#[trigger] vs[k]).name)
            &&& nodes[vs[k].name] == vs[k]
            &&& index.contains_key(vs[k].name)
            &&& index[vs[k].name] == k
        }
    &&& forall|n: Seq<char>| #[trigger]
        index.contains_key(n) ==> index[n] < vs.len() && vs[index[n] as int].name == n
    &&& forall|n: Seq<char>| #[trigger] nodes.contains_key(n) ==> index.contains_key(n)
}

proof fn lemma_by_name_push(ms: Seq<MigrationView>, m: MigrationView)
    ensures
        by_name(ms.push(m)) == by_name(ms).insert(m.name, m),
{
    assert(ms.push(m).drop_last() =~= ms);
}

/// Numbers the migrations by name; of several with one name, the last is kept.
fn number(migrations: Vec<Migration>) -> (r: (Vec<Migration>, StringHashMap<usize>))
    ensures
        is_numbering(r.0.deep_view(), r.1@, by_name(migrations.deep_view())),
{
    let ghost all = migrations.deep_view();
    let mut nodes: Vec<Migration> = Vec::new();
    let mut index: StringHashMap<usize> = StringHashMap::new();
    assert(all.take(0) =~= Seq::<MigrationView>::empty());
    for m in iter: migrations
        invariant
            iter.seq() == migrations@,
            all == migrations.deep_view(),
            is_numbering(nodes.deep_view(), index@, by_name(all.take(iter.index()))),
    {
        let ghost i = iter.index();
        let ghost before = nodes.deep_view();
        let ghost seen = index@;
        let ghost v = m@;
        proof {
            assert(v == all[i]);
            assert(all.take(i + 1) =~= all.take(i).push(v));
            lemma_by_name_push(all.take(i), v);
        }
        let name = m.name.clone();
        let place: Option<usize> = match index.get(name.0.as_str()) {
            Some(k) => Some(*k),
            None => None,
        };
        match place {
            Some(k) => {
                nodes.set(k, m);
                assert(nodes.deep_view() =~= before.update(k as int, v));
            },
            None => {
                index.insert(name.0, nodes.len());
                nodes.push(m);
                assert(nodes.deep_view() =~= before.push(v));
            },
        }
        assert(is_numbering(nodes.deep_view(), index@, by_name(all.take(i + 1))));
    }
    assert(all.take(all.len() as int) =~= all);
    (nodes, index)
}

/// Row `k` holds the places of the migrations that migration `k` requires.
spec fn resolves(vs: Seq<MigrationView>, rows: Seq<Seq<usize>>) -> bool {
    &&& rows.len() == vs.len()
    &&& in_range(rows)
    &&& forall|k: int| 0 <= k < vs.len() ==> #[trigger] rows[k].len() == vs[k].requires.len()
    &&& forall|k: int, t: int|
        0 <= k < vs.len() && 0 <= t < rows[k].len() ==> vs[(#[trigger] rows[k][t]) as int].name
            == vs[k].requires[t]
}

/// The places of the migrations that `m` requires, or the first name that has none.
fn resolve_one(
    m: &Migration,
    index: &StringHashMap<usize>,
    Ghost(vs): Ghost<Seq<MigrationView>>,
    Ghost(nodes): Ghost<Map<Seq<char>, MigrationView>>,
) -> (r: Result<Vec<usize>>)
    requires
        is_numbering(vs, index@, nodes),
        vs.contains(m@),
    ensures
        match r {
            Ok(row) => {
                &&& row@.len() == m@.requires.len()
                &&& forall|t: int|
                    0 <= t < row@.len() ==> (#[trigger] row@[t]) < vs.len()
                        && vs[row@[t] as int].name == m@.requires[t]
            },
            Err(e) => e matches Error::DanglingDependency { migration, missing } && is_dangling(
                nodes,
                migration@,
                missing@,
            ),
        },
{
    let mut row: Vec<usize> = Vec::new();
    let mut t: usize = 0;
    while t < m.requires.len()
        invariant
            is_numbering(vs, index@, nodes),
            vs.contains(m@),
            t <= m.requires@.len(),
            row@.len() == t,
            forall|u: int|
                0 <= u < t ==> (#[trigger] row@[u]) < vs.len() && vs[row@[u] as int].name
                    == m@.requires[u],
        decreases m.requires@.len() - t,
    {
        match index.get(m.requires[t].0.as_str()) {
            Some(j) => {
                row.push(*j);
            },
            None => {
                proof {
                    let k = choose|k: int| 0 <= k < vs.len() && vs[k] == m@;
                    assert(nodes[vs[k].name] == vs[k]);
                    assert(m@.requires[t as int] == m.requires@[t as int]@);
                    assert(m@.requires.contains(m.requires@[t as int]@));
                    assert(needs(nodes, m@.name, m.requires@[t as int]@));
                }
                return Err(
                    Error::DanglingDependency {
                        migration: m.name.clone(),
                        missing: m.requires[t].clone(),
                    },
                );
            },
        }
        t += 1;
    }
    Ok(row)
}

/// The places of the migrations that each migration requires, or a name that has none.
fn resolve(
    nodes: &Vec<Migration>,
    index: &StringHashMap<usize>,
    Ghost(map): Ghost<Map<Seq<char>, MigrationView>>,
) -> (r: Result<Vec<Vec<usize>>>)
    requires
        is_numbering(nodes.deep_view(), index@, map),
    ensures
        match r {
            Ok(rows) => resolves(nodes.deep_view(), rows.deep_view()),
            Err(e) => e matches Error::DanglingDependency { migration, missing } && is_dangling(
                map,
                migration@,
                missing@,
            ),
        },
{
    let ghost vs = nodes.deep_view();
    let mut rows: Vec<Vec<usize>> = Vec::new();
    let mut k: usize = 0;
    while k < nodes.len()
        invariant
            vs == nodes.deep_view(),
            is_numbering(vs, index@, map),
            k <= nodes@.len(),
            rows@.len() == k,
            forall|i: int|
                0 <= i < k ==> (#[trigger] rows@[i])@.len() == vs[i].requires.len(),
            forall|i: int, t: int|
                0 <= i < k && 0 <= t < rows@[i]@.len() ==> (#[trigger] rows@[i]@[t]) < vs.len()
                    && vs[rows@[i]@[t] as int].name == vs[i].requires[t],
        decreases nodes@.len() - k,
    {
        assert(vs[k as int] == nodes@[k as int]@);
        match resolve_one(&nodes[k], index, Ghost(vs), Ghost(map)) {
            Ok(row) => {
                rows.push(row);
            },
            Err(e) => return Err(e),
        }
        k += 1;
    }
    proof {
        let rs = rows.deep_view();
        assert forall|i: int, t: int| 0 <= i < rs.len() && 0 <= t < rs[i].len() implies 0 <= (
        #[trigger] rs[i][t]) < rs.len() && vs[rs[i][t] as int].name == vs[i].requires[t] by {
            assert(rows@[i]@[t] < vs.len());
        }
        assert forall|i: int| 0 <= i < vs.len() implies #[trigger] rs[i].len()
            == vs[i].requires.len() by {
            assert(rows@[i]@.len() == vs[i].requires.len());
        }
    }
    Ok(rows)
}

/// Where every requirement has a place, nothing dangles.
proof fn lemma_resolved_is_closed(
    vs: Seq<MigrationView>,
    index: Map<Seq<char>, usize>,
    nodes: Map<Seq<char>, MigrationView>,
    rows: Seq<Seq<usize>>,
)
    requires
        is_numbering(vs, index, nodes),
        resolves(vs, rows),
    ensures
        is_closed(nodes),
{
    assert forall|n: Seq<char>, r: Seq<char>| !#[trigger] is_dangling(nodes, n, r) by {
        if is_dangling(nodes, n, r) {
            let k = index[n] as int;
            assert(vs[k].name == n);
            let t = choose|t: int| 0 <= t < vs[k].requires.len() && vs[k].requires[t] == r;
            assert(rows[k].len() == vs[k].requires.len());
            assert(vs[rows[k][t] as int].name == r);
        }
    }
}

// ---------------------------------------------------------------------------
// From numbers to names
// ---------------------------------------------------------------------------

/// The names at the places `done`.
spec fn names_at(vs: Seq<MigrationView>, done: Seq<usize>) -> Seq<Seq<char>> {
    done.map_values(|k: usize| vs[k as int].name)
}

/// The places of `done` are places of `vs`.
spec fn places(vs: Seq<MigrationView>, done: Seq<usize>) -> bool {
    forall|i: int| 0 <= i < done.len() ==> #[trigger] done[i] < vs.len()
}

proof fn lemma_name_placed(
    vs: Seq<MigrationView>,
    index: Map<Seq<char>, usize>,
    nodes: Map<Seq<char>, MigrationView>,
    done: Seq<usize>,
    k: usize,
)
    requires
        is_numbering(vs, index, nodes),
        places(vs, done),
        k < vs.len(),
    ensures
        names_at(vs, done).contains(vs[k as int].name) <==> done.contains(k),
{
    let ns = names_at(vs, done);
    let name = vs[k as int].name;
    if done.contains(k) {
        let i = choose|i: int| 0 <= i < done.len() && done[i] == k;
        assert(ns[i] == name);
    }
    if ns.contains(name) {
        let i = choose|i: int| 0 <= i < ns.len() && ns[i] == name;
        assert(done[i] < vs.len());
        assert(vs[done[i] as int].name == name);
        assert(index[vs[done[i] as int].name] == done[i]);
        assert(index[vs[k as int].name] == k);
    }
}

/// A migration is ready exactly if its number can run.
proof fn lemma_ready_by_number(
    vs: Seq<MigrationView>,
    index: Map<Seq<char>, usize>,
    nodes: Map<Seq<char>, MigrationView>,
    rows: Seq<Seq<usize>>,
    done: Seq<usize>,
    k: usize,
)
    requires
        is_numbering(vs, index, nodes),
        resolves(vs, rows),
        places(vs, done),
        k < vs.len(),
    ensures
        is_ready(nodes, names_at(vs, done), vs[k as int].name) <==> can_run(rows, done, k as int),
{
    let ns = names_at(vs, done);
    let name = vs[k as int].name;
    assert(nodes[name] == vs[k as int]);
    lemma_name_placed(vs, index, nodes, done, k);
    assert(rows[k as int].len() == vs[k as int].requires.len());
    if is_ready(nodes, ns, name) {
        assert forall|t: int| 0 <= t < rows[k as int].len() implies done.contains(
            #[trigger] rows[k as int][t],
        ) by {
            let j = rows[k as int][t];
            assert(j < vs.len());
            assert(vs[j as int].name == vs[k as int].requires[t]);
            assert(vs[k as int].requires.contains(vs[j as int].name));
            assert(needs(nodes, name, vs[j as int].name));
            lemma_name_placed(vs, index, nodes, done, j);
        }
    }
    if can_run(rows, done, k as int) {
        assert forall|r: Seq<char>| #[trigger] needs(nodes, name, r) implies ns.contains(r) by {
            let t = choose|t: int|
                0 <= t < vs[k as int].requires.len() && vs[k as int].requires[t] == r;
            let j = rows[k as int][t];
            assert(j < vs.len());
            assert(vs[j as int].name == r);
            assert(done.contains(j));
            lemma_name_placed(vs, index, nodes, done, j);
        }
    }
}

/// A schedule of the numbers is a smallest-first order of the names.
proof fn lemma_order_by_number(
    vs: Seq<MigrationView>,
    index: Map<Seq<char>, usize>,
    nodes: Map<Seq<char>, MigrationView>,
    rows: Seq<Seq<usize>>,
    keys: Seq<Seq<char>>,
    order: Seq<usize>,
)
    requires
        is_numbering(vs, index, nodes),
        resolves(vs, rows),
        keys == names_of(vs),
        is_schedule(rows, keys, order),
    ensures
        places(vs, order),
        is_smallest_first(nodes, names_at(vs, order)),
{
    let ns = names_at(vs, order);
    assert forall|i: int| 0 <= i < order.len() implies #[trigger] order[i] < vs.len() by {
        assert(runs_next(rows, keys, order.take(i), order[i] as int));
    }
    assert forall|i: int| 0 <= i < ns.len() implies #[trigger] comes_next(
        nodes,
        ns.take(i),
        ns[i],
    ) by {
        let done = order.take(i);
        let k = order[i];
        assert(runs_next(rows, keys, done, k as int));
        assert(places(vs, done)) by {
            assert forall|j: int| 0 <= j < done.len() implies #[trigger] done[j] < vs.len() by {
                assert(order[j] < vs.len());
            }
        }
        assert(names_at(vs, done) =~= ns.take(i));
        assert(order[i] < vs.len());
        lemma_ready_by_number(vs, index, nodes, rows, done, k);
        assert forall|o: Seq<char>| #[trigger] is_ready(nodes, ns.take(i), o) implies o == ns[i]
            || lex_lt(ns[i], o) by {
            let j = index[o];
            assert(vs[j as int].name == o);
            lemma_ready_by_number(vs, index, nodes, rows, done, j);
            assert(can_run(rows, done, j as int));
            assert(keys[j as int] == o);
            assert(keys[k as int] == ns[i]);
        }
    }
}

/// The characters of the names, in the order of the migrations.
fn name_keys(nodes: &Vec<Migration>) -> (keys: Vec<Vec<char>>)
    ensures
        keys.deep_view() == names_of(nodes.deep_view()),
{
    let mut keys: Vec<Vec<char>> = Vec::new();
    let mut k: usize = 0;
    while k < nodes.len()
        invariant
            k <= nodes@.len(),
            keys@.len() == k,
            forall|i: int| 0 <= i < k ==> (#[trigger] keys@[i])@ == nodes@[i]@.name,
        decreases nodes@.len() - k,
    {
        keys.push(chars_of(nodes[k].name.0.as_str()));
        k += 1;
    }
    proof {
        let want = names_of(nodes.deep_view());
        assert forall|i: int| 0 <= i < nodes@.len() implies #[trigger] keys.deep_view()[i]
            == want[i] by {
            assert(keys.deep_view()[i] =~= keys@[i]@);
        }
        assert(keys.deep_view() =~= want);
    }
    keys
}

// ---------------------------------------------------------------------------
// Sorting
// ---------------------------------------------------------------------------

/// The names of the migrations that `order` leaves out.
fn left_out(nodes: &Vec<Migration>, order: &Vec<usize>) -> (names: Vec<MigrationName>)
    requires
        places(nodes.deep_view(), order@),
        distinct_keys(names_of(nodes.deep_view())),
    ensures
        names.deep_view().no_duplicates(),
        forall|n: Seq<char>| #[trigger]
            names.deep_view().contains(n) <==> exists|k: usize|
                k < nodes@.len() && !order@.contains(k) && (#[trigger] nodes@[k as int]@).name == n,
{
    let ghost vs = nodes.deep_view();
    let mut placed: Vec<bool> = Vec::new();
    let mut i: usize = 0;
    while i < nodes.len()
        invariant
            i <= nodes@.len(),
            placed@.len() == i,
            forall|k: int| 0 <= k < i ==> !#[trigger] placed@[k],
        decreases nodes@.len() - i,
    {
        placed.push(false);
        i += 1;
    }
    let mut j: usize = 0;
    while j < order.len()
        invariant
            vs == nodes.deep_view(),
            places(vs, order@),
            j <= order@.len(),
            placed@.len() == nodes@.len(),
            forall|k: usize|
                k < nodes@.len() ==> (#[trigger] placed@[k as int] <==> order@.take(
                    j as int,
                ).contains(k)),
        decreases order@.len() - j,
    {
        let ghost before = placed@;
        assert(order@[j as int] < vs.len());
        placed.set(order[j], true);
        proof {
            assert forall|k: usize| k < nodes@.len() implies (#[trigger] placed@[k as int]
                <==> order@.take(j + 1).contains(k)) by {
                let longer = order@.take(j + 1);
                let shorter = order@.take(j as int);
                assert(before[k as int] <==> shorter.contains(k));
                if shorter.contains(k) {
                    let p = choose|p: int| 0 <= p < shorter.len() && shorter[p] == k;
                    assert(longer[p] == k);
                }
                if k == order@[j as int] {
                    assert(longer[j as int] == k);
                }
                if longer.contains(k) && k != order@[j as int] {
                    let p = choose|p: int| 0 <= p < longer.len() && longer[p] == k;
                    assert(shorter[p] == k);
                }
            }
        }
        j += 1;
    }
    assert(order@.take(order@.len() as int) =~= order@);
    let mut names: Vec<MigrationName> = Vec::new();
    let mut m: usize = 0;
    assert(names.deep_view() =~= Seq::<Seq<char>>::empty());
    while m < nodes.len()
        invariant
            vs == nodes.deep_view(),
            distinct_keys(names_of(vs)),
            m <= nodes@.len(),
            placed@.len() == nodes@.len(),
            forall|k: usize|
                k < nodes@.len() ==> (#[trigger] placed@[k as int] <==> order@.contains(k)),
            names.deep_view().no_duplicates(),
            forall|n: Seq<char>| #[trigger]
                names.deep_view().contains(n) <==> exists|k: usize|
                    k < m && !order@.contains(k) && (#[trigger] nodes@[k as int]@).name == n,
        decreases nodes@.len() - m,
    {
        let ghost before = names.deep_view();
        if !placed[m] {
            names.push(nodes[m].name.clone());
            proof {
                let added = nodes@[m as int]@.name;
                let after = names.deep_view();
                assert(after =~= before.push(added));
                assert(after[before.len() as int] == added);
                if before.contains(added) {
                    let k = choose|k: usize|
                        k < m && !order@.contains(k) && (#[trigger] nodes@[k as int]@).name
                            == added;
                    assert(names_of(vs)[k as int] == names_of(vs)[m as int]);
                }
                assert forall|n: Seq<char>| #[trigger] after.contains(n) <==> exists|k: usize|
                    k < m + 1 && !order@.contains(k) && (#[trigger] nodes@[k as int]@).name
                        == n by {
                    if after.contains(n) {
                        if n == added {
                            assert(nodes@[m as int]@.name == n && !order@.contains(m));
                        } else {
                            let p = choose|p: int| 0 <= p < after.len() && after[p] == n;
                            assert(before[p] == n);
                            assert(before.contains(n));
                        }
                    }
                    if exists|k: usize|
                        k < m + 1 && !order@.contains(k) && (#[trigger] nodes@[k as int]@).name
                            == n {
                        if n != added {
                            assert(before.contains(n));
                            let p = choose|p: int| 0 <= p < before.len() && before[p] == n;
                            assert(after[p] == n);
                        }
                    }
                }
            }
        } else {
            assert(order@.contains(m));
        }
        m += 1;
    }
    names
}

/// The migrations at the places of `order`.
fn pick(nodes: &Vec<Migration>, order: &Vec<usize>) -> (picked: Vec<Migration>)
    requires
        places(nodes.deep_view(), order@),
    ensures
        picked@.len() == order@.len(),
        forall|i: int|
            0 <= i < order@.len() ==> #[trigger] picked.deep_view()[i]
                == nodes.deep_view()[order@[i] as int],
{
    let ghost vs = nodes.deep_view();
    let mut picked: Vec<Migration> = Vec::new();
    let mut i: usize = 0;
    while i < order.len()
        invariant
            vs == nodes.deep_view(),
            places(vs, order@),
            i <= order@.len(),
            picked@.len() == i,
            forall|j: int| 0 <= j < i ==> (#[trigger] picked@[j])@ == vs[order@[j] as int],
        decreases order@.len() - i,
    {
        assert(order@[i as int] < vs.len());
        picked.push(nodes[order[i]].clone());
        i += 1;
    }
    picked
}

/// What is left out of a schedule that can go no further is stuck.
proof fn lemma_left_out_is_stuck(
    vs: Seq<MigrationView>,
    index: Map<Seq<char>, usize>,
    nodes: Map<Seq<char>, MigrationView>,
    rows: Seq<Seq<usize>>,
    order: Seq<usize>,
    names: Seq<Seq<char>>,
)
    requires
        vs.len() <= usize::MAX,
        is_numbering(vs, index, nodes),
        resolves(vs, rows),
        places(vs, order),
        is_smallest_first(nodes, names_at(vs, order)),
        forall|k: int| !#[trigger] can_run(rows, order, k),
        names.len() > 0,
        names.no_duplicates(),
        forall|n: Seq<char>| #[trigger]
            names.contains(n) <==> exists|k: usize|
                k < vs.len() && !order.contains(k) && (#[trigger] vs[k as int]).name == n,
    ensures
        is_stuck(nodes, names),
{
    let ns = names_at(vs, order);
    assert forall|n: Seq<char>| #[trigger] names.contains(n) implies nodes.contains_key(n)
        && exists|r: Seq<char>| names.contains(r) && #[trigger] needs(nodes, n, r) by {
        let k = choose|k: usize|
            k < vs.len() && !order.contains(k) && (#[trigger] vs[k as int]).name == n;
        assert(nodes[vs[k as int].name] == vs[k as int]);
        assert(!can_run(rows, order, k as int));
        let t = choose|t: int|
            0 <= t < rows[k as int].len() && !order.contains(#[trigger] rows[k as int][t]);
        let j = rows[k as int][t];
        assert(j < vs.len());
        let r = vs[j as int].name;
        assert(rows[k as int].len() == vs[k as int].requires.len());
        assert(vs[k as int].requires[t] == r);
        assert(vs[k as int].requires.contains(r));
        assert(needs(nodes, n, r));
        assert(names.contains(r));
    }
    assert forall|n: Seq<char>| #[trigger] nodes.contains_key(n) implies (ns.contains(n)
        <==> !names.contains(n)) by {
        let k = index[n];
        assert(vs[k as int].name == n);
        lemma_name_placed(vs, index, nodes, order, k);
        if names.contains(n) {
            let j = choose|j: usize|
                j < vs.len() && !order.contains(j) && (#[trigger] vs[j as int]).name == n;
            assert(index[vs[j as int].name] == j);
        }
    }
}

/// Order migrations so each appears after all its `requires`.
/// Errors on cycles and on requires that reference an unknown migration.
pub fn topo_sort(migrations: Vec<Migration>) -> (r: Result<Vec<Migration>>)
    ensures
        ({
            let nodes = by_name(migrations.deep_view());
            match r {
                Ok(order) => {
                    &&& is_closed(nodes)
                    &&& !has_cycle(nodes)
                    &&& is_sorted(nodes, order.deep_view())
                },
                Err(Error::DanglingDependency { migration, missing }) => is_dangling(
                    nodes,
                    migration@,
                    missing@,
                ),
                Err(Error::Cycle(names)) => {
                    &&& is_closed(nodes)
                    &&& has_cycle(nodes)
                    &&& is_stuck(nodes, names.deep_view())
                },
                Err(_) => false,
            }
        }),
{
    let ghost map = by_name(migrations.deep_view());
    let (nodes, index) = number(migrations);
    let ghost vs = nodes.deep_view();
    let rows = match resolve(&nodes, &index, Ghost(map)) {
        Ok(rows) => rows,
        Err(e) => return Err(e),
    };
    let keys = name_keys(&nodes);
    proof {
        lemma_resolved_is_closed(vs, index@, map, rows.deep_view());
        assert forall|i: int, j: int| 0 <= i < j < vs.len() implies #[trigger] names_of(vs)[i]
            != #[trigger] names_of(vs)[j] by {
            assert(index@[vs[i].name] == i);
            assert(index@[vs[j].name] == j);
        }
    }
    assert(keys.deep_view().len() == vs.len());
    let order = schedule(&rows, &keys);
    proof {
        assert(nodes.len() == vs.len());
        lemma_order_by_number(
            vs,
            index@,
            map,
            rows.deep_view(),
            names_of(vs),
            order@,
        );
    }
    let names = left_out(&nodes, &order);
    if names.len() > 0 {
        proof {
            let ns = names.deep_view();
            assert forall|n: Seq<char>| #[trigger] ns.contains(n) <==> exists|k: usize|
                k < vs.len() && !order@.contains(k) && (#[trigger] vs[k as int]).name == n by {
                if ns.contains(n) {
                    let k = choose|k: usize|
                        k < nodes@.len() && !order@.contains(k) && (
                        #[trigger] nodes@[k as int]@).name == n;
                    assert(vs[k as int].name == n);
                }
                if exists|k: usize|
                    k < vs.len() && !order@.contains(k) && (#[trigger] vs[k as int]).name == n {
                    let k = choose|k: usize|
                        k < vs.len() && !order@.contains(k) && (#[trigger] vs[k as int]).name
                            == n;
                    assert(nodes@[k as int]@.name == n);
                }
            }
            lemma_left_out_is_stuck(vs, index@, map, rows.deep_view(), order@, ns);
            law_stuck_has_cycle(map, ns);
        }
        return Err(Error::Cycle(names));
    }
    let sorted = pick(&nodes, &order);
    proof {
        let out = sorted.deep_view();
        let ns = names_of(out);
        assert(ns =~= names_at(vs, order@)) by {
            assert forall|i: int| 0 <= i < ns.len() implies ns[i] == names_at(vs, order@)[i] by {
                assert(out[i] == vs[order@[i] as int]);
            }
        }
        assert forall|n: Seq<char>| #[trigger] map.contains_key(n) implies ns.contains(n) by {
            let k = index@[n];
            assert(vs[k as int].name == n);
            lemma_name_placed(vs, index@, map, order@, k);
            if !order@.contains(k) {
                assert(nodes@[k as int]@.name == n);
                assert(names.deep_view().contains(n));
            }
        }
        assert forall|i: int| 0 <= i < out.len() implies #[trigger] out[i] == map[out[i].name] by {
            assert(out[i] == vs[order@[i] as int]);
            assert(order@[i] < vs.len());
        }
        law_sorted_has_no_cycle(map, ns);
    }
    Ok(sorted)
}

} // verus!
