//! Escape hatches: the decisions behind recording a migration without running it
//! ([`hack_add`]), accepting a changed file ([`hack_fix_checksum`]) and forgetting a migration
//! ([`hack_delete`]).
use crate::ledger::{
    decode_applied, reports_corrupt, requires_are_applied, requires_by_name, stored_bytes,
    AppliedRow, AppliedRowView, ChecksumRow, ChecksumRowView, CHECKSUM_LEN,
};
use crate::render::{bracketed, list_text};
use crate::text::same_text;
use crate::types::{
    debug_form, debug_text, error_message, holds_name, Error, Migration, MigrationName,
    MigrationView,
};
use vstd::hash_map::StringHashMap;
use vstd::prelude::*;
use vstd::string::*;

verus! {

// ---------------------------------------------------------------------------
// Errors
// ---------------------------------------------------------------------------

/// Errors specific to the escape hatches.
#[derive(Debug)]
pub enum HackError {
    NotFound(String),
    UnsatisfiedRequires { name: String, missing: String },
    HasDependents { name: String, dependents: Vec<String> },
    Core(Error),
}

/// The message for a name that no migration bears, given how it is shown.
pub open spec fn not_found_text(shown: Seq<char>) -> Seq<char> {
    "migration "@ + shown + " not found in the supplied migration list"@
}

/// The message for a requirement that is not applied, given how the names are shown.
pub open spec fn unsatisfied_text(shown: Seq<char>, missing: Seq<char>) -> Seq<char> {
    "cannot add "@ + shown + ": required migration "@ + missing + " is not yet applied"@
}

/// The message for a migration that others require, given how the names are shown.
pub open spec fn dependents_text(shown: Seq<char>, dependents: Seq<Seq<char>>) -> Seq<char> {
    "cannot delete "@ + shown + ": it is required by applied migration(s): "@ + bracketed(
        dependents,
    )
}

/// The message of an error.
pub open spec fn hack_message(e: HackError) -> Seq<char> {
    match e {
        HackError::NotFound(name) => not_found_text(debug_form(name@)),
        HackError::UnsatisfiedRequires { name, missing } => unsatisfied_text(
            debug_form(name@),
            debug_form(missing@),
        ),
        HackError::HasDependents { name, dependents } => dependents_text(
            debug_form(name@),
            dependents.deep_view().map_values(|n: Seq<char>| debug_form(n)),
        ),
        HackError::Core(e) => error_message(e),
    }
}

/// What `{:?}` shows of each of the texts.
fn show_texts(texts: &Vec<String>) -> (items: Vec<String>)
    ensures
        items.deep_view() == texts.deep_view().map_values(|n: Seq<char>| debug_form(n)),
{
    let ghost want = texts.deep_view().map_values(|n: Seq<char>| debug_form(n));
    let mut items: Vec<String> = Vec::new();
    let mut i: usize = 0;
    while i < texts.len()
        invariant
            i <= texts@.len(),
            want == texts.deep_view().map_values(|n: Seq<char>| debug_form(n)),
            items.deep_view() == want.take(i as int),
        decreases texts@.len() - i,
    {
        let item = debug_text(texts[i].as_str());
        let ghost before = items.deep_view();
        items.push(item);
        i += 1;
        assert(items.deep_view() =~= before.push(item@));
        assert(items.deep_view() =~= want.take(i as int));
    }
    assert(want.take(want.len() as int) =~= want);
    items
}

/// The message for a name that no migration bears, given how it is shown.
pub fn not_found_message(shown: &str) -> (s: String)
    ensures
        s@ == not_found_text(shown@),
{
    let mut s = String::new();
    s.append("migration ");
    s.append(shown);
    s.append(" not found in the supplied migration list");
    s
}

/// The message for a requirement that is not applied, given how the names are shown.
pub fn unsatisfied_message(shown: &str, missing: &str) -> (s: String)
    ensures
        s@ == unsatisfied_text(shown@, missing@),
{
    let mut s = String::new();
    s.append("cannot add ");
    s.append(shown);
    s.append(": required migration ");
    s.append(missing);
    s.append(" is not yet applied");
    s
}

/// The message for a migration that others require, given how the names are shown.
pub fn dependents_message(shown: &str, dependents: &[String]) -> (s: String)
    ensures
        s@ == dependents_text(shown@, dependents.deep_view()),
{
    let mut s = String::new();
    s.append("cannot delete ");
    s.append(shown);
    s.append(": it is required by applied migration(s): ");
    s.append(list_text(dependents).as_str());
    s
}

impl HackError {
    /// The error's message.
    pub fn to_string(&self) -> (s: String)
        ensures
            s@ == hack_message(*self),
    {
        match self {
            HackError::NotFound(name) => not_found_message(debug_text(name.as_str()).as_str()),
            HackError::UnsatisfiedRequires { name, missing } => unsatisfied_message(
                debug_text(name.as_str()).as_str(),
                debug_text(missing.as_str()).as_str(),
            ),
            HackError::HasDependents { name, dependents } => {
                let shown = show_texts(dependents);
                let items = shown.as_slice();
                assert(items.deep_view() =~= shown.deep_view());
                dependents_message(debug_text(name.as_str()).as_str(), items)
            },
            HackError::Core(e) => e.to_string(),
        }
    }
}

// ---------------------------------------------------------------------------
// Finding a migration
// ---------------------------------------------------------------------------

/// The first migration that bears `name` stands at position `i`.
pub open spec fn first_named(ms: Seq<MigrationView>, name: Seq<char>, i: int) -> bool {
    &&& 0 <= i < ms.len()
    &&& ms[i].name == name
    &&& forall|j: int| 0 <= j < i ==> (#[trigger] ms[j]).name != name
}

/// No migration bears `name`.
pub open spec fn none_named(ms: Seq<MigrationView>, name: Seq<char>) -> bool {
    forall|i: int| 0 <= i < ms.len() ==> (#[trigger] ms[i]).name != name
}

/// Find the first migration that bears a name.
pub fn find_migration<'a>(migrations: &'a [Migration], name: &str) -> (r: Result<
    &'a Migration,
    HackError,
>)
    ensures
        match r {
            Ok(m) => exists|i: int| #[trigger]
                first_named(migrations.deep_view(), name@, i) && m@ == migrations.deep_view()[i],
            Err(e) => e matches HackError::NotFound(n) && n@ == name@ && none_named(
                migrations.deep_view(),
                name@,
            ),
        },
{
    let ghost ms = migrations.deep_view();
    let mut i: usize = 0;
    while i < migrations.len()
        invariant
            ms == migrations.deep_view(),
            i <= migrations@.len(),
            forall|j: int| 0 <= j < i ==> (#[trigger] ms[j]).name != name@,
        decreases migrations@.len() - i,
    {
        assert(ms[i as int] == migrations@[i as int]@);
        if same_text(migrations[i].name.0.as_str(), name) {
            assert(first_named(ms, name@, i as int));
            return Ok(&migrations[i]);
        }
        i += 1;
    }
    Err(HackError::NotFound(name.to_string()))
}

// ---------------------------------------------------------------------------
// Add
// ---------------------------------------------------------------------------

/// Every stored checksum has its 32 bytes.
pub open spec fn rows_are_sound(rows: Seq<ChecksumRowView>) -> bool {
    forall|i: int| 0 <= i < rows.len() ==> (#[trigger] rows[i]).checksum.len() == CHECKSUM_LEN
}

/// The first of `needed` that is not applied stands at position `t`.
pub open spec fn first_unmet(
    needed: Seq<Seq<char>>,
    applied: Map<Seq<char>, Seq<u8>>,
    t: int,
) -> bool {
    &&& 0 <= t < needed.len()
    &&& !applied.contains_key(needed[t])
    &&& forall|u: int| 0 <= u < t ==> applied.contains_key(#[trigger] needed[u])
}

/// Decide whether a migration may be recorded as applied without running its SQL, given the
/// rows of the canonical table: all that it requires must be applied. Gives the migration
/// that is to be recorded.
pub fn hack_add<'a>(migrations: &'a [Migration], name: &str, rows: &[ChecksumRow]) -> (r: Result<
    &'a Migration,
    HackError,
>)
    ensures
        ({
            let ms = migrations.deep_view();
            let applied = stored_bytes(rows.deep_view());
            match r {
                Ok(m) => {
                    &&& rows_are_sound(rows.deep_view())
                    &&& exists|i: int| #[trigger] first_named(ms, name@, i) && m@ == ms[i]
                    &&& forall|t: int|
                        0 <= t < m@.requires.len() ==> applied.contains_key(
                            #[trigger] m@.requires[t],
                        )
                },
                Err(HackError::NotFound(n)) => n@ == name@ && none_named(ms, name@),
                Err(HackError::Core(e)) => !none_named(ms, name@) && reports_corrupt(
                    rows.deep_view(),
                    e,
                ),
                Err(HackError::UnsatisfiedRequires { name: n, missing }) => {
                    &&& n@ == name@
                    &&& rows_are_sound(rows.deep_view())
                    &&& exists|i: int, t: int|
                        #![trigger first_named(ms, name@, i), first_unmet(ms[i].requires, applied, t)]
                        first_named(ms, name@, i) && first_unmet(ms[i].requires, applied, t)
                            && missing@ == ms[i].requires[t]
                },
                Err(HackError::HasDependents { .. }) => false,
            }
        }),
{
    let ghost ms = migrations.deep_view();
    let m = match find_migration(migrations, name) {
        Ok(m) => m,
        Err(e) => return Err(e),
    };
    let ghost i = choose|i: int| #[trigger] first_named(ms, name@, i) && m@ == ms[i];
    let applied = match decode_applied(rows) {
        Ok(applied) => applied,
        Err(e) => return Err(HackError::Core(e)),
    };
    let mut t: usize = 0;
    while t < m.requires.len()
        invariant
            ms == migrations.deep_view(),
            applied@ == stored_bytes(rows.deep_view()),
            rows_are_sound(rows.deep_view()),
            first_named(ms, name@, i),
            m@ == ms[i],
            t <= m.requires@.len(),
            forall|u: int| 0 <= u < t ==> applied@.contains_key(#[trigger] m@.requires[u]),
        decreases m.requires@.len() - t,
    {
        assert(m@.requires[t as int] == m.requires@[t as int]@);
        if !applied.contains_key(&m.requires[t]) {
            assert(first_unmet(ms[i].requires, applied@, t as int));
            return Err(
                HackError::UnsatisfiedRequires {
                    name: name.to_string(),
                    missing: m.requires[t].0.clone(),
                },
            );
        }
        t += 1;
    }
    Ok(m)
}

// ---------------------------------------------------------------------------
// Fix a checksum
// ---------------------------------------------------------------------------

/// Decide whether a stored checksum may be overwritten, given the rows of the canonical
/// table: the migration must be known and applied. Gives the migration whose checksum and
/// body are to be stored.
pub fn hack_fix_checksum<'a>(
    migrations: &'a [Migration],
    name: &str,
    rows: &[ChecksumRow],
) -> (r: Result<&'a Migration, HackError>)
    ensures
        ({
            let ms = migrations.deep_view();
            let applied = stored_bytes(rows.deep_view());
            match r {
                Ok(m) => {
                    &&& rows_are_sound(rows.deep_view())
                    &&& exists|i: int| #[trigger] first_named(ms, name@, i) && m@ == ms[i]
                    &&& applied.contains_key(name@)
                },
                Err(HackError::NotFound(n)) => n@ == name@ && (none_named(ms, name@) || (
                rows_are_sound(rows.deep_view()) && !applied.contains_key(name@))),
                Err(HackError::Core(e)) => !none_named(ms, name@) && reports_corrupt(
                    rows.deep_view(),
                    e,
                ),
                Err(_) => false,
            }
        }),
{
    let m = match find_migration(migrations, name) {
        Ok(m) => m,
        Err(e) => return Err(e),
    };
    let applied = match decode_applied(rows) {
        Ok(applied) => applied,
        Err(e) => return Err(HackError::Core(e)),
    };
    if !applied.contains_key(&m.name) {
        return Err(HackError::NotFound(name.to_string()));
    }
    Ok(m)
}

// ---------------------------------------------------------------------------
// Delete
// ---------------------------------------------------------------------------

/// `n` is an applied migration other than `target` that requires `target`.
pub open spec fn depends_on(
    applied: Map<Seq<char>, Seq<Seq<char>>>,
    n: Seq<char>,
    target: Seq<char>,
) -> bool {
    n != target && applied.contains_key(n) && applied[n].contains(target)
}

/// `last` gives, for each name that the rows bear, the place of the row that counts.
spec fn is_last(rows: Seq<AppliedRowView>, last: Map<Seq<char>, usize>) -> bool {
    &&& last.dom() == requires_by_name(rows).dom()
    &&& forall|n: Seq<char>| #[trigger]
        last.contains_key(n) ==> {
            &&& last[n] < rows.len()
            &&& rows[last[n] as int].name == n
            &&& rows[last[n] as int].requires == requires_by_name(rows)[n]
        }
}

/// Each row's name is among the names.
proof fn lemma_row_is_named(rows: Seq<AppliedRowView>, i: int)
    requires
        0 <= i < rows.len(),
    ensures
        requires_by_name(rows).contains_key(rows[i].name),
    decreases rows.len(),
{
    if i < rows.len() - 1 {
        lemma_row_is_named(rows.drop_last(), i);
    }
}

/// The place of the last row of each name.
fn last_rows(rows: &[AppliedRow]) -> (last: StringHashMap<usize>)
    ensures
        is_last(rows.deep_view(), last@),
{
    let ghost vs = rows.deep_view();
    let mut last: StringHashMap<usize> = StringHashMap::new();
    let mut i: usize = 0;
    assert(vs.take(0) =~= Seq::<AppliedRowView>::empty());
    assert(last@.dom() =~= requires_by_name(vs.take(0)).dom());
    while i < rows.len()
        invariant
            vs == rows.deep_view(),
            i <= rows@.len(),
            is_last(vs.take(i as int), last@),
        decreases rows@.len() - i,
    {
        let ghost before = last@;
        assert(vs[i as int] == rows@[i as int].deep_view());
        last.insert(rows[i].name.0.clone(), i);
        proof {
            let longer = vs.take(i + 1);
            let shorter = vs.take(i as int);
            assert(longer.drop_last() =~= shorter);
            assert(last@.dom() =~= requires_by_name(longer).dom());
            assert forall|n: Seq<char>| #[trigger] last@.contains_key(n) implies {
                &&& last@[n] < longer.len()
                &&& longer[last@[n] as int].name == n
                &&& longer[last@[n] as int].requires == requires_by_name(longer)[n]
            } by {
                if n != vs[i as int].name {
                    assert(before.contains_key(n));
                    assert(longer[last@[n] as int] == shorter[last@[n] as int]);
                }
            }
        }
        i += 1;
    }
    assert(vs.take(vs.len() as int) =~= vs);
    last
}

/// The applied migrations other than `target` that require it, each once.
pub fn dependents_of(rows: &[AppliedRow], target: &str) -> (names: Vec<String>)
    ensures
        names.deep_view().no_duplicates(),
        forall|n: Seq<char>| #[trigger]
            names.deep_view().contains(n) <==> depends_on(
                requires_by_name(rows.deep_view()),
                n,
                target@,
            ),
{
    let ghost vs = rows.deep_view();
    let ghost applied = requires_by_name(vs);
    let last = last_rows(rows);
    let mut names: Vec<String> = Vec::new();
    let mut i: usize = 0;
    assert(names.deep_view() =~= Seq::<Seq<char>>::empty());
    while i < rows.len()
        invariant
            vs == rows.deep_view(),
            applied == requires_by_name(vs),
            i <= rows@.len(),
            is_last(vs, last@),
            names.deep_view().no_duplicates(),
            forall|n: Seq<char>| #[trigger]
                names.deep_view().contains(n) <==> depends_on(applied, n, target@) && last@[n] < i,
        decreases rows@.len() - i,
    {
        let row = &rows[i];
        let ghost n = row.name@;
        let ghost before = names.deep_view();
        assert(vs[i as int] == row.deep_view());
        proof {
            lemma_row_is_named(vs, i as int);
        }
        assert(last@.contains_key(n));
        let counts = match last.get(row.name.0.as_str()) {
            Some(k) => *k == i,
            None => false,
        };
        if counts && !same_text(row.name.0.as_str(), target) && holds_name(row.requires.as_slice(), target) {
            names.push(row.name.0.clone());
            proof {
                let after = names.deep_view();
                assert(depends_on(applied, n, target@));
                assert(!before.contains(n));
                assert(after =~= before.push(n));
                assert forall|x: Seq<char>| #[trigger] after.contains(x) <==> depends_on(
                    applied,
                    x,
                    target@,
                ) && last@[x] < i + 1 by {
                    lemma_contains_push(before, n, x);
                    if depends_on(applied, x, target@) && last@[x] == i {
                        assert(last@.contains_key(x));
                    }
                }
            }
        } else {
            proof {
                assert forall|x: Seq<char>| #[trigger] before.contains(x) <==> depends_on(
                    applied,
                    x,
                    target@,
                ) && last@[x] < i + 1 by {
                    if depends_on(applied, x, target@) && last@[x] == i {
                        assert(last@.contains_key(x));
                        assert(x == n);
                    }
                }
            }
        }
        i += 1;
    }
    proof {
        assert forall|n: Seq<char>| #[trigger] names.deep_view().contains(n) <==> depends_on(
            applied,
            n,
            target@,
        ) by {
            if depends_on(applied, n, target@) {
                assert(last@.contains_key(n));
            }
        }
    }
    names
}

/// What a longer list holds.
proof fn lemma_contains_push(s: Seq<Seq<char>>, x: Seq<char>, y: Seq<char>)
    ensures
        s.push(x).contains(y) <==> s.contains(y) || y == x,
{
    if s.contains(y) {
        let p = choose|p: int| 0 <= p < s.len() && s[p] == y;
        assert(s.push(x)[p] == y);
    }
    assert(s.push(x)[s.len() as int] == x);
    if s.push(x).contains(y) && y != x {
        let p = choose|p: int| 0 <= p < s.push(x).len() && s.push(x)[p] == y;
        assert(s[p] == y);
    }
}

/// Decide whether a migration may be forgotten, given the migrations that are applied to the
/// schema: none of them may require it. Gives the name that is to be removed.
pub fn hack_delete(name: &str, rows: &[AppliedRow]) -> (r: Result<MigrationName, HackError>)
    ensures
        ({
            let applied = requires_by_name(rows.deep_view());
            match r {
                Ok(target) => {
                    &&& target@ == name@
                    &&& forall|n: Seq<char>| !#[trigger] depends_on(applied, n, name@)
                },
                Err(HackError::HasDependents { name: n, dependents }) => {
                    &&& n@ == name@
                    &&& dependents@.len() > 0
                    &&& dependents.deep_view().no_duplicates()
                    &&& forall|d: Seq<char>| #[trigger]
                        dependents.deep_view().contains(d) <==> depends_on(applied, d, name@)
                },
                Err(_) => false,
            }
        }),
{
    let dependents = dependents_of(rows, name);
    if dependents.len() > 0 {
        return Err(HackError::HasDependents { name: name.to_string(), dependents });
    }
    assert forall|n: Seq<char>| !#[trigger] depends_on(
        requires_by_name(rows.deep_view()),
        n,
        name@,
    ) by {
        assert(!dependents.deep_view().contains(n));
    }
    Ok(MigrationName(name.to_string()))
}

// ---------------------------------------------------------------------------
// Laws
// ---------------------------------------------------------------------------

/// Recording a migration whose requirements are all applied leaves no requirement unmet.
pub proof fn law_add_keeps_requires_applied(
    applied: Map<Seq<char>, Seq<Seq<char>>>,
    m: MigrationView,
)
    requires
        requires_are_applied(applied),
        forall|t: int|
            0 <= t < m.requires.len() ==> applied.contains_key(#[trigger] m.requires[t]),
    ensures
        requires_are_applied(applied.insert(m.name, m.requires)),
{
    let after = applied.insert(m.name, m.requires);
    assert forall|n: Seq<char>, r: Seq<char>|
        after.contains_key(n) && #[trigger] after[n].contains(r) implies after.contains_key(r) by {
        if n == m.name {
            let t = choose|t: int| 0 <= t < m.requires.len() && m.requires[t] == r;
            assert(applied.contains_key(m.requires[t]));
        } else {
            assert(applied[n].contains(r));
        }
    }
}

/// Forgetting a migration on which no other depends leaves no requirement unmet.
pub proof fn law_delete_keeps_requires_applied(
    applied: Map<Seq<char>, Seq<Seq<char>>>,
    target: Seq<char>,
)
    requires
        requires_are_applied(applied),
        forall|n: Seq<char>| !#[trigger] depends_on(applied, n, target),
    ensures
        requires_are_applied(applied.remove(target)),
{
    let after = applied.remove(target);
    assert forall|n: Seq<char>, r: Seq<char>|
        after.contains_key(n) && #[trigger] after[n].contains(r) implies after.contains_key(r) by {
        assert(applied[n].contains(r));
        assert(!depends_on(applied, n, target));
    }
}

/// A migration on which another depends cannot be forgotten without leaving a requirement
/// unmet.
pub proof fn law_delete_of_required_breaks_requires(
    applied: Map<Seq<char>, Seq<Seq<char>>>,
    target: Seq<char>,
    n: Seq<char>,
)
    requires
        depends_on(applied, n, target),
    ensures
        !requires_are_applied(applied.remove(target)),
{
    let after = applied.remove(target);
    assert(after.contains_key(n) && after[n].contains(target));
}

} // verus!
