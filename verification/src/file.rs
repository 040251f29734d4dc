//! Loading migration files: which files count ([`is_migration_file`]), reading their blocks
//! ([`load_files`]), and the implicit dependency of each block on the one before it in its
//! file ([`apply_implicit_deps`]).
use crate::grammar;
use crate::parser::{parse_failure, parse_file};
use crate::search::ends_with;
use crate::text::same_text;
use crate::types::{holds_name, Error, Migration, MigrationView, Result};
use vstd::prelude::*;
use vstd::string::*;

verus! {

/// The migration at position `i`, which requires its predecessor too.
pub open spec fn with_predecessor(ms: Seq<MigrationView>, i: int) -> MigrationView {
    if i > 0 && !ms[i].requires.contains(ms[i - 1].name) {
        MigrationView { requires: ms[i].requires.push(ms[i - 1].name), ..ms[i] }
    } else {
        ms[i]
    }
}

/// The blocks of a file, each requiring its predecessor.
pub open spec fn implicit_deps(ms: Seq<MigrationView>) -> Seq<MigrationView> {
    Seq::new(ms.len(), |i: int| with_predecessor(ms, i))
}

/// Apply the implicit in-file linear dependency to a file's ordered blocks: each block after
/// the first requires the block before it in the file, merged with its explicit requires. The
/// predecessor is appended if absent.
pub fn apply_implicit_deps(blocks: Vec<Migration>) -> (out: Vec<Migration>)
    ensures
        out.deep_view() == implicit_deps(blocks.deep_view()),
{
    let ghost ms = blocks.deep_view();
    let mut out: Vec<Migration> = Vec::new();
    let mut i: usize = 0;
    while i < blocks.len()
        invariant
            ms == blocks.deep_view(),
            i <= blocks@.len(),
            out@.len() == i,
            forall|k: int| 0 <= k < i ==> (#[trigger] out@[k])@ == with_predecessor(ms, k),
        decreases blocks@.len() - i,
    {
        assert(ms[i as int] == blocks@[i as int]@);
        let mut m = blocks[i].clone();
        if i > 0 {
            assert(ms[i - 1] == blocks@[i - 1]@);
            let needed = m.requires.as_slice();
            assert(needed.deep_view() =~= m.requires.deep_view());
            if !holds_name(needed, blocks[i - 1].name.0.as_str()) {
                let ghost before = m@;
                let prev = blocks[i - 1].name.clone();
                m.requires.push(prev);
                assert(m.requires.deep_view() =~= before.requires.push(ms[i - 1].name));
            }
        }
        out.push(m);
        i += 1;
    }
    assert(out.deep_view() =~= implicit_deps(ms));
    out
}

/// Each block after the first requires its predecessor; nothing that it required is lost,
/// nothing else is added, and all else about it stays.
pub proof fn law_implicit_deps(ms: Seq<MigrationView>, i: int)
    requires
        0 <= i < ms.len(),
    ensures
        implicit_deps(ms).len() == ms.len(),
        i > 0 ==> implicit_deps(ms)[i].requires.contains(ms[i - 1].name),
        forall|r: Seq<char>| #[trigger]
            implicit_deps(ms)[i].requires.contains(r) <==> ms[i].requires.contains(r) || (i > 0
                && r == ms[i - 1].name),
        ms[i].requires.is_prefix_of(implicit_deps(ms)[i].requires),
        ms[i].requires.no_duplicates() ==> implicit_deps(ms)[i].requires.no_duplicates(),
        implicit_deps(ms)[i].name == ms[i].name,
        implicit_deps(ms)[i].description == ms[i].description,
        implicit_deps(ms)[i].script == ms[i].script,
        implicit_deps(ms)[i].checksum == ms[i].checksum,
{
    let old_reqs = ms[i].requires;
    let new_reqs = implicit_deps(ms)[i].requires;
    assert(old_reqs =~= new_reqs.subrange(0, old_reqs.len() as int));
    assert forall|r: Seq<char>| #[trigger] new_reqs.contains(r) <==> old_reqs.contains(r) || (i > 0
        && r == ms[i - 1].name) by {
        if old_reqs.contains(r) {
            let p = choose|p: int| 0 <= p < old_reqs.len() && old_reqs[p] == r;
            assert(new_reqs[p] == r);
        }
        if i > 0 && r == ms[i - 1].name && !old_reqs.contains(r) {
            assert(new_reqs[old_reqs.len() as int] == r);
        }
        if new_reqs.contains(r) {
            let p = choose|p: int| 0 <= p < new_reqs.len() && new_reqs[p] == r;
            if p < old_reqs.len() {
                assert(old_reqs[p] == r);
            }
        }
    }
}

/// Applying the implicit dependency twice is the same as applying it once.
pub proof fn law_implicit_deps_idempotent(ms: Seq<MigrationView>)
    ensures
        implicit_deps(implicit_deps(ms)) == implicit_deps(ms),
{
    let once = implicit_deps(ms);
    assert forall|i: int| 0 <= i < ms.len() implies #[trigger] implicit_deps(once)[i]
        == once[i] by {
        law_implicit_deps(ms, i);
        if i > 0 {
            law_implicit_deps(ms, i - 1);
            assert(once[i].requires.contains(once[i - 1].name));
        }
    }
    assert(implicit_deps(once) =~= once);
}

// ---------------------------------------------------------------------------
// Files
// ---------------------------------------------------------------------------

/// A file that was read: the label under which errors speak of it, and its text.
pub struct SourceFile {
    pub label: String,
    pub text: String,
}

/// A file as mathematical values.
pub struct SourceView {
    pub label: Seq<char>,
    pub text: Seq<char>,
}

impl DeepView for SourceFile {
    type V = SourceView;

    open spec fn deep_view(&self) -> SourceView {
        SourceView { label: self.label@, text: self.text@ }
    }
}

/// Whether a file of this name is a migration file: its extension is `sql`.
pub open spec fn has_sql_extension(name: Seq<char>) -> bool {
    name.len() > 4 && ".sql"@.is_suffix_of(name)
}

/// Whether a file of this name is a migration file: its extension is `sql`. (A name that is
/// nothing but `.sql` has no extension.)
pub fn is_migration_file(name: &str) -> (r: bool)
    ensures
        r == has_sql_extension(name@),
{
    proof {
        reveal_strlit(".sql");
        if name@.len() == 4 && ".sql"@.is_suffix_of(name@) {
            assert(name@ =~= name@.subrange(0, 4));
        }
    }
    ends_with(name, ".sql") && !same_text(name, ".sql")
}

/// The text parses.
pub open spec fn parses(text: Seq<char>) -> bool {
    grammar::file(text) is Ok
}

/// The migrations of files that parse, in the order of the files.
pub open spec fn loaded(files: Seq<SourceView>) -> Seq<MigrationView>
    decreases files.len(),
{
    if files.len() == 0 {
        Seq::empty()
    } else {
        loaded(files.drop_last()) + (match grammar::file(files.last().text) {
            Ok(ms) => implicit_deps(ms),
            Err(_) => Seq::empty(),
        })
    }
}

/// The first file that does not parse stands at position `i`.
pub open spec fn first_unparsed(files: Seq<SourceView>, i: int) -> bool {
    &&& 0 <= i < files.len()
    &&& !parses(files[i].text)
    &&& forall|j: int| 0 <= j < i ==> parses((#[trigger] files[j]).text)
}

/// Parse files in the order given and return all migrations with implicit in-file deps
/// applied. The first file that does not parse is an error.
pub fn load_files(files: &[SourceFile]) -> (r: Result<Vec<Migration>>)
    ensures
        ({
            let fs = files.deep_view();
            match r {
                Ok(ms) => {
                    &&& forall|i: int| 0 <= i < fs.len() ==> parses((#[trigger] fs[i]).text)
                    &&& ms.deep_view() == loaded(fs)
                },
                Err(e) => e matches Error::Parse { file, message } && exists|i: int|
                    {
                        &&& #[trigger] first_unparsed(fs, i)
                        &&& file@ == fs[i].label
                        &&& grammar::file(fs[i].text) matches Err(left)
                        &&& message@ == parse_failure(
                            fs[i].text,
                            (fs[i].text.len() - left) as nat,
                        )
                    },
            }
        }),
{
    let ghost fs = files.deep_view();
    let mut all: Vec<Migration> = Vec::new();
    let mut i: usize = 0;
    assert(fs.take(0) =~= Seq::<SourceView>::empty());
    assert(all.deep_view() =~= loaded(fs.take(0)));
    while i < files.len()
        invariant
            fs == files.deep_view(),
            i <= files@.len(),
            forall|j: int| 0 <= j < i ==> parses((#[trigger] fs[j]).text),
            all.deep_view() == loaded(fs.take(i as int)),
        decreases files@.len() - i,
    {
        assert(fs[i as int] == files@[i as int].deep_view());
        let blocks = match parse_file(files[i].text.as_str(), files[i].label.as_str()) {
            Ok(blocks) => blocks,
            Err(e) => {
                assert(first_unparsed(fs, i as int));
                return Err(e);
            },
        };
        let ghost parsed = blocks.deep_view();
        let mut linked = apply_implicit_deps(blocks);
        let ghost before = all.deep_view();
        let ghost added = linked.deep_view();
        all.append(&mut linked);
        proof {
            assert(all.deep_view() =~= before + added);
            let longer = fs.take(i + 1);
            assert(longer.drop_last() =~= fs.take(i as int));
            assert(longer.last() == fs[i as int]);
        }
        i += 1;
    }
    assert(fs.take(fs.len() as int) =~= fs);
    Ok(all)
}

/// Every block of every file that parses is among what is loaded.
pub proof fn law_every_block_is_loaded(files: Seq<SourceView>, f: int, i: int)
    requires
        0 <= f < files.len(),
        grammar::file(files[f].text) matches Ok(blocks) && 0 <= i < blocks.len(),
    ensures
        loaded(files).contains(implicit_deps(grammar::file(files[f].text)->Ok_0)[i]),
    decreases files.len(),
{
    let front = loaded(files.drop_last());
    let x = implicit_deps(grammar::file(files[f].text)->Ok_0)[i];
    if f < files.len() - 1 {
        law_every_block_is_loaded(files.drop_last(), f, i);
        let p = choose|p: int| 0 <= p < front.len() && front[p] == x;
        assert(loaded(files)[p] == x);
    } else {
        assert(loaded(files)[front.len() + i] == x);
    }
}

} // verus!
