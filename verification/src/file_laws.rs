//! What holds of files that are loaded together.
use crate::file::{
    first_unparsed, has_sql_extension, implicit_deps, loaded, parses, SourceView,
};
use crate::grammar;
use crate::types::MigrationView;
use vstd::prelude::*;

verus! {

/// Files are loaded one after the other: each gives its blocks, in file order and with the
/// implicit dependencies of that file alone, and nothing but them.
pub proof fn law_files_load_in_order(a: Seq<SourceView>, f: SourceView, b: Seq<SourceView>)
    ensures
        loaded(Seq::empty()) == Seq::<MigrationView>::empty(),
        loaded(a + b) == loaded(a) + loaded(b),
        grammar::file(f.text) matches Ok(ms) ==> loaded(seq![f]) == implicit_deps(ms),
    decreases b.len(),
{
    if b.len() == 0 {
        assert(a + b =~= a);
        assert(loaded(a) + loaded(b) =~= loaded(a));
    } else {
        let front = b.drop_last();
        assert((a + b).drop_last() =~= a + front);
        assert((a + b).last() == b.last());
        law_files_load_in_order(a, f, front);
        assert(loaded(a + b) =~= loaded(a) + loaded(b));
    }
    assert(seq![f].drop_last() =~= Seq::<SourceView>::empty());
    assert(seq![f].last() == f);
    assert(loaded(seq![f].drop_last()) =~= Seq::<MigrationView>::empty());
    match grammar::file(f.text) {
        Ok(ms) => {
            assert(Seq::<MigrationView>::empty() + implicit_deps(ms) =~= implicit_deps(ms));
        },
        Err(_) => {},
    }
}

/// The first block of a file gets no dependency. Every other one gets its predecessor behind its
/// own requirements, unless it is among them.
pub proof fn law_predecessor_is_added(ms: Seq<MigrationView>, i: int)
    requires
        0 <= i < ms.len(),
    ensures
        i == 0 || ms[i].requires.contains(ms[i - 1].name) ==> implicit_deps(ms)[i].requires
            == ms[i].requires,
        i > 0 && !ms[i].requires.contains(ms[i - 1].name) ==> implicit_deps(ms)[i].requires
            == ms[i].requires + seq![ms[i - 1].name],
{
    if i > 0 && !ms[i].requires.contains(ms[i - 1].name) {
        assert(ms[i].requires.push(ms[i - 1].name) =~= ms[i].requires + seq![ms[i - 1].name]);
    }
}

/// Loading fails exactly where some file does not parse, and at the first such file.
pub proof fn law_invalid_file_is_found(files: Seq<SourceView>)
    ensures
        (exists|i: int| #[trigger] first_unparsed(files, i)) <==> (exists|i: int|
            0 <= i < files.len() && grammar::file((#[trigger] files[i]).text) is Err),
        forall|i: int| #[trigger]
            first_unparsed(files, i) ==> {
                &&& 0 <= i < files.len()
                &&& grammar::file(files[i].text) is Err
                &&& forall|j: int| 0 <= j < i ==> grammar::file((#[trigger] files[j]).text) is Ok
            },
        forall|text: Seq<char>| #[trigger] parses(text) <==> grammar::file(text) is Ok,
    decreases files.len(),
{
    if exists|i: int| #[trigger] first_unparsed(files, i) {
        let i = choose|i: int| #[trigger] first_unparsed(files, i);
        assert(grammar::file(files[i].text) is Err);
    }
    assert forall|i: int| #[trigger] first_unparsed(files, i) implies {
        &&& 0 <= i < files.len()
        &&& grammar::file(files[i].text) is Err
        &&& forall|j: int| 0 <= j < i ==> grammar::file((#[trigger] files[j]).text) is Ok
    } by {
        assert forall|j: int| 0 <= j < i implies grammar::file((#[trigger] files[j]).text) is Ok by {
            assert(parses(files[j].text));
        }
    }
    if files.len() > 0 {
        let front = files.drop_last();
        let n = front.len() as int;
        law_invalid_file_is_found(front);
        if exists|i: int| #[trigger] first_unparsed(front, i) {
            let i = choose|i: int| #[trigger] first_unparsed(front, i);
            assert forall|j: int| 0 <= j < i implies parses((#[trigger] files[j]).text) by {
                assert(parses(front[j].text));
            }
            assert(first_unparsed(files, i));
        } else {
            assert forall|j: int| 0 <= j < n implies parses((#[trigger] files[j]).text) by {
                assert(grammar::file(front[j].text) is Ok);
            }
            if !parses(files[n].text) {
                assert(first_unparsed(files, n));
            }
        }
    }
}

/// A name is a migration file's exactly where it is a stem, which is not empty, and `.sql`.
pub proof fn law_migration_file_name(name: Seq<char>)
    ensures
        has_sql_extension(name) <==> exists|stem: Seq<char>|
            stem.len() > 0 && name == #[trigger] (stem + ".sql"@),
{
    reveal_strlit(".sql");
    if has_sql_extension(name) {
        let stem = name.take(name.len() - 4);
        assert(name =~= stem + ".sql"@);
    }
    if exists|stem: Seq<char>| stem.len() > 0 && name == #[trigger] (stem + ".sql"@) {
        let stem = choose|stem: Seq<char>| stem.len() > 0 && name == #[trigger] (stem + ".sql"@);
        assert(name.subrange(name.len() - 4, name.len() as int) =~= ".sql"@);
    }
}

} // verus!
