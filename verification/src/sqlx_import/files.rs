//! The files of a migrations directory: which of them count, and which of them a migration
//! was most likely applied from.
use super::text::{name_words, stem_words, words_of_name, words_of_stem};
use crate::search::{
    contains_text, ends_with, lemma_lex_irreflexive, lemma_lex_total, lemma_lex_transitive, lex_lt,
    occurs_in, text_before,
};
use crate::text::{chars_of, same_text};
use vstd::prelude::*;
use vstd::string::*;

verus! {

// ---------------------------------------------------------------------------
// Listing
// ---------------------------------------------------------------------------

/// The name ends in `.sql`.
pub open spec fn is_sql_name(name: Seq<char>) -> bool {
    ".sql"@.is_suffix_of(name)
}

/// The names that end in `.sql`.
pub open spec fn sql_names(names: Seq<Seq<char>>) -> Seq<Seq<char>> {
    names.filter(|n: Seq<char>| is_sql_name(n))
}

/// No name comes before one that stands ahead of it.
pub open spec fn is_ordered(names: Seq<Seq<char>>) -> bool {
    forall|i: int, j: int|
        0 <= i < j < names.len() ==> !lex_lt(#[trigger] names[j], #[trigger] names[i])
}

/// Inserting into a sequence adds to what it holds.
proof fn lemma_insert_adds(s: Seq<Seq<char>>, i: int, x: Seq<char>)
    requires
        0 <= i <= s.len(),
    ensures
        s.insert(i, x).to_multiset() == s.to_multiset().insert(x),
{
    broadcast use vstd::seq_lib::group_to_multiset_ensures;

    let t = s.insert(i, x);
    assert(t.remove(i) =~= s);
    assert(t[i] == x);
    assert(t.contains(x));
    assert(s.to_multiset() == t.to_multiset().remove(x));
    assert(t.to_multiset() =~= s.to_multiset().insert(x));
}

/// The place at which `name` goes into an ordered list: behind all that do not come after it.
fn place_for(names: &Vec<String>, name: &str) -> (at: usize)
    requires
        is_ordered(names.deep_view()),
    ensures
        at <= names@.len(),
        is_ordered(names.deep_view().insert(at as int, name@)),
{
    let chars = chars_of(name);
    let ghost vs = names.deep_view();
    let mut at: usize = names.len();
    while at > 0
        invariant_except_break
            vs == names.deep_view(),
            chars@ == name@,
            at <= names@.len(),
            forall|j: int| at <= j < vs.len() ==> lex_lt(name@, #[trigger] vs[j]),
        ensures
            at <= names@.len(),
            forall|j: int| at <= j < vs.len() ==> lex_lt(name@, #[trigger] vs[j]),
            at > 0 ==> !lex_lt(name@, vs[at - 1]),
        decreases at,
    {
        assert(vs[at - 1] == names@[at - 1]@);
        let other = chars_of(names[at - 1].as_str());
        if !text_before(chars.as_slice(), other.as_slice()) {
            break;
        }
        at -= 1;
    }
    proof {
        let out = vs.insert(at as int, name@);
        assert forall|i: int, j: int| 0 <= i < j < out.len() implies !lex_lt(
            #[trigger] out[j],
            #[trigger] out[i],
        ) by {
            if j == at {
                // What stands ahead of the new name does not come after it.
                assert(out[i] == vs[i]);
                if lex_lt(name@, vs[i]) {
                    if i < at - 1 {
                        assert(!lex_lt(vs[at - 1], vs[i]));
                        lemma_lex_total(vs[at - 1], vs[i]);
                        if vs[i] != vs[at - 1] {
                            lemma_lex_transitive(name@, vs[i], vs[at - 1]);
                        }
                    }
                }
            } else if i == at {
                assert(out[j] == vs[j - 1]);
                if lex_lt(vs[j - 1], name@) {
                    lemma_lex_transitive(name@, vs[j - 1], name@);
                    lemma_lex_irreflexive(name@);
                }
            } else {
                let a = if i < at {
                    i
                } else {
                    i - 1
                };
                let b = if j < at {
                    j
                } else {
                    j - 1
                };
                assert(out[i] == vs[a] && out[j] == vs[b]);
            }
        }
    }
    at
}

/// The names that end in `.sql`, in order.
pub fn collect_sql_files(names: Vec<String>) -> (out: Vec<String>)
    ensures
        is_ordered(out.deep_view()),
        out.deep_view().to_multiset() == sql_names(names.deep_view()).to_multiset(),
{
    let ghost vs = names.deep_view();
    let mut out: Vec<String> = Vec::new();
    let mut i: usize = 0;
    proof {
        reveal(Seq::filter);
        assert(vs.take(0) =~= Seq::<Seq<char>>::empty());
        assert(out.deep_view() =~= sql_names(vs.take(0)));
    }
    while i < names.len()
        invariant
            vs == names.deep_view(),
            i <= names@.len(),
            is_ordered(out.deep_view()),
            out.deep_view().to_multiset() == sql_names(vs.take(i as int)).to_multiset(),
        decreases names@.len() - i,
    {
        let ghost before = out.deep_view();
        proof {
            reveal(Seq::filter);
            assert(vs[i as int] == names@[i as int]@);
            assert(vs.take(i + 1).drop_last() =~= vs.take(i as int));
            assert(vs.take(i + 1).last() == vs[i as int]);
        }
        if ends_with(names[i].as_str(), ".sql") {
            let at = place_for(&out, names[i].as_str());
            out.insert(at, names[i].clone());
            proof {
                broadcast use vstd::seq_lib::group_to_multiset_ensures;

                assert(out.deep_view() =~= before.insert(at as int, vs[i as int]));
                lemma_insert_adds(before, at as int, vs[i as int]);
                assert(sql_names(vs.take(i + 1)) == sql_names(vs.take(i as int)).push(
                    vs[i as int],
                ));
            }
        } else {
            assert(sql_names(vs.take(i + 1)) == sql_names(vs.take(i as int)));
        }
        i += 1;
    }
    assert(vs.take(vs.len() as int) =~= vs);
    out
}

// ---------------------------------------------------------------------------
// Guessing
// ---------------------------------------------------------------------------

/// `s` in lower case.
pub uninterp spec fn lowercased(s: Seq<char>) -> Seq<char>;

/// Calls `str::to_lowercase`. What it returns is a function of the characters of the string;
/// which characters have which lower case is left to the name `lowercased`.
#[verifier::external_body]
fn lowercase(s: &str) -> (lower: String)
    ensures
        lower@ == lowercased(s@),
{
    s.to_lowercase()
}

/// A file name without `.sql` at its end.
pub open spec fn stem(filename: Seq<char>) -> Seq<char> {
    if is_sql_name(filename) {
        filename.take(filename.len() - 4)
    } else {
        filename
    }
}

/// What a file name is compared by.
pub open spec fn file_key(filename: Seq<char>) -> Seq<char> {
    lowercased(stem_words(stem(filename)))
}

/// What a file name is compared by.
fn key_of_file(filename: &str) -> (key: String)
    ensures
        key@ == file_key(filename@),
{
    let chars = chars_of(filename);
    proof {
        reveal_strlit(".sql");
    }
    let end = if ends_with(filename, ".sql") {
        chars.len() - 4
    } else {
        chars.len()
    };
    let part = vstd::slice::slice_subrange(chars.as_slice(), 0, end);
    assert(part@ =~= stem(filename@));
    lowercase(words_of_stem(part).as_str())
}

/// A key that is the description's or the name's.
pub open spec fn is_exact(key: Seq<char>, desc_key: Seq<char>, name_key: Seq<char>) -> bool {
    key == desc_key || key == name_key
}

/// A key that holds the name's, or that the name's holds.
pub open spec fn is_similar(key: Seq<char>, name_key: Seq<char>) -> bool {
    occurs_in(name_key, key) || occurs_in(key, name_key)
}

/// The position of the key that matches best: the first that is exact, else the first that is
/// similar.
pub open spec fn is_best_key(
    keys: Seq<Seq<char>>,
    desc_key: Seq<char>,
    name_key: Seq<char>,
    found: Option<int>,
) -> bool {
    let none_exact = forall|j: int|
        0 <= j < keys.len() ==> !is_exact(#[trigger] keys[j], desc_key, name_key);
    match found {
        Some(i) => {
            &&& 0 <= i < keys.len()
            &&& if is_exact(keys[i], desc_key, name_key) {
                forall|j: int| 0 <= j < i ==> !is_exact(#[trigger] keys[j], desc_key, name_key)
            } else {
                &&& none_exact
                &&& is_similar(keys[i], name_key)
                &&& forall|j: int| 0 <= j < i ==> !is_similar(#[trigger] keys[j], name_key)
            }
        },
        None => none_exact && forall|j: int|
            0 <= j < keys.len() ==> !is_similar(#[trigger] keys[j], name_key),
    }
}

/// The position of the key that matches a description and a name best.
pub fn best_key(keys: &[String], desc_key: &str, name_key: &str) -> (found: Option<usize>)
    ensures
        is_best_key(
            keys.deep_view(),
            desc_key@,
            name_key@,
            match found {
                Some(i) => Some(i as int),
                None => None,
            },
        ),
{
    let ghost ks = keys.deep_view();
    let mut i: usize = 0;
    while i < keys.len()
        invariant
            ks == keys.deep_view(),
            i <= keys@.len(),
            forall|j: int| 0 <= j < i ==> !is_exact(#[trigger] ks[j], desc_key@, name_key@),
        decreases keys@.len() - i,
    {
        assert(ks[i as int] == keys@[i as int]@);
        if same_text(keys[i].as_str(), desc_key) || same_text(keys[i].as_str(), name_key) {
            return Some(i);
        }
        i += 1;
    }
    let mut k: usize = 0;
    while k < keys.len()
        invariant
            ks == keys.deep_view(),
            k <= keys@.len(),
            forall|j: int|
                0 <= j < ks.len() ==> !is_exact(#[trigger] ks[j], desc_key@, name_key@),
            forall|j: int| 0 <= j < k ==> !is_similar(#[trigger] ks[j], name_key@),
        decreases keys@.len() - k,
    {
        assert(ks[k as int] == keys@[k as int]@);
        if contains_text(keys[k].as_str(), name_key) || contains_text(name_key, keys[k].as_str()) {
            return Some(k);
        }
        k += 1;
    }
    None
}

/// What the file names are compared by.
pub open spec fn file_keys(files: Seq<Seq<char>>) -> Seq<Seq<char>> {
    files.map_values(|f: Seq<char>| file_key(f))
}

/// The file that best matches a migration: the one whose key matches best.
pub open spec fn is_best_match(
    files: Seq<Seq<char>>,
    description: Seq<char>,
    name: Seq<char>,
    found: Option<Seq<char>>,
) -> bool {
    let desc_key = lowercased(description);
    let name_key = lowercased(name_words(name));
    match found {
        Some(f) => exists|i: int| #[trigger]
            is_best_key(file_keys(files), desc_key, name_key, Some(i)) && f == files[i],
        None => is_best_key(file_keys(files), desc_key, name_key, None),
    }
}

/// Find the file name that best matches a sqlx migration.
pub fn find_file_for(files: &[String], description: &str, name: &str) -> (found: Option<String>)
    ensures
        is_best_match(
            files.deep_view(),
            description@,
            name@,
            match found {
                Some(f) => Some(f@),
                None => None,
            },
        ),
{
    let ghost fs = files.deep_view();
    let desc_key = lowercase(description);
    let name_key = lowercase(words_of_name(name).as_str());
    let mut keys: Vec<String> = Vec::new();
    let mut i: usize = 0;
    while i < files.len()
        invariant
            fs == files.deep_view(),
            i <= files@.len(),
            keys@.len() == i,
            forall|j: int| 0 <= j < i ==> (#[trigger] keys@[j])@ == file_key(fs[j]),
        decreases files@.len() - i,
    {
        assert(fs[i as int] == files@[i as int]@);
        keys.push(key_of_file(files[i].as_str()));
        i += 1;
    }
    let list = keys.as_slice();
    assert(list.deep_view() =~= file_keys(fs));
    match best_key(list, desc_key.as_str(), name_key.as_str()) {
        Some(k) => {
            assert(fs[k as int] == files@[k as int]@);
            Some(files[k].clone())
        },
        None => None,
    }
}

} // verus!
