//! Searching in text and comparing texts: prefixes, first occurrences, lexicographic order.
use crate::text::{chars_of, lemma_skip_skip};
use vstd::prelude::*;

verus! {

// ---------------------------------------------------------------------------
// Prefixes and occurrences
// ---------------------------------------------------------------------------

/// The position of the first occurrence of `pat` in `s`.
pub open spec fn first_match(s: Seq<char>, pat: Seq<char>) -> Option<nat>
    decreases s.len(),
{
    if pat.is_prefix_of(s) {
        Some(0)
    } else if s.len() == 0 {
        None
    } else {
        match first_match(s.skip(1), pat) {
            Some(k) => Some(k + 1),
            None => None,
        }
    }
}

/// `pat` occurs in `s`.
pub open spec fn occurs_in(pat: Seq<char>, s: Seq<char>) -> bool {
    first_match(s, pat) is Some
}

/// `first_match` gives an occurrence, and no position before it is one.
pub proof fn lemma_first_match(s: Seq<char>, pat: Seq<char>)
    ensures
        match first_match(s, pat) {
            Some(k) => {
                &&& k + pat.len() <= s.len()
                &&& pat.is_prefix_of(s.skip(k as int))
                &&& forall|j: int| 0 <= j < k ==> !pat.is_prefix_of(#[trigger] s.skip(j))
            },
            None => forall|j: int|
                0 <= j <= s.len() ==> !pat.is_prefix_of(#[trigger] s.skip(j)),
        },
    decreases s.len(),
{
    assert(s.skip(0) =~= s);
    if !pat.is_prefix_of(s) && s.len() > 0 {
        let t = s.skip(1);
        lemma_first_match(t, pat);
        assert forall|j: int| 1 <= j <= s.len() implies s.skip(j) == #[trigger] t.skip(j - 1) by {
            lemma_skip_skip(s, 1, j - 1);
        }
        match first_match(t, pat) {
            Some(k) => {
                assert(s.skip(k as int + 1) == t.skip(k as int));
                assert forall|j: int| 0 <= j < k + 1 implies !pat.is_prefix_of(
                    #[trigger] s.skip(j),
                ) by {
                    if j > 0 {
                        assert(s.skip(j) == t.skip(j - 1));
                    }
                }
            },
            None => {
                assert forall|j: int| 0 <= j <= s.len() implies !pat.is_prefix_of(
                    #[trigger] s.skip(j),
                ) by {
                    if j > 0 {
                        assert(s.skip(j) == t.skip(j - 1));
                    }
                }
            },
        }
    }
}

/// Whether `pat` stands in `text` at `at`.
pub fn stands_at(text: &[char], at: usize, pat: &[char]) -> (r: bool)
    requires
        at <= text@.len(),
    ensures
        r == pat@.is_prefix_of(text@.skip(at as int)),
{
    if text.len() - at < pat.len() {
        return false;
    }
    let mut i: usize = 0;
    while i < pat.len()
        invariant
            at + pat.len() <= text.len(),
            i <= pat@.len(),
            forall|k: int| 0 <= k < i ==> pat@[k] == text@[at + k],
        decreases pat@.len() - i,
    {
        if text[at + i] != pat[i] {
            assert(text@.skip(at as int).subrange(0, pat@.len() as int)[i as int] == text@[at + i]);
            return false;
        }
        i += 1;
    }
    assert(pat@ =~= text@.skip(at as int).subrange(0, pat@.len() as int));
    true
}

/// The first position at or after `from` at which `pat` stands in `text`.
pub fn find_at(text: &[char], from: usize, pat: &[char]) -> (r: Option<usize>)
    requires
        from <= text@.len(),
    ensures
        match r {
            Some(p) => {
                &&& from <= p
                &&& p + pat@.len() <= text@.len()
                &&& first_match(text@.skip(from as int), pat@) == Some((p - from) as nat)
            },
            None => first_match(text@.skip(from as int), pat@) is None,
        },
{
    let mut i: usize = from;
    loop
        invariant
            from <= i <= text@.len(),
            first_match(text@.skip(from as int), pat@) == match first_match(
                text@.skip(i as int),
                pat@,
            ) {
                Some(k) => Some((k + (i - from)) as nat),
                None => None,
            },
        decreases text@.len() - i,
    {
        if stands_at(text, i, pat) {
            return Some(i);
        }
        if i == text.len() {
            return None;
        }
        proof {
            lemma_skip_skip(text@, i as int, 1);
        }
        i += 1;
    }
}

/// Whether `pat` occurs in `s`.
pub fn contains_text(s: &str, pat: &str) -> (r: bool)
    ensures
        r == occurs_in(pat@, s@),
{
    let text = chars_of(s);
    let p = chars_of(pat);
    assert(text@.skip(0) =~= text@);
    find_at(text.as_slice(), 0, p.as_slice()).is_some()
}

/// Whether `s` ends with `pat`.
pub fn ends_with(s: &str, pat: &str) -> (r: bool)
    ensures
        r == pat@.is_suffix_of(s@),
{
    let text = chars_of(s);
    let p = chars_of(pat);
    if text.len() < p.len() {
        return false;
    }
    let at = text.len() - p.len();
    let r = stands_at(text.as_slice(), at, p.as_slice());
    proof {
        let end = text@.subrange(at as int, text@.len() as int);
        assert(text@.skip(at as int).subrange(0, p@.len() as int) =~= end);
    }
    r
}

// ---------------------------------------------------------------------------
// Lexicographic order
// ---------------------------------------------------------------------------

/// `a` comes before `b` in the lexicographic order of their characters.
pub open spec fn lex_lt(a: Seq<char>, b: Seq<char>) -> bool
    decreases a.len(),
{
    if b.len() == 0 {
        false
    } else if a.len() == 0 {
        true
    } else if a[0] != b[0] {
        a[0] < b[0]
    } else {
        lex_lt(a.skip(1), b.skip(1))
    }
}

/// No text comes before itself.
pub proof fn lemma_lex_irreflexive(a: Seq<char>)
    ensures
        !lex_lt(a, a),
    decreases a.len(),
{
    if a.len() > 0 {
        lemma_lex_irreflexive(a.skip(1));
    }
}

/// Of two different texts, one comes before the other.
pub proof fn lemma_lex_total(a: Seq<char>, b: Seq<char>)
    ensures
        lex_lt(a, b) || lex_lt(b, a) || a == b,
    decreases a.len(),
{
    if a.len() == 0 || b.len() == 0 {
        if a.len() == 0 && b.len() == 0 {
            assert(a =~= b);
        }
    } else if a[0] == b[0] {
        lemma_lex_total(a.skip(1), b.skip(1));
        if a.skip(1) == b.skip(1) {
            assert(a =~= seq![a[0]] + a.skip(1));
            assert(b =~= seq![b[0]] + b.skip(1));
        }
    }
}

/// The order is transitive.
pub proof fn lemma_lex_transitive(a: Seq<char>, b: Seq<char>, c: Seq<char>)
    requires
        lex_lt(a, b),
        lex_lt(b, c),
    ensures
        lex_lt(a, c),
    decreases a.len(),
{
    if a.len() > 0 && a[0] == b[0] && b[0] == c[0] {
        lemma_lex_transitive(a.skip(1), b.skip(1), c.skip(1));
    }
}

/// Whether `a` comes before `b` in lexicographic order.
pub fn text_before(a: &[char], b: &[char]) -> (r: bool)
    ensures
        r == lex_lt(a@, b@),
{
    let mut i: usize = 0;
    assert(a@.skip(0) =~= a@);
    assert(b@.skip(0) =~= b@);
    loop
        invariant
            i <= a@.len(),
            i <= b@.len(),
            lex_lt(a@, b@) == lex_lt(a@.skip(i as int), b@.skip(i as int)),
        decreases a@.len() - i,
    {
        if i == b.len() {
            return false;
        }
        if i == a.len() {
            return true;
        }
        if a[i] != b[i] {
            return a[i] < b[i];
        }
        proof {
            lemma_skip_skip(a@, i as int, 1);
            lemma_skip_skip(b@, i as int, 1);
        }
        i += 1;
    }
}

} // verus!
