//! What holds of the functions on text and numbers: trimming, lines, searching, order, decimal
//! numbers and joined lists.
use crate::render::{decimal, digit, join, signed_decimal};
use crate::search::{first_match, lemma_first_match, lex_lt, occurs_in};
use crate::text::{
    after_line, is_key_char, is_whitespace, lemma_line_len, lemma_trim_end_shape, lemma_trim_start_shape,
    line_len, trim, trim_start,
};
use vstd::prelude::*;

verus! {

// ---------------------------------------------------------------------------
// Trimming and lines
// ---------------------------------------------------------------------------

/// Trimming takes away white space at both ends, all of it, and nothing else.
pub proof fn law_trim(s: Seq<char>)
    ensures
        exists|a: int, b: int|
            {
                &&& 0 <= a <= b <= s.len()
                &&& trim(s) == #[trigger] s.subrange(a, b)
                &&& forall|i: int| 0 <= i < a ==> is_whitespace(#[trigger] s[i])
                &&& forall|i: int| b <= i < s.len() ==> is_whitespace(#[trigger] s[i])
                &&& a < b ==> !is_whitespace(s[a]) && !is_whitespace(s[b - 1])
            },
{
    let t = trim_start(s);
    lemma_trim_start_shape(s);
    lemma_trim_end_shape(t);
    let a = s.len() - t.len();
    let b = a + trim(s).len();
    assert(trim(s) =~= s.subrange(a, b));
    assert forall|i: int| 0 <= i < a implies is_whitespace(#[trigger] s[i]) by {
        assert(s.take(a)[i] == s[i]);
    }
    assert forall|i: int| b <= i < s.len() implies is_whitespace(#[trigger] s[i]) by {
        assert(t.skip(b - a)[i - b] == s[i]);
    }
    if a < b {
        assert(t[0] == s[a]);
        assert(trim(s).last() == s[b - 1]);
    }
}

/// White space is what Unicode counts as white space, character by character.
pub proof fn law_whitespace(c: char)
    ensures
        is_whitespace(c) <==> {
            let u = c as u32;
            ||| u == 9 || u == 10 || u == 11 || u == 12 || u == 13 || u == 32
            ||| u == 0x85 || u == 0xa0 || u == 0x1680
            ||| 0x2000 <= u <= 0x200a
            ||| u == 0x2028 || u == 0x2029 || u == 0x202f || u == 0x205f || u == 0x3000
        },
        is_whitespace(' ') && is_whitespace('\t') && is_whitespace('\n') && is_whitespace('\r'),
{
}

/// Of the characters of ASCII, a key holds letters, digits and underscores.
pub proof fn law_key_char(c: char)
    requires
        (c as u32) < 0x80,
    ensures
        is_key_char(c) <==> ('a' <= c <= 'z') || ('A' <= c <= 'Z') || ('0' <= c <= '9') || c == '_',
        is_key_char(c) ==> !is_whitespace(c),
{
}

/// A text is its first line, a newline and what follows; or it is one line.
pub proof fn law_first_line(s: Seq<char>)
    ensures
        forall|i: int| 0 <= i < line_len(s) ==> #[trigger] s[i] != '\n',
        line_len(s) < s.len() ==> s == s.take(line_len(s) as int) + seq!['\n'] + after_line(s),
        line_len(s) >= s.len() ==> line_len(s) == s.len() && after_line(s) == Seq::<char>::empty(),
{
    lemma_line_len(s);
    if line_len(s) < s.len() {
        assert(s =~= s.take(line_len(s) as int) + seq!['\n'] + after_line(s));
    }
}

/// The first line of a text that starts with a line is that line.
pub proof fn lemma_line_ahead(line: Seq<char>, rest: Seq<char>)
    requires
        !line.contains('\n'),
    ensures
        line_len(line + seq!['\n'] + rest) == line.len(),
        after_line(line + seq!['\n'] + rest) == rest,
        line_len(line) == line.len(),
        after_line(line) == Seq::<char>::empty(),
{
    let s = line + seq!['\n'] + rest;
    lemma_line_len(s);
    lemma_line_len(line);
    assert(s[line.len() as int] == '\n');
    if line_len(s) < line.len() {
        assert(line[line_len(s) as int] == '\n');
    }
    if line_len(line) < line.len() {
        assert(line[line_len(line) as int] == '\n');
    }
    assert(s.skip(line.len() as int + 1) =~= rest);
}

// ---------------------------------------------------------------------------
// Searching and order
// ---------------------------------------------------------------------------

/// A text occurs in another exactly where it is a part of it.
pub proof fn law_occurs_in(pat: Seq<char>, s: Seq<char>)
    ensures
        occurs_in(pat, s) <==> exists|a: Seq<char>, b: Seq<char>| s == #[trigger] (a + pat + b),
{
    lemma_first_match(s, pat);
    if occurs_in(pat, s) {
        let k = first_match(s, pat)->0 as int;
        let n = pat.len() as int;
        assert(s.skip(k).subrange(0, n) == pat);
        assert(s =~= s.take(k) + pat + s.skip(k + n));
    }
    if exists|a: Seq<char>, b: Seq<char>| s == #[trigger] (a + pat + b) {
        let (a, b) = choose|a: Seq<char>, b: Seq<char>| s == #[trigger] (a + pat + b);
        let k = a.len() as int;
        assert(s.skip(k).subrange(0, pat.len() as int) =~= pat);
        assert(pat.is_prefix_of(s.skip(k)));
    }
}

/// The first match is a match, and none comes before it.
pub proof fn law_first_match(s: Seq<char>, pat: Seq<char>, k: int)
    ensures
        first_match(s, pat) == Some(k as nat) && k >= 0 ==> k + pat.len() <= s.len() && s.subrange(
            k,
            k + pat.len(),
        ) == pat && forall|j: int|
            0 <= j < k ==> #[trigger] s.subrange(j, j + pat.len()) != pat,
        0 <= k <= s.len() - pat.len() && s.subrange(k, k + pat.len()) == pat ==> first_match(
            s,
            pat,
        ) is Some,
{
    lemma_first_match(s, pat);
    let n = pat.len() as int;
    if first_match(s, pat) == Some(k as nat) && k >= 0 {
        assert(s.skip(k).subrange(0, n) =~= s.subrange(k, k + n));
        assert forall|j: int| 0 <= j < k implies #[trigger] s.subrange(j, j + n) != pat by {
            assert(!pat.is_prefix_of(s.skip(j)));
            assert(s.skip(j).subrange(0, n) =~= s.subrange(j, j + n));
        }
    }
    if 0 <= k <= s.len() - n && s.subrange(k, k + n) == pat {
        assert(s.skip(k).subrange(0, n) =~= s.subrange(k, k + n));
        assert(pat.is_prefix_of(s.skip(k)));
    }
}

/// One text comes before another exactly where, behind a part that both start with, it ends or
/// has the smaller character.
pub proof fn law_lex_order(a: Seq<char>, b: Seq<char>)
    ensures
        lex_lt(a, b) <==> exists|k: int|
            {
                &&& 0 <= k <= a.len()
                &&& k < b.len()
                &&& a.take(k) == #[trigger] b.take(k)
                &&& k < a.len() ==> a[k] < b[k]
            },
    decreases a.len(),
{
    if a.len() > 0 && b.len() > 0 && a[0] == b[0] {
        let x = a.skip(1);
        let y = b.skip(1);
        law_lex_order(x, y);
        if lex_lt(x, y) {
            let k = choose|k: int|
                {
                    &&& 0 <= k <= x.len()
                    &&& k < y.len()
                    &&& x.take(k) == #[trigger] y.take(k)
                    &&& k < x.len() ==> x[k] < y[k]
                };
            assert forall|i: int| 0 <= i < k + 1 implies a[i] == b[i] by {
                if i > 0 {
                    assert(x.take(k)[i - 1] == y.take(k)[i - 1]);
                }
            }
            assert(a.take(k + 1) =~= b.take(k + 1));
        }
        if exists|k: int|
            {
                &&& 0 <= k <= a.len()
                &&& k < b.len()
                &&& a.take(k) == #[trigger] b.take(k)
                &&& k < a.len() ==> a[k] < b[k]
            } {
            let k = choose|k: int|
                {
                    &&& 0 <= k <= a.len()
                    &&& k < b.len()
                    &&& a.take(k) == #[trigger] b.take(k)
                    &&& k < a.len() ==> a[k] < b[k]
                };
            assert(k > 0);
            assert forall|i: int| 0 <= i < k - 1 implies x[i] == y[i] by {
                assert(a.take(k)[i + 1] == b.take(k)[i + 1]);
            }
            assert(x.take(k - 1) =~= y.take(k - 1));
        }
    } else if b.len() > 0 {
        assert(a.take(0) =~= b.take(0));
        if a.len() > 0 {
            assert forall|k: int| 0 < k <= a.len() && k < b.len() implies a.take(k)
                != #[trigger] b.take(k) by {
                assert(a.take(k)[0] == a[0] && b.take(k)[0] == b[0]);
            }
        }
    }
}

// ---------------------------------------------------------------------------
// Numbers and lists
// ---------------------------------------------------------------------------

/// The number that a row of decimal digits stands for.
pub open spec fn number_of(s: Seq<char>) -> nat
    decreases s.len(),
{
    if s.len() == 0 {
        0
    } else {
        10 * number_of(s.drop_last()) + (s.last() as nat - '0' as nat) as nat
    }
}

/// A number in decimal stands for that number, in digits and without a leading zero.
pub proof fn law_decimal(n: nat)
    ensures
        number_of(decimal(n)) == n,
        decimal(n).len() > 0,
        forall|i: int| 0 <= i < decimal(n).len() ==> '0' <= #[trigger] decimal(n)[i] <= '9',
        decimal(n).len() > 1 ==> decimal(n)[0] != '0',
    decreases n,
{
    assert(forall|d: nat| d < 10 ==> #[trigger] digit(d) as nat == 48 + d);
    if n < 10 {
        assert(decimal(n).drop_last() =~= Seq::<char>::empty());
        assert(decimal(n).last() == digit(n));
        assert(number_of(decimal(n).drop_last()) == 0);
    } else {
        law_decimal(n / 10);
        let front = decimal(n / 10);
        let last = digit(n % 10);
        assert(decimal(n).drop_last() =~= front);
        assert(decimal(n).last() == last);
        assert forall|i: int| 0 <= i < decimal(n).len() implies '0' <= #[trigger] decimal(
            n,
        )[i] <= '9' by {
            if i < front.len() {
                assert(decimal(n)[i] == front[i]);
            }
        }
        assert(decimal(n)[0] == front[0]);
        if front.len() == 1 && front[0] == '0' {
            assert(front.drop_last() =~= Seq::<char>::empty());
            assert(number_of(front.drop_last()) == 0);
            assert(number_of(front) == 0);
        }
    }
}

/// A negative number has a `-` ahead of it.
pub proof fn law_signed_decimal(n: int)
    ensures
        n >= 0 ==> signed_decimal(n) == decimal(n as nat),
        n < 0 ==> signed_decimal(n) == seq!['-'] + decimal((-n) as nat),
{
}

/// Joined lists: an empty list is empty, a single part is itself, and two lists are joined by
/// joining each and putting the separator between them.
pub proof fn law_join(a: Seq<Seq<char>>, b: Seq<Seq<char>>, p: Seq<char>, sep: Seq<char>)
    ensures
        join(Seq::<Seq<char>>::empty(), sep) == Seq::<char>::empty(),
        join(seq![p], sep) == p,
        a.len() > 0 && b.len() > 0 ==> join(a + b, sep) == join(a, sep) + sep + join(b, sep),
    decreases b.len(),
{
    if a.len() > 0 && b.len() > 0 {
        let front = b.drop_last();
        assert((a + b).drop_last() =~= a + front);
        assert((a + b).last() == b.last());
        if front.len() > 0 {
            law_join(a, front, p, sep);
            assert(join(a + b, sep) =~= join(a, sep) + sep + join(b, sep));
        } else {
            assert(a + front =~= a);
            assert(b.last() == b[0]);
            assert(join(a + b, sep) =~= join(a, sep) + sep + join(b, sep));
        }
    }
}

} // verus!
