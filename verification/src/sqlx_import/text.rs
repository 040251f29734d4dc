//! The texts of an import from sqlx: migration names, the split of a file into description
//! and body, the header that is put in front of the body, and checksums in hex.
use crate::render::{join, join_text};
use crate::text::{
    after_line, chars_of, lemma_line_len, lemma_skip_skip, line_end, line_len, trim, trim_end_at,
    trim_start_at, trimmed,
};
use vstd::prelude::*;
use vstd::string::*;

verus! {

// ---------------------------------------------------------------------------
// Names
// ---------------------------------------------------------------------------

/// An ASCII digit.
pub open spec fn is_digit(c: char) -> bool {
    '0' <= c && c <= '9'
}

/// How many ASCII digits stand at the front of `s`.
pub open spec fn digits_len(s: Seq<char>) -> nat
    decreases s.len(),
{
    if s.len() > 0 && is_digit(s[0]) {
        1 + digits_len(s.skip(1))
    } else {
        0
    }
}

/// `s` without a leading numeric prefix: digits followed by `_`.
pub open spec fn without_numeric_prefix(s: Seq<char>) -> Seq<char> {
    let d = digits_len(s) as int;
    if 0 < d < s.len() && s[d] == '_' {
        s.skip(d + 1)
    } else {
        s
    }
}

/// `s` with `to` in place of each character of `from`.
pub open spec fn replaced(s: Seq<char>, from: Seq<char>, to: char) -> Seq<char> {
    s.map_values(
        |c: char|
            if from.contains(c) {
                to
            } else {
                c
            },
    )
}

/// The migration name for a sqlx description.
pub open spec fn normalised(description: Seq<char>) -> Seq<char> {
    replaced(without_numeric_prefix(description), seq![' '], '-')
}

/// The position at which `text` goes on behind a leading numeric prefix.
fn numeric_prefix_end(text: &[char]) -> (end: usize)
    ensures
        end <= text@.len(),
        text@.skip(end as int) == without_numeric_prefix(text@),
{
    let mut i: usize = 0;
    assert(text@.skip(0) =~= text@);
    while i < text.len() && '0' <= text[i] && text[i] <= '9'
        invariant
            i <= text@.len(),
            digits_len(text@) == i + digits_len(text@.skip(i as int)),
        decreases text@.len() - i,
    {
        proof {
            lemma_skip_skip(text@, i as int, 1);
        }
        i += 1;
    }
    assert(digits_len(text@) == i);
    if i > 0 && i < text.len() && text[i] == '_' {
        i + 1
    } else {
        0
    }
}

/// The string of `text` from `start` on, with `to` in place of `a` and `b`.
fn replace_two(text: &[char], start: usize, a: char, b: char, to: char) -> (s: String)
    requires
        start <= text@.len(),
    ensures
        s@ == replaced(text@.skip(start as int), seq![a, b], to),
{
    let ghost tail = text@.skip(start as int);
    let ghost want = replaced(tail, seq![a, b], to);
    let mut s = String::new();
    let mut i: usize = start;
    assert(want.take(0) =~= s@);
    while i < text.len()
        invariant
            start <= i <= text@.len(),
            tail == text@.skip(start as int),
            want == replaced(tail, seq![a, b], to),
            s@ == want.take(i - start),
        decreases text@.len() - i,
    {
        let c = text[i];
        proof {
            let from = seq![a, b];
            assert(from[0] == a && from[1] == b);
            assert(tail[i - start] == c);
            assert(want.take(i - start + 1) =~= want.take(i - start).push(want[i - start]));
        }
        if c == a || c == b {
            s.push(to);
        } else {
            s.push(c);
        }
        i += 1;
    }
    assert(want.take(want.len() as int) =~= want);
    s
}

/// Replacing one character is replacing it twice over.
proof fn lemma_replaced_twice(s: Seq<char>, a: char, to: char)
    ensures
        replaced(s, seq![a, a], to) == replaced(s, seq![a], to),
{
    let one = seq![a];
    let two = seq![a, a];
    assert forall|c: char| one.contains(c) <==> two.contains(c) by {
        assert(one[0] == a);
        assert(two[0] == a && two[1] == a);
    }
    assert(replaced(s, two, to) =~= replaced(s, one, to));
}

/// Normalise a sqlx description to a migration name: strip a leading `NNN_` numeric prefix
/// (digits followed by `_`), and replace every remaining space with `-`.
///
/// `"001_create users"` becomes `"create-users"`.
pub fn normalise_name(description: &str) -> (name: String)
    ensures
        name@ == normalised(description@),
{
    let chars = chars_of(description);
    let start = numeric_prefix_end(chars.as_slice());
    proof {
        lemma_replaced_twice(without_numeric_prefix(description@), ' ', '-');
    }
    replace_two(chars.as_slice(), start, ' ', ' ', '-')
}

/// A file name's stem as it is compared with descriptions, but for upper and lower case:
/// without a numeric prefix, and with spaces for `_` and `-`.
pub open spec fn stem_words(stem: Seq<char>) -> Seq<char> {
    replaced(without_numeric_prefix(stem), seq!['_', '-'], ' ')
}

/// The words of a file name's stem.
pub(crate) fn words_of_stem(stem: &[char]) -> (s: String)
    ensures
        s@ == stem_words(stem@),
{
    let start = numeric_prefix_end(stem);
    replace_two(stem, start, '_', '-', ' ')
}

/// The words of a migration name.
pub open spec fn name_words(name: Seq<char>) -> Seq<char> {
    replaced(name, seq!['-'], ' ')
}

/// The words of a migration name.
pub(crate) fn words_of_name(name: &str) -> (s: String)
    ensures
        s@ == name_words(name@),
{
    let chars = chars_of(name);
    proof {
        lemma_replaced_twice(name@, '-', ' ');
    }
    assert(chars@.skip(0) =~= chars@);
    replace_two(chars.as_slice(), 0, '-', '-', ' ')
}

/// A normalised name holds no space.
pub proof fn law_normalised_has_no_space(description: Seq<char>)
    ensures
        !normalised(description).contains(' '),
{
    let s = normalised(description);
    let from = seq![' '];
    assert(from[0] == ' ');
    assert forall|i: int| 0 <= i < s.len() implies s[i] != ' ' by {
        let c = without_numeric_prefix(description)[i];
        assert(s[i] == if from.contains(c) {
            '-'
        } else {
            c
        });
    }
}

// ---------------------------------------------------------------------------
// Description and body
// ---------------------------------------------------------------------------

/// The comment that the first line of `s` is, without `--` and without white space around it.
pub open spec fn line_comment(s: Seq<char>) -> Option<Seq<char>> {
    let line = trim(s.take(line_len(s) as int));
    if "--"@.is_prefix_of(line) {
        Some(trim(line.skip(2)))
    } else {
        None
    }
}

/// The comments of the lines at the front of `s` that are comments, and what follows them.
pub open spec fn leading_comments(s: Seq<char>) -> (Seq<Seq<char>>, Seq<char>)
    decreases s.len(),
{
    if s.len() == 0 {
        (seq![], s)
    } else {
        match line_comment(s) {
            Some(comment) => {
                proof {
                    lemma_line_len(s);
                }
                let (more, rest) = leading_comments(after_line(s));
                (seq![comment] + more, rest)
            },
            None => (seq![], s),
        }
    }
}

/// The comments that are not empty.
pub open spec fn spoken(comments: Seq<Seq<char>>) -> Seq<Seq<char>> {
    comments.filter(|c: Seq<char>| c.len() > 0)
}

/// The description that a file's leading comments give.
pub open spec fn file_description(content: Seq<char>) -> Seq<char> {
    join(spoken(leading_comments(content).0), " "@)
}

/// What a file holds behind its leading comments, trimmed.
pub open spec fn file_body(content: Seq<char>) -> Seq<char> {
    trim(leading_comments(content).1)
}

/// The comment that the line `start..end` is.
fn comment_at(text: &[char], start: usize, end: usize) -> (comment: Option<String>)
    requires
        start <= end <= text@.len(),
        end - start == line_len(text@.skip(start as int)),
    ensures
        match comment {
            Some(c) => line_comment(text@.skip(start as int)) == Some(c@),
            None => line_comment(text@.skip(start as int)) is None,
        },
{
    proof {
        reveal_strlit("--");
    }
    let line = vstd::slice::slice_subrange(text, start, end);
    assert(line@ =~= text@.skip(start as int).take(end - start));
    let a = trim_start_at(line, 0);
    let b = trim_end_at(line, a, line.len());
    let ghost kept = trim(line@);
    assert(line@.skip(0) =~= line@);
    assert(line@.skip(a as int) =~= line@.subrange(a as int, line@.len() as int));
    assert(line@.subrange(a as int, b as int) == kept);
    if b - a >= 2 && line[a] == '-' && line[a + 1] == '-' {
        assert(kept[0] == '-' && kept[1] == '-');
        assert(kept.subrange(0, 2) =~= "--"@);
        assert(line@.subrange(a + 2, b as int) =~= kept.skip(2));
        Some(trimmed(line, a + 2, b))
    } else {
        proof {
            if "--"@.is_prefix_of(kept) {
                assert(kept.subrange(0, 2)[0] == '-' && kept.subrange(0, 2)[1] == '-');
            }
        }
        None
    }
}

/// Split a raw sqlx file into (description, body).
///
/// Leading `-- comment` lines are collected and joined as the description. The body is
/// everything after the leading comment block, trimmed. If there are no leading comments the
/// description is empty and the full content is the body.
pub fn extract_description_and_body(content: &str) -> (r: (String, String))
    ensures
        r.0@ == file_description(content@),
        r.1@ == file_body(content@),
{
    let text = chars_of(content);
    let mut lines: Vec<String> = Vec::new();
    let mut i: usize = 0;
    let ghost all = leading_comments(content@);
    let ghost mut seen: Seq<Seq<char>> = seq![];
    proof {
        assert(text@.skip(0) =~= text@);
        assert(seen + all.0 =~= all.0);
        reveal(Seq::filter);
        assert(lines.deep_view() =~= spoken(seen));
    }
    while i < text.len()
        invariant_except_break
            i <= text@.len(),
            text@ == content@,
            all == leading_comments(content@),
            all.0 == seen + leading_comments(text@.skip(i as int)).0,
            all.1 == leading_comments(text@.skip(i as int)).1,
            lines.deep_view() == spoken(seen),
        ensures
            i <= text@.len(),
            all.0 == seen,
            all.1 == text@.skip(i as int),
            lines.deep_view() == spoken(seen),
        decreases text@.len() - i,
    {
        let ghost here = text@.skip(i as int);
        let end = line_end(text.as_slice(), i);
        match comment_at(text.as_slice(), i, end) {
            Some(comment) => {
                let ghost before = seen;
                proof {
                    let (more, rest) = leading_comments(after_line(here));
                    seen = seen.push(comment@);
                    assert(before + (seq![comment@] + more) =~= seen + more);
                    lemma_spoken_push(before, comment@);
                }
                if comment.as_str().unicode_len() > 0 {
                    let ghost kept = lines.deep_view();
                    lines.push(comment);
                    assert(lines.deep_view() =~= kept.push(comment@));
                }
                if end < text.len() {
                    proof {
                        lemma_skip_skip(text@, i as int, end - i + 1);
                    }
                    i = end + 1;
                } else {
                    assert(text@.skip(end as int) =~= Seq::<char>::empty());
                    i = end;
                }
            },
            None => {
                assert(seen + Seq::<Seq<char>>::empty() =~= seen);
                break;
            },
        }
    }
    let list = lines.as_slice();
    assert(list.deep_view() =~= lines.deep_view());
    let description = join_text(list, " ");
    assert(text@.skip(i as int) =~= text@.subrange(i as int, text@.len() as int));
    let body = trimmed(text.as_slice(), i, text.len());
    (description, body)
}

proof fn lemma_spoken_push(comments: Seq<Seq<char>>, c: Seq<char>)
    ensures
        spoken(comments.push(c)) == (if c.len() > 0 {
            spoken(comments).push(c)
        } else {
            spoken(comments)
        }),
{
    reveal(Seq::filter);
    assert(comments.push(c).drop_last() =~= comments);
}

/// A file that starts with no comment has no description, and all of it is the body.
pub proof fn law_no_comments_no_description(content: Seq<char>)
    requires
        content.len() == 0 || line_comment(content) is None,
    ensures
        file_description(content) == Seq::<char>::empty(),
        file_body(content) == trim(content),
{
    reveal(Seq::filter);
    assert(spoken(Seq::<Seq<char>>::empty()) =~= Seq::<Seq<char>>::empty());
}

// ---------------------------------------------------------------------------
// Hex
// ---------------------------------------------------------------------------

/// The hex digit of `n`, in lower case.
pub open spec fn hex_digit(n: int) -> char {
    if n < 10 {
        (n + 48) as char
    } else {
        (n + 87) as char
    }
}

/// The bytes in hex, two digits each.
pub open spec fn hex_of(bytes: Seq<u8>) -> Seq<char>
    decreases bytes.len(),
{
    if bytes.len() == 0 {
        seq![]
    } else {
        hex_of(bytes.drop_last()).push(hex_digit(bytes.last() as int / 16)).push(
            hex_digit(bytes.last() as int % 16),
        )
    }
}

/// The hex digit of `n`.
fn digit_of(n: u8) -> (c: char)
    requires
        n < 16,
    ensures
        c == hex_digit(n as int),
{
    if n < 10 {
        (n + 48) as char
    } else {
        (n + 87) as char
    }
}

/// The bytes in hex.
pub fn hex(bytes: &[u8]) -> (s: String)
    ensures
        s@ == hex_of(bytes@),
{
    let mut s = String::new();
    let mut i: usize = 0;
    assert(bytes@.take(0) =~= Seq::<u8>::empty());
    while i < bytes.len()
        invariant
            i <= bytes@.len(),
            s@ == hex_of(bytes@.take(i as int)),
        decreases bytes@.len() - i,
    {
        let b = bytes[i];
        assert(bytes@.take(i + 1).drop_last() =~= bytes@.take(i as int));
        s.push(digit_of(b / 16));
        s.push(digit_of(b % 16));
        i += 1;
    }
    assert(bytes@.take(bytes@.len() as int) =~= bytes@);
    s
}

/// Each byte takes two hex digits.
pub proof fn law_hex_len(bytes: Seq<u8>)
    ensures
        hex_of(bytes).len() == 2 * bytes.len(),
    decreases bytes.len(),
{
    if bytes.len() > 0 {
        law_hex_len(bytes.drop_last());
    }
}

/// Different digits look different.
proof fn lemma_hex_digit_injective(a: int, b: int)
    requires
        0 <= a < 16,
        0 <= b < 16,
        hex_digit(a) == hex_digit(b),
    ensures
        a == b,
{
    assert(hex_digit(a) as int == if a < 10 {
        a + 48
    } else {
        a + 87
    });
    assert(hex_digit(b) as int == if b < 10 {
        b + 48
    } else {
        b + 87
    });
}

/// Bytes are the same exactly where their hex forms are the same: to compare checksums in hex
/// is to compare the checksums.
pub proof fn law_hex_is_injective(a: Seq<u8>, b: Seq<u8>)
    ensures
        hex_of(a) == hex_of(b) <==> a == b,
    decreases a.len(),
{
    if hex_of(a) == hex_of(b) {
        law_hex_len(a);
        law_hex_len(b);
        if a.len() > 0 {
            let x = a.last() as int;
            let y = b.last() as int;
            let ha = hex_of(a.drop_last());
            let hb = hex_of(b.drop_last());
            let n = ha.len() as int;
            law_hex_len(a.drop_last());
            law_hex_len(b.drop_last());
            assert(hex_of(a)[n] == hex_digit(x / 16));
            assert(hex_of(a)[n + 1] == hex_digit(x % 16));
            assert(hex_of(b)[n] == hex_digit(y / 16));
            assert(hex_of(b)[n + 1] == hex_digit(y % 16));
            lemma_hex_digit_injective(x / 16, y / 16);
            lemma_hex_digit_injective(x % 16, y % 16);
            assert(hex_of(a).take(n) =~= ha);
            assert(hex_of(b).take(n) =~= hb);
            law_hex_is_injective(a.drop_last(), b.drop_last());
            assert(a =~= a.drop_last().push(a.last()));
            assert(b =~= b.drop_last().push(b.last()));
        } else {
            assert(a =~= b);
        }
    }
}

} // verus!
