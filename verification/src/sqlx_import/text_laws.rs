//! What holds of names, descriptions, file names and hex forms.
use super::files::{
    file_key, file_keys, is_best_key, is_best_match, is_ordered, is_sql_name, lowercased,
    sql_names, stem,
};
use super::text::{
    digits_len, file_body, file_description, hex_digit, hex_of, law_hex_len, leading_comments,
    line_comment, name_words, normalised, replaced, spoken, stem_words, without_numeric_prefix,
};
use crate::render::join;
use crate::search::{lex_lt, occurs_in};
use crate::text::trim;
use crate::text_laws::{law_join, lemma_line_ahead};
use vstd::prelude::*;

verus! {

// ---------------------------------------------------------------------------
// Names
// ---------------------------------------------------------------------------

/// Digits only.
pub open spec fn all_digits(s: Seq<char>) -> bool {
    forall|i: int| 0 <= i < s.len() ==> '0' <= #[trigger] s[i] <= '9'
}

/// Digits at the front are counted up to what follows them.
proof fn lemma_digits(digits: Seq<char>, rest: Seq<char>)
    requires
        all_digits(digits),
        rest.len() == 0 || !('0' <= rest[0] <= '9'),
    ensures
        digits_len(digits + rest) == digits.len(),
    decreases digits.len(),
{
    let t = digits + rest;
    if digits.len() == 0 {
        assert(t =~= rest);
    } else {
        let more = digits.skip(1);
        assert('0' <= digits[0] <= '9');
        assert(t[0] == digits[0]);
        assert forall|i: int| 0 <= i < more.len() implies '0' <= #[trigger] more[i] <= '9' by {
            assert(more[i] == digits[i + 1]);
        }
        lemma_digits(more, rest);
        assert(t.skip(1) =~= more + rest);
    }
}

/// What stands at the front as digits are digits.
proof fn lemma_digits_len(s: Seq<char>)
    ensures
        digits_len(s) <= s.len(),
        all_digits(s.take(digits_len(s) as int)),
    decreases s.len(),
{
    if s.len() > 0 && '0' <= s[0] && s[0] <= '9' {
        let t = s.skip(1);
        lemma_digits_len(t);
        let k = digits_len(t) as int;
        assert forall|i: int| 0 <= i < k + 1 implies '0' <= #[trigger] s.take(k + 1)[i] <= '9' by {
            if i > 0 {
                assert(t.take(k)[i - 1] == s[i]);
            }
        }
    }
}

/// A numeric prefix is digits and an underscore: it is taken off, and only the first.
proof fn lemma_without_prefix(digits: Seq<char>, rest: Seq<char>)
    requires
        digits.len() > 0,
        all_digits(digits),
    ensures
        without_numeric_prefix(digits + seq!['_'] + rest) == rest,
{
    let s = digits + seq!['_'] + rest;
    assert(s =~= digits + (seq!['_'] + rest));
    lemma_digits(digits, seq!['_'] + rest);
    assert(s[digits.len() as int] == '_');
    assert(s.skip(digits.len() as int + 1) =~= rest);
}

/// Text without a numeric prefix stays as it is.
proof fn lemma_no_prefix(s: Seq<char>)
    requires
        forall|k: int|
            0 < k < s.len() && #[trigger] s[k] == '_' ==> !all_digits(s.take(k)),
    ensures
        without_numeric_prefix(s) == s,
{
    lemma_digits_len(s);
    let k = digits_len(s) as int;
    if 0 < k < s.len() && s[k] == '_' {
        assert(all_digits(s.take(k)));
    }
}

proof fn lemma_replaced_one(s: Seq<char>, a: char, to: char)
    ensures
        replaced(s, seq![a], to).len() == s.len(),
        forall|i: int|
            0 <= i < s.len() ==> replaced(s, seq![a], to)[i] == if #[trigger] s[i] == a {
                to
            } else {
                s[i]
            },
{
    assert(seq![a][0] == a);
}

proof fn lemma_replaced_two(s: Seq<char>, a: char, b: char, to: char)
    ensures
        replaced(s, seq![a, b], to).len() == s.len(),
        forall|i: int|
            0 <= i < s.len() ==> replaced(s, seq![a, b], to)[i] == if #[trigger] s[i] == a || s[i]
                == b {
                to
            } else {
                s[i]
            },
{
    assert(seq![a, b][0] == a && seq![a, b][1] == b);
}

/// The name for a description with a number ahead of it is made of what stands behind the
/// number and the underscore, with `-` for each space and every other character as it is.
pub proof fn law_name_of_numbered_description(digits: Seq<char>, rest: Seq<char>)
    requires
        digits.len() > 0,
        all_digits(digits),
    ensures
        normalised(digits + seq!['_'] + rest).len() == rest.len(),
        forall|i: int|
            0 <= i < rest.len() ==> normalised(digits + seq!['_'] + rest)[i] == if #[trigger] rest[i]
                == ' ' {
                '-'
            } else {
                rest[i]
            },
{
    lemma_without_prefix(digits, rest);
    lemma_replaced_one(rest, ' ', '-');
}

/// The name for any other description is made of all of it, with `-` for each space and every
/// other character as it is.
pub proof fn law_name_of_other_description(description: Seq<char>)
    requires
        forall|k: int|
            0 < k < description.len() && #[trigger] description[k] == '_' ==> !all_digits(
                description.take(k),
            ),
    ensures
        normalised(description).len() == description.len(),
        forall|i: int|
            0 <= i < description.len() ==> normalised(description)[i]
                == if #[trigger] description[i] == ' ' {
                '-'
            } else {
                description[i]
            },
{
    lemma_no_prefix(description);
    lemma_replaced_one(description, ' ', '-');
}

/// The words of a file name's stem are what stands behind a number and an underscore, or all of
/// it where no number stands ahead, with a space for each `_` and `-`.
pub proof fn law_words_of_stem(digits: Seq<char>, rest: Seq<char>, other: Seq<char>)
    requires
        digits.len() > 0,
        all_digits(digits),
        forall|k: int| 0 < k < other.len() && #[trigger] other[k] == '_' ==> !all_digits(
            other.take(k),
        ),
    ensures
        stem_words(digits + seq!['_'] + rest).len() == rest.len(),
        forall|i: int|
            0 <= i < rest.len() ==> stem_words(digits + seq!['_'] + rest)[i] == if #[trigger] rest[i]
                == '_' || rest[i] == '-' {
                ' '
            } else {
                rest[i]
            },
        stem_words(other).len() == other.len(),
        forall|i: int|
            0 <= i < other.len() ==> stem_words(other)[i] == if #[trigger] other[i] == '_'
                || other[i] == '-' {
                ' '
            } else {
                other[i]
            },
{
    lemma_without_prefix(digits, rest);
    lemma_replaced_two(rest, '_', '-', ' ');
    lemma_no_prefix(other);
    lemma_replaced_two(other, '_', '-', ' ');
}

/// The words of a name are the name with a space for each `-`.
pub proof fn law_words_of_name(name: Seq<char>)
    ensures
        name_words(name).len() == name.len(),
        forall|i: int|
            0 <= i < name.len() ==> name_words(name)[i] == if #[trigger] name[i] == '-' {
                ' '
            } else {
                name[i]
            },
{
    lemma_replaced_one(name, '-', ' ');
}

// ---------------------------------------------------------------------------
// Descriptions and bodies
// ---------------------------------------------------------------------------

/// Parts that hold something make a list that holds something.
proof fn lemma_join_len(parts: Seq<Seq<char>>, sep: Seq<char>)
    requires
        forall|i: int| 0 <= i < parts.len() ==> (#[trigger] parts[i]).len() > 0,
    ensures
        parts.len() > 0 ==> join(parts, sep).len() > 0,
{
    if parts.len() > 0 {
        assert(parts[parts.len() - 1].len() > 0);
    }
}

/// A comment ahead of others.
proof fn lemma_spoken_front(c: Seq<char>, more: Seq<Seq<char>>)
    ensures
        spoken(seq![c] + more) == if c.len() > 0 {
            seq![c] + spoken(more)
        } else {
            spoken(more)
        },
        forall|i: int| 0 <= i < spoken(more).len() ==> (#[trigger] spoken(more)[i]).len() > 0,
{
    reveal(Seq::filter);
    let p = |c: Seq<char>| c.len() > 0;
    Seq::filter_distributes_over_add(seq![c], more, p);
    assert(seq![c].drop_last() =~= Seq::<Seq<char>>::empty());
    assert(Seq::<Seq<char>>::empty().filter(p) =~= Seq::<Seq<char>>::empty());
    assert(seq![c].filter(p) =~= if c.len() > 0 { seq![c] } else { Seq::empty() });
    assert(Seq::<Seq<char>>::empty() + spoken(more) =~= spoken(more));
    assert forall|i: int| 0 <= i < spoken(more).len() implies (#[trigger] spoken(more)[i]).len()
        > 0 by {
        more.lemma_filter_pred(p, i);
    }
}

/// A comment line ahead of a file gives its words to the front of the description, and takes
/// nothing from the body. An empty comment gives nothing.
pub proof fn law_comment_line(line: Seq<char>, rest: Seq<char>)
    requires
        !line.contains('\n'),
        "--"@.is_prefix_of(trim(line)),
    ensures
        ({
            let words = trim(trim(line).skip(2));
            let content = line + seq!['\n'] + rest;
            let more = file_description(rest);
            &&& file_body(content) == file_body(rest)
            &&& file_description(content) == if words.len() == 0 {
                more
            } else if more.len() == 0 {
                words
            } else {
                words + " "@ + more
            }
        }),
{
    let words = trim(trim(line).skip(2));
    let content = line + seq!['\n'] + rest;
    lemma_line_ahead(line, rest);
    assert(content.take(line.len() as int) =~= line);
    assert(line_comment(content) == Some(words));
    let (more, behind) = leading_comments(rest);
    assert(leading_comments(content) == (seq![words] + more, behind));
    lemma_spoken_front(words, more);
    lemma_join_len(spoken(more), " "@);
    if words.len() > 0 {
        if spoken(more).len() == 0 {
            assert(seq![words] + spoken(more) =~= seq![words]);
            law_join(seq![words], spoken(more), words, " "@);
            assert(file_description(rest).len() == 0);
        } else {
            law_join(seq![words], spoken(more), words, " "@);
        }
    }
}

/// A file that is one comment line has its words for a description, and no body.
pub proof fn law_only_comment_line(line: Seq<char>)
    requires
        !line.contains('\n'),
        "--"@.is_prefix_of(trim(line)),
    ensures
        file_description(line) == trim(trim(line).skip(2)),
        file_body(line) == Seq::<char>::empty(),
{
    reveal_strlit("--");
    let words = trim(trim(line).skip(2));
    let none = Seq::<char>::empty();
    let no_comments = Seq::<Seq<char>>::empty();
    lemma_line_ahead(line, none);
    assert(line.take(line.len() as int) =~= line);
    assert(line.len() > 0) by {
        if line.len() == 0 {
            assert(trim(line).len() == 0);
        }
    }
    assert(line_comment(line) == Some(words));
    assert(leading_comments(none) == (no_comments, none));
    assert(leading_comments(line) == (seq![words] + no_comments, none));
    lemma_spoken_front(words, no_comments);
    reveal(Seq::filter);
    assert(spoken(no_comments) =~= no_comments);
    assert(seq![words] + no_comments =~= seq![words]);
    law_join(seq![words], no_comments, words, " "@);
    assert(trim(none) =~= none);
    if words.len() == 0 {
        assert(words =~= none);
    }
}

/// A line that is no comment ends the description: the body starts with it.
pub proof fn law_other_line(line: Seq<char>, rest: Seq<char>)
    requires
        !line.contains('\n'),
        !"--"@.is_prefix_of(trim(line)),
    ensures
        file_description(line + seq!['\n'] + rest) == Seq::<char>::empty(),
        file_body(line + seq!['\n'] + rest) == trim(line + seq!['\n'] + rest),
        file_description(line) == Seq::<char>::empty(),
        file_body(line) == trim(line),
{
    let content = line + seq!['\n'] + rest;
    let no_comments = Seq::<Seq<char>>::empty();
    lemma_line_ahead(line, rest);
    assert(content.take(line.len() as int) =~= line);
    assert(line.take(line.len() as int) =~= line);
    assert(leading_comments(content) == (no_comments, content));
    assert(leading_comments(line) == (no_comments, line));
    reveal(Seq::filter);
    assert(spoken(no_comments) =~= no_comments);
}

// ---------------------------------------------------------------------------
// Hex
// ---------------------------------------------------------------------------

/// The value of a lower-case hex digit.
pub open spec fn hex_value(c: char) -> int {
    if '0' <= c <= '9' {
        c as int - '0' as int
    } else if 'a' <= c <= 'f' {
        c as int - 'a' as int + 10
    } else {
        -1
    }
}

/// The two digits of each byte stand for that byte.
pub proof fn law_hex_reads_back(bytes: Seq<u8>, i: int)
    requires
        0 <= i < bytes.len(),
    ensures
        hex_of(bytes).len() == 2 * bytes.len(),
        hex_value(hex_of(bytes)[2 * i]) >= 0,
        hex_value(hex_of(bytes)[2 * i + 1]) >= 0,
        16 * hex_value(hex_of(bytes)[2 * i]) + hex_value(hex_of(bytes)[2 * i + 1]) == bytes[i],
    decreases bytes.len(),
{
    law_hex_len(bytes);
    let front = bytes.drop_last();
    law_hex_len(front);
    if i < front.len() {
        law_hex_reads_back(front, i);
        assert(hex_of(bytes)[2 * i] == hex_of(front)[2 * i]);
        assert(hex_of(bytes)[2 * i + 1] == hex_of(front)[2 * i + 1]);
    } else {
        let b = bytes.last() as int;
        lemma_hex_value(b / 16);
        lemma_hex_value(b % 16);
    }
}

proof fn lemma_hex_value(n: int)
    requires
        0 <= n < 16,
    ensures
        hex_value(hex_digit(n)) == n,
{
    if n < 10 {
        assert(hex_digit(n) as int == n + 48);
    } else {
        assert(hex_digit(n) as int == n + 87);
    }
}

// ---------------------------------------------------------------------------
// File names
// ---------------------------------------------------------------------------

/// A name is a SQL file's exactly where it is some stem and `.sql`, and that is its stem; any
/// other name is its own stem.
pub proof fn law_sql_name(name: Seq<char>)
    ensures
        is_sql_name(name) <==> exists|s: Seq<char>| name == #[trigger] (s + ".sql"@),
        forall|s: Seq<char>| stem(#[trigger] (s + ".sql"@)) == s,
        !is_sql_name(name) ==> stem(name) == name,
{
    reveal_strlit(".sql");
    if is_sql_name(name) {
        let s = name.take(name.len() - 4);
        assert(name =~= s + ".sql"@);
    }
    assert forall|s: Seq<char>| stem(#[trigger] (s + ".sql"@)) == s by {
        let t = s + ".sql"@;
        assert(t.subrange(t.len() - 4, t.len() as int) =~= ".sql"@);
        assert(t.take(t.len() - 4) =~= s);
    }
    if exists|s: Seq<char>| name == #[trigger] (s + ".sql"@) {
        let s = choose|s: Seq<char>| name == #[trigger] (s + ".sql"@);
        assert(name.subrange(name.len() - 4, name.len() as int) =~= ".sql"@);
    }
}

/// The files that are collected are exactly those whose names end in `.sql`, none comes before
/// one that stands ahead of it, and there are as many as there are such names.
pub proof fn law_collected_files(names: Seq<Seq<char>>, out: Seq<Seq<char>>)
    requires
        is_ordered(out),
        out.to_multiset() == sql_names(names).to_multiset(),
    ensures
        forall|n: Seq<char>| #[trigger]
            out.contains(n) <==> names.contains(n) && ".sql"@.is_suffix_of(n),
        forall|i: int, j: int|
            0 <= i < j < out.len() ==> !lex_lt(#[trigger] out[j], #[trigger] out[i]),
        (forall|i: int| 0 <= i < names.len() ==> ".sql"@.is_suffix_of(#[trigger] names[i]))
            ==> out.to_multiset() == names.to_multiset(),
{
    broadcast use vstd::seq_lib::group_to_multiset_ensures;

    let p = |n: Seq<char>| is_sql_name(n);
    let kept = sql_names(names);
    assert forall|n: Seq<char>| #[trigger] out.contains(n) <==> names.contains(n)
        && ".sql"@.is_suffix_of(n) by {
        assert(out.contains(n) <==> out.to_multiset().count(n) > 0);
        assert(kept.contains(n) <==> kept.to_multiset().count(n) > 0);
        if kept.contains(n) {
            let i = choose|i: int| 0 <= i < kept.len() && kept[i] == n;
            names.lemma_filter_pred(p, i);
            lemma_filter_from(names, p, i);
        }
        if names.contains(n) && ".sql"@.is_suffix_of(n) {
            let i = choose|i: int| 0 <= i < names.len() && names[i] == n;
            names.lemma_filter_contains(p, i);
        }
    }
    if forall|i: int| 0 <= i < names.len() ==> ".sql"@.is_suffix_of(#[trigger] names[i]) {
        lemma_filter_keeps_all(names, p);
    }
}

/// What a filter keeps was there before.
proof fn lemma_filter_from(s: Seq<Seq<char>>, p: spec_fn(Seq<char>) -> bool, i: int)
    requires
        0 <= i < s.filter(p).len(),
    ensures
        s.contains(s.filter(p)[i]),
    decreases s.len(),
{
    reveal(Seq::filter);
    if s.len() > 0 {
        let front = s.drop_last();
        if i < front.filter(p).len() {
            lemma_filter_from(front, p, i);
            let k = choose|k: int| 0 <= k < front.len() && front[k] == front.filter(p)[i];
            assert(s[k] == s.filter(p)[i]);
        } else {
            assert(s[s.len() - 1] == s.filter(p)[i]);
        }
    }
}

/// A filter that everything passes takes nothing away.
proof fn lemma_filter_keeps_all(s: Seq<Seq<char>>, p: spec_fn(Seq<char>) -> bool)
    requires
        forall|i: int| 0 <= i < s.len() ==> p(#[trigger] s[i]),
    ensures
        s.filter(p) == s,
    decreases s.len(),
{
    reveal(Seq::filter);
    if s.len() > 0 {
        let front = s.drop_last();
        assert forall|i: int| 0 <= i < front.len() implies p(#[trigger] front[i]) by {
            assert(front[i] == s[i]);
        }
        lemma_filter_keeps_all(front, p);
        assert(p(s[s.len() - 1]));
        assert(front.push(s.last()) =~= s);
    }
}

/// A file is found by the words of its name in lower case: by those of its stem, without
/// number and `.sql`.
pub proof fn law_file_keys(files: Seq<Seq<char>>, i: int, s: Seq<char>)
    requires
        0 <= i < files.len(),
        files[i] == s + ".sql"@,
    ensures
        file_keys(files).len() == files.len(),
        file_keys(files)[i] == lowercased(stem_words(s)),
{
    law_sql_name(files[i]);
}

/// A file whose words are the description's, or the name's, is found before any other: the
/// first such file. Only where there is none, the first file is found whose words hold the
/// name's or lie within them; and where there is none such either, no file is found.
pub proof fn law_found_file(
    files: Seq<Seq<char>>,
    description: Seq<char>,
    name: Seq<char>,
    found: Option<Seq<char>>,
)
    requires
        is_best_match(files, description, name, found),
    ensures
        ({
            let d = lowercased(description);
            let n = lowercased(name_words(name));
            match found {
                Some(f) => exists|i: int|
                    {
                        let same = file_key(files[i]) == d || file_key(files[i]) == n;
                        let within = occurs_in(n, file_key(files[i])) || occurs_in(
                            file_key(files[i]),
                            n,
                        );
                        &&& 0 <= i < files.len()
                        &&& f == #[trigger] files[i]
                        &&& same || within
                        &&& forall|j: int|
                            0 <= j < (if same {
                                i
                            } else {
                                files.len() as int
                            }) ==> file_key(#[trigger] files[j]) != d && file_key(files[j]) != n
                        &&& !same ==> forall|j: int|
                            0 <= j < i ==> !occurs_in(n, file_key(#[trigger] files[j]))
                                && !occurs_in(file_key(files[j]), n)
                    },
                None => forall|j: int|
                    0 <= j < files.len() ==> {
                        &&& file_key(#[trigger] files[j]) != d
                        &&& file_key(files[j]) != n
                        &&& !occurs_in(n, file_key(files[j]))
                        &&& !occurs_in(file_key(files[j]), n)
                    },
            }
        }),
{
    let d = lowercased(description);
    let n = lowercased(name_words(name));
    let keys = file_keys(files);
    assert forall|j: int| 0 <= j < files.len() implies keys[j] == file_key(#[trigger] files[j]) by {}
    match found {
        Some(f) => {
            let i = choose|i: int| #[trigger]
                is_best_key(keys, d, n, Some(i)) && f == files[i];
            assert(f == files[i]);
            assert(keys[i] == file_key(files[i]));
            assert forall|j: int| 0 <= j < files.len() implies (file_key(#[trigger] files[j]) == d
                <==> keys[j] == d) && (file_key(files[j]) == n <==> keys[j] == n) by {}
        },
        None => {},
    }
}

} // verus!
