//! What a text that parses looks like: nothing is read as a migration that is not written as
//! one.
use crate::grammar::{
    assemble, body, comma_fields, field, field_end, field_value, file, find_field,
    header, hspace, is_test_directive, items, key_len, kv, lemma_field_len,
    lemma_key_len, lemma_migration_len, lemma_next_item_len, migration, more_items, next_item,
    quoted_char, quoted_chars, quoted_string, shebang, Block, FieldView,
};
use crate::grammar_format::{holds_no_directive, is_hblank};
use crate::search::{first_match, lemma_first_match};
use crate::text::{is_blank, is_key_char, lemma_trim_start_shape, trim, trim_start};
use crate::types::{body_checksum, MigrationView};
use vstd::prelude::*;

verus! {

// ---------------------------------------------------------------------------
// Strings
// ---------------------------------------------------------------------------

/// `w`, between quotes, spells `v`: `\"` and `\\` stand for the character behind the backslash,
/// and every other character but `"` for itself.
pub open spec fn spells(w: Seq<char>, v: Seq<char>) -> bool
    decreases w.len(),
{
    if w.len() == 0 {
        v.len() == 0
    } else if v.len() == 0 || w[0] == '"' || (w.len() == 1 && w[0] == '\\') {
        false
    } else if w[0] == '\\' && (w[1] == '"' || w[1] == '\\') {
        v[0] == w[1] && spells(w.skip(2), v.skip(1))
    } else {
        v[0] == w[0] && spells(w.skip(1), v.skip(1))
    }
}

/// A string in quotes, and what follows it.
pub open spec fn quoted_text(w: Seq<char>, rest: Seq<char>) -> Seq<char> {
    seq!['"'] + (w + (seq!['"'] + rest))
}

proof fn lemma_chars_shape(s: Seq<char>) -> (w: Seq<char>)
    requires
        quoted_chars(s).1.len() > 0,
    ensures
        s == w + quoted_chars(s).1,
        spells(w, quoted_chars(s).0),
        quoted_chars(s).1[0] == '"',
    decreases s.len(),
{
    match quoted_char(s) {
        Some((c, rest)) => {
            let v = lemma_chars_shape(rest);
            let (cs, end) = quoted_chars(rest);
            let value = seq![c] + cs;
            assert(value.skip(1) =~= cs);
            if s[0] == '\\' && s.len() >= 2 && (s[1] == '"' || s[1] == '\\') {
                let w = seq![s[0], s[1]] + v;
                assert(w.skip(2) =~= v);
                assert(rest == v + end);
                assert(s =~= seq![s[0], s[1]] + rest);
                assert(seq![s[0], s[1]] + (v + end) =~= w + end);
                w
            } else {
                let w = seq![s[0]] + v;
                assert(w.skip(1) =~= v);
                assert(rest == v + end);
                assert(s =~= seq![s[0]] + rest);
                assert(seq![s[0]] + (v + end) =~= w + end);
                if s[0] == '\\' {
                    // A backslash at the end would take the closing quote with it.
                    if v.len() == 0 {
                        assert(s[1] == end[0]);
                    } else {
                        assert(w[1] == s[1]);
                    }
                }
                w
            }
        },
        None => {
            let w = Seq::<char>::empty();
            assert(s =~= w + s);
            w
        },
    }
}

/// What is read as a string stands in quotes, and the text between them spells it.
pub proof fn law_quoted_string_shape(s: Seq<char>, v: Seq<char>, rest: Seq<char>) -> (w: Seq<char>)
    requires
        quoted_string(s) == Some((v, rest)),
    ensures
        s == quoted_text(w, rest),
        spells(w, v),
{
    let t = s.skip(1);
    let w = lemma_chars_shape(t);
    let end = quoted_chars(t).1;
    assert(end =~= seq!['"'] + rest);
    assert(s =~= seq!['"'] + t);
    w
}

// ---------------------------------------------------------------------------
// Values
// ---------------------------------------------------------------------------

/// A comma, with `b` and `c` around it, and a string in quotes, and what follows.
pub open spec fn item_text(b: Seq<char>, c: Seq<char>, w: Seq<char>, rest: Seq<char>) -> Seq<char> {
    b + (seq![','] + (c + quoted_text(w, rest)))
}

/// `t` is written as the items `vs` of a list behind its first, up to what `end` is.
pub open spec fn more_are_written(t: Seq<char>, vs: Seq<Seq<char>>, end: Seq<char>) -> bool
    decreases vs.len(),
{
    if vs.len() == 0 {
        t == end
    } else {
        exists|b: Seq<char>, c: Seq<char>, w: Seq<char>, rest: Seq<char>|
            {
                &&& t == #[trigger] item_text(b, c, w, rest)
                &&& is_blank(b)
                &&& is_blank(c)
                &&& spells(w, vs[0])
                &&& more_are_written(rest, vs.skip(1), end)
            }
    }
}

/// `t` is written as the items `vs` of a list, up to what `end` is.
pub open spec fn items_are_written(t: Seq<char>, vs: Seq<Seq<char>>, end: Seq<char>) -> bool {
    if vs.len() == 0 {
        t == end
    } else {
        exists|w: Seq<char>, rest: Seq<char>|
            {
                &&& t == #[trigger] quoted_text(w, rest)
                &&& spells(w, vs[0])
                &&& more_are_written(rest, vs.skip(1), end)
            }
    }
}

/// A bracket, with `b` behind it, and what follows.
pub open spec fn open_text(b: Seq<char>, rest: Seq<char>) -> Seq<char> {
    seq!['['] + (b + rest)
}

/// A closing bracket, with `b` ahead of it, and what follows.
pub open spec fn close_text(b: Seq<char>, rest: Seq<char>) -> Seq<char> {
    b + (seq![']'] + rest)
}

/// `t` is written as a value, and `rest` follows it: a string in quotes, or strings in quotes
/// in brackets, with commas between them.
pub open spec fn value_is_written(t: Seq<char>, value: FieldView, rest: Seq<char>) -> bool {
    match value {
        FieldView::Single(v) => exists|w: Seq<char>|
            t == #[trigger] quoted_text(w, rest) && spells(w, v),
        FieldView::Multi(vs) => exists|b: Seq<char>, c: Seq<char>, list: Seq<char>|
            {
                &&& t == #[trigger] open_text(b, list)
                &&& is_blank(b)
                &&& is_blank(c)
                &&& items_are_written(list, vs, #[trigger] close_text(c, rest))
            },
    }
}

/// The white space that is skipped.
spec fn skipped_space(s: Seq<char>) -> Seq<char> {
    s.take(s.len() - trim_start(s).len())
}

proof fn lemma_skipped(s: Seq<char>)
    ensures
        is_blank(skipped_space(s)),
        s == skipped_space(s) + trim_start(s),
{
    lemma_trim_start_shape(s);
}

proof fn lemma_literal_shape(s: Seq<char>, lit: Seq<char>, c: char)
    requires
        lit == seq![c],
        lit.is_prefix_of(s),
    ensures
        s == seq![c] + s.skip(1),
{
    assert(s.subrange(0, 1)[0] == s[0]);
    assert(s =~= seq![c] + s.skip(1));
}

proof fn lemma_more_shape(s: Seq<char>)
    ensures
        more_are_written(s, more_items(s).0, more_items(s).1),
    decreases s.len(),
{
    reveal_strlit(",");
    assert(","@ =~= seq![',']);
    match next_item(s) {
        Some((item, rest)) => {
            lemma_next_item_len(s);
            lemma_more_shape(rest);
            let (vs, end) = more_items(s);
            let t = trim_start(s);
            lemma_skipped(s);
            lemma_literal_shape(t, ","@, ',');
            let r = t.skip(1);
            lemma_skipped(r);
            let w = law_quoted_string_shape(trim_start(r), item, rest);
            assert(vs[0] == item);
            assert(vs.skip(1) =~= more_items(rest).0);
            assert(s == item_text(skipped_space(s), skipped_space(r), w, rest));
        },
        None => {},
    }
}

/// What is read as a value is written as one.
pub proof fn law_value_shape(s: Seq<char>, value: FieldView, rest: Seq<char>)
    requires
        field_value(s) == Some((value, rest)),
    ensures
        exists|b: Seq<char>, t: Seq<char>|
            s == #[trigger] (b + t) && is_blank(b) && value_is_written(t, value, rest),
{
    reveal_strlit("[");
    reveal_strlit("]");
    assert("["@ =~= seq!['[']);
    assert("]"@ =~= seq![']']);
    let t = trim_start(s);
    lemma_skipped(s);
    if "["@.is_prefix_of(t) {
        lemma_literal_shape(t, "["@, '[');
        let r = t.skip(1);
        lemma_skipped(r);
        let list = trim_start(r);
        let (vs, end) = items(list);
        lemma_skipped(end);
        lemma_literal_shape(trim_start(end), "]"@, ']');
        assert(end == close_text(skipped_space(end), rest));
        assert(t == open_text(skipped_space(r), list));
        match quoted_string(list) {
            Some((item, after)) => {
                let w = law_quoted_string_shape(list, item, after);
                lemma_more_shape(after);
                assert(vs[0] == item);
                assert(vs.skip(1) =~= more_items(after).0);
                assert(list == quoted_text(w, after));
            },
            None => {},
        }
        assert(items_are_written(list, vs, close_text(skipped_space(end), rest)));
        assert(value_is_written(t, value, rest));
    } else {
        match quoted_string(t) {
            Some((v, after)) => {
                let w = law_quoted_string_shape(t, v, after);
                assert(t == quoted_text(w, rest));
            },
            None => {},
        }
        assert(value_is_written(t, value, rest));
    }
    assert(s == skipped_space(s) + t);
}

// ---------------------------------------------------------------------------
// Fields and headers
// ---------------------------------------------------------------------------

/// A line up to a field's value: white space, `-- `, the key, the colon, with white space
/// around it, and what follows.
pub open spec fn key_text(
    before: Seq<char>,
    key: Seq<char>,
    b: Seq<char>,
    c: Seq<char>,
    rest: Seq<char>,
) -> Seq<char> {
    before + ("-- "@ + (key + (b + (seq![':'] + (c + rest)))))
}

/// What ends a field: `mark`, with `b` and `c` around it, a newline, and what follows.
pub open spec fn end_text(b: Seq<char>, mark: char, c: Seq<char>, rest: Seq<char>) -> Seq<char> {
    b + (seq![mark] + (c + (seq!['\n'] + rest)))
}

/// `s` is written as a field that `mark` ends, and `rest` follows it.
pub open spec fn field_is_written(
    s: Seq<char>,
    f: (Seq<char>, FieldView),
    mark: char,
    rest: Seq<char>,
) -> bool {
    &&& f.0.len() > 0
    &&& forall|i: int| 0 <= i < f.0.len() ==> is_key_char(#[trigger] f.0[i])
    &&& exists|
        before: Seq<char>,
        b: Seq<char>,
        c: Seq<char>,
        t: Seq<char>,
        x: Seq<char>,
        y: Seq<char>,
    |
        {
            &&& s == #[trigger] key_text(before, f.0, b, c, t)
            &&& is_blank(before) && is_blank(b) && is_blank(c)
            &&& is_hblank(x) && is_hblank(y)
            &&& value_is_written(t, f.1, #[trigger] end_text(x, mark, y, rest))
        }
}

/// `s` is written as a header, and `rest` follows it: a comma ends every field but the last,
/// which a semicolon ends.
pub open spec fn header_is_written(
    s: Seq<char>,
    fs: Seq<(Seq<char>, FieldView)>,
    rest: Seq<char>,
) -> bool
    decreases fs.len(),
{
    if fs.len() == 0 {
        false
    } else if fs.len() == 1 {
        field_is_written(s, fs[0], ';', rest)
    } else {
        exists|more: Seq<char>|
            #[trigger] field_is_written(s, fs[0], ',', more) && header_is_written(
                more,
                fs.skip(1),
                rest,
            )
    }
}

proof fn lemma_hspace_shape(s: Seq<char>) -> (b: Seq<char>)
    ensures
        s == b + hspace(s),
        is_hblank(b),
    decreases s.len(),
{
    if s.len() > 0 && (s[0] == ' ' || s[0] == '\t') {
        let more = lemma_hspace_shape(s.skip(1));
        let b = seq![s[0]] + more;
        assert(s =~= seq![s[0]] + s.skip(1));
        assert(seq![s[0]] + (more + hspace(s)) =~= b + hspace(s));
        assert forall|i: int| 0 <= i < b.len() implies #[trigger] b[i] == ' ' || b[i] == '\t' by {
            if i > 0 {
                assert(b[i] == more[i - 1]);
            }
        }
        b
    } else {
        let b = Seq::<char>::empty();
        assert(s =~= b + s);
        b
    }
}

proof fn lemma_end_shape(s: Seq<char>, mark: char, rest: Seq<char>)
    requires
        field_end(s, seq![mark]) == Some(rest),
    ensures
        exists|x: Seq<char>, y: Seq<char>|
            s == #[trigger] end_text(x, mark, y, rest) && is_hblank(x) && is_hblank(y),
{
    reveal_strlit("\n");
    assert("\n"@ =~= seq!['\n']);
    let x = lemma_hspace_shape(s);
    let t = hspace(s);
    lemma_literal_shape(t, seq![mark], mark);
    let r = t.skip(1);
    let y = lemma_hspace_shape(r);
    lemma_literal_shape(hspace(r), "\n"@, '\n');
    assert(s == end_text(x, mark, y, rest));
}

proof fn lemma_field_shape(
    s: Seq<char>,
    f: (Seq<char>, FieldView),
    lit: Seq<char>,
    mark: char,
    rest: Seq<char>,
)
    requires
        lit == seq![mark],
        field(s, lit) == Some((f, rest)),
    ensures
        field_is_written(s, f, mark, rest),
{
    reveal_strlit("-- ");
    reveal_strlit(":");
    assert(":"@ =~= seq![':']);
    let line = trim_start(s);
    lemma_skipped(s);
    let named = line.skip(3);
    assert(line.subrange(0, 3) =~= "-- "@);
    assert(line =~= "-- "@ + named) by {
        assert forall|i: int| 0 <= i < 3 implies line[i] == "-- "@[i] by {
            assert(line.subrange(0, 3)[i] == line[i]);
        }
    }
    let n = key_len(named) as int;
    lemma_key_len(named);
    let key = named.take(n);
    let after = named.skip(n);
    assert(named =~= key + after);
    lemma_skipped(after);
    let colon = trim_start(after);
    lemma_literal_shape(colon, ":"@, ':');
    let r2 = colon.skip(1);
    let r3 = kv(s).unwrap().1;
    assert(f.0 == key);
    law_value_shape(r2, f.1, r3);
    let (c, t) = choose|c: Seq<char>, t: Seq<char>|
        r2 == #[trigger] (c + t) && is_blank(c) && value_is_written(t, f.1, r3);
    lemma_end_shape(r3, mark, rest);
    let (x, y) = choose|x: Seq<char>, y: Seq<char>|
        r3 == #[trigger] end_text(x, mark, y, rest) && is_hblank(x) && is_hblank(y);
    assert(s == key_text(skipped_space(s), key, skipped_space(after), c, t));
    assert(value_is_written(t, f.1, end_text(x, mark, y, rest)));
    assert forall|i: int| 0 <= i < key.len() implies is_key_char(#[trigger] key[i]) by {
        assert(key[i] == named[i]);
    }
}

/// What is read as a header is written as one.
pub proof fn law_header_shape(
    s: Seq<char>,
    fs: Seq<(Seq<char>, FieldView)>,
    rest: Seq<char>,
)
    requires
        header(s) == Some((fs, rest)),
    ensures
        header_is_written(s, fs, rest),
    decreases s.len(),
{
    reveal_strlit(",");
    reveal_strlit(";");
    assert(","@ =~= seq![',']);
    assert(";"@ =~= seq![';']);
    match field(s, ","@) {
        Some((f, more)) => {
            lemma_field_len(s, ","@);
            lemma_field_shape(s, f, ","@, ',', more);
            let (cs, end) = comma_fields(more);
            let last = field(end, ";"@).unwrap().0;
            assert(header(more) == Some((cs.push(last), rest)));
            assert(fs =~= seq![f] + cs.push(last));
            assert(fs.skip(1) =~= cs.push(last));
            law_header_shape(more, cs.push(last), rest);
            assert(fs[0] == f && fs.len() > 1);
            assert(field_is_written(s, fs[0], ',', more));
            assert(header_is_written(more, fs.skip(1), rest));
        },
        None => {
            let last = field(s, ";"@).unwrap().0;
            assert(fs =~= seq![last]);
            assert(fs[0] == last && fs.len() == 1);
            lemma_field_shape(s, last, ";"@, ';', rest);
        },
    }
}

// ---------------------------------------------------------------------------
// Files
// ---------------------------------------------------------------------------

/// A body is all the text up to the next line that starts with a directive, or to the end, but
/// for white space around it.
pub proof fn law_body_shape(s: Seq<char>) -> (text: Seq<char>)
    ensures
        s == text + body(s).1,
        body(s).0 == trim(text),
        holds_no_directive(text),
        body(s).1.len() > 0 ==> "\n-- #!"@.is_prefix_of(body(s).1) || (text.len() == 0
            && "-- #!"@.is_prefix_of(s)),
{
    reveal_strlit("\n");
    reveal_strlit("-- #!");
    reveal_strlit("\n-- #!");
    let mark = "\n-- #!"@;
    let nl = "\n"@ + s;
    lemma_first_match(nl, mark);
    let text = match first_match(nl, mark) {
        Some(k) => if k == 0 {
            Seq::<char>::empty()
        } else {
            s.take(k - 1)
        },
        None => s,
    };
    let n = text.len() as int;
    assert(trim(Seq::<char>::empty()) =~= Seq::<char>::empty());
    assert(s =~= text + body(s).1);
    assert forall|j: int|
        0 <= j <= n && (j == 0 || text[j - 1] == '\n') implies !"-- #!"@.is_prefix_of(
        #[trigger] text.skip(j),
    ) by {
        if "-- #!"@.is_prefix_of(text.skip(j)) {
            assert forall|x: int| 0 <= x < 6 implies nl.skip(j).subrange(0, 6)[x] == mark[x] by {
                if x > 0 {
                    assert(text.skip(j).subrange(0, 5)[x - 1] == "-- #!"@[x - 1]);
                    assert(nl[j + x] == s[j + x - 1]);
                    assert(s[j + x - 1] == text[j + x - 1]);
                } else if j > 0 {
                    assert(nl[j] == s[j - 1]);
                    assert(s[j - 1] == text[j - 1]);
                }
            }
            assert(nl.skip(j).subrange(0, 6) =~= mark);
            assert(mark.is_prefix_of(nl.skip(j)));
        }
    }
    match first_match(nl, mark) {
        Some(m) => {
            let k = m as int;
            if k > 0 {
                assert(nl.skip(k) =~= s.skip(k - 1));
            } else {
                assert(nl.skip(0).subrange(0, 6) =~= mark);
                assert forall|x: int| 0 <= x < 5 implies s.subrange(0, 5)[x] == "-- #!"@[x] by {
                    assert(nl.skip(0).subrange(0, 6)[x + 1] == nl[x + 1]);
                    assert(nl[x + 1] == s[x]);
                }
                assert(s.subrange(0, 5) =~= "-- #!"@);
            }
        },
        None => {},
    }
    text
}

/// The first of `fs` whose key is `key` stands at `i`.
pub open spec fn first_keyed(fs: Seq<(Seq<char>, FieldView)>, key: Seq<char>, i: int) -> bool {
    &&& 0 <= i < fs.len()
    &&& fs[i].0 == key
    &&& forall|j: int| 0 <= j < i ==> (#[trigger] fs[j]).0 != key
}

proof fn lemma_found(fs: Seq<(Seq<char>, FieldView)>, key: Seq<char>)
    ensures
        match find_field(fs, key) {
            Some(v) => exists|i: int| #[trigger] first_keyed(fs, key, i) && fs[i].1 == v,
            None => forall|j: int| 0 <= j < fs.len() ==> (#[trigger] fs[j]).0 != key,
        },
    decreases fs.len(),
{
    if fs.len() > 0 {
        if fs[0].0 == key {
            assert(first_keyed(fs, key, 0));
        } else {
            let more = fs.skip(1);
            lemma_found(more, key);
            match find_field(more, key) {
                Some(v) => {
                    let i = choose|i: int| #[trigger] first_keyed(more, key, i) && more[i].1 == v;
                    assert forall|j: int| 0 <= j < i + 1 implies (#[trigger] fs[j]).0 != key by {
                        if j > 0 {
                            assert(more[j - 1].0 != key);
                        }
                    }
                    assert(first_keyed(fs, key, i + 1));
                },
                None => {
                    assert forall|j: int| 0 <= j < fs.len() implies (#[trigger] fs[j]).0 != key by {
                        if j > 0 {
                            assert(more[j - 1].0 != key);
                        }
                    }
                },
            }
        }
    }
}

/// The migration `m` is what the fields `fs` and the text `text` behind them say.
pub open spec fn says(
    fs: Seq<(Seq<char>, FieldView)>,
    text: Seq<char>,
    m: MigrationView,
) -> bool {
    &&& exists|i: int| #[trigger]
        first_keyed(fs, "name"@, i) && fs[i].1 == FieldView::Single(m.name)
    &&& exists|i: int| #[trigger]
        first_keyed(fs, "description"@, i) && fs[i].1 == FieldView::Single(m.description)
    &&& {
        ||| m.requires.len() == 0 && forall|j: int|
            0 <= j < fs.len() ==> (#[trigger] fs[j]).0 != "requires"@
        ||| exists|i: int| #[trigger]
            first_keyed(fs, "requires"@, i) && (fs[i].1 == FieldView::Multi(m.requires) || (
            m.requires.len() == 1 && fs[i].1 == FieldView::Single(m.requires[0])))
    }
    &&& m.script == trim(text)
    &&& m.checksum == body_checksum(m.script)
}

/// A block: the directive, the header, the text behind it, and what follows.
pub open spec fn block_text(ahead: Seq<char>, header: Seq<char>) -> Seq<char> {
    ahead + ("-- #!migration"@ + header)
}

/// `s` is written as the migrations `ms`, one block after the other and nothing else behind
/// them: ahead of each directive stands text that holds none, the header is written as one, and
/// the text behind it up to the next directive is the script.
pub open spec fn file_is_written(s: Seq<char>, ms: Seq<MigrationView>) -> bool
    decreases ms.len(),
{
    if ms.len() == 0 {
        s.len() == 0
    } else {
        exists|
            ahead: Seq<char>,
            header: Seq<char>,
            fs: Seq<(Seq<char>, FieldView)>,
            text: Seq<char>,
            rest: Seq<char>,
        |
            {
                &&& s == #[trigger] block_text(ahead, header)
                &&& forall|j: int|
                    0 <= j < ahead.len() ==> !"-- #!migration"@.is_prefix_of(#[trigger] s.skip(j))
                &&& forall|j: int|
                    0 <= j < ahead.len() && (j == 0 || s[j - 1] == '\n')
                        && "-- #!test"@.is_prefix_of(#[trigger] s.skip(j)) ==> j + 9 < s.len()
                        && is_key_char(s[j + 9])
                &&& #[trigger] header_is_written(header, fs, text + rest)
                &&& says(fs, text, ms[0])
                &&& holds_no_directive(text)
                &&& rest.len() > 0 ==> "\n-- #!"@.is_prefix_of(rest) || (text.len() == 0
                    && "-- #!"@.is_prefix_of(rest))
                &&& file_is_written(rest, ms.skip(1))
            }
    }
}

proof fn lemma_says(fs: Seq<(Seq<char>, FieldView)>, text: Seq<char>, m: MigrationView)
    requires
        assemble(fs, trim(text)) == Some(m),
    ensures
        says(fs, text, m),
{
    lemma_found(fs, "name"@);
    lemma_found(fs, "description"@);
    lemma_found(fs, "requires"@);
    match find_field(fs, "requires"@) {
        Some(v) => {
            let i = choose|i: int| #[trigger] first_keyed(fs, "requires"@, i) && fs[i].1 == v;
            match v {
                FieldView::Single(n) => {
                    assert(m.requires == seq![n]);
                },
                FieldView::Multi(ns) => {},
            }
        },
        None => {},
    }
}

/// A text that parses is written as what it parses as.
pub proof fn law_file_shape(s: Seq<char>, ms: Seq<MigrationView>)
    requires
        file(s) == Ok::<Seq<MigrationView>, nat>(ms),
    ensures
        file_is_written(s, ms),
    decreases s.len(),
{
    if s.len() > 0 {
        match migration(s) {
            Block::Complete(m, rest) => {
                lemma_migration_len(s);
                let more = file(rest)->Ok_0;
                assert(ms == seq![m] + more);
                assert(ms[0] == m);
                assert(ms.skip(1) =~= more);
                law_file_shape(rest, more);
                let mark = "-- #!migration"@;
                lemma_first_match(s, mark);
                let k = first_match(s, mark)->0 as int;
                let ahead = s.take(k);
                let r = shebang(s)->0;
                assert(s =~= ahead + (mark + r)) by {
                    let t = s.skip(k);
                    assert(t.subrange(0, mark.len() as int) =~= mark);
                    assert(t =~= mark + r) by {
                        assert forall|i: int| 0 <= i < mark.len() implies t[i] == mark[i] by {
                            assert(t.subrange(0, mark.len() as int)[i] == t[i]);
                        }
                    }
                    assert(s =~= ahead + t);
                }
                assert(s == block_text(ahead, r));
                assert forall|j: int|
                    0 <= j < ahead.len() && (j == 0 || s[j - 1] == '\n')
                        && "-- #!test"@.is_prefix_of(#[trigger] s.skip(j)) implies j + 9 < s.len()
                    && is_key_char(s[j + 9]) by {
                    assert(!is_test_directive(s, j));
                }
                let (fs, r2) = header(r)->0;
                law_header_shape(r, fs, r2);
                let text = law_body_shape(r2);
                lemma_says(fs, text, m);
                assert(header_is_written(r, fs, text + rest));
                if rest.len() > 0 && text.len() == 0 {
                    assert(r2 =~= rest);
                }
                assert(file_is_written(rest, ms.skip(1)));
            },
            _ => {},
        }
    }
}

/// A directive behind which no header is written makes a file invalid at that directive.
pub proof fn law_malformed_header_is_rejected(s: Seq<char>)
    requires
        "-- #!migration"@.is_prefix_of(s),
        forall|fs: Seq<(Seq<char>, FieldView)>, rest: Seq<char>|
            !#[trigger] header_is_written(s.skip("-- #!migration"@.len() as int), fs, rest),
    ensures
        file(s) == Err::<Seq<MigrationView>, nat>(s.len()),
{
    reveal_strlit("-- #!migration");
    let r = s.skip("-- #!migration"@.len() as int);
    assert(first_match(s, "-- #!migration"@) == Some(0nat));
    assert(s.skip(0) =~= s);
    assert(shebang(s) == Some(r));
    match header(r) {
        Some((fs, rest)) => {
            law_header_shape(r, fs, rest);
        },
        None => {},
    }
}

} // verus!
