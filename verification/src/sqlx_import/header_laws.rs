//! What the parser makes of a file that was given a header: the migration that the header and
//! the body describe.
use super::header::{header_text, in_quotes, requires_value, shown_description};
use crate::grammar::{
    assemble, body, comma_fields, comment_prefix, field, field_end, field_value, file, find_field,
    header, hspace, items, key_len, kv, migration, more_items, next_item, quoted_chars,
    quoted_string, required_names, shebang, Block, FieldView,
};
use crate::grammar_format::{holds_no_directive, law_body_reaches_to_the_end};
use crate::render::join;
use crate::search::{first_match, lemma_first_match, occurs_in};
use crate::text::{
    is_blank, is_key_char, is_whitespace, lemma_trim_start_pad, trim, trim_start,
};
use crate::types::{body_checksum, MigrationView};
use vstd::prelude::*;
use vstd::string::*;

verus! {

// ---------------------------------------------------------------------------
// Quoted strings
// ---------------------------------------------------------------------------

/// A text that a header can hold as it is: it holds no `"`, no two backslashes in a row, and
/// no backslash at its end.
pub open spec fn quotable(s: Seq<char>) -> bool {
    forall|i: int|
        0 <= i < s.len() ==> (#[trigger] s[i]) != '"' && (s[i] == '\\' ==> i + 1 < s.len()
            && s[i + 1] != '\\')
}

/// The characters of a quotable text are read as they stand.
proof fn lemma_read_quotable(s: Seq<char>, rest: Seq<char>)
    requires
        quotable(s),
        rest.len() > 0,
        rest[0] == '"',
    ensures
        quoted_chars(s + rest) == (s, rest),
    decreases s.len(),
{
    let t = s + rest;
    if s.len() == 0 {
        assert(t =~= rest);
        assert(s =~= Seq::<char>::empty());
    } else {
        let more = s.skip(1);
        assert(s[0] != '"');
        if s[0] == '\\' {
            assert(s[1] != '"');
            assert(t[1] == s[1]);
        }
        assert(t[0] == s[0]);
        assert forall|i: int| 0 <= i < more.len() implies (#[trigger] more[i]) != '"' && (more[i]
            == '\\' ==> i + 1 < more.len() && more[i + 1] != '\\') by {
            assert(more[i] == s[i + 1]);
        }
        lemma_read_quotable(more, rest);
        assert(t.skip(1) =~= more + rest);
        assert(seq![s[0]] + more =~= s);
    }
}

/// A quotable text in quotes is read as that text.
proof fn lemma_read_quoted(s: Seq<char>, rest: Seq<char>)
    requires
        quotable(s),
    ensures
        quoted_string(in_quotes(s) + rest) == Some((s, rest)),
{
    reveal_strlit("\"");
    let t = in_quotes(s) + rest;
    let end = seq!['"'] + rest;
    lemma_read_quotable(s, end);
    assert(t[0] == '"');
    assert(t.skip(1) =~= s + end);
    assert(end.skip(1) =~= rest);
}

// ---------------------------------------------------------------------------
// Field values
// ---------------------------------------------------------------------------

/// Text that starts with no white space has none to skip.
proof fn lemma_no_leading_space(s: Seq<char>)
    requires
        s.len() > 0,
        !is_whitespace(s[0]),
    ensures
        trim_start(s) == s,
        trim_start(seq![' '] + s) == s,
{
    assert(is_blank(seq![' ']));
    lemma_trim_start_pad(seq![' '], s);
}

/// The value of a field that holds one string.
proof fn lemma_single_value(s: Seq<char>, rest: Seq<char>)
    requires
        quotable(s),
    ensures
        field_value(seq![' '] + (in_quotes(s) + rest)) == Some((FieldView::Single(s), rest)),
{
    reveal_strlit("\"");
    reveal_strlit("[");
    let t = in_quotes(s) + rest;
    assert(t[0] == '"');
    lemma_no_leading_space(t);
    lemma_read_quoted(s, rest);
    assert(t.subrange(0, 1)[0] == '"');
    assert(!"["@.is_prefix_of(t));
}

/// The items of a list after the first, as they are written.
spec fn written_tail(parts: Seq<Seq<char>>) -> Seq<char>
    decreases parts.len(),
{
    if parts.len() == 0 {
        seq![]
    } else {
        ", "@ + in_quotes(parts[0]) + written_tail(parts.skip(1))
    }
}

/// A written tail, taken from its end.
proof fn lemma_written_tail_push(parts: Seq<Seq<char>>, p: Seq<char>)
    ensures
        written_tail(parts.push(p)) == written_tail(parts) + ", "@ + in_quotes(p),
    decreases parts.len(),
{
    if parts.len() == 0 {
        assert(parts.push(p).skip(1) =~= Seq::<Seq<char>>::empty());
        assert(parts.push(p)[0] == p);
        assert(written_tail(parts) =~= Seq::<char>::empty());
        assert(written_tail(Seq::<Seq<char>>::empty()) =~= Seq::<char>::empty());
        assert(written_tail(parts.push(p)) =~= written_tail(parts) + ", "@ + in_quotes(p));
    } else {
        let more = parts.skip(1);
        lemma_written_tail_push(more, p);
        assert(parts.push(p).skip(1) =~= more.push(p));
        assert(parts.push(p)[0] == parts[0]);
        assert(written_tail(parts.push(p)) =~= written_tail(parts) + ", "@ + in_quotes(p));
    }
}

/// A list, taken from its front.
proof fn lemma_join_front(parts: Seq<Seq<char>>)
    requires
        parts.len() > 0,
    ensures
        join(parts.map_values(|r: Seq<char>| in_quotes(r)), ", "@) == in_quotes(parts[0])
            + written_tail(parts.skip(1)),
    decreases parts.len(),
{
    let quoted = parts.map_values(|r: Seq<char>| in_quotes(r));
    if parts.len() == 1 {
        assert(parts.skip(1) =~= Seq::<Seq<char>>::empty());
        assert(quoted[0] + Seq::<char>::empty() =~= quoted[0]);
    } else {
        let front = parts.drop_last();
        lemma_join_front(front);
        assert(quoted.drop_last() =~= front.map_values(|r: Seq<char>| in_quotes(r)));
        lemma_written_tail_push(front.skip(1), parts.last());
        assert(front.skip(1).push(parts.last()) =~= parts.skip(1));
        assert(join(quoted, ", "@) =~= in_quotes(parts[0]) + written_tail(parts.skip(1)));
    }
}

/// Reading the items of a list after the first.
proof fn lemma_more_items(parts: Seq<Seq<char>>, rest: Seq<char>)
    requires
        forall|i: int| 0 <= i < parts.len() ==> quotable(#[trigger] parts[i]),
        rest.len() > 0,
        rest[0] == ']',
    ensures
        more_items(written_tail(parts) + rest) == (parts, rest),
    decreases parts.len(),
{
    reveal_strlit(", ");
    reveal_strlit(",");
    reveal_strlit("\"");
    let t = written_tail(parts) + rest;
    if parts.len() == 0 {
        assert(t =~= rest);
        lemma_no_leading_space(rest);
        assert(rest.subrange(0, 1)[0] == ']');
        assert(!","@.is_prefix_of(rest));
        assert(parts =~= Seq::<Seq<char>>::empty());
    } else {
        let more = parts.skip(1);
        let after = written_tail(more) + rest;
        let quoted = in_quotes(parts[0]) + after;
        assert(quotable(parts[0]));
        assert(t =~= seq![',', ' '] + quoted);
        lemma_no_leading_space(t);
        assert(t.subrange(0, 1) =~= ","@);
        assert(t.skip(1) =~= seq![' '] + quoted);
        assert(quoted[0] == '"');
        lemma_no_leading_space(quoted);
        lemma_read_quoted(parts[0], after);
        assert(next_item(t) == Some((parts[0], after)));
        assert forall|i: int| 0 <= i < more.len() implies quotable(#[trigger] more[i]) by {
            assert(more[i] == parts[i + 1]);
        }
        lemma_more_items(more, rest);
        assert(seq![parts[0]] + more =~= parts);
    }
}

/// The value of a field that holds a list.
proof fn lemma_list_value(parts: Seq<Seq<char>>, rest: Seq<char>)
    requires
        parts.len() > 0,
        forall|i: int| 0 <= i < parts.len() ==> quotable(#[trigger] parts[i]),
    ensures
        field_value(
            seq![' '] + ("["@ + join(parts.map_values(|r: Seq<char>| in_quotes(r)), ", "@) + "]"@
                + rest),
        ) == Some((FieldView::Multi(parts), rest)),
{
    reveal_strlit("[");
    reveal_strlit("]");
    reveal_strlit("\"");
    let listed = join(parts.map_values(|r: Seq<char>| in_quotes(r)), ", "@);
    let t = "["@ + listed + "]"@ + rest;
    let close = seq![']'] + rest;
    let more = parts.skip(1);
    let after = written_tail(more) + close;
    let inner = in_quotes(parts[0]) + after;
    lemma_join_front(parts);
    assert(quotable(parts[0]));
    assert(t[0] == '[');
    lemma_no_leading_space(t);
    assert(t.subrange(0, 1) =~= "["@);
    assert(t.skip(1) =~= inner);
    assert(inner[0] == '"');
    lemma_no_leading_space(inner);
    lemma_read_quoted(parts[0], after);
    assert forall|i: int| 0 <= i < more.len() implies quotable(#[trigger] more[i]) by {
        assert(more[i] == parts[i + 1]);
    }
    lemma_more_items(more, close);
    assert(seq![parts[0]] + more =~= parts);
    assert(items(inner) == (parts, close));
    lemma_no_leading_space(close);
    assert(close.subrange(0, 1) =~= "]"@);
    assert(close.skip(1) =~= rest);
}

/// The value of a `requires` field.
spec fn requires_field(needed: Seq<Seq<char>>) -> FieldView {
    if needed.len() == 1 {
        FieldView::Single(needed[0])
    } else {
        FieldView::Multi(needed)
    }
}

proof fn lemma_requires_value(needed: Seq<Seq<char>>, rest: Seq<char>)
    requires
        needed.len() > 0,
        forall|i: int| 0 <= i < needed.len() ==> quotable(#[trigger] needed[i]),
    ensures
        field_value(seq![' '] + (requires_value(needed) + rest)) == Some(
            (requires_field(needed), rest),
        ),
{
    assert(quotable(needed[0]));
    if needed.len() == 1 {
        lemma_single_value(needed[0], rest);
    } else {
        lemma_list_value(needed, rest);
    }
}

// ---------------------------------------------------------------------------
// Fields
// ---------------------------------------------------------------------------

/// A key is read up to what follows it.
proof fn lemma_key_len_of(key: Seq<char>, rest: Seq<char>)
    requires
        forall|i: int| 0 <= i < key.len() ==> is_key_char(#[trigger] key[i]),
        rest.len() == 0 || !is_key_char(rest[0]),
    ensures
        key_len(key + rest) == key.len(),
    decreases key.len(),
{
    let t = key + rest;
    if key.len() == 0 {
        assert(t =~= rest);
    } else {
        let more = key.skip(1);
        assert(is_key_char(key[0]));
        assert forall|i: int| 0 <= i < more.len() implies is_key_char(#[trigger] more[i]) by {
            assert(more[i] == key[i + 1]);
        }
        lemma_key_len_of(more, rest);
        assert(t.skip(1) =~= more + rest);
    }
}

/// A field that starts a line, up to its value.
proof fn lemma_kv(
    before: Seq<char>,
    key: Seq<char>,
    text: Seq<char>,
    value: FieldView,
    rest: Seq<char>,
)
    requires
        is_blank(before),
        key.len() > 0,
        forall|i: int| 0 <= i < key.len() ==> is_key_char(#[trigger] key[i]),
        field_value(seq![' '] + text) == Some((value, rest)),
    ensures
        kv(before + (seq!['-', '-', ' '] + (key + (seq![':', ' '] + text)))) == Some(
            ((key, value), rest),
        ),
{
    reveal_strlit("-- ");
    reveal_strlit(":");
    let colon = seq![':', ' '] + text;
    let named = key + colon;
    let line = seq!['-', '-', ' '] + named;
    lemma_trim_start_pad(before, line);
    lemma_no_leading_space(line);
    assert(line.subrange(0, 3) =~= "-- "@);
    assert(line.skip(3) =~= named);
    assert(comment_prefix(before + line) == Some(named));
    lemma_key_len_of(key, colon);
    let n = key.len() as int;
    assert(named.skip(n) =~= colon);
    assert(named.take(n) =~= key);
    lemma_no_leading_space(colon);
    assert(colon.subrange(0, 1) =~= ":"@);
    assert(colon.skip(1) =~= seq![' '] + text);
}

/// What ends a field is read as what it is, and as nothing else.
proof fn lemma_field_end(mark: char, other: char, rest: Seq<char>)
    requires
        mark != ' ',
        mark != '\t',
        mark != other,
    ensures
        field_end(seq![mark, '\n'] + rest, seq![mark]) == Some(rest),
        field_end(seq![mark, '\n'] + rest, seq![other]) is None,
{
    reveal_strlit("\n");
    let t = seq![mark, '\n'] + rest;
    assert(hspace(t) == t);
    assert(t.subrange(0, 1) =~= seq![mark]);
    assert(t.subrange(0, 1)[0] != seq![other][0]);
    let u = t.skip(1);
    assert(u =~= seq!['\n'] + rest);
    assert(hspace(u) == u);
    assert(u.subrange(0, 1) =~= "\n"@);
    assert(u.skip(1) =~= rest);
}

/// A field with what ends it.
spec fn written_field(
    before: Seq<char>,
    key: Seq<char>,
    value: Seq<char>,
    mark: char,
    rest: Seq<char>,
) -> Seq<char> {
    before + (seq!['-', '-', ' '] + (key + (seq![':', ' '] + (value + (seq![mark, '\n'] + rest)))))
}

/// A field that a comma ends is read as one that a comma ends; one that a semicolon ends is not.
proof fn lemma_field(
    before: Seq<char>,
    key: Seq<char>,
    text: Seq<char>,
    value: FieldView,
    mark: char,
    rest: Seq<char>,
)
    requires
        is_blank(before),
        key.len() > 0,
        forall|i: int| 0 <= i < key.len() ==> is_key_char(#[trigger] key[i]),
        mark == ',' || mark == ';',
        field_value(seq![' '] + (text + (seq![mark, '\n'] + rest))) == Some(
            (value, seq![mark, '\n'] + rest),
        ),
    ensures
        ({
            let s = written_field(before, key, text, mark, rest);
            &&& mark == ',' ==> field(s, ","@) == Some(((key, value), rest))
            &&& mark == ';' ==> field(s, ";"@) == Some(((key, value), rest))
            &&& mark == ';' ==> field(s, ","@) is None
        }),
{
    reveal_strlit(",");
    reveal_strlit(";");
    assert(","@ =~= seq![',']);
    assert(";"@ =~= seq![';']);
    lemma_kv(
        before,
        key,
        text + (seq![mark, '\n'] + rest),
        value,
        seq![mark, '\n'] + rest,
    );
    if mark == ',' {
        lemma_field_end(',', ';', rest);
    } else {
        lemma_field_end(';', ',', rest);
    }
}

// ---------------------------------------------------------------------------
// The header
// ---------------------------------------------------------------------------

/// The keys of a header are keys.
proof fn lemma_keys()
    ensures
        "name"@.len() == 4,
        "description"@.len() == 11,
        "requires"@.len() == 8,
        forall|i: int| 0 <= i < 4 ==> is_key_char(#[trigger] "name"@[i]),
        forall|i: int| 0 <= i < 11 ==> is_key_char(#[trigger] "description"@[i]),
        forall|i: int| 0 <= i < 8 ==> is_key_char(#[trigger] "requires"@[i]),
{
    reveal_strlit("name");
    reveal_strlit("description");
    reveal_strlit("requires");
}

/// The fields of a header.
spec fn header_fields(
    name: Seq<char>,
    description: Seq<char>,
    needed: Seq<Seq<char>>,
) -> Seq<(Seq<char>, FieldView)> {
    let both = seq![
        ("name"@, FieldView::Single(name)),
        ("description"@, FieldView::Single(description)),
    ];
    if needed.len() == 0 {
        both
    } else {
        both.push(("requires"@, requires_field(needed)))
    }
}

/// The lines of a header behind the first, as fields, with what follows them.
spec fn header_lines(
    name: Seq<char>,
    description: Seq<char>,
    needed: Seq<Seq<char>>,
    rest: Seq<char>,
) -> Seq<char> {
    let none = Seq::<char>::empty();
    let last = if needed.len() == 0 {
        written_field(none, "description"@, in_quotes(description), ';', rest)
    } else {
        written_field(
            none,
            "description"@,
            in_quotes(description),
            ',',
            written_field(none, "requires"@, requires_value(needed), ';', rest),
        )
    };
    written_field(seq!['\n'], "name"@, in_quotes(name), ',', last)
}

/// The lines of a header are read as its fields.
proof fn lemma_read_header_lines(
    name: Seq<char>,
    description: Seq<char>,
    needed: Seq<Seq<char>>,
    rest: Seq<char>,
)
    requires
        quotable(name),
        quotable(description),
        forall|i: int| 0 <= i < needed.len() ==> quotable(#[trigger] needed[i]),
    ensures
        header(header_lines(name, description, needed, rest)) == Some(
            (header_fields(name, description, needed), rest),
        ),
{
    lemma_keys();
    let none = Seq::<char>::empty();
    let name_field = ("name"@, FieldView::Single(name));
    let description_field = ("description"@, FieldView::Single(description));
    let s = header_lines(name, description, needed, rest);
    if needed.len() == 0 {
        let last = written_field(none, "description"@, in_quotes(description), ';', rest);
        lemma_single_value(description, seq![';', '\n'] + rest);
        lemma_field(none, "description"@, in_quotes(description), description_field.1, ';', rest);
        lemma_single_value(name, seq![',', '\n'] + last);
        lemma_field(seq!['\n'], "name"@, in_quotes(name), name_field.1, ',', last);
        assert(comma_fields(last) == (Seq::<(Seq<char>, FieldView)>::empty(), last));
        assert(comma_fields(s) == (seq![name_field] + Seq::<(Seq<char>, FieldView)>::empty(), last));
        assert((seq![name_field] + Seq::<(Seq<char>, FieldView)>::empty()).push(description_field)
            =~= header_fields(name, description, needed));
    } else {
        let last = written_field(none, "requires"@, requires_value(needed), ';', rest);
        let middle = written_field(none, "description"@, in_quotes(description), ',', last);
        let requires_part = ("requires"@, requires_field(needed));
        lemma_requires_value(needed, seq![';', '\n'] + rest);
        lemma_field(none, "requires"@, requires_value(needed), requires_part.1, ';', rest);
        lemma_single_value(description, seq![',', '\n'] + last);
        lemma_field(none, "description"@, in_quotes(description), description_field.1, ',', last);
        lemma_single_value(name, seq![',', '\n'] + middle);
        lemma_field(seq!['\n'], "name"@, in_quotes(name), name_field.1, ',', middle);
        let empty = Seq::<(Seq<char>, FieldView)>::empty();
        assert(comma_fields(last) == (empty, last));
        assert(comma_fields(middle) == (seq![description_field] + empty, last));
        assert(comma_fields(s) == (seq![name_field] + (seq![description_field] + empty), last));
        assert((seq![name_field] + (seq![description_field] + empty)).push(requires_part)
            =~= header_fields(name, description, needed));
    }
}

/// What the fields of a header make.
proof fn lemma_assemble(
    name: Seq<char>,
    description: Seq<char>,
    needed: Seq<Seq<char>>,
    script: Seq<char>,
)
    ensures
        assemble(header_fields(name, description, needed), script) == Some(
            MigrationView {
                name,
                description,
                requires: needed,
                script,
                checksum: body_checksum(script),
            },
        ),
{
    reveal_strlit("name");
    reveal_strlit("description");
    reveal_strlit("requires");
    let fields = header_fields(name, description, needed);
    let rest = fields.skip(1);
    let last = rest.skip(1);
    assert("name"@.len() != "description"@.len());
    assert("name"@.len() != "requires"@.len());
    assert("description"@.len() != "requires"@.len());
    assert(fields[0] == ("name"@, FieldView::Single(name)));
    assert(rest[0] == ("description"@, FieldView::Single(description)));
    assert(find_field(fields, "name"@) == Some(FieldView::Single(name)));
    assert(find_field(rest, "description"@) == Some(FieldView::Single(description)));
    assert(find_field(fields, "description"@) == Some(FieldView::Single(description)));
    assert(find_field(fields, "requires"@) == find_field(rest, "requires"@));
    assert(find_field(rest, "requires"@) == find_field(last, "requires"@));
    if needed.len() == 0 {
        assert(last.len() == 0);
        assert(needed =~= required_names(None));
    } else {
        assert(last[0] == ("requires"@, requires_field(needed)));
        assert(find_field(last, "requires"@) == Some(requires_field(needed)));
        assert(needed =~= required_names(Some(requires_field(needed))));
    }
}

proof fn lemma_assoc(a: Seq<char>, b: Seq<char>, c: Seq<char>)
    ensures
        a + b + c == a + (b + c),
{
    assert(a + b + c =~= a + (b + c));
}

/// The fixed parts of a header, taken apart.
proof fn lemma_header_parts()
    ensures
        "-- #!migration\n-- name: "@ == "-- #!migration"@ + (seq!['\n'] + (seq!['-', '-', ' '] + (
        "name"@ + seq![':', ' ']))),
        ",\n-- description: "@ == seq![',', '\n'] + (seq!['-', '-', ' '] + ("description"@ + seq![
            ':',
            ' ',
        ])),
        ",\n-- requires: "@ == seq![',', '\n'] + (seq!['-', '-', ' '] + ("requires"@ + seq![
            ':',
            ' ',
        ])),
        ";"@ + "\n"@ == seq![';', '\n'],
{
    reveal_strlit("-- #!migration\n-- name: ");
    reveal_strlit(",\n-- description: ");
    reveal_strlit(",\n-- requires: ");
    reveal_strlit("-- #!migration");
    reveal_strlit("name");
    reveal_strlit("description");
    reveal_strlit("requires");
    reveal_strlit("\n");
    reveal_strlit(";");
    assert("-- #!migration\n-- name: "@ =~= "-- #!migration"@ + (seq!['\n'] + (seq!['-', '-', ' ']
        + ("name"@ + seq![':', ' ']))));
    assert(",\n-- description: "@ =~= seq![',', '\n'] + (seq!['-', '-', ' '] + ("description"@
        + seq![':', ' '])));
    assert(",\n-- requires: "@ =~= seq![',', '\n'] + (seq!['-', '-', ' '] + ("requires"@ + seq![
        ':',
        ' ',
    ])));
    assert(";"@ + "\n"@ =~= seq![';', '\n']);
}

/// A line's fixed part and what follows it.
proof fn lemma_line(before: Seq<char>, key: Seq<char>, text: Seq<char>)
    ensures
        before + (seq!['-', '-', ' '] + (key + seq![':', ' '])) + text == before + (seq![
            '-',
            '-',
            ' ',
        ] + (key + (seq![':', ' '] + text))),
{
    let dash = seq!['-', '-', ' '];
    let colon = seq![':', ' '];
    lemma_assoc(before, dash + (key + colon), text);
    lemma_assoc(dash, key + colon, text);
    lemma_assoc(key, colon, text);
}

/// The text of a header is its first line and its fields.
proof fn lemma_header_text(
    name: Seq<char>,
    description: Seq<char>,
    needed: Seq<Seq<char>>,
    rest: Seq<char>,
)
    ensures
        header_text(name, description, needed) + "\n"@ + rest == "-- #!migration"@ + header_lines(
            name,
            shown_description(name, description),
            needed,
            rest,
        ),
{
    lemma_header_parts();
    let none = Seq::<char>::empty();
    let dash = seq!['-', '-', ' '];
    let colon = seq![':', ' '];
    let comma = seq![',', '\n'];
    let d = shown_description(name, description);
    let mark = "-- #!migration"@;
    let l0 = "-- #!migration\n-- name: "@;
    let l1 = ",\n-- description: "@;
    let l2 = ",\n-- requires: "@;
    let q = in_quotes(name);
    let qd = in_quotes(d);
    let rv = requires_value(needed);
    let end = seq![';', '\n'] + rest;
    let front = l0 + q + l1 + qd;
    // What follows the description's value.
    let after = if needed.len() == 0 {
        end
    } else {
        comma + written_field(none, "requires"@, rv, ';', rest)
    };
    assert(header_text(name, description, needed) + "\n"@ + rest == front + after) by {
        if needed.len() == 0 {
            lemma_assoc(front, ";"@, "\n"@);
            lemma_assoc(front, seq![';', '\n'], rest);
        } else {
            let tail = l2 + rv + ";"@;
            lemma_assoc(front, tail, "\n"@);
            lemma_assoc(front, tail + "\n"@, rest);
            lemma_assoc(l2 + rv, ";"@, "\n"@);
            lemma_assoc(l2 + rv, seq![';', '\n'], rest);
            lemma_assoc(l2, rv, end);
            lemma_line(comma, "requires"@, rv + end);
            let inner = dash + ("requires"@ + (colon + (rv + end)));
            assert(none + inner =~= inner);
        }
    }
    // From there to the front.
    let last = written_field(none, "description"@, qd, if needed.len() == 0 {
        ';'
    } else {
        ','
    }, if needed.len() == 0 {
        rest
    } else {
        written_field(none, "requires"@, rv, ';', rest)
    });
    assert(front + after == l0 + (q + (comma + last))) by {
        lemma_assoc(l0 + q + l1, qd, after);
        lemma_assoc(l0 + q, l1, qd + after);
        lemma_assoc(l0, q, l1 + (qd + after));
        lemma_line(comma, "description"@, qd + after);
        let inner = dash + ("description"@ + (colon + (qd + after)));
        assert(none + inner =~= inner);
    }
    assert(l0 + (q + (comma + last)) == mark + header_lines(name, d, needed, rest)) by {
        let x = q + (comma + last);
        let fixed = seq!['\n'] + (dash + ("name"@ + colon));
        lemma_assoc(mark, fixed, x);
        lemma_line(seq!['\n'], "name"@, x);
    }
}

/// A body that holds no directive of its own: no line of it starts with `-- #!`.
pub open spec fn is_plain_body(body: Seq<char>) -> bool {
    !occurs_in("\n-- #!"@, "\n"@ + body + "\n"@)
}

/// A body is plain exactly where no line of it starts with `-- #!`.
pub proof fn law_plain_body(body: Seq<char>)
    ensures
        is_plain_body(body) <==> holds_no_directive(body),
{
    reveal_strlit("\n");
    reveal_strlit("-- #!");
    reveal_strlit("\n-- #!");
    let mark = "\n-- #!"@;
    let nl = "\n"@ + body + "\n"@;
    lemma_first_match(nl, mark);
    if is_plain_body(body) {
        assert forall|j: int|
            0 <= j <= body.len() && (j == 0 || body[j - 1] == '\n') implies !"-- #!"@.is_prefix_of(
            #[trigger] body.skip(j),
        ) by {
            if "-- #!"@.is_prefix_of(body.skip(j)) {
                assert forall|x: int| 0 <= x < 6 implies nl.skip(j).subrange(0, 6)[x]
                    == mark[x] by {
                    if x > 0 {
                        assert(body.skip(j).subrange(0, 5)[x - 1] == "-- #!"@[x - 1]);
                        assert(nl[j + x] == body[j + x - 1]);
                    } else if j > 0 {
                        assert(nl[j] == body[j - 1]);
                    }
                }
                assert(nl.skip(j).subrange(0, 6) =~= mark);
                assert(mark.is_prefix_of(nl.skip(j)));
            }
        }
    } else {
        let k = first_match(nl, mark)->0 as int;
        assert(nl.skip(k).subrange(0, 6) =~= mark);
        assert forall|x: int| 0 <= x < 6 implies #[trigger] nl[k + x] == mark[x] by {
            assert(nl.skip(k).subrange(0, 6)[x] == nl[k + x]);
        }
        assert(nl[k + 5] == '!');
        assert(nl[k + 0] == '\n');
        assert(k + 5 <= body.len());
        assert forall|x: int| 0 <= x < 5 implies body.skip(k).subrange(0, 5)[x] == "-- #!"@[x] by {
            assert(nl[k + (x + 1)] == mark[x + 1]);
            assert(nl[k + x + 1] == body[k + x]);
        }
        assert(body.skip(k).subrange(0, 5) =~= "-- #!"@);
        assert("-- #!"@.is_prefix_of(body.skip(k)));
        if k > 0 {
            assert(nl[k] == body[k - 1]);
        }
    }
}

/// A file that was given a header parses, as one migration: the name, the description (the
/// name where there is none) and the requirements that went into the header, and the body
/// behind it, to its very end: it makes no difference whether a newline or other white space
/// follows.
pub proof fn law_header_and_body_parse_to_the_end(
    name: Seq<char>,
    description: Seq<char>,
    needed: Seq<Seq<char>>,
    script: Seq<char>,
    tail: Seq<char>,
)
    requires
        quotable(name),
        quotable(description),
        forall|i: int| 0 <= i < needed.len() ==> quotable(#[trigger] needed[i]),
        trim(script) == script,
        is_plain_body(script),
        is_blank(tail),
    ensures
        file(header_text(name, description, needed) + "\n"@ + script + tail) == Ok::<
            Seq<MigrationView>,
            nat,
        >(
            seq![
                MigrationView {
                    name,
                    description: if description.len() == 0 {
                        name
                    } else {
                        description
                    },
                    requires: needed,
                    script,
                    checksum: body_checksum(script),
                },
            ],
        ),
{
    let d = shown_description(name, description);
    let rest = script + tail;
    let lines = header_lines(name, d, needed, rest);
    let s = header_text(name, description, needed) + "\n"@ + script + tail;
    assert(s =~= header_text(name, description, needed) + "\n"@ + rest);
    lemma_header_text(name, description, needed, rest);
    reveal_strlit("-- #!migration");
    let mark = "-- #!migration"@;
    assert(s == mark + lines);
    assert(s.subrange(0, mark.len() as int) =~= mark);
    assert(mark.is_prefix_of(s));
    assert(first_match(s, mark) == Some(0nat));
    assert(s.skip(0) =~= s);
    assert(s.skip(mark.len() as int) =~= lines);
    assert(shebang(s) == Some(lines));
    lemma_read_header_lines(name, d, needed, rest);
    law_plain_body(script);
    assert(is_blank(Seq::<char>::empty()));
    law_body_reaches_to_the_end(Seq::<char>::empty(), script, tail);
    assert(Seq::<char>::empty() + script + tail =~= rest);
    assert(body(rest) == (script, Seq::<char>::empty()));
    lemma_assemble(name, d, needed, script);
    let m = MigrationView {
        name,
        description: d,
        requires: needed,
        script,
        checksum: body_checksum(script),
    };
    assert(migration(s) == Block::Complete(m, Seq::<char>::empty()));
    assert(file(Seq::<char>::empty()) == Ok::<Seq<MigrationView>, nat>(seq![]));
    assert(seq![m] + Seq::<MigrationView>::empty() =~= seq![m]);
}

/// A file that was given a header parses, as one migration: the name, the description (the
/// name where there is none) and the requirements that went into the header, and the body
/// behind it.
pub proof fn law_header_and_body_parse_back(
    name: Seq<char>,
    description: Seq<char>,
    needed: Seq<Seq<char>>,
    script: Seq<char>,
)
    requires
        quotable(name),
        quotable(description),
        forall|i: int| 0 <= i < needed.len() ==> quotable(#[trigger] needed[i]),
        trim(script) == script,
        is_plain_body(script),
    ensures
        file(header_text(name, description, needed) + "\n"@ + script + "\n"@) == Ok::<
            Seq<MigrationView>,
            nat,
        >(
            seq![
                MigrationView {
                    name,
                    description: shown_description(name, description),
                    requires: needed,
                    script,
                    checksum: body_checksum(script),
                },
            ],
        ),
{
    reveal_strlit("\n");
    law_header_and_body_parse_to_the_end(name, description, needed, script, "\n"@);
}

} // verus!
