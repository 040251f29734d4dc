//! What a file that keeps to the format parses as. A header holds any fields in any order, with
//! white space wherever the format leaves room for it; strings are escaped; any text that holds
//! no directive follows as the body.
use crate::grammar::{
    assemble, body, comma_fields, comment_prefix, field, field_end, field_value, file, find_field,
    header, hspace, is_test_directive, items, key_len, kv, lemma_key_len, migration, more_items,
    next_item, quoted_string, required_names, shebang, Block, FieldView,
};
use crate::grammar_laws::{
    escaped, law_escaped_string_reads_back, law_text_ahead_is_skipped, lemma_joined,
};
use crate::search::{first_match, lemma_first_match};
use crate::text::{
    is_blank, is_key_char, is_whitespace, lemma_trim_pad, lemma_trim_start_pad, trim, trim_start,
};
use crate::types::{body_checksum, MigrationView};
use vstd::prelude::*;

verus! {

// ---------------------------------------------------------------------------
// Bodies
// ---------------------------------------------------------------------------

/// No line of the text starts with `-- #!`.
pub open spec fn holds_no_directive(text: Seq<char>) -> bool {
    forall|j: int|
        0 <= j <= text.len() && (j == 0 || text[j - 1] == '\n') ==> !"-- #!"@.is_prefix_of(
            #[trigger] text.skip(j),
        )
}

/// A text without a directive is a body up to its very end, whatever white space is around it.
pub proof fn law_body_reaches_to_the_end(before: Seq<char>, script: Seq<char>, after: Seq<char>)
    requires
        is_blank(before),
        is_blank(after),
        holds_no_directive(script),
    ensures
        body(before + script + after) == (trim(script), Seq::<char>::empty()),
{
    reveal_strlit("\n");
    reveal_strlit("\n-- #!");
    reveal_strlit("-- #!");
    let mark = "\n-- #!"@;
    let t = before + script + after;
    let nl = "\n"@ + t;
    lemma_first_match(nl, mark);
    match first_match(nl, mark) {
        Some(m) => {
            let k = m as int;
            assert(nl.skip(k).subrange(0, 6) =~= mark);
            assert forall|x: int| 0 <= x < 6 implies #[trigger] nl[k + x] == mark[x] by {
                assert(nl.skip(k).subrange(0, 6)[x] == nl[k + x]);
            }
            assert(nl[k + 1] == '-' && nl[k + 5] == '!');
            assert(nl[k + 1] == t[k] && nl[k + 5] == t[k + 4]);
            assert(!is_whitespace('-') && !is_whitespace('!'));
            if k < before.len() {
                assert(t[k] == before[k]);
                assert(is_whitespace(before[k]));
            }
            let j = k - before.len();
            if j + 4 >= script.len() {
                assert(t[k + 4] == after[j + 4 - script.len()]);
                assert(is_whitespace(after[j + 4 - script.len()]));
            }
            if j > 0 {
                assert(nl[k + 0] == mark[0]);
                assert(nl[k] == t[k - 1]);
                assert(t[k - 1] == script[j - 1]);
            }
            assert forall|x: int| 0 <= x < 5 implies script.skip(j).subrange(0, 5)[x]
                == "-- #!"@[x] by {
                assert(nl[k + (x + 1)] == mark[x + 1]);
                assert(nl[k + x + 1] == t[k + x]);
                assert(t[k + x] == script[j + x]);
            }
            assert(script.skip(j).subrange(0, 5) =~= "-- #!"@);
            assert("-- #!"@.is_prefix_of(script.skip(j)));
        },
        None => {},
    }
    lemma_trim_pad(before, script, after);
}

// ---------------------------------------------------------------------------
// Fields as they are written
// ---------------------------------------------------------------------------

/// Spaces and tabs only.
pub open spec fn is_hblank(s: Seq<char>) -> bool {
    forall|i: int| 0 <= i < s.len() ==> #[trigger] s[i] == ' ' || s[i] == '\t'
}

/// The white space in a header field.
pub struct Spaces {
    /// Ahead of the `-- `.
    pub before: Seq<char>,
    pub after_key: Seq<char>,
    pub after_colon: Seq<char>,
    /// Behind the `[` of a list.
    pub after_open: Seq<char>,
    pub before_comma: Seq<char>,
    pub after_comma: Seq<char>,
    /// Ahead of the `]` of a list.
    pub before_close: Seq<char>,
    /// Around the `,` or `;` that ends the field.
    pub before_end: Seq<char>,
    pub after_end: Seq<char>,
}

/// A header field as it is written.
pub struct WrittenField {
    pub key: Seq<char>,
    pub value: FieldView,
    pub spaces: Spaces,
}

/// The field keeps to the format: its key is a word, and its white space is white space, with
/// no newline around what ends the field.
pub open spec fn is_well_written(f: WrittenField) -> bool {
    &&& f.key.len() > 0
    &&& forall|i: int| 0 <= i < f.key.len() ==> is_key_char(#[trigger] f.key[i])
    &&& is_blank(f.spaces.before)
    &&& is_hblank(f.spaces.after_key)
    &&& is_blank(f.spaces.after_colon)
    &&& is_blank(f.spaces.after_open)
    &&& is_blank(f.spaces.before_comma)
    &&& is_blank(f.spaces.after_comma)
    &&& is_blank(f.spaces.before_close)
    &&& is_hblank(f.spaces.before_end)
    &&& is_hblank(f.spaces.after_end)
}

/// A string in quotes, with what follows it.
pub open spec fn string_then(s: Seq<char>, rest: Seq<char>) -> Seq<char> {
    seq!['"'] + escaped(s) + seq!['"'] + rest
}

/// The items of a list behind the first, with what follows them.
pub open spec fn more_then(parts: Seq<Seq<char>>, spaces: Spaces, rest: Seq<char>) -> Seq<char>
    decreases parts.len(),
{
    if parts.len() == 0 {
        rest
    } else {
        spaces.before_comma + (seq![','] + (spaces.after_comma + string_then(
            parts[0],
            more_then(parts.skip(1), spaces, rest),
        )))
    }
}

/// The value of a field, with what follows it.
pub open spec fn value_then(value: FieldView, spaces: Spaces, rest: Seq<char>) -> Seq<char> {
    match value {
        FieldView::Single(s) => string_then(s, rest),
        FieldView::Multi(parts) => {
            let end = spaces.before_close + (seq![']'] + rest);
            seq!['['] + (spaces.after_open + if parts.len() == 0 {
                end
            } else {
                string_then(parts[0], more_then(parts.skip(1), spaces, end))
            })
        },
    }
}

/// What ends a field, with what follows it.
pub open spec fn end_then(spaces: Spaces, mark: char, rest: Seq<char>) -> Seq<char> {
    spaces.before_end + (seq![mark] + (spaces.after_end + (seq!['\n'] + rest)))
}

/// A field that `mark` ends, with what follows it.
pub open spec fn field_then(f: WrittenField, mark: char, rest: Seq<char>) -> Seq<char> {
    f.spaces.before + ("-- "@ + (f.key + (f.spaces.after_key + (seq![':'] + (f.spaces.after_colon
        + value_then(f.value, f.spaces, end_then(f.spaces, mark, rest)))))))
}

/// The fields of a header, with what follows them: commas end all but the last, which a
/// semicolon ends.
pub open spec fn fields_then(fs: Seq<WrittenField>, rest: Seq<char>) -> Seq<char>
    decreases fs.len(),
{
    if fs.len() == 0 {
        rest
    } else if fs.len() == 1 {
        field_then(fs[0], ';', rest)
    } else {
        field_then(fs[0], ',', fields_then(fs.skip(1), rest))
    }
}

/// A migration block as it is written: the directive, the fields, and what stands behind them.
pub open spec fn written_block(fs: Seq<WrittenField>, behind: Seq<char>) -> Seq<char> {
    "-- #!migration"@ + fields_then(fs, behind)
}

// ---------------------------------------------------------------------------
// Reading them
// ---------------------------------------------------------------------------

proof fn lemma_skip_blank(pad: Seq<char>, s: Seq<char>)
    requires
        is_blank(pad),
        s.len() > 0,
        !is_whitespace(s[0]),
    ensures
        trim_start(pad + s) == s,
{
    lemma_trim_start_pad(pad, s);
}

proof fn lemma_skip_hblank(pad: Seq<char>, s: Seq<char>)
    requires
        is_hblank(pad),
        s.len() > 0,
        s[0] != ' ',
        s[0] != '\t',
    ensures
        hspace(pad + s) == s,
    decreases pad.len(),
{
    if pad.len() == 0 {
        assert(pad + s =~= s);
    } else {
        let more = pad.skip(1);
        assert((pad + s)[0] == pad[0]);
        assert((pad + s).skip(1) =~= more + s);
        assert forall|i: int| 0 <= i < more.len() implies #[trigger] more[i] == ' ' || more[i]
            == '\t' by {
            assert(more[i] == pad[i + 1]);
        }
        lemma_skip_hblank(more, s);
    }
}

proof fn lemma_hblank_is_blank(pad: Seq<char>)
    requires
        is_hblank(pad),
    ensures
        is_blank(pad),
{
    assert(is_whitespace(' ') && is_whitespace('\t'));
}

proof fn lemma_literal(c: char, rest: Seq<char>, lit: Seq<char>)
    requires
        lit == seq![c],
    ensures
        lit.is_prefix_of(seq![c] + rest),
        (seq![c] + rest).skip(1) == rest,
{
    let t = seq![c] + rest;
    assert(t.subrange(0, 1) =~= lit);
    assert(t.skip(1) =~= rest);
}

proof fn lemma_other(lit: Seq<char>, c: char, s: Seq<char>)
    requires
        lit == seq![c],
        s.len() > 0,
        s[0] != c,
    ensures
        !lit.is_prefix_of(s),
{
    assert(s.subrange(0, 1)[0] == s[0]);
}

proof fn lemma_string_start(s: Seq<char>, rest: Seq<char>)
    ensures
        string_then(s, rest).len() > 0,
        string_then(s, rest)[0] == '"',
        quoted_string(string_then(s, rest)) == Some((s, rest)),
{
    law_escaped_string_reads_back(s, rest);
}

proof fn lemma_more(parts: Seq<Seq<char>>, spaces: Spaces, rest: Seq<char>)
    requires
        is_blank(spaces.before_comma),
        is_blank(spaces.after_comma),
        is_blank(spaces.before_close),
    ensures
        ({
            let end = spaces.before_close + (seq![']'] + rest);
            more_items(more_then(parts, spaces, end)) == (parts, end)
        }),
    decreases parts.len(),
{
    reveal_strlit(",");
    assert(","@ =~= seq![',']);
    let end = spaces.before_close + (seq![']'] + rest);
    let t = more_then(parts, spaces, end);
    if parts.len() == 0 {
        let close = seq![']'] + rest;
        lemma_skip_blank(spaces.before_close, close);
        lemma_other(","@, ',', close);
        assert(parts =~= Seq::<Seq<char>>::empty());
    } else {
        let more = parts.skip(1);
        let after = more_then(more, spaces, end);
        let quoted = string_then(parts[0], after);
        let x = spaces.after_comma + quoted;
        lemma_skip_blank(spaces.before_comma, seq![','] + x);
        lemma_literal(',', x, ","@);
        lemma_string_start(parts[0], after);
        lemma_skip_blank(spaces.after_comma, quoted);
        assert(next_item(t) == Some((parts[0], after)));
        lemma_more(more, spaces, rest);
        assert(seq![parts[0]] + more =~= parts);
    }
}

proof fn lemma_value(value: FieldView, spaces: Spaces, pad: Seq<char>, rest: Seq<char>)
    requires
        is_blank(pad),
        is_blank(spaces.after_open),
        is_blank(spaces.before_comma),
        is_blank(spaces.after_comma),
        is_blank(spaces.before_close),
    ensures
        field_value(pad + value_then(value, spaces, rest)) == Some((value, rest)),
{
    reveal_strlit("[");
    reveal_strlit("]");
    assert("["@ =~= seq!['[']);
    assert("]"@ =~= seq![']']);
    let t = value_then(value, spaces, rest);
    match value {
        FieldView::Single(s) => {
            lemma_string_start(s, rest);
            lemma_skip_blank(pad, t);
            lemma_other("["@, '[', t);
        },
        FieldView::Multi(parts) => {
            let close = seq![']'] + rest;
            let end = spaces.before_close + close;
            let inner = if parts.len() == 0 {
                end
            } else {
                string_then(parts[0], more_then(parts.skip(1), spaces, end))
            };
            let x = spaces.after_open + inner;
            lemma_skip_blank(pad, t);
            lemma_literal('[', x, "["@);
            lemma_skip_blank(spaces.before_close, close);
            lemma_literal(']', rest, "]"@);
            if parts.len() == 0 {
                assert(x =~= spaces.after_open + spaces.before_close + close);
                lemma_trim_start_pad(spaces.after_open, end);
                assert(trim_start(x) == close);
                assert(quoted_string(close) is None);
                assert(parts =~= Seq::<Seq<char>>::empty());
                assert(items(close) == (parts, close));
                assert(trim_start(close) == close);
            } else {
                let more = parts.skip(1);
                lemma_string_start(parts[0], more_then(more, spaces, end));
                lemma_skip_blank(spaces.after_open, inner);
                lemma_more(more, spaces, rest);
                assert(seq![parts[0]] + more =~= parts);
                assert(items(inner) == (parts, end));
            }
        },
    }
}

proof fn lemma_end(spaces: Spaces, mark: char, other: char, rest: Seq<char>)
    requires
        is_hblank(spaces.before_end),
        is_hblank(spaces.after_end),
        mark == ',' || mark == ';',
        mark != other,
    ensures
        field_end(end_then(spaces, mark, rest), seq![mark]) == Some(rest),
        field_end(end_then(spaces, mark, rest), seq![other]) is None,
{
    reveal_strlit("\n");
    assert("\n"@ =~= seq!['\n']);
    let nl = seq!['\n'] + rest;
    let x = spaces.after_end + nl;
    let m = seq![mark] + x;
    lemma_skip_hblank(spaces.before_end, m);
    lemma_literal(mark, x, seq![mark]);
    lemma_other(seq![other], other, m);
    lemma_skip_hblank(spaces.after_end, nl);
    lemma_literal('\n', rest, "\n"@);
}

proof fn lemma_key(key: Seq<char>, rest: Seq<char>)
    requires
        forall|i: int| 0 <= i < key.len() ==> is_key_char(#[trigger] key[i]),
        rest.len() > 0,
        !is_key_char(rest[0]),
    ensures
        key_len(key + rest) == key.len(),
        (key + rest).take(key.len() as int) == key,
        (key + rest).skip(key.len() as int) == rest,
{
    let t = key + rest;
    lemma_key_len(t);
    let n = key_len(t) as int;
    if n < key.len() {
        assert(t[n] == key[n]);
        assert(is_key_char(key[n]));
    }
    if n > key.len() {
        assert(is_key_char(t[key.len() as int]));
    }
    assert(t.take(key.len() as int) =~= key);
    assert(t.skip(key.len() as int) =~= rest);
}

proof fn lemma_kv(f: WrittenField, rest: Seq<char>)
    requires
        is_well_written(f),
    ensures
        kv(
            f.spaces.before + ("-- "@ + (f.key + (f.spaces.after_key + (seq![':'] + (
            f.spaces.after_colon + value_then(f.value, f.spaces, rest)))))),
        ) == Some(((f.key, f.value), rest)),
{
    reveal_strlit("-- ");
    reveal_strlit(":");
    assert(":"@ =~= seq![':']);
    let v = f.spaces.after_colon + value_then(f.value, f.spaces, rest);
    let colon = seq![':'] + v;
    let k = f.spaces.after_key + colon;
    let named = f.key + k;
    let line = "-- "@ + named;
    lemma_skip_blank(f.spaces.before, line);
    assert(line.subrange(0, 3) =~= "-- "@);
    assert(line.skip(3) =~= named);
    assert(comment_prefix(f.spaces.before + line) == Some(named));
    assert(!is_key_char(k[0])) by {
        if f.spaces.after_key.len() > 0 {
            assert(k[0] == f.spaces.after_key[0]);
        }
    }
    lemma_key(f.key, k);
    lemma_hblank_is_blank(f.spaces.after_key);
    lemma_skip_blank(f.spaces.after_key, colon);
    lemma_literal(':', v, ":"@);
    lemma_value(f.value, f.spaces, f.spaces.after_colon, rest);
}

proof fn lemma_field(f: WrittenField, mark: char, rest: Seq<char>)
    requires
        is_well_written(f),
        mark == ',' || mark == ';',
    ensures
        ({
            let s = field_then(f, mark, rest);
            &&& mark == ',' ==> field(s, ","@) == Some(((f.key, f.value), rest))
            &&& mark == ';' ==> field(s, ";"@) == Some(((f.key, f.value), rest))
            &&& mark == ';' ==> field(s, ","@) is None
        }),
{
    reveal_strlit(",");
    reveal_strlit(";");
    assert(","@ =~= seq![',']);
    assert(";"@ =~= seq![';']);
    lemma_kv(f, end_then(f.spaces, mark, rest));
    if mark == ',' {
        lemma_end(f.spaces, ',', ';', rest);
    } else {
        lemma_end(f.spaces, ';', ',', rest);
    }
}

/// The keys and values of fields.
pub open spec fn contents(fs: Seq<WrittenField>) -> Seq<(Seq<char>, FieldView)> {
    Seq::new(fs.len(), |i: int| (fs[i].key, fs[i].value))
}

/// A header is read as its fields, in their order and with nothing lost.
pub proof fn law_header_reads_back(fs: Seq<WrittenField>, rest: Seq<char>)
    requires
        fs.len() > 0,
        forall|i: int| 0 <= i < fs.len() ==> is_well_written(#[trigger] fs[i]),
    ensures
        header(fields_then(fs, rest)) == Some((contents(fs), rest)),
{
    lemma_comma_fields(fs, rest);
    lemma_field(fs.last(), ';', rest);
    assert(contents(fs.drop_last()).push((fs.last().key, fs.last().value)) =~= contents(fs));
}

proof fn lemma_comma_fields(fs: Seq<WrittenField>, rest: Seq<char>)
    requires
        fs.len() > 0,
        forall|i: int| 0 <= i < fs.len() ==> is_well_written(#[trigger] fs[i]),
    ensures
        comma_fields(fields_then(fs, rest)) == (
            contents(fs.drop_last()),
            field_then(fs.last(), ';', rest),
        ),
    decreases fs.len(),
{
    if fs.len() == 1 {
        lemma_field(fs[0], ';', rest);
        assert(contents(fs.drop_last()) =~= Seq::<(Seq<char>, FieldView)>::empty());
    } else {
        let more = fs.skip(1);
        assert forall|i: int| 0 <= i < more.len() implies is_well_written(#[trigger] more[i]) by {
            assert(more[i] == fs[i + 1]);
        }
        lemma_comma_fields(more, rest);
        assert(is_well_written(fs[0]));
        lemma_field(fs[0], ',', fields_then(more, rest));
        assert(seq![(fs[0].key, fs[0].value)] + contents(more.drop_last()) =~= contents(
            fs.drop_last(),
        ));
        assert(more.last() == fs.last());
    }
}

// ---------------------------------------------------------------------------
// Blocks
// ---------------------------------------------------------------------------

/// The first field that bears `key` stands at `i`.
pub open spec fn first_with(fs: Seq<WrittenField>, key: Seq<char>, i: int) -> bool {
    &&& 0 <= i < fs.len()
    &&& fs[i].key == key
    &&& forall|j: int| 0 <= j < i ==> (#[trigger] fs[j]).key != key
}

proof fn lemma_find_field(fs: Seq<WrittenField>, key: Seq<char>, i: int)
    requires
        first_with(fs, key, i),
    ensures
        find_field(contents(fs), key) == Some(fs[i].value),
    decreases fs.len(),
{
    assert(contents(fs)[0] == (fs[0].key, fs[0].value));
    if i > 0 {
        let more = fs.skip(1);
        assert(fs[0].key != key);
        assert(contents(fs).skip(1) =~= contents(more));
        assert forall|j: int| 0 <= j < i - 1 implies (#[trigger] more[j]).key != key by {
            assert(more[j] == fs[j + 1]);
        }
        lemma_find_field(more, key, i - 1);
    }
}

proof fn lemma_find_no_field(fs: Seq<WrittenField>, key: Seq<char>)
    requires
        forall|j: int| 0 <= j < fs.len() ==> (#[trigger] fs[j]).key != key,
    ensures
        find_field(contents(fs), key) is None,
    decreases fs.len(),
{
    if fs.len() > 0 {
        let more = fs.skip(1);
        assert(contents(fs)[0] == (fs[0].key, fs[0].value));
        assert(contents(fs).skip(1) =~= contents(more));
        assert forall|j: int| 0 <= j < more.len() implies (#[trigger] more[j]).key != key by {
            assert(more[j] == fs[j + 1]);
        }
        lemma_find_no_field(more, key);
    }
}

/// The names that the fields require: those of the first `requires` field, if there is one.
pub open spec fn requires_as_written(fs: Seq<WrittenField>, needed: Seq<Seq<char>>) -> bool {
    ||| needed.len() == 0 && forall|j: int|
        0 <= j < fs.len() ==> (#[trigger] fs[j]).key != "requires"@
    ||| exists|i: int| #[trigger]
        first_with(fs, "requires"@, i) && (fs[i].value == FieldView::Multi(needed) || (needed.len()
            == 1 && fs[i].value == FieldView::Single(needed[0])))
}

proof fn lemma_required(fs: Seq<WrittenField>, needed: Seq<Seq<char>>)
    requires
        requires_as_written(fs, needed),
    ensures
        required_names(find_field(contents(fs), "requires"@)) == needed,
{
    if exists|i: int| #[trigger] first_with(fs, "requires"@, i) {
        let i = choose|i: int| #[trigger]
            first_with(fs, "requires"@, i) && (fs[i].value == FieldView::Multi(needed) || (
            needed.len() == 1 && fs[i].value == FieldView::Single(needed[0])));
        if needed.len() == 0 && (forall|j: int|
            0 <= j < fs.len() ==> (#[trigger] fs[j]).key != "requires"@) {
            let k = choose|k: int| #[trigger] first_with(fs, "requires"@, k);
            assert(fs[k].key == "requires"@);
        }
        lemma_find_field(fs, "requires"@, i);
        assert(required_names(Some(fs[i].value)) =~= needed);
    } else {
        lemma_find_no_field(fs, "requires"@);
        assert(needed =~= Seq::<Seq<char>>::empty());
    }
}

proof fn lemma_written_block(fs: Seq<WrittenField>, behind: Seq<char>)
    requires
        fs.len() > 0,
        forall|i: int| 0 <= i < fs.len() ==> is_well_written(#[trigger] fs[i]),
    ensures
        ({
            let s = written_block(fs, behind);
            let (script, rest) = body(behind);
            &&& s.len() > 0
            &&& "-- #!migration"@.is_prefix_of(s)
            &&& migration(s) == match assemble(contents(fs), script) {
                Some(m) => Block::Complete(m, rest),
                None => Block::Unnamed(rest),
            }
        }),
{
    reveal_strlit("-- #!migration");
    let mark = "-- #!migration"@;
    let s = written_block(fs, behind);
    assert(s.subrange(0, mark.len() as int) =~= mark);
    assert(first_match(s, mark) == Some(0nat));
    assert(s.skip(0) =~= s);
    assert(s.skip(mark.len() as int) =~= fields_then(fs, behind));
    assert(shebang(s) == Some(fields_then(fs, behind)));
    law_header_reads_back(fs, behind);
}

/// A block that keeps to the format parses as what it says: the first `name` and the first
/// `description` that it holds, the names of the first `requires`, and all the text behind the
/// header as the script, to the very end. The order of the fields, other fields, and the white
/// space make no difference.
pub proof fn law_written_block_parses(
    fs: Seq<WrittenField>,
    at_name: int,
    at_description: int,
    m: MigrationView,
    before: Seq<char>,
    text: Seq<char>,
    after: Seq<char>,
)
    requires
        forall|i: int| 0 <= i < fs.len() ==> is_well_written(#[trigger] fs[i]),
        first_with(fs, "name"@, at_name),
        first_with(fs, "description"@, at_description),
        fs[at_name].value == FieldView::Single(m.name),
        fs[at_description].value == FieldView::Single(m.description),
        requires_as_written(fs, m.requires),
        is_blank(before),
        is_blank(after),
        holds_no_directive(text),
        m.script == trim(text),
        m.checksum == body_checksum(m.script),
    ensures
        file(written_block(fs, before + text + after)) == Ok::<Seq<MigrationView>, nat>(seq![m]),
{
    let behind = before + text + after;
    lemma_written_block(fs, behind);
    law_body_reaches_to_the_end(before, text, after);
    lemma_find_field(fs, "name"@, at_name);
    lemma_find_field(fs, "description"@, at_description);
    lemma_required(fs, m.requires);
    assert(assemble(contents(fs), m.script) == Some(m));
    assert(file(Seq::<char>::empty()) == Ok::<Seq<MigrationView>, nat>(seq![]));
    assert(seq![m] + Seq::<MigrationView>::empty() =~= seq![m]);
}

/// A block whose header lacks a name or a description, or gives a list for one of them, is
/// rejected, whatever stands behind the header.
pub proof fn law_incomplete_header_is_rejected(
    fs: Seq<WrittenField>,
    key: Seq<char>,
    behind: Seq<char>,
)
    requires
        fs.len() > 0,
        forall|i: int| 0 <= i < fs.len() ==> is_well_written(#[trigger] fs[i]),
        key == "name"@ || key == "description"@,
        (forall|j: int| 0 <= j < fs.len() ==> (#[trigger] fs[j]).key != key) || (exists|i: int|
            #[trigger] first_with(fs, key, i) && fs[i].value is Multi),
    ensures
        file(written_block(fs, behind)) == Err::<Seq<MigrationView>, nat>(body(behind).1.len()),
        holds_no_directive(behind) ==> file(written_block(fs, behind)) == Err::<
            Seq<MigrationView>,
            nat,
        >(0),
{
    lemma_written_block(fs, behind);
    if holds_no_directive(behind) {
        let none = Seq::<char>::empty();
        law_body_reaches_to_the_end(none, behind, none);
        assert(none + behind + none =~= behind);
    }
    if forall|j: int| 0 <= j < fs.len() ==> (#[trigger] fs[j]).key != key {
        lemma_find_no_field(fs, key);
    } else {
        let i = choose|i: int| #[trigger] first_with(fs, key, i) && fs[i].value is Multi;
        lemma_find_field(fs, key, i);
    }
}

/// A text that holds no directive for a migration is no migration file, unless it is empty.
pub proof fn law_text_without_block_is_rejected(s: Seq<char>)
    requires
        s.len() > 0,
        forall|j: int| 0 <= j <= s.len() ==> !"-- #!migration"@.is_prefix_of(#[trigger] s.skip(j)),
    ensures
        file(s) == Err::<Seq<MigrationView>, nat>(s.len()),
{
    lemma_first_match(s, "-- #!migration"@);
}

/// A line that holds a test directive makes a file invalid, whatever text without a migration
/// stands ahead of it and whatever stands behind it.
pub proof fn law_test_line_is_rejected(ahead: Seq<char>, behind: Seq<char>)
    requires
        ahead.len() == 0 || ahead.last() == '\n',
        behind.len() == 0 || !is_key_char(behind[0]),
        forall|j: int|
            0 <= j < ahead.len() ==> !"-- #!migration"@.is_prefix_of(
                #[trigger] (ahead + "-- #!test"@ + behind).skip(j),
            ),
    ensures
        file(ahead + "-- #!test"@ + behind) is Err,
{
    reveal_strlit("-- #!test");
    reveal_strlit("-- #!migration");
    let s = ahead + "-- #!test"@ + behind;
    let k = ahead.len() as int;
    assert(s.skip(k).subrange(0, 9) =~= "-- #!test"@);
    assert(is_test_directive(s, k)) by {
        if k + 9 < s.len() {
            assert(s[k + 9] == behind[0]);
        }
    }
    let mark = "-- #!migration"@;
    lemma_first_match(s, mark);
    match first_match(s, mark) {
        Some(m) => {
            if m == k {
                assert(s.skip(k).subrange(0, 14)[5] == 't');
            }
            assert(m > k);
        },
        None => {},
    }
}

/// A line that holds a test directive makes a file invalid behind any number of blocks too.
pub proof fn law_test_line_behind_blocks_is_rejected(
    blocks: Seq<char>,
    ms: Seq<MigrationView>,
    behind: Seq<char>,
)
    requires
        file(blocks) == Ok::<Seq<MigrationView>, nat>(ms),
        blocks.len() > 0,
        blocks.last() == '\n',
        behind.len() == 0 || !is_key_char(behind[0]),
    ensures
        file(blocks + ("-- #!test"@ + behind)) is Err,
{
    reveal_strlit("-- #!");
    reveal_strlit("-- #!test");
    reveal_strlit("-- #!migration");
    let t = "-- #!test"@ + behind;
    assert(t.subrange(0, 5) =~= "-- #!"@);
    let pad = lemma_joined(blocks, t, ms);
    let s = pad + "-- #!test"@ + behind;
    assert(pad + t =~= s);
    assert forall|j: int| 0 <= j < pad.len() implies !"-- #!migration"@.is_prefix_of(
        #[trigger] s.skip(j),
    ) by {
        if "-- #!migration"@.is_prefix_of(s.skip(j)) {
            assert(s.skip(j).subrange(0, 14)[0] == s[j]);
        }
    }
    law_test_line_is_rejected(pad, behind);
}

/// Text ahead of a block is skipped: comments and all, as long as it holds no directive for a
/// migration and none of its lines starts with one for a test.
pub proof fn law_comments_ahead_are_skipped(ahead: Seq<char>, s: Seq<char>)
    requires
        "-- #!migration"@.is_prefix_of(s),
        forall|j: int|
            0 <= j < ahead.len() ==> !"-- #!migration"@.is_prefix_of(
                #[trigger] (ahead + s).skip(j),
            ),
        forall|j: int|
            0 <= j < ahead.len() && (j == 0 || (ahead + s)[j - 1] == '\n')
                ==> !"-- #!test"@.is_prefix_of(#[trigger] (ahead + s).skip(j)),
    ensures
        file(s) is Ok ==> file(ahead + s) == file(s),
        file(ahead + s) is Ok <==> file(s) is Ok,
{
    law_text_ahead_is_skipped(ahead, s);
}

} // verus!
