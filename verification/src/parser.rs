//! Parsing of migration files into their `#!migration` blocks.
//!
//! The functions read from a position of a text and give the position behind what they read.
//! What each reads is stated by the function of the same name in [`crate::grammar`].
use crate::grammar;
use crate::grammar::{Block, FieldView};
use crate::search::{find_at, stands_at};
use crate::text::{
    char_is_key_char, chars_of, lemma_skip_skip, same_text, string_of, trim_start_at, trimmed,
};
use crate::types::{checksum, Error, Migration, MigrationName, MigrationView, Result};
use vstd::prelude::*;
use vstd::string::*;
use winnow::combinator::fail;
use winnow::error::ContextError;
use winnow::token::take;
use winnow::Parser;

verus! {

// ---------------------------------------------------------------------------
// Primitives
// ---------------------------------------------------------------------------

/// Reads `lit`.
fn literal(text: &[char], start: usize, lit: &str) -> (r: Option<usize>)
    requires
        start <= text@.len(),
    ensures
        match r {
            Some(end) => {
                &&& end == start + lit@.len() <= text@.len()
                &&& grammar::literal(text@.skip(start as int), lit@) == Some(
                    text@.skip(end as int),
                )
            },
            None => grammar::literal(text@.skip(start as int), lit@) is None,
        },
{
    let pat = chars_of(lit);
    if stands_at(text, start, pat.as_slice()) {
        proof {
            lemma_skip_skip(text@, start as int, lit@.len() as int);
            assert(start + pat.len() <= text.len());
        }
        Some(start + pat.len())
    } else {
        None
    }
}

/// Reads spaces and tabs.
fn hspace(text: &[char], start: usize) -> (end: usize)
    requires
        start <= text@.len(),
    ensures
        start <= end <= text@.len(),
        text@.skip(end as int) == grammar::hspace(text@.skip(start as int)),
{
    let mut i: usize = start;
    while i < text.len() && (text[i] == ' ' || text[i] == '\t')
        invariant
            start <= i <= text@.len(),
            grammar::hspace(text@.skip(i as int)) == grammar::hspace(text@.skip(start as int)),
        decreases text@.len() - i,
    {
        proof {
            lemma_skip_skip(text@, i as int, 1);
        }
        i += 1;
    }
    i
}

/// Reads what stands before a header field.
fn comment_prefix(text: &[char], start: usize) -> (r: Option<usize>)
    requires
        start <= text@.len(),
    ensures
        match r {
            Some(end) => {
                &&& start <= end <= text@.len()
                &&& grammar::comment_prefix(text@.skip(start as int)) == Some(
                    text@.skip(end as int),
                )
            },
            None => grammar::comment_prefix(text@.skip(start as int)) is None,
        },
{
    literal(text, trim_start_at(text, start), "-- ")
}

/// Reads one character of a quoted string.
fn quoted_char(text: &[char], start: usize) -> (r: Option<(char, usize)>)
    requires
        start <= text@.len(),
    ensures
        match r {
            Some((c, end)) => {
                &&& start < end <= text@.len()
                &&& grammar::quoted_char(text@.skip(start as int)) == Some(
                    (c, text@.skip(end as int)),
                )
            },
            None => grammar::quoted_char(text@.skip(start as int)) is None,
        },
{
    let n = text.len();
    if n - start >= 2 && text[start] == '\\' && (text[start + 1] == '"' || text[start + 1]
        == '\\') {
        proof {
            lemma_skip_skip(text@, start as int, 2);
        }
        Some((text[start + 1], start + 2))
    } else if n - start >= 1 && text[start] != '"' {
        proof {
            lemma_skip_skip(text@, start as int, 1);
        }
        Some((text[start], start + 1))
    } else {
        None
    }
}

/// Reads characters of a quoted string for as long as there are any.
fn quoted_chars(text: &[char], start: usize) -> (r: (String, usize))
    requires
        start <= text@.len(),
    ensures
        start <= r.1 <= text@.len(),
        grammar::quoted_chars(text@.skip(start as int)) == (r.0@, text@.skip(r.1 as int)),
{
    let mut value = String::new();
    let mut i: usize = start;
    assert forall|cs: Seq<char>| value@ + cs == cs by {
        assert(value@ + cs =~= cs);
    }
    loop
        invariant
            start <= i <= text@.len(),
            grammar::quoted_chars(text@.skip(start as int)) == (
                value@ + grammar::quoted_chars(text@.skip(i as int)).0,
                grammar::quoted_chars(text@.skip(i as int)).1,
            ),
        decreases text@.len() - i,
    {
        match quoted_char(text, i) {
            Some((c, end)) => {
                proof {
                    let cs = grammar::quoted_chars(text@.skip(end as int)).0;
                    assert(value@ + (seq![c] + cs) =~= value@.push(c) + cs);
                }
                value.push(c);
                i = end;
            },
            None => {
                assert(value@ + Seq::<char>::empty() =~= value@);
                return (value, i);
            },
        }
    }
}

/// Reads a string in double quotes, in which `\"` stands for `"` and `\\` for `\`.
pub fn quoted_string(text: &[char], start: usize) -> (r: Option<(String, usize)>)
    requires
        start <= text@.len(),
    ensures
        match r {
            Some((value, end)) => {
                &&& start < end <= text@.len()
                &&& grammar::quoted_string(text@.skip(start as int)) == Some(
                    (value@, text@.skip(end as int)),
                )
            },
            None => grammar::quoted_string(text@.skip(start as int)) is None,
        },
{
    if start == text.len() || text[start] != '"' {
        return None;
    }
    proof {
        lemma_skip_skip(text@, start as int, 1);
    }
    let (value, end) = quoted_chars(text, start + 1);
    if end < text.len() && text[end] == '"' {
        proof {
            lemma_skip_skip(text@, end as int, 1);
        }
        Some((value, end + 1))
    } else {
        None
    }
}

// ---------------------------------------------------------------------------
// Field values
// ---------------------------------------------------------------------------

/// The value of a header field.
enum FieldValue {
    Single(String),
    Multi(Vec<String>),
}

impl View for FieldValue {
    type V = FieldView;

    closed spec fn view(&self) -> FieldView {
        match self {
            FieldValue::Single(s) => FieldView::Single(s@),
            FieldValue::Multi(xs) => FieldView::Multi(xs.deep_view()),
        }
    }
}

/// Reads a comma and a quoted string.
fn next_item(text: &[char], start: usize) -> (r: Option<(String, usize)>)
    requires
        start <= text@.len(),
    ensures
        match r {
            Some((value, end)) => {
                &&& start < end <= text@.len()
                &&& grammar::next_item(text@.skip(start as int)) == Some(
                    (value@, text@.skip(end as int)),
                )
            },
            None => grammar::next_item(text@.skip(start as int)) is None,
        },
{
    match literal(text, trim_start_at(text, start), ",") {
        Some(i) => quoted_string(text, trim_start_at(text, i)),
        None => None,
    }
}

/// Reads the items of a list.
fn items(text: &[char], start: usize) -> (r: (Vec<String>, usize))
    requires
        start <= text@.len(),
    ensures
        start <= r.1 <= text@.len(),
        grammar::items(text@.skip(start as int)) == (r.0.deep_view(), text@.skip(r.1 as int)),
{
    let mut values: Vec<String> = Vec::new();
    let (first, after) = match quoted_string(text, start) {
        Some((value, end)) => (value, end),
        None => {
            assert(values.deep_view() =~= Seq::<Seq<char>>::empty());
            return (values, start);
        },
    };
    let mut i: usize = after;
    values.push(first);
    assert(values.deep_view() =~= seq![first@]);
    loop
        invariant
            start <= i <= text@.len(),
            grammar::items(text@.skip(start as int)) == (
                values.deep_view() + grammar::more_items(text@.skip(i as int)).0,
                grammar::more_items(text@.skip(i as int)).1,
            ),
        decreases text@.len() - i,
    {
        match next_item(text, i) {
            Some((value, end)) => {
                let ghost before = values.deep_view();
                values.push(value);
                proof {
                    let rest = grammar::more_items(text@.skip(end as int)).0;
                    assert(values.deep_view() =~= before.push(value@));
                    assert(before + (seq![value@] + rest) =~= before.push(value@) + rest);
                }
                i = end;
            },
            None => {
                assert(values.deep_view() + Seq::<Seq<char>>::empty() =~= values.deep_view());
                return (values, i);
            },
        }
    }
}

/// Reads the value of a field: a quoted string, or a list of them in brackets.
fn field_value(text: &[char], start: usize) -> (r: Option<(FieldValue, usize)>)
    requires
        start <= text@.len(),
    ensures
        match r {
            Some((value, end)) => {
                &&& start <= end <= text@.len()
                &&& grammar::field_value(text@.skip(start as int)) == Some(
                    (value@, text@.skip(end as int)),
                )
            },
            None => grammar::field_value(text@.skip(start as int)) is None,
        },
{
    let at = trim_start_at(text, start);
    match literal(text, at, "[") {
        Some(i) => {
            let (values, end) = items(text, trim_start_at(text, i));
            match literal(text, trim_start_at(text, end), "]") {
                Some(rest) => Some((FieldValue::Multi(values), rest)),
                None => None,
            }
        },
        None => match quoted_string(text, at) {
            Some((value, rest)) => Some((FieldValue::Single(value), rest)),
            None => None,
        },
    }
}

// ---------------------------------------------------------------------------
// Header
// ---------------------------------------------------------------------------

/// A header field: its key and its value.
struct Field {
    key: String,
    value: FieldValue,
}

impl View for Field {
    type V = (Seq<char>, FieldView);

    closed spec fn view(&self) -> (Seq<char>, FieldView) {
        (self.key@, self.value@)
    }
}

impl DeepView for Field {
    type V = (Seq<char>, FieldView);

    closed spec fn deep_view(&self) -> (Seq<char>, FieldView) {
        self@
    }
}

/// The position behind the key at `start`.
fn key_end(text: &[char], start: usize) -> (end: usize)
    requires
        start <= text@.len(),
    ensures
        start <= end <= text@.len(),
        end - start == grammar::key_len(text@.skip(start as int)),
{
    let mut i: usize = start;
    while i < text.len() && char_is_key_char(text[i])
        invariant
            start <= i <= text@.len(),
            grammar::key_len(text@.skip(start as int)) == (i - start) + grammar::key_len(
                text@.skip(i as int),
            ),
        decreases text@.len() - i,
    {
        proof {
            lemma_skip_skip(text@, i as int, 1);
        }
        i += 1;
    }
    i
}

/// Reads a header field without what ends it.
fn kv(text: &[char], start: usize) -> (r: Option<(Field, usize)>)
    requires
        start <= text@.len(),
    ensures
        match r {
            Some((f, end)) => {
                &&& start <= end <= text@.len()
                &&& grammar::kv(text@.skip(start as int)) == Some((f@, text@.skip(end as int)))
            },
            None => grammar::kv(text@.skip(start as int)) is None,
        },
{
    let at = match comment_prefix(text, start) {
        Some(at) => at,
        None => return None,
    };
    let end = key_end(text, at);
    if end == at {
        return None;
    }
    proof {
        lemma_skip_skip(text@, at as int, end - at);
        assert(text@.skip(at as int).take(end - at) =~= text@.subrange(at as int, end as int));
    }
    match literal(text, trim_start_at(text, end), ":") {
        Some(i) => match field_value(text, i) {
            Some((value, rest)) => Some((Field { key: string_of(text, at, end), value }, rest)),
            None => None,
        },
        None => None,
    }
}

/// Reads a header field that `mark` and a newline end.
fn field(text: &[char], start: usize, mark: &str) -> (r: Option<(Field, usize)>)
    requires
        start <= text@.len(),
    ensures
        match r {
            Some((f, end)) => {
                &&& start < end <= text@.len()
                &&& text@[end - 1] == '\n'
                &&& grammar::field(text@.skip(start as int), mark@) == Some(
                    (f@, text@.skip(end as int)),
                )
            },
            None => grammar::field(text@.skip(start as int), mark@) is None,
        },
{
    let (f, i) = match kv(text, start) {
        Some((f, i)) => (f, i),
        None => return None,
    };
    let j = match literal(text, hspace(text, i), mark) {
        Some(j) => j,
        None => return None,
    };
    let at = hspace(text, j);
    match literal(text, at, "\n") {
        Some(end) => {
            proof {
                reveal_strlit("\n");
                assert("\n"@[0] == text@.skip(at as int).subrange(0, 1)[0]);
            }
            Some((f, end))
        },
        None => None,
    }
}

/// Reads a header field that a comma ends.
fn field_comma(text: &[char], start: usize) -> (r: Option<(Field, usize)>)
    requires
        start <= text@.len(),
    ensures
        match r {
            Some((f, end)) => {
                &&& start < end <= text@.len()
                &&& grammar::field(text@.skip(start as int), ","@) == Some(
                    (f@, text@.skip(end as int)),
                )
            },
            None => grammar::field(text@.skip(start as int), ","@) is None,
        },
{
    field(text, start, ",")
}

/// Reads the header field that a semicolon ends.
fn field_semi(text: &[char], start: usize) -> (r: Option<(Field, usize)>)
    requires
        start <= text@.len(),
    ensures
        match r {
            Some((f, end)) => {
                &&& start < end <= text@.len()
                &&& text@[end - 1] == '\n'
                &&& grammar::field(text@.skip(start as int), ";"@) == Some(
                    (f@, text@.skip(end as int)),
                )
            },
            None => grammar::field(text@.skip(start as int), ";"@) is None,
        },
{
    field(text, start, ";")
}

/// Reads a header: fields that a comma ends, then one that a semicolon ends.
fn header(text: &[char], start: usize) -> (r: Option<(Vec<Field>, usize)>)
    requires
        start <= text@.len(),
    ensures
        match r {
            Some((fields, end)) => {
                &&& start < end <= text@.len()
                &&& text@[end - 1] == '\n'
                &&& grammar::header(text@.skip(start as int)) == Some(
                    (fields.deep_view(), text@.skip(end as int)),
                )
            },
            None => grammar::header(text@.skip(start as int)) is None,
        },
{
    let mut fields: Vec<Field> = Vec::new();
    let mut i: usize = start;
    let ghost none = Seq::<(Seq<char>, FieldView)>::empty();
    assert(fields.deep_view() =~= none);
    assert forall|fs: Seq<(Seq<char>, FieldView)>| none + fs == fs by {
        assert(none + fs =~= fs);
    }
    loop
        invariant
            start <= i <= text@.len(),
            grammar::comma_fields(text@.skip(start as int)) == (
                fields.deep_view() + grammar::comma_fields(text@.skip(i as int)).0,
                grammar::comma_fields(text@.skip(i as int)).1,
            ),
        decreases text@.len() - i,
    {
        match field_comma(text, i) {
            Some((f, end)) => {
                let ghost before = fields.deep_view();
                let ghost added = f@;
                fields.push(f);
                proof {
                    let rest = grammar::comma_fields(text@.skip(end as int)).0;
                    assert(fields.deep_view() =~= before.push(added));
                    assert(before + (seq![added] + rest) =~= before.push(added) + rest);
                }
                i = end;
            },
            None => {
                let ghost before = fields.deep_view();
                assert(before + Seq::<(Seq<char>, FieldView)>::empty() =~= before);
                return match field_semi(text, i) {
                    Some((f, end)) => {
                        let ghost added = f@;
                        fields.push(f);
                        assert(fields.deep_view() =~= before.push(added));
                        Some((fields, end))
                    },
                    None => None,
                };
            },
        }
    }
}

// ---------------------------------------------------------------------------
// Body and directive
// ---------------------------------------------------------------------------

/// Reads a body from the beginning of a line, up to the next line that starts with `-- #!`
/// or to the end of the text.
fn body(text: &[char], start: usize) -> (r: (String, usize))
    requires
        0 < start <= text@.len(),
        text@[start - 1] == '\n',
    ensures
        start <= r.1 <= text@.len(),
        grammar::body(text@.skip(start as int)) == (r.0@, text@.skip(r.1 as int)),
{
    let pat = chars_of("\n-- #!");
    let ghost rest = text@.skip(start as int);
    proof {
        reveal_strlit("\n");
        assert("\n"@ + rest =~= text@.skip(start - 1));
    }
    match find_at(text, start - 1, pat.as_slice()) {
        Some(p) => if p < start {
            (String::new(), start)
        } else {
            proof {
                assert(rest.take(p - start) =~= text@.subrange(start as int, p as int));
                lemma_skip_skip(text@, start as int, p - start);
            }
            (trimmed(text, start, p), p)
        },
        None => {
            proof {
                assert(rest =~= text@.subrange(start as int, text@.len() as int));
                assert(text@.skip(text@.len() as int) =~= Seq::<char>::empty());
            }
            (trimmed(text, start, text.len()), text.len())
        },
    }
}

/// Whether a test directive stands at `at`, in the text that starts at `start`.
fn test_directive_at(text: &[char], start: usize, at: usize) -> (r: bool)
    requires
        start <= at <= text@.len(),
    ensures
        r == grammar::is_test_directive(text@.skip(start as int), at - start),
{
    proof {
        lemma_skip_skip(text@, start as int, at - start);
        reveal_strlit("-- #!test");
    }
    if at > start && text[at - 1] != '\n' {
        return false;
    }
    match literal(text, at, "-- #!test") {
        Some(end) => end == text.len() || !char_is_key_char(text[end]),
        None => false,
    }
}

/// Whether a test directive stands in `start..to`.
fn has_test_directive(text: &[char], start: usize, to: usize) -> (r: bool)
    requires
        start <= to <= text@.len(),
    ensures
        r == exists|j: int|
            0 <= j < to - start && #[trigger] grammar::is_test_directive(
                text@.skip(start as int),
                j,
            ),
{
    let mut at: usize = start;
    while at < to
        invariant
            start <= at <= to <= text@.len(),
            forall|j: int|
                0 <= j < at - start ==> !#[trigger] grammar::is_test_directive(
                    text@.skip(start as int),
                    j,
                ),
        decreases to - at,
    {
        if test_directive_at(text, start, at) {
            assert(grammar::is_test_directive(text@.skip(start as int), at - start));
            return true;
        }
        at += 1;
    }
    false
}

/// Reads everything up to and with the next `-- #!migration`, unless a test directive stands
/// ahead of it.
fn shebang(text: &[char], start: usize) -> (r: Option<usize>)
    requires
        start <= text@.len(),
    ensures
        match r {
            Some(end) => {
                &&& start < end <= text@.len()
                &&& grammar::shebang(text@.skip(start as int)) == Some(text@.skip(end as int))
            },
            None => grammar::shebang(text@.skip(start as int)) is None,
        },
{
    let pat = chars_of("-- #!migration");
    proof {
        reveal_strlit("-- #!migration");
    }
    match find_at(text, start, pat.as_slice()) {
        Some(p) => {
            proof {
                lemma_skip_skip(text@, start as int, p - start);
            }
            if has_test_directive(text, start, p) {
                None
            } else {
                literal(text, p, "-- #!migration")
            }
        },
        None => None,
    }
}

// ---------------------------------------------------------------------------
// Migration blocks
// ---------------------------------------------------------------------------

/// The value of the first field whose key is `key`.
fn find_field<'a>(fields: &'a [Field], key: &str) -> (r: Option<&'a FieldValue>)
    ensures
        match r {
            Some(value) => grammar::find_field(fields.deep_view(), key@) == Some(value@),
            None => grammar::find_field(fields.deep_view(), key@) is None,
        },
{
    let mut i: usize = 0;
    let ghost views = fields.deep_view();
    assert(views.skip(0) =~= views);
    while i < fields.len()
        invariant
            i <= fields@.len(),
            views == fields.deep_view(),
            grammar::find_field(views, key@) == grammar::find_field(views.skip(i as int), key@),
        decreases fields@.len() - i,
    {
        assert(views.skip(i as int)[0] == fields@[i as int]@);
        if same_text(fields[i].key.as_str(), key) {
            return Some(&fields[i].value);
        }
        assert(views.skip(i as int).skip(1) =~= views.skip(i + 1));
        i += 1;
    }
    None
}

/// The names that a `requires` field gives.
fn required_names(value: Option<&FieldValue>) -> (names: Vec<MigrationName>)
    ensures
        names.deep_view() == grammar::required_names(
            match value {
                Some(v) => Some(v@),
                None => None,
            },
        ),
{
    let mut names: Vec<MigrationName> = Vec::new();
    match value {
        None => {
            assert(names.deep_view() =~= Seq::<Seq<char>>::empty());
        },
        Some(FieldValue::Single(s)) => {
            names.push(MigrationName(s.clone()));
            assert(names.deep_view() =~= seq![s@]);
        },
        Some(FieldValue::Multi(xs)) => {
            let mut i: usize = 0;
            while i < xs.len()
                invariant
                    i <= xs@.len(),
                    names.deep_view() == xs.deep_view().take(i as int),
                decreases xs@.len() - i,
            {
                let ghost before = names.deep_view();
                names.push(MigrationName(xs[i].clone()));
                i += 1;
                assert(names.deep_view() =~= before.push(xs@[i - 1]@));
                assert(names.deep_view() =~= xs.deep_view().take(i as int));
            }
            assert(xs.deep_view().take(xs@.len() as int) =~= xs.deep_view());
        },
    }
    names
}

/// The migration that a header's fields and a body make.
fn assemble(fields: &[Field], script: String) -> (r: Option<Migration>)
    ensures
        match r {
            Some(m) => grammar::assemble(fields.deep_view(), script@) == Some(m@),
            None => grammar::assemble(fields.deep_view(), script@) is None,
        },
{
    let name = match find_field(fields, "name") {
        Some(FieldValue::Single(s)) => MigrationName(s.clone()),
        _ => return None,
    };
    let description = match find_field(fields, "description") {
        Some(FieldValue::Single(s)) => s.clone(),
        _ => return None,
    };
    let needed = required_names(find_field(fields, "requires"));
    let sum = checksum(script.as_str());
    Some(Migration { name, description, requires: needed, script, checksum: sum })
}

/// What was read as a migration block.
enum BlockRead {
    Complete(Migration, usize),
    Unnamed(usize),
    Missing,
}

/// Reads a migration block.
fn migration(text: &[char], start: usize) -> (r: BlockRead)
    requires
        start <= text@.len(),
    ensures
        match r {
            BlockRead::Complete(m, end) => {
                &&& start < end <= text@.len()
                &&& grammar::migration(text@.skip(start as int)) == Block::Complete(
                    m@,
                    text@.skip(end as int),
                )
            },
            BlockRead::Unnamed(end) => {
                &&& start < end <= text@.len()
                &&& grammar::migration(text@.skip(start as int)) == Block::Unnamed(
                    text@.skip(end as int),
                )
            },
            BlockRead::Missing => grammar::migration(text@.skip(start as int)) is Missing,
        },
{
    let i = match shebang(text, start) {
        Some(i) => i,
        None => return BlockRead::Missing,
    };
    let (fields, j) = match header(text, i) {
        Some((fields, j)) => (fields, j),
        None => return BlockRead::Missing,
    };
    let (script, end) = body(text, j);
    let list = fields.as_slice();
    assert(list.deep_view() =~= fields.deep_view());
    match assemble(list, script) {
        Some(m) => BlockRead::Complete(m, end),
        None => BlockRead::Unnamed(end),
    }
}

// ---------------------------------------------------------------------------
// Files
// ---------------------------------------------------------------------------

/// How a parse failure at character `offset` of `text` is shown.
pub uninterp spec fn parse_failure(text: Seq<char>, offset: nat) -> Seq<char>;

/// Calls `winnow::Parser::parse` on a parser that reads `offset` characters and then fails,
/// and shows the `winnow::error::ParseError` that comes back. What it shows is a function of
/// the text and of the place of the failure; the layout of the excerpt is left to the name
/// `parse_failure`.
#[verifier::external_body]
fn show_failure(text: &str, offset: usize) -> (shown: String)
    requires
        offset <= text@.len(),
    ensures
        shown@ == parse_failure(text@, offset as nat),
{
    match (take::<usize, &str, ContextError>(offset), fail::<&str, (), ContextError>).parse(text) {
        Ok(_) => String::new(),
        Err(e) => e.to_string(),
    }
}

/// Reads migration blocks up to the end of the text. Where that fails, gives the position
/// of the failure.
pub fn migration_file(text: &[char]) -> (r: std::result::Result<Vec<Migration>, usize>)
    ensures
        match r {
            Ok(ms) => grammar::file(text@) == Ok::<Seq<MigrationView>, nat>(ms.deep_view()),
            Err(offset) => {
                &&& offset <= text@.len()
                &&& grammar::file(text@) == Err::<Seq<MigrationView>, nat>(
                    (text@.len() - offset) as nat,
                )
            },
        },
{
    let mut ms: Vec<Migration> = Vec::new();
    let mut i: usize = 0;
    let ghost none = Seq::<MigrationView>::empty();
    assert(text@.skip(0) =~= text@);
    assert(ms.deep_view() =~= none);
    assert forall|vs: Seq<MigrationView>| none + vs == vs by {
        assert(none + vs =~= vs);
    }
    while i < text.len()
        invariant
            i <= text@.len(),
            grammar::file(text@) == match grammar::file(text@.skip(i as int)) {
                Ok(vs) => Ok::<Seq<MigrationView>, nat>(ms.deep_view() + vs),
                Err(left) => Err(left),
            },
        decreases text@.len() - i,
    {
        match migration(text, i) {
            BlockRead::Complete(m, end) => {
                let ghost before = ms.deep_view();
                let ghost added = m@;
                ms.push(m);
                proof {
                    assert(ms.deep_view() =~= before.push(added));
                    match grammar::file(text@.skip(end as int)) {
                        Ok(vs) => {
                            assert(before + (seq![added] + vs) =~= before.push(added) + vs);
                        },
                        Err(_) => {},
                    }
                }
                i = end;
            },
            BlockRead::Unnamed(end) => return Err(end),
            BlockRead::Missing => return Err(i),
        }
    }
    assert(ms.deep_view() + none =~= ms.deep_view());
    Ok(ms)
}

/// Parse all `#!migration` blocks of one file's text, in file order.
pub fn parse_file(text: &str, file_label: &str) -> (r: Result<Vec<Migration>>)
    ensures
        match r {
            Ok(ms) => grammar::file(text@) == Ok::<Seq<MigrationView>, nat>(ms.deep_view()),
            Err(e) => {
                &&& grammar::file(text@) matches Err(left)
                &&& e matches Error::Parse { file, message }
                &&& file@ == file_label@
                &&& message@ == parse_failure(text@, (text@.len() - left) as nat)
            },
        },
{
    let chars = chars_of(text);
    match migration_file(chars.as_slice()) {
        Ok(ms) => Ok(ms),
        Err(offset) => {
            Err(
                Error::Parse {
                    file: file_label.to_string(),
                    message: show_failure(text, offset),
                },
            )
        },
    }
}

} // verus!
