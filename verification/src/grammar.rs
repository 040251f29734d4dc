//! The migration file format, as functions on sequences of characters.
//!
//! Each function reads from the front of its argument. One that can fail gives `None`; one
//! that succeeds gives what it read and the text that is left.
use crate::search::{first_match, lemma_first_match};
use crate::text::{is_key_char, lemma_trim_start_shape, trim, trim_start};
use crate::types::{body_checksum, MigrationView};
use vstd::prelude::*;

verus! {

/// The value of a header field.
#[verifier::ext_equal]
pub enum FieldView {
    Single(Seq<char>),
    Multi(Seq<Seq<char>>),
}

// ---------------------------------------------------------------------------
// Primitives
// ---------------------------------------------------------------------------

/// Reads `lit`.
pub open spec fn literal(s: Seq<char>, lit: Seq<char>) -> Option<Seq<char>> {
    if lit.is_prefix_of(s) {
        Some(s.skip(lit.len() as int))
    } else {
        None
    }
}

/// Reads spaces and tabs.
pub open spec fn hspace(s: Seq<char>) -> Seq<char>
    decreases s.len(),
{
    if s.len() > 0 && (s[0] == ' ' || s[0] == '\t') {
        hspace(s.skip(1))
    } else {
        s
    }
}

/// Reads what stands before a header field: white space and `-- `.
pub open spec fn comment_prefix(s: Seq<char>) -> Option<Seq<char>> {
    literal(trim_start(s), "-- "@)
}

/// Reads one character of a quoted string: `\"` or `\\`, or any character but `"`.
pub open spec fn quoted_char(s: Seq<char>) -> Option<(char, Seq<char>)> {
    if s.len() >= 2 && s[0] == '\\' && (s[1] == '"' || s[1] == '\\') {
        Some((s[1], s.skip(2)))
    } else if s.len() >= 1 && s[0] != '"' {
        Some((s[0], s.skip(1)))
    } else {
        None
    }
}

/// Reads characters of a quoted string for as long as there are any.
pub open spec fn quoted_chars(s: Seq<char>) -> (Seq<char>, Seq<char>)
    decreases s.len(),
{
    match quoted_char(s) {
        Some((c, rest)) => {
            let (cs, end) = quoted_chars(rest);
            (seq![c] + cs, end)
        },
        None => (seq![], s),
    }
}

/// Reads a string in double quotes.
pub open spec fn quoted_string(s: Seq<char>) -> Option<(Seq<char>, Seq<char>)> {
    if s.len() > 0 && s[0] == '"' {
        let (value, end) = quoted_chars(s.skip(1));
        if end.len() > 0 && end[0] == '"' {
            Some((value, end.skip(1)))
        } else {
            None
        }
    } else {
        None
    }
}

pub proof fn lemma_quoted_chars_len(s: Seq<char>)
    ensures
        quoted_chars(s).1.len() <= s.len(),
    decreases s.len(),
{
    match quoted_char(s) {
        Some((c, rest)) => {
            lemma_quoted_chars_len(rest);
        },
        None => {},
    }
}

pub proof fn lemma_quoted_string_len(s: Seq<char>)
    ensures
        quoted_string(s) matches Some((_, rest)) ==> rest.len() < s.len(),
{
    if s.len() > 0 {
        lemma_quoted_chars_len(s.skip(1));
    }
}

// ---------------------------------------------------------------------------
// Field values
// ---------------------------------------------------------------------------

/// Reads a comma and a quoted string, with white space around the comma.
pub open spec fn next_item(s: Seq<char>) -> Option<(Seq<char>, Seq<char>)> {
    match literal(trim_start(s), ","@) {
        Some(r) => quoted_string(trim_start(r)),
        None => None,
    }
}

pub proof fn lemma_next_item_len(s: Seq<char>)
    ensures
        next_item(s) matches Some((_, rest)) ==> rest.len() < s.len(),
{
    lemma_trim_start_shape(s);
    match literal(trim_start(s), ","@) {
        Some(r) => {
            lemma_trim_start_shape(r);
            lemma_quoted_string_len(trim_start(r));
        },
        None => {},
    }
}

/// Reads the items of a list after the first, for as long as there are any.
pub open spec fn more_items(s: Seq<char>) -> (Seq<Seq<char>>, Seq<char>)
    decreases s.len(),
{
    match next_item(s) {
        Some((item, rest)) => {
            proof {
                lemma_next_item_len(s);
            }
            let (items, end) = more_items(rest);
            (seq![item] + items, end)
        },
        None => (seq![], s),
    }
}

/// Reads the items of a list.
pub open spec fn items(s: Seq<char>) -> (Seq<Seq<char>>, Seq<char>) {
    match quoted_string(s) {
        Some((item, rest)) => {
            let (more, end) = more_items(rest);
            (seq![item] + more, end)
        },
        None => (seq![], s),
    }
}

/// Reads the value of a field: a quoted string, or a list of them in brackets.
pub open spec fn field_value(s: Seq<char>) -> Option<(FieldView, Seq<char>)> {
    let t = trim_start(s);
    match literal(t, "["@) {
        Some(r) => {
            let (values, end) = items(trim_start(r));
            match literal(trim_start(end), "]"@) {
                Some(rest) => Some((FieldView::Multi(values), rest)),
                None => None,
            }
        },
        None => match quoted_string(t) {
            Some((value, rest)) => Some((FieldView::Single(value), rest)),
            None => None,
        },
    }
}

// ---------------------------------------------------------------------------
// Header
// ---------------------------------------------------------------------------

/// How many characters of a key stand at the front.
pub open spec fn key_len(s: Seq<char>) -> nat
    decreases s.len(),
{
    if s.len() > 0 && is_key_char(s[0]) {
        1 + key_len(s.skip(1))
    } else {
        0
    }
}

/// Reads a header field without what ends it: `-- key: value`.
pub open spec fn kv(s: Seq<char>) -> Option<((Seq<char>, FieldView), Seq<char>)> {
    match comment_prefix(s) {
        Some(r) => {
            let n = key_len(r) as int;
            if n == 0 {
                None
            } else {
                match literal(trim_start(r.skip(n)), ":"@) {
                    Some(r2) => match field_value(r2) {
                        Some((value, rest)) => Some(((r.take(n), value), rest)),
                        None => None,
                    },
                    None => None,
                }
            }
        },
        None => None,
    }
}

/// Reads what ends a header field: `mark` with spaces and tabs around it, and a newline.
pub open spec fn field_end(s: Seq<char>, mark: Seq<char>) -> Option<Seq<char>> {
    match literal(hspace(s), mark) {
        Some(r) => literal(hspace(r), "\n"@),
        None => None,
    }
}

/// Reads a header field that `mark` ends.
pub open spec fn field(s: Seq<char>, mark: Seq<char>) -> Option<
    ((Seq<char>, FieldView), Seq<char>),
> {
    match kv(s) {
        Some((f, r)) => match field_end(r, mark) {
            Some(rest) => Some((f, rest)),
            None => None,
        },
        None => None,
    }
}

pub proof fn lemma_hspace_len(s: Seq<char>)
    ensures
        hspace(s).len() <= s.len(),
    decreases s.len(),
{
    if s.len() > 0 && (s[0] == ' ' || s[0] == '\t') {
        lemma_hspace_len(s.skip(1));
    }
}

pub proof fn lemma_key_len(s: Seq<char>)
    ensures
        key_len(s) <= s.len(),
        forall|i: int| 0 <= i < key_len(s) ==> is_key_char(#[trigger] s[i]),
        key_len(s) < s.len() ==> !is_key_char(s[key_len(s) as int]),
    decreases s.len(),
{
    if s.len() > 0 && is_key_char(s[0]) {
        let t = s.skip(1);
        lemma_key_len(t);
        assert forall|i: int| 0 <= i < key_len(s) implies is_key_char(#[trigger] s[i]) by {
            if i > 0 {
                assert(s[i] == t[i - 1]);
            }
        }
    }
}

pub proof fn lemma_more_items_len(s: Seq<char>)
    ensures
        more_items(s).1.len() <= s.len(),
    decreases s.len(),
{
    lemma_next_item_len(s);
    match next_item(s) {
        Some((item, rest)) => {
            lemma_more_items_len(rest);
        },
        None => {},
    }
}

pub proof fn lemma_field_value_len(s: Seq<char>)
    ensures
        field_value(s) matches Some((_, rest)) ==> rest.len() < s.len(),
{
    lemma_trim_start_shape(s);
    let t = trim_start(s);
    match literal(t, "["@) {
        Some(r) => {
            reveal_strlit("[");
            lemma_trim_start_shape(r);
            lemma_quoted_string_len(trim_start(r));
            match quoted_string(trim_start(r)) {
                Some((item, rest)) => {
                    lemma_more_items_len(rest);
                },
                None => {},
            }
            lemma_trim_start_shape(items(trim_start(r)).1);
        },
        None => {
            lemma_quoted_string_len(t);
        },
    }
}

pub proof fn lemma_field_len(s: Seq<char>, mark: Seq<char>)
    ensures
        field(s, mark) matches Some((_, rest)) ==> rest.len() < s.len(),
{
    lemma_trim_start_shape(s);
    match comment_prefix(s) {
        Some(r) => {
            let n = key_len(r) as int;
            lemma_key_len(r);
            lemma_trim_start_shape(r.skip(n));
            match literal(trim_start(r.skip(n)), ":"@) {
                Some(r2) => {
                    lemma_field_value_len(r2);
                },
                None => {},
            }
        },
        None => {},
    }
    match kv(s) {
        Some((f, r)) => {
            lemma_hspace_len(r);
            match literal(hspace(r), mark) {
                Some(r2) => {
                    lemma_hspace_len(r2);
                },
                None => {},
            }
        },
        None => {},
    }
}

/// Reads header fields that a comma ends, for as long as there are any.
pub open spec fn comma_fields(s: Seq<char>) -> (Seq<(Seq<char>, FieldView)>, Seq<char>)
    decreases s.len(),
{
    match field(s, ","@) {
        Some((f, rest)) => {
            proof {
                lemma_field_len(s, ","@);
            }
            let (fs, end) = comma_fields(rest);
            (seq![f] + fs, end)
        },
        None => (seq![], s),
    }
}

/// Reads a header: fields that a comma ends, then one that a semicolon ends.
pub open spec fn header(s: Seq<char>) -> Option<(Seq<(Seq<char>, FieldView)>, Seq<char>)> {
    let (fs, r) = comma_fields(s);
    match field(r, ";"@) {
        Some((f, rest)) => Some((fs.push(f), rest)),
        None => None,
    }
}

// ---------------------------------------------------------------------------
// Body and directive
// ---------------------------------------------------------------------------

/// Reads a body, up to the next line that starts with `-- #!` or to the end of the text.
/// The text starts at the beginning of a line. The white space around the body is no part
/// of it.
pub open spec fn body(s: Seq<char>) -> (Seq<char>, Seq<char>) {
    match first_match("\n"@ + s, "\n-- #!"@) {
        Some(k) => if k == 0 {
            (seq![], s)
        } else {
            (trim(s.take(k - 1)), s.skip(k - 1))
        },
        None => (trim(s), seq![]),
    }
}

/// A test directive stands at `j`: a line starts there with `-- #!test`, and the word ends
/// behind it. The text starts at the beginning of a line.
pub open spec fn is_test_directive(s: Seq<char>, j: int) -> bool {
    &&& 0 <= j <= s.len()
    &&& j == 0 || s[j - 1] == '\n'
    &&& "-- #!test"@.is_prefix_of(s.skip(j))
    &&& j + 9 >= s.len() || !is_key_char(s[j + 9])
}

/// Reads everything up to and with the next `-- #!migration`. A test directive ahead of it is
/// not skipped: test blocks are not supported. The text starts at the beginning of a line.
pub open spec fn shebang(s: Seq<char>) -> Option<Seq<char>> {
    match first_match(s, "-- #!migration"@) {
        Some(k) => if exists|j: int| 0 <= j < k && #[trigger] is_test_directive(s, j) {
            None
        } else {
            literal(s.skip(k as int), "-- #!migration"@)
        },
        None => None,
    }
}

// ---------------------------------------------------------------------------
// Migration blocks
// ---------------------------------------------------------------------------

/// The value of the first field whose key is `key`.
pub open spec fn find_field(fields: Seq<(Seq<char>, FieldView)>, key: Seq<char>) -> Option<
    FieldView,
>
    decreases fields.len(),
{
    if fields.len() == 0 {
        None
    } else if fields[0].0 == key {
        Some(fields[0].1)
    } else {
        find_field(fields.skip(1), key)
    }
}

/// The names that a `requires` field gives: none where it is missing, else those it holds.
pub open spec fn required_names(value: Option<FieldView>) -> Seq<Seq<char>> {
    match value {
        None => seq![],
        Some(FieldView::Single(name)) => seq![name],
        Some(FieldView::Multi(names)) => names,
    }
}

/// The migration that a header's fields and a body make, where the fields hold a `name` and
/// a `description` that are single strings.
pub open spec fn assemble(fields: Seq<(Seq<char>, FieldView)>, script: Seq<char>) -> Option<
    MigrationView,
> {
    match (find_field(fields, "name"@), find_field(fields, "description"@)) {
        (Some(FieldView::Single(name)), Some(FieldView::Single(description))) => Some(
            MigrationView {
                name,
                description,
                requires: required_names(find_field(fields, "requires"@)),
                script,
                checksum: body_checksum(script),
            },
        ),
        _ => None,
    }
}

/// What stands at the front of a text.
pub enum Block {
    /// A migration, and the text that is left.
    Complete(MigrationView, Seq<char>),
    /// A block whose header lacks a name or a description, and the text that is left.
    Unnamed(Seq<char>),
    /// No migration block.
    Missing,
}

/// Reads a migration block.
pub open spec fn migration(s: Seq<char>) -> Block {
    match shebang(s) {
        Some(r) => match header(r) {
            Some((fields, r2)) => {
                let (script, rest) = body(r2);
                match assemble(fields, script) {
                    Some(m) => Block::Complete(m, rest),
                    None => Block::Unnamed(rest),
                }
            },
            None => Block::Missing,
        },
        None => Block::Missing,
    }
}

pub proof fn lemma_comma_fields_len(s: Seq<char>)
    ensures
        comma_fields(s).1.len() <= s.len(),
    decreases s.len(),
{
    lemma_field_len(s, ","@);
    match field(s, ","@) {
        Some((f, rest)) => {
            lemma_comma_fields_len(rest);
        },
        None => {},
    }
}

pub proof fn lemma_migration_len(s: Seq<char>)
    ensures
        migration(s) matches Block::Complete(_, rest) ==> rest.len() < s.len(),
        migration(s) matches Block::Unnamed(rest) ==> rest.len() < s.len(),
{
    match shebang(s) {
        Some(r) => {
            lemma_first_match(s, "-- #!migration"@);
            lemma_comma_fields_len(r);
            lemma_field_len(comma_fields(r).1, ";"@);
            match header(r) {
                Some((fields, r2)) => {
                    lemma_first_match("\n"@ + r2, "\n-- #!"@);
                    reveal_strlit("\n");
                    reveal_strlit("\n-- #!");
                },
                None => {},
            }
        },
        None => {},
    }
}

/// Reads a whole file: migration blocks up to the end of the text. Where that fails, gives
/// how much of the text is left at the place of the failure: all that the last good block
/// left, or what follows a block that lacks a name or a description.
pub open spec fn file(s: Seq<char>) -> Result<Seq<MigrationView>, nat>
    decreases s.len(),
{
    if s.len() == 0 {
        Ok(seq![])
    } else {
        match migration(s) {
            Block::Complete(m, rest) => {
                proof {
                    lemma_migration_len(s);
                }
                match file(rest) {
                    Ok(ms) => Ok(seq![m] + ms),
                    Err(left) => Err(left),
                }
            },
            Block::Unnamed(rest) => Err(rest.len()),
            Block::Missing => Err(s.len()),
        }
    }
}

} // verus!
