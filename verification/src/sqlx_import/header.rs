//! The header that an imported file gets.
use crate::render::{join, join_text};
use vstd::prelude::*;
use vstd::string::*;

verus! {

/// `s` in double quotes.
pub open spec fn in_quotes(s: Seq<char>) -> Seq<char> {
    "\""@ + s + "\""@
}

/// What the `requires` field says of the names `needed`: one in quotes, or a list in brackets.
pub open spec fn requires_value(needed: Seq<Seq<char>>) -> Seq<char> {
    if needed.len() == 1 {
        in_quotes(needed[0])
    } else {
        "["@ + join(needed.map_values(|r: Seq<char>| in_quotes(r)), ", "@) + "]"@
    }
}

/// The description that the header gives: the name where there is none.
pub open spec fn shown_description(name: Seq<char>, description: Seq<char>) -> Seq<char> {
    if description.len() == 0 {
        name
    } else {
        description
    }
}

/// The header of a migration.
pub open spec fn header_text(
    name: Seq<char>,
    description: Seq<char>,
    needed: Seq<Seq<char>>,
) -> Seq<char> {
    "-- #!migration\n-- name: "@ + in_quotes(name) + ",\n-- description: "@ + in_quotes(
        shown_description(name, description),
    ) + (if needed.len() == 0 {
        ";"@
    } else {
        ",\n-- requires: "@ + requires_value(needed) + ";"@
    })
}

/// Append `s` in double quotes.
fn append_quoted(out: &mut String, s: &str)
    ensures
        final(out)@ == old(out)@ + in_quotes(s@),
{
    out.append("\"");
    out.append(s);
    out.append("\"");
    assert(out@ =~= old(out)@ + in_quotes(s@));
}

/// The names in double quotes, with commas between them.
fn quoted_list(needed: &[String]) -> (s: String)
    ensures
        s@ == join(needed.deep_view().map_values(|r: Seq<char>| in_quotes(r)), ", "@),
{
    let ghost want = needed.deep_view().map_values(|r: Seq<char>| in_quotes(r));
    let mut parts: Vec<String> = Vec::new();
    let mut i: usize = 0;
    while i < needed.len()
        invariant
            i <= needed@.len(),
            want == needed.deep_view().map_values(|r: Seq<char>| in_quotes(r)),
            parts.deep_view() == want.take(i as int),
        decreases needed@.len() - i,
    {
        let mut part = String::new();
        append_quoted(&mut part, needed[i].as_str());
        let ghost before = parts.deep_view();
        assert(part@ =~= in_quotes(needed@[i as int]@));
        parts.push(part);
        assert(parts.deep_view() =~= before.push(part@));
        i += 1;
        assert(parts.deep_view() =~= want.take(i as int));
    }
    assert(want.take(want.len() as int) =~= want);
    let list = parts.as_slice();
    assert(list.deep_view() =~= parts.deep_view());
    join_text(list, ", ")
}

/// The header of a migration: its name, its description (the name where there is none) and
/// what it requires.
pub fn build_header(name: &str, description: &str, needed: &[String]) -> (s: String)
    ensures
        s@ == header_text(name@, description@, needed.deep_view()),
{
    let mut s = String::new();
    s.append("-- #!migration\n-- name: ");
    append_quoted(&mut s, name);
    s.append(",\n-- description: ");
    if description.unicode_len() == 0 {
        append_quoted(&mut s, name);
    } else {
        append_quoted(&mut s, description);
    }
    if needed.len() == 0 {
        s.append(";");
        assert(s@ =~= header_text(name@, description@, needed.deep_view()));
    } else {
        s.append(",\n-- requires: ");
        if needed.len() == 1 {
            append_quoted(&mut s, needed[0].as_str());
            assert(needed.deep_view()[0] == needed@[0]@);
        } else {
            s.append("[");
            s.append(quoted_list(needed).as_str());
            s.append("]");
        }
        s.append(";");
        assert(s@ =~= header_text(name@, description@, needed.deep_view()));
    }
    s
}

} // verus!
