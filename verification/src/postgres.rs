//! What the applier decides: the default schema, when an older ledger is to be upgraded, and
//! the statement that directs unqualified names to a schema.
use crate::text::chars_of;
use vstd::prelude::*;
use vstd::string::*;

verus! {

/// The schema that migrations target when none is specified.
pub const DEFAULT_SCHEMA: &'static str = "public";

/// Ledger-format version that is stamped once the per-schema association table exists and has
/// been filled. A ledger from before that reports 0.
pub const MULTI_SCHEMA_VERSION: i64 = 1;

/// Whether a ledger of this version still lacks the per-schema associations.
pub fn needs_upgrade(version: i64) -> (r: bool)
    ensures
        r == (version < MULTI_SCHEMA_VERSION),
        r == (version < 1),
{
    version < MULTI_SCHEMA_VERSION
}

// ---------------------------------------------------------------------------
// Quoted identifiers
// ---------------------------------------------------------------------------

/// `s` with each `"` doubled.
pub open spec fn doubled(s: Seq<char>) -> Seq<char>
    decreases s.len(),
{
    if s.len() == 0 {
        seq![]
    } else if s.last() == '"' {
        doubled(s.drop_last()).push('"').push('"')
    } else {
        doubled(s.drop_last()).push(s.last())
    }
}

/// A name as a quoted SQL identifier.
pub open spec fn quoted_ident(name: Seq<char>) -> Seq<char> {
    "\""@ + doubled(name) + "\""@
}

/// Quote a schema name as a SQL identifier (doubles embedded `"`).
pub fn quote_ident(name: &str) -> (s: String)
    ensures
        s@ == quoted_ident(name@),
{
    let chars = chars_of(name);
    let mut s = String::new();
    s.append("\"");
    let mut i: usize = 0;
    assert(chars@.take(0) =~= Seq::<char>::empty());
    assert(s@ =~= "\""@ + doubled(chars@.take(0)));
    while i < chars.len()
        invariant
            i <= chars@.len(),
            s@ == "\""@ + doubled(chars@.take(i as int)),
        decreases chars@.len() - i,
    {
        let ghost d = doubled(chars@.take(i as int));
        assert(chars@.take(i + 1).drop_last() =~= chars@.take(i as int));
        if chars[i] == '"' {
            s.push('"');
            s.push('"');
            assert(s@ =~= "\""@ + d.push('"').push('"'));
        } else {
            s.push(chars[i]);
            assert(s@ =~= "\""@ + d.push(chars@[i as int]));
        }
        i += 1;
    }
    assert(chars@.take(chars@.len() as int) =~= chars@);
    s.append("\"");
    s
}

/// The statement that points `search_path` at a schema for the rest of the transaction.
pub fn search_path_statement(schema: &str) -> (s: String)
    ensures
        s@ == "SET LOCAL search_path TO "@ + quoted_ident(schema@),
{
    let mut s = String::new();
    s.append("SET LOCAL search_path TO ");
    s.append(quote_ident(schema).as_str());
    assert(s@ =~= "SET LOCAL search_path TO "@ + quoted_ident(schema@));
    s
}

// ---------------------------------------------------------------------------
// How SQL reads a quoted identifier
// ---------------------------------------------------------------------------

/// Reads the inside of a quoted identifier up to the `"` that ends it: `""` stands for `"`.
/// Gives what was read, and what follows the closing `"`.
pub open spec fn read_inside(s: Seq<char>) -> Option<(Seq<char>, Seq<char>)>
    decreases s.len(),
{
    if s.len() == 0 {
        None
    } else if s[0] != '"' {
        match read_inside(s.skip(1)) {
            Some((name, rest)) => Some((seq![s[0]] + name, rest)),
            None => None,
        }
    } else if s.len() >= 2 && s[1] == '"' {
        match read_inside(s.skip(2)) {
            Some((name, rest)) => Some((seq!['"'] + name, rest)),
            None => None,
        }
    } else {
        Some((seq![], s.skip(1)))
    }
}

/// Reads a quoted identifier.
pub open spec fn read_ident(s: Seq<char>) -> Option<(Seq<char>, Seq<char>)> {
    if s.len() > 0 && s[0] == '"' {
        read_inside(s.skip(1))
    } else {
        None
    }
}

/// Doubling, taken from the front.
proof fn lemma_doubled_front(c: char, s: Seq<char>)
    ensures
        doubled(seq![c] + s) == (if c == '"' {
            seq!['"', '"'] + doubled(s)
        } else {
            seq![c] + doubled(s)
        }),
    decreases s.len(),
{
    let whole = seq![c] + s;
    if s.len() == 0 {
        assert(whole.drop_last() =~= Seq::<char>::empty());
        assert(whole.last() == c);
        assert(doubled(whole.drop_last()) =~= Seq::<char>::empty());
        assert(doubled(s) =~= Seq::<char>::empty());
        assert(doubled(whole) =~= (if c == '"' {
            seq!['"', '"'] + doubled(s)
        } else {
            seq![c] + doubled(s)
        }));
    } else {
        lemma_doubled_front(c, s.drop_last());
        assert(whole.drop_last() =~= seq![c] + s.drop_last());
        assert(whole.last() == s.last());
        assert(doubled(whole) =~= (if c == '"' {
            seq!['"', '"'] + doubled(s)
        } else {
            seq![c] + doubled(s)
        }));
    }
}

/// Reading what quoting wrote stops at the closing `"` and gives the name back.
proof fn lemma_read_doubled(name: Seq<char>, rest: Seq<char>)
    requires
        rest.len() == 0 || rest[0] != '"',
    ensures
        read_inside(doubled(name) + seq!['"'] + rest) == Some((name, rest)),
    decreases name.len(),
{
    let s = doubled(name) + seq!['"'] + rest;
    if name.len() == 0 {
        assert(name =~= Seq::<char>::empty());
        assert(s =~= seq!['"'] + rest);
        assert(s.skip(1) =~= rest);
    } else {
        let c = name[0];
        let more = name.skip(1);
        let t = doubled(more) + seq!['"'] + rest;
        assert(name =~= seq![c] + more);
        lemma_doubled_front(c, more);
        lemma_read_doubled(more, rest);
        if c == '"' {
            assert(s =~= seq!['"', '"'] + t);
            assert(s.skip(2) =~= t);
        } else {
            assert(s =~= seq![c] + t);
            assert(s.skip(1) =~= t);
        }
    }
}

/// Whatever the name, its quoted form is read back as exactly that name, and as nothing but
/// that name.
pub proof fn law_quoted_ident_reads_back(name: Seq<char>, rest: Seq<char>)
    requires
        rest.len() == 0 || rest[0] != '"',
    ensures
        read_ident(quoted_ident(name) + rest) == Some((name, rest)),
{
    reveal_strlit("\"");
    let s = quoted_ident(name) + rest;
    lemma_read_doubled(name, rest);
    assert(s.skip(1) =~= doubled(name) + seq!['"'] + rest);
}

/// Different names have different quoted forms.
pub proof fn law_quoted_ident_is_injective(a: Seq<char>, b: Seq<char>)
    requires
        quoted_ident(a) == quoted_ident(b),
    ensures
        a == b,
{
    let none = Seq::<char>::empty();
    law_quoted_ident_reads_back(a, none);
    law_quoted_ident_reads_back(b, none);
}

} // verus!
