//! What becomes of a parse when more text follows: what was read stays as it was, and what was
//! left is longer by the text that follows.
use crate::grammar::{
    body, comma_fields, field, field_end, field_value, header, hspace, is_test_directive, items,
    key_len, kv, lemma_field_len, lemma_next_item_len, literal, migration, more_items, next_item,
    quoted_char, quoted_chars, quoted_string, shebang, Block,
};
use crate::search::{first_match, lemma_first_match};
use crate::text::{
    is_blank, is_key_char, lemma_trim_pad, lemma_trim_start_pad, lemma_trim_start_shape, trim,
    trim_start,
};
use vstd::prelude::*;
use vstd::string::*;

verus! {

/// `rest` is what is left of `s`.
pub open spec fn is_left_of(rest: Seq<char>, s: Seq<char>) -> bool {
    rest.len() <= s.len() && rest == s.skip(s.len() - rest.len())
}

proof fn lemma_left_of_left(a: Seq<char>, b: Seq<char>, c: Seq<char>)
    requires
        is_left_of(a, b),
        is_left_of(b, c),
    ensures
        is_left_of(a, c),
{
    assert(a =~= c.skip(c.len() - a.len()));
}

// ---------------------------------------------------------------------------
// Primitives
// ---------------------------------------------------------------------------

proof fn lemma_extend_literal(s: Seq<char>, lit: Seq<char>, t: Seq<char>)
    ensures
        literal(s, lit) matches Some(r) ==> literal(s + t, lit) == Some(r + t) && is_left_of(r, s),
        s.len() >= lit.len() && literal(s, lit) is None ==> literal(s + t, lit) is None,
{
    let n = lit.len() as int;
    if s.len() >= n {
        assert((s + t).subrange(0, n) =~= s.subrange(0, n));
        assert((s + t).skip(n) =~= s.skip(n) + t);
    }
}

/// White space ends where it ended, if something follows it.
proof fn lemma_extend_trim_start(s: Seq<char>, t: Seq<char>)
    ensures
        trim_start(s).len() > 0 ==> trim_start(s + t) == trim_start(s) + t,
        is_left_of(trim_start(s), s),
{
    lemma_trim_start_shape(s);
    let n = s.len() - trim_start(s).len();
    if trim_start(s).len() > 0 {
        assert(s + t =~= s.take(n) + (trim_start(s) + t));
        lemma_trim_start_pad(s.take(n), trim_start(s) + t);
        assert((trim_start(s) + t)[0] == trim_start(s)[0]);
    }
}

proof fn lemma_extend_hspace(s: Seq<char>, t: Seq<char>)
    ensures
        hspace(s).len() > 0 ==> hspace(s + t) == hspace(s) + t,
        is_left_of(hspace(s), s),
    decreases s.len(),
{
    if s.len() > 0 && (s[0] == ' ' || s[0] == '\t') {
        lemma_extend_hspace(s.skip(1), t);
        assert((s + t).skip(1) =~= s.skip(1) + t);
        lemma_left_of_left(hspace(s), s.skip(1), s);
    } else {
        assert(s.skip(0) =~= s);
    }
}

proof fn lemma_extend_quoted_chars(s: Seq<char>, t: Seq<char>)
    ensures
        quoted_chars(s).1.len() > 0 ==> quoted_chars(s + t) == (
            quoted_chars(s).0,
            quoted_chars(s).1 + t,
        ),
        is_left_of(quoted_chars(s).1, s),
        quoted_chars(s).1.len() > 0 ==> quoted_chars(s).1[0] == '"',
    decreases s.len(),
{
    match quoted_char(s) {
        Some((c, rest)) => {
            lemma_extend_quoted_chars(rest, t);
            lemma_left_of_left(quoted_chars(s).1, rest, s);
            if quoted_chars(s).1.len() > 0 {
                // Where a lone backslash is read, something follows it.
                assert(rest.len() > 0);
                if s.len() >= 2 {
                    assert((s + t)[1] == s[1]);
                }
                let n = s.len() - rest.len();
                assert((s + t).skip(n) =~= rest + t);
                assert(quoted_char(s + t) == Some((c, rest + t)));
            }
        },
        None => {
            assert(s.skip(0) =~= s);
            if s.len() > 0 {
                assert((s + t)[0] == s[0]);
            }
        },
    }
}

proof fn lemma_extend_quoted_string(s: Seq<char>, t: Seq<char>)
    ensures
        quoted_string(s) matches Some((v, r)) ==> quoted_string(s + t) == Some((v, r + t))
            && is_left_of(r, s),
{
    if s.len() > 0 && s[0] == '"' {
        lemma_extend_quoted_chars(s.skip(1), t);
        let end = quoted_chars(s.skip(1)).1;
        assert((s + t).skip(1) =~= s.skip(1) + t);
        if end.len() > 0 {
            assert((end + t).skip(1) =~= end.skip(1) + t);
            lemma_left_of_left(end.skip(1), end, s.skip(1));
            lemma_left_of_left(end.skip(1), s.skip(1), s);
        }
    }
}

// ---------------------------------------------------------------------------
// Field values
// ---------------------------------------------------------------------------

/// Behind the items of a list stands something that is no item; it stays none.
proof fn lemma_extend_more_items(s: Seq<char>, t: Seq<char>)
    requires
        trim_start(more_items(s).1).len() > 0,
        trim_start(more_items(s).1)[0] == ']',
    ensures
        more_items(s + t) == (more_items(s).0, more_items(s).1 + t),
        is_left_of(more_items(s).1, s),
    decreases s.len(),
{
    reveal_strlit(",");
    match next_item(s) {
        Some((item, rest)) => {
            lemma_next_item_len(s);
            lemma_extend_trim_start(s, t);
            let u = trim_start(s);
            lemma_extend_literal(u, ","@, t);
            let r = literal(u, ","@)->0;
            lemma_extend_trim_start(r, t);
            lemma_extend_quoted_string(trim_start(r), t);
            lemma_left_of_left(r, u, s);
            lemma_left_of_left(trim_start(r), r, s);
            lemma_left_of_left(rest, trim_start(r), s);
            assert(next_item(s + t) == Some((item, rest + t)));
            lemma_extend_more_items(rest, t);
            lemma_left_of_left(more_items(s).1, rest, s);
        },
        None => {
            lemma_extend_trim_start(s, t);
            assert(trim_start(s + t)[0] == ']');
            assert(trim_start(s + t).subrange(0, 1)[0] == ']');
            assert(next_item(s + t) is None);
            assert(s.skip(0) =~= s);
        },
    }
}

proof fn lemma_extend_field_value(s: Seq<char>, t: Seq<char>)
    ensures
        field_value(s) matches Some((v, r)) ==> field_value(s + t) == Some((v, r + t))
            && is_left_of(r, s),
{
    reveal_strlit("[");
    reveal_strlit("]");
    if field_value(s) is Some {
        let u = trim_start(s);
        lemma_extend_trim_start(s, t);
        lemma_extend_literal(u, "["@, t);
        match literal(u, "["@) {
            Some(r) => {
                lemma_left_of_left(r, u, s);
                let inner = trim_start(r);
                lemma_extend_trim_start(r, t);
                lemma_left_of_left(inner, r, s);
                let (values, end) = items(inner);
                let close = trim_start(end);
                let rest = literal(close, "]"@)->0;
                assert(close.subrange(0, 1)[0] == ']');
                lemma_extend_trim_start(end, t);
                lemma_extend_literal(close, "]"@, t);
                match quoted_string(inner) {
                    Some((item, after)) => {
                        lemma_extend_quoted_string(inner, t);
                        lemma_extend_more_items(after, t);
                        lemma_left_of_left(after, inner, s);
                        lemma_left_of_left(end, after, s);
                    },
                    None => {
                        // An empty list: what follows the bracket is the closing one.
                        assert(end == inner);
                        lemma_trim_start_shape(r);
                        assert(close == inner);
                        assert((inner + t)[0] == ']');
                        assert(quoted_string(inner + t) is None);
                    },
                }
                assert(items(inner + t) == (values, end + t));
                lemma_left_of_left(close, end, s);
                lemma_left_of_left(rest, close, s);
            },
            None => {
                lemma_extend_quoted_string(u, t);
                let r = quoted_string(u).unwrap().1;
                lemma_left_of_left(r, u, s);
            },
        }
    }
}

// ---------------------------------------------------------------------------
// Fields
// ---------------------------------------------------------------------------

proof fn lemma_extend_key_len(s: Seq<char>, t: Seq<char>)
    ensures
        key_len(s) <= s.len(),
        key_len(s) < s.len() ==> key_len(s + t) == key_len(s),
    decreases s.len(),
{
    if s.len() > 0 && is_key_char(s[0]) {
        lemma_extend_key_len(s.skip(1), t);
        assert((s + t).skip(1) =~= s.skip(1) + t);
    }
}

proof fn lemma_extend_kv(s: Seq<char>, t: Seq<char>)
    ensures
        kv(s) matches Some((f, r)) ==> kv(s + t) == Some((f, r + t)) && is_left_of(r, s),
{
    reveal_strlit("-- ");
    reveal_strlit(":");
    if kv(s) is Some {
        let u = trim_start(s);
        lemma_extend_trim_start(s, t);
        lemma_extend_literal(u, "-- "@, t);
        let r = literal(u, "-- "@)->0;
        lemma_left_of_left(r, u, s);
        let n = key_len(r) as int;
        let named = r.skip(n);
        let colon = trim_start(named);
        lemma_extend_key_len(r, t);
        lemma_extend_trim_start(named, t);
        lemma_extend_literal(colon, ":"@, t);
        let value = literal(colon, ":"@)->0;
        lemma_extend_field_value(value, t);
        assert(n < r.len());
        assert((r + t).skip(n) =~= named + t);
        assert((r + t).take(n) =~= r.take(n));
        lemma_left_of_left(named, r, s);
        lemma_left_of_left(colon, named, s);
        lemma_left_of_left(value, colon, s);
        lemma_left_of_left(kv(s).unwrap().1, value, s);
    }
}

proof fn lemma_extend_field_end(s: Seq<char>, mark: Seq<char>, t: Seq<char>)
    requires
        mark.len() == 1,
    ensures
        field_end(s, mark) matches Some(r) ==> field_end(s + t, mark) == Some(r + t) && is_left_of(
            r,
            s,
        ),
{
    reveal_strlit("\n");
    if field_end(s, mark) is Some {
        let u = hspace(s);
        lemma_extend_hspace(s, t);
        lemma_extend_literal(u, mark, t);
        let v = literal(u, mark)->0;
        let w = hspace(v);
        lemma_extend_hspace(v, t);
        lemma_extend_literal(w, "\n"@, t);
        lemma_left_of_left(v, u, s);
        lemma_left_of_left(w, v, s);
        lemma_left_of_left(literal(w, "\n"@)->0, w, s);
    }
}

proof fn lemma_extend_field(s: Seq<char>, mark: Seq<char>, t: Seq<char>)
    requires
        mark.len() == 1,
    ensures
        field(s, mark) matches Some((f, r)) ==> field(s + t, mark) == Some((f, r + t))
            && is_left_of(r, s),
{
    if field(s, mark) is Some {
        lemma_extend_kv(s, t);
        let r = kv(s).unwrap().1;
        lemma_extend_field_end(r, mark, t);
        lemma_left_of_left(field(s, mark).unwrap().1, r, s);
    }
}

/// The field that ends a header is none that a comma ends, whatever follows.
proof fn lemma_extend_last_field(s: Seq<char>, t: Seq<char>)
    requires
        field(s, ";"@) is Some,
    ensures
        field(s + t, ","@) is None,
{
    reveal_strlit(",");
    reveal_strlit(";");
    lemma_extend_kv(s, t);
    let r = kv(s).unwrap().1;
    let u = hspace(r);
    lemma_extend_hspace(r, t);
    assert(u.subrange(0, 1)[0] == ';');
    assert((u + t).subrange(0, 1)[0] == ';');
    assert(!","@.is_prefix_of(u + t));
}

/// The fields of a header that a comma ends, where one follows that a semicolon ends.
proof fn lemma_extend_comma_fields(s: Seq<char>, t: Seq<char>)
    requires
        field(comma_fields(s).1, ";"@) is Some,
    ensures
        comma_fields(s + t) == (comma_fields(s).0, comma_fields(s).1 + t),
        is_left_of(comma_fields(s).1, s),
    decreases s.len(),
{
    reveal_strlit(",");
    match field(s, ","@) {
        Some((f, rest)) => {
            lemma_field_len(s, ","@);
            lemma_extend_field(s, ","@, t);
            lemma_extend_comma_fields(rest, t);
            lemma_left_of_left(comma_fields(s).1, rest, s);
        },
        None => {
            lemma_extend_last_field(s, t);
            assert(s.skip(0) =~= s);
        },
    }
}

proof fn lemma_extend_header(s: Seq<char>, t: Seq<char>)
    ensures
        header(s) matches Some((fs, r)) ==> header(s + t) == Some((fs, r + t)) && is_left_of(r, s),
{
    reveal_strlit(";");
    if header(s) is Some {
        let r = comma_fields(s).1;
        lemma_extend_comma_fields(s, t);
        lemma_extend_field(r, ";"@, t);
        lemma_left_of_left(field(r, ";"@).unwrap().1, r, s);
    }
}

// ---------------------------------------------------------------------------
// Directive and body
// ---------------------------------------------------------------------------

/// The first occurrence stays the first.
proof fn lemma_extend_first_match(s: Seq<char>, pat: Seq<char>, t: Seq<char>)
    ensures
        first_match(s, pat) is Some ==> first_match(s + t, pat) == first_match(s, pat),
{
    lemma_first_match(s, pat);
    lemma_first_match(s + t, pat);
    if first_match(s, pat) is Some {
        let k = first_match(s, pat)->0 as int;
        let n = pat.len() as int;
        assert forall|j: int| 0 <= j <= k implies (pat.is_prefix_of(#[trigger] (s + t).skip(j))
            <==> pat.is_prefix_of(s.skip(j))) by {
            assert((s + t).skip(j).subrange(0, n) =~= s.skip(j).subrange(0, n));
        }
        match first_match(s + t, pat) {
            Some(m) => {
                if m < k {
                    assert(pat.is_prefix_of(s.skip(m as int)));
                }
                if m > k {
                    assert(!pat.is_prefix_of((s + t).skip(k)));
                }
            },
            None => {
                assert(!pat.is_prefix_of((s + t).skip(k)));
            },
        }
    }
}

proof fn lemma_extend_shebang(s: Seq<char>, t: Seq<char>)
    ensures
        shebang(s) matches Some(r) ==> shebang(s + t) == Some(r + t) && is_left_of(r, s),
{
    reveal_strlit("-- #!migration");
    reveal_strlit("-- #!test");
    let mark = "-- #!migration"@;
    if shebang(s) is Some {
        lemma_first_match(s, mark);
        lemma_extend_first_match(s, mark, t);
        let k = first_match(s, mark)->0 as int;
        assert forall|j: int| 0 <= j < k implies !#[trigger] is_test_directive(s + t, j) by {
            assert(!is_test_directive(s, j));
            assert((s + t).skip(j).subrange(0, 9) =~= s.skip(j).subrange(0, 9));
        }
        assert((s + t).skip(k) =~= s.skip(k) + t);
        lemma_extend_literal(s.skip(k), mark, t);
        lemma_left_of_left(shebang(s)->0, s.skip(k), s);
    }
}

/// A body that ends ahead of a directive ends there, whatever follows.
proof fn lemma_extend_body(s: Seq<char>, t: Seq<char>)
    ensures
        body(s).1.len() > 0 ==> body(s + t) == (body(s).0, body(s).1 + t),
        is_left_of(body(s).1, s),
{
    reveal_strlit("\n");
    reveal_strlit("\n-- #!");
    let line = "\n"@ + s;
    lemma_first_match(line, "\n-- #!"@);
    lemma_extend_first_match(line, "\n-- #!"@, t);
    assert("\n"@ + (s + t) =~= line + t);
    match first_match(line, "\n-- #!"@) {
        Some(k) => if k > 0 {
            assert((s + t).take(k - 1) =~= s.take(k - 1));
            assert((s + t).skip(k - 1) =~= s.skip(k - 1) + t);
        } else {
            assert(s.skip(0) =~= s);
        },
        None => {
            assert(s.skip(s.len() as int) =~= Seq::<char>::empty());
        },
    }
}

// ---------------------------------------------------------------------------
// Blocks
// ---------------------------------------------------------------------------

/// A block behind which another directive stands is read as before.
pub proof fn lemma_extend_migration(s: Seq<char>, t: Seq<char>)
    requires
        migration(s) is Complete,
    ensures
        migration(s) matches Block::Complete(m, rest) && {
            &&& is_left_of(rest, s)
            &&& rest.len() > 0 ==> migration(s + t) == Block::Complete(m, rest + t)
        },
{
    lemma_extend_shebang(s, t);
    let r = shebang(s)->0;
    lemma_extend_header(r, t);
    let r2 = header(r).unwrap().1;
    lemma_extend_body(r2, t);
    lemma_left_of_left(r2, r, s);
    lemma_left_of_left(body(r2).1, r2, s);
}

/// Text that holds no directive and ends with a line holds none behind which a block follows,
/// but for that of the block.
proof fn lemma_no_mark_ahead(line: Seq<char>, t: Seq<char>, j: int)
    requires
        line.len() > 0,
        line.last() == '\n',
        first_match(line, "\n-- #!"@) is None,
        0 <= j < line.len() - 1,
    ensures
        !"\n-- #!"@.is_prefix_of((line + t).skip(j)),
{
    reveal_strlit("\n-- #!");
    let pat = "\n-- #!"@;
    let n = line.len() - 1;
    lemma_first_match(line, pat);
    assert(!pat.is_prefix_of(line.skip(j)));
    if pat.is_prefix_of((line + t).skip(j)) {
        let found = (line + t).skip(j).subrange(0, 6);
        if j + 6 <= n + 1 {
            assert(line.skip(j).subrange(0, 6) =~= found);
        } else {
            // The newline that ends the text would stand inside the mark.
            assert(found[n - j] == line[n]);
            assert(pat[n - j] != '\n');
        }
    }
}

/// Behind text that holds no directive and ends with a line, a directive is the first.
proof fn lemma_first_mark(line: Seq<char>, t: Seq<char>)
    requires
        line.len() > 0,
        line.last() == '\n',
        first_match(line, "\n-- #!"@) is None,
        "-- #!"@.is_prefix_of(t),
    ensures
        first_match(line + t, "\n-- #!"@) == Some((line.len() - 1) as nat),
{
    reveal_strlit("\n-- #!");
    reveal_strlit("-- #!");
    let pat = "\n-- #!"@;
    let whole = line + t;
    let n = line.len() - 1;
    let front = t.subrange(0, 5);
    assert(whole.skip(n).subrange(0, 6) =~= pat) by {
        assert(front[0] == t[0] && front[1] == t[1] && front[2] == t[2] && front[3] == t[3]
            && front[4] == t[4]);
    }
    assert(pat.is_prefix_of(whole.skip(n)));
    lemma_first_match(whole, pat);
    match first_match(whole, pat) {
        Some(k) => {
            if k < n {
                lemma_no_mark_ahead(line, t, k as int);
            }
            if k > n {
                assert(!pat.is_prefix_of(whole.skip(n)));
            }
        },
        None => {
            assert(!pat.is_prefix_of(whole.skip(n)));
        },
    }
}

/// The last body of a text that ends with a line ends where a directive follows.
proof fn lemma_last_body(s: Seq<char>, t: Seq<char>)
    requires
        body(s).1.len() == 0,
        s.len() > 0 ==> s.last() == '\n',
        "-- #!"@.is_prefix_of(t),
    ensures
        body(s + t) == (body(s).0, if s.len() == 0 {
            t
        } else {
            seq!['\n'] + t
        }),
{
    reveal_strlit("\n");
    reveal_strlit("\n-- #!");
    let line = "\n"@ + s;
    let n = s.len() as int;
    lemma_first_match(line, "\n-- #!"@);
    assert(first_match(line, "\n-- #!"@) is None);
    lemma_first_mark(line, t);
    assert("\n"@ + (s + t) =~= line + t);
    if n == 0 {
        assert(s + t =~= t);
        assert(s =~= Seq::<char>::empty());
        assert(trim(s) =~= Seq::<char>::empty());
    } else {
        let cut = s.drop_last();
        let none = Seq::<char>::empty();
        assert((s + t).take(n - 1) =~= cut);
        assert((s + t).skip(n - 1) =~= seq!['\n'] + t);
        assert(none + cut + seq!['\n'] =~= s);
        assert(is_blank(seq!['\n']));
        lemma_trim_pad(none, cut, seq!['\n']);
    }
}

/// The last block of a text that ends with a line is read as before where a directive follows,
/// and leaves that directive.
pub proof fn lemma_last_block(s: Seq<char>, t: Seq<char>)
    requires
        migration(s) matches Block::Complete(_, rest) && rest.len() == 0,
        s.last() == '\n',
        "-- #!"@.is_prefix_of(t),
    ensures
        migration(s) matches Block::Complete(m, _) && (migration(s + t) == Block::Complete(m, t)
            || migration(s + t) == Block::Complete(m, seq!['\n'] + t)),
{
    lemma_extend_shebang(s, t);
    let r = shebang(s)->0;
    lemma_extend_header(r, t);
    let r2 = header(r).unwrap().1;
    lemma_left_of_left(r2, r, s);
    if r2.len() > 0 {
        assert(r2.last() == s.last());
    }
    lemma_last_body(r2, t);
}

} // verus!
