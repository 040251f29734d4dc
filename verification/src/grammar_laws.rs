//! What holds of every migration file that parses, and of files that do not.
use crate::grammar::{
    body, file, header, is_test_directive, lemma_migration_len, migration, quoted_char,
    quoted_chars, quoted_string, shebang, Block,
};
use crate::grammar_join::{lemma_extend_migration, lemma_last_block};
use crate::search::{first_match, lemma_first_match, occurs_in};
use crate::text::{
    is_blank, is_whitespace, lemma_trim_end_shape, lemma_trim_idempotent, lemma_trim_start_shape,
    trim, trim_start,
};
use crate::types::{body_checksum, MigrationView};
use vstd::prelude::*;
use vstd::string::*;

verus! {

// ---------------------------------------------------------------------------
// Quoted strings
// ---------------------------------------------------------------------------

/// `s` with a backslash before each `"` and each backslash.
pub open spec fn escaped(s: Seq<char>) -> Seq<char>
    decreases s.len(),
{
    if s.len() == 0 {
        seq![]
    } else if s[0] == '"' || s[0] == '\\' {
        seq!['\\', s[0]] + escaped(s.skip(1))
    } else {
        seq![s[0]] + escaped(s.skip(1))
    }
}

proof fn lemma_read_escaped(s: Seq<char>, rest: Seq<char>)
    requires
        rest.len() > 0,
        rest[0] == '"',
    ensures
        quoted_chars(escaped(s) + rest) == (s, rest),
    decreases s.len(),
{
    let t = escaped(s) + rest;
    if s.len() == 0 {
        assert(t =~= rest);
        assert(s =~= Seq::<char>::empty());
    } else {
        let more = s.skip(1);
        let u = escaped(more) + rest;
        lemma_read_escaped(more, rest);
        if s[0] == '"' || s[0] == '\\' {
            assert(t =~= seq!['\\', s[0]] + u);
            assert(t.skip(2) =~= u);
        } else {
            assert(t =~= seq![s[0]] + u);
            assert(t.skip(1) =~= u);
        }
        assert(quoted_char(t) == Some((s[0], u)));
        assert(seq![s[0]] + more =~= s);
    }
}

/// Any text can be written as a quoted string: escaped and in quotes, it is read back as
/// itself.
pub proof fn law_escaped_string_reads_back(s: Seq<char>, rest: Seq<char>)
    ensures
        quoted_string(seq!['"'] + escaped(s) + seq!['"'] + rest) == Some((s, rest)),
{
    let end = seq!['"'] + rest;
    let t = seq!['"'] + escaped(s) + seq!['"'] + rest;
    lemma_read_escaped(s, end);
    assert(t.skip(1) =~= escaped(s) + end);
    assert(end.skip(1) =~= rest);
}

// ---------------------------------------------------------------------------
// Scripts
// ---------------------------------------------------------------------------

/// A body is trimmed, and no line behind its first starts with a directive.
proof fn lemma_body(s: Seq<char>)
    ensures
        trim(body(s).0) == body(s).0,
        !occurs_in("\n-- #!"@, body(s).0),
{
    reveal_strlit("\n");
    reveal_strlit("\n-- #!");
    let mark = "\n-- #!"@;
    let nl = "\n"@ + s;
    lemma_first_match(nl, mark);
    let whole = match first_match(nl, mark) {
        Some(k) => if k == 0 {
            Seq::<char>::empty()
        } else {
            s.take(k - 1)
        },
        None => s,
    };
    let kept = body(s).0;
    assert(trim(Seq::<char>::empty()) =~= Seq::<char>::empty());
    assert(kept == trim(whole));
    lemma_trim_idempotent(whole);
    if occurs_in(mark, kept) {
        // An occurrence in the trimmed text is one in the text, ahead of the first.
        lemma_first_match(kept, mark);
        let p = first_match(kept, mark)->0 as int;
        lemma_trim_start_shape(whole);
        let front = whole.len() - trim_start(whole).len();
        lemma_trim_end_shape(trim_start(whole));
        assert(kept == trim_start(whole).take(kept.len() as int));
        assert forall|x: int| 0 <= x < kept.len() implies #[trigger] kept[x] == nl[1 + front + x] by {
            assert(kept[x] == trim_start(whole)[x]);
            assert(trim_start(whole)[x] == whole[front + x]);
        }
        let at = 1 + front + p;
        assert(kept.skip(p).subrange(0, 6) =~= mark);
        assert forall|x: int| 0 <= x < 6 implies nl.skip(at).subrange(0, 6)[x] == mark[x] by {
            assert(kept.skip(p).subrange(0, 6)[x] == kept[p + x]);
        }
        assert(nl.skip(at).subrange(0, 6) =~= mark);
        assert(mark.is_prefix_of(nl.skip(at)));
    }
}

/// What is read of a file: every script is trimmed, no line behind its first starts with a
/// directive, and every checksum is the checksum of its script.
pub proof fn law_parsed_scripts(s: Seq<char>, i: int)
    requires
        file(s) matches Ok(ms) && 0 <= i < ms.len(),
    ensures
        ({
            let m = file(s)->Ok_0[i];
            &&& trim(m.script) == m.script
            &&& !occurs_in("\n-- #!"@, m.script)
            &&& m.checksum == body_checksum(m.script)
        }),
    decreases s.len(),
{
    if s.len() > 0 {
        match migration(s) {
            Block::Complete(m, rest) => {
                lemma_migration_len(s);
                let more = file(rest)->Ok_0;
                if i == 0 {
                    let r = shebang(s)->0;
                    match header(r) {
                        Some((fields, r2)) => {
                            lemma_body(r2);
                        },
                        None => {},
                    }
                    assert((seq![m] + more)[0] == m);
                } else {
                    law_parsed_scripts(rest, i - 1);
                    assert((seq![m] + more)[i] == more[i - 1]);
                }
            },
            _ => {},
        }
    }
}

// ---------------------------------------------------------------------------
// Test blocks
// ---------------------------------------------------------------------------

/// A test block is an error: a text in which a test directive comes ahead of every
/// `-- #!migration` does not parse.
pub proof fn law_test_block_is_rejected(s: Seq<char>, k: int)
    requires
        is_test_directive(s, k),
        forall|j: int|
            0 <= j <= k ==> !"-- #!migration"@.is_prefix_of(#[trigger] s.skip(j)),
    ensures
        migration(s) is Missing,
        file(s) == Err::<Seq<MigrationView>, nat>(s.len()),
{
    reveal_strlit("-- #!test");
    lemma_first_match(s, "-- #!migration"@);
    assert(s.skip(k).len() == s.len() - k);
    match first_match(s, "-- #!migration"@) {
        Some(m) => {
            assert(k < m) by {
                if m <= k {
                    assert(!"-- #!migration"@.is_prefix_of(s.skip(m as int)));
                }
            }
            assert(shebang(s) is None);
        },
        None => {},
    }
}

/// A test block behind a migration is an error too.
pub proof fn law_test_block_behind_migration_is_rejected(
    s: Seq<char>,
    m: MigrationView,
    rest: Seq<char>,
    k: int,
)
    requires
        s.len() > 0,
        migration(s) == Block::Complete(m, rest),
        is_test_directive(rest, k),
        is_blank(rest.take(k)),
    ensures
        file(s) is Err,
{
    reveal_strlit("-- #!test");
    reveal_strlit("-- #!migration");
    let block = rest.skip(k);
    assert forall|j: int| 0 <= j <= k implies !"-- #!migration"@.is_prefix_of(
        #[trigger] rest.skip(j),
    ) by {
        let t = rest.skip(j);
        if "-- #!migration"@.is_prefix_of(t) {
            let mark = t.subrange(0, 14);
            assert(mark[0] == rest[j] && mark[5] == rest[j + 5]);
            if j < k {
                assert(rest.take(k)[j] == rest[j]);
                assert(is_whitespace(rest[j]));
            } else {
                assert(block.subrange(0, 9)[5] == rest[j + 5]);
            }
        }
    }
    law_test_block_is_rejected(rest, k);
}

/// Other text ahead of a block is skipped, a comment that mentions a test directive too: a
/// block reads the same behind it.
pub proof fn law_text_ahead_is_skipped(before: Seq<char>, s: Seq<char>)
    requires
        "-- #!migration"@.is_prefix_of(s),
        forall|j: int|
            0 <= j < before.len() ==> !"-- #!migration"@.is_prefix_of(
                #[trigger] (before + s).skip(j),
            ) && !is_test_directive(before + s, j),
    ensures
        migration(before + s) == migration(s),
        file(s) is Ok ==> file(before + s) == file(s),
        file(before + s) is Ok <==> file(s) is Ok,
{
    reveal_strlit("-- #!migration");
    let mark = "-- #!migration"@;
    let t = before + s;
    let k = before.len() as int;
    assert(t.skip(k) =~= s);
    assert(s.skip(0) =~= s);
    lemma_first_match(t, mark);
    match first_match(t, mark) {
        Some(m) => {
            if m < k {
                assert(!mark.is_prefix_of(t.skip(m as int)));
            }
            if m > k {
                assert(!mark.is_prefix_of(t.skip(k)));
            }
        },
        None => {
            assert(!mark.is_prefix_of(t.skip(k)));
        },
    }
    assert(first_match(t, mark) == Some(k as nat));
    assert(first_match(s, mark) == Some(0nat));
    assert forall|j: int| 0 <= j < k implies !#[trigger] is_test_directive(t, j) by {
        assert(!mark.is_prefix_of(t.skip(j)));
    }
    assert(shebang(t) == shebang(s));
    assert(s.len() > 0);
}

// ---------------------------------------------------------------------------
// Joined files
// ---------------------------------------------------------------------------

/// What follows the blocks of a text that ends with a line, and starts with a directive, is read
/// as if it stood alone, or behind an empty line.
pub proof fn lemma_joined(t1: Seq<char>, t2: Seq<char>, a: Seq<MigrationView>) -> (pad: Seq<char>)
    requires
        file(t1) == Ok::<Seq<MigrationView>, nat>(a),
        t1.len() > 0,
        t1.last() == '\n',
        "-- #!"@.is_prefix_of(t2),
    ensures
        pad == Seq::<char>::empty() || pad == seq!['\n'],
        file(t1 + t2) == match file(pad + t2) {
            Ok(b) => Ok::<Seq<MigrationView>, nat>(a + b),
            Err(left) => Err(left),
        },
    decreases t1.len(),
{
    let (m, rest) = match migration(t1) {
        Block::Complete(m, rest) => (m, rest),
        _ => arbitrary(),
    };
    lemma_migration_len(t1);
    let more = file(rest)->Ok_0;
    assert(a == seq![m] + more);
    lemma_extend_migration(t1, t2);
    if rest.len() == 0 {
        assert(rest =~= Seq::<char>::empty());
        assert(more =~= Seq::<MigrationView>::empty());
        assert(a =~= seq![m]);
        lemma_last_block(t1, t2);
        let none = Seq::<char>::empty();
        assert(none + t2 =~= t2);
        if migration(t1 + t2) == Block::Complete(m, t2) {
            none
        } else {
            seq!['\n']
        }
    } else {
        let pad = lemma_joined(rest, t2, more);
        match file(pad + t2) {
            Ok(b) => {
                assert(seq![m] + (more + b) =~= a + b);
            },
            Err(_) => {},
        }
        pad
    }
}

/// An empty line ahead of a block makes no difference.
proof fn lemma_empty_line_ahead(t: Seq<char>)
    requires
        "-- #!migration"@.is_prefix_of(t),
    ensures
        "-- #!"@.is_prefix_of(t),
        migration(seq!['\n'] + t) == migration(t),
{
    let line = seq!['\n'];
    reveal_strlit("-- #!");
    reveal_strlit("-- #!migration");
    reveal_strlit("-- #!test");
    assert forall|i: int| 0 <= i < 5 implies t.subrange(0, 5)[i] == "-- #!"@[i] by {
        assert(t.subrange(0, 14)[i] == t[i]);
    }
    assert(t.subrange(0, 5) =~= "-- #!"@);
    assert forall|j: int| 0 <= j < line.len() implies !"-- #!migration"@.is_prefix_of(
        #[trigger] (line + t).skip(j),
    ) && !is_test_directive(line + t, j) by {
        assert((line + t).skip(0).subrange(0, 1)[0] == '\n');
        assert((line + t).skip(0)[0] == '\n');
    }
    law_text_ahead_is_skipped(line, t);
}

/// A file made of two joined files holds the blocks of the first and behind them those of the
/// second, in file order and with nothing lost. The first file ends with a line, and the
/// second starts with a block.
pub proof fn law_joined_files(
    t1: Seq<char>,
    t2: Seq<char>,
    a: Seq<MigrationView>,
    b: Seq<MigrationView>,
)
    requires
        file(t1) == Ok::<Seq<MigrationView>, nat>(a),
        file(t2) == Ok::<Seq<MigrationView>, nat>(b),
        t1.len() > 0,
        t1.last() == '\n',
        "-- #!migration"@.is_prefix_of(t2),
    ensures
        file(t1 + t2) == Ok::<Seq<MigrationView>, nat>(a + b),
{
    reveal_strlit("-- #!migration");
    lemma_empty_line_ahead(t2);
    let pad = lemma_joined(t1, t2, a);
    assert(Seq::<char>::empty() + t2 =~= t2);
}

/// A file made of two joined files is invalid where the second is, and at the same place, but
/// for an empty line. The first file ends with a line, and the second starts with a block.
pub proof fn law_joined_with_invalid_file(
    t1: Seq<char>,
    t2: Seq<char>,
    a: Seq<MigrationView>,
    left: nat,
)
    requires
        file(t1) == Ok::<Seq<MigrationView>, nat>(a),
        file(t2) == Err::<Seq<MigrationView>, nat>(left),
        t1.len() > 0,
        t1.last() == '\n',
        "-- #!migration"@.is_prefix_of(t2),
    ensures
        file(t1 + t2) == Err::<Seq<MigrationView>, nat>(left) || file(t1 + t2) == Err::<
            Seq<MigrationView>,
            nat,
        >(left + 1),
{
    reveal_strlit("-- #!migration");
    lemma_empty_line_ahead(t2);
    let pad = lemma_joined(t1, t2, a);
    assert(Seq::<char>::empty() + t2 =~= t2);
}

} // verus!
