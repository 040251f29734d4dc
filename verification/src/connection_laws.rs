//! What holds of connections: which lines of a password file speak for which connection, and
//! what a connection string says.
use crate::connection::{
    attempts_for, base_string, colon_at, line_password, mode_named, password_in, split_fields,
    SslMode,
};
use crate::render::decimal;
use crate::text::trim;
use crate::text_laws::lemma_line_ahead;
use vstd::prelude::*;

verus! {

// ---------------------------------------------------------------------------
// The password file
// ---------------------------------------------------------------------------

/// The line `host:port:dbname:user:password`.
pub open spec fn password_line(
    host: Seq<char>,
    port: Seq<char>,
    dbname: Seq<char>,
    user: Seq<char>,
    password: Seq<char>,
) -> Seq<char> {
    host + seq![':'] + port + seq![':'] + dbname + seq![':'] + user + seq![':'] + password
}

/// No `:` stands before the first one.
proof fn lemma_colon_at(s: Seq<char>)
    ensures
        colon_at(s) <= s.len(),
        !s.take(colon_at(s) as int).contains(':'),
        colon_at(s) < s.len() ==> s[colon_at(s) as int] == ':',
    decreases s.len(),
{
    if s.len() > 0 && s[0] != ':' {
        let t = s.skip(1);
        lemma_colon_at(t);
        let k = colon_at(t) as int;
        assert forall|i: int| 0 <= i < k + 1 implies s[i] != ':' by {
            if i > 0 {
                assert(t.take(k)[i - 1] == s[i]);
            }
        }
        assert forall|i: int| 0 <= i < k + 1 implies #[trigger] s.take(k + 1)[i] != ':' by {}
    }
}

/// A field that stands first is split off.
proof fn lemma_first_field(field: Seq<char>, rest: Seq<char>)
    requires
        !field.contains(':'),
    ensures
        colon_at(field + seq![':'] + rest) == field.len(),
        (field + seq![':'] + rest).take(field.len() as int) == field,
        (field + seq![':'] + rest).skip(field.len() as int + 1) == rest,
{
    let s = field + seq![':'] + rest;
    lemma_colon_at(s);
    let k = colon_at(s) as int;
    assert(s[field.len() as int] == ':');
    if k < field.len() {
        assert(field[k] == ':');
    }
    if k > field.len() {
        assert(s.take(k)[field.len() as int] == ':');
    }
    assert(s.take(field.len() as int) =~= field);
    assert(s.skip(field.len() as int + 1) =~= rest);
}

/// The fields of a line.
proof fn lemma_fields(
    h: Seq<char>,
    p: Seq<char>,
    d: Seq<char>,
    u: Seq<char>,
    password: Seq<char>,
)
    requires
        !h.contains(':'),
        !p.contains(':'),
        !d.contains(':'),
        !u.contains(':'),
    ensures
        split_fields(password_line(h, p, d, u, password), 4) == Some(seq![h, p, d, u, password]),
{
    let c = seq![':'];
    let r3 = u + c + password;
    let r2 = d + c + r3;
    let r1 = p + c + r2;
    let s = h + c + r1;
    assert(password_line(h, p, d, u, password) =~= s);
    lemma_first_field(h, r1);
    lemma_first_field(p, r2);
    lemma_first_field(d, r3);
    lemma_first_field(u, password);
    reveal_with_fuel(split_fields, 5);
    assert(split_fields(password, 0) == Some(seq![password]));
    assert(split_fields(r3, 1) == Some(seq![u] + seq![password]));
    assert(split_fields(r2, 2) == Some(seq![d] + (seq![u] + seq![password])));
    assert(split_fields(r1, 3) == Some(seq![p] + (seq![d] + (seq![u] + seq![password]))));
    assert(seq![h] + (seq![p] + (seq![d] + (seq![u] + seq![password]))) =~= seq![
        h,
        p,
        d,
        u,
        password,
    ]);
}

/// A text that splits is put together again by colons.
proof fn lemma_split_joins(s: Seq<char>)
    requires
        split_fields(s, 4) is Some,
    ensures
        ({
            let f = split_fields(s, 4)->0;
            &&& f.len() == 5
            &&& s == password_line(f[0], f[1], f[2], f[3], f[4])
            &&& forall|i: int| 0 <= i < 4 ==> !(#[trigger] f[i]).contains(':')
        }),
{
    reveal_with_fuel(split_fields, 5);
    let k0 = colon_at(s) as int;
    lemma_colon_at(s);
    let r1 = s.skip(k0 + 1);
    let k1 = colon_at(r1) as int;
    lemma_colon_at(r1);
    let r2 = r1.skip(k1 + 1);
    let k2 = colon_at(r2) as int;
    lemma_colon_at(r2);
    let r3 = r2.skip(k2 + 1);
    let k3 = colon_at(r3) as int;
    lemma_colon_at(r3);
    let r4 = r3.skip(k3 + 1);
    let f = split_fields(s, 4)->0;
    assert(f =~= seq![s.take(k0), r1.take(k1), r2.take(k2), r3.take(k3), r4]);
    let c = seq![':'];
    assert(s =~= s.take(k0) + c + r1);
    assert(r1 =~= r1.take(k1) + c + r2);
    assert(r2 =~= r2.take(k2) + c + r3);
    assert(r3 =~= r3.take(k3) + c + r4);
    assert(password_line(f[0], f[1], f[2], f[3], f[4]) =~= s.take(k0) + c + (r1.take(k1) + c + (
    r2.take(k2) + c + (r3.take(k3) + c + r4))));
}

/// A line gives a password only for its own connection: where it gives one, the line is
/// `h:p:d:u:password`, and each of `h`, `p`, `d` and `u` is `*` or the host, the port, the
/// database and the user in turn.
pub proof fn law_password_is_for_its_own_connection(
    line: Seq<char>,
    host: Seq<char>,
    port: Seq<char>,
    dbname: Seq<char>,
    user: Seq<char>,
    password: Seq<char>,
)
    requires
        line_password(line, host, port, dbname, user) == Some(password),
    ensures
        trim(line).len() > 0,
        trim(line)[0] != '#',
        exists|h: Seq<char>, p: Seq<char>, d: Seq<char>, u: Seq<char>|
            {
                &&& trim(line) == #[trigger] password_line(h, p, d, u, password)
                &&& !h.contains(':') && !p.contains(':') && !d.contains(':') && !u.contains(':')
                &&& (h == "*"@ || h == host)
                &&& (p == "*"@ || p == port)
                &&& (d == "*"@ || d == dbname)
                &&& (u == "*"@ || u == user)
            },
{
    let t = trim(line);
    lemma_split_joins(t);
    let f = split_fields(t, 4)->0;
    assert(!f[0].contains(':') && !f[1].contains(':') && !f[2].contains(':') && !f[3].contains(
        ':',
    ));
    assert(t == password_line(f[0], f[1], f[2], f[3], password));
}

/// The line `h:p:d:u:password` gives its password to exactly the connections whose host, port,
/// database and user it names, or for which it has `*`.
pub proof fn law_password_line_is_read(
    line: Seq<char>,
    h: Seq<char>,
    p: Seq<char>,
    d: Seq<char>,
    u: Seq<char>,
    password: Seq<char>,
    host: Seq<char>,
    port: Seq<char>,
    dbname: Seq<char>,
    user: Seq<char>,
)
    requires
        trim(line) == password_line(h, p, d, u, password),
        trim(line)[0] != '#',
        !h.contains(':'),
        !p.contains(':'),
        !d.contains(':'),
        !u.contains(':'),
    ensures
        (h == "*"@ || h == host) && (p == "*"@ || p == port) && (d == "*"@ || d == dbname) && (u
            == "*"@ || u == user) ==> line_password(line, host, port, dbname, user) == Some(
            password,
        ),
        h != "*"@ && h != host ==> line_password(line, host, port, dbname, user) is None,
        p != "*"@ && p != port ==> line_password(line, host, port, dbname, user) is None,
        d != "*"@ && d != dbname ==> line_password(line, host, port, dbname, user) is None,
        u != "*"@ && u != user ==> line_password(line, host, port, dbname, user) is None,
{
    lemma_fields(h, p, d, u, password);
}

/// A comment gives no password, nor does a blank line.
pub proof fn law_comment_gives_no_password(
    line: Seq<char>,
    host: Seq<char>,
    port: Seq<char>,
    dbname: Seq<char>,
    user: Seq<char>,
)
    requires
        trim(line).len() == 0 || trim(line)[0] == '#',
    ensures
        line_password(line, host, port, dbname, user) is None,
{
}

/// The first line of a password file that gives a password decides; where it gives none, the
/// lines behind it do.
pub proof fn law_first_line_decides(
    line: Seq<char>,
    rest: Seq<char>,
    host: Seq<char>,
    port: Seq<char>,
    dbname: Seq<char>,
    user: Seq<char>,
)
    requires
        !line.contains('\n'),
    ensures
        password_in(line + seq!['\n'] + rest, host, port, dbname, user) == match line_password(
            line,
            host,
            port,
            dbname,
            user,
        ) {
            Some(password) => Some(password),
            None => password_in(rest, host, port, dbname, user),
        },
        password_in(line, host, port, dbname, user) == line_password(
            line,
            host,
            port,
            dbname,
            user,
        ),
{
    lemma_line_ahead(line, rest);
    let s = line + seq!['\n'] + rest;
    assert(s.take(line.len() as int) =~= line);
    assert(line.take(line.len() as int) =~= line);
    reveal_with_fuel(password_in, 2);
    if line.len() == 0 {
        assert(trim(line).len() == 0);
    }
}

// ---------------------------------------------------------------------------
// Modes, connection strings and attempts
// ---------------------------------------------------------------------------

/// Each mode has one name, and no other text names a mode.
pub proof fn law_mode_names(s: Seq<char>)
    ensures
        mode_named(s) == Some(SslMode::Disable) <==> s == "disable"@,
        mode_named(s) == Some(SslMode::Prefer) <==> s == "prefer"@,
        mode_named(s) == Some(SslMode::Require) <==> s == "require"@,
        mode_named(s) == Some(SslMode::VerifyCa) <==> s == "verify-ca"@,
        mode_named(s) == Some(SslMode::VerifyFull) <==> s == "verify-full"@,
{
    reveal_strlit("disable");
    reveal_strlit("prefer");
    reveal_strlit("require");
    reveal_strlit("verify-ca");
    reveal_strlit("verify-full");
    assert("disable"@[0] == 'd' && "prefer"@[0] == 'p' && "require"@[0] == 'r');
    assert("verify-ca"@[0] == 'v' && "verify-full"@[0] == 'v');
    assert("verify-ca"@.len() != "verify-full"@.len());
}

/// A connection string names the host, the port, the user and the database, each under its
/// keyword, and the password behind them where there is one.
pub proof fn law_base_string(
    host: Seq<char>,
    port: nat,
    user: Seq<char>,
    dbname: Seq<char>,
    password: Seq<char>,
)
    ensures
        base_string(host, port, user, dbname, None) == "host="@ + host + (" port="@ + decimal(port))
            + (" user="@ + user) + (" dbname="@ + dbname),
        base_string(host, port, user, dbname, Some(password)) == base_string(
            host,
            port,
            user,
            dbname,
            None,
        ) + (" password="@ + password),
{
    assert(base_string(host, port, user, dbname, None) =~= "host="@ + host + (" port="@ + decimal(
        port,
    )) + (" user="@ + user) + (" dbname="@ + dbname));
    assert(base_string(host, port, user, dbname, Some(password)) =~= base_string(
        host,
        port,
        user,
        dbname,
        None,
    ) + (" password="@ + password));
}

/// Every attempt uses the connection string that it was given, with the `sslmode` of its TLS
/// policy behind it: plaintext says `disable`, the first of two attempts says `prefer`, and
/// any other says `require`. Only `prefer` makes a second attempt, and that is in plaintext.
pub proof fn law_attempts(base: Seq<char>, mode: SslMode, i: int)
    requires
        0 <= i < attempts_for(base, mode).len(),
    ensures
        ({
            let all = attempts_for(base, mode);
            &&& all.len() == if mode == SslMode::Prefer { 2int } else { 1 }
            &&& all[i].tls is None <==> mode == SslMode::Disable || i == 1
            &&& all[i].conn_str == base + if all[i].tls is None {
                " sslmode=disable"@
            } else if mode == SslMode::Prefer {
                " sslmode=prefer"@
            } else {
                " sslmode=require"@
            }
            &&& all[i].tls matches Some(policy) ==> {
                &&& policy.verify_certificate <==> mode == SslMode::VerifyCa || mode
                    == SslMode::VerifyFull
                &&& policy.verify_hostname <==> mode == SslMode::VerifyFull
            }
        }),
{
}

} // verus!
