//! How to connect: TLS modes, the password file, the connection string, and the attempts that
//! a TLS mode calls for.
use crate::render::{decimal, u64_text};
use crate::text::{
    after_line, chars_of, lemma_line_len, lemma_skip_skip, line_end, line_len, same_text,
    string_of, trim, trim_end_at, trim_start_at,
};
use crate::types::{debug_form, debug_text};
use vstd::prelude::*;
use vstd::string::*;

verus! {

// ---------------------------------------------------------------------------
// TLS modes
// ---------------------------------------------------------------------------

/// The libpq `sslmode` values.
#[derive(Clone, Copy, Debug, PartialEq, Eq, Structural)]
pub enum SslMode {
    /// Never use TLS.
    Disable,
    /// Use TLS if the server offers it, else plaintext.
    Prefer,
    /// Require TLS, without verifying the certificate.
    Require,
    /// Require TLS and verify the certificate.
    VerifyCa,
    /// Require TLS and verify the certificate and the host name.
    VerifyFull,
}

/// The mode of a name.
pub open spec fn mode_named(s: Seq<char>) -> Option<SslMode> {
    if s == "disable"@ {
        Some(SslMode::Disable)
    } else if s == "prefer"@ {
        Some(SslMode::Prefer)
    } else if s == "require"@ {
        Some(SslMode::Require)
    } else if s == "verify-ca"@ {
        Some(SslMode::VerifyCa)
    } else if s == "verify-full"@ {
        Some(SslMode::VerifyFull)
    } else {
        None
    }
}

/// The message for a name that no mode has, given how it is shown.
pub open spec fn unknown_mode(shown: Seq<char>) -> Seq<char> {
    "unknown sslmode "@ + shown + "; use disable, prefer, require, verify-ca, or verify-full"@
}

/// The message for a name that no mode has, given how it is shown.
pub fn unknown_mode_message(shown: &str) -> (s: String)
    ensures
        s@ == unknown_mode(shown@),
{
    let mut s = String::new();
    s.append("unknown sslmode ");
    s.append(shown);
    s.append("; use disable, prefer, require, verify-ca, or verify-full");
    s
}

impl SslMode {
    /// The mode of a name, or a message that says which names there are.
    pub fn from_str(s: &str) -> (r: Result<SslMode, String>)
        ensures
            match r {
                Ok(mode) => mode_named(s@) == Some(mode),
                Err(message) => mode_named(s@) is None && message@ == unknown_mode(
                    debug_form(s@),
                ),
            },
    {
        if same_text(s, "disable") {
            Ok(SslMode::Disable)
        } else if same_text(s, "prefer") {
            Ok(SslMode::Prefer)
        } else if same_text(s, "require") {
            Ok(SslMode::Require)
        } else if same_text(s, "verify-ca") {
            Ok(SslMode::VerifyCa)
        } else if same_text(s, "verify-full") {
            Ok(SslMode::VerifyFull)
        } else {
            Err(unknown_mode_message(debug_text(s).as_str()))
        }
    }
}

/// The mode of a name, or a message that says which names there are.
pub fn parse_sslmode(s: &str) -> (r: Result<SslMode, String>)
    ensures
        match r {
            Ok(mode) => mode_named(s@) == Some(mode),
            Err(message) => mode_named(s@) is None && message@ == unknown_mode(
                    debug_form(s@),
                ),
        },
{
    SslMode::from_str(s)
}

/// Each mode has a name.
pub proof fn law_every_mode_has_a_name(mode: SslMode)
    ensures
        exists|s: Seq<char>| #[trigger] mode_named(s) == Some(mode),
{
    reveal_strlit("disable");
    reveal_strlit("prefer");
    reveal_strlit("require");
    reveal_strlit("verify-ca");
    reveal_strlit("verify-full");
    assert("disable"@[0] != "prefer"@[0]);
    assert("require"@[0] != "disable"@[0] && "require"@[0] != "prefer"@[0]);
    assert("verify-ca"@.len() != "verify-full"@.len());
    assert(mode_named("disable"@) == Some(SslMode::Disable));
    assert(mode_named("prefer"@) == Some(SslMode::Prefer));
    assert(mode_named("require"@) == Some(SslMode::Require));
    assert(mode_named("verify-ca"@) == Some(SslMode::VerifyCa));
    assert(mode_named("verify-full"@) == Some(SslMode::VerifyFull));
}

// ---------------------------------------------------------------------------
// The password file
// ---------------------------------------------------------------------------

/// How many characters stand before the first `:`.
pub open spec fn colon_at(s: Seq<char>) -> nat
    decreases s.len(),
{
    if s.len() == 0 || s[0] == ':' {
        0
    } else {
        1 + colon_at(s.skip(1))
    }
}

/// The first `n` fields of a line that colons separate, and the rest as the last field;
/// nothing where there are fewer.
pub open spec fn split_fields(s: Seq<char>, n: nat) -> Option<Seq<Seq<char>>>
    decreases n,
{
    if n == 0 {
        Some(seq![s])
    } else {
        let k = colon_at(s) as int;
        if k >= s.len() {
            None
        } else {
            match split_fields(s.skip(k + 1), (n - 1) as nat) {
                Some(rest) => Some(seq![s.take(k)] + rest),
                None => None,
            }
        }
    }
}

/// A field of the password file stands for a value: it is the value, or `*`.
pub open spec fn stands_for(pattern: Seq<char>, value: Seq<char>) -> bool {
    pattern == "*"@ || pattern == value
}

/// The password that a line of the password file gives for a connection.
pub open spec fn line_password(
    line: Seq<char>,
    host: Seq<char>,
    port: Seq<char>,
    dbname: Seq<char>,
    user: Seq<char>,
) -> Option<Seq<char>> {
    let t = trim(line);
    if t.len() == 0 || t[0] == '#' {
        None
    } else {
        match split_fields(t, 4) {
            Some(f) => if stands_for(f[0], host) && stands_for(f[1], port) && stands_for(
                f[2],
                dbname,
            ) && stands_for(f[3], user) {
                Some(f[4])
            } else {
                None
            },
            None => None,
        }
    }
}

/// The password that the first matching line of a password file gives for a connection.
pub open spec fn password_in(
    content: Seq<char>,
    host: Seq<char>,
    port: Seq<char>,
    dbname: Seq<char>,
    user: Seq<char>,
) -> Option<Seq<char>>
    decreases content.len(),
{
    if content.len() == 0 {
        None
    } else {
        match line_password(content.take(line_len(content) as int), host, port, dbname, user) {
            Some(password) => Some(password),
            None => {
                proof {
                    lemma_line_len(content);
                }
                password_in(after_line(content), host, port, dbname, user)
            },
        }
    }
}

/// The end of the field that starts at `start`.
fn field_end(text: &[char], start: usize, to: usize) -> (end: usize)
    requires
        start <= to <= text@.len(),
    ensures
        start <= end <= to,
        end - start == colon_at(text@.subrange(start as int, to as int)),
{
    let mut i: usize = start;
    while i < to && text[i] != ':'
        invariant
            start <= i <= to <= text@.len(),
            colon_at(text@.subrange(start as int, to as int)) == i - start + colon_at(
                text@.subrange(i as int, to as int),
            ),
        decreases to - i,
    {
        assert(text@.subrange(i as int, to as int).skip(1) =~= text@.subrange(i + 1, to as int));
        i += 1;
    }
    i
}

/// The fields of the characters `from..to`.
fn fields_at(text: &[char], from: usize, to: usize) -> (r: Option<Vec<String>>)
    requires
        from <= to <= text@.len(),
    ensures
        match r {
            Some(fields) => split_fields(text@.subrange(from as int, to as int), 4) == Some(
                fields.deep_view(),
            ) && fields@.len() == 5,
            None => split_fields(text@.subrange(from as int, to as int), 4) is None,
        },
{
    let ghost whole = split_fields(text@.subrange(from as int, to as int), 4);
    let mut fields: Vec<String> = Vec::new();
    let mut start: usize = from;
    let mut left: usize = 4;
    proof {
        assert(fields.deep_view() =~= Seq::<Seq<char>>::empty());
        assert forall|rest: Seq<Seq<char>>| Seq::<Seq<char>>::empty() + rest == rest by {
            assert(Seq::<Seq<char>>::empty() + rest =~= rest);
        }
    }
    while left > 0
        invariant
            from <= start <= to <= text@.len(),
            left <= 4,
            fields@.len() == 4 - left,
            whole == match split_fields(text@.subrange(start as int, to as int), left as nat) {
                Some(rest) => Some(fields.deep_view() + rest),
                None => None,
            },
            whole == split_fields(text@.subrange(from as int, to as int), 4),
        decreases left,
    {
        let ghost here = text@.subrange(start as int, to as int);
        let end = field_end(text, start, to);
        if end == to {
            return None;
        }
        let field = string_of(text, start, end);
        let ghost before = fields.deep_view();
        proof {
            let k = end - start;
            assert(here.take(k) =~= field@);
            assert(here.skip(k + 1) =~= text@.subrange(end + 1, to as int));
            match split_fields(here.skip(k + 1), (left - 1) as nat) {
                Some(rest) => {
                    assert(before + (seq![field@] + rest) =~= before.push(field@) + rest);
                },
                None => {},
            }
        }
        fields.push(field);
        assert(fields.deep_view() =~= before.push(field@));
        start = end + 1;
        left -= 1;
    }
    let last = string_of(text, start, to);
    let ghost before = fields.deep_view();
    fields.push(last);
    assert(fields.deep_view() =~= before.push(last@));
    assert(before + seq![last@] =~= before.push(last@));
    Some(fields)
}

/// Whether a field of the password file stands for a value.
fn field_matches(pattern: &str, value: &str) -> (r: bool)
    ensures
        r == stands_for(pattern@, value@),
{
    same_text(pattern, "*") || same_text(pattern, value)
}

/// The password that the line `from..to` gives for a connection.
fn password_at(
    text: &[char],
    from: usize,
    to: usize,
    host: &str,
    port: &str,
    dbname: &str,
    user: &str,
) -> (r: Option<String>)
    requires
        from <= to <= text@.len(),
    ensures
        ({
            let found = line_password(
                text@.subrange(from as int, to as int),
                host@,
                port@,
                dbname@,
                user@,
            );
            match r {
                Some(password) => found == Some(password@),
                None => found is None,
            }
        }),
{
    let line = vstd::slice::slice_subrange(text, from, to);
    let a = trim_start_at(line, 0);
    let b = trim_end_at(line, a, line.len());
    let ghost kept = trim(line@);
    assert(line@.skip(0) =~= line@);
    assert(line@.skip(a as int) =~= line@.subrange(a as int, line@.len() as int));
    assert(line@.subrange(a as int, b as int) == kept);
    if a == b || line[a] == '#' {
        return None;
    }
    match fields_at(line, a, b) {
        Some(fields) => {
            let ghost fs = fields.deep_view();
            assert(fs[0] == fields@[0]@ && fs[1] == fields@[1]@ && fs[2] == fields@[2]@ && fs[3]
                == fields@[3]@ && fs[4] == fields@[4]@);
            if field_matches(fields[0].as_str(), host) && field_matches(fields[1].as_str(), port)
                && field_matches(fields[2].as_str(), dbname) && field_matches(
                fields[3].as_str(),
                user,
            ) {
                Some(fields[4].clone())
            } else {
                None
            }
        },
        None => None,
    }
}

/// The password that a password file's content gives for a connection: that of the first line
/// whose host, port, database and user are those of the connection or `*`. Blank lines and
/// lines that start with `#` say nothing.
pub fn pgpass_lookup(content: &str, host: &str, port: u16, dbname: &str, user: &str) -> (r: Option<
    String,
>)
    ensures
        ({
            let found = password_in(content@, host@, decimal(port as nat), dbname@, user@);
            match r {
                Some(password) => found == Some(password@),
                None => found is None,
            }
        }),
{
    let port_text = u64_text(port as u64);
    let text = chars_of(content);
    let mut i: usize = 0;
    assert(text@.skip(0) =~= text@);
    while i < text.len()
        invariant
            text@ == content@,
            port_text@ == decimal(port as nat),
            i <= text@.len(),
            password_in(content@, host@, port_text@, dbname@, user@) == password_in(
                text@.skip(i as int),
                host@,
                port_text@,
                dbname@,
                user@,
            ),
        decreases text@.len() - i,
    {
        let ghost here = text@.skip(i as int);
        let end = line_end(text.as_slice(), i);
        assert(here.take(end - i) =~= text@.subrange(i as int, end as int));
        let found = password_at(
            text.as_slice(),
            i,
            end,
            host,
            port_text.as_str(),
            dbname,
            user,
        );
        if found.is_some() {
            return found;
        }
        if end < text.len() {
            proof {
                lemma_skip_skip(text@, i as int, end - i + 1);
            }
            i = end + 1;
        } else {
            assert(text@.skip(end as int) =~= Seq::<char>::empty());
            i = end;
        }
    }
    None
}

// ---------------------------------------------------------------------------
// Connection strings and attempts
// ---------------------------------------------------------------------------

/// The connection string, but for the TLS mode.
pub open spec fn base_string(
    host: Seq<char>,
    port: nat,
    user: Seq<char>,
    dbname: Seq<char>,
    password: Option<Seq<char>>,
) -> Seq<char> {
    let base = "host="@ + host + " port="@ + decimal(port) + " user="@ + user + " dbname="@
        + dbname;
    match password {
        Some(password) => base + " password="@ + password,
        None => base,
    }
}

/// What a TLS connection verifies.
#[derive(Clone, Copy, Debug, PartialEq, Eq, Structural)]
pub struct TlsPolicy {
    pub verify_certificate: bool,
    pub verify_hostname: bool,
}

/// One attempt to connect: the connection string, and the TLS policy unless it is in plaintext.
pub struct Attempt {
    pub conn_str: String,
    pub tls: Option<TlsPolicy>,
}

/// An attempt as mathematical values.
pub struct AttemptView {
    pub conn_str: Seq<char>,
    pub tls: Option<TlsPolicy>,
}

impl DeepView for Attempt {
    type V = AttemptView;

    open spec fn deep_view(&self) -> AttemptView {
        AttemptView { conn_str: self.conn_str@, tls: self.tls }
    }
}

/// TLS that verifies nothing.
pub open spec fn lax() -> Option<TlsPolicy> {
    Some(TlsPolicy { verify_certificate: false, verify_hostname: false })
}

/// The attempts that a mode calls for: each is made only where the one before it failed.
pub open spec fn attempts_for(base: Seq<char>, mode: SslMode) -> Seq<AttemptView> {
    match mode {
        SslMode::Disable => seq![AttemptView { conn_str: base + " sslmode=disable"@, tls: None }],
        SslMode::Prefer => seq![
            AttemptView { conn_str: base + " sslmode=prefer"@, tls: lax() },
            AttemptView { conn_str: base + " sslmode=disable"@, tls: None },
        ],
        SslMode::Require => seq![
            AttemptView { conn_str: base + " sslmode=require"@, tls: lax() },
        ],
        SslMode::VerifyCa => seq![
            AttemptView {
                conn_str: base + " sslmode=require"@,
                tls: Some(TlsPolicy { verify_certificate: true, verify_hostname: false }),
            },
        ],
        SslMode::VerifyFull => seq![
            AttemptView {
                conn_str: base + " sslmode=require"@,
                tls: Some(TlsPolicy { verify_certificate: true, verify_hostname: true }),
            },
        ],
    }
}

/// One attempt.
fn attempt(base: &str, mode: &str, tls: Option<TlsPolicy>) -> (a: Attempt)
    ensures
        a.conn_str@ == base@ + mode@,
        a.tls == tls,
{
    let mut conn_str = String::new();
    conn_str.append(base);
    conn_str.append(mode);
    assert(conn_str@ =~= base@ + mode@);
    Attempt { conn_str, tls }
}

/// The attempts to connect that a TLS mode calls for.
pub fn connect_attempts(
    host: &str,
    port: u16,
    user: &str,
    dbname: &str,
    password: Option<String>,
    mode: SslMode,
) -> (attempts: Vec<Attempt>)
    ensures
        attempts.deep_view() == attempts_for(
            base_string(
                host@,
                port as nat,
                user@,
                dbname@,
                match password {
                    Some(p) => Some(p@),
                    None => None,
                },
            ),
            mode,
        ),
{
    let mut base = String::new();
    base.append("host=");
    base.append(host);
    base.append(" port=");
    base.append(u64_text(port as u64).as_str());
    base.append(" user=");
    base.append(user);
    base.append(" dbname=");
    base.append(dbname);
    match &password {
        Some(password) => {
            base.append(" password=");
            base.append(password.as_str());
        },
        None => {},
    }
    let ghost want = base_string(
        host@,
        port as nat,
        user@,
        dbname@,
        match password {
            Some(p) => Some(p@),
            None => None,
        },
    );
    assert(base@ =~= want);
    let none = TlsPolicy { verify_certificate: false, verify_hostname: false };
    let certificate = TlsPolicy { verify_certificate: true, verify_hostname: false };
    let both = TlsPolicy { verify_certificate: true, verify_hostname: true };
    let mut attempts: Vec<Attempt> = Vec::new();
    match mode {
        SslMode::Disable => {
            attempts.push(attempt(base.as_str(), " sslmode=disable", None));
        },
        SslMode::Prefer => {
            attempts.push(attempt(base.as_str(), " sslmode=prefer", Some(none)));
            attempts.push(attempt(base.as_str(), " sslmode=disable", None));
        },
        SslMode::Require => {
            attempts.push(attempt(base.as_str(), " sslmode=require", Some(none)));
        },
        SslMode::VerifyCa => {
            attempts.push(attempt(base.as_str(), " sslmode=require", Some(certificate)));
        },
        SslMode::VerifyFull => {
            attempts.push(attempt(base.as_str(), " sslmode=require", Some(both)));
        },
    }
    assert(attempts.deep_view() =~= attempts_for(want, mode));
    attempts
}

/// Only `disable` and `prefer` ever connect in plaintext, `prefer` only after TLS failed;
/// and `verify-ca` and `verify-full` never accept a certificate unverified.
pub proof fn law_tls_is_used_as_asked(base: Seq<char>, mode: SslMode, i: int)
    requires
        0 <= i < attempts_for(base, mode).len(),
    ensures
        attempts_for(base, mode)[i].tls is None ==> mode == SslMode::Disable || (mode
            == SslMode::Prefer && i > 0),
        mode == SslMode::VerifyCa || mode == SslMode::VerifyFull ==> (
        attempts_for(base, mode)[i].tls matches Some(p) && p.verify_certificate),
        mode == SslMode::VerifyFull ==> (attempts_for(base, mode)[i].tls matches Some(p)
            && p.verify_hostname),
{
}

} // verus!
