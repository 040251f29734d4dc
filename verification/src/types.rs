//! Core data types: [`MigrationName`], [`Migration`], the library [`Error`] enum, and
//! the [`checksum`] function (SHA-256 of a migration's whitespace-trimmed SQL body).
use crate::hash::{sha256, sha256_digest};
use crate::render::{bracketed, decimal, list_text, usize_text};
use crate::text::{chars_of, is_blank, lemma_trim_idempotent, lemma_trim_pad, same_text, trim, trimmed};
use vstd::prelude::*;
use vstd::string::*;
use vstd::utf8::encode_utf8;

verus! {

// ---------------------------------------------------------------------------
// Names and migrations
// ---------------------------------------------------------------------------

/// A migration's unique name, e.g. `"tables/phone"`.
#[derive(Debug, PartialEq, Eq, Hash, PartialOrd, Ord)]
pub struct MigrationName(pub String);

impl View for MigrationName {
    type V = Seq<char>;

    open spec fn view(&self) -> Seq<char> {
        self.0@
    }
}

impl DeepView for MigrationName {
    type V = Seq<char>;

    open spec fn deep_view(&self) -> Seq<char> {
        self.0@
    }
}

impl Clone for MigrationName {
    fn clone(&self) -> (res: Self)
        ensures
            res == *self,
    {
        MigrationName(self.0.clone())
    }
}

impl MigrationName {
    /// The name as text.
    pub fn to_string(&self) -> (s: String)
        ensures
            s@ == self@,
    {
        self.0.clone()
    }
}

/// A single migration block of a `.sql` file.
#[derive(Debug, PartialEq, Eq)]
pub struct Migration {
    pub name: MigrationName,
    pub description: String,
    /// Explicit `requires` merged with the implicit in-file predecessor.
    pub requires: Vec<MigrationName>,
    /// SQL body with leading and trailing whitespace trimmed.
    pub script: String,
    /// SHA-256 of `script`: 32 raw bytes.
    pub checksum: [u8; 32],
}

/// A migration as mathematical values.
#[verifier::ext_equal]
pub struct MigrationView {
    pub name: Seq<char>,
    pub description: Seq<char>,
    pub requires: Seq<Seq<char>>,
    pub script: Seq<char>,
    pub checksum: Seq<u8>,
}

impl View for Migration {
    type V = MigrationView;

    open spec fn view(&self) -> MigrationView {
        MigrationView {
            name: self.name@,
            description: self.description@,
            requires: self.requires.deep_view(),
            script: self.script@,
            checksum: self.checksum@,
        }
    }
}

impl DeepView for Migration {
    type V = MigrationView;

    open spec fn deep_view(&self) -> MigrationView {
        self@
    }
}

/// A copy of a list of names.
pub fn clone_names(names: &[MigrationName]) -> (copy: Vec<MigrationName>)
    ensures
        copy@ == names@,
{
    let mut copy: Vec<MigrationName> = Vec::new();
    let mut i: usize = 0;
    while i < names.len()
        invariant
            i <= names@.len(),
            copy@ == names@.take(i as int),
        decreases names@.len() - i,
    {
        copy.push(names[i].clone());
        i += 1;
        assert(copy@ =~= names@.take(i as int));
    }
    assert(names@.take(names@.len() as int) =~= names@);
    copy
}

/// Whether a list of names holds a name.
pub fn holds_name(names: &[MigrationName], name: &str) -> (r: bool)
    ensures
        r == names.deep_view().contains(name@),
{
    let ghost all = names.deep_view();
    let mut i: usize = 0;
    while i < names.len()
        invariant
            all == names.deep_view(),
            i <= names@.len(),
            forall|j: int| 0 <= j < i ==> all[j] != name@,
        decreases names@.len() - i,
    {
        assert(all[i as int] == names@[i as int]@);
        if same_text(names[i].0.as_str(), name) {
            return true;
        }
        i += 1;
    }
    false
}

impl Clone for Migration {
    fn clone(&self) -> (res: Self)
        ensures
            res@ == self@,
    {
        let needed = clone_names(self.requires.as_slice());
        let res = Migration {
            name: self.name.clone(),
            description: self.description.clone(),
            requires: needed,
            script: self.script.clone(),
            checksum: self.checksum,
        };
        assert(res.requires.deep_view() =~= self.requires.deep_view());
        res
    }
}

// ---------------------------------------------------------------------------
// Checksum
// ---------------------------------------------------------------------------

/// The checksum of a migration body: SHA-256 over the UTF-8 encoding of the body with
/// leading and trailing whitespace trimmed.
pub open spec fn body_checksum(body: Seq<char>) -> Seq<u8> {
    sha256_digest(encode_utf8(trim(body)))
}

/// Compute the checksum of a migration body: SHA-256 over the body with leading and
/// trailing whitespace trimmed.
pub fn checksum(body: &str) -> (sum: [u8; 32])
    ensures
        sum@ == body_checksum(body@),
{
    let chars = chars_of(body);
    let kept = trimmed(chars.as_slice(), 0, chars.len());
    assert(chars@.subrange(0, chars@.len() as int) =~= chars@);
    sha256(kept.as_str().as_bytes())
}

/// Whitespace around a body does not change its checksum.
pub proof fn law_checksum_ignores_surrounding_whitespace(
    before: Seq<char>,
    body: Seq<char>,
    after: Seq<char>,
)
    requires
        is_blank(before),
        is_blank(after),
    ensures
        body_checksum(before + body + after) == body_checksum(body),
{
    lemma_trim_pad(before, body, after);
}

/// The checksum of a trimmed body is the plain SHA-256 of its bytes.
pub proof fn law_checksum_of_trimmed_body(body: Seq<char>)
    ensures
        body_checksum(trim(body)) == body_checksum(body),
        trim(body) == body ==> body_checksum(body) == sha256_digest(encode_utf8(body)),
{
    lemma_trim_idempotent(body);
}

// ---------------------------------------------------------------------------
// Errors
// ---------------------------------------------------------------------------

/// Library error type.
#[derive(Debug)]
pub enum Error {
    Parse { file: String, message: String },
    DuplicateName(MigrationName),
    DanglingDependency { migration: MigrationName, missing: MigrationName },
    Cycle(Vec<MigrationName>),
    ChecksumMismatch(MigrationName),
    CorruptChecksum { name: MigrationName, len: usize },
}

/// Library result type.
pub type Result<T> = std::result::Result<T, Error>;

/// What `{:?}` shows of a string.
pub uninterp spec fn debug_form(s: Seq<char>) -> Seq<char>;

/// Calls the `Debug` formatting of `str`. What it shows is a function of the characters of
/// the string; how it escapes them is left to the name `debug_form`.
#[verifier::external_body]
pub(crate) fn debug_text(s: &str) -> (shown: String)
    ensures
        shown@ == debug_form(s@),
{
    format!("{:?}", s)
}

/// What `{:?}` shows of a migration name.
pub open spec fn debug_name(name: Seq<char>) -> Seq<char> {
    "MigrationName("@ + debug_form(name) + ")"@
}

/// What `{:?}` shows of each migration name.
pub open spec fn debug_names(names: Seq<Seq<char>>) -> Seq<Seq<char>> {
    names.map_values(|n: Seq<char>| debug_name(n))
}

/// The message for a cycle, given how its names are shown.
pub open spec fn cycle_text(shown: Seq<Seq<char>>) -> Seq<char> {
    "dependency cycle detected involving: "@ + bracketed(shown)
}

/// The message of an error.
pub open spec fn error_message(e: Error) -> Seq<char> {
    match e {
        Error::Parse { file, message } => "parse error in "@ + file@ + ": "@ + message@,
        Error::DuplicateName(name) => "duplicate migration name: "@ + name@,
        Error::DanglingDependency { migration, missing } => "migration "@ + migration@
            + " requires "@ + missing@ + ", which does not exist"@,
        Error::Cycle(names) => cycle_text(debug_names(names.deep_view())),
        Error::ChecksumMismatch(name) => "checksum mismatch for already-applied migration ["@
            + name@ + "]: file content changed — run `kryzhen hack fix-checksum "@ + name@
            + "` to update"@,
        Error::CorruptChecksum { name, len } => "migration "@ + name@ + " has a "@ + decimal(
            len as nat,
        ) + "-byte checksum in the database; expected 32"@,
    }
}

/// What `{:?}` shows of each migration name.
fn show_names(names: &[MigrationName]) -> (items: Vec<String>)
    ensures
        items.deep_view() == debug_names(names.deep_view()),
{
    let ghost want = debug_names(names.deep_view());
    let mut items: Vec<String> = Vec::new();
    let mut i: usize = 0;
    while i < names.len()
        invariant
            i <= names@.len(),
            want == debug_names(names.deep_view()),
            items.deep_view() == want.take(i as int),
        decreases names@.len() - i,
    {
        let mut item = String::new();
        item.append("MigrationName(");
        item.append(debug_text(names[i].0.as_str()).as_str());
        item.append(")");
        let ghost before = items.deep_view();
        items.push(item);
        i += 1;
        assert(items.deep_view() =~= before.push(item@));
        assert(items.deep_view() =~= want.take(i as int));
    }
    assert(want.take(want.len() as int) =~= want);
    items
}

/// The message for a cycle, given how its names are shown.
pub fn cycle_message(shown: &[String]) -> (s: String)
    ensures
        s@ == cycle_text(shown.deep_view()),
{
    let mut s = String::new();
    s.append("dependency cycle detected involving: ");
    s.append(list_text(shown).as_str());
    assert(s@ =~= cycle_text(shown.deep_view()));
    s
}

impl Error {
    /// The error's message.
    pub fn to_string(&self) -> (s: String)
        ensures
            s@ == error_message(*self),
    {
        let mut s = String::new();
        match self {
            Error::Parse { file, message } => {
                s.append("parse error in ");
                s.append(file.as_str());
                s.append(": ");
                s.append(message.as_str());
            },
            Error::DuplicateName(name) => {
                s.append("duplicate migration name: ");
                s.append(name.0.as_str());
            },
            Error::DanglingDependency { migration, missing } => {
                s.append("migration ");
                s.append(migration.0.as_str());
                s.append(" requires ");
                s.append(missing.0.as_str());
                s.append(", which does not exist");
            },
            Error::Cycle(names) => {
                let list = names.as_slice();
                assert(list.deep_view() =~= names.deep_view());
                let shown = show_names(list);
                let items = shown.as_slice();
                assert(items.deep_view() =~= shown.deep_view());
                s.append(cycle_message(items).as_str());
            },
            Error::ChecksumMismatch(name) => {
                s.append("checksum mismatch for already-applied migration [");
                s.append(name.0.as_str());
                s.append("]: file content changed — run `kryzhen hack fix-checksum ");
                s.append(name.0.as_str());
                s.append("` to update");
            },
            Error::CorruptChecksum { name, len } => {
                s.append("migration ");
                s.append(name.0.as_str());
                s.append(" has a ");
                s.append(usize_text(*len).as_str());
                s.append("-byte checksum in the database; expected 32");
            },
        }
        assert(s@ =~= error_message(*self));
        s
    }
}

} // verus!
