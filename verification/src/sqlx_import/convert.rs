//! Phase one: find the file that each row was applied from, and give it a header.
//!
//! A [`Conversion`] goes through the rows in order. [`Conversion::next_step`] says what the
//! caller has to read next, and [`Conversion::accept_content`] takes what was read and says
//! what is to be written.
use super::files::{find_file_for, is_best_match};
use super::header::{build_header, header_text};
use super::header_laws::{is_plain_body, law_header_and_body_parse_back, quotable};
use super::receipt::{
    entry_for, find_entry, fresh_entry, EntryView, Receipt, ReceiptEntry, SqlxImportError, SqlxRow,
    SqlxRowView,
};
use super::text::{
    extract_description_and_body, file_body, file_description, hex, hex_of, leading_comments,
    normalise_name, normalised,
};
use crate::grammar::file;
use crate::hash::{sha384, sha384_digest};
use crate::search::{contains_text, lemma_first_match, occurs_in};
use crate::text::{lemma_trim_idempotent, same_text};
use crate::types::{body_checksum, MigrationView};
use vstd::prelude::*;
use vstd::string::*;
use vstd::utf8::encode_utf8;

verus! {

// ---------------------------------------------------------------------------
// Files and their digests
// ---------------------------------------------------------------------------

/// A file of the migrations directory and the SHA-384 of its bytes.
pub struct FileDigest {
    pub filename: String,
    pub checksum: Vec<u8>,
}

/// A file digest as mathematical values.
pub struct FileDigestView {
    pub filename: Seq<char>,
    pub checksum: Seq<u8>,
}

impl DeepView for FileDigest {
    type V = FileDigestView;

    open spec fn deep_view(&self) -> FileDigestView {
        FileDigestView { filename: self.filename@, checksum: self.checksum@ }
    }
}

/// The digest of a file that holds `raw`.
pub fn digest_file(filename: String, raw: &[u8]) -> (digest: FileDigest)
    ensures
        digest.filename@ == filename@,
        digest.checksum@ == sha384_digest(raw@),
{
    FileDigest { filename, checksum: sha384(raw) }
}

/// The first file with a checksum.
pub open spec fn file_with_checksum(files: Seq<FileDigestView>, sum: Seq<u8>) -> Option<
    Seq<char>,
>
    decreases files.len(),
{
    if files.len() == 0 {
        None
    } else if files[0].checksum == sum {
        Some(files[0].filename)
    } else {
        file_with_checksum(files.skip(1), sum)
    }
}

/// Whether two byte strings are the same.
fn same_bytes(a: &[u8], b: &[u8]) -> (same: bool)
    ensures
        same == (a@ == b@),
{
    if a.len() != b.len() {
        return false;
    }
    let mut i: usize = 0;
    while i < a.len()
        invariant
            a@.len() == b@.len(),
            i <= a@.len(),
            forall|k: int| 0 <= k < i ==> a@[k] == b@[k],
        decreases a@.len() - i,
    {
        if a[i] != b[i] {
            return false;
        }
        i += 1;
    }
    assert(a@ =~= b@);
    true
}

/// Find the first file with a checksum.
fn find_by_checksum(files: &[FileDigest], sum: &[u8]) -> (found: Option<String>)
    ensures
        match found {
            Some(f) => file_with_checksum(files.deep_view(), sum@) == Some(f@),
            None => file_with_checksum(files.deep_view(), sum@) is None,
        },
{
    let ghost fs = files.deep_view();
    let mut i: usize = 0;
    assert(fs.skip(0) =~= fs);
    while i < files.len()
        invariant
            fs == files.deep_view(),
            i <= files@.len(),
            file_with_checksum(fs, sum@) == file_with_checksum(fs.skip(i as int), sum@),
        decreases files@.len() - i,
    {
        assert(fs[i as int] == files@[i as int].deep_view());
        assert(fs.skip(i as int).skip(1) =~= fs.skip(i + 1));
        if same_bytes(files[i].checksum.as_slice(), sum) {
            return Some(files[i].filename.clone());
        }
        i += 1;
    }
    None
}

/// The names of the files.
pub open spec fn filenames(files: Seq<FileDigestView>) -> Seq<Seq<char>> {
    files.map_values(|f: FileDigestView| f.filename)
}

/// The names of the files.
fn names_of_files(files: &[FileDigest]) -> (names: Vec<String>)
    ensures
        names.deep_view() == filenames(files.deep_view()),
{
    let mut names: Vec<String> = Vec::new();
    let mut i: usize = 0;
    while i < files.len()
        invariant
            i <= files@.len(),
            names@.len() == i,
            forall|k: int| 0 <= k < i ==> (#[trigger] names@[k])@ == files@[k].filename@,
        decreases files@.len() - i,
    {
        names.push(files[i].filename.clone());
        i += 1;
    }
    assert(names.deep_view() =~= filenames(files.deep_view()));
    names
}

// ---------------------------------------------------------------------------
// Where a row's migration comes from
// ---------------------------------------------------------------------------

/// Where the migration of a row was applied from.
pub enum Source {
    /// The receipt has an entry for it.
    Known(EntryView),
    /// The receipt has an entry for it, with another checksum.
    Contradicted(EntryView),
    /// A file has its checksum.
    File(Seq<char>),
    /// Neither.
    Nowhere,
}

/// Where the migration of `row` was applied from. An entry of an earlier receipt has the last
/// word on its version; else the file is found by its content, not by its name.
pub open spec fn source_of(
    row: SqlxRowView,
    known: Seq<EntryView>,
    files: Seq<FileDigestView>,
) -> Source {
    match entry_for(known, row.version) {
        Some(e) => if e.sqlx_checksum_hex == hex_of(row.checksum) {
            Source::Known(e)
        } else {
            Source::Contradicted(e)
        },
        None => match file_with_checksum(files, row.checksum) {
            Some(f) => Source::File(f),
            None => Source::Nowhere,
        },
    }
}

/// `entry` is what the receipt says of `row`.
pub open spec fn is_entry_of(
    row: SqlxRowView,
    known: Seq<EntryView>,
    files: Seq<FileDigestView>,
    entry: EntryView,
) -> bool {
    match source_of(row, known, files) {
        Source::Known(e) => entry == e,
        Source::File(f) => entry == fresh_entry(row, f),
        _ => false,
    }
}

/// `entries` is what the receipt says of the rows, one entry for each row, in order.
pub open spec fn is_converted(
    rows: Seq<SqlxRowView>,
    known: Seq<EntryView>,
    files: Seq<FileDigestView>,
    entries: Seq<EntryView>,
) -> bool {
    &&& entries.len() == rows.len()
    &&& forall|i: int|
        0 <= i < rows.len() ==> is_entry_of(#[trigger] rows[i], known, files, entries[i])
}

// ---------------------------------------------------------------------------
// Rewriting
// ---------------------------------------------------------------------------

/// The names that the migration of row `i` requires: that of the row before it.
pub open spec fn required_by(rows: Seq<SqlxRowView>, i: int) -> Seq<Seq<char>> {
    if i > 0 {
        seq![normalised(rows[i - 1].description)]
    } else {
        seq![]
    }
}

/// The file already has a header.
pub open spec fn has_header(content: Seq<char>) -> bool {
    occurs_in("-- #!migration"@, content)
}

/// What the file of row `i` is rewritten to, where it holds `content` without a header.
pub open spec fn rewritten(
    rows: Seq<SqlxRowView>,
    i: int,
    content: Seq<char>,
) -> Seq<char> {
    header_text(
        normalised(rows[i].description),
        file_description(content),
        required_by(rows, i),
    ) + "\n"@ + file_body(content) + "\n"@
}

/// The text that replaces `content`.
fn rewrite(name: &str, needed: &[String], content: &str) -> (text: String)
    ensures
        text@ == header_text(name@, file_description(content@), needed.deep_view()) + "\n"@
            + file_body(content@) + "\n"@,
{
    let (description, body) = extract_description_and_body(content);
    let mut text = build_header(name, description.as_str(), needed);
    text.append("\n");
    text.append(body.as_str());
    text.append("\n");
    text
}

// ---------------------------------------------------------------------------
// Conversion
// ---------------------------------------------------------------------------

/// A conversion under way.
pub struct Conversion {
    rows: Vec<SqlxRow>,
    known: Vec<ReceiptEntry>,
    files: Vec<FileDigest>,
    dir: String,
    entries: Vec<ReceiptEntry>,
    newly_converted: usize,
}

/// A conversion as mathematical values.
#[verifier::ext_equal]
pub struct ConversionView {
    /// The rows of `_sqlx_migrations`, by version.
    pub rows: Seq<SqlxRowView>,
    /// The entries of an earlier receipt.
    pub known: Seq<EntryView>,
    /// The `.sql` files of the migrations directory.
    pub files: Seq<FileDigestView>,
    /// The migrations directory, as errors name it.
    pub dir: Seq<char>,
    /// The entries of the rows that are done.
    pub entries: Seq<EntryView>,
    /// How many files have been rewritten.
    pub newly_converted: nat,
}

impl View for Conversion {
    type V = ConversionView;

    closed spec fn view(&self) -> ConversionView {
        ConversionView {
            rows: self.rows.deep_view(),
            known: self.known.deep_view(),
            files: self.files.deep_view(),
            dir: self.dir@,
            entries: self.entries.deep_view(),
            newly_converted: self.newly_converted as nat,
        }
    }
}

impl ConversionView {
    /// The row that is next.
    pub open spec fn at(self) -> int {
        self.entries.len() as int
    }

    /// Each row that is done has its entry.
    pub open spec fn wf(self) -> bool {
        &&& self.entries.len() <= self.rows.len()
        &&& self.newly_converted <= self.entries.len()
        &&& forall|i: int|
            0 <= i < self.entries.len() ==> is_entry_of(
                #[trigger] self.rows[i],
                self.known,
                self.files,
                self.entries[i],
            )
    }

    /// Where the migration of the next row was applied from.
    pub open spec fn next_source(self) -> Source {
        source_of(self.rows[self.at()], self.known, self.files)
    }

    /// The rows, the earlier receipt, the files and the directory are those of `other`.
    pub open spec fn same_input(self, other: ConversionView) -> bool {
        &&& self.rows == other.rows
        &&& self.known == other.known
        &&& self.files == other.files
        &&& self.dir == other.dir
    }
}

/// What a conversion needs next.
pub enum Step {
    /// Nothing: this is the receipt.
    Done(Receipt),
    /// The text of this file.
    Read(String),
    /// No file matches. The bytes of this file, if there is one to guess, make the error
    /// more helpful.
    Guess(Option<String>),
}

/// What is known of the file that a migration may have been applied from: its name, and its
/// digest if it could be read.
pub open spec fn hint_text(guess: Option<Seq<char>>, digest: Option<Seq<u8>>) -> Seq<char> {
    match guess {
        Some(name) => match digest {
            Some(d) => "  guessed file:   "@ + name + "\n  its checksum:   "@ + hex_of(d),
            None => "  guessed file:   "@ + name + " (does not exist)"@,
        },
        None => "  no file name matches the migration description"@,
    }
}

/// The hint for a guessed file and its digest.
pub fn missing_hint(guess: &Option<String>, digest: &Option<Vec<u8>>) -> (hint: String)
    ensures
        hint@ == hint_text(
            match *guess {
                Some(g) => Some(g@),
                None => None,
            },
            match *digest {
                Some(d) => Some(d@),
                None => None,
            },
        ),
{
    let mut hint = String::new();
    match guess {
        Some(name) => {
            hint.append("  guessed file:   ");
            hint.append(name.as_str());
            match digest {
                Some(d) => {
                    hint.append("\n  its checksum:   ");
                    hint.append(hex(d.as_slice()).as_str());
                },
                None => {
                    hint.append(" (does not exist)");
                },
            }
        },
        None => {
            hint.append("  no file name matches the migration description");
        },
    }
    assert(hint@ =~= hint_text(
        match *guess {
            Some(g) => Some(g@),
            None => None,
        },
        match *digest {
            Some(d) => Some(d@),
            None => None,
        },
    ));
    hint
}

/// What becomes of a conversion that waits for the text of a file and gets `content`, whose
/// SHA-384 is `digest`. Where that is the row's checksum, the row has its entry, and the file
/// is to be rewritten unless it has a header. Else the conversion stays as it is.
pub open spec fn takes_content(
    before: ConversionView,
    after: ConversionView,
    content: Seq<char>,
    digest: Seq<u8>,
    r: Result<Option<String>, SqlxImportError>,
) -> bool {
    let rows = before.rows;
    let at = before.at();
    let got = hex_of(digest);
    let want = hex_of(rows[at].checksum);
    &&& before.next_source() matches Source::File(name) && match r {
        Ok(text) => {
            &&& got == want
            &&& after.wf()
            &&& after.same_input(before)
            &&& after.entries == before.entries.push(
                fresh_entry(rows[at], name),
            )
            &&& match text {
                Some(t) => {
                    &&& !has_header(content)
                    &&& t@ == rewritten(rows, at, content)
                    &&& after.newly_converted == before.newly_converted + 1
                },
                None => {
                    &&& has_header(content)
                    &&& after.newly_converted == before.newly_converted
                },
            }
        },
        Err(e) => {
            &&& got != want
            &&& after == before
            &&& e matches SqlxImportError::ChecksumMismatch { filename, expected, got: found }
            &&& filename@ == name
            &&& expected@ == want
            &&& found@ == got
        },
    }
}

impl Conversion {
    /// A conversion of which nothing is done.
    pub fn start(
        rows: Vec<SqlxRow>,
        known: Vec<ReceiptEntry>,
        files: Vec<FileDigest>,
        dir: String,
    ) -> (c: Conversion)
        ensures
            c@.wf(),
            c@.rows == rows.deep_view(),
            c@.known == known.deep_view(),
            c@.files == files.deep_view(),
            c@.dir == dir@,
            c@.at() == 0,
            c@.newly_converted == 0,
    {
        Conversion { rows, known, files, dir, entries: Vec::new(), newly_converted: 0 }
    }

    /// Go on to the next row for which something has to be read, past those that the earlier
    /// receipt has entries for. An entry with another checksum is an error.
    pub fn next_step(&mut self) -> (r: Result<Step, SqlxImportError>)
        requires
            old(self)@.wf(),
        ensures
            final(self)@.wf(),
            final(self)@.same_input(old(self)@),
            final(self)@.newly_converted == old(self)@.newly_converted,
            old(self)@.entries.len() <= final(self)@.entries.len(),
            old(self)@.entries == final(self)@.entries.take(old(self)@.at()),
            forall|i: int|
                old(self)@.at() <= i < final(self)@.at() ==> source_of(
                    #[trigger] old(self)@.rows[i],
                    old(self)@.known,
                    old(self)@.files,
                ) is Known,
            match r {
                Ok(Step::Done(receipt)) => {
                    &&& final(self)@.at() == final(self)@.rows.len()
                    &&& is_converted(
                        old(self)@.rows,
                        old(self)@.known,
                        old(self)@.files,
                        receipt.migrations.deep_view(),
                    )
                    &&& receipt.migrations.deep_view() == final(self)@.entries
                    &&& receipt.newly_converted == final(self)@.newly_converted
                    &&& !receipt.already_imported
                },
                Ok(Step::Read(filename)) => {
                    &&& final(self)@.at() < final(self)@.rows.len()
                    &&& final(self)@.next_source() == Source::File(filename@)
                },
                Ok(Step::Guess(guess)) => {
                    let row = final(self)@.rows[final(self)@.at()];
                    &&& final(self)@.at() < final(self)@.rows.len()
                    &&& final(self)@.next_source() is Nowhere
                    &&& is_best_match(
                        filenames(final(self)@.files),
                        row.description,
                        normalised(row.description),
                        match guess {
                            Some(g) => Some(g@),
                            None => None,
                        },
                    )
                },
                Err(e) => {
                    let row = final(self)@.rows[final(self)@.at()];
                    &&& final(self)@.at() < final(self)@.rows.len()
                    &&& final(self)@.next_source() matches Source::Contradicted(entry)
                    &&& e matches SqlxImportError::ReceiptDbMismatch { name, receipt_hex, db_hex }
                    &&& name@ == entry.kryzhen_name
                    &&& receipt_hex@ == entry.sqlx_checksum_hex
                    &&& db_hex@ == hex_of(row.checksum)
                },
            },
    {
        let ghost start = self@;
        assert(self@.entries.take(self@.at()) =~= self@.entries);
        while self.entries.len() < self.rows.len()
            invariant
                self@.wf(),
                self@.same_input(start),
                self@.newly_converted == start.newly_converted,
                start.at() <= self@.at(),
                start.entries == self@.entries.take(start.at()),
                forall|i: int|
                    start.at() <= i < self@.at() ==> source_of(
                        #[trigger] start.rows[i],
                        start.known,
                        start.files,
                    ) is Known,
                start == old(self)@,
            decreases self.rows@.len() - self.entries@.len(),
        {
            let at = self.entries.len();
            let row = &self.rows[at];
            let ghost vrow = row.deep_view();
            assert(self.rows.deep_view()[at as int] == vrow);
            let sqlx_hex = hex(row.checksum.as_slice());
            let known = self.known.as_slice();
            assert(known.deep_view() =~= self.known.deep_view());
            let files = self.files.as_slice();
            assert(files.deep_view() =~= self.files.deep_view());
            match find_entry(known, row.version) {
                Some(entry) => {
                    if !same_text(entry.sqlx_checksum_hex.as_str(), sqlx_hex.as_str()) {
                        return Err(
                            SqlxImportError::ReceiptDbMismatch {
                                name: entry.kryzhen_name.clone(),
                                receipt_hex: entry.sqlx_checksum_hex.clone(),
                                db_hex: sqlx_hex,
                            },
                        );
                    }
                    let kept = entry.clone();
                    let ghost before = self.entries.deep_view();
                    let ghost was = self@;
                    self.entries.push(kept);
                    proof {
                        assert(self.entries.deep_view() =~= before.push(kept.deep_view()));
                        assert(self.entries.deep_view().take(start.at()) =~= before.take(
                            start.at(),
                        ));
                        assert forall|i: int| 0 <= i < self.entries@.len() implies is_entry_of(
                            #[trigger] self@.rows[i],
                            self@.known,
                            self@.files,
                            self@.entries[i],
                        ) by {
                            if i < at {
                                assert(is_entry_of(
                                    was.rows[i],
                                    was.known,
                                    was.files,
                                    was.entries[i],
                                ));
                            }
                        }
                    }
                },
                None => match find_by_checksum(files, row.checksum.as_slice()) {
                    Some(filename) => return Ok(Step::Read(filename)),
                    None => {
                        let names = names_of_files(files);
                        let list = names.as_slice();
                        assert(list.deep_view() =~= names.deep_view());
                        let name = normalise_name(row.description.as_str());
                        let guess = find_file_for(list, row.description.as_str(), name.as_str());
                        return Ok(Step::Guess(guess));
                    },
                },
            }
        }
        Ok(Step::Done(self.receipt()))
    }

    /// The receipt of what is done.
    fn receipt(&self) -> (receipt: Receipt)
        ensures
            receipt.migrations.deep_view() == self.entries.deep_view(),
            receipt.newly_converted == self.newly_converted,
            !receipt.already_imported,
    {
        let mut migrations: Vec<ReceiptEntry> = Vec::new();
        let mut i: usize = 0;
        while i < self.entries.len()
            invariant
                i <= self.entries@.len(),
                migrations@.len() == i,
                forall|k: int|
                    0 <= k < i ==> (#[trigger] migrations@[k]).deep_view()
                        == self.entries@[k].deep_view(),
            decreases self.entries@.len() - i,
        {
            migrations.push(self.entries[i].clone());
            i += 1;
        }
        assert(migrations.deep_view() =~= self.entries.deep_view());
        Receipt { migrations, newly_converted: self.newly_converted, already_imported: false }
    }

    /// Take the text of the file that the next row was applied from. Its checksum must be the
    /// row's. Gives the text that is to be written in its place, unless it has a header.
    pub fn accept_content(&mut self, content: &str) -> (r: Result<Option<String>, SqlxImportError>)
        requires
            old(self)@.wf(),
            old(self)@.at() < old(self)@.rows.len(),
            old(self)@.next_source() is File,
        ensures
            takes_content(
                old(self)@,
                final(self)@,
                content@,
                sha384_digest(encode_utf8(content@)),
                r,
            ),
    {
        let digest = sha384(content.as_bytes());
        self.accept_digested(content, digest.as_slice())
    }

    /// Take the text of the file that the next row was applied from, and the SHA-384 of its
    /// bytes, which must be the row's checksum. Gives the text that is to be written in its
    /// place, unless it has a header.
    pub fn accept_digested(&mut self, content: &str, digest: &[u8]) -> (r: Result<
        Option<String>,
        SqlxImportError,
    >)
        requires
            old(self)@.wf(),
            old(self)@.at() < old(self)@.rows.len(),
            old(self)@.next_source() is File,
        ensures
            takes_content(old(self)@, final(self)@, content@, digest@, r),
    {
        let ghost start = self@;
        let at = self.entries.len();
        let row = &self.rows[at];
        assert(self.rows.deep_view()[at as int] == row.deep_view());
        let sqlx_hex = hex(row.checksum.as_slice());
        let files = self.files.as_slice();
        assert(files.deep_view() =~= self.files.deep_view());
        let filename = match find_by_checksum(files, row.checksum.as_slice()) {
            Some(f) => f,
            None => {
                assert(false);
                String::new()
            },
        };
        let file_hex = hex(digest);
        if !same_text(file_hex.as_str(), sqlx_hex.as_str()) {
            return Err(
                SqlxImportError::ChecksumMismatch { filename, expected: sqlx_hex, got: file_hex },
            );
        }
        let name = normalise_name(row.description.as_str());
        let text = if !contains_text(content, "-- #!migration") {
            let mut needed: Vec<String> = Vec::new();
            if at > 0 {
                assert(self.rows.deep_view()[at - 1] == self.rows@[at - 1].deep_view());
                needed.push(normalise_name(self.rows[at - 1].description.as_str()));
            }
            let list = needed.as_slice();
            assert(list.deep_view() =~= required_by(self.rows.deep_view(), at as int));
            Some(rewrite(name.as_str(), list, content))
        } else {
            None
        };
        let entry = ReceiptEntry {
            version: row.version,
            sqlx_description: row.description.clone(),
            kryzhen_name: name,
            filename,
            sqlx_checksum_hex: sqlx_hex,
        };
        if text.is_some() {
            assert(self.newly_converted < self.rows.len());
            self.newly_converted += 1;
        }
        self.entries.push(entry);
        proof {
            assert(self.entries.deep_view() =~= start.entries.push(entry.deep_view()));
            assert forall|i: int| 0 <= i < self.entries@.len() implies is_entry_of(
                #[trigger] self@.rows[i],
                self@.known,
                self@.files,
                self@.entries[i],
            ) by {
                if i < at {
                    assert(is_entry_of(
                        start.rows[i],
                        start.known,
                        start.files,
                        start.entries[i],
                    ));
                }
            }
        }
        Ok(text)
    }

    /// The error for a row that no file matches, with what is known of the guessed file.
    pub fn file_missing(&self, guess: Option<String>, bytes: Option<Vec<u8>>) -> (e:
        SqlxImportError)
        requires
            self@.at() < self@.rows.len(),
        ensures
            ({
                let row = self@.rows[self@.at()];
                &&& e matches SqlxImportError::FileMissing {
                    version,
                    description,
                    dir,
                    sqlx_hex,
                    hint,
                }
                &&& version == row.version
                &&& description@ == row.description
                &&& dir@ == self@.dir
                &&& sqlx_hex@ == hex_of(row.checksum)
                &&& hint@ == hint_text(
                    match guess {
                        Some(g) => Some(g@),
                        None => None,
                    },
                    match bytes {
                        Some(b) => Some(sha384_digest(b@)),
                        None => None,
                    },
                )
            }),
    {
        let row = &self.rows[self.entries.len()];
        assert(self@.rows[self@.at()] == row.deep_view());
        let digest = match &bytes {
            Some(b) => Some(sha384(b.as_slice())),
            None => None,
        };
        let hint = missing_hint(&guess, &digest);
        SqlxImportError::FileMissing {
            version: row.version,
            description: row.description.clone(),
            dir: self.dir.clone(),
            sqlx_hex: hex(row.checksum.as_slice()),
            hint,
        }
    }
}

// ---------------------------------------------------------------------------
// Laws
// ---------------------------------------------------------------------------

/// No two rows have the same version.
pub open spec fn versions_are_distinct(rows: Seq<SqlxRowView>) -> bool {
    forall|i: int, j: int|
        0 <= i < j < rows.len() ==> (#[trigger] rows[i]).version != (#[trigger] rows[j]).version
}

/// An entry is found under its version.
proof fn lemma_entry_for_version(entries: Seq<EntryView>, version: i64)
    ensures
        entry_for(entries, version) matches Some(e) ==> e.version == version && entries.contains(
            e,
        ),
    decreases entries.len(),
{
    if entries.len() > 0 {
        if entries.last().version != version {
            lemma_entry_for_version(entries.drop_last(), version);
            match entry_for(entries.drop_last(), version) {
                Some(e) => {
                    let k = choose|k: int|
                        0 <= k < entries.drop_last().len() && entries.drop_last()[k] == e;
                    assert(entries[k] == e);
                },
                None => {},
            }
        } else {
            assert(entries[entries.len() - 1] == entries.last());
        }
    }
}

/// Where versions are distinct, each entry is the one of its version.
proof fn lemma_entry_for_at(entries: Seq<EntryView>, i: int)
    requires
        0 <= i < entries.len(),
        forall|a: int, b: int|
            0 <= a < b < entries.len() ==> (#[trigger] entries[a]).version != (
            #[trigger] entries[b]).version,
    ensures
        entry_for(entries, entries[i].version) == Some(entries[i]),
    decreases entries.len(),
{
    if i < entries.len() - 1 {
        let t = entries.drop_last();
        assert(entries[i].version != entries[entries.len() - 1].version);
        assert forall|a: int, b: int| 0 <= a < b < t.len() implies (#[trigger] t[a]).version != (
        #[trigger] t[b]).version by {
            assert(t[a] == entries[a] && t[b] == entries[b]);
        }
        lemma_entry_for_at(t, i);
    }
}

/// The entries of a conversion match their rows: each has its row's version and its row's
/// checksum in hex.
pub proof fn law_entries_match_rows(
    rows: Seq<SqlxRowView>,
    known: Seq<EntryView>,
    files: Seq<FileDigestView>,
    entries: Seq<EntryView>,
    i: int,
)
    requires
        is_converted(rows, known, files, entries),
        0 <= i < rows.len(),
    ensures
        entries[i].version == rows[i].version,
        entries[i].sqlx_checksum_hex == hex_of(rows[i].checksum),
{
    assert(is_entry_of(rows[i], known, files, entries[i]));
    lemma_entry_for_version(known, rows[i].version);
}

/// Each entry of a conversion is found under its row's version.
pub proof fn law_entries_are_found(
    rows: Seq<SqlxRowView>,
    known: Seq<EntryView>,
    files: Seq<FileDigestView>,
    entries: Seq<EntryView>,
    i: int,
)
    requires
        is_converted(rows, known, files, entries),
        versions_are_distinct(rows),
        0 <= i < rows.len(),
    ensures
        entry_for(entries, rows[i].version) == Some(entries[i]),
{
    assert forall|a: int, b: int| 0 <= a < b < entries.len() implies (
    #[trigger] entries[a]).version != (#[trigger] entries[b]).version by {
        law_entries_match_rows(rows, known, files, entries, a);
        law_entries_match_rows(rows, known, files, entries, b);
        assert(rows[a].version != rows[b].version);
    }
    law_entries_match_rows(rows, known, files, entries, i);
    lemma_entry_for_at(entries, i);
}

/// Converting again does nothing: with the receipt of a conversion at hand, whatever has
/// become of the files, no file is asked for, and the receipt stays as it is.
pub proof fn law_reconvert_changes_nothing(
    rows: Seq<SqlxRowView>,
    known: Seq<EntryView>,
    files: Seq<FileDigestView>,
    entries: Seq<EntryView>,
    files_later: Seq<FileDigestView>,
    entries_later: Seq<EntryView>,
)
    requires
        is_converted(rows, known, files, entries),
        versions_are_distinct(rows),
    ensures
        forall|i: int|
            0 <= i < rows.len() ==> source_of(#[trigger] rows[i], entries, files_later)
                == Source::Known(entries[i]),
        is_converted(rows, entries, files_later, entries_later) <==> entries_later == entries,
{
    assert forall|i: int| 0 <= i < rows.len() implies source_of(
        #[trigger] rows[i],
        entries,
        files_later,
    ) == Source::Known(entries[i]) by {
        law_entries_are_found(rows, known, files, entries, i);
        law_entries_match_rows(rows, known, files, entries, i);
    }
    if is_converted(rows, entries, files_later, entries_later) {
        assert forall|i: int| 0 <= i < rows.len() implies entries_later[i] == entries[i] by {
            assert(is_entry_of(rows[i], entries, files_later, entries_later[i]));
        }
        assert(entries_later =~= entries);
    }
}

/// The receipt is determined by the rows, the earlier receipt and the files.
pub proof fn law_receipt_is_unique(
    rows: Seq<SqlxRowView>,
    known: Seq<EntryView>,
    files: Seq<FileDigestView>,
    a: Seq<EntryView>,
    b: Seq<EntryView>,
)
    requires
        is_converted(rows, known, files, a),
        is_converted(rows, known, files, b),
    ensures
        a == b,
{
    assert forall|i: int| 0 <= i < rows.len() implies a[i] == b[i] by {
        assert(is_entry_of(rows[i], known, files, a[i]));
        assert(is_entry_of(rows[i], known, files, b[i]));
    }
    assert(a =~= b);
}

/// A file counts as having a header exactly where the directive stands somewhere in it.
pub proof fn law_header_means_directive(content: Seq<char>)
    ensures
        has_header(content) <==> exists|j: int|
            0 <= j <= content.len() && "-- #!migration"@.is_prefix_of(#[trigger] content.skip(j)),
{
    lemma_first_match(content, "-- #!migration"@);
}

/// A rewritten file has a header, so it is not rewritten again.
pub proof fn law_rewritten_has_header(rows: Seq<SqlxRowView>, i: int, content: Seq<char>)
    ensures
        has_header(rewritten(rows, i, content)),
{
    reveal_strlit("-- #!migration");
    reveal_strlit("-- #!migration\n-- name: ");
    let t = rewritten(rows, i, content);
    assert(t.subrange(0, 14) =~= "-- #!migration"@);
    assert("-- #!migration"@.is_prefix_of(t));
}

/// A rewritten file parses, as one migration: it has the name that the receipt gives for the
/// row, requires the migration of the row before, and has the body that the file had.
pub proof fn law_rewritten_parses(rows: Seq<SqlxRowView>, i: int, content: Seq<char>)
    requires
        0 <= i < rows.len(),
        quotable(normalised(rows[i].description)),
        i > 0 ==> quotable(normalised(rows[i - 1].description)),
        quotable(file_description(content)),
        is_plain_body(file_body(content)),
    ensures
        file(rewritten(rows, i, content)) == Ok::<Seq<MigrationView>, nat>(
            seq![
                MigrationView {
                    name: normalised(rows[i].description),
                    description: if file_description(content).len() == 0 {
                        normalised(rows[i].description)
                    } else {
                        file_description(content)
                    },
                    requires: if i > 0 {
                        seq![normalised(rows[i - 1].description)]
                    } else {
                        seq![]
                    },
                    script: file_body(content),
                    checksum: body_checksum(file_body(content)),
                },
            ],
        ),
{
    lemma_trim_idempotent(leading_comments(content).1);
    law_header_and_body_parse_back(
        normalised(rows[i].description),
        file_description(content),
        required_by(rows, i),
        file_body(content),
    );
}

} // verus!
