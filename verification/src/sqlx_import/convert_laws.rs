//! What holds of a conversion, said of the rows, the files and the entries themselves.
use super::convert::{
    file_with_checksum, filenames, hint_text, is_converted, is_entry_of,
    law_header_means_directive, required_by, rewritten, source_of, takes_content, ConversionView,
    FileDigestView, Source,
};
use super::header::{header_text, in_quotes, requires_value};
use super::receipt::{entry_for, law_entry_for, EntryView, SqlxImportError, SqlxRowView};
use super::text::{file_body, file_description, hex_of, law_hex_is_injective, normalised};
use crate::render::join;
use crate::text_laws::law_join;
use vstd::prelude::*;

verus! {

// ---------------------------------------------------------------------------
// Where a migration comes from
// ---------------------------------------------------------------------------

/// A checksum leads to the first file that has it, and to none exactly where no file has it.
pub proof fn law_file_with_checksum(files: Seq<FileDigestView>, sum: Seq<u8>)
    ensures
        file_with_checksum(files, sum) is None <==> forall|i: int|
            0 <= i < files.len() ==> (#[trigger] files[i]).checksum != sum,
        file_with_checksum(files, sum) matches Some(f) ==> exists|i: int|
            {
                &&& 0 <= i < files.len()
                &&& (#[trigger] files[i]).filename == f
                &&& files[i].checksum == sum
                &&& forall|j: int| 0 <= j < i ==> (#[trigger] files[j]).checksum != sum
            },
    decreases files.len(),
{
    if files.len() > 0 && files[0].checksum != sum {
        let more = files.skip(1);
        law_file_with_checksum(more, sum);
        assert forall|i: int| 0 <= i < more.len() implies #[trigger] more[i] == files[i + 1] by {}
        match file_with_checksum(more, sum) {
            Some(f) => {
                let i = choose|i: int|
                    {
                        &&& 0 <= i < more.len()
                        &&& (#[trigger] more[i]).filename == f
                        &&& more[i].checksum == sum
                        &&& forall|j: int| 0 <= j < i ==> (#[trigger] more[j]).checksum != sum
                    };
                assert(files[i + 1].filename == f);
                assert forall|j: int| 0 <= j < i + 1 implies (#[trigger] files[j]).checksum
                    != sum by {
                    if j > 0 {
                        assert(more[j - 1].checksum != sum);
                    }
                }
            },
            None => {
                assert forall|i: int| 0 <= i < files.len() implies (#[trigger] files[i]).checksum
                    != sum by {
                    if i > 0 {
                        assert(more[i - 1].checksum != sum);
                    }
                }
            },
        }
    } else if files.len() > 0 {
        assert(files[0].checksum == sum);
    }
}

/// The names of the files, one for one.
pub proof fn law_filenames(files: Seq<FileDigestView>)
    ensures
        filenames(files).len() == files.len(),
        forall|i: int| 0 <= i < files.len() ==> filenames(files)[i] == (#[trigger] files[i]).filename,
{
}

/// An earlier receipt has the last word on the versions that it has entries for, and on no
/// other: for those the migration comes from the first file with the row's checksum.
pub proof fn law_source(row: SqlxRowView, known: Seq<EntryView>, files: Seq<FileDigestView>)
    ensures
        ({
            let in_receipt = exists|i: int|
                0 <= i < known.len() && (#[trigger] known[i]).version == row.version;
            match source_of(row, known, files) {
                Source::Known(e) => in_receipt && entry_for(known, row.version) == Some(e)
                    && e.sqlx_checksum_hex == hex_of(row.checksum),
                Source::Contradicted(e) => in_receipt && entry_for(known, row.version) == Some(e)
                    && e.sqlx_checksum_hex != hex_of(row.checksum),
                Source::File(f) => !in_receipt && exists|i: int|
                    {
                        &&& 0 <= i < files.len()
                        &&& (#[trigger] files[i]).filename == f
                        &&& files[i].checksum == row.checksum
                        &&& forall|j: int|
                            0 <= j < i ==> (#[trigger] files[j]).checksum != row.checksum
                    },
                Source::Nowhere => !in_receipt && forall|i: int|
                    0 <= i < files.len() ==> (#[trigger] files[i]).checksum != row.checksum,
            }
        }),
{
    law_entry_for(known, row.version);
    law_file_with_checksum(files, row.checksum);
}

/// What a conversion's receipt says of a row: what the earlier receipt says of its version; or,
/// where that says nothing, the row's version, description and checksum, the name that its
/// description gives, and the first file with its checksum.
pub proof fn law_entry_of_row(
    rows: Seq<SqlxRowView>,
    known: Seq<EntryView>,
    files: Seq<FileDigestView>,
    entries: Seq<EntryView>,
    i: int,
)
    requires
        is_converted(rows, known, files, entries),
        0 <= i < rows.len(),
    ensures
        entries.len() == rows.len(),
        (exists|k: int| 0 <= k < known.len() && (#[trigger] known[k]).version == rows[i].version)
            ==> entry_for(known, rows[i].version) == Some(entries[i]),
        (forall|k: int| 0 <= k < known.len() ==> (#[trigger] known[k]).version != rows[i].version)
            ==> {
            &&& entries[i].version == rows[i].version
            &&& entries[i].sqlx_description == rows[i].description
            &&& entries[i].kryzhen_name == normalised(rows[i].description)
            &&& entries[i].sqlx_checksum_hex == hex_of(rows[i].checksum)
            &&& exists|k: int|
                {
                    &&& 0 <= k < files.len()
                    &&& (#[trigger] files[k]).filename == entries[i].filename
                    &&& files[k].checksum == rows[i].checksum
                    &&& forall|j: int|
                        0 <= j < k ==> (#[trigger] files[j]).checksum != rows[i].checksum
                }
        },
        entries[i].sqlx_checksum_hex == hex_of(rows[i].checksum),
{
    assert(is_entry_of(rows[i], known, files, entries[i]));
    law_source(rows[i], known, files);
}

// ---------------------------------------------------------------------------
// Rewriting
// ---------------------------------------------------------------------------

/// A file's text is taken exactly where its digest is the row's checksum. Then the row has its
/// entry, and the file is rewritten exactly where the directive stands nowhere in it. Else
/// nothing changes.
pub proof fn law_content_is_taken(
    before: ConversionView,
    after: ConversionView,
    content: Seq<char>,
    digest: Seq<u8>,
    r: Result<Option<String>, SqlxImportError>,
)
    requires
        takes_content(before, after, content, digest, r),
    ensures
        ({
            let at = before.entries.len() as int;
            let row = before.rows[at];
            let directive = exists|j: int|
                0 <= j <= content.len() && "-- #!migration"@.is_prefix_of(
                    #[trigger] content.skip(j),
                );
            &&& r is Ok <==> digest == row.checksum
            &&& r matches Err(e) ==> {
                &&& after == before
                &&& e matches SqlxImportError::ChecksumMismatch { filename, expected, got }
                &&& expected@ == hex_of(row.checksum)
                &&& got@ == hex_of(digest)
                &&& exists|k: int|
                    0 <= k < before.files.len() && (#[trigger] before.files[k]).filename
                        == filename@ && before.files[k].checksum == row.checksum
            }
            &&& r matches Ok(text) ==> {
                &&& after.rows == before.rows && after.known == before.known && after.files
                    == before.files && after.dir == before.dir
                &&& after.entries.len() == at + 1
                &&& after.entries.take(at) == before.entries
                &&& after.entries[at].version == row.version
                &&& after.entries[at].sqlx_description == row.description
                &&& after.entries[at].kryzhen_name == normalised(row.description)
                &&& after.entries[at].sqlx_checksum_hex == hex_of(row.checksum)
                &&& exists|k: int|
                    0 <= k < before.files.len() && (#[trigger] before.files[k]).filename
                        == after.entries[at].filename && before.files[k].checksum == row.checksum
                &&& text is Some <==> !directive
                &&& text matches Some(t) ==> t@ == rewritten(before.rows, at, content)
                &&& after.newly_converted == before.newly_converted + if text is Some {
                    1int
                } else {
                    0
                }
            }
        }),
{
    let at = before.entries.len() as int;
    let row = before.rows[at];
    law_hex_is_injective(digest, row.checksum);
    law_header_means_directive(content);
    law_source(row, before.known, before.files);
    if r is Ok {
        assert(after.entries.take(at) =~= before.entries);
    }
}

/// A conversion stands at the first row that has no entry yet; every row before it has the entry
/// that is due. What it was given to work on is its rows, the earlier entries, the files and the
/// directory, and all four stay as they are.
pub proof fn law_conversion(c: ConversionView, d: ConversionView)
    ensures
        c.at() == c.entries.len(),
        c.wf() ==> c.entries.len() <= c.rows.len() && c.newly_converted <= c.entries.len(),
        c.wf() ==> is_converted(c.rows.take(c.at()), c.known, c.files, c.entries),
        c.same_input(d) <==> c.rows == d.rows && c.known == d.known && c.files == d.files && c.dir
            == d.dir,
        c.next_source() == source_of(c.rows[c.entries.len() as int], c.known, c.files),
{
    if c.wf() {
        let rows = c.rows.take(c.at());
        assert forall|i: int| 0 <= i < rows.len() implies is_entry_of(
            #[trigger] rows[i],
            c.known,
            c.files,
            c.entries[i],
        ) by {
            assert(is_entry_of(c.rows[i], c.known, c.files, c.entries[i]));
        }
    }
}

/// The migration of a row requires the one of the row before it, and that of the first row
/// requires nothing.
pub proof fn law_required_by(rows: Seq<SqlxRowView>, i: int)
    ensures
        i > 0 ==> required_by(rows, i) == seq![normalised(rows[i - 1].description)],
        i <= 0 ==> required_by(rows, i) == Seq::<Seq<char>>::empty(),
{
}

/// A rewritten file is the header, and the body with a newline ahead of it and one behind it:
/// nothing of the body is lost.
pub proof fn law_rewritten_keeps_body(rows: Seq<SqlxRowView>, i: int, content: Seq<char>)
    ensures
        rewritten(rows, i, content) == header_text(
            normalised(rows[i].description),
            file_description(content),
            if i > 0 {
                seq![normalised(rows[i - 1].description)]
            } else {
                seq![]
            },
        ) + ("\n"@ + file_body(content) + "\n"@),
{
    assert(rewritten(rows, i, content) =~= header_text(
        normalised(rows[i].description),
        file_description(content),
        required_by(rows, i),
    ) + ("\n"@ + file_body(content) + "\n"@));
}

/// The header of a migration, line by line. Without a description the name stands for it. One
/// requirement stands alone; of several the last is put to the end of the list.
pub proof fn law_header_lines(
    name: Seq<char>,
    description: Seq<char>,
    one: Seq<char>,
    several: Seq<Seq<char>>,
)
    ensures
        ({
            let shown = if description.len() == 0 {
                name
            } else {
                description
            };
            let front = "-- #!migration\n-- name: "@ + ("\""@ + name + "\""@)
                + ",\n-- description: "@ + ("\""@ + shown + "\""@);
            &&& header_text(name, description, Seq::empty()) == front + ";"@
            &&& header_text(name, description, seq![one]) == front + (",\n-- requires: "@ + ("\""@
                + one + "\""@) + ";"@)
            &&& several.len() > 1 ==> header_text(name, description, several) == front + (
            ",\n-- requires: "@ + requires_value(several) + ";"@)
        }),
        several.len() == 1 ==> requires_value(several.push(one)) == "["@ + (("\""@ + several[0]
            + "\""@) + ", "@ + ("\""@ + one + "\""@)) + "]"@,
        several.len() > 1 ==> exists|list: Seq<char>| requires_value(several) == #[trigger] (
        "["@ + list + "]"@) && requires_value(several.push(one)) == "["@ + (list + ", "@ + ("\""@
            + one + "\""@)) + "]"@,
{
    assert(seq![one][0] == one);
    let q = |r: Seq<char>| in_quotes(r);
    let quoted = several.map_values(q);
    let longer = several.push(one).map_values(q);
    assert(longer =~= quoted + seq![in_quotes(one)]);
    let list = join(quoted, ", "@);
    law_join(quoted, seq![in_quotes(one)], in_quotes(one), ", "@);
    if several.len() == 1 {
        assert(quoted =~= seq![in_quotes(several[0])]);
        law_join(quoted, seq![in_quotes(one)], in_quotes(several[0]), ", "@);
    }
    if several.len() > 1 {
        assert(requires_value(several) == "["@ + list + "]"@);
        assert(requires_value(several.push(one)) == "["@ + (list + ", "@ + in_quotes(one)) + "]"@);
    }
}

// ---------------------------------------------------------------------------
// Hints
// ---------------------------------------------------------------------------

/// A hint names the guessed file, and gives its checksum where it could be read.
pub proof fn law_hint(name: Seq<char>, digest: Seq<u8>, any: Option<Seq<u8>>)
    ensures
        hint_text(Some(name), Some(digest)) == "  guessed file:   "@ + name
            + "\n  its checksum:   "@ + hex_of(digest),
        hint_text(Some(name), None) == "  guessed file:   "@ + name + " (does not exist)"@,
        hint_text(None, any) == "  no file name matches the migration description"@,
{
}

} // verus!
