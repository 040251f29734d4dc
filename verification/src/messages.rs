//! What the command line reports of a run, a conversion and an import.
use crate::render::{decimal, usize_text};
use crate::run::Report;
use crate::sqlx_import::receipt::Receipt;
use crate::types::{debug_form, debug_text};
use vstd::prelude::*;
use vstd::string::*;

verus! {

/// Each name on a line of its own, indented.
pub open spec fn indented(names: Seq<Seq<char>>) -> Seq<Seq<char>> {
    names.map_values(|n: Seq<char>| "  "@ + n)
}

/// The lines that report a run.
pub open spec fn run_lines(
    applied: Seq<Seq<char>>,
    already_applied: Seq<Seq<char>>,
    dry_run: bool,
) -> Seq<Seq<char>> {
    if dry_run {
        if applied.len() == 0 {
            seq!["Nothing to apply."@]
        } else {
            seq!["Would apply (in order):"@] + indented(applied)
        }
    } else if applied.len() == 0 {
        seq!["Already up to date ("@ + decimal(already_applied.len()) + " applied)."@]
    } else {
        seq!["Applied "@ + decimal(applied.len()) + " migration(s):"@] + indented(applied)
    }
}

/// A text between two texts.
fn around(before: &str, middle: &str, after: &str) -> (s: String)
    ensures
        s@ == before@ + middle@ + after@,
{
    let mut s = String::new();
    s.append(before);
    s.append(middle);
    s.append(after);
    assert(s@ =~= before@ + middle@ + after@);
    s
}

/// A title, and each name on a line of its own.
fn listed(title: String, names: &Vec<String>) -> (lines: Vec<String>)
    ensures
        lines.deep_view() == seq![title@] + indented(names.deep_view()),
{
    let ghost want = seq![title@] + indented(names.deep_view());
    let mut lines: Vec<String> = Vec::new();
    lines.push(title);
    let mut i: usize = 0;
    assert(lines.deep_view() =~= want.take(1));
    while i < names.len()
        invariant
            want == seq![title@] + indented(names.deep_view()),
            i <= names@.len(),
            lines.deep_view() == want.take(i + 1),
        decreases names@.len() - i,
    {
        let line = around("  ", names[i].as_str(), "");
        let ghost before = lines.deep_view();
        proof {
            reveal_strlit("");
            assert(line@ =~= "  "@ + names@[i as int]@);
            assert(want[i + 1] == line@);
        }
        lines.push(line);
        i += 1;
        assert(lines.deep_view() =~= before.push(line@));
        assert(lines.deep_view() =~= want.take(i + 1));
    }
    assert(want.take(want.len() as int) =~= want);
    lines
}

/// One line.
fn single(line: String) -> (lines: Vec<String>)
    ensures
        lines.deep_view() == seq![line@],
{
    let mut lines: Vec<String> = Vec::new();
    lines.push(line);
    assert(lines.deep_view() =~= seq![line@]);
    lines
}

/// The lines that report a run.
pub fn run_report(report: &Report, dry_run: bool) -> (lines: Vec<String>)
    ensures
        lines.deep_view() == run_lines(
            report.applied.deep_view(),
            report.already_applied.deep_view(),
            dry_run,
        ),
{
    if dry_run {
        if report.applied.len() == 0 {
            single("Nothing to apply.".to_string())
        } else {
            listed("Would apply (in order):".to_string(), &report.applied)
        }
    } else if report.applied.len() == 0 {
        single(
            around(
                "Already up to date (",
                usize_text(report.already_applied.len()).as_str(),
                " applied).",
            ),
        )
    } else {
        listed(
            around("Applied ", usize_text(report.applied.len()).as_str(), " migration(s):"),
            &report.applied,
        )
    }
}

/// The text that reports a conversion.
pub open spec fn conversion_text(count: nat, converted: nat, path: Seq<char>) -> Seq<char> {
    if converted == 0 {
        "Already converted ("@ + decimal(count)
            + " migration(s) already have headers). Nothing written."@
    } else {
        "Converted "@ + decimal(converted) + " migration(s). Receipt written to: "@ + path
            + "\n\nNext step: kryzhen hack migrate-from sqlx import"@
    }
}

/// The text that reports a conversion whose receipt went to `path`.
pub fn conversion_report(receipt: &Receipt, path: &str) -> (s: String)
    ensures
        s@ == conversion_text(
            receipt.migrations@.len(),
            receipt.newly_converted as nat,
            path@,
        ),
{
    if receipt.newly_converted == 0 {
        around(
            "Already converted (",
            usize_text(receipt.migrations.len()).as_str(),
            " migration(s) already have headers). Nothing written.",
        )
    } else {
        let mut s = around(
            "Converted ",
            usize_text(receipt.newly_converted).as_str(),
            " migration(s). Receipt written to: ",
        );
        s.append(path);
        s.append("\n\nNext step: kryzhen hack migrate-from sqlx import");
        s
    }
}

/// The text that reports an import.
pub open spec fn import_text(count: nat, already_imported: bool) -> Seq<char> {
    if already_imported {
        "Already imported (_sqlx_migrations not present). Nothing to do."@
    } else {
        "Imported "@ + decimal(count)
            + " migration(s) into mallard.applied_migrations. _sqlx_migrations dropped."@
            + "\n\nYou can now use `kryzhen migrate` as normal."@
    }
}

/// The text that reports an import.
pub fn import_report(receipt: &Receipt) -> (s: String)
    ensures
        s@ == import_text(receipt.migrations@.len(), receipt.already_imported),
{
    if receipt.already_imported {
        "Already imported (_sqlx_migrations not present). Nothing to do.".to_string()
    } else {
        let mut s = around(
            "Imported ",
            usize_text(receipt.migrations.len()).as_str(),
            " migration(s) into mallard.applied_migrations. _sqlx_migrations dropped.",
        );
        s.append("\n\nYou can now use `kryzhen migrate` as normal.");
        s
    }
}

/// The text that reports a conversion as the first of two phases.
pub open spec fn convert_phase_text(count: nat, converted: nat) -> Seq<char> {
    if converted == 0 {
        "already converted ("@ + decimal(count) + " migration(s))."@
    } else {
        ""@ + decimal(converted) + " migration(s) converted."@
    }
}

/// The text that reports a conversion as the first of two phases.
pub fn convert_phase_report(receipt: &Receipt) -> (s: String)
    ensures
        s@ == convert_phase_text(receipt.migrations@.len(), receipt.newly_converted as nat),
{
    if receipt.newly_converted == 0 {
        around(
            "already converted (",
            usize_text(receipt.migrations.len()).as_str(),
            " migration(s)).",
        )
    } else {
        around("", usize_text(receipt.newly_converted).as_str(), " migration(s) converted.")
    }
}

/// The text that reports an import as the second of two phases.
pub open spec fn import_phase_text(count: nat, already_imported: bool) -> Seq<char> {
    if already_imported {
        "already imported (_sqlx_migrations not present)."@
    } else {
        ""@ + decimal(count) + " migration(s) imported. _sqlx_migrations dropped."@
    }
}

/// The text that reports an import as the second of two phases.
pub fn import_phase_report(receipt: &Receipt) -> (s: String)
    ensures
        s@ == import_phase_text(receipt.migrations@.len(), receipt.already_imported),
{
    if receipt.already_imported {
        "already imported (_sqlx_migrations not present).".to_string()
    } else {
        around(
            "",
            usize_text(receipt.migrations.len()).as_str(),
            " migration(s) imported. _sqlx_migrations dropped.",
        )
    }
}

/// The text that reports a migration recorded as applied, given how its name is shown.
pub open spec fn added_text(shown: Seq<char>) -> Seq<char> {
    "Recorded "@ + shown + " as applied."@
}

/// The text that reports a migration recorded as applied, given how its name is shown.
pub fn added_line(shown: &str) -> (s: String)
    ensures
        s@ == added_text(shown@),
{
    around("Recorded ", shown, " as applied.")
}

/// The text that reports a migration recorded as applied.
pub fn added_report(name: &str) -> (s: String)
    ensures
        s@ == added_text(debug_form(name@)),
{
    added_line(debug_text(name).as_str())
}

/// The text that reports a migration record removed, given how its name is shown.
pub open spec fn deleted_text(shown: Seq<char>) -> Seq<char> {
    "Removed "@ + shown + " from applied_migrations."@
}

/// The text that reports a migration record removed, given how its name is shown.
pub fn deleted_line(shown: &str) -> (s: String)
    ensures
        s@ == deleted_text(shown@),
{
    around("Removed ", shown, " from applied_migrations.")
}

/// The text that reports a migration record removed.
pub fn deleted_report(name: &str) -> (s: String)
    ensures
        s@ == deleted_text(debug_form(name@)),
{
    deleted_line(debug_text(name).as_str())
}

/// The text that reports a migration whose checksum was overwritten, given how its name is shown.
pub open spec fn fixed_text(shown: Seq<char>) -> Seq<char> {
    "Fixed checksum for "@ + shown + "."@
}

/// The text that reports a migration whose checksum was overwritten, given how its name is shown.
pub fn fixed_line(shown: &str) -> (s: String)
    ensures
        s@ == fixed_text(shown@),
{
    around("Fixed checksum for ", shown, ".")
}

/// The text that reports a migration whose checksum was overwritten.
pub fn fixed_report(name: &str) -> (s: String)
    ensures
        s@ == fixed_text(debug_form(name@)),
{
    fixed_line(debug_text(name).as_str())
}

} // verus!
