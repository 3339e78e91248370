//! Phase A's per-file decisions: which sniffed files are junk or skipped
//! before extraction, how much of a file is sampled, and when sampling
//! stops.

use crate::sniff::{family_name, kind_view, Family, Sniffed};
use crate::text::{chars_of, dec, push_dec, push_str_chars, string_from_chars};
use vstd::prelude::*;

verus! {

/// One gibibyte.
pub const GB: u64 = 1073741824;

/// Bytes sampled from a streamed file.
pub const SAMPLE_LIMIT_BYTES: u64 = 4194304;

/// Bytes sampled from an SQL dump.
pub const SQLDUMP_SAMPLE_LIMIT: u64 = 67108864;

/// Families whose extractors read the whole file, and so are capped in size.
pub open spec fn whole_file(f: Family) -> bool {
    f == Family::Json || f == Family::Html || f == Family::Yaml || f == Family::TxtProse || f
        == Family::Pdf || f == Family::Docx
}

/// How much the extractor may read while sampling: a byte budget for the
/// streamed families, a per-table row cap (signalled as 1) for SQLite, and
/// nothing for the whole-file families, which cap themselves.
pub open spec fn spec_sample_limit(f: Family) -> Option<u64> {
    match f {
        Family::SqlDump => Some(SQLDUMP_SAMPLE_LIMIT),
        Family::Jsonl | Family::Logs | Family::Csv | Family::TxtLines => Some(SAMPLE_LIMIT_BYTES),
        Family::Sqlite => Some(1),
        _ => None,
    }
}

pub fn sample_limit(f: Family) -> (r: Option<u64>)
    ensures
        r == spec_sample_limit(f),
{
    match f {
        Family::SqlDump => Some(SQLDUMP_SAMPLE_LIMIT),
        Family::Jsonl | Family::Logs | Family::Csv | Family::TxtLines => Some(SAMPLE_LIMIT_BYTES),
        Family::Sqlite => Some(1),
        _ => None,
    }
}

/// Families whose records come in groups (tables) that all need sampling.
pub open spec fn spec_grouped(f: Family) -> bool {
    f == Family::SqlDump || f == Family::Sqlite
}

pub fn grouped(f: Family) -> (r: bool)
    ensures
        r == spec_grouped(f),
{
    match f {
        Family::SqlDump | Family::Sqlite => true,
        _ => false,
    }
}

/// A record joins its group's sample while the group has fewer than
/// `sample` records.
pub fn samples_record(seen: u64, sample: usize) -> (r: bool)
    ensures
        r == ((seen as int) < (sample as int)),
{
    (seen as u128) < (sample as u128)
}

/// After a record (its group has now seen `seen`), reading goes on for
/// grouped families, and for others while the sample is not full.
pub fn keep_reading(f: Family, seen: u64, sample: usize) -> (r: bool)
    ensures
        r == (spec_grouped(f) || (seen as int) < (sample as int)),
{
    grouped(f) || (seen as u128) < (sample as u128)
}

/// The verdict on a sniffed file before extraction, as (status, reason):
/// binary content is junk, and a whole-file family over the size cap is
/// skipped; `None` lets extraction run.
pub open spec fn pre_verdict(f: Family, kind: Option<Seq<char>>, size: u64, max_file_gb: u64) -> Option<(Seq<char>, Seq<char>)> {
    if f == Family::Binary {
        Some(
            (
                "junk"@,
                "binary content ("@ + match kind {
                    Some(k) => k,
                    None => "unknown"@,
                } + ")"@,
            ),
        )
    } else if whole_file(f) && size > max_file_gb * GB {
        Some(
            (
                "skipped"@,
                "oversized for non-streaming family "@ + family_name(f) + " (> "@ + dec(max_file_gb as nat)
                    + " GB)"@,
            ),
        )
    } else {
        None
    }
}

fn is_whole_file(f: Family) -> (r: bool)
    ensures
        r == whole_file(f),
{
    match f {
        Family::Json | Family::Html | Family::Yaml | Family::TxtProse | Family::Pdf | Family::Docx => true,
        _ => false,
    }
}

pub fn scan_verdict(sn: &Sniffed, size: u64, max_file_gb: u64) -> (r: Option<(String, String)>)
    requires
        max_file_gb * GB <= u64::MAX,
    ensures
        match pre_verdict(sn.family, kind_view(sn.binary_kind), size, max_file_gb) {
            Some(v) => r matches Some(x) && x.0@ == v.0 && x.1@ == v.1,
            None => r is None,
        },
{
    let is_binary = match sn.family {
        Family::Binary => true,
        _ => false,
    };
    if is_binary {
        let mut reason: Vec<char> = Vec::new();
        push_str_chars(&mut reason, "binary content (");
        match &sn.binary_kind {
            Some(k) => push_str_chars(&mut reason, k.as_str()),
            None => push_str_chars(&mut reason, "unknown"),
        }
        push_str_chars(&mut reason, ")");
        return Some((string_from_chars(chars_of("junk").as_slice()), string_from_chars(reason.as_slice())));
    }
    if is_whole_file(sn.family) && size > max_file_gb * GB {
        let mut reason: Vec<char> = Vec::new();
        push_str_chars(&mut reason, "oversized for non-streaming family ");
        push_str_chars(&mut reason, sn.family.as_str());
        push_str_chars(&mut reason, " (> ");
        push_dec(&mut reason, max_file_gb);
        push_str_chars(&mut reason, " GB)");
        return Some((string_from_chars(chars_of("skipped").as_slice()), string_from_chars(reason.as_slice())));
    }
    None
}

/// The verdict on a file whose sniff failed: junk, "unreadable: " and the
/// error; nothing is sniffed and nothing is extracted.
pub open spec fn unreadable_verdict(error: Seq<char>) -> (Seq<char>, Seq<char>) {
    ("junk"@, "unreadable: "@ + error)
}

/// The verdict on a file before extraction, given what sniffing it gave:
/// a failed sniff is unreadable junk; a sniffed file is judged by
/// `pre_verdict`. `None` lets extraction run.
pub fn file_verdict(sniffed: Result<&Sniffed, &str>, size: u64, max_file_gb: u64) -> (r: Option<(String, String)>)
    requires
        max_file_gb * GB <= u64::MAX,
    ensures
        match sniffed {
            Err(e) => r matches Some(x) && x.0@ == unreadable_verdict(e@).0 && x.1@ == unreadable_verdict(e@).1,
            Ok(sn) => match pre_verdict(sn.family, kind_view(sn.binary_kind), size, max_file_gb) {
                Some(v) => r matches Some(x) && x.0@ == v.0 && x.1@ == v.1,
                None => r is None,
            },
        },
{
    match sniffed {
        Err(e) => {
            let mut reason: Vec<char> = Vec::new();
            push_str_chars(&mut reason, "unreadable: ");
            push_str_chars(&mut reason, e);
            Some((string_from_chars(chars_of("junk").as_slice()), string_from_chars(reason.as_slice())))
        },
        Ok(sn) => scan_verdict(sn, size, max_file_gb),
    }
}

/// The verdict when extraction produced no record: the extractor's error,
/// or the family and the junk-line count it reported.
pub open spec fn empty_verdict(f: Family, outcome: Result<u64, Seq<char>>) -> Seq<char> {
    match outcome {
        Ok(junk) => "no records extracted ("@ + family_name(f) + " candidate family, "@ + dec(junk as nat)
            + " junk lines)"@,
        Err(e) => "extract failed: "@ + e,
    }
}

pub fn no_records_reason(f: Family, outcome: Result<u64, String>) -> (r: String)
    ensures
        r@ == empty_verdict(
            f,
            match outcome {
                Ok(j) => Ok(j),
                Err(e) => Err(e@),
            },
        ),
{
    let mut reason: Vec<char> = Vec::new();
    match outcome {
        Ok(junk) => {
            push_str_chars(&mut reason, "no records extracted (");
            push_str_chars(&mut reason, f.as_str());
            push_str_chars(&mut reason, " candidate family, ");
            push_dec(&mut reason, junk);
            push_str_chars(&mut reason, " junk lines)");
        },
        Err(e) => {
            push_str_chars(&mut reason, "extract failed: ");
            push_str_chars(&mut reason, e.as_str());
        },
    }
    string_from_chars(reason.as_slice())
}

} // verus!
