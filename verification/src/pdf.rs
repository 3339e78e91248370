//! The PDF extraction rules that do not need the parser: the legacy symbol
//! glyph normalization, the text quality gate, the document and per-page
//! limits and verdicts, the spool budget and the worker gate's accounting.

use crate::text::{
    alphanumeric, chars_of, dec, is_alphanumeric, is_whitespace, is_ws, push_chars, push_dec,
    push_str_chars, str_eq, string_from_chars, trim, trim_chars,
};
use vstd::prelude::*;

verus! {

/// Ceiling on concurrent PDF worker processes.
pub const MAX_PDF_WORKERS: usize = 4;

/// What a legacy symbol-font code point stands for.
pub open spec fn glyph(c: char) -> char {
    let u = c as u32;
    if u == 0xf0b7 {
        '\u{2022}'
    } else if u == 0xf02d {
        '-'
    } else if u == 0xf078 || u == 0xf0a8 || u == 0xf06f || u == 0xf052 || u == 0xf0a3 || u == 0xf020 {
        '\u{25a1}'
    } else if u == 0xf0d2 || u == 0xf0d4 || u == 0xf0be {
        ' '
    } else {
        c
    }
}

pub fn glyph_exec(c: char) -> (r: char)
    ensures
        r == glyph(c),
{
    let u = c as u32;
    if u == 0xf0b7 {
        '\u{2022}'
    } else if u == 0xf02d {
        '-'
    } else if u == 0xf078 || u == 0xf0a8 || u == 0xf06f || u == 0xf052 || u == 0xf0a3 || u == 0xf020 {
        '\u{25a1}'
    } else if u == 0xf0d2 || u == 0xf0d4 || u == 0xf0be {
        ' '
    } else {
        c
    }
}

/// Replace the private-use code points that legacy symbol fonts use for
/// bullets, dashes, boxes and spaces with what they stand for.
pub fn normalize_legacy_symbol_glyphs(text: &str) -> (r: String)
    ensures
        r@ == text@.map_values(|c: char| glyph(c)),
{
    let cs = chars_of(text);
    let mut out: Vec<char> = Vec::new();
    let mut i: usize = 0;
    while i < cs.len()
        invariant
            i <= cs@.len(),
            cs@ == text@,
            out@ == cs@.subrange(0, i as int).map_values(|c: char| glyph(c)),
        decreases cs@.len() - i,
    {
        out.push(glyph_exec(cs[i]));
        i += 1;
        proof {
            assert(out@ =~= cs@.subrange(0, i as int).map_values(|c: char| glyph(c)));
        }
    }
    proof {
        assert(cs@.subrange(0, cs@.len() as int) =~= cs@);
    }
    string_from_chars(out.as_slice())
}

/// General category `Cc`, the property `char::is_control` tests.
pub open spec fn is_cc(c: char) -> bool {
    (c as u32) <= 0x1f || (0x7f <= (c as u32) <= 0x9f)
}

/// Replacement glyphs, controls and private-use code points.
pub open spec fn suspicious(c: char) -> bool {
    let u = c as u32;
    u == 0xfffd || is_cc(c) || (0xe000 <= u <= 0xf8ff) || (0xf0000 <= u <= 0xffffd) || (0x100000
        <= u <= 0x10fffd)
}

/// The counts the quality gate decides on.
pub open spec fn visible(s: Seq<char>) -> nat
    decreases s.len(),
{
    if s.len() == 0 {
        0
    } else {
        visible(s.drop_last()) + if is_ws(s.last()) {
            0nat
        } else {
            1nat
        }
    }
}

pub open spec fn semantic(s: Seq<char>) -> nat
    decreases s.len(),
{
    if s.len() == 0 {
        0
    } else {
        semantic(s.drop_last()) + if !is_ws(s.last()) && alphanumeric(s.last()) {
            1nat
        } else {
            0nat
        }
    }
}

pub open spec fn suspicious_count(s: Seq<char>) -> nat
    decreases s.len(),
{
    if s.len() == 0 {
        0
    } else {
        suspicious_count(s.drop_last()) + if !is_ws(s.last()) && suspicious(s.last()) {
            1nat
        } else {
            0nat
        }
    }
}

/// Why extracted text was refused.
#[derive(Debug, Clone, Copy, PartialEq, Eq)]
pub enum QualityError {
    /// Fewer than 8 visible characters.
    TooLittleText,
    /// More than 0.5% of visible characters are controls, replacement glyphs
    /// or private-use codes.
    BrokenGlyphs,
    /// Fewer than 5% of visible characters are letters or numbers.
    TooFewLettersOrNumbers,
}

impl QualityError {
    pub fn message(&self) -> (r: &'static str)
        ensures
            r@ == match *self {
                QualityError::TooLittleText => "too little visible text"@,
                QualityError::BrokenGlyphs => "more than 0.5% of visible characters are controls, replacement glyphs, or private-use codes"@,
                QualityError::TooFewLettersOrNumbers => "fewer than 5% of visible characters are letters or numbers"@,
            },
    {
        match self {
            QualityError::TooLittleText => "too little visible text",
            QualityError::BrokenGlyphs => "more than 0.5% of visible characters are controls, replacement glyphs, or private-use codes",
            QualityError::TooFewLettersOrNumbers => "fewer than 5% of visible characters are letters or numbers",
        }
    }
}

/// The quality verdict on some text.
pub open spec fn spec_quality(s: Seq<char>) -> Result<(), QualityError> {
    if visible(s) < 8 {
        Err(QualityError::TooLittleText)
    } else if suspicious_count(s) * 200 > visible(s) {
        Err(QualityError::BrokenGlyphs)
    } else if semantic(s) * 20 < visible(s) {
        Err(QualityError::TooFewLettersOrNumbers)
    } else {
        Ok(())
    }
}

/// How many replacement characters U+FFFD some text holds.
pub open spec fn replacement_count(s: Seq<char>) -> nat
    decreases s.len(),
{
    if s.len() == 0 {
        0
    } else {
        replacement_count(s.drop_last()) + if s.last() as u32 == 0xfffd {
            1nat
        } else {
            0nat
        }
    }
}

/// What counts as a broken glyph: the replacement character U+FFFD, a
/// control character (C0 or C1), and a private-use code point (the BMP area
/// and planes 15 and 16).
pub proof fn lemma_broken_glyphs_are_suspicious(c: char)
    requires
        ({
            let u = c as u32;
            u == 0xfffd || u <= 0x1f || (0x7f <= u && u <= 0x9f) || (0xe000 <= u && u <= 0xf8ff) || (0xf0000 <= u
                && u <= 0xffffd) || (0x100000 <= u && u <= 0x10fffd)
        }),
    ensures
        suspicious(c),
{
}

/// Every replacement character is a visible broken glyph.
pub proof fn lemma_replacements_counted(s: Seq<char>)
    ensures
        replacement_count(s) <= suspicious_count(s),
        replacement_count(s) <= visible(s),
    decreases s.len(),
{
    if s.len() > 0 {
        lemma_replacements_counted(s.drop_last());
        if s.last() as u32 == 0xfffd {
            assert(!is_ws(s.last()));
            lemma_broken_glyphs_are_suspicious(s.last());
        }
    }
}

/// Text of at least 8 visible characters of which more than 0.5% are the
/// replacement character U+FFFD is refused for broken glyphs.
pub proof fn lemma_replacement_glyphs_refused(s: Seq<char>)
    requires
        visible(s) >= 8,
        replacement_count(s) * 200 > visible(s),
    ensures
        spec_quality(s) == Err::<(), QualityError>(QualityError::BrokenGlyphs),
{
    lemma_replacements_counted(s);
}

/// Text with fewer than 8 visible (non-white-space) characters is refused
/// as too little, whatever those characters are; accepted text has at least
/// 8 of them, and at most one in two hundred is a replacement character.
pub proof fn lemma_quality_floor(s: Seq<char>)
    ensures
        visible(s) < 8 ==> spec_quality(s) == Err::<(), QualityError>(QualityError::TooLittleText),
        spec_quality(s) is Ok ==> visible(s) >= 8 && replacement_count(s) * 200 <= visible(s),
{
    lemma_replacements_counted(s);
}

fn suspicious_exec(c: char) -> (r: bool)
    ensures
        r == suspicious(c),
{
    let u = c as u32;
    u == 0xfffd || u <= 0x1f || (0x7f <= u && u <= 0x9f) || (0xe000 <= u && u <= 0xf8ff) || (
    0xf0000 <= u && u <= 0xffffd) || (0x100000 <= u && u <= 0x10fffd)
}

/// Fail closed rather than embed broken font codes: refuse text with too
/// few visible characters, too many broken glyphs, or too few letters and
/// numbers.
pub fn validate_text_quality(text: &str) -> (r: Result<(), QualityError>)
    ensures
        r == spec_quality(text@),
        visible(text@) >= 8 && replacement_count(text@) * 200 > visible(text@) ==> r == Err::<(), QualityError>(
            QualityError::BrokenGlyphs,
        ),
{
    proof {
        if visible(text@) >= 8 && replacement_count(text@) * 200 > visible(text@) {
            lemma_replacement_glyphs_refused(text@);
        }
    }
    let cs = chars_of(text);
    let mut vis: u64 = 0;
    let mut sem: u64 = 0;
    let mut sus: u64 = 0;
    let mut i: usize = 0;
    while i < cs.len()
        invariant
            i <= cs@.len(),
            cs@ == text@,
            vis == visible(cs@.subrange(0, i as int)),
            sem == semantic(cs@.subrange(0, i as int)),
            sus == suspicious_count(cs@.subrange(0, i as int)),
            vis <= i,
            sem <= i,
            sus <= i,
        decreases cs@.len() - i,
    {
        proof {
            assert(cs@.subrange(0, i + 1).drop_last() =~= cs@.subrange(0, i as int));
        }
        let c = cs[i];
        if !is_whitespace(c) {
            vis += 1;
            if is_alphanumeric(c) {
                sem += 1;
            }
            if suspicious_exec(c) {
                sus += 1;
            }
        }
        i += 1;
    }
    proof {
        assert(cs@.subrange(0, cs@.len() as int) =~= cs@);
    }
    if vis < 8 {
        return Err(QualityError::TooLittleText);
    }
    if (sus as u128) * 200 > vis as u128 {
        return Err(QualityError::BrokenGlyphs);
    }
    if (sem as u128) * 20 < vis as u128 {
        return Err(QualityError::TooFewLettersOrNumbers);
    }
    Ok(())
}

/// The run-wide budget for spooled worker output: bytes and spool count.
#[derive(Debug)]
pub struct ExtractionSpoolBudget {
    used: u64,
    spools: u64,
    limit: u64,
    max_spools: u64,
}

/// Capacity held by one spool, until it is released to its budget.
#[derive(Debug)]
pub struct ExtractionSpoolReservation {
    bytes: u64,
}

impl ExtractionSpoolReservation {
    pub closed spec fn held(&self) -> u64 {
        self.bytes
    }

    pub fn bytes(&self) -> (r: u64)
        ensures
            r == self.held(),
    {
        self.bytes
    }
}

impl ExtractionSpoolBudget {
    pub closed spec fn used_bytes(&self) -> u64 {
        self.used
    }

    pub closed spec fn spool_count(&self) -> u64 {
        self.spools
    }

    pub closed spec fn limit_bytes(&self) -> u64 {
        self.limit
    }

    pub closed spec fn spool_limit(&self) -> u64 {
        self.max_spools
    }

    /// Never more spooled than the limits allow.
    pub closed spec fn wf(&self) -> bool {
        self.used <= self.limit && self.spools <= self.max_spools
    }

    pub fn new(limit: u64, max_spools: u64) -> (r: ExtractionSpoolBudget)
        ensures
            r.wf(),
            r.used_bytes() == 0,
            r.spool_count() == 0,
            r.limit_bytes() == limit,
            r.spool_limit() == max_spools,
    {
        ExtractionSpoolBudget { used: 0, spools: 0, limit, max_spools }
    }

    /// Why no spool was kept when a reservation is refused: the limits.
    pub fn full_message(&self) -> (r: String)
        ensures
            r@ == "the run-local extraction budget is full ("@ + dec((self.limit_bytes() / 1048576) as nat) + " MiB or "@
                + dec(self.spool_limit() as nat) + " artifacts)"@,
    {
        let mut out: Vec<char> = Vec::new();
        push_str_chars(&mut out, "the run-local extraction budget is full (");
        push_dec(&mut out, self.limit / 1048576);
        push_str_chars(&mut out, " MiB or ");
        push_dec(&mut out, self.max_spools);
        push_str_chars(&mut out, " artifacts)");
        string_from_chars(out.as_slice())
    }

    /// Reserve `bytes` for one more spool: granted exactly when a spool slot
    /// is free and the bytes fit under the limit.
    pub fn try_reserve(&mut self, bytes: u64) -> (r: Option<ExtractionSpoolReservation>)
        requires
            old(self).wf(),
        ensures
            final(self).wf(),
            final(self).limit_bytes() == old(self).limit_bytes(),
            final(self).spool_limit() == old(self).spool_limit(),
            (r is Some) == (old(self).spool_count() < old(self).spool_limit() && old(self).used_bytes()
                + bytes <= old(self).limit_bytes()),
            r matches Some(res) ==> res.held() == bytes && final(self).used_bytes() == old(
                self,
            ).used_bytes() + bytes && final(self).spool_count() == old(self).spool_count() + 1,
            r is None ==> final(self).used_bytes() == old(self).used_bytes() && final(self).spool_count()
                == old(self).spool_count(),
    {
        if self.spools >= self.max_spools {
            return None;
        }
        if bytes > self.limit - self.used {
            return None;
        }
        self.spools = self.spools + 1;
        self.used = self.used + bytes;
        Some(ExtractionSpoolReservation { bytes })
    }

    /// Give back what a spool holds beyond `bytes`.
    pub fn shrink_to(&mut self, res: &mut ExtractionSpoolReservation, bytes: u64)
        requires
            old(self).wf(),
            bytes <= old(res).held(),
            old(res).held() <= old(self).used_bytes(),
        ensures
            final(self).wf(),
            final(res).held() == bytes,
            final(self).used_bytes() == old(self).used_bytes() - (old(res).held() - bytes),
            final(self).spool_count() == old(self).spool_count(),
            final(self).limit_bytes() == old(self).limit_bytes(),
            final(self).spool_limit() == old(self).spool_limit(),
    {
        let released = res.bytes - bytes;
        res.bytes = bytes;
        self.used = self.used - released;
    }

    /// Refund a spool's bytes and its slot. A reservation is refunded only
    /// through this call (a type of this library has no `Drop`): whoever
    /// holds one hands it back here on every path, or wraps it in a guard
    /// that does so when dropped.
    pub fn release(&mut self, res: ExtractionSpoolReservation)
        requires
            old(self).wf(),
            res.held() <= old(self).used_bytes(),
            old(self).spool_count() > 0,
        ensures
            final(self).wf(),
            final(self).used_bytes() == old(self).used_bytes() - res.held(),
            final(self).spool_count() == old(self).spool_count() - 1,
            final(self).limit_bytes() == old(self).limit_bytes(),
            final(self).spool_limit() == old(self).spool_limit(),
    {
        self.used = self.used - res.bytes;
        self.spools = self.spools - 1;
    }
}

/// A reservation taken and then released leaves the budget as it was.
pub proof fn lemma_reserve_release_restores(
    before: ExtractionSpoolBudget,
    after_reserve: ExtractionSpoolBudget,
    after_release: ExtractionSpoolBudget,
    bytes: u64,
)
    requires
        after_reserve.used_bytes() == before.used_bytes() + bytes,
        after_reserve.spool_count() == before.spool_count() + 1,
        after_release.used_bytes() == after_reserve.used_bytes() - bytes,
        after_release.spool_count() == after_reserve.spool_count() - 1,
    ensures
        after_release.used_bytes() == before.used_bytes(),
        after_release.spool_count() == before.spool_count(),
{
}

/// `workers` clamped into `1..=4`.
pub open spec fn spec_worker_limit(workers: usize) -> usize {
    if workers < 1 {
        1
    } else if workers > MAX_PDF_WORKERS {
        MAX_PDF_WORKERS
    } else {
        workers
    }
}

pub fn worker_limit(workers: usize) -> (r: usize)
    ensures
        r == spec_worker_limit(workers),
{
    if workers < 1 {
        1
    } else if workers > MAX_PDF_WORKERS {
        MAX_PDF_WORKERS
    } else {
        workers
    }
}

/// A worker timeout clamped into one second to one hour.
pub fn timeout_seconds(seconds: u64) -> (r: u64)
    ensures
        r == if seconds < 1 {
            1
        } else if seconds > 3600 {
            3600
        } else {
            seconds
        },
{
    if seconds < 1 {
        1
    } else if seconds > 3600 {
        3600
    } else {
        seconds
    }
}

/// How many PDF workers run and how many may.
#[derive(Debug)]
pub struct WorkerGate {
    active: usize,
    limit: usize,
}

impl WorkerGate {
    pub closed spec fn active_count(&self) -> usize {
        self.active
    }

    pub closed spec fn limit_count(&self) -> usize {
        self.limit
    }

    pub fn new(limit: usize) -> (r: WorkerGate)
        ensures
            r.active_count() == 0,
            r.limit_count() == spec_worker_limit(limit),
    {
        WorkerGate { active: 0, limit: worker_limit(limit) }
    }

    /// Set the limit as given; running workers are not interrupted.
    pub fn set_limit(&mut self, limit: usize)
        ensures
            final(self).limit_count() == limit,
            final(self).active_count() == old(self).active_count(),
    {
        self.limit = limit;
    }

    /// Whether one more worker may start now.
    pub fn can_acquire(&self) -> (r: bool)
        ensures
            r == (self.active_count() < self.limit_count()),
    {
        self.active < self.limit
    }

    /// Count one more running worker. Only a free slot can be taken: a
    /// caller that finds none (`can_acquire` is false) waits for a
    /// `release` on its own thread before calling this.
    pub fn acquire(&mut self)
        requires
            old(self).active_count() < old(self).limit_count(),
        ensures
            final(self).active_count() == old(self).active_count() + 1,
            final(self).limit_count() == old(self).limit_count(),
    {
        self.active = self.active + 1;
    }

    pub fn release(&mut self)
        requires
            old(self).active_count() > 0,
        ensures
            final(self).active_count() == old(self).active_count() - 1,
            final(self).limit_count() == old(self).limit_count(),
    {
        self.active = self.active - 1;
    }
}

/// Set the PDF worker limit from the `--pdf-workers` value, clamped into `1..=4`.
pub fn configure_workers(gate: &mut WorkerGate, workers: usize)
    ensures
        final(gate).limit_count() == spec_worker_limit(workers),
        final(gate).active_count() == old(gate).active_count(),
{
    gate.set_limit(worker_limit(workers));
}

// ---- document and page limits ----

/// Largest PDF accepted: 512 MiB.
pub const PDF_CAP: u64 = 536870912;

/// Most pages a PDF may declare.
pub const MAX_PAGES: usize = 100000;

/// Most text one page may yield: 16 MiB.
pub const MAX_PAGE_TEXT: usize = 16777216;

/// Most text one PDF may yield: 64 MiB.
pub const MAX_EXTRACTED_TEXT: usize = 67108864;

/// Why a PDF was refused.
#[derive(Debug, Clone, Copy, PartialEq, Eq)]
pub enum PdfError {
    /// Above `PDF_CAP` (the size in bytes).
    TooLarge(u64),
    NoPages,
    /// Above `MAX_PAGES` (the declared count).
    TooManyPages(usize),
    /// This page yielded more than `MAX_PAGE_TEXT`.
    PageTooLarge(usize),
    /// This page's text failed the quality gate.
    Untrusted(usize, QualityError),
    /// The document yielded more than `MAX_EXTRACTED_TEXT`.
    TextLimit,
    /// No page had text and none failed: an image-only scan.
    NoText,
    /// Every page with text failed to extract.
    EveryPageFailed,
    /// Some pages failed (how many, of how many): no partial index.
    SomePagesFailed(usize, usize),
}

pub fn check_size(size: u64) -> (r: Result<(), PdfError>)
    ensures
        r == if size > PDF_CAP {
            Err(PdfError::TooLarge(size))
        } else {
            Ok(())
        },
{
    if size > PDF_CAP {
        Err(PdfError::TooLarge(size))
    } else {
        Ok(())
    }
}

pub fn check_page_count(pages: usize) -> (r: Result<(), PdfError>)
    ensures
        r == if pages == 0 {
            Err(PdfError::NoPages)
        } else if pages > MAX_PAGES {
            Err(PdfError::TooManyPages(pages))
        } else {
            Ok(())
        },
{
    if pages == 0 {
        Err(PdfError::NoPages)
    } else if pages > MAX_PAGES {
        Err(PdfError::TooManyPages(pages))
    } else {
        Ok(())
    }
}

/// Bytes of the UTF-8 encoding of a character.
pub open spec fn utf8_width(c: char) -> nat {
    let u = c as u32;
    if u < 0x80 {
        1
    } else if u < 0x800 {
        2
    } else if u < 0x10000 {
        3
    } else {
        4
    }
}

/// Bytes of the UTF-8 encoding of a text.
pub open spec fn utf8_len(s: Seq<char>) -> nat
    decreases s.len(),
{
    if s.len() == 0 {
        0
    } else {
        utf8_len(s.drop_last()) + utf8_width(s.last())
    }
}

pub open spec fn nonws_count(s: Seq<char>) -> nat
    decreases s.len(),
{
    if s.len() == 0 {
        0
    } else {
        nonws_count(s.drop_last()) + if is_ws(s.last()) {
            0nat
        } else {
            1nat
        }
    }
}

/// The text of a page once its legacy glyphs are normalized and it is
/// trimmed.
pub open spec fn page_body(text: Seq<char>) -> Seq<char> {
    trim(text.map_values(|c: char| glyph(c)))
}

/// `usize` addition that stops at the maximum.
pub open spec fn sat_add(a: nat, b: nat) -> nat {
    if a + b > usize::MAX {
        usize::MAX as nat
    } else {
        a + b
    }
}

/// The line that reports a page the extractor failed on: its number and
/// the extractor's message in brackets.
pub open spec fn failure_line(page: nat, err: Seq<char>) -> Seq<char> {
    dec(page) + seq![' ', '('] + err + seq![')']
}

/// What the pages so far left behind.
pub struct PagesView {
    pub failed: Seq<Seq<char>>,
    pub omitted: Seq<usize>,
    pub with_text: nat,
    pub extracted: nat,
}

/// One page through the rules: a failure is recorded; a page with no text,
/// or fewer than 8 non-space characters, is omitted; a page over
/// `MAX_PAGE_TEXT` or failing the quality gate refuses the document; else
/// its text is accepted and counted against `MAX_EXTRACTED_TEXT`.
pub open spec fn page_outcome(st: PagesView, page: usize, outcome: Result<Seq<char>, Seq<char>>) -> Result<
    (PagesView, Option<Seq<char>>),
    PdfError,
> {
    match outcome {
        Err(e) => Ok((PagesView { failed: st.failed.push(failure_line(page as nat, e)), ..st }, None)),
        Ok(t) => {
            let b = page_body(t);
            if b.len() == 0 {
                Ok((PagesView { omitted: st.omitted.push(page), ..st }, None))
            } else if utf8_len(b) > MAX_PAGE_TEXT {
                Err(PdfError::PageTooLarge(page))
            } else if nonws_count(b) < 8 {
                Ok((PagesView { omitted: st.omitted.push(page), ..st }, None))
            } else {
                match spec_quality(b) {
                    Err(q) => Err(PdfError::Untrusted(page, q)),
                    Ok(_) => {
                        let ex = sat_add(st.extracted, utf8_len(b));
                        if ex > MAX_EXTRACTED_TEXT {
                            Err(PdfError::TextLimit)
                        } else {
                            Ok((PagesView { extracted: ex, with_text: st.with_text + 1, ..st }, Some(b)))
                        }
                    },
                }
            }
        },
    }
}

/// The verdict once every page is through: no record at all is an
/// image-only scan (nothing failed) or a total failure; any failed page
/// refuses a partial index.
pub open spec fn pages_verdict(st: PagesView, pages: usize, records_made: bool) -> Result<(), PdfError> {
    if !records_made {
        if st.failed.len() == 0 {
            Err(PdfError::NoText)
        } else {
            Err(PdfError::EveryPageFailed)
        }
    } else if st.failed.len() > 0 {
        Err(PdfError::SomePagesFailed(st.failed.len() as usize, pages))
    } else {
        Ok(())
    }
}

pub open spec fn strings_view(v: Seq<String>) -> Seq<Seq<char>> {
    v.map_values(|s: String| s@)
}

/// The bookkeeping of one PDF's pages.
pub struct PdfPages {
    pub failed: Vec<String>,
    pub omitted: Vec<usize>,
    pub with_text: usize,
    pub extracted: usize,
}

impl View for PdfPages {
    type V = PagesView;

    open spec fn view(&self) -> PagesView {
        PagesView {
            failed: strings_view(self.failed@),
            omitted: self.omitted@,
            with_text: self.with_text as nat,
            extracted: self.extracted as nat,
        }
    }
}

fn utf8_len_exec(s: &[char]) -> (r: usize)
    ensures
        r as nat == if utf8_len(s@) > usize::MAX {
            usize::MAX as nat
        } else {
            utf8_len(s@)
        },
{
    let mut n: usize = 0;
    let mut i: usize = 0;
    let mut capped = false;
    while i < s.len()
        invariant
            i <= s@.len(),
            capped ==> utf8_len(s@.subrange(0, i as int)) > usize::MAX && n == usize::MAX,
            !capped ==> n as nat == utf8_len(s@.subrange(0, i as int)),
        decreases s@.len() - i,
    {
        proof {
            assert(s@.subrange(0, i + 1).drop_last() =~= s@.subrange(0, i as int));
        }
        let u = s[i] as u32;
        let w: usize = if u < 0x80 {
            1
        } else if u < 0x800 {
            2
        } else if u < 0x10000 {
            3
        } else {
            4
        };
        if !capped {
            if n > usize::MAX - w {
                n = usize::MAX;
                capped = true;
            } else {
                n = n + w;
            }
        }
        i += 1;
    }
    proof {
        assert(s@.subrange(0, s@.len() as int) =~= s@);
    }
    n
}

fn nonws_exec(s: &[char]) -> (r: usize)
    ensures
        r as nat == nonws_count(s@),
{
    let mut n: usize = 0;
    let mut i: usize = 0;
    while i < s.len()
        invariant
            i <= s@.len(),
            n <= i,
            n as nat == nonws_count(s@.subrange(0, i as int)),
        decreases s@.len() - i,
    {
        proof {
            assert(s@.subrange(0, i + 1).drop_last() =~= s@.subrange(0, i as int));
        }
        if !is_whitespace(s[i]) {
            n += 1;
        }
        i += 1;
    }
    proof {
        assert(s@.subrange(0, s@.len() as int) =~= s@);
    }
    n
}

pub proof fn lemma_utf8_len(s: Seq<char>)
    ensures
        utf8_len(s) >= s.len(),
    decreases s.len(),
{
    if s.len() > 0 {
        lemma_utf8_len(s.drop_last());
    }
}

impl PdfPages {
    /// Every page with text added at least a byte, and the bytes stay
    /// within `MAX_EXTRACTED_TEXT`.
    pub open spec fn wf(&self) -> bool {
        self.with_text <= self.extracted <= MAX_EXTRACTED_TEXT
    }

    pub fn new() -> (r: PdfPages)
        ensures
            r.wf(),
            r@ == (PagesView { failed: Seq::empty(), omitted: Seq::empty(), with_text: 0, extracted: 0 }),
    {
        let r = PdfPages { failed: Vec::new(), omitted: Vec::new(), with_text: 0, extracted: 0 };
        proof {
            assert(strings_view(r.failed@) =~= Seq::<Seq<char>>::empty());
        }
        r
    }

    /// Take page `page` (numbered from 1) as the extractor returned it:
    /// its text, or the extractor's error message. Gives the page's body
    /// when it is accepted.
    pub fn page(&mut self, page: usize, outcome: Result<String, String>) -> (r: Result<Option<String>, PdfError>)
        requires
            old(self).wf(),
        ensures
            final(self).wf(),
            match page_outcome(
                old(self)@,
                page,
                match outcome {
                    Ok(t) => Ok(t@),
                    Err(e) => Err(e@),
                },
            ) {
                Ok((st, body)) => r matches Ok(b) && final(self)@ == st && match b {
                    Some(x) => body == Some(x@),
                    None => body is None,
                },
                Err(e) => r == Err::<Option<String>, PdfError>(e),
            },
    {
        match outcome {
            Err(e) => {
                let mut line: Vec<char> = Vec::new();
                push_dec(&mut line, page as u64);
                let open: [char; 2] = [' ', '('];
                let close: [char; 1] = [')'];
                proof {
                    assert(open@ =~= seq![' ', '(']);
                    assert(close@ =~= seq![')']);
                }
                push_chars(&mut line, &open);
                push_str_chars(&mut line, e.as_str());
                push_chars(&mut line, &close);
                let ghost before = strings_view(self.failed@);
                let ls = string_from_chars(line.as_slice());
                proof {
                    assert(ls@ == failure_line(page as nat, e@));
                }
                self.failed.push(ls);
                proof {
                    assert(strings_view(self.failed@) =~= before.push(failure_line(page as nat, e@)));
                }
                Ok(None)
            },
            Ok(t) => {
                let norm = normalize_legacy_symbol_glyphs(t.as_str());
                let nc = chars_of(norm.as_str());
                let b = trim_chars(nc.as_slice());
                if b.len() == 0 {
                    self.omitted.push(page);
                    return Ok(None);
                }
                let len = utf8_len_exec(b.as_slice());
                if len > MAX_PAGE_TEXT {
                    return Err(PdfError::PageTooLarge(page));
                }
                if nonws_exec(b.as_slice()) < 8 {
                    self.omitted.push(page);
                    return Ok(None);
                }
                proof {
                    lemma_utf8_len(b@);
                }
                let body = string_from_chars(b.as_slice());
                match validate_text_quality(body.as_str()) {
                    Err(q) => Err(PdfError::Untrusted(page, q)),
                    Ok(_) => {
                        let ex = if self.extracted > usize::MAX - len {
                            usize::MAX
                        } else {
                            self.extracted + len
                        };
                        if ex > MAX_EXTRACTED_TEXT {
                            return Err(PdfError::TextLimit);
                        }
                        self.extracted = ex;
                        self.with_text = self.with_text + 1;
                        Ok(Some(body))
                    },
                }
            },
        }
    }

    /// The verdict once every page is through (`records_made`: whether the
    /// accepted pages produced any record).
    pub fn verdict(&self, pages: usize, records_made: bool) -> (r: Result<(), PdfError>)
        ensures
            r == pages_verdict(self@, pages, records_made),
    {
        if !records_made {
            if self.failed.len() == 0 {
                Err(PdfError::NoText)
            } else {
                Err(PdfError::EveryPageFailed)
            }
        } else if self.failed.len() > 0 {
            Err(PdfError::SomePagesFailed(self.failed.len(), pages))
        } else {
            Ok(())
        }
    }
}

/// Page numbers in decimal, joined by `", "`.
pub open spec fn dec_join(ns: Seq<usize>) -> Seq<char>
    decreases ns.len(),
{
    if ns.len() == 0 {
        Seq::empty()
    } else if ns.len() == 1 {
        dec(ns[0] as nat)
    } else {
        dec_join(ns.drop_last()) + seq![',', ' '] + dec(ns.last() as nat)
    }
}

/// The warning every record of a PDF with omitted pages carries: how many
/// pages had no usable text, and the first eight of them.
pub open spec fn ocr_warning_text(omitted: Seq<usize>) -> Option<Seq<char>> {
    if omitted.len() == 0 {
        None
    } else {
        let first = if omitted.len() <= 8 {
            omitted
        } else {
            omitted.subrange(0, 8)
        };
        Some(
            dec(omitted.len()) + " page(s) had no usable text (first: "@ + dec_join(first)
                + "); intentional blanks or scanned pages may need OCR"@,
        )
    }
}

impl PdfPages {
    pub fn ocr_warning(&self) -> (r: Option<String>)
        ensures
            match ocr_warning_text(self.omitted@) {
                Some(w) => r matches Some(x) && x@ == w,
                None => r is None,
            },
    {
        let n = self.omitted.len();
        if n == 0 {
            return None;
        }
        let shown = if n <= 8 {
            n
        } else {
            8
        };
        let ghost first = if n <= 8 {
            self.omitted@
        } else {
            self.omitted@.subrange(0, 8)
        };
        let mut out: Vec<char> = Vec::new();
        push_dec(&mut out, n as u64);
        push_str_chars(&mut out, " page(s) had no usable text (first: ");
        let ghost head = out@;
        let sep: [char; 2] = [',', ' '];
        proof {
            assert(sep@ =~= seq![',', ' ']);
            assert(first.len() == shown);
        }
        let mut k: usize = 0;
        while k < shown
            invariant
                k <= shown,
                shown <= self.omitted@.len(),
                first.len() == shown,
                forall|j: int| 0 <= j < shown ==> first[j] == self.omitted@[j],
                sep@ == seq![',', ' '],
                out@ == head + dec_join(first.subrange(0, k as int)),
            decreases shown - k,
        {
            let ghost q0 = out@;
            if k > 0 {
                push_chars(&mut out, &sep);
            }
            push_dec(&mut out, self.omitted[k] as u64);
            proof {
                let s1 = first.subrange(0, k + 1);
                assert(s1.drop_last() =~= first.subrange(0, k as int));
                assert(s1.last() == self.omitted@[k as int]);
                if k > 0 {
                    assert(dec_join(s1) == dec_join(s1.drop_last()) + seq![',', ' '] + dec(s1.last() as nat));
                    assert(out@ =~= head + dec_join(s1));
                } else {
                    assert(dec_join(s1) == dec(s1[0] as nat));
                    assert(q0 =~= head);
                    assert(out@ =~= head + dec_join(s1));
                }
            }
            k += 1;
        }
        proof {
            assert(first.subrange(0, shown as int) =~= first);
        }
        push_str_chars(&mut out, "); intentional blanks or scanned pages may need OCR");
        Some(string_from_chars(out.as_slice()))
    }
}

/// The title of a PDF's records: the file's stem, unless it is blank.
pub fn pdf_title(stem: Option<&str>) -> (r: String)
    ensures
        r@ == match stem {
            Some(s) => if trim(s@).len() > 0 {
                s@
            } else {
                "untitled"@
            },
            None => "untitled"@,
        },
{
    match stem {
        Some(s) => {
            let cs = chars_of(s);
            let t = trim_chars(cs.as_slice());
            if t.len() > 0 {
                string_from_chars(cs.as_slice())
            } else {
                string_from_chars(chars_of("untitled").as_slice())
            }
        },
        None => string_from_chars(chars_of("untitled").as_slice()),
    }
}

// ---- the worker's reply ----

/// The extraction schema parent and worker speak.
pub const WORKER_SCHEMA: u32 = 1;

/// Why a worker reply is not trusted: its schema, extractor or parser is not
/// the one this build expects.
pub open spec fn identity_error(
    schema: u32,
    extractor: Seq<char>,
    parser: Seq<char>,
    expected_extractor: Seq<char>,
    expected_parser: Seq<char>,
) -> Option<Seq<char>> {
    if schema != WORKER_SCHEMA {
        Some("PDF parser returned unsupported extraction schema "@ + dec(schema as nat)
            + "; update parent and worker together"@)
    } else if extractor != expected_extractor {
        Some("PDF extractor version mismatch: expected "@ + expected_extractor + ", worker reported "@ + extractor
            + "; update parent and worker together"@)
    } else if parser != expected_parser {
        Some("PDF parser version mismatch: expected "@ + expected_parser + ", worker reported "@ + parser
            + "; update parent and worker together"@)
    } else {
        None
    }
}

/// Check that a worker reply comes from the extractor and parser this build
/// was made with (the expected names are the build's own version strings).
pub fn validate_response_identity(
    schema: u32,
    extractor: &str,
    parser: &str,
    expected_extractor: &str,
    expected_parser: &str,
) -> (r: Result<(), String>)
    ensures
        match identity_error(schema, extractor@, parser@, expected_extractor@, expected_parser@) {
            None => r is Ok,
            Some(m) => r matches Err(e) && e@ == m,
        },
{
    let mut out: Vec<char> = Vec::new();
    if schema != WORKER_SCHEMA {
        push_str_chars(&mut out, "PDF parser returned unsupported extraction schema ");
        push_dec(&mut out, schema as u64);
    } else if !str_eq(extractor, expected_extractor) {
        push_str_chars(&mut out, "PDF extractor version mismatch: expected ");
        push_str_chars(&mut out, expected_extractor);
        push_str_chars(&mut out, ", worker reported ");
        push_str_chars(&mut out, extractor);
    } else if !str_eq(parser, expected_parser) {
        push_str_chars(&mut out, "PDF parser version mismatch: expected ");
        push_str_chars(&mut out, expected_parser);
        push_str_chars(&mut out, ", worker reported ");
        push_str_chars(&mut out, parser);
    } else {
        return Ok(());
    }
    push_str_chars(&mut out, "; update parent and worker together");
    Err(string_from_chars(out.as_slice()))
}

/// Bytes of worker output the parent reads at most (32 MiB).
pub const MAX_WORKER_OUTPUT: usize = 33554432;

/// Bytes of worker diagnostics the parent reads at most (64 KiB).
pub const MAX_WORKER_STDERR: usize = 65536;

/// Why a finished worker's output is not used: its output or its
/// diagnostics overflowed the parent's limits, or it failed (with its
/// trimmed diagnostics, when there are any).
pub open spec fn worker_failure(
    stdout_overflow: bool,
    stderr_overflow: bool,
    stderr: Seq<char>,
    success: bool,
    path: Seq<char>,
) -> Option<Seq<char>> {
    if stdout_overflow {
        Some("PDF parser output exceeded the 32 MiB parent-memory safety limit for "@ + path
            + "; split the document before indexing"@)
    } else if stderr_overflow {
        Some("PDF parser error output exceeded the 64 KiB safety limit for "@ + path
            + "; the worker was excessively noisy and its truncated diagnostic is: "@ + stderr)
    } else if !success {
        Some("isolated PDF parser failed for "@ + path + (if trim(stderr).len() == 0 {
            Seq::<char>::empty()
        } else {
            ": "@
        }) + trim(stderr) + "; verify/decrypt the PDF, repair it, or run OCR for image-only input"@)
    } else {
        None
    }
}

/// The verdict on a finished worker, given its diagnostics decoded.
pub fn worker_verdict(
    stdout_overflow: bool,
    stderr_overflow: bool,
    stderr: &str,
    success: bool,
    path: &str,
) -> (r: Result<(), String>)
    ensures
        match worker_failure(stdout_overflow, stderr_overflow, stderr@, success, path@) {
            None => r is Ok,
            Some(m) => r matches Err(e) && e@ == m,
        },
{
    let mut out: Vec<char> = Vec::new();
    if stdout_overflow {
        push_str_chars(&mut out, "PDF parser output exceeded the 32 MiB parent-memory safety limit for ");
        push_str_chars(&mut out, path);
        push_str_chars(&mut out, "; split the document before indexing");
    } else if stderr_overflow {
        push_str_chars(&mut out, "PDF parser error output exceeded the 64 KiB safety limit for ");
        push_str_chars(&mut out, path);
        push_str_chars(&mut out, "; the worker was excessively noisy and its truncated diagnostic is: ");
        push_str_chars(&mut out, stderr);
    } else if !success {
        let t = trim_chars(chars_of(stderr).as_slice());
        push_str_chars(&mut out, "isolated PDF parser failed for ");
        push_str_chars(&mut out, path);
        if t.len() > 0 {
            push_str_chars(&mut out, ": ");
        }
        push_chars(&mut out, t.as_slice());
        push_str_chars(&mut out, "; verify/decrypt the PDF, repair it, or run OCR for image-only input");
        proof {
            assert(out@ =~= worker_failure(stdout_overflow, stderr_overflow, stderr@, success, path@)->0);
        }
    } else {
        return Ok(());
    }
    Err(string_from_chars(out.as_slice()))
}

// ---- replaying a retained extraction ----

/// Why a retained extraction is not replayed for a source: it was made
/// from another generation of the file, its length changed, or its content
/// changed.
#[derive(Debug, Clone, Copy, PartialEq, Eq)]
pub enum SpoolError {
    OtherGeneration,
    LengthChanged(u64, u64),
    ContentChanged,
}

impl SpoolError {
    pub fn message(&self) -> (r: String)
        ensures
            r@ == match *self {
                SpoolError::OtherGeneration => "PDF extraction spool belongs to a different source generation; retry extraction"@,
                SpoolError::LengthChanged(e, a) => "PDF extraction spool length changed (expected "@ + dec(e as nat)
                    + ", found "@ + dec(a as nat) + "); retry extraction"@,
                SpoolError::ContentChanged => "PDF extraction spool content changed; retry extraction"@,
            },
    {
        let mut out: Vec<char> = Vec::new();
        match self {
            SpoolError::OtherGeneration => push_str_chars(
                &mut out,
                "PDF extraction spool belongs to a different source generation; retry extraction",
            ),
            SpoolError::LengthChanged(e, a) => {
                push_str_chars(&mut out, "PDF extraction spool length changed (expected ");
                push_dec(&mut out, *e);
                push_str_chars(&mut out, ", found ");
                push_dec(&mut out, *a);
                push_str_chars(&mut out, "); retry extraction");
            },
            SpoolError::ContentChanged => push_str_chars(&mut out, "PDF extraction spool content changed; retry extraction"),
        }
        string_from_chars(out.as_slice())
    }
}

/// The spool was made from this generation of the source (its size and
/// content digest).
pub fn spool_generation_check(spool_size: u64, spool_digest: &str, source_size: u64, source_digest: &str) -> (r: Result<(), SpoolError>)
    ensures
        r == if spool_size == source_size && spool_digest@ == source_digest@ {
            Ok::<(), SpoolError>(())
        } else {
            Err(SpoolError::OtherGeneration)
        },
{
    if spool_size == source_size && str_eq(spool_digest, source_digest) {
        Ok(())
    } else {
        Err(SpoolError::OtherGeneration)
    }
}

/// The spool still has the length that was validated (its digest is read
/// only when it does).
pub fn spool_length_check(expected_bytes: u64, actual_bytes: u64) -> (r: Result<(), SpoolError>)
    ensures
        r == if expected_bytes != actual_bytes {
            Err(SpoolError::LengthChanged(expected_bytes, actual_bytes))
        } else {
            Ok::<(), SpoolError>(())
        },
{
    if expected_bytes != actual_bytes {
        Err(SpoolError::LengthChanged(expected_bytes, actual_bytes))
    } else {
        Ok(())
    }
}

/// The spool still has the content digest that was validated.
pub fn spool_digest_check(expected_digest: u128, actual_digest: u128) -> (r: Result<(), SpoolError>)
    ensures
        r == if expected_digest != actual_digest {
            Err(SpoolError::ContentChanged)
        } else {
            Ok::<(), SpoolError>(())
        },
{
    if expected_digest != actual_digest {
        Err(SpoolError::ContentChanged)
    } else {
        Ok(())
    }
}

} // verus!
