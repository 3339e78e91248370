//! What one indexing run may take from the machine it is running on.
//!
//! * Phase A (hashing, sniffing, sampling) is CPU-bound: it gets the requested
//!   worker count, every core by default.
//! * Phase B is network-bound; memory is its constraint, so the worker count
//!   is capped by what the memory safe zone can pay for in bulk buffers.
//! * PDF workers are separate processes of 1536 MiB address space each: the
//!   cap is what the safe zone can pay for, never more than 4.

use crate::text::{dec, push_dec, push_str_chars, string_from_chars};
use vstd::prelude::*;

verus! {

pub const MIB: u64 = 1048576;

/// Hard ceiling on `--workers`: a value past this is a typo, which the CLI
/// rejects rather than clamps.
pub const MAX_WORKERS: usize = 1024;

/// Ceiling on concurrent PDF subprocesses.
pub const MAX_PDF_WORKERS: usize = 4;

/// Address space one isolated PDF worker may take (1536 MiB).
pub const PDF_WORKER_BYTES: u64 = 1610612736;

/// Working memory one phase-B worker needs, in multiples of the bulk size.
pub const WORKER_BYTES_PER_BULK_MIB: u64 = 3;

/// The resource plan for one run.
#[derive(Debug, Clone, PartialEq, Eq)]
pub struct Plan {
    /// Threads for the phase-A scan pool.
    pub scan_threads: usize,
    /// Concurrent phase-B index workers.
    pub index_workers: usize,
    /// Concurrent isolated PDF extraction subprocesses.
    pub pdf_workers: usize,
    /// Bytes this run considers itself entitled to.
    pub safe_zone_bytes: u64,
    /// Anything the machine forced on the run, for the operator to see.
    pub notes: Vec<String>,
}

pub open spec fn smax(a: int, b: int) -> int {
    if a >= b {
        a
    } else {
        b
    }
}

pub open spec fn smin(a: int, b: int) -> int {
    if a <= b {
        a
    } else {
        b
    }
}

pub open spec fn sat_mul(a: u64, b: u64) -> u64 {
    if a * b > u64::MAX {
        u64::MAX
    } else {
        (a * b) as u64
    }
}

/// Bytes one phase-B worker needs at `--bulk-mb bulk_mb`.
pub open spec fn per_worker_bytes(bulk_mb: usize) -> u64 {
    sat_mul(sat_mul(smax(bulk_mb as int, 1) as u64, WORKER_BYTES_PER_BULK_MIB), MIB)
}

pub open spec fn spec_scan_threads(cores: usize, requested: Option<usize>) -> usize {
    smax(
        match requested {
            Some(w) => w as int,
            None => smax(cores as int, 1),
        },
        1,
    ) as usize
}

/// A count as a `usize`, saturating where `usize` is narrower than 64 bits.
pub open spec fn to_usize(x: int) -> usize {
    if x > usize::MAX {
        usize::MAX
    } else {
        x as usize
    }
}

pub open spec fn affordable_index(safe: u64, bulk_mb: usize) -> usize {
    to_usize(smax((safe / per_worker_bytes(bulk_mb)) as int, 1))
}

pub open spec fn affordable_pdf(safe: u64) -> usize {
    to_usize(smax((safe / PDF_WORKER_BYTES) as int, 1))
}

/// The PDF worker count asked for (or defaulted), before the safe zone.
pub open spec fn asked_pdf(cores: usize, requested: Option<usize>) -> usize {
    smax(
        match requested {
            Some(w) => w as int,
            None => smin(smax(cores as int, 1), MAX_PDF_WORKERS as int),
        },
        1,
    ) as usize
}

pub open spec fn index_note(safe: u64, affordable: usize, bulk_mb: usize, wanted: usize) -> Seq<char> {
    "memory safe zone "@ + dec((safe / MIB) as nat) + " MiB allows "@ + dec(affordable as nat)
        + " index workers at --bulk-mb "@ + dec(bulk_mb as nat) + ", not "@ + dec(wanted as nat)
}

pub open spec fn pdf_note(safe: u64, affordable: usize, wanted: usize) -> Seq<char> {
    "memory safe zone "@ + dec((safe / MIB) as nat) + " MiB allows "@ + dec(affordable as nat)
        + " PDF worker(s) at 1536 MiB each, not "@ + dec(wanted as nat)
}

/// The notes of a plan, as character sequences.
pub open spec fn note_views(notes: Seq<String>) -> Seq<Seq<char>> {
    notes.map_values(|s: String| s@)
}

/// The planning rule for a machine with `cores` cores and `safe_zone_bytes`
/// of memory safe zone.
pub open spec fn plan_holds(
    p: Plan,
    cores: usize,
    safe_zone_bytes: u64,
    requested_workers: Option<usize>,
    requested_pdf_workers: Option<usize>,
    bulk_mb: usize,
) -> bool {
    let scan = spec_scan_threads(cores, requested_workers);
    let aff = affordable_index(safe_zone_bytes, bulk_mb);
    let pdf_aff = affordable_pdf(safe_zone_bytes);
    let asked = asked_pdf(cores, requested_pdf_workers);
    &&& p.scan_threads == scan
    &&& p.index_workers == smin(scan as int, aff as int)
    &&& p.pdf_workers == smin(smin(asked as int, pdf_aff as int), MAX_PDF_WORKERS as int)
    &&& p.safe_zone_bytes == safe_zone_bytes
    &&& note_views(p.notes@) == (if scan > aff {
        seq![index_note(safe_zone_bytes, aff, bulk_mb, scan)]
    } else {
        Seq::empty()
    }) + (if asked > pdf_aff {
        seq![pdf_note(safe_zone_bytes, pdf_aff, asked)]
    } else {
        Seq::empty()
    })
}

fn sat_mul_exec(a: u64, b: u64) -> (r: u64)
    ensures
        r == sat_mul(a, b),
{
    match a.checked_mul(b) {
        Some(x) => x,
        None => u64::MAX,
    }
}

fn count_usize(x: u64) -> (r: usize)
    requires
        x >= 1,
    ensures
        r == to_usize(x as int),
        r >= 1,
{
    if x > usize::MAX as u64 {
        usize::MAX
    } else {
        x as usize
    }
}

fn index_affordable(safe: u64, bulk_mb: usize) -> (r: usize)
    ensures
        r == affordable_index(safe, bulk_mb),
        r >= 1,
{
    let bulk1: u64 = if bulk_mb >= 1 {
        bulk_mb as u64
    } else {
        1
    };
    let m = sat_mul_exec(bulk1, WORKER_BYTES_PER_BULK_MIB);
    proof {
        assert(bulk1 * WORKER_BYTES_PER_BULK_MIB >= 1) by (nonlinear_arith)
            requires
                bulk1 >= 1,
        ;
        assert(m >= 1);
        assert(m * MIB >= 1) by (nonlinear_arith)
            requires
                m >= 1,
        ;
    }
    let per_worker = sat_mul_exec(m, MIB);
    let q = safe / per_worker;
    count_usize(if q >= 1 {
        q
    } else {
        1
    })
}

fn pdf_affordable_exec(safe: u64) -> (r: usize)
    ensures
        r == affordable_pdf(safe),
        r >= 1,
{
    let q = safe / PDF_WORKER_BYTES;
    count_usize(if q >= 1 {
        q
    } else {
        1
    })
}

fn index_note_exec(safe: u64, affordable: usize, bulk_mb: usize, wanted: usize) -> (r: String)
    ensures
        r@ == index_note(safe, affordable, bulk_mb, wanted),
{
    let mut c: Vec<char> = Vec::new();
    push_str_chars(&mut c, "memory safe zone ");
    push_dec(&mut c, safe / MIB);
    push_str_chars(&mut c, " MiB allows ");
    push_dec(&mut c, affordable as u64);
    push_str_chars(&mut c, " index workers at --bulk-mb ");
    push_dec(&mut c, bulk_mb as u64);
    push_str_chars(&mut c, ", not ");
    push_dec(&mut c, wanted as u64);
    string_from_chars(c.as_slice())
}

fn pdf_note_exec(safe: u64, affordable: usize, wanted: usize) -> (r: String)
    ensures
        r@ == pdf_note(safe, affordable, wanted),
{
    let mut c: Vec<char> = Vec::new();
    push_str_chars(&mut c, "memory safe zone ");
    push_dec(&mut c, safe / MIB);
    push_str_chars(&mut c, " MiB allows ");
    push_dec(&mut c, affordable as u64);
    push_str_chars(&mut c, " PDF worker(s) at 1536 MiB each, not ");
    push_dec(&mut c, wanted as u64);
    string_from_chars(c.as_slice())
}

/// The pure planning rule: what a machine with `cores` cores and a memory
/// safe zone of `safe_zone_bytes` gives a run.
pub fn plan_for(
    cores: usize,
    safe_zone_bytes: u64,
    requested_workers: Option<usize>,
    requested_pdf_workers: Option<usize>,
    bulk_mb: usize,
) -> (p: Plan)
    ensures
        plan_holds(p, cores, safe_zone_bytes, requested_workers, requested_pdf_workers, bulk_mb),
        p.scan_threads >= 1,
        p.index_workers >= 1,
        1 <= p.pdf_workers <= MAX_PDF_WORKERS,
        requested_pdf_workers is None ==> p.pdf_workers <= cores || p.pdf_workers == 1,
{
    let ghost cores0 = cores;
    let cores = if cores >= 1 {
        cores
    } else {
        1
    };
    let mut notes: Vec<String> = Vec::new();
    let w = match requested_workers {
        Some(w) => w,
        None => cores,
    };
    let scan_threads = if w >= 1 {
        w
    } else {
        1
    };
    let affordable = index_affordable(safe_zone_bytes, bulk_mb);
    let mut index_workers = scan_threads;
    if index_workers > affordable {
        notes.push(index_note_exec(safe_zone_bytes, affordable, bulk_mb, index_workers));
        index_workers = affordable;
    }
    let ghost n1 = note_views(notes@);
    proof {
        assert(n1 =~= (if scan_threads > affordable {
            seq![index_note(safe_zone_bytes, affordable, bulk_mb, scan_threads)]
        } else {
            Seq::empty()
        }));
    }
    let pdf_affordable = pdf_affordable_exec(safe_zone_bytes);
    let pdf_default = if cores <= MAX_PDF_WORKERS {
        cores
    } else {
        MAX_PDF_WORKERS
    };
    let pw = match requested_pdf_workers {
        Some(w) => w,
        None => pdf_default,
    };
    let asked = if pw >= 1 {
        pw
    } else {
        1
    };
    let mut pdf_workers = asked;
    if pdf_workers > pdf_affordable {
        let s = pdf_note_exec(safe_zone_bytes, pdf_affordable, pdf_workers);
        let ghost before = notes@;
        notes.push(s);
        proof {
            assert(note_views(notes@) =~= note_views(before).push(s@));
        }
        pdf_workers = pdf_affordable;
    }
    proof {
        assert(note_views(notes@) =~= n1 + (if asked > pdf_affordable {
            seq![pdf_note(safe_zone_bytes, pdf_affordable, asked)]
        } else {
            Seq::empty()
        }));
    }
    let capped = if pdf_workers <= MAX_PDF_WORKERS {
        pdf_workers
    } else {
        MAX_PDF_WORKERS
    };
    let p = Plan {
        scan_threads,
        index_workers,
        pdf_workers: capped,
        safe_zone_bytes,
        notes,
    };
    proof {
        if requested_pdf_workers is None {
            lemma_default_pdf_workers(p, cores0, safe_zone_bytes, requested_workers, bulk_mb);
        }
    }
    p
}

/// What a plan gives, in numbers: the scan pool takes the requested count,
/// else every core (at least one); index workers are that many, capped by
/// what the safe zone pays for at the bulk size (at least one); PDF workers
/// are the requested count, else one per core up to 4, capped by what the
/// safe zone pays for at 1536 MiB each (at least one) and by 4; and a note
/// is left for each cap the safe zone forced.
pub proof fn lemma_plan_counts(
    p: Plan,
    cores: usize,
    safe_zone_bytes: u64,
    requested_workers: Option<usize>,
    requested_pdf_workers: Option<usize>,
    bulk_mb: usize,
)
    requires
        plan_holds(p, cores, safe_zone_bytes, requested_workers, requested_pdf_workers, bulk_mb),
    ensures
        ({
            let c: int = if cores >= 1 { cores as int } else { 1 };
            let want: int = match requested_workers {
                Some(w) => if w >= 1 { w as int } else { 1 },
                None => c,
            };
            let idx_paid: int = if safe_zone_bytes / per_worker_bytes(bulk_mb) >= 1 {
                (safe_zone_bytes / per_worker_bytes(bulk_mb)) as int
            } else {
                1
            };
            let ask: int = match requested_pdf_workers {
                Some(w) => if w >= 1 { w as int } else { 1 },
                None => if c <= 4 { c } else { 4 },
            };
            let pdf_paid: int = if safe_zone_bytes / 1610612736 >= 1 { (safe_zone_bytes / 1610612736) as int } else { 1 };
            &&& p.scan_threads == want
            &&& p.index_workers == if want <= idx_paid { want } else { idx_paid }
            &&& p.pdf_workers <= 4
            &&& p.pdf_workers <= ask
            &&& p.pdf_workers <= pdf_paid
            &&& (p.pdf_workers == ask || p.pdf_workers == pdf_paid || p.pdf_workers == 4)
            &&& p.notes@.len() == (if want > idx_paid { 1int } else { 0 }) + (if ask > pdf_paid { 1int } else { 0 })
        }),
{
    let scan = spec_scan_threads(cores, requested_workers);
    let aff = affordable_index(safe_zone_bytes, bulk_mb);
    let pdf_aff = affordable_pdf(safe_zone_bytes);
    let asked = asked_pdf(cores, requested_pdf_workers);
    assert(p.notes@.len() == note_views(p.notes@).len());
    let n1: Seq<Seq<char>> = if scan > aff {
        seq![index_note(safe_zone_bytes, aff, bulk_mb, scan)]
    } else {
        Seq::empty()
    };
    let n2: Seq<Seq<char>> = if asked > pdf_aff {
        seq![pdf_note(safe_zone_bytes, pdf_aff, asked)]
    } else {
        Seq::empty()
    };
    assert(note_views(p.notes@) == n1 + n2);
    assert((n1 + n2).len() == n1.len() + n2.len());
}

/// Without an explicit `--pdf-workers`, a run takes one PDF worker per core,
/// never more than 4 and never more than the safe zone pays for at 1536 MiB
/// each (at least one): so never more PDF workers than the machine has
/// cores, unless it reports none and gets the single worker.
pub proof fn lemma_default_pdf_workers(
    p: Plan,
    cores: usize,
    safe_zone_bytes: u64,
    requested_workers: Option<usize>,
    bulk_mb: usize,
)
    requires
        plan_holds(p, cores, safe_zone_bytes, requested_workers, None, bulk_mb),
    ensures
        ({
            let c: int = if cores >= 1 { cores as int } else { 1 };
            let per_core: int = if c <= 4 { c } else { 4 };
            let paid: int = if safe_zone_bytes / 1610612736 >= 1 { (safe_zone_bytes / 1610612736) as int } else { 1 };
            &&& p.pdf_workers <= c
            &&& p.pdf_workers as int == if per_core <= paid { per_core } else { paid }
        }),
        p.pdf_workers <= cores || p.pdf_workers == 1,
{
}

pub open spec fn describe_text(p: Plan, machine: Seq<char>) -> Seq<char> {
    "resources: "@ + dec(p.scan_threads as nat) + " scan threads, "@ + dec(p.index_workers as nat)
        + " index workers, "@ + dec(p.pdf_workers as nat) + " pdf workers, memory safe zone "@
        + dec((p.safe_zone_bytes / MIB) as nat) + " MiB ("@ + machine + ")"@
}

impl Plan {
    /// One line for the run header and the summary; `machine` describes the
    /// machine the figures were read from.
    pub fn describe(&self, machine: &str) -> (r: String)
        ensures
            r@ == describe_text(*self, machine@),
    {
        let mut c: Vec<char> = Vec::new();
        push_str_chars(&mut c, "resources: ");
        push_dec(&mut c, self.scan_threads as u64);
        push_str_chars(&mut c, " scan threads, ");
        push_dec(&mut c, self.index_workers as u64);
        push_str_chars(&mut c, " index workers, ");
        push_dec(&mut c, self.pdf_workers as u64);
        push_str_chars(&mut c, " pdf workers, memory safe zone ");
        push_dec(&mut c, self.safe_zone_bytes / MIB);
        push_str_chars(&mut c, " MiB (");
        push_str_chars(&mut c, machine);
        push_str_chars(&mut c, ")");
        string_from_chars(c.as_slice())
    }
}

} // verus!
