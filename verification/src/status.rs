//! The status report of past runs: what a run journal says of its run.

use crate::text::{chars_of, dec, push_dec, push_str_chars, str_eq, string_from_chars};
use serde_json::Value;
use vstd::prelude::*;

verus! {

/// What one journal records of its run.
#[derive(Debug, Clone, PartialEq, Eq)]
pub struct JournalSummary {
    /// The root of the run (from its last `run` entry; empty when none).
    pub root: String,
    /// Files completed.
    pub done: u64,
    /// Records written by the completed files.
    pub records: u64,
    /// The run reached its `finish` entry.
    pub finished: bool,
}

impl JournalSummary {
    pub fn new() -> (r: JournalSummary)
        ensures
            r.root@ == Seq::<char>::empty(),
            r.done == 0,
            r.records == 0,
            !r.finished,
    {
        JournalSummary { root: String::new(), done: 0, records: 0, finished: false }
    }

    /// Take one journal entry, given as its `kind`, its `root` and its
    /// `records` (each `None` when absent or not of that type). A `run`
    /// entry sets the root, a `file_done` entry counts a file and its
    /// records (none when absent), a `finish` entry marks the run finished;
    /// anything else changes nothing.
    pub fn take(&mut self, kind: Option<&str>, root: Option<&str>, records: Option<u64>)
        requires
            kind matches Some(k) && k@ == "file_done"@ ==> old(self).done < u64::MAX && old(self).records + match records {
                Some(n) => n,
                None => 0,
            } <= u64::MAX,
        ensures
            match kind {
                Some(k) => if k@ == "run"@ {
                    &&& final(self).root@ == match root {
                        Some(r) => r@,
                        None => Seq::<char>::empty(),
                    }
                    &&& final(self).done == old(self).done
                    &&& final(self).records == old(self).records
                    &&& final(self).finished == old(self).finished
                } else if k@ == "file_done"@ {
                    &&& final(self).root@ == old(self).root@
                    &&& final(self).done == old(self).done + 1
                    &&& final(self).records == old(self).records + match records {
                        Some(n) => n,
                        None => 0,
                    }
                    &&& final(self).finished == old(self).finished
                } else if k@ == "finish"@ {
                    &&& final(self).root@ == old(self).root@
                    &&& final(self).done == old(self).done
                    &&& final(self).records == old(self).records
                    &&& final(self).finished
                } else {
                    final(self).root@ == old(self).root@ && final(self).done == old(self).done && final(self).records
                        == old(self).records && final(self).finished == old(self).finished
                },
                None => final(self).root@ == old(self).root@ && final(self).done == old(self).done
                    && final(self).records == old(self).records && final(self).finished == old(self).finished,
            },
    {
        let k = match kind {
            Some(k) => k,
            None => {
                return;
            },
        };
        if str_eq(k, "run") {
            self.root = match root {
                Some(r) => string_from_chars(chars_of(r).as_slice()),
                None => String::new(),
            };
        } else if str_eq(k, "file_done") {
            self.done = self.done + 1;
            self.records = self.records + match records {
                Some(n) => n,
                None => 0,
            };
        } else if str_eq(k, "finish") {
            self.finished = true;
        }
    }

    /// The report line of the journal at `journal`.
    pub fn line(&self, journal: &str) -> (r: String)
        ensures
            r@ == "journal "@ + journal@ + " — root "@ + self.root@ + " — "@ + dec(self.done as nat) + " files done, "@
                + dec(self.records as nat) + " records, "@ + if self.finished {
                "FINISHED"@
            } else {
                "in progress"@
            },
    {
        let mut out: Vec<char> = Vec::new();
        push_str_chars(&mut out, "journal ");
        push_str_chars(&mut out, journal);
        push_str_chars(&mut out, " — root ");
        push_str_chars(&mut out, self.root.as_str());
        push_str_chars(&mut out, " — ");
        push_dec(&mut out, self.done);
        push_str_chars(&mut out, " files done, ");
        push_dec(&mut out, self.records);
        push_str_chars(&mut out, " records, ");
        push_str_chars(&mut out, if self.finished { "FINISHED" } else { "in progress" });
        proof {
            assert(out@ =~= "journal "@ + journal@ + " — root "@ + self.root@ + " — "@ + dec(self.done as nat)
                + " files done, "@ + dec(self.records as nat) + " records, "@ + if self.finished {
                "FINISHED"@
            } else {
                "in progress"@
            });
        }
        string_from_chars(out.as_slice())
    }
}

/// A journal entry as the report reads it: its `kind` and its `root` when
/// they are strings, its `records` when it is an unsigned integer.
pub type JournalEntryV = (Option<Seq<char>>, Option<Seq<char>>, Option<u64>);

/// What `serde_json::from_str::<serde_json::Value>` makes of a journal
/// line, reduced as `read_journal_entry` reduces it; `None` when the line is
/// not JSON.
pub uninterp spec fn journal_entry(line: Seq<char>) -> Option<JournalEntryV>;

pub open spec fn opt_chars(o: Option<String>) -> Option<Seq<char>> {
    match o {
        Some(s) => Some(s@),
        None => None,
    }
}

pub open spec fn entry_view(r: Option<(Option<String>, Option<String>, Option<u64>)>) -> Option<JournalEntryV> {
    match r {
        Some((k, root, n)) => Some((opt_chars(k), opt_chars(root), n)),
        None => None,
    }
}

/// `serde_json::from_str::<serde_json::Value>` on a journal line, reduced to
/// its `kind` and `root` when they are strings and its `records` when it is
/// an unsigned integer; `None` when the line is not JSON. Named, not stated.
#[verifier::external_body]
fn read_journal_entry(line: &str) -> (r: Option<(Option<String>, Option<String>, Option<u64>)>)
    ensures
        entry_view(r) == journal_entry(line@),
{
    let v: Value = serde_json::from_str(line).ok()?;
    let text = |key: &str| v.get(key).and_then(Value::as_str).map(String::from);
    Some((text("kind"), text("root"), v.get("records").and_then(Value::as_u64)))
}

/// A summary as numbers.
pub struct Tally {
    pub root: Seq<char>,
    pub done: nat,
    pub records: nat,
    pub finished: bool,
}

pub open spec fn tally_of(s: JournalSummary) -> Tally {
    Tally { root: s.root@, done: s.done as nat, records: s.records as nat, finished: s.finished }
}

pub open spec fn record_count(n: Option<u64>) -> nat {
    match n {
        Some(n) => n as nat,
        None => 0,
    }
}

pub open spec fn entry_is(e: JournalEntryV, kind: Seq<char>) -> bool {
    e.0 matches Some(k) && k == kind
}

/// One entry taken: a `run` sets the root (empty when it has none), a
/// `file_done` counts a file and its records, a `finish` marks the run
/// finished; any other entry changes nothing.
pub open spec fn tally_take(t: Tally, e: JournalEntryV) -> Tally {
    if entry_is(e, "run"@) {
        Tally {
            root: match e.1 {
                Some(r) => r,
                None => Seq::empty(),
            },
            done: t.done,
            records: t.records,
            finished: t.finished,
        }
    } else if entry_is(e, "file_done"@) {
        Tally { root: t.root, done: t.done + 1, records: t.records + record_count(e.2), finished: t.finished }
    } else if entry_is(e, "finish"@) {
        Tally { root: t.root, done: t.done, records: t.records, finished: true }
    } else {
        t
    }
}

/// Counting the entry would overflow a 64-bit count.
pub open spec fn tally_overflows(t: Tally, e: JournalEntryV) -> bool {
    entry_is(e, "file_done"@) && (t.done + 1 > u64::MAX || t.records + record_count(e.2) > u64::MAX)
}

/// The entries from `i` on taken into `t`: lines that are not JSON are
/// skipped, and counting stops at the first entry that would overflow.
pub open spec fn tally_from(es: Seq<Option<JournalEntryV>>, i: int, t: Tally) -> Tally
    decreases es.len() - i,
{
    if i < 0 || i >= es.len() {
        t
    } else {
        match es[i] {
            None => tally_from(es, i + 1, t),
            Some(e) => if tally_overflows(t, e) {
                t
            } else {
                tally_from(es, i + 1, tally_take(t, e))
            },
        }
    }
}

pub open spec fn journal_entries(lines: Seq<String>) -> Seq<Option<JournalEntryV>> {
    lines.map_values(|l: String| journal_entry(l@))
}

pub open spec fn empty_tally() -> Tally {
    Tally { root: Seq::empty(), done: 0, records: 0, finished: false }
}

/// The summary of a journal given as its lines.
pub fn summarize_lines(lines: &Vec<String>) -> (r: JournalSummary)
    ensures
        tally_of(r) == tally_from(journal_entries(lines@), 0, empty_tally()),
{
    let ghost es = journal_entries(lines@);
    let mut s = JournalSummary::new();
    let mut i: usize = 0;
    while i < lines.len()
        invariant
            i <= lines@.len(),
            es == journal_entries(lines@),
            tally_from(es, 0, empty_tally()) == tally_from(es, i as int, tally_of(s)),
        decreases lines@.len() - i,
    {
        let e = read_journal_entry(lines[i].as_str());
        proof {
            assert(es[i as int] == journal_entry(lines@[i as int]@));
        }
        match e {
            None => {},
            Some((kind, root, records)) => {
                let k: Option<&str> = match &kind {
                    Some(k) => Some(k.as_str()),
                    None => None,
                };
                let is_done = match k {
                    Some(k) => str_eq(k, "file_done"),
                    None => false,
                };
                let add: u64 = match records {
                    Some(n) => n,
                    None => 0,
                };
                if is_done && (s.done == u64::MAX || s.records > u64::MAX - add) {
                    return s;
                }
                let r: Option<&str> = match &root {
                    Some(r) => Some(r.as_str()),
                    None => None,
                };
                proof {
                    reveal_strlit("run");
                    reveal_strlit("file_done");
                    reveal_strlit("finish");
                }
                s.take(k, r, records);
            },
        }
        i += 1;
    }
    s
}

} // verus!
