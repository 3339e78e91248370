//! Resuming a run from its plan: every walked file is matched to the plan
//! key it continues. A file keeps the key planned for its native path
//! identity (else for its path), else the key of its content; only when
//! neither is free is its legacy prefix key consulted, and a legacy key
//! that another current file owns, or that was already claimed, refuses
//! the resume. No key is given twice.

use crate::text::{chars_of, push_str_chars, str_eq, string_from_chars};
use vstd::prelude::*;

verus! {

/// A file the plan assigns to a key.
#[derive(Debug, Clone)]
pub struct PlanFile {
    pub key: String,
    pub rel: String,
    /// Native path identity, or empty when the plan predates it.
    pub path_id: String,
}

/// A walked file, as resuming reads it.
#[derive(Debug, Clone)]
pub struct FileRef {
    pub rel: String,
    pub rel_id: String,
}

pub struct PlanFileV {
    pub key: Seq<char>,
    pub rel: Seq<char>,
    pub path_id: Seq<char>,
}

pub open spec fn plan_view(v: Seq<PlanFile>) -> Seq<PlanFileV> {
    v.map_values(|p: PlanFile| PlanFileV { key: p.key@, rel: p.rel@, path_id: p.path_id@ })
}

pub open spec fn refs_view(v: Seq<FileRef>) -> Seq<(Seq<char>, Seq<char>)> {
    v.map_values(|f: FileRef| (f.rel@, f.rel_id@))
}

/// Why a resume was refused.
#[derive(Debug, Clone, PartialEq, Eq)]
pub enum ResumeError {
    /// The plan gives this path to two keys (the earlier, the later).
    DuplicatePath(String, String, String),
    /// The plan gives one native path identity to two keys.
    DuplicatePathId(String, String),
    /// This file's legacy key is already owned by the plan file at that path.
    LegacyCollision(String, String, String),
}

pub enum ResumeErrorV {
    DuplicatePath(Seq<char>, Seq<char>, Seq<char>),
    DuplicatePathId(Seq<char>, Seq<char>),
    LegacyCollision(Seq<char>, Seq<char>, Seq<char>),
}

impl View for ResumeError {
    type V = ResumeErrorV;

    open spec fn view(&self) -> ResumeErrorV {
        match *self {
            ResumeError::DuplicatePath(a, b, c) => ResumeErrorV::DuplicatePath(a@, b@, c@),
            ResumeError::DuplicatePathId(a, b) => ResumeErrorV::DuplicatePathId(a@, b@),
            ResumeError::LegacyCollision(a, b, c) => ResumeErrorV::LegacyCollision(a@, b@, c@),
        }
    }
}

/// The refusal as a sentence: what collided and how to recover.
pub open spec fn error_text(e: ResumeErrorV) -> Seq<char> {
    match e {
        ResumeErrorV::DuplicatePath(rel, a, b) => "resume plan assigns path "@ + rel + " to both "@ + a + " and "@ + b
            + "; use --fresh after verifying the existing index"@,
        ResumeErrorV::DuplicatePathId(a, b) => "resume plan assigns one native path identity to both "@ + a + " and "@
            + b + "; use --fresh after verifying the existing index"@,
        ResumeErrorV::LegacyCollision(rel, key, owner) => rel + " collides with legacy resume key "@ + key
            + " already owned by "@ + owner
            + ". No documents were changed; rerun with --fresh to build distinct full-content keys"@,
    }
}

impl ResumeError {
    /// The refusal as a sentence.
    pub fn message(&self) -> (r: String)
        ensures
            r@ == error_text(self@),
    {
        let mut out: Vec<char> = Vec::new();
        match self {
            ResumeError::DuplicatePath(rel, a, b) => {
                push_str_chars(&mut out, "resume plan assigns path ");
                push_str_chars(&mut out, rel.as_str());
                push_str_chars(&mut out, " to both ");
                push_str_chars(&mut out, a.as_str());
                push_str_chars(&mut out, " and ");
                push_str_chars(&mut out, b.as_str());
                push_str_chars(&mut out, "; use --fresh after verifying the existing index");
            },
            ResumeError::DuplicatePathId(a, b) => {
                push_str_chars(&mut out, "resume plan assigns one native path identity to both ");
                push_str_chars(&mut out, a.as_str());
                push_str_chars(&mut out, " and ");
                push_str_chars(&mut out, b.as_str());
                push_str_chars(&mut out, "; use --fresh after verifying the existing index");
            },
            ResumeError::LegacyCollision(rel, key, owner) => {
                push_str_chars(&mut out, rel.as_str());
                push_str_chars(&mut out, " collides with legacy resume key ");
                push_str_chars(&mut out, key.as_str());
                push_str_chars(&mut out, " already owned by ");
                push_str_chars(&mut out, owner.as_str());
                push_str_chars(&mut out, ". No documents were changed; rerun with --fresh to build distinct full-content keys");
            },
        }
        proof {
            assert(out@ =~= error_text(self@));
        }
        string_from_chars(out.as_slice())
    }
}

/// First plan entry below `n` with this path.
pub open spec fn rel_at(plan: Seq<PlanFileV>, rel: Seq<char>, n: int) -> Option<int>
    decreases n,
{
    if n <= 0 {
        None
    } else {
        match rel_at(plan, rel, n - 1) {
            Some(j) => Some(j),
            None => if plan[n - 1].rel == rel {
                Some(n - 1)
            } else {
                None
            },
        }
    }
}

/// First plan entry below `n` with this (non-empty) path identity.
pub open spec fn id_at(plan: Seq<PlanFileV>, id: Seq<char>, n: int) -> Option<int>
    decreases n,
{
    if n <= 0 {
        None
    } else {
        match id_at(plan, id, n - 1) {
            Some(j) => Some(j),
            None => if plan[n - 1].path_id.len() > 0 && plan[n - 1].path_id == id {
                Some(n - 1)
            } else {
                None
            },
        }
    }
}

/// First plan entry below `n` with this key.
pub open spec fn key_at(plan: Seq<PlanFileV>, key: Seq<char>, n: int) -> Option<int>
    decreases n,
{
    if n <= 0 {
        None
    } else {
        match key_at(plan, key, n - 1) {
            Some(j) => Some(j),
            None => if plan[n - 1].key == key {
                Some(n - 1)
            } else {
                None
            },
        }
    }
}

/// The plan's entries below `n`, checked in order: no path, and no
/// non-empty path identity, belongs to two of them.
pub open spec fn plan_check(plan: Seq<PlanFileV>, n: int) -> Result<(), ResumeErrorV>
    decreases n,
{
    if n <= 0 {
        Ok(())
    } else {
        match plan_check(plan, n - 1) {
            Err(e) => Err(e),
            Ok(_) => {
                let e = plan[n - 1];
                match rel_at(plan, e.rel, n - 1) {
                    Some(j) => Err(ResumeErrorV::DuplicatePath(e.rel, plan[j].key, e.key)),
                    None => if e.path_id.len() > 0 {
                        match id_at(plan, e.path_id, n - 1) {
                            Some(j) => Err(ResumeErrorV::DuplicatePathId(plan[j].key, e.key)),
                            None => Ok(()),
                        }
                    } else {
                        Ok(())
                    },
                }
            },
        }
    }
}

/// The first refusal stands: checking more entries does not change it.
pub proof fn lemma_check_sticks(plan: Seq<PlanFileV>, k: int, m: int)
    requires
        0 <= k <= m,
        plan_check(plan, k) is Err,
    ensures
        plan_check(plan, m) == plan_check(plan, k),
    decreases m - k,
{
    if m > k {
        lemma_check_sticks(plan, k, m - 1);
    }
}

/// The key a file keeps without its legacy key: the key planned for its
/// path identity (else for its path) unless claimed, else its content key
/// when planned and not claimed.
pub open spec fn exact_choice(plan: Seq<PlanFileV>, rel: Seq<char>, rel_id: Seq<char>, content: Seq<char>, claimed: Seq<Seq<char>>) -> Option<Seq<char>> {
    let by_path = match id_at(plan, rel_id, plan.len() as int) {
        Some(j) => Some(plan[j].key),
        None => match rel_at(plan, rel, plan.len() as int) {
            Some(j) => Some(plan[j].key),
            None => None,
        },
    };
    match by_path {
        Some(k) if !claimed.contains(k) => Some(k),
        _ => if key_at(plan, content, plan.len() as int) is Some && !claimed.contains(content) {
            Some(content)
        } else {
            None
        },
    }
}

/// With the legacy key: the plan's file under that key, if any, must have
/// no exact owner among the current files and the key must be unclaimed.
pub open spec fn legacy_choice(
    plan: Seq<PlanFileV>,
    current: Seq<(Seq<char>, Seq<char>)>,
    rel: Seq<char>,
    legacy: Seq<char>,
    claimed: Seq<Seq<char>>,
) -> Result<Option<Seq<char>>, ResumeErrorV> {
    match key_at(plan, legacy, plan.len() as int) {
        None => Ok(None),
        Some(j) => {
            let a = plan[j];
            let owned = (exists|i: int| 0 <= i < current.len() && (#[trigger] current[i]).0 == a.rel) || (a.path_id.len()
                > 0 && exists|i: int| 0 <= i < current.len() && (#[trigger] current[i]).1 == a.path_id);
            if claimed.contains(legacy) || owned {
                Err(ResumeErrorV::LegacyCollision(rel, legacy, a.rel))
            } else {
                Ok(Some(legacy))
            }
        },
    }
}

/// No key is given twice: whatever a file is given, exactly or through its
/// legacy key, was not claimed before, so the claimed keys stay distinct.
pub proof fn lemma_keys_never_given_twice(
    plan: Seq<PlanFileV>,
    current: Seq<(Seq<char>, Seq<char>)>,
    rel: Seq<char>,
    rel_id: Seq<char>,
    content: Seq<char>,
    legacy: Seq<char>,
    claimed: Seq<Seq<char>>,
)
    requires
        claimed.no_duplicates(),
    ensures
        exact_choice(plan, rel, rel_id, content, claimed) matches Some(k) ==> claimed.push(k).no_duplicates(),
        legacy_choice(plan, current, rel, legacy, claimed) matches Ok(Some(k)) ==> claimed.push(k).no_duplicates(),
{
    match exact_choice(plan, rel, rel_id, content, claimed) {
        Some(k) => lemma_push_fresh(claimed, k),
        None => {},
    }
    match legacy_choice(plan, current, rel, legacy, claimed) {
        Ok(Some(k)) => lemma_push_fresh(claimed, k),
        _ => {},
    }
}

proof fn lemma_push_fresh(claimed: Seq<Seq<char>>, k: Seq<char>)
    requires
        claimed.no_duplicates(),
        !claimed.contains(k),
    ensures
        claimed.push(k).no_duplicates(),
{
    assert forall|a: int, b: int| 0 <= a < b < claimed.push(k).len() implies claimed.push(k)[a] != claimed.push(k)[b] by {
        if b == claimed.len() {
            assert(claimed.push(k)[a] == claimed[a]);
        }
    }
}

/// What resuming decides for one file.
#[derive(Debug, Clone, PartialEq, Eq)]
pub enum Choice {
    /// Compute the file's legacy key and ask again with it.
    NeedLegacy,
    /// The file's key (claimed), or none.
    Key(Option<String>),
}

/// The matching state of one resume.
pub struct Resume {
    plan: Vec<PlanFile>,
    current: Vec<FileRef>,
    claimed: Vec<String>,
}

pub open spec fn strs(v: Seq<String>) -> Seq<Seq<char>> {
    v.map_values(|s: String| s@)
}

fn find_rel(plan: &Vec<PlanFile>, rel: &str, n: usize) -> (r: Option<usize>)
    requires
        n <= plan@.len(),
    ensures
        match r {
            Some(j) => rel_at(plan_view(plan@), rel@, n as int) == Some(j as int),
            None => rel_at(plan_view(plan@), rel@, n as int) is None,
        },
        r matches Some(j) ==> j < n,
{
    let mut i: usize = 0;
    while i < n
        invariant
            i <= n <= plan@.len(),
            rel_at(plan_view(plan@), rel@, i as int) is None,
        decreases n - i,
    {
        if str_eq(plan[i].rel.as_str(), rel) {
            proof {
                assert(plan_view(plan@)[i as int].rel == plan@[i as int].rel@);
            }
            proof {
                lemma_rel_at_from(plan_view(plan@), rel@, i as int, n as int);
            }
            return Some(i);
        }
        proof {
            assert(plan_view(plan@)[i as int].rel == plan@[i as int].rel@);
        }
        i += 1;
    }
    None
}

proof fn lemma_rel_at_from(plan: Seq<PlanFileV>, rel: Seq<char>, i: int, n: int)
    requires
        0 <= i < n <= plan.len(),
        rel_at(plan, rel, i) is None,
        plan[i].rel == rel,
    ensures
        rel_at(plan, rel, n) == Some(i),
    decreases n,
{
    if n > i + 1 {
        lemma_rel_at_from(plan, rel, i, n - 1);
    }
}

fn find_id(plan: &Vec<PlanFile>, id: &str, n: usize) -> (r: Option<usize>)
    requires
        n <= plan@.len(),
    ensures
        match r {
            Some(j) => id_at(plan_view(plan@), id@, n as int) == Some(j as int),
            None => id_at(plan_view(plan@), id@, n as int) is None,
        },
        r matches Some(j) ==> j < n,
{
    let mut i: usize = 0;
    while i < n
        invariant
            i <= n <= plan@.len(),
            id_at(plan_view(plan@), id@, i as int) is None,
        decreases n - i,
    {
        proof {
            assert(plan_view(plan@)[i as int].path_id == plan@[i as int].path_id@);
        }
        if nonempty(&plan[i].path_id) && str_eq(plan[i].path_id.as_str(), id) {
            proof {
                lemma_id_at_from(plan_view(plan@), id@, i as int, n as int);
            }
            return Some(i);
        }
        i += 1;
    }
    None
}

proof fn lemma_id_at_from(plan: Seq<PlanFileV>, id: Seq<char>, i: int, n: int)
    requires
        0 <= i < n <= plan.len(),
        id_at(plan, id, i) is None,
        plan[i].path_id.len() > 0,
        plan[i].path_id == id,
    ensures
        id_at(plan, id, n) == Some(i),
    decreases n,
{
    if n > i + 1 {
        lemma_id_at_from(plan, id, i, n - 1);
    }
}

fn find_key(plan: &Vec<PlanFile>, key: &str) -> (r: Option<usize>)
    ensures
        match r {
            Some(j) => key_at(plan_view(plan@), key@, plan@.len() as int) == Some(j as int) && j < plan@.len(),
            None => key_at(plan_view(plan@), key@, plan@.len() as int) is None,
        },
{
    let n = plan.len();
    let mut i: usize = 0;
    while i < n
        invariant
            i <= n == plan@.len(),
            key_at(plan_view(plan@), key@, i as int) is None,
        decreases n - i,
    {
        proof {
            assert(plan_view(plan@)[i as int].key == plan@[i as int].key@);
        }
        if str_eq(plan[i].key.as_str(), key) {
            proof {
                lemma_key_at_from(plan_view(plan@), key@, i as int, n as int);
            }
            return Some(i);
        }
        i += 1;
    }
    None
}

proof fn lemma_key_at_from(plan: Seq<PlanFileV>, key: Seq<char>, i: int, n: int)
    requires
        0 <= i < n <= plan.len(),
        key_at(plan, key, i) is None,
        plan[i].key == key,
    ensures
        key_at(plan, key, n) == Some(i),
    decreases n,
{
    if n > i + 1 {
        lemma_key_at_from(plan, key, i, n - 1);
    }
}

fn holds(v: &Vec<String>, s: &str) -> (r: bool)
    ensures
        r == strs(v@).contains(s@),
{
    let mut i: usize = 0;
    while i < v.len()
        invariant
            i <= v@.len(),
            forall|j: int| 0 <= j < i ==> strs(v@)[j] != s@,
        decreases v@.len() - i,
    {
        if str_eq(v[i].as_str(), s) {
            proof {
                assert(strs(v@)[i as int] == s@);
            }
            return true;
        }
        i += 1;
    }
    false
}

fn nonempty(s: &String) -> (r: bool)
    ensures
        r == (s@.len() > 0),
{
    chars_of(s.as_str()).len() > 0
}

fn copy_string(s: &String) -> (r: String)
    ensures
        r@ == s@,
{
    string_from_chars(chars_of(s.as_str()).as_slice())
}

impl Resume {
    pub closed spec fn plan(&self) -> Seq<PlanFileV> {
        plan_view(self.plan@)
    }

    pub closed spec fn current(&self) -> Seq<(Seq<char>, Seq<char>)> {
        refs_view(self.current@)
    }

    /// The keys claimed so far, in order.
    pub closed spec fn claimed(&self) -> Seq<Seq<char>> {
        strs(self.claimed@)
    }

    /// Check the plan (in its key order) and start matching the current
    /// files against it.
    pub fn new(plan: Vec<PlanFile>, current: Vec<FileRef>) -> (r: Result<Resume, ResumeError>)
        ensures
            match plan_check(plan_view(plan@), plan@.len() as int) {
                Ok(_) => r matches Ok(s) && s.plan() == plan_view(plan@) && s.current() == refs_view(current@)
                    && s.claimed() == Seq::<Seq<char>>::empty(),
                Err(e) => r matches Err(x) && x@ == e,
            },
    {
        let ghost pv = plan_view(plan@);
        let mut n: usize = 0;
        while n < plan.len()
            invariant
                n <= plan@.len(),
                pv == plan_view(plan@),
                plan_check(pv, n as int) == Ok::<(), ResumeErrorV>(()),
            decreases plan@.len() - n,
        {
            proof {
                assert(pv[n as int] == PlanFileV { key: plan@[n as int].key@, rel: plan@[n as int].rel@, path_id: plan@[n as int].path_id@ });
            }
            match find_rel(&plan, plan[n].rel.as_str(), n) {
                Some(j) => {
                    proof {
                        assert(pv[j as int].key == plan@[j as int].key@);
                        lemma_check_sticks(pv, n + 1, plan@.len() as int);
                    }
                    return Err(
                        ResumeError::DuplicatePath(
                            copy_string(&plan[n].rel),
                            copy_string(&plan[j].key),
                            copy_string(&plan[n].key),
                        ),
                    );
                },
                None => {},
            }
            if nonempty(&plan[n].path_id) {
                match find_id(&plan, plan[n].path_id.as_str(), n) {
                    Some(j) => {
                        proof {
                            assert(pv[j as int].key == plan@[j as int].key@);
                            lemma_check_sticks(pv, n + 1, plan@.len() as int);
                        }
                        return Err(ResumeError::DuplicatePathId(copy_string(&plan[j].key), copy_string(&plan[n].key)));
                    },
                    None => {},
                }
            }
            n += 1;
        }
        let r = Resume { plan, current, claimed: Vec::new() };
        proof {
            assert(strs(r.claimed@) =~= Seq::<Seq<char>>::empty());
        }
        Ok(r)
    }

    /// Decide one file: its exact key, or — given its legacy key — the
    /// legacy verdict; a key decided is claimed.
    pub fn decide(&mut self, file: &FileRef, content_key: &str, legacy: Option<String>) -> (r: Result<Choice, ResumeError>)
        ensures
            final(self).plan() == old(self).plan(),
            final(self).current() == old(self).current(),
            match exact_choice(old(self).plan(), file.rel@, file.rel_id@, content_key@, old(self).claimed()) {
                Some(k) => r matches Ok(Choice::Key(Some(x))) && x@ == k && final(self).claimed() == old(self).claimed().push(k),
                None => match legacy {
                    None => r == Ok::<Choice, ResumeError>(Choice::NeedLegacy) && final(self).claimed() == old(self).claimed(),
                    Some(l) => match legacy_choice(old(self).plan(), old(self).current(), file.rel@, l@, old(self).claimed()) {
                        Ok(Some(k)) => r matches Ok(Choice::Key(Some(x))) && x@ == k && final(self).claimed() == old(self).claimed().push(k),
                        Ok(None) => r == Ok::<Choice, ResumeError>(Choice::Key(None)) && final(self).claimed() == old(self).claimed(),
                        Err(e) => r matches Err(x) && x@ == e && final(self).claimed() == old(self).claimed(),
                    },
                },
            },
    {
        let ghost pv = plan_view(self.plan@);
        let n = self.plan.len();
        let by_path = match find_id(&self.plan, file.rel_id.as_str(), n) {
            Some(j) => Some(j),
            None => find_rel(&self.plan, file.rel.as_str(), n),
        };
        match by_path {
            Some(j) => {
                proof {
                    assert(pv[j as int].key == self.plan@[j as int].key@);
                }
                if !holds(&self.claimed, self.plan[j].key.as_str()) {
                    let k = copy_string(&self.plan[j].key);
                    let ghost before = strs(self.claimed@);
                    let ghost kv = k@;
                    self.claimed.push(copy_string(&k));
                    proof {
                        assert(strs(self.claimed@) =~= before.push(kv));
                    }
                    return Ok(Choice::Key(Some(k)));
                }
            },
            None => {},
        }
        if find_key(&self.plan, content_key).is_some() && !holds(&self.claimed, content_key) {
            let k = string_from_chars(chars_of(content_key).as_slice());
            let ghost before = strs(self.claimed@);
            let ghost kv = k@;
            self.claimed.push(copy_string(&k));
            proof {
                assert(strs(self.claimed@) =~= before.push(kv));
            }
            return Ok(Choice::Key(Some(k)));
        }
        let l = match legacy {
            None => {
                return Ok(Choice::NeedLegacy);
            },
            Some(l) => l,
        };
        let j = match find_key(&self.plan, l.as_str()) {
            None => {
                return Ok(Choice::Key(None));
            },
            Some(j) => j,
        };
        proof {
            assert(pv[j as int] == PlanFileV { key: self.plan@[j as int].key@, rel: self.plan@[j as int].rel@, path_id: self.plan@[j as int].path_id@ });
        }
        let ghost cv = refs_view(self.current@);
        let mut owned = false;
        let mut i: usize = 0;
        while i < self.current.len()
            invariant
                i <= self.current@.len(),
                cv == refs_view(self.current@),
                j < self.plan@.len(),
                owned == ((exists|q: int| 0 <= q < i && (#[trigger] cv[q]).0 == self.plan@[j as int].rel@) || (self.plan@[j as int].path_id@.len() > 0
                    && exists|q: int| 0 <= q < i && (#[trigger] cv[q]).1 == self.plan@[j as int].path_id@)),
            decreases self.current@.len() - i,
        {
            proof {
                assert(cv[i as int] == (self.current@[i as int].rel@, self.current@[i as int].rel_id@));
            }
            if str_eq(self.current[i].rel.as_str(), self.plan[j].rel.as_str()) {
                owned = true;
            }
            if nonempty(&self.plan[j].path_id) && str_eq(self.current[i].rel_id.as_str(), self.plan[j].path_id.as_str()) {
                owned = true;
            }
            i += 1;
        }
        if holds(&self.claimed, l.as_str()) || owned {
            return Err(ResumeError::LegacyCollision(copy_string(&file.rel), copy_string(&l), copy_string(&self.plan[j].rel)));
        }
        let ghost before = strs(self.claimed@);
        let ghost lv = l@;
        self.claimed.push(copy_string(&l));
        proof {
            assert(strs(self.claimed@) =~= before.push(lv));
        }
        Ok(Choice::Key(Some(l)))
    }
}

/// What a resumed file's planned assignment learns from the file now: its
/// content changed when it moved or its recorded digest differs; the plan
/// changed when the content did, or its path identity or digest record is
/// not the current one. (The assignment then takes the current path,
/// identity and digest.)
pub open spec fn reconciled(
    planned_rel: Seq<char>,
    planned_path_id: Seq<char>,
    planned_digest: Option<Seq<char>>,
    rel: Seq<char>,
    rel_id: Seq<char>,
    digest: Seq<char>,
) -> (bool, bool) {
    let content = planned_rel != rel || (planned_digest matches Some(d) && d != digest);
    (content, content || planned_path_id != rel_id || planned_digest != Some(digest))
}

/// (content changed, plan changed) for one resumed file.
pub fn reconcile_assignment(
    planned_rel: &str,
    planned_path_id: &str,
    planned_digest: Option<&str>,
    rel: &str,
    rel_id: &str,
    digest: &str,
) -> (r: (bool, bool))
    ensures
        r == reconciled(planned_rel@, planned_path_id@, match planned_digest {
            Some(d) => Some(d@),
            None => None,
        }, rel@, rel_id@, digest@),
{
    let digest_differs = match planned_digest {
        Some(d) => !str_eq(d, digest),
        None => false,
    };
    let content = !str_eq(planned_rel, rel) || digest_differs;
    let digest_recorded = match planned_digest {
        Some(d) => str_eq(d, digest),
        None => false,
    };
    (content, content || !str_eq(planned_path_id, rel_id) || !digest_recorded)
}

} // verus!
