//! The bulk protocol of the search server client: the operations a bulk
//! request carries, the validation of a generated request, the item-by-item
//! accounting of the response, the retry policy, the repeated
//! delete-by-query, and the `_cat/indices` listing.

use crate::bytes::{lemma_next_byte, next_byte, find_byte, slice_vec, vviews};
use crate::classify::{fields_view, lines_exec, text_lines};
use crate::text::{chars_of, dec, is_whitespace, is_ws, push_chars, push_dec, push_str_chars, string_from_chars};
use serde_json::Value;
use vstd::prelude::*;

verus! {

/// A bulk operation.
#[derive(Clone, Copy, Debug, PartialEq, Eq)]
pub enum BulkOperation {
    Index,
    Create,
    Update,
    Delete,
}

pub open spec fn op_name(op: BulkOperation) -> Seq<char> {
    match op {
        BulkOperation::Index => "index"@,
        BulkOperation::Create => "create"@,
        BulkOperation::Update => "update"@,
        BulkOperation::Delete => "delete"@,
    }
}

pub open spec fn op_of(name: Seq<char>) -> Option<BulkOperation> {
    if name == "index"@ {
        Some(BulkOperation::Index)
    } else if name == "create"@ {
        Some(BulkOperation::Create)
    } else if name == "update"@ {
        Some(BulkOperation::Update)
    } else if name == "delete"@ {
        Some(BulkOperation::Delete)
    } else {
        None
    }
}

/// Every operation but a delete is followed by its source line.
pub open spec fn spec_has_source_line(op: BulkOperation) -> bool {
    op != BulkOperation::Delete
}

/// A 2xx status, or a 404 for a delete (the document was already gone).
pub open spec fn spec_accepts_status(op: BulkOperation, status: u64) -> bool {
    (200 <= status < 300) || (op == BulkOperation::Delete && status == 404)
}

impl BulkOperation {
    pub fn parse(value: &str) -> (r: Option<BulkOperation>)
        ensures
            r == op_of(value@),
    {
        let v = chars_of(value);
        if crate::text::chars_eq(v.as_slice(), chars_of("index").as_slice()) {
            Some(BulkOperation::Index)
        } else if crate::text::chars_eq(v.as_slice(), chars_of("create").as_slice()) {
            Some(BulkOperation::Create)
        } else if crate::text::chars_eq(v.as_slice(), chars_of("update").as_slice()) {
            Some(BulkOperation::Update)
        } else if crate::text::chars_eq(v.as_slice(), chars_of("delete").as_slice()) {
            Some(BulkOperation::Delete)
        } else {
            None
        }
    }

    pub fn name(self) -> (r: &'static str)
        ensures
            r@ == op_name(self),
    {
        match self {
            BulkOperation::Index => "index",
            BulkOperation::Create => "create",
            BulkOperation::Update => "update",
            BulkOperation::Delete => "delete",
        }
    }

    pub fn has_source_line(self) -> (r: bool)
        ensures
            r == spec_has_source_line(self),
    {
        match self {
            BulkOperation::Delete => false,
            _ => true,
        }
    }

    pub fn accepts_status(self, status: u64) -> (r: bool)
        ensures
            r == spec_accepts_status(self, status),
    {
        let is_delete = match self {
            BulkOperation::Delete => true,
            _ => false,
        };
        (200 <= status && status < 300) || (is_delete && status == 404)
    }
}

/// Naming an operation and parsing the name gives the operation back.
pub proof fn lemma_operation_round_trip(op: BulkOperation)
    ensures
        op_of(op_name(op)) == Some(op),
{
    reveal_strlit("index");
    reveal_strlit("create");
    reveal_strlit("update");
    reveal_strlit("delete");
    assert("create"@.len() != "index"@.len());
    assert("update"@.len() != "index"@.len());
    assert("delete"@.len() != "index"@.len());
    assert("update"@[0] != "create"@[0]);
    assert("delete"@[0] != "create"@[0]);
    assert("delete"@[0] != "update"@[0]);
}

// ---- the generated request ----

/// The non-empty lines of an NDJSON body, from byte `k`.
pub open spec fn ndjson_lines(b: Seq<u8>, k: int) -> Seq<Seq<u8>>
    decreases b.len() - k,
{
    if k < 0 || k >= b.len() {
        Seq::empty()
    } else {
        proof {
            lemma_next_byte(b, 10u8, k);
        }
        let e = next_byte(b, 10u8, k);
        let l = b.subrange(k, e);
        let rest = if e < b.len() {
            ndjson_lines(b, e + 1)
        } else {
            Seq::<Seq<u8>>::empty()
        };
        if l.len() > 0 {
            seq![l] + rest
        } else {
            rest
        }
    }
}

/// What `serde_json::from_slice::<serde_json::Value>` makes of a line:
/// `None` when it does not parse, `Some(None)` when it is not an object,
/// else the object's keys.
pub uninterp spec fn json_keys(line: Seq<u8>) -> Option<Option<Seq<Seq<char>>>>;

pub open spec fn keys_view(r: Option<Option<Vec<String>>>) -> Option<Option<Seq<Seq<char>>>> {
    match r {
        None => None,
        Some(None) => Some(None),
        Some(Some(v)) => Some(Some(v@.map_values(|s: String| s@))),
    }
}

/// `serde_json::from_slice::<serde_json::Value>` on an action line, reduced
/// to the object's keys. Named, not stated.
#[verifier::external_body]
fn action_keys(line: &[u8]) -> (r: Option<Option<Vec<String>>>)
    ensures
        keys_view(r) == json_keys(line@),
{
    match serde_json::from_slice::<serde_json::Value>(line) {
        Err(_) => None,
        Ok(serde_json::Value::Object(m)) => Some(Some(m.keys().cloned().collect())),
        Ok(_) => Some(None),
    }
}

/// Why a generated bulk request or a bulk response was refused.
#[derive(Debug, Clone, PartialEq, Eq)]
pub enum BulkError {
    /// The request does not end with a line feed.
    NotNewlineTerminated,
    /// Action line (numbered from 1 among the non-empty lines) is not JSON.
    ActionNotJson(usize),
    ActionNotObject(usize),
    /// The action line names other than exactly one operation.
    NotOneOperation(usize),
    UnsupportedOperation(usize, String),
    /// The action (numbered from 1) has no source line after it.
    MissingSource(BulkOperation, usize),
    /// The response body is not JSON.
    BodyNotJson,
    /// The response has no boolean `errors`.
    MissingErrorsFlag,
    /// The response has no array `items`.
    MissingItems,
    /// Sent so many actions, received so many items.
    ItemCountMismatch(usize, usize),
    /// Item (numbered from 1) is not an object.
    ItemNotObject(usize),
    ItemNotOneOperation(usize),
    /// Item's operation is not the one sent: (item, sent, received).
    OperationMismatch(usize, BulkOperation, String),
    ItemResultNotObject(usize),
    ItemMissingStatus(usize),
    /// The `errors` flag disagrees with the rejected-item count.
    ErrorsFlagMismatch(bool, u64),
}

/// The same, with text as characters.
pub enum BulkErrorView {
    NotNewlineTerminated,
    ActionNotJson(usize),
    ActionNotObject(usize),
    NotOneOperation(usize),
    UnsupportedOperation(usize, Seq<char>),
    MissingSource(BulkOperation, usize),
    BodyNotJson,
    MissingErrorsFlag,
    MissingItems,
    ItemCountMismatch(usize, usize),
    ItemNotObject(usize),
    ItemNotOneOperation(usize),
    OperationMismatch(usize, BulkOperation, Seq<char>),
    ItemResultNotObject(usize),
    ItemMissingStatus(usize),
    ErrorsFlagMismatch(bool, u64),
}

impl View for BulkError {
    type V = BulkErrorView;

    open spec fn view(&self) -> BulkErrorView {
        match *self {
            BulkError::NotNewlineTerminated => BulkErrorView::NotNewlineTerminated,
            BulkError::ActionNotJson(l) => BulkErrorView::ActionNotJson(l),
            BulkError::ActionNotObject(l) => BulkErrorView::ActionNotObject(l),
            BulkError::NotOneOperation(l) => BulkErrorView::NotOneOperation(l),
            BulkError::UnsupportedOperation(l, s) => BulkErrorView::UnsupportedOperation(l, s@),
            BulkError::MissingSource(o, n) => BulkErrorView::MissingSource(o, n),
            BulkError::BodyNotJson => BulkErrorView::BodyNotJson,
            BulkError::MissingErrorsFlag => BulkErrorView::MissingErrorsFlag,
            BulkError::MissingItems => BulkErrorView::MissingItems,
            BulkError::ItemCountMismatch(a, b) => BulkErrorView::ItemCountMismatch(a, b),
            BulkError::ItemNotObject(i) => BulkErrorView::ItemNotObject(i),
            BulkError::ItemNotOneOperation(i) => BulkErrorView::ItemNotOneOperation(i),
            BulkError::OperationMismatch(i, o, s) => BulkErrorView::OperationMismatch(i, o, s@),
            BulkError::ItemResultNotObject(i) => BulkErrorView::ItemResultNotObject(i),
            BulkError::ItemMissingStatus(i) => BulkErrorView::ItemMissingStatus(i),
            BulkError::ErrorsFlagMismatch(f, n) => BulkErrorView::ErrorsFlagMismatch(f, n),
        }
    }
}

pub open spec fn bool_text(b: bool) -> Seq<char> {
    if b {
        "true"@
    } else {
        "false"@
    }
}

/// A refusal as a sentence.
pub open spec fn bulk_error_text(e: BulkErrorView) -> Seq<char> {
    match e {
        BulkErrorView::NotNewlineTerminated => "generated bulk request is not newline terminated"@,
        BulkErrorView::ActionNotJson(l) => "parse generated bulk action line "@ + dec(l as nat),
        BulkErrorView::ActionNotObject(l) => "generated bulk action line "@ + dec(l as nat) + " is not a JSON object"@,
        BulkErrorView::NotOneOperation(l) => "generated bulk action line "@ + dec(l as nat)
            + " must contain exactly one operation"@,
        BulkErrorView::UnsupportedOperation(l, name) => "generated bulk action line "@ + dec(l as nat)
            + " uses unsupported operation "@ + name,
        BulkErrorView::MissingSource(op, n) => "generated bulk "@ + op_name(op) + " action "@ + dec(n as nat)
            + " is missing its source line"@,
        BulkErrorView::BodyNotJson => "parse bulk response"@,
        BulkErrorView::MissingErrorsFlag => "bulk response is missing boolean `errors`"@,
        BulkErrorView::MissingItems => "bulk response is missing array `items`"@,
        BulkErrorView::ItemCountMismatch(sent, got) => "bulk response item count mismatch: sent "@ + dec(sent as nat)
            + " action(s), received "@ + dec(got as nat) + " item(s)"@,
        BulkErrorView::ItemNotObject(i) => "bulk response item "@ + dec(i as nat) + " is not an object"@,
        BulkErrorView::ItemNotOneOperation(i) => "bulk response item "@ + dec(i as nat)
            + " must contain exactly one operation"@,
        BulkErrorView::OperationMismatch(i, op, name) => "bulk response item "@ + dec(i as nat)
            + " operation mismatch: sent "@ + op_name(op) + ", received "@ + name,
        BulkErrorView::ItemResultNotObject(i) => "bulk response item "@ + dec(i as nat)
            + " operation result is not an object"@,
        BulkErrorView::ItemMissingStatus(i) => "bulk response item "@ + dec(i as nat) + " is missing status"@,
        BulkErrorView::ErrorsFlagMismatch(flag, n) => "bulk response `errors` flag ("@ + bool_text(flag)
            + ") disagrees with "@ + dec(n as nat) + " rejected item(s)"@,
    }
}

impl BulkError {
    /// The refusal as a sentence.
    pub fn message(&self) -> (r: String)
        ensures
            r@ == bulk_error_text(self@),
    {
        let mut o: Vec<char> = Vec::new();
        match self {
            BulkError::NotNewlineTerminated => push_str_chars(&mut o, "generated bulk request is not newline terminated"),
            BulkError::ActionNotJson(l) => {
                push_str_chars(&mut o, "parse generated bulk action line ");
                push_dec(&mut o, *l as u64);
            },
            BulkError::ActionNotObject(l) => {
                push_str_chars(&mut o, "generated bulk action line ");
                push_dec(&mut o, *l as u64);
                push_str_chars(&mut o, " is not a JSON object");
            },
            BulkError::NotOneOperation(l) => {
                push_str_chars(&mut o, "generated bulk action line ");
                push_dec(&mut o, *l as u64);
                push_str_chars(&mut o, " must contain exactly one operation");
            },
            BulkError::UnsupportedOperation(l, name) => {
                push_str_chars(&mut o, "generated bulk action line ");
                push_dec(&mut o, *l as u64);
                push_str_chars(&mut o, " uses unsupported operation ");
                push_str_chars(&mut o, name.as_str());
            },
            BulkError::MissingSource(op, n) => {
                push_str_chars(&mut o, "generated bulk ");
                push_str_chars(&mut o, op.name());
                push_str_chars(&mut o, " action ");
                push_dec(&mut o, *n as u64);
                push_str_chars(&mut o, " is missing its source line");
            },
            BulkError::BodyNotJson => push_str_chars(&mut o, "parse bulk response"),
            BulkError::MissingErrorsFlag => push_str_chars(&mut o, "bulk response is missing boolean `errors`"),
            BulkError::MissingItems => push_str_chars(&mut o, "bulk response is missing array `items`"),
            BulkError::ItemCountMismatch(sent, got) => {
                push_str_chars(&mut o, "bulk response item count mismatch: sent ");
                push_dec(&mut o, *sent as u64);
                push_str_chars(&mut o, " action(s), received ");
                push_dec(&mut o, *got as u64);
                push_str_chars(&mut o, " item(s)");
            },
            BulkError::ItemNotObject(i) => {
                push_str_chars(&mut o, "bulk response item ");
                push_dec(&mut o, *i as u64);
                push_str_chars(&mut o, " is not an object");
            },
            BulkError::ItemNotOneOperation(i) => {
                push_str_chars(&mut o, "bulk response item ");
                push_dec(&mut o, *i as u64);
                push_str_chars(&mut o, " must contain exactly one operation");
            },
            BulkError::OperationMismatch(i, op, name) => {
                push_str_chars(&mut o, "bulk response item ");
                push_dec(&mut o, *i as u64);
                push_str_chars(&mut o, " operation mismatch: sent ");
                push_str_chars(&mut o, op.name());
                push_str_chars(&mut o, ", received ");
                push_str_chars(&mut o, name.as_str());
            },
            BulkError::ItemResultNotObject(i) => {
                push_str_chars(&mut o, "bulk response item ");
                push_dec(&mut o, *i as u64);
                push_str_chars(&mut o, " operation result is not an object");
            },
            BulkError::ItemMissingStatus(i) => {
                push_str_chars(&mut o, "bulk response item ");
                push_dec(&mut o, *i as u64);
                push_str_chars(&mut o, " is missing status");
            },
            BulkError::ErrorsFlagMismatch(flag, n) => {
                push_str_chars(&mut o, "bulk response `errors` flag (");
                push_str_chars(&mut o, if *flag { "true" } else { "false" });
                push_str_chars(&mut o, ") disagrees with ");
                push_dec(&mut o, *n);
                push_str_chars(&mut o, " rejected item(s)");
            },
        }
        proof {
            assert(o@ =~= bulk_error_text(self@));
        }
        string_from_chars(o.as_slice())
    }
}

/// The operations of the action lines from line `i` (0-based among the
/// non-empty lines), after `ops` already read.
pub open spec fn ops_from(lines: Seq<Seq<u8>>, i: int, ops: Seq<BulkOperation>) -> Result<Seq<BulkOperation>, BulkErrorView>
    decreases lines.len() - i,
{
    if i < 0 || i >= lines.len() {
        Ok(ops)
    } else {
        match json_keys(lines[i]) {
            None => Err(BulkErrorView::ActionNotJson((i + 1) as usize)),
            Some(None) => Err(BulkErrorView::ActionNotObject((i + 1) as usize)),
            Some(Some(keys)) => if keys.len() != 1 {
                Err(BulkErrorView::NotOneOperation((i + 1) as usize))
            } else {
                match op_of(keys[0]) {
                    None => Err(BulkErrorView::UnsupportedOperation((i + 1) as usize, keys[0])),
                    Some(op) => if spec_has_source_line(op) {
                        if i + 1 >= lines.len() {
                            Err(BulkErrorView::MissingSource(op, (ops.len() + 1) as usize))
                        } else {
                            ops_from(lines, i + 2, ops.push(op))
                        }
                    } else {
                        ops_from(lines, i + 1, ops.push(op))
                    },
                }
            },
        }
    }
}

/// The operations a generated bulk request carries, in order; the request
/// must end with a line feed, and every action line must be a JSON object
/// naming exactly one known operation, followed by its source line unless
/// it is a delete.
pub open spec fn request_ops(body: Seq<u8>) -> Result<Seq<BulkOperation>, BulkErrorView> {
    if !(body.len() > 0 && body.last() == 10u8) {
        Err(BulkErrorView::NotNewlineTerminated)
    } else {
        ops_from(ndjson_lines(body, 0), 0, Seq::empty())
    }
}

fn ndjson_lines_exec(body: &[u8]) -> (r: Vec<Vec<u8>>)
    ensures
        vviews(r@) == ndjson_lines(body@, 0),
{
    let n = body.len();
    let mut out: Vec<Vec<u8>> = Vec::new();
    let mut k: usize = 0;
    while k < n
        invariant
            k <= n,
            n == body@.len(),
            ndjson_lines(body@, 0) == vviews(out@) + ndjson_lines(body@, k as int),
        decreases n - k,
    {
        let e = find_byte(body, 10u8, k);
        proof {
            lemma_next_byte(body@, 10u8, k as int);
        }
        let ghost before = vviews(out@);
        if e > k {
            let l = slice_vec(body, k, e);
            out.push(l);
            proof {
                assert(vviews(out@) =~= before.push(body@.subrange(k as int, e as int)));
            }
        }
        proof {
            let rest = if e < n {
                ndjson_lines(body@, e + 1)
            } else {
                Seq::<Seq<u8>>::empty()
            };
            if e > k {
                assert(vviews(out@) + rest =~= before + ndjson_lines(body@, k as int));
            } else {
                assert(vviews(out@) + rest =~= before + ndjson_lines(body@, k as int));
            }
        }
        if e < n {
            k = e + 1;
        } else {
            k = n;
        }
    }
    proof {
        assert(vviews(out@) + Seq::<Seq<u8>>::empty() =~= vviews(out@));
    }
    out
}

/// Check a generated bulk request and list the operations it carries.
pub fn bulk_operations(body: &[u8]) -> (r: Result<Vec<BulkOperation>, BulkError>)
    ensures
        match request_ops(body@) {
            Ok(ops) => r matches Ok(v) && v@ == ops,
            Err(e) => r matches Err(x) && x@ == e,
        },
{
    if !(body.len() > 0 && body[body.len() - 1] == 10u8) {
        return Err(BulkError::NotNewlineTerminated);
    }
    let lines = ndjson_lines_exec(body);
    let ghost lv = vviews(lines@);
    let mut ops: Vec<BulkOperation> = Vec::new();
    let mut i: usize = 0;
    while i < lines.len()
        invariant
            lv == vviews(lines@),
            i <= lines@.len() + 1,
            request_ops(body@) == ops_from(lv, i as int, ops@),
            ops@.len() <= i,
        decreases lines@.len() + 1 - i,
    {
        proof {
            assert(lv[i as int] == lines@[i as int]@);
        }
        let keys = action_keys(lines[i].as_slice());
        match keys {
            None => {
                return Err(BulkError::ActionNotJson(i + 1));
            },
            Some(None) => {
                return Err(BulkError::ActionNotObject(i + 1));
            },
            Some(Some(ks)) => {
                if ks.len() != 1 {
                    return Err(BulkError::NotOneOperation(i + 1));
                }
                proof {
                    assert(ks@.map_values(|s: String| s@)[0] == ks@[0]@);
                }
                match BulkOperation::parse(ks[0].as_str()) {
                    None => {
                        let name = string_from_chars(chars_of(ks[0].as_str()).as_slice());
                        return Err(BulkError::UnsupportedOperation(i + 1, name));
                    },
                    Some(op) => {
                        ops.push(op);
                        if op.has_source_line() {
                            if i + 1 >= lines.len() {
                                return Err(BulkError::MissingSource(op, ops.len()));
                            }
                            i = i + 2;
                        } else {
                            i = i + 1;
                        }
                    },
                }
            },
        }
    }
    Ok(ops)
}

// ---- the response ----

/// What a bulk response says of one item's operation result: whether it is
/// an object, its numeric `status`, and its `error` serialized as JSON
/// when present and not null.
#[derive(Debug, Clone)]
pub struct ItemResult {
    pub is_object: bool,
    pub status: Option<u64>,
    pub error: Option<String>,
}

/// One item of a bulk response: its (operation, result) entries when it is
/// an object.
#[derive(Debug, Clone)]
pub struct BulkItem {
    pub entries: Option<Vec<(String, ItemResult)>>,
}

/// The parts of a bulk response the accounting reads: the boolean `errors`
/// and the array `items`, each `None` when absent or of another type.
#[derive(Debug, Clone)]
pub struct BulkReply {
    pub errors: Option<bool>,
    pub items: Option<Vec<BulkItem>>,
}

/// Rejected items and the report of the first.
#[derive(Debug, Clone, PartialEq, Eq)]
pub struct BulkOutcome {
    pub item_errors: u64,
    pub first_error: Option<String>,
}

pub struct ItemResultV {
    pub is_object: bool,
    pub status: Option<u64>,
    pub error: Option<Seq<char>>,
}

pub open spec fn str_opt(o: Option<String>) -> Option<Seq<char>> {
    match o {
        Some(s) => Some(s@),
        None => None,
    }
}

pub open spec fn result_view(r: ItemResult) -> ItemResultV {
    ItemResultV { is_object: r.is_object, status: r.status, error: str_opt(r.error) }
}

pub open spec fn entries_view(v: Seq<(String, ItemResult)>) -> Seq<(Seq<char>, ItemResultV)> {
    v.map_values(|e: (String, ItemResult)| (e.0@, result_view(e.1)))
}

pub open spec fn item_view(i: BulkItem) -> Option<Seq<(Seq<char>, ItemResultV)>> {
    match i.entries {
        Some(v) => Some(entries_view(v@)),
        None => None,
    }
}

pub open spec fn items_view(v: Seq<BulkItem>) -> Seq<Option<Seq<(Seq<char>, ItemResultV)>>> {
    v.map_values(|i: BulkItem| item_view(i))
}

pub open spec fn take_chars(t: Seq<char>, n: int) -> Seq<char> {
    if t.len() <= n {
        t
    } else {
        t.subrange(0, n)
    }
}

/// The report of a rejected item: its number, operation and status, and
/// the first 300 characters of its error.
pub open spec fn item_report(k: nat, op: BulkOperation, status: u64, error: Option<Seq<char>>) -> Seq<char> {
    "item "@ + dec(k) + " "@ + op_name(op) + " returned status "@ + dec(status as nat) + match error {
        Some(e) => ": "@ + take_chars(e, 300),
        None => Seq::empty(),
    }
}

/// Item by item from `k`: every item must be an object naming exactly the
/// operation sent, with an object result holding a status; an item is
/// rejected when its status is not accepted for its operation or it holds
/// an error. Gives (rejected items, report of the first).
pub open spec fn account_from(
    expected: Seq<BulkOperation>,
    items: Seq<Option<Seq<(Seq<char>, ItemResultV)>>>,
    k: int,
    errs: nat,
    first: Option<Seq<char>>,
) -> Result<(nat, Option<Seq<char>>), BulkErrorView>
    decreases items.len() - k,
{
    if k < 0 || k >= items.len() {
        Ok((errs, first))
    } else {
        let n = (k + 1) as usize;
        match items[k] {
            None => Err(BulkErrorView::ItemNotObject(n)),
            Some(es) => if es.len() != 1 {
                Err(BulkErrorView::ItemNotOneOperation(n))
            } else if es[0].0 != op_name(expected[k]) {
                Err(BulkErrorView::OperationMismatch(n, expected[k], es[0].0))
            } else if !es[0].1.is_object {
                Err(BulkErrorView::ItemResultNotObject(n))
            } else {
                match es[0].1.status {
                    None => Err(BulkErrorView::ItemMissingStatus(n)),
                    Some(st) => if !spec_accepts_status(expected[k], st) || es[0].1.error is Some {
                        account_from(
                            expected,
                            items,
                            k + 1,
                            errs + 1,
                            if first is Some {
                                first
                            } else {
                                Some(item_report(n as nat, expected[k], st, es[0].1.error))
                            },
                        )
                    } else {
                        account_from(expected, items, k + 1, errs, first)
                    },
                }
            },
        }
    }
}

/// The accounting of a (successful) bulk response for the operations sent:
/// the boolean `errors` and the array `items` must be there, one item per
/// operation, and `errors` must be true exactly when some item was rejected.
pub open spec fn reply_outcome(expected: Seq<BulkOperation>, errors: Option<bool>, items: Option<Seq<Option<Seq<(Seq<char>, ItemResultV)>>>>) -> Result<(nat, Option<Seq<char>>), BulkErrorView> {
    match errors {
        None => Err(BulkErrorView::MissingErrorsFlag),
        Some(flag) => match items {
            None => Err(BulkErrorView::MissingItems),
            Some(its) => if its.len() != expected.len() {
                Err(BulkErrorView::ItemCountMismatch(expected.len() as usize, its.len() as usize))
            } else {
                match account_from(expected, its, 0, 0, None) {
                    Err(e) => Err(e),
                    Ok((n, first)) => if flag != (n > 0) {
                        Err(BulkErrorView::ErrorsFlagMismatch(flag, n as u64))
                    } else {
                        Ok((n, first))
                    },
                }
            },
        },
    }
}

pub open spec fn reply_items(r: BulkReply) -> Option<Seq<Option<Seq<(Seq<char>, ItemResultV)>>>> {
    match r.items {
        Some(v) => Some(items_view(v@)),
        None => None,
    }
}

fn take_300(e: &String) -> (r: Vec<char>)
    ensures
        r@ == take_chars(e@, 300),
{
    let cs = chars_of(e.as_str());
    if cs.len() <= 300 {
        cs
    } else {
        crate::text::sub_chars(cs.as_slice(), 0, 300)
    }
}

fn report(n: usize, op: BulkOperation, status: u64, error: &Option<String>) -> (r: String)
    ensures
        r@ == item_report(n as nat, op, status, str_opt(*error)),
{
    let mut out: Vec<char> = Vec::new();
    push_str_chars(&mut out, "item ");
    push_dec(&mut out, n as u64);
    push_str_chars(&mut out, " ");
    push_str_chars(&mut out, op.name());
    push_str_chars(&mut out, " returned status ");
    push_dec(&mut out, status);
    match error {
        Some(e) => {
            push_str_chars(&mut out, ": ");
            let t = take_300(e);
            push_chars(&mut out, t.as_slice());
        },
        None => {},
    }
    proof {
        assert(out@ =~= item_report(n as nat, op, status, str_opt(*error)));
    }
    string_from_chars(out.as_slice())
}

/// Account a bulk response (whose HTTP status was a success) against the
/// operations sent.
pub fn check_bulk_reply(reply: &BulkReply, expected: &Vec<BulkOperation>) -> (r: Result<BulkOutcome, BulkError>)
    ensures
        match reply_outcome(expected@, reply.errors, reply_items(*reply)) {
            Ok((n, first)) => r matches Ok(o) && o.item_errors as nat == n && str_opt(o.first_error) == first,
            Err(e) => r matches Err(x) && x@ == e,
        },
{
    let flag = match reply.errors {
        None => {
            return Err(BulkError::MissingErrorsFlag);
        },
        Some(f) => f,
    };
    let items = match &reply.items {
        None => {
            return Err(BulkError::MissingItems);
        },
        Some(v) => v,
    };
    let ghost iv = items_view(items@);
    if items.len() != expected.len() {
        return Err(BulkError::ItemCountMismatch(expected.len(), items.len()));
    }
    let mut errs: u64 = 0;
    let mut first: Option<String> = None;
    let mut k: usize = 0;
    while k < items.len()
        invariant
            k <= items@.len(),
            items@.len() == expected@.len(),
            iv == items_view(items@),
            reply.errors == Some(flag),
            reply_items(*reply) == Some(iv),
            errs <= k,
            account_from(expected@, iv, 0, 0, None) == account_from(expected@, iv, k as int, errs as nat, str_opt(first)),
        decreases items@.len() - k,
    {
        let n = k + 1;
        proof {
            assert(iv[k as int] == item_view(items@[k as int]));
        }
        let es = match &items[k].entries {
            None => {
                return Err(BulkError::ItemNotObject(n));
            },
            Some(es) => es,
        };
        if es.len() != 1 {
            return Err(BulkError::ItemNotOneOperation(n));
        }
        let op = expected[k];
        proof {
            assert(entries_view(es@)[0] == (es@[0].0@, result_view(es@[0].1)));
        }
        let name_ok = crate::text::str_eq(es[0].0.as_str(), op.name());
        if !name_ok {
            let got = string_from_chars(chars_of(es[0].0.as_str()).as_slice());
            return Err(BulkError::OperationMismatch(n, op, got));
        }
        let res = &es[0].1;
        if !res.is_object {
            return Err(BulkError::ItemResultNotObject(n));
        }
        let st = match res.status {
            None => {
                return Err(BulkError::ItemMissingStatus(n));
            },
            Some(st) => st,
        };
        if !op.accepts_status(st) || res.error.is_some() {
            errs = errs + 1;
            if first.is_none() {
                first = Some(report(n, op, st, &res.error));
            }
        }
        k += 1;
    }
    if flag != (errs > 0) {
        return Err(BulkError::ErrorsFlagMismatch(flag, errs));
    }
    Ok(BulkOutcome { item_errors: errs, first_error: first })
}

/// What a bulk response body holds, as the accounting reads it: `errors`
/// and the items, as `reply_items` gives them.
pub open spec fn reply_opt_view(r: Option<BulkReply>) -> Option<(Option<bool>, Option<Seq<Option<Seq<(Seq<char>, ItemResultV)>>>>)> {
    match r {
        None => None,
        Some(b) => Some((b.errors, reply_items(b))),
    }
}

/// What `serde_json::from_slice::<serde_json::Value>` makes of a bulk
/// response body, reduced as `bulk_reply_of_bytes` reduces it; `None` when
/// the body is not JSON.
pub uninterp spec fn bulk_reply_json(body: Seq<u8>) -> Option<(Option<bool>, Option<Seq<Option<Seq<(Seq<char>, ItemResultV)>>>>)>;

/// `serde_json::from_slice::<serde_json::Value>` on a bulk response body,
/// reduced to what the accounting reads: `errors` when it is a boolean,
/// `items` when it is an array, each item's (name, result) entries when it is
/// an object, a result's `status` when it is an unsigned integer, and its
/// `error`, unless absent or null, serialized as JSON (indexing a `Value` by
/// a key that is absent, or a value that is no object, gives `null`). Named,
/// not stated.
#[verifier::external_body]
fn bulk_reply_of_bytes(body: &[u8]) -> (r: Option<BulkReply>)
    ensures
        reply_opt_view(r) == bulk_reply_json(body@),
{
    let v: Value = serde_json::from_slice(body).ok()?;
    let res = |r: &Value| ItemResult { is_object: r.is_object(), status: r["status"].as_u64(),
        error: match &r["error"] { Value::Null => None, e => Some(e.to_string()) } };
    let item = |i: &Value| BulkItem { entries: i.as_object().map(|o| o.iter().map(|(k, r)| (k.clone(), res(r))).collect()) };
    Some(BulkReply { errors: v["errors"].as_bool(), items: v["items"].as_array().map(|a| a.iter().map(item).collect()) })
}

/// Account a bulk response body (whose HTTP status was a success) against
/// the operations sent: a body that is not JSON is refused, any other is
/// accounted as `check_bulk_reply` accounts it.
pub fn check_bulk_body(body: &[u8], expected: &Vec<BulkOperation>) -> (r: Result<BulkOutcome, BulkError>)
    ensures
        match bulk_reply_json(body@) {
            None => r matches Err(x) && x@ == BulkErrorView::BodyNotJson,
            Some((errors, items)) => match reply_outcome(expected@, errors, items) {
                Ok((n, first)) => r matches Ok(o) && o.item_errors as nat == n && str_opt(o.first_error) == first,
                Err(e) => r matches Err(x) && x@ == e,
            },
        },
{
    match bulk_reply_of_bytes(body) {
        None => Err(BulkError::BodyNotJson),
        Some(reply) => check_bulk_reply(&reply, expected),
    }
}

// ---- a refused request ----

/// Bytes of a refused response's body read for its error message at most.
pub const RESPONSE_EXCERPT_LIMIT: u64 = 4096;

/// What a refused response's body (at most `RESPONSE_EXCERPT_LIMIT` bytes of
/// it) says in an error message: its text, decoded leniently, with its
/// words joined by single spaces.
pub fn response_excerpt(body: &[u8]) -> (r: String)
    ensures
        r@ == crate::text::squeeze_chars(crate::sniff::utf8_lossy(body@)),
{
    let text = crate::sniff::utf8_lossy_string(body);
    let cs = chars_of(text.as_str());
    let squeezed = crate::text::squeeze_words(cs.as_slice());
    string_from_chars(squeezed.as_slice())
}

// ---- retries ----

/// Attempts per request.
pub const MAX_ATTEMPTS: usize = 6;

/// What an attempt came back with.
#[derive(Debug, Clone, Copy, PartialEq, Eq)]
pub enum Attempt {
    /// A response with this HTTP status.
    Status(u16),
    /// No response: the transport failed.
    Transport,
}

/// What to do next.
#[derive(Debug, Clone, Copy, PartialEq, Eq)]
pub enum RetryAction {
    /// Hand the response to its parser; the request is done.
    Parse,
    /// Sleep this many milliseconds, then try again.
    Sleep(u64),
    /// Attempts are exhausted: report the last error.
    GiveUp,
}

/// 429 and the 5xx statuses are worth another attempt.
pub open spec fn retryable(a: Attempt) -> bool {
    match a {
        Attempt::Status(s) => s == 429 || (500 <= s <= 599),
        Attempt::Transport => true,
    }
}

/// The backoff of one request: attempts made so far and the next delay.
#[derive(Debug, Clone, Copy)]
pub struct Retry {
    pub attempt: usize,
    pub delay_ms: u64,
    pub max_delay_ms: u64,
}

pub open spec fn min_u64(a: u64, b: u64) -> u64 {
    if a <= b {
        a
    } else {
        b
    }
}

impl Retry {
    /// Delays fit twice over in a `u64`.
    pub open spec fn wf(&self) -> bool {
        self.delay_ms <= u64::MAX / 2 && self.max_delay_ms <= u64::MAX / 2
    }

    pub fn new(initial_ms: u64, max_ms: u64) -> (r: Retry)
        requires
            initial_ms <= u64::MAX / 2,
            max_ms <= u64::MAX / 2,
        ensures
            r.wf(),
            r.attempt == 0,
            r.delay_ms == initial_ms,
            r.max_delay_ms == max_ms,
    {
        Retry { attempt: 0, delay_ms: initial_ms, max_delay_ms: max_ms }
    }

    /// The decision after an attempt: a response that is not retryable is
    /// parsed; otherwise sleep the current delay and double it (up to the
    /// maximum) while attempts remain, with no sleep after the last.
    pub fn on_attempt(&mut self, a: Attempt) -> (r: RetryAction)
        requires
            old(self).wf(),
            old(self).attempt < MAX_ATTEMPTS,
        ensures
            final(self).wf(),
            final(self).max_delay_ms == old(self).max_delay_ms,
            !retryable(a) ==> r == RetryAction::Parse && *final(self) == *old(self),
            retryable(a) && old(self).attempt + 1 < MAX_ATTEMPTS ==> r == RetryAction::Sleep(old(self).delay_ms)
                && final(self).attempt == old(self).attempt + 1 && final(self).delay_ms == min_u64(
                (old(self).delay_ms * 2) as u64,
                old(self).max_delay_ms,
            ),
            retryable(a) && old(self).attempt + 1 >= MAX_ATTEMPTS ==> r == RetryAction::GiveUp
                && final(self).attempt == MAX_ATTEMPTS,
    {
        let again = match a {
            Attempt::Status(s) => s == 429 || (500 <= s && s <= 599),
            Attempt::Transport => true,
        };
        if !again {
            return RetryAction::Parse;
        }
        if self.attempt + 1 < MAX_ATTEMPTS {
            let d = self.delay_ms;
            let doubled = d * 2;
            self.delay_ms = if doubled <= self.max_delay_ms {
                doubled
            } else {
                self.max_delay_ms
            };
            self.attempt = self.attempt + 1;
            RetryAction::Sleep(d)
        } else {
            self.attempt = MAX_ATTEMPTS;
            RetryAction::GiveUp
        }
    }
}

/// The actions of one request over the outcomes of its attempts, from
/// attempt number `attempt` with delay `delay` (as `on_attempt` decides).
pub open spec fn retry_run(attempt: nat, delay: u64, max: u64, outs: Seq<Attempt>) -> Seq<RetryAction>
    decreases outs.len(),
{
    if outs.len() == 0 {
        Seq::empty()
    } else if !retryable(outs[0]) {
        seq![RetryAction::Parse]
    } else if attempt + 1 < MAX_ATTEMPTS {
        seq![RetryAction::Sleep(delay)] + retry_run(
            attempt + 1,
            min_u64((delay * 2) as u64, max),
            max,
            outs.drop_first(),
        )
    } else {
        seq![RetryAction::GiveUp]
    }
}

proof fn lemma_retry_run(attempt: nat, delay: u64, max: u64, outs: Seq<Attempt>)
    requires
        attempt < MAX_ATTEMPTS,
    ensures
        retry_run(attempt, delay, max, outs).len() <= MAX_ATTEMPTS - attempt,
        forall|i: int|
            0 <= i < retry_run(attempt, delay, max, outs).len() && (#[trigger] retry_run(attempt, delay, max, outs)[i]) is Sleep
                ==> attempt + i + 1 < MAX_ATTEMPTS,
    decreases outs.len(),
{
    if outs.len() > 0 && retryable(outs[0]) && attempt + 1 < MAX_ATTEMPTS {
        let nd = min_u64((delay * 2) as u64, max);
        lemma_retry_run(attempt + 1, nd, max, outs.drop_first());
        let rest = retry_run(attempt + 1, nd, max, outs.drop_first());
        let all = retry_run(attempt, delay, max, outs);
        assert(all == seq![RetryAction::Sleep(delay)] + rest);
        assert forall|i: int| 0 <= i < all.len() && (#[trigger] all[i]) is Sleep implies attempt + i + 1 < MAX_ATTEMPTS by {
            if i > 0 {
                assert(all[i] == rest[i - 1]);
            }
        }
    }
}

/// However the server answers, one request is attempted at most
/// `MAX_ATTEMPTS` times, and no sleep follows its last attempt.
pub proof fn lemma_retries_are_bounded(delay: u64, max: u64, outs: Seq<Attempt>)
    ensures
        retry_run(0, delay, max, outs).len() <= MAX_ATTEMPTS,
        forall|i: int|
            0 <= i < retry_run(0, delay, max, outs).len() && (#[trigger] retry_run(0, delay, max, outs)[i]) is Sleep
                ==> i + 1 < MAX_ATTEMPTS,
{
    lemma_retry_run(0, delay, max, outs);
}

// ---- delete by query ----

/// Passes before a delete-by-query that still deletes is refused.
pub const MAX_PASSES: usize = 1000;

/// What one delete pass reported: a success status, no failures (absent,
/// or an empty array), and the `deleted` count (0 when absent).
pub open spec fn pass_deleted(success: bool, failures: Option<usize>, deleted: Option<u64>) -> Option<u64> {
    if success && (failures is None || failures == Some(0usize)) {
        Some(
            match deleted {
                Some(d) => d,
                None => 0,
            },
        )
    } else {
        None
    }
}

pub fn delete_pass(success: bool, failures: Option<usize>, deleted: Option<u64>) -> (r: Option<u64>)
    ensures
        r == pass_deleted(success, failures, deleted),
{
    let clean = match failures {
        None => true,
        Some(n) => n == 0,
    };
    if success && clean {
        Some(
            match deleted {
                Some(d) => d,
                None => 0,
            },
        )
    } else {
        None
    }
}

/// After a pass: done when it deleted nothing, another pass while passes
/// remain, else refuse to treat the old generation as removed.
#[derive(Debug, Clone, Copy, PartialEq, Eq)]
pub enum PassAction {
    Done,
    Again,
    Refuse,
}

/// `passes` is how many passes have run, this one included.
pub fn after_pass(passes: usize, deleted: u64) -> (r: PassAction)
    ensures
        r == if deleted == 0 {
            PassAction::Done
        } else if passes < MAX_PASSES {
            PassAction::Again
        } else {
            PassAction::Refuse
        },
{
    if deleted == 0 {
        PassAction::Done
    } else if passes < MAX_PASSES {
        PassAction::Again
    } else {
        PassAction::Refuse
    }
}

/// The actions after the passes of one delete-by-query, given what each
/// pass deleted, from pass number `passes` (passes already run).
pub open spec fn pass_run(passes: nat, deleted: Seq<u64>) -> Seq<PassAction>
    decreases deleted.len(),
{
    if deleted.len() == 0 {
        Seq::empty()
    } else {
        let n = passes + 1;
        let a = if deleted[0] == 0 {
            PassAction::Done
        } else if n < MAX_PASSES {
            PassAction::Again
        } else {
            PassAction::Refuse
        };
        if a == PassAction::Again {
            seq![a] + pass_run(n, deleted.drop_first())
        } else {
            seq![a]
        }
    }
}

proof fn lemma_pass_run(passes: nat, deleted: Seq<u64>)
    requires
        passes < MAX_PASSES,
    ensures
        pass_run(passes, deleted).len() <= MAX_PASSES - passes,
    decreases deleted.len(),
{
    if deleted.len() > 0 && deleted[0] != 0 && passes + 1 < MAX_PASSES {
        lemma_pass_run(passes + 1, deleted.drop_first());
    }
}

/// However much each pass deletes, a delete-by-query runs at most
/// `MAX_PASSES` passes before it is done or refused.
pub proof fn lemma_passes_are_bounded(deleted: Seq<u64>)
    ensures
        pass_run(0, deleted).len() <= MAX_PASSES,
{
    lemma_pass_run(0, deleted);
}

// ---- small verdicts ----

pub open spec fn contains_str(t: Seq<char>, m: Seq<char>) -> bool {
    exists|i: int| #[trigger] crate::sniff::c_occurs(t, m, i)
}

/// Creating an index succeeded, or it already exists.
pub open spec fn index_created(status: u16, text: Seq<char>) -> bool {
    (200 <= status <= 299) || contains_str(text, "resource_already_exists"@) || (status == 400
        && contains_str(text, "exists"@))
}

fn contains_exec(t: &[char], m: &[char]) -> (r: bool)
    ensures
        r == contains_str(t@, m@),
{
    let n = t.len();
    let mut i: usize = 0;
    loop
        invariant
            i <= n,
            n == t@.len(),
            forall|j: int| 0 <= j < i ==> !crate::sniff::c_occurs(t@, m@, j),
        decreases n - i,
    {
        if crate::sniff::chars_at(t, m, i) {
            return true;
        }
        if i == n {
            proof {
                assert forall|j: int| !#[trigger] crate::sniff::c_occurs(t@, m@, j) by {
                    if 0 <= j <= n {
                        assert(j < i || j == i);
                    }
                }
            }
            return false;
        }
        i += 1;
    }
}

pub fn index_create_accepted(status: u16, text: &str) -> (r: bool)
    ensures
        r == index_created(status, text@),
{
    if 200 <= status && status <= 299 {
        return true;
    }
    let t = chars_of(text);
    contains_exec(t.as_slice(), chars_of("resource_already_exists").as_slice()) || (status == 400
        && contains_exec(t.as_slice(), chars_of("exists").as_slice()))
}

/// An ordinary publication fails closed: any rejected item refuses it,
/// reported with the first rejection.
pub fn require_no_rejections(outcome: BulkOutcome) -> (r: Result<BulkOutcome, (u64, String)>)
    ensures
        outcome.item_errors == 0 ==> (r matches Ok(o) && o == outcome),
        outcome.item_errors > 0 ==> (r matches Err(e) && e.0 == outcome.item_errors && e.1@ == match outcome.first_error {
            Some(f) => f@,
            None => "unknown bulk item rejection"@,
        }),
{
    if outcome.item_errors == 0 {
        return Ok(outcome);
    }
    let n = outcome.item_errors;
    let first = match outcome.first_error {
        Some(f) => f,
        None => string_from_chars(chars_of("unknown bulk item rejection").as_slice()),
    };
    Err((n, first))
}

/// How many rejection reports a run keeps for its summary.
pub const MAX_KEPT_BULK_ERRORS: usize = 5;

/// Fold one bulk send into the run's tallies. A send that failed stops the
/// file (its error is kept in `send_err`, the result is `true`). A send that
/// went through counts its rejected items as junk and keeps the first
/// rejection while fewer than five are kept; the file goes on (`false`).
pub fn record_bulk_outcome(
    sent: Result<BulkOutcome, String>,
    junk_records: &mut u64,
    bulk_errors: &mut Vec<String>,
    send_err: &mut Option<String>,
) -> (stop: bool)
    ensures
        match sent {
            Err(e) => {
                &&& stop
                &&& *final(send_err) matches Some(x) && x@ == e@
                &&& *final(junk_records) == *old(junk_records)
                &&& final(bulk_errors)@ == old(bulk_errors)@
            },
            Ok(o) => {
                &&& !stop
                &&& *final(send_err) == *old(send_err)
                &&& *final(junk_records) == if o.item_errors > 0 {
                    old(junk_records).wrapping_add(o.item_errors)
                } else {
                    *old(junk_records)
                }
                &&& final(bulk_errors)@ == match o.first_error {
                    Some(f) if o.item_errors > 0 && old(bulk_errors)@.len() < MAX_KEPT_BULK_ERRORS => old(bulk_errors)@.push(f),
                    _ => old(bulk_errors)@,
                }
            },
        },
{
    match sent {
        Err(e) => {
            *send_err = Some(e);
            true
        },
        Ok(o) => {
            if o.item_errors > 0 {
                *junk_records = junk_records.wrapping_add(o.item_errors);
                match o.first_error {
                    Some(f) => {
                        if bulk_errors.len() < MAX_KEPT_BULK_ERRORS {
                            bulk_errors.push(f);
                        }
                    },
                    None => {},
                }
            }
            false
        },
    }
}

// ---- the `_cat/indices` listing ----

/// `str::split_whitespace`: the maximal runs of characters that are not
/// white space.
pub open spec fn words(s: Seq<char>) -> Seq<Seq<char>>
    decreases s.len(),
{
    if s.len() == 0 {
        Seq::empty()
    } else {
        let w = words(s.drop_last());
        if is_ws(s.last()) {
            w
        } else if s.len() >= 2 && !is_ws(s[s.len() - 2]) {
            w.update(w.len() - 1, w.last().push(s.last()))
        } else {
            w.push(seq![s.last()])
        }
    }
}

proof fn lemma_words_nonempty(s: Seq<char>)
    requires
        s.len() > 0,
        !is_ws(s.last()),
    ensures
        words(s).len() > 0,
    decreases s.len(),
{
    if s.len() >= 2 && !is_ws(s[s.len() - 2]) {
        assert(s.drop_last().last() == s[s.len() - 2]);
        lemma_words_nonempty(s.drop_last());
    }
}

/// The words of a line.
fn words_exec(s: &[char]) -> (r: Vec<Vec<char>>)
    ensures
        fields_view(r@) == words(s@),
{
    let mut acc: Vec<Vec<char>> = Vec::new();
    let mut cur: Vec<char> = Vec::new();
    let mut i: usize = 0;
    while i < s.len()
        invariant
            i <= s@.len(),
            cur@.len() > 0 <==> (i > 0 && !is_ws(s@[i - 1])),
            words(s@.take(i as int)) == if cur@.len() > 0 {
                fields_view(acc@).push(cur@)
            } else {
                fields_view(acc@)
            },
        decreases s@.len() - i,
    {
        let ghost pre = s@.take(i as int);
        let ghost post = s@.take(i + 1);
        proof {
            assert(post.drop_last() =~= pre);
            assert(post.last() == s@[i as int]);
            if i > 0 {
                assert(post[post.len() - 2] == s@[i - 1]);
            }
        }
        let c = s[i];
        if is_whitespace(c) {
            proof {
                assert(words(post) == words(pre));
            }
            if cur.len() > 0 {
                let ghost before = fields_view(acc@);
                let ghost cv = cur@;
                acc.push(cur);
                proof {
                    assert(fields_view(acc@) =~= before.push(cv));
                }
                cur = Vec::new();
            }
        } else {
            let ghost before = fields_view(acc@);
            let ghost cv = cur@;
            cur.push(c);
            proof {
                if cv.len() > 0 {
                    let w = before.push(cv);
                    assert(words(pre) == w);
                    assert(words(post) == w.update(w.len() - 1, w.last().push(c)));
                    assert(w.update(w.len() - 1, w.last().push(c)) =~= before.push(cur@));
                } else {
                    assert(words(pre) == before);
                    assert(words(post) == before.push(seq![c]));
                    assert(cur@ =~= seq![c]);
                }
            }
        }
        i += 1;
    }
    proof {
        assert(s@.take(s@.len() as int) =~= s@);
    }
    if cur.len() > 0 {
        let ghost before = fields_view(acc@);
        let ghost cv = cur@;
        acc.push(cur);
        proof {
            assert(fields_view(acc@) =~= before.push(cv));
        }
    }
    acc
}

/// The value of a run of ASCII digits.
pub open spec fn digits_value(d: Seq<char>) -> nat
    decreases d.len(),
{
    if d.len() == 0 {
        0
    } else {
        digits_value(d.drop_last()) * 10 + (d.last() as nat - 48) as nat
    }
}

pub open spec fn all_digits(d: Seq<char>) -> bool {
    forall|j: int| 0 <= j < d.len() ==> '0' <= #[trigger] d[j] <= '9'
}

/// `str::parse::<u64>`: an optional `+`, then at least one ASCII digit, of
/// a value that fits.
pub open spec fn parse_u64_text(s: Seq<char>) -> Option<u64> {
    let d = if s.len() > 0 && s[0] == '+' {
        s.drop_first()
    } else {
        s
    };
    if d.len() > 0 && all_digits(d) && digits_value(d) <= u64::MAX {
        Some(digits_value(d) as u64)
    } else {
        None
    }
}

proof fn lemma_digits_prefix(d: Seq<char>, i: int)
    requires
        0 <= i <= d.len(),
        all_digits(d),
    ensures
        digits_value(d.take(i)) <= digits_value(d),
    decreases d.len(),
{
    if i < d.len() {
        assert(d.drop_last().take(i) =~= d.take(i));
        lemma_digits_prefix(d.drop_last(), i);
    } else {
        assert(d.take(i) =~= d);
    }
}

fn parse_u64_exec(s: &[char]) -> (r: Option<u64>)
    ensures
        r == parse_u64_text(s@),
{
    let start: usize = if s.len() > 0 && s[0] == '+' {
        1
    } else {
        0
    };
    let ghost d = if s@.len() > 0 && s@[0] == '+' {
        s@.drop_first()
    } else {
        s@
    };
    proof {
        assert(d =~= s@.subrange(start as int, s@.len() as int));
    }
    if start >= s.len() {
        return None;
    }
    let mut i: usize = start;
    let mut v: u64 = 0;
    while i < s.len()
        invariant
            start <= i <= s@.len(),
            d == s@.subrange(start as int, s@.len() as int),
            d == if s@.len() > 0 && s@[0] == '+' {
                s@.drop_first()
            } else {
                s@
            },
            all_digits(d.take(i - start)),
            v == digits_value(d.take(i - start)),
        decreases s@.len() - i,
    {
        let ghost k = i - start;
        proof {
            assert(d.take(k + 1).drop_last() =~= d.take(k));
            assert(d[k] == s@[i as int]);
        }
        let c = s[i];
        if c < '0' || c > '9' {
            proof {
                assert(!('0' <= d[k] <= '9'));
                assert(!all_digits(d));
            }
            return None;
        }
        let digit = (c as u32 - 48) as u64;
        let next = match v.checked_mul(10) {
            Some(m) => m.checked_add(digit),
            None => None,
        };
        match next {
            Some(n) => {
                v = n;
            },
            None => {
                proof {
                    assert(digits_value(d.take(k + 1)) == digits_value(d.take(k)) * 10 + (d[k] as nat - 48) as nat);
                    assert(digits_value(d.take(k + 1)) > u64::MAX);
                    if all_digits(d) {
                        lemma_digits_prefix(d, k + 1);
                    }
                }
                return None;
            },
        }
        i += 1;
    }
    proof {
        assert(d.take(d.len() as int) =~= d);
    }
    Some(v)
}

/// The first column at or after `k` that parses as a count, else 0.
pub open spec fn first_count(cols: Seq<Seq<char>>, k: int) -> u64
    decreases cols.len() - k,
{
    if k < 0 || k >= cols.len() {
        0
    } else {
        match parse_u64_text(cols[k]) {
            Some(v) => v,
            None => first_count(cols, k + 1),
        }
    }
}

/// One `_cat/indices` line (`health status index uuid pri rep docs.count
/// ...`): the index and its document count, or `None` for a short line or a
/// system index (one whose name starts with `.`). The count is the seventh
/// column, else the first count after it, else 0.
pub open spec fn cat_row(l: Seq<char>) -> Option<(Seq<char>, u64)> {
    let cols = words(l);
    if cols.len() < 3 || (cols[2].len() > 0 && cols[2][0] == '.') {
        None
    } else {
        let docs = match if cols.len() > 6 {
            parse_u64_text(cols[6])
        } else {
            None
        } {
            Some(v) => v,
            None => first_count(cols, 7),
        };
        Some((cols[2], docs))
    }
}

pub open spec fn cat_rows(ls: Seq<Seq<char>>) -> Seq<(Seq<char>, u64)>
    decreases ls.len(),
{
    if ls.len() == 0 {
        Seq::empty()
    } else {
        match cat_row(ls.last()) {
            Some(r) => cat_rows(ls.drop_last()).push(r),
            None => cat_rows(ls.drop_last()),
        }
    }
}

pub open spec fn index_counts_view(v: Seq<(String, u64)>) -> Seq<(Seq<char>, u64)> {
    v.map_values(|e: (String, u64)| (e.0@, e.1))
}

fn first_count_exec(cols: &Vec<Vec<char>>, k: usize) -> (r: u64)
    ensures
        r == first_count(fields_view(cols@), k as int),
{
    let ghost cv = fields_view(cols@);
    let mut j = k;
    while j < cols.len()
        invariant
            k <= j,
            cv == fields_view(cols@),
            first_count(cv, k as int) == first_count(cv, j as int),
        decreases cols@.len() - j,
    {
        proof {
            assert(cv[j as int] == cols@[j as int]@);
        }
        match parse_u64_exec(cols[j].as_slice()) {
            Some(v) => {
                return v;
            },
            None => {},
        }
        j += 1;
    }
    0
}

/// The user indices a `_cat/indices` listing names, with their document
/// counts, in listing order.
pub fn parse_cat_indices(text: &str) -> (r: Vec<(String, u64)>)
    ensures
        index_counts_view(r@) == cat_rows(text_lines(text@)),
{
    let t = chars_of(text);
    let lines = lines_exec(&t);
    let ghost lv = fields_view(lines@);
    let mut out: Vec<(String, u64)> = Vec::new();
    let mut i: usize = 0;
    while i < lines.len()
        invariant
            i <= lines@.len(),
            lv == fields_view(lines@),
            lv == text_lines(t@),
            t@ == text@,
            index_counts_view(out@) == cat_rows(lv.take(i as int)),
        decreases lines@.len() - i,
    {
        proof {
            assert(lv.take(i + 1).drop_last() =~= lv.take(i as int));
            assert(lv.take(i + 1).last() == lines@[i as int]@);
        }
        let cols = words_exec(lines[i].as_slice());
        let ghost cv = fields_view(cols@);
        if cols.len() >= 3 && !(cols[2].len() > 0 && cols[2][0] == '.') {
            proof {
                assert(cv[2] == cols@[2]@);
            }
            let seventh = if cols.len() > 6 {
                proof {
                    assert(cv[6] == cols@[6]@);
                }
                parse_u64_exec(cols[6].as_slice())
            } else {
                None
            };
            let docs = match seventh {
                Some(v) => v,
                None => first_count_exec(&cols, 7),
            };
            let name = string_from_chars(cols[2].as_slice());
            let ghost before = index_counts_view(out@);
            out.push((name, docs));
            proof {
                assert(index_counts_view(out@) =~= before.push((cols@[2]@, docs)));
            }
        } else {
            proof {
                if cols@.len() >= 3 {
                    assert(cv[2] == cols@[2]@);
                }
            }
        }
        i += 1;
    }
    proof {
        assert(lv.take(lines@.len() as int) =~= lv);
    }
    out
}

} // verus!
