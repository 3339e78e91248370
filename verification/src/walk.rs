//! The walk's pure rules: hidden names, the file entry, the root-relative
//! form of a path and its reversible identity.

use crate::text::{
    chars_less, chars_lt, chars_of, lemma_chars_lt_irreflexive, lemma_chars_lt_total, lemma_chars_lt_trans, push_chars,
    push_str_chars, str_eq, string_from_chars,
};
use vstd::prelude::*;

verus! {

#[verifier::external_type_specification]
#[verifier::external_body]
pub struct ExPathBuf(std::path::PathBuf);

/// One file the walk admitted.
#[derive(Debug)]
pub struct FileEntry {
    pub path: std::path::PathBuf,
    /// Root-relative path with forward slashes: the stable `ax_path` value.
    pub rel: String,
    /// Reversible platform-native identity; unlike `rel`, never lossy.
    pub rel_id: String,
    /// The discovered path itself is a symlink (its target's metadata is used).
    pub is_symlink: bool,
    pub size: u64,
}

/// A hidden name starts with `.`, whether or not it is valid UTF-8.
pub fn is_hidden_name(name: &[u8]) -> (r: bool)
    ensures
        r == (name@.len() > 0 && name@[0] == 46u8),
{
    name.len() > 0 && name[0] == 46u8
}

/// Lowercase hexadecimal digit.
pub open spec fn hex_digit(n: u8) -> char {
    if n < 10 {
        ((48 + n) as u8) as char
    } else {
        ((87 + n) as u8) as char
    }
}

/// Two hexadecimal digits per byte.
pub open spec fn hex_of(b: Seq<u8>) -> Seq<char>
    decreases b.len(),
{
    if b.len() == 0 {
        Seq::empty()
    } else {
        hex_of(b.drop_last()) + seq![hex_digit(b.last() / 16), hex_digit(b.last() % 16)]
    }
}

fn hex_digit_exec(n: u8) -> (r: char)
    requires
        n < 16,
    ensures
        r == hex_digit(n),
{
    if n < 10 {
        (48u8 + n) as char
    } else {
        (87u8 + n) as char
    }
}

/// The reversible identity of a root-relative path from its native bytes
/// (Unix): `unix:` and two lowercase hexadecimal digits per byte.
pub fn stable_path_id(path: &[u8]) -> (r: String)
    ensures
        r@ == "unix:"@ + hex_of(path@),
{
    let mut out: Vec<char> = Vec::new();
    push_str_chars(&mut out, "unix:");
    let ghost head = out@;
    let mut i: usize = 0;
    while i < path.len()
        invariant
            i <= path@.len(),
            head == "unix:"@,
            out@ == head + hex_of(path@.subrange(0, i as int)),
        decreases path@.len() - i,
    {
        proof {
            assert(path@.subrange(0, i + 1).drop_last() =~= path@.subrange(0, i as int));
        }
        let b = path[i];
        out.push(hex_digit_exec(b / 16));
        out.push(hex_digit_exec(b % 16));
        i += 1;
        proof {
            assert(out@ =~= head + hex_of(path@.subrange(0, i as int)));
        }
    }
    proof {
        assert(path@.subrange(0, path@.len() as int) =~= path@);
    }
    string_from_chars(out.as_slice())
}

/// A relative path with every backslash turned into a forward slash.
pub open spec fn forward_slashes(p: Seq<char>) -> Seq<char> {
    p.map_values(|c: char| if c == '\\' { '/' } else { c })
}

pub fn rel_form(p: &str) -> (r: String)
    ensures
        r@ == forward_slashes(p@),
{
    let cs = chars_of(p);
    let mut out: Vec<char> = Vec::new();
    let mut i: usize = 0;
    while i < cs.len()
        invariant
            i <= cs@.len(),
            cs@ == p@,
            out@ == forward_slashes(cs@.subrange(0, i as int)),
        decreases cs@.len() - i,
    {
        let c = cs[i];
        out.push(if c == '\\' { '/' } else { c });
        i += 1;
        proof {
            assert(out@ =~= forward_slashes(cs@.subrange(0, i as int)));
        }
    }
    proof {
        assert(cs@.subrange(0, cs@.len() as int) =~= cs@);
    }
    string_from_chars(out.as_slice())
}

/// The file whose presence in a directory's parent marks a Unity project.
pub const UNITY_PROJECT_MARKER: &'static str = "ProjectSettings/ProjectVersion.txt";

/// The report label of a directory pruned as Unity-generated.
pub const UNITY_GENERATED: &'static str = "default:unity-generated";

/// Directory names too common to ignore by name alone, pruned only inside a
/// Unity project (where they hold generated caches).
pub open spec fn unity_generated_name(name: Seq<char>) -> bool {
    name == "Library"@ || name == "Temp"@ || name == "obj"@ || name == "Logs"@ || name == "UserSettings"@
}

/// For a directory name, the marker (relative to the directory's parent)
/// whose presence prunes it, and the report label; `None` for every other
/// name. Checking that the marker is a file is the walker's I/O.
pub fn generated_dir_marker(name: &str) -> (r: Option<(&'static str, &'static str)>)
    ensures
        unity_generated_name(name@) ==> r == Some((UNITY_PROJECT_MARKER, UNITY_GENERATED)),
        !unity_generated_name(name@) ==> r is None,
{
    if str_eq(name, "Library") || str_eq(name, "Temp") || str_eq(name, "obj") || str_eq(name, "Logs")
        || str_eq(name, "UserSettings") {
        Some((UNITY_PROJECT_MARKER, UNITY_GENERATED))
    } else {
        None
    }
}

/// `a <= b` in code-point order, from `b < c` failing both ways round.
proof fn lemma_not_lt_trans(a: Seq<char>, b: Seq<char>, c: Seq<char>)
    requires
        !chars_lt(b, a),
        !chars_lt(c, b),
    ensures
        !chars_lt(c, a),
{
    lemma_chars_lt_total(a, b);
    lemma_chars_lt_total(b, c);
    if chars_lt(c, a) {
        if a == b {
            assert(chars_lt(c, b));
        } else if b == c {
            assert(chars_lt(b, a));
        } else {
            lemma_chars_lt_trans(a, b, c);
            lemma_chars_lt_trans(c, a, b);
            lemma_chars_lt_trans(c, a, c);
            lemma_chars_lt_irreflexive(c);
        }
    }
}

/// The entries in path order (code-point order of `rel`, which is the
/// order of the paths' UTF-8 bytes): the order the walk reports.
pub fn sort_by_rel(entries: Vec<FileEntry>) -> (r: Vec<FileEntry>)
    ensures
        r@.to_multiset() == entries@.to_multiset(),
        forall|i: int, j: int| 0 <= i < j < r@.len() ==> !chars_lt((#[trigger] r@[j]).rel@, (#[trigger] r@[i]).rel@),
{
    let mut rest = entries;
    let mut out: Vec<FileEntry> = Vec::new();
    proof {
        broadcast use vstd::multiset::group_multiset_axioms;

        vstd::seq_lib::to_multiset_len(out@);
        vstd::multiset::lemma_multiset_empty_len(out@.to_multiset());
        assert(out@.to_multiset().add(rest@.to_multiset()) =~= entries@.to_multiset());
    }
    while rest.len() > 0
        invariant
            out@.to_multiset().add(rest@.to_multiset()) == entries@.to_multiset(),
            forall|i: int, j: int| 0 <= i < j < out@.len() ==> !chars_lt((#[trigger] out@[j]).rel@, (#[trigger] out@[i]).rel@),
        decreases rest@.len(),
    {
        let ghost before_rest = rest@;
        let ghost before_out = out@;
        let e = rest.pop().unwrap();
        proof {
            assert(before_rest =~= rest@.push(e));
            vstd::seq_lib::to_multiset_build(rest@, e);
            assert(before_rest.to_multiset() =~= rest@.to_multiset().insert(e));
        }
        let ec = chars_of(e.rel.as_str());
        let mut p: usize = 0;
        let mut found = false;
        while p < out.len() && !found
            invariant
                p <= out@.len(),
                ec@ == e.rel@,
                found ==> p < out@.len() && !chars_lt(out@[p as int].rel@, e.rel@),
                forall|k: int| 0 <= k < p ==> chars_lt((#[trigger] out@[k]).rel@, e.rel@),
            decreases out@.len() - p + if found { 0int } else { 1int },
        {
            let oc = chars_of(out[p].rel.as_str());
            if chars_less(oc.as_slice(), ec.as_slice()) {
                p += 1;
            } else {
                found = true;
            }
        }
        let ghost old_out = out@;
        out.insert(p, e);
        proof {
            old_out.insert_ensures(p as int, e);
            assert(old_out.insert(p as int, e) =~= old_out.subrange(0, p as int).push(e) + old_out.subrange(p as int, old_out.len() as int));
            assert(old_out =~= old_out.subrange(0, p as int) + old_out.subrange(p as int, old_out.len() as int));
            let a = old_out.subrange(0, p as int);
            let b = old_out.subrange(p as int, old_out.len() as int);
            vstd::seq_lib::lemma_multiset_commutative(a.push(e), b);
            vstd::seq_lib::lemma_multiset_commutative(a, b);
            vstd::seq_lib::to_multiset_build(a, e);
            assert(out@ =~= a.push(e) + b);
            assert(out@.to_multiset() =~= a.push(e).to_multiset().add(b.to_multiset()));
            assert(a.push(e).to_multiset() =~= a.to_multiset().insert(e));
            assert(old_out.to_multiset() =~= a.to_multiset().add(b.to_multiset()));
            assert(out@.to_multiset() =~= old_out.to_multiset().insert(e));
            assert(out@.to_multiset().add(rest@.to_multiset()) =~= old_out.to_multiset().add(before_rest.to_multiset()));
            assert forall|i: int, j: int| 0 <= i < j < out@.len() implies !chars_lt((#[trigger] out@[j]).rel@, (#[trigger] out@[i]).rel@) by {
                if j < p {
                    assert(out@[i] == old_out[i] && out@[j] == old_out[j]);
                } else if j == p {
                    assert(out@[i] == old_out[i]);
                    lemma_chars_lt_total(old_out[i].rel@, e.rel@);
                    if chars_lt(e.rel@, old_out[i].rel@) {
                        lemma_chars_lt_trans(e.rel@, old_out[i].rel@, e.rel@);
                        lemma_chars_lt_irreflexive(e.rel@);
                    }
                } else if i == p {
                    assert(out@[j] == old_out[j - 1]);
                    assert(found);
                    if j - 1 > p {
                        lemma_not_lt_trans(e.rel@, old_out[p as int].rel@, old_out[j - 1].rel@);
                    }
                } else if i < p {
                    assert(out@[i] == old_out[i] && out@[j] == old_out[j - 1]);
                } else {
                    assert(out@[i] == old_out[i - 1] && out@[j] == old_out[j - 1]);
                }
            }
        }
    }
    proof {
        broadcast use vstd::multiset::group_multiset_axioms;

        vstd::seq_lib::to_multiset_len(rest@);
        vstd::multiset::lemma_multiset_empty_len(rest@.to_multiset());
        assert(out@.to_multiset().add(rest@.to_multiset()) =~= out@.to_multiset());
    }
    out
}

} // verus!
