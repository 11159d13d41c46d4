//! Classpath bookkeeping: path keys and URIs, jar detection, the manifest
//! `Class-Path` attribute, and the work-list expansion of a classpath.
//!
//! Paths are handled as byte strings, the platform's own shape for them;
//! the caller converts to and from its path type at the boundary.
use vstd::prelude::*;

use crate::bytestr::{byte_list_set, insert_bytes_sorted, spec_sorted_bytes};

verus! {

/// The byte a path separator is written with.
pub const SEP: u8 = 0x2f;

/// The sort key of a path: the path itself, byte for byte.
pub open spec fn spec_path_key(p: Seq<u8>) -> Seq<u8> {
    p
}

/// The key that classpath entries are deduplicated and ordered by.
pub fn path_key(path: &[u8]) -> (r: Vec<u8>)
    ensures
        r@ == spec_path_key(path@),
{
    vstd::slice::slice_to_vec(path)
}

/// A path rendered as an artifact URI: the path itself.
pub fn path_to_uri(path: &[u8]) -> (r: Vec<u8>)
    ensures
        r@ == path@,
{
    vstd::slice::slice_to_vec(path)
}

/// The URI of an entry inside a jar: `jar:<path>!/<entry>`.
pub open spec fn spec_jar_entry_uri(jar: Seq<u8>, entry: Seq<u8>) -> Seq<u8> {
    seq![0x6au8, 0x61u8, 0x72u8, 0x3au8] + jar + seq![0x21u8, 0x2fu8] + entry
}

/// Render the URI of an entry inside a jar: `jar:<path>!/<entry>`.
pub fn jar_entry_uri(jar_path: &[u8], entry_name: &[u8]) -> (r: Vec<u8>)
    ensures
        r@ == spec_jar_entry_uri(jar_path@, entry_name@),
{
    let mut v: Vec<u8> = Vec::new();
    v.push(0x6a);
    v.push(0x61);
    v.push(0x72);
    v.push(0x3a);
    v.extend_from_slice(jar_path);
    v.push(0x21);
    v.push(0x2f);
    v.extend_from_slice(entry_name);
    proof {
        assert(v@ =~= spec_jar_entry_uri(jar_path@, entry_name@));
    }
    v
}

/// The largest index at which byte `b` occurs in `p`, or -1.
pub open spec fn spec_rfind(p: Seq<u8>, b: u8) -> int
    decreases p.len(),
{
    if p.len() == 0 {
        -1
    } else if p.last() == b {
        p.len() - 1
    } else {
        spec_rfind(p.drop_last(), b)
    }
}

/// `spec_rfind` finds the last occurrence.
proof fn lemma_rfind_at(p: Seq<u8>, b: u8, j: int)
    requires
        0 <= j < p.len(),
        p[j] == b,
        forall|k: int| j < k < p.len() ==> p[k] != b,
    ensures
        spec_rfind(p, b) == j,
    decreases p.len(),
{
    if j == p.len() - 1 {
    } else {
        assert(p.last() != b);
        let q = p.drop_last();
        assert(q[j] == b);
        lemma_rfind_at(q, b, j);
    }
}

/// `spec_rfind` misses nothing.
proof fn lemma_rfind_absent(p: Seq<u8>, b: u8)
    requires
        forall|k: int| 0 <= k < p.len() ==> p[k] != b,
    ensures
        spec_rfind(p, b) == -1,
    decreases p.len(),
{
    if p.len() > 0 {
        lemma_rfind_absent(p.drop_last(), b);
    }
}

/// Find the last occurrence of byte `b` in `p`.
fn rfind(p: &[u8], b: u8) -> (r: Option<usize>)
    ensures
        match r {
            Some(i) => i < p@.len() && spec_rfind(p@, b) == i as int,
            None => spec_rfind(p@, b) == -1,
        },
{
    let mut j: usize = p.len();
    while j > 0
        invariant
            j <= p@.len(),
            forall|k: int| j <= k < p@.len() ==> p@[k] != b,
        decreases j,
    {
        j = j - 1;
        if p[j] == b {
            proof {
                lemma_rfind_at(p@, b, j as int);
            }
            return Some(j);
        }
    }
    proof {
        lemma_rfind_absent(p@, b);
    }
    None
}

/// One of the three bytes of a `jar` extension, case-insensitively.
pub open spec fn spec_jar_byte(x: u8, lower: u8, upper: u8) -> bool {
    x == lower || x == upper
}

/// The path names a jar file: its file name has an extension (a final dot
/// that is not the name's first character) spelling `jar` in any case.
pub open spec fn spec_is_jar_path(p: Seq<u8>) -> bool {
    let d = spec_rfind(p, 0x2e);
    let s = spec_rfind(p, SEP);
    &&& d >= 0
    &&& d > s + 1
    &&& p.len() == d + 4
    &&& spec_jar_byte(p[d + 1], 0x6a, 0x4a)
    &&& spec_jar_byte(p[d + 2], 0x61, 0x41)
    &&& spec_jar_byte(p[d + 3], 0x72, 0x52)
}

/// Whether a path names a jar file, by its extension, case-insensitively.
pub fn is_jar_path(path: &[u8]) -> (r: bool)
    ensures
        r == spec_is_jar_path(path@),
{
    let d = match rfind(path, 0x2e) {
        None => {
            return false;
        },
        Some(d) => d,
    };
    let far_enough: bool = match rfind(path, SEP) {
        None => d >= 1,
        Some(s) => s < d && d - s >= 2,
    };
    if !far_enough {
        return false;
    }
    if path.len() - d != 4 {
        return false;
    }
    let b1 = path[d + 1];
    let b2 = path[d + 2];
    let b3 = path[d + 3];
    (b1 == 0x6a || b1 == 0x4a) && (b2 == 0x61 || b2 == 0x41) && (b3 == 0x72 || b3 == 0x52)
}

/// The directory part of a path: everything before the last separator
/// (just the root when the separator leads), empty when there is none.
pub open spec fn spec_parent_dir(p: Seq<u8>) -> Seq<u8> {
    let s = spec_rfind(p, SEP);
    if s < 0 {
        Seq::empty()
    } else if s == 0 {
        seq![SEP]
    } else {
        p.take(s)
    }
}

/// Resolve a relative path against a base directory: an empty base leaves
/// it alone, a base ending in a separator is prefixed as is, any other
/// base gets a separator in between.
pub open spec fn spec_join_path(base: Seq<u8>, rel: Seq<u8>) -> Seq<u8> {
    if base.len() == 0 {
        rel
    } else if base.last() == SEP {
        base + rel
    } else {
        base + seq![SEP] + rel
    }
}

/// Resolve one manifest classpath entry against the jar's directory: an
/// absolute entry stands alone, a relative one is joined to the directory.
pub open spec fn spec_resolve_entry(jar: Seq<u8>, entry: Seq<u8>) -> Seq<u8> {
    if entry.len() > 0 && entry[0] == SEP {
        entry
    } else {
        spec_join_path(spec_parent_dir(jar), entry)
    }
}

/// Resolve one manifest classpath entry against the jar's directory.
fn resolve_entry(jar_path: &[u8], entry: &[u8]) -> (r: Vec<u8>)
    ensures
        r@ == spec_resolve_entry(jar_path@, entry@),
{
    if entry.len() > 0 && entry[0] == SEP {
        return vstd::slice::slice_to_vec(entry);
    }
    let mut base: Vec<u8> = match rfind(jar_path, SEP) {
        None => Vec::new(),
        Some(s) => {
            if s == 0 {
                let mut v: Vec<u8> = Vec::new();
                v.push(SEP);
                proof {
                    assert(v@ =~= seq![SEP]);
                }
                v
            } else {
                vstd::slice::slice_to_vec(vstd::slice::slice_subrange(jar_path, 0, s))
            }
        },
    };
    proof {
        assert(base@ == spec_parent_dir(jar_path@));
    }
    if base.len() == 0 {
        return vstd::slice::slice_to_vec(entry);
    }
    let needs_sep: bool = base[base.len() - 1] != SEP;
    if needs_sep {
        base.push(SEP);
    }
    base.extend_from_slice(entry);
    proof {
        assert(base@ =~= spec_resolve_entry(jar_path@, entry@));
    }
    base
}

// ---------------------------------------------------------------------------
// The manifest Class-Path attribute
// ---------------------------------------------------------------------------

/// ASCII whitespace.
pub open spec fn spec_is_ws(b: u8) -> bool {
    b == 0x20 || b == 0x09 || b == 0x0a || b == 0x0b || b == 0x0c || b == 0x0d
}

/// The smallest index at which byte `b` occurs in `p`, or -1.
pub open spec fn spec_find(p: Seq<u8>, b: u8) -> int
    decreases p.len(),
{
    if p.len() == 0 {
        -1
    } else if p[0] == b {
        0
    } else {
        let r = spec_find(p.drop_first(), b);
        if r < 0 {
            -1
        } else {
            r + 1
        }
    }
}

/// `spec_find` finds the first occurrence.
proof fn lemma_find_at(p: Seq<u8>, b: u8, j: int)
    requires
        0 <= j < p.len(),
        p[j] == b,
        forall|k: int| 0 <= k < j ==> p[k] != b,
    ensures
        spec_find(p, b) == j,
    decreases j,
{
    if j > 0 {
        lemma_find_at(p.drop_first(), b, j - 1);
    }
}

/// `spec_find` misses nothing.
proof fn lemma_find_absent(p: Seq<u8>, b: u8)
    requires
        forall|k: int| 0 <= k < p.len() ==> p[k] != b,
    ensures
        spec_find(p, b) == -1,
    decreases p.len(),
{
    if p.len() > 0 {
        lemma_find_absent(p.drop_first(), b);
    }
}

/// Find the first occurrence of byte `b` in `p`.
fn find_byte(p: &[u8], b: u8) -> (r: Option<usize>)
    ensures
        match r {
            Some(i) => i < p@.len() && spec_find(p@, b) == i as int,
            None => spec_find(p@, b) == -1,
        },
{
    let mut j: usize = 0;
    while j < p.len()
        invariant
            j <= p@.len(),
            forall|k: int| 0 <= k < j ==> p@[k] != b,
        decreases p@.len() - j,
    {
        if p[j] == b {
            proof {
                lemma_find_at(p@, b, j as int);
            }
            return Some(j);
        }
        j = j + 1;
    }
    proof {
        lemma_find_absent(p@, b);
    }
    None
}

/// The manifest text split at newlines, a trailing final newline producing
/// no empty last line.
pub open spec fn spec_lines(b: Seq<u8>) -> Seq<Seq<u8>>
    decreases b.len(),
{
    if b.len() == 0 {
        Seq::empty()
    } else {
        let i = spec_find(b, 0x0a);
        if i < 0 || i >= b.len() {
            seq![b]
        } else {
            seq![b.take(i)] + spec_lines(b.skip(i + 1))
        }
    }
}

/// A line with every trailing carriage return removed.
pub open spec fn spec_strip_cr(l: Seq<u8>) -> Seq<u8>
    decreases l.len(),
{
    if l.len() > 0 && l.last() == 0x0d {
        spec_strip_cr(l.drop_last())
    } else {
        l
    }
}

/// `spec_strip_cr` keeps exactly the prefix before the trailing returns.
proof fn lemma_strip_cr_at(l: Seq<u8>, e: int)
    requires
        0 <= e <= l.len(),
        forall|k: int| e <= k < l.len() ==> l[k] == 0x0d,
        e == 0 || l[e - 1] != 0x0d,
    ensures
        spec_strip_cr(l) == l.take(e),
    decreases l.len(),
{
    if l.len() > 0 && l.last() == 0x0d {
        lemma_strip_cr_at(l.drop_last(), e);
        assert(l.drop_last().take(e) =~= l.take(e));
    } else {
        assert(l.take(l.len() as int) =~= l);
    }
}

/// A sequence with its leading whitespace removed.
pub open spec fn spec_trim_start(l: Seq<u8>) -> Seq<u8>
    decreases l.len(),
{
    if l.len() > 0 && spec_is_ws(l[0]) {
        spec_trim_start(l.drop_first())
    } else {
        l
    }
}

/// A sequence with its trailing whitespace removed.
pub open spec fn spec_trim_end(l: Seq<u8>) -> Seq<u8>
    decreases l.len(),
{
    if l.len() > 0 && spec_is_ws(l.last()) {
        spec_trim_end(l.drop_last())
    } else {
        l
    }
}

/// A sequence with whitespace removed at both ends.
pub open spec fn spec_trim(l: Seq<u8>) -> Seq<u8> {
    spec_trim_start(spec_trim_end(l))
}

/// `spec_trim_start` skips exactly the leading whitespace.
proof fn lemma_trim_start_at(l: Seq<u8>, a: int)
    requires
        0 <= a <= l.len(),
        forall|k: int| 0 <= k < a ==> spec_is_ws(l[k]),
        a == l.len() || !spec_is_ws(l[a]),
    ensures
        spec_trim_start(l) == l.skip(a),
    decreases a,
{
    if a == 0 {
        assert(l.skip(0) =~= l);
    } else {
        let t = l.drop_first();
        assert forall|k: int| 0 <= k < a - 1 implies spec_is_ws(t[k]) by {
            assert(t[k] == l[k + 1]);
        }
        if a - 1 < t.len() {
            assert(t[a - 1] == l[a as int]);
        }
        lemma_trim_start_at(t, a - 1);
        assert(t.skip(a - 1) =~= l.skip(a));
    }
}

/// `spec_trim_end` drops exactly the trailing whitespace.
proof fn lemma_trim_end_at(l: Seq<u8>, e: int)
    requires
        0 <= e <= l.len(),
        forall|k: int| e <= k < l.len() ==> spec_is_ws(l[k]),
        e == 0 || !spec_is_ws(l[e - 1]),
    ensures
        spec_trim_end(l) == l.take(e),
    decreases l.len(),
{
    if l.len() > 0 && spec_is_ws(l.last()) {
        lemma_trim_end_at(l.drop_last(), e);
        assert(l.drop_last().take(e) =~= l.take(e));
    } else {
        assert(l.take(l.len() as int) =~= l);
    }
}

/// Remove the leading whitespace of a slice.
fn trim_start_ws(p: &[u8]) -> (r: &[u8])
    ensures
        r@ == spec_trim_start(p@),
{
    let mut a: usize = 0;
    while a < p.len() && (p[a] == 0x20 || p[a] == 0x09 || p[a] == 0x0a || p[a] == 0x0b || p[a]
        == 0x0c || p[a] == 0x0d)
        invariant
            a <= p@.len(),
            forall|k: int| 0 <= k < a ==> spec_is_ws(p@[k]),
        decreases p@.len() - a,
    {
        a = a + 1;
    }
    proof {
        lemma_trim_start_at(p@, a as int);
    }
    vstd::slice::slice_subrange(p, a, p.len())
}

/// Remove the trailing whitespace of a slice.
fn trim_end_ws(p: &[u8]) -> (r: &[u8])
    ensures
        r@ == spec_trim_end(p@),
{
    let mut e: usize = p.len();
    while e > 0 && (p[e - 1] == 0x20 || p[e - 1] == 0x09 || p[e - 1] == 0x0a || p[e - 1] == 0x0b
        || p[e - 1] == 0x0c || p[e - 1] == 0x0d)
        invariant
            e <= p@.len(),
            forall|k: int| e <= k < p@.len() ==> spec_is_ws(p@[k]),
        decreases e,
    {
        e = e - 1;
    }
    proof {
        lemma_trim_end_at(p@, e as int);
    }
    vstd::slice::slice_subrange(p, 0, e)
}

/// Remove the whitespace at both ends of a slice.
fn trim_ws(p: &[u8]) -> (r: &[u8])
    ensures
        r@ == spec_trim(p@),
{
    trim_start_ws(trim_end_ws(p))
}

/// The bytes of the manifest attribute name `Class-Path`.
pub open spec fn spec_class_path_key() -> Seq<u8> {
    seq![0x43u8, 0x6cu8, 0x61u8, 0x73u8, 0x73u8, 0x2du8, 0x50u8, 0x61u8, 0x74u8, 0x68u8]
}

/// Whether a trimmed attribute key spells `Class-Path`.
fn is_class_path_key(k: &[u8]) -> (r: bool)
    ensures
        r == (k@ == spec_class_path_key()),
{
    if k.len() != 10 {
        proof {
            assert(spec_class_path_key().len() == 10);
        }
        return false;
    }
    let r = k[0] == 0x43 && k[1] == 0x6c && k[2] == 0x61 && k[3] == 0x73 && k[4] == 0x73 && k[5]
        == 0x2d && k[6] == 0x50 && k[7] == 0x61 && k[8] == 0x74 && k[9] == 0x68;
    proof {
        if r {
            assert(k@ =~= spec_class_path_key());
        }
        if k@ == spec_class_path_key() {
            assert(k@[0] == 0x43 && k@[1] == 0x6c && k@[2] == 0x61 && k@[3] == 0x73 && k@[4]
                == 0x73 && k@[5] == 0x2d && k@[6] == 0x50 && k@[7] == 0x61 && k@[8] == 0x74 && k@[9]
                == 0x68);
        }
    }
    r
}

/// The attribute reader's state between manifest lines: the key being
/// read, its value gathered so far across continuation lines, and the
/// Class-Path value once that attribute has been finished.
#[verifier::ext_equal]
pub ghost struct ManifestState {
    pub key: Option<Seq<u8>>,
    pub val: Seq<u8>,
    pub cp: Option<Seq<u8>>,
}

/// One manifest line applied to the reader's state: a line starting with a
/// space continues the current value; any other line finishes the current
/// attribute (recording it when its key is `Class-Path`) and, when it has
/// a colon, starts the next attribute.
pub open spec fn spec_manifest_step(st: ManifestState, raw: Seq<u8>) -> ManifestState {
    let line = spec_strip_cr(raw);
    if line.len() > 0 && line[0] == 0x20 {
        if st.key is Some {
            ManifestState { key: st.key, val: st.val + line.skip(1), cp: st.cp }
        } else {
            st
        }
    } else {
        let flushed = match st.key {
            Some(k) => ManifestState {
                key: None,
                val: Seq::empty(),
                cp: if k == spec_class_path_key() {
                    Some(st.val)
                } else {
                    st.cp
                },
            },
            None => st,
        };
        let c = spec_find(line, 0x3a);
        if c >= 0 {
            ManifestState {
                key: Some(spec_trim(line.take(c))),
                val: flushed.val + spec_trim_start(line.skip(c + 1)),
                cp: flushed.cp,
            }
        } else {
            flushed
        }
    }
}

/// The reader's state after the first `n` manifest lines.
pub open spec fn spec_manifest_fold(lines: Seq<Seq<u8>>, n: int) -> ManifestState
    decreases n,
{
    if n <= 0 {
        ManifestState { key: None, val: Seq::empty(), cp: None }
    } else {
        spec_manifest_step(spec_manifest_fold(lines, n - 1), lines[n - 1])
    }
}

/// The manifest's `Class-Path` attribute value, if the manifest has one.
pub open spec fn spec_class_path_value(content: Seq<u8>) -> Option<Seq<u8>> {
    let lines = spec_lines(content);
    let st = spec_manifest_fold(lines, lines.len() as int);
    match st.key {
        Some(k) => if k == spec_class_path_key() {
            Some(st.val)
        } else {
            st.cp
        },
        None => st.cp,
    }
}

/// The length of the whitespace-free token at the head of `b`.
pub open spec fn spec_token_end(b: Seq<u8>) -> int
    decreases b.len(),
{
    if b.len() == 0 || spec_is_ws(b[0]) {
        0
    } else {
        1 + spec_token_end(b.drop_first())
    }
}

/// `spec_token_end` is the longest whitespace-free prefix.
proof fn lemma_token_end_at(b: Seq<u8>, e: int)
    requires
        0 <= e <= b.len(),
        forall|k: int| 0 <= k < e ==> !spec_is_ws(b[k]),
        e == b.len() || spec_is_ws(b[e]),
    ensures
        spec_token_end(b) == e,
    decreases e,
{
    if e > 0 {
        let t = b.drop_first();
        assert forall|k: int| 0 <= k < e - 1 implies !spec_is_ws(t[k]) by {
            assert(t[k] == b[k + 1]);
        }
        if e - 1 < t.len() {
            assert(t[e - 1] == b[e as int]);
        }
        lemma_token_end_at(t, e - 1);
    }
}

/// The whitespace-separated tokens of a byte sequence, in order.
pub open spec fn spec_tokens(b: Seq<u8>) -> Seq<Seq<u8>>
    decreases b.len(),
{
    if b.len() == 0 {
        Seq::empty()
    } else if spec_is_ws(b[0]) {
        spec_tokens(b.drop_first())
    } else {
        let e = spec_token_end(b);
        if e < 1 || e > b.len() {
            seq![b]
        } else {
            seq![b.take(e)] + spec_tokens(b.skip(e))
        }
    }
}

/// Split a byte sequence into its whitespace-separated tokens.
fn split_tokens(b: &[u8]) -> (r: Vec<Vec<u8>>)
    ensures
        r.deep_view() == spec_tokens(b@),
{
    broadcast use crate::bytestr::lemma_vec_u8_deep_view;

    let mut out: Vec<Vec<u8>> = Vec::new();
    let mut pos: usize = 0;
    proof {
        assert(b@.skip(0) =~= b@);
        assert(out.deep_view() + spec_tokens(b@) =~= spec_tokens(b@));
    }
    while pos < b.len()
        invariant
            pos <= b@.len(),
            spec_tokens(b@) == out.deep_view() + spec_tokens(b@.skip(pos as int)),
        decreases b@.len() - pos,
    {
        let ghost pre = out.deep_view();
        let c = b[pos];
        if c == 0x20 || c == 0x09 || c == 0x0a || c == 0x0b || c == 0x0c || c == 0x0d {
            proof {
                assert(b@.skip(pos as int).drop_first() =~= b@.skip(pos + 1));
            }
            pos = pos + 1;
        } else {
            let mut e: usize = pos;
            while e < b.len() && !(b[e] == 0x20 || b[e] == 0x09 || b[e] == 0x0a || b[e] == 0x0b
                || b[e] == 0x0c || b[e] == 0x0d)
                invariant
                    pos <= e <= b@.len(),
                    forall|k: int| pos <= k < e ==> !spec_is_ws(b@[k]),
                decreases b@.len() - e,
            {
                e = e + 1;
            }
            let ghost rem = b@.skip(pos as int);
            proof {
                assert forall|k: int| 0 <= k < e - pos implies !spec_is_ws(rem[k]) by {
                    assert(rem[k] == b@[pos + k]);
                }
                if (e - pos) < rem.len() {
                    assert(rem[e - pos] == b@[e as int]);
                }
                lemma_token_end_at(rem, e - pos);
            }
            let tok = vstd::slice::slice_to_vec(vstd::slice::slice_subrange(b, pos, e));
            out.push(tok);
            proof {
                assert(!spec_is_ws(rem[0]));
                assert(spec_token_end(rem) >= 1);
                assert(rem.take(e - pos) =~= b@.subrange(pos as int, e as int));
                assert(out.deep_view() =~= pre.push(rem.take(e - pos)));
                assert(rem.skip(e - pos) =~= b@.skip(e as int));
                assert(spec_tokens(rem) == seq![rem.take(e - pos)] + spec_tokens(rem.skip(e - pos)));
                assert(pre.push(rem.take(e - pos)) + spec_tokens(b@.skip(e as int)) =~= pre + (seq![
                    rem.take(e - pos),
                ] + spec_tokens(rem.skip(e - pos))));
            }
            pos = e;
        }
    }
    proof {
        assert(b@.skip(b@.len() as int) =~= Seq::<u8>::empty());
        assert(out.deep_view() + Seq::<Seq<u8>>::empty() =~= out.deep_view());
    }
    out
}

/// Split the manifest text at newlines, stripping no bytes yet.
fn split_lines(content: &[u8]) -> (r: Vec<Vec<u8>>)
    ensures
        r.deep_view() == spec_lines(content@),
{
    broadcast use crate::bytestr::lemma_vec_u8_deep_view;

    let mut out: Vec<Vec<u8>> = Vec::new();
    let mut pos: usize = 0;
    proof {
        assert(content@.skip(0) =~= content@);
        assert(out.deep_view() + spec_lines(content@) =~= spec_lines(content@));
    }
    while pos < content.len()
        invariant
            pos <= content@.len(),
            spec_lines(content@) == out.deep_view() + spec_lines(content@.skip(pos as int)),
        decreases content@.len() - pos,
    {
        let ghost pre = out.deep_view();
        let ghost rem = content@.skip(pos as int);
        let remsl = vstd::slice::slice_subrange(content, pos, content.len());
        proof {
            assert(remsl@ =~= rem);
        }
        match find_byte(remsl, 0x0a) {
            None => {
                out.push(vstd::slice::slice_to_vec(remsl));
                proof {
                    assert(spec_lines(rem) == seq![rem]);
                    assert(out.deep_view() =~= pre.push(rem));
                    assert(pre.push(rem) =~= pre + seq![rem]);
                    assert(content@.skip(content@.len() as int) =~= Seq::<u8>::empty());
                }
                pos = content.len();
            },
            Some(i) => {
                out.push(vstd::slice::slice_to_vec(vstd::slice::slice_subrange(remsl, 0, i)));
                proof {
                    assert(spec_lines(rem) == seq![rem.take(i as int)] + spec_lines(
                        rem.skip(i + 1),
                    ));
                    assert(out.deep_view() =~= pre.push(rem.take(i as int)));
                    assert(rem.skip(i + 1) =~= content@.skip(pos + i + 1));
                    assert(pre.push(rem.take(i as int)) + spec_lines(content@.skip(pos + i + 1))
                        =~= pre + (seq![rem.take(i as int)] + spec_lines(rem.skip(i + 1))));
                }
                pos = pos + i + 1;
            },
        }
    }
    proof {
        assert(content@.skip(content@.len() as int) =~= Seq::<u8>::empty());
        assert(out.deep_view() + Seq::<Seq<u8>>::empty() =~= out.deep_view());
    }
    out
}

/// The manifest's Class-Path entries resolved against the jar's directory,
/// in declaration order; empty when the manifest has no such attribute.
pub open spec fn spec_manifest_classpath(jar: Seq<u8>, content: Seq<u8>) -> Seq<Seq<u8>> {
    match spec_class_path_value(content) {
        None => Seq::empty(),
        Some(v) => spec_tokens(v).map_values(|t: Seq<u8>| spec_resolve_entry(jar, t)),
    }
}

/// Read the `Class-Path` attribute out of a jar manifest's text and
/// resolve each entry against the jar's own directory. Attribute values
/// may span continuation lines (a leading space); entries are separated by
/// whitespace; absolute entries stand alone.
pub fn parse_manifest_classpath(jar_path: &[u8], content: &[u8]) -> (r: Vec<Vec<u8>>)
    ensures
        r.deep_view() == spec_manifest_classpath(jar_path@, content@),
{
    broadcast use crate::bytestr::lemma_vec_u8_deep_view;

    let lines = split_lines(content);
    let ghost ldv = lines.deep_view();
    let mut key: Option<Vec<u8>> = None;
    let mut val: Vec<u8> = Vec::new();
    let mut cp: Option<Vec<u8>> = None;
    let mut li: usize = 0;
    while li < lines.len()
        invariant
            li <= ldv.len(),
            ldv == lines.deep_view(),
            key.deep_view() == spec_manifest_fold(ldv, li as int).key,
            val@ == spec_manifest_fold(ldv, li as int).val,
            cp.deep_view() == spec_manifest_fold(ldv, li as int).cp,
        decreases ldv.len() - li,
    {
        let raw = lines[li].as_slice();
        proof {
            assert(raw@ == ldv[li as int]);
        }
        let mut e: usize = raw.len();
        while e > 0 && raw[e - 1] == 0x0d
            invariant
                e <= raw@.len(),
                forall|k: int| e <= k < raw@.len() ==> raw@[k] == 0x0d,
            decreases e,
        {
            e = e - 1;
        }
        proof {
            lemma_strip_cr_at(raw@, e as int);
        }
        let line = vstd::slice::slice_subrange(raw, 0, e);
        if line.len() > 0 && line[0] == 0x20 {
            match &key {
                Some(k) => {
                    val.extend_from_slice(vstd::slice::slice_subrange(line, 1, line.len()));
                    proof {
                        assert(line@.subrange(1, line@.len() as int) =~= spec_strip_cr(
                            ldv[li as int],
                        ).skip(1));
                    }
                },
                None => {},
            }
        } else {
            let mut was_cp: bool = false;
            match &key {
                Some(k) => {
                    if is_class_path_key(k.as_slice()) {
                        was_cp = true;
                    }
                },
                None => {},
            }
            match &key {
                Some(k) => {
                    if was_cp {
                        cp = Some(val);
                    }
                    val = Vec::new();
                    key = None;
                },
                None => {},
            }
            match find_byte(line, 0x3a) {
                Some(c) => {
                    let kslice = trim_ws(vstd::slice::slice_subrange(line, 0, c));
                    key = Some(vstd::slice::slice_to_vec(kslice));
                    let vslice = trim_start_ws(
                        vstd::slice::slice_subrange(line, c + 1, line.len()),
                    );
                    val.extend_from_slice(vslice);
                    proof {
                        assert(line@.subrange(0, c as int) =~= spec_strip_cr(
                            ldv[li as int],
                        ).take(c as int));
                        assert(line@.subrange(c + 1, line@.len() as int) =~= spec_strip_cr(
                            ldv[li as int],
                        ).skip(c + 1));
                    }
                },
                None => {},
            }
        }
        proof {
            let stp = spec_manifest_step(spec_manifest_fold(ldv, li as int), ldv[li as int]);
            assert(key.deep_view() == stp.key);
            assert(val@ =~= stp.val);
            assert(cp.deep_view() == stp.cp);
        }
        li = li + 1;
    }
    let use_val: bool = match &key {
        Some(k) => is_class_path_key(k.as_slice()),
        None => false,
    };
    proof {
        let st = spec_manifest_fold(ldv, ldv.len() as int);
        assert(spec_lines(content@) == ldv);
        if use_val {
            assert(spec_class_path_value(content@) == Some(st.val));
        } else {
            assert(spec_class_path_value(content@) == st.cp);
        }
    }
    let value: Vec<u8> = if use_val {
        val
    } else {
        match cp {
            Some(v) => v,
            None => {
                let empty_out: Vec<Vec<u8>> = Vec::new();
                proof {
                    assert(empty_out.deep_view() =~= Seq::<Seq<u8>>::empty());
                }
                return empty_out;
            },
        }
    };
    proof {
        assert(spec_class_path_value(content@) == Some(value@));
    }
    let toks = split_tokens(value.as_slice());
    let ghost tdv = toks.deep_view();
    let mut out: Vec<Vec<u8>> = Vec::new();
    let mut ti: usize = 0;
    while ti < toks.len()
        invariant
            ti <= tdv.len(),
            tdv == toks.deep_view(),
            out.deep_view() == tdv.take(ti as int).map_values(
                |t: Seq<u8>| spec_resolve_entry(jar_path@, t),
            ),
        decreases tdv.len() - ti,
    {
        let ghost pre = out.deep_view();
        let resolved = resolve_entry(jar_path, toks[ti].as_slice());
        out.push(resolved);
        proof {
            assert(tdv.take(ti + 1) =~= tdv.take(ti as int).push(tdv[ti as int]));
            crate::cfg::lemma_map_push(
                tdv.take(ti as int),
                |t: Seq<u8>| spec_resolve_entry(jar_path@, t),
                tdv[ti as int],
            );
            assert(out.deep_view() =~= pre.push(spec_resolve_entry(jar_path@, tdv[ti as int])));
        }
        ti = ti + 1;
    }
    proof {
        assert(tdv.take(tdv.len() as int) =~= tdv);
    }
    out
}

// ---------------------------------------------------------------------------
// Classpath expansion
// ---------------------------------------------------------------------------

/// The work-list state of a classpath expansion: entries waiting to be
/// probed, the entries already taken, and the expansion in first-seen
/// order. The caller does the outside work between steps — checking that
/// an entry exists and reading a jar manifest's classpath — and feeds what
/// it finds back in; a missing entry aborts the whole expansion, so the
/// state is then discarded.
pub struct ExpandState {
    pub queue: Vec<Vec<u8>>,
    pub seen: Vec<Vec<u8>>,
    pub result: Vec<Vec<u8>>,
}

/// Whether the list holds the byte string `x`.
fn contains_bytes(v: &Vec<Vec<u8>>, x: &[u8]) -> (r: bool)
    ensures
        r == byte_list_set(v.deep_view()).contains(x@),
{
    broadcast use crate::bytestr::lemma_vec_u8_deep_view;

    let mut i: usize = 0;
    while i < v.len()
        invariant
            i <= v@.len(),
            forall|k: int| 0 <= k < i ==> v.deep_view()[k] != x@,
        decreases v@.len() - i,
    {
        if crate::bytestr::bytes_eq(v[i].as_slice(), x) {
            proof {
                assert(v.deep_view()[i as int] == x@);
            }
            return true;
        }
        proof {
            assert(v.deep_view()[i as int] == v@[i as int]@);
        }
        i = i + 1;
    }
    proof {
        assert forall|k: int| 0 <= k < v.deep_view().len() implies v.deep_view()[k] != x@ by {}
    }
    false
}

/// Sort a list of byte strings ascending and drop duplicates.
fn sort_unique_bytes(items: &Vec<Vec<u8>>) -> (r: Vec<Vec<u8>>)
    ensures
        spec_sorted_bytes(r.deep_view()),
        byte_list_set(r.deep_view()) == byte_list_set(items.deep_view()),
{
    broadcast use crate::bytestr::lemma_vec_u8_deep_view;

    let ghost idv = items.deep_view();
    let mut out: Vec<Vec<u8>> = Vec::new();
    proof {
        assert(byte_list_set(out.deep_view()) =~= byte_list_set(idv.take(0)));
    }
    let mut i: usize = 0;
    while i < items.len()
        invariant
            i <= idv.len(),
            idv == items.deep_view(),
            spec_sorted_bytes(out.deep_view()),
            byte_list_set(out.deep_view()) == byte_list_set(idv.take(i as int)),
        decreases idv.len() - i,
    {
        let entry = vstd::slice::slice_to_vec(items[i].as_slice());
        proof {
            assert(entry@ == idv[i as int]);
        }
        insert_bytes_sorted(&mut out, entry);
        proof {
            assert(idv.take(i + 1) =~= idv.take(i as int).push(idv[i as int]));
            crate::bytestr::lemma_byte_list_set_push(idv.take(i as int), idv[i as int]);
        }
        i = i + 1;
    }
    proof {
        assert(idv.take(idv.len() as int) =~= idv);
    }
    out
}

/// Begin expanding a classpath: the initial entries wait in the queue,
/// sorted and deduplicated; nothing is seen or resolved yet.
pub fn expand_classpath(initial: Vec<Vec<u8>>) -> (st: ExpandState)
    ensures
        spec_sorted_bytes(st.queue.deep_view()),
        byte_list_set(st.queue.deep_view()) == byte_list_set(initial.deep_view()),
        st.seen@.len() == 0,
        st.result@.len() == 0,
{
    let queue = sort_unique_bytes(&initial);
    ExpandState { queue: queue, seen: Vec::new(), result: Vec::new() }
}

/// Take the next entry not yet seen off the queue, mark it seen and append
/// it to the expansion; entries already seen are dropped in passing. The
/// caller then probes the returned entry and, for a jar, feeds its
/// manifest classpath back through `expand_absorb`.
pub fn expand_next(st: &mut ExpandState) -> (r: Option<Vec<u8>>)
    ensures
        match r {
            Some(e) => {
                &&& !byte_list_set(old(st).seen.deep_view()).contains(e@)
                &&& byte_list_set(old(st).queue.deep_view()).contains(e@)
                &&& final(st).result.deep_view() == old(st).result.deep_view().push(e@)
                &&& byte_list_set(final(st).seen.deep_view()) == byte_list_set(
                    old(st).seen.deep_view(),
                ).insert(e@)
                &&& exists|k: int|
                    0 <= k < old(st).queue.deep_view().len() && old(st).queue.deep_view()[k] == e@
                        && final(st).queue.deep_view() == old(st).queue.deep_view().skip(k + 1)
                        && (forall|i: int|
                        0 <= i < k ==> byte_list_set(old(st).seen.deep_view()).contains(
                            #[trigger] old(st).queue.deep_view()[i],
                        ))
            },
            None => {
                &&& final(st).queue@.len() == 0
                &&& final(st).seen.deep_view() == old(st).seen.deep_view()
                &&& final(st).result.deep_view() == old(st).result.deep_view()
                &&& forall|i: int|
                    0 <= i < old(st).queue.deep_view().len() ==> byte_list_set(
                        old(st).seen.deep_view(),
                    ).contains(#[trigger] old(st).queue.deep_view()[i])
            },
        },
{
    broadcast use crate::bytestr::lemma_vec_u8_deep_view;

    let ghost oq = old(st).queue.deep_view();
    let ghost mut j: int = 0;
    while st.queue.len() > 0
        invariant
            0 <= j <= oq.len(),
            st.queue.deep_view() == oq.skip(j),
            st.seen.deep_view() == old(st).seen.deep_view(),
            st.result.deep_view() == old(st).result.deep_view(),
            forall|i: int|
                0 <= i < j ==> byte_list_set(old(st).seen.deep_view()).contains(
                    #[trigger] oq[i],
                ),
        decreases st.queue@.len(),
    {
        let ghost qpre = st.queue.deep_view();
        let e = st.queue.remove(0);
        proof {
            assert(st.queue.deep_view() =~= qpre.skip(1));
            assert(qpre.skip(1) =~= oq.skip(j + 1));
            assert(e@ == qpre[0]);
            assert(qpre[0] == oq[j]);
        }
        let already = contains_bytes(&st.seen, e.as_slice());
        if !already {
            let ghost spre = st.seen.deep_view();
            let ghost rpre = st.result.deep_view();
            let copy1 = vstd::slice::slice_to_vec(e.as_slice());
            let copy2 = vstd::slice::slice_to_vec(e.as_slice());
            st.seen.push(copy1);
            st.result.push(copy2);
            proof {
                assert(st.seen.deep_view() =~= spre.push(e@));
                assert(st.result.deep_view() =~= rpre.push(e@));
                crate::bytestr::lemma_byte_list_set_push(spre, e@);
                assert(oq[j] == e@);
                assert(byte_list_set(oq).contains(e@));
                assert(0 <= j < oq.len() && oq[j] == e@ && st.queue.deep_view() == oq.skip(j + 1)
                    && (forall|i: int|
                    0 <= i < j ==> byte_list_set(old(st).seen.deep_view()).contains(
                        #[trigger] oq[i],
                    )));
            }
            return Some(e);
        }
        proof {
            j = j + 1;
        }
    }
    proof {
        assert(st.queue.deep_view().len() == 0);
        assert(j == oq.len());
    }
    None
}

/// Queue the classpath entries a jar's manifest references, sorted and
/// deduplicated, behind everything already waiting.
pub fn expand_absorb(st: &mut ExpandState, refs: Vec<Vec<u8>>)
    ensures
        final(st).seen.deep_view() == old(st).seen.deep_view(),
        final(st).result.deep_view() == old(st).result.deep_view(),
        exists|s: Seq<Seq<u8>>|
            final(st).queue.deep_view() == old(st).queue.deep_view() + s && spec_sorted_bytes(s)
                && byte_list_set(s) == byte_list_set(refs.deep_view()),
{
    broadcast use crate::bytestr::lemma_vec_u8_deep_view;

    let sorted = sort_unique_bytes(&refs);
    let ghost sdv = sorted.deep_view();
    let ghost oq = old(st).queue.deep_view();
    let mut i: usize = 0;
    while i < sorted.len()
        invariant
            i <= sdv.len(),
            sdv == sorted.deep_view(),
            st.queue.deep_view() == oq + sdv.take(i as int),
            st.seen.deep_view() == old(st).seen.deep_view(),
            st.result.deep_view() == old(st).result.deep_view(),
        decreases sdv.len() - i,
    {
        let ghost qpre = st.queue.deep_view();
        let entry = vstd::slice::slice_to_vec(sorted[i].as_slice());
        st.queue.push(entry);
        proof {
            assert(st.queue.deep_view() =~= qpre.push(sdv[i as int]));
            assert(qpre.push(sdv[i as int]) =~= oq + sdv.take(i + 1));
        }
        i = i + 1;
    }
    proof {
        assert(sdv.take(sdv.len() as int) =~= sdv);
        assert(st.queue.deep_view() == oq + sdv);
    }
}

} // verus!
