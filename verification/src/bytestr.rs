//! Byte-level string utilities: equality and lexicographic order on byte
//! sequences, string equality through UTF-8, and sorted duplicate-free
//! string lists. For UTF-8 text, byte order agrees with code-point order,
//! so these orders match the usual string order.
use vstd::prelude::*;
use vstd::string::StringSliceAdditionalSpecFns;
use vstd::utf8::{encode_utf8, encode_utf8_decode_utf8};

verus! {

/// A byte vector's deep view is its view.
pub broadcast proof fn lemma_vec_u8_deep_view(v: Vec<u8>)
    ensures
        #[trigger] v.deep_view() == v@,
{
    assert(v.deep_view() =~= v@);
}

/// Strict lexicographic order on byte sequences: the empty sequence comes
/// first, otherwise the first differing byte decides.
pub open spec fn spec_bytes_lt(a: Seq<u8>, b: Seq<u8>) -> bool
    decreases a.len(),
{
    if b.len() == 0 {
        false
    } else if a.len() == 0 {
        true
    } else if a[0] < b[0] {
        true
    } else if a[0] > b[0] {
        false
    } else {
        spec_bytes_lt(a.drop_first(), b.drop_first())
    }
}

/// Non-strict lexicographic order on byte sequences.
pub open spec fn spec_bytes_le(a: Seq<u8>, b: Seq<u8>) -> bool {
    a == b || spec_bytes_lt(a, b)
}

/// Lexicographic order on strings: byte order of their UTF-8 encodings,
/// which for UTF-8 equals code-point order.
pub open spec fn spec_str_le(a: Seq<char>, b: Seq<char>) -> bool {
    spec_bytes_le(encode_utf8(a), encode_utf8(b))
}

/// The order is total.
pub proof fn lemma_bytes_lt_total(a: Seq<u8>, b: Seq<u8>)
    ensures
        spec_bytes_lt(a, b) || spec_bytes_lt(b, a) || a == b,
    decreases a.len(),
{
    if a.len() > 0 && b.len() > 0 && a[0] == b[0] {
        lemma_bytes_lt_total(a.drop_first(), b.drop_first());
        if a.drop_first() == b.drop_first() {
            assert(a.len() == b.len());
            assert forall|k: int| 0 <= k < a.len() implies a[k] == b[k] by {
                if k > 0 {
                    assert(a.drop_first()[k - 1] == b.drop_first()[k - 1]);
                }
            }
            assert(a =~= b);
        }
    }
}

/// The order is transitive.
pub proof fn lemma_bytes_lt_trans(a: Seq<u8>, b: Seq<u8>, c: Seq<u8>)
    requires
        spec_bytes_lt(a, b),
        spec_bytes_lt(b, c),
    ensures
        spec_bytes_lt(a, c),
    decreases a.len(),
{
    if a.len() > 0 && b.len() > 0 && c.len() > 0 && a[0] == b[0] && b[0] == c[0] {
        lemma_bytes_lt_trans(a.drop_first(), b.drop_first(), c.drop_first());
    }
}

/// The order is irreflexive, so `lt` both ways is impossible.
pub proof fn lemma_bytes_lt_irrefl(a: Seq<u8>)
    ensures
        !spec_bytes_lt(a, a),
    decreases a.len(),
{
    if a.len() > 0 {
        lemma_bytes_lt_irrefl(a.drop_first());
    }
}

/// The order is asymmetric: `lt` one way rules out `lt` the other way.
pub proof fn lemma_bytes_lt_asym(a: Seq<u8>, b: Seq<u8>)
    requires
        spec_bytes_lt(a, b),
    ensures
        !spec_bytes_lt(b, a),
    decreases a.len(),
{
    if a.len() > 0 && b.len() > 0 && a[0] == b[0] {
        lemma_bytes_lt_asym(a.drop_first(), b.drop_first());
    }
}

/// Skipping an equal prefix does not change the order.
proof fn lemma_bytes_lt_skip(a: Seq<u8>, b: Seq<u8>, i: int)
    requires
        0 <= i <= a.len(),
        i <= b.len(),
        forall|k: int| 0 <= k < i ==> a[k] == b[k],
    ensures
        spec_bytes_lt(a, b) == spec_bytes_lt(a.skip(i), b.skip(i)),
    decreases i,
{
    if i > 0 {
        assert(a.len() > 0 && b.len() > 0 && a[0] == b[0]);
        lemma_bytes_lt_skip(a.drop_first(), b.drop_first(), i - 1);
        assert(a.drop_first().skip(i - 1) =~= a.skip(i));
        assert(b.drop_first().skip(i - 1) =~= b.skip(i));
    } else {
        assert(a.skip(0) =~= a);
        assert(b.skip(0) =~= b);
    }
}

/// Byte-wise equality of two byte slices.
pub fn bytes_eq(a: &[u8], b: &[u8]) -> (r: bool)
    ensures
        r == (a@ == b@),
{
    if a.len() != b.len() {
        return false;
    }
    let mut i: usize = 0;
    while i < a.len()
        invariant
            i <= a@.len(),
            a@.len() == b@.len(),
            forall|k: int| 0 <= k < i ==> a@[k] == b@[k],
        decreases a@.len() - i,
    {
        if a[i] != b[i] {
            return false;
        }
        i = i + 1;
    }
    proof {
        assert(a@ =~= b@);
    }
    true
}

/// Non-strict lexicographic comparison of two byte slices.
pub fn bytes_le(a: &[u8], b: &[u8]) -> (r: bool)
    ensures
        r == spec_bytes_le(a@, b@),
{
    let n: usize = if a.len() < b.len() {
        a.len()
    } else {
        b.len()
    };
    let mut i: usize = 0;
    while i < n && a[i] == b[i]
        invariant
            i <= n,
            n <= a@.len(),
            n <= b@.len(),
            forall|k: int| 0 <= k < i ==> a@[k] == b@[k],
        decreases n - i,
    {
        i = i + 1;
    }
    proof {
        lemma_bytes_lt_skip(a@, b@, i as int);
    }
    if i < a.len() && i < b.len() {
        proof {
            if a@ == b@ {
                assert(a@[i as int] == b@[i as int]);
            }
        }
        a[i] < b[i]
    } else if i >= a.len() {
        proof {
            if a@.len() == b@.len() {
                assert(a@ =~= b@);
            } else {
                assert(b@.skip(i as int).len() > 0);
            }
        }
        true
    } else {
        proof {
            assert(a@.skip(i as int).len() > 0);
            assert(b@.skip(i as int).len() == 0);
        }
        false
    }
}

/// String equality, decided byte-wise on the UTF-8 encodings; equal
/// encodings decode to equal character sequences.
pub fn str_eq(a: &str, b: &str) -> (r: bool)
    ensures
        r == (a@ == b@),
{
    let r = bytes_eq(a.as_bytes(), b.as_bytes());
    proof {
        if a.spec_bytes() == b.spec_bytes() {
            encode_utf8_decode_utf8(a@);
            encode_utf8_decode_utf8(b@);
        }
    }
    r
}

/// Non-strict string comparison in byte order of the UTF-8 encodings.
pub fn str_le(a: &str, b: &str) -> (r: bool)
    ensures
        r == spec_str_le(a@, b@),
{
    bytes_le(a.as_bytes(), b.as_bytes())
}

/// A string list sorted strictly ascending in `spec_str_le` order, hence
/// duplicate-free.
pub open spec fn spec_sorted_strings(s: Seq<Seq<char>>) -> bool {
    forall|i: int, j: int|
        0 <= i < j < s.len() ==> spec_str_le(#[trigger] s[i], #[trigger] s[j]) && s[i] != s[j]
}

/// The character sequences a string list holds, as a set.
pub open spec fn str_view_set(s: Seq<Seq<char>>) -> Set<Seq<char>> {
    Set::new(|x: Seq<char>| exists|i: int| 0 <= i < s.len() && (#[trigger] s[i]) == x)
}

/// Strict string comparison: `a` comes before `b` and differs from it.
pub fn str_lt(a: &str, b: &str) -> (r: bool)
    ensures
        r == (spec_str_le(a@, b@) && a@ != b@),
{
    let le = str_le(a, b);
    let eq = str_eq(a, b);
    le && !eq
}

/// Insert `x` into a sorted duplicate-free string list, keeping it sorted;
/// a string already present is not inserted twice.
pub fn insert_string_sorted(v: &mut Vec<String>, x: String)
    requires
        spec_sorted_strings(old(v).deep_view()),
    ensures
        spec_sorted_strings(final(v).deep_view()),
        str_view_set(final(v).deep_view()) == str_view_set(old(v).deep_view()).insert(x@),
{
    let ghost xv = x@;
    let mut i: usize = 0;
    while i < v.len() && str_lt(v[i].as_str(), x.as_str())
        invariant
            i <= v@.len(),
            forall|k: int|
                0 <= k < i ==> spec_str_le(#[trigger] v.deep_view()[k], xv) && v.deep_view()[k]
                    != xv,
        decreases v@.len() - i,
    {
        i = i + 1;
    }
    let ghost dv = v.deep_view();
    if i < v.len() && str_eq(v[i].as_str(), x.as_str()) {
        proof {
            assert(dv[i as int] == xv);
            assert forall|e: Seq<char>| str_view_set(dv).insert(xv).contains(e) implies str_view_set(
                dv,
            ).contains(e) by {
                if e == xv {
                    assert(dv[i as int] == e);
                }
            }
            assert(str_view_set(dv) =~= str_view_set(dv).insert(xv));
        }
        return ;
    }
    proof {
        // at position i the remaining entries are all strictly greater
        if i < dv.len() {
            assert(!(spec_str_le(dv[i as int], xv) && dv[i as int] != xv));
            if dv[i as int] != xv {
                lemma_bytes_lt_total(encode_utf8(dv[i as int]), encode_utf8(xv));
                if encode_utf8(dv[i as int]) == encode_utf8(xv) {
                    encode_utf8_decode_utf8(dv[i as int]);
                    encode_utf8_decode_utf8(xv);
                }
            }
            assert(spec_str_le(xv, dv[i as int]) && dv[i as int] != xv);
        }
    }
    v.insert(i, x);
    proof {
        let nv = v.deep_view();
        assert(nv.len() == dv.len() + 1);
        old(v)@.insert_ensures(i as int, x);
        assert forall|k: int| 0 <= k < nv.len() implies #[trigger] nv[k] == (if k < i {
            dv[k]
        } else if k == i {
            xv
        } else {
            dv[k - 1]
        }) by {
            if k < i {
                assert(v@[k] == old(v)@[k]);
            } else if k == i {
                assert(v@[k] == x);
            } else {
                assert(v@[k] == old(v)@[k - 1]);
            }
        }
        assert forall|p: int, q: int| 0 <= p < q < nv.len() implies spec_str_le(
            #[trigger] nv[p],
            #[trigger] nv[q],
        ) && nv[p] != nv[q] by {
            let pe = nv[p];
            let qe = nv[q];
            if p < i && q == i {
                assert(pe == dv[p] && qe == xv);
            } else if p == i && q > i {
                assert(pe == xv && qe == dv[q - 1]);
                assert(q - 1 >= i);
                if q - 1 > i {
                    assert(spec_str_le(dv[i as int], dv[q - 1]) && dv[i as int] != dv[q - 1]);
                    lemma_le_trans_strings(xv, dv[i as int], dv[q - 1]);
                }
            } else if p < i && q > i {
                assert(pe == dv[p] && qe == dv[q - 1]);
                if q - 1 == i {
                    if i < dv.len() {
                        assert(spec_str_le(pe, xv) && pe != xv);
                        assert(spec_str_le(xv, dv[i as int]));
                    }
                    assert(qe == dv[i as int]);
                    lemma_le_trans_strings(pe, xv, qe);
                } else {
                    assert(spec_str_le(dv[p], dv[q - 1]) && dv[p] != dv[q - 1]);
                }
            } else if q < i {
                assert(pe == dv[p] && qe == dv[q]);
            } else {
                assert(p > i && q > i);
                assert(pe == dv[p - 1] && qe == dv[q - 1]);
            }
        }
        assert forall|e: Seq<char>| str_view_set(nv).contains(e) implies str_view_set(dv).insert(
            xv,
        ).contains(e) by {
            let k = choose|k: int| 0 <= k < nv.len() && nv[k] == e;
            if k < i {
                assert(dv[k] == e);
            } else if k == i {
            } else {
                assert(dv[k - 1] == e);
            }
        }
        assert forall|e: Seq<char>| str_view_set(dv).insert(xv).contains(e) implies str_view_set(
            nv,
        ).contains(e) by {
            if e == xv {
                assert(nv[i as int] == e);
            } else {
                let k = choose|k: int| 0 <= k < dv.len() && dv[k] == e;
                if k < i {
                    assert(nv[k] == e);
                } else {
                    assert(nv[k + 1] == e);
                }
            }
        }
        assert(str_view_set(nv) =~= str_view_set(dv).insert(xv));
    }
}

/// A byte-string list sorted strictly ascending, hence duplicate-free.
pub open spec fn spec_sorted_bytes(s: Seq<Seq<u8>>) -> bool {
    forall|i: int, j: int|
        0 <= i < j < s.len() ==> spec_bytes_le(#[trigger] s[i], #[trigger] s[j]) && s[i] != s[j]
}

/// The byte strings a list holds, as a set.
pub open spec fn byte_list_set(s: Seq<Seq<u8>>) -> Set<Seq<u8>> {
    Set::new(|x: Seq<u8>| exists|i: int| 0 <= i < s.len() && (#[trigger] s[i]) == x)
}

/// Appending one byte string adds exactly it to the set a list holds.
pub proof fn lemma_byte_list_set_push(s: Seq<Seq<u8>>, x: Seq<u8>)
    ensures
        byte_list_set(s.push(x)) == byte_list_set(s).insert(x),
{
    assert forall|e: Seq<u8>| byte_list_set(s.push(x)).contains(e) implies byte_list_set(s).insert(
        x,
    ).contains(e) by {
        let k = choose|k: int| 0 <= k < s.push(x).len() && s.push(x)[k] == e;
        if k < s.len() {
            assert(s[k] == e);
        }
    }
    assert forall|e: Seq<u8>| byte_list_set(s).insert(x).contains(e) implies byte_list_set(
        s.push(x),
    ).contains(e) by {
        if e == x {
            assert(s.push(x)[s.len() as int] == e);
        } else {
            let k = choose|k: int| 0 <= k < s.len() && s[k] == e;
            assert(s.push(x)[k] == e);
        }
    }
    assert(byte_list_set(s.push(x)) =~= byte_list_set(s).insert(x));
}

/// Strict byte-string comparison.
fn bytes_lt_exec(a: &[u8], b: &[u8]) -> (r: bool)
    ensures
        r == (spec_bytes_le(a@, b@) && a@ != b@),
{
    let le = bytes_le(a, b);
    let eq = bytes_eq(a, b);
    le && !eq
}

/// Insert `x` into a sorted duplicate-free byte-string list, keeping it
/// sorted; a byte string already present is not inserted twice.
pub fn insert_bytes_sorted(v: &mut Vec<Vec<u8>>, x: Vec<u8>)
    requires
        spec_sorted_bytes(old(v).deep_view()),
    ensures
        spec_sorted_bytes(final(v).deep_view()),
        byte_list_set(final(v).deep_view()) == byte_list_set(old(v).deep_view()).insert(x@),
{
    let ghost xv = x@;
    let mut i: usize = 0;
    while i < v.len() && bytes_lt_exec(v[i].as_slice(), x.as_slice())
        invariant
            i <= v@.len(),
            forall|k: int|
                0 <= k < i ==> spec_bytes_le(#[trigger] v.deep_view()[k], xv) && v.deep_view()[k]
                    != xv,
        decreases v@.len() - i,
    {
        proof {
            assert(v.deep_view()[i as int] == v@[i as int]@);
        }
        i = i + 1;
    }
    let ghost dv = v.deep_view();
    proof {
        if i < v@.len() {
            assert(dv[i as int] == v@[i as int]@);
        }
    }
    if i < v.len() && bytes_eq(v[i].as_slice(), x.as_slice()) {
        proof {
            assert(dv[i as int] == xv);
            assert forall|e: Seq<u8>| byte_list_set(dv).insert(xv).contains(e) implies byte_list_set(
                dv,
            ).contains(e) by {
                if e == xv {
                    assert(dv[i as int] == e);
                }
            }
            assert(byte_list_set(dv) =~= byte_list_set(dv).insert(xv));
        }
        return ;
    }
    proof {
        if i < dv.len() {
            lemma_bytes_lt_total(dv[i as int], xv);
            assert(spec_bytes_le(xv, dv[i as int]) && dv[i as int] != xv);
        }
    }
    v.insert(i, x);
    proof {
        let nv = v.deep_view();
        old(v)@.insert_ensures(i as int, x);
        assert forall|k: int| 0 <= k < nv.len() implies #[trigger] nv[k] == (if k < i {
            dv[k]
        } else if k == i {
            xv
        } else {
            dv[k - 1]
        }) by {
            if k < i {
                assert(v@[k] == old(v)@[k]);
            } else if k == i {
                assert(v@[k] == x);
            } else {
                assert(v@[k] == old(v)@[k - 1]);
            }
        }
        assert forall|p: int, q: int| 0 <= p < q < nv.len() implies spec_bytes_le(
            #[trigger] nv[p],
            #[trigger] nv[q],
        ) && nv[p] != nv[q] by {
            let pe = nv[p];
            let qe = nv[q];
            if p < i && q == i {
                assert(pe == dv[p] && qe == xv);
            } else if p == i && q > i {
                assert(pe == xv && qe == dv[q - 1]);
                if q - 1 > i {
                    assert(spec_bytes_le(dv[i as int], dv[q - 1]) && dv[i as int] != dv[q - 1]);
                    lemma_le_trans_bytes(xv, dv[i as int], dv[q - 1]);
                }
            } else if p < i && q > i {
                assert(pe == dv[p] && qe == dv[q - 1]);
                if q - 1 == i {
                    lemma_le_trans_bytes(pe, xv, qe);
                } else {
                    assert(spec_bytes_le(dv[p], dv[q - 1]) && dv[p] != dv[q - 1]);
                }
            } else if q < i {
                assert(pe == dv[p] && qe == dv[q]);
            } else {
                assert(p > i && q > i);
                assert(pe == dv[p - 1] && qe == dv[q - 1]);
            }
        }
        assert forall|e: Seq<u8>| byte_list_set(nv).contains(e) implies byte_list_set(dv).insert(
            xv,
        ).contains(e) by {
            let k = choose|k: int| 0 <= k < nv.len() && nv[k] == e;
            if k < i {
                assert(dv[k] == e);
            } else if k == i {
            } else {
                assert(dv[k - 1] == e);
            }
        }
        assert forall|e: Seq<u8>| byte_list_set(dv).insert(xv).contains(e) implies byte_list_set(
            nv,
        ).contains(e) by {
            if e == xv {
                assert(nv[i as int] == e);
            } else {
                let k = choose|k: int| 0 <= k < dv.len() && dv[k] == e;
                if k < i {
                    assert(nv[k] == e);
                } else {
                    assert(nv[k + 1] == e);
                }
            }
        }
        assert(byte_list_set(nv) =~= byte_list_set(dv).insert(xv));
    }
}

/// `le` chains through an intermediate byte string, and a strict pair on
/// either side keeps the ends distinct.
proof fn lemma_le_trans_bytes(a: Seq<u8>, b: Seq<u8>, c: Seq<u8>)
    requires
        spec_bytes_le(a, b),
        a != b,
        spec_bytes_le(b, c),
    ensures
        spec_bytes_le(a, c),
        a != c,
{
    if b == c {
    } else {
        lemma_bytes_lt_trans(a, b, c);
    }
    if a == c {
        if b == c {
            assert(false);
        } else {
            lemma_bytes_lt_asym(a, b);
        }
    }
}

/// `le` chains through an intermediate string, and a strict pair on either
/// side keeps the ends distinct.
proof fn lemma_le_trans_strings(a: Seq<char>, b: Seq<char>, c: Seq<char>)
    requires
        spec_str_le(a, b),
        a != b,
        spec_str_le(b, c),
    ensures
        spec_str_le(a, c),
        a != c,
{
    let ea = encode_utf8(a);
    let eb = encode_utf8(b);
    let ec = encode_utf8(c);
    if ea == eb {
        encode_utf8_decode_utf8(a);
        encode_utf8_decode_utf8(b);
        assert(false);
    }
    if eb == ec {
    } else {
        lemma_bytes_lt_trans(ea, eb, ec);
    }
    if a == c {
        assert(ea == ec);
        if eb == ec {
            assert(false);
        } else {
            lemma_bytes_lt_asym(ea, eb);
        }
    }
}

} // verus!
