//! Reading a class file: its name and the set of classes it textually
//! references. The byte-level parsing is done by the `jclassfile` crate
//! behind a trusted boundary; everything the logic does with the parsed
//! constant pool is verified here.
use vstd::prelude::*;
use vstd::string::StringSliceAdditionalSpecFns;
use vstd::utf8::{encode_utf8, encode_utf8_decode_utf8, valid_utf8};

use jclassfile::constant_pool::ConstantPool;

use crate::bytestr::{insert_string_sorted, spec_sorted_strings, str_eq, str_view_set};
use crate::pool::{resolve_class_name, spec_resolve_class_name, spec_resolve_utf8, PoolEntry,
    PoolEntryV};

verus! {

/// Why reading a class file failed.
#[derive(Clone, Copy, Debug, PartialEq, Eq, Structural)]
pub enum ClassParseError {
    /// The bytes are not a well-formed class file.
    UnparsableClassFile,
    /// The class's own name, or a referenced class's name, points at a
    /// constant-pool slot that does not resolve to text.
    UnresolvableName,
}

impl ClassParseError {
    /// A short human-readable description of the failure.
    pub fn message(&self) -> (r: &'static str) {
        match self {
            ClassParseError::UnparsableClassFile => "failed to parse class file bytes",
            ClassParseError::UnresolvableName => "unresolvable class name in constant pool",
        }
    }
}

/// Parsed class data extracted from class file bytes.
#[derive(Debug)]
pub struct ParsedClass {
    pub name: String,
    pub referenced_classes: Vec<String>,
}

/// Parsed class file details kept for classpath resolution, with the index
/// of the artifact the class was read from.
#[derive(Debug)]
pub struct ClassRecord {
    pub name: String,
    pub referenced_classes: Vec<String>,
    pub artifact_index: i64,
}

/// What `jclassfile` parses out of a class file: the this-class index and
/// the constant pool, reduced to the library's model. A name, since the
/// parse of a byte buffer is a function of the bytes alone.
pub uninterp spec fn class_structure(data: Seq<u8>) -> Option<(u16, Seq<PoolEntryV>)>;

/// Relies on jclassfile's `class_file::parse`: parsing either fails or
/// yields the class file whose constant pool and this-class index are
/// returned here, converted entry by entry to the library's model.
#[verifier::external_body]
fn parse_class_file(data: &[u8]) -> (r: Option<(u16, Vec<PoolEntry>)>)
    ensures
        match r {
            Some(p) => class_structure(data@) == Some((p.0, p.1.deep_view())),
            None => class_structure(data@) is None,
        },
{
    let cf = jclassfile::class_file::parse(data).ok()?;
    let pool = cf.constant_pool().iter().map(|e| match e {
        ConstantPool::Utf8 { value } => PoolEntry::Utf8(value.clone()),
        ConstantPool::Class { name_index } => PoolEntry::ClassRef(*name_index),
        ConstantPool::String { string_index } => PoolEntry::StringRef(*string_index),
        ConstantPool::Fieldref { class_index, name_and_type_index } => PoolEntry::FieldRef(*class_index, *name_and_type_index),
        ConstantPool::Methodref { class_index, name_and_type_index } => PoolEntry::MethodRef(*class_index, *name_and_type_index),
        ConstantPool::InterfaceMethodref { class_index, name_and_type_index } => PoolEntry::InterfaceMethodRef(*class_index, *name_and_type_index),
        ConstantPool::NameAndType { name_index, descriptor_index } => PoolEntry::NameAndType(*name_index, *descriptor_index),
        _ => PoolEntry::Other,
    }).collect();
    Some((cf.this_class(), pool))
}

/// Relies on `String::from_utf8`: it succeeds exactly on valid UTF-8 and
/// returns the string whose encoding is the input bytes.
#[verifier::external_body]
fn string_from_utf8(bytes: Vec<u8>) -> (r: Option<String>)
    ensures
        match r {
            Some(s) => valid_utf8(bytes@) && encode_utf8(s@) == bytes@,
            None => !valid_utf8(bytes@),
        },
{
    String::from_utf8(bytes).ok()
}

/// The number of leading `[` bytes of an array descriptor.
pub open spec fn spec_bracket_run(b: Seq<u8>) -> int
    decreases b.len(),
{
    if b.len() == 0 || b[0] != 0x5b {
        0
    } else {
        1 + spec_bracket_run(b.drop_first())
    }
}

/// The bracket run is the longest `[` prefix.
proof fn lemma_bracket_run_is(b: Seq<u8>, k: int)
    requires
        0 <= k <= b.len(),
        forall|i: int| 0 <= i < k ==> b[i] == 0x5b,
        k == b.len() || b[k] != 0x5b,
    ensures
        spec_bracket_run(b) == k,
    decreases k,
{
    if k == 0 {
    } else {
        assert(b[0] == 0x5b);
        let t = b.drop_first();
        assert forall|i: int| 0 <= i < k - 1 implies t[i] == 0x5b by {
            assert(t[i] == b[i + 1]);
        }
        if k - 1 < t.len() {
            assert(t[k - 1] == b[k]);
        }
        lemma_bracket_run_is(t, k - 1);
    }
}

/// Normalize a textual class reference, on the UTF-8 encoding: a plain
/// name maps to itself; an array descriptor is stripped of its `[` prefix
/// and, for object arrays, of the `L`...`;` wrapping; any other array
/// descriptor (one of a primitive type) has no class name.
pub open spec fn spec_normalize_bytes(b: Seq<u8>) -> Option<Seq<u8>> {
    if b.len() == 0 || b[0] != 0x5b {
        Some(b)
    } else {
        let rest = b.skip(spec_bracket_run(b));
        if rest.len() >= 2 && rest[0] == 0x4c && rest.last() == 0x3b {
            let mid = rest.subrange(1, rest.len() - 1);
            if valid_utf8(mid) {
                Some(mid)
            } else {
                None
            }
        } else {
            None
        }
    }
}

/// Reduce a textual class reference to a class name, or to nothing when it
/// is an array of a primitive type.
pub fn normalize_class_name(raw: &str) -> (r: Option<String>)
    ensures
        match r {
            Some(s) => spec_normalize_bytes(raw.spec_bytes()) == Some(encode_utf8(s@)),
            None => spec_normalize_bytes(raw.spec_bytes()) is None,
        },
{
    let bs = raw.as_bytes();
    if bs.len() == 0 || bs[0] != 0x5b {
        return Some(raw.to_owned());
    }
    let mut k: usize = 0;
    while k < bs.len() && bs[k] == 0x5b
        invariant
            k <= bs@.len(),
            forall|i: int| 0 <= i < k ==> bs@[i] == 0x5b,
        decreases bs@.len() - k,
    {
        k = k + 1;
    }
    proof {
        lemma_bracket_run_is(bs@, k as int);
    }
    if bs.len() - k < 2 {
        proof {
            assert(bs@.skip(k as int).len() < 2);
        }
        return None;
    }
    let ghost rest = bs@.skip(k as int);
    proof {
        assert(rest[0] == bs@[k as int]);
        assert(rest.last() == bs@[bs@.len() - 1]);
    }
    if bs[k] != 0x4c {
        return None;
    }
    if bs[bs.len() - 1] != 0x3b {
        return None;
    }
    let mid = vstd::slice::slice_subrange(bs, k + 1, bs.len() - 1);
    proof {
        assert(mid@ =~= rest.subrange(1, rest.len() - 1));
    }
    let midv = vstd::slice::slice_to_vec(mid);
    string_from_utf8(midv)
}

/// The class entry at `i` names a class whose text does not resolve.
pub open spec fn spec_class_entry_fails(pool: Seq<PoolEntryV>, i: int) -> bool {
    &&& 0 <= i < pool.len()
    &&& pool[i] matches PoolEntryV::ClassRef(ni)
    &&& spec_resolve_utf8(pool, pool[i]->ClassRef_0 as int) is None
}

/// The pool entry at `i` is a class reference whose resolved, normalized
/// name is `x`, and `x` is not the class's own name (encoded `cnb`).
pub open spec fn spec_entry_ref(pool: Seq<PoolEntryV>, cnb: Seq<u8>, i: int, x: Seq<char>) -> bool {
    &&& 0 <= i < pool.len()
    &&& pool[i] matches PoolEntryV::ClassRef(ni)
    &&& match spec_resolve_utf8(pool, pool[i]->ClassRef_0 as int) {
        Some(raw) => spec_normalize_bytes(encode_utf8(raw)) == Some(encode_utf8(x)) && encode_utf8(
            x,
        ) != cnb,
        None => false,
    }
}

/// The classes that the pool's first `j` entries reference, other than the
/// class itself (whose encoded name is `cnb`).
pub open spec fn spec_ref_upto(pool: Seq<PoolEntryV>, cnb: Seq<u8>, j: int) -> Set<Seq<char>> {
    Set::new(
        |x: Seq<char>| exists|i: int| i < j && #[trigger] spec_entry_ref(pool, cnb, i, x),
    )
}

/// All classes the pool references, other than the class itself.
pub open spec fn spec_referenced_set(pool: Seq<PoolEntryV>, cnb: Seq<u8>) -> Set<Seq<char>> {
    spec_ref_upto(pool, cnb, pool.len() as int)
}

/// Read a class file: its name, and the classes it textually references —
/// each normalized, deduplicated, the class's own name removed, and sorted
/// ascending so that the output order is deterministic.
pub fn parse_class_bytes(data: &[u8]) -> (r: Result<ParsedClass, ClassParseError>)
    ensures
        class_structure(data@) is None ==> r == Err::<ParsedClass, _>(
            ClassParseError::UnparsableClassFile,
        ),
        class_structure(data@) matches Some(p) ==> (match spec_resolve_class_name(
            p.1,
            p.0 as int,
        ) {
            None => r == Err::<ParsedClass, _>(ClassParseError::UnresolvableName),
            Some(cn) => (match r {
                Err(e) => e == ClassParseError::UnresolvableName && (exists|i: int|
                    spec_class_entry_fails(p.1, i)),
                Ok(pc) => (forall|i: int| !spec_class_entry_fails(p.1, i)) && pc.name@ == cn
                    && spec_sorted_strings(pc.referenced_classes.deep_view()) && str_view_set(
                    pc.referenced_classes.deep_view(),
                ) == spec_referenced_set(p.1, encode_utf8(cn)),
            }),
        }),
{
    let parsed = match parse_class_file(data) {
        None => {
            return Err(ClassParseError::UnparsableClassFile);
        },
        Some(p) => p,
    };
    let (this_class, pool) = parsed;
    let ghost pv = pool.deep_view();
    let name = match resolve_class_name(&pool, this_class) {
        None => {
            return Err(ClassParseError::UnresolvableName);
        },
        Some(n) => n,
    };
    let ghost cnb = encode_utf8(name@);
    let mut refs: Vec<String> = Vec::new();
    proof {
        assert(str_view_set(refs.deep_view()) =~= spec_ref_upto(pv, cnb, 0));
    }
    let mut j: usize = 0;
    while j < pool.len()
        invariant
            j <= pv.len(),
            pv == pool.deep_view(),
            cnb == encode_utf8(name@),
            forall|i: int| 0 <= i < j ==> !spec_class_entry_fails(pv, i),
            spec_sorted_strings(refs.deep_view()),
            str_view_set(refs.deep_view()) == spec_ref_upto(pv, cnb, j as int),
        decreases pv.len() - j,
    {
        let ghost pre_set = str_view_set(refs.deep_view());
        let ni: Option<u16> = match &pool[j] {
            PoolEntry::ClassRef(ni) => Some(*ni),
            _ => None,
        };
        proof {
            assert(pv[j as int] == pool@[j as int].deep_view());
        }
        match ni {
            Some(ni) => {
                let raw = match crate::pool::resolve_utf8(&pool, ni) {
                    None => {
                        proof {
                            assert(spec_class_entry_fails(pv, j as int));
                        }
                        return Err(ClassParseError::UnresolvableName);
                    },
                    Some(s) => s,
                };
                match normalize_class_name(raw.as_str()) {
                    Some(nm) => {
                        if !str_eq(nm.as_str(), name.as_str()) {
                            let ghost nmv = nm@;
                            insert_string_sorted(&mut refs, nm);
                            proof {
                                if encode_utf8(nmv) == cnb {
                                    encode_utf8_decode_utf8(nmv);
                                    encode_utf8_decode_utf8(name@);
                                }
                                assert(spec_entry_ref(pv, cnb, j as int, nmv));
                                assert forall|x: Seq<char>| spec_ref_upto(
                                    pv,
                                    cnb,
                                    j + 1,
                                ).contains(x) implies pre_set.insert(nmv).contains(x) by {
                                    let i = choose|i: int|
                                        i < j + 1 && #[trigger] spec_entry_ref(pv, cnb, i, x);
                                    if i < j {
                                        assert(pre_set.contains(x));
                                    } else {
                                        assert(encode_utf8(x) == encode_utf8(nmv));
                                        encode_utf8_decode_utf8(x);
                                        encode_utf8_decode_utf8(nmv);
                                        assert(x == nmv);
                                    }
                                }
                                assert forall|x: Seq<char>| pre_set.insert(nmv).contains(
                                    x,
                                ) implies spec_ref_upto(pv, cnb, j + 1).contains(x) by {
                                    if x == nmv {
                                        assert(spec_entry_ref(pv, cnb, j as int, x));
                                    } else {
                                        let i = choose|i: int|
                                            i < j as int && #[trigger] spec_entry_ref(
                                                pv,
                                                cnb,
                                                i,
                                                x,
                                            );
                                    }
                                }
                                assert(str_view_set(refs.deep_view()) =~= spec_ref_upto(
                                    pv,
                                    cnb,
                                    j + 1,
                                ));
                            }
                        } else {
                            proof {
                                assert forall|x: Seq<char>| spec_ref_upto(
                                    pv,
                                    cnb,
                                    j + 1,
                                ).contains(x) implies pre_set.contains(x) by {
                                    let i = choose|i: int|
                                        i < j + 1 && #[trigger] spec_entry_ref(pv, cnb, i, x);
                                    if i == j {
                                        assert(encode_utf8(x) == encode_utf8(nm@));
                                        assert(nm@ == name@);
                                        assert(encode_utf8(x) != cnb);
                                        assert(false);
                                    }
                                }
                                assert(str_view_set(refs.deep_view()) =~= spec_ref_upto(
                                    pv,
                                    cnb,
                                    j + 1,
                                ));
                            }
                        }
                    },
                    None => {
                        proof {
                            assert forall|x: Seq<char>| spec_ref_upto(pv, cnb, j + 1).contains(
                                x,
                            ) implies pre_set.contains(x) by {
                                let i = choose|i: int|
                                    i < j + 1 && #[trigger] spec_entry_ref(pv, cnb, i, x);
                                if i == j {
                                    assert(false);
                                }
                            }
                            assert(str_view_set(refs.deep_view()) =~= spec_ref_upto(
                                pv,
                                cnb,
                                j + 1,
                            ));
                        }
                    },
                }
            },
            None => {
                proof {
                    assert forall|x: Seq<char>| spec_ref_upto(pv, cnb, j + 1).contains(
                        x,
                    ) implies pre_set.contains(x) by {
                        let i = choose|i: int|
                            i < j + 1 && #[trigger] spec_entry_ref(pv, cnb, i, x);
                        if i == j {
                            assert(false);
                        }
                    }
                    assert(str_view_set(refs.deep_view()) =~= spec_ref_upto(pv, cnb, j + 1));
                }
            },
        }
        j = j + 1;
    }
    Ok(ParsedClass { name: name, referenced_classes: refs })
}

} // verus!
