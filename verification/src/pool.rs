//! The library's model of a class file's constant pool: just the entry
//! kinds the decoder and the class reader look at, as plain values.
use vstd::prelude::*;

verus! {

/// A constant-pool entry, reduced to what the bytecode decoder and the
/// class reader consume. Index operands refer to other pool slots.
#[derive(Debug)]
pub enum PoolEntry {
    /// Modified-UTF-8 text.
    Utf8(String),
    /// A class reference: the index of the Utf8 slot holding its name.
    ClassRef(u16),
    /// A string constant: the index of the Utf8 slot holding its text.
    StringRef(u16),
    /// A field reference: class index and name-and-type index.
    FieldRef(u16, u16),
    /// A method reference: class index and name-and-type index.
    MethodRef(u16, u16),
    /// An interface-method reference: class index and name-and-type index.
    InterfaceMethodRef(u16, u16),
    /// A name-and-type pair: name index and descriptor index.
    NameAndType(u16, u16),
    /// Any other entry kind; the decoder never looks inside it.
    Other,
}

/// Model of a pool entry.
#[verifier::ext_equal]
pub ghost enum PoolEntryV {
    Utf8(Seq<char>),
    ClassRef(u16),
    StringRef(u16),
    FieldRef(u16, u16),
    MethodRef(u16, u16),
    InterfaceMethodRef(u16, u16),
    NameAndType(u16, u16),
    Other,
}

impl DeepView for PoolEntry {
    type V = PoolEntryV;

    open spec fn deep_view(&self) -> PoolEntryV {
        match self {
            PoolEntry::Utf8(s) => PoolEntryV::Utf8(s@),
            PoolEntry::ClassRef(i) => PoolEntryV::ClassRef(*i),
            PoolEntry::StringRef(i) => PoolEntryV::StringRef(*i),
            PoolEntry::FieldRef(c, nt) => PoolEntryV::FieldRef(*c, *nt),
            PoolEntry::MethodRef(c, nt) => PoolEntryV::MethodRef(*c, *nt),
            PoolEntry::InterfaceMethodRef(c, nt) => PoolEntryV::InterfaceMethodRef(*c, *nt),
            PoolEntry::NameAndType(n, d) => PoolEntryV::NameAndType(*n, *d),
            PoolEntry::Other => PoolEntryV::Other,
        }
    }
}

impl Clone for PoolEntry {
    fn clone(&self) -> (r: Self)
        ensures
            r.deep_view() == self.deep_view(),
    {
        match self {
            PoolEntry::Utf8(s) => PoolEntry::Utf8(s.clone()),
            PoolEntry::ClassRef(i) => PoolEntry::ClassRef(*i),
            PoolEntry::StringRef(i) => PoolEntry::StringRef(*i),
            PoolEntry::FieldRef(c, nt) => PoolEntry::FieldRef(*c, *nt),
            PoolEntry::MethodRef(c, nt) => PoolEntry::MethodRef(*c, *nt),
            PoolEntry::InterfaceMethodRef(c, nt) => PoolEntry::InterfaceMethodRef(*c, *nt),
            PoolEntry::NameAndType(n, d) => PoolEntry::NameAndType(*n, *d),
            PoolEntry::Other => PoolEntry::Other,
        }
    }
}

/// The text of the Utf8 entry at `idx`, if `idx` names a Utf8 entry.
pub open spec fn spec_resolve_utf8(pool: Seq<PoolEntryV>, idx: int) -> Option<Seq<char>> {
    if 0 <= idx < pool.len() {
        match pool[idx] {
            PoolEntryV::Utf8(s) => Some(s),
            _ => None,
        }
    } else {
        None
    }
}

/// The class name that the ClassRef entry at `idx` refers to, if resolvable.
pub open spec fn spec_resolve_class_name(pool: Seq<PoolEntryV>, idx: int) -> Option<Seq<char>> {
    if 0 <= idx < pool.len() {
        match pool[idx] {
            PoolEntryV::ClassRef(name_index) => spec_resolve_utf8(pool, name_index as int),
            _ => None,
        }
    } else {
        None
    }
}

/// The text of the string constant at `idx`, if `idx` names a StringRef
/// entry whose text resolves.
pub open spec fn spec_resolve_string(pool: Seq<PoolEntryV>, idx: int) -> Option<Seq<char>> {
    if 0 <= idx < pool.len() {
        match pool[idx] {
            PoolEntryV::StringRef(string_index) => spec_resolve_utf8(pool, string_index as int),
            _ => None,
        }
    } else {
        None
    }
}

/// Owner, name and descriptor of the method or interface-method reference
/// at `idx`, if every link of the chain resolves.
pub open spec fn spec_resolve_call(pool: Seq<PoolEntryV>, idx: int) -> Option<
    (Seq<char>, Seq<char>, Seq<char>),
> {
    if 0 <= idx < pool.len() {
        match pool[idx] {
            PoolEntryV::MethodRef(c, nt) => spec_resolve_call_parts(pool, c as int, nt as int),
            PoolEntryV::InterfaceMethodRef(c, nt) => spec_resolve_call_parts(
                pool,
                c as int,
                nt as int,
            ),
            _ => None,
        }
    } else {
        None
    }
}

/// Resolve the class half and the name-and-type half of a method reference.
pub open spec fn spec_resolve_call_parts(pool: Seq<PoolEntryV>, c: int, nt: int) -> Option<
    (Seq<char>, Seq<char>, Seq<char>),
> {
    match spec_resolve_class_name(pool, c) {
        None => None,
        Some(owner) => if 0 <= nt < pool.len() {
            match pool[nt] {
                PoolEntryV::NameAndType(n, d) => match (
                    spec_resolve_utf8(pool, n as int),
                    spec_resolve_utf8(pool, d as int),
                ) {
                    (Some(name), Some(descriptor)) => Some((owner, name, descriptor)),
                    _ => None,
                },
                _ => None,
            }
        } else {
            None
        },
    }
}

/// Look up the Utf8 text at `idx` in the pool.
pub fn resolve_utf8(pool: &Vec<PoolEntry>, idx: u16) -> (r: Option<String>)
    ensures
        match r {
            Some(s) => spec_resolve_utf8(pool.deep_view(), idx as int) == Some(s@),
            None => spec_resolve_utf8(pool.deep_view(), idx as int) is None,
        },
{
    if (idx as usize) < pool.len() {
        match &pool[idx as usize] {
            PoolEntry::Utf8(s) => Some(s.clone()),
            _ => None,
        }
    } else {
        None
    }
}

/// Look up the class name that the ClassRef entry at `idx` refers to.
pub fn resolve_class_name(pool: &Vec<PoolEntry>, idx: u16) -> (r: Option<String>)
    ensures
        match r {
            Some(s) => spec_resolve_class_name(pool.deep_view(), idx as int) == Some(s@),
            None => spec_resolve_class_name(pool.deep_view(), idx as int) is None,
        },
{
    if (idx as usize) < pool.len() {
        match &pool[idx as usize] {
            PoolEntry::ClassRef(name_index) => resolve_utf8(pool, *name_index),
            _ => None,
        }
    } else {
        None
    }
}

/// Look up the text of the string constant at `idx`.
pub fn resolve_string(pool: &Vec<PoolEntry>, idx: u16) -> (r: Option<String>)
    ensures
        match r {
            Some(s) => spec_resolve_string(pool.deep_view(), idx as int) == Some(s@),
            None => spec_resolve_string(pool.deep_view(), idx as int) is None,
        },
{
    if (idx as usize) < pool.len() {
        match &pool[idx as usize] {
            PoolEntry::StringRef(string_index) => resolve_utf8(pool, *string_index),
            _ => None,
        }
    } else {
        None
    }
}

/// Resolve the owner, name and descriptor of the method or interface-method
/// reference at `idx`.
pub fn resolve_call(pool: &Vec<PoolEntry>, idx: u16) -> (r: Option<(String, String, String)>)
    ensures
        match r {
            Some(t) => spec_resolve_call(pool.deep_view(), idx as int) == Some((t.0@, t.1@, t.2@)),
            None => spec_resolve_call(pool.deep_view(), idx as int) is None,
        },
{
    if (idx as usize) >= pool.len() {
        return None;
    }
    let (c, nt) = match &pool[idx as usize] {
        PoolEntry::MethodRef(c, nt) => (*c, *nt),
        PoolEntry::InterfaceMethodRef(c, nt) => (*c, *nt),
        _ => {
            return None;
        },
    };
    let owner = match resolve_class_name(pool, c) {
        None => {
            return None;
        },
        Some(o) => o,
    };
    if (nt as usize) >= pool.len() {
        return None;
    }
    match &pool[nt as usize] {
        PoolEntry::NameAndType(n, d) => {
            let name = match resolve_utf8(pool, *n) {
                None => {
                    return None;
                },
                Some(x) => x,
            };
            let descriptor = match resolve_utf8(pool, *d) {
                None => {
                    return None;
                },
                Some(x) => x,
            };
            Some((owner, name, descriptor))
        },
        _ => None,
    }
}

} // verus!
