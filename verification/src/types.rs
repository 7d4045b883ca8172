//! How Go types are modelled: integer widths, array lengths, and the sorts of values.

use vstd::prelude::*;
use crate::ir::{same_text, TypeId, TypeKind, TypeTable};
use crate::term::Sort;

verus! {

/// Width and signedness of the integer type with this name.
pub open spec fn basic_int(name: Seq<char>) -> Option<(u32, bool)> {
    if name == "int"@ || name == "int64"@ {
        Some((64u32, true))
    } else if name == "int32"@ || name == "rune"@ {
        Some((32u32, true))
    } else if name == "int16"@ {
        Some((16u32, true))
    } else if name == "int8"@ {
        Some((8u32, true))
    } else if name == "uint"@ || name == "uint64"@ || name == "uintptr"@ {
        Some((64u32, false))
    } else if name == "uint32"@ {
        Some((32u32, false))
    } else if name == "uint16"@ {
        Some((16u32, false))
    } else if name == "uint8"@ || name == "byte"@ {
        Some((8u32, false))
    } else {
        None
    }
}

fn basic_int_of(name: &str) -> (r: Option<(u32, bool)>)
    ensures
        r == basic_int(name@),
{
    if same_text(name, "int") || same_text(name, "int64") {
        Some((64u32, true))
    } else if same_text(name, "int32") || same_text(name, "rune") {
        Some((32u32, true))
    } else if same_text(name, "int16") {
        Some((16u32, true))
    } else if same_text(name, "int8") {
        Some((8u32, true))
    } else if same_text(name, "uint") || same_text(name, "uint64") || same_text(name, "uintptr") {
        Some((64u32, false))
    } else if same_text(name, "uint32") {
        Some((32u32, false))
    } else if same_text(name, "uint16") {
        Some((16u32, false))
    } else if same_text(name, "uint8") || same_text(name, "byte") {
        Some((8u32, false))
    } else {
        None
    }
}

/// Width and signedness of an integer type; floating point types have none.
pub open spec fn int_repr_of(types: &TypeTable, t: TypeId) -> Option<(u32, bool)> {
    match types.base_kind(t) {
        TypeKind::Basic { name } => basic_int(name@),
        _ => None,
    }
}

/// Width and signedness of an integer type; floating point types have none.
pub fn int_repr(types: &TypeTable, t: TypeId) -> (r: Option<(u32, bool)>)
    ensures
        r == int_repr_of(types, t),
{
    match types.kind(types.underlying(t)) {
        Some(TypeKind::Basic { name }) => basic_int_of(name.as_str()),
        _ => None,
    }
}

/// The widths of integer types.
pub proof fn int_widths(types: &TypeTable, t: TypeId)
    ensures
        int_repr_of(types, t) matches Some((w, s)) ==> w == 8 || w == 16 || w == 32 || w == 64,
{
}

/// Whether the type is, behind its names, the basic type `name`.
pub open spec fn is_basic(types: &TypeTable, t: TypeId, name: Seq<char>) -> bool {
    match types.base_kind(t) {
        TypeKind::Basic { name: n } => n@ == name,
        _ => false,
    }
}

/// Whether the type is, behind its names, the basic type `name`.
pub fn is_basic_type(types: &TypeTable, t: TypeId, name: &str) -> (r: bool)
    ensures
        r == is_basic(types, t, name@),
{
    match types.kind(types.underlying(t)) {
        Some(TypeKind::Basic { name: n }) => same_text(n.as_str(), name),
        _ => false,
    }
}

/// The length of an array type.
pub open spec fn direct_array_len(types: &TypeTable, t: TypeId) -> Option<u64> {
    match types.base_kind(t) {
        TypeKind::Array { elem, len } => Some(len),
        _ => None,
    }
}

/// The static length behind a value of the type: of an array, or of the array that a pointer
/// points to. Only one pointer is looked through.
pub open spec fn array_len_of(types: &TypeTable, t: TypeId) -> Option<u64> {
    match types.base_kind(t) {
        TypeKind::Array { elem, len } => Some(len),
        TypeKind::Pointer { elem } => direct_array_len(types, elem),
        _ => None,
    }
}

/// The static length behind a value of the type.
pub fn array_len(types: &TypeTable, t: TypeId) -> (r: Option<u64>)
    ensures
        r == array_len_of(types, t),
{
    match types.kind(types.underlying(t)) {
        Some(TypeKind::Array { len, .. }) => Some(*len),
        Some(TypeKind::Pointer { elem }) => {
            match types.kind(types.underlying(*elem)) {
                Some(TypeKind::Array { len, .. }) => Some(*len),
                _ => None,
            }
        },
        _ => None,
    }
}

/// The sort of the values of a type; `None` where they are not modelled.
pub open spec fn sort_of_type(types: &TypeTable, t: TypeId) -> Option<Sort> {
    match types.base_kind(t) {
        TypeKind::Basic { name } => match basic_int(name@) {
            Some((w, s)) => Some(Sort::BitVec(w)),
            None => if name@ == "bool"@ {
                Some(Sort::Bool)
            } else if name@ == "string"@ {
                Some(Sort::GoSeq)
            } else {
                None
            },
        },
        TypeKind::Pointer { .. } => Some(Sort::Ptr),
        TypeKind::Slice { .. } => Some(Sort::GoSeq),
        _ => None,
    }
}

/// The sort of the values of a type; `None` where they are not modelled.
pub fn sort_of(types: &TypeTable, t: TypeId) -> (r: Option<Sort>)
    ensures
        r == sort_of_type(types, t),
{
    match types.kind(types.underlying(t)) {
        Some(TypeKind::Basic { name }) => match basic_int_of(name.as_str()) {
            Some((w, _)) => Some(Sort::BitVec(w)),
            None => if same_text(name.as_str(), "bool") {
                Some(Sort::Bool)
            } else if same_text(name.as_str(), "string") {
                Some(Sort::GoSeq)
            } else {
                None
            },
        },
        Some(TypeKind::Pointer { .. }) => Some(Sort::Ptr),
        Some(TypeKind::Slice { .. }) => Some(Sort::GoSeq),
        _ => None,
    }
}

/// An integer type is modelled by bitvectors of its width.
pub proof fn ints_are_bitvectors(types: &TypeTable, t: TypeId)
    ensures
        int_repr_of(types, t) matches Some((w, s)) ==> sort_of_type(types, t) == Some(Sort::BitVec(w)),
{
}

} // verus!
