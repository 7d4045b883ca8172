//! A cheap first look at each function: whether it can raise an obligation at all.

use vstd::prelude::*;
use crate::ir::{
    same_text, BinOpKind, FuncId, Function, Op, Program, Site, TypeId, TypeKind, ValueId,
};

verus! {

/// A family of numeric types. Signedness is part of the family, so that a conversion
/// between two families of one width is not taken for a harmless one.
#[derive(Debug, Clone, Copy, PartialEq, Eq, Structural)]
pub enum NumFamily {
    SignedInt,
    UnsignedInt,
    Float,
}

/// The family and width of a basic numeric type.
pub open spec fn num_info_of(name: Seq<char>) -> Option<(NumFamily, u32)> {
    if name == "int8"@ {
        Some((NumFamily::SignedInt, 8))
    } else if name == "int16"@ {
        Some((NumFamily::SignedInt, 16))
    } else if name == "int32"@ || name == "rune"@ {
        Some((NumFamily::SignedInt, 32))
    } else if name == "int"@ || name == "int64"@ {
        Some((NumFamily::SignedInt, 64))
    } else if name == "uint8"@ || name == "byte"@ {
        Some((NumFamily::UnsignedInt, 8))
    } else if name == "uint16"@ {
        Some((NumFamily::UnsignedInt, 16))
    } else if name == "uint32"@ {
        Some((NumFamily::UnsignedInt, 32))
    } else if name == "uint"@ || name == "uint64"@ || name == "uintptr"@ {
        Some((NumFamily::UnsignedInt, 64))
    } else if name == "float32"@ {
        Some((NumFamily::Float, 32))
    } else if name == "float64"@ {
        Some((NumFamily::Float, 64))
    } else {
        None
    }
}

fn num_info(name: &str) -> (r: Option<(NumFamily, u32)>)
    ensures
        r == num_info_of(name@),
{
    if same_text(name, "int8") {
        Some((NumFamily::SignedInt, 8))
    } else if same_text(name, "int16") {
        Some((NumFamily::SignedInt, 16))
    } else if same_text(name, "int32") || same_text(name, "rune") {
        Some((NumFamily::SignedInt, 32))
    } else if same_text(name, "int") || same_text(name, "int64") {
        Some((NumFamily::SignedInt, 64))
    } else if same_text(name, "uint8") || same_text(name, "byte") {
        Some((NumFamily::UnsignedInt, 8))
    } else if same_text(name, "uint16") {
        Some((NumFamily::UnsignedInt, 16))
    } else if same_text(name, "uint32") {
        Some((NumFamily::UnsignedInt, 32))
    } else if same_text(name, "uint") || same_text(name, "uint64") || same_text(name, "uintptr") {
        Some((NumFamily::UnsignedInt, 64))
    } else if same_text(name, "float32") {
        Some((NumFamily::Float, 32))
    } else if same_text(name, "float64") {
        Some((NumFamily::Float, 64))
    } else {
        None
    }
}

/// The family and width of a type that is basic and numeric.
pub open spec fn num_type(p: &Program, t: TypeId) -> Option<(NumFamily, u32)> {
    match p.types.kind_of(t) {
        TypeKind::Basic { name } => num_info_of(name@),
        _ => None,
    }
}

fn num_type_info(p: &Program, t: TypeId) -> (r: Option<(NumFamily, u32)>)
    ensures
        r == num_type(p, t),
{
    match p.types.kind(t) {
        Some(TypeKind::Basic { name }) => num_info(name.as_str()),
        _ => None,
    }
}

/// Whether a conversion may lose something: it narrows, changes the family, or is between
/// types of which nothing is known.
pub open spec fn lossy(p: &Program, dst: TypeId, src: TypeId) -> bool {
    match (num_type(p, dst), num_type(p, src)) {
        (Some((df, dw)), Some((sf, sw))) => df != sf || dw < sw,
        _ => true,
    }
}

/// Whether `v` is allocated in the function.
pub open spec fn allocated(f: &Function, v: ValueId) -> bool {
    exists|k: int|
        0 <= k < f.sites().len() && (f.op_at(#[trigger] f.sites()[k]) matches Op::Alloc { dst, .. }
            && dst == v)
}

/// Whether an operation can raise an obligation about values: it reads or writes through an
/// address that is not a local allocation, indexes, slices, looks up, divides, or converts
/// with loss.
pub open spec fn dirty(p: &Program, f: &Function, op: Op) -> bool {
    match op {
        Op::Load { addr, .. } => !allocated(f, addr),
        Op::Store { addr, .. } => !allocated(f, addr),
        Op::FieldAddr { base, .. } => !allocated(f, base),
        Op::IndexAddr { .. } | Op::Index { .. } | Op::Lookup { .. } | Op::Slice { .. } => true,
        Op::BinOp { kind, .. } => kind == BinOpKind::Div || kind == BinOpKind::Rem,
        Op::Convert { dst, src } => lossy(p, f.type_of(dst), f.type_of(src)),
        _ => false,
    }
}

/// Whether no operation of the function can raise an obligation about values. A function
/// without a body is not clean.
pub open spec fn clean(p: &Program, id: FuncId) -> bool {
    match p.body(id) {
        Some(f) => forall|k: int|
            0 <= k < f.sites().len() ==> !dirty(p, &f, f.op_at(#[trigger] f.sites()[k])),
        None => false,
    }
}

fn is_allocated(f: &Function, sites: &Vec<Site>, v: ValueId) -> (r: bool)
    requires
        sites@ == f.sites(),
        forall|k: int| 0 <= k < sites@.len() ==> f.has_site(#[trigger] sites@[k]),
    ensures
        r == allocated(f, v),
{
    let mut k: usize = 0;
    while k < sites.len()
        invariant
            k <= sites@.len(),
            sites@ == f.sites(),
            forall|k: int| 0 <= k < sites@.len() ==> f.has_site(#[trigger] sites@[k]),
            forall|j: int|
                0 <= j < k ==> !(f.op_at(#[trigger] f.sites()[j]) matches Op::Alloc { dst, .. } && dst
                    == v),
        decreases sites@.len() - k,
    {
        if let Op::Alloc { dst, .. } = f.op(sites[k]) {
            if *dst == v {
                assert(f.op_at(f.sites()[k as int]) is Alloc);
                return true;
            }
        }
        k += 1;
    }
    false
}

/// Whether nothing in the function can raise an obligation about values.
pub fn value_clean(p: &Program, id: FuncId) -> (r: bool)
    ensures
        r == clean(p, id),
{
    let f = match p.func(id) {
        Some(f) => f,
        None => {
            return false;
        },
    };
    let sites = f.all_sites();
    let mut k: usize = 0;
    while k < sites.len()
        invariant
            k <= sites@.len(),
            p.body(id) == Some(*f),
            sites@ == f.sites(),
            forall|k: int| 0 <= k < sites@.len() ==> f.has_site(#[trigger] sites@[k]),
            forall|j: int| 0 <= j < k ==> !dirty(p, f, f.op_at(#[trigger] f.sites()[j])),
        decreases sites@.len() - k,
    {
        let is_dirty = match f.op(sites[k]) {
            Op::Load { addr, .. } => !is_allocated(f, &sites, *addr),
            Op::Store { addr, .. } => !is_allocated(f, &sites, *addr),
            Op::FieldAddr { base, .. } => !is_allocated(f, &sites, *base),
            Op::IndexAddr { .. } | Op::Index { .. } | Op::Lookup { .. } | Op::Slice { .. } => true,
            Op::BinOp { kind, .. } => *kind == BinOpKind::Div || *kind == BinOpKind::Rem,
            Op::Convert { dst, src } => {
                match (num_type_info(p, f.value_type(*dst)), num_type_info(p, f.value_type(*src))) {
                    (Some((df, dw)), Some((sf, sw))) => df != sf || dw < sw,
                    _ => true,
                }
            },
            _ => false,
        };
        if is_dirty {
            assert(dirty(p, f, f.op_at(f.sites()[k as int])));
            return false;
        }
        k += 1;
    }
    true
}

/// In which domains a function can raise no obligation.
#[derive(Debug, Clone, Copy, PartialEq, Eq, Structural)]
pub struct Domains {
    pub value_clean: bool,
    pub concurrency_clean: bool,
}

} // verus!
