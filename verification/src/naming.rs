//! What names stand for: the integer types of Go by their widths, and the symbols of the solver
//! by what they compute.

use vstd::prelude::*;
use crate::bounds::{bounds_upto, convert_upto, divrem_upto, fault_sites};
use crate::encode::EncodedV;
use crate::ir::{BinOpKind, FuncId, Function, Op, Program, TypeId, TypeKind, ValueId};
use crate::prepass::{clean, dirty, lossy, num_info_of, NumFamily};
use crate::query::{bin_text, comparison_text};
use crate::term::{BvBinOp, BvCmpOp};
use crate::text::dec;
use crate::types::{basic_int, int_repr_of};
use crate::values::{bin_value, compare_value, go_width, number, quotient, remainder};
use vstd::arithmetic::power2::pow2;

verus! {

// ---- Integer types ----

/// Whether `name` is a signed integer type of `w` bits.
pub open spec fn names_signed(name: Seq<char>, w: u32) -> bool {
    ||| go_width(w) && name == "int"@ + dec(w as nat)
    ||| w == 64 && name == "int"@
    ||| w == 32 && name == "rune"@
}

/// Whether `name` is an unsigned integer type of `w` bits.
pub open spec fn names_unsigned(name: Seq<char>, w: u32) -> bool {
    ||| go_width(w) && name == "uint"@ + dec(w as nat)
    ||| w == 64 && (name == "uint"@ || name == "uintptr"@)
    ||| w == 8 && name == "byte"@
}

proof fn lemma_literals()
    ensures
        "int"@ + dec(8) == "int8"@,
        "int"@ + dec(16) == "int16"@,
        "int"@ + dec(32) == "int32"@,
        "int"@ + dec(64) == "int64"@,
        "uint"@ + dec(8) == "uint8"@,
        "uint"@ + dec(16) == "uint16"@,
        "uint"@ + dec(32) == "uint32"@,
        "uint"@ + dec(64) == "uint64"@,
        "float"@ + dec(32) == "float32"@,
        "float"@ + dec(64) == "float64"@,
{
    reveal_with_fuel(dec, 3);
    reveal_strlit("int");
    reveal_strlit("int8");
    reveal_strlit("int16");
    reveal_strlit("int32");
    reveal_strlit("int64");
    reveal_strlit("uint");
    reveal_strlit("uint8");
    reveal_strlit("uint16");
    reveal_strlit("uint32");
    reveal_strlit("uint64");
    reveal_strlit("float");
    reveal_strlit("float32");
    reveal_strlit("float64");
    assert(dec(8) =~= seq!['8']);
    assert(dec(16) =~= seq!['1', '6']);
    assert(dec(32) =~= seq!['3', '2']);
    assert(dec(64) =~= seq!['6', '4']);
    assert("int"@ + dec(8) =~= "int8"@);
    assert("int"@ + dec(16) =~= "int16"@);
    assert("int"@ + dec(32) =~= "int32"@);
    assert("int"@ + dec(64) =~= "int64"@);
    assert("uint"@ + dec(8) =~= "uint8"@);
    assert("uint"@ + dec(16) =~= "uint16"@);
    assert("uint"@ + dec(32) =~= "uint32"@);
    assert("uint"@ + dec(64) =~= "uint64"@);
    assert("float"@ + dec(32) =~= "float32"@);
    assert("float"@ + dec(64) =~= "float64"@);
}

/// What tells the names of the numeric types apart.
pub proof fn lemma_apart()
    ensures
        "int"@.len() == 3 && "int"@[0] == 'i',
        "int8"@.len() == 4 && "int8"@[0] == 'i',
        "int16"@.len() == 5 && "int16"@[0] == 'i' && "int16"@[3] == '1',
        "int32"@.len() == 5 && "int32"@[0] == 'i' && "int32"@[3] == '3',
        "int64"@.len() == 5 && "int64"@[0] == 'i' && "int64"@[3] == '6',
        "uint"@.len() == 4 && "uint"@[0] == 'u',
        "uint8"@.len() == 5 && "uint8"@[0] == 'u',
        "uint16"@.len() == 6 && "uint16"@[0] == 'u' && "uint16"@[4] == '1',
        "uint32"@.len() == 6 && "uint32"@[0] == 'u' && "uint32"@[4] == '3',
        "uint64"@.len() == 6 && "uint64"@[0] == 'u' && "uint64"@[4] == '6',
        "uintptr"@.len() == 7 && "uintptr"@[0] == 'u',
        "rune"@.len() == 4 && "rune"@[0] == 'r',
        "byte"@.len() == 4 && "byte"@[0] == 'b',
        "float32"@.len() == 7 && "float32"@[0] == 'f' && "float32"@[5] == '3',
        "float64"@.len() == 7 && "float64"@[0] == 'f' && "float64"@[5] == '6',
{
    reveal_strlit("int");
    reveal_strlit("int8");
    reveal_strlit("int16");
    reveal_strlit("int32");
    reveal_strlit("int64");
    reveal_strlit("uint");
    reveal_strlit("uint8");
    reveal_strlit("uint16");
    reveal_strlit("uint32");
    reveal_strlit("uint64");
    reveal_strlit("uintptr");
    reveal_strlit("rune");
    reveal_strlit("byte");
    reveal_strlit("float32");
    reveal_strlit("float64");
}

/// The integer types are those whose names say so, with the width in the name; `int`, `uint`
/// and `uintptr` have 64 bits, a `rune` 32 and a `byte` 8.
pub proof fn integer_types_are_named_by_width(name: Seq<char>, w: u32)
    ensures
        basic_int(name) == Some((w, true)) <==> names_signed(name, w),
        basic_int(name) == Some((w, false)) <==> names_unsigned(name, w),
{
    lemma_literals();
    lemma_apart();
}

/// The first look at a function takes types for integers of a width exactly where the encoding
/// does; besides them it knows the floating-point types by their widths.
pub proof fn numeric_families_are_the_integer_types(name: Seq<char>, w: u32)
    ensures
        num_info_of(name) == Some((NumFamily::SignedInt, w)) <==> basic_int(name) == Some((w, true)),
        num_info_of(name) == Some((NumFamily::UnsignedInt, w)) <==> basic_int(name) == Some(
            (w, false),
        ),
        num_info_of(name) == Some((NumFamily::Float, w)) <==> (w == 32 || w == 64) && name
            == "float"@ + dec(w as nat),
{
    lemma_literals();
    lemma_apart();
}

// ---- Clean functions ----

proof fn lemma_peel_basic(p: &Program, t: TypeId)
    requires
        p.types.kind_of(t) is Basic,
    ensures
        p.types.base_kind(t) == p.types.kind_of(t),
{
}

proof fn lemma_lossless(p: &Program, dst: TypeId, src: TypeId)
    requires
        !lossy(p, dst, src),
    ensures
        match (int_repr_of(&p.types, src), int_repr_of(&p.types, dst)) {
            (Some((ws, ss)), Some((wd, sd))) => ws <= wd && ss == sd,
            _ => true,
        },
{
    lemma_peel_basic(p, dst);
    lemma_peel_basic(p, src);
    if let (Some((ws, ss)), Some((wd, sd))) = (int_repr_of(&p.types, src), int_repr_of(
        &p.types,
        dst,
    )) {
        if let TypeKind::Basic { name } = p.types.kind_of(src) {
            numeric_families_are_the_integer_types(name@, ws);
        }
        if let TypeKind::Basic { name } = p.types.kind_of(dst) {
            numeric_families_are_the_integer_types(name@, wd);
        }
    }
}

proof fn lemma_no_faults(p: &Program, f: &Function, e: EncodedV, k: int)
    requires
        0 <= k <= f.sites().len(),
        forall|j: int|
            0 <= j < f.sites().len() ==> !dirty(p, f, f.op_at(#[trigger] f.sites()[j])),
    ensures
        bounds_upto(p, f, e, k).len() == 0,
        divrem_upto(p, f, e, k).len() == 0,
        convert_upto(p, f, e, k).len() == 0,
    decreases k,
{
    if k > 0 {
        lemma_no_faults(p, f, e, k - 1);
        let op = f.op_at(f.sites()[k - 1]);
        assert(!dirty(p, f, op));
        if let Op::Convert { dst, src } = op {
            lemma_lossless(p, f.type_of(dst), f.type_of(src));
        }
    }
}

/// In a function that is clean nothing can be out of bounds, divided by zero or lost in a
/// conversion, and every load, store and field address is through a local allocation.
pub proof fn clean_functions_have_no_faults(
    p: &Program,
    id: FuncId,
    f: Function,
    e: EncodedV,
    k: int,
)
    requires
        p.body(id) == Some(f),
        clean(p, id),
        0 <= k < f.sites().len(),
    ensures
        fault_sites(p, &f, e).len() == 0,
        match f.op_at(f.sites()[k]) {
            Op::Load { addr, .. } => allocates(&f, addr),
            Op::Store { addr, .. } => allocates(&f, addr),
            Op::FieldAddr { base, .. } => allocates(&f, base),
            Op::Lookup { .. } => false,
            _ => true,
        },
{
    lemma_no_faults(p, &f, e, f.sites().len() as int);
    assert(!dirty(p, &f, f.op_at(f.sites()[k])));
}

/// Whether the function allocates `v`.
pub open spec fn allocates(f: &Function, v: ValueId) -> bool {
    exists|k: int|
        0 <= k < f.sites().len() && (f.op_at(#[trigger] f.sites()[k]) matches Op::Alloc { dst, .. }
            && dst == v)
}

/// Whether an operation concerns values at all: it goes through an address, takes a part of a
/// value, divides or converts.
pub open spec fn touches_values(op: Op) -> bool {
    match op {
        Op::Load { .. } | Op::Store { .. } | Op::FieldAddr { .. } | Op::IndexAddr { .. } => true,
        Op::Index { .. } | Op::Lookup { .. } | Op::Slice { .. } | Op::Convert { .. } => true,
        Op::BinOp { kind, .. } => kind == BinOpKind::Div || kind
            == BinOpKind::Rem,
        _ => false,
    }
}

/// A function with a body is clean if none of its operations touches values.
pub proof fn harmless_functions_are_clean(p: &Program, id: FuncId, f: Function)
    requires
        p.body(id) == Some(f),
        forall|k: int|
            0 <= k < f.sites().len() ==> !touches_values(f.op_at(#[trigger] f.sites()[k])),
    ensures
        clean(p, id),
{
    assert forall|k: int| 0 <= k < f.sites().len() implies !dirty(
        p,
        &f,
        f.op_at(#[trigger] f.sites()[k]),
    ) by {
        assert(!touches_values(f.op_at(f.sites()[k])));
    }
}

// ---- Symbols ----

/// Whether the SMT-LIB function `symbol` on bitvectors of width `w` gives `r` on `a` and `b`,
/// before the result is reduced to the width.
pub open spec fn symbol_gives(symbol: Seq<char>, w: u32, a: nat, b: nat, r: int) -> bool {
    let x = number(a, w, true);
    let y = number(b, w, true);
    &&& symbol == "bvadd"@ ==> r == a + b
    &&& symbol == "bvsub"@ ==> r == a - b
    &&& symbol == "bvmul"@ ==> r == a * b
    &&& symbol == "bvand"@ ==> r == (a as u64) & (b as u64)
    &&& symbol == "bvor"@ ==> r == (a as u64) | (b as u64)
    &&& symbol == "bvxor"@ ==> r == (a as u64) ^ (b as u64)
    &&& symbol == "bvshl"@ ==> r == a * pow2(b)
    &&& symbol == "bvlshr"@ ==> r == a as int / pow2(b) as int
    &&& symbol == "bvashr"@ ==> r == x / pow2(b) as int
    &&& symbol == "bvudiv"@ && b != 0 ==> r == a as int / b as int
    &&& symbol == "bvurem"@ && b != 0 ==> r == a as int % b as int
    &&& symbol == "bvsdiv"@ && y != 0 ==> r == quotient(x, y)
    &&& symbol == "bvsrem"@ && y != 0 ==> r == remainder(x, y)
}

/// Whether `symbol` is one of these functions.
pub open spec fn is_symbol(symbol: Seq<char>) -> bool {
    ||| symbol == "bvadd"@
    ||| symbol == "bvsub"@
    ||| symbol == "bvmul"@
    ||| symbol == "bvand"@
    ||| symbol == "bvor"@
    ||| symbol == "bvxor"@
    ||| symbol == "bvshl"@
    ||| symbol == "bvlshr"@
    ||| symbol == "bvashr"@
    ||| symbol == "bvudiv"@
    ||| symbol == "bvurem"@
    ||| symbol == "bvsdiv"@
    ||| symbol == "bvsrem"@
}

proof fn lemma_symbols()
    ensures
        "bvadd"@.len() == 5 && "bvadd"@[2] == 'a' && "bvadd"@[3] == 'd',
        "bvsub"@.len() == 5 && "bvsub"@[2] == 's' && "bvsub"@[3] == 'u',
        "bvmul"@.len() == 5 && "bvmul"@[2] == 'm',
        "bvand"@.len() == 5 && "bvand"@[2] == 'a' && "bvand"@[3] == 'n',
        "bvor"@.len() == 4,
        "bvxor"@.len() == 5 && "bvxor"@[2] == 'x',
        "bvshl"@.len() == 5 && "bvshl"@[2] == 's' && "bvshl"@[3] == 'h',
        "bvlshr"@.len() == 6 && "bvlshr"@[2] == 'l',
        "bvashr"@.len() == 6 && "bvashr"@[2] == 'a',
        "bvudiv"@.len() == 6 && "bvudiv"@[2] == 'u' && "bvudiv"@[3] == 'd',
        "bvurem"@.len() == 6 && "bvurem"@[2] == 'u' && "bvurem"@[3] == 'r',
        "bvsdiv"@.len() == 6 && "bvsdiv"@[2] == 's' && "bvsdiv"@[3] == 'd',
        "bvsrem"@.len() == 6 && "bvsrem"@[2] == 's' && "bvsrem"@[3] == 'r',
        "bvult"@.len() == 5 && "bvult"@[2] == 'u' && "bvult"@[4] == 't',
        "bvule"@.len() == 5 && "bvule"@[2] == 'u' && "bvule"@[4] == 'e',
        "bvslt"@.len() == 5 && "bvslt"@[2] == 's' && "bvslt"@[4] == 't',
        "bvsle"@.len() == 5 && "bvsle"@[2] == 's' && "bvsle"@[4] == 'e',
{
    reveal_strlit("bvadd");
    reveal_strlit("bvsub");
    reveal_strlit("bvmul");
    reveal_strlit("bvand");
    reveal_strlit("bvor");
    reveal_strlit("bvxor");
    reveal_strlit("bvshl");
    reveal_strlit("bvlshr");
    reveal_strlit("bvashr");
    reveal_strlit("bvudiv");
    reveal_strlit("bvurem");
    reveal_strlit("bvsdiv");
    reveal_strlit("bvsrem");
    reveal_strlit("bvult");
    reveal_strlit("bvule");
    reveal_strlit("bvslt");
    reveal_strlit("bvsle");
}

/// The symbol that an operation is written with computes what the operation means.
pub proof fn operations_are_written_as_what_they_compute(o: BvBinOp, w: u32, a: nat, b: nat)
    ensures
        is_symbol(bin_text(o)),
        symbol_gives(bin_text(o), w, a, b, bin_value(o, w, a, b)),
{
    lemma_symbols();
}

/// The symbol that a comparison is written with holds where the comparison does.
pub proof fn comparisons_are_written_as_what_they_mean(o: BvCmpOp, w: u32, a: nat, b: nat)
    ensures
        ({
            let symbol = comparison_text(o);
            let x = number(a, w, true);
            let y = number(b, w, true);
            let r = compare_value(o, w, a, b);
            ||| symbol == "bvult"@ && r == (a < b)
            ||| symbol == "bvule"@ && r == (a <= b)
            ||| symbol == "bvslt"@ && r == (x < y)
            ||| symbol == "bvsle"@ && r == (x <= y)
        }),
{
    lemma_symbols();
}

} // verus!
