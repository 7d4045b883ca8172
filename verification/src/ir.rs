//! The Go program under analysis, in SSA form.
//!
//! Every accessor is total: an id that names nothing reads as "unknown", so malformed
//! input degrades and never stops the analysis.

use vstd::prelude::*;
use crate::order::{lex_lt, Key};

verus! {

/// A function of the program.
#[derive(Debug, Clone, Copy, PartialEq, Eq, PartialOrd, Ord, Hash, Structural)]
pub struct FuncId(pub u32);

/// A type of the type table.
#[derive(Debug, Clone, Copy, PartialEq, Eq, PartialOrd, Ord, Hash, Structural)]
pub struct TypeId(pub u32);

/// An SSA value of one function.
#[derive(Debug, Clone, Copy, PartialEq, Eq, PartialOrd, Ord, Hash, Structural)]
pub struct ValueId(pub u32);

impl View for ValueId {
    type V = ValueId;

    open spec fn view(&self) -> ValueId {
        *self
    }
}

impl Key for ValueId {
    open spec fn key_of(v: ValueId) -> Seq<int> {
        seq![v.0 as int]
    }

    proof fn key_injective(a: ValueId, b: ValueId) {
        assert(Self::key_of(a)[0] == a.0 as int);
        assert(Self::key_of(b)[0] == b.0 as int);
    }

    fn before(&self, other: &Self) -> (r: bool) {
        proof {
            reveal_with_fuel(lex_lt, 2);
            assert(seq![self.0 as int].drop_first().len() == 0);
        }
        self.0 < other.0
    }
}

/// A source position.
#[derive(Debug, PartialEq, Eq, PartialOrd, Ord, Hash)]
pub struct Pos {
    pub file: String,
    pub line: u32,
    pub col: u32,
}

impl Clone for Pos {
    fn clone(&self) -> (r: Pos)
        ensures
            r == *self,
    {
        Pos { file: self.file.clone(), line: self.line, col: self.col }
    }
}

/// The model of a [`Pos`].
pub struct PosV {
    pub file: Seq<char>,
    pub line: u32,
    pub col: u32,
}

impl View for Pos {
    type V = PosV;

    open spec fn view(&self) -> PosV {
        PosV { file: self.file@, line: self.line, col: self.col }
    }
}

/// The model of an optional position.
pub open spec fn opt_pos(p: Option<Pos>) -> Option<PosV> {
    match p {
        Some(p) => Some(p@),
        None => None,
    }
}

/// A copy of an optional position.
pub fn clone_pos(p: &Option<Pos>) -> (r: Option<Pos>)
    ensures
        r == *p,
{
    match p {
        Some(q) => Some(q.clone()),
        None => None,
    }
}

/// What a type is.
#[derive(Debug, PartialEq, Eq)]
pub enum TypeKind {
    Named { name: String, underlying: TypeId },
    Basic { name: String },
    Array { elem: TypeId, len: u64 },
    Pointer { elem: TypeId },
    Slice { elem: TypeId },
    MapOf,
    Chan,
    Struct,
    Interface,
    Tuple,
    Signature { params: Vec<TypeId>, results: Vec<TypeId> },
    Unknown,
}

/// A type with its printed form.
#[derive(Debug, PartialEq, Eq)]
pub struct TypeEntry {
    pub repr: String,
    pub kind: TypeKind,
}

/// All types of a program, by id.
#[derive(Debug, PartialEq, Eq)]
pub struct TypeTable {
    pub entries: Vec<TypeEntry>,
}

impl TypeTable {
    /// What the type is; unknown ids are [`TypeKind::Unknown`].
    pub open spec fn kind_of(&self, t: TypeId) -> TypeKind {
        if t.0 < self.entries@.len() {
            self.entries@[t.0 as int].kind
        } else {
            TypeKind::Unknown
        }
    }

    /// What the type is; `None` is an unknown id.
    pub fn kind(&self, t: TypeId) -> (r: Option<&TypeKind>)
        ensures
            match r {
                Some(k) => *k == self.kind_of(t),
                None => self.kind_of(t) == TypeKind::Unknown,
            },
    {
        if (t.0 as usize) < self.entries.len() {
            Some(&self.entries[t.0 as usize].kind)
        } else {
            None
        }
    }

    /// The printed form of the type, empty for an unknown id.
    pub fn repr(&self, t: TypeId) -> (r: &str)
        ensures
            t.0 < self.entries@.len() ==> r@ == self.entries@[t.0 as int].repr@,
            t.0 >= self.entries@.len() ==> r@.len() == 0,
    {
        if (t.0 as usize) < self.entries.len() {
            self.entries[t.0 as usize].repr.as_str()
        } else {
            proof {
                reveal_strlit("");
            }
            ""
        }
    }

    /// The type behind at most `hops` names.
    pub open spec fn peel(&self, t: TypeId, hops: nat) -> TypeId
        decreases hops,
    {
        match self.kind_of(t) {
            TypeKind::Named { name, underlying } => if hops == 0 {
                t
            } else {
                self.peel(underlying, (hops - 1) as nat)
            },
            _ => t,
        }
    }

    /// The type behind all its names. A chain of names that closes on itself has no such
    /// type: following it stops at a name again.
    pub open spec fn underlying_of(&self, t: TypeId) -> TypeId {
        self.peel(t, self.entries@.len())
    }

    /// What the type is once its names are peeled off.
    pub open spec fn base_kind(&self, t: TypeId) -> TypeKind {
        self.kind_of(self.underlying_of(t))
    }

    /// The type behind all its names.
    pub fn underlying(&self, t: TypeId) -> (r: TypeId)
        ensures
            r == self.underlying_of(t),
    {
        let mut cur = t;
        let mut left: usize = self.entries.len();
        while left > 0
            invariant
                left <= self.entries@.len(),
                self.peel(cur, left as nat) == self.underlying_of(t),
            decreases left,
        {
            match self.kind(cur) {
                Some(TypeKind::Named { underlying, .. }) => {
                    cur = *underlying;
                },
                _ => {
                    return cur;
                },
            }
            left -= 1;
        }
        cur
    }
}

/// A constant.
#[derive(Debug, PartialEq, Eq)]
pub enum ConstVal {
    Bool(bool),
    Int(i64),
    Nil,
    Str(Vec<u8>),
    BigInt,
    Float,
    Complex,
    Opaque,
}

/// Where a value comes from.
#[derive(Debug, PartialEq, Eq)]
pub enum ValueKind {
    Param,
    FreeVar,
    Global(String),
    Const(ConstVal),
    Register,
    Opaque,
}

/// A value's type and origin.
#[derive(Debug, PartialEq, Eq)]
pub struct ValueInfo {
    pub ty: TypeId,
    pub kind: ValueKind,
}

/// What a call calls.
#[derive(Debug, PartialEq, Eq)]
pub enum Callee {
    Static(FuncId),
    Dynamic { value: ValueId },
    Invoke { method: String },
    Builtin(String),
}

/// A mutex operation.
#[derive(Debug, Clone, Copy, PartialEq, Eq, Structural)]
pub enum LockKind {
    Lock,
    Unlock,
    RLock,
    RUnlock,
}

/// What `make` makes.
#[derive(Debug, Clone, Copy, PartialEq, Eq, Structural)]
pub enum MakeKind {
    Slice,
    MapOf,
    Chan,
}

/// Unary operators.
#[derive(Debug, Clone, Copy, PartialEq, Eq, Structural)]
pub enum UnOpKind {
    Not,
    Neg,
    BitNot,
}

/// Binary operators.
#[derive(Debug, Clone, Copy, PartialEq, Eq, Structural)]
pub enum BinOpKind {
    Add,
    Sub,
    Mul,
    Div,
    Rem,
    And,
    Or,
    Xor,
    Shl,
    Shr,
    AndNot,
    Eq,
    Neq,
    Lt,
    Leq,
    Gt,
    Geq,
}

/// One arm of a `select`; direction 1 sends, direction 2 receives.
#[derive(Debug, Clone, Copy, PartialEq, Eq, Structural)]
pub struct SelectArm {
    pub dir: u32,
    pub chan: ValueId,
    pub send: Option<ValueId>,
}

/// An instruction's operation.
#[allow(inconsistent_fields)]
#[derive(Debug, PartialEq, Eq)]
pub enum Op {
    Assign { dst: ValueId, src: ValueId },
    Alloc { dst: ValueId, heap: bool },
    Load { dst: ValueId, addr: ValueId },
    Store { addr: ValueId, val: ValueId },
    FieldAddr { dst: ValueId, base: ValueId, field: u32 },
    Field { dst: ValueId, base: ValueId, field: u32 },
    IndexAddr { dst: ValueId, base: ValueId, index: ValueId },
    Index { dst: ValueId, base: ValueId, index: ValueId },
    Lookup { dst: ValueId, map: ValueId, key: ValueId, comma_ok: bool },
    Slice {
        dst: ValueId,
        base: ValueId,
        low: Option<ValueId>,
        high: Option<ValueId>,
        max: Option<ValueId>,
    },
    BinOp { dst: ValueId, kind: BinOpKind, lhs: ValueId, rhs: ValueId },
    UnOp { dst: ValueId, kind: UnOpKind, operand: ValueId },
    Convert { dst: ValueId, src: ValueId },
    Extract { dst: ValueId, tuple: ValueId, index: u32 },
    Phi { dst: ValueId, edges: Vec<ValueId> },
    Call { dst: Option<ValueId>, callee: Callee, args: Vec<ValueId> },
    MakeClosure { dst: ValueId, func: FuncId, bindings: Vec<ValueId> },
    MakeInterface { dst: ValueId, src: ValueId },
    Make { dst: ValueId, kind: MakeKind, args: Vec<ValueId> },
    Send { chan: ValueId, val: ValueId },
    Recv { dst: ValueId, chan: ValueId, comma_ok: bool },
    CloseChan { chan: ValueId },
    Select { dst: ValueId, arms: Vec<SelectArm>, blocking: bool },
    Go { callee: Callee, args: Vec<ValueId> },
    Defer { callee: Callee, args: Vec<ValueId> },
    Return { vals: Vec<ValueId> },
    Jump,
    Branch { cond: ValueId },
    Panic { val: ValueId },
    TypeAssert { dst: ValueId, src: ValueId, comma_ok: bool },
    Lock { kind: LockKind, mu: ValueId },
    Havoc { dst: Option<ValueId> },
}

/// An instruction.
#[derive(Debug, PartialEq, Eq)]
pub struct Instr {
    pub op: Op,
    pub pos: Option<Pos>,
}

/// A basic block.
#[derive(Debug, PartialEq, Eq)]
pub struct Block {
    pub instrs: Vec<Instr>,
    pub succs: Vec<u32>,
    pub preds: Vec<u32>,
}

/// A function body.
#[derive(Debug, PartialEq, Eq)]
pub struct Function {
    pub params: Vec<ValueId>,
    pub free_vars: Vec<ValueId>,
    pub sig: TypeId,
    pub values: Vec<ValueInfo>,
    pub blocks: Vec<Block>,
}

/// An instruction's place: block index and index in the block.
pub type Site = (usize, usize);

/// The first index of `x` in `s`.
pub open spec fn first_index(s: Seq<ValueId>, x: ValueId, from: int) -> Option<int>
    decreases s.len() - from,
{
    if from < 0 || from >= s.len() {
        None
    } else if s[from] == x {
        Some(from)
    } else {
        first_index(s, x, from + 1)
    }
}

/// The first index of `x` in `v`.
pub fn position_of(v: &Vec<ValueId>, x: ValueId) -> (r: Option<usize>)
    ensures
        match r {
            Some(i) => first_index(v@, x, 0) == Some(i as int) && i < v@.len() && v@[i as int] == x,
            None => first_index(v@, x, 0) is None && !v@.contains(x),
        },
{
    let mut i: usize = 0;
    while i < v.len()
        invariant
            i <= v@.len(),
            first_index(v@, x, 0) == first_index(v@, x, i as int),
            forall|j: int| 0 <= j < i ==> v@[j] != x,
        decreases v@.len() - i,
    {
        if v[i] == x {
            return Some(i);
        }
        i += 1;
    }
    None
}

impl Function {
    /// The type of a value; a value of no function has no known type.
    pub open spec fn type_of(&self, v: ValueId) -> TypeId {
        if v.0 < self.values@.len() {
            self.values@[v.0 as int].ty
        } else {
            TypeId(u32::MAX)
        }
    }

    /// The origin of a value.
    pub open spec fn kind_of(&self, v: ValueId) -> ValueKind {
        if v.0 < self.values@.len() {
            self.values@[v.0 as int].kind
        } else {
            ValueKind::Opaque
        }
    }

    /// The type of a value.
    pub fn value_type(&self, v: ValueId) -> (r: TypeId)
        ensures
            r == self.type_of(v),
    {
        if (v.0 as usize) < self.values.len() {
            self.values[v.0 as usize].ty
        } else {
            TypeId(u32::MAX)
        }
    }

    /// The origin of a value; `None` is a value that is not in the function.
    pub fn value_kind(&self, v: ValueId) -> (r: Option<&ValueKind>)
        ensures
            match r {
                Some(k) => *k == self.kind_of(v),
                None => self.kind_of(v) == ValueKind::Opaque,
            },
    {
        if (v.0 as usize) < self.values.len() {
            Some(&self.values[v.0 as usize].kind)
        } else {
            None
        }
    }

    /// Whether `s` names an instruction.
    pub open spec fn has_site(&self, s: Site) -> bool {
        s.0 < self.blocks@.len() && s.1 < self.blocks@[s.0 as int].instrs@.len()
    }

    /// The operation at `s`.
    pub open spec fn op_at(&self, s: Site) -> Op {
        self.blocks@[s.0 as int].instrs@[s.1 as int].op
    }

    /// The source position of the instruction at `s`.
    pub open spec fn pos_at(&self, s: Site) -> Option<Pos> {
        self.blocks@[s.0 as int].instrs@[s.1 as int].pos
    }

    /// The operation at `s`.
    pub fn op(&self, s: Site) -> (r: &Op)
        requires
            self.has_site(s),
        ensures
            *r == self.op_at(s),
    {
        &self.blocks[s.0].instrs[s.1].op
    }

    /// The instructions of block `b`, in order.
    pub open spec fn block_sites(&self, b: int) -> Seq<Site> {
        Seq::new(self.blocks@[b].instrs@.len(), |i: int| (b as usize, i as usize))
    }

    /// The instructions of the first `n` blocks, in order.
    pub open spec fn sites_upto(&self, n: int) -> Seq<Site>
        decreases n,
    {
        if n <= 0 {
            Seq::empty()
        } else {
            self.sites_upto(n - 1) + self.block_sites(n - 1)
        }
    }

    /// Every instruction of the function, block by block.
    pub open spec fn sites(&self) -> Seq<Site> {
        self.sites_upto(self.blocks@.len() as int)
    }

    proof fn lemma_sites_upto(&self, n: int)
        requires
            0 <= n <= self.blocks@.len(),
        ensures
            forall|k: int|
                0 <= k < self.sites_upto(n).len() ==> self.has_site(
                    #[trigger] self.sites_upto(n)[k],
                ) && self.sites_upto(n)[k].0 < n,
            forall|s: Site|
                #![trigger self.has_site(s)]
                self.has_site(s) && s.0 < n ==> self.sites_upto(n).contains(s),
        decreases n,
    {
        if n > 0 {
            self.lemma_sites_upto(n - 1);
            let head = self.sites_upto(n - 1);
            let tail = self.block_sites(n - 1);
            assert(self.sites_upto(n) == head + tail);
            assert(self.blocks.len() == self.blocks@.len());
            assert(self.blocks@[n - 1].instrs.len() == self.blocks@[n - 1].instrs@.len());
            assert forall|k: int| 0 <= k < self.sites_upto(n).len() implies self.has_site(
                #[trigger] self.sites_upto(n)[k],
            ) && self.sites_upto(n)[k].0 < n by {
                if k < head.len() {
                    assert(self.sites_upto(n)[k] == head[k]);
                } else {
                    assert(self.sites_upto(n)[k] == tail[k - head.len()]);
                }
            }
            assert forall|s: Site|
                #![trigger self.has_site(s)]
                self.has_site(s) && s.0 < n implies self.sites_upto(n).contains(s) by {
                if s.0 < n - 1 {
                    let k = choose|k: int| 0 <= k < head.len() && head[k] == s;
                    assert(self.sites_upto(n)[k] == s);
                } else {
                    assert(tail[s.1 as int] == s);
                    assert(self.sites_upto(n)[head.len() + s.1] == s);
                }
            }
        }
    }

    /// `sites` lists the instructions and nothing else.
    pub proof fn lemma_sites(&self)
        ensures
            forall|k: int|
                0 <= k < self.sites().len() ==> self.has_site(#[trigger] self.sites()[k]),
            forall|s: Site| #[trigger] self.has_site(s) ==> self.sites().contains(s),
    {
        self.lemma_sites_upto(self.blocks@.len() as int);
    }

    /// Every instruction of the function, block by block.
    pub fn all_sites(&self) -> (r: Vec<Site>)
        ensures
            r@ == self.sites(),
            forall|k: int| 0 <= k < r@.len() ==> self.has_site(#[trigger] r@[k]),
    {
        let mut out: Vec<Site> = Vec::new();
        let mut b: usize = 0;
        while b < self.blocks.len()
            invariant
                b <= self.blocks@.len(),
                out@ == self.sites_upto(b as int),
            decreases self.blocks@.len() - b,
        {
            let mut i: usize = 0;
            let n = self.blocks[b].instrs.len();
            assert(self.block_sites(b as int).take(0) =~= Seq::<Site>::empty());
            while i < n
                invariant
                    b < self.blocks@.len(),
                    n == self.blocks@[b as int].instrs@.len(),
                    i <= n,
                    out@ == self.sites_upto(b as int) + self.block_sites(b as int).take(i as int),
                decreases n - i,
            {
                out.push((b, i));
                assert(self.block_sites(b as int).take(i as int + 1) =~= self.block_sites(
                    b as int,
                ).take(i as int).push((b, i)));
                i += 1;
            }
            assert(self.block_sites(b as int).take(n as int) =~= self.block_sites(b as int));
            b += 1;
        }
        proof {
            self.lemma_sites();
        }
        out
    }
}

/// A function's name and, where it has one, its body.
#[derive(Debug, PartialEq, Eq)]
pub struct FuncDecl {
    pub name: String,
    pub body: Option<Function>,
    /// A digest of everything in the program that the body's analysis reads.
    pub ir_hash: [u8; 32],
}

/// A whole program.
#[derive(Debug, PartialEq, Eq)]
pub struct Program {
    pub funcs: Vec<FuncDecl>,
    pub types: TypeTable,
}

impl Program {
    /// The body of `f`, if it has one.
    pub open spec fn body(&self, f: FuncId) -> Option<Function> {
        if f.0 < self.funcs@.len() {
            self.funcs@[f.0 as int].body
        } else {
            None
        }
    }

    /// The name of `f`, empty for an unknown id.
    pub open spec fn name_of(&self, f: FuncId) -> Seq<char> {
        if f.0 < self.funcs@.len() {
            self.funcs@[f.0 as int].name@
        } else {
            Seq::empty()
        }
    }

    /// The digest of `f`, where `f` is a function of the program.
    pub open spec fn hash_of(&self, f: FuncId) -> Seq<u8> {
        self.funcs@[f.0 as int].ir_hash@
    }

    /// The digest of `f`.
    pub fn func_ir_hash(&self, f: FuncId) -> (r: [u8; 32])
        requires
            f.0 < self.funcs@.len(),
        ensures
            r@ == self.hash_of(f),
    {
        self.funcs[f.0 as usize].ir_hash
    }

    /// The body of `f`, if it has one.
    pub fn func(&self, f: FuncId) -> (r: Option<&Function>)
        ensures
            match r {
                Some(b) => self.body(f) == Some(*b),
                None => self.body(f) is None,
            },
    {
        if (f.0 as usize) < self.funcs.len() {
            match &self.funcs[f.0 as usize].body {
                Some(b) => Some(b),
                None => None,
            }
        } else {
            None
        }
    }

    /// The name of `f`.
    pub fn func_name(&self, f: FuncId) -> (r: &str)
        ensures
            r@ == self.name_of(f),
    {
        if (f.0 as usize) < self.funcs.len() {
            self.funcs[f.0 as usize].name.as_str()
        } else {
            proof {
                reveal_strlit("");
                assert(""@ =~= Seq::<char>::empty());
            }
            ""
        }
    }

    /// The first function with this name.
    pub fn lookup_func(&self, name: &str) -> (r: Option<FuncId>)
        ensures
            match r {
                Some(f) => f.0 < self.funcs@.len() && self.name_of(f) == name@ && forall|i: int|
                    0 <= i < f.0 ==> (#[trigger] self.funcs@[i]).name@ != name@,
                None => forall|i: int|
                    0 <= i < self.funcs@.len() && i <= u32::MAX ==> (#[trigger] self.funcs@[i]).name@ != name@,
            },
    {
        let mut i: usize = 0;
        while i < self.funcs.len() && i <= u32::MAX as usize
            invariant
                i <= self.funcs@.len(),
                forall|j: int| 0 <= j < i ==> (#[trigger] self.funcs@[j]).name@ != name@,
            decreases self.funcs@.len() - i,
        {
            if same_text(self.funcs[i].name.as_str(), name) {
                return Some(FuncId(i as u32));
            }
            i += 1;
        }
        None
    }
}

/// Whether two texts are equal.
pub fn same_text(a: &str, b: &str) -> (r: bool)
    ensures
        r == (a@ == b@),
{
    let x = a.to_string();
    let y = b.to_string();
    x == y
}

/// The mutex operation that a function of this name performs.
pub open spec fn lock_kind_of(name: Seq<char>) -> Option<LockKind> {
    if name == "(*sync.Mutex).Lock"@ || name == "(*sync.RWMutex).Lock"@ {
        Some(LockKind::Lock)
    } else if name == "(*sync.Mutex).Unlock"@ || name == "(*sync.RWMutex).Unlock"@ {
        Some(LockKind::Unlock)
    } else if name == "(*sync.RWMutex).RLock"@ {
        Some(LockKind::RLock)
    } else if name == "(*sync.RWMutex).RUnlock"@ {
        Some(LockKind::RUnlock)
    } else {
        None
    }
}

/// The mutex operation that a function of this name performs.
pub fn lock_kind(name: &str) -> (r: Option<LockKind>)
    ensures
        r == lock_kind_of(name@),
{
    if same_text(name, "(*sync.Mutex).Lock") || same_text(name, "(*sync.RWMutex).Lock") {
        Some(LockKind::Lock)
    } else if same_text(name, "(*sync.Mutex).Unlock") || same_text(name, "(*sync.RWMutex).Unlock") {
        Some(LockKind::Unlock)
    } else if same_text(name, "(*sync.RWMutex).RLock") {
        Some(LockKind::RLock)
    } else if same_text(name, "(*sync.RWMutex).RUnlock") {
        Some(LockKind::RUnlock)
    } else {
        None
    }
}

/// Which functions each function may call.
#[derive(Debug, PartialEq, Eq)]
pub struct CallGraph {
    pub edges: Vec<Vec<FuncId>>,
}

impl CallGraph {
    /// The callees of `f`.
    pub open spec fn callees_of(&self, f: FuncId) -> Seq<FuncId> {
        if f.0 < self.edges@.len() {
            self.edges@[f.0 as int]@
        } else {
            Seq::empty()
        }
    }

    /// The number of callees of `f`.
    pub fn callee_count(&self, f: FuncId) -> (r: usize)
        ensures
            r == self.callees_of(f).len(),
    {
        if (f.0 as usize) < self.edges.len() {
            self.edges[f.0 as usize].len()
        } else {
            0
        }
    }

    /// The callee of `f` at position `i`.
    pub fn callee_at(&self, f: FuncId, i: usize) -> (r: FuncId)
        requires
            i < self.callees_of(f).len(),
        ensures
            r == self.callees_of(f)[i as int],
    {
        self.edges[f.0 as usize][i]
    }
}

/// The strongly connected components of the call graph, callees first.
#[derive(Debug, PartialEq, Eq)]
pub struct Sccs {
    /// The members of each component.
    pub schedule: Vec<Vec<FuncId>>,
    /// For each component, the other components that it calls, by their place in `schedule`.
    pub callee_sccs: Vec<Vec<usize>>,
}

impl Sccs {
    /// Whether component `i` has the member `f`.
    pub open spec fn has(&self, i: int, f: FuncId) -> bool {
        0 <= i < self.schedule@.len() && self.schedule@[i]@.contains(f)
    }

    /// Whether no function is in two components.
    pub open spec fn disjoint(&self) -> bool {
        forall|a: int, b: int, f: FuncId| #[trigger]
            self.has(a, f) && #[trigger] self.has(b, f) ==> a == b
    }

    /// The members are functions of a program with `n` functions, none of them in two
    /// components, and a component calls earlier ones only.
    pub open spec fn wf(&self, n: nat) -> bool {
        &&& self.callee_sccs@.len() == self.schedule@.len()
        &&& forall|i: int, j: int|
            0 <= i < self.schedule@.len() && 0 <= j < self.schedule@[i]@.len() ==> (
            #[trigger] self.schedule@[i]@[j]).0 < n
        &&& forall|i: int, j: int|
            0 <= i < self.callee_sccs@.len() && 0 <= j < self.callee_sccs@[i]@.len() ==> (
            #[trigger] self.callee_sccs@[i]@[j]) < i
        &&& self.disjoint()
    }

    /// Whether no function is in two components, given that all members are below `n`.
    fn check_disjoint(&self, n: usize) -> (r: bool)
        requires
            forall|i: int, j: int|
                0 <= i < self.schedule@.len() && 0 <= j < self.schedule@[i]@.len() ==> (
                #[trigger] self.schedule@[i]@[j]).0 < n,
        ensures
            r == self.disjoint(),
    {
        // For each function the component that it is in.
        let mut owners: Vec<Option<usize>> = Vec::new();
        let mut x: usize = 0;
        while x < n
            invariant
                x <= n,
                owners@.len() == x,
                forall|y: int| 0 <= y < x ==> (#[trigger] owners@[y]) is None,
            decreases n - x,
        {
            owners.push(None);
            x += 1;
        }
        let mut i: usize = 0;
        while i < self.schedule.len()
            invariant
                i <= self.schedule@.len(),
                owners@.len() == n,
                forall|i: int, j: int|
                    0 <= i < self.schedule@.len() && 0 <= j < self.schedule@[i]@.len() ==> (
                    #[trigger] self.schedule@[i]@[j]).0 < n,
                forall|a: int, f: FuncId|
                    a < i && #[trigger] self.has(a, f) ==> f.0 < n && owners@[f.0 as int] == Some(
                        a as usize,
                    ),
                forall|y: int|
                    0 <= y < n ==> ((#[trigger] owners@[y]) matches Some(a) ==> a < i && self.has(
                        a as int,
                        FuncId(y as u32),
                    )),
            decreases self.schedule@.len() - i,
        {
            let mut j: usize = 0;
            while j < self.schedule[i].len()
                invariant
                    i < self.schedule@.len(),
                    j <= self.schedule@[i as int]@.len(),
                    owners@.len() == n,
                    forall|i: int, j: int|
                        0 <= i < self.schedule@.len() && 0 <= j < self.schedule@[i]@.len() ==> (
                        #[trigger] self.schedule@[i]@[j]).0 < n,
                    forall|a: int, f: FuncId|
                        a < i && #[trigger] self.has(a, f) ==> f.0 < n && owners@[f.0 as int] == Some(
                            a as usize,
                        ),
                    forall|b: int|
                        0 <= b < j ==> owners@[(#[trigger] self.schedule@[i as int]@[b]).0 as int] == Some(
                            i,
                        ),
                    forall|y: int|
                        0 <= y < n ==> ((#[trigger] owners@[y]) matches Some(a) ==> a <= i && self.has(
                            a as int,
                            FuncId(y as u32),
                        )),
                decreases self.schedule@[i as int]@.len() - j,
            {
                let f = self.schedule[i][j];
                assert(self.schedule@[i as int]@[j as int].0 < n);
                assert(self.has(i as int, f));
                assert(FuncId(f.0 as int as u32) == f);
                if let Some(a) = owners[f.0 as usize] {
                    if a != i {
                        assert(self.has(a as int, f));
                        return false;
                    }
                }
                proof {
                    assert forall|a: int, g: FuncId| a < i && #[trigger] self.has(a, g) implies g
                        != f by {
                        if g == f {
                            assert(owners@[f.0 as int] == Some(a as usize));
                        }
                    }
                }
                owners.set(f.0 as usize, Some(i));
                j += 1;
            }
            i += 1;
            proof {
                let last = i - 1;
                assert forall|a: int, f: FuncId| a < i && #[trigger] self.has(a, f) implies f.0 < n
                    && owners@[f.0 as int] == Some(a as usize) by {
                    if a == last {
                        let b = choose|b: int|
                            0 <= b < self.schedule@[last]@.len() && self.schedule@[last]@[b] == f;
                        assert(self.schedule@[last]@[b].0 < n);
                    }
                }
            }
        }
        assert(self.disjoint());
        true
    }

    /// Whether [`Sccs::wf`] holds.
    pub fn check(&self, n: usize) -> (r: bool)
        ensures
            r == self.wf(n as nat),
    {
        if self.callee_sccs.len() != self.schedule.len() {
            return false;
        }
        let mut i: usize = 0;
        while i < self.schedule.len()
            invariant
                i <= self.schedule@.len(),
                self.callee_sccs@.len() == self.schedule@.len(),
                forall|a: int, b: int|
                    0 <= a < i && 0 <= b < self.schedule@[a]@.len() ==> (
                    #[trigger] self.schedule@[a]@[b]).0 < n,
                forall|a: int, b: int|
                    0 <= a < i && 0 <= b < self.callee_sccs@[a]@.len() ==> (
                    #[trigger] self.callee_sccs@[a]@[b]) < a,
            decreases self.schedule@.len() - i,
        {
            let mut j: usize = 0;
            while j < self.schedule[i].len()
                invariant
                    i < self.schedule@.len(),
                    j <= self.schedule@[i as int]@.len(),
                    forall|b: int|
                        0 <= b < j ==> (#[trigger] self.schedule@[i as int]@[b]).0 < n,
                decreases self.schedule@[i as int]@.len() - j,
            {
                if self.schedule[i][j].0 as usize >= n {
                    assert(!(self.schedule@[i as int]@[j as int].0 < n));
                    return false;
                }
                j += 1;
            }
            let mut k: usize = 0;
            while k < self.callee_sccs[i].len()
                invariant
                    i < self.schedule@.len(),
                    self.callee_sccs@.len() == self.schedule@.len(),
                    k <= self.callee_sccs@[i as int]@.len(),
                    forall|b: int|
                        0 <= b < k ==> (#[trigger] self.callee_sccs@[i as int]@[b]) < i,
                decreases self.callee_sccs@[i as int]@.len() - k,
            {
                if self.callee_sccs[i][k] >= i {
                    assert(!(self.callee_sccs@[i as int]@[k as int] < i));
                    return false;
                }
                k += 1;
            }
            i += 1;
        }
        self.check_disjoint(n)
    }
}

} // verus!
