//! The intermediate representation's operations, held in an arena: each operation has a
//! kind, an optional symbol name, a parent, operands and results, and — for symbol tables — a
//! table mapping names to nested operations.
use vstd::prelude::*;

verus! {

/// A reference to an operation: its index in the context's arena.
#[derive(Clone, Copy, Debug, PartialEq, Eq, Structural)]
pub struct OperationRef {
    pub index: usize,
}

/// A reference to a value: its index in the context's value list.
#[derive(Clone, Copy, Debug, PartialEq, Eq, Structural)]
pub struct ValueRef {
    pub index: usize,
}

pub type WorldRef = OperationRef;

pub type ComponentRef = OperationRef;

pub type InterfaceRef = OperationRef;

pub type ModuleRef = OperationRef;

pub type FunctionRef = OperationRef;

pub type GlobalVariableRef = OperationRef;

pub type SegmentRef = OperationRef;

/// The fully-qualified name of an operation: its dialect and its name within the dialect.
#[derive(Clone, Debug)]
pub struct OperationName {
    pub dialect: String,
    pub name: String,
}

/// The visibility of a symbol.
#[derive(Clone, Copy, Debug, PartialEq, Eq, Structural)]
pub enum Visibility {
    Public,
    Internal,
    Private,
}

/// The types of values.
#[derive(Debug, PartialEq, Eq)]
pub enum Type {
    Unknown,
    I1,
    I8,
    U8,
    I16,
    U16,
    I32,
    U32,
    I64,
    U64,
    I128,
    U128,
    Felt,
    Ptr(Box<Type>),
}

impl Clone for Type {
    fn clone(&self) -> (r: Type)
        ensures
            r == *self,
        decreases self,
    {
        match self {
            Type::Unknown => Type::Unknown,
            Type::I1 => Type::I1,
            Type::I8 => Type::I8,
            Type::U8 => Type::U8,
            Type::I16 => Type::I16,
            Type::U16 => Type::U16,
            Type::I32 => Type::I32,
            Type::U32 => Type::U32,
            Type::I64 => Type::I64,
            Type::U64 => Type::U64,
            Type::I128 => Type::I128,
            Type::U128 => Type::U128,
            Type::Felt => Type::Felt,
            Type::Ptr(t) => Type::Ptr(Box::new((**t).clone())),
        }
    }
}

impl Type {
    /// The type pointed to, when this is a pointer type.
    pub fn pointee(&self) -> (r: Option<Type>)
        ensures
            r == (match *self {
                Type::Ptr(t) => Some(*t),
                _ => None,
            }),
    {
        match self {
            Type::Ptr(t) => Some((**t).clone()),
            _ => None,
        }
    }
}

/// A function signature: parameter types, result types and visibility.
#[derive(Clone, Debug)]
pub struct Signature {
    pub params: Vec<Type>,
    pub results: Vec<Type>,
    pub visibility: Visibility,
}

/// An immediate (constant) value.
#[derive(Clone, Copy, Debug, PartialEq, Eq, Structural)]
pub enum Immediate {
    I1(bool),
    U8(u8),
    I8(i8),
    U16(u16),
    I16(i16),
    U32(u32),
    I32(i32),
    U64(u64),
    I64(i64),
    Felt(u64),
}

/// The type of an immediate value.
pub open spec fn immediate_type(i: Immediate) -> Type {
    match i {
        Immediate::I1(_) => Type::I1,
        Immediate::U8(_) => Type::U8,
        Immediate::I8(_) => Type::I8,
        Immediate::U16(_) => Type::U16,
        Immediate::I16(_) => Type::I16,
        Immediate::U32(_) => Type::U32,
        Immediate::I32(_) => Type::I32,
        Immediate::U64(_) => Type::U64,
        Immediate::I64(_) => Type::I64,
        Immediate::Felt(_) => Type::Felt,
    }
}

impl Immediate {
    /// The type of this immediate.
    pub fn ty(&self) -> (r: Type)
        ensures
            r == immediate_type(*self),
    {
        match self {
            Immediate::I1(_) => Type::I1,
            Immediate::U8(_) => Type::U8,
            Immediate::I8(_) => Type::I8,
            Immediate::U16(_) => Type::U16,
            Immediate::I16(_) => Type::I16,
            Immediate::U32(_) => Type::U32,
            Immediate::I32(_) => Type::I32,
            Immediate::U64(_) => Type::U64,
            Immediate::I64(_) => Type::I64,
            Immediate::Felt(_) => Type::Felt,
        }
    }
}

/// Each immediate is typed by the type of its own width and signedness: a
/// signed immediate never gets an unsigned type, nor the reverse, and a field
/// element is a `Felt`.
pub proof fn lemma_immediate_types(i: Immediate)
    ensures
        i is I1 ==> immediate_type(i) == Type::I1,
        i is U8 ==> immediate_type(i) == Type::U8,
        i is I8 ==> immediate_type(i) == Type::I8,
        i is U16 ==> immediate_type(i) == Type::U16,
        i is I16 ==> immediate_type(i) == Type::I16,
        i is U32 ==> immediate_type(i) == Type::U32,
        i is I32 ==> immediate_type(i) == Type::I32,
        i is U64 ==> immediate_type(i) == Type::U64,
        i is I64 ==> immediate_type(i) == Type::I64,
        i is Felt ==> immediate_type(i) == Type::Felt,
{
}

/// How arithmetic treats overflow.
#[derive(Clone, Copy, Debug, PartialEq, Eq, Structural)]
pub enum Overflow {
    /// Trap on overflow.
    Checked,
    /// Overflow is undefined behavior.
    Unchecked,
    /// Wrap around on overflow.
    Wrapping,
}

/// The kinds of operations.
#[derive(Clone, Copy, Debug, PartialEq, Eq, Structural)]
pub enum OpKind {
    World,
    Component,
    Interface,
    Module,
    Function,
    GlobalVariable,
    Segment,
    SymbolTableHolder,
    Constant,
    Add,
    Mul,
    Shl,
    Eq,
    Neq,
    Load,
    Store,
    Ret,
    RetImm,
    GlobalSymbol,
    MemGrow,
    MemSize,
    MemSet,
    MemCpy,
    Breakpoint,
    Incr,
    Neg,
    Inv,
    Ilog2,
    Pow2,
    Not,
    Bnot,
    IsOdd,
    Popcnt,
    Clz,
    Ctz,
    Clo,
    Cto,
}

/// Whether operations of this kind hold a symbol table.
pub open spec fn is_symbol_table_kind(k: OpKind) -> bool {
    k == OpKind::World || k == OpKind::Component || k == OpKind::Module || k
        == OpKind::SymbolTableHolder
}

/// An entry of a symbol table: a name and the operation it names.
#[derive(Clone, Debug)]
pub struct SymbolEntry {
    pub name: String,
    pub op: OperationRef,
}

/// The attributes an operation may carry.
#[derive(Clone, Debug)]
pub struct Attributes {
    pub visibility: Visibility,
    pub ty: Type,
    pub signature: Option<Signature>,
    pub immediate: Option<Immediate>,
    pub overflow: Option<Overflow>,
    pub offset: i64,
    pub data: Vec<u8>,
    pub readonly: bool,
}

impl Attributes {
    /// No attribute set: public visibility, unknown type, no signature, immediate or overflow
    /// mode, offset zero, no data, writable.
    pub fn none() -> (r: Attributes)
        ensures
            r.visibility == Visibility::Public,
            r.ty == Type::Unknown,
            r.signature is None,
            r.immediate is None,
            r.overflow is None,
            r.offset == 0,
            r.data@.len() == 0,
            !r.readonly,
    {
        Attributes {
            visibility: Visibility::Public,
            ty: Type::Unknown,
            signature: None,
            immediate: None,
            overflow: None,
            offset: 0,
            data: Vec::new(),
            readonly: false,
        }
    }
}

/// An operation in the arena.
#[derive(Clone, Debug)]
pub struct Operation {
    pub kind: OpKind,
    /// The symbol name of the operation; empty for operations that are not symbols.
    pub name: String,
    pub parent: Option<OperationRef>,
    /// Whether the operation's body region has its entry block.
    pub has_entry_block: bool,
    pub symbols: Vec<SymbolEntry>,
    pub operands: Vec<ValueRef>,
    pub results: Vec<ValueRef>,
    pub attrs: Attributes,
}

/// The arena holding every operation and value.
pub struct Context {
    pub ops: Vec<Operation>,
    pub values: Vec<Type>,
}

/// The index of the entry named `name` in `table`, if any.
pub open spec fn find_entry(table: Seq<SymbolEntry>, name: Seq<char>) -> Option<int> {
    if exists|i: int| 0 <= i < table.len() && (#[trigger] table[i]).name@ == name {
        Some(choose|i: int| 0 <= i < table.len() && (#[trigger] table[i]).name@ == name)
    } else {
        None
    }
}

/// The operation named `name` in the symbol table of `t`, if any.
pub open spec fn lookup(ctx: &Context, t: OperationRef, name: Seq<char>) -> Option<OperationRef> {
    match find_entry(ctx.ops@[t.index as int].symbols@, name) {
        Some(i) => Some(ctx.ops@[t.index as int].symbols@[i].op),
        None => None,
    }
}

/// Whether `r` refers to an operation of `ctx`.
pub open spec fn valid_op(ctx: &Context, r: OperationRef) -> bool {
    r.index < ctx.ops@.len()
}

/// Whether `r` refers to an operation of `ctx` of kind `k`.
pub open spec fn op_is(ctx: &Context, r: OperationRef, k: OpKind) -> bool {
    valid_op(ctx, r) && ctx.ops@[r.index as int].kind == k
}

/// No two entries of `table` share a name.
pub open spec fn names_unique(table: Seq<SymbolEntry>) -> bool {
    forall|i: int, j: int|
        0 <= i < table.len() && 0 <= j < table.len() && i != j ==> (#[trigger] table[i]).name@
            != (#[trigger] table[j]).name@
}

/// The symbol table of operation `t` is well formed: names are unique, and each entry names
/// an operation of the arena that carries that name.
pub open spec fn table_wf(ctx: &Context, t: int) -> bool {
    let table = ctx.ops@[t].symbols@;
    &&& names_unique(table)
    &&& forall|i: int|
        0 <= i < table.len() ==> {
            let e = #[trigger] table[i];
            &&& e.op.index < ctx.ops@.len()
            &&& ctx.ops@[e.op.index as int].name@ == e.name@
        }
}

/// In a table whose names are unique, the entry named like entry `i` is entry `i`.
pub proof fn lemma_find_entry_at(table: Seq<SymbolEntry>, i: int)
    requires
        names_unique(table),
        0 <= i < table.len(),
    ensures
        find_entry(table, table[i].name@) == Some(i),
{
    let name = table[i].name@;
    assert(0 <= i < table.len() && (#[trigger] table[i]).name@ == name);
}

/// Appending an entry with a fresh name makes it the one found under that name, and leaves
/// every other name where it was.
pub proof fn lemma_find_entry_push(table: Seq<SymbolEntry>, e: SymbolEntry)
    requires
        names_unique(table),
        find_entry(table, e.name@) is None,
    ensures
        names_unique(table.push(e)),
        find_entry(table.push(e), e.name@) == Some(table.len() as int),
        forall|n: Seq<char>| n != e.name@ ==> find_entry(table.push(e), n) == find_entry(table, n),
{
    let t2 = table.push(e);
    assert forall|i: int, j: int|
        0 <= i < t2.len() && 0 <= j < t2.len() && i != j implies (#[trigger] t2[i]).name@
        != (#[trigger] t2[j]).name@ by {
        if i == table.len() {
            assert(t2[j] == table[j]);
            assert(!(0 <= j < table.len() && (#[trigger] table[j]).name@ == e.name@));
        } else if j == table.len() {
            assert(t2[i] == table[i]);
            assert(!(0 <= i < table.len() && (#[trigger] table[i]).name@ == e.name@));
        } else {
            assert(t2[i] == table[i] && t2[j] == table[j]);
        }
    }
    assert(t2[table.len() as int] == e);
    lemma_find_entry_at(t2, table.len() as int);
    assert forall|n: Seq<char>| n != e.name@ implies find_entry(t2, n) == find_entry(table, n) by {
        if exists|i: int| 0 <= i < table.len() && (#[trigger] table[i]).name@ == n {
            let i = choose|i: int| 0 <= i < table.len() && (#[trigger] table[i]).name@ == n;
            lemma_find_entry_at(table, i);
            assert(t2[i] == table[i]);
            lemma_find_entry_at(t2, i);
        } else {
            assert forall|i: int| 0 <= i < t2.len() implies (#[trigger] t2[i]).name@ != n by {
                if i < table.len() {
                    assert(t2[i] == table[i]);
                }
            }
        }
    }
}

/// Well-formedness of the arena depends on its operations only.
pub proof fn lemma_wf_ops_only(c1: &Context, c2: &Context)
    requires
        c1.wf(),
        c2.ops == c1.ops,
    ensures
        c2.wf(),
{
    assert forall|t: int| 0 <= t < c2.ops@.len() implies #[trigger] table_wf(c2, t) by {
        assert(table_wf(c1, t));
    }
}

impl Context {
    /// The arena is well formed: every symbol table is, every parent is an operation created
    /// before its child, and only symbol tables hold entries.
    pub open spec fn wf(&self) -> bool {
        &&& forall|t: int| 0 <= t < self.ops@.len() ==> #[trigger] table_wf(self, t)
        &&& forall|t: int|
            0 <= t < self.ops@.len() ==> match (#[trigger] self.ops@[t]).parent {
                Some(p) => p.index < t,
                None => true,
            }
        &&& forall|t: int|
            0 <= t < self.ops@.len() && !is_symbol_table_kind((#[trigger] self.ops@[t]).kind)
                ==> self.ops@[t].symbols@.len() == 0
    }

    /// An empty arena.
    pub fn new() -> (r: Context)
        ensures
            r.wf(),
            r.ops@.len() == 0,
            r.values@.len() == 0,
    {
        Context { ops: Vec::new(), values: Vec::new() }
    }

    /// The index in the symbol table of `t` of the entry named `name`, if any.
    pub fn find_entry_index(&self, t: OperationRef, name: &String) -> (r: Option<usize>)
        requires
            valid_op(self, t),
            table_wf(self, t.index as int),
        ensures
            match r {
                Some(i) => find_entry(self.ops@[t.index as int].symbols@, name@) == Some(
                    i as int,
                ),
                None => find_entry(self.ops@[t.index as int].symbols@, name@) is None,
            },
    {
        let table = &self.ops[t.index].symbols;
        let mut i: usize = 0;
        while i < table.len()
            invariant
                valid_op(self, t),
                table_wf(self, t.index as int),
                table@ == self.ops@[t.index as int].symbols@,
                i <= table@.len(),
                forall|j: int| 0 <= j < i ==> (#[trigger] table@[j]).name@ != name@,
            decreases table@.len() - i,
        {
            if table[i].name == *name {
                proof {
                    let c = choose|k: int| 0 <= k < table@.len() && (#[trigger] table@[k]).name@
                        == name@;
                    assert(table_wf(self, t.index as int));
                    assert(c == i);
                }
                return Some(i);
            }
            i += 1;
        }
        None
    }

    /// The operation named `name` in the symbol table of `t`, if any.
    pub fn lookup(&self, t: OperationRef, name: &String) -> (r: Option<OperationRef>)
        requires
            valid_op(self, t),
            table_wf(self, t.index as int),
        ensures
            r == lookup(self, t, name@),
    {
        match self.find_entry_index(t, name) {
            Some(i) => Some(self.ops[t.index].symbols[i].op),
            None => None,
        }
    }

    /// Append `op`, which holds no symbols and whose parent (if any) is already in the arena;
    /// returns its reference.
    pub fn push_op(&mut self, op: Operation) -> (r: OperationRef)
        requires
            old(self).wf(),
            op.symbols@.len() == 0,
            match op.parent {
                Some(p) => p.index < old(self).ops@.len(),
                None => true,
            },
            old(self).ops@.len() < usize::MAX,
        ensures
            final(self).wf(),
            r.index == old(self).ops@.len(),
            final(self).ops@ == old(self).ops@.push(op),
            final(self).values@ == old(self).values@,
    {
        let r = OperationRef { index: self.ops.len() };
        self.ops.push(op);
        proof {
            assert forall|t: int| 0 <= t < self.ops@.len() implies #[trigger] table_wf(self, t) by {
                if t < old(self).ops@.len() {
                    assert(self.ops@[t] == old(self).ops@[t]);
                    assert(table_wf(old(self), t));
                    let table = self.ops@[t].symbols@;
                    assert forall|i: int| 0 <= i < table.len() implies {
                        let e = #[trigger] table[i];
                        &&& e.op.index < self.ops@.len()
                        &&& self.ops@[e.op.index as int].name@ == e.name@
                    } by {
                        let e = table[i];
                        assert(old(self).ops@[t].symbols@[i] == e);
                        assert(self.ops@[e.op.index as int] == old(self).ops@[e.op.index as int]);
                    }
                }
            }
            assert forall|t: int| 0 <= t < self.ops@.len() implies match (
            #[trigger] self.ops@[t]).parent {
                Some(p) => p.index < t,
                None => true,
            } by {
                if t < old(self).ops@.len() {
                    assert(self.ops@[t] == old(self).ops@[t]);
                }
            }
            assert forall|t: int|
                0 <= t < self.ops@.len() && !is_symbol_table_kind(
                    (#[trigger] self.ops@[t]).kind,
                ) implies self.ops@[t].symbols@.len() == 0 by {
                if t < old(self).ops@.len() {
                    assert(self.ops@[t] == old(self).ops@[t]);
                }
            }
        }
        r
    }

    /// Enter operation `r` in the symbol table of `t`, under the name `r` carries; the name
    /// must not be taken there yet.
    pub fn insert_symbol(&mut self, t: OperationRef, r: OperationRef)
        requires
            old(self).wf(),
            valid_op(old(self), t),
            valid_op(old(self), r),
            is_symbol_table_kind(old(self).ops@[t.index as int].kind),
            lookup(old(self), t, old(self).ops@[r.index as int].name@) is None,
        ensures
            final(self).wf(),
            final(self).values@ == old(self).values@,
            final(self).ops@.len() == old(self).ops@.len(),
            forall|i: int|
                0 <= i < old(self).ops@.len() && i != t.index ==> final(self).ops@[i] == old(
                    self,
                ).ops@[i],
            final(self).ops@[t.index as int].kind == old(self).ops@[t.index as int].kind,
            final(self).ops@[t.index as int].name == old(self).ops@[t.index as int].name,
            final(self).ops@[t.index as int].parent == old(self).ops@[t.index as int].parent,
            final(self).ops@[t.index as int].has_entry_block == old(
                self,
            ).ops@[t.index as int].has_entry_block,
            lookup(final(self), t, old(self).ops@[r.index as int].name@) == Some(r),
            forall|n: Seq<char>|
                n != old(self).ops@[r.index as int].name@ ==> lookup(final(self), t, n) == lookup(
                    old(self),
                    t,
                    n,
                ),
    {
        let name = self.ops[r.index].name.clone();
        let entry = SymbolEntry { name, op: r };
        proof {
            assert(table_wf(old(self), t.index as int));
            lemma_find_entry_push(old(self).ops@[t.index as int].symbols@, entry);
        }
        self.ops[t.index].symbols.push(entry);
        proof {
            let old_table = old(self).ops@[t.index as int].symbols@;
            assert(self.ops@[t.index as int].symbols@ == old_table.push(entry));
            assert forall|k: int| 0 <= k < self.ops@.len() implies #[trigger] table_wf(self, k) by {
                assert(table_wf(old(self), k));
                let table = self.ops@[k].symbols@;
                assert forall|i: int| 0 <= i < table.len() implies {
                    let e = #[trigger] table[i];
                    &&& e.op.index < self.ops@.len()
                    &&& self.ops@[e.op.index as int].name@ == e.name@
                } by {
                    let e = table[i];
                    if k == t.index && i == old_table.len() {
                        assert(e == entry);
                    } else {
                        assert(e == old(self).ops@[k].symbols@[i]);
                    }
                    assert(self.ops@[e.op.index as int].name == old(self).ops@[e.op.index as int].name);
                }
            }
            assert forall|k: int| 0 <= k < self.ops@.len() implies match (
            #[trigger] self.ops@[k]).parent {
                Some(p) => p.index < k,
                None => true,
            } by {
                assert(self.ops@[k].parent == old(self).ops@[k].parent);
            }
            assert forall|k: int|
                0 <= k < self.ops@.len() && !is_symbol_table_kind(
                    (#[trigger] self.ops@[k]).kind,
                ) implies self.ops@[k].symbols@.len() == 0 by {
                assert(self.ops@[k].kind == old(self).ops@[k].kind);
                if k != t.index {
                    assert(self.ops@[k] == old(self).ops@[k]);
                }
            }
        }
    }

    /// Give operation `r` the entry block of its body region, if it has none yet.
    pub fn ensure_entry_block(&mut self, r: OperationRef)
        requires
            old(self).wf(),
            valid_op(old(self), r),
        ensures
            final(self).wf(),
            final(self).values@ == old(self).values@,
            final(self).ops@ == old(self).ops@.update(
                r.index as int,
                Operation { has_entry_block: true, ..old(self).ops@[r.index as int] },
            ),
    {
        if !self.ops[r.index].has_entry_block {
            self.ops[r.index].has_entry_block = true;
        }
        proof {
            assert(self.ops@ =~= old(self).ops@.update(
                r.index as int,
                Operation { has_entry_block: true, ..old(self).ops@[r.index as int] },
            ));
            assert forall|k: int| 0 <= k < self.ops@.len() implies #[trigger] table_wf(self, k) by {
                assert(table_wf(old(self), k));
                assert(self.ops@[k].symbols == old(self).ops@[k].symbols);
                let table = self.ops@[k].symbols@;
                assert forall|i: int| 0 <= i < table.len() implies {
                    let e = #[trigger] table[i];
                    &&& e.op.index < self.ops@.len()
                    &&& self.ops@[e.op.index as int].name@ == e.name@
                } by {
                    let e = table[i];
                    assert(e == old(self).ops@[k].symbols@[i]);
                    assert(self.ops@[e.op.index as int].name == old(self).ops@[e.op.index as int].name);
                }
            }
            assert forall|k: int| 0 <= k < self.ops@.len() implies match (
            #[trigger] self.ops@[k]).parent {
                Some(p) => p.index < k,
                None => true,
            } by {
                assert(self.ops@[k].parent == old(self).ops@[k].parent);
            }
            assert forall|k: int|
                0 <= k < self.ops@.len() && !is_symbol_table_kind(
                    (#[trigger] self.ops@[k]).kind,
                ) implies self.ops@[k].symbols@.len() == 0 by {
                assert(self.ops@[k].kind == old(self).ops@[k].kind);
                assert(self.ops@[k].symbols == old(self).ops@[k].symbols);
            }
        }
    }

    /// The kind of operation `r`.
    pub fn kind_of(&self, r: OperationRef) -> (k: OpKind)
        requires
            valid_op(self, r),
        ensures
            k == self.ops@[r.index as int].kind,
    {
        self.ops[r.index].kind
    }
}

} // verus!
