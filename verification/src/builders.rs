//! Builders that populate the arena: an operation builder with an insertion point, and the
//! specialized builders for worlds, components and modules, which create symbols in their
//! symbol tables and find them again.
//!
//! Every builder takes the arena (`Context`) explicitly; an operation created by a builder is
//! appended to the arena as a child of the builder's insertion point.
use vstd::prelude::*;
use crate::ir::{
    Attributes, ComponentRef, Context, FunctionRef, GlobalVariableRef, InterfaceRef, ModuleRef,
    OpKind, Operation, OperationRef, SegmentRef, Signature, Type, Visibility, WorldRef,
    is_symbol_table_kind, lookup, op_is, valid_op,
};

verus! {

/// A component of a symbol path.
#[derive(Debug)]
pub enum SymbolNameComponent {
    /// The root of the symbol hierarchy.
    Root,
    /// An intermediate component, naming a symbol table.
    Component(String),
    /// The last component, naming the symbol itself.
    Leaf(String),
}

/// What a path component is: `None` for the root, else whether it is a leaf, and its name.
pub open spec fn component_view(c: SymbolNameComponent) -> Option<(bool, Seq<char>)> {
    match c {
        SymbolNameComponent::Root => None,
        SymbolNameComponent::Component(n) => Some((false, n@)),
        SymbolNameComponent::Leaf(n) => Some((true, n@)),
    }
}

/// What the components of a path are.
pub open spec fn path_view(p: Seq<SymbolNameComponent>) -> Seq<Option<(bool, Seq<char>)>> {
    p.map_values(|c: SymbolNameComponent| component_view(c))
}

impl Clone for SymbolNameComponent {
    fn clone(&self) -> (r: Self)
        ensures
            component_view(r) == component_view(*self),
    {
        match self {
            SymbolNameComponent::Root => SymbolNameComponent::Root,
            SymbolNameComponent::Component(n) => SymbolNameComponent::Component(n.clone()),
            SymbolNameComponent::Leaf(n) => SymbolNameComponent::Leaf(n.clone()),
        }
    }
}

/// The operations of `c1` are still in `c2`, with the same kind, name and parent; `c2` may hold
/// more.
pub open spec fn headers_preserved(c1: &Context, c2: &Context) -> bool {
    &&& c1.ops@.len() <= c2.ops@.len()
    &&& forall|u: OperationRef|
        #![trigger c2.ops@[u.index as int]]
        valid_op(c1, u) ==> {
            &&& c2.ops@[u.index as int].kind == c1.ops@[u.index as int].kind
            &&& c2.ops@[u.index as int].name@ == c1.ops@[u.index as int].name@
            &&& c2.ops@[u.index as int].parent == c1.ops@[u.index as int].parent
        }
}

/// Every symbol found in a table of `c1` is found, the same, in `c2`.
pub open spec fn lookups_preserved(c1: &Context, c2: &Context) -> bool {
    forall|u: OperationRef, n: Seq<char>|
        valid_op(c1, u) && (#[trigger] lookup(c1, u, n)) is Some ==> lookup(c2, u, n) == lookup(
            c1,
            u,
            n,
        )
}

/// `c2` is `c1` with one operation `r` appended, of kind `k`, named `name`, child of `parent`,
/// holding no symbol; and with `r` entered in the table of `table` under `name` when `table`
/// is given. Every other table of `c1` is as it was.
pub open spec fn adds_op(
    c1: &Context,
    c2: &Context,
    r: OperationRef,
    k: OpKind,
    name: Seq<char>,
    parent: OperationRef,
    table: Option<OperationRef>,
) -> bool {
    &&& c2.ops@.len() == c1.ops@.len() + 1
    &&& r.index == c1.ops@.len()
    &&& c2.ops@[r.index as int].kind == k
    &&& c2.ops@[r.index as int].name@ == name
    &&& c2.ops@[r.index as int].parent == Some(parent)
    &&& c2.ops@[r.index as int].symbols@.len() == 0
    &&& headers_preserved(c1, c2)
    &&& c2.values@ == c1.values@
    &&& forall|u: OperationRef, n: Seq<char>|
        #![trigger lookup(c2, u, n)]
        valid_op(c1, u) ==> lookup(c2, u, n) == (if table == Some(u) && n == name {
            Some(r)
        } else {
            lookup(c1, u, n)
        })
}

/// The module named `name` in the symbol table of `t`: the symbol of that name, when it is
/// a module.
pub open spec fn module_named(ctx: &Context, t: OperationRef, name: Seq<char>) -> Option<
    OperationRef,
> {
    symbol_of_kind(ctx, t, name, OpKind::Module)
}

/// The symbol named `name` in the table of `t`, when it is an operation of kind `k`.
pub open spec fn symbol_of_kind(ctx: &Context, t: OperationRef, name: Seq<char>, k: OpKind) -> Option<
    OperationRef,
> {
    match lookup(ctx, t, name) {
        Some(s) => if op_is(ctx, s, k) {
            Some(s)
        } else {
            None
        },
        None => None,
    }
}

/// The message reporting that `name` is already defined in a symbol table.
pub open spec fn duplicate_symbol_message(name: Seq<char>) -> Seq<char> {
    "symbol '"@ + name + "' is already defined"@
}

/// A builder over `target`, an operation of kind `k` of `ctx`, can create operations: its
/// insertion point is an operation of `ctx`.
pub open spec fn builder_ready(
    ctx: &Context,
    target: OperationRef,
    k: OpKind,
    insertion: Option<OperationRef>,
) -> bool {
    &&& op_is(ctx, target, k)
    &&& match insertion {
        Some(p) => valid_op(ctx, p),
        None => false,
    }
}

/// A builder of operations: it inserts what it creates at the end of the body of its
/// insertion point, when it has one.
#[derive(Clone, Copy, Debug)]
pub struct OpBuilder {
    insertion: Option<OperationRef>,
}

impl View for OpBuilder {
    type V = Option<OperationRef>;

    closed spec fn view(&self) -> Option<OperationRef> {
        self.insertion
    }
}

impl OpBuilder {
    /// A builder with no insertion point.
    pub fn new() -> (r: OpBuilder)
        ensures
            r@ is None,
    {
        OpBuilder { insertion: None }
    }

    /// Insert what is created next at the end of the body of `op`.
    pub fn set_insertion_point_to_end(&mut self, op: OperationRef)
        ensures
            final(self)@ == Some(op),
    {
        self.insertion = Some(op);
    }

    /// The operation at the end of whose body new operations are inserted.
    pub fn insertion_block(&self) -> (r: Option<OperationRef>)
        ensures
            r == self@,
    {
        self.insertion
    }

    /// Give `op` its entry block, if it has none, and insert at its end from now on.
    pub fn create_block(&mut self, ctx: &mut Context, op: OperationRef)
        requires
            old(ctx).wf(),
            valid_op(old(ctx), op),
        ensures
            final(self)@ == Some(op),
            final(ctx).wf(),
            final(ctx).values@ == old(ctx).values@,
            final(ctx).ops@ == old(ctx).ops@.update(
                op.index as int,
                Operation { has_entry_block: true, ..old(ctx).ops@[op.index as int] },
            ),
    {
        ctx.ensure_entry_block(op);
        self.insertion = Some(op);
    }

    /// Create an operation of kind `kind`, named `name`, with attributes `attrs`, at the
    /// insertion point; when `table` is given, also enter it in that symbol table, and fail
    /// without changing anything if the name is already taken there.
    pub fn create_symbol(
        &self,
        ctx: &mut Context,
        kind: OpKind,
        name: &str,
        attrs: Attributes,
        table: Option<OperationRef>,
    ) -> (r: Result<OperationRef, String>)
        requires
            old(ctx).wf(),
            match self@ {
                Some(p) => valid_op(old(ctx), p),
                None => false,
            },
            match table {
                Some(t) => valid_op(old(ctx), t) && is_symbol_table_kind(
                    old(ctx).ops@[t.index as int].kind,
                ),
                None => true,
            },
            old(ctx).ops@.len() < usize::MAX,
        ensures
            final(ctx).wf(),
            match table {
                Some(t) => lookup(old(ctx), t, name@) is Some ==> (*final(ctx) == *old(ctx)
                    && r is Err && r->Err_0@ == duplicate_symbol_message(name@)),
                None => true,
            },
            r is Ok <==> match table {
                Some(t) => lookup(old(ctx), t, name@) is None,
                None => true,
            },
            r is Ok ==> adds_op(old(ctx), final(ctx), r->Ok_0, kind, name@, self@->Some_0, table),
            r is Ok ==> final(ctx).ops@[r->Ok_0.index as int].attrs == attrs,
    {
        let owned = name.to_owned();
        if let Some(t) = table {
            if let Some(_) = ctx.lookup(t, &owned) {
                let mut msg = "symbol '".to_owned();
                msg.append(name);
                msg.append("' is already defined");
                return Err(msg);
            }
        }
        let parent = match self.insertion {
            Some(p) => p,
            None => {
                return Err("no insertion point".to_owned());
            },
        };
        let op = Operation {
            kind,
            name: owned,
            parent: Some(parent),
            has_entry_block: false,
            symbols: Vec::new(),
            operands: Vec::new(),
            results: Vec::new(),
            attrs,
        };
        let ghost c0 = *ctx;
        let r = ctx.push_op(op);
        proof {
            assert forall|u: OperationRef, n: Seq<char>| valid_op(&c0, u) implies #[trigger] lookup(
                ctx,
                u,
                n,
            ) == lookup(&c0, u, n) by {
                assert(ctx.ops@[u.index as int] == c0.ops@[u.index as int]);
            }
        }
        if let Some(t) = table {
            let ghost c1 = *ctx;
            ctx.insert_symbol(t, r);
            proof {
                assert forall|u: OperationRef, n: Seq<char>| valid_op(&c0, u) implies #[trigger] lookup(
                    ctx,
                    u,
                    n,
                ) == (if table == Some(u) && n == name@ {
                    Some(r)
                } else {
                    lookup(&c0, u, n)
                }) by {
                    assert(lookup(&c1, u, n) == lookup(&c0, u, n));
                    if u.index != t.index {
                        assert(ctx.ops@[u.index as int] == c1.ops@[u.index as int]);
                    }
                }
                assert(ctx.ops@[r.index as int] == c1.ops@[r.index as int]);
            }
        }
        Ok(r)
    }
}

} // verus!

verus! {

/// The symbol named `name` in the table of `t`, when it is an operation of kind `k`.
pub fn find_symbol_of_kind(ctx: &Context, t: OperationRef, name: &str, k: OpKind) -> (r: Option<
    OperationRef,
>)
    requires
        ctx.wf(),
        valid_op(ctx, t),
    ensures
        r == symbol_of_kind(ctx, t, name@, k),
{
    proof {
        assert(crate::ir::table_wf(ctx, t.index as int));
    }
    let owned = name.to_owned();
    match ctx.lookup(t, &owned) {
        Some(s) => {
            proof {
                let i = crate::ir::find_entry(ctx.ops@[t.index as int].symbols@, name@)->Some_0;
                assert(crate::ir::table_wf(ctx, t.index as int));
                assert(ctx.ops@[t.index as int].symbols@[i].op == s);
            }
            if ctx.kind_of(s) == k {
                Some(s)
            } else {
                None
            }
        },
        None => None,
    }
}

/// A builder over a module: it creates functions, global variables, data segments and nested
/// modules in the module's body, and finds its symbols.
pub struct ModuleBuilder {
    pub module: ModuleRef,
    builder: OpBuilder,
}

impl ModuleBuilder {
    /// The module this builder works on.
    pub closed spec fn target(&self) -> ModuleRef {
        self.module
    }

    /// The insertion point of the underlying operation builder.
    pub closed spec fn insertion(&self) -> Option<OperationRef> {
        self.builder@
    }


    /// A builder over `module`, inserting at the end of its body, which gets its entry block
    /// if it has none.
    pub fn new(module: ModuleRef, ctx: &mut Context) -> (r: ModuleBuilder)
        requires
            old(ctx).wf(),
            op_is(old(ctx), module, OpKind::Module),
        ensures
            r.target() == module,
            r.insertion() == Some(module),
            builder_ready(final(ctx), module, OpKind::Module, r.insertion()),
            final(ctx).wf(),
            final(ctx).values@ == old(ctx).values@,
            final(ctx).ops@ == old(ctx).ops@.update(
                module.index as int,
                Operation { has_entry_block: true, ..old(ctx).ops@[module.index as int] },
            ),
    {
        let mut builder = OpBuilder::new();
        builder.create_block(ctx, module);
        ModuleBuilder { module, builder }
    }

    /// The underlying operation builder.
    pub fn builder(&mut self) -> (r: &mut OpBuilder)
        ensures
            r@ == old(self).insertion(),
            final(self).insertion() == final(r)@,
            final(self).target() == old(self).target(),
    {
        &mut self.builder
    }

    /// Declare a function `name` with `signature` in this module.
    pub fn define_function(&mut self, ctx: &mut Context, name: &str, signature: Signature) -> (r:
        Result<FunctionRef, String>)
        requires
            old(ctx).wf(),
            builder_ready(old(ctx), old(self).target(), OpKind::Module, old(self).insertion()),
            old(ctx).ops@.len() < usize::MAX,
        ensures
            *final(self) == *old(self),
            final(ctx).wf(),
            r is Ok <==> lookup(old(ctx), old(self).target(), name@) is None,
            r is Err ==> *final(ctx) == *old(ctx) && r->Err_0@ == duplicate_symbol_message(name@),
            r is Ok ==> {
                &&& adds_op(
                    old(ctx),
                    final(ctx),
                    r->Ok_0,
                    OpKind::Function,
                    name@,
                    old(self).insertion()->Some_0,
                    Some(old(self).target()),
                )
                &&& final(ctx).ops@[r->Ok_0.index as int].attrs.signature == Some(signature)
                &&& final(ctx).ops@[r->Ok_0.index as int].attrs.visibility == signature.visibility
                &&& symbol_of_kind(final(ctx), old(self).target(), name@, OpKind::Function) == Some(
                    r->Ok_0,
                )
            },
    {
        let mut attrs = Attributes::none();
        attrs.visibility = signature.visibility;
        attrs.signature = Some(signature);
        self.builder.create_symbol(ctx, OpKind::Function, name, attrs, Some(self.module))
    }

    /// Declare a global variable `name` of type `ty` with `visibility` in this module.
    pub fn define_global_variable(
        &mut self,
        ctx: &mut Context,
        name: &str,
        visibility: Visibility,
        ty: Type,
    ) -> (r: Result<GlobalVariableRef, String>)
        requires
            old(ctx).wf(),
            builder_ready(old(ctx), old(self).target(), OpKind::Module, old(self).insertion()),
            old(ctx).ops@.len() < usize::MAX,
            lookup(old(ctx), old(self).target(), name@) is None,
        ensures
            *final(self) == *old(self),
            final(ctx).wf(),
            r is Ok,
            adds_op(
                old(ctx),
                final(ctx),
                r->Ok_0,
                OpKind::GlobalVariable,
                name@,
                old(self).insertion()->Some_0,
                Some(old(self).target()),
            ),
            final(ctx).ops@[r->Ok_0.index as int].attrs.visibility == visibility,
            final(ctx).ops@[r->Ok_0.index as int].attrs.ty == ty,
            symbol_of_kind(final(ctx), old(self).target(), name@, OpKind::GlobalVariable) == Some(
                r->Ok_0,
            ),
    {
        let mut attrs = Attributes::none();
        attrs.visibility = visibility;
        attrs.ty = ty;
        self.builder.create_symbol(ctx, OpKind::GlobalVariable, name, attrs, Some(self.module))
    }

    /// Define a data segment of `data` at `offset`, writable unless `readonly`.
    pub fn define_data_segment(
        &mut self,
        ctx: &mut Context,
        offset: u32,
        data: Vec<u8>,
        readonly: bool,
    ) -> (r: Result<SegmentRef, String>)
        requires
            old(ctx).wf(),
            builder_ready(old(ctx), old(self).target(), OpKind::Module, old(self).insertion()),
            old(ctx).ops@.len() < usize::MAX,
        ensures
            *final(self) == *old(self),
            final(ctx).wf(),
            r is Ok,
            adds_op(
                old(ctx),
                final(ctx),
                r->Ok_0,
                OpKind::Segment,
                ""@,
                old(self).insertion()->Some_0,
                None,
            ),
            final(ctx).ops@[r->Ok_0.index as int].attrs.offset == offset,
            final(ctx).ops@[r->Ok_0.index as int].attrs.data@ == data@,
            final(ctx).ops@[r->Ok_0.index as int].attrs.readonly == readonly,
    {
        let mut attrs = Attributes::none();
        attrs.offset = offset as i64;
        attrs.data = data;
        attrs.readonly = readonly;
        self.builder.create_symbol(ctx, OpKind::Segment, "", attrs, None)
    }

    /// The function named `name` in this module, if any; the module holds no other kind of
    /// symbol under that name.
    pub fn get_function(&self, ctx: &Context, name: &str) -> (r: Option<FunctionRef>)
        requires
            ctx.wf(),
            op_is(ctx, self.target(), OpKind::Module),
            match lookup(ctx, self.target(), name@) {
                Some(s) => op_is(ctx, s, OpKind::Function),
                None => true,
            },
        ensures
            r == lookup(ctx, self.target(), name@),
    {
        find_symbol_of_kind(ctx, self.module, name, OpKind::Function)
    }

    /// The global variable named `name` in this module, if any.
    pub fn get_global_var(&self, ctx: &Context, name: &str) -> (r: Option<GlobalVariableRef>)
        requires
            ctx.wf(),
            op_is(ctx, self.target(), OpKind::Module),
        ensures
            r == symbol_of_kind(ctx, self.target(), name@, OpKind::GlobalVariable),
    {
        find_symbol_of_kind(ctx, self.module, name, OpKind::GlobalVariable)
    }

    /// Declare a nested module `name`.
    pub fn declare_module(&mut self, ctx: &mut Context, name: &str) -> (r: Result<
        ModuleRef,
        String,
    >)
        requires
            old(ctx).wf(),
            builder_ready(old(ctx), old(self).target(), OpKind::Module, old(self).insertion()),
            old(ctx).ops@.len() < usize::MAX,
        ensures
            *final(self) == *old(self),
            final(ctx).wf(),
            r is Ok <==> lookup(old(ctx), old(self).target(), name@) is None,
            r is Err ==> *final(ctx) == *old(ctx) && r->Err_0@ == duplicate_symbol_message(name@),
            r is Ok ==> {
                &&& adds_op(
                    old(ctx),
                    final(ctx),
                    r->Ok_0,
                    OpKind::Module,
                    name@,
                    old(self).insertion()->Some_0,
                    Some(old(self).target()),
                )
                &&& module_named(final(ctx), old(self).target(), name@) == Some(r->Ok_0)
            },
    {
        self.builder.create_symbol(ctx, OpKind::Module, name, Attributes::none(), Some(self.module))
    }

    /// The nested module named `name`, if declared or defined.
    pub fn find_module(&self, ctx: &Context, name: &str) -> (r: Option<ModuleRef>)
        requires
            ctx.wf(),
            op_is(ctx, self.target(), OpKind::Module),
        ensures
            r == module_named(ctx, self.target(), name@),
    {
        find_symbol_of_kind(ctx, self.module, name, OpKind::Module)
    }
}

} // verus!

verus! {

/// The outermost ancestor of `r`: the operation reached by following parents to the top.
pub open spec fn root_of(ctx: &Context, r: OperationRef) -> OperationRef
    decreases r.index,
{
    if valid_op(ctx, r) {
        match ctx.ops@[r.index as int].parent {
            Some(p) => if p.index < r.index {
                root_of(ctx, p)
            } else {
                r
            },
            None => r,
        }
    } else {
        r
    }
}

/// Follow the components of `path` from position `i` on, through nested symbol tables,
/// starting at `cur`; a `Root` met on the way resolves to nothing.
pub open spec fn resolve_from(
    ctx: &Context,
    cur: OperationRef,
    path: Seq<SymbolNameComponent>,
    i: int,
) -> Option<OperationRef>
    decreases path.len() - i,
{
    if i < 0 || i >= path.len() {
        Some(cur)
    } else {
        match path[i] {
            SymbolNameComponent::Root => None,
            SymbolNameComponent::Component(n) => match lookup(ctx, cur, n@) {
                Some(s) => resolve_from(ctx, s, path, i + 1),
                None => None,
            },
            SymbolNameComponent::Leaf(n) => match lookup(ctx, cur, n@) {
                Some(s) => resolve_from(ctx, s, path, i + 1),
                None => None,
            },
        }
    }
}

/// The symbol `path` names, seen from `from`: a path that starts with `Root` is followed from
/// the outermost ancestor of `from`, any other from `from` itself. A path that names no
/// component resolves to nothing.
pub open spec fn resolve_path(ctx: &Context, from: OperationRef, path: Seq<SymbolNameComponent>) -> Option<
    OperationRef,
> {
    if path.len() > 0 && path[0] is Root {
        if path.len() == 1 {
            None
        } else {
            resolve_from(ctx, root_of(ctx, from), path, 1)
        }
    } else if path.len() == 0 {
        None
    } else {
        resolve_from(ctx, from, path, 0)
    }
}

/// The outermost ancestor of `r`.
pub fn outermost_ancestor(ctx: &Context, r: OperationRef) -> (a: OperationRef)
    requires
        ctx.wf(),
        valid_op(ctx, r),
    ensures
        a == root_of(ctx, r),
        valid_op(ctx, a),
{
    let mut cur = r;
    loop
        invariant
            ctx.wf(),
            valid_op(ctx, cur),
            root_of(ctx, cur) == root_of(ctx, r),
        decreases cur.index,
    {
        match ctx.ops[cur.index].parent {
            Some(p) => {
                assert(p.index < cur.index);
                cur = p;
            },
            None => {
                return cur;
            },
        }
    }
}

/// The symbol `path` names, seen from `from` (see `resolve_path`).
pub fn resolve_symbol_path(ctx: &Context, from: OperationRef, path: &[SymbolNameComponent]) -> (r:
    Option<OperationRef>)
    requires
        ctx.wf(),
        valid_op(ctx, from),
    ensures
        r == resolve_path(ctx, from, path@),
        r matches Some(s) ==> valid_op(ctx, s),
{
    if path.len() == 0 {
        return None;
    }
    let mut i: usize = 0;
    let mut cur = from;
    if let SymbolNameComponent::Root = &path[0] {
        if path.len() == 1 {
            return None;
        }
        i = 1;
        cur = outermost_ancestor(ctx, from);
    }
    let ghost target = resolve_path(ctx, from, path@);
    assert(target == resolve_from(ctx, cur, path@, i as int));
    while i < path.len()
        invariant
            ctx.wf(),
            valid_op(ctx, cur),
            i <= path@.len(),
            target == resolve_from(ctx, cur, path@, i as int),
            target == resolve_path(ctx, from, path@),
        decreases path@.len() - i,
    {
        let name = match &path[i] {
            SymbolNameComponent::Root => {
                return None;
            },
            SymbolNameComponent::Component(n) => n,
            SymbolNameComponent::Leaf(n) => n,
        };
        proof {
            assert(crate::ir::table_wf(ctx, cur.index as int));
        }
        match ctx.lookup(cur, name) {
            Some(s) => {
                proof {
                    let k = crate::ir::find_entry(ctx.ops@[cur.index as int].symbols@, name@)->Some_0;
                    assert(ctx.ops@[cur.index as int].symbols@[k].op == s);
                }
                cur = s;
            },
            None => {
                return None;
            },
        }
        i = i + 1;
    }
    Some(cur)
}

/// A builder over a component: it creates interfaces, modules and functions in the
/// component's body, and finds and resolves its modules.
pub struct ComponentBuilder {
    pub component: ComponentRef,
    builder: OpBuilder,
}

impl ComponentBuilder {
    /// The component this builder works on.
    pub closed spec fn target(&self) -> ComponentRef {
        self.component
    }

    /// The insertion point of the underlying operation builder.
    pub closed spec fn insertion(&self) -> Option<OperationRef> {
        self.builder@
    }

    /// A builder over `component`, inserting at the end of its body, which gets its entry
    /// block if it has none.
    pub fn new(component: ComponentRef, ctx: &mut Context) -> (r: ComponentBuilder)
        requires
            old(ctx).wf(),
            op_is(old(ctx), component, OpKind::Component),
        ensures
            r.target() == component,
            r.insertion() == Some(component),
            builder_ready(final(ctx), component, OpKind::Component, r.insertion()),
            final(ctx).wf(),
            final(ctx).values@ == old(ctx).values@,
            final(ctx).ops@ == old(ctx).ops@.update(
                component.index as int,
                Operation { has_entry_block: true, ..old(ctx).ops@[component.index as int] },
            ),
    {
        let mut builder = OpBuilder::new();
        builder.create_block(ctx, component);
        ComponentBuilder { component, builder }
    }

    /// Define an interface `name` in this component.
    pub fn define_interface(&mut self, ctx: &mut Context, name: &str) -> (r: Result<
        InterfaceRef,
        String,
    >)
        requires
            old(ctx).wf(),
            builder_ready(
                old(ctx),
                old(self).target(),
                OpKind::Component,
                old(self).insertion(),
            ),
            old(ctx).ops@.len() < usize::MAX,
        ensures
            *final(self) == *old(self),
            final(ctx).wf(),
            r is Ok,
            adds_op(
                old(ctx),
                final(ctx),
                r->Ok_0,
                OpKind::Interface,
                name@,
                old(self).insertion()->Some_0,
                None,
            ),
    {
        self.builder.create_symbol(ctx, OpKind::Interface, name, Attributes::none(), None)
    }

    /// Define a module `name` in this component.
    pub fn define_module(&mut self, ctx: &mut Context, name: &str) -> (r: Result<
        ModuleRef,
        String,
    >)
        requires
            old(ctx).wf(),
            builder_ready(
                old(ctx),
                old(self).target(),
                OpKind::Component,
                old(self).insertion(),
            ),
            old(ctx).ops@.len() < usize::MAX,
        ensures
            *final(self) == *old(self),
            final(ctx).wf(),
            r is Ok <==> lookup(old(ctx), old(self).target(), name@) is None,
            r is Err ==> *final(ctx) == *old(ctx) && r->Err_0@ == duplicate_symbol_message(name@),
            r is Ok ==> {
                &&& adds_op(
                    old(ctx),
                    final(ctx),
                    r->Ok_0,
                    OpKind::Module,
                    name@,
                    old(self).insertion()->Some_0,
                    Some(old(self).target()),
                )
                &&& module_named(final(ctx), old(self).target(), name@) == Some(r->Ok_0)
            },
    {
        self.builder.create_symbol(
            ctx,
            OpKind::Module,
            name,
            Attributes::none(),
            Some(self.component),
        )
    }

    /// The module named `name` in this component, if any.
    pub fn find_module(&self, ctx: &Context, name: &str) -> (r: Option<ModuleRef>)
        requires
            ctx.wf(),
            op_is(ctx, self.target(), OpKind::Component),
        ensures
            r == module_named(ctx, self.target(), name@),
    {
        find_symbol_of_kind(ctx, self.component, name, OpKind::Module)
    }

    /// The module that `path` names, seen from this component, if it names one.
    pub fn resolve_module(&self, ctx: &Context, path: &[SymbolNameComponent]) -> (r: Option<
        ModuleRef,
    >)
        requires
            ctx.wf(),
            op_is(ctx, self.target(), OpKind::Component),
        ensures
            r == (match resolve_path(ctx, self.target(), path@) {
                Some(s) => if op_is(ctx, s, OpKind::Module) {
                    Some(s)
                } else {
                    None
                },
                None => None,
            }),
    {
        match resolve_symbol_path(ctx, self.component, path) {
            Some(s) => if ctx.kind_of(s) == OpKind::Module {
                Some(s)
            } else {
                None
            },
            None => None,
        }
    }

    /// Declare a function `name` with `signature` in this component.
    pub fn define_function(&mut self, ctx: &mut Context, name: &str, signature: Signature) -> (r:
        Result<FunctionRef, String>)
        requires
            old(ctx).wf(),
            builder_ready(
                old(ctx),
                old(self).target(),
                OpKind::Component,
                old(self).insertion(),
            ),
            old(ctx).ops@.len() < usize::MAX,
        ensures
            *final(self) == *old(self),
            final(ctx).wf(),
            r is Ok <==> lookup(old(ctx), old(self).target(), name@) is None,
            r is Err ==> *final(ctx) == *old(ctx) && r->Err_0@ == duplicate_symbol_message(name@),
            r is Ok ==> {
                &&& adds_op(
                    old(ctx),
                    final(ctx),
                    r->Ok_0,
                    OpKind::Function,
                    name@,
                    old(self).insertion()->Some_0,
                    Some(old(self).target()),
                )
                &&& final(ctx).ops@[r->Ok_0.index as int].attrs.signature == Some(signature)
                &&& symbol_of_kind(final(ctx), old(self).target(), name@, OpKind::Function)
                    == Some(r->Ok_0)
            },
    {
        let mut attrs = Attributes::none();
        attrs.visibility = signature.visibility;
        attrs.signature = Some(signature);
        self.builder.create_symbol(ctx, OpKind::Function, name, attrs, Some(self.component))
    }
}

} // verus!

verus! {

/// A semantic version: major, minor and patch numbers, with optional pre-release and build
/// metadata (empty when absent).
#[derive(Clone, Debug)]
pub struct Version {
    pub major: u64,
    pub minor: u64,
    pub patch: u64,
    pub pre: String,
    pub build: String,
}

/// The identity of a component: its namespace, its name and its version.
#[derive(Clone, Debug)]
pub struct ComponentId {
    pub namespace: String,
    pub name: String,
    pub version: Version,
}

/// The decimal digit `d`.
pub open spec fn digit_char(d: nat) -> char {
    if d == 0 {
        '0'
    } else if d == 1 {
        '1'
    } else if d == 2 {
        '2'
    } else if d == 3 {
        '3'
    } else if d == 4 {
        '4'
    } else if d == 5 {
        '5'
    } else if d == 6 {
        '6'
    } else if d == 7 {
        '7'
    } else if d == 8 {
        '8'
    } else {
        '9'
    }
}

/// The decimal notation of `n`, without leading zeros.
pub open spec fn decimal(n: nat) -> Seq<char>
    decreases n,
{
    if n < 10 {
        seq![digit_char(n)]
    } else {
        decimal(n / 10).push(digit_char(n % 10))
    }
}

/// The text of version `v`: `major.minor.patch`, then `-` and the pre-release and `+` and the
/// build metadata when present.
pub open spec fn version_text(v: Version) -> Seq<char> {
    decimal(v.major as nat) + "."@ + decimal(v.minor as nat) + "."@ + decimal(v.patch as nat) + (
    if v.pre@.len() > 0 {
        "-"@ + v.pre@
    } else {
        Seq::empty()
    }) + (if v.build@.len() > 0 {
        "+"@ + v.build@
    } else {
        Seq::empty()
    })
}

/// The symbol name of the component `id`: `namespace:name@version`.
pub open spec fn component_symbol_name(id: ComponentId) -> Seq<char> {
    id.namespace@ + ":"@ + id.name@ + "@"@ + version_text(id.version)
}

/// The one-digit string of the digit `d`.
fn digit_str(d: u64) -> (r: &'static str)
    requires
        d < 10,
    ensures
        r@ == seq![digit_char(d as nat)],
{
    proof {
        reveal_strlit("0");
        reveal_strlit("1");
        reveal_strlit("2");
        reveal_strlit("3");
        reveal_strlit("4");
        reveal_strlit("5");
        reveal_strlit("6");
        reveal_strlit("7");
        reveal_strlit("8");
        reveal_strlit("9");
    }
    if d == 0 {
        "0"
    } else if d == 1 {
        "1"
    } else if d == 2 {
        "2"
    } else if d == 3 {
        "3"
    } else if d == 4 {
        "4"
    } else if d == 5 {
        "5"
    } else if d == 6 {
        "6"
    } else if d == 7 {
        "7"
    } else if d == 8 {
        "8"
    } else {
        "9"
    }
}

/// Append the decimal notation of `n` to `s`.
pub fn push_decimal(s: &mut String, n: u64)
    ensures
        final(s)@ == old(s)@ + decimal(n as nat),
    decreases n,
{
    if n >= 10 {
        push_decimal(s, n / 10);
    }
    let ghost mid = s@;
    s.append(digit_str(n % 10));
    proof {
        if n >= 10 {
            assert(s@ =~= old(s)@ + decimal(n as nat));
        } else {
            assert(s@ =~= old(s)@ + decimal(n as nat));
        }
    }
}

impl Version {
    /// The text of this version (see `version_text`).
    pub fn to_text(&self) -> (r: String)
        ensures
            r@ == version_text(*self),
    {
        proof {
            reveal_strlit(".");
            reveal_strlit("-");
            reveal_strlit("+");
        }
        let mut s = String::new();
        push_decimal(&mut s, self.major);
        s.append(".");
        push_decimal(&mut s, self.minor);
        s.append(".");
        push_decimal(&mut s, self.patch);
        let ghost numbers = s@;
        assert(numbers =~= decimal(self.major as nat) + "."@ + decimal(self.minor as nat) + "."@
            + decimal(self.patch as nat));
        let ghost pre_text = if self.pre@.len() > 0 {
            "-"@ + self.pre@
        } else {
            Seq::<char>::empty()
        };
        let ghost build_text = if self.build@.len() > 0 {
            "+"@ + self.build@
        } else {
            Seq::<char>::empty()
        };
        if !self.pre.as_str().is_empty() {
            s.append("-");
            s.append(self.pre.as_str());
        }
        assert(s@ =~= numbers + pre_text);
        if !self.build.as_str().is_empty() {
            s.append("+");
            s.append(self.build.as_str());
        }
        assert(s@ =~= numbers + pre_text + build_text);
        s
    }
}

impl ComponentId {
    /// The symbol name of this component (see `component_symbol_name`).
    pub fn to_symbol_name(&self) -> (r: String)
        ensures
            r@ == component_symbol_name(*self),
    {
        let mut s = self.namespace.clone();
        s.append(":");
        s.append(self.name.as_str());
        s.append("@");
        let v = self.version.to_text();
        s.append(v.as_str());
        proof {
            reveal_strlit(":");
            reveal_strlit("@");
            assert(s@ =~= component_symbol_name(*self));
        }
        s
    }
}

} // verus!

verus! {

/// The names of the consecutive `Component`s of `path` from position `i` on.
pub open spec fn leading_component_names(path: Seq<SymbolNameComponent>, i: int) -> Seq<Seq<char>>
    decreases path.len() - i,
{
    if 0 <= i < path.len() {
        match path[i] {
            SymbolNameComponent::Component(n) => seq![n@] + leading_component_names(path, i + 1),
            _ => Seq::empty(),
        }
    } else {
        Seq::empty()
    }
}

/// The modules a module tree declaration walks: the names of the `Component`s that follow
/// the optional leading `Root` of `path`, up to the first other component.
pub open spec fn module_tree_names(path: Seq<SymbolNameComponent>) -> Seq<Seq<char>> {
    if path.len() > 0 && path[0] is Root {
        leading_component_names(path, 1)
    } else {
        leading_component_names(path, 0)
    }
}

/// Walk `names` from position `i` on through nested modules, starting at `cur`: the position
/// where the walk stops (`names.len()` if it went through) and the operation it stopped at.
/// The walk stops where the next name is missing, or names a symbol that is not a module.
pub open spec fn walk_modules(
    ctx: &Context,
    cur: OperationRef,
    names: Seq<Seq<char>>,
    i: int,
) -> (int, OperationRef)
    decreases names.len() - i,
{
    if 0 <= i < names.len() {
        match lookup(ctx, cur, names[i]) {
            Some(s) => if op_is(ctx, s, OpKind::Module) {
                walk_modules(ctx, s, names, i + 1)
            } else {
                (i, cur)
            },
            None => (i, cur),
        }
    } else {
        (i, cur)
    }
}

/// The module reached by walking all of `names` from `start`, if the walk goes through.
pub open spec fn walk_reaches(ctx: &Context, start: OperationRef, names: Seq<Seq<char>>) -> Option<
    OperationRef,
> {
    let (k, c) = walk_modules(ctx, start, names, 0);
    if k == names.len() {
        Some(c)
    } else {
        None
    }
}

/// The position of the first name that, walking `names` from `start`, names a symbol that is
/// not a module, if any.
pub open spec fn walk_conflict(ctx: &Context, start: OperationRef, names: Seq<Seq<char>>) -> Option<
    int,
> {
    let (k, c) = walk_modules(ctx, start, names, 0);
    if 0 <= k < names.len() && lookup(ctx, c, names[k]) is Some {
        Some(k)
    } else {
        None
    }
}

/// The message reporting that `name` names a symbol that is not a module.
pub open spec fn non_module_conflict_message(name: Seq<char>) -> Seq<char> {
    "could not declare module path component '"@ + name
        + "': a non-module symbol with that name already exists"@
}

/// `chain` goes through modules: each of its operations after the first is the module found
/// under the matching name in the table of the one before.
pub open spec fn is_module_chain(
    ctx: &Context,
    chain: Seq<OperationRef>,
    names: Seq<Seq<char>>,
) -> bool {
    &&& forall|k: int| 0 <= k < chain.len() ==> valid_op(ctx, #[trigger] chain[k])
    &&& forall|k: int|
        0 <= k < chain.len() - 1 ==> #[trigger] lookup(ctx, chain[k], names[k]) == Some(
            chain[k + 1],
        ) && op_is(ctx, chain[k + 1], OpKind::Module)
}

/// Walking from the start of a chain of modules is walking from its end.
pub proof fn lemma_chain_walk(ctx: &Context, chain: Seq<OperationRef>, names: Seq<Seq<char>>)
    requires
        is_module_chain(ctx, chain, names),
        1 <= chain.len() <= names.len() + 1,
    ensures
        walk_modules(ctx, chain[0], names, 0) == walk_modules(
            ctx,
            chain[chain.len() - 1],
            names,
            chain.len() - 1,
        ),
    decreases chain.len(),
{
    if chain.len() > 1 {
        let i = chain.len() - 1;
        let prefix = chain.drop_last();
        assert(is_module_chain(ctx, prefix, names)) by {
            assert forall|k: int| 0 <= k < prefix.len() - 1 implies #[trigger] lookup(
                ctx,
                prefix[k],
                names[k],
            ) == Some(prefix[k + 1]) && op_is(ctx, prefix[k + 1], OpKind::Module) by {
                assert(prefix[k] == chain[k] && prefix[k + 1] == chain[k + 1]);
                assert(lookup(ctx, chain[k], names[k]) == Some(chain[k + 1]));
            }
            assert forall|k: int| 0 <= k < prefix.len() implies valid_op(ctx, #[trigger] prefix[k]) by {
                assert(prefix[k] == chain[k]);
            }
        }
        lemma_chain_walk(ctx, prefix, names);
        assert(lookup(ctx, chain[i - 1], names[i - 1]) == Some(chain[i]));
    }
}

/// A chain of modules stays one while operations keep their kinds and found symbols stay
/// found.
pub proof fn lemma_chain_frame(
    c1: &Context,
    c2: &Context,
    chain: Seq<OperationRef>,
    names: Seq<Seq<char>>,
)
    requires
        is_module_chain(c1, chain, names),
        headers_preserved(c1, c2),
        lookups_preserved(c1, c2),
    ensures
        is_module_chain(c2, chain, names),
{
    assert forall|k: int| 0 <= k < chain.len() - 1 implies #[trigger] lookup(
        c2,
        chain[k],
        names[k],
    ) == Some(chain[k + 1]) && op_is(c2, chain[k + 1], OpKind::Module) by {
        assert(lookup(c1, chain[k], names[k]) == Some(chain[k + 1]));
        assert(valid_op(c1, chain[k]));
        assert(valid_op(c1, chain[k + 1]));
        assert(c2.ops@[chain[k + 1].index as int].kind == c1.ops@[chain[k + 1].index as int].kind);
    }
    assert forall|k: int| 0 <= k < chain.len() implies valid_op(c2, #[trigger] chain[k]) by {
        assert(valid_op(c1, chain[k]));
    }
}

/// Headers and found symbols are preserved from `c1` to `c3` when they are from `c1` to `c2`
/// and from `c2` to `c3`.
pub proof fn lemma_preserved_trans(c1: &Context, c2: &Context, c3: &Context)
    requires
        headers_preserved(c1, c2),
        lookups_preserved(c1, c2),
        headers_preserved(c2, c3),
        lookups_preserved(c2, c3),
    ensures
        headers_preserved(c1, c3),
        lookups_preserved(c1, c3),
{
    assert forall|u: OperationRef| #![trigger c3.ops@[u.index as int]] valid_op(c1, u) implies {
        &&& c3.ops@[u.index as int].kind == c1.ops@[u.index as int].kind
        &&& c3.ops@[u.index as int].name@ == c1.ops@[u.index as int].name@
        &&& c3.ops@[u.index as int].parent == c1.ops@[u.index as int].parent
    } by {
        assert(valid_op(c2, u));
        assert(c2.ops@[u.index as int].kind == c1.ops@[u.index as int].kind);
    }
    assert forall|u: OperationRef, n: Seq<char>|
        valid_op(c1, u) && (#[trigger] lookup(c1, u, n)) is Some implies lookup(c3, u, n)
        == lookup(c1, u, n) by {
        assert(valid_op(c2, u));
        assert(lookup(c2, u, n) == lookup(c1, u, n));
    }
}

/// Adding an operation entered under a fresh name keeps headers and found symbols.
pub proof fn lemma_adds_op_preserves(
    c1: &Context,
    c2: &Context,
    r: OperationRef,
    k: OpKind,
    name: Seq<char>,
    parent: OperationRef,
    table: Option<OperationRef>,
)
    requires
        adds_op(c1, c2, r, k, name, parent, table),
        table matches Some(t) ==> lookup(c1, t, name) is None,
    ensures
        headers_preserved(c1, c2),
        lookups_preserved(c1, c2),
{
    assert forall|u: OperationRef, n: Seq<char>|
        valid_op(c1, u) && (#[trigger] lookup(c1, u, n)) is Some implies lookup(c2, u, n)
        == lookup(c1, u, n) by {
        assert(lookup(c2, u, n) == (if table == Some(u) && n == name {
            Some(r)
        } else {
            lookup(c1, u, n)
        }));
    }
}

/// Giving an operation its entry block changes no header and no table.
pub proof fn lemma_entry_block_preserves(c1: &Context, c2: &Context, r: OperationRef)
    requires
        valid_op(c1, r),
        c2.ops@ == c1.ops@.update(
            r.index as int,
            Operation { has_entry_block: true, ..c1.ops@[r.index as int] },
        ),
    ensures
        headers_preserved(c1, c2),
        lookups_preserved(c1, c2),
        forall|u: OperationRef, n: Seq<char>|
            valid_op(c1, u) ==> #[trigger] lookup(c2, u, n) == lookup(c1, u, n),
{
    assert forall|u: OperationRef, n: Seq<char>| valid_op(c1, u) implies #[trigger] lookup(
        c2,
        u,
        n,
    ) == lookup(c1, u, n) by {
        assert(c2.ops@[u.index as int].symbols == c1.ops@[u.index as int].symbols);
    }
}

/// A builder over a world: it declares world-level modules, trees of nested modules, and
/// finds components and modules.
pub struct WorldBuilder {
    pub world: WorldRef,
    builder: OpBuilder,
}

impl WorldBuilder {
    /// The world this builder works on.
    pub closed spec fn target(&self) -> WorldRef {
        self.world
    }

    /// The insertion point of the underlying operation builder.
    pub closed spec fn insertion(&self) -> Option<OperationRef> {
        self.builder@
    }

    /// A builder over `world_ref`, inserting at the end of its body, which gets its entry
    /// block if it has none.
    pub fn new(world_ref: WorldRef, ctx: &mut Context) -> (r: WorldBuilder)
        requires
            old(ctx).wf(),
            op_is(old(ctx), world_ref, OpKind::World),
        ensures
            r.target() == world_ref,
            r.insertion() == Some(world_ref),
            builder_ready(final(ctx), world_ref, OpKind::World, r.insertion()),
            final(ctx).wf(),
            final(ctx).values@ == old(ctx).values@,
            final(ctx).ops@ == old(ctx).ops@.update(
                world_ref.index as int,
                Operation { has_entry_block: true, ..old(ctx).ops@[world_ref.index as int] },
            ),
    {
        let mut builder = OpBuilder::new();
        builder.create_block(ctx, world_ref);
        WorldBuilder { world: world_ref, builder }
    }

    /// The component `id` of this world, if any.
    pub fn find_component(&self, ctx: &Context, id: &ComponentId) -> (r: Option<ComponentRef>)
        requires
            ctx.wf(),
            op_is(ctx, self.target(), OpKind::World),
        ensures
            r == symbol_of_kind(
                ctx,
                self.target(),
                component_symbol_name(*id),
                OpKind::Component,
            ),
    {
        let name = id.to_symbol_name();
        find_symbol_of_kind(ctx, self.world, name.as_str(), OpKind::Component)
    }

    /// Declare a world-level module `name`; the name must be free in the world.
    pub fn declare_module(&mut self, ctx: &mut Context, name: &str) -> (r: Result<
        ModuleRef,
        String,
    >)
        requires
            old(ctx).wf(),
            builder_ready(old(ctx), old(self).target(), OpKind::World, old(self).insertion()),
            old(ctx).ops@.len() < usize::MAX,
            lookup(old(ctx), old(self).target(), name@) is None,
        ensures
            *final(self) == *old(self),
            final(ctx).wf(),
            r is Ok,
            adds_op(
                old(ctx),
                final(ctx),
                r->Ok_0,
                OpKind::Module,
                name@,
                old(self).insertion()->Some_0,
                Some(old(self).target()),
            ),
            module_named(final(ctx), old(self).target(), name@) == Some(r->Ok_0),
    {
        self.builder.create_symbol(ctx, OpKind::Module, name, Attributes::none(), Some(self.world))
    }

    /// The world-level module named `name`, if declared or defined.
    pub fn find_module(&self, ctx: &Context, name: &str) -> (r: Option<ModuleRef>)
        requires
            ctx.wf(),
            op_is(ctx, self.target(), OpKind::World),
        ensures
            r == module_named(ctx, self.target(), name@),
    {
        find_symbol_of_kind(ctx, self.world, name, OpKind::Module)
    }
}

} // verus!

verus! {

/// The texts of a sequence of strings.
pub open spec fn string_views(v: Seq<String>) -> Seq<Seq<char>> {
    v.map_values(|s: String| s@)
}

/// The names of the modules that declaring the module tree `path` walks (see
/// `module_tree_names`).
pub fn module_tree_path_names(path: &[SymbolNameComponent]) -> (names: Vec<String>)
    ensures
        string_views(names@) == module_tree_names(path@),
{
    let mut names: Vec<String> = Vec::new();
    let mut j: usize = 0;
    if path.len() > 0 {
        if let SymbolNameComponent::Root = &path[0] {
            j = 1;
        }
    }
    assert(string_views(names@) + leading_component_names(path@, j as int) =~= module_tree_names(
        path@,
    ));
    while j < path.len()
        invariant
            j <= path@.len(),
            string_views(names@) + leading_component_names(path@, j as int) == module_tree_names(
                path@,
            ),
        decreases path@.len() - j,
    {
        match &path[j] {
            SymbolNameComponent::Component(n) => {
                let ghost before = names@;
                names.push(n.clone());
                proof {
                    assert(string_views(names@) =~= string_views(before).push(n@));
                    assert(leading_component_names(path@, j as int) == seq![n@]
                        + leading_component_names(path@, j + 1));
                    assert(string_views(names@) + leading_component_names(path@, j + 1)
                        =~= string_views(before) + leading_component_names(path@, j as int));
                }
            },
            _ => {
                assert(leading_component_names(path@, j as int) =~= Seq::<Seq<char>>::empty());
                assert(string_views(names@) =~= module_tree_names(path@));
                return names;
            },
        }
        j = j + 1;
    }
    assert(leading_component_names(path@, j as int) =~= Seq::<Seq<char>>::empty());
    assert(string_views(names@) =~= module_tree_names(path@));
    names
}

impl WorldBuilder {
    /// Declare the hierarchy of modules that `path` names, like `mkdir -p`: walking the
    /// `Component`s after its optional leading `Root` from this world, each module that
    /// exists is entered and each that is missing is declared. It fails, having changed
    /// nothing, when a name on the way names a symbol that is not a module; otherwise it
    /// returns the last module, and changes nothing when the whole tree existed already.
    pub fn declare_module_tree(&mut self, ctx: &mut Context, path: &[SymbolNameComponent]) -> (r:
        Result<ModuleRef, String>)
        requires
            old(ctx).wf(),
            op_is(old(ctx), old(self).target(), OpKind::World),
            module_tree_names(path@).len() > 0,
            old(ctx).ops@.len() + path@.len() < usize::MAX,
        ensures
            *final(self) == *old(self),
            final(ctx).wf(),
            headers_preserved(old(ctx), final(ctx)),
            lookups_preserved(old(ctx), final(ctx)),
            r is Err <==> walk_conflict(old(ctx), old(self).target(), module_tree_names(path@))
                is Some,
            r is Err ==> *final(ctx) == *old(ctx) && r->Err_0@ == non_module_conflict_message(
                module_tree_names(path@)[walk_conflict(
                    old(ctx),
                    old(self).target(),
                    module_tree_names(path@),
                )->Some_0],
            ),
            r is Ok ==> op_is(final(ctx), r->Ok_0, OpKind::Module) && walk_reaches(
                final(ctx),
                old(self).target(),
                module_tree_names(path@),
            ) == Some(r->Ok_0),
            walk_reaches(old(ctx), old(self).target(), module_tree_names(path@)) is Some ==> (
            *final(ctx) == *old(ctx) && r == Ok::<ModuleRef, String>(
                walk_reaches(old(ctx), old(self).target(), module_tree_names(path@))->Some_0,
            )),
    {
        let names = module_tree_path_names(path);
        let ghost ns = string_views(names@);
        let world = self.world;
        let mut cur = world;
        let mut i: usize = 0;
        let ghost mut chain: Seq<OperationRef> = seq![world];
        let ghost mut created = false;
        proof {
            lemma_module_tree_names_len(path@);
        }
        while i < names.len()
            invariant
                ctx.wf(),
                ns == string_views(names@),
                ns == module_tree_names(path@),
                names@.len() <= path@.len(),
                old(ctx).ops@.len() + path@.len() < usize::MAX,
                ctx.ops@.len() <= old(ctx).ops@.len() + i,
                i <= names@.len(),
                chain.len() == i + 1,
                chain[0] == world,
                chain[i as int] == cur,
                is_module_chain(ctx, chain, ns),
                op_is(old(ctx), world, OpKind::World),
                world == old(self).target(),
                if i == 0 {
                    cur == world
                } else {
                    op_is(ctx, cur, OpKind::Module)
                },
                headers_preserved(old(ctx), ctx),
                lookups_preserved(old(ctx), ctx),
                !created ==> *ctx == *old(ctx),
                created ==> walk_conflict(old(ctx), world, ns) is None && walk_reaches(
                    old(ctx),
                    world,
                    ns,
                ) is None && ctx.ops@[cur.index as int].symbols@.len() == 0,
            decreases names@.len() - i,
        {
            let name = &names[i];
            assert(name@ == ns[i as int]);
            proof {
                assert(crate::ir::table_wf(ctx, cur.index as int));
                lemma_chain_walk(ctx, chain, ns);
            }
            match ctx.lookup(cur, name) {
                Some(s) => {
                    proof {
                        let k = crate::ir::find_entry(ctx.ops@[cur.index as int].symbols@, name@)->Some_0;
                        assert(ctx.ops@[cur.index as int].symbols@[k].op == s);
                        assert(valid_op(ctx, s));
                    }
                    if ctx.kind_of(s) != OpKind::Module {
                        proof {
                            if created {
                                assert(crate::ir::find_entry(ctx.ops@[cur.index as int].symbols@, name@) is None);
                            }
                            assert(walk_modules(old(ctx), cur, ns, i as int) == (i as int, cur));
                        }
                        let mut msg = "could not declare module path component '".to_owned();
                        msg.append(name.as_str());
                        msg.append("': a non-module symbol with that name already exists");
                        return Err(msg);
                    }
                    proof {
                        let c2 = chain.push(s);
                        assert forall|k: int| 0 <= k < c2.len() - 1 implies #[trigger] lookup(
                            ctx,
                            c2[k],
                            ns[k],
                        ) == Some(c2[k + 1]) && op_is(ctx, c2[k + 1], OpKind::Module) by {
                            if k < i {
                                assert(c2[k] == chain[k] && c2[k + 1] == chain[k + 1]);
                                assert(lookup(ctx, chain[k], ns[k]) == Some(chain[k + 1]));
                            }
                        }
                        assert forall|k: int| 0 <= k < c2.len() implies valid_op(ctx, #[trigger] c2[k]) by {
                            if k < chain.len() {
                                assert(c2[k] == chain[k]);
                            }
                        }
                        chain = c2;
                    }
                    cur = s;
                },
                None => {
                    proof {
                        if !created {
                            assert(walk_modules(old(ctx), cur, ns, i as int) == (i as int, cur));
                        }
                    }
                    let ghost c0 = *ctx;
                    let m = if ctx.kind_of(cur) == OpKind::Module {
                        let mut module_builder = ModuleBuilder::new(cur, ctx);
                        let ghost c1 = *ctx;
                        proof {
                            lemma_entry_block_preserves(&c0, &c1, cur);
                        }
                        match module_builder.declare_module(ctx, name.as_str()) {
                            Ok(m) => {
                                proof {
                                    lemma_adds_op_preserves(
                                        &c1,
                                        ctx,
                                        m,
                                        OpKind::Module,
                                        name@,
                                        cur,
                                        Some(cur),
                                    );
                                    lemma_preserved_trans(&c0, &c1, ctx);
                                }
                                m
                            },
                            Err(e) => {
                                return Err(e);
                            },
                        }
                    } else {
                        let mut world_builder = WorldBuilder::new(cur, ctx);
                        let ghost c1 = *ctx;
                        proof {
                            lemma_entry_block_preserves(&c0, &c1, cur);
                        }
                        match world_builder.declare_module(ctx, name.as_str()) {
                            Ok(m) => {
                                proof {
                                    lemma_adds_op_preserves(
                                        &c1,
                                        ctx,
                                        m,
                                        OpKind::Module,
                                        name@,
                                        cur,
                                        Some(cur),
                                    );
                                    lemma_preserved_trans(&c0, &c1, ctx);
                                }
                                m
                            },
                            Err(e) => {
                                return Err(e);
                            },
                        }
                    };
                    proof {
                        lemma_preserved_trans(old(ctx), &c0, ctx);
                        lemma_chain_frame(&c0, ctx, chain, ns);
                        let c2 = chain.push(m);
                        assert forall|k: int| 0 <= k < c2.len() - 1 implies #[trigger] lookup(
                            ctx,
                            c2[k],
                            ns[k],
                        ) == Some(c2[k + 1]) && op_is(ctx, c2[k + 1], OpKind::Module) by {
                            if k < i {
                                assert(c2[k] == chain[k] && c2[k + 1] == chain[k + 1]);
                                assert(lookup(ctx, chain[k], ns[k]) == Some(chain[k + 1]));
                            } else {
                                assert(c2[k] == cur && c2[k + 1] == m);
                            }
                        }
                        assert forall|k: int| 0 <= k < c2.len() implies valid_op(ctx, #[trigger] c2[k]) by {
                            if k < chain.len() {
                                assert(c2[k] == chain[k]);
                            }
                        }
                        chain = c2;
                        created = true;
                    }
                    cur = m;
                },
            }
            i = i + 1;
        }
        proof {
            lemma_chain_walk(ctx, chain, ns);
        }
        Ok(cur)
    }
}

/// A module tree names no more modules than its path has components.
pub proof fn lemma_module_tree_names_len(path: Seq<SymbolNameComponent>)
    ensures
        module_tree_names(path).len() <= path.len(),
{
    lemma_leading_component_names_len(path, 0);
    lemma_leading_component_names_len(path, 1);
}

/// The names of the consecutive `Component`s from position `i` on are no more than the
/// components from there on.
pub proof fn lemma_leading_component_names_len(path: Seq<SymbolNameComponent>, i: int)
    requires
        0 <= i,
    ensures
        leading_component_names(path, i).len() <= if i <= path.len() {
            path.len() - i
        } else {
            0
        },
    decreases path.len() - i,
{
    if 0 <= i < path.len() {
        lemma_leading_component_names_len(path, i + 1);
    }
}

} // verus!
