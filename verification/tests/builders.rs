use midenc::builders::{
    ComponentBuilder, ComponentId, ModuleBuilder, OpBuilder, SymbolNameComponent, Version,
    WorldBuilder,
};
use midenc::ir::{
    Attributes, Context, OpKind, Operation, OperationRef, Signature, Type, Visibility,
};

fn new_world(ctx: &mut Context) -> OperationRef {
    ctx.push_op(Operation {
        kind: OpKind::World,
        name: String::new(),
        parent: None,
        has_entry_block: false,
        symbols: Vec::new(),
        operands: Vec::new(),
        results: Vec::new(),
        attrs: Attributes::none(),
    })
}

fn component(name: &str) -> SymbolNameComponent {
    SymbolNameComponent::Component(name.to_string())
}

#[test]
fn world_builder_declares_and_finds_modules() {
    let mut ctx = Context::new();
    let world = new_world(&mut ctx);
    let mut wb = WorldBuilder::new(world, &mut ctx);
    assert!(ctx.ops[world.index].has_entry_block);
    assert_eq!(wb.find_module(&ctx, "std"), None);
    let m = wb.declare_module(&mut ctx, "std").unwrap();
    assert_eq!(wb.find_module(&ctx, "std"), Some(m));
    assert_eq!(ctx.ops[m.index].kind, OpKind::Module);
    assert_eq!(ctx.ops[m.index].parent, Some(world));
    assert_eq!(wb.find_module(&ctx, "other"), None);
}

#[test]
fn module_builder_defines_symbols() {
    let mut ctx = Context::new();
    let world = new_world(&mut ctx);
    let mut wb = WorldBuilder::new(world, &mut ctx);
    let m = wb.declare_module(&mut ctx, "app").unwrap();
    let mut mb = ModuleBuilder::new(m, &mut ctx);

    let sig = Signature { params: vec![Type::U32], results: vec![Type::U32], visibility: Visibility::Public };
    let f = mb.define_function(&mut ctx, "main", sig).unwrap();
    assert_eq!(mb.get_function(&ctx, "main"), Some(f));
    assert_eq!(mb.get_function(&ctx, "missing"), None);

    let g = mb.define_global_variable(&mut ctx, "counter", Visibility::Internal, Type::U64).unwrap();
    assert_eq!(mb.get_global_var(&ctx, "counter"), Some(g));
    assert_eq!(mb.get_global_var(&ctx, "main"), None);
    assert_eq!(ctx.ops[g.index].attrs.ty, Type::U64);
    assert_eq!(ctx.ops[g.index].attrs.visibility, Visibility::Internal);

    let seg = mb.define_data_segment(&mut ctx, 16, vec![1, 2, 3], true).unwrap();
    assert_eq!(ctx.ops[seg.index].kind, OpKind::Segment);
    assert_eq!(ctx.ops[seg.index].attrs.offset, 16);
    assert_eq!(ctx.ops[seg.index].attrs.data, vec![1, 2, 3]);
    assert!(ctx.ops[seg.index].attrs.readonly);

    let nested = mb.declare_module(&mut ctx, "inner").unwrap();
    assert_eq!(mb.find_module(&ctx, "inner"), Some(nested));
    assert_eq!(mb.find_module(&ctx, "main"), None);
}

#[test]
fn module_builder_rejects_duplicate_names() {
    let mut ctx = Context::new();
    let world = new_world(&mut ctx);
    let mut wb = WorldBuilder::new(world, &mut ctx);
    let m = wb.declare_module(&mut ctx, "app").unwrap();
    let mut mb = ModuleBuilder::new(m, &mut ctx);
    mb.declare_module(&mut ctx, "dup").unwrap();
    let before = ctx.ops.len();
    let err = mb.declare_module(&mut ctx, "dup").unwrap_err();
    assert_eq!(err, "symbol 'dup' is already defined");
    assert_eq!(ctx.ops.len(), before);
    let sig = Signature { params: vec![], results: vec![], visibility: Visibility::Public };
    assert!(mb.define_function(&mut ctx, "dup", sig).is_err());
}

#[test]
fn module_builder_exposes_its_op_builder() {
    let mut ctx = Context::new();
    let world = new_world(&mut ctx);
    let mut wb = WorldBuilder::new(world, &mut ctx);
    let m = wb.declare_module(&mut ctx, "app").unwrap();
    let mut mb = ModuleBuilder::new(m, &mut ctx);
    assert_eq!(mb.builder().insertion_block(), Some(m));
    mb.builder().set_insertion_point_to_end(world);
    assert_eq!(mb.builder().insertion_block(), Some(world));
    let op_builder = OpBuilder::new();
    assert_eq!(op_builder.insertion_block(), None);
}

#[test]
fn declare_module_tree_creates_then_reuses() {
    let mut ctx = Context::new();
    let world = new_world(&mut ctx);
    let mut wb = WorldBuilder::new(world, &mut ctx);
    let path = vec![
        SymbolNameComponent::Root,
        component("miden"),
        component("core"),
        SymbolNameComponent::Leaf("mem".to_string()),
    ];
    let leaf = wb.declare_module_tree(&mut ctx, &path).unwrap();
    let miden = wb.find_module(&ctx, "miden").unwrap();
    let miden_builder = ModuleBuilder::new(miden, &mut ctx);
    assert_eq!(miden_builder.find_module(&ctx, "core"), Some(leaf));
    // The leaf component names no module of the tree.
    let core_builder = ModuleBuilder::new(leaf, &mut ctx);
    assert_eq!(core_builder.find_module(&ctx, "mem"), None);

    let before = ctx.ops.len();
    let again = wb.declare_module_tree(&mut ctx, &path).unwrap();
    assert_eq!(again, leaf);
    assert_eq!(ctx.ops.len(), before);

    let deeper = vec![component("miden"), component("core"), component("io")];
    let io = wb.declare_module_tree(&mut ctx, &deeper).unwrap();
    assert_eq!(ctx.ops.len(), before + 1);
    assert_eq!(ctx.ops[io.index].parent, Some(leaf));
}

#[test]
fn declare_module_tree_reports_non_module_conflicts() {
    let mut ctx = Context::new();
    let world = new_world(&mut ctx);
    let mut wb = WorldBuilder::new(world, &mut ctx);
    let m = wb.declare_module(&mut ctx, "pkg").unwrap();
    let mut mb = ModuleBuilder::new(m, &mut ctx);
    let sig = Signature { params: vec![], results: vec![], visibility: Visibility::Public };
    mb.define_function(&mut ctx, "f", sig).unwrap();
    let before = ctx.ops.len();
    let path = vec![component("pkg"), component("f"), component("g")];
    let err = wb.declare_module_tree(&mut ctx, &path).unwrap_err();
    assert_eq!(
        err,
        "could not declare module path component 'f': a non-module symbol with that name already exists"
    );
    assert_eq!(ctx.ops.len(), before);
}

#[test]
fn component_builder_defines_and_resolves() {
    let mut ctx = Context::new();
    let world = new_world(&mut ctx);
    let mut world_op_builder = OpBuilder::new();
    world_op_builder.set_insertion_point_to_end(world);
    let comp = world_op_builder
        .create_symbol(&mut ctx, OpKind::Component, "root:root@1.0.0", Attributes::none(), Some(world))
        .unwrap();
    let mut cb = ComponentBuilder::new(comp, &mut ctx);
    let iface = cb.define_interface(&mut ctx, "api").unwrap();
    assert_eq!(ctx.ops[iface.index].kind, OpKind::Interface);
    let m = cb.define_module(&mut ctx, "lib").unwrap();
    assert_eq!(cb.find_module(&ctx, "lib"), Some(m));
    assert!(cb.define_module(&mut ctx, "lib").is_err());
    let mut mb = ModuleBuilder::new(m, &mut ctx);
    let inner = mb.declare_module(&mut ctx, "inner").unwrap();

    let relative = vec![component("lib"), SymbolNameComponent::Leaf("inner".to_string())];
    assert_eq!(cb.resolve_module(&ctx, &relative), Some(inner));
    let absolute = vec![
        SymbolNameComponent::Root,
        component("root:root@1.0.0"),
        component("lib"),
    ];
    assert_eq!(cb.resolve_module(&ctx, &absolute), Some(m));
    let missing = vec![component("nope")];
    assert_eq!(cb.resolve_module(&ctx, &missing), None);
    assert_eq!(cb.resolve_module(&ctx, &[SymbolNameComponent::Root]), None);

    let sig = Signature { params: vec![Type::Felt], results: vec![], visibility: Visibility::Private };
    let f = cb.define_function(&mut ctx, "run", sig).unwrap();
    let func = vec![SymbolNameComponent::Leaf("run".to_string())];
    assert_eq!(cb.resolve_module(&ctx, &func), None);
    assert_eq!(ctx.ops[f.index].kind, OpKind::Function);
}

#[test]
fn world_builder_finds_components_by_id() {
    let mut ctx = Context::new();
    let world = new_world(&mut ctx);
    let wb = WorldBuilder::new(world, &mut ctx);
    let id = ComponentId {
        namespace: "root".to_string(),
        name: "root".to_string(),
        version: Version { major: 1, minor: 0, patch: 0, pre: String::new(), build: String::new() },
    };
    assert_eq!(id.to_symbol_name(), "root:root@1.0.0");
    assert_eq!(wb.find_component(&ctx, &id), None);
    let mut op_builder = OpBuilder::new();
    op_builder.set_insertion_point_to_end(world);
    let comp = op_builder
        .create_symbol(&mut ctx, OpKind::Component, "root:root@1.0.0", Attributes::none(), Some(world))
        .unwrap();
    assert_eq!(wb.find_component(&ctx, &id), Some(comp));
}

#[test]
fn version_text_includes_pre_release_and_build() {
    let v = Version {
        major: 12,
        minor: 0,
        patch: 305,
        pre: "alpha.1".to_string(),
        build: "b7".to_string(),
    };
    assert_eq!(v.to_text(), "12.0.305-alpha.1+b7");
}
