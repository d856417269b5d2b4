//! Intrinsic functions of the compiler, recognized from their symbol paths: a function of
//! one of the known modules (`debug`, `mem`, `felt`) of the `intrinsics` namespace.
use vstd::prelude::*;
use crate::builders::{component_view, path_view, SymbolNameComponent};

verus! {

/// An intrinsic function, by the module that defines it and its name.
#[derive(Debug, Clone, PartialEq, Eq)]
pub enum Intrinsic {
    /// A debugging intrinsic.
    Debug(String),
    /// A memory intrinsic.
    Mem(String),
    /// A field element intrinsic.
    Felt(String),
}

/// The path that names no known intrinsic.
#[derive(Debug, Clone)]
pub struct UnknownIntrinsicError(pub Vec<SymbolNameComponent>);

/// The kinds of intrinsic modules.
#[derive(Clone, Copy, Debug, PartialEq, Eq, Structural)]
pub enum IntrinsicKind {
    Debug,
    Mem,
    Felt,
}

/// The name a path component carries, if any.
pub open spec fn component_name(c: SymbolNameComponent) -> Option<Seq<char>> {
    match c {
        SymbolNameComponent::Root => None,
        SymbolNameComponent::Component(n) => Some(n@),
        SymbolNameComponent::Leaf(n) => Some(n@),
    }
}

/// The kind of intrinsic module named `name`, if it is one.
pub open spec fn intrinsic_kind(name: Seq<char>) -> Option<IntrinsicKind> {
    if name == "debug"@ {
        Some(IntrinsicKind::Debug)
    } else if name == "mem"@ {
        Some(IntrinsicKind::Mem)
    } else if name == "felt"@ {
        Some(IntrinsicKind::Felt)
    } else {
        None
    }
}

/// The intrinsic that `path` names: after an optional leading root, the component
/// `intrinsics`, then a known module, then the function as a leaf.
pub open spec fn recognized_intrinsic(path: Seq<SymbolNameComponent>) -> Option<
    (IntrinsicKind, Seq<char>),
> {
    let i = if path.len() > 0 && path[0] is Root {
        1int
    } else {
        0int
    };
    if i + 2 < path.len() && (path[i] matches SymbolNameComponent::Component(ns) && ns@
        == "intrinsics"@) && path[i + 2] is Leaf {
        match component_name(path[i + 1]) {
            Some(module) => match intrinsic_kind(module) {
                Some(kind) => Some((kind, path[i + 2]->Leaf_0@)),
                None => None,
            },
            None => None,
        }
    } else {
        None
    }
}

/// The kind and function name of an intrinsic.
pub open spec fn intrinsic_parts(i: Intrinsic) -> (IntrinsicKind, Seq<char>) {
    match i {
        Intrinsic::Debug(f) => (IntrinsicKind::Debug, f@),
        Intrinsic::Mem(f) => (IntrinsicKind::Mem, f@),
        Intrinsic::Felt(f) => (IntrinsicKind::Felt, f@),
    }
}

/// A copy of `path`.
fn copy_path(path: &[SymbolNameComponent]) -> (r: Vec<SymbolNameComponent>)
    ensures
        path_view(r@) == path_view(path@),
{
    let mut v: Vec<SymbolNameComponent> = Vec::new();
    let mut k: usize = 0;
    while k < path.len()
        invariant
            k <= path@.len(),
            path_view(v@) == path_view(path@.take(k as int)),
        decreases path@.len() - k,
    {
        let c = path[k].clone();
        let ghost before = v@;
        v.push(c);
        proof {
            assert(path_view(v@) =~= path_view(before).push(component_view(c)));
            assert(path@.take(k + 1) =~= path@.take(k as int).push(path@[k as int]));
            assert(path_view(path@.take(k + 1)) =~= path_view(path@.take(k as int)).push(
                component_view(path@[k as int]),
            ));
        }
        k = k + 1;
    }
    assert(path@.take(k as int) =~= path@);
    v
}

/// The name of a path component, if it has one.
fn name_of(c: &SymbolNameComponent) -> (r: Option<&String>)
    ensures
        match r {
            Some(n) => component_name(*c) == Some(n@),
            None => component_name(*c) is None,
        },
{
    match c {
        SymbolNameComponent::Root => None,
        SymbolNameComponent::Component(n) => Some(n),
        SymbolNameComponent::Leaf(n) => Some(n),
    }
}

impl Intrinsic {
    /// Recognize the intrinsic function that `path` names (see `recognized_intrinsic`); the
    /// function itself is not checked to be known.
    pub fn try_from_path(path: &[SymbolNameComponent]) -> (r: Result<Intrinsic, UnknownIntrinsicError>)
        ensures
            match recognized_intrinsic(path@) {
                Some(parts) => r is Ok && intrinsic_parts(r->Ok_0) == parts,
                None => r is Err && path_view(r->Err_0.0@) == path_view(path@),
            },
    {
        let i: usize = if path.len() > 0 {
            match &path[0] {
                SymbolNameComponent::Root => 1,
                _ => 0,
            }
        } else {
            0
        };
        if i >= path.len() || path.len() - i <= 2 {
            return Err(UnknownIntrinsicError(copy_path(path)));
        }
        let in_namespace = match &path[i] {
            SymbolNameComponent::Component(ns) => *ns == "intrinsics".to_owned(),
            _ => false,
        };
        if !in_namespace {
            return Err(UnknownIntrinsicError(copy_path(path)));
        }
        let function = match &path[i + 2] {
            SymbolNameComponent::Leaf(f) => f.clone(),
            _ => {
                return Err(UnknownIntrinsicError(copy_path(path)));
            },
        };
        let module = match name_of(&path[i + 1]) {
            Some(m) => m,
            None => {
                return Err(UnknownIntrinsicError(copy_path(path)));
            },
        };
        if *module == "debug".to_owned() {
            Ok(Intrinsic::Debug(function))
        } else if *module == "mem".to_owned() {
            Ok(Intrinsic::Mem(function))
        } else if *module == "felt".to_owned() {
            Ok(Intrinsic::Felt(function))
        } else {
            Err(UnknownIntrinsicError(copy_path(path)))
        }
    }

    /// The module of the `intrinsics` namespace that defines this intrinsic.
    pub fn module_name(&self) -> (r: &'static str)
        ensures
            r@ == match intrinsic_parts(*self).0 {
                IntrinsicKind::Debug => "debug"@,
                IntrinsicKind::Mem => "mem"@,
                IntrinsicKind::Felt => "felt"@,
            },
    {
        match self {
            Intrinsic::Debug(_) => "debug",
            Intrinsic::Mem(_) => "mem",
            Intrinsic::Felt(_) => "felt",
        }
    }

    /// The name of this intrinsic function.
    pub fn function_name(&self) -> (r: &String)
        ensures
            r@ == intrinsic_parts(*self).1,
    {
        match self {
            Intrinsic::Debug(f) => f,
            Intrinsic::Mem(f) => f,
            Intrinsic::Felt(f) => f,
        }
    }

    /// Whether this intrinsic is lowered to native instructions rather than to a call of a
    /// function: the debugging and field element intrinsics are.
    pub fn is_native_instruction(&self) -> (r: bool)
        ensures
            r <==> intrinsic_parts(*self).0 != IntrinsicKind::Mem,
    {
        match self {
            Intrinsic::Mem(_) => false,
            _ => true,
        }
    }
}

} // verus!

verus! {

/// The name of the module of intrinsics of kind `k`.
pub open spec fn kind_name(k: IntrinsicKind) -> Seq<char> {
    match k {
        IntrinsicKind::Debug => "debug"@,
        IntrinsicKind::Mem => "mem"@,
        IntrinsicKind::Felt => "felt"@,
    }
}

/// The path of the module of intrinsics of kind `k`: the root, `intrinsics`, then the module.
pub open spec fn module_path_view(k: IntrinsicKind) -> Seq<Option<(bool, Seq<char>)>> {
    seq![None, Some((false, "intrinsics"@)), Some((false, kind_name(k)))]
}

impl Intrinsic {
    /// The path of the module that defines this intrinsic.
    pub fn module_symbol_path(&self) -> (r: Vec<SymbolNameComponent>)
        ensures
            path_view(r@) == module_path_view(intrinsic_parts(*self).0),
    {
        let mut path: Vec<SymbolNameComponent> = Vec::new();
        path.push(SymbolNameComponent::Root);
        path.push(SymbolNameComponent::Component("intrinsics".to_owned()));
        path.push(SymbolNameComponent::Component(self.module_name().to_owned()));
        assert(path_view(path@) =~= module_path_view(intrinsic_parts(*self).0));
        path
    }

    /// The path of this intrinsic: the path of its module, then its name as the leaf.
    pub fn into_symbol_path(&self) -> (r: Vec<SymbolNameComponent>)
        ensures
            path_view(r@) == module_path_view(intrinsic_parts(*self).0).push(
                Some((true, intrinsic_parts(*self).1)),
            ),
    {
        let mut path = self.module_symbol_path();
        let ghost before = path@;
        path.push(SymbolNameComponent::Leaf(self.function_name().clone()));
        assert(path_view(path@) =~= path_view(before).push(
            Some((true, intrinsic_parts(*self).1)),
        ));
        path
    }
}

/// A path whose components are those of an intrinsic's path is recognized as that
/// intrinsic.
pub proof fn lemma_intrinsic_path_recognized(path: Seq<SymbolNameComponent>, i: Intrinsic)
    requires
        path_view(path) == module_path_view(intrinsic_parts(i).0).push(
            Some((true, intrinsic_parts(i).1)),
        ),
    ensures
        recognized_intrinsic(path) == Some(intrinsic_parts(i)),
{
    let v = path_view(path);
    assert(v.len() == 4);
    assert(path.len() == 4);
    assert(component_view(path[0]) == v[0]);
    assert(component_view(path[1]) == v[1]);
    assert(component_view(path[2]) == v[2]);
    assert(component_view(path[3]) == v[3]);
    assert(path[0] is Root);
    assert(path[1] is Component);
    assert(path[3] is Leaf);
    let (kind, f) = intrinsic_parts(i);
    assert(component_name(path[2]) == Some(kind_name(kind)));
    match kind {
        IntrinsicKind::Debug => {
            assert(intrinsic_kind("debug"@) == Some(IntrinsicKind::Debug));
        },
        IntrinsicKind::Mem => {
            reveal_strlit("debug");
            reveal_strlit("mem");
            assert("mem"@.len() == 3 && "debug"@.len() == 5);
            assert("mem"@ != "debug"@);
        },
        IntrinsicKind::Felt => {
            reveal_strlit("debug");
            reveal_strlit("mem");
            reveal_strlit("felt");
            assert("felt"@.len() == 4 && "debug"@.len() == 5 && "mem"@.len() == 3);
            assert("felt"@ != "debug"@);
            assert("felt"@ != "mem"@);
        },
    }
}

} // verus!
