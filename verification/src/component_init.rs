//! What lowering a component to Miden Assembly decides from its link information: whether it
//! needs an initializer, where the dynamic heap starts, whether it is the synthetic wrapper
//! component of a pure Rust program, and the instructions its initializer starts with, which
//! set up the heap and copy each read-only data segment from the advice map into memory; and
//! the Miden Assembly component that lowering builds from these, with the commitment to each
//! data segment's contents.
use vstd::prelude::*;
use miden_core::crypto::hash::Rpo256;
use miden_core::Felt as CoreFelt;
use crate::felt::FIELD_MODULUS;

verus! {

/// The library path of the synthetic component that wraps a pure Rust program.
pub open spec fn wrapper_component_path() -> Seq<char> {
    "root_ns:root@1.0.0"@
}

/// The decisions of lowering a component that follow from its layout.
#[derive(Clone, Copy, Debug, PartialEq, Eq, Structural)]
pub struct ComponentPlan {
    /// The component has global variables or data segments, so it needs an `init` procedure.
    pub requires_init: bool,
    /// The first address of the dynamic heap: the reserved memory followed by the globals
    /// table, up to its next page boundary.
    pub heap_base: u32,
    /// The address of the stack pointer in the globals table.
    pub stack_pointer: u32,
    /// The component is the synthetic wrapper, so an entrypoint is a path inside it.
    pub is_wrapper: bool,
}

/// Whether the texts `a` and `b` are the same.
fn same_text(a: &str, b: &str) -> (r: bool)
    ensures
        r == (a@ == b@),
{
    let n = a.unicode_len();
    if n != b.unicode_len() {
        return false;
    }
    let mut i: usize = 0;
    while i < n
        invariant
            n == a@.len(),
            n == b@.len(),
            i <= n,
            forall|k: int| 0 <= k < i ==> a@[k] == b@[k],
        decreases n - i,
    {
        if a.get_char(i) != b.get_char(i) {
            return false;
        }
        i = i + 1;
    }
    assert(a@ =~= b@);
    true
}

/// The plan of lowering a component whose link information shows `has_globals` and
/// `has_data_segments`, `reserved_memory_bytes` of reserved memory, a globals table whose next
/// page boundary is `next_page_boundary` and whose stack pointer is at `stack_pointer_offset`,
/// and whose library path is `component_path`. The heap base must fit in 32 bits.
pub fn plan_component(
    has_globals: bool,
    has_data_segments: bool,
    reserved_memory_bytes: usize,
    next_page_boundary: u32,
    stack_pointer_offset: u32,
    component_path: &str,
) -> (p: ComponentPlan)
    requires
        reserved_memory_bytes + next_page_boundary <= u32::MAX,
    ensures
        p.requires_init == (has_globals || has_data_segments),
        p.heap_base == reserved_memory_bytes + next_page_boundary,
        p.stack_pointer == stack_pointer_offset,
        p.is_wrapper == (component_path@ == wrapper_component_path()),
{
    let heap_base = (reserved_memory_bytes as u64 + next_page_boundary as u64) as u32;
    let is_wrapper = same_text(component_path, "root_ns:root@1.0.0");
    ComponentPlan {
        requires_init: has_globals || has_data_segments,
        heap_base,
        stack_pointer: stack_pointer_offset,
        is_wrapper,
    }
}

/// An instruction of a component's `init` procedure.
#[derive(Clone, Copy, Debug, PartialEq, Eq, Structural)]
pub enum InitInstruction {
    /// Push a 32-bit value.
    PushU32(u32),
    /// Push a word, given by its four field elements.
    PushWord(u64, u64, u64, u64),
    /// Move the advice map's value under the word on the stack to the advice stack.
    PushMapValEvent,
    /// Mark the start of a call frame in the trace.
    TraceFrameStart,
    /// Mark the end of a call frame in the trace.
    TraceFrameEnd,
    /// Call `heap_init` of the memory intrinsics.
    ExecHeapInit,
    /// Call `pipe_preimage_to_memory` of the standard memory module.
    ExecPipePreimageToMemory,
    /// Drop the top of the stack.
    Drop,
}

/// A read-only data segment: the commitment to its contents, its word-aligned start address
/// and its size in words.
#[derive(Clone, Copy, Debug)]
pub struct RodataSegment {
    pub digest: (u64, u64, u64, u64),
    pub start: u32,
    pub size_in_words: u32,
}

/// The instructions that set up the heap at `heap_base`.
pub open spec fn heap_init_instructions(heap_base: u32) -> Seq<InitInstruction> {
    seq![
        InitInstruction::PushU32(heap_base),
        InitInstruction::TraceFrameStart,
        InitInstruction::ExecHeapInit,
        InitInstruction::TraceFrameEnd,
    ]
}

/// The instructions that copy segment `s` from the advice map into memory: push its
/// commitment, move the data to the advice stack, push its start and size, pipe it into
/// memory, and drop the address that piping leaves.
pub open spec fn segment_instructions(s: RodataSegment) -> Seq<InitInstruction> {
    seq![
        InitInstruction::PushWord(s.digest.0, s.digest.1, s.digest.2, s.digest.3),
        InitInstruction::PushMapValEvent,
        InitInstruction::PushU32(s.start),
        InitInstruction::PushU32(s.size_in_words),
        InitInstruction::TraceFrameStart,
        InitInstruction::ExecPipePreimageToMemory,
        InitInstruction::TraceFrameEnd,
        InitInstruction::Drop,
    ]
}

/// The instructions for each of `segments`, one segment after the other.
pub open spec fn segments_instructions(segments: Seq<RodataSegment>) -> Seq<InitInstruction>
    decreases segments.len(),
{
    if segments.len() == 0 {
        Seq::empty()
    } else {
        segments_instructions(segments.drop_last()) + segment_instructions(segments.last())
    }
}

/// The instructions an `init` procedure starts with: those that set up the heap at
/// `heap_base`, then those that copy each of `rodata` into memory. Every segment must start at
/// a word-aligned address.
pub fn init_prologue(heap_base: u32, rodata: &[RodataSegment]) -> (r: Vec<InitInstruction>)
    requires
        forall|i: int| 0 <= i < rodata@.len() ==> #[trigger] rodata@[i].start % 4 == 0,
    ensures
        r@ == heap_init_instructions(heap_base) + segments_instructions(rodata@),
{
    let mut body: Vec<InitInstruction> = Vec::new();
    body.push(InitInstruction::PushU32(heap_base));
    body.push(InitInstruction::TraceFrameStart);
    body.push(InitInstruction::ExecHeapInit);
    body.push(InitInstruction::TraceFrameEnd);
    assert(body@ =~= heap_init_instructions(heap_base) + segments_instructions(rodata@.take(0)));
    let mut i: usize = 0;
    while i < rodata.len()
        invariant
            i <= rodata@.len(),
            body@ == heap_init_instructions(heap_base) + segments_instructions(rodata@.take(i as int)),
        decreases rodata@.len() - i,
    {
        let s = rodata[i];
        let ghost before = body@;
        body.push(InitInstruction::PushWord(s.digest.0, s.digest.1, s.digest.2, s.digest.3));
        body.push(InitInstruction::PushMapValEvent);
        body.push(InitInstruction::PushU32(s.start));
        body.push(InitInstruction::PushU32(s.size_in_words));
        body.push(InitInstruction::TraceFrameStart);
        body.push(InitInstruction::ExecPipePreimageToMemory);
        body.push(InitInstruction::TraceFrameEnd);
        body.push(InitInstruction::Drop);
        proof {
            let t = rodata@.take(i + 1);
            assert(t.drop_last() =~= rodata@.take(i as int));
            assert(t.last() == s);
            assert(body@ =~= before + segment_instructions(s));
        }
        i = i + 1;
    }
    assert(rodata@.take(rodata@.len() as int) =~= rodata@);
    body
}

/// Whether `code`, from index `at` on, copies segment `seg` into memory at its own start
/// address: its commitment, the advice event, its start and size, then the piping call in a
/// trace frame and the drop of the address that piping leaves.
spec fn copies_segment_at(code: Seq<InitInstruction>, at: int, seg: RodataSegment) -> bool {
    &&& code[at] == InitInstruction::PushWord(seg.digest.0, seg.digest.1, seg.digest.2, seg.digest.3)
    &&& code[at + 1] == InitInstruction::PushMapValEvent
    &&& code[at + 2] == InitInstruction::PushU32(seg.start)
    &&& code[at + 3] == InitInstruction::PushU32(seg.size_in_words)
    &&& code[at + 4] == InitInstruction::TraceFrameStart
    &&& code[at + 5] == InitInstruction::ExecPipePreimageToMemory
    &&& code[at + 6] == InitInstruction::TraceFrameEnd
    &&& code[at + 7] == InitInstruction::Drop
}

/// The copies of the segments are eight instructions each, in the segments' order.
proof fn lemma_segments_layout(segs: Seq<RodataSegment>)
    ensures
        segments_instructions(segs).len() == 8 * segs.len(),
        forall|i: int|
            #![trigger segs[i]]
            0 <= i < segs.len() ==> copies_segment_at(segments_instructions(segs), 8 * i, segs[i]),
    decreases segs.len(),
{
    if segs.len() > 0 {
        let p = segs.drop_last();
        lemma_segments_layout(p);
        let code = segments_instructions(segs);
        assert forall|i: int|
            #![trigger segs[i]]
            0 <= i < segs.len() implies copies_segment_at(code, 8 * i, segs[i]) by {
            if i < segs.len() - 1 {
                assert(p[i] == segs[i]);
                assert(copies_segment_at(segments_instructions(p), 8 * i, p[i]));
            }
        }
    }
}

/// The layout of an `init` prologue: the four instructions that set up the heap at
/// `heap_base`, then for each segment, in order, the eight instructions that pipe its
/// contents into memory at that segment's own start address, and nothing else.
pub proof fn lemma_init_prologue_layout(heap_base: u32, segs: Seq<RodataSegment>)
    ensures
        ({
            let code = heap_init_instructions(heap_base) + segments_instructions(segs);
            &&& code.len() == 4 + 8 * segs.len()
            &&& code[0] == InitInstruction::PushU32(heap_base)
            &&& code[1] == InitInstruction::TraceFrameStart
            &&& code[2] == InitInstruction::ExecHeapInit
            &&& code[3] == InitInstruction::TraceFrameEnd
            &&& forall|i: int|
                #![trigger segs[i]]
                0 <= i < segs.len() ==> {
                    &&& code[4 + 8 * i] == InitInstruction::PushWord(
                        segs[i].digest.0,
                        segs[i].digest.1,
                        segs[i].digest.2,
                        segs[i].digest.3,
                    )
                    &&& code[4 + 8 * i + 1] == InitInstruction::PushMapValEvent
                    &&& code[4 + 8 * i + 2] == InitInstruction::PushU32(segs[i].start)
                    &&& code[4 + 8 * i + 3] == InitInstruction::PushU32(segs[i].size_in_words)
                    &&& code[4 + 8 * i + 4] == InitInstruction::TraceFrameStart
                    &&& code[4 + 8 * i + 5] == InitInstruction::ExecPipePreimageToMemory
                    &&& code[4 + 8 * i + 6] == InitInstruction::TraceFrameEnd
                    &&& code[4 + 8 * i + 7] == InitInstruction::Drop
                }
        }),
{
    lemma_segments_layout(segs);
    let h = heap_init_instructions(heap_base);
    let s = segments_instructions(segs);
    let code = h + s;
    assert forall|i: int|
        #![trigger segs[i]]
        0 <= i < segs.len() implies copies_segment_at(code, 4 + 8 * i, segs[i]) by {
        assert(copies_segment_at(s, 8 * i, segs[i]));
    }
}

/// The RPO-256 digest of the field elements whose canonical values are `elements`, as the
/// canonical values of the four elements of the digest word.
pub uninterp spec fn rpo256_digest(elements: Seq<u64>) -> (u64, u64, u64, u64);

/// Calls `miden_core::crypto::hash::Rpo256::hash_elements` on the field elements whose
/// canonical values are `elements`, and gives back the canonical values of the digest word's
/// four elements. The contract names the digest, which depends on the elements alone.
#[verifier::external_body]
fn rpo256_hash_elements(elements: &[u64]) -> (d: (u64, u64, u64, u64))
    requires
        forall|i: int| 0 <= i < elements@.len() ==> #[trigger] elements@[i] < FIELD_MODULUS,
    ensures
        d == rpo256_digest(elements@),
{
    let felts: Vec<CoreFelt> = elements.iter().map(|x| CoreFelt::new(*x)).collect();
    let word = Rpo256::hash_elements(&felts);
    let e = word.as_elements();
    (e[0].as_int(), e[1].as_int(), e[2].as_int(), e[3].as_int())
}

/// A data segment of a component as the linker lays it out: the address it starts at, its
/// size in words, and its contents as the canonical values of field elements.
#[derive(Debug)]
pub struct DataSegment {
    pub start: u32,
    pub size_in_words: u32,
    pub elements: Vec<u64>,
}

/// A procedure named by the library path of its module and its name.
#[derive(Debug)]
pub struct ProcedurePath {
    pub path: String,
    pub name: String,
}

/// A procedure of a Miden Assembly module: its name, whether it is public, and the
/// instructions that lowering puts at the start of its body.
#[derive(Debug)]
pub struct MasmProcedure {
    pub name: String,
    pub public: bool,
    pub body_start: Vec<InitInstruction>,
}

/// A Miden Assembly module: its library path and the procedures defined in it.
#[derive(Debug)]
pub struct MasmModule {
    pub path: String,
    pub procedures: Vec<MasmProcedure>,
}

/// The Miden Assembly component that lowering a component builds: its initializer and
/// entrypoint, if any, its read-only data, where its heap starts and where its stack pointer
/// lives, and its top-level module. The modules and procedures that the component's body
/// defines are added to it afterwards.
#[derive(Debug)]
pub struct MasmComponent {
    pub init: Option<ProcedurePath>,
    pub entrypoint: Option<ProcedurePath>,
    pub rodata: Vec<RodataSegment>,
    pub heap_base: u32,
    pub stack_pointer: u32,
    pub modules: Vec<MasmModule>,
}

/// The read-only data segment that lowering makes of `s`: the commitment to its contents,
/// where it starts and its size.
pub open spec fn rodata_of(s: DataSegment) -> RodataSegment {
    RodataSegment { digest: rpo256_digest(s.elements@), start: s.start, size_in_words: s.size_in_words }
}

/// The library path of an entrypoint in module `module`, for a component at
/// `component_path`: inside the synthetic wrapper component the module is a path within it,
/// elsewhere the module is the path itself.
pub open spec fn entrypoint_path(component_path: Seq<char>, module: Seq<char>) -> Seq<char> {
    if component_path == wrapper_component_path() {
        component_path + "::"@ + module
    } else {
        module
    }
}

/// Lower a component whose library path is `component_path` to a Miden Assembly component,
/// given what its link information shows: whether it has global variables, its data segments,
/// its reserved memory and the next page boundary and stack pointer offset of its globals
/// table; and the entrypoint option, as its module and function. The component needs an `init`
/// procedure, a public one of its top-level module, when it has globals or data segments; that
/// procedure starts by setting up the heap and copying each data segment into memory. The heap
/// base must fit in 32 bits, each segment must start at a word-aligned address, and its
/// contents must be canonical field elements.
pub fn to_masm_component(
    component_path: &str,
    has_globals: bool,
    segments: &[DataSegment],
    reserved_memory_bytes: usize,
    next_page_boundary: u32,
    stack_pointer_offset: u32,
    entrypoint: Option<(String, String)>,
) -> (c: MasmComponent)
    requires
        reserved_memory_bytes + next_page_boundary <= u32::MAX,
        forall|i: int| 0 <= i < segments@.len() ==> #[trigger] segments@[i].start % 4 == 0,
        forall|i: int, k: int| 0 <= i < segments@.len() && 0 <= k < segments@[i].elements@.len()
            ==> #[trigger] segments@[i].elements@[k] < FIELD_MODULUS,
    ensures
        c.heap_base == reserved_memory_bytes + next_page_boundary,
        c.stack_pointer == stack_pointer_offset,
        (has_globals || segments@.len() > 0) ==> (c.init matches Some(p) && p.path@ == component_path@ && p.name@ == "init"@),
        !(has_globals || segments@.len() > 0) ==> c.init is None,
        entrypoint is None ==> c.entrypoint is None,
        entrypoint matches Some((m, f)) ==> (c.entrypoint matches Some(p) && p.name@ == f@
            && p.path@ == entrypoint_path(component_path@, m@)),
        c.rodata@.len() == segments@.len(),
        forall|i: int| 0 <= i < segments@.len() ==> #[trigger] c.rodata@[i] == rodata_of(segments@[i]),
        c.modules@.len() == 1,
        c.modules@[0].path@ == component_path@,
        (has_globals || segments@.len() > 0) ==> {
            &&& c.modules@[0].procedures@.len() == 1
            &&& c.modules@[0].procedures@[0].name@ == "init"@
            &&& c.modules@[0].procedures@[0].public
            &&& c.modules@[0].procedures@[0].body_start@
                == heap_init_instructions(c.heap_base) + segments_instructions(c.rodata@)
        },
        !(has_globals || segments@.len() > 0) ==> c.modules@[0].procedures@.len() == 0,
{
    let plan = plan_component(
        has_globals,
        segments.len() > 0,
        reserved_memory_bytes,
        next_page_boundary,
        stack_pointer_offset,
        component_path,
    );
    let entry = match entrypoint {
        Some((module, function)) => {
            let path = if plan.is_wrapper {
                let mut p = component_path.to_owned();
                p.append("::");
                p.append(module.as_str());
                p
            } else {
                module
            };
            Some(ProcedurePath { path, name: function })
        },
        None => None,
    };
    let mut rodata: Vec<RodataSegment> = Vec::new();
    let mut i: usize = 0;
    while i < segments.len()
        invariant
            i <= segments@.len(),
            rodata@.len() == i,
            forall|k: int| 0 <= k < i ==> #[trigger] rodata@[k] == rodata_of(segments@[k]),
            forall|j: int, k: int| 0 <= j < segments@.len() && 0 <= k < segments@[j].elements@.len()
                ==> #[trigger] segments@[j].elements@[k] < FIELD_MODULUS,
        decreases segments@.len() - i,
    {
        let s = &segments[i];
        proof {
            assert forall|k: int| 0 <= k < s.elements@.len() implies #[trigger] s.elements@[k] < FIELD_MODULUS by {
                assert(segments@[i as int].elements@[k] < FIELD_MODULUS);
            }
        }
        let digest = rpo256_hash_elements(s.elements.as_slice());
        rodata.push(RodataSegment { digest, start: s.start, size_in_words: s.size_in_words });
        i = i + 1;
    }
    let mut procedures: Vec<MasmProcedure> = Vec::new();
    let init = if plan.requires_init {
        proof {
            assert forall|k: int| 0 <= k < rodata@.len() implies #[trigger] rodata@[k].start % 4 == 0 by {
                assert(rodata@[k] == rodata_of(segments@[k]));
            }
        }
        let body_start = init_prologue(plan.heap_base, rodata.as_slice());
        procedures.push(MasmProcedure { name: "init".to_owned(), public: true, body_start });
        Some(ProcedurePath { path: component_path.to_owned(), name: "init".to_owned() })
    } else {
        None
    };
    let modules = vec![MasmModule { path: component_path.to_owned(), procedures }];
    MasmComponent {
        init,
        entrypoint: entry,
        rodata,
        heap_base: plan.heap_base,
        stack_pointer: plan.stack_pointer,
        modules,
    }
}

} // verus!
