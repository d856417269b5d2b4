use midenc::function_text::{print_function, FunctionBodyText, FunctionParts};
use midenc::component_init::{init_prologue, plan_component, InitInstruction, RodataSegment};
use std::rc::Rc;

use midenc::ir::{Context, OperationName, OperationRef};
use midenc::pass::{
    AnalysisManager, Canonicalizer, ControlFlowSink, LiftControlFlowToSCF, OpPassManager, Pass, PassExecutionState,
    PassIdentifier, PipelineExecutor, PostPassStatus, PreservedAnalyses,
    SinkOperandDefs, SparseConditionalConstantPropagation, TransformSpills,
};
use midenc::print::{IRPrintingConfig, OpFilter, Print, PrintedOp};

fn config(all: bool, passes: Vec<PassIdentifier>, modified: bool) -> IRPrintingConfig {
    IRPrintingConfig {
        print_ir_after_all: all,
        print_ir_after_pass: passes,
        print_ir_after_modified: modified,
    }
}

fn op(dialect: &str, name: &str, symbol: Option<&str>) -> PrintedOp {
    PrintedOp {
        dialect: dialect.to_string(),
        name: name.to_string(),
        symbol: symbol.map(|s| s.to_string()),
    }
}

#[test]
fn print_is_off_without_flags() {
    assert!(Print::new(&config(false, vec![], false)).is_none());
}

#[test]
fn print_after_all_selects_every_pass() {
    let p = Print::new(&config(true, vec![], false)).unwrap();
    assert!(p.pass_filter(&TransformSpills));
    assert!(p.pass_filter(&ControlFlowSink));
    assert!(p.should_print(&SinkOperandDefs, PostPassStatus::IRUnchanged));
    assert!(p.prints_before_pass(&TransformSpills));
    assert!(!p.prints_before_pipeline());
    assert!(matches!(p.op_filter, Some(OpFilter::All)));
}

#[test]
fn print_after_named_passes_only() {
    let p = Print::new(&config(false, vec![PassIdentifier::ControlFlowSink], false)).unwrap();
    assert!(p.pass_filter(&ControlFlowSink));
    assert!(!p.pass_filter(&TransformSpills));
    assert!(!p.should_print(&LiftControlFlowToSCF, PostPassStatus::IRChanged));
}

#[test]
fn print_after_modified_waits_for_changes() {
    let p = Print::new(&config(false, vec![], true)).unwrap();
    assert!(p.only_when_modified);
    assert!(p.pass_filter(&SparseConditionalConstantPropagation));
    assert!(!p.should_print(&TransformSpills, PostPassStatus::IRUnchanged));
    assert!(p.should_print(&TransformSpills, PostPassStatus::IRChanged));
    assert!(p.prints_before_pipeline());
    assert!(!p.prints_before_pass(&TransformSpills));

    let q = Print::new(&config(false, vec![PassIdentifier::TransformSpills], true)).unwrap();
    assert!(q.should_print(&TransformSpills, PostPassStatus::IRChanged));
    assert!(!q.should_print(&ControlFlowSink, PostPassStatus::IRChanged));
}

#[test]
fn print_targets_follow_the_operation_filter() {
    let p = Print::new(&config(true, vec![], false)).unwrap();
    assert_eq!(p.print_target(&op("builtin", "module", Some("m"))), Some("printer".to_string()));
    let p = p.with_target("ir");
    assert_eq!(p.print_target(&op("test", "add", None)), Some("ir".to_string()));

    let t = Print::default_printer().with_type_filter("test".to_string(), "add".to_string());
    assert_eq!(t.print_target(&op("test", "add", None)), Some("printer".to_string()));
    assert_eq!(t.print_target(&op("test", "mul", None)), None);

    let s = Print::default_printer().with_symbol_matching("main".to_string());
    assert_eq!(s.print_target(&op("builtin", "function", Some("my_main_fn"))), Some("main".to_string()));
    assert_eq!(s.print_target(&op("builtin", "function", Some("helper"))), None);
    assert_eq!(s.print_target(&op("test", "add", None)), None);

    assert_eq!(Print::default_printer().print_target(&op("test", "add", None)), None);
}

#[test]
fn pass_identifiers_parse_from_names() {
    assert_eq!(PassIdentifier::from_name(&"canonicalizer".to_string()), Ok(PassIdentifier::Canonicalizer));
    assert_eq!(
        PassIdentifier::from_name(&"sparse-conditional-constant-propagation".to_string()),
        Ok(PassIdentifier::SparseConditionalConstantPropagation)
    );
    assert_eq!(
        PassIdentifier::from_name(&"nope".to_string()),
        Err("'nope' unrecognized pass.".to_string())
    );
    assert_eq!(PassIdentifier::try_from(&"transform-spills".to_string()), Ok(PassIdentifier::TransformSpills));
}

#[test]
fn pass_arguments_and_textual_pipeline() {
    assert_eq!(Pass::argument(&TransformSpills), "transform-spills");
    assert_eq!(Pass::print_as_textual_pipeline(&ControlFlowSink), "control-flow-sink");
    assert_eq!(Pass::pass_id(&LiftControlFlowToSCF), Some(PassIdentifier::LiftControlFlowToSCF));
    let arg = Pass::argument(&SinkOperandDefs);
    assert_eq!(PassIdentifier::from_name(&arg.to_string()), Ok(PassIdentifier::SinkOperandDefs));
}

#[test]
fn post_pass_status_from_bool() {
    assert_eq!(PostPassStatus::from(true), PostPassStatus::IRChanged);
    assert_eq!(PostPassStatus::from(false), PostPassStatus::IRUnchanged);
}

struct Recorder {
    ran: Vec<OperationRef>,
}

impl PipelineExecutor for Recorder {
    fn execute(&mut self, _pipeline: &mut OpPassManager, op: OperationRef) -> Result<(), String> {
        self.ran.push(op);
        Ok(())
    }
}

#[test]
fn pass_execution_state_accessors() {
    let context = Rc::new(Context::new());
    let op = OperationRef { index: 3 };
    let mut state: PassExecutionState<Recorder> =
        PassExecutionState::new(op, context.clone(), AnalysisManager { op }, None);
    assert_eq!(*state.current_operation(), op);
    assert!(Rc::ptr_eq(&state.context(), &context));
    assert_eq!(state.analysis_manager().op, op);
    assert!(!state.preserved_analyses().is_all());
    state.preserved_analyses_mut().preserve_all();
    assert!(state.preserved_analyses().is_all());
    let mut pipeline = OpPassManager { anchor: None, passes: vec![PassIdentifier::Canonicalizer] };
    assert!(state.run_pipeline(&mut pipeline, op).is_ok());

    let mut with_executor =
        PassExecutionState::new(op, context, AnalysisManager { op }, Some(Recorder { ran: vec![] }));
    let anchor = OperationName { dialect: "builtin".to_string(), name: "module".to_string() };
    let mut nested = OpPassManager { anchor: Some(anchor), passes: vec![] };
    assert!(with_executor.run_pipeline(&mut nested, OperationRef { index: 5 }).is_ok());
    assert!(!PreservedAnalyses::none().is_all());
}

#[test]
fn canonicalizer_pass_identity() {
    let c = Canonicalizer::default_pass();
    assert!(!c.require_convergence);
    assert_eq!(Pass::name(&c), "canonicalizer");
    assert_eq!(Pass::description(&c), "Performs canonicalization over a set of operations");
    assert_eq!(PassIdentifier::from_name(&Pass::argument(&c).to_string()), Ok(PassIdentifier::Canonicalizer));
    let p = Print::new(&config(false, vec![PassIdentifier::Canonicalizer], false)).unwrap();
    assert!(p.pass_filter(&c));
}

#[test]
fn wasm_translation_config_defaults() {
    let config = midenc::wasm_config::WasmTranslationConfig::default();
    assert_eq!(config.source_name, "noname");
    assert!(config.override_name.is_none());
    assert!(config.world.is_none());
    assert!(!config.generate_native_debuginfo);
    assert!(config.parse_wasm_debuginfo);
}

#[test]
fn function_declaration_and_definition_texts() {
    let decl = FunctionParts {
        visibility: "public".to_string(),
        op_name: "builtin.function".to_string(),
        name: "f".to_string(),
        param_types: vec!["i32".to_string(), "u8".to_string()],
        result_types: vec!["i64".to_string()],
        body: None,
    };
    assert_eq!(print_function(&decl), "public builtin.function @f(i32, u8) -> i64;");

    let def = FunctionParts {
        visibility: "internal".to_string(),
        op_name: "builtin.function".to_string(),
        name: "g".to_string(),
        param_types: vec!["felt".to_string(), "u32".to_string()],
        result_types: vec![],
        body: Some(FunctionBodyText {
            entry_args: vec!["v0".to_string(), "v1".to_string()],
            region: "{ ret; }".to_string(),
        }),
    };
    assert_eq!(print_function(&def), "internal builtin.function @g(v0: felt, v1: u32) { ret; };");

    let no_params = FunctionParts {
        visibility: "private".to_string(),
        op_name: "builtin.function".to_string(),
        name: "h".to_string(),
        param_types: vec![],
        result_types: vec!["i1".to_string(), "u64".to_string()],
        body: None,
    };
    assert_eq!(print_function(&no_params), "private builtin.function @h() -> i1, u64;");
}

#[test]
fn component_plan_and_init_prologue() {
    let plan = plan_component(true, false, 65536, 4096, 32, "root_ns:root@1.0.0");
    assert!(plan.requires_init);
    assert_eq!(plan.heap_base, 69632);
    assert_eq!(plan.stack_pointer, 32);
    assert!(plan.is_wrapper);
    let plan = plan_component(false, false, 0, 0, 0, "miden:basic-wallet/basic-wallet@1.0.0");
    assert!(!plan.requires_init);
    assert!(!plan.is_wrapper);
    assert!(plan_component(false, true, 0, 0, 0, "root_ns:root@1.0.1").requires_init);

    let segments = [RodataSegment { digest: (1, 2, 3, 4), start: 1048576, size_in_words: 3 }];
    let body = init_prologue(69632, &segments);
    assert_eq!(
        body,
        vec![
            InitInstruction::PushU32(69632),
            InitInstruction::TraceFrameStart,
            InitInstruction::ExecHeapInit,
            InitInstruction::TraceFrameEnd,
            InitInstruction::PushWord(1, 2, 3, 4),
            InitInstruction::PushMapValEvent,
            InitInstruction::PushU32(1048576),
            InitInstruction::PushU32(3),
            InitInstruction::TraceFrameStart,
            InitInstruction::ExecPipePreimageToMemory,
            InitInstruction::TraceFrameEnd,
            InitInstruction::Drop,
        ]
    );
    assert_eq!(init_prologue(7, &[]).len(), 4);
}
