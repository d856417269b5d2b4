//! Compiler passes: their identifiers, the outcome of running one, the interface every pass
//! implements, the passes of this compiler, and the state of a single pass execution.
use std::rc::Rc;
use vstd::prelude::*;
use vstd::std_specs::convert::FromSpecImpl;
use crate::ir::{Context, OperationName, OperationRef};

verus! {

/// Identifies the passes that can be selected by name.
#[derive(Debug, PartialEq, Eq, Clone, Copy, Structural)]
pub enum PassIdentifier {
    Canonicalizer,
    ControlFlowSink,
    LiftControlFlowToSCF,
    OpToOpPassAdaptor,
    SinkOperandDefs,
    SparseConditionalConstantPropagation,
    TransformSpills,
}

/// The pass identified by the command-line name `name`, if any.
pub open spec fn pass_identifier_of(name: Seq<char>) -> Option<PassIdentifier> {
    if name == "canonicalizer"@ {
        Some(PassIdentifier::Canonicalizer)
    } else if name == "control-flow-sink"@ {
        Some(PassIdentifier::ControlFlowSink)
    } else if name == "lift-control-flow"@ {
        Some(PassIdentifier::LiftControlFlowToSCF)
    } else if name == "sink-operand-defs"@ {
        Some(PassIdentifier::SinkOperandDefs)
    } else if name == "sparse-conditional-constant-propagation"@ {
        Some(PassIdentifier::SparseConditionalConstantPropagation)
    } else if name == "transform-spills"@ {
        Some(PassIdentifier::TransformSpills)
    } else {
        None
    }
}

/// The message reporting that `name` names no pass.
pub open spec fn unrecognized_pass_message(name: Seq<char>) -> Seq<char> {
    "'"@ + name + "' unrecognized pass."@
}

impl PassIdentifier {
    /// The pass identified by the command-line name `pass_name`.
    pub fn from_name(pass_name: &String) -> (r: Result<PassIdentifier, String>)
        ensures
            match pass_identifier_of(pass_name@) {
                Some(id) => r == Ok::<PassIdentifier, String>(id),
                None => r is Err && r->Err_0@ == unrecognized_pass_message(pass_name@),
            },
    {
        if *pass_name == "canonicalizer".to_owned() {
            Ok(PassIdentifier::Canonicalizer)
        } else if *pass_name == "control-flow-sink".to_owned() {
            Ok(PassIdentifier::ControlFlowSink)
        } else if *pass_name == "lift-control-flow".to_owned() {
            Ok(PassIdentifier::LiftControlFlowToSCF)
        } else if *pass_name == "sink-operand-defs".to_owned() {
            Ok(PassIdentifier::SinkOperandDefs)
        } else if *pass_name == "sparse-conditional-constant-propagation".to_owned() {
            Ok(PassIdentifier::SparseConditionalConstantPropagation)
        } else if *pass_name == "transform-spills".to_owned() {
            Ok(PassIdentifier::TransformSpills)
        } else {
            let mut msg = "'".to_owned();
            msg.append(pass_name.as_str());
            msg.append("' unrecognized pass.");
            Err(msg)
        }
    }
}

impl<'a> vstd::std_specs::convert::TryFromSpecImpl<&'a String> for PassIdentifier {
    open spec fn obeys_try_from_spec() -> bool {
        false
    }

    open spec fn try_from_spec(pass_name: &'a String) -> Result<PassIdentifier, String> {
        arbitrary()
    }
}

impl<'a> TryFrom<&'a String> for PassIdentifier {
    type Error = String;

    fn try_from(pass_name: &'a String) -> (r: Result<PassIdentifier, String>)
        ensures
            match pass_identifier_of(pass_name@) {
                Some(id) => r == Ok::<PassIdentifier, String>(id),
                None => r is Err && r->Err_0@ == unrecognized_pass_message(pass_name@),
            },
    {
        PassIdentifier::from_name(pass_name)
    }
}

/// Whether running a pass changed the IR.
#[derive(Debug, PartialEq, Eq, Clone, Copy, Structural)]
pub enum PostPassStatus {
    IRUnchanged,
    IRChanged,
}

impl FromSpecImpl<bool> for PostPassStatus {
    open spec fn obeys_from_spec() -> bool {
        true
    }

    open spec fn from_spec(ir_was_changed: bool) -> PostPassStatus {
        if ir_was_changed {
            PostPassStatus::IRChanged
        } else {
            PostPassStatus::IRUnchanged
        }
    }
}

impl From<bool> for PostPassStatus {
    fn from(ir_was_changed: bool) -> (r: PostPassStatus) {
        if ir_was_changed {
            PostPassStatus::IRChanged
        } else {
            PostPassStatus::IRUnchanged
        }
    }
}

/// How a pass is printed in the textual form of a pipeline: its argument, or, when it has
/// none, `unknown<` followed by its name and `>`.
pub open spec fn textual_pipeline_entry(argument: Seq<char>, name: Seq<char>) -> Seq<char> {
    if argument.len() != 0 {
        argument
    } else {
        "unknown<"@ + name + ">"@
    }
}

/// A compiler pass which operates on an operation of some kind.
pub trait Pass {
    /// The display name of this pass.
    spec fn name_spec(&self) -> Seq<char>;

    /// The command-line option name used to control this pass.
    spec fn argument_spec(&self) -> Seq<char>;

    /// A description of what this pass does.
    spec fn description_spec(&self) -> Seq<char>;

    /// The identifier of this pass, if it has one.
    spec fn pass_id_spec(&self) -> Option<PassIdentifier>;

    /// The display name of this pass.
    fn name(&self) -> (r: &'static str)
        ensures
            r@ == self.name_spec(),
    ;

    /// The command line option name used to control this pass.
    fn argument(&self) -> (r: &'static str)
        ensures
            r@ == self.argument_spec(),
    ;

    /// A description of what this pass does.
    fn description(&self) -> (r: &'static str)
        ensures
            r@ == self.description_spec(),
    ;

    /// The identifier of this pass, if it has one.
    fn pass_id(&self) -> (r: Option<PassIdentifier>)
        ensures
            r == self.pass_id_spec(),
    ;

    /// Whether this pass can be scheduled to run on operations named `name`.
    spec fn schedules_on(&self, name: OperationName) -> bool;

    /// Query if this pass can be scheduled to run on the given operation type.
    fn can_schedule_on(&self, name: &OperationName) -> (r: bool)
        ensures
            r == self.schedules_on(*name),
    ;

    /// This pass in the textual representation of pipelines.
    fn print_as_textual_pipeline(&self) -> (r: String)
        ensures
            r@ == textual_pipeline_entry(self.argument_spec(), self.name_spec()),
    {
        let argument = self.argument();
        if !argument.is_empty() {
            argument.to_owned()
        } else {
            let mut s = "unknown<".to_owned();
            s.append(self.name());
            s.append(">");
            s
        }
    }
}

/// A pass seen uniformly, whatever its concrete type.
pub trait OperationPass {
    /// The display name of this pass.
    spec fn operation_name_spec(&self) -> Seq<char>;

    /// The identifier of this pass, if it has one.
    spec fn operation_pass_id_spec(&self) -> Option<PassIdentifier>;

    /// The command-line option name used to control this pass.
    spec fn operation_argument_spec(&self) -> Seq<char>;

    /// A description of what this pass does.
    spec fn operation_description_spec(&self) -> Seq<char>;

    /// The display name of this pass.
    fn name(&self) -> (r: &'static str)
        ensures
            r@ == self.operation_name_spec(),
    ;

    /// The identifier of this pass, if it has one.
    fn pass_id(&self) -> (r: Option<PassIdentifier>)
        ensures
            r == self.operation_pass_id_spec(),
    ;

    /// The command-line option name used to control this pass.
    fn argument(&self) -> (r: &'static str)
        ensures
            r@ == self.operation_argument_spec(),
    ;

    /// A description of what this pass does.
    fn description(&self) -> (r: &'static str)
        ensures
            r@ == self.operation_description_spec(),
    ;
}

impl<P: Pass> OperationPass for P {
    open spec fn operation_name_spec(&self) -> Seq<char> {
        self.name_spec()
    }

    open spec fn operation_pass_id_spec(&self) -> Option<PassIdentifier> {
        self.pass_id_spec()
    }

    open spec fn operation_argument_spec(&self) -> Seq<char> {
        self.argument_spec()
    }

    open spec fn operation_description_spec(&self) -> Seq<char> {
        self.description_spec()
    }

    fn name(&self) -> (r: &'static str) {
        Pass::name(self)
    }

    fn pass_id(&self) -> (r: Option<PassIdentifier>) {
        Pass::pass_id(self)
    }

    fn argument(&self) -> (r: &'static str) {
        Pass::argument(self)
    }

    fn description(&self) -> (r: &'static str) {
        Pass::description(self)
    }
}

/// Places spills and reloads of values whose live ranges were split by spill analysis.
pub struct TransformSpills;

impl Pass for TransformSpills {
    open spec fn name_spec(&self) -> Seq<char> {
        "transform-spills"@
    }

    open spec fn argument_spec(&self) -> Seq<char> {
        "transform-spills"@
    }

    open spec fn description_spec(&self) -> Seq<char> {
        ""@
    }

    open spec fn pass_id_spec(&self) -> Option<PassIdentifier> {
        Some(PassIdentifier::TransformSpills)
    }

    fn name(&self) -> (r: &'static str) {
        "transform-spills"
    }

    fn argument(&self) -> (r: &'static str) {
        "transform-spills"
    }

    fn description(&self) -> (r: &'static str) {
        ""
    }

    fn pass_id(&self) -> (r: Option<PassIdentifier>) {
        Some(PassIdentifier::TransformSpills)
    }

    open spec fn schedules_on(&self, name: OperationName) -> bool {
        true
    }

    fn can_schedule_on(&self, _name: &OperationName) -> (r: bool) {
        true
    }
}

/// Lifts unstructured control flow operations to structured operations.
pub struct LiftControlFlowToSCF;

impl Pass for LiftControlFlowToSCF {
    open spec fn name_spec(&self) -> Seq<char> {
        "lift-control-flow"@
    }

    open spec fn argument_spec(&self) -> Seq<char> {
        "lift-control-flow"@
    }

    open spec fn description_spec(&self) -> Seq<char> {
        "Lifts unstructured control flow to structured control flow"@
    }

    open spec fn pass_id_spec(&self) -> Option<PassIdentifier> {
        Some(PassIdentifier::LiftControlFlowToSCF)
    }

    fn name(&self) -> (r: &'static str) {
        "lift-control-flow"
    }

    fn argument(&self) -> (r: &'static str) {
        "lift-control-flow"
    }

    fn description(&self) -> (r: &'static str) {
        "Lifts unstructured control flow to structured control flow"
    }

    fn pass_id(&self) -> (r: Option<PassIdentifier>) {
        Some(PassIdentifier::LiftControlFlowToSCF)
    }

    open spec fn schedules_on(&self, name: OperationName) -> bool {
        true
    }

    fn can_schedule_on(&self, _name: &OperationName) -> (r: bool) {
        true
    }
}

/// Sparse conditional constant propagation.
pub struct SparseConditionalConstantPropagation;

impl Pass for SparseConditionalConstantPropagation {
    open spec fn name_spec(&self) -> Seq<char> {
        "sparse-conditional-constant-propagation"@
    }

    open spec fn argument_spec(&self) -> Seq<char> {
        "sparse-conditional-constant-propagation"@
    }

    open spec fn description_spec(&self) -> Seq<char> {
        ""@
    }

    open spec fn pass_id_spec(&self) -> Option<PassIdentifier> {
        Some(PassIdentifier::SparseConditionalConstantPropagation)
    }

    fn name(&self) -> (r: &'static str) {
        "sparse-conditional-constant-propagation"
    }

    fn argument(&self) -> (r: &'static str) {
        "sparse-conditional-constant-propagation"
    }

    fn description(&self) -> (r: &'static str) {
        ""
    }

    fn pass_id(&self) -> (r: Option<PassIdentifier>) {
        Some(PassIdentifier::SparseConditionalConstantPropagation)
    }

    open spec fn schedules_on(&self, name: OperationName) -> bool {
        true
    }

    fn can_schedule_on(&self, _name: &OperationName) -> (r: bool) {
        true
    }
}

/// Canonicalizes operations by applying the canonicalization patterns of all loaded dialects
/// until a fixpoint, or until the iteration and rewrite limits are exhausted; it traverses
/// the IR top-down by default.
pub struct Canonicalizer {
    /// Whether failing to reach a fixpoint is an error.
    pub require_convergence: bool,
}

impl Canonicalizer {
    /// A canonicalizer that does not require convergence.
    pub fn default_pass() -> (r: Canonicalizer)
        ensures
            !r.require_convergence,
    {
        Canonicalizer { require_convergence: false }
    }
}

impl Pass for Canonicalizer {
    open spec fn name_spec(&self) -> Seq<char> {
        "canonicalizer"@
    }

    open spec fn argument_spec(&self) -> Seq<char> {
        "canonicalizer"@
    }

    open spec fn description_spec(&self) -> Seq<char> {
        "Performs canonicalization over a set of operations"@
    }

    open spec fn pass_id_spec(&self) -> Option<PassIdentifier> {
        Some(PassIdentifier::Canonicalizer)
    }

    fn name(&self) -> (r: &'static str) {
        "canonicalizer"
    }

    fn argument(&self) -> (r: &'static str) {
        "canonicalizer"
    }

    fn description(&self) -> (r: &'static str) {
        "Performs canonicalization over a set of operations"
    }

    fn pass_id(&self) -> (r: Option<PassIdentifier>) {
        Some(PassIdentifier::Canonicalizer)
    }

    open spec fn schedules_on(&self, name: OperationName) -> bool {
        true
    }

    fn can_schedule_on(&self, _name: &OperationName) -> (r: bool) {
        true
    }
}

/// Sinks operations into the regions that alone use their results.
pub struct ControlFlowSink;

impl Pass for ControlFlowSink {
    open spec fn name_spec(&self) -> Seq<char> {
        "control-flow-sink"@
    }

    open spec fn argument_spec(&self) -> Seq<char> {
        "control-flow-sink"@
    }

    open spec fn description_spec(&self) -> Seq<char> {
        ""@
    }

    open spec fn pass_id_spec(&self) -> Option<PassIdentifier> {
        Some(PassIdentifier::ControlFlowSink)
    }

    fn name(&self) -> (r: &'static str) {
        "control-flow-sink"
    }

    fn argument(&self) -> (r: &'static str) {
        "control-flow-sink"
    }

    fn description(&self) -> (r: &'static str) {
        ""
    }

    fn pass_id(&self) -> (r: Option<PassIdentifier>) {
        Some(PassIdentifier::ControlFlowSink)
    }

    open spec fn schedules_on(&self, name: OperationName) -> bool {
        true
    }

    fn can_schedule_on(&self, _name: &OperationName) -> (r: bool) {
        true
    }
}

/// Sinks constant operand definitions as close as possible to their uses.
pub struct SinkOperandDefs;

impl Pass for SinkOperandDefs {
    open spec fn name_spec(&self) -> Seq<char> {
        "sink-operand-defs"@
    }

    open spec fn argument_spec(&self) -> Seq<char> {
        "sink-operand-defs"@
    }

    open spec fn description_spec(&self) -> Seq<char> {
        ""@
    }

    open spec fn pass_id_spec(&self) -> Option<PassIdentifier> {
        Some(PassIdentifier::SinkOperandDefs)
    }

    fn name(&self) -> (r: &'static str) {
        "sink-operand-defs"
    }

    fn argument(&self) -> (r: &'static str) {
        "sink-operand-defs"
    }

    fn description(&self) -> (r: &'static str) {
        ""
    }

    fn pass_id(&self) -> (r: Option<PassIdentifier>) {
        Some(PassIdentifier::SinkOperandDefs)
    }

    open spec fn schedules_on(&self, name: OperationName) -> bool {
        true
    }

    fn can_schedule_on(&self, _name: &OperationName) -> (r: bool) {
        true
    }
}

/// The command-line argument of each of these passes names the pass's own identifier.
pub proof fn lemma_pass_arguments_name_their_identifiers()
    ensures
        pass_identifier_of(TransformSpills.argument_spec()) == TransformSpills.pass_id_spec(),
        pass_identifier_of(LiftControlFlowToSCF.argument_spec())
            == LiftControlFlowToSCF.pass_id_spec(),
        pass_identifier_of(SparseConditionalConstantPropagation.argument_spec())
            == SparseConditionalConstantPropagation.pass_id_spec(),
        pass_identifier_of(ControlFlowSink.argument_spec()) == ControlFlowSink.pass_id_spec(),
        pass_identifier_of(SinkOperandDefs.argument_spec()) == SinkOperandDefs.pass_id_spec(),
        forall|c: Canonicalizer|
            pass_identifier_of(#[trigger] c.argument_spec()) == c.pass_id_spec(),
{
    reveal_strlit("canonicalizer");
    reveal_strlit("control-flow-sink");
    reveal_strlit("lift-control-flow");
    reveal_strlit("sink-operand-defs");
    reveal_strlit("sparse-conditional-constant-propagation");
    reveal_strlit("transform-spills");
    assert("lift-control-flow"@[0] != "control-flow-sink"@[0]);
    assert("lift-control-flow"@ != "control-flow-sink"@);
    assert("transform-spills"@.len() == 16);
    assert("transform-spills"@ != "canonicalizer"@);
    assert("transform-spills"@ != "control-flow-sink"@);
    assert("transform-spills"@ != "lift-control-flow"@);
    assert("transform-spills"@ != "sink-operand-defs"@);
    assert("transform-spills"@ != "sparse-conditional-constant-propagation"@);
    assert("control-flow-sink"@[1] != "canonicalizer"@[1]);
    assert("control-flow-sink"@ != "canonicalizer"@);
    assert("sink-operand-defs"@[0] != "control-flow-sink"@[0]);
    assert("sink-operand-defs"@[0] != "lift-control-flow"@[0]);
    assert("sink-operand-defs"@[0] != "canonicalizer"@[0]);
    assert("sink-operand-defs"@ != "control-flow-sink"@);
    assert("sink-operand-defs"@ != "lift-control-flow"@);
    assert("sink-operand-defs"@ != "canonicalizer"@);
    assert("sparse-conditional-constant-propagation"@.len() == 39);
    assert("sparse-conditional-constant-propagation"@ != "canonicalizer"@);
    assert("sparse-conditional-constant-propagation"@ != "control-flow-sink"@);
    assert("sparse-conditional-constant-propagation"@ != "lift-control-flow"@);
    assert("sparse-conditional-constant-propagation"@ != "sink-operand-defs"@);
}

/// The analyses that a pass execution declares it left valid.
#[derive(Debug, Clone, Copy, PartialEq, Eq, Structural)]
pub struct PreservedAnalyses {
    all: bool,
}

impl PreservedAnalyses {
    /// No analysis is preserved.
    pub fn none() -> (r: PreservedAnalyses)
        ensures
            !r.is_all_spec(),
    {
        PreservedAnalyses { all: false }
    }

    /// Whether every analysis is preserved.
    pub closed spec fn is_all_spec(&self) -> bool {
        self.all
    }

    /// Whether every analysis is preserved.
    pub fn is_all(&self) -> (r: bool)
        ensures
            r == self.is_all_spec(),
    {
        self.all
    }

    /// Mark every analysis as preserved.
    pub fn preserve_all(&mut self)
        ensures
            final(self).is_all_spec(),
    {
        self.all = true;
    }
}

/// The analyses computed for an operation.
#[derive(Debug, Clone, Copy, PartialEq, Eq, Structural)]
pub struct AnalysisManager {
    pub op: OperationRef,
}

/// A nested pipeline of passes, optionally anchored on operations of a given name.
pub struct OpPassManager {
    pub anchor: Option<OperationName>,
    pub passes: Vec<PassIdentifier>,
}

/// The pass manager's hook for running a pipeline rooted at a given operation.
pub trait PipelineExecutor {
    /// Running `pipeline` on `op` with this executor can leave the executor as `after` and
    /// the pipeline as `pipeline_after`, with outcome `r`; an executor that says nothing of
    /// its runs allows any.
    open spec fn runs(&self, after: &Self, pipeline: OpPassManager, pipeline_after: OpPassManager, op: OperationRef, r: Result<(), String>) -> bool {
        true
    }

    /// Run `pipeline` on `op`.
    fn execute(&mut self, pipeline: &mut OpPassManager, op: OperationRef) -> (r: Result<(), String>)
        ensures
            old(self).runs(final(self), *old(pipeline), *final(pipeline), op, r),
    ;
}

/// Calls `Rc::clone`: the clone shares the value.
#[verifier::external_body]
fn rc_clone<T>(r: &Rc<T>) -> (s: Rc<T>)
    ensures
        s == *r,
{
    Rc::clone(r)
}

/// The state for a single execution of a pass.
pub struct PassExecutionState<E: PipelineExecutor> {
    /// The operation being transformed.
    op: OperationRef,
    context: Rc<Context>,
    analysis_manager: AnalysisManager,
    /// The set of preserved analyses for the current execution.
    preserved_analyses: PreservedAnalyses,
    /// Runs pipelines rooted at an operation, when the pass manager provides one.
    pipeline_executor: Option<E>,
}

impl<E: PipelineExecutor> PassExecutionState<E> {
    /// The operation being transformed.
    pub closed spec fn op_spec(&self) -> OperationRef {
        self.op
    }

    /// The context the operation lives in.
    pub closed spec fn context_spec(&self) -> Rc<Context> {
        self.context
    }

    /// The analysis manager of the operation.
    pub closed spec fn analysis_manager_spec(&self) -> AnalysisManager {
        self.analysis_manager
    }

    /// The analyses preserved so far.
    pub closed spec fn preserved_analyses_spec(&self) -> PreservedAnalyses {
        self.preserved_analyses
    }

    /// Whether a pass manager runs nested pipelines for this execution.
    pub closed spec fn has_pipeline_executor(&self) -> bool {
        self.pipeline_executor is Some
    }

    /// The executor of nested pipelines, when there is one.
    pub closed spec fn pipeline_executor_spec(&self) -> Option<E> {
        self.pipeline_executor
    }

    /// The state of an execution of a pass on `op`, with nothing preserved yet.
    pub fn new(
        op: OperationRef,
        context: Rc<Context>,
        analysis_manager: AnalysisManager,
        pipeline_executor: Option<E>,
    ) -> (r: Self)
        ensures
            r.op_spec() == op,
            r.context_spec() == context,
            r.analysis_manager_spec() == analysis_manager,
            !r.preserved_analyses_spec().is_all_spec(),
            r.has_pipeline_executor() == pipeline_executor is Some,
    {
        PassExecutionState {
            op,
            context,
            analysis_manager,
            preserved_analyses: PreservedAnalyses::none(),
            pipeline_executor,
        }
    }

    /// The context the operation lives in.
    pub fn context(&self) -> (r: Rc<Context>)
        ensures
            r == self.context_spec(),
    {
        rc_clone(&self.context)
    }

    /// The operation being transformed.
    pub fn current_operation(&self) -> (r: &OperationRef)
        ensures
            *r == self.op_spec(),
    {
        &self.op
    }

    /// The analyses of the operation being transformed.
    pub fn analysis_manager(&self) -> (r: &AnalysisManager)
        ensures
            *r == self.analysis_manager_spec(),
    {
        &self.analysis_manager
    }

    /// The analyses preserved so far by this execution.
    pub fn preserved_analyses(&self) -> (r: &PreservedAnalyses)
        ensures
            *r == self.preserved_analyses_spec(),
    {
        &self.preserved_analyses
    }

    /// Mutable access to the analyses preserved by this execution.
    pub fn preserved_analyses_mut(&mut self) -> (r: &mut PreservedAnalyses)
        ensures
            *r == old(self).preserved_analyses_spec(),
            final(self).preserved_analyses_spec() == *final(r),
            final(self).op_spec() == old(self).op_spec(),
            final(self).context_spec() == old(self).context_spec(),
            final(self).analysis_manager_spec() == old(self).analysis_manager_spec(),
            final(self).has_pipeline_executor() == old(self).has_pipeline_executor(),
    {
        &mut self.preserved_analyses
    }

    /// Schedule `pipeline` on `op`; without a pipeline executor this succeeds at once.
    pub fn run_pipeline(&mut self, pipeline: &mut OpPassManager, op: OperationRef) -> (r: Result<
        (),
        String,
    >)
        ensures
            !old(self).has_pipeline_executor() ==> r is Ok && *final(pipeline) == *old(pipeline)
                && final(self).pipeline_executor_spec() == old(self).pipeline_executor_spec(),
            old(self).has_pipeline_executor() ==> final(self).has_pipeline_executor()
                && old(self).pipeline_executor_spec()->Some_0.runs(
                    &final(self).pipeline_executor_spec()->Some_0,
                    *old(pipeline),
                    *final(pipeline),
                    op,
                    r,
                ),
            final(self).op_spec() == old(self).op_spec(),
            final(self).context_spec() == old(self).context_spec(),
            final(self).analysis_manager_spec() == old(self).analysis_manager_spec(),
            final(self).preserved_analyses_spec() == old(self).preserved_analyses_spec(),
            final(self).has_pipeline_executor() == old(self).has_pipeline_executor(),
    {
        match &mut self.pipeline_executor {
            Some(executor) => executor.execute(pipeline, op),
            None => Ok(()),
        }
    }
}

} // verus!
