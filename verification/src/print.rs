//! When the IR is printed around pass executions: which passes are selected for printing,
//! whether printing waits for a pass to modify the IR, and which operations are printed, under
//! which log target. Writing the printed IR to the log is left to the caller.
use vstd::prelude::*;
use crate::pass::{OperationPass, PassIdentifier, PostPassStatus};

verus! {

/// The options that control IR printing.
#[derive(Debug, Clone)]
pub struct IRPrintingConfig {
    /// Print the IR after every pass.
    pub print_ir_after_all: bool,
    /// Print the IR after each of these passes.
    pub print_ir_after_pass: Vec<PassIdentifier>,
    /// Print the IR only after passes that modified it.
    pub print_ir_after_modified: bool,
}

/// Which passes are enabled for IR printing.
#[derive(Debug, Clone)]
pub enum SelectedPasses {
    /// Every pass.
    All,
    /// Just these passes.
    Just(Vec<PassIdentifier>),
}

/// Which operations are printed.
#[derive(Debug, Clone)]
pub enum OpFilter {
    /// Every operation.
    All,
    /// Every symbol operation, or only those whose name contains the given text.
    Symbol(Option<String>),
    /// Only operations of the given dialect and name.
    Type { dialect: String, op: String },
}

/// What the printer needs to know of an operation: its dialect, its name within the
/// dialect, and its symbol name when it is a symbol.
#[derive(Debug, Clone)]
pub struct PrintedOp {
    pub dialect: String,
    pub name: String,
    pub symbol: Option<String>,
}

/// Prints the IR around pass executions, as configured.
#[derive(Debug, Clone)]
pub struct Print {
    pub selected_passes: Option<SelectedPasses>,
    pub only_when_modified: bool,
    pub op_filter: Option<OpFilter>,
    pub target: Option<String>,
}

/// Whether `selected` selects a pass with identifier `id`.
pub open spec fn selects(selected: Option<SelectedPasses>, id: Option<PassIdentifier>) -> bool {
    match selected {
        Some(SelectedPasses::All) => true,
        Some(SelectedPasses::Just(passes)) => match id {
            Some(p) => passes@.contains(p),
            None => false,
        },
        None => false,
    }
}

/// Whether `config` asks for any IR printing.
pub open spec fn config_prints(config: IRPrintingConfig) -> bool {
    config.print_ir_after_all || config.print_ir_after_pass@.len() > 0
        || config.print_ir_after_modified
}

/// Whether `config` selects a pass with identifier `id` for printing: every pass when asked
/// to print after all passes, or after modifications without naming passes; else the passes
/// it names.
pub open spec fn config_selects(config: IRPrintingConfig, id: Option<PassIdentifier>) -> bool {
    if config.print_ir_after_all {
        true
    } else if config.print_ir_after_pass@.len() > 0 {
        match id {
            Some(p) => config.print_ir_after_pass@.contains(p),
            None => false,
        }
    } else {
        config.print_ir_after_modified
    }
}

/// Whether `text` occurs in `s`.
pub open spec fn contains_text(s: Seq<char>, text: Seq<char>) -> bool {
    exists|i: int| 0 <= i <= s.len() - text.len() && #[trigger] s.subrange(i, i + text.len()) == text
}

/// The log target under which `op` is printed by a printer with operation filter `filter`
/// and target `target`, or `None` when `op` is not printed.
pub open spec fn print_target_of(
    filter: Option<OpFilter>,
    target: Option<String>,
    op: PrintedOp,
) -> Option<Seq<char>> {
    let or_default = |d: Seq<char>|
        match target {
            Some(t) => t@,
            None => d,
        };
    match filter {
        Some(OpFilter::All) => Some(or_default("printer"@)),
        Some(OpFilter::Type { dialect, op: name }) => if op.dialect@ == dialect@ && op.name@
            == name@ {
            Some(or_default("printer"@))
        } else {
            None
        },
        Some(OpFilter::Symbol(None)) => match op.symbol {
            Some(sym) => Some(or_default(sym@)),
            None => None,
        },
        Some(OpFilter::Symbol(Some(text))) => match op.symbol {
            Some(sym) => if contains_text(sym@, text@) {
                Some(or_default(text@))
            } else {
                None
            },
            None => None,
        },
        None => None,
    }
}

/// The characters of `s`.
fn chars_of(s: &str) -> (r: Vec<char>)
    ensures
        r@ == s@,
{
    let n = s.unicode_len();
    let mut v: Vec<char> = Vec::new();
    let mut i: usize = 0;
    while i < n
        invariant
            i <= n,
            n == s@.len(),
            v@ == s@.take(i as int),
        decreases n - i,
    {
        v.push(s.get_char(i));
        i = i + 1;
        assert(v@ =~= s@.take(i as int));
    }
    assert(v@ =~= s@);
    v
}

/// Whether `text` occurs in `s`.
fn text_occurs(s: &str, text: &str) -> (r: bool)
    ensures
        r == contains_text(s@, text@),
{
    let chars = chars_of(s);
    let pattern = chars_of(text);
    if pattern.len() > chars.len() {
        return false;
    }
    let clen = chars.len();
    let plen = pattern.len();
    let last = clen - plen;
    let mut i: usize = 0;
    while i <= last
        invariant
            chars@ == s@,
            pattern@ == text@,
            last == chars@.len() - pattern@.len(),
            clen == chars@.len(),
            plen == pattern@.len(),
            pattern@.len() <= chars@.len(),
            forall|k: int| 0 <= k < i ==> #[trigger] s@.subrange(k, k + text@.len()) != text@,
        decreases last + 1 - i,
    {
        let mut j: usize = 0;
        while j < plen && chars[i + j] == pattern[j]
            invariant
                clen == chars@.len(),
                plen == pattern@.len(),
                chars@ == s@,
                pattern@ == text@,
                i <= last,
                last == chars@.len() - pattern@.len(),
                i + pattern@.len() <= chars@.len(),
                j <= pattern@.len(),
                forall|m: int| 0 <= m < j ==> chars@[i + m] == pattern@[m],
            decreases pattern@.len() - j,
        {
            j = j + 1;
        }
        if j == pattern.len() {
            proof {
                assert(s@.subrange(i as int, i + text@.len()) =~= text@);
            }
            return true;
        }
        proof {
            assert(s@.subrange(i as int, i + text@.len())[j as int] != text@[j as int]);
        }
        if i == last {
            proof {
                assert forall|k: int| 0 <= k <= s@.len() - text@.len() implies #[trigger] s@.subrange(
                    k,
                    k + text@.len(),
                ) != text@ by {
                    if k == i {
                        assert(s@.subrange(k, k + text@.len())[j as int] != text@[j as int]);
                    }
                }
            }
            return false;
        }
        i = i + 1;
    }
    false
}

impl Print {
    /// A printer for `config`, when it asks for any printing: it prints every operation,
    /// under the default target, after the passes `config` selects, and only when they
    /// modified the IR if `config` says so.
    pub fn new(config: &IRPrintingConfig) -> (r: Option<Print>)
        ensures
            r is Some <==> config_prints(*config),
            r matches Some(p) ==> {
                &&& forall|id: Option<PassIdentifier>|
                    #![trigger selects(p.selected_passes, id)]
                    selects(p.selected_passes, id) == config_selects(*config, id)
                &&& p.only_when_modified == config.print_ir_after_modified
                &&& p.op_filter matches Some(OpFilter::All)
                &&& p.target is None
            },
    {
        let print = if config.print_ir_after_all || config.print_ir_after_pass.len() > 0
            || config.print_ir_after_modified {
            Some(Print::default_printer())
        } else {
            None
        };
        match print {
            Some(p) => Some(p.with_pass_filter(config).with_symbol_filter(config)),
            None => None,
        }
    }

    /// A printer that prints nothing.
    pub fn default_printer() -> (r: Print)
        ensures
            r.selected_passes is None,
            !r.only_when_modified,
            r.op_filter is None,
            r.target is None,
    {
        Print { selected_passes: None, only_when_modified: false, op_filter: None, target: None }
    }

    /// This printer, printing only operations of dialect `dialect` named `op`.
    pub fn with_type_filter(self, dialect: String, op: String) -> (r: Print)
        ensures
            r.selected_passes == self.selected_passes,
            r.only_when_modified == self.only_when_modified,
            r.op_filter == Some(OpFilter::Type { dialect, op }),
            r.target == self.target,
    {
        let mut p = self;
        p.op_filter = Some(OpFilter::Type { dialect, op });
        p
    }

    /// This printer, printing only symbol operations whose name contains `name`.
    pub fn with_symbol_matching(self, name: String) -> (r: Print)
        ensures
            r.selected_passes == self.selected_passes,
            r.only_when_modified == self.only_when_modified,
            r.op_filter == Some(OpFilter::Symbol(Some(name))),
            r.target == self.target,
    {
        let mut p = self;
        p.op_filter = Some(OpFilter::Symbol(Some(name)));
        p
    }

    /// This printer with the operation filter that `config` asks for: every operation.
    pub fn with_symbol_filter(self, config: &IRPrintingConfig) -> (r: Print)
        ensures
            r.selected_passes == self.selected_passes,
            r.only_when_modified == self.only_when_modified,
            r.op_filter matches Some(OpFilter::All),
            r.target == self.target,
    {
        self.with_all_symbols()
    }

    /// This printer, printing every operation.
    pub fn with_all_symbols(self) -> (r: Print)
        ensures
            r.selected_passes == self.selected_passes,
            r.only_when_modified == self.only_when_modified,
            r.op_filter matches Some(OpFilter::All),
            r.target == self.target,
    {
        let mut p = self;
        p.op_filter = Some(OpFilter::All);
        p
    }

    /// This printer with the pass selection of `config`: every pass when asked to print after
    /// all passes, else the passes it names; with printing only after modifications when asked,
    /// in which case naming no pass selects every pass.
    pub fn with_pass_filter(self, config: &IRPrintingConfig) -> (r: Print)
        ensures
            r.op_filter == self.op_filter,
            r.target == self.target,
            r.only_when_modified == (self.only_when_modified || config.print_ir_after_modified),
            config_prints(*config) ==> forall|id: Option<PassIdentifier>|
                #![trigger selects(r.selected_passes, id)]
                selects(r.selected_passes, id) == config_selects(*config, id),
            !config_prints(*config) ==> r.selected_passes == self.selected_passes,
    {
        let mut p = self;
        let is_ir_filter_set = if config.print_ir_after_all {
            p.selected_passes = Some(SelectedPasses::All);
            true
        } else if config.print_ir_after_pass.len() > 0 {
            p.selected_passes = Some(SelectedPasses::Just(config.print_ir_after_pass.clone()));
            true
        } else {
            false
        };
        if config.print_ir_after_modified {
            p.only_when_modified = true;
            if !is_ir_filter_set {
                p.selected_passes = Some(SelectedPasses::All);
            }
        }
        p
    }

    /// This printer, writing to the log target `target`.
    pub fn with_target(self, target: &str) -> (r: Print)
        ensures
            r.selected_passes == self.selected_passes,
            r.only_when_modified == self.only_when_modified,
            r.op_filter == self.op_filter,
            r.target matches Some(t) && t@ == target@,
    {
        let mut p = self;
        p.target = Some(target.to_owned());
        p
    }

    /// The log target under which `op` is printed, or `None` when it is not (see
    /// `print_target_of`).
    pub fn print_target(&self, op: &PrintedOp) -> (r: Option<String>)
        ensures
            match r {
                Some(t) => print_target_of(self.op_filter, self.target, *op) == Some(t@),
                None => print_target_of(self.op_filter, self.target, *op) is None,
            },
    {
        let default_or = |d: &str| -> (t: String)
            ensures
                t@ == match self.target {
                    Some(x) => x@,
                    None => d@,
                },
            {
                match &self.target {
                    Some(x) => x.clone(),
                    None => d.to_owned(),
                }
            };
        match &self.op_filter {
            Some(OpFilter::All) => Some(default_or("printer")),
            Some(OpFilter::Type { dialect, op: name }) => {
                if op.dialect == *dialect && op.name == *name {
                    Some(default_or("printer"))
                } else {
                    None
                }
            },
            Some(OpFilter::Symbol(None)) => match &op.symbol {
                Some(sym) => Some(default_or(sym.as_str())),
                None => None,
            },
            Some(OpFilter::Symbol(Some(text))) => match &op.symbol {
                Some(sym) => {
                    if text_occurs(sym.as_str(), text.as_str()) {
                        Some(default_or(text.as_str()))
                    } else {
                        None
                    }
                },
                None => None,
            },
            None => None,
        }
    }

    /// Whether the pass `pass` is selected for printing.
    pub fn pass_filter<P: OperationPass>(&self, pass: &P) -> (r: bool)
        ensures
            r == selects(self.selected_passes, pass.operation_pass_id_spec()),
    {
        match &self.selected_passes {
            Some(SelectedPasses::All) => true,
            Some(SelectedPasses::Just(passes)) => {
                let id = pass.pass_id();
                match id {
                    Some(p_type) => {
                        let mut i: usize = 0;
                        while i < passes.len()
                            invariant
                                i <= passes@.len(),
                                forall|k: int| 0 <= k < i ==> passes@[k] != p_type,
                                Some(p_type) == pass.operation_pass_id_spec(),
                                self.selected_passes == Some(SelectedPasses::Just(*passes)),
                            decreases passes@.len() - i,
                        {
                            if passes[i] == p_type {
                                assert(passes@[i as int] == p_type);
                                assert(passes@.contains(p_type));
                                return true;
                            }
                            i = i + 1;
                        }
                        false
                    },
                    None => false,
                }
            },
            None => false,
        }
    }

    /// Whether the IR is printed after `pass` ran with outcome `ir_changed`: the pass is
    /// selected, and it changed the IR or printing does not wait for changes.
    pub fn should_print<P: OperationPass>(&self, pass: &P, ir_changed: PostPassStatus) -> (r: bool)
        ensures
            r == (selects(self.selected_passes, pass.operation_pass_id_spec()) && !(
            self.only_when_modified && ir_changed == PostPassStatus::IRUnchanged)),
    {
        let pass_filter = self.pass_filter(pass);
        let modification_filter = !(self.only_when_modified && ir_changed
            == PostPassStatus::IRUnchanged);
        pass_filter && modification_filter
    }

    /// Whether the IR is printed before a pipeline runs: when printing waits for
    /// modifications, the IR before them is shown.
    pub fn prints_before_pipeline(&self) -> (r: bool)
        ensures
            r == self.only_when_modified,
    {
        self.only_when_modified
    }

    /// Whether the IR is printed before `pass` runs: the pass is selected and printing does
    /// not wait for modifications.
    pub fn prints_before_pass<P: OperationPass>(&self, pass: &P) -> (r: bool)
        ensures
            r == (!self.only_when_modified && selects(
                self.selected_passes,
                pass.operation_pass_id_spec(),
            )),
    {
        if self.only_when_modified {
            return false;
        }
        self.pass_filter(pass)
    }
}

} // verus!
