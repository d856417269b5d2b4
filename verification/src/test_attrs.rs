//! The attributes of a harness test: how each is built from what the user wrote, with its
//! defaults; how the set of attributes is validated; the order in which their code is emitted;
//! and the help text that documents them.
use vstd::prelude::*;
use crate::builders::{decimal, push_decimal};

verus! {

/// The `account` attribute as written: each field is optional.
#[derive(Debug, Clone)]
pub struct AccountAttrBuilder {
    /// Variable name for this account in generated code. Default: "account".
    pub name: Option<String>,
    /// Component used by this account. Must match a package name. Default: "wallet".
    pub component: Option<String>,
    /// Seed for account generation, expanded to [seed; 32]. Default: 1.
    pub seed: Option<u8>,
}

/// The `chain` attribute as written.
#[derive(Debug, Clone)]
pub struct ChainAttrBuilder {
    /// Variable name for this chain in generated code. Default: "chain".
    pub name: Option<String>,
}

/// The `faucet` attribute as written.
#[derive(Debug, Clone)]
pub struct FaucetAttrBuilder {
    /// Variable name for this faucet in generated code. Default: "faucet".
    pub name: Option<String>,
    /// Maximum token supply the faucet can issue. Default: 1_000_000_000.
    pub max_supply: Option<u64>,
    /// Token symbol identifier (e.g., "MIDEN", "BTC"). Default: "TEST".
    pub token_symbol: Option<String>,
    /// Whether the faucet exists on-chain at test start. Default: true.
    pub exists: Option<bool>,
    /// Initial token amount issued when faucet is created. Default: 0.
    pub issuance: Option<u64>,
}

/// The `package` attribute as written.
#[derive(Debug, Clone)]
pub struct PackageAttrBuilder {
    /// Variable name for this package in generated code. Default: "package".
    pub name: Option<String>,
    /// Relative path to the Rust package directory to compile.
    pub path: Option<String>,
}

/// An account of the test.
#[derive(Debug, Clone)]
pub struct Account {
    pub binding: String,
    pub component: String,
    pub seed: u8,
}

/// The mock chain of the test.
#[derive(Debug, Clone)]
pub struct MockChainBuilder {
    pub binding: String,
}

/// A faucet of the test.
#[derive(Debug, Clone)]
pub struct Faucet {
    pub binding: String,
    pub max_supply: u64,
    pub token_symbol: String,
    pub exists: bool,
    pub issuance: u64,
}

/// A package of the test.
#[derive(Debug, Clone)]
pub struct Package {
    pub binding: String,
    pub path: String,
}

/// Every attribute a test recognizes, as written; `Help` asks for the help text, optionally
/// of one attribute.
#[derive(Debug, Clone)]
pub enum RecognizedAttrsBuilder {
    Account(AccountAttrBuilder),
    Chain(ChainAttrBuilder),
    Faucet(FaucetAttrBuilder),
    Package(PackageAttrBuilder),
    Help { attribute: Option<String> },
}

/// Every attribute a test recognizes, built.
#[derive(Debug, Clone)]
pub enum RecognizedAttrs {
    Account(Account),
    Chain(MockChainBuilder),
    Faucet(Faucet),
    Package(Package),
}

/// The text of an optional string, or `default` when it is absent.
pub open spec fn text_or(s: Option<String>, default: Seq<char>) -> Seq<char> {
    match s {
        Some(s) => s@,
        None => default,
    }
}

/// The string `s`, or `default` when it is absent.
fn string_or(s: Option<String>, default: &str) -> (r: String)
    ensures
        r@ == text_or(s, default@),
{
    match s {
        Some(s) => s,
        None => default.to_owned(),
    }
}

impl AccountAttrBuilder {
    /// The account, with the defaults for what was not written.
    pub fn build(self) -> (r: Account)
        ensures
            r.binding@ == text_or(self.name, "account"@),
            r.component@ == text_or(self.component, "wallet"@),
            r.seed == match self.seed {
                Some(s) => s,
                None => 1u8,
            },
    {
        Account {
            binding: string_or(self.name, "account"),
            component: string_or(self.component, "wallet"),
            seed: match self.seed {
                Some(s) => s,
                None => 1,
            },
        }
    }
}

impl ChainAttrBuilder {
    /// The chain, with the default binding when none was written.
    pub fn build(self) -> (r: MockChainBuilder)
        ensures
            r.binding@ == text_or(self.name, "chain"@),
    {
        MockChainBuilder { binding: string_or(self.name, "chain") }
    }
}

impl FaucetAttrBuilder {
    /// The faucet, with the defaults for what was not written.
    pub fn build(self) -> (r: Faucet)
        ensures
            r.binding@ == text_or(self.name, "faucet"@),
            r.max_supply == match self.max_supply {
                Some(m) => m,
                None => 1_000_000_000u64,
            },
            r.token_symbol@ == text_or(self.token_symbol, "TEST"@),
            r.exists == match self.exists {
                Some(e) => e,
                None => true,
            },
            r.issuance == match self.issuance {
                Some(i) => i,
                None => 0u64,
            },
    {
        Faucet {
            binding: string_or(self.name, "faucet"),
            max_supply: match self.max_supply {
                Some(m) => m,
                None => 1_000_000_000u64,
            },
            token_symbol: string_or(self.token_symbol, "TEST"),
            exists: match self.exists {
                Some(e) => e,
                None => true,
            },
            issuance: match self.issuance {
                Some(i) => i,
                None => 0,
            },
        }
    }
}

impl PackageAttrBuilder {
    /// The package, with the defaults for what was not written.
    pub fn build(self) -> (r: Package)
        ensures
            r.binding@ == text_or(self.name, "package"@),
            r.path@ == text_or(self.path, ""@),
    {
        Package { binding: string_or(self.name, "package"), path: string_or(self.path, "") }
    }
}

/// The help text of the `account` attribute.
pub open spec fn account_help_text() -> Seq<char> {
    ACCOUNT_HELP@
}

/// The help text of the `chain` attribute.
pub open spec fn chain_help_text() -> Seq<char> {
    CHAIN_HELP@
}

/// The help text of the `faucet` attribute.
pub open spec fn faucet_help_text() -> Seq<char> {
    FAUCET_HELP@
}

/// The help text of the `package` attribute.
pub open spec fn package_help_text() -> Seq<char> {
    PACKAGE_HELP@
}

/// The help text of the attributes that `filter` selects: every attribute when there is no
/// filter, else the one whose name is the filter (none if no attribute has that name); each
/// text is preceded by a newline.
pub open spec fn help_message(filter: Option<Seq<char>>) -> Seq<char> {
    let pick = |name: Seq<char>, text: Seq<char>|
        match filter {
            Some(f) => if f == name {
                "\n"@ + text
            } else {
                Seq::empty()
            },
            None => "\n"@ + text,
        };
    pick("account"@, account_help_text()) + pick("chain"@, chain_help_text()) + pick(
        "faucet"@,
        faucet_help_text(),
    ) + pick("package"@, package_help_text())
}

/// Append the help text `text` of the attribute `name` to `acc` when `filter` selects it.
fn append_help(acc: &mut String, filter: &Option<String>, name: &str, text: &str)
    ensures
        final(acc)@ == old(acc)@ + match filter {
            Some(f) => if f@ == name@ {
                "\n"@ + text@
            } else {
                Seq::empty()
            },
            None => "\n"@ + text@,
        },
{
    let selected = match filter {
        Some(f) => *f == name.to_owned(),
        None => true,
    };
    if selected {
        acc.append("\n");
        acc.append(text);
    }
    proof {
        assert(acc@ =~= old(acc)@ + match filter {
            Some(f) => if f@ == name@ {
                "\n"@ + text@
            } else {
                Seq::empty()
            },
            None => "\n"@ + text@,
        });
    }
}

impl RecognizedAttrsBuilder {
    /// The help text of the attributes that `filter` selects (see `help_message`).
    pub fn help(filter: Option<String>) -> (r: String)
        ensures
            r@ == help_message(
                match filter {
                    Some(f) => Some(f@),
                    None => None,
                },
            ),
    {
        let mut acc = String::new();
        append_help(&mut acc, &filter, "account", ACCOUNT_HELP);
        append_help(&mut acc, &filter, "chain", CHAIN_HELP);
        append_help(&mut acc, &filter, "faucet", FAUCET_HELP);
        append_help(&mut acc, &filter, "package", PACKAGE_HELP);
        proof {
            assert(acc@ =~= help_message(
                match filter {
                    Some(f) => Some(f@),
                    None => None,
                },
            ));
        }
        acc
    }

    /// The attribute, built; a request for help is not an attribute.
    pub fn build(self) -> (r: RecognizedAttrs)
        requires
            !(self is Help),
        ensures
            match self {
                RecognizedAttrsBuilder::Account(a) => r is Account,
                RecognizedAttrsBuilder::Chain(c) => r is Chain,
                RecognizedAttrsBuilder::Faucet(f) => r is Faucet,
                RecognizedAttrsBuilder::Package(p) => r is Package,
                RecognizedAttrsBuilder::Help { .. } => false,
            },
            match (self, r) {
                (RecognizedAttrsBuilder::Account(a), RecognizedAttrs::Account(b)) => {
                    &&& b.binding@ == text_or(a.name, "account"@)
                    &&& b.component@ == text_or(a.component, "wallet"@)
                    &&& b.seed == match a.seed {
                        Some(s) => s,
                        None => 1u8,
                    }
                },
                (RecognizedAttrsBuilder::Chain(a), RecognizedAttrs::Chain(b)) => b.binding@
                    == text_or(a.name, "chain"@),
                (RecognizedAttrsBuilder::Faucet(a), RecognizedAttrs::Faucet(b)) => {
                    &&& b.binding@ == text_or(a.name, "faucet"@)
                    &&& b.max_supply == match a.max_supply {
                        Some(m) => m,
                        None => 1_000_000_000u64,
                    }
                    &&& b.token_symbol@ == text_or(a.token_symbol, "TEST"@)
                    &&& b.exists == match a.exists {
                        Some(e) => e,
                        None => true,
                    }
                    &&& b.issuance == match a.issuance {
                        Some(i) => i,
                        None => 0u64,
                    }
                },
                (RecognizedAttrsBuilder::Package(a), RecognizedAttrs::Package(b)) => {
                    &&& b.binding@ == text_or(a.name, "package"@)
                    &&& b.path@ == text_or(a.path, ""@)
                },
                _ => true,
            },
    {
        match self {
            RecognizedAttrsBuilder::Faucet(f) => RecognizedAttrs::Faucet(f.build()),
            RecognizedAttrsBuilder::Chain(c) => RecognizedAttrs::Chain(c.build()),
            RecognizedAttrsBuilder::Account(a) => RecognizedAttrs::Account(a.build()),
            RecognizedAttrsBuilder::Package(p) => RecognizedAttrs::Package(p.build()),
            RecognizedAttrsBuilder::Help { .. } => RecognizedAttrs::Chain(
                MockChainBuilder { binding: String::new() },
            ),
        }
    }
}

/// The help text of the `account` attribute.
pub const ACCOUNT_HELP: &'static str = "-------------------------------------------------------------------------------\naccount\n\t- name: Variable name for this account in generated code. Default: \"account\".\n\t- component: Component used by this account. Must match a package name. Default: \"wallet\".\n\t- seed: Seed for account generation, expanded to [seed; 32]. Default: 1.\n";

/// The help text of the `chain` attribute.
pub const CHAIN_HELP: &'static str = "-------------------------------------------------------------------------------\nchain\n\t- name: Variable name for this chain in generated code. Default: \"chain\".\n";

/// The help text of the `faucet` attribute.
pub const FAUCET_HELP: &'static str = "-------------------------------------------------------------------------------\nfaucet\n\t- name: Variable name for this faucet in generated code. Default: \"faucet\".\n\t- max_supply: Maximum token supply the faucet can issue. Default: 1_000_000_000.\n\t- token_symbol: Token symbol identifier (e.g., \"MIDEN\", \"BTC\"). Default: \"TEST\".\n\t- exists: Whether the faucet exists on-chain at test start. Default: true.\n\t- issuance: Initial token amount issued when faucet is created. Default: 0.\n";

/// The help text of the `package` attribute.
pub const PACKAGE_HELP: &'static str = "-------------------------------------------------------------------------------\npackage\n\t- name: Variable name for this package in generated code. Default: \"package\".\n\t- path: Relative path to the Rust package directory to compile.\n";

} // verus!

verus! {

/// The place of an attribute's code in an emitted test: packages first, then the chain,
/// faucets and accounts.
pub open spec fn attr_order(a: RecognizedAttrs) -> u8 {
    match a {
        RecognizedAttrs::Package(_) => 0,
        RecognizedAttrs::Chain(_) => 1,
        RecognizedAttrs::Faucet(_) => 2,
        RecognizedAttrs::Account(_) => 3,
    }
}

impl RecognizedAttrs {
    /// The sort order of this attribute (see `attr_order`).
    pub fn sort_order(&self) -> (r: u8)
        ensures
            r == attr_order(*self),
    {
        match self {
            RecognizedAttrs::Package(_) => 0,
            RecognizedAttrs::Chain(_) => 1,
            RecognizedAttrs::Faucet(_) => 2,
            RecognizedAttrs::Account(_) => 3,
        }
    }
}

impl PartialEq for RecognizedAttrs {
    fn eq(&self, other: &Self) -> (r: bool) {
        self.sort_order() == other.sort_order()
    }
}

impl vstd::std_specs::cmp::PartialEqSpecImpl for RecognizedAttrs {
    open spec fn obeys_eq_spec() -> bool {
        true
    }

    open spec fn eq_spec(&self, other: &Self) -> bool {
        attr_order(*self) == attr_order(*other)
    }
}

impl Eq for RecognizedAttrs {
}

/// Whether `attrs` holds a chain.
pub open spec fn has_chain(attrs: Seq<RecognizedAttrs>) -> bool {
    exists|i: int| 0 <= i < attrs.len() && (#[trigger] attrs[i]) is Chain
}

/// The number of chains in `attrs`.
pub open spec fn count_chains(attrs: Seq<RecognizedAttrs>) -> nat
    decreases attrs.len(),
{
    if attrs.len() == 0 {
        0
    } else {
        count_chains(attrs.drop_last()) + if attrs.last() is Chain {
            1nat
        } else {
            0nat
        }
    }
}

/// The number of packages bound to `name` in `attrs`.
pub open spec fn count_packages_named(attrs: Seq<RecognizedAttrs>, name: Seq<char>) -> nat
    decreases attrs.len(),
{
    if attrs.len() == 0 {
        0
    } else {
        count_packages_named(attrs.drop_last(), name) + match attrs.last() {
            RecognizedAttrs::Package(p) => if p.binding@ == name {
                1nat
            } else {
                0nat
            },
            _ => 0nat,
        }
    }
}

/// Whether `full_attrs` holds a chain.
pub fn check_for_chain(full_attrs: &[RecognizedAttrs]) -> (r: bool)
    ensures
        r == has_chain(full_attrs@),
{
    let mut i: usize = 0;
    while i < full_attrs.len()
        invariant
            i <= full_attrs@.len(),
            forall|j: int| 0 <= j < i ==> !(#[trigger] full_attrs@[j] is Chain),
        decreases full_attrs@.len() - i,
    {
        if let RecognizedAttrs::Chain(_) = &full_attrs[i] {
            return true;
        }
        i = i + 1;
    }
    false
}

/// The number of packages bound to `name` in `full_attrs`.
fn packages_named(full_attrs: &[RecognizedAttrs], name: &String) -> (r: usize)
    ensures
        r == count_packages_named(full_attrs@, name@),
{
    let mut n: usize = 0;
    let mut i: usize = 0;
    while i < full_attrs.len()
        invariant
            i <= full_attrs@.len(),
            n == count_packages_named(full_attrs@.take(i as int), name@),
            n <= i,
        decreases full_attrs@.len() - i,
    {
        assert(full_attrs@.take(i + 1).drop_last() =~= full_attrs@.take(i as int));
        if let RecognizedAttrs::Package(p) = &full_attrs[i] {
            if p.binding == *name {
                n = n + 1;
            }
        }
        i = i + 1;
    }
    assert(full_attrs@.take(i as int) =~= full_attrs@);
    n
}

/// The number of chains in `full_attrs`.
fn chains_in(full_attrs: &[RecognizedAttrs]) -> (r: usize)
    ensures
        r == count_chains(full_attrs@),
{
    let mut n: usize = 0;
    let mut i: usize = 0;
    while i < full_attrs.len()
        invariant
            i <= full_attrs@.len(),
            n == count_chains(full_attrs@.take(i as int)),
            n <= i,
        decreases full_attrs@.len() - i,
    {
        assert(full_attrs@.take(i + 1).drop_last() =~= full_attrs@.take(i as int));
        if let RecognizedAttrs::Chain(_) = &full_attrs[i] {
            n = n + 1;
        }
        i = i + 1;
    }
    assert(full_attrs@.take(i as int) =~= full_attrs@);
    n
}

/// What validating attribute `a` among `attrs` reports: nothing when it is valid, else the
/// message of its error.
pub open spec fn validation_error(a: RecognizedAttrs, attrs: Seq<RecognizedAttrs>) -> Option<
    Seq<char>,
> {
    match a {
        RecognizedAttrs::Account(acc) => if !has_chain(attrs) {
            Some("account requires at least the presence of a chain"@)
        } else if count_packages_named(attrs, acc.component@) == 0 {
            Some(
                "account needs 1 package named "@ + acc.component@ + ", yet no "@ + acc.component@
                    + " 'package' found"@,
            )
        } else if count_packages_named(attrs, acc.component@) == 1 {
            None
        } else {
            Some(
                "account needs only 1 package named "@ + acc.component@ + ", yet "@ + decimal(
                    count_packages_named(attrs, acc.component@),
                ) + " "@ + acc.component@ + " were found"@,
            )
        },
        RecognizedAttrs::Chain(_) => None,
        RecognizedAttrs::Faucet(_) => if !has_chain(attrs) {
            Some("faucet requires at least the presence of a chain"@)
        } else {
            None
        },
        RecognizedAttrs::Package(p) => if count_packages_named(attrs, p.binding@) > 1 {
            Some(
                "Only one "@ + p.binding@ + " variable can exist, yet "@ + decimal(
                    count_packages_named(attrs, p.binding@),
                ) + " were found"@,
            )
        } else {
            None
        },
    }
}

/// The outcome of a validation that reports `e`.
pub open spec fn outcome(r: Result<(), String>, e: Option<Seq<char>>) -> bool {
    match e {
        None => r is Ok,
        Some(msg) => r is Err && r->Err_0@ == msg,
    }
}

impl Account {
    /// The account needs a chain, and exactly one package bound to its component.
    pub fn validate(&self, full_attrs: &[RecognizedAttrs]) -> (r: Result<(), String>)
        ensures
            outcome(r, validation_error(RecognizedAttrs::Account(*self), full_attrs@)),
    {
        let has_chain = check_for_chain(full_attrs);
        if !has_chain {
            return Err("account requires at least the presence of a chain".to_owned());
        }
        let n = packages_named(full_attrs, &self.component);
        if n == 0 {
            let mut msg = "account needs 1 package named ".to_owned();
            msg.append(self.component.as_str());
            msg.append(", yet no ");
            msg.append(self.component.as_str());
            msg.append(" 'package' found");
            return Err(msg);
        } else if n == 1 {
            return Ok(());
        }
        let mut msg = "account needs only 1 package named ".to_owned();
        msg.append(self.component.as_str());
        msg.append(", yet ");
        push_decimal(&mut msg, n as u64);
        msg.append(" ");
        msg.append(self.component.as_str());
        msg.append(" were found");
        Err(msg)
    }
}

impl MockChainBuilder {
    /// A test has at most one chain.
    pub fn validate(&self, full_attrs: &[RecognizedAttrs]) -> (r: Result<(), String>)
        requires
            count_chains(full_attrs@) <= 1,
        ensures
            r is Ok,
    {
        Ok(())
    }
}

impl Faucet {
    /// The faucet needs a chain.
    pub fn validate(&self, full_attrs: &[RecognizedAttrs]) -> (r: Result<(), String>)
        ensures
            outcome(r, validation_error(RecognizedAttrs::Faucet(*self), full_attrs@)),
    {
        if !check_for_chain(full_attrs) {
            return Err("faucet requires at least the presence of a chain".to_owned());
        }
        Ok(())
    }
}

impl Package {
    /// No other package may be bound to the same name.
    pub fn validate(&self, full_attrs: &[RecognizedAttrs]) -> (r: Result<(), String>)
        ensures
            outcome(r, validation_error(RecognizedAttrs::Package(*self), full_attrs@)),
    {
        let n = packages_named(full_attrs, &self.binding);
        if n > 1 {
            let mut msg = "Only one ".to_owned();
            msg.append(self.binding.as_str());
            msg.append(" variable can exist, yet ");
            push_decimal(&mut msg, n as u64);
            msg.append(" were found");
            return Err(msg);
        }
        Ok(())
    }
}

impl RecognizedAttrs {
    /// Validate this attribute among `full_attrs` (see `validation_error`); a test has at
    /// most one chain.
    pub fn validate(&self, full_attrs: &[RecognizedAttrs]) -> (r: Result<(), String>)
        requires
            *self is Chain ==> count_chains(full_attrs@) <= 1,
        ensures
            outcome(r, validation_error(*self, full_attrs@)),
    {
        match self {
            RecognizedAttrs::Chain(c) => c.validate(full_attrs),
            RecognizedAttrs::Faucet(f) => f.validate(full_attrs),
            RecognizedAttrs::Account(a) => a.validate(full_attrs),
            RecognizedAttrs::Package(p) => p.validate(full_attrs),
        }
    }
}

} // verus!

verus! {

/// The messages of the errors that validating each of the first `n` attributes of `attrs`
/// among `attrs` reports, in order.
pub open spec fn validation_errors(attrs: Seq<RecognizedAttrs>, n: int) -> Seq<Seq<char>>
    decreases n,
{
    if n <= 0 {
        Seq::empty()
    } else {
        let rest = validation_errors(attrs, n - 1);
        match validation_error(attrs[n - 1], attrs) {
            Some(m) => rest.push(m),
            None => rest,
        }
    }
}

/// Error messages joined into one report: each preceded by a space, a newline and a space.
pub open spec fn joined_errors(errs: Seq<Seq<char>>) -> Seq<char>
    decreases errs.len(),
{
    if errs.len() == 0 {
        Seq::empty()
    } else {
        joined_errors(errs.drop_last()) + " \n "@ + errs.last()
    }
}

/// Validate every attribute of `attrs` among them all; fail with the joined messages of all
/// the errors when any is reported. A test has at most one chain.
pub fn validate_all(attrs: &[RecognizedAttrs]) -> (r: Result<(), String>)
    requires
        count_chains(attrs@) <= 1,
    ensures
        r is Ok <==> validation_errors(attrs@, attrs@.len() as int).len() == 0,
        r is Err ==> r->Err_0@ == joined_errors(validation_errors(attrs@, attrs@.len() as int)),
{
    let mut msg = String::new();
    let mut failed = false;
    let mut i: usize = 0;
    while i < attrs.len()
        invariant
            count_chains(attrs@) <= 1,
            i <= attrs@.len(),
            msg@ == joined_errors(validation_errors(attrs@, i as int)),
            failed <==> validation_errors(attrs@, i as int).len() > 0,
        decreases attrs@.len() - i,
    {
        let ghost before = validation_errors(attrs@, i as int);
        match attrs[i].validate(attrs) {
            Ok(()) => {},
            Err(e) => {
                msg.append(" \n ");
                msg.append(e.as_str());
                failed = true;
                proof {
                    let errs = validation_errors(attrs@, i + 1);
                    assert(errs == before.push(e@));
                    assert(errs.drop_last() =~= before);
                    assert(msg@ =~= joined_errors(errs));
                }
            },
        }
        i = i + 1;
    }
    if failed {
        Err(msg)
    } else {
        Ok(())
    }
}

/// The attributes of `s` with sort order `k`, in the order they come in `s`.
pub open spec fn attrs_of_order(s: Seq<RecognizedAttrs>, k: u8) -> Seq<RecognizedAttrs>
    decreases s.len(),
{
    if s.len() == 0 {
        Seq::empty()
    } else {
        let rest = attrs_of_order(s.drop_last(), k);
        if attr_order(s.last()) == k {
            rest.push(s.last())
        } else {
            rest
        }
    }
}

/// `s` sorted by sort order, stably: the packages, the chains, the faucets, then the
/// accounts, each kind in the order it comes in `s`.
pub open spec fn sorted_attrs(s: Seq<RecognizedAttrs>) -> Seq<RecognizedAttrs> {
    attrs_of_order(s, 0) + attrs_of_order(s, 1) + attrs_of_order(s, 2) + attrs_of_order(s, 3)
}

/// Sort `attrs` by sort order, stably (see `sorted_attrs`).
pub fn sort_attrs(attrs: Vec<RecognizedAttrs>) -> (r: Vec<RecognizedAttrs>)
    ensures
        r@ == sorted_attrs(attrs@),
{
    let ghost input = attrs@;
    let mut rest = attrs;
    let mut packages: Vec<RecognizedAttrs> = Vec::new();
    let mut chains: Vec<RecognizedAttrs> = Vec::new();
    let mut faucets: Vec<RecognizedAttrs> = Vec::new();
    let mut accounts: Vec<RecognizedAttrs> = Vec::new();
    let mut i: usize = 0;
    let n = rest.len();
    while rest.len() > 0
        invariant
            i + rest@.len() == n,
            n == input.len(),
            rest@ == input.skip(i as int),
            packages@ == attrs_of_order(input.take(i as int), 0),
            chains@ == attrs_of_order(input.take(i as int), 1),
            faucets@ == attrs_of_order(input.take(i as int), 2),
            accounts@ == attrs_of_order(input.take(i as int), 3),
        decreases rest@.len(),
    {
        let a = rest.remove(0);
        proof {
            assert(input.take(i + 1).drop_last() =~= input.take(i as int));
            assert(input.take(i + 1).last() == a);
            assert(rest@ =~= input.skip(i + 1));
        }
        match a {
            RecognizedAttrs::Package(_) => packages.push(a),
            RecognizedAttrs::Chain(_) => chains.push(a),
            RecognizedAttrs::Faucet(_) => faucets.push(a),
            RecognizedAttrs::Account(_) => accounts.push(a),
        }
        i = i + 1;
    }
    assert(input.take(i as int) =~= input);
    packages.append(&mut chains);
    packages.append(&mut faucets);
    packages.append(&mut accounts);
    packages
}

/// The binding of the first chain in `attrs` from position `i` on, if any.
pub open spec fn first_chain_binding(attrs: Seq<RecognizedAttrs>, i: int) -> Option<Seq<char>>
    decreases attrs.len() - i,
{
    if 0 <= i < attrs.len() {
        match attrs[i] {
            RecognizedAttrs::Chain(c) => Some(c.binding@),
            _ => first_chain_binding(attrs, i + 1),
        }
    } else {
        None
    }
}

/// The binding of the first chain in `full_attrs`, which the code of faucets and accounts
/// uses, if there is a chain.
pub fn chain_binding(full_attrs: &[RecognizedAttrs]) -> (r: Option<String>)
    ensures
        match r {
            Some(b) => first_chain_binding(full_attrs@, 0) == Some(b@),
            None => first_chain_binding(full_attrs@, 0) is None,
        },
{
    let mut i: usize = 0;
    while i < full_attrs.len()
        invariant
            i <= full_attrs@.len(),
            first_chain_binding(full_attrs@, 0) == first_chain_binding(full_attrs@, i as int),
        decreases full_attrs@.len() - i,
    {
        if let RecognizedAttrs::Chain(c) = &full_attrs[i] {
            return Some(c.binding.clone());
        }
        i = i + 1;
    }
    None
}

} // verus!

verus! {

/// The attributes of `s` with sort order `k` all have sort order `k`.
pub proof fn lemma_attrs_of_order_all(s: Seq<RecognizedAttrs>, k: u8)
    ensures
        forall|i: int|
            0 <= i < attrs_of_order(s, k).len() ==> attr_order(#[trigger] attrs_of_order(s, k)[i])
                == k,
    decreases s.len(),
{
    if s.len() > 0 {
        lemma_attrs_of_order_all(s.drop_last(), k);
        let rest = attrs_of_order(s.drop_last(), k);
        assert forall|i: int|
            0 <= i < attrs_of_order(s, k).len() implies attr_order(
            #[trigger] attrs_of_order(s, k)[i],
        ) == k by {
            if i < rest.len() {
                assert(attrs_of_order(s, k)[i] == rest[i]);
            }
        }
    }
}

/// Splitting a sequence by sort order loses and adds no attribute.
pub proof fn lemma_attrs_of_order_lens(s: Seq<RecognizedAttrs>)
    ensures
        attrs_of_order(s, 0).len() + attrs_of_order(s, 1).len() + attrs_of_order(s, 2).len()
            + attrs_of_order(s, 3).len() == s.len(),
    decreases s.len(),
{
    if s.len() > 0 {
        lemma_attrs_of_order_lens(s.drop_last());
    }
}

/// Selecting by sort order distributes over concatenation.
pub proof fn lemma_attrs_of_order_concat(x: Seq<RecognizedAttrs>, y: Seq<RecognizedAttrs>, k: u8)
    ensures
        attrs_of_order(x + y, k) == attrs_of_order(x, k) + attrs_of_order(y, k),
    decreases y.len(),
{
    if y.len() == 0 {
        assert(x + y =~= x);
        assert(attrs_of_order(x, k) + attrs_of_order(y, k) =~= attrs_of_order(x, k));
    } else {
        lemma_attrs_of_order_concat(x, y.drop_last(), k);
        assert((x + y).drop_last() =~= x + y.drop_last());
        assert((x + y).last() == y.last());
        if attr_order(y.last()) == k {
            assert(attrs_of_order(x + y, k) =~= attrs_of_order(x, k) + attrs_of_order(y, k));
        } else {
            assert(attrs_of_order(x + y, k) =~= attrs_of_order(x, k) + attrs_of_order(y, k));
        }
    }
}

/// Selecting by sort order from attributes that all have order `j` keeps them all when the
/// order is `j`, and none otherwise.
pub proof fn lemma_attrs_of_order_uniform(x: Seq<RecognizedAttrs>, j: u8, k: u8)
    requires
        forall|i: int| 0 <= i < x.len() ==> attr_order(#[trigger] x[i]) == j,
    ensures
        attrs_of_order(x, k) == if j == k {
            x
        } else {
            Seq::<RecognizedAttrs>::empty()
        },
    decreases x.len(),
{
    if x.len() > 0 {
        assert forall|i: int| 0 <= i < x.drop_last().len() implies attr_order(
            #[trigger] x.drop_last()[i],
        ) == j by {
            assert(x.drop_last()[i] == x[i]);
        }
        lemma_attrs_of_order_uniform(x.drop_last(), j, k);
        assert(attr_order(x[x.len() - 1]) == j);
        if j == k {
            assert(x.drop_last().push(x.last()) =~= x);
        }
    }
}

/// Sorting attributes orders them by sort order: packages, then chains, faucets and
/// accounts.
pub proof fn lemma_sorted_attrs_ordered(s: Seq<RecognizedAttrs>)
    ensures
        forall|i: int, j: int|
            0 <= i <= j < sorted_attrs(s).len() ==> attr_order(#[trigger] sorted_attrs(s)[i])
                <= attr_order(#[trigger] sorted_attrs(s)[j]),
{
    let b0 = attrs_of_order(s, 0);
    let b1 = attrs_of_order(s, 1);
    let b2 = attrs_of_order(s, 2);
    let b3 = attrs_of_order(s, 3);
    lemma_attrs_of_order_all(s, 0);
    lemma_attrs_of_order_all(s, 1);
    lemma_attrs_of_order_all(s, 2);
    lemma_attrs_of_order_all(s, 3);
    let r = sorted_attrs(s);
    assert forall|i: int| 0 <= i < r.len() implies attr_order(#[trigger] r[i]) == (if i
        < b0.len() {
        0u8
    } else if i < b0.len() + b1.len() {
        1u8
    } else if i < b0.len() + b1.len() + b2.len() {
        2u8
    } else {
        3u8
    }) by {
        if i < b0.len() {
            assert(r[i] == b0[i]);
        } else if i < b0.len() + b1.len() {
            assert(r[i] == b1[i - b0.len()]);
        } else if i < b0.len() + b1.len() + b2.len() {
            assert(r[i] == b2[i - b0.len() - b1.len()]);
        } else {
            assert(r[i] == b3[i - b0.len() - b1.len() - b2.len()]);
        }
    }
}

/// Sorting attributes keeps their number.
pub proof fn lemma_sorted_attrs_len(s: Seq<RecognizedAttrs>)
    ensures
        sorted_attrs(s).len() == s.len(),
{
    lemma_attrs_of_order_lens(s);
}

/// Sorting sorted attributes changes nothing.
pub proof fn lemma_sorted_attrs_idempotent(s: Seq<RecognizedAttrs>)
    ensures
        sorted_attrs(sorted_attrs(s)) == sorted_attrs(s),
{
    let b0 = attrs_of_order(s, 0);
    let b1 = attrs_of_order(s, 1);
    let b2 = attrs_of_order(s, 2);
    let b3 = attrs_of_order(s, 3);
    lemma_attrs_of_order_all(s, 0);
    lemma_attrs_of_order_all(s, 1);
    lemma_attrs_of_order_all(s, 2);
    lemma_attrs_of_order_all(s, 3);
    let r = sorted_attrs(s);
    assert forall|k: u8| 0 <= k <= 3 implies #[trigger] attrs_of_order(r, k) == attrs_of_order(s, k) by {
        lemma_attrs_of_order_concat(b0 + b1 + b2, b3, k);
        lemma_attrs_of_order_concat(b0 + b1, b2, k);
        lemma_attrs_of_order_concat(b0, b1, k);
        lemma_attrs_of_order_uniform(b0, 0, k);
        lemma_attrs_of_order_uniform(b1, 1, k);
        lemma_attrs_of_order_uniform(b2, 2, k);
        lemma_attrs_of_order_uniform(b3, 3, k);
        if k == 0 {
            assert(attrs_of_order(r, k) =~= b0);
        } else if k == 1 {
            assert(attrs_of_order(r, k) =~= b1);
        } else if k == 2 {
            assert(attrs_of_order(r, k) =~= b2);
        } else {
            assert(attrs_of_order(r, k) =~= b3);
        }
    }
    assert(attrs_of_order(r, 0) == b0);
    assert(attrs_of_order(r, 1) == b1);
    assert(attrs_of_order(r, 2) == b2);
    assert(attrs_of_order(r, 3) == b3);
}

} // verus!

verus! {

/// When no attribute among the first `n` reports an error, none of them does.
proof fn lemma_no_validation_errors(attrs: Seq<RecognizedAttrs>, n: int, k: int)
    requires
        validation_errors(attrs, n).len() == 0,
        0 <= k < n,
    ensures
        validation_error(attrs[k], attrs) is None,
    decreases n,
{
    if validation_error(attrs[n - 1], attrs) is Some {
        assert(validation_errors(attrs, n).len() == validation_errors(attrs, n - 1).len() + 1);
    } else if k < n - 1 {
        lemma_no_validation_errors(attrs, n - 1, k);
    }
}

/// Selecting by sort order keeps every attribute of that order.
proof fn lemma_attrs_of_order_keeps(s: Seq<RecognizedAttrs>, j: int)
    requires
        0 <= j < s.len(),
    ensures
        attrs_of_order(s, attr_order(s[j])).contains(s[j]),
    decreases s.len(),
{
    let k = attr_order(s[j]);
    if j == s.len() - 1 {
        let rest = attrs_of_order(s.drop_last(), k);
        assert(attrs_of_order(s, k) == rest.push(s.last()));
        assert(attrs_of_order(s, k)[rest.len() as int] == s[j]);
    } else {
        assert(s.drop_last()[j] == s[j]);
        lemma_attrs_of_order_keeps(s.drop_last(), j);
        let rest = attrs_of_order(s.drop_last(), k);
        let i = choose|i: int| 0 <= i < rest.len() && rest[i] == s[j];
        if attr_order(s.last()) == k {
            assert(attrs_of_order(s, k)[i] == s[j]);
        }
    }
}

/// A sequence with a chain at or after position `k` has a first chain from `k` on.
proof fn lemma_first_chain_exists(s: Seq<RecognizedAttrs>, k: int, j: int)
    requires
        0 <= k <= j < s.len(),
        s[j] is Chain,
    ensures
        first_chain_binding(s, k) is Some,
    decreases j - k,
{
    if !(s[k] is Chain) {
        lemma_first_chain_exists(s, k + 1, j);
    }
}

/// Attributes that validate, once sorted for emission, hold a chain for every account and
/// faucet among them to be added to.
pub proof fn lemma_validated_attrs_find_chain(attrs: Seq<RecognizedAttrs>, i: int)
    requires
        validation_errors(attrs, attrs.len() as int).len() == 0,
        0 <= i < attrs.len(),
        attrs[i] is Account || attrs[i] is Faucet,
    ensures
        first_chain_binding(sorted_attrs(attrs), 0) is Some,
{
    lemma_no_validation_errors(attrs, attrs.len() as int, i);
    assert(has_chain(attrs));
    let j = choose|j: int| 0 <= j < attrs.len() && (#[trigger] attrs[j]) is Chain;
    lemma_attrs_of_order_keeps(attrs, j);
    let b0 = attrs_of_order(attrs, 0);
    let b1 = attrs_of_order(attrs, 1);
    let idx = choose|idx: int| 0 <= idx < b1.len() && b1[idx] == attrs[j];
    let sorted = sorted_attrs(attrs);
    assert(sorted[b0.len() + idx] == attrs[j]);
    lemma_first_chain_exists(sorted, 0, b0.len() + idx);
}

} // verus!
