//! Variables of a function built from WebAssembly, and the errors of declaring and using them.
use vstd::prelude::*;
use crate::builders::{decimal, push_decimal};

verus! {

/// A variable of the function being built, by number.
#[derive(Clone, Copy, Debug, PartialEq, Eq, Structural)]
pub struct Variable(pub u32);

/// The text of variable `v`: `var` followed by its number.
pub open spec fn variable_text(v: Variable) -> Seq<char> {
    "var"@ + decimal(v.0 as nat)
}

impl Variable {
    /// The text of this variable (see `variable_text`).
    pub fn to_text(&self) -> (r: String)
        ensures
            r@ == variable_text(*self),
    {
        let mut s = "var".to_owned();
        push_decimal(&mut s, self.0 as u64);
        s
    }
}

/// An error of using a variable.
#[derive(Clone, Copy, Debug, PartialEq, Eq, Structural)]
pub enum UseVariableError {
    /// The variable is used before it is declared.
    UsedBeforeDeclared(Variable),
}

/// An error of declaring a variable.
#[derive(Clone, Copy, Debug, PartialEq, Eq, Structural)]
pub enum DeclareVariableError {
    /// The variable is declared a second time.
    DeclaredMultipleTimes(Variable),
}

impl UseVariableError {
    /// The message of this error.
    pub fn message(&self) -> (r: String)
        ensures
            r@ == match *self {
                UseVariableError::UsedBeforeDeclared(v) => "variable "@ + variable_text(v)
                    + " is used before the declaration"@,
            },
    {
        match self {
            UseVariableError::UsedBeforeDeclared(v) => {
                let mut s = "variable ".to_owned();
                let t = v.to_text();
                s.append(t.as_str());
                s.append(" is used before the declaration");
                s
            },
        }
    }
}

impl DeclareVariableError {
    /// The message of this error.
    pub fn message(&self) -> (r: String)
        ensures
            r@ == match *self {
                DeclareVariableError::DeclaredMultipleTimes(v) => "variable "@ + variable_text(v)
                    + " is already declared"@,
            },
    {
        match self {
            DeclareVariableError::DeclaredMultipleTimes(v) => {
                let mut s = "variable ".to_owned();
                let t = v.to_text();
                s.append(t.as_str());
                s.append(" is already declared");
                s
            },
        }
    }
}

} // verus!
