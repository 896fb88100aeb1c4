//! Join-point value choices.

use vstd::prelude::*;

use crate::expr::Expr;
use crate::var::Var;

verus! {

/// A join-point assignment: a variable and its guarded choices.
#[derive(Debug)]
pub struct Phi {
    var: Var,
    choices: Vec<(Expr, Expr)>,
}

impl Phi {
    /// The assigned variable.
    pub closed spec fn var_spec(&self) -> Var {
        self.var
    }

    /// The guarded choices.
    pub closed spec fn choices_spec(&self) -> Seq<(Expr, Expr)> {
        self.choices@
    }

    /// Build a join-point assignment.
    pub fn new(var: Var, choices: Vec<(Expr, Expr)>) -> (r: Phi)
        ensures
            r.var_spec() == var,
            r.choices_spec() == choices@,
    {
        Phi { var, choices }
    }

    /// The assigned variable.
    pub fn var(&self) -> (r: &Var)
        ensures
            *r == self.var_spec(),
    {
        &self.var
    }

    /// The guarded choices.
    pub fn choices(&self) -> (r: &Vec<(Expr, Expr)>)
        ensures
            r@ == self.choices_spec(),
    {
        &self.choices
    }
}

} // verus!
