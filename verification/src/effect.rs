//! Effects of the IR: data effects and control effects.

use vstd::prelude::*;

use crate::entity::Entity;
use crate::expr::{ArgList, Expr};
use crate::location::Loc;
use crate::var::Var;

verus! {

/// A data effect.
#[derive(Debug)]
pub enum Def {
    /// Assign the value of an expression to a variable.
    Assign(Var, Expr),
    /// Constrain the state by a condition.
    Assume(Expr),
}

impl Def {
    /// An assignment, owned under a fresh id.
    pub fn assign(var: Var, expr: Expr) -> (r: Entity<Def>)
        ensures
            r.value_spec() == Def::Assign(var, expr),
    {
        Entity::new("def", Def::Assign(var, expr))
    }

    /// An assumption, owned under a fresh id.
    pub fn assume_cond(cnd: Expr) -> (r: Entity<Def>)
        ensures
            r.value_spec() == Def::Assume(cnd),
    {
        Entity::new("def", Def::Assume(cnd))
    }
}

/// A control effect.
#[derive(Debug)]
pub enum Jmp {
    /// An unconditional branch.
    Branch(Loc),
    /// A conditional branch.
    CBranch(Loc, Expr),
    /// A subroutine call with arguments.
    Call(Loc, ArgList),
    /// A named intrinsic in control position.
    Intrinsic(String, ArgList),
    /// A return.
    Return(Loc),
}

impl Jmp {
    /// An unconditional branch, owned under a fresh id.
    pub fn branch(loc: Loc) -> (r: Entity<Jmp>)
        ensures
            r.value_spec() == Jmp::Branch(loc),
    {
        Entity::new("jmp", Jmp::Branch(loc))
    }

    /// A conditional branch, owned under a fresh id.
    pub fn cbranch(loc: Loc, cnd: Expr) -> (r: Entity<Jmp>)
        ensures
            r.value_spec() == Jmp::CBranch(loc, cnd),
    {
        Entity::new("jmp", Jmp::CBranch(loc, cnd))
    }

    /// A call, owned under a fresh id.
    pub fn call(loc: Loc, args: ArgList) -> (r: Entity<Jmp>)
        ensures
            r.value_spec() == Jmp::Call(loc, args),
    {
        Entity::new("jmp", Jmp::Call(loc, args))
    }

    /// A return, owned under a fresh id.
    pub fn ret(loc: Loc) -> (r: Entity<Jmp>)
        ensures
            r.value_spec() == Jmp::Return(loc),
    {
        Entity::new("jmp", Jmp::Return(loc))
    }

    /// Whether the effect is an unconditional branch.
    pub fn is_branch(&self) -> (r: bool)
        ensures
            r == (*self is Branch),
    {
        matches!(*self, Jmp::Branch(_))
    }

    /// Whether the effect is a return.
    pub fn is_return(&self) -> (r: bool)
        ensures
            r == (*self is Return),
    {
        matches!(*self, Jmp::Return(_))
    }
}

} // verus!
