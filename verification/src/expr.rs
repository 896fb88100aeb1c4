//! Expressions of the IR: an algebra over literals and variables.

use vstd::prelude::*;

use crate::bv::BitVec;
use crate::var::Var;

verus! {

/// Unary arithmetic operators.
#[derive(Clone, Copy, Debug, PartialEq, Eq, Structural)]
pub enum UnOp {
    /// Bitwise complement.
    Not,
    /// Two's-complement negation.
    Neg,
    /// Absolute value.
    Abs,
    /// Square root.
    Sqrt,
    /// Round towards positive infinity.
    Ceiling,
    /// Round towards negative infinity.
    Floor,
    /// Round to nearest.
    Round,
    /// Count of set bits.
    PopCount,
}

/// Unary relational operators.
#[derive(Clone, Copy, Debug, PartialEq, Eq, Structural)]
pub enum UnRel {
    /// Not-a-number test.
    Nan,
}

/// Binary arithmetic operators.
#[derive(Clone, Copy, Debug, PartialEq, Eq, Structural)]
pub enum BinOp {
    /// Wrapping sum.
    Add,
    /// Wrapping difference.
    Sub,
    /// Wrapping product.
    Mul,
    /// Unsigned quotient.
    Div,
    /// Signed quotient.
    SDiv,
    /// Unsigned remainder.
    Rem,
    /// Signed remainder.
    SRem,
    /// Bitwise conjunction.
    And,
    /// Bitwise disjunction.
    Or,
    /// Bitwise exclusive disjunction.
    Xor,
    /// Left shift.
    Shl,
    /// Logical right shift.
    Shr,
    /// Arithmetic right shift.
    Sar,
}

/// Binary relational operators.
#[derive(Clone, Copy, Debug, PartialEq, Eq, Structural)]
pub enum BinRel {
    /// Equality.
    Eq,
    /// Inequality.
    Neq,
    /// Unsigned less-than.
    Lt,
    /// Unsigned less-or-equal.
    Le,
    /// Signed less-than.
    SLt,
    /// Signed less-or-equal.
    SLe,
    /// Unsigned carry-out of a sum.
    Carry,
    /// Signed carry-out of a sum.
    SCarry,
    /// Signed borrow of a difference.
    SBorrow,
}

/// Width- and sort-changing conversions.
#[derive(Clone, Copy, Debug, PartialEq, Eq, Structural)]
pub enum CastKind {
    /// To a boolean.
    Bool,
    /// Sign-extend or truncate to a width.
    Signed(u32),
    /// Zero-extend or truncate to a width.
    Unsigned(u32),
    /// To a floating-point sort of a width.
    Float(u32),
    /// The high bits, at a width.
    High(u32),
    /// The low bits, at a width.
    Low(u32),
}

/// A list of argument expressions.
#[derive(Debug)]
pub enum ArgList {
    /// No more arguments.
    Nil,
    /// One argument followed by the rest.
    More(Box<Expr>, Box<ArgList>),
}

/// An expression of the IR.
#[derive(Debug)]
pub enum Expr {
    /// A bit-vector literal.
    Val(BitVec),
    /// A floating-point literal, carried as its bit pattern and format
    /// width.
    FloatVal(BitVec, u32),
    /// A variable read.
    Var(Var),
    /// A conversion.
    Cast(Box<Expr>, CastKind),
    /// A unary arithmetic operation.
    UnOp(UnOp, Box<Expr>),
    /// A unary relational operation.
    UnRel(UnRel, Box<Expr>),
    /// A binary arithmetic operation.
    BinOp(BinOp, Box<Expr>, Box<Expr>),
    /// A binary relational operation.
    BinRel(BinRel, Box<Expr>, Box<Expr>),
    /// A memory load: address, size in bytes, address space.
    Load(Box<Expr>, usize, u64),
    /// A bit-range extraction `[lsb, msb)`.
    Extract(Box<Expr>, usize, usize),
    /// Concatenation, the first operand most significant.
    Concat(Box<Expr>, Box<Expr>),
    /// A conditional choice.
    IfElse(Box<Expr>, Box<Expr>, Box<Expr>),
    /// A call with a computed target, arguments, and a result width.
    Call(Box<Expr>, ArgList, u32),
    /// A named intrinsic with arguments and a result width.
    Intrinsic(String, ArgList, u32),
}

impl Expr {
    /// Whether the expression is a literal.
    pub fn is_value(&self) -> (r: bool)
        ensures
            r == (*self is Val || *self is FloatVal),
    {
        matches!(*self, Expr::Val(_) | Expr::FloatVal(_, _))
    }

    /// Whether the expression is a variable read.
    pub fn is_variable(&self) -> (r: bool)
        ensures
            r == (*self is Var),
    {
        matches!(*self, Expr::Var(_))
    }
}

} // verus!
