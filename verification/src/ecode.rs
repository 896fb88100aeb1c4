//! The micro-op model: what the disassembly backend produces for one
//! architectural instruction, and the classification of its
//! control-flow exits.
//!
//! A lifted instruction is a sequence of micro-op statements over
//! space-addressed variables. The classifier walks the statements in
//! order and yields, for each control-relevant statement, one or more
//! classified edges; `ends_block` marks the edge kinds that terminate a
//! coarse-grained block.

use vstd::prelude::*;

use crate::bv::BitVec;
use crate::expr::{BinOp, BinRel, UnOp, UnRel};

verus! {

/// A space-addressed variable: an address space, a byte offset within
/// it, a width in bits and a generation counter.
#[derive(Clone, Copy, Debug, PartialEq, Eq, Structural, Hash)]
pub struct UVar {
    /// The address space.
    pub space: u64,
    /// The byte offset within the space.
    pub offset: u64,
    /// The width in bits.
    pub bits: u32,
    /// The generation counter.
    pub generation: u32,
}

/// A micro-op location: an instruction address and a statement position
/// within the instruction's micro-op sequence.
#[derive(Clone, Copy, Debug, PartialEq, Eq, Structural, Hash)]
pub struct ULoc {
    /// The instruction address.
    pub address: u64,
    /// The statement position.
    pub position: usize,
}

/// Width- and sort-changing conversions at the micro-op level.
#[derive(Clone, Copy, Debug, PartialEq, Eq, Structural)]
pub enum UCast {
    /// To a boolean.
    Bool,
    /// Sign-extend or truncate to a width.
    Signed(u32),
    /// Zero-extend or truncate to a width.
    Unsigned(u32),
    /// To a floating-point sort of a width.
    Float(u32),
    /// The high bits, at a width.
    High(u32),
    /// The low bits, at a width.
    Low(u32),
}

/// A list of micro-op argument expressions.
#[derive(Debug, PartialEq, Eq)]
pub enum UArgs {
    /// No more arguments.
    Nil,
    /// One argument followed by the rest.
    More(Box<UExpr>, Box<UArgs>),
}

/// A micro-op expression.
#[derive(Debug, PartialEq, Eq)]
pub enum UExpr {
    /// A bit-vector literal.
    Val(BitVec),
    /// A variable read.
    Var(UVar),
    /// A conversion.
    Cast(Box<UExpr>, UCast),
    /// A unary arithmetic operation.
    UnOp(UnOp, Box<UExpr>),
    /// A unary relational operation.
    UnRel(UnRel, Box<UExpr>),
    /// A binary arithmetic operation.
    BinOp(BinOp, Box<UExpr>, Box<UExpr>),
    /// A binary relational operation.
    BinRel(BinRel, Box<UExpr>, Box<UExpr>),
    /// A memory load: address, size in bytes, address space.
    Load(Box<UExpr>, usize, u64),
    /// A bit-range extraction `[lsb, msb)`.
    Extract(Box<UExpr>, usize, usize),
    /// Concatenation, the first operand most significant.
    Concat(Box<UExpr>, Box<UExpr>),
    /// A conditional choice.
    IfElse(Box<UExpr>, Box<UExpr>, Box<UExpr>),
    /// A call in expression position: computed target, arguments and a
    /// result width.
    Call(Box<UExpr>, UArgs, u32),
    /// A named intrinsic with arguments and a result width.
    Intrinsic(String, UArgs, u32),
}

/// A branch target of a micro-op statement.
#[derive(Debug, PartialEq, Eq)]
pub enum UTarget {
    /// A fixed micro-op location.
    Location(ULoc),
    /// A target computed by an expression.
    Computed(UExpr),
}

/// A micro-op statement.
#[derive(Debug, PartialEq, Eq)]
pub enum UStmt {
    /// Assign an expression's value to a variable.
    Assign(UVar, UExpr),
    /// Store a value at an address: destination address, value, size in
    /// bytes, address space.
    Store(UExpr, UExpr, usize, u64),
    /// An unconditional branch.
    Branch(UTarget),
    /// A conditional branch.
    CBranch(UExpr, UTarget),
    /// A subroutine call with arguments.
    Call(UTarget, UArgs),
    /// A return.
    Return(UTarget),
    /// A named intrinsic in statement position.
    Intrinsic(String, UArgs),
    /// No effect.
    Skip,
}

impl UStmt {
    /// Whether the statement affects control flow.
    pub open spec fn is_branch_spec(&self) -> bool {
        match *self {
            UStmt::Branch(_) | UStmt::CBranch(_, _) | UStmt::Call(_, _) | UStmt::Intrinsic(_, _)
                | UStmt::Return(_) => true,
            _ => false,
        }
    }

    /// Whether the statement affects control flow.
    pub fn is_branch(&self) -> (r: bool)
        ensures
            r == self.is_branch_spec(),
    {
        matches!(
            *self,
            UStmt::Branch(_) | UStmt::CBranch(_, _) | UStmt::Call(_, _) | UStmt::Intrinsic(_, _)
                | UStmt::Return(_)
        )
    }

    /// Whether the statement is a jump: a branch, conditional or not.
    pub fn is_jump(&self) -> (r: bool)
        ensures
            r == (*self is Branch || *self is CBranch),
    {
        matches!(*self, UStmt::Branch(_) | UStmt::CBranch(_, _))
    }

    /// Whether the statement is a conditional branch.
    pub fn is_cond(&self) -> (r: bool)
        ensures
            r == (*self is CBranch),
    {
        matches!(*self, UStmt::CBranch(_, _))
    }

    /// Whether the statement is a call.
    pub fn is_call(&self) -> (r: bool)
        ensures
            r == (*self is Call),
    {
        matches!(*self, UStmt::Call(_, _))
    }

    /// Whether the statement is an intrinsic.
    pub fn is_intrinsic(&self) -> (r: bool)
        ensures
            r == (*self is Intrinsic),
    {
        matches!(*self, UStmt::Intrinsic(_, _))
    }

    /// Whether the statement is a return.
    pub fn is_return(&self) -> (r: bool)
        ensures
            r == (*self is Return),
    {
        matches!(*self, UStmt::Return(_))
    }
}

/// One lifted instruction: its address, its byte length, and its
/// micro-op sequence.
pub struct UInstr {
    /// The instruction's address.
    pub address: u64,
    /// The instruction's length in bytes.
    pub length: usize,
    /// The micro-op statements, in order.
    pub operations: Vec<UStmt>,
}

/// A summary of a branch target, as carried by a classified edge.
#[derive(Clone, Copy, Debug, PartialEq, Eq, Structural)]
pub enum TargetSummary {
    /// A fixed micro-op location.
    Location(ULoc),
    /// A computed target with a known constant value.
    Value(u64),
    /// A computed target with no known value.
    Computed,
}

/// The classification of one control-flow edge of a micro-op statement.
#[derive(Clone, Copy, Debug, PartialEq, Eq, Structural)]
pub enum ECodeTarget {
    /// Flow within the same instruction's micro-ops.
    IntraIns(ULoc),
    /// Fall-through flow to the next instruction of the same block.
    IntraBlk(ULoc),
    /// Flow that leaves the block.
    InterBlk(TargetSummary),
    /// Flow into another subroutine.
    InterSub(TargetSummary),
    /// Flow out of the subroutine; the flag marks a return in final
    /// position.
    InterRet(TargetSummary, bool),
    /// An intrinsic in control position.
    Intrinsic,
    /// A computed target with no known value.
    Unresolved,
}

impl ECodeTarget {
    /// Whether an edge of this kind terminates a coarse-grained block:
    /// unresolved flow, flow that leaves the block, and a return in
    /// final position do.
    pub open spec fn ends_block_spec(&self) -> bool {
        match *self {
            ECodeTarget::Unresolved | ECodeTarget::InterBlk(_) => true,
            ECodeTarget::InterRet(_, last) => last,
            _ => false,
        }
    }

    /// Whether an edge of this kind terminates a coarse-grained block.
    pub fn ends_block(&self) -> (r: bool)
        ensures
            r == self.ends_block_spec(),
    {
        match *self {
            ECodeTarget::Unresolved => true,
            ECodeTarget::InterBlk(_) => true,
            ECodeTarget::InterRet(_, last) => last,
            _ => false,
        }
    }
}

/// The micro-op location that follows position `i`: within the
/// instruction when more statements follow, else at the start of the
/// next instruction.
pub open spec fn next_loc(address: u64, naddress: int, op_count: int, i: int) -> ULoc {
    if i >= op_count {
        ULoc { address: naddress as u64, position: (i - op_count) as usize }
    } else {
        ULoc { address, position: i as usize }
    }
}

/// The classification of an explicit branch target: a known location or
/// value at the instruction's own address is intra-instruction flow, at
/// the next instruction's address fall-through flow, anywhere else flow
/// that leaves the block; a computed target with no constant value is
/// unresolved.
pub open spec fn classify_target_spec(address: u64, naddress: int, tgt: &UTarget) -> ECodeTarget {
    match tgt {
        UTarget::Computed(e) => match e {
            UExpr::Val(bv) => if bv.v() > u64::MAX {
                ECodeTarget::Unresolved
            } else if bv.v() == address {
                ECodeTarget::IntraIns(ULoc { address, position: 0 })
            } else if bv.v() == naddress {
                ECodeTarget::IntraBlk(ULoc { address: naddress as u64, position: 0 })
            } else {
                ECodeTarget::InterBlk(TargetSummary::Value(bv.v() as u64))
            },
            _ => ECodeTarget::Unresolved,
        },
        UTarget::Location(loc) => if loc.address == address {
            ECodeTarget::IntraIns(*loc)
        } else if loc.address == naddress {
            ECodeTarget::IntraBlk(*loc)
        } else {
            ECodeTarget::InterBlk(TargetSummary::Location(*loc))
        },
    }
}

/// The fall-through edge from position `i`: intra-instruction when the
/// next location stays at this instruction's address, else
/// fall-through to the next instruction.
pub open spec fn fall_edge_spec(address: u64, naddress: int, op_count: int, i: int) -> ECodeTarget {
    let fall = next_loc(address, naddress, op_count, i);
    if fall.address == address {
        ECodeTarget::IntraIns(fall)
    } else {
        ECodeTarget::IntraBlk(fall)
    }
}

/// The classified edges of the statement at position `i`.
pub open spec fn stmt_edges_spec(
    address: u64,
    naddress: int,
    op_count: int,
    stmt: &UStmt,
    i: int,
) -> Seq<(usize, ECodeTarget)> {
    let fall = (i as usize, fall_edge_spec(address, naddress, op_count, i + 1));
    match stmt {
        UStmt::Branch(tgt) => seq![
            (i as usize, classify_target_spec(address, naddress, tgt)),
        ],
        UStmt::CBranch(_, tgt) => seq![
            (i as usize, classify_target_spec(address, naddress, tgt)),
            fall,
        ],
        UStmt::Call(tgt, _) => seq![
            (i as usize, ECodeTarget::InterSub(target_summary_spec(tgt))),
            fall,
        ],
        UStmt::Return(tgt) => seq![
            (i as usize, ECodeTarget::InterRet(target_summary_spec(tgt), i + 1 == op_count)),
        ],
        UStmt::Intrinsic(_, _) => seq![(i as usize, ECodeTarget::Intrinsic), fall],
        _ => if i + 1 == op_count {
            seq![fall]
        } else {
            Seq::empty()
        },
    }
}

/// The summary of a branch target.
pub open spec fn target_summary_spec(tgt: &UTarget) -> TargetSummary {
    match tgt {
        UTarget::Location(loc) => TargetSummary::Location(*loc),
        UTarget::Computed(e) => match e {
            UExpr::Val(bv) => if bv.v() <= u64::MAX {
                TargetSummary::Value(bv.v() as u64)
            } else {
                TargetSummary::Computed
            },
            _ => TargetSummary::Computed,
        },
    }
}

/// The classified edges of the first `k` statements, in order.
pub open spec fn edges_upto_spec(
    address: u64,
    naddress: int,
    ops: Seq<UStmt>,
    k: int,
) -> Seq<(usize, ECodeTarget)>
    decreases k,
{
    if k <= 0 {
        Seq::empty()
    } else {
        edges_upto_spec(address, naddress, ops, k - 1) + stmt_edges_spec(
            address,
            naddress,
            ops.len() as int,
            &ops[k - 1],
            k - 1,
        )
    }
}

impl UInstr {
    /// The first address past the instruction.
    pub open spec fn next_address(&self) -> int {
        self.address + self.length
    }

    /// The classified edges of every statement, in statement order.
    pub open spec fn edges_spec(&self) -> Seq<(usize, ECodeTarget)> {
        edges_upto_spec(
            self.address,
            self.next_address(),
            self.operations@,
            self.operations@.len() as int,
        )
    }
}

/// Classify one explicit branch target.
fn classify_target(address: u64, naddress: u64, tgt: &UTarget) -> (r: ECodeTarget)
    ensures
        r == classify_target_spec(address, naddress as int, tgt),
{
    match tgt {
        UTarget::Computed(e) => match e {
            UExpr::Val(bv) => {
                let v = bv.value_u128();
                if v > u64::MAX as u128 {
                    ECodeTarget::Unresolved
                } else if v as u64 == address {
                    ECodeTarget::IntraIns(ULoc { address, position: 0 })
                } else if v as u64 == naddress {
                    ECodeTarget::IntraBlk(ULoc { address: naddress, position: 0 })
                } else {
                    ECodeTarget::InterBlk(TargetSummary::Value(v as u64))
                }
            },
            _ => ECodeTarget::Unresolved,
        },
        UTarget::Location(loc) => {
            if loc.address == address {
                ECodeTarget::IntraIns(*loc)
            } else if loc.address == naddress {
                ECodeTarget::IntraBlk(*loc)
            } else {
                ECodeTarget::InterBlk(TargetSummary::Location(*loc))
            }
        },
    }
}

/// Summarise one branch target.
fn target_summary(tgt: &UTarget) -> (r: TargetSummary)
    ensures
        r == target_summary_spec(tgt),
{
    match tgt {
        UTarget::Location(loc) => TargetSummary::Location(*loc),
        UTarget::Computed(e) => match e {
            UExpr::Val(bv) => {
                let v = bv.value_u128();
                if v <= u64::MAX as u128 {
                    TargetSummary::Value(v as u64)
                } else {
                    TargetSummary::Computed
                }
            },
            _ => TargetSummary::Computed,
        },
    }
}

impl UInstr {
    /// Classify the control-flow exits of every micro-op statement, in
    /// statement order: explicit branches classify their target;
    /// conditional branches, calls and intrinsics add a fall-through
    /// edge; a return yields a subroutine exit marked when it stands
    /// last; any other statement in final position yields the
    /// fall-through edge.
    pub fn branch_targets(&self) -> (r: Vec<(usize, ECodeTarget)>)
        requires
            self.address + self.length <= u64::MAX,
        ensures
            r@ == self.edges_spec(),
    {
        let n = self.operations.len();
        let address = self.address;
        let naddress = self.address + self.length as u64;
        let mut out: Vec<(usize, ECodeTarget)> = Vec::new();
        let mut i: usize = 0;
        proof {
            assert(out@ =~= edges_upto_spec(address, naddress as int, self.operations@, 0));
        }
        while i < n
            invariant
                i <= n == self.operations@.len(),
                address == self.address,
                naddress == self.address + self.length,
                naddress <= u64::MAX,
                out@ =~= edges_upto_spec(address, naddress as int, self.operations@, i as int),
            decreases n - i,
        {
            let ghost out0 = out@;
            let stmt = &self.operations[i];
            let fall_pos = i + 1;
            match stmt {
                UStmt::Branch(tgt) => {
                    out.push((i, classify_target(address, naddress, tgt)));
                },
                UStmt::CBranch(_, tgt) => {
                    out.push((i, classify_target(address, naddress, tgt)));
                    out.push((i, self.fall_edge(fall_pos)));
                },
                UStmt::Call(tgt, _) => {
                    out.push((i, ECodeTarget::InterSub(target_summary(tgt))));
                    out.push((i, self.fall_edge(fall_pos)));
                },
                UStmt::Return(tgt) => {
                    out.push((i, ECodeTarget::InterRet(target_summary(tgt), fall_pos == n)));
                },
                UStmt::Intrinsic(_, _) => {
                    out.push((i, ECodeTarget::Intrinsic));
                    out.push((i, self.fall_edge(fall_pos)));
                },
                _ => {
                    if fall_pos == n {
                        out.push((i, self.fall_edge(fall_pos)));
                    }
                },
            }
            proof {
                assert(out@ =~= out0 + stmt_edges_spec(
                    address,
                    naddress as int,
                    n as int,
                    &self.operations@[i as int],
                    i as int,
                ));
            }
            i = i + 1;
        }
        out
    }

    /// The fall-through edge from position `i`.
    fn fall_edge(&self, i: usize) -> (r: ECodeTarget)
        requires
            self.address + self.length <= u64::MAX,
            i <= usize::MAX,
        ensures
            r == fall_edge_spec(
                self.address,
                self.address + self.length,
                self.operations@.len() as int,
                i as int,
            ),
    {
        let n = self.operations.len();
        let fall = if i >= n {
            ULoc { address: self.address + self.length as u64, position: i - n }
        } else {
            ULoc { address: self.address, position: i }
        };
        if fall.address == self.address {
            ECodeTarget::IntraIns(fall)
        } else {
            ECodeTarget::IntraBlk(fall)
        }
    }
}

/// Classifier totality: every statement that affects control flow, and
/// the final statement whatever it is, yields at least one classified
/// edge at its own position; and every edge's kind is one of the seven
/// classifications. A statement that neither affects control flow nor
/// stands last yields no edge.
pub proof fn lemma_classifier_totality(instr: &UInstr)
    requires
        instr.operations@.len() <= usize::MAX,
    ensures
        forall|i: int|
            0 <= i < instr.operations@.len() && ((#[trigger] instr.operations@[i]).is_branch_spec()
                || i + 1 == instr.operations@.len()) ==> exists|k: int|
                0 <= k < instr.edges_spec().len() && (#[trigger] instr.edges_spec()[k]).0 == i,
{
    let ops = instr.operations@;
    let n = ops.len() as int;
    assert forall|i: int|
        0 <= i < n && ((#[trigger] ops[i]).is_branch_spec() || i + 1 == n) implies exists|k: int|
        0 <= k < instr.edges_spec().len() && (#[trigger] instr.edges_spec()[k]).0 == i by {
        lemma_edges_prefix(instr.address, instr.next_address(), ops, i + 1, n);
        let prefix = edges_upto_spec(instr.address, instr.next_address(), ops, i + 1);
        let shorter = edges_upto_spec(instr.address, instr.next_address(), ops, i);
        assert(stmt_edges_spec(instr.address, instr.next_address(), n, &ops[i], i).len() > 0);
        let se = stmt_edges_spec(instr.address, instr.next_address(), n, &ops[i], i);
        let k = shorter.len() as int;
        assert(prefix =~= shorter + se);
        assert(prefix[k] == se[0]);
        assert(se[0].0 == i as usize);
        assert(instr.edges_spec()[k].0 == i);
    }
}

/// A shorter classification prefix is a prefix of a longer one.
proof fn lemma_edges_prefix(address: u64, naddress: int, ops: Seq<UStmt>, k1: int, k2: int)
    requires
        0 <= k1 <= k2,
    ensures
        edges_upto_spec(address, naddress, ops, k1).len() <= edges_upto_spec(
            address,
            naddress,
            ops,
            k2,
        ).len(),
        forall|j: int|
            0 <= j < edges_upto_spec(address, naddress, ops, k1).len()
                ==> #[trigger] edges_upto_spec(address, naddress, ops, k2)[j] == edges_upto_spec(
                address,
                naddress,
                ops,
                k1,
            )[j],
    decreases k2 - k1,
{
    if k1 < k2 {
        lemma_edges_prefix(address, naddress, ops, k1, k2 - 1);
    }
}

} // verus!
