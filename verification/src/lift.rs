//! The lifting pipeline's verified half.
//!
//! The disassembly backend itself converts bytes at an address into one
//! micro-op instruction at a time; everything around that call is here.
//! A `LiftSession` drives one block lift: it clamps the byte budget,
//! says where to decode next, normalises each decoded instruction with
//! the register-alias pass, classifies its control-flow exits, records
//! it, and stops on the first exit that terminates the block. The
//! recorded instructions then become basic blocks: intra-instruction
//! flow splits the block under construction and block-terminating flow
//! closes it.

use vstd::prelude::*;

use crate::address::{Addr, AddrConvertError};
use crate::aliases::{inserted_for, rewrite_stmt_spec, uvars_of_stmts, AliasPass, VarIndex};
use crate::block::Blk;
use crate::ecode::{ECodeTarget, UArgs, UCast, UExpr, UInstr, UStmt, UTarget, UVar};
use crate::effect::{Def, Jmp};
use crate::entity::Entity;
use crate::expr::{ArgList, CastKind, Expr};
use crate::id::{Erased, Id, Identifiable};
use crate::location::Loc;
use crate::types::{unsigned_sort_literal, type_uuid_spec, BitVecT, Type};
use crate::var::{Var, VarKind};

verus! {

/// Errors of a block lift.
#[derive(Clone, Copy, Debug, PartialEq, Eq, Structural)]
pub enum LifterError {
    /// The address does not fit the backend's address width.
    AddrSize(AddrConvertError),
    /// The backend failed to decode an instruction.
    Disassembly,
}

/// The verified heart of the lifter: the register index that drives
/// alias normalisation, the register names, and the calling convention's
/// name. The backend that decodes bytes is outside; it hands decoded
/// instructions to a `LiftSession`.
pub struct Lifter {
    reg_space: u64,
    reg_table: Vec<(u64, u32)>,
    reg_names: Vec<(u64, u32, String)>,
    convention: String,
}

/// Whether a register table is sane: non-empty sizes, in-range ends,
/// and word-narrow widths.
pub open spec fn reg_table_ok(table: Seq<(u64, u32)>) -> bool {
    forall|j: int|
        0 <= j < table.len() ==> {
            let e = #[trigger] table[j];
            0 < e.1 && e.0 + e.1 <= u64::MAX && 8 * (e.1 as int) <= u32::MAX
        }
}

impl Lifter {
    /// The register space.
    pub closed spec fn reg_space_spec(&self) -> u64 {
        self.reg_space
    }

    /// The register table: byte offset and byte size per register.
    pub closed spec fn reg_table_spec(&self) -> Seq<(u64, u32)> {
        self.reg_table@
    }

    /// The calling convention's name.
    pub closed spec fn convention_spec(&self) -> Seq<char> {
        self.convention@
    }

    /// The register names: byte offset, byte size and name per register.
    pub closed spec fn reg_names_spec(&self) -> Seq<(u64, u32, String)> {
        self.reg_names@
    }

    /// A lifter's validity.
    pub open spec fn valid(&self) -> bool {
        reg_table_ok(self.reg_table_spec())
    }

    /// Build a lifter from a register table: the register space, each
    /// register's byte offset and byte size, each register's name, and
    /// the calling convention's name.
    pub fn new(
        reg_space: u64,
        reg_table: Vec<(u64, u32)>,
        reg_names: Vec<(u64, u32, String)>,
        convention: String,
    ) -> (r: Lifter)
        requires
            reg_table_ok(reg_table@),
        ensures
            r.valid(),
            r.reg_space_spec() == reg_space,
            r.reg_table_spec() == reg_table@,
            r.convention_spec() == convention@,
    {
        Lifter { reg_space, reg_table, reg_names, convention }
    }

    /// The calling convention's name.
    pub fn convention(&self) -> (r: &String)
        ensures
            r@ == self.convention_spec(),
    {
        &self.convention
    }

    /// A fresh alias pass over this lifter's register index.
    pub fn alias_pass(&self) -> (r: AliasPass)
        requires
            self.valid(),
        ensures
            r.valid(),
            r.reg_space() == self.reg_space_spec(),
            r.reg_ivs() =~= reg_index_spec(self.reg_table_spec()),
            forall|sp: u64| #[trigger] r.space_ivs(sp) =~= Seq::<(u64, u64)>::empty(),
    {
        let idx = VarIndex::registers(self.reg_space, &self.reg_table);
        let r = AliasPass::new(idx);
        proof {
            assert(r.reg_ivs() =~= reg_index_spec(self.reg_table_spec()));
        }
        r
    }

    /// The name of the register at the given byte offset and size, when
    /// the table names it.
    pub fn register_name(&self, offset: u64, size: u32) -> (r: Option<&String>)
        ensures
            r is Some <==> exists|j: int|
                0 <= j < self.reg_names_spec().len() && (#[trigger] self.reg_names_spec()[j]).0
                    == offset && self.reg_names_spec()[j].1 == size,
            r matches Some(n) ==> exists|j: int|
                {
                    &&& 0 <= j < self.reg_names_spec().len()
                    &&& (#[trigger] self.reg_names_spec()[j]).0 == offset
                    &&& self.reg_names_spec()[j].1 == size
                    &&& n@ == self.reg_names_spec()[j].2@
                    &&& forall|k: int|
                        0 <= k < j ==> !((#[trigger] self.reg_names_spec()[k]).0 == offset
                            && self.reg_names_spec()[k].1 == size)
                },
    {
        let n = self.reg_names.len();
        let mut i: usize = 0;
        while i < n
            invariant
                i <= n == self.reg_names_spec().len(),
                forall|k: int|
                    0 <= k < i ==> !((#[trigger] self.reg_names_spec()[k]).0 == offset
                        && self.reg_names_spec()[k].1 == size),
            decreases n - i,
        {
            let e = &self.reg_names[i];
            if e.0 == offset && e.1 == size {
                return Some(&e.2);
            }
            i = i + 1;
        }
        None
    }
}


/// The interval list of a register table: one interval per register.
pub open spec fn reg_index_spec(table: Seq<(u64, u32)>) -> Seq<(u64, u64)> {
    Seq::new(table.len(), |i: int| (table[i].0, (table[i].0 + table[i].1) as u64))
}

/// Whether `out` is `ops` normalised by the pass state `p`: `p` grew
/// out of a fresh pass over the lifter's register index by recording
/// exactly the occurrences of `ops`, and every statement of `out` is
/// the rewrite of its counterpart under `p`.
pub open spec fn normalised_by(
    lifter: &Lifter,
    ops: Seq<UStmt>,
    out: Seq<UStmt>,
    p: AliasPass,
) -> bool {
    &&& p.valid()
    &&& p.reg_space() == lifter.reg_space_spec()
    &&& p.reg_ivs() =~= reg_index_spec(lifter.reg_table_spec())
    &&& forall|sp: u64|
        #[trigger] p.space_ivs(sp) =~= inserted_for(sp, p.reg_space(), uvars_of_stmts(ops))
    &&& out.len() == ops.len()
    &&& forall|i: int| 0 <= i < ops.len() ==> #[trigger] out[i] == rewrite_stmt_spec(&p, ops[i])
}


/// Whether a micro-op statement is a data effect.
pub open spec fn is_data_stmt(s: UStmt) -> bool {
    s is Assign || s is Store
}

/// Whether a micro-op statement is a control effect.
pub open spec fn is_ctrl_stmt(s: UStmt) -> bool {
    s is Branch || s is CBranch || s is Call || s is Return || s is Intrinsic
}

/// The data effects of a statement sequence, in order.
pub open spec fn data_of(ops: Seq<UStmt>) -> Seq<UStmt>
    decreases ops.len(),
{
    if ops.len() == 0 {
        Seq::empty()
    } else if is_data_stmt(ops[0]) {
        seq![ops[0]] + data_of(ops.skip(1))
    } else {
        data_of(ops.skip(1))
    }
}

/// The control effects of a statement sequence, in order.
pub open spec fn ctrl_of(ops: Seq<UStmt>) -> Seq<UStmt>
    decreases ops.len(),
{
    if ops.len() == 0 {
        Seq::empty()
    } else if is_ctrl_stmt(ops[0]) {
        seq![ops[0]] + ctrl_of(ops.skip(1))
    } else {
        ctrl_of(ops.skip(1))
    }
}

/// The data effects of every recorded instruction, in order.
pub open spec fn all_data(instrs: Seq<LiftedInstr>) -> Seq<UStmt>
    decreases instrs.len(),
{
    if instrs.len() == 0 {
        Seq::empty()
    } else {
        data_of(instrs[0].instr.operations@) + all_data(instrs.skip(1))
    }
}

/// The control effects of every recorded instruction, in order.
pub open spec fn all_ctrl(instrs: Seq<LiftedInstr>) -> Seq<UStmt>
    decreases instrs.len(),
{
    if instrs.len() == 0 {
        Seq::empty()
    } else {
        ctrl_of(instrs[0].instr.operations@) + all_ctrl(instrs.skip(1))
    }
}

/// Whether the classified edges hold an intra-instruction edge for the
/// statement at position `j`.
pub open spec fn intra_at(targets: Seq<(usize, ECodeTarget)>, j: int) -> bool {
    exists|k: int|
        0 <= k < targets.len() && (#[trigger] targets[k]).0 == j && targets[k].1 is IntraIns
}

/// How many of the first `n` statement positions carry an
/// intra-instruction edge: each one splits the block under
/// construction.
pub open spec fn splits_upto(targets: Seq<(usize, ECodeTarget)>, n: int) -> int
    decreases n,
{
    if n <= 0 {
        0
    } else {
        splits_upto(targets, n - 1) + if intra_at(targets, n - 1) {
            1int
        } else {
            0int
        }
    }
}

/// How many splits one recorded instruction induces.
pub open spec fn splits_of(rec: LiftedInstr) -> int {
    splits_upto(rec.targets@, rec.instr.operations@.len() as int)
}

/// How many splits all recorded instructions induce.
pub open spec fn all_splits(instrs: Seq<LiftedInstr>) -> int
    decreases instrs.len(),
{
    if instrs.len() == 0 {
        0
    } else {
        splits_of(instrs[0]) + all_splits(instrs.skip(1))
    }
}

/// The data effects of a block list, in block order.
pub open spec fn flat_defs(blks: Seq<Entity<Blk>>) -> Seq<Entity<Def>>
    decreases blks.len(),
{
    if blks.len() == 0 {
        Seq::empty()
    } else {
        blks[0].value_spec().defs_spec() + flat_defs(blks.skip(1))
    }
}

/// The control effects of a block list, in block order.
pub open spec fn flat_jmps(blks: Seq<Entity<Blk>>) -> Seq<Entity<Jmp>>
    decreases blks.len(),
{
    if blks.len() == 0 {
        Seq::empty()
    } else {
        blks[0].value_spec().jmps_spec() + flat_jmps(blks.skip(1))
    }
}

/// Whether `out` converts `src` one data effect at a time, in order.
pub open spec fn defs_match(lifter: &Lifter, src: Seq<UStmt>, out: Seq<Entity<Def>>) -> bool {
    &&& out.len() == src.len()
    &&& forall|i: int|
        0 <= i < src.len() ==> def_item_ok(lifter, src[i], (#[trigger] out[i]).value_spec())
}

/// Pointwise matching concatenates.
proof fn lemma_defs_match_concat(
    lifter: &Lifter,
    s1: Seq<UStmt>,
    o1: Seq<Entity<Def>>,
    s2: Seq<UStmt>,
    o2: Seq<Entity<Def>>,
)
    requires
        defs_match(lifter, s1, o1),
        defs_match(lifter, s2, o2),
    ensures
        defs_match(lifter, s1 + s2, o1 + o2),
{
    assert forall|i: int| 0 <= i < (s1 + s2).len() implies def_item_ok(
        lifter,
        (s1 + s2)[i],
        (#[trigger] (o1 + o2)[i]).value_spec(),
    ) by {
        if i < s1.len() {
            assert((s1 + s2)[i] == s1[i] && (o1 + o2)[i] == o1[i]);
        } else {
            assert((s1 + s2)[i] == s2[i - s1.len()] && (o1 + o2)[i] == o2[i - s1.len()]);
        }
    }
}

/// One more statement extends the filtered prefix by at most itself.
proof fn lemma_data_of_snoc(ops: Seq<UStmt>, j: int)
    requires
        0 <= j < ops.len(),
    ensures
        data_of(ops.take(j + 1)) =~= data_of(ops.take(j)) + if is_data_stmt(ops[j]) {
            seq![ops[j]]
        } else {
            Seq::<UStmt>::empty()
        },
    decreases j,
{
    if j == 0 {
        assert(ops.take(1)[0] == ops[0]);
        assert(ops.take(1).skip(1) =~= Seq::<UStmt>::empty());
        assert(ops.take(0) =~= Seq::<UStmt>::empty());
    } else {
        assert(ops.take(j + 1)[0] == ops[0]);
        assert(ops.take(j)[0] == ops[0]);
        assert(ops.take(j + 1).skip(1) =~= ops.skip(1).take(j));
        assert(ops.take(j).skip(1) =~= ops.skip(1).take(j - 1));
        assert(ops.skip(1)[j - 1] == ops[j]);
        lemma_data_of_snoc(ops.skip(1), j - 1);
    }
}

/// The control counterpart of the previous lemma.
proof fn lemma_ctrl_of_snoc(ops: Seq<UStmt>, j: int)
    requires
        0 <= j < ops.len(),
    ensures
        ctrl_of(ops.take(j + 1)) =~= ctrl_of(ops.take(j)) + if is_ctrl_stmt(ops[j]) {
            seq![ops[j]]
        } else {
            Seq::<UStmt>::empty()
        },
    decreases j,
{
    if j == 0 {
        assert(ops.take(1)[0] == ops[0]);
        assert(ops.take(1).skip(1) =~= Seq::<UStmt>::empty());
        assert(ops.take(0) =~= Seq::<UStmt>::empty());
    } else {
        assert(ops.take(j + 1)[0] == ops[0]);
        assert(ops.take(j)[0] == ops[0]);
        assert(ops.take(j + 1).skip(1) =~= ops.skip(1).take(j));
        assert(ops.take(j).skip(1) =~= ops.skip(1).take(j - 1));
        assert(ops.skip(1)[j - 1] == ops[j]);
        lemma_ctrl_of_snoc(ops.skip(1), j - 1);
    }
}

/// One more instruction appends its filtered statements and splits.
proof fn lemma_all_snoc(instrs: Seq<LiftedInstr>, i: int)
    requires
        0 <= i < instrs.len(),
    ensures
        all_data(instrs.take(i + 1)) =~= all_data(instrs.take(i)) + data_of(
            instrs[i].instr.operations@,
        ),
        all_ctrl(instrs.take(i + 1)) =~= all_ctrl(instrs.take(i)) + ctrl_of(
            instrs[i].instr.operations@,
        ),
        all_splits(instrs.take(i + 1)) == all_splits(instrs.take(i)) + splits_of(instrs[i]),
    decreases i,
{
    if i == 0 {
        assert(instrs.take(1)[0] == instrs[0]);
        assert(instrs.take(1).skip(1) =~= Seq::<LiftedInstr>::empty());
        assert(instrs.take(0) =~= Seq::<LiftedInstr>::empty());
        assert(all_data(instrs.take(1)) =~= data_of(instrs[0].instr.operations@)
            + Seq::<UStmt>::empty());
        assert(all_ctrl(instrs.take(1)) =~= ctrl_of(instrs[0].instr.operations@)
            + Seq::<UStmt>::empty());
    } else {
        assert(instrs.take(i + 1)[0] == instrs[0]);
        assert(instrs.take(i)[0] == instrs[0]);
        assert(instrs.take(i + 1).skip(1) =~= instrs.skip(1).take(i));
        assert(instrs.take(i).skip(1) =~= instrs.skip(1).take(i - 1));
        assert(instrs.skip(1)[i - 1] == instrs[i]);
        lemma_all_snoc(instrs.skip(1), i - 1);
    }
}

/// Flattening distributes over appending one block.
proof fn lemma_flat_push(blks: Seq<Entity<Blk>>, b: Entity<Blk>)
    ensures
        flat_defs(blks.push(b)) =~= flat_defs(blks) + b.value_spec().defs_spec(),
        flat_jmps(blks.push(b)) =~= flat_jmps(blks) + b.value_spec().jmps_spec(),
    decreases blks.len(),
{
    if blks.len() == 0 {
        assert(blks.push(b)[0] == b);
        assert(blks.push(b).skip(1) =~= Seq::<Entity<Blk>>::empty());
        assert(flat_defs(Seq::<Entity<Blk>>::empty()) =~= Seq::<Entity<Def>>::empty());
        assert(flat_jmps(Seq::<Entity<Blk>>::empty()) =~= Seq::<Entity<Jmp>>::empty());
        assert(flat_defs(blks) =~= Seq::<Entity<Def>>::empty());
        assert(flat_jmps(blks) =~= Seq::<Entity<Jmp>>::empty());
    } else {
        assert(blks.push(b)[0] == blks[0]);
        assert(blks.push(b).skip(1) =~= blks.skip(1).push(b));
        lemma_flat_push(blks.skip(1), b);
    }
}

/// A control statement of a recorded instruction stands somewhere in
/// the combined control sequence.
proof fn lemma_ctrl_member(ops: Seq<UStmt>, j: int)
    requires
        0 <= j < ops.len(),
        is_ctrl_stmt(ops[j]),
    ensures
        exists|m: int| 0 <= m < ctrl_of(ops).len() && #[trigger] ctrl_of(ops)[m] == ops[j],
    decreases ops.len(),
{
    if j == 0 {
        assert(ctrl_of(ops)[0] == ops[0]);
    } else {
        assert(ops.skip(1)[j - 1] == ops[j]);
        lemma_ctrl_member(ops.skip(1), j - 1);
        let m = choose|m: int|
            0 <= m < ctrl_of(ops.skip(1)).len() && ctrl_of(ops.skip(1))[m] == ops[j];
        if is_ctrl_stmt(ops[0]) {
            assert(ctrl_of(ops)[m + 1] == ops[j]);
        } else {
            assert(ctrl_of(ops)[m] == ops[j]);
        }
    }
}

/// The combined control sequence of a prefix embeds in the whole.
proof fn lemma_all_ctrl_prefix(instrs: Seq<LiftedInstr>, i: int)
    requires
        0 <= i <= instrs.len(),
    ensures
        all_ctrl(instrs.take(i)).len() <= all_ctrl(instrs).len(),
        forall|m: int|
            0 <= m < all_ctrl(instrs.take(i)).len() ==> #[trigger] all_ctrl(instrs)[m]
                == all_ctrl(instrs.take(i))[m],
    decreases instrs.len(),
{
    if i == 0 {
        assert(instrs.take(0) =~= Seq::<LiftedInstr>::empty());
    } else if instrs.len() > 0 {
        assert(instrs.take(i)[0] == instrs[0]);
        assert(instrs.take(i).skip(1) =~= instrs.skip(1).take(i - 1));
        lemma_all_ctrl_prefix(instrs.skip(1), i - 1);
    }
}



/// Whether a recorded instruction terminates the block: some edge of
/// its classification ends it.
pub open spec fn ends_instr(rec: LiftedInstr) -> bool {
    exists|k: int| 0 <= k < rec.targets@.len() && (#[trigger] rec.targets@[k]).1.ends_block_spec()
}

/// How many recorded instructions terminate their block.
pub open spec fn count_ends(instrs: Seq<LiftedInstr>) -> int
    decreases instrs.len(),
{
    if instrs.len() == 0 {
        0
    } else {
        (if ends_instr(instrs[0]) {
            1int
        } else {
            0int
        }) + count_ends(instrs.skip(1))
    }
}

/// One more instruction adds its terminating count.
proof fn lemma_count_ends_snoc(instrs: Seq<LiftedInstr>, i: int)
    requires
        0 <= i < instrs.len(),
    ensures
        count_ends(instrs.take(i + 1)) == count_ends(instrs.take(i)) + if ends_instr(instrs[i]) {
            1int
        } else {
            0int
        },
    decreases i,
{
    if i == 0 {
        assert(instrs.take(1)[0] == instrs[0]);
        assert(instrs.take(1).skip(1) =~= Seq::<LiftedInstr>::empty());
        assert(instrs.take(0) =~= Seq::<LiftedInstr>::empty());
    } else {
        assert(instrs.take(i + 1)[0] == instrs[0]);
        assert(instrs.take(i)[0] == instrs[0]);
        assert(instrs.take(i + 1).skip(1) =~= instrs.skip(1).take(i));
        assert(instrs.take(i).skip(1) =~= instrs.skip(1).take(i - 1));
        assert(instrs.skip(1)[i - 1] == instrs[i]);
        lemma_count_ends_snoc(instrs.skip(1), i - 1);
    }
}

/// The data effects of an optional block under construction.
pub open spec fn opt_defs(c: Option<Entity<Blk>>) -> Seq<Entity<Def>> {
    match c {
        Some(b) => b.value_spec().defs_spec(),
        None => Seq::empty(),
    }
}

/// The control effects of an optional block under construction.
pub open spec fn opt_jmps(c: Option<Entity<Blk>>) -> Seq<Entity<Jmp>> {
    match c {
        Some(b) => b.value_spec().jmps_spec(),
        None => Seq::empty(),
    }
}

/// Whether a control effect is the unconditional branch to a block.
pub open spec fn link_to(j: Jmp, id: Id<Blk>) -> bool {
    j == Jmp::Branch(Loc::Resolved(id.transmute_spec::<Erased>()))
}

/// Whether a control effect converts some recorded control statement.
pub open spec fn jmp_from_ctrl(lifter: &Lifter, instrs: Seq<LiftedInstr>, j: Jmp) -> bool {
    exists|m: int|
        0 <= m < all_ctrl(instrs).len() && jmp_item_ok(lifter, #[trigger] all_ctrl(instrs)[m], j)
}

/// Whether a block is anchored at the first recorded instruction's
/// address.
pub open spec fn anchored_first(b: Entity<Blk>, instrs: Seq<LiftedInstr>) -> bool {
    match b.value_spec().addr_spec() {
        Some(a) => a.value() == instrs[0].instr.address && a.width() == 64,
        None => false,
    }
}

/// One matching data effect.
proof fn lemma_defs_match_one(lifter: &Lifter, s: UStmt, d: Entity<Def>)
    requires
        def_item_ok(lifter, s, d.value_spec()),
    ensures
        defs_match(lifter, seq![s], seq![d]),
{
    assert forall|i: int| 0 <= i < seq![s].len() implies def_item_ok(
        lifter,
        seq![s][i],
        (#[trigger] seq![d][i]).value_spec(),
    ) by {
        assert(seq![s][0] == s && seq![d][0] == d);
    }
}

/// One recorded instruction of a session: its normalised micro-ops and
/// its classified control-flow edges.
pub struct LiftedInstr {
    /// The normalised instruction.
    pub instr: UInstr,
    /// Its classified edges, in statement order.
    pub targets: Vec<(usize, ECodeTarget)>,
}

/// One in-progress block lift: where it started, how many bytes it may
/// read, how far it has come, what it has recorded, and whether a
/// block-terminating exit has been seen.
pub struct LiftSession {
    addr: Addr,
    limit: usize,
    offset: usize,
    stopped: bool,
    instrs: Vec<LiftedInstr>,
}

impl LiftSession {
    /// The block's start address.
    pub closed spec fn addr_spec(&self) -> Addr {
        self.addr
    }

    /// The byte budget.
    pub closed spec fn limit_spec(&self) -> int {
        self.limit as int
    }

    /// Bytes consumed so far.
    pub closed spec fn offset_spec(&self) -> int {
        self.offset as int
    }

    /// Whether the session has seen a block-terminating exit or a
    /// failure.
    pub closed spec fn stopped_spec(&self) -> bool {
        self.stopped
    }

    /// The recorded instructions, in decode order.
    pub closed spec fn instrs_spec(&self) -> Seq<LiftedInstr> {
        self.instrs@
    }

    /// Start a session at an address over `available` bytes, clamped by
    /// an optional size hint.
    pub fn new(addr: Addr, available: usize, size_hint: Option<usize>) -> (r: LiftSession)
        ensures
            r.addr_spec() == addr,
            r.limit_spec() == (match size_hint {
                Some(h) => if h < available {
                    h as int
                } else {
                    available as int
                },
                None => available as int,
            }),
            r.offset_spec() == 0,
            !r.stopped_spec(),
            r.instrs_spec() =~= Seq::<LiftedInstr>::empty(),
    {
        let limit = match size_hint {
            Some(h) => if h < available {
                h
            } else {
                available
            },
            None => available,
        };
        LiftSession { addr, limit, offset: 0, stopped: false, instrs: Vec::new() }
    }

    /// Where to decode next: the current offset, or nothing when the
    /// session is finished. The decode address is the block address
    /// plus the offset; an address beyond the backend's width fails.
    pub fn next_request(&self) -> (r: Result<Option<(u64, usize)>, LifterError>)
        ensures
            (self.stopped_spec() || self.offset_spec() >= self.limit_spec()) <==> (r matches Ok(o)
                && o is None),
            r matches Ok(Some(p)) ==> {
                &&& p.1 == self.offset_spec()
                &&& !self.stopped_spec()
                &&& self.offset_spec() < self.limit_spec()
                &&& p.0 == (self.addr_spec().value() + self.offset_spec()) % vstd::arithmetic::power2::pow2(
                    self.addr_spec().width() as nat,
                ) as int
            },
            r is Err ==> (self.addr_spec().value() + self.offset_spec()) % vstd::arithmetic::power2::pow2(
                self.addr_spec().width() as nat,
            ) as int > u64::MAX,
            r matches Err(e) ==> e is AddrSize,
    {
        if self.stopped || self.offset >= self.limit {
            return Ok(None);
        }
        let a = self.addr.add_usize(self.offset);
        match a.to_u64() {
            Ok(v) => Ok(Some((v, self.offset))),
            Err(e) => Err(LifterError::AddrSize(e)),
        }
    }

    /// Record one decoded instruction: normalise its micro-ops with the
    /// lifter's alias pass, classify its exits, append it, advance by
    /// its length, and stop when any exit terminates the block.
    pub fn feed(&mut self, lifter: &Lifter, instr: UInstr) -> (r: bool)
        requires
            lifter.valid(),
            !old(self).stopped_spec(),
            instr.length >= 1,
            instr.address + instr.length <= u64::MAX,
            old(self).offset_spec() + instr.length <= usize::MAX,
        ensures
            final(self).addr_spec() == old(self).addr_spec(),
            final(self).limit_spec() == old(self).limit_spec(),
            final(self).offset_spec() == old(self).offset_spec() + instr.length,
            final(self).instrs_spec().len() == old(self).instrs_spec().len() + 1,
            final(self).instrs_spec().take(old(self).instrs_spec().len() as int) == old(
                self,
            ).instrs_spec(),
            ({
                let rec = final(self).instrs_spec().last();
                &&& rec.instr.address == instr.address
                &&& rec.instr.length == instr.length
                &&& rec.targets@ == rec.instr.edges_spec()
                &&& rec.instr.operations@.len() == instr.operations@.len()
                &&& exists|p: AliasPass|
                    #[trigger] normalised_by(lifter, instr.operations@, rec.instr.operations@, p)
                &&& final(self).stopped_spec() == exists|k: int|
                    0 <= k < rec.targets@.len() && (#[trigger] rec.targets@[k]).1.ends_block_spec()
            }),
            r == final(self).stopped_spec(),
    {
        let mut pass = lifter.alias_pass();
        let UInstr { address, length, operations } = instr;
        let ghost p0 = pass;
        let ghost ops0 = operations@;
        let ops2 = pass.apply(operations);
        proof {
            assert forall|sp: u64| #[trigger] pass.space_ivs(sp) =~= inserted_for(
                sp,
                pass.reg_space(),
                uvars_of_stmts(ops0),
            ) by {
                assert(pass.space_ivs(sp) =~= p0.space_ivs(sp) + inserted_for(
                    sp,
                    p0.reg_space(),
                    uvars_of_stmts(ops0),
                ));
                assert(p0.space_ivs(sp) =~= Seq::<(u64, u64)>::empty());
            }
            assert(normalised_by(lifter, ops0, ops2@, pass));
        }
        let norm = UInstr { address, length, operations: ops2 };
        let targets = norm.branch_targets();
        let n = targets.len();
        let mut stop = false;
        let mut k: usize = 0;
        while k < n
            invariant
                k <= n == targets@.len(),
                stop == exists|j: int|
                    0 <= j < k && (#[trigger] targets@[j]).1.ends_block_spec(),
            decreases n - k,
        {
            if targets[k].1.ends_block() {
                proof {
                    assert(targets@[k as int].1.ends_block_spec());
                }
                stop = true;
            }
            k = k + 1;
        }
        let ghost pre = self.instrs@;
        self.instrs.push(LiftedInstr { instr: norm, targets });
        self.offset = self.offset + length;
        if stop {
            self.stopped = true;
        }
        proof {
            assert(self.instrs@.take(pre.len() as int) =~= pre);
        }
        stop
    }

    /// Record a backend decode failure: the session stops and keeps
    /// what it has.
    pub fn fail(&mut self)
        ensures
            final(self).addr_spec() == old(self).addr_spec(),
            final(self).limit_spec() == old(self).limit_spec(),
            final(self).offset_spec() == old(self).offset_spec(),
            final(self).instrs_spec() == old(self).instrs_spec(),
            final(self).stopped_spec(),
    {
        self.stopped = true;
    }

    /// The recorded instructions.
    pub fn instrs(&self) -> (r: &Vec<LiftedInstr>)
        ensures
            r@ == self.instrs_spec(),
    {
        &self.instrs
    }

    /// Turn the recorded instructions into basic blocks, in the order
    /// of their first statement: each instruction's data effects extend
    /// the block under construction; its control effects join it; an
    /// intra-instruction edge splits the block; and each block starts
    /// anchored at its instruction's address.
    pub fn finish(self, lifter: &Lifter) -> (r: Vec<Entity<Blk>>)
        ensures
            self.instrs_spec().len() > 0 ==> r@.len() >= 1,
            self.instrs_spec().len() == 0 ==> r@.len() == 0,
            defs_match(lifter, all_data(self.instrs_spec()), flat_defs(r@)),
            flat_jmps(r@).len() == all_ctrl(self.instrs_spec()).len() + all_splits(
                self.instrs_spec(),
            ),
            forall|bi: int, k: int|
                0 <= bi < r@.len() && 0 <= k < (#[trigger] r@[bi]).value_spec().jmps_spec().len()
                    ==> jmp_from_ctrl(
                    lifter,
                    self.instrs_spec(),
                    (#[trigger] r@[bi].value_spec().jmps_spec()[k]).value_spec(),
                ) || (bi + 1 < r@.len() && link_to(
                    r@[bi].value_spec().jmps_spec()[k].value_spec(),
                    r@[bi + 1].id_spec(),
                )),
            self.instrs_spec().len() > 0 ==> anchored_first(r@[0], self.instrs_spec()),
            r@.len() == all_splits(self.instrs_spec()) + count_ends(self.instrs_spec()) + if (
            self.instrs_spec().len() > 0 && !ends_instr(
                self.instrs_spec().last(),
            )) {
                1int
            } else {
                0int
            },
    {
        let ghost gi = self.instrs_spec();
        let mut blks: Vec<Entity<Blk>> = Vec::new();
        let mut current: Option<Entity<Blk>> = None;
        let n = self.instrs.len();
        let mut i: usize = 0;
        proof {
            assert(gi.take(0) =~= Seq::<LiftedInstr>::empty());
            assert(flat_defs(blks@) =~= Seq::<Entity<Def>>::empty());
            assert(flat_jmps(blks@) =~= Seq::<Entity<Jmp>>::empty());
        }
        while i < n
            invariant
                i <= n == gi.len(),
                gi == self.instrs_spec(),
                current is Some <==> (i > 0 && !ends_instr(gi[i - 1])),
                i == 0 ==> blks@.len() == 0 && current is None,
                (i > 0 && current is None) ==> blks@.len() >= 1,
                blks@.len() == all_splits(gi.take(i as int)) + count_ends(gi.take(i as int)),
                defs_match(
                    lifter,
                    all_data(gi.take(i as int)),
                    flat_defs(blks@) + opt_defs(current),
                ),
                flat_jmps(blks@).len() + opt_jmps(current).len() == all_ctrl(
                    gi.take(i as int),
                ).len() + all_splits(gi.take(i as int)),
                forall|bi: int, k: int|
                    0 <= bi < blks@.len() && 0 <= k < (
                    #[trigger] blks@[bi]).value_spec().jmps_spec().len() ==> jmp_from_ctrl(
                        lifter,
                        gi,
                        (#[trigger] blks@[bi].value_spec().jmps_spec()[k]).value_spec(),
                    ) || (bi + 1 < blks@.len() && link_to(
                        blks@[bi].value_spec().jmps_spec()[k].value_spec(),
                        blks@[bi + 1].id_spec(),
                    )) || (bi == blks@.len() - 1 && (current matches Some(c) && link_to(
                        blks@[bi].value_spec().jmps_spec()[k].value_spec(),
                        c.id_spec(),
                    ))),
                current matches Some(c) ==> forall|k: int|
                    0 <= k < c.value_spec().jmps_spec().len() ==> jmp_from_ctrl(
                        lifter,
                        gi,
                        (#[trigger] c.value_spec().jmps_spec()[k]).value_spec(),
                    ),
                (i > 0 && n > 0 && blks@.len() > 0) ==> anchored_first(blks@[0], gi),
                (i > 0 && n > 0 && blks@.len() == 0) ==> (current matches Some(c)
                    && anchored_first(c, gi)),
            decreases n - i,
        {
            let rec = &self.instrs[i];
            let ghost ops = rec.instr.operations@;
            let mut blk = match current {
                Some(b) => b,
                None => Blk::new(Some(Addr::from_u64(rec.instr.address))),
            };
            current = None;
            proof {
                assert(ops.take(0) =~= Seq::<UStmt>::empty());
                assert(data_of(ops.take(0)) =~= Seq::<UStmt>::empty());
                assert(ctrl_of(ops.take(0)) =~= Seq::<UStmt>::empty());
            }
            let m = rec.instr.operations.len();
            let mut j: usize = 0;
            while j < m
                invariant
                    j <= m == ops.len(),
                    i < n == gi.len(),
                    gi == self.instrs_spec(),
                    ops == gi[i as int].instr.operations@,
                    rec == &self.instrs@[i as int],
                    rec.targets@ == gi[i as int].targets@,
                    defs_match(
                        lifter,
                        all_data(gi.take(i as int)) + data_of(ops.take(j as int)),
                        flat_defs(blks@) + blk.value_spec().defs_spec(),
                    ),
                    flat_jmps(blks@).len() + blk.value_spec().jmps_spec().len() == all_ctrl(
                        gi.take(i as int),
                    ).len() + ctrl_of(ops.take(j as int)).len() + all_splits(gi.take(i as int))
                        + splits_upto(rec.targets@, j as int),
                    blks@.len() == all_splits(gi.take(i as int)) + count_ends(gi.take(i as int))
                        + splits_upto(rec.targets@, j as int),
                    forall|bi: int, k: int|
                        0 <= bi < blks@.len() && 0 <= k < (
                        #[trigger] blks@[bi]).value_spec().jmps_spec().len() ==> jmp_from_ctrl(
                            lifter,
                            gi,
                            (#[trigger] blks@[bi].value_spec().jmps_spec()[k]).value_spec(),
                        ) || (bi + 1 < blks@.len() && link_to(
                            blks@[bi].value_spec().jmps_spec()[k].value_spec(),
                            blks@[bi + 1].id_spec(),
                        )) || (bi == blks@.len() - 1 && link_to(
                            blks@[bi].value_spec().jmps_spec()[k].value_spec(),
                            blk.id_spec(),
                        )),
                    forall|k: int|
                        0 <= k < blk.value_spec().jmps_spec().len() ==> jmp_from_ctrl(
                            lifter,
                            gi,
                            (#[trigger] blk.value_spec().jmps_spec()[k]).value_spec(),
                        ),
                    (n > 0 && blks@.len() > 0) ==> anchored_first(blks@[0], gi),
                    (n > 0 && blks@.len() == 0) ==> anchored_first(blk, gi),
                decreases m - j,
            {
                let ghost defs0 = blk.value_spec().defs_spec();
                let stmt = &self.instrs[i].instr.operations[j];
                proof {
                    assert(*stmt == ops[j as int]);
                }
                match stmt {
                    UStmt::Assign(v, e) => {
                        let var = conv_var(lifter, v);
                        let expr = conv_expr(lifter, e);
                        let d = Def::assign(var, expr);
                        proof {
                            lemma_defs_match_one(lifter, ops[j as int], d);
                        }
                        blk.value_mut().add_def(d);
                        proof {
                            lemma_data_of_snoc(ops, j as int);
                            lemma_defs_match_concat(
                                lifter,
                                all_data(gi.take(i as int)) + data_of(ops.take(j as int)),
                                flat_defs(blks@) + defs0,
                                seq![ops[j as int]],
                                seq![d],
                            );
                            assert(all_data(gi.take(i as int)) + data_of(ops.take(j + 1)) =~= (
                            all_data(gi.take(i as int)) + data_of(ops.take(j as int))) + seq![
                                ops[j as int],
                            ]);
                            assert(flat_defs(blks@) + blk.value_spec().defs_spec() =~= (flat_defs(
                                blks@,
                            ) + defs0) + seq![d]);
                            lemma_ctrl_of_snoc(ops, j as int);
                            assert(ctrl_of(ops.take(j + 1)) =~= ctrl_of(ops.take(j as int))
                                + Seq::<UStmt>::empty());
                        }
                    },
                    UStmt::Store(dst, x, sz, sp) => {
                        let args = ArgList::More(
                            Box::new(conv_expr(lifter, dst)),
                            Box::new(
                                ArgList::More(
                                    Box::new(conv_expr(lifter, x)),
                                    Box::new(ArgList::Nil),
                                ),
                            ),
                        );
                        let d = Def::assume_cond(
                            Expr::Intrinsic(String::from_str("store"), args, 0),
                        );
                        proof {
                            lemma_defs_match_one(lifter, ops[j as int], d);
                        }
                        blk.value_mut().add_def(d);
                        proof {
                            lemma_data_of_snoc(ops, j as int);
                            lemma_defs_match_concat(
                                lifter,
                                all_data(gi.take(i as int)) + data_of(ops.take(j as int)),
                                flat_defs(blks@) + defs0,
                                seq![ops[j as int]],
                                seq![d],
                            );
                            assert(all_data(gi.take(i as int)) + data_of(ops.take(j + 1)) =~= (
                            all_data(gi.take(i as int)) + data_of(ops.take(j as int))) + seq![
                                ops[j as int],
                            ]);
                            assert(flat_defs(blks@) + blk.value_spec().defs_spec() =~= (flat_defs(
                                blks@,
                            ) + defs0) + seq![d]);
                            lemma_ctrl_of_snoc(ops, j as int);
                            assert(ctrl_of(ops.take(j + 1)) =~= ctrl_of(ops.take(j as int))
                                + Seq::<UStmt>::empty());
                        }
                    },
                    UStmt::Branch(tg) => {
                        let jm = Jmp::branch(conv_target(lifter, tg));
                        blk.value_mut().add_jmp(jm);
                        proof {
                            lemma_new_jmp(lifter, gi, i as int, ops, j as int, jm);
                            lemma_data_of_snoc(ops, j as int);
                            assert(data_of(ops.take(j + 1)) =~= data_of(ops.take(j as int))
                                + Seq::<UStmt>::empty());
                        }
                    },
                    UStmt::CBranch(c, tg) => {
                        let jm = Jmp::cbranch(conv_target(lifter, tg), conv_expr(lifter, c));
                        blk.value_mut().add_jmp(jm);
                        proof {
                            lemma_new_jmp(lifter, gi, i as int, ops, j as int, jm);
                            lemma_data_of_snoc(ops, j as int);
                            assert(data_of(ops.take(j + 1)) =~= data_of(ops.take(j as int))
                                + Seq::<UStmt>::empty());
                        }
                    },
                    UStmt::Call(tg, cargs) => {
                        let jm = Jmp::call(conv_target(lifter, tg), conv_args(lifter, cargs));
                        blk.value_mut().add_jmp(jm);
                        proof {
                            lemma_new_jmp(lifter, gi, i as int, ops, j as int, jm);
                            lemma_data_of_snoc(ops, j as int);
                            assert(data_of(ops.take(j + 1)) =~= data_of(ops.take(j as int))
                                + Seq::<UStmt>::empty());
                        }
                    },
                    UStmt::Return(tg) => {
                        let jm = Jmp::ret(conv_target(lifter, tg));
                        blk.value_mut().add_jmp(jm);
                        proof {
                            lemma_new_jmp(lifter, gi, i as int, ops, j as int, jm);
                            lemma_data_of_snoc(ops, j as int);
                            assert(data_of(ops.take(j + 1)) =~= data_of(ops.take(j as int))
                                + Seq::<UStmt>::empty());
                        }
                    },
                    UStmt::Intrinsic(name, cargs) => {
                        let jm = Entity::new(
                            "jmp",
                            Jmp::Intrinsic(name.clone(), conv_args(lifter, cargs)),
                        );
                        blk.value_mut().add_jmp(jm);
                        proof {
                            lemma_new_jmp(lifter, gi, i as int, ops, j as int, jm);
                            lemma_data_of_snoc(ops, j as int);
                            assert(data_of(ops.take(j + 1)) =~= data_of(ops.take(j as int))
                                + Seq::<UStmt>::empty());
                        }
                    },
                    UStmt::Skip => {
                        proof {
                            lemma_data_of_snoc(ops, j as int);
                            lemma_ctrl_of_snoc(ops, j as int);
                            assert(data_of(ops.take(j + 1)) =~= data_of(ops.take(j as int))
                                + Seq::<UStmt>::empty());
                            assert(ctrl_of(ops.take(j + 1)) =~= ctrl_of(ops.take(j as int))
                                + Seq::<UStmt>::empty());
                        }
                    },
                }
                // an intra-instruction edge at this statement splits the
                // block: the block under construction closes with an
                // unconditional branch to a fresh one, which the later
                // statements extend
                if has_intra_edge(&self.instrs[i].targets, j) {
                    let child = Blk::new(None);
                    let link = Jmp::branch(Loc::resolved(child.id()));
                    blk.value_mut().add_jmp(link);
                    proof {
                        lemma_flat_push(blks@, blk);
                    }
                    blks.push(blk);
                    blk = child;
                } else {
                    proof {
                        assert(!intra_at(rec.targets@, j as int));
                    }
                }
                j = j + 1;
            }
            proof {
                assert(ops.take(m as int) =~= ops);
                lemma_all_snoc(gi, i as int);
            }
            // a block-terminating instruction closes the block
            let mut ends = false;
            let tn = self.instrs[i].targets.len();
            let mut k: usize = 0;
            while k < tn
                invariant
                    k <= tn,
                    i < self.instrs@.len(),
                    tn == self.instrs@[i as int].targets@.len(),
                    ends == exists|q: int|
                        0 <= q < k && (#[trigger] self.instrs@[i as int].targets@[q]).1.ends_block_spec(),
                decreases tn - k,
            {
                if self.instrs[i].targets[k].1.ends_block() {
                    proof {
                        assert(self.instrs@[i as int].targets@[k as int].1.ends_block_spec());
                    }
                    ends = true;
                }
                k = k + 1;
            }
            proof {
                assert(ends == ends_instr(gi[i as int]));
                lemma_count_ends_snoc(gi, i as int);
            }
            if ends {
                proof {
                    lemma_flat_push(blks@, blk);
                }
                blks.push(blk);
            } else {
                current = Some(blk);
            }
            i = i + 1;
        }
        proof {
            assert(gi.take(n as int) =~= gi);
        }
        if let Some(b) = current {
            proof {
                lemma_flat_push(blks@, b);
                assert(flat_defs(blks@) + opt_defs(current) =~= flat_defs(blks@.push(b)));
                assert(flat_jmps(blks@) + opt_jmps(current) =~= flat_jmps(blks@.push(b)));
            }
            blks.push(b);
        } else {
            proof {
                assert(flat_defs(blks@) + opt_defs(current) =~= flat_defs(blks@));
                assert(flat_jmps(blks@) + opt_jmps(current) =~= flat_jmps(blks@));
            }
        }
        blks
    }
}

/// A just-converted control effect converts a recorded control
/// statement of the whole session.
proof fn lemma_new_jmp(
    lifter: &Lifter,
    gi: Seq<LiftedInstr>,
    i: int,
    ops: Seq<UStmt>,
    j: int,
    jm: Entity<Jmp>,
)
    requires
        0 <= i < gi.len(),
        ops == gi[i].instr.operations@,
        0 <= j < ops.len(),
        is_ctrl_stmt(ops[j]),
        jmp_item_ok(lifter, ops[j], jm.value_spec()),
    ensures
        jmp_from_ctrl(lifter, gi, jm.value_spec()),
        ctrl_of(ops.take(j + 1)) =~= ctrl_of(ops.take(j)) + seq![ops[j]],
{
    lemma_ctrl_of_snoc(ops, j);
    lemma_ctrl_member(ops, j);
    let mm = choose|mm: int| 0 <= mm < ctrl_of(ops).len() && ctrl_of(ops)[mm] == ops[j];
    lemma_all_snoc(gi, i);
    assert(all_ctrl(gi.take(i + 1))[all_ctrl(gi.take(i)).len() + mm] == ops[j]);
    lemma_all_ctrl_prefix(gi, i + 1);
    let pos = all_ctrl(gi.take(i)).len() + mm;
    assert(all_ctrl(gi)[pos] == ops[j]);
}

/// Whether the classified edges hold an intra-instruction edge for the
/// statement at position `j`.
fn has_intra_edge(targets: &Vec<(usize, ECodeTarget)>, j: usize) -> (r: bool)
    ensures
        r == exists|k: int|
            0 <= k < targets@.len() && (#[trigger] targets@[k]).0 == j && targets@[k].1
                is IntraIns,
{
    let n = targets.len();
    let mut k: usize = 0;
    while k < n
        invariant
            k <= n == targets@.len(),
            forall|q: int|
                0 <= q < k ==> !((#[trigger] targets@[q]).0 == j && targets@[q].1 is IntraIns),
        decreases n - k,
    {
        let e = &targets[k];
        if e.0 == j && matches!(e.1, ECodeTarget::IntraIns(_)) {
            return true;
        }
        k = k + 1;
    }
    false
}


/// The sort identity a converted variable carries for a width: the
/// standard unsigned sort when the width has one, else the width's own
/// anonymous sort.
pub open spec fn conv_sort_id(bits: u32) -> Id<Type> {
    Id::<Type>::make_spec("type", type_uuid_spec(unsigned_sort_literal(bits)))
}

/// The position of the first register-name entry for an offset and
/// byte size.
pub open spec fn first_reg_name(
    names: Seq<(u64, u32, String)>,
    offset: u64,
    size: u32,
) -> Option<int>
    decreases names.len(),
{
    if names.len() == 0 {
        None
    } else if names[0].0 == offset && names[0].1 == size {
        Some(0int)
    } else {
        match first_reg_name(names.skip(1), offset, size) {
            Some(k) => Some(k + 1),
            None => None,
        }
    }
}

/// The first match decides the lookup.
proof fn lemma_first_reg_name_at(names: Seq<(u64, u32, String)>, offset: u64, size: u32, j: int)
    requires
        0 <= j < names.len(),
        names[j].0 == offset && names[j].1 == size,
        forall|k: int|
            0 <= k < j ==> !((#[trigger] names[k]).0 == offset && names[k].1 == size),
    ensures
        first_reg_name(names, offset, size) == Some(j),
    decreases j,
{
    if j > 0 {
        assert(names.skip(1)[j - 1] == names[j]);
        assert(forall|k: int|
            0 <= k < j - 1 ==> names.skip(1)[k] == names[k + 1] && !((#[trigger] names.skip(1)[k]).0
                == offset && names.skip(1)[k].1 == size));
        lemma_first_reg_name_at(names.skip(1), offset, size, j - 1);
    }
}

/// With no match, the lookup finds nothing.
proof fn lemma_first_reg_name_none(names: Seq<(u64, u32, String)>, offset: u64, size: u32)
    requires
        forall|k: int|
            0 <= k < names.len() ==> !((#[trigger] names[k]).0 == offset && names[k].1 == size),
    ensures
        first_reg_name(names, offset, size) is None,
    decreases names.len(),
{
    if names.len() > 0 {
        assert(forall|k: int|
            0 <= k < names.skip(1).len() ==> names.skip(1)[k] == names[k + 1] && !((
            #[trigger] names.skip(1)[k]).0 == offset && names.skip(1)[k].1 == size));
        lemma_first_reg_name_none(names.skip(1), offset, size);
    }
}

/// What `conv_var` yields: a register-space variable the table names
/// becomes a physical variable under the first matching entry's name,
/// anything else a transient named by its offset in hexadecimal; the
/// sort is the width's unsigned sort and the generation carries over.
pub open spec fn conv_var_ok(lifter: &Lifter, v: UVar, r: Var) -> bool {
    &&& r.generation_spec() == v.generation
    &&& if v.space == lifter.reg_space_spec() && first_reg_name(
        lifter.reg_names_spec(),
        v.offset,
        v.bits / 8,
    ) is Some {
        &&& r.kind_spec() == (VarKind::Physical { typ: conv_sort_id(v.bits), bits: v.bits })
        &&& r.name_spec() == lifter.reg_names_spec()[first_reg_name(
            lifter.reg_names_spec(),
            v.offset,
            v.bits / 8,
        )->0].2@
    } else {
        &&& r.kind_spec() == (VarKind::Transient { typ: conv_sort_id(v.bits), bits: v.bits })
        &&& r.name_spec() == seq!['u'] + crate::bv::hex_str_spec(v.offset as nat)
    }
}

/// The IR cast of a micro-op cast.
pub open spec fn conv_cast_spec(c: UCast) -> CastKind {
    match c {
        UCast::Bool => CastKind::Bool,
        UCast::Signed(b) => CastKind::Signed(b),
        UCast::Unsigned(b) => CastKind::Unsigned(b),
        UCast::Float(b) => CastKind::Float(b),
        UCast::High(b) => CastKind::High(b),
        UCast::Low(b) => CastKind::Low(b),
    }
}

/// Whether `r` is the conversion of the micro-op expression `e`:
/// structure, operators and widths carry over one to one, and every
/// variable converts as `conv_var_ok` says.
pub open spec fn conv_expr_ok(lifter: &Lifter, e: UExpr, r: Expr) -> bool
    decreases e,
{
    match (e, r) {
        (UExpr::Val(b), Expr::Val(rb)) => rb == b,
        (UExpr::Var(v), Expr::Var(rv)) => conv_var_ok(lifter, v, rv),
        (UExpr::Cast(x, c), Expr::Cast(rx, rc)) => rc == conv_cast_spec(c) && conv_expr_ok(
            lifter,
            *x,
            *rx,
        ),
        (UExpr::UnOp(op, x), Expr::UnOp(rop, rx)) => rop == op && conv_expr_ok(lifter, *x, *rx),
        (UExpr::UnRel(op, x), Expr::UnRel(rop, rx)) => rop == op && conv_expr_ok(lifter, *x, *rx),
        (UExpr::BinOp(op, x, y), Expr::BinOp(rop, rx, ry)) => rop == op && conv_expr_ok(
            lifter,
            *x,
            *rx,
        ) && conv_expr_ok(lifter, *y, *ry),
        (UExpr::BinRel(op, x, y), Expr::BinRel(rop, rx, ry)) => rop == op && conv_expr_ok(
            lifter,
            *x,
            *rx,
        ) && conv_expr_ok(lifter, *y, *ry),
        (UExpr::Load(x, sz, sp), Expr::Load(rx, rsz, rsp)) => rsz == sz && rsp == sp
            && conv_expr_ok(lifter, *x, *rx),
        (UExpr::Extract(x, l, m), Expr::Extract(rx, rl, rm)) => rl == l && rm == m
            && conv_expr_ok(lifter, *x, *rx),
        (UExpr::Concat(x, y), Expr::Concat(rx, ry)) => conv_expr_ok(lifter, *x, *rx)
            && conv_expr_ok(lifter, *y, *ry),
        (UExpr::IfElse(c, x, y), Expr::IfElse(rc, rx, ry)) => conv_expr_ok(lifter, *c, *rc)
            && conv_expr_ok(lifter, *x, *rx) && conv_expr_ok(lifter, *y, *ry),
        (UExpr::Call(tg, args, b), Expr::Call(rt, rargs, rb)) => rb == b && conv_expr_ok(
            lifter,
            *tg,
            *rt,
        ) && conv_args_ok(lifter, args, rargs),
        (UExpr::Intrinsic(n, args, b), Expr::Intrinsic(rn, rargs, rb)) => rn@ == n@ && rb == b
            && conv_args_ok(lifter, args, rargs),
        _ => false,
    }
}

/// The argument-list form of `conv_expr_ok`.
pub open spec fn conv_args_ok(lifter: &Lifter, a: UArgs, r: ArgList) -> bool
    decreases a,
{
    match (a, r) {
        (UArgs::Nil, ArgList::Nil) => true,
        (UArgs::More(e, rest), ArgList::More(re, rrest)) => conv_expr_ok(lifter, *e, *re)
            && conv_args_ok(lifter, *rest, *rrest),
        _ => false,
    }
}

/// Whether `r` is the conversion of the branch target `t`: a fixed
/// micro-op location becomes its instruction address, a computed target
/// stays computed.
pub open spec fn conv_target_ok(lifter: &Lifter, t: UTarget, r: Loc) -> bool {
    match (t, r) {
        (UTarget::Location(loc), Loc::Fixed(a)) => a.value() == loc.address && a.width() == 64,
        (UTarget::Computed(e), Loc::Computed(re)) => conv_expr_ok(lifter, e, re),
        _ => false,
    }
}

/// Whether `d` is the data effect of the micro-op statement `s`: an
/// assignment converts both sides; a store is carried as an assumption
/// holding a two-argument store intrinsic over the converted address
/// and value.
pub open spec fn def_item_ok(lifter: &Lifter, s: UStmt, d: Def) -> bool {
    match (s, d) {
        (UStmt::Assign(v, e), Def::Assign(rv, re)) => conv_var_ok(lifter, v, rv) && conv_expr_ok(
            lifter,
            e,
            re,
        ),
        (UStmt::Store(a, x, _, _), Def::Assume(re)) => match re {
            Expr::Intrinsic(n, args, b) => n@ == "store"@ && b == 0 && (match args {
                ArgList::More(e1, r1) => conv_expr_ok(lifter, a, *e1) && (match *r1 {
                    ArgList::More(e2, r2) => conv_expr_ok(lifter, x, *e2) && *r2 is Nil,
                    _ => false,
                }),
                _ => false,
            }),
            _ => false,
        },
        _ => false,
    }
}

/// Whether `j` is the control effect of the micro-op statement `s`.
pub open spec fn jmp_item_ok(lifter: &Lifter, s: UStmt, j: Jmp) -> bool {
    match (s, j) {
        (UStmt::Branch(t), Jmp::Branch(l)) => conv_target_ok(lifter, t, l),
        (UStmt::CBranch(c, t), Jmp::CBranch(l, rc)) => conv_target_ok(lifter, t, l)
            && conv_expr_ok(lifter, c, rc),
        (UStmt::Call(t, args), Jmp::Call(l, rargs)) => conv_target_ok(lifter, t, l)
            && conv_args_ok(lifter, args, rargs),
        (UStmt::Return(t), Jmp::Return(l)) => conv_target_ok(lifter, t, l),
        (UStmt::Intrinsic(n, args), Jmp::Intrinsic(rn, rargs)) => rn@ == n@ && conv_args_ok(
            lifter,
            args,
            rargs,
        ),
        _ => false,
    }
}

/// The IR variable standing for a micro-op variable: a register-space
/// variable takes its architectural name from the register table (or a
/// hexadecimal placeholder when the table does not name it), any other
/// a transient name derived from its space and offset; the generation
/// carries over.
pub fn conv_var(lifter: &Lifter, v: &UVar) -> (r: Var)
    ensures
        conv_var_ok(lifter, *v, r),
        r.generation_spec() == v.generation,
{
    let sort = match BitVecT::standard(v.bits, false) {
        Some(t) => t,
        None => BitVecT::new(v.bits, false, 0),
    };
    proof {
        assert(sort.id_spec() == conv_sort_id(v.bits));
        assert(sort.bits_spec() == v.bits);
    }
    let named = if v.space == lifter.reg_space {
        match lifter.register_name(v.offset, v.bits / 8) {
            Some(name) => {
                proof {
                    let j = choose|j: int|
                        {
                            &&& 0 <= j < lifter.reg_names_spec().len()
                            &&& (#[trigger] lifter.reg_names_spec()[j]).0 == v.offset
                            &&& lifter.reg_names_spec()[j].1 == v.bits / 8
                            &&& name@ == lifter.reg_names_spec()[j].2@
                            &&& forall|k: int|
                                0 <= k < j ==> !((#[trigger] lifter.reg_names_spec()[k]).0
                                    == v.offset && lifter.reg_names_spec()[k].1 == v.bits / 8)
                        };
                    lemma_first_reg_name_at(lifter.reg_names_spec(), v.offset, v.bits / 8, j);
                }
                Some(name.clone())
            },
            None => {
                proof {
                    lemma_first_reg_name_none(lifter.reg_names_spec(), v.offset, v.bits / 8);
                }
                None
            },
        }
    } else {
        None
    };
    let e = match named {
        Some(name) => Var::physical(name, &sort),
        None => {
            let mut name = String::from_str("u");
            proof {
                reveal_strlit("u");
                assert(name@ =~= seq!['u']);
            }
            name.append(crate::bv::format_hex_u128(v.offset as u128).as_str());
            proof {
                assert(name@ =~= seq!['u'] + crate::bv::hex_str_spec(v.offset as nat));
            }
            Var::transient(name, &sort)
        },
    };
    e.into_value().with_generation(v.generation)
}

/// The IR expression of a micro-op expression; every variable converts
/// through `conv_var`.
pub fn conv_expr(lifter: &Lifter, e: &UExpr) -> (r: Expr)
    ensures
        conv_expr_ok(lifter, *e, r),
    decreases *e,
{
    match e {
        UExpr::Val(bv) => Expr::Val(*bv),
        UExpr::Var(v) => Expr::Var(conv_var(lifter, v)),
        UExpr::Cast(x, c) => Expr::Cast(Box::new(conv_expr(lifter, x)), conv_cast(c)),
        UExpr::UnOp(op, x) => Expr::UnOp(*op, Box::new(conv_expr(lifter, x))),
        UExpr::UnRel(op, x) => Expr::UnRel(*op, Box::new(conv_expr(lifter, x))),
        UExpr::BinOp(op, x, y) => Expr::BinOp(
            *op,
            Box::new(conv_expr(lifter, x)),
            Box::new(conv_expr(lifter, y)),
        ),
        UExpr::BinRel(op, x, y) => Expr::BinRel(
            *op,
            Box::new(conv_expr(lifter, x)),
            Box::new(conv_expr(lifter, y)),
        ),
        UExpr::Load(x, sz, sp) => Expr::Load(Box::new(conv_expr(lifter, x)), *sz, *sp),
        UExpr::Extract(x, l, m) => Expr::Extract(Box::new(conv_expr(lifter, x)), *l, *m),
        UExpr::Concat(x, y) => Expr::Concat(
            Box::new(conv_expr(lifter, x)),
            Box::new(conv_expr(lifter, y)),
        ),
        UExpr::IfElse(c, x, y) => Expr::IfElse(
            Box::new(conv_expr(lifter, c)),
            Box::new(conv_expr(lifter, x)),
            Box::new(conv_expr(lifter, y)),
        ),
        UExpr::Call(t, args, b) => Expr::Call(
            Box::new(conv_expr(lifter, t)),
            conv_args(lifter, args),
            *b,
        ),
        UExpr::Intrinsic(name, args, b) => Expr::Intrinsic(
            name.clone(),
            conv_args(lifter, args),
            *b,
        ),
    }
}

/// The IR argument list of a micro-op argument list.
pub fn conv_args(lifter: &Lifter, a: &UArgs) -> (r: ArgList)
    ensures
        conv_args_ok(lifter, *a, r),
    decreases *a,
{
    match a {
        UArgs::Nil => ArgList::Nil,
        UArgs::More(e, rest) => ArgList::More(
            Box::new(conv_expr(lifter, e)),
            Box::new(conv_args(lifter, rest)),
        ),
    }
}

/// The IR cast of a micro-op cast.
fn conv_cast(c: &UCast) -> (r: CastKind)
    ensures
        r == conv_cast_spec(*c),
{
    match c {
        UCast::Bool => CastKind::Bool,
        UCast::Signed(b) => CastKind::Signed(*b),
        UCast::Unsigned(b) => CastKind::Unsigned(*b),
        UCast::Float(b) => CastKind::Float(*b),
        UCast::High(b) => CastKind::High(*b),
        UCast::Low(b) => CastKind::Low(*b),
    }
}

/// The IR location of a micro-op branch target: a fixed location turns
/// into its instruction address, a computed target stays an expression.
pub fn conv_target(lifter: &Lifter, t: &UTarget) -> (r: Loc)
    ensures
        conv_target_ok(lifter, *t, r),
{
    match t {
        UTarget::Location(loc) => Loc::Fixed(Addr::from_u64(loc.address)),
        UTarget::Computed(e) => Loc::Computed(conv_expr(lifter, e)),
    }
}

} // verus!
