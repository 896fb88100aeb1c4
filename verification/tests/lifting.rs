//! Alias normalisation, branch classification, lift sessions and the
//! project container.

use delirium::address::Addr;
use delirium::aliases::{AliasPass, VarIndex};
use delirium::bv::BitVec;
use delirium::ecode::{
    ECodeTarget, TargetSummary, UArgs, UCast, UExpr, UInstr, ULoc, UStmt, UTarget, UVar,
};
use delirium::effect::Jmp;
use delirium::id::Identifiable;
use delirium::expr::BinOp;
use delirium::lift::{LiftSession, Lifter};
use delirium::project::Project;
use delirium::region::Endian;

const REG: u64 = 1;
const UNIQ: u64 = 2;

fn reg_var(offset: u64, bits: u32, generation: u32) -> UVar {
    UVar { space: REG, offset, bits, generation }
}

fn x86_lifter() -> Lifter {
    // EAX covers AX covers AL/AH
    let table = vec![(0u64, 4u32), (0, 2), (0, 1), (1, 1)];
    let names = vec![
        (0u64, 4u32, String::from("EAX")),
        (0, 2, String::from("AX")),
        (0, 1, String::from("AL")),
        (1, 1, String::from("AH")),
    ];
    Lifter::new(REG, table, names, String::from("gcc"))
}

fn al_increment() -> Vec<UStmt> {
    let al = reg_var(0, 8, 3);
    vec![UStmt::Assign(
        al,
        UExpr::BinOp(
            BinOp::Add,
            Box::new(UExpr::Var(al)),
            Box::new(UExpr::Val(BitVec::new(1, 8, false))),
        ),
    )]
}

#[test]
fn alias_rewrite_scenario() {
    let lifter = x86_lifter();
    let mut pass = lifter.alias_pass();
    let out = pass.apply(al_increment());
    assert_eq!(out.len(), 1);
    let eax = reg_var(0, 32, 3);
    // EAX(g) <- concat(extract_high(EAX, 24), extract_low(EAX, 8) + 1)
    let expected = UStmt::Assign(
        eax,
        UExpr::Concat(
            Box::new(UExpr::Cast(Box::new(UExpr::Var(eax)), UCast::High(24))),
            Box::new(UExpr::BinOp(
                BinOp::Add,
                Box::new(UExpr::Cast(Box::new(UExpr::Var(eax)), UCast::Low(8))),
                Box::new(UExpr::Val(BitVec::new(1, 8, false))),
            )),
        ),
    );
    assert_eq!(out[0], expected);
}

#[test]
fn alias_enclosing_tie_break_prefers_wider() {
    // with AL, AX and EAX all indexed, AL's enclosing register is EAX
    let table = vec![(0u64, 1u32), (0, 2), (0, 4)];
    let idx = VarIndex::registers(REG, &table);
    let al = reg_var(0, 8, 0);
    let enc = idx.enclosing(&al);
    assert_eq!(enc, reg_var(0, 32, 0));
    // with only AX beside AL, AX wins
    let table2 = vec![(0u64, 1u32), (0, 2)];
    let idx2 = VarIndex::registers(REG, &table2);
    assert_eq!(idx2.enclosing(&al), reg_var(0, 16, 0));
}

#[test]
fn alias_pass_is_idempotent_on_registers() {
    let lifter = x86_lifter();
    let mut pass = lifter.alias_pass();
    let once = pass.apply(al_increment());
    let mut pass2 = lifter.alias_pass();
    let once_again: Vec<UStmt> = {
        let mut v = Vec::new();
        for s in &once {
            v.push(clone_stmt(s));
        }
        v
    };
    let twice = pass2.apply(once_again);
    assert_eq!(twice, once);
}

fn clone_stmt(s: &UStmt) -> UStmt {
    match s {
        UStmt::Assign(v, e) => UStmt::Assign(*v, clone_expr(e)),
        UStmt::Store(d, x, sz, sp) => UStmt::Store(clone_expr(d), clone_expr(x), *sz, *sp),
        UStmt::Branch(t) => UStmt::Branch(clone_target(t)),
        UStmt::CBranch(c, t) => UStmt::CBranch(clone_expr(c), clone_target(t)),
        UStmt::Call(t, a) => UStmt::Call(clone_target(t), clone_args(a)),
        UStmt::Return(t) => UStmt::Return(clone_target(t)),
        UStmt::Intrinsic(n, a) => UStmt::Intrinsic(n.clone(), clone_args(a)),
        UStmt::Skip => UStmt::Skip,
    }
}

fn clone_target(t: &UTarget) -> UTarget {
    match t {
        UTarget::Location(l) => UTarget::Location(*l),
        UTarget::Computed(e) => UTarget::Computed(clone_expr(e)),
    }
}

fn clone_args(a: &UArgs) -> UArgs {
    match a {
        UArgs::Nil => UArgs::Nil,
        UArgs::More(e, rest) => UArgs::More(Box::new(clone_expr(e)), Box::new(clone_args(rest))),
    }
}

fn clone_expr(e: &UExpr) -> UExpr {
    match e {
        UExpr::Val(b) => UExpr::Val(*b),
        UExpr::Var(v) => UExpr::Var(*v),
        UExpr::Cast(x, c) => UExpr::Cast(Box::new(clone_expr(x)), *c),
        UExpr::UnOp(op, x) => UExpr::UnOp(*op, Box::new(clone_expr(x))),
        UExpr::UnRel(op, x) => UExpr::UnRel(*op, Box::new(clone_expr(x))),
        UExpr::BinOp(op, x, y) => {
            UExpr::BinOp(*op, Box::new(clone_expr(x)), Box::new(clone_expr(y)))
        }
        UExpr::BinRel(op, x, y) => {
            UExpr::BinRel(*op, Box::new(clone_expr(x)), Box::new(clone_expr(y)))
        }
        UExpr::Load(x, sz, sp) => UExpr::Load(Box::new(clone_expr(x)), *sz, *sp),
        UExpr::Extract(x, l, m) => UExpr::Extract(Box::new(clone_expr(x)), *l, *m),
        UExpr::Concat(x, y) => UExpr::Concat(Box::new(clone_expr(x)), Box::new(clone_expr(y))),
        UExpr::IfElse(c, x, y) => UExpr::IfElse(
            Box::new(clone_expr(c)),
            Box::new(clone_expr(x)),
            Box::new(clone_expr(y)),
        ),
        UExpr::Call(t, a, b) => UExpr::Call(Box::new(clone_expr(t)), clone_args(a), *b),
        UExpr::Intrinsic(n, a, b) => UExpr::Intrinsic(n.clone(), clone_args(a), *b),
    }
}

#[test]
fn alias_pass_indexes_transient_spaces() {
    let lifter = x86_lifter();
    let mut pass = lifter.alias_pass();
    // a unique-space temporary of 4 bytes beside a 1-byte view of it
    let wide = UVar { space: UNIQ, offset: 0x10, bits: 32, generation: 0 };
    let narrow = UVar { space: UNIQ, offset: 0x10, bits: 8, generation: 0 };
    let ops = vec![
        UStmt::Assign(wide, UExpr::Val(BitVec::new(0, 32, false))),
        UStmt::Assign(narrow, UExpr::Val(BitVec::new(1, 8, false))),
    ];
    let out = pass.apply(ops);
    // the narrow write retargets the wide temporary
    match &out[1] {
        UStmt::Assign(v, _) => assert_eq!(*v, wide),
        _ => panic!("an assignment stays an assignment"),
    }
}

fn ret_instr(address: u64) -> UInstr {
    UInstr {
        address,
        length: 1,
        operations: vec![UStmt::Return(UTarget::Computed(UExpr::Var(reg_var(0x20, 32, 0))))],
    }
}

#[test]
fn classifier_ret_is_final_inter_ret() {
    let instr = ret_instr(0x1000);
    let edges = instr.branch_targets();
    assert_eq!(edges.len(), 1);
    assert_eq!(edges[0].0, 0);
    match edges[0].1 {
        ECodeTarget::InterRet(TargetSummary::Computed, last) => assert!(last),
        _ => panic!("a final return classifies as a subroutine exit"),
    }
    assert!(edges[0].1.ends_block());
}

#[test]
fn classifier_fall_through_and_branches() {
    let fall_stmt = UStmt::Assign(reg_var(0, 32, 0), UExpr::Val(BitVec::new(0, 32, false)));
    let instr = UInstr {
        address: 0x1000,
        length: 2,
        operations: vec![
            clone_stmt(&fall_stmt),
            UStmt::CBranch(
                UExpr::Val(BitVec::new(1, 8, false)),
                UTarget::Location(ULoc { address: 0x2000, position: 0 }),
            ),
        ],
    };
    let edges = instr.branch_targets();
    // the middle assignment yields no edge; the conditional branch
    // yields its target and its fall-through
    assert_eq!(edges.len(), 2);
    assert_eq!(edges[0].0, 1);
    assert!(matches!(
        edges[0].1,
        ECodeTarget::InterBlk(TargetSummary::Location(ULoc { address: 0x2000, position: 0 }))
    ));
    assert_eq!(edges[1].0, 1);
    match edges[1].1 {
        ECodeTarget::IntraBlk(loc) => {
            assert_eq!(loc.address, 0x1002);
            assert_eq!(loc.position, 0);
        },
        _ => panic!("a conditional branch falls through to the next instruction"),
    }
    assert!(edges[0].1.ends_block());
    assert!(!edges[1].1.ends_block());

    // a branch to the instruction's own address is intra-instruction flow
    let instr2 = UInstr {
        address: 0x1000,
        length: 2,
        operations: vec![UStmt::Branch(UTarget::Computed(UExpr::Val(BitVec::new(
            0x1000, 32, false,
        ))))],
    };
    let edges2 = instr2.branch_targets();
    assert!(matches!(edges2[0].1, ECodeTarget::IntraIns(_)));

    // the final non-branch statement yields the fall-through edge
    let instr3 = UInstr { address: 0x1000, length: 1, operations: vec![fall_stmt] };
    let edges3 = instr3.branch_targets();
    assert_eq!(edges3.len(), 1);
    assert_eq!(edges3[0].0, 0);
}

#[test]
fn lift_session_stops_on_ret() {
    let lifter = x86_lifter();
    let mut session = LiftSession::new(Addr::from_u32(0x1000), 16, None);
    let (addr, off) = session.next_request().unwrap().unwrap();
    assert_eq!(addr, 0x1000);
    assert_eq!(off, 0);
    let stopped = session.feed(&lifter, ret_instr(0x1000));
    assert!(stopped);
    // the session reads no further bytes
    assert_eq!(session.next_request().unwrap(), None);
    let blks = session.finish(&lifter);
    assert_eq!(blks.len(), 1);
    let blk = blks[0].value();
    assert_eq!(blk.jmps().len(), 1);
    assert!(matches!(blk.jmps()[0].value(), Jmp::Return(_)));
    assert_eq!(blk.defs().len(), 0);
}

#[test]
fn lift_session_clamps_to_hint() {
    let session = LiftSession::new(Addr::from_u32(0x1000), 16, Some(4));
    let lifter = x86_lifter();
    let mut session = session;
    let assign = UInstr {
        address: 0x1000,
        length: 4,
        operations: vec![UStmt::Assign(
            reg_var(0, 32, 0),
            UExpr::Val(BitVec::new(7, 32, false)),
        )],
    };
    let stopped = session.feed(&lifter, assign);
    assert!(!stopped);
    // the budget of four bytes is spent
    assert_eq!(session.next_request().unwrap(), None);
    let blks = session.finish(&lifter);
    assert_eq!(blks.len(), 1);
    assert_eq!(blks[0].value().defs().len(), 1);
}

#[test]
fn project_discovers_and_indexes_blocks() {
    let lifter = x86_lifter();
    let ent = Project::new(String::from("demo"), lifter);
    let mut project = ent.into_value();
    project.add_region_mapping_with(
        String::from("text"),
        Addr::from_u32(0x1000),
        Endian::Little,
        vec![0xc3, 0x90, 0x90, 0x90],
    );
    assert!(project.begin_blk(Addr::from_u32(0x5000), None).is_none());
    let mut session = project.begin_blk(Addr::from_u32(0x1000), None).unwrap();
    let lifter = x86_lifter();
    session.feed(&lifter, ret_instr(0x1000));
    let blks = session.finish(&lifter);
    let first_uuid = blks[0].id().uuid();
    let ids = project.index_blks(Addr::from_u32(0x1000), blks);
    assert_eq!(ids.len(), 1);
    assert_eq!(ids[0].uuid(), first_uuid);
    let found = project.find_blk(&ids[0]).unwrap();
    assert_eq!(found.id().uuid(), first_uuid);
    assert_eq!(project.blk_at(&Addr::from_u32(0x1000)).unwrap(), first_uuid);
    assert!(project.blk_at(&Addr::from_u32(0x2000)).is_none());
    assert_eq!(project.name().as_str(), "demo");
    assert_eq!(project.lifter().convention().as_str(), "gcc");
}

#[test]
fn classifier_call_has_target_and_fall_through() {
    let instr = UInstr {
        address: 0x1000,
        length: 5,
        operations: vec![UStmt::Call(
            UTarget::Location(ULoc { address: 0x4000, position: 0 }),
            UArgs::Nil,
        )],
    };
    let edges = instr.branch_targets();
    assert_eq!(edges.len(), 2);
    assert!(matches!(
        edges[0].1,
        ECodeTarget::InterSub(TargetSummary::Location(_))
    ));
    match edges[1].1 {
        ECodeTarget::IntraBlk(loc) => assert_eq!(loc.address, 0x1005),
        _ => panic!("a call falls through to the next instruction"),
    }
    assert!(!edges[0].1.ends_block());
}

#[test]
fn lift_session_splits_on_intra_instruction_flow() {
    let lifter = x86_lifter();
    let mut session = LiftSession::new(Addr::from_u32(0x1000), 2, None);
    let instr = UInstr {
        address: 0x1000,
        length: 2,
        operations: vec![
            UStmt::CBranch(
                UExpr::Val(BitVec::new(1, 8, false)),
                UTarget::Location(ULoc { address: 0x1000, position: 1 }),
            ),
            UStmt::Assign(reg_var(0, 32, 0), UExpr::Val(BitVec::new(7, 32, false))),
        ],
    };
    let stopped = session.feed(&lifter, instr);
    assert!(!stopped);
    assert_eq!(session.next_request().unwrap(), None);
    let blks = session.finish(&lifter);
    // the local branch splits the instruction into two blocks
    assert_eq!(blks.len(), 2);
    assert_eq!(blks[0].value().jmps().len(), 2);
    assert!(matches!(blks[0].value().jmps()[0].value(), Jmp::CBranch(_, _)));
    assert!(matches!(blks[0].value().jmps()[1].value(), Jmp::Branch(_)));
    assert_eq!(blks[1].value().defs().len(), 1);
}


#[test]
fn begin_blk_budgets_to_region_end() {
    let lifter = x86_lifter();
    let ent = Project::new(String::from("demo"), lifter);
    let mut project = ent.into_value();
    project.add_region_mapping_with(
        String::from("text"),
        Addr::from_u32(0x1000),
        Endian::Little,
        vec![0x90; 8],
    );
    // from two bytes in, six bytes remain
    let mut session = project.begin_blk(Addr::from_u32(0x1002), None).unwrap();
    let lifter = x86_lifter();
    let nop = |addr: u64| UInstr {
        address: addr,
        length: 4,
        operations: vec![UStmt::Assign(
            reg_var(0, 32, 0),
            UExpr::Val(BitVec::new(7, 32, false)),
        )],
    };
    assert!(!session.feed(&lifter, nop(0x1002)));
    // four of six bytes used: one more request at offset four
    let (a, off) = session.next_request().unwrap().unwrap();
    assert_eq!((a, off), (0x1006, 4));
    // a hint clamps below the region end
    let session2 = project.begin_blk(Addr::from_u32(0x1002), Some(3)).unwrap();
    let mut session2 = session2;
    assert!(session2.next_request().unwrap().is_some());
    assert!(!session2.feed(&lifter, nop(0x1002)));
    // the three-byte budget is spent
    assert_eq!(session2.next_request().unwrap(), None);
    let _ = session.finish(&lifter);
}
