//! Identifiers, entities, types, variables and block splitting.

use delirium::block::Blk;
use delirium::bv::BitVec;
use delirium::effect::{Def, Jmp};
use delirium::entity::Entity;
use delirium::expr::Expr;
use delirium::id::{Id, Identifiable, Uuid};
use delirium::location::Loc;
use delirium::mem::Mem;
use delirium::types::{type_uuid, BitVecT, BoolT, FloatT, PointerT, TypeSort, TYPE_SCOPE};
use delirium::var::Var;

#[test]
fn minted_ids_are_valid() {
    let id: Id<()> = Id::new("thing");
    assert!(id.is_valid());
    assert!(!id.is_invalid());
    assert!(matches!(id.uuid(), Uuid::Event { .. }));
    assert_eq!(id.tag(), "thing");
}

#[test]
fn invalid_id_is_zero() {
    let id: Id<()> = Id::invalid("thing");
    assert!(id.is_invalid());
    assert_eq!(id.uuid(), Uuid::Name { name: 0, scope: 0 });
}

#[test]
fn id_equality_ignores_tag() {
    let u = Uuid::Number { value1: 7, value2: 9 };
    let a: Id<()> = Id::from_parts("one", u);
    let b: Id<()> = Id::from_parts("two", u);
    assert_eq!(a, b);
    let c: Id<()> = Id::from_parts("one", Uuid::Number { value1: 7, value2: 8 });
    assert!(a != c);
}

#[test]
fn entity_equality_goes_by_id() {
    let id: Id<u32> = Id::new("n");
    let a = Entity::from_parts(id, 1u32);
    let b = Entity::from_parts(id, 2u32);
    assert_eq!(a, b);
    let c = Entity::new("n", 1u32);
    assert!(a != c);
}

#[test]
fn entity_mutation_keeps_identity() {
    let mut a = Entity::new("n", 1u32);
    let before = a.id();
    *a.value_mut() = 99;
    assert_eq!(a.id(), before);
    assert_eq!(*a.value(), 99);
}

#[test]
fn type_sort_identities_are_stable() {
    let u8t = BitVecT::standard(8, false).unwrap();
    assert_eq!(
        u8t.id().uuid(),
        Uuid::Name { name: 0x119e6d7d2b71a2ee, scope: TYPE_SCOPE }
    );
    let i64t = BitVecT::standard(64, true).unwrap();
    assert_eq!(
        i64t.id().uuid(),
        Uuid::Name { name: 0x842618f4caf73f92, scope: TYPE_SCOPE }
    );
    assert!(BitVecT::standard(24, false).is_none());
    assert_eq!(
        BoolT.id().uuid(),
        Uuid::Name { name: 0x13374eaf1b4db8d4, scope: TYPE_SCOPE }
    );
    assert_eq!(BoolT.bits(), 8);
    assert_eq!(BoolT.bytes(), Some(1));
    assert_eq!(
        type_uuid(0xabc),
        Uuid::Name { name: 0xabc, scope: TYPE_SCOPE }
    );
}

#[test]
fn fresh_variables_take_distinct_names() {
    let t = BitVecT::standard(32, false).unwrap();
    let mut counter: u64 = 0;
    let a = Var::fresh(&mut counter, &t);
    let b = Var::fresh(&mut counter, &t);
    assert_eq!(a.value().name().as_str(), "v0");
    assert_eq!(b.value().name().as_str(), "v1");
    assert_eq!(counter, 2);
    assert!(a.value().is_transient());
    assert!(a.value().is_typed());
}

#[test]
fn physical_variables_carry_their_sort() {
    let t = BitVecT::standard(32, false).unwrap();
    let v = Var::physical(String::from("eax"), &t);
    assert!(v.value().is_physical());
    assert_eq!(v.value().bits(), Some(32));
    assert_eq!(v.value().generation(), 0);
    assert_eq!(v.value().type_id().unwrap().uuid(), t.id().uuid());
    assert!(v.value().region_id().is_none());
}

fn small_def(name: &str) -> Entity<Def> {
    let t = BitVecT::standard(32, false).unwrap();
    let v = Var::physical(String::from(name), &t).into_value();
    Def::assign(v, Expr::Val(BitVec::new(0, 32, false)))
}

#[test]
fn block_split_after_scenario() {
    let ent = Blk::new(None);
    let mut blk = ent.into_value();
    let d1 = small_def("a");
    let d2 = small_def("b");
    let d3 = small_def("c");
    let (d1_id, d2_id, d3_id) = (d1.id(), d2.id(), d3.id());
    let j1 = Jmp::ret(Loc::Fixed(delirium::address::Addr::from_u32(0)));
    let j1_id = j1.id();
    blk.add_def(d1);
    blk.add_def(d2);
    blk.add_def(d3);
    blk.add_jmp(j1);

    let child = blk.split_after(&d1_id);
    assert_eq!(blk.defs().len(), 1);
    assert_eq!(blk.defs()[0].id(), d1_id);
    assert_eq!(child.value().defs().len(), 2);
    assert_eq!(child.value().defs()[0].id(), d2_id);
    assert_eq!(child.value().defs()[1].id(), d3_id);
    assert_eq!(child.value().jmps().len(), 1);
    assert_eq!(child.value().jmps()[0].id(), j1_id);
    assert_eq!(blk.jmps().len(), 1);
    match blk.jmps()[0].value() {
        Jmp::Branch(Loc::Resolved(id)) => {
            assert_eq!(id.uuid(), child.id().uuid());
        },
        _ => panic!("parent must end in an unconditional branch to the child"),
    }
}

#[test]
fn block_split_before_and_missing() {
    let ent = Blk::new(None);
    let mut blk = ent.into_value();
    let d1 = small_def("a");
    let d2 = small_def("b");
    let d2_id = d2.id();
    blk.add_def(d1);
    blk.add_def(d2);

    let child = blk.split_before(&d2_id);
    assert_eq!(blk.defs().len(), 1);
    assert_eq!(child.value().defs().len(), 1);
    assert_eq!(child.value().defs()[0].id(), d2_id);

    // splitting on an unknown id slices off nothing
    let stray = small_def("x");
    let child2 = blk.split_after(&stray.id());
    assert_eq!(blk.defs().len(), 1);
    assert_eq!(child2.value().defs().len(), 0);
}

#[test]
fn block_split_top_and_bottom() {
    let ent = Blk::new(None);
    let mut blk = ent.into_value();
    let d1 = small_def("a");
    let d1_id = d1.id();
    blk.add_def(d1);

    let child = blk.split_bottom();
    assert_eq!(blk.defs().len(), 1);
    assert_eq!(blk.defs()[0].id(), d1_id);
    assert_eq!(child.value().defs().len(), 0);
    assert_eq!(blk.jmps().len(), 1);

    let ent2 = Blk::new(None);
    let mut blk2 = ent2.into_value();
    let d = small_def("z");
    let did = d.id();
    blk2.add_def(d);
    let child2 = blk2.split_top();
    assert_eq!(blk2.defs().len(), 0);
    assert_eq!(child2.value().defs().len(), 1);
    assert_eq!(child2.value().defs()[0].id(), did);
}

#[test]
fn loc_predicates() {
    let r = Loc::resolved(Id::new("blk"));
    assert!(r.is_resolved() && r.is_determined() && !r.is_computed());
    let f = Loc::Fixed(delirium::address::Addr::from_u32(4));
    assert!(f.is_fixed() && f.is_determined());
    let c = Loc::Computed(Expr::Val(BitVec::new(1, 8, false)));
    assert!(c.is_computed() && !c.is_determined());
}


#[test]
fn memory_variable_has_no_width() {
    let mem = Entity::new("mem", Mem::new(String::from("M")));
    let v = Var::memory(&mem);
    assert!(v.value().is_memory());
    assert!(!v.value().is_typed());
    assert!(!v.value().is_sized());
    assert!(v.value().bits().is_none());
    assert!(v.value().type_id().is_none());
    assert!(v.value().region_id().is_some());
    assert_eq!(v.value().name().as_str(), "M");
}


#[test]
fn sort_names_carry_widths() {
    let u32t = BitVecT::standard(32, false).unwrap();
    assert_eq!(u32t.name().as_str(), "u32");
    let i64t = BitVecT::standard(64, true).unwrap();
    assert_eq!(i64t.name().as_str(), "i64");
    let f80 = FloatT::standard(80).unwrap();
    assert_eq!(f80.name().as_str(), "f80");
    let p = PointerT::new(&u32t, 32, 0x1);
    assert_eq!(p.name().as_str(), "ptr32");
    assert_eq!(BoolT.name().as_str(), "bool");
}
