//! Region construction and bit-level reads and writes.

use delirium::address::Addr;
use delirium::bv::BitVec;
use delirium::mem::Mem;
use delirium::region::{Endian, Region, RegionIOError};

#[test]
fn region_read_le_scenario() {
    let ent = Region::new(
        String::from("rom"),
        Addr::from_u32(0x1000),
        Endian::Little,
        vec![0x01, 0x02, 0x03, 0x04],
    );
    let r = ent.value().read_bits(&Addr::from_u32(0x1000), 32).unwrap();
    assert_eq!(r.bits(), 32);
    assert_eq!(r.value_u128(), 0x04030201);
}

#[test]
fn region_read_be() {
    let ent = Region::new(
        String::from("rom"),
        Addr::from_u32(0x1000),
        Endian::Big,
        vec![0x01, 0x02, 0x03, 0x04],
    );
    let r = ent.value().read_bits(&Addr::from_u32(0x1000), 32).unwrap();
    assert_eq!(r.value_u128(), 0x01020304);
}

#[test]
fn region_unaligned_be_write_scenario() {
    let mut ent = Region::new(
        String::from("seg"),
        Addr::from_u32(0x2000),
        Endian::Big,
        vec![0xff, 0xff],
    );
    let v = BitVec::new(0b1010, 4, false);
    ent.value_mut().write_bits(&Addr::from_u32(0x2000), &v).unwrap();
    assert_eq!(ent.value().bytes(), &[0xaf, 0xff]);
}

#[test]
fn region_unaligned_le_write_preserves_high_bits() {
    let mut ent = Region::new(
        String::from("seg"),
        Addr::from_u32(0x2000),
        Endian::Little,
        vec![0xff, 0xff],
    );
    let v = BitVec::new(0b1010, 4, false);
    ent.value_mut().write_bits(&Addr::from_u32(0x2000), &v).unwrap();
    assert_eq!(ent.value().bytes(), &[0xfa, 0xff]);
}

#[test]
fn region_write_then_read_roundtrip() {
    for endian in [Endian::Little, Endian::Big] {
        let mut ent = Region::new(
            String::from("seg"),
            Addr::from_u32(0x3000),
            endian,
            vec![0x55; 8],
        );
        let v = BitVec::new(0xbeef, 16, false);
        let addr = Addr::from_u32(0x3002);
        ent.value_mut().write_bits(&addr, &v).unwrap();
        let back = ent.value().read_bits(&addr, 16).unwrap();
        assert_eq!(back.value_u128(), 0xbeef);
        assert_eq!(back.bits(), 16);

        let v4 = BitVec::new(0x9, 4, false);
        ent.value_mut().write_bits(&addr, &v4).unwrap();
        let back4 = ent.value().read_bits(&addr, 4).unwrap();
        assert_eq!(back4.value_u128(), 0x9);
    }
}

#[test]
fn region_partial_write_leaves_other_bytes() {
    let mut ent = Region::new(
        String::from("seg"),
        Addr::from_u32(0x4000),
        Endian::Little,
        vec![0x11, 0x22, 0x33, 0x44],
    );
    let v = BitVec::new(0xaa, 8, false);
    ent.value_mut().write_bits(&Addr::from_u32(0x4001), &v).unwrap();
    assert_eq!(ent.value().bytes(), &[0x11, 0xaa, 0x33, 0x44]);
}

#[test]
fn region_out_of_bounds_read_and_write() {
    let mut ent = Region::new(
        String::from("seg"),
        Addr::from_u32(0x1000),
        Endian::Little,
        vec![0x00, 0x01],
    );
    let r = ent.value().read_bits(&Addr::from_u32(0x1001), 16);
    assert!(matches!(r, Err(RegionIOError::OOBRead(_))));
    let r = ent.value().read_bits(&Addr::from_u32(0x0fff), 8);
    assert!(matches!(r, Err(RegionIOError::OOBRead(_))));
    let r = ent.value().read_bits(&Addr::from_u32(0x1000), 0);
    assert!(matches!(r, Err(RegionIOError::OOBRead(_))));
    let v = BitVec::new(0, 32, false);
    let r = ent.value_mut().write_bits(&Addr::from_u32(0x1000), &v);
    assert!(matches!(r, Err(RegionIOError::OOBWrite(_))));
    assert_eq!(ent.value().bytes(), &[0x00, 0x01]);
}

#[test]
fn region_views_and_accessors() {
    let ent = Region::new(
        String::from("text"),
        Addr::from_u32(0x1000),
        Endian::Little,
        vec![9, 8, 7, 6],
    );
    let rg = ent.value();
    assert_eq!(rg.len(), 4);
    assert_eq!(rg.address_size(), 32);
    assert!(rg.endian().is_little());
    assert_eq!(rg.name().as_str(), "text");
    assert!(rg.contains_range(&Addr::from_u32(0x1002), 2));
    assert!(!rg.contains_range(&Addr::from_u32(0x1002), 3));
    assert_eq!(rg.view_bytes(&Addr::from_u32(0x1001), 2).unwrap(), &[8, 7]);
    assert_eq!(rg.view_bytes_from(&Addr::from_u32(0x1002)).unwrap(), &[7, 6]);
    let iv = rg.interval();
    assert_eq!(iv.start.value_u128(), 0x1000);
    assert_eq!(iv.end.value_u128(), 0x1004);
}

#[test]
fn region_read_write_values() {
    let mut ent = Region::new(
        String::from("seg"),
        Addr::from_u32(0x1000),
        Endian::Little,
        vec![0; 8],
    );
    ent.value_mut()
        .write_value::<u32>(&Addr::from_u32(0x1000), &0xdeadbeef)
        .unwrap();
    let v: u32 = ent.value().read_value(&Addr::from_u32(0x1000)).unwrap();
    assert_eq!(v, 0xdeadbeef);
    assert_eq!(ent.value().bytes()[0], 0xef);
    let b: u8 = ent.value().read_value(&Addr::from_u32(0x1003)).unwrap();
    assert_eq!(b, 0xde);
}

#[test]
fn memory_map_finds_covering_region() {
    let mut mem = Mem::new(String::from("M"));
    mem.add_region(Region::new(
        String::from("low"),
        Addr::from_u32(0x1000),
        Endian::Little,
        vec![0; 16],
    ));
    mem.add_region(Region::new(
        String::from("high"),
        Addr::from_u32(0x2000),
        Endian::Little,
        vec![0; 16],
    ));
    let hit = mem.find_region(&Addr::from_u32(0x2008)).unwrap();
    assert_eq!(hit.value().name().as_str(), "high");
    assert!(mem.find_region(&Addr::from_u32(0x1800)).is_none());
    assert_eq!(mem.regions().len(), 2);
}


#[test]
fn region_value_access_other_widths() {
    let mut ent = Region::new(
        String::from("seg"),
        Addr::from_u32(0x1000),
        Endian::Big,
        vec![0; 8],
    );
    ent.value_mut()
        .write_value::<u16>(&Addr::from_u32(0x1000), &0xbeef)
        .unwrap();
    assert_eq!(ent.value().bytes()[0], 0xbe);
    assert_eq!(ent.value().bytes()[1], 0xef);
    let v: u16 = ent.value().read_value(&Addr::from_u32(0x1000)).unwrap();
    assert_eq!(v, 0xbeef);
    ent.value_mut()
        .write_value::<u64>(&Addr::from_u32(0x1000), &0x0102030405060708)
        .unwrap();
    let w: u64 = ent.value().read_value(&Addr::from_u32(0x1000)).unwrap();
    assert_eq!(w, 0x0102030405060708);
    assert!(ent.value().endian().is_big());
}
