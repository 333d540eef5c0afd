use lib::memory::{HBMSimulator, LXScratchpad, SpyreMemoryHierarchy, STICK_BYTES};

#[test]
fn allocate_is_stick_aligned() {
    let mut hbm = HBMSimulator::default();
    let s0 = hbm.allocate(100); // 100 bytes -> rounds to 128
    let s1 = hbm.allocate(10);
    assert_eq!(s0, 0x10000 / STICK_BYTES);
    assert_eq!(hbm.next_ptr % STICK_BYTES, 0);
    assert_eq!(s1 - s0, 1); // next stick
}

#[test]
fn write_then_read_roundtrips_with_zero_pad() {
    let mut lx = LXScratchpad::new(0, 2);
    lx.write_bytes(64, &[1, 2, 3, 4]);
    assert_eq!(lx.read_bytes(64, 4), vec![1, 2, 3, 4]);
    // reading past the end zero-pads
    assert_eq!(lx.read_bytes(64, 6), vec![1, 2, 3, 4, 0, 0]);
    // unmapped reads are all zero
    assert_eq!(lx.read_bytes(4096, 3), vec![0, 0, 0]);
}

#[test]
fn hierarchy_shares_hbm_routes_lx() {
    let mut mem = SpyreMemoryHierarchy::new(4);
    assert_eq!(mem.num_cores, 4);
    mem.get_lx_mut(2).write_bytes(0, &[9]);
    assert_eq!(mem.get_lx(2).read_bytes(0, 1), vec![9]);
    assert_eq!(mem.get_lx(0).read_bytes(0, 1), vec![0]); // independent
}

#[test]
fn write_inside_allocation_overwrites_in_place() {
    let mut lx = LXScratchpad::new(1, 1);
    assert_eq!(lx.capacity, 1024 * 1024);
    lx.write_bytes(100, &[1, 2, 3, 4, 5]);
    lx.write_bytes(102, &[9, 9]);
    assert_eq!(lx.read_bytes(100, 5), vec![1, 2, 9, 9, 5]);
    // growing past the end extends the allocation
    lx.write_bytes(104, &[7, 8]);
    assert_eq!(lx.read_bytes(100, 7), vec![1, 2, 9, 9, 7, 8, 0]);
    lx.clear();
    assert_eq!(lx.read_bytes(100, 2), vec![0, 0]);
    assert_eq!(lx.used, 0);
    assert_eq!(lx.next_ptr, 0);
}

#[test]
fn hbm_read_and_write_by_byte_address() {
    let mut hbm = HBMSimulator::new(1);
    assert_eq!(hbm.size_bytes, 1 << 30);
    let stick = hbm.allocate(256);
    let addr = stick * STICK_BYTES;
    hbm.write_bytes(addr, &[5, 6, 7]);
    assert_eq!(hbm.read_bytes(addr, 4), vec![5, 6, 7, 0]);
    assert_eq!(hbm.next_ptr, 0x10000 + 256);
}

#[test]
fn a_write_leaves_other_bytes_alone() {
    let mut hbm = HBMSimulator::default();
    hbm.write_bytes(0x10000, &[1, 2, 3, 4, 5, 6]);
    hbm.write_bytes(0x20000, &[7, 7]);
    hbm.write_bytes(0x10002, &[9]);
    assert_eq!(hbm.read_bytes(0x10000, 2), vec![1, 2]);
    assert_eq!(hbm.read_bytes(0x10003, 3), vec![4, 5, 6]);
    assert_eq!(hbm.read_bytes(0x20000, 2), vec![7, 7]);
    assert_eq!(hbm.read_bytes(0x10002, 1), vec![9]);
}

#[test]
fn tables_built_by_the_simulators_are_well_formed() {
    let mut hbm = HBMSimulator::new(1);
    assert!(hbm.is_well_formed());
    hbm.write_bytes(0x10000, &[1, 2, 3]);
    hbm.write_bytes(0x20000, &[4]);
    assert!(hbm.is_well_formed());
    let mut lx = LXScratchpad::new(0, 2);
    lx.write_bytes(64, &[7, 8]);
    assert!(lx.is_well_formed());
    assert_eq!(lx.read_bytes(64, 3), vec![7, 8, 0]);
    lx.write_bytes(0, &[5]);
    assert_eq!(lx.read_bytes(64, 2), vec![7, 8]);
}
