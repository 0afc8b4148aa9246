use hfo2_fdt::boot::{BootParams, MemRange, MAX_CPUS, MAX_MEM_RANGES};
use hfo2_fdt::boundary::{
    fdt_find_cpus, fdt_find_initrd, fdt_find_memory_ranges, fdt_map, fdt_patch, fdt_unmap,
};
use hfo2_fdt::codec::{convert_number, write_number};
use hfo2_fdt::lifecycle;
use hfo2_fdt::lifecycle::{patch, unmap, BootParamsUpdate, ImageLayout};
use hfo2_fdt::mm::{Mode, PageTable, PAGE_SIZE};
use hfo2_fdt::tree::{FdtHeader, FdtNode, MemReservation, FDT_MAGIC};

fn be32(v: u32) -> Vec<u8> {
    v.to_be_bytes().to_vec()
}

fn be64(v: u64) -> Vec<u8> {
    v.to_be_bytes().to_vec()
}

fn cstr(s: &str) -> Vec<u8> {
    let mut v = s.as_bytes().to_vec();
    v.push(0);
    v
}

fn pairs64(p: &[(u64, u64)]) -> Vec<u8> {
    let mut v = Vec::new();
    for (a, s) in p {
        v.extend(be64(*a));
        v.extend(be64(*s));
    }
    v
}

/// The tree of a 383-byte blob: a root with two-cell addresses and sizes,
/// two memory nodes and a `chosen` node with an empty initrd.
fn test_dtb() -> FdtHeader {
    let mut f = FdtHeader::new(0x17f);
    assert!(f.add_node(1, ""));
    assert!(f.add_property("#address-cells", be32(2)));
    assert!(f.add_property("#size-cells", be32(2)));
    assert!(f.add_node(2, "memory@0"));
    assert!(f.add_property("device_type", cstr("memory")));
    assert!(f.add_property(
        "reg",
        pairs64(&[(0x0000_0000, 0x2000_0000), (0x3000_0000, 0x0001_0000)])
    ));
    assert!(f.add_node(2, "memory@1"));
    assert!(f.add_property("device_type", cstr("memory")));
    assert!(f.add_property("reg", pairs64(&[(0x3002_0000, 0x0001_0000)])));
    assert!(f.add_node(2, "chosen"));
    assert!(f.add_property("linux,initrd-start", be32(0)));
    assert!(f.add_property("linux,initrd-end", be32(0)));
    f
}

const TEST_ADDR: u64 = 0x8000_0000;

fn pages_of(t: &PageTable, begin: u64, end: u64) -> Vec<Option<Mode>> {
    (begin / PAGE_SIZE..=(end - 1) / PAGE_SIZE).map(|p| t.lookup(p)).collect()
}

fn cpu_tree(cells: u32, cpus: &[&[u32]]) -> FdtHeader {
    let mut f = FdtHeader::new(0x1000);
    assert!(f.add_node(1, ""));
    assert!(f.add_node(2, "cpus"));
    assert!(f.add_property("#address-cells", be32(cells)));
    for (i, regs) in cpus.iter().enumerate() {
        assert!(f.add_node(3, &format!("cpu@{}", i)));
        assert!(f.add_property("device_type", cstr("cpu")));
        let mut reg = Vec::new();
        for r in regs.iter() {
            if cells == 2 {
                reg.extend(be64(*r as u64));
            } else {
                reg.extend(be32(*r));
            }
        }
        assert!(f.add_property("reg", reg));
    }
    f
}

fn root_cursor(f: &FdtHeader) -> FdtNode<'_> {
    let mut n = FdtNode::new_root(f).unwrap();
    assert!(n.find_child("").is_some());
    n
}

#[test]
fn find_memory_ranges() {
    let fdt = test_dtb();
    let mut ptable = PageTable::new(10);
    let mut n = lifecycle::map(&mut ptable, TEST_ADDR, &fdt).unwrap();

    assert!(n.find_child("").is_some());

    let mut params = BootParams::new();

    n.find_memory_ranges(&mut params);

    assert!(unmap(&mut ptable, TEST_ADDR, &fdt).is_ok());

    assert_eq!(params.mem_ranges_count, 3);
    assert_eq!(params.mem_ranges[0].begin, 0x0000_0000);
    assert_eq!(params.mem_ranges[0].end, 0x2000_0000);
    assert_eq!(params.mem_ranges[1].begin, 0x3000_0000);
    assert_eq!(params.mem_ranges[1].end, 0x3001_0000);
    assert_eq!(params.mem_ranges[2].begin, 0x3002_0000);
    assert_eq!(params.mem_ranges[2].end, 0x3003_0000);
}

#[test]
fn convert_number_widths() {
    assert_eq!(convert_number(&[0x12, 0x34, 0x56, 0x78]), Some(0x1234_5678));
    assert_eq!(
        convert_number(&[1, 2, 3, 4, 5, 6, 7, 8]),
        Some(0x0102_0304_0506_0708)
    );
    assert_eq!(convert_number(&[1, 2, 3]), None);
    assert_eq!(convert_number(&[]), None);
    assert_eq!(convert_number(&[0; 12]), None);
}

#[test]
fn write_number_round_trip() {
    let mut four = vec![0xde, 0xad, 0xbe, 0xef];
    let decoded = convert_number(&four).unwrap();
    assert!(write_number(&mut four, decoded).is_ok());
    assert_eq!(four, vec![0xde, 0xad, 0xbe, 0xef]);

    let mut eight = vec![0u8; 8];
    assert!(write_number(&mut eight, 0x0102_0304_0506_0708).is_ok());
    assert_eq!(eight, vec![1, 2, 3, 4, 5, 6, 7, 8]);
    assert_eq!(convert_number(&eight), Some(0x0102_0304_0506_0708));

    let mut truncated = vec![0u8; 4];
    assert!(write_number(&mut truncated, 0x1_2345_6789).is_ok());
    assert_eq!(truncated, vec![0x23, 0x45, 0x67, 0x89]);

    let mut odd = vec![9u8; 5];
    assert!(write_number(&mut odd, 7).is_err());
    assert_eq!(odd, vec![9u8; 5]);
}

#[test]
fn find_initrd_reads_chosen() {
    let mut f = FdtHeader::new(0x200);
    assert!(f.add_node(1, ""));
    assert!(f.add_node(2, "chosen"));
    assert!(f.add_property("linux,initrd-start", be32(0x4000_0000)));
    assert!(f.add_property("linux,initrd-end", be64(0x4010_0000)));
    let mut n = root_cursor(&f);
    assert_eq!(n.find_initrd(), Some((0x4000_0000, 0x4010_0000)));
    assert_eq!(n.pos, 2);
}

#[test]
fn find_initrd_missing() {
    let mut f = FdtHeader::new(0x200);
    assert!(f.add_node(1, ""));
    let mut n = root_cursor(&f);
    assert_eq!(n.find_initrd(), None);

    let mut g = FdtHeader::new(0x200);
    assert!(g.add_node(1, ""));
    assert!(g.add_node(2, "chosen"));
    assert!(g.add_property("linux,initrd-start", be32(1)));
    assert!(g.add_property("linux,initrd-end", vec![0, 1, 2]));
    let mut m = root_cursor(&g);
    assert_eq!(m.find_initrd(), None);
}

#[test]
fn find_cpus_in_order() {
    let f = cpu_tree(1, &[&[0x0], &[0x100, 0x101]]);
    let n = root_cursor(&f);
    let mut ids = vec![0u64; MAX_CPUS];
    assert_eq!(n.find_cpus(&mut ids), Some(3));
    assert_eq!(&ids[..3], &[0x0, 0x100, 0x101]);

    let g = cpu_tree(2, &[&[0x7, 0x8]]);
    let m = root_cursor(&g);
    let mut ids2 = vec![0u64; MAX_CPUS];
    assert_eq!(m.find_cpus(&mut ids2), Some(2));
    assert_eq!(&ids2[..2], &[0x7, 0x8]);
}

#[test]
fn find_cpus_skips_other_nodes() {
    let mut f = FdtHeader::new(0x1000);
    assert!(f.add_node(1, ""));
    assert!(f.add_node(2, "cpus"));
    assert!(f.add_node(3, "cpu@0"));
    assert!(f.add_property("device_type", cstr("cpu")));
    assert!(f.add_node(3, "cpu-map"));
    assert!(f.add_property("reg", be32(0x55)));
    assert!(f.add_node(3, "cpu@1"));
    assert!(f.add_property("device_type", cstr("cpu")));
    assert!(f.add_property("reg", be32(0x1)));
    let n = root_cursor(&f);
    let mut ids = vec![0u64; MAX_CPUS];
    assert_eq!(n.find_cpus(&mut ids), Some(1));
    assert_eq!(ids[0], 0x1);
}

#[test]
fn find_cpus_over_capacity() {
    let regs: Vec<u32> = (0..(MAX_CPUS as u32 + 1)).collect();
    let f = cpu_tree(1, &[&regs]);
    let n = root_cursor(&f);
    let mut ids = vec![0u64; MAX_CPUS];
    assert_eq!(n.find_cpus(&mut ids), None);

    let exact: Vec<u32> = (0..MAX_CPUS as u32).collect();
    let g = cpu_tree(1, &[&exact]);
    let m = root_cursor(&g);
    let mut ids2 = vec![0u64; MAX_CPUS];
    assert_eq!(m.find_cpus(&mut ids2), Some(MAX_CPUS));
    assert_eq!(ids2[MAX_CPUS - 1], MAX_CPUS as u64 - 1);
}

#[test]
fn find_cpus_without_cpus_node() {
    let mut f = FdtHeader::new(0x1000);
    assert!(f.add_node(1, ""));
    let n = root_cursor(&f);
    let mut ids = vec![0u64; MAX_CPUS];
    assert_eq!(n.find_cpus(&mut ids), None);
}

#[test]
fn memory_ranges_capacity_clamp() {
    let mut f = FdtHeader::new(0x1000);
    assert!(f.add_node(1, ""));
    assert!(f.add_node(2, "memory@0"));
    assert!(f.add_property("device_type", cstr("memory")));
    let mut reg = Vec::new();
    for i in 0..(MAX_MEM_RANGES as u32 + 5) {
        reg.extend(be32(i * 0x1000));
        reg.extend(be32(0x100));
    }
    assert!(f.add_property("reg", reg));
    let n = root_cursor(&f);
    let mut params = BootParams::new();
    assert!(n.find_memory_ranges(&mut params).is_some());
    assert_eq!(params.mem_ranges_count, MAX_MEM_RANGES);
    for i in 0..MAX_MEM_RANGES {
        let b = i as u64 * 0x1000;
        assert_eq!(params.mem_ranges[i], MemRange::new(b, b + 0x100));
    }
}

#[test]
fn memory_ranges_mixed_widths() {
    let mut f = FdtHeader::new(0x1000);
    assert!(f.add_node(1, ""));
    assert!(f.add_property("#address-cells", be32(2)));
    assert!(f.add_node(2, "memory"));
    assert!(f.add_property("device_type", cstr("memory")));
    let mut reg = be64(0x1_0000_0000);
    reg.extend(be32(0x2000));
    reg.extend(vec![0xff, 0xff]);
    assert!(f.add_property("reg", reg));
    let n = root_cursor(&f);
    let mut params = BootParams::new();
    assert!(n.find_memory_ranges(&mut params).is_some());
    assert_eq!(params.mem_ranges_count, 1);
    assert_eq!(params.mem_ranges[0], MemRange::new(0x1_0000_0000, 0x1_0000_2000));
}

#[test]
fn memory_ranges_no_children() {
    let mut f = FdtHeader::new(0x1000);
    assert!(f.add_node(1, ""));
    let n = root_cursor(&f);
    let mut params = BootParams::new();
    params.mem_ranges_count = 7;
    assert!(n.find_memory_ranges(&mut params).is_none());
    assert_eq!(params.mem_ranges_count, 7);
}

#[test]
fn map_then_unmap_restores() {
    let fdt = test_dtb();
    let mut ptable = PageTable::new(16);
    assert!(ptable.identity_map(0x1000, 0x3000, Mode::ReadWrite).is_ok());
    let before = pages_of(&ptable, 0x0, TEST_ADDR + 0x3000);
    let n = lifecycle::map(&mut ptable, TEST_ADDR, &fdt);
    assert!(n.is_some());
    assert_eq!(ptable.lookup(TEST_ADDR / PAGE_SIZE), Some(Mode::Read));
    assert!(unmap(&mut ptable, TEST_ADDR, &fdt).is_ok());
    assert_eq!(pages_of(&ptable, 0x0, TEST_ADDR + 0x3000), before);
    assert_eq!(ptable.lookup(TEST_ADDR / PAGE_SIZE), None);
}

#[test]
fn map_rejects_bad_magic() {
    let mut fdt = test_dtb();
    fdt.magic = 0x1234_5678;
    let mut ptable = PageTable::new(16);
    assert!(lifecycle::map(&mut ptable, TEST_ADDR, &fdt).is_none());
    assert_eq!(ptable.lookup(TEST_ADDR / PAGE_SIZE), None);
}

#[test]
fn map_fails_when_full_blob_does_not_fit() {
    let mut fdt = test_dtb();
    fdt.total_size = 3 * PAGE_SIZE as u32;
    let mut ptable = PageTable::new(1);
    assert!(lifecycle::map(&mut ptable, TEST_ADDR, &fdt).is_none());
    assert_eq!(pages_of(&ptable, TEST_ADDR, TEST_ADDR + 3 * PAGE_SIZE), vec![None; 3]);
}

fn layout() -> ImageLayout {
    ImageLayout {
        text: MemRange::new(0x9000_0000, 0x9010_0000),
        rodata: MemRange::new(0x9010_0000, 0x9018_0000),
        data: MemRange::new(0x9018_0000, 0x9020_0000),
    }
}

fn update() -> BootParamsUpdate {
    BootParamsUpdate {
        reserved_ranges: vec![
            MemRange::new(0xa000_0000, 0xa100_0000),
            MemRange::new(0xb000_0000, 0xb000_1000),
            MemRange::new(0xc000_0000, 0xc000_2000),
        ],
        reserved_ranges_count: 2,
        initrd_begin: 0x4800_0000,
        initrd_end: 0x4880_0000,
    }
}

fn no_blob_pages(t: &PageTable, total: u64) -> bool {
    pages_of(t, TEST_ADDR, TEST_ADDR + total + PAGE_SIZE)
        .iter()
        .all(|m| m.is_none())
}

#[test]
fn patch_rewrites_initrd_and_reserves() {
    let mut fdt = test_dtb();
    let mut ptable = PageTable::new(16);
    assert!(patch(&mut ptable, TEST_ADDR, &mut fdt, &update(), &layout()).is_ok());
    assert!(no_blob_pages(&ptable, 0x17f + 5 * 16));

    let mut n = root_cursor(&fdt);
    assert_eq!(n.find_initrd(), Some((0x4800_0000, 0x4880_0000)));
    assert_eq!(
        fdt.reservations,
        vec![
            MemReservation { address: 0x9000_0000, size: 0x10_0000 },
            MemReservation { address: 0x9010_0000, size: 0x8_0000 },
            MemReservation { address: 0x9018_0000, size: 0x8_0000 },
            MemReservation { address: 0xa000_0000, size: 0x100_0000 },
            MemReservation { address: 0xb000_0000, size: 0x1000 },
            MemReservation { address: 0, size: 0 },
        ]
    );
    assert_eq!(fdt.total_size, 0x17f + 5 * 16);
}

#[test]
fn patch_bad_magic_leaves_nothing_mapped() {
    let mut fdt = test_dtb();
    fdt.magic = FDT_MAGIC ^ 1;
    let mut ptable = PageTable::new(16);
    assert!(patch(&mut ptable, TEST_ADDR, &mut fdt, &update(), &layout()).is_err());
    assert!(no_blob_pages(&ptable, 0x17f));
    assert_eq!(fdt.reservations.len(), 1);
}

#[test]
fn patch_missing_chosen_leaves_nothing_mapped() {
    let mut fdt = FdtHeader::new(0x17f);
    assert!(fdt.add_node(1, ""));
    assert!(fdt.add_node(2, "memory@0"));
    let mut ptable = PageTable::new(16);
    assert!(patch(&mut ptable, TEST_ADDR, &mut fdt, &update(), &layout()).is_err());
    assert!(no_blob_pages(&ptable, 0x17f));
    assert_eq!(fdt.reservations.len(), 1);
}

#[test]
fn patch_extension_failure_leaves_nothing_mapped() {
    let mut fdt = test_dtb();
    let mut ptable = PageTable::new(1);
    assert!(patch(&mut ptable, TEST_ADDR, &mut fdt, &update(), &layout()).is_err());
    assert!(no_blob_pages(&ptable, 0x17f));
    let mut n = root_cursor(&fdt);
    assert_eq!(n.find_initrd(), Some((0, 0)));
}

#[test]
fn patch_header_failure_changes_nothing() {
    let mut fdt = test_dtb();
    let mut ptable = PageTable::new(1);
    assert!(ptable.identity_map(0, 1, Mode::Read).is_ok());
    assert!(patch(&mut ptable, TEST_ADDR, &mut fdt, &update(), &layout()).is_err());
    assert_eq!(ptable.lookup(0), Some(Mode::Read));
    assert!(no_blob_pages(&ptable, 0x17f));
}

#[test]
fn patch_truncates_to_cell_width() {
    let mut fdt = test_dtb();
    let mut ptable = PageTable::new(16);
    let mut up = update();
    up.initrd_begin = 0x1_0000_0010;
    assert!(patch(&mut ptable, TEST_ADDR, &mut fdt, &up, &layout()).is_ok());
    let mut n = root_cursor(&fdt);
    assert_eq!(n.find_initrd(), Some((0x10, 0x4880_0000)));
}

#[test]
fn boundary_cpu_count_is_zero_when_over_capacity() {
    let regs: Vec<u32> = (0..(MAX_CPUS as u32 + 3)).collect();
    let f = cpu_tree(1, &[&regs]);
    let n = root_cursor(&f);
    let mut ids = vec![0u64; MAX_CPUS];
    assert_eq!(fdt_find_cpus(&n, &mut ids), 0);

    let g = cpu_tree(1, &[&[4, 5]]);
    let m = root_cursor(&g);
    let mut ids2 = vec![0u64; MAX_CPUS];
    assert_eq!(fdt_find_cpus(&m, &mut ids2), 2);
    assert_eq!(&ids2[..2], &[4, 5]);
}

#[test]
fn boundary_initrd_keeps_cursor_on_failure() {
    let mut g = FdtHeader::new(0x200);
    assert!(g.add_node(1, ""));
    assert!(g.add_node(2, "chosen"));
    assert!(g.add_property("linux,initrd-start", be32(1)));
    let mut m = root_cursor(&g);
    assert_eq!(fdt_find_initrd(&mut m), None);
    assert_eq!(m.pos, 1);

    let fdt = test_dtb();
    let mut n = root_cursor(&fdt);
    assert_eq!(fdt_find_initrd(&mut n), Some((0, 0)));
    assert_eq!(n.pos, 4);
}

#[test]
fn boundary_map_patch_unmap() {
    let mut fdt = test_dtb();
    let mut ptable = PageTable::new(16);
    {
        let mut n = fdt_map(&mut ptable, TEST_ADDR, &fdt).unwrap();
        assert!(n.find_child("").is_some());
        let mut params = BootParams::new();
        fdt_find_memory_ranges(&n, &mut params);
        assert_eq!(params.mem_ranges_count, 3);
    }
    assert!(fdt_unmap(&mut ptable, TEST_ADDR, &fdt));
    assert!(no_blob_pages(&ptable, 0x17f));
    assert!(fdt_patch(&mut ptable, TEST_ADDR, &mut fdt, &update(), &layout()));
    assert!(!fdt_unmap(&mut ptable, u64::MAX - 10, &fdt));
}

#[test]
fn find_cpus_leaves_list_alone_without_cpus_node() {
    let fdt = test_dtb();
    let n = root_cursor(&fdt);
    let mut ids = vec![7u64; MAX_CPUS];
    assert_eq!(n.find_cpus(&mut ids), None);
    assert_eq!(ids, vec![7u64; MAX_CPUS]);

    let g = cpu_tree(1, &[&[3]]);
    let m = root_cursor(&g);
    let mut ids2 = vec![9u64; MAX_CPUS];
    assert_eq!(m.find_cpus(&mut ids2), Some(1));
    assert_eq!(ids2[0], 3);
    assert!(ids2[1..].iter().all(|x| *x == 9));
}

#[test]
fn memory_ranges_leave_tail_alone() {
    let fdt = test_dtb();
    let n = root_cursor(&fdt);
    let mut params = BootParams::new();
    params.mem_ranges[3] = MemRange::new(5, 6);
    params.cpu_count = 2;
    assert!(n.find_memory_ranges(&mut params).is_some());
    assert_eq!(params.mem_ranges_count, 3);
    assert_eq!(params.mem_ranges[3], MemRange::new(5, 6));
    assert_eq!(params.cpu_count, 2);
}

#[test]
fn patch_failures_keep_other_mappings() {
    let mut ptable = PageTable::new(16);
    assert!(ptable.identity_map(0x1000, 0x3000, Mode::ReadWrite).is_ok());
    let before = pages_of(&ptable, 0x0, 0x4000);

    let mut bad = test_dtb();
    bad.magic = 0;
    assert!(patch(&mut ptable, TEST_ADDR, &mut bad, &update(), &layout()).is_err());
    assert_eq!(pages_of(&ptable, 0x0, 0x4000), before);

    let mut fdt = test_dtb();
    assert!(patch(&mut ptable, TEST_ADDR, &mut fdt, &update(), &layout()).is_ok());
    assert_eq!(pages_of(&ptable, 0x0, 0x4000), before);
    assert!(no_blob_pages(&ptable, 0x17f + 5 * 16));
}
