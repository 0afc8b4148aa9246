//! Mapping a blob for inspection, unmapping it, and patching it for a guest,
//! with every exit path leaving the address space consistent.
use vstd::prelude::*;

use crate::boot::{initrd_at, MemRange};
use crate::codec::{be_bytes, is_cell_width, lemma_value_of_bytes, pow256};
use crate::mm::{
    fits_in, in_range, lemma_range_grows, lemma_unmap_covers, lemma_unmap_mapped,
    lemma_unmap_untouched, mapped, unmapped, unmapped_range,
    Mode, PageTable, PAGE_SIZE,
};
use crate::tree::{
    child_named, reservations_wf, lemma_scan_child_found, lemma_scan_child_outline, lemma_set_prop_other,
    lemma_set_prop_reads, same_outline, node_prop, prop_index, reserved, set_prop, FdtHeader,
    FdtNode, MemReservation, NodeView, FDT_HEADER_SIZE,
};

verus! {

/// End of the header of a blob at `addr`.
pub open spec fn header_end(addr: u64) -> int {
    addr + FDT_HEADER_SIZE
}

/// What patching writes into a blob: the new initrd range and the ranges to
/// reserve for other VMs (the first `reserved_ranges_count` of the list).
pub struct BootParamsUpdate {
    pub reserved_ranges: Vec<MemRange>,
    pub reserved_ranges_count: usize,
    pub initrd_begin: u64,
    pub initrd_end: u64,
}

/// Physical ranges of the hypervisor's own image.
#[derive(Clone, Copy, PartialEq, Eq, Structural, Debug)]
pub struct ImageLayout {
    pub text: MemRange,
    pub rodata: MemRange,
    pub data: MemRange,
}

/// The reservation entry for `r`: its base and its length.
pub open spec fn reservation_of(r: MemRange) -> MemReservation {
    MemReservation { address: r.begin, size: r.end.wrapping_sub(r.begin) }
}

/// Reservations for the hypervisor's text, read-only data and data.
pub open spec fn image_reservations(l: ImageLayout) -> Seq<MemReservation> {
    seq![reservation_of(l.text), reservation_of(l.rodata), reservation_of(l.data)]
}

/// Reservations for the ranges an update lists.
pub open spec fn update_reservations(p: &BootParamsUpdate) -> Seq<MemReservation> {
    p.reserved_ranges@.take(p.reserved_ranges_count as int).map_values(
        |r: MemRange| reservation_of(r),
    )
}

/// End of the writable window over a blob of `total` bytes at `addr`: the
/// blob and one page of room for growth.
pub open spec fn window_end(addr: u64, total: u32) -> int {
    addr + total + PAGE_SIZE
}

/// Position of the `chosen` node under the root of `t`.
pub open spec fn chosen_of(t: Seq<NodeView>) -> Option<int> {
    match child_named(t, 0, ""@) {
        Some(root) => child_named(t, root, "chosen"@),
        None => None,
    }
}

/// Property `name` of the `chosen` node holds a cell value.
pub open spec fn has_cell(t: Seq<NodeView>, c: int, name: Seq<char>) -> bool {
    node_prop(t, c, name) matches Some(v) && is_cell_width(v.len())
}

/// `t` with the initrd start written into `chosen` at the width its
/// property has.
pub open spec fn with_initrd_start(t: Seq<NodeView>, c: int, b: u64) -> Seq<NodeView> {
    let ks = prop_index(t[c].props, "linux,initrd-start"@)->0;
    let ws = node_prop(t, c, "linux,initrd-start"@)->0.len();
    set_prop(t, c, ks, be_bytes(b as nat, ws))
}

/// `t` with the initrd range written into `chosen`, each bound at the
/// width its property has.
pub open spec fn with_initrd(t: Seq<NodeView>, c: int, b: u64, e: u64) -> Seq<NodeView> {
    let t1 = with_initrd_start(t, c, b);
    let ke = prop_index(t1[c].props, "linux,initrd-end"@)->0;
    let we = node_prop(t1, c, "linux,initrd-end"@)->0.len();
    set_prop(t1, c, ke, be_bytes(e as nat, we))
}

/// The header of a blob at `addr` can be mapped on top of `m`.
pub open spec fn header_ok(m: Map<u64, Mode>, limit: nat, addr: u64) -> bool {
    header_end(addr) <= u64::MAX && fits_in(m, limit, addr as int, header_end(addr))
}

/// `m` with the header of a blob at `addr` mapped read-only.
pub open spec fn with_header(m: Map<u64, Mode>, addr: u64) -> Map<u64, Mode> {
    mapped(m, addr as int, header_end(addr), Mode::Read)
}

/// Mapping the blob `fdt` at `addr` for inspection succeeds: the header
/// maps, the blob is valid, and the whole blob maps.
pub open spec fn map_ok(m: Map<u64, Mode>, limit: nat, addr: u64, fdt: &FdtHeader) -> bool {
    &&& header_ok(m, limit, addr)
    &&& fdt.wf()
    &&& addr + fdt.total_size <= u64::MAX
    &&& fits_in(with_header(m, addr), limit, addr as int, addr + fdt.total_size)
}

/// The address space after mapping `fdt` at `addr` for inspection: the
/// whole blob mapped read-only on success; on failure what was there, less
/// the header when it had been mapped.
pub open spec fn map_space(m: Map<u64, Mode>, limit: nat, addr: u64, fdt: &FdtHeader) -> Map<
    u64,
    Mode,
> {
    if map_ok(m, limit, addr, fdt) {
        mapped(with_header(m, addr), addr as int, addr + fdt.total_size, Mode::Read)
    } else if header_ok(m, limit, addr) {
        unmapped(m, addr as int, header_end(addr))
    } else {
        m
    }
}

/// Maps the blob at `fdt_addr` read-only and returns a cursor at its document
/// level. On failure nothing of the blob stays mapped: the header is unmapped
/// again when it was mapped.
pub fn map<'a>(stage1_ptable: &mut PageTable, fdt_addr: u64, fdt: &'a FdtHeader) -> (r: Option<
    FdtNode<'a>,
>)
    ensures
        final(stage1_ptable).limit() == old(stage1_ptable).limit(),
        r is Some <==> map_ok(old(stage1_ptable)@, old(stage1_ptable).limit(), fdt_addr, fdt),
        r matches Some(n) ==> n.fdt == fdt && n.pos == 0 && n.wf(),
        final(stage1_ptable)@ == map_space(
            old(stage1_ptable)@,
            old(stage1_ptable).limit(),
            fdt_addr,
            fdt,
        ),
{
    if fdt_addr > u64::MAX - FDT_HEADER_SIZE {
        return None;
    }
    let hdr_end = fdt_addr + FDT_HEADER_SIZE;
    if stage1_ptable.identity_map(fdt_addr, hdr_end, Mode::Read).is_err() {
        return None;
    }
    let ghost m1 = stage1_ptable@;
    let node = match FdtNode::new_root(fdt) {
        Some(n) => n,
        None => {
            let _ = stage1_ptable.unmap(fdt_addr, hdr_end);
            proof {
                lemma_unmap_mapped(old(stage1_ptable)@, fdt_addr as int, hdr_end as int, Mode::Read);
            }
            return None;
        },
    };
    let total = fdt.total_size as u64;
    if fdt_addr > u64::MAX - total || stage1_ptable.identity_map(
        fdt_addr,
        fdt_addr + total,
        Mode::Read,
    ).is_err() {
        let _ = stage1_ptable.unmap(fdt_addr, hdr_end);
        proof {
            lemma_unmap_mapped(old(stage1_ptable)@, fdt_addr as int, hdr_end as int, Mode::Read);
        }
        return None;
    }
    Some(node)
}

/// Unmaps the whole blob at `fdt_addr`; fails, changing nothing, only when
/// its end lies beyond the address space.
pub fn unmap(stage1_ptable: &mut PageTable, fdt_addr: u64, fdt: &FdtHeader) -> (r: Result<(), ()>)
    ensures
        final(stage1_ptable).limit() == old(stage1_ptable).limit(),
        r is Ok <==> fdt_addr + fdt.total_size <= u64::MAX,
        r is Ok ==> final(stage1_ptable)@ == unmapped(
            old(stage1_ptable)@,
            fdt_addr as int,
            fdt_addr + fdt.total_size,
        ),
        r is Err ==> final(stage1_ptable)@ == old(stage1_ptable)@,
{
    let total = fdt.total_size as u64;
    if fdt_addr > u64::MAX - total {
        return Err(());
    }
    stage1_ptable.unmap(fdt_addr, fdt_addr + total)
}

/// Mapping a blob that nothing mapped before for inspection, successfully,
/// and unmapping it again leaves the address space as it was.
pub proof fn lemma_map_then_unmap(m: Map<u64, Mode>, limit: nat, fdt_addr: u64, fdt: &FdtHeader)
    requires
        map_ok(m, limit, fdt_addr, fdt),
        unmapped_range(m, fdt_addr as int, fdt_addr + fdt.total_size),
    ensures
        unmapped(map_space(m, limit, fdt_addr, fdt), fdt_addr as int, fdt_addr + fdt.total_size)
            == m,
{
    let end = fdt_addr + fdt.total_size;
    let m1 = with_header(m, fdt_addr);
    let m2 = mapped(m1, fdt_addr as int, end, Mode::Read);
    let m3 = unmapped(m2, fdt_addr as int, end);
    assert forall|p: u64| #[trigger] m3.contains_key(p) == m.contains_key(p) by {
        if in_range(p, fdt_addr as int, header_end(fdt_addr)) {
            lemma_range_grows(p, fdt_addr as int, header_end(fdt_addr), end);
        }
    }
    assert(m3 =~= m);
}

/// The header maps, the blob is valid, and the blob with one page of room
/// maps writable.
pub open spec fn writable_ok(m: Map<u64, Mode>, limit: nat, addr: u64, fdt: &FdtHeader) -> bool {
    &&& header_ok(m, limit, addr)
    &&& fdt.wf()
    &&& window_end(addr, fdt.total_size) <= u64::MAX
    &&& fits_in(with_header(m, addr), limit, addr as int, window_end(addr, fdt.total_size))
}

/// Patching `fdt` at `addr` succeeds: it maps writable, has a `chosen` node
/// under its root, and that node holds both initrd bounds as cell values.
pub open spec fn patch_ok(m: Map<u64, Mode>, limit: nat, addr: u64, fdt: &FdtHeader) -> bool {
    let t = fdt.tree();
    &&& writable_ok(m, limit, addr, fdt)
    &&& chosen_of(t) is Some
    &&& has_cell(t, chosen_of(t)->0, "linux,initrd-start"@)
    &&& has_cell(t, chosen_of(t)->0, "linux,initrd-end"@)
}

/// End of the region unmapped after a successful patch: the blob at its
/// grown size and one page, clipped to the address space.
pub open spec fn grown_window_end(addr: u64, total: u32) -> int {
    if window_end(addr, total) <= u64::MAX {
        window_end(addr, total)
    } else {
        u64::MAX as int
    }
}

/// The address space after patching the blob `f` at `addr` on top of `m`,
/// where `grown` is the blob's size after a successful patch. Each failure
/// undoes the mappings made so far; success unmaps the writable window.
pub open spec fn patch_space(m: Map<u64, Mode>, limit: nat, addr: u64, f: FdtHeader, grown: u32) -> Map<
    u64,
    Mode,
> {
    if !header_ok(m, limit, addr) {
        m
    } else if !writable_ok(m, limit, addr, &f) {
        unmapped(m, addr as int, header_end(addr))
    } else if !patch_ok(m, limit, addr, &f) {
        unmapped(m, addr as int, window_end(addr, f.total_size))
    } else {
        unmapped(m, addr as int, grown_window_end(addr, grown))
    }
}

/// The tree after a failed patch: unchanged, except when only the write of
/// the initrd end failed, in which case the start is already written.
pub open spec fn failed_patch_tree(m: Map<u64, Mode>, limit: nat, addr: u64, f: FdtHeader, b: u64) -> Seq<
    NodeView,
> {
    let t = f.tree();
    let c = chosen_of(t)->0;
    if writable_ok(m, limit, addr, &f) && chosen_of(t) is Some && has_cell(
        t,
        c,
        "linux,initrd-start"@,
    ) {
        with_initrd_start(t, c, b)
    } else {
        t
    }
}

/// What patching the blob `f0` at `addr` over the address space `m0` does,
/// `m1` and `f1` being the address space and the blob afterwards.
pub open spec fn patch_effect(
    ok: bool,
    m0: Map<u64, Mode>,
    limit: nat,
    addr: u64,
    f0: FdtHeader,
    m1: Map<u64, Mode>,
    f1: FdtHeader,
    p: BootParamsUpdate,
    layout: ImageLayout,
) -> bool {
    let t0 = f0.tree();
    let c = chosen_of(t0)->0;
    &&& ok == patch_ok(m0, limit, addr, &f0)
    &&& m1 == patch_space(m0, limit, addr, f0, f1.total_size)
    &&& header_ok(m0, limit, addr) ==> unmapped_range(m1, addr as int, header_end(addr))
    &&& writable_ok(m0, limit, addr, &f0) ==> unmapped_range(
        m1,
        addr as int,
        window_end(addr, f0.total_size),
    )
    &&& f1.magic == f0.magic
    &&& ok ==> f1.tree() == with_initrd(t0, c, p.initrd_begin, p.initrd_end)
    &&& ok ==> reserved(f1.reservations@) == reserved(f0.reservations@) + image_reservations(
        layout,
    ) + update_reservations(&p)
    &&& ok ==> reservations_wf(f1.reservations@)
    &&& !ok ==> f1.tree() == failed_patch_tree(m0, limit, addr, f0, p.initrd_begin)
    &&& !ok ==> f1.reservations@ == f0.reservations@
    &&& !ok ==> f1.total_size == f0.total_size
}

/// Appends the reservation for `r` to the blob.
fn add_reservation(fdt: &mut FdtHeader, r: MemRange)
    requires
        reservations_wf(old(fdt).reservations@),
    ensures
        reservations_wf(final(fdt).reservations@),
        reserved(final(fdt).reservations@) == reserved(old(fdt).reservations@).push(
            reservation_of(r),
        ),
        final(fdt).tree() == old(fdt).tree(),
        final(fdt).total_size >= old(fdt).total_size,
        final(fdt).magic == old(fdt).magic,
{
    fdt.add_mem_reservation(r.begin, r.end.wrapping_sub(r.begin));
}

/// Writes the initrd range into the `chosen` node under the root of a valid
/// blob, then appends the reservations for the hypervisor's image and for
/// the update's ranges.
fn patch_content(fdt: &mut FdtHeader, p: &BootParamsUpdate, layout: &ImageLayout) -> (r: Result<
    (),
    (),
>)
    requires
        old(fdt).wf(),
        p.reserved_ranges_count <= p.reserved_ranges@.len(),
    ensures
        ({
            let t0 = old(fdt).tree();
            let c = chosen_of(t0)->0;
            let start_ok = chosen_of(t0) is Some && has_cell(t0, c, "linux,initrd-start"@);
            &&& r is Ok <==> start_ok && has_cell(t0, c, "linux,initrd-end"@)
            &&& final(fdt).magic == old(fdt).magic
            &&& r is Ok ==> final(fdt).tree() == with_initrd(t0, c, p.initrd_begin, p.initrd_end)
            &&& r is Ok ==> reserved(final(fdt).reservations@) == reserved(old(fdt).reservations@)
                + image_reservations(*layout) + update_reservations(p)
            &&& r is Ok ==> reservations_wf(final(fdt).reservations@)
            &&& r is Ok ==> final(fdt).total_size >= old(fdt).total_size
            &&& r is Err ==> final(fdt).tree() == (if start_ok {
                with_initrd_start(t0, c, p.initrd_begin)
            } else {
                t0
            })
            &&& r is Err ==> final(fdt).reservations@ == old(fdt).reservations@
            &&& r is Err ==> final(fdt).total_size == old(fdt).total_size
        }),
{
    let total = fdt.total_size;
    let root = match fdt.find_child_at(0, "") {
        Some(j) => j,
        None => {
            return Err(());
        },
    };
    let chosen = match fdt.find_child_at(root, "chosen") {
        Some(j) => j,
        None => {
            return Err(());
        },
    };
    let ghost t0 = fdt.tree();
    proof {
        reveal_strlit("linux,initrd-start");
        reveal_strlit("linux,initrd-end");
        assert("linux,initrd-start"@.len() != "linux,initrd-end"@.len());
        if prop_index(t0[chosen as int].props, "linux,initrd-start"@) is Some {
            lemma_set_prop_other(
                t0,
                chosen as int,
                "linux,initrd-start"@,
                be_bytes(
                    p.initrd_begin as nat,
                    node_prop(t0, chosen as int, "linux,initrd-start"@)->0.len(),
                ),
                "linux,initrd-end"@,
            );
        }
    }
    if fdt.write_number(chosen, "linux,initrd-start", p.initrd_begin).is_err() {
        return Err(());
    }
    if fdt.write_number(chosen, "linux,initrd-end", p.initrd_end).is_err() {
        return Err(());
    }
    let ghost t2 = fdt.tree();
    let ghost base = reserved(fdt.reservations@);
    add_reservation(fdt, layout.text);
    add_reservation(fdt, layout.rodata);
    add_reservation(fdt, layout.data);
    proof {
        assert(reserved(fdt.reservations@) =~= base + image_reservations(*layout));
    }
    let mut i: usize = 0;
    while i < p.reserved_ranges_count
        invariant
            p.reserved_ranges_count <= p.reserved_ranges@.len(),
            i <= p.reserved_ranges_count,
            fdt.tree() == t2,
            fdt.total_size >= total,
            fdt.magic == old(fdt).magic,
            reservations_wf(fdt.reservations@),
            reserved(fdt.reservations@) == base + image_reservations(*layout)
                + p.reserved_ranges@.take(i as int).map_values(|r: MemRange| reservation_of(r)),
        decreases p.reserved_ranges_count - i,
    {
        let ghost before = reserved(fdt.reservations@);
        add_reservation(fdt, p.reserved_ranges[i]);
        proof {
            assert(p.reserved_ranges@.take(i + 1).map_values(|r: MemRange| reservation_of(r))
                =~= p.reserved_ranges@.take(i as int).map_values(|r: MemRange| reservation_of(r)).push(
                reservation_of(p.reserved_ranges@[i as int]),
            ));
            assert(reserved(fdt.reservations@) =~= base + image_reservations(*layout)
                + p.reserved_ranges@.take(i + 1).map_values(|r: MemRange| reservation_of(r)));
        }
        i = i + 1;
    }
    Ok(())
}

/// Rewrites the initrd range in the blob at `fdt_addr` and appends the
/// reservations for the hypervisor's image and for the update's ranges,
/// with the blob mapped writable for the duration. Every exit unmaps what
/// was mapped.
#[verifier::rlimit(40)]
pub fn patch(
    stage1_ptable: &mut PageTable,
    fdt_addr: u64,
    fdt: &mut FdtHeader,
    p: &BootParamsUpdate,
    layout: &ImageLayout,
) -> (r: Result<(), ()>)
    requires
        p.reserved_ranges_count <= p.reserved_ranges@.len(),
    ensures
        final(stage1_ptable).limit() == old(stage1_ptable).limit(),
        patch_effect(
            r is Ok,
            old(stage1_ptable)@,
            old(stage1_ptable).limit(),
            fdt_addr,
            *old(fdt),
            final(stage1_ptable)@,
            *final(fdt),
            *p,
            *layout,
        ),
{
    if fdt_addr > u64::MAX - FDT_HEADER_SIZE {
        return Err(());
    }
    let hdr_end = fdt_addr + FDT_HEADER_SIZE;
    if stage1_ptable.identity_map(fdt_addr, hdr_end, Mode::Read).is_err() {
        return Err(());
    }
    if !fdt.validate() {
        let _ = stage1_ptable.unmap(fdt_addr, hdr_end);
        proof {
            lemma_unmap_mapped(old(stage1_ptable)@, fdt_addr as int, hdr_end as int, Mode::Read);
        }
        return Err(());
    }
    let total = fdt.total_size as u64;
    if fdt_addr > u64::MAX - PAGE_SIZE - total {
        let _ = stage1_ptable.unmap(fdt_addr, hdr_end);
        proof {
            lemma_unmap_mapped(old(stage1_ptable)@, fdt_addr as int, hdr_end as int, Mode::Read);
        }
        return Err(());
    }
    let rw_end = fdt_addr + total + PAGE_SIZE;
    if stage1_ptable.identity_map(fdt_addr, rw_end, Mode::ReadWrite).is_err() {
        let _ = stage1_ptable.unmap(fdt_addr, hdr_end);
        proof {
            lemma_unmap_mapped(old(stage1_ptable)@, fdt_addr as int, hdr_end as int, Mode::Read);
        }
        return Err(());
    }
    let ghost m2 = stage1_ptable@;
    proof {
        let m1 = with_header(old(stage1_ptable)@, fdt_addr);
        lemma_unmap_mapped(m1, fdt_addr as int, rw_end as int, Mode::ReadWrite);
        lemma_unmap_covers(
            old(stage1_ptable)@,
            fdt_addr as int,
            hdr_end as int,
            rw_end as int,
            Mode::Read,
        );
        assert forall|q: u64| in_range(q, fdt_addr as int, hdr_end as int) implies in_range(
            q,
            fdt_addr as int,
            rw_end as int,
        ) by {
            lemma_range_grows(q, fdt_addr as int, hdr_end as int, rw_end as int);
        }
    }
    if patch_content(fdt, p, layout).is_err() {
        let _ = stage1_ptable.unmap(fdt_addr, rw_end);
        return Err(());
    }
    let end = fdt_addr.saturating_add(fdt.total_size as u64).saturating_add(PAGE_SIZE);
    let done = stage1_ptable.unmap(fdt_addr, end);
    proof {
        let m1 = with_header(old(stage1_ptable)@, fdt_addr);
        lemma_unmap_covers(m1, fdt_addr as int, rw_end as int, end as int, Mode::ReadWrite);
        lemma_unmap_covers(
            old(stage1_ptable)@,
            fdt_addr as int,
            hdr_end as int,
            end as int,
            Mode::Read,
        );
        assert forall|q: u64| in_range(q, fdt_addr as int, rw_end as int) implies in_range(
            q,
            fdt_addr as int,
            end as int,
        ) by {
            lemma_range_grows(q, fdt_addr as int, rw_end as int, end as int);
        }
    }
    match done {
        Ok(()) => Ok(()),
        Err(()) => Err(()),
    }
}

/// After a successful patch, reading the initrd range back from the `chosen`
/// node, found again under the root, gives the new bounds, provided each fits
/// the width of its property.
pub proof fn lemma_patched_initrd_reads_back(t0: Seq<NodeView>, b: u64, e: u64)
    requires
        chosen_of(t0) is Some,
        has_cell(t0, chosen_of(t0)->0, "linux,initrd-start"@),
        has_cell(t0, chosen_of(t0)->0, "linux,initrd-end"@),
        b < pow256(node_prop(t0, chosen_of(t0)->0, "linux,initrd-start"@)->0.len()),
        e < pow256(node_prop(t0, chosen_of(t0)->0, "linux,initrd-end"@)->0.len()),
    ensures
        chosen_of(with_initrd(t0, chosen_of(t0)->0, b, e)) == chosen_of(t0),
        initrd_at(with_initrd(t0, chosen_of(t0)->0, b, e), chosen_of(t0)->0) == Some((b, e)),
{
    let c = chosen_of(t0)->0;
    let root = child_named(t0, 0, ""@)->0;
    let ks = prop_index(t0[c].props, "linux,initrd-start"@)->0;
    let ws = node_prop(t0, c, "linux,initrd-start"@)->0.len();
    let vs = be_bytes(b as nat, ws);
    let t1 = set_prop(t0, c, ks, vs);
    let ke = prop_index(t1[c].props, "linux,initrd-end"@)->0;
    let we = node_prop(t1, c, "linux,initrd-end"@)->0.len();
    let ve = be_bytes(e as nat, we);
    let t2 = set_prop(t1, c, ke, ve);
    reveal_strlit("linux,initrd-start");
    reveal_strlit("linux,initrd-end");
    assert("linux,initrd-start"@.len() != "linux,initrd-end"@.len());
    lemma_scan_child_found(t0, t0[0].depth as int, 1, ""@);
    lemma_scan_child_found(t0, t0[root].depth as int, root + 1, "chosen"@);
    lemma_set_prop_other(t0, c, "linux,initrd-start"@, vs, "linux,initrd-end"@);
    lemma_set_prop_other(t1, c, "linux,initrd-end"@, ve, "linux,initrd-start"@);
    lemma_set_prop_reads(t0, c, "linux,initrd-start"@, vs);
    lemma_set_prop_reads(t1, c, "linux,initrd-end"@, ve);
    assert(same_outline(t0, t2));
    lemma_scan_child_outline(t0, t2, t0[0].depth as int, 1, ""@);
    lemma_scan_child_outline(t0, t2, t0[root].depth as int, root + 1, "chosen"@);
    lemma_value_of_bytes(b as nat, ws);
    lemma_value_of_bytes(e as nat, we);
    vstd::arithmetic::div_mod::lemma_small_mod(b as nat, pow256(ws));
    vstd::arithmetic::div_mod::lemma_small_mod(e as nat, pow256(we));
}

/// A failed patch of a blob whose writable window nothing mapped before
/// leaves the address space exactly as it was.
pub proof fn lemma_failed_patch_leaves_no_residue(
    m: Map<u64, Mode>,
    limit: nat,
    fdt_addr: u64,
    f: FdtHeader,
    grown: u32,
)
    requires
        !patch_ok(m, limit, fdt_addr, &f),
        unmapped_range(m, fdt_addr as int, window_end(fdt_addr, f.total_size)),
    ensures
        patch_space(m, limit, fdt_addr, f, grown) == m,
{
    if header_ok(m, limit, fdt_addr) {
        assert forall|q: u64| #[trigger] m.contains_key(q) implies !in_range(
            q,
            fdt_addr as int,
            header_end(fdt_addr),
        ) by {
            if in_range(q, fdt_addr as int, header_end(fdt_addr)) {
                lemma_range_grows(
                    q,
                    fdt_addr as int,
                    header_end(fdt_addr),
                    window_end(fdt_addr, f.total_size),
                );
            }
        }
        lemma_unmap_untouched(m, fdt_addr as int, header_end(fdt_addr));
        lemma_unmap_untouched(m, fdt_addr as int, window_end(fdt_addr, f.total_size));
    }
}

} // verus!
