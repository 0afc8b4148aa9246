//! The entry points the rest of the hypervisor calls: each forwards to the
//! library and folds its outcome into the plain answer the caller expects.
use vstd::prelude::*;

use crate::boot::{cpus_of, initrd_at, memory_of, kept, BootParams, MAX_CPUS, MAX_MEM_RANGES};
use crate::lifecycle::{map_ok, map_space, patch, patch_effect, unmap, BootParamsUpdate, ImageLayout};
use crate::mm::{unmapped, PageTable};
use crate::tree::{child_named, FdtHeader, FdtNode};

verus! {

/// Maps the blob at `fdt_addr` for inspection; see [`map`].
pub fn fdt_map<'a>(stage1_ptable: &mut PageTable, fdt_addr: u64, fdt: &'a FdtHeader) -> (r:
    Option<FdtNode<'a>>)
    ensures
        final(stage1_ptable).limit() == old(stage1_ptable).limit(),
        r is Some <==> map_ok(old(stage1_ptable)@, old(stage1_ptable).limit(), fdt_addr, fdt),
        r matches Some(n) ==> n.fdt == fdt && n.pos == 0 && n.wf(),
        final(stage1_ptable)@ == map_space(
            old(stage1_ptable)@,
            old(stage1_ptable).limit(),
            fdt_addr,
            fdt,
        ),
{
    crate::lifecycle::map(stage1_ptable, fdt_addr, fdt)
}

/// Unmaps the blob at `fdt_addr`; true when that succeeded.
pub fn fdt_unmap(stage1_ptable: &mut PageTable, fdt_addr: u64, fdt: &FdtHeader) -> (r: bool)
    ensures
        final(stage1_ptable).limit() == old(stage1_ptable).limit(),
        r == (fdt_addr + fdt.total_size <= u64::MAX),
        r ==> final(stage1_ptable)@ == unmapped(
            old(stage1_ptable)@,
            fdt_addr as int,
            fdt_addr + fdt.total_size,
        ),
        !r ==> final(stage1_ptable)@ == old(stage1_ptable)@,
{
    unmap(stage1_ptable, fdt_addr, fdt).is_ok()
}

/// Fills `cpu_ids` and returns how many CPUs the tree lists under `cpus`;
/// zero when that node is missing or lists more than `MAX_CPUS`.
pub fn fdt_find_cpus(root: &FdtNode, cpu_ids: &mut Vec<u64>) -> (r: usize)
    requires
        root.wf(),
        old(cpu_ids)@.len() >= MAX_CPUS,
    ensures
        final(cpu_ids)@.len() == old(cpu_ids)@.len(),
        match cpus_of(root.tree(), root.pos as int) {
            Some(ids) => if ids.len() <= MAX_CPUS {
                r == ids.len() && final(cpu_ids)@.take(ids.len() as int) == ids
            } else {
                r == 0
            },
            None => r == 0 && final(cpu_ids)@ == old(cpu_ids)@,
        },
{
    match root.find_cpus(cpu_ids) {
        Some(n) => n,
        None => 0,
    }
}

/// Fills the memory ranges of `p` from the children of `root`.
pub fn fdt_find_memory_ranges(root: &FdtNode, p: &mut BootParams)
    requires
        root.wf(),
        old(p).mem_ranges@.len() >= MAX_MEM_RANGES,
    ensures
        match memory_of(root.tree(), root.pos as int) {
            None => *final(p) == *old(p),
            Some(all) => {
                &&& final(p).mem_ranges_count == kept(all.len())
                &&& final(p).mem_ranges@.take(final(p).mem_ranges_count as int) == all.take(
                    final(p).mem_ranges_count as int,
                )
                &&& final(p).mem_ranges@.len() == old(p).mem_ranges@.len()
                &&& final(p).mem_ranges@.skip(final(p).mem_ranges_count as int) == old(
                    p,
                ).mem_ranges@.skip(final(p).mem_ranges_count as int)
                &&& final(p).cpu_ids == old(p).cpu_ids
                &&& final(p).cpu_count == old(p).cpu_count
                &&& final(p).initrd_begin == old(p).initrd_begin
                &&& final(p).initrd_end == old(p).initrd_end
                &&& final(p).kernel_arg == old(p).kernel_arg
            },
        },
{
    let _ = root.find_memory_ranges(p);
}

/// Finds the initrd range; on success moves `n` to the `chosen` node, on
/// failure leaves it where it was.
pub fn fdt_find_initrd(n: &mut FdtNode) -> (r: Option<(u64, u64)>)
    requires
        old(n).wf(),
    ensures
        final(n).wf(),
        final(n).fdt == old(n).fdt,
        match child_named(old(n).tree(), old(n).pos as int, "chosen"@) {
            Some(c) => r == initrd_at(old(n).tree(), c) && (r is Some ==> final(n).pos == c) && (
            r is None ==> final(n).pos == old(n).pos),
            None => r is None && final(n).pos == old(n).pos,
        },
{
    let mut node = *n;
    let r = node.find_initrd();
    if r.is_some() {
        *n = node;
    }
    r
}

/// Patches the blob at `fdt_addr`; true when every phase succeeded.
pub fn fdt_patch(
    stage1_ptable: &mut PageTable,
    fdt_addr: u64,
    fdt: &mut FdtHeader,
    p: &BootParamsUpdate,
    layout: &ImageLayout,
) -> (r: bool)
    requires
        p.reserved_ranges_count <= p.reserved_ranges@.len(),
    ensures
        final(stage1_ptable).limit() == old(stage1_ptable).limit(),
        patch_effect(
            r,
            old(stage1_ptable)@,
            old(stage1_ptable).limit(),
            fdt_addr,
            *old(fdt),
            final(stage1_ptable)@,
            *final(fdt),
            *p,
            *layout,
        ),
{
    patch(stage1_ptable, fdt_addr, fdt, p, layout).is_ok()
}

} // verus!
