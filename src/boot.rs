//! Boot facts read from the tree: the initrd range, the CPU identifiers and
//! the physical memory ranges.
use vstd::prelude::*;

use crate::codec::{convert_number, decode};
use crate::tree::{
    child_named, has_child, is_cstring, node_prop, prop_value, value_is_cstring, FdtHeader,
    FdtNode, NodeView,
};

verus! {

/// Capacity of the CPU identifier list.
pub const MAX_CPUS: usize = 64;

/// Capacity of the memory range list.
pub const MAX_MEM_RANGES: usize = 20;

/// A half-open physical address range `[begin, end)`.
#[derive(Clone, Copy, PartialEq, Eq, Structural, Debug)]
pub struct MemRange {
    pub begin: u64,
    pub end: u64,
}

impl MemRange {
    pub fn new(begin: u64, end: u64) -> (r: Self)
        ensures
            r == (MemRange { begin, end }),
    {
        MemRange { begin, end }
    }
}

/// Facts handed to the rest of the boot sequence. The two lists have fixed
/// capacities; only their first `cpu_count` and `mem_ranges_count` entries
/// are meaningful.
pub struct BootParams {
    pub cpu_ids: Vec<u64>,
    pub cpu_count: usize,
    pub mem_ranges: Vec<MemRange>,
    pub mem_ranges_count: usize,
    pub initrd_begin: u64,
    pub initrd_end: u64,
    pub kernel_arg: u64,
}

impl BootParams {
    /// Both lists at full capacity and counts within them.
    pub open spec fn wf(&self) -> bool {
        &&& self.cpu_ids@.len() == MAX_CPUS
        &&& self.mem_ranges@.len() == MAX_MEM_RANGES
        &&& self.cpu_count <= MAX_CPUS
        &&& self.mem_ranges_count <= MAX_MEM_RANGES
    }

    /// Zeroed parameters with empty lists.
    pub fn new() -> (r: Self)
        ensures
            r.wf(),
            r.cpu_count == 0,
            r.mem_ranges_count == 0,
            r.initrd_begin == 0,
            r.initrd_end == 0,
            r.kernel_arg == 0,
    {
        let mut cpu_ids: Vec<u64> = Vec::new();
        let mut i: usize = 0;
        while i < MAX_CPUS
            invariant
                i <= MAX_CPUS,
                cpu_ids@.len() == i,
            decreases MAX_CPUS - i,
        {
            cpu_ids.push(0);
            i = i + 1;
        }
        let mut mem_ranges: Vec<MemRange> = Vec::new();
        let mut k: usize = 0;
        while k < MAX_MEM_RANGES
            invariant
                k <= MAX_MEM_RANGES,
                mem_ranges@.len() == k,
            decreases MAX_MEM_RANGES - k,
        {
            mem_ranges.push(MemRange { begin: 0, end: 0 });
            k = k + 1;
        }
        BootParams {
            cpu_ids,
            cpu_count: 0,
            mem_ranges,
            mem_ranges_count: 0,
            initrd_begin: 0,
            initrd_end: 0,
            kernel_arg: 0,
        }
    }
}

/// The initrd range that node `c` names in its `linux,initrd-start` and
/// `linux,initrd-end` properties.
pub open spec fn initrd_at(t: Seq<NodeView>, c: int) -> Option<(u64, u64)> {
    match (node_prop(t, c, "linux,initrd-start"@), node_prop(t, c, "linux,initrd-end"@)) {
        (Some(b), Some(e)) => match (decode(b), decode(e)) {
            (Some(x), Some(y)) => Some((x, y)),
            _ => None,
        },
        _ => None,
    }
}

/// Bytes per value given a `#address-cells` or `#size-cells` property: the
/// cell count times four for one or two cells, else one 32-bit cell (the
/// property being absent or holding a width the codec does not read).
pub open spec fn cell_bytes(v: Option<Seq<u8>>) -> nat {
    match v {
        Some(b) => match decode(b) {
            Some(c) => if c == 1 || c == 2 {
                4 * c as nat
            } else {
                4
            },
            None => 4,
        },
        None => 4,
    }
}

/// The successive `w`-byte cells of `v`, decoded; trailing bytes short of a
/// cell are ignored.
pub open spec fn cells(v: Seq<u8>, w: nat) -> Seq<u64>
    decreases v.len(),
{
    if w == 0 || v.len() < w {
        Seq::empty()
    } else {
        seq![decode(v.take(w as int))->0] + cells(v.skip(w as int), w)
    }
}

/// The CPU identifiers that one node lists: the cells of its `reg` when its
/// `device_type` is "cpu".
pub open spec fn node_cpu_ids(n: NodeView, w: nat) -> Seq<u64> {
    match (prop_value(n.props, "device_type"@), prop_value(n.props, "reg"@)) {
        (Some(t), Some(r)) => if is_cstring(t, "cpu"@) {
            cells(r, w)
        } else {
            Seq::empty()
        },
        _ => Seq::empty(),
    }
}

/// CPU identifiers of the children (level `d + 1`) found scanning from
/// position `j` to the end of the subtree of a node at level `d`.
pub open spec fn cpu_ids_from(nodes: Seq<NodeView>, d: int, j: int, w: nat) -> Seq<u64>
    decreases nodes.len() - j,
{
    if j < 0 || j >= nodes.len() || nodes[j].depth <= d {
        Seq::empty()
    } else {
        (if nodes[j].depth == d + 1 {
            node_cpu_ids(nodes[j], w)
        } else {
            Seq::empty()
        }) + cpu_ids_from(nodes, d, j + 1, w)
    }
}

/// The CPU identifiers listed under the `cpus` child of node `i`, in document
/// order; none when that child is missing or has no children.
pub open spec fn cpus_of(nodes: Seq<NodeView>, i: int) -> Option<Seq<u64>> {
    match child_named(nodes, i, "cpus"@) {
        Some(c) => if has_child(nodes, c) {
            Some(
                cpu_ids_from(
                    nodes,
                    nodes[c].depth,
                    c + 1,
                    cell_bytes(node_prop(nodes, c, "#address-cells"@)),
                ),
            )
        } else {
            None
        },
        None => None,
    }
}

/// The range `[a, a + s)`, its end wrapping at 2^64.
pub open spec fn range_of(a: u64, s: u64) -> MemRange {
    MemRange { begin: a, end: a.wrapping_add(s) }
}

/// The successive (address, size) pairs of `v` as ranges, with `aw`-byte
/// addresses and `sw`-byte sizes; trailing bytes short of a pair are ignored.
pub open spec fn ranges(v: Seq<u8>, aw: nat, sw: nat) -> Seq<MemRange>
    decreases v.len(),
{
    if aw + sw == 0 || v.len() < aw + sw {
        Seq::empty()
    } else {
        seq![
            range_of(
                decode(v.take(aw as int))->0,
                decode(v.subrange(aw as int, (aw + sw) as int))->0,
            ),
        ] + ranges(v.skip((aw + sw) as int), aw, sw)
    }
}

/// The memory ranges that one node lists: the pairs of its `reg` when its
/// `device_type` is "memory".
pub open spec fn node_mem_ranges(n: NodeView, aw: nat, sw: nat) -> Seq<MemRange> {
    match (prop_value(n.props, "device_type"@), prop_value(n.props, "reg"@)) {
        (Some(t), Some(r)) => if is_cstring(t, "memory"@) {
            ranges(r, aw, sw)
        } else {
            Seq::empty()
        },
        _ => Seq::empty(),
    }
}

/// Memory ranges of the children (level `d + 1`) found scanning from
/// position `j` to the end of the subtree of a node at level `d`.
pub open spec fn mem_ranges_from(nodes: Seq<NodeView>, d: int, j: int, aw: nat, sw: nat) -> Seq<
    MemRange,
>
    decreases nodes.len() - j,
{
    if j < 0 || j >= nodes.len() || nodes[j].depth <= d {
        Seq::empty()
    } else {
        (if nodes[j].depth == d + 1 {
            node_mem_ranges(nodes[j], aw, sw)
        } else {
            Seq::empty()
        }) + mem_ranges_from(nodes, d, j + 1, aw, sw)
    }
}

/// The memory ranges listed by the children of node `i`, in document order,
/// with the cell widths that node `i` declares; none when it has no children.
pub open spec fn memory_of(nodes: Seq<NodeView>, i: int) -> Option<Seq<MemRange>> {
    if has_child(nodes, i) {
        Some(
            mem_ranges_from(
                nodes,
                nodes[i].depth,
                i + 1,
                cell_bytes(node_prop(nodes, i, "#address-cells"@)),
                cell_bytes(node_prop(nodes, i, "#size-cells"@)),
            ),
        )
    } else {
        None
    }
}

/// The number of ranges kept out of `n` found.
pub open spec fn kept(n: nat) -> nat {
    if n <= MAX_MEM_RANGES {
        n
    } else {
        MAX_MEM_RANGES as nat
    }
}

/// Stores the ranges of `data` into `out` from position `count` on, while
/// there is room; returns the new count.
fn append_ranges(data: &[u8], aw: usize, sw: usize, out: &mut Vec<MemRange>, count: usize) -> (r:
    usize)
    requires
        aw == 4 || aw == 8,
        sw == 4 || sw == 8,
        count <= MAX_MEM_RANGES,
        old(out)@.len() >= MAX_MEM_RANGES,
    ensures
        final(out)@.len() == old(out)@.len(),
        ({
            let found = ranges(data@, aw as nat, sw as nat);
            &&& r == kept((count + found.len()) as nat)
            &&& final(out)@.take(r as int) == (old(out)@.take(count as int) + found).take(r as int)
        }),
        forall|i: int| r <= i < old(out)@.len() ==> #[trigger] final(out)@[i] == old(out)@[i],
{
    let ghost all = ranges(data@, aw as nat, sw as nat);
    let ghost start = old(out)@.take(count as int);
    let entry = aw + sw;
    let mut rest: &[u8] = data;
    let mut k: usize = count;
    let ghost done: Seq<MemRange> = start;
    while rest.len() >= entry
        invariant
            aw == 4 || aw == 8,
            sw == 4 || sw == 8,
            entry == aw + sw,
            all == ranges(data@, aw as nat, sw as nat),
            start == old(out)@.take(count as int),
            out@.len() == old(out)@.len(),
            old(out)@.len() >= MAX_MEM_RANGES,
            start + all == done + ranges(rest@, aw as nat, sw as nat),
            k == kept(done.len()),
            out@.take(k as int) == done.take(k as int),
            count <= k,
            forall|i: int| k <= i < out@.len() ==> #[trigger] out@[i] == old(out)@[i],
        decreases rest@.len(),
    {
        let ghost prev = rest@;
        let addr = match convert_number(&rest[0..aw]) {
            Some(x) => x,
            None => 0,
        };
        let len = match convert_number(&rest[aw..entry]) {
            Some(x) => x,
            None => 0,
        };
        let range = MemRange { begin: addr, end: addr.wrapping_add(len) };
        proof {
            assert(rest@.take(aw as int) =~= rest@.subrange(0, aw as int));
            assert(ranges(prev, aw as nat, sw as nat) == seq![range] + ranges(
                prev.skip(entry as int),
                aw as nat,
                sw as nat,
            ));
        }
        let ghost before = out@;
        if k < MAX_MEM_RANGES {
            out.set(k, range);
            k = k + 1;
            proof {
                assert(out@.take(k as int) =~= before.take((k - 1) as int).push(range));
            }
        }
        proof {
            let nd = done.push(range);
            assert(nd.take(k as int) =~= out@.take(k as int));
            done = nd;
        }
        rest = &rest[entry..rest.len()];
        proof {
            assert(rest@ =~= prev.skip(entry as int));
            assert(start + all =~= done + ranges(rest@, aw as nat, sw as nat));
        }
    }
    proof {
        assert(ranges(rest@, aw as nat, sw as nat) =~= Seq::<MemRange>::empty());
        assert(done =~= start + all);
    }
    k
}

/// Bytes per value read from property `name` of the cursor's node.
fn cell_bytes_of(node: &FdtNode, name: &str) -> (r: usize)
    requires
        node.wf(),
    ensures
        r as nat == cell_bytes(node_prop(node.tree(), node.pos as int, name@)),
        r == 4 || r == 8,
{
    match node.read_number(name) {
        Ok(c) => if c == 1 || c == 2 {
            (c as usize) * 4
        } else {
            4
        },
        Err(_) => 4,
    }
}

/// Writes the `w`-byte cells of `data` into `ids` from position `count` on,
/// returning the new count; `None` once the list is full.
fn append_cells(data: &[u8], w: usize, ids: &mut Vec<u64>, count: usize) -> (r: Option<usize>)
    requires
        w == 4 || w == 8,
        count <= MAX_CPUS,
        old(ids)@.len() >= MAX_CPUS,
    ensures
        final(ids)@.len() == old(ids)@.len(),
        count + cells(data@, w as nat).len() <= MAX_CPUS ==> r == Some(
            (count + cells(data@, w as nat).len()) as usize,
        ) && final(ids)@.take(r->0 as int) == old(ids)@.take(count as int) + cells(
            data@,
            w as nat,
        ),
        count + cells(data@, w as nat).len() > MAX_CPUS ==> r is None,
        forall|i: int|
            count + cells(data@, w as nat).len() <= i < old(ids)@.len() ==> #[trigger] final(ids)@[i]
                == old(ids)@[i],
{
    let ghost wn = w as nat;
    let ghost all = cells(data@, wn);
    let mut rest: &[u8] = data;
    let mut k: usize = count;
    while rest.len() >= w
        invariant
            w == 4 || w == 8,
            wn == w as nat,
            all == cells(data@, wn),
            count <= k <= MAX_CPUS,
            ids@.len() == old(ids)@.len(),
            old(ids)@.len() >= MAX_CPUS,
            old(ids)@.take(count as int) + all == ids@.take(k as int) + cells(rest@, wn),
            forall|i: int| k <= i < ids@.len() ==> #[trigger] ids@[i] == old(ids)@[i],
        decreases rest@.len(),
    {
        proof {
            assert(cells(rest@, wn) == seq![decode(rest@.take(w as int))->0] + cells(
                rest@.skip(w as int),
                wn,
            ));
        }
        if k >= MAX_CPUS {
            proof {
                assert(ids@.take(k as int).len() == k);
                assert(old(ids)@.take(count as int).len() == count);
                assert(cells(rest@, wn).len() >= 1);
                assert((ids@.take(k as int) + cells(rest@, wn)).len() > MAX_CPUS);
                assert((old(ids)@.take(count as int) + all).len() == count + all.len());
                assert(count + cells(data@, w as nat).len() > MAX_CPUS);
                assert((old(ids)@.take(count as int) + all).len() > MAX_CPUS);
            }
            return None;
        }
        let cell = &rest[0..w];
        let id = match convert_number(cell) {
            Some(x) => x,
            None => 0,
        };
        let ghost before = ids@;
        let ghost prev = rest@;
        ids.set(k, id);
        proof {
            assert(cell@ =~= rest@.take(w as int));
            assert(ids@.take(k + 1) =~= before.take(k as int).push(id));
        }
        k = k + 1;
        rest = &rest[w..rest.len()];
        proof {
            assert(rest@ =~= prev.skip(w as int));
            assert(ids@.take(k as int) + cells(rest@, wn) =~= before.take((k - 1) as int) + cells(
                prev,
                wn,
            ));
        }
    }
    proof {
        assert(cells(rest@, wn) =~= Seq::<u64>::empty());
        assert(old(ids)@.take(count as int) + all =~= ids@.take(k as int));
    }
    Some(k)
}

/// Lists the CPU identifiers of the children of node `c` into `cpu_ids`.
fn scan_cpus(fdt: &FdtHeader, c: usize, address_size: usize, cpu_ids: &mut Vec<u64>) -> (r:
    Option<usize>)
    requires
        fdt.wf(),
        c < fdt.tree().len(),
        address_size == 4 || address_size == 8,
        old(cpu_ids)@.len() >= MAX_CPUS,
    ensures
        final(cpu_ids)@.len() == old(cpu_ids)@.len(),
        ({
            let ids = cpu_ids_from(
                fdt.tree(),
                fdt.tree()[c as int].depth,
                c + 1,
                address_size as nat,
            );
            &&& if ids.len() <= MAX_CPUS {
                r == Some(ids.len() as usize) && final(cpu_ids)@.take(ids.len() as int) == ids
            } else {
                r is None
            }
            &&& forall|i: int|
                ids.len() <= i < old(cpu_ids)@.len() ==> #[trigger] final(cpu_ids)@[i]
                    == old(cpu_ids)@[i]
        }),
{
    let n = fdt.nodes.len();
    let d = fdt.nodes[c].depth;
    let ghost tree = fdt.tree();
    let ghost w = address_size as nat;
    let ghost total = cpu_ids_from(tree, d as int, c + 1, w);
    proof {
        assert(tree[c as int].depth == d);
    }
        let mut cpu_count: usize = 0;
    let mut j: usize = c + 1;
    while j < n && fdt.nodes[j].depth > d
        invariant
            tree == fdt.tree(),
            n == tree.len(),
            fdt.wf(),
            c < j <= n,
            d == tree[c as int].depth,
            w == address_size as nat,
            address_size == 4 || address_size == 8,
            cpu_count <= MAX_CPUS,
            total == cpu_ids_from(tree, d as int, c + 1, w),
            cpu_ids@.len() == old(cpu_ids)@.len(),
            old(cpu_ids)@.len() >= MAX_CPUS,
            total == cpu_ids@.take(cpu_count as int) + cpu_ids_from(tree, d as int, j as int, w),
            forall|i: int|
                cpu_count <= i < cpu_ids@.len() ==> #[trigger] cpu_ids@[i] == old(cpu_ids)@[i],
        decreases n - j,
    {
        proof {
            assert(tree[j as int].depth == fdt.nodes@[j as int].depth);
        }
        let ghost here = cpu_ids_from(tree, d as int, j as int, w);
        let ghost rest = cpu_ids_from(tree, d as int, j + 1, w);
        if fdt.nodes[j].depth - 1 == d {
            let cur = FdtNode { fdt, pos: j };
            let ghost before = cpu_ids@;
            match cur.node_cpus(address_size, cpu_ids, cpu_count) {
                Some(k) => {
                    proof {
                        assert(total =~= cpu_ids@.take(k as int) + rest);
                    }
                    cpu_count = k;
                },
                None => {
                    proof {
                        let found = node_cpu_ids(tree[j as int], w);
                        assert(here == found + rest);
                        assert(total.len() == cpu_count + found.len() + rest.len());
                        assert forall|i: int|
                            total.len() <= i < old(cpu_ids)@.len() implies #[trigger] cpu_ids@[i]
                            == old(cpu_ids)@[i] by {
                            assert(cpu_count + found.len() <= i);
                            assert(cpu_ids@[i] == before[i]);
                            assert(cpu_count <= i < before.len());
                            assert(before[i] == old(cpu_ids)@[i]);
                        }
                    }
                    return None;
                },
            }
        } else {
            proof {
                assert(here =~= rest);
            }
        }
        j = j + 1;
    }
    proof {
        if j < n {
            assert(tree[j as int].depth == fdt.nodes@[j as int].depth);
        }
        assert(cpu_ids_from(tree, d as int, j as int, w) =~= Seq::<u64>::empty());
        assert(total =~= cpu_ids@.take(cpu_count as int));
        assert(total.len() == cpu_count);
        assert forall|i: int|
            total.len() <= i < old(cpu_ids)@.len() implies #[trigger] cpu_ids@[i] == old(
            cpu_ids,
        )@[i] by {
            assert(cpu_count <= i < cpu_ids@.len());
        }
    }
    Some(cpu_count)
}

/// Stores the memory ranges of the children of node `c` into `out`, as many
/// as fit; returns how many were stored.
fn scan_memory(fdt: &FdtHeader, c: usize, aw: usize, sw: usize, out: &mut Vec<MemRange>) -> (r:
    usize)
    requires
        fdt.wf(),
        c < fdt.tree().len(),
        aw == 4 || aw == 8,
        sw == 4 || sw == 8,
        old(out)@.len() >= MAX_MEM_RANGES,
    ensures
        final(out)@.len() == old(out)@.len(),
        ({
            let all = mem_ranges_from(
                fdt.tree(),
                fdt.tree()[c as int].depth,
                c + 1,
                aw as nat,
                sw as nat,
            );
            &&& r == kept(all.len())
            &&& final(out)@.take(r as int) == all.take(r as int)
        }),
        forall|i: int| r <= i < old(out)@.len() ==> #[trigger] final(out)@[i] == old(out)@[i],
{
    let n = fdt.nodes.len();
    let d = fdt.nodes[c].depth;
    let ghost tree = fdt.tree();
    let ghost total = mem_ranges_from(tree, d as int, c + 1, aw as nat, sw as nat);
    let ghost done: Seq<MemRange> = Seq::empty();
    proof {
        assert(tree[c as int].depth == d);
        assert(out@.take(0) =~= done.take(0));
        assert(total =~= done + total);
    }
    let mut count: usize = 0;
    let mut j: usize = c + 1;
    while j < n && fdt.nodes[j].depth > d
        invariant
            tree == fdt.tree(),
            n == tree.len(),
            fdt.wf(),
            c < j <= n,
            d == tree[c as int].depth,
            aw == 4 || aw == 8,
            sw == 4 || sw == 8,
            total == mem_ranges_from(tree, d as int, c + 1, aw as nat, sw as nat),
            out@.len() == old(out)@.len(),
            old(out)@.len() >= MAX_MEM_RANGES,
            total == done + mem_ranges_from(tree, d as int, j as int, aw as nat, sw as nat),
            count == kept(done.len()),
            out@.take(count as int) == done.take(count as int),
            forall|i: int| count <= i < out@.len() ==> #[trigger] out@[i] == old(out)@[i],
        decreases n - j,
    {
        proof {
            assert(tree[j as int].depth == fdt.nodes@[j as int].depth);
        }
        let ghost rest = mem_ranges_from(tree, d as int, j + 1, aw as nat, sw as nat);
        if fdt.nodes[j].depth - 1 == d {
            let cur = FdtNode { fdt, pos: j };
            let is_memory = match cur.read_property("device_type") {
                Ok(t) => value_is_cstring(t, "memory"),
                Err(_) => false,
            };
            let ghost found = node_mem_ranges(tree[j as int], aw as nat, sw as nat);
            if is_memory {
                match cur.read_property("reg") {
                    Ok(reg) => {
                        let ghost before = out@;
                        count = append_ranges(reg, aw, sw, out, count);
                        proof {
                            assert(found == ranges(reg@, aw as nat, sw as nat));
                            let nd = done + found;
                            assert(before.take(kept(done.len()) as int) =~= done.take(
                                kept(done.len()) as int,
                            ));
                            assert(out@.take(count as int) =~= nd.take(count as int));
                            assert(total =~= nd + rest);
                            done = nd;
                        }
                    },
                    Err(_) => {
                        proof {
                            assert(total =~= done + rest);
                        }
                    },
                }
            } else {
                proof {
                    assert(total =~= done + rest);
                }
            }
        } else {
            proof {
                assert(total =~= done + rest);
            }
        }
        j = j + 1;
    }
    proof {
        if j < n {
            assert(tree[j as int].depth == fdt.nodes@[j as int].depth);
        }
        assert(mem_ranges_from(tree, d as int, j as int, aw as nat, sw as nat) =~= Seq::<
            MemRange,
        >::empty());
        assert(total =~= done);
    }
    count
}

impl<'a> FdtNode<'a> {
    /// Finds the initrd range named by the `chosen` child, and moves the
    /// cursor to that child.
    pub fn find_initrd(&mut self) -> (r: Option<(u64, u64)>)
        requires
            old(self).wf(),
        ensures
            final(self).fdt == old(self).fdt,
            final(self).wf(),
            match child_named(old(self).tree(), old(self).pos as int, "chosen"@) {
                None => r is None && final(self).pos == old(self).pos,
                Some(c) => final(self).pos == c && r == initrd_at(old(self).tree(), c),
            },
    {
        if self.find_child("chosen").is_none() {
            return None;
        }
        let initrd_begin = match self.read_number("linux,initrd-start") {
            Ok(x) => x,
            Err(_) => return None,
        };
        let initrd_end = match self.read_number("linux,initrd-end") {
            Ok(x) => x,
            Err(_) => return None,
        };
        Some((initrd_begin, initrd_end))
    }
    /// Appends the CPU identifiers that this node lists to `ids` from
    /// position `count` on; `None` once the list is full.
    fn node_cpus(&self, w: usize, ids: &mut Vec<u64>, count: usize) -> (r: Option<usize>)
        requires
            self.wf(),
            w == 4 || w == 8,
            count <= MAX_CPUS,
            old(ids)@.len() >= MAX_CPUS,
        ensures
            final(ids)@.len() == old(ids)@.len(),
            ({
                let found = node_cpu_ids(self.tree()[self.pos as int], w as nat);
                &&& count + found.len() <= MAX_CPUS ==> r == Some((count + found.len()) as usize)
                    && final(ids)@.take(r->0 as int) == old(ids)@.take(count as int) + found
                &&& count + found.len() > MAX_CPUS ==> r is None
                &&& forall|i: int|
                    count + found.len() <= i < old(ids)@.len() ==> #[trigger] final(ids)@[i]
                        == old(ids)@[i]
            }),
    {
        let is_cpu = match self.read_property("device_type") {
            Ok(t) => value_is_cstring(t, "cpu"),
            Err(_) => false,
        };
        if !is_cpu {
            proof {
                assert(old(ids)@.take(count as int) + Seq::<u64>::empty() =~= old(ids)@.take(
                    count as int,
                ));
            }
            return Some(count);
        }
        match self.read_property("reg") {
            Ok(reg) => append_cells(reg, w, ids, count),
            Err(_) => {
                proof {
                    assert(old(ids)@.take(count as int) + Seq::<u64>::empty() =~= old(ids)@.take(
                        count as int,
                    ));
                }
                Some(count)
            },
        }
    }

    /// Lists the CPU identifiers under the `cpus` child of this node into
    /// `cpu_ids`, returning how many there are. Gives `None`, leaving what
    /// was written so far, when there are more than `MAX_CPUS`.
    pub fn find_cpus(&self, cpu_ids: &mut Vec<u64>) -> (r: Option<usize>)
        requires
            self.wf(),
            old(cpu_ids)@.len() >= MAX_CPUS,
        ensures
            final(cpu_ids)@.len() == old(cpu_ids)@.len(),
            match cpus_of(self.tree(), self.pos as int) {
                Some(ids) => if ids.len() <= MAX_CPUS {
                    r == Some(ids.len() as usize) && final(cpu_ids)@.take(ids.len() as int) == ids
                } else {
                    r is None
                },
                None => r is None && final(cpu_ids)@ == old(cpu_ids)@,
            },
            r matches Some(k) ==> final(cpu_ids)@.skip(k as int) == old(cpu_ids)@.skip(k as int),
    {
        let mut node = *self;
        if node.find_child("cpus").is_none() {
            return None;
        }
        let address_size = cell_bytes_of(&node, "#address-cells");
        let fdt = node.fdt;
        let c = node.pos;
        let n = fdt.nodes.len();
        let d = fdt.nodes[c].depth;
        proof {
            assert(fdt.tree()[c as int].depth == d);
        }
        if c + 1 >= n || fdt.nodes[c + 1].depth == 0 || fdt.nodes[c + 1].depth - 1 != d {
            proof {
                if c + 1 < n {
                    assert(fdt.tree()[c + 1].depth == fdt.nodes@[c + 1].depth);
                }
            }
            return None;
        }
        proof {
            assert(fdt.tree()[c + 1].depth == fdt.nodes@[c + 1].depth);
        }
        scan_cpus(fdt, c, address_size, cpu_ids)
    }
    /// Lists the memory ranges that this node's children describe into
    /// `p.mem_ranges`, in document order, keeping the first
    /// `MAX_MEM_RANGES`. Gives `None`, changing nothing, when the node has no
    /// children.
    pub fn find_memory_ranges(&self, p: &mut BootParams) -> (r: Option<()>)
        requires
            self.wf(),
            old(p).mem_ranges@.len() >= MAX_MEM_RANGES,
        ensures
            match memory_of(self.tree(), self.pos as int) {
                None => r is None && *final(p) == *old(p),
                Some(all) => {
                    &&& r is Some
                    &&& final(p).mem_ranges_count == kept(all.len())
                    &&& final(p).mem_ranges@.take(final(p).mem_ranges_count as int) == all.take(
                        final(p).mem_ranges_count as int,
                    )
                    &&& final(p).mem_ranges@.len() == old(p).mem_ranges@.len()
                    &&& final(p).mem_ranges@.skip(final(p).mem_ranges_count as int) == old(
                        p,
                    ).mem_ranges@.skip(final(p).mem_ranges_count as int)
                    &&& final(p).cpu_ids == old(p).cpu_ids
                    &&& final(p).cpu_count == old(p).cpu_count
                    &&& final(p).initrd_begin == old(p).initrd_begin
                    &&& final(p).initrd_end == old(p).initrd_end
                    &&& final(p).kernel_arg == old(p).kernel_arg
                },
            },
    {
        let address_size = cell_bytes_of(self, "#address-cells");
        let size_size = cell_bytes_of(self, "#size-cells");
        let fdt = self.fdt;
        let c = self.pos;
        let n = fdt.nodes.len();
        let d = fdt.nodes[c].depth;
        proof {
            assert(fdt.tree()[c as int].depth == d);
        }
        if c + 1 >= n || fdt.nodes[c + 1].depth == 0 || fdt.nodes[c + 1].depth - 1 != d {
            proof {
                if c + 1 < n {
                    assert(fdt.tree()[c + 1].depth == fdt.nodes@[c + 1].depth);
                }
            }
            return None;
        }
        proof {
            assert(fdt.tree()[c + 1].depth == fdt.nodes@[c + 1].depth);
        }
        let count = scan_memory(fdt, c, address_size, size_size, &mut p.mem_ranges);
        p.mem_ranges_count = count;
        Some(())
    }
}

} // verus!
