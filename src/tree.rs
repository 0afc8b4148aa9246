//! An in-memory flattened device tree: nodes in document order, each with its
//! depth, name and properties, and the memory-reservation block. A cursor
//! (`FdtNode`) designates one node; navigation is by name among its children.
use vstd::prelude::*;
use vstd::string::*;

use crate::codec::{be_bytes, decode, convert_number, write_number};

verus! {

/// Magic value at the start of every valid blob.
pub const FDT_MAGIC: u32 = 0xd00dfeed;

/// Size in bytes of the fixed blob header.
pub const FDT_HEADER_SIZE: u64 = 40;

/// Size in bytes of one entry of the memory-reservation block.
pub const FDT_RESERVATION_SIZE: u32 = 16;

/// A named property and its raw value bytes.
pub struct Property {
    pub name: String,
    pub value: Vec<u8>,
}

/// One node of the structure block. `depth` is its nesting level; level 0 is
/// the document itself, whose only children are top-level nodes (the root).
pub struct NodeRecord {
    pub depth: usize,
    pub name: String,
    pub props: Vec<Property>,
}

/// A property as Verus sees it: its name and its value bytes.
pub ghost struct PropView {
    pub name: Seq<char>,
    pub value: Seq<u8>,
}

/// A node as Verus sees it.
pub ghost struct NodeView {
    pub depth: int,
    pub name: Seq<char>,
    pub props: Seq<PropView>,
}

impl View for Property {
    type V = PropView;

    open spec fn view(&self) -> PropView {
        PropView { name: self.name@, value: self.value@ }
    }
}

impl View for NodeRecord {
    type V = NodeView;

    open spec fn view(&self) -> NodeView {
        NodeView {
            depth: self.depth as int,
            name: self.name@,
            props: self.props@.map_values(|p: Property| p@),
        }
    }
}

/// One entry of the memory-reservation block: a physical range a consumer of
/// the tree must not use.
#[derive(Clone, Copy, PartialEq, Eq, Structural, Debug)]
pub struct MemReservation {
    pub address: u64,
    pub size: u64,
}

/// A device-tree blob: header fields, the structure block as nodes in document
/// order, and the reservation block including its terminating zero entry.
pub struct FdtHeader {
    pub magic: u32,
    pub total_size: u32,
    pub nodes: Vec<NodeRecord>,
    pub reservations: Vec<MemReservation>,
}

/// The entry that terminates the reservation block.
pub open spec fn sentinel() -> MemReservation {
    MemReservation { address: 0, size: 0 }
}

/// Nodes in document order with consistent depths: the document node first at
/// level 0, and every later node at least at level 1 and at most one level
/// deeper than the node before it.
pub open spec fn nodes_wf(nodes: Seq<NodeView>) -> bool {
    &&& nodes.len() >= 1
    &&& nodes[0].depth == 0
    &&& nodes[0].props.len() == 0
    &&& forall|k: int|
        1 <= k < nodes.len() ==> 1 <= #[trigger] nodes[k].depth <= nodes[k - 1].depth + 1
}

/// The reservation block ends with the zero entry.
pub open spec fn reservations_wf(r: Seq<MemReservation>) -> bool {
    r.len() >= 1 && r.last() == sentinel()
}

/// The entries of the reservation block, without the terminating zero entry.
pub open spec fn reserved(r: Seq<MemReservation>) -> Seq<MemReservation> {
    r.drop_last()
}

/// Position of the first child of node `d`'s level named `name`, scanning the
/// subtree that starts at `j`; `d` is the parent's depth.
pub open spec fn scan_child(nodes: Seq<NodeView>, d: int, j: int, name: Seq<char>) -> Option<
    int,
>
    decreases nodes.len() - j,
{
    if j < 0 || j >= nodes.len() || nodes[j].depth <= d {
        None
    } else if nodes[j].depth == d + 1 && nodes[j].name == name {
        Some(j)
    } else {
        scan_child(nodes, d, j + 1, name)
    }
}

/// Position of the first child of node `i` named `name`.
pub open spec fn child_named(nodes: Seq<NodeView>, i: int, name: Seq<char>) -> Option<int> {
    scan_child(nodes, nodes[i].depth as int, i + 1, name)
}

/// Node `i` has at least one child.
pub open spec fn has_child(nodes: Seq<NodeView>, i: int) -> bool {
    i + 1 < nodes.len() && nodes[i + 1].depth == nodes[i].depth + 1
}

/// Index of the first property at or after `k` named `name`.
pub open spec fn prop_index_from(props: Seq<PropView>, k: int, name: Seq<char>) -> Option<int>
    decreases props.len() - k,
{
    if k < 0 || k >= props.len() {
        None
    } else if props[k].name == name {
        Some(k)
    } else {
        prop_index_from(props, k + 1, name)
    }
}

/// Index of the first property named `name`.
pub open spec fn prop_index(props: Seq<PropView>, name: Seq<char>) -> Option<int> {
    prop_index_from(props, 0, name)
}

/// Value of the first property named `name`.
pub open spec fn prop_value(props: Seq<PropView>, name: Seq<char>) -> Option<Seq<u8>> {
    match prop_index(props, name) {
        Some(k) => Some(props[k].value),
        None => None,
    }
}

/// Value of property `name` of node `i`.
pub open spec fn node_prop(nodes: Seq<NodeView>, i: int, name: Seq<char>) -> Option<Seq<u8>> {
    prop_value(nodes[i].props, name)
}

/// `v` holds the characters of `s` as bytes followed by a nul.
pub open spec fn is_cstring(v: Seq<u8>, s: Seq<char>) -> bool {
    &&& v.len() == s.len() + 1
    &&& v.last() == 0
    &&& forall|i: int| 0 <= i < s.len() ==> v[i] as u32 == s[i] as u32
}

/// Whether two strings hold the same characters.
pub fn names_equal(a: &str, b: &str) -> (r: bool)
    ensures
        r == (a@ == b@),
{
    let n = a.unicode_len();
    if n != b.unicode_len() {
        return false;
    }
    let mut i: usize = 0;
    while i < n
        invariant
            n == a@.len(),
            n == b@.len(),
            i <= n,
            forall|k: int| 0 <= k < i ==> a@[k] == b@[k],
        decreases n - i,
    {
        if a.get_char(i) != b.get_char(i) {
            return false;
        }
        i = i + 1;
    }
    proof {
        assert(a@ =~= b@);
    }
    true
}

/// Whether a property value is the nul-terminated string `s`.
pub fn value_is_cstring(v: &[u8], s: &str) -> (r: bool)
    ensures
        r == is_cstring(v@, s@),
{
    let n = s.unicode_len();
    if v.len() == 0 || v.len() - 1 != n || v[n] != 0 {
        return false;
    }
    let mut i: usize = 0;
    while i < n
        invariant
            n == s@.len(),
            v@.len() == n + 1,
            v@.last() == 0,
            i <= n,
            forall|k: int| 0 <= k < i ==> v@[k] as u32 == s@[k] as u32,
        decreases n - i,
    {
        if v[i] as u32 != s.get_char(i) as u32 {
            return false;
        }
        i = i + 1;
    }
    true
}

impl FdtHeader {
    /// The structure block as Verus sees it.
    pub open spec fn tree(&self) -> Seq<NodeView> {
        self.nodes@.map_values(|n: NodeRecord| n@)
    }

    /// Header, structure and reservation block all well formed.
    pub open spec fn wf(&self) -> bool {
        &&& self.magic == FDT_MAGIC
        &&& self.total_size >= FDT_HEADER_SIZE
        &&& nodes_wf(self.tree())
        &&& reservations_wf(self.reservations@)
    }

    /// An empty tree: only the document level, no reservations.
    pub fn new(total_size: u32) -> (r: Self)
        ensures
            r.magic == FDT_MAGIC,
            r.total_size == total_size,
            r.tree().len() == 1,
            reserved(r.reservations@) == Seq::<MemReservation>::empty(),
            nodes_wf(r.tree()),
            reservations_wf(r.reservations@),
    {
        let doc = NodeRecord { depth: 0, name: String::from_str(""), props: Vec::new() };
        let r = FdtHeader {
            magic: FDT_MAGIC,
            total_size,
            nodes: vec![doc],
            reservations: vec![MemReservation { address: 0, size: 0 }],
        };
        proof {
            assert(reserved(r.reservations@) =~= Seq::<MemReservation>::empty());
        }
        r
    }

    /// Checks the header and the shape of the tree.
    pub fn validate(&self) -> (r: bool)
        ensures
            r == self.wf(),
    {
        if self.magic != FDT_MAGIC || (self.total_size as u64) < FDT_HEADER_SIZE {
            return false;
        }
        let n = self.reservations.len();
        if n == 0 || self.reservations[n - 1] != (MemReservation { address: 0, size: 0 }) {
            return false;
        }
        let m = self.nodes.len();
        if m == 0 || self.nodes[0].depth != 0 || self.nodes[0].props.len() != 0 {
            return false;
        }
        let mut k: usize = 1;
        while k < m
            invariant
                m == self.tree().len(),
                1 <= k <= m,
                forall|j: int|
                    1 <= j < k ==> 1 <= #[trigger] self.tree()[j].depth <= self.tree()[j
                        - 1].depth + 1,
            decreases m - k,
        {
            let d = self.nodes[k].depth;
            if d < 1 || d - 1 > self.nodes[k - 1].depth {
                proof {
                    assert(self.tree()[k as int].depth == d);
                    assert(self.tree()[k - 1].depth == self.nodes@[k - 1].depth);
                    assert(!(1 <= self.tree()[k as int].depth <= self.tree()[k - 1].depth + 1));
                }
                return false;
            }
            k = k + 1;
        }
        true
    }

    /// Appends a node at level `depth` (1 for a top-level node). Refused when
    /// the level would skip one.
    pub fn add_node(&mut self, depth: usize, name: &str) -> (r: bool)
        requires
            nodes_wf(old(self).tree()),
        ensures
            nodes_wf(final(self).tree()),
            r == (1 <= depth <= old(self).tree().last().depth + 1),
            final(self).magic == old(self).magic,
            final(self).total_size == old(self).total_size,
            final(self).reservations@ == old(self).reservations@,
            r ==> final(self).tree() == old(self).tree().push(
                NodeView { depth: depth as int, name: name@, props: Seq::empty() },
            ),
            !r ==> final(self).tree() == old(self).tree(),
    {
        let last = self.nodes.len() - 1;
        if depth < 1 || depth - 1 > self.nodes[last].depth {
            return false;
        }
        let ghost before = self.tree();
        let node = NodeRecord { depth, name: String::from_str(name), props: Vec::new() };
        proof {
            assert(node@ == NodeView { depth: depth as int, name: name@, props: Seq::empty() }) by {
                assert(node@.props =~= Seq::<PropView>::empty());
            }
        }
        self.nodes.push(node);
        proof {
            let nodes = self.tree();
            assert(nodes =~= before.push(node@));
            assert forall|k: int| 1 <= k < nodes.len() implies 1 <= #[trigger] nodes[k].depth
                <= nodes[k - 1].depth + 1 by {
                if k < nodes.len() - 1 {
                    assert(nodes[k] == before[k]);
                    assert(nodes[k - 1] == before[k - 1]);
                }
            }
        }
        true
    }

    /// Adds a property to the most recently added node. Refused while no node
    /// has been added.
    pub fn add_property(&mut self, name: &str, value: Vec<u8>) -> (r: bool)
        requires
            nodes_wf(old(self).tree()),
        ensures
            nodes_wf(final(self).tree()),
            r == (old(self).tree().len() > 1),
            final(self).magic == old(self).magic,
            final(self).total_size == old(self).total_size,
            final(self).reservations@ == old(self).reservations@,
            r ==> final(self).tree() == old(self).tree().update(
                old(self).tree().len() - 1,
                NodeView {
                    props: old(self).tree().last().props.push(
                        PropView { name: name@, value: value@ },
                    ),
                    ..old(self).tree().last()
                },
            ),
            !r ==> final(self).tree() == old(self).tree(),
    {
        let last = self.nodes.len() - 1;
        if last == 0 {
            return false;
        }
        let ghost before = self.tree();
        let ghost vv = value@;
        let mut node = self.nodes.pop().unwrap();
        let ghost depth = node.depth;
        let ghost before_props = node.props@;
        let prop = Property { name: String::from_str(name), value };
        node.props.push(prop);
        self.nodes.push(node);
        proof {
            let nodes = self.tree();
            assert(node@.props =~= before[last as int].props.push(PropView { name: name@, value: vv }));
            assert(nodes =~= before.update(
                last as int,
                NodeView {
                    props: before.last().props.push(PropView { name: name@, value: vv }),
                    ..before.last()
                },
            ));
            assert(nodes.len() == before.len());
            assert(nodes[last as int].depth == before[last as int].depth);
            assert forall|k: int| 0 <= k < nodes.len() implies #[trigger] nodes[k].depth
                == before[k].depth by {
                if k < last {
                    assert(nodes[k] == before[k]);
                }
            }
            assert forall|k: int| 1 <= k < nodes.len() implies 1 <= #[trigger] nodes[k].depth
                <= nodes[k - 1].depth + 1 by {
                if k < nodes.len() - 1 {
                    assert(nodes[k] == old(self).tree()[k]);
                }
                assert(nodes[k - 1].depth == old(self).tree()[k - 1].depth);
            }
        }
        true
    }
    /// Position of the first child of node `pos` named `name`.
    pub fn find_child_at(&self, pos: usize, name: &str) -> (r: Option<usize>)
        requires
            nodes_wf(self.tree()),
            pos < self.tree().len(),
        ensures
            r matches Some(j) ==> child_named(self.tree(), pos as int, name@) == Some(j as int),
            r is None ==> child_named(self.tree(), pos as int, name@) is None,
            r matches Some(j) ==> pos < j < self.tree().len(),
    {
        let n = self.nodes.len();
        let d = self.nodes[pos].depth;
        let mut j: usize = pos + 1;
        while j < n && self.nodes[j].depth > d
            invariant
                n == self.tree().len(),
                pos < j <= n,
                d == self.tree()[pos as int].depth,
                child_named(self.tree(), pos as int, name@) == scan_child(
                    self.tree(),
                    d as int,
                    j as int,
                    name@,
                ),
            decreases n - j,
        {
            if self.nodes[j].depth - 1 == d && names_equal(self.nodes[j].name.as_str(), name) {
                return Some(j);
            }
            j = j + 1;
        }
        None
    }

    /// Index of the first property of node `pos` named `name`.
    pub fn prop_index_at(&self, pos: usize, name: &str) -> (r: Option<usize>)
        requires
            pos < self.tree().len(),
        ensures
            r matches Some(k) ==> prop_index(self.tree()[pos as int].props, name@) == Some(k as int),
            r is None ==> prop_index(self.tree()[pos as int].props, name@) is None,
            r matches Some(k) ==> k < self.tree()[pos as int].props.len(),
    {
        let props = &self.nodes[pos].props;
        let n = props.len();
        let mut k: usize = 0;
        while k < n
            invariant
                n == props@.len(),
                props@.map_values(|p: Property| p@) == self.tree()[pos as int].props,
                k <= n,
                prop_index(self.tree()[pos as int].props, name@) == prop_index_from(
                    self.tree()[pos as int].props,
                    k as int,
                    name@,
                ),
            decreases n - k,
        {
            if names_equal(props[k].name.as_str(), name) {
                return Some(k);
            }
            k = k + 1;
        }
        None
    }

    /// Overwrites the numeric property `name` of node `pos` in place, at the
    /// width it already has.
    pub fn write_number(&mut self, pos: usize, name: &str, value: u64) -> (r: Result<(), ()>)
        requires
            nodes_wf(old(self).tree()),
            pos < old(self).tree().len(),
        ensures
            final(self).magic == old(self).magic,
            final(self).total_size == old(self).total_size,
            final(self).reservations@ == old(self).reservations@,
            nodes_wf(final(self).tree()),
            r is Ok <==> (node_prop(old(self).tree(), pos as int, name@) matches Some(v)
                && decode(v) is Some),
            r is Ok ==> final(self).tree() == set_prop(
                old(self).tree(),
                pos as int,
                prop_index(old(self).tree()[pos as int].props, name@)->0,
                be_bytes(value as nat, node_prop(old(self).tree(), pos as int, name@)->0.len()),
            ),
            r is Err ==> final(self).tree() == old(self).tree(),
    {
        let k = match self.prop_index_at(pos, name) {
            Some(k) => k,
            None => return Err(()),
        };
        let w = self.nodes[pos].props[k].value.len();
        proof {
            assert(self.tree()[pos as int].props[k as int].value == self.nodes@[pos as int].props@[
                k as int].value@);
            assert(node_prop(self.tree(), pos as int, name@) == Some(
                self.tree()[pos as int].props[k as int].value,
            ));
            assert(self.tree()[pos as int].props[k as int].value.len() == w);
        }
        if w != 4 && w != 8 {
            return Err(());
        }
        let ghost before = self.tree();
        let ghost before_nodes = self.nodes@;
        let res = write_number(&mut self.nodes[pos].props[k].value, value);
        proof {
            let pn = before_nodes[pos as int];
            assert(self.nodes@[pos as int]@.props =~= before[pos as int].props.update(
                k as int,
                PropView { name: before[pos as int].props[k as int].name, value: self.nodes@[pos as int].props@[k as int].value@ },
            ));
            assert(self.tree() =~= set_prop(before, pos as int, k as int, self.nodes@[pos as int].props@[k as int].value@));
            assert forall|i: int| 1 <= i < self.tree().len() implies 1 <= #[trigger] self.tree()[
                i].depth <= self.tree()[i - 1].depth + 1 by {
                assert(self.tree()[i].depth == before[i].depth);
                assert(self.tree()[i - 1].depth == before[i - 1].depth);
            }
        }
        res
    }

    /// Adds an entry to the reservation block, before its terminating zero
    /// entry, and grows the recorded size by one entry.
    pub fn add_mem_reservation(&mut self, address: u64, size: u64)
        requires
            reservations_wf(old(self).reservations@),
        ensures
            reservations_wf(final(self).reservations@),
            reserved(final(self).reservations@) == reserved(old(self).reservations@).push(
                MemReservation { address, size },
            ),
            final(self).total_size == grown_size(old(self).total_size),
            final(self).magic == old(self).magic,
            final(self).tree() == old(self).tree(),
    {
        let last = self.reservations.len() - 1;
        self.reservations.set(last, MemReservation { address, size });
        self.reservations.push(MemReservation { address: 0, size: 0 });
        self.total_size = self.total_size.saturating_add(FDT_RESERVATION_SIZE);
        proof {
            assert(reserved(self.reservations@) =~= reserved(old(self).reservations@).push(
                MemReservation { address, size },
            ));
        }
    }
}

/// A cursor designating one node of a tree; position 0 is the document
/// level, whose child is the root node (named "").
#[derive(Clone, Copy)]
pub struct FdtNode<'a> {
    pub fdt: &'a FdtHeader,
    pub pos: usize,
}

impl<'a> FdtNode<'a> {
    /// The cursor designates a node of a well-formed tree.
    pub open spec fn wf(&self) -> bool {
        self.fdt.wf() && self.pos < self.fdt.tree().len()
    }

    /// The tree under the cursor.
    pub open spec fn tree(&self) -> Seq<NodeView> {
        self.fdt.tree()
    }

    /// A cursor at the document level of `fdt`, if its header and shape are
    /// valid.
    pub fn new_root(fdt: &'a FdtHeader) -> (r: Option<FdtNode<'a>>)
        ensures
            r is Some <==> fdt.wf(),
            r matches Some(n) ==> n.fdt == fdt && n.pos == 0,
    {
        if fdt.validate() {
            Some(FdtNode { fdt, pos: 0 })
        } else {
            None
        }
    }

    /// Moves the cursor to its child named `name`, if there is one; otherwise
    /// leaves it where it is. Only immediate children are looked at, first
    /// match in document order.
    pub fn find_child(&mut self, name: &str) -> (r: Option<()>)
        requires
            old(self).wf(),
        ensures
            final(self).fdt == old(self).fdt,
            final(self).wf(),
            match child_named(old(self).tree(), old(self).pos as int, name@) {
                Some(j) => r is Some && final(self).pos == j,
                None => r is None && final(self).pos == old(self).pos,
            },
    {
        match self.fdt.find_child_at(self.pos, name) {
            Some(j) => {
                self.pos = j;
                Some(())
            },
            None => None,
        }
    }

    /// The value of the current node's property `name`.
    pub fn read_property(&self, name: &str) -> (r: Result<&'a [u8], ()>)
        requires
            self.wf(),
        ensures
            match node_prop(self.tree(), self.pos as int, name@) {
                Some(v) => r matches Ok(d) && d@ == v,
                None => r is Err,
            },
    {
        let fdt: &'a FdtHeader = self.fdt;
        match fdt.prop_index_at(self.pos, name) {
            Some(k) => {
                proof {
                    assert(fdt.tree()[self.pos as int].props[k as int].value == fdt.nodes@[
                        self.pos as int].props@[k as int].value@);
                }
                Ok(fdt.nodes[self.pos].props[k].value.as_slice())
            },
            None => Err(()),
        }
    }

    /// The current node's property `name` decoded as a number.
    pub fn read_number(&self, name: &str) -> (r: Result<u64, ()>)
        requires
            self.wf(),
        ensures
            match node_prop(self.tree(), self.pos as int, name@) {
                Some(v) => match decode(v) {
                    Some(x) => r == Ok::<u64, ()>(x),
                    None => r is Err,
                },
                None => r is Err,
            },
    {
        let data = self.read_property(name)?;
        match convert_number(data) {
            Some(x) => Ok(x),
            None => Err(()),
        }
    }
}

/// The blob's recorded size after one reservation entry is added.
pub open spec fn grown_size(s: u32) -> u32 {
    if s + FDT_RESERVATION_SIZE <= u32::MAX {
        (s + FDT_RESERVATION_SIZE) as u32
    } else {
        u32::MAX
    }
}

proof fn lemma_prop_index_same_names(a: Seq<PropView>, b: Seq<PropView>, k: int, name: Seq<char>)
    requires
        a.len() == b.len(),
        forall|i: int| 0 <= i < a.len() ==> #[trigger] a[i].name == b[i].name,
    ensures
        prop_index_from(a, k, name) == prop_index_from(b, k, name),
    decreases a.len() - k,
{
    if 0 <= k < a.len() {
        lemma_prop_index_same_names(a, b, k + 1, name);
    }
}

proof fn lemma_prop_index_found(a: Seq<PropView>, k: int, name: Seq<char>)
    ensures
        prop_index_from(a, k, name) matches Some(j) ==> 0 <= j < a.len() && a[j].name == name,
    decreases a.len() - k,
{
    if 0 <= k < a.len() {
        lemma_prop_index_found(a, k + 1, name);
    }
}

/// Writing one property leaves the lookup of a differently named one as it
/// was.
pub proof fn lemma_set_prop_other(
    t: Seq<NodeView>,
    c: int,
    name1: Seq<char>,
    v: Seq<u8>,
    name2: Seq<char>,
)
    requires
        0 <= c < t.len(),
        prop_index(t[c].props, name1) is Some,
        name1 != name2,
    ensures
        ({
            let t1 = set_prop(t, c, prop_index(t[c].props, name1)->0, v);
            &&& node_prop(t1, c, name2) == node_prop(t, c, name2)
            &&& prop_index(t1[c].props, name2) == prop_index(t[c].props, name2)
            &&& t1.len() == t.len()
        }),
{
    let k = prop_index(t[c].props, name1)->0;
    let t1 = set_prop(t, c, k, v);
    lemma_prop_index_found(t[c].props, 0, name1);
    lemma_prop_index_same_names(t[c].props, t1[c].props, 0, name2);
    lemma_prop_index_found(t[c].props, 0, name2);
}

/// Trees with the same depths and node names.
pub open spec fn same_outline(a: Seq<NodeView>, b: Seq<NodeView>) -> bool {
    &&& a.len() == b.len()
    &&& forall|i: int|
        0 <= i < a.len() ==> #[trigger] a[i].depth == b[i].depth && a[i].name == b[i].name
}

/// Looking a child up by name depends on depths and names alone.
pub proof fn lemma_scan_child_outline(
    a: Seq<NodeView>,
    b: Seq<NodeView>,
    d: int,
    j: int,
    name: Seq<char>,
)
    requires
        same_outline(a, b),
    ensures
        scan_child(a, d, j, name) == scan_child(b, d, j, name),
    decreases a.len() - j,
{
    if 0 <= j < a.len() {
        assert(a[j].depth == b[j].depth && a[j].name == b[j].name);
        lemma_scan_child_outline(a, b, d, j + 1, name);
    }
}

/// A child found by name lies within the tree.
pub proof fn lemma_scan_child_found(a: Seq<NodeView>, d: int, j: int, name: Seq<char>)
    ensures
        scan_child(a, d, j, name) matches Some(k) ==> 0 <= k < a.len() && j <= k,
    decreases a.len() - j,
{
    if 0 <= j < a.len() {
        lemma_scan_child_found(a, d, j + 1, name);
    }
}

/// Writing a property makes it read back the value written.
pub proof fn lemma_set_prop_reads(t: Seq<NodeView>, c: int, name: Seq<char>, v: Seq<u8>)
    requires
        0 <= c < t.len(),
        prop_index(t[c].props, name) is Some,
    ensures
        node_prop(set_prop(t, c, prop_index(t[c].props, name)->0, v), c, name) == Some(v),
{
    let k = prop_index(t[c].props, name)->0;
    let t1 = set_prop(t, c, k, v);
    lemma_prop_index_found(t[c].props, 0, name);
    lemma_prop_index_same_names(t[c].props, t1[c].props, 0, name);
}

/// `nodes` with the value of property `k` of node `pos` replaced by `v`.
pub open spec fn set_prop(nodes: Seq<NodeView>, pos: int, k: int, v: Seq<u8>) -> Seq<NodeView> {
    nodes.update(
        pos,
        NodeView {
            props: nodes[pos].props.update(k, PropView { name: nodes[pos].props[k].name, value: v }),
            ..nodes[pos]
        },
    )
}

} // verus!
