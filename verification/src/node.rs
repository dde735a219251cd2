//! The nodes of the radix index.
//!
//! A node holds the edge that leads to it, a table of its children by key
//! byte, the pointer of its parent and the values of the key that ends at
//! it. There are four size classes, which differ in how many children the
//! table can take and in how it finds them; all four offer the operations of
//! [`ArtNode`], and [`Node`] is any one of them.
use crate::codec::{NodeType, Pointer};
use crate::table::{fill, ChildTable, DirectTable, IndexedTable, LinearTable, NodeOpRes};
use vstd::prelude::*;

verus! {

/// Bytes at the end of the wire form of a node of each class that the key
/// array and the pointer array do not take: they hold the edge and the
/// reference to the values.
pub const NODE4_FREE_LEN: u16 = 28;

pub const NODE16_FREE_LEN: u16 = 72;

pub const NODE48_FREE_LEN: u16 = 24;

pub const NODE256_FREE_LEN: u16 = 56;

/// Greatest length of an edge: what the tightest class leaves free, less
/// the reference to the values (a type byte and six bytes). An edge of this
/// length fits a node of every class, so that a node can change its class
/// and keep its edge.
pub const MAX_EDGE_LEN: usize = 17;

/// What a node says, whatever its class.
pub struct NodeView {
    /// The size class.
    pub tp: NodeType,
    /// The bytes of the key that lead from the parent to this node.
    pub edge: Seq<u8>,
    /// The children by the first byte of their edge.
    pub children: Map<u8, Pointer>,
    /// The parent; the null pointer in a node without parent.
    pub parent: Pointer,
    /// The values of the key that ends at this node.
    pub values: Seq<Seq<u8>>,
}

/// The values of `v` as byte sequences.
pub open spec fn values_view(v: Seq<Vec<u8>>) -> Seq<Seq<u8>> {
    Seq::new(v.len(), |i: int| v[i]@)
}

/// The class that a node grows into; none for the largest.
pub open spec fn spec_larger(tp: NodeType) -> Option<NodeType> {
    match tp {
        NodeType::N4 => Some(NodeType::N16),
        NodeType::N16 => Some(NodeType::N48),
        NodeType::N48 => Some(NodeType::N256),
        NodeType::N256 => None,
    }
}

/// The class that a node shrinks into; none for the smallest.
pub open spec fn spec_smaller(tp: NodeType) -> Option<NodeType> {
    match tp {
        NodeType::N4 => None,
        NodeType::N16 => Some(NodeType::N4),
        NodeType::N48 => Some(NodeType::N16),
        NodeType::N256 => Some(NodeType::N48),
    }
}

/// A node of the class is due to shrink once it has fewer children than
/// this.
pub open spec fn spec_low_water(tp: NodeType) -> nat {
    match tp {
        NodeType::N4 => 0,
        NodeType::N16 => 3,
        NodeType::N48 => 15,
        NodeType::N256 => 46,
    }
}

/// Bytes that the wire form of a node of class `tp` with an edge of
/// `edge_len` bytes takes: state and edge length, the parent pointer, the
/// key array, the pointer array, the edge, and the reference to the values.
pub open spec fn spec_wire_len(tp: NodeType, edge_len: nat) -> nat {
    let tables: nat = match tp {
        NodeType::N4 => 4 + 4 * 6,
        NodeType::N16 => 16 + 16 * 6,
        NodeType::N48 => 256 + 48 * 6,
        NodeType::N256 => 256 * 6,
    };
    2 + 6 + tables + edge_len + 7
}

/// A node with an edge of at most `MAX_EDGE_LEN` bytes fits the slot of
/// its class.
pub proof fn lemma_wire_len_fits(tp: NodeType, edge_len: nat)
    requires
        edge_len <= MAX_EDGE_LEN,
    ensures
        spec_wire_len(tp, edge_len) <= tp.spec_size(),
{
}

/// What a node says after it grew into the next larger class.
pub open spec fn spec_grown(v: NodeView) -> NodeView {
    NodeView { tp: spec_larger(v.tp)->0, ..v }
}

/// What a node says after it shrank into the next smaller class.
pub open spec fn spec_shrunk(v: NodeView) -> NodeView {
    NodeView { tp: spec_smaller(v.tp)->0, ..v }
}

/// A node that grows and then shrinks is in its class again, has room
/// there for its children, and says what it said: it has the same edge,
/// the same children, the same parent and the same values.
pub proof fn lemma_grow_shrink_round_trip(v: NodeView)
    requires
        spec_larger(v.tp) is Some,
        v.children.dom().len() <= v.tp.spec_capacity(),
    ensures
        spec_smaller(spec_grown(v).tp) == Some(v.tp),
        spec_grown(v).children.dom().len() <= spec_smaller(spec_grown(v).tp)->0.spec_capacity(),
        spec_shrunk(spec_grown(v)) == v,
{
}

/// A copy of `v`.
pub fn copy_bytes(v: &[u8]) -> (r: Vec<u8>)
    ensures
        r@ == v@,
{
    let mut r: Vec<u8> = Vec::new();
    let mut i: usize = 0;
    while i < v.len()
        invariant
            i <= v@.len(),
            r@ == v@.subrange(0, i as int),
        decreases v@.len() - i,
    {
        r.push(v[i]);
        assert(r@ =~= v@.subrange(0, i + 1));
        i += 1;
    }
    assert(r@ =~= v@);
    r
}

/// A copy of `v`, value by value.
pub fn copy_values(v: &Vec<Vec<u8>>) -> (r: Vec<Vec<u8>>)
    ensures
        values_view(r@) == values_view(v@),
{
    let mut r: Vec<Vec<u8>> = Vec::new();
    let mut i: usize = 0;
    while i < v.len()
        invariant
            i <= v@.len(),
            r@.len() == i,
            forall|j: int| 0 <= j < i ==> (#[trigger] r@[j])@ == v@[j]@,
        decreases v@.len() - i,
    {
        r.push(copy_bytes(v[i].as_slice()));
        i += 1;
    }
    assert(values_view(r@) =~= values_view(v@));
    r
}

/// The uniform operation set of the nodes.
pub trait ArtNode: View<V = NodeView> + Sized {
    /// The node is well formed: its child table is, and it fits the slot of
    /// its class.
    spec fn wf(&self) -> bool;

    /// A well-formed node has finitely many children, no more than its
    /// class can hold, none of them null, and fits the slot of its class.
    proof fn lemma_wf(&self)
        requires
            self.wf(),
        ensures
            self@.children.dom().finite(),
            self@.children.dom().len() <= self@.tp.spec_capacity(),
            forall|b: u8|
                self@.children.dom().contains(b) ==> !(#[trigger] self@.children[b]).spec_is_null(),
            self@.edge.len() <= MAX_EDGE_LEN,
            spec_wire_len(self@.tp, self@.edge.len()) <= self@.tp.spec_size(),
    ;

    /// The size class of the node.
    fn node_type(&self) -> (tp: NodeType)
        ensures
            tp == self@.tp,
    ;

    /// The node is full: it must grow before it takes another child.
    fn need_expand(&self) -> (b: bool)
        requires
            self.wf(),
        ensures
            b == (spec_larger(self@.tp) is Some && self@.children.dom().len()
                == self@.tp.spec_capacity()),
    ;

    /// The node has fewer children than the low-water mark of its class.
    fn need_shrink(&self) -> (b: bool)
        requires
            self.wf(),
        ensures
            b == (self@.children.dom().len() < spec_low_water(self@.tp)),
    ;

    /// Replaces the edge, where the new one is not longer than
    /// `MAX_EDGE_LEN`.
    fn set_edge(&mut self, edge: &[u8]) -> (r: NodeOpRes)
        requires
            old(self).wf(),
        ensures
            final(self).wf(),
            edge@.len() > MAX_EDGE_LEN ==> r == NodeOpRes::NotEnoughSpace && final(self)@ == old(
                self,
            )@,
            edge@.len() <= MAX_EDGE_LEN ==> r == NodeOpRes::Succ && final(self)@ == (NodeView {
                edge: edge@,
                ..old(self)@
            }),
    ;

    fn get_edge(&self) -> (e: &Vec<u8>)
        ensures
            e@ == self@.edge,
    ;

    /// The child of `key`.
    fn get_child(&self, key: u8) -> (r: Option<Pointer>)
        requires
            self.wf(),
        ensures
            r == if self@.children.dom().contains(key) {
                Some(self@.children[key])
            } else {
                None
            },
    ;

    /// Stores `child` as the child of `key`. A key that has a child keeps
    /// it, and a full node takes no child. The null pointer stands for no
    /// child: storing it takes the child of `key` out.
    fn set_child(&mut self, key: u8, child: Pointer) -> (r: NodeOpRes)
        requires
            old(self).wf(),
        ensures
            final(self).wf(),
            r == if child.spec_is_null() {
                NodeOpRes::Succ
            } else if old(self)@.children.dom().contains(key) {
                NodeOpRes::ChildExists
            } else if old(self)@.children.dom().len() >= old(self)@.tp.spec_capacity() {
                NodeOpRes::NotEnoughSpace
            } else {
                NodeOpRes::Succ
            },
            final(self)@ == (NodeView {
                children: if child.spec_is_null() {
                    old(self)@.children.remove(key)
                } else if r == NodeOpRes::Succ {
                    old(self)@.children.insert(key, child)
                } else {
                    old(self)@.children
                },
                ..old(self)@
            }),
    ;

    /// Takes the child of `key` out.
    fn del_child(&mut self, key: u8)
        requires
            old(self).wf(),
        ensures
            final(self).wf(),
            final(self)@ == (NodeView {
                children: old(self)@.children.remove(key),
                ..old(self)@
            }),
    ;

    /// The edge-skip distance that the pointer of the child of `key` holds;
    /// 0 where `key` has no child.
    fn get_child_distance(&self, key: u8) -> (d: u8)
        requires
            self.wf(),
        ensures
            d == if self@.children.dom().contains(key) {
                self@.children[key].spec_distance()
            } else {
                0
            },
    ;

    /// The children with their keys, each key once.
    fn get_children(&self) -> (r: Vec<(u8, Pointer)>)
        requires
            self.wf(),
        ensures
            crate::table::entries_of(r@, self@.children),
            r@.len() == self@.children.dom().len(),
    ;

    /// The node has no child.
    fn empty(&self) -> (b: bool)
        requires
            self.wf(),
        ensures
            b == (self@.children.dom().len() == 0),
            b == (self@.children.dom() == Set::<u8>::empty()),
    ;

    /// Adds `val` to the values of the node.
    fn set_value(&mut self, val: Vec<u8>)
        requires
            old(self).wf(),
        ensures
            final(self).wf(),
            final(self)@ == (NodeView { values: old(self)@.values.push(val@), ..old(self)@ }),
    ;

    fn get_values(&self) -> (v: &Vec<Vec<u8>>)
        ensures
            values_view(v@) == self@.values,
    ;

    /// Takes all values out of the node.
    fn del_values(&mut self)
        requires
            old(self).wf(),
        ensures
            final(self).wf(),
            final(self)@ == (NodeView { values: Seq::<Seq<u8>>::empty(), ..old(self)@ }),
    ;

    fn set_parent(&mut self, pare: Pointer)
        requires
            old(self).wf(),
        ensures
            final(self).wf(),
            final(self)@ == (NodeView { parent: pare, ..old(self)@ }),
    ;

    fn get_parent(&self) -> (p: Pointer)
        ensures
            p == self@.parent,
    ;
}

/// A node with room for four children.
pub struct Node4 {
    edge: Vec<u8>,
    table: LinearTable,
    parent: Pointer,
    values: Vec<Vec<u8>>,
}

impl View for Node4 {
    type V = NodeView;

    closed spec fn view(&self) -> NodeView {
        NodeView {
            tp: NodeType::N4,
            edge: self.edge@,
            children: self.table.children(),
            parent: self.parent,
            values: values_view(self.values@),
        }
    }
}

impl Node4 {
    /// A node of this type is of the class `N4`, whatever it holds.
    pub proof fn lemma_class(&self)
        ensures
            self@.tp == NodeType::N4,
    {
    }

    /// A node with an empty edge, no child, no parent and no value.
    pub fn new() -> (n: Node4)
        ensures
            n.wf(),
            n@ == (NodeView {
                tp: NodeType::N4,
                edge: Seq::<u8>::empty(),
                children: Map::<u8, Pointer>::empty(),
                parent: Pointer { tag: 0, info: 0, addr: 0 },
                values: Seq::<Seq<u8>>::empty(),
            }),
    {
        let n = Node4 {
            edge: Vec::new(),
            table: LinearTable::new(4),
            parent: Pointer::null(),
            values: Vec::new(),
        };
        assert(values_view(n.values@) =~= Seq::<Seq<u8>>::empty());
        n
    }

    /// The same node in the next larger class.
    pub fn expand(&self) -> (n: Node16)
        requires
            self.wf(),
        ensures
            n.wf(),
            n@ == (NodeView { tp: NodeType::N16, ..self@ }),
    {
        let e = self.table.entries();
        let mut t = LinearTable::new(16);
        proof {
            self.table.lemma_wf();
        }
        let ok = fill(&mut t, &e, Ghost(self.table.children()));
        Node16 {
            edge: copy_bytes(self.edge.as_slice()),
            table: t,
            parent: self.parent,
            values: copy_values(&self.values),
        }
    }
}

impl ArtNode for Node4 {
    closed spec fn wf(&self) -> bool {
        &&& self.table.wf()
        &&& self.table.spec_capacity() == 4
        &&& self.edge@.len() <= MAX_EDGE_LEN
    }

    proof fn lemma_wf(&self) {
        self.table.lemma_wf();
    }

    fn node_type(&self) -> (tp: NodeType) {
        NodeType::N4
    }

    fn need_expand(&self) -> (b: bool) {
        self.table.count() == 4
    }

    fn need_shrink(&self) -> (b: bool) {
        false
    }

    fn set_edge(&mut self, edge: &[u8]) -> (r: NodeOpRes) {
        if edge.len() > MAX_EDGE_LEN {
            return NodeOpRes::NotEnoughSpace;
        }
        self.edge = copy_bytes(edge);
        NodeOpRes::Succ
    }

    fn get_edge(&self) -> (e: &Vec<u8>) {
        &self.edge
    }

    fn get_child(&self, key: u8) -> (r: Option<Pointer>) {
        self.table.get(key)
    }

    fn set_child(&mut self, key: u8, child: Pointer) -> (r: NodeOpRes) {
        if child.is_null() {
            self.table.del(key);
            NodeOpRes::Succ
        } else {
            self.table.set(key, child)
        }
    }

    fn del_child(&mut self, key: u8) {
        self.table.del(key);
    }

    fn get_child_distance(&self, key: u8) -> (d: u8) {
        match self.table.get(key) {
            Some(p) => p.distance(),
            None => 0,
        }
    }

    fn get_children(&self) -> (r: Vec<(u8, Pointer)>) {
        let r = self.table.entries();
        proof {
            crate::table::lemma_entries_len(r@, self.table.children());
        }
        r
    }

    fn empty(&self) -> (b: bool) {
        proof {
            self.table.lemma_wf();
            if self.table.children().dom().len() == 0 {
                self.table.children().dom().lemma_len0_is_empty();
            }
        }
        self.table.count() == 0
    }

    fn set_value(&mut self, val: Vec<u8>) {
        self.values.push(val);
        assert(values_view(self.values@) =~= values_view(old(self).values@).push(val@));
    }

    fn get_values(&self) -> (v: &Vec<Vec<u8>>) {
        &self.values
    }

    fn del_values(&mut self) {
        self.values = Vec::new();
        assert(values_view(self.values@) =~= Seq::<Seq<u8>>::empty());
    }

    fn set_parent(&mut self, pare: Pointer) {
        self.parent = pare;
    }

    fn get_parent(&self) -> (p: Pointer) {
        self.parent
    }
}

/// A node with room for sixteen children.
pub struct Node16 {
    edge: Vec<u8>,
    table: LinearTable,
    parent: Pointer,
    values: Vec<Vec<u8>>,
}

impl View for Node16 {
    type V = NodeView;

    closed spec fn view(&self) -> NodeView {
        NodeView {
            tp: NodeType::N16,
            edge: self.edge@,
            children: self.table.children(),
            parent: self.parent,
            values: values_view(self.values@),
        }
    }
}

impl Node16 {
    /// A node of this type is of the class `N16`, whatever it holds.
    pub proof fn lemma_class(&self)
        ensures
            self@.tp == NodeType::N16,
    {
    }

    /// A node with an empty edge, no child, no parent and no value.
    pub fn new() -> (n: Node16)
        ensures
            n.wf(),
            n@ == (NodeView {
                tp: NodeType::N16,
                edge: Seq::<u8>::empty(),
                children: Map::<u8, Pointer>::empty(),
                parent: Pointer { tag: 0, info: 0, addr: 0 },
                values: Seq::<Seq<u8>>::empty(),
            }),
    {
        let n = Node16 {
            edge: Vec::new(),
            table: LinearTable::new(16),
            parent: Pointer::null(),
            values: Vec::new(),
        };
        assert(values_view(n.values@) =~= Seq::<Seq<u8>>::empty());
        n
    }

    /// The same node in the next larger class.
    pub fn expand(&self) -> (n: Node48)
        requires
            self.wf(),
        ensures
            n.wf(),
            n@ == (NodeView { tp: NodeType::N48, ..self@ }),
    {
        let e = self.table.entries();
        let mut t = IndexedTable::new();
        proof {
            self.table.lemma_wf();
        }
        let ok = fill(&mut t, &e, Ghost(self.table.children()));
        Node48 {
            edge: copy_bytes(self.edge.as_slice()),
            table: t,
            parent: self.parent,
            values: copy_values(&self.values),
        }
    }

    /// The same node in the next smaller class; none where it has more
    /// children than that class holds.
    pub fn shrink(&self) -> (r: Option<Node4>)
        requires
            self.wf(),
        ensures
            r is Some <==> self@.children.dom().len() <= NodeType::N4.spec_capacity(),
            r matches Some(n) ==> n.wf() && n@ == (NodeView { tp: NodeType::N4, ..self@ }),
    {
        let e = self.table.entries();
        let mut t = LinearTable::new(4);
        proof {
            self.table.lemma_wf();
        }
        let ok = fill(&mut t, &e, Ghost(self.table.children()));
        if !ok {
            return None;
        }
        Some(
            Node4 {
                edge: copy_bytes(self.edge.as_slice()),
                table: t,
                parent: self.parent,
                values: copy_values(&self.values),
            },
        )
    }
}

impl ArtNode for Node16 {
    closed spec fn wf(&self) -> bool {
        &&& self.table.wf()
        &&& self.table.spec_capacity() == 16
        &&& self.edge@.len() <= MAX_EDGE_LEN
    }

    proof fn lemma_wf(&self) {
        self.table.lemma_wf();
    }

    fn node_type(&self) -> (tp: NodeType) {
        NodeType::N16
    }

    fn need_expand(&self) -> (b: bool) {
        self.table.count() == 16
    }

    fn need_shrink(&self) -> (b: bool) {
        self.table.count() < 3
    }

    fn set_edge(&mut self, edge: &[u8]) -> (r: NodeOpRes) {
        if edge.len() > MAX_EDGE_LEN {
            return NodeOpRes::NotEnoughSpace;
        }
        self.edge = copy_bytes(edge);
        NodeOpRes::Succ
    }

    fn get_edge(&self) -> (e: &Vec<u8>) {
        &self.edge
    }

    fn get_child(&self, key: u8) -> (r: Option<Pointer>) {
        self.table.get(key)
    }

    fn set_child(&mut self, key: u8, child: Pointer) -> (r: NodeOpRes) {
        if child.is_null() {
            self.table.del(key);
            NodeOpRes::Succ
        } else {
            self.table.set(key, child)
        }
    }

    fn del_child(&mut self, key: u8) {
        self.table.del(key);
    }

    fn get_child_distance(&self, key: u8) -> (d: u8) {
        match self.table.get(key) {
            Some(p) => p.distance(),
            None => 0,
        }
    }

    fn get_children(&self) -> (r: Vec<(u8, Pointer)>) {
        let r = self.table.entries();
        proof {
            crate::table::lemma_entries_len(r@, self.table.children());
        }
        r
    }

    fn empty(&self) -> (b: bool) {
        proof {
            self.table.lemma_wf();
            if self.table.children().dom().len() == 0 {
                self.table.children().dom().lemma_len0_is_empty();
            }
        }
        self.table.count() == 0
    }

    fn set_value(&mut self, val: Vec<u8>) {
        self.values.push(val);
        assert(values_view(self.values@) =~= values_view(old(self).values@).push(val@));
    }

    fn get_values(&self) -> (v: &Vec<Vec<u8>>) {
        &self.values
    }

    fn del_values(&mut self) {
        self.values = Vec::new();
        assert(values_view(self.values@) =~= Seq::<Seq<u8>>::empty());
    }

    fn set_parent(&mut self, pare: Pointer) {
        self.parent = pare;
    }

    fn get_parent(&self) -> (p: Pointer) {
        self.parent
    }
}

/// A node with room for forty-eight children, found through an index of 256 slot numbers.
pub struct Node48 {
    edge: Vec<u8>,
    table: IndexedTable,
    parent: Pointer,
    values: Vec<Vec<u8>>,
}

impl View for Node48 {
    type V = NodeView;

    closed spec fn view(&self) -> NodeView {
        NodeView {
            tp: NodeType::N48,
            edge: self.edge@,
            children: self.table.children(),
            parent: self.parent,
            values: values_view(self.values@),
        }
    }
}

impl Node48 {
    /// A node of this type is of the class `N48`, whatever it holds.
    pub proof fn lemma_class(&self)
        ensures
            self@.tp == NodeType::N48,
    {
    }

    /// A node with an empty edge, no child, no parent and no value.
    pub fn new() -> (n: Node48)
        ensures
            n.wf(),
            n@ == (NodeView {
                tp: NodeType::N48,
                edge: Seq::<u8>::empty(),
                children: Map::<u8, Pointer>::empty(),
                parent: Pointer { tag: 0, info: 0, addr: 0 },
                values: Seq::<Seq<u8>>::empty(),
            }),
    {
        let n = Node48 {
            edge: Vec::new(),
            table: IndexedTable::new(),
            parent: Pointer::null(),
            values: Vec::new(),
        };
        assert(values_view(n.values@) =~= Seq::<Seq<u8>>::empty());
        n
    }

    /// The same node in the next larger class.
    pub fn expand(&self) -> (n: Node256)
        requires
            self.wf(),
        ensures
            n.wf(),
            n@ == (NodeView { tp: NodeType::N256, ..self@ }),
    {
        let e = self.table.entries();
        let mut t = DirectTable::new();
        proof {
            self.table.lemma_wf();
        }
        let ok = fill(&mut t, &e, Ghost(self.table.children()));
        Node256 {
            edge: copy_bytes(self.edge.as_slice()),
            table: t,
            parent: self.parent,
            values: copy_values(&self.values),
        }
    }

    /// The same node in the next smaller class; none where it has more
    /// children than that class holds.
    pub fn shrink(&self) -> (r: Option<Node16>)
        requires
            self.wf(),
        ensures
            r is Some <==> self@.children.dom().len() <= NodeType::N16.spec_capacity(),
            r matches Some(n) ==> n.wf() && n@ == (NodeView { tp: NodeType::N16, ..self@ }),
    {
        let e = self.table.entries();
        let mut t = LinearTable::new(16);
        proof {
            self.table.lemma_wf();
        }
        let ok = fill(&mut t, &e, Ghost(self.table.children()));
        if !ok {
            return None;
        }
        Some(
            Node16 {
                edge: copy_bytes(self.edge.as_slice()),
                table: t,
                parent: self.parent,
                values: copy_values(&self.values),
            },
        )
    }
}

impl ArtNode for Node48 {
    closed spec fn wf(&self) -> bool {
        &&& self.table.wf()
        &&& self.table.spec_capacity() == 48
        &&& self.edge@.len() <= MAX_EDGE_LEN
    }

    proof fn lemma_wf(&self) {
        self.table.lemma_wf();
    }

    fn node_type(&self) -> (tp: NodeType) {
        NodeType::N48
    }

    fn need_expand(&self) -> (b: bool) {
        self.table.count() == 48
    }

    fn need_shrink(&self) -> (b: bool) {
        self.table.count() < 15
    }

    fn set_edge(&mut self, edge: &[u8]) -> (r: NodeOpRes) {
        if edge.len() > MAX_EDGE_LEN {
            return NodeOpRes::NotEnoughSpace;
        }
        self.edge = copy_bytes(edge);
        NodeOpRes::Succ
    }

    fn get_edge(&self) -> (e: &Vec<u8>) {
        &self.edge
    }

    fn get_child(&self, key: u8) -> (r: Option<Pointer>) {
        self.table.get(key)
    }

    fn set_child(&mut self, key: u8, child: Pointer) -> (r: NodeOpRes) {
        if child.is_null() {
            self.table.del(key);
            NodeOpRes::Succ
        } else {
            self.table.set(key, child)
        }
    }

    fn del_child(&mut self, key: u8) {
        self.table.del(key);
    }

    fn get_child_distance(&self, key: u8) -> (d: u8) {
        match self.table.get(key) {
            Some(p) => p.distance(),
            None => 0,
        }
    }

    fn get_children(&self) -> (r: Vec<(u8, Pointer)>) {
        let r = self.table.entries();
        proof {
            crate::table::lemma_entries_len(r@, self.table.children());
        }
        r
    }

    fn empty(&self) -> (b: bool) {
        proof {
            self.table.lemma_wf();
            if self.table.children().dom().len() == 0 {
                self.table.children().dom().lemma_len0_is_empty();
            }
        }
        self.table.count() == 0
    }

    fn set_value(&mut self, val: Vec<u8>) {
        self.values.push(val);
        assert(values_view(self.values@) =~= values_view(old(self).values@).push(val@));
    }

    fn get_values(&self) -> (v: &Vec<Vec<u8>>) {
        &self.values
    }

    fn del_values(&mut self) {
        self.values = Vec::new();
        assert(values_view(self.values@) =~= Seq::<Seq<u8>>::empty());
    }

    fn set_parent(&mut self, pare: Pointer) {
        self.parent = pare;
    }

    fn get_parent(&self) -> (p: Pointer) {
        self.parent
    }
}

/// A node with one child slot for each key byte.
pub struct Node256 {
    edge: Vec<u8>,
    table: DirectTable,
    parent: Pointer,
    values: Vec<Vec<u8>>,
}

impl View for Node256 {
    type V = NodeView;

    closed spec fn view(&self) -> NodeView {
        NodeView {
            tp: NodeType::N256,
            edge: self.edge@,
            children: self.table.children(),
            parent: self.parent,
            values: values_view(self.values@),
        }
    }
}

impl Node256 {
    /// A node of this type is of the class `N256`, whatever it holds.
    pub proof fn lemma_class(&self)
        ensures
            self@.tp == NodeType::N256,
    {
    }

    /// A node with an empty edge, no child, no parent and no value.
    pub fn new() -> (n: Node256)
        ensures
            n.wf(),
            n@ == (NodeView {
                tp: NodeType::N256,
                edge: Seq::<u8>::empty(),
                children: Map::<u8, Pointer>::empty(),
                parent: Pointer { tag: 0, info: 0, addr: 0 },
                values: Seq::<Seq<u8>>::empty(),
            }),
    {
        let n = Node256 {
            edge: Vec::new(),
            table: DirectTable::new(),
            parent: Pointer::null(),
            values: Vec::new(),
        };
        assert(values_view(n.values@) =~= Seq::<Seq<u8>>::empty());
        n
    }

    /// The same node in the next smaller class; none where it has more
    /// children than that class holds.
    pub fn shrink(&self) -> (r: Option<Node48>)
        requires
            self.wf(),
        ensures
            r is Some <==> self@.children.dom().len() <= NodeType::N48.spec_capacity(),
            r matches Some(n) ==> n.wf() && n@ == (NodeView { tp: NodeType::N48, ..self@ }),
    {
        let e = self.table.entries();
        let mut t = IndexedTable::new();
        proof {
            self.table.lemma_wf();
        }
        let ok = fill(&mut t, &e, Ghost(self.table.children()));
        if !ok {
            return None;
        }
        Some(
            Node48 {
                edge: copy_bytes(self.edge.as_slice()),
                table: t,
                parent: self.parent,
                values: copy_values(&self.values),
            },
        )
    }
}

impl Node256 {
    /// A node in which some key byte has no child is not full.
    pub proof fn lemma_room(&self, key: u8)
        requires
            self.wf(),
            !self@.children.dom().contains(key),
        ensures
            self@.children.dom().len() < 256,
    {
        self.table.lemma_room(key);
    }
}

impl ArtNode for Node256 {
    closed spec fn wf(&self) -> bool {
        &&& self.table.wf()
        &&& self.table.spec_capacity() == 256
        &&& self.edge@.len() <= MAX_EDGE_LEN
    }

    proof fn lemma_wf(&self) {
        self.table.lemma_wf();
    }

    fn node_type(&self) -> (tp: NodeType) {
        NodeType::N256
    }

    fn need_expand(&self) -> (b: bool) {
        false
    }

    fn need_shrink(&self) -> (b: bool) {
        self.table.count() < 46
    }

    fn set_edge(&mut self, edge: &[u8]) -> (r: NodeOpRes) {
        if edge.len() > MAX_EDGE_LEN {
            return NodeOpRes::NotEnoughSpace;
        }
        self.edge = copy_bytes(edge);
        NodeOpRes::Succ
    }

    fn get_edge(&self) -> (e: &Vec<u8>) {
        &self.edge
    }

    fn get_child(&self, key: u8) -> (r: Option<Pointer>) {
        self.table.get(key)
    }

    fn set_child(&mut self, key: u8, child: Pointer) -> (r: NodeOpRes) {
        if child.is_null() {
            self.table.del(key);
            NodeOpRes::Succ
        } else {
            self.table.set(key, child)
        }
    }

    fn del_child(&mut self, key: u8) {
        self.table.del(key);
    }

    fn get_child_distance(&self, key: u8) -> (d: u8) {
        match self.table.get(key) {
            Some(p) => p.distance(),
            None => 0,
        }
    }

    fn get_children(&self) -> (r: Vec<(u8, Pointer)>) {
        let r = self.table.entries();
        proof {
            crate::table::lemma_entries_len(r@, self.table.children());
        }
        r
    }

    fn empty(&self) -> (b: bool) {
        proof {
            self.table.lemma_wf();
            if self.table.children().dom().len() == 0 {
                self.table.children().dom().lemma_len0_is_empty();
            }
        }
        self.table.count() == 0
    }

    fn set_value(&mut self, val: Vec<u8>) {
        self.values.push(val);
        assert(values_view(self.values@) =~= values_view(old(self).values@).push(val@));
    }

    fn get_values(&self) -> (v: &Vec<Vec<u8>>) {
        &self.values
    }

    fn del_values(&mut self) {
        self.values = Vec::new();
        assert(values_view(self.values@) =~= Seq::<Seq<u8>>::empty());
    }

    fn set_parent(&mut self, pare: Pointer) {
        self.parent = pare;
    }

    fn get_parent(&self) -> (p: Pointer) {
        self.parent
    }
}

/// A node of any class.
pub enum Node {
    N4(Node4),
    N16(Node16),
    N48(Node48),
    N256(Node256),
}

impl View for Node {
    type V = NodeView;

    open spec fn view(&self) -> NodeView {
        match self {
            Node::N4(n) => n@,
            Node::N16(n) => n@,
            Node::N48(n) => n@,
            Node::N256(n) => n@,
        }
    }
}

impl Node {
    /// The class of a node is that of the type that it holds.
    pub proof fn lemma_class(&self)
        ensures
            self@.tp == match self {
                Node::N4(_) => NodeType::N4,
                Node::N16(_) => NodeType::N16,
                Node::N48(_) => NodeType::N48,
                Node::N256(_) => NodeType::N256,
            },
    {
    }

    /// The same node in the next larger class; none for the largest.
    pub fn expand(&self) -> (r: Option<Node>)
        requires
            self.wf(),
        ensures
            r is Some <==> spec_larger(self@.tp) is Some,
            r matches Some(n) ==> n.wf() && n@ == spec_grown(self@),
    {
        match self {
            Node::N4(n) => Some(Node::N16(n.expand())),
            Node::N16(n) => Some(Node::N48(n.expand())),
            Node::N48(n) => Some(Node::N256(n.expand())),
            Node::N256(n) => None,
        }
    }

    /// The same node in the next smaller class; none for the smallest, and
    /// none where the node has more children than the smaller class holds.
    pub fn shrink(&self) -> (r: Option<Node>)
        requires
            self.wf(),
        ensures
            r is Some <==> spec_smaller(self@.tp) is Some && self@.children.dom().len()
                <= spec_smaller(self@.tp)->0.spec_capacity(),
            r matches Some(n) ==> n.wf() && n@ == spec_shrunk(self@),
    {
        match self {
            Node::N4(n) => None,
            Node::N16(n) => match n.shrink() {
                Some(m) => Some(Node::N4(m)),
                None => None,
            },
            Node::N48(n) => match n.shrink() {
                Some(m) => Some(Node::N16(m)),
                None => None,
            },
            Node::N256(n) => match n.shrink() {
                Some(m) => Some(Node::N48(m)),
                None => None,
            },
        }
    }
}

impl Node {
    /// A node that need not grow has room for a child under a key byte that
    /// has none.
    pub proof fn lemma_room(&self, key: u8)
        requires
            self.wf(),
            !self@.children.dom().contains(key),
            !(spec_larger(self@.tp) is Some && self@.children.dom().len()
                == self@.tp.spec_capacity()),
        ensures
            self@.children.dom().len() < self@.tp.spec_capacity(),
    {
        self.lemma_wf();
        match self {
            Node::N256(n) => n.lemma_room(key),
            _ => {},
        }
    }
}

impl ArtNode for Node {
    open spec fn wf(&self) -> bool {
        match self {
            Node::N4(n) => n.wf() && n@.tp == NodeType::N4,
            Node::N16(n) => n.wf() && n@.tp == NodeType::N16,
            Node::N48(n) => n.wf() && n@.tp == NodeType::N48,
            Node::N256(n) => n.wf() && n@.tp == NodeType::N256,
        }
    }

    proof fn lemma_wf(&self) {
        match self {
            Node::N4(n) => n.lemma_wf(),
            Node::N16(n) => n.lemma_wf(),
            Node::N48(n) => n.lemma_wf(),
            Node::N256(n) => n.lemma_wf(),
        }
    }

    fn node_type(&self) -> (tp: NodeType) {
        match self {
            Node::N4(n) => n.node_type(),
            Node::N16(n) => n.node_type(),
            Node::N48(n) => n.node_type(),
            Node::N256(n) => n.node_type(),
        }
    }

    fn need_expand(&self) -> (b: bool) {
        match self {
            Node::N4(n) => n.need_expand(),
            Node::N16(n) => n.need_expand(),
            Node::N48(n) => n.need_expand(),
            Node::N256(n) => n.need_expand(),
        }
    }

    fn need_shrink(&self) -> (b: bool) {
        match self {
            Node::N4(n) => n.need_shrink(),
            Node::N16(n) => n.need_shrink(),
            Node::N48(n) => n.need_shrink(),
            Node::N256(n) => n.need_shrink(),
        }
    }

    fn set_edge(&mut self, edge: &[u8]) -> (r: NodeOpRes) {
        match self {
            Node::N4(n) => n.set_edge(edge),
            Node::N16(n) => n.set_edge(edge),
            Node::N48(n) => n.set_edge(edge),
            Node::N256(n) => n.set_edge(edge),
        }
    }

    fn get_edge(&self) -> (e: &Vec<u8>) {
        match self {
            Node::N4(n) => n.get_edge(),
            Node::N16(n) => n.get_edge(),
            Node::N48(n) => n.get_edge(),
            Node::N256(n) => n.get_edge(),
        }
    }

    fn get_child(&self, key: u8) -> (r: Option<Pointer>) {
        match self {
            Node::N4(n) => n.get_child(key),
            Node::N16(n) => n.get_child(key),
            Node::N48(n) => n.get_child(key),
            Node::N256(n) => n.get_child(key),
        }
    }

    fn set_child(&mut self, key: u8, child: Pointer) -> (r: NodeOpRes) {
        match self {
            Node::N4(n) => n.set_child(key, child),
            Node::N16(n) => n.set_child(key, child),
            Node::N48(n) => n.set_child(key, child),
            Node::N256(n) => n.set_child(key, child),
        }
    }

    fn del_child(&mut self, key: u8) {
        match self {
            Node::N4(n) => n.del_child(key),
            Node::N16(n) => n.del_child(key),
            Node::N48(n) => n.del_child(key),
            Node::N256(n) => n.del_child(key),
        }
    }

    fn get_child_distance(&self, key: u8) -> (d: u8) {
        match self {
            Node::N4(n) => n.get_child_distance(key),
            Node::N16(n) => n.get_child_distance(key),
            Node::N48(n) => n.get_child_distance(key),
            Node::N256(n) => n.get_child_distance(key),
        }
    }

    fn get_children(&self) -> (r: Vec<(u8, Pointer)>) {
        match self {
            Node::N4(n) => n.get_children(),
            Node::N16(n) => n.get_children(),
            Node::N48(n) => n.get_children(),
            Node::N256(n) => n.get_children(),
        }
    }

    fn empty(&self) -> (b: bool) {
        match self {
            Node::N4(n) => n.empty(),
            Node::N16(n) => n.empty(),
            Node::N48(n) => n.empty(),
            Node::N256(n) => n.empty(),
        }
    }

    fn set_value(&mut self, val: Vec<u8>) {
        match self {
            Node::N4(n) => n.set_value(val),
            Node::N16(n) => n.set_value(val),
            Node::N48(n) => n.set_value(val),
            Node::N256(n) => n.set_value(val),
        }
    }

    fn get_values(&self) -> (v: &Vec<Vec<u8>>) {
        match self {
            Node::N4(n) => n.get_values(),
            Node::N16(n) => n.get_values(),
            Node::N48(n) => n.get_values(),
            Node::N256(n) => n.get_values(),
        }
    }

    fn del_values(&mut self) {
        match self {
            Node::N4(n) => n.del_values(),
            Node::N16(n) => n.del_values(),
            Node::N48(n) => n.del_values(),
            Node::N256(n) => n.del_values(),
        }
    }

    fn set_parent(&mut self, pare: Pointer) {
        match self {
            Node::N4(n) => n.set_parent(pare),
            Node::N16(n) => n.set_parent(pare),
            Node::N48(n) => n.set_parent(pare),
            Node::N256(n) => n.set_parent(pare),
        }
    }

    fn get_parent(&self) -> (p: Pointer) {
        match self {
            Node::N4(n) => n.get_parent(),
            Node::N16(n) => n.get_parent(),
            Node::N48(n) => n.get_parent(),
            Node::N256(n) => n.get_parent(),
        }
    }
}

/// What stands above the root: it holds the pointer of the root and
/// nothing else, so that the root, like every other node, has a place where
/// its pointer is rewritten when it changes its class.
pub struct Sentinel {
    child: Pointer,
}

impl Sentinel {
    /// The pointer that the sentinel holds; the null pointer where it holds
    /// none.
    pub closed spec fn spec_child(&self) -> Pointer {
        self.child
    }

    /// A sentinel that holds no pointer.
    pub fn new() -> (s: Sentinel)
        ensures
            s.spec_child() == (Pointer { tag: crate::codec::NULL_PTR, info: 0, addr: 0 }),
            s.spec_child().spec_is_null(),
    {
        Sentinel { child: Pointer::null() }
    }

    /// Stores `ch` as the root pointer, whatever the key is.
    pub fn set_child(&mut self, _key: u8, ch: Pointer) -> (b: bool)
        ensures
            b,
            final(self).spec_child() == ch,
    {
        self.child = ch;
        true
    }

    /// The root pointer, whatever the key is; none where it is null.
    pub fn get_child(&self, _key: u8) -> (r: Option<Pointer>)
        ensures
            r == if self.spec_child().spec_is_null() {
                None
            } else {
                Some(self.spec_child())
            },
    {
        if self.child.is_null() {
            None
        } else {
            Some(self.child)
        }
    }

    /// Forgets the root pointer, whatever the key is.
    pub fn del_child(&mut self, _key: u8)
        ensures
            final(self).spec_child().spec_is_null(),
    {
        self.child = Pointer::null();
    }
}

} // verus!
