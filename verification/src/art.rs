//! The radix index: a tree of nodes, each reached from its parent by an
//! edge of one or more key bytes, kept in a store that is indexed by the
//! address of the slot that the pool gave to the node.
//!
//! The key of a node is what the edges on the way from the root to it
//! spell. A key has the values of the node that it leads to; a key that
//! leads to no node has none.
use crate::codec::{NodeType, Pointer, MAX_PAGES, NODE4_SIZE};
use crate::node::{
    copy_bytes, spec_larger, spec_low_water, spec_smaller, values_view, ArtNode, Node, Node4,
    NodeView, Sentinel, MAX_EDGE_LEN,
};
use crate::page::{IndexPool, PAGE_DATA_SIZE};
use crate::record::{decode, encode, record_of, spec_decode, spec_value_count};
use crate::table::NodeOpRes;
use std::collections::HashMap;
use vstd::prelude::*;

verus! {

broadcast use vstd::std_specs::hash::group_hash_axioms;

/// Why an operation on the index failed.
#[derive(Clone, Copy, Debug, PartialEq, Eq, Structural)]
pub enum ArtError {
    /// No page has room for the node and the pool cannot grow.
    AllocationExhausted,
    /// The size class in a pointer is not the class of the node at its
    /// address, or there is no node at its address.
    CorruptPointer,
}

/// The node that the key `k` leads to from the node at `a`: from a node the
/// first byte of the rest of the key picks a child, whose edge must be how
/// the rest of the key begins.
pub open spec fn locate(s: Map<u32, NodeView>, a: u32, k: Seq<u8>) -> Option<u32>
    decreases k.len(),
{
    if !s.dom().contains(a) {
        None
    } else if k.len() == 0 {
        Some(a)
    } else if !s[a].children.dom().contains(k[0]) {
        None
    } else {
        let c = s[a].children[k[0]].addr;
        if s.dom().contains(c) && s[c].edge.len() >= 1 && s[c].edge.is_prefix_of(k) {
            locate(s, c, k.skip(s[c].edge.len() as int))
        } else {
            None
        }
    }
}

/// The values that the key `k` has, seen from the node at `a`.
pub open spec fn values_at(s: Map<u32, NodeView>, a: u32, k: Seq<u8>) -> Seq<Seq<u8>> {
    match locate(s, a, k) {
        Some(n) => s[n].values,
        None => Seq::empty(),
    }
}

/// The child that the node at `a` has under `b` is a node of the store that
/// hangs under `a`: its edge begins with `b`, its parent pointer leads back
/// to `a`, its key is the key of `a` and its edge, and the pointer to it
/// tells its class and the length of its edge.
spec fn child_ok(s: Map<u32, NodeView>, paths: Map<u32, Seq<u8>>, a: u32, b: u8) -> bool {
    let ptr = s[a].children[b];
    let c = ptr.addr;
    &&& !ptr.spec_is_null()
    &&& s.dom().contains(c)
    &&& s[c].edge.len() >= 1
    &&& s[c].edge[0] == b
    &&& s[c].parent.addr == a
    &&& paths[c] == paths[a] + s[c].edge
    &&& ptr.spec_node_type() == s[c].tp
    &&& ptr.spec_distance() == s[c].edge.len()
}

/// The parent pointer of the node at `a` leads to a node of the store that
/// has the node at `a` as its child.
spec fn parent_ok(s: Map<u32, NodeView>, a: u32) -> bool {
    let p = s[a].parent.addr;
    &&& s.dom().contains(p)
    &&& s[a].edge.len() >= 1
    &&& s[p].children.dom().contains(s[a].edge[0])
    &&& s[p].children[s[a].edge[0]].addr == a
}

/// The store holds a tree under `root`, and `paths` gives the key of each
/// of its nodes.
spec fn tree_ok(s: Map<u32, NodeView>, paths: Map<u32, Seq<u8>>, root: u32) -> bool {
    &&& s.dom().contains(root)
    &&& forall|a: u32| s.dom().contains(a) ==> #[trigger] paths.dom().contains(a)
    &&& paths[root] == Seq::<u8>::empty()
    &&& forall|a: u32, b: u8|
        s.dom().contains(a) && s[a].children.dom().contains(b) ==> #[trigger] child_ok(
            s,
            paths,
            a,
            b,
        )
    &&& forall|a: u32| s.dom().contains(a) && a != root ==> #[trigger] parent_ok(s, a)
}

/// The key of a node leads to it: a key that begins with the key of the
/// node at `n` leads from the root where the rest of it leads from `n`.
proof fn lemma_reach(
    s: Map<u32, NodeView>,
    paths: Map<u32, Seq<u8>>,
    root: u32,
    n: u32,
    k: Seq<u8>,
)
    requires
        tree_ok(s, paths, root),
        s.dom().contains(n),
        paths[n].is_prefix_of(k),
    ensures
        locate(s, root, k) == locate(s, n, k.skip(paths[n].len() as int)),
    decreases paths[n].len(),
{
    if n == root {
        assert(k.skip(0) =~= k);
    } else {
        assert(parent_ok(s, n));
        let p = s[n].parent.addr;
        let e = s[n].edge;
        assert(child_ok(s, paths, p, e[0]));
        assert(paths[n] == paths[p] + e);
        assert(paths[p] =~= paths[n].subrange(0, paths[p].len() as int));
        assert(paths[p] =~= k.subrange(0, paths[p].len() as int));
        lemma_reach(s, paths, root, p, k);
        let rest = k.skip(paths[p].len() as int);
        assert(paths[n] =~= k.subrange(0, paths[n].len() as int));
        assert forall|j: int| 0 <= j < e.len() implies e[j] == rest[j] by {
            assert(paths[n][paths[p].len() + j] == e[j]);
            assert(k.subrange(0, paths[n].len() as int)[paths[p].len() + j] == k[paths[p].len()
                + j]);
        }
        assert(rest[0] == e[0]);
        assert(e =~= rest.subrange(0, e.len() as int));
        assert(rest.skip(e.len() as int) =~= k.skip(paths[n].len() as int));
    }
}

/// A key leads only to the node that has it: where the rest `k` of a key
/// leads from the node at `a` to a node, the key of that node is the key
/// of `a` and `k`.
proof fn lemma_located(
    s: Map<u32, NodeView>,
    paths: Map<u32, Seq<u8>>,
    root: u32,
    a: u32,
    k: Seq<u8>,
)
    requires
        tree_ok(s, paths, root),
        s.dom().contains(a),
    ensures
        locate(s, a, k) matches Some(n) ==> s.dom().contains(n) && paths[n] == paths[a] + k,
    decreases k.len(),
{
    if k.len() == 0 {
        assert(paths[a] + k =~= paths[a]);
    } else if s[a].children.dom().contains(k[0]) {
        let c = s[a].children[k[0]].addr;
        assert(child_ok(s, paths, a, k[0]));
        if s[c].edge.is_prefix_of(k) {
            let rest = k.skip(s[c].edge.len() as int);
            lemma_located(s, paths, root, c, rest);
            assert(s[c].edge + rest =~= k);
            assert((paths[a] + s[c].edge) + rest =~= paths[a] + k);
        }
    }
}

/// A node is what its key leads to from the root, and nothing else is.
proof fn lemma_key_leads(
    s: Map<u32, NodeView>,
    paths: Map<u32, Seq<u8>>,
    root: u32,
    k: Seq<u8>,
)
    requires
        tree_ok(s, paths, root),
    ensures
        forall|n: u32| s.dom().contains(n) && #[trigger] paths[n] == k ==> locate(s, root, k) == Some(n),
        locate(s, root, k) matches Some(n) ==> s.dom().contains(n) && paths[n] == k,
{
    assert forall|n: u32| s.dom().contains(n) && #[trigger] paths[n] == k implies locate(s, root, k)
        == Some(n) by {
        assert(k =~= k.subrange(0, k.len() as int));
        lemma_reach(s, paths, root, n, k);
        assert(k.skip(k.len() as int).len() == 0);
    }
    lemma_located(s, paths, root, root, k);
    assert(paths[root] + k =~= k);
}

/// Some node of the store has the key `k`.
spec fn keyed(s: Map<u32, NodeView>, paths: Map<u32, Seq<u8>>, k: Seq<u8>) -> bool {
    exists|n: u32| s.dom().contains(n) && #[trigger] paths[n] == k
}

/// A key leads to a node where some node has it, and nowhere else; and no
/// two nodes have the same key.
proof fn lemma_keyed(s: Map<u32, NodeView>, paths: Map<u32, Seq<u8>>, root: u32, k: Seq<u8>)
    requires
        tree_ok(s, paths, root),
    ensures
        keyed(s, paths, k) <==> locate(s, root, k) is Some,
        forall|n: u32, m: u32|
            s.dom().contains(n) && s.dom().contains(m) && #[trigger] paths[n] == k
                && #[trigger] paths[m] == k ==> n == m,
{
    lemma_key_leads(s, paths, root, k);
    if locate(s, root, k) is Some {
        let n = locate(s, root, k)->0;
        assert(paths[n] == k);
    }
}

/// Where the key of the node at `a` is a beginning of the key of the node
/// at `n`, and shorter, the node at `a` has a child under the next byte of
/// the key of `n`, and the key of that child is a beginning of the key of
/// `n` too.
proof fn lemma_ancestor(s: Map<u32, NodeView>, paths: Map<u32, Seq<u8>>, root: u32, a: u32, n: u32)
    requires
        tree_ok(s, paths, root),
        s.dom().contains(a),
        s.dom().contains(n),
        paths[a].len() < paths[n].len(),
        paths[a].is_prefix_of(paths[n]),
    ensures
        s[a].children.dom().contains(paths[n][paths[a].len() as int]),
        s.dom().contains(s[a].children[paths[n][paths[a].len() as int]].addr),
        paths[s[a].children[paths[n][paths[a].len() as int]].addr].is_prefix_of(paths[n]),
        paths[s[a].children[paths[n][paths[a].len() as int]].addr] == paths[a] + s[s[a].children[paths[n][paths[a].len() as int]].addr].edge,
    decreases paths[n].len(),
{
    let pa = paths[a];
    let pn = paths[n];
    assert(n != root);
    lemma_parent_of(s, paths, root, n);
    let p = s[n].parent.addr;
    let pp = paths[p];
    let e = s[n].edge;
    assert(pn == pp + e);
    assert(pa =~= pn.subrange(0, pa.len() as int));
    assert(pp =~= pn.subrange(0, pp.len() as int));
    if pp.len() == pa.len() {
        assert(pp =~= pa);
        lemma_keyed(s, paths, root, pa);
        assert(p == a);
        assert(pn[pa.len() as int] == e[0]);
        assert(pn =~= pn.subrange(0, pn.len() as int));
        assert(child_ok(s, paths, a, e[0]));
    } else if pp.len() > pa.len() {
        assert(pa =~= pp.subrange(0, pa.len() as int));
        lemma_ancestor(s, paths, root, a, p);
        let b = pp[pa.len() as int];
        assert(pn[pa.len() as int] == b);
        let c = s[a].children[b].addr;
        assert(paths[c] =~= pp.subrange(0, paths[c].len() as int));
        assert(paths[c] =~= pn.subrange(0, paths[c].len() as int));
    } else {
        // the edge of `n` would reach over the end of the key of `a`
        lemma_key_leads(s, paths, root, pa);
        assert(pp =~= pa.subrange(0, pp.len() as int));
        lemma_reach(s, paths, root, p, pa);
        let r = pa.skip(pp.len() as int);
        assert(r[0] == e[0]);
        assert(child_ok(s, paths, p, e[0]));
        assert(!e.is_prefix_of(r));
        assert(locate(s, p, r) is None);
    }
}

/// Every node of `s` with the key `k` has a node with the same key and the
/// same values in `s2`, but for nodes without values.
spec fn carried(
    s: Map<u32, NodeView>,
    paths: Map<u32, Seq<u8>>,
    s2: Map<u32, NodeView>,
    paths2: Map<u32, Seq<u8>>,
    k: Seq<u8>,
) -> bool {
    forall|n: u32|
        s.dom().contains(n) && #[trigger] paths[n] == k && s[n].values.len() > 0 ==> exists|n2: u32|
            s2.dom().contains(n2) && #[trigger] paths2[n2] == k && s2[n2].values == s[n].values
}

/// Two trees in which the key `k` has nodes with the same values, nodes
/// without values aside, give `k` the same values.
proof fn lemma_same_values(
    s: Map<u32, NodeView>,
    paths: Map<u32, Seq<u8>>,
    root: u32,
    s2: Map<u32, NodeView>,
    paths2: Map<u32, Seq<u8>>,
    root2: u32,
    k: Seq<u8>,
)
    requires
        tree_ok(s, paths, root),
        tree_ok(s2, paths2, root2),
        carried(s, paths, s2, paths2, k),
        carried(s2, paths2, s, paths, k),
    ensures
        values_at(s2, root2, k) =~= values_at(s, root, k),
{
    lemma_key_leads(s, paths, root, k);
    lemma_key_leads(s2, paths2, root2, k);
    let v = values_at(s, root, k);
    let v2 = values_at(s2, root2, k);
    if v.len() > 0 {
        let n = locate(s, root, k)->0;
        assert(paths[n] == k);
        let n2 = choose|n2: u32|
            s2.dom().contains(n2) && #[trigger] paths2[n2] == k && s2[n2].values == s[n].values;
        assert(locate(s2, root2, k) == Some(n2));
    } else if v2.len() > 0 {
        let n2 = locate(s2, root2, k)->0;
        assert(paths2[n2] == k);
        let n = choose|n: u32|
            s.dom().contains(n) && #[trigger] paths[n] == k && s[n].values == s2[n2].values;
        assert(locate(s, root, k) == Some(n));
    }
}

/// No node is its own child, and no node is the child of its child: the
/// key of a child is longer than the key of its parent.
proof fn lemma_child_deeper(
    s: Map<u32, NodeView>,
    paths: Map<u32, Seq<u8>>,
    root: u32,
    a: u32,
    b: u8,
)
    requires
        tree_ok(s, paths, root),
        s.dom().contains(a),
        s[a].children.dom().contains(b),
    ensures
        s.dom().contains(s[a].children[b].addr),
        paths[s[a].children[b].addr].len() > paths[a].len(),
        s[a].children[b].addr != a,
        s[a].children[b].addr != root,
        parent_ok(s, s[a].children[b].addr),
        s[s[a].children[b].addr].parent.addr == a,
        s[s[a].children[b].addr].edge[0] == b,
{
    assert(child_ok(s, paths, a, b));
    let c = s[a].children[b].addr;
    if c != root {
        assert(parent_ok(s, c));
    }
}

/// A node that is not the root is the child of its parent, and of no other
/// node.
proof fn lemma_parent_of(s: Map<u32, NodeView>, paths: Map<u32, Seq<u8>>, root: u32, a: u32)
    requires
        tree_ok(s, paths, root),
        s.dom().contains(a),
        a != root,
    ensures
        s.dom().contains(s[a].parent.addr),
        s[a].parent.addr != a,
        s[a].edge.len() >= 1,
        s[s[a].parent.addr].children.dom().contains(s[a].edge[0]),
        s[s[a].parent.addr].children[s[a].edge[0]].addr == a,
        paths[a] == paths[s[a].parent.addr] + s[a].edge,
        forall|p: u32, b: u8|
            s.dom().contains(p) && s[p].children.dom().contains(b) && (#[trigger] s[p].children[b]).addr
                == a ==> p == s[a].parent.addr && b == s[a].edge[0],
{
    assert(parent_ok(s, a));
    let p0 = s[a].parent.addr;
    assert(child_ok(s, paths, p0, s[a].edge[0]));
    assert forall|p: u32, b: u8|
        s.dom().contains(p) && s[p].children.dom().contains(b) && (#[trigger] s[p].children[b]).addr
            == a implies p == s[a].parent.addr && b == s[a].edge[0] by {
        assert(child_ok(s, paths, p, b));
    }
}

/// Hanging a leaf without values under a key byte that had no child keeps
/// the tree, and the values of every key.
proof fn lemma_attach(
    s: Map<u32, NodeView>,
    paths: Map<u32, Seq<u8>>,
    root: u32,
    x: u32,
    ptr: Pointer,
    leaf: NodeView,
    s2: Map<u32, NodeView>,
    paths2: Map<u32, Seq<u8>>,
)
    requires
        tree_ok(s, paths, root),
        s.dom().contains(x),
        !s.dom().contains(ptr.addr),
        leaf.edge.len() >= 1,
        !s[x].children.dom().contains(leaf.edge[0]),
        leaf.parent.addr == x,
        leaf.children == Map::<u8, Pointer>::empty(),
        leaf.values == Seq::<Seq<u8>>::empty(),
        !ptr.spec_is_null(),
        ptr.spec_node_type() == leaf.tp,
        ptr.spec_distance() == leaf.edge.len(),
        s2 == s.insert(
            x,
            NodeView { children: s[x].children.insert(leaf.edge[0], ptr), ..s[x] },
        ).insert(ptr.addr, leaf),
        paths2 == paths.insert(ptr.addr, paths[x] + leaf.edge),
    ensures
        tree_ok(s2, paths2, root),
        forall|k: Seq<u8>| values_at(s2, root, k) == values_at(s, root, k),
{
    let l = ptr.addr;
    let b = leaf.edge[0];
    assert forall|a: u32, b2: u8|
        s2.dom().contains(a) && s2[a].children.dom().contains(b2) implies #[trigger] child_ok(
        s2,
        paths2,
        a,
        b2,
    ) by {
        if a == x && b2 == b {
        } else {
            assert(s[a].children.dom().contains(b2));
            assert(child_ok(s, paths, a, b2));
        }
    }
    assert forall|a: u32| s2.dom().contains(a) && a != root implies #[trigger] parent_ok(s2, a) by {
        if a != l {
            assert(parent_ok(s, a));
        }
    }
    assert forall|k: Seq<u8>| values_at(s2, root, k) == values_at(s, root, k) by {
        assert forall|n: u32|
            s.dom().contains(n) && #[trigger] paths[n] == k && s[n].values.len()
                > 0 implies exists|n2: u32|
            s2.dom().contains(n2) && #[trigger] paths2[n2] == k && s2[n2].values
                == s[n].values by {
            assert(paths2[n] == k);
        }
        assert forall|n: u32|
            s2.dom().contains(n) && #[trigger] paths2[n] == k && s2[n].values.len()
                > 0 implies exists|n2: u32|
            s.dom().contains(n2) && #[trigger] paths[n2] == k && s[n2].values
                == s2[n].values by {
            assert(paths[n] == k);
        }
        lemma_same_values(s, paths, root, s2, paths2, root, k);
    }
}

/// Putting a node without values between a node and its child, with the
/// first `m` bytes of the edge of the child as its edge, keeps the tree, and
/// the values of every key.
proof fn lemma_split(
    s: Map<u32, NodeView>,
    paths: Map<u32, Seq<u8>>,
    root: u32,
    x: u32,
    b: u8,
    m: int,
    ptr_m: Pointer,
    mid: NodeView,
    ptr_c: Pointer,
    par_c: Pointer,
    s2: Map<u32, NodeView>,
    paths2: Map<u32, Seq<u8>>,
)
    requires
        tree_ok(s, paths, root),
        s.dom().contains(x),
        s[x].children.dom().contains(b),
        !s.dom().contains(ptr_m.addr),
        1 <= m < s[s[x].children[b].addr].edge.len(),
        ({
            let c = s[x].children[b].addr;
            let e = s[c].edge;
            &&& mid.edge == e.subrange(0, m)
            &&& mid.children == Map::<u8, Pointer>::empty().insert(e[m], ptr_c)
            &&& mid.values == Seq::<Seq<u8>>::empty()
            &&& mid.parent.addr == x
            &&& !ptr_m.spec_is_null()
            &&& ptr_m.spec_node_type() == mid.tp
            &&& ptr_m.spec_distance() == m
            &&& !ptr_c.spec_is_null()
            &&& ptr_c.addr == c
            &&& ptr_c.spec_node_type() == s[c].tp
            &&& ptr_c.spec_distance() == e.len() - m
            &&& par_c.addr == ptr_m.addr
            &&& s2 == s.insert(c, NodeView { edge: e.skip(m), parent: par_c, ..s[c] }).insert(
                ptr_m.addr,
                mid,
            ).insert(x, NodeView { children: s[x].children.insert(b, ptr_m), ..s[x] })
            &&& paths2 == paths.insert(ptr_m.addr, paths[x] + e.subrange(0, m))
        }),
    ensures
        tree_ok(s2, paths2, root),
        forall|k: Seq<u8>| values_at(s2, root, k) == values_at(s, root, k),
{
    let c = s[x].children[b].addr;
    let e = s[c].edge;
    let am = ptr_m.addr;
    lemma_child_deeper(s, paths, root, x, b);
    lemma_parent_of(s, paths, root, c);
    assert(child_ok(s, paths, x, b));
    assert(paths2[c] =~= paths2[am] + e.skip(m));
    assert forall|a: u32, b2: u8|
        s2.dom().contains(a) && s2[a].children.dom().contains(b2) implies #[trigger] child_ok(
        s2,
        paths2,
        a,
        b2,
    ) by {
        if a == am {
        } else if a == x && b2 == b {
        } else {
            assert(s[a].children.dom().contains(b2));
            lemma_child_deeper(s, paths, root, a, b2);
            assert(child_ok(s, paths, a, b2));
            let c2 = s[a].children[b2].addr;
            assert(c2 != c);
            if c2 == x {
                assert(s2[c2].edge == s[c2].edge);
            }
        }
    }
    assert forall|a: u32| s2.dom().contains(a) && a != root implies #[trigger] parent_ok(s2, a) by {
        if a == am {
        } else if a == c {
        } else {
            lemma_parent_of(s, paths, root, a);
            let p = s[a].parent.addr;
            if p == x {
                assert(s[a].edge[0] != b);
            }
        }
    }
    assert forall|k: Seq<u8>| values_at(s2, root, k) == values_at(s, root, k) by {
        assert forall|n: u32|
            s.dom().contains(n) && #[trigger] paths[n] == k && s[n].values.len()
                > 0 implies exists|n2: u32|
            s2.dom().contains(n2) && #[trigger] paths2[n2] == k && s2[n2].values
                == s[n].values by {
            assert(paths2[n] == k);
        }
        assert forall|n: u32|
            s2.dom().contains(n) && #[trigger] paths2[n] == k && s2[n].values.len()
                > 0 implies exists|n2: u32|
            s.dom().contains(n2) && #[trigger] paths[n2] == k && s[n2].values
                == s2[n].values by {
            assert(paths[n] == k);
        }
        lemma_same_values(s, paths, root, s2, paths2, root, k);
    }
}

/// `s2` is `s` with the node at `x` moved to `x2` and given the class `tp2`:
/// the pointer of its parent and the parent pointers of its children lead
/// to `x2`, and nothing else has changed.
spec fn moved(
    s: Map<u32, NodeView>,
    root: u32,
    x: u32,
    ptr2: Pointer,
    s2: Map<u32, NodeView>,
) -> bool {
    let x2 = ptr2.addr;
    &&& !ptr2.spec_is_null()
    &&& forall|a: u32| s2.dom().contains(a) <==> (a != x && s.dom().contains(a)) || a == x2
    &&& s2[x2] == (NodeView { tp: ptr2.spec_node_type(), ..s[x] })
    &&& ptr2.spec_distance() == s[x].edge.len()
    &&& forall|a: u32|
        a != x && s.dom().contains(a) ==> {
            &&& (#[trigger] s2[a]).edge == s[a].edge
            &&& s2[a].values == s[a].values
            &&& s2[a].tp == s[a].tp
            &&& s2[a].parent.addr == if a != root && s[a].parent.addr == x {
                x2
            } else {
                s[a].parent.addr
            }
            &&& s2[a].children == if x != root && a == s[x].parent.addr {
                s[a].children.insert(s[x].edge[0], ptr2)
            } else {
                s[a].children
            }
        }
}

/// Moving a node to another address and another class keeps the tree, and
/// the values of every key.
proof fn lemma_moved(
    s: Map<u32, NodeView>,
    paths: Map<u32, Seq<u8>>,
    root: u32,
    x: u32,
    ptr2: Pointer,
    s2: Map<u32, NodeView>,
    paths2: Map<u32, Seq<u8>>,
    root2: u32,
)
    requires
        tree_ok(s, paths, root),
        s.dom().contains(x),
        !s.dom().contains(ptr2.addr),
        moved(s, root, x, ptr2, s2),
        paths2 == paths.insert(ptr2.addr, paths[x]),
        root2 == if x == root {
            ptr2.addr
        } else {
            root
        },
    ensures
        tree_ok(s2, paths2, root2),
        forall|k: Seq<u8>| values_at(s2, root2, k) == values_at(s, root, k),
{
    let x2 = ptr2.addr;
    if x != root {
        lemma_parent_of(s, paths, root, x);
    }
    assert forall|a: u32, b2: u8|
        s2.dom().contains(a) && s2[a].children.dom().contains(b2) implies #[trigger] child_ok(
        s2,
        paths2,
        a,
        b2,
    ) by {
        if a == x2 {
            lemma_child_deeper(s, paths, root, x, b2);
            assert(child_ok(s, paths, x, b2));
        } else if x != root && a == s[x].parent.addr && b2 == s[x].edge[0] {
            assert(child_ok(s, paths, a, b2));
        } else {
            assert(s[a].children.dom().contains(b2));
            lemma_child_deeper(s, paths, root, a, b2);
            assert(child_ok(s, paths, a, b2));
            let c2 = s[a].children[b2].addr;
            if c2 == x {
                lemma_parent_of(s, paths, root, x);
            }
        }
    }
    assert forall|a: u32| s2.dom().contains(a) && a != root2 implies #[trigger] parent_ok(s2, a) by {
        if a == x2 {
            assert(parent_ok(s, x));
        } else {
            lemma_parent_of(s, paths, root, a);
            let p = s[a].parent.addr;
            if p == x {
            } else if x != root && p == s[x].parent.addr {
                assert(s[a].edge[0] != s[x].edge[0]);
            }
        }
    }
    assert forall|k: Seq<u8>| values_at(s2, root2, k) == values_at(s, root, k) by {
        assert forall|n: u32|
            s.dom().contains(n) && #[trigger] paths[n] == k && s[n].values.len()
                > 0 implies exists|n2: u32|
            s2.dom().contains(n2) && #[trigger] paths2[n2] == k && s2[n2].values
                == s[n].values by {
            if n == x {
                assert(paths2[x2] == k);
            } else {
                assert(paths2[n] == k);
            }
        }
        assert forall|n: u32|
            s2.dom().contains(n) && #[trigger] paths2[n] == k && s2[n].values.len()
                > 0 implies exists|n2: u32|
            s.dom().contains(n2) && #[trigger] paths[n2] == k && s[n2].values
                == s2[n].values by {
            if n == x2 {
                assert(paths[x] == k);
            } else {
                assert(paths[n] == k);
            }
        }
        lemma_same_values(s, paths, root, s2, paths2, root2, k);
    }
}

/// Taking a node without children and without values out of its parent
/// and out of the store keeps the tree, and the values of every key.
proof fn lemma_unlink(
    s: Map<u32, NodeView>,
    paths: Map<u32, Seq<u8>>,
    root: u32,
    x: u32,
    s2: Map<u32, NodeView>,
)
    requires
        tree_ok(s, paths, root),
        s.dom().contains(x),
        x != root,
        s[x].children.dom() == Set::<u8>::empty(),
        s[x].values.len() == 0,
        s2 == s.insert(
            s[x].parent.addr,
            NodeView {
                children: s[s[x].parent.addr].children.remove(s[x].edge[0]),
                ..s[s[x].parent.addr]
            },
        ).remove(x),
    ensures
        tree_ok(s2, paths, root),
        s2.dom().contains(s[x].parent.addr),
        forall|k: Seq<u8>| values_at(s2, root, k) == values_at(s, root, k),
{
    lemma_parent_of(s, paths, root, x);
    let p = s[x].parent.addr;
    assert forall|a: u32, b2: u8|
        s2.dom().contains(a) && s2[a].children.dom().contains(b2) implies #[trigger] child_ok(
        s2,
        paths,
        a,
        b2,
    ) by {
        assert(s[a].children.dom().contains(b2));
        lemma_child_deeper(s, paths, root, a, b2);
        assert(child_ok(s, paths, a, b2));
    }
    assert forall|a: u32| s2.dom().contains(a) && a != root implies #[trigger] parent_ok(s2, a) by {
        lemma_parent_of(s, paths, root, a);
        if s[a].parent.addr == x {
            assert(s[x].children.dom().contains(s[a].edge[0]));
        }
    }
    assert forall|k: Seq<u8>| values_at(s2, root, k) == values_at(s, root, k) by {
        lemma_same_values(s, paths, root, s2, paths, root, k);
    }
}

/// Giving a node other values keeps the tree, changes the values of the
/// key of the node, and keeps the values of every other key.
proof fn lemma_revalued(
    s: Map<u32, NodeView>,
    paths: Map<u32, Seq<u8>>,
    root: u32,
    x: u32,
    v: Seq<Seq<u8>>,
    s2: Map<u32, NodeView>,
)
    requires
        tree_ok(s, paths, root),
        s.dom().contains(x),
        s2 == s.insert(x, NodeView { values: v, ..s[x] }),
    ensures
        tree_ok(s2, paths, root),
        values_at(s, root, paths[x]) == s[x].values,
        forall|k: Seq<u8>|
            values_at(s2, root, k) == if k == paths[x] {
                v
            } else {
                values_at(s, root, k)
            },
{
    assert forall|a: u32, b2: u8|
        s2.dom().contains(a) && s2[a].children.dom().contains(b2) implies #[trigger] child_ok(
        s2,
        paths,
        a,
        b2,
    ) by {
        assert(child_ok(s, paths, a, b2));
    }
    assert forall|a: u32| s2.dom().contains(a) && a != root implies #[trigger] parent_ok(s2, a) by {
        assert(parent_ok(s, a));
    }
    lemma_key_leads(s, paths, root, paths[x]);
    assert forall|k: Seq<u8>|
        values_at(s2, root, k) == if k == paths[x] {
            v
        } else {
            values_at(s, root, k)
        } by {
        if k == paths[x] {
            lemma_key_leads(s2, paths, root, k);
        } else {
            lemma_same_values(s, paths, root, s2, paths, root, k);
        }
    }
}

/// Length of what `e` and `key` from place `from` on have in common at
/// their beginning.
pub open spec fn spec_match_len(e: Seq<u8>, key: Seq<u8>, from: int) -> int
    decreases e.len(),
{
    if e.len() == 0 || from >= key.len() || from < 0 || e[0] != key[from] {
        0
    } else {
        1 + spec_match_len(e.skip(1), key, from + 1)
    }
}

/// What `spec_match_len` finds: the two agree on that many bytes, and then
/// one of them ends or they differ.
pub proof fn lemma_match_len(e: Seq<u8>, key: Seq<u8>, from: int)
    requires
        0 <= from <= key.len(),
    ensures
        0 <= spec_match_len(e, key, from) <= e.len(),
        from + spec_match_len(e, key, from) <= key.len(),
        forall|j: int| 0 <= j < spec_match_len(e, key, from) ==> e[j] == key[from + j],
        spec_match_len(e, key, from) < e.len() && from + spec_match_len(e, key, from) < key.len()
            ==> e[spec_match_len(e, key, from)] != key[from + spec_match_len(e, key, from)],
    decreases e.len(),
{
    if e.len() == 0 || from >= key.len() || e[0] != key[from] {
    } else {
        lemma_match_len(e.skip(1), key, from + 1);
        let m = spec_match_len(e.skip(1), key, from + 1);
        assert forall|j: int| 0 <= j < m + 1 implies e[j] == key[from + j] by {
            if j > 0 {
                assert(e.skip(1)[j - 1] == e[j]);
            }
        }
        if m + 1 < e.len() && from + m + 1 < key.len() {
            assert(e.skip(1)[m] == e[m + 1]);
        }
    }
}

/// A length on which the two agree, and behind which one of them ends or
/// they differ, is what `spec_match_len` finds.
pub proof fn lemma_match_len_is(e: Seq<u8>, key: Seq<u8>, from: int, m: int)
    requires
        0 <= from <= key.len(),
        0 <= m <= e.len(),
        from + m <= key.len(),
        forall|j: int| 0 <= j < m ==> e[j] == key[from + j],
        m < e.len() && from + m < key.len() ==> e[m] != key[from + m],
    ensures
        spec_match_len(e, key, from) == m,
    decreases e.len(),
{
    if e.len() == 0 || from >= key.len() || e[0] != key[from] {
        if m > 0 {
            assert(e[0] == key[from + 0]);
        }
    } else {
        if m == 0 {
            assert(e[0] != key[from]);
        }
        assert forall|j: int| 0 <= j < m - 1 implies e.skip(1)[j] == key[from + 1 + j] by {
            assert(e[j + 1] == key[from + (j + 1)]);
        }
        lemma_match_len_is(e.skip(1), key, from + 1, m - 1);
    }
}

/// Length of what `e` and `key` from place `from` on have in common at
/// their beginning.
pub fn find_common_prefix(e: &[u8], key: &[u8], from: usize) -> (m: usize)
    requires
        from <= key@.len(),
    ensures
        m == spec_match_len(e@, key@, from as int),
        m <= e@.len(),
        from + m <= key@.len(),
{
    let mut m: usize = 0;
    while m < e.len() && m < key.len() - from && e[m] == key[from + m]
        invariant
            from <= key@.len(),
            m <= e@.len(),
            from + m <= key@.len(),
            forall|j: int| 0 <= j < m ==> e@[j] == key@[from + j],
        decreases e@.len() - m,
    {
        m += 1;
    }
    proof {
        lemma_match_len_is(e@, key@, from as int, m as int);
    }
    m
}

/// One of the first `i` pointers of `e` leads to `a`.
spec fn points_to(e: Seq<(u8, Pointer)>, i: int, a: u32) -> bool {
    exists|j: int| 0 <= j < i && (#[trigger] e[j]).1.addr == a
}

/// One of the pointers of `e` from place `i` on leads to `a`.
spec fn points_from(e: Seq<(u8, Pointer)>, i: int, a: u32) -> bool {
    exists|j: int| i <= j < e.len() && (#[trigger] e[j]).1.addr == a
}

/// The radix index.
pub struct Art {
    /// Hands out the slots of the nodes.
    pool: IndexPool,
    /// The nodes by the address of their slot.
    nodes: HashMap<u32, Node>,
    /// Holds the pointer of the root.
    sentinel: Sentinel,
    /// The key of each node.
    paths: Ghost<Map<u32, Seq<u8>>>,
}

impl Art {
    /// The nodes of the index by address, each as what it says.
    pub closed spec fn store(&self) -> Map<u32, NodeView> {
        Map::new(|a: u32| self.nodes@.dom().contains(a), |a: u32| self.nodes@[a]@)
    }

    /// Address of the root.
    pub closed spec fn root(&self) -> u32 {
        self.sentinel.spec_child().addr
    }

    /// The key of the node at `a`: what the edges from the root to it
    /// spell.
    pub closed spec fn path_of(&self, a: u32) -> Seq<u8> {
        self.paths@[a]
    }

    /// The pool that the slots of the nodes come from.
    pub closed spec fn pool(&self) -> IndexPool {
        self.pool
    }

    /// The values of `key`; none where `key` is not in the index.
    pub open spec fn lookup(&self, key: Seq<u8>) -> Seq<Seq<u8>> {
        values_at(self.store(), self.root(), key)
    }

    /// Number of nodes.
    pub open spec fn spec_size(&self) -> nat {
        self.store().dom().len()
    }

    /// The slot of the node at `a` holds the wire form of the node.
    pub closed spec fn image_ok(&self, a: u32) -> bool {
        spec_decode(
            self.pool.slot_bytes(a, self.nodes@[a]@.tp.spec_size() as int),
            self.nodes@[a]@.tp,
        ) == Some(record_of(self.nodes@[a]@))
    }

    /// The slot of every node but those of `dirty` holds the wire form of
    /// the node.
    spec fn images(&self, dirty: Set<u32>) -> bool {
        forall|a: u32|
            self.nodes@.dom().contains(a) && !dirty.contains(a) ==> #[trigger] self.image_ok(a)
    }

    /// The index is well formed: its pool is; its nodes are, and each has a
    /// taken slot of the size of its class at its address, which holds its
    /// wire form; and the nodes form a tree under the root, in which every
    /// child pointer and every parent pointer leads where it should.
    pub closed spec fn wf(&self) -> bool {
        &&& self.wf_core()
        &&& self.images(Set::empty())
    }

    /// All of the well-formedness of the index but what it says of the
    /// bytes of the slots.
    spec fn wf_core(&self) -> bool {
        &&& self.pool.wf()
        &&& tree_ok(self.store(), self.paths@, self.root())
        &&& !self.sentinel.spec_child().spec_is_null()
        &&& forall|a: u32|
            self.nodes@.dom().contains(a) ==> (#[trigger] self.nodes@[a]).wf() && self.pool.live(
                a,
                self.nodes@[a]@.tp.spec_size() as int,
            )
    }

    /// The pool of a well-formed index is well formed, and holds no more
    /// pages than it may.
    pub proof fn lemma_pool_wf(&self)
        requires
            self.wf(),
        ensures
            self.pool().wf(),
            self.pool().pages().len() <= self.pool().spec_limit(),
    {
        self.lemma_nodes();
    }

    /// In a well-formed index every node has a taken slot of the size of
    /// its class at its address, and the bytes of the slot are the wire
    /// form of the node.
    pub proof fn lemma_slot_holds_wire_form(&self, a: u32)
        requires
            self.wf(),
            self.has_node(a),
        ensures
            self.pool().wf(),
            self.pool().live(a, self.store()[a].tp.spec_size() as int),
            spec_decode(
                self.pool().slot_bytes(a, self.store()[a].tp.spec_size() as int),
                self.store()[a].tp,
            ) == Some(record_of(self.store()[a])),
    {
        assert(self.nodes@.dom().contains(a));
        assert(self.image_ok(a));
    }

    /// In a well-formed index the child of a node under a key byte is a
    /// node whose edge begins with that byte, whose parent pointer leads
    /// back, and whose key is the key of the parent and its edge; and the
    /// pointer to it tells its class and the length of its edge.
    pub proof fn lemma_child_link(&self, a: u32, b: u8)
        requires
            self.wf(),
            self.has_node(a),
            self.store()[a].children.dom().contains(b),
        ensures
            ({
                let ptr = self.store()[a].children[b];
                let c = ptr.addr;
                &&& !ptr.spec_is_null()
                &&& self.has_node(c)
                &&& c != self.root()
                &&& 1 <= self.store()[c].edge.len() <= MAX_EDGE_LEN
                &&& self.store()[c].edge[0] == b
                &&& self.store()[c].parent.addr == a
                &&& self.path_of(c) == self.path_of(a) + self.store()[c].edge
                &&& ptr.spec_node_type() == self.store()[c].tp
                &&& ptr.spec_distance() == self.store()[c].edge.len()
            }),
    {
        self.lemma_nodes();
        lemma_child_deeper(self.store(), self.paths@, self.root(), a, b);
        assert(child_ok(self.store(), self.paths@, a, b));
        let c = self.store()[a].children[b].addr;
        self.nodes@[c].lemma_wf();
    }

    /// In a well-formed index a node that is not the root is the child of
    /// the node that its parent pointer leads to, under the first byte of
    /// its edge.
    pub proof fn lemma_parent_link(&self, a: u32)
        requires
            self.wf(),
            self.has_node(a),
            a != self.root(),
        ensures
            ({
                let p = self.store()[a].parent.addr;
                &&& self.has_node(p)
                &&& self.store()[a].edge.len() >= 1
                &&& self.store()[p].children.dom().contains(self.store()[a].edge[0])
                &&& self.store()[p].children[self.store()[a].edge[0]].addr == a
            }),
    {
        self.lemma_nodes();
        lemma_parent_of(self.store(), self.paths@, self.root(), a);
    }

    /// In a well-formed index a node is what its key leads to, its key has
    /// its values, and a key that leads to no node has none.
    pub proof fn lemma_lookup(&self, key: Seq<u8>)
        requires
            self.wf(),
        ensures
            self.store().dom().finite(),
            self.store().dom().contains(self.root()),
            self.path_of(self.root()) == Seq::<u8>::empty(),
            forall|a: u32|
                self.store().dom().contains(a) && #[trigger] self.path_of(a) == key ==> locate(
                    self.store(),
                    self.root(),
                    key,
                ) == Some(a) && self.lookup(key) == self.store()[a].values,
            locate(self.store(), self.root(), key) matches Some(a) ==> self.store().dom().contains(
                a,
            ) && self.path_of(a) == key,
            locate(self.store(), self.root(), key) is None ==> self.lookup(key) == Seq::<
                Seq<u8>,
            >::empty(),
    {
        lemma_key_leads(self.store(), self.paths@, self.root(), key);
        assert(self.store().dom() =~= self.nodes@.dom());
    }

    /// An index with a root and nothing else, on a pool of its own.
    pub fn new() -> (art: Art)
        ensures
            art.wf(),
            art.spec_size() == 1,
            forall|k: Seq<u8>| art.lookup(k) == Seq::<Seq<u8>>::empty(),
            forall|k: Seq<u8>| #[trigger] art.has_key_node(k) <==> k.len() == 0,
            art.store()[art.root()].tp == NodeType::N4,
            art.pool().pages().len() == 1,
            art.pool().spec_limit() == MAX_PAGES,
            art.pool().has_room(PAGE_DATA_SIZE - NODE4_SIZE),
            forall|a: u32, s: int| #[trigger] art.pool().live(a, s) ==> art.has_node(a),
    {
        match Art::with_pool(IndexPool::new()) {
            Ok(art) => art,
            Err(_) => vstd::pervasive::unreached(),
        }
    }

    /// An index with a root and nothing else, whose nodes take their slots
    /// from `pool`. Fails where `pool` has no slot for the root.
    #[verifier::rlimit(30)]
    pub fn with_pool(pool: IndexPool) -> (r: Result<Art, ArtError>)
        requires
            pool.wf(),
        ensures
            match r {
                Ok(art) => {
                    &&& art.wf()
                    &&& art.spec_size() == 1
                    &&& forall|k: Seq<u8>| art.lookup(k) == Seq::<Seq<u8>>::empty()
                    &&& forall|k: Seq<u8>| #[trigger] art.has_key_node(k) <==> k.len() == 0
                    &&& art.store()[art.root()].tp == NodeType::N4
                    &&& art.pool().spec_limit() == pool.spec_limit()
                    &&& art.pool().pages().len() == if pool.no_room(
                        crate::codec::NODE4_SIZE as int,
                    ) {
                        pool.pages().len() + 1
                    } else {
                        pool.pages().len()
                    }
                    &&& forall|a: u32, s: int| #[trigger]
                        art.pool().live(a, s) ==> pool.live(a, s) || art.has_node(a)
                    &&& IndexPool::room_kept(&pool, &art.pool(), NODE4_SIZE as int)
                    &&& pool.no_room(NODE4_SIZE as int) ==> art.pool().has_room(
                        PAGE_DATA_SIZE - NODE4_SIZE,
                    )
                },
                Err(e) => {
                    &&& e == ArtError::AllocationExhausted
                    &&& pool.pages().len() == pool.spec_limit()
                    &&& pool.no_room(crate::codec::NODE4_SIZE as int)
                },
            },
            pool.pages().len() < pool.spec_limit() ==> r is Ok,
            r is Err <==> pool.pages().len() == pool.spec_limit() && pool.no_room(
                crate::codec::NODE4_SIZE as int,
            ),
    {
        let ghost pool0 = pool;
        let mut pool = pool;
        let addr: u32 = match pool.alloc_node(NodeType::N4) {
            Some(a) => a,
            None => {
                return Err(ArtError::AllocationExhausted);
            },
        };
        proof {
            let id = crate::codec::spec_page_of(addr) as int;
            if id <= pool0.pages().len() {
                assert(pool0.pages()[id - 1].spec_free_max() >= crate::codec::NODE4_SIZE);
            } else {
                pool.lemma_pages_wf(0, id);
                pool.pages()[id - 1].lemma_accounting();
                assert(pool.pages()[id - 1].free_ranges()[0].1 == PAGE_DATA_SIZE - NODE4_SIZE);
                assert(pool.pages()[id - 1].spec_free_max() == PAGE_DATA_SIZE - NODE4_SIZE);
            }
        }
        let ghost taken = pool;
        let node = Node4::new();
        let mut nodes: HashMap<u32, Node> = HashMap::new();
        nodes.insert(addr, Node::N4(node));
        let mut sentinel = Sentinel::new();
        sentinel.set_child(0, Pointer::new(NodeType::N4, 0, addr));
        let ghost paths = Map::<u32, Seq<u8>>::empty().insert(addr, Seq::<u8>::empty());
        let mut art = Art { pool, nodes, sentinel, paths: Ghost(paths) };
        proof {
            let s = art.store();
            assert(s.dom() =~= Set::<u32>::empty().insert(addr));
            assert(s[addr].children.dom() =~= Set::<u8>::empty());
            assert forall|k: Seq<u8>| art.lookup(k) == Seq::<Seq<u8>>::empty() by {
                if k.len() > 0 {
                    assert(!s[addr].children.dom().contains(k[0]));
                }
            }
            assert forall|k: Seq<u8>| #[trigger] art.has_key_node(k) <==> k.len() == 0 by {
                if k.len() > 0 {
                    assert(!s[addr].children.dom().contains(k[0]));
                }
            }
            assert(art.wf_core());
            assert(art.images(Set::<u32>::empty().insert(addr)));
        }
        let ghost before = art;
        art.sync(addr, Ghost(Set::<u32>::empty().insert(addr)));
        proof {
            assert(Set::<u32>::empty().insert(addr).remove(addr) =~= Set::<u32>::empty());
            assert(art.root() == before.root());
            assert forall|k: Seq<u8>| #[trigger] art.has_key_node(k) <==> k.len() == 0 by {
                assert(art.has_key_node(k) == before.has_key_node(k));
            }
            let id = crate::codec::spec_page_of(addr) as int;
            if pool0.no_room(NODE4_SIZE as int) {
                assert(art.pool.pages()[id - 1].spec_free_max() >= taken.pages()[id
                    - 1].spec_free_max() - 0);
                art.pool.lemma_page_has_room(id, PAGE_DATA_SIZE - NODE4_SIZE);
            }
        }
        Ok(art)
    }

    /// Number of nodes.
    pub fn get_size(&self) -> (n: usize)
        requires
            self.wf(),
        ensures
            n == self.spec_size(),
    {
        proof {
            assert(self.store().dom() =~= self.nodes@.dom());
        }
        self.nodes.len()
    }

    /// The node at `addr`; none where there is no node.
    pub fn node(&self, addr: u32) -> (r: Option<&Node>)
        ensures
            match r {
                Some(n) => self.store().dom().contains(addr) && n@ == self.store()[addr],
                None => !self.store().dom().contains(addr),
            },
            self.wf() ==> (r matches Some(n) ==> n.wf()),
    {
        self.nodes.get(&addr)
    }

    /// The node that `ptr` points to. Fails closed where there is no node
    /// at its address or where the node is not of the class that the
    /// pointer tells.
    pub fn resolve(&self, ptr: Pointer) -> (r: Result<&Node, ArtError>)
        ensures
            match r {
                Ok(n) => {
                    &&& !ptr.spec_is_null()
                    &&& self.store().dom().contains(ptr.addr)
                    &&& n@ == self.store()[ptr.addr]
                    &&& n@.tp == ptr.spec_node_type()
                },
                Err(e) => {
                    &&& e == ArtError::CorruptPointer
                    &&& ptr.spec_is_null() || !self.store().dom().contains(ptr.addr)
                        || self.store()[ptr.addr].tp != ptr.spec_node_type()
                },
            },
    {
        if ptr.is_null() {
            return Err(ArtError::CorruptPointer);
        }
        match self.nodes.get(&ptr.addr) {
            None => Err(ArtError::CorruptPointer),
            Some(n) => {
                if n.node_type() == ptr.node_type() {
                    Ok(n)
                } else {
                    Err(ArtError::CorruptPointer)
                }
            },
        }
    }

    /// The pool that the slots of the nodes come from.
    pub fn index_pool(&self) -> (p: &IndexPool)
        ensures
            *p == self.pool(),
    {
        &self.pool
    }

    /// Address of the root.
    pub fn root_addr(&self) -> (a: u32)
        requires
            self.wf(),
        ensures
            a == self.root(),
    {
        match self.sentinel.get_child(0) {
            Some(p) => p.addr,
            None => 0,
        }
    }

    /// Address of the node that `key` leads to; none where it leads to no
    /// node.
    pub fn find_node(&self, key: &[u8]) -> (r: Option<u32>)
        requires
            self.wf(),
        ensures
            r == locate(self.store(), self.root(), key@),
            r matches Some(a) ==> self.store().dom().contains(a) && self.path_of(a) == key@,
    {
        let ghost s = self.store();
        let mut cur: u32 = self.root_addr();
        let mut i: usize = 0;
        proof {
            assert(key@.skip(0) =~= key@);
            self.lemma_lookup(key@);
        }
        while i < key.len()
            invariant
                self.wf(),
                s == self.store(),
                i <= key@.len(),
                s.dom().contains(cur),
                locate(s, self.root(), key@) == locate(s, cur, key@.skip(i as int)),
            decreases key@.len() - i,
        {
            let ghost rest = key@.skip(i as int);
            let node = self.nodes.get(&cur).unwrap();
            match node.get_child(key[i]) {
                None => {
                    return None;
                },
                Some(ptr) => {
                    proof {
                        assert(child_ok(s, self.paths@, cur, rest[0]));
                    }
                    let c = ptr.addr;
                    let child = self.nodes.get(&c).unwrap();
                    let e = child.get_edge();
                    let m = find_common_prefix(e.as_slice(), key, i);
                    proof {
                        lemma_match_len(e@, key@, i as int);
                        if m == e@.len() {
                            assert(e@ =~= rest.subrange(0, e@.len() as int));
                            assert(rest.skip(m as int) =~= key@.skip(i + m));
                        } else {
                            if e@.is_prefix_of(rest) {
                                assert(e@[m as int] == rest.subrange(0, e@.len() as int)[m as int]);
                            }
                        }
                    }
                    if m < e.len() {
                        return None;
                    }
                    cur = c;
                    i = i + m;
                },
            }
        }
        Some(cur)
    }

    /// The values of `key`; none where `key` has no value.
    pub fn search(&self, key: &[u8]) -> (r: Option<&Vec<Vec<u8>>>)
        requires
            self.wf(),
        ensures
            match r {
                Some(v) => self.lookup(key@).len() > 0 && values_view(v@) == self.lookup(key@),
                None => self.lookup(key@).len() == 0,
            },
    {
        match self.find_node(key) {
            None => None,
            Some(a) => {
                let v = self.nodes.get(&a).unwrap().get_values();
                if v.len() == 0 {
                    None
                } else {
                    Some(v)
                }
            },
        }
    }
    /// The pool holds as many pages as it may hold.
    pub open spec fn exhausted(&self) -> bool {
        self.pool().pages().len() == self.pool().spec_limit()
    }

    /// The key `k` leads to a node of the index.
    pub open spec fn has_key_node(&self, k: Seq<u8>) -> bool {
        locate(self.store(), self.root(), k) is Some
    }

    /// `new` has a node for every key that `old` has one for, and for the
    /// key `added`, and for no other key.
    pub open spec fn keys_added(old: &Self, new: &Self, added: Seq<u8>) -> bool {
        forall|k: Seq<u8>|
            #[trigger] new.has_key_node(k) <==> old.has_key_node(k) || k == added
    }

    /// `new` has a node for every key that `old` has one for, and for no
    /// other key.
    pub open spec fn keys_kept(old: &Self, new: &Self) -> bool {
        forall|k: Seq<u8>| #[trigger] new.has_key_node(k) <==> old.has_key_node(k)
    }

    /// The keys of the two indexes that lead to nodes are what the keys of
    /// the nodes of their stores say.
    proof fn lemma_keys(old: &Self, new: &Self, k: Seq<u8>)
        requires
            old.wf_core(),
            new.wf_core(),
        ensures
            old.has_key_node(k) <==> keyed(old.store(), old.paths@, k),
            new.has_key_node(k) <==> keyed(new.store(), new.paths@, k),
            forall|n: u32, m: u32|
                old.store().dom().contains(n) && old.store().dom().contains(m)
                    && #[trigger] old.paths@[n] == k && #[trigger] old.paths@[m] == k ==> n == m,
    {
        lemma_keyed(old.store(), old.paths@, old.root(), k);
        lemma_keyed(new.store(), new.paths@, new.root(), k);
    }

    /// The node that the key `k` leads to.
    pub open spec fn node_at(&self, k: Seq<u8>) -> NodeView {
        self.store()[locate(self.store(), self.root(), k)->0]
    }

    /// Every key that leads to a node in both indexes, and is not among
    /// `except`, leads to nodes of the same class.
    pub open spec fn classes_kept(old: &Self, new: &Self, except: Set<Seq<u8>>) -> bool {
        forall|k: Seq<u8>| #[trigger]
            new.has_key_node(k) && old.has_key_node(k) && !except.contains(k) ==> new.node_at(
                k,
            ).tp == old.node_at(k).tp
    }

    /// A node is what its key leads to.
    proof fn lemma_node_at(&self, n: u32)
        requires
            self.wf_core(),
            self.has_node(n),
        ensures
            self.has_key_node(self.paths@[n]),
            locate(self.store(), self.root(), self.paths@[n]) == Some(n),
            self.node_at(self.paths@[n]) == self.store()[n],
    {
        self.lemma_nodes();
        lemma_key_leads(self.store(), self.paths@, self.root(), self.paths@[n]);
    }

    /// Where the nodes of `new` whose keys are not among `except` are
    /// nodes of `old` with the same key and class, the classes are kept.
    proof fn lemma_classes_kept(old: &Self, new: &Self, except: Set<Seq<u8>>)
        requires
            old.wf_core(),
            new.wf_core(),
            forall|n: u32|
                new.store().dom().contains(n) && !except.contains(#[trigger] new.paths@[n])
                    ==> old.store().dom().contains(n) && old.paths@[n] == new.paths@[n]
                    && old.store()[n].tp == new.store()[n].tp,
        ensures
            Self::classes_kept(old, new, except),
    {
        assert forall|k: Seq<u8>| #[trigger]
            new.has_key_node(k) && old.has_key_node(k) && !except.contains(k) implies new.node_at(
            k,
        ).tp == old.node_at(k).tp by {
            new.lemma_nodes();
            lemma_key_leads(new.store(), new.paths@, new.root(), k);
            let n = locate(new.store(), new.root(), k)->0;
            assert(new.paths@[n] == k);
            old.lemma_node_at(n);
        }
    }

    /// Some key that leads to a node begins with `k`.
    pub open spec fn on_path(&self, k: Seq<u8>) -> bool {
        exists|q: Seq<u8>| #[trigger] self.has_key_node(q) && k.is_prefix_of(q)
    }

    /// How much of `key` the index shares: the length of the longest
    /// beginning of `key`, of at most `n` bytes, with which the key of some
    /// node begins.
    pub open spec fn spec_shared_len(&self, key: Seq<u8>, n: nat) -> nat
        decreases n,
    {
        if n == 0 {
            0
        } else if self.on_path(key.subrange(0, n as int)) {
            n
        } else {
            self.spec_shared_len(key, (n - 1) as nat)
        }
    }

    /// `k` is one of the keys on the way of `key` from its first `d` bytes
    /// on: a beginning of `key` that has those bytes and a whole number of
    /// longest edges behind them, or `key` itself.
    pub open spec fn on_chain(key: Seq<u8>, d: nat, k: Seq<u8>) -> bool {
        &&& k.is_prefix_of(key)
        &&& k.len() >= d
        &&& (k.len() - d) % (MAX_EDGE_LEN as int) == 0 || k.len() == key.len()
    }

    /// The index shares `d` bytes of `key` where a key of a node begins
    /// with those, and none with one byte more.
    pub proof fn lemma_shared_len(&self, key: Seq<u8>, d: nat, n: nat)
        requires
            d <= n <= key.len(),
            self.on_path(key.subrange(0, d as int)),
            d < key.len() ==> !self.on_path(key.subrange(0, d as int + 1)),
        ensures
            self.spec_shared_len(key, n) == d,
        decreases n,
    {
        if n > d {
            if self.on_path(key.subrange(0, n as int)) {
                let q = choose|q: Seq<u8>| #[trigger]
                    self.has_key_node(q) && key.subrange(0, n as int).is_prefix_of(q);
                assert(key.subrange(0, d as int + 1) =~= q.subrange(0, d as int + 1));
                assert(key.subrange(0, d as int + 1).is_prefix_of(q));
            }
            self.lemma_shared_len(key, d, (n - 1) as nat);
        }
    }

    /// Two indexes with nodes for the same keys share the same beginnings
    /// of keys.
    proof fn lemma_paths_kept(old: &Self, new: &Self, k: Seq<u8>)
        requires
            Self::keys_kept(old, new),
        ensures
            old.on_path(k) == new.on_path(k),
    {
        if old.on_path(k) {
            let q = choose|q: Seq<u8>| #[trigger] old.has_key_node(q) && k.is_prefix_of(q);
            assert(new.has_key_node(q));
        }
        if new.on_path(k) {
            let q = choose|q: Seq<u8>| #[trigger] new.has_key_node(q) && k.is_prefix_of(q);
            assert(old.has_key_node(q));
        }
    }

    /// The keys that lead to nodes of `new` are those that lead to nodes of
    /// `old`, and the keys of at most `i` bytes on the way of `key` from its
    /// first `d` bytes on.
    #[verifier::opaque]
    spec fn keys_upto(old: &Self, new: &Self, key: Seq<u8>, d: nat, i: int) -> bool {
        forall|k: Seq<u8>|
            #[trigger] new.has_key_node(k) <==> old.has_key_node(k) || (Self::on_chain(key, d, k)
                && k.len() <= i)
    }

    /// An index that has a node for the first `i` bytes of `key` has the
    /// keys on the way of `key` from there on, up to there.
    proof fn lemma_upto_start(old: &Self, new: &Self, key: Seq<u8>, i: int)
        requires
            Self::keys_kept(old, new),
            0 <= i <= key.len(),
            new.has_key_node(key.subrange(0, i)),
        ensures
            Self::keys_upto(old, new, key, i as nat, i),
    {
        reveal(Art::keys_upto);
        assert forall|k: Seq<u8>| #[trigger]
            new.has_key_node(k) <==> old.has_key_node(k) || (Self::on_chain(key, i as nat, k)
                && k.len() <= i) by {
            if k.is_prefix_of(key) {
                assert(k =~= key.subrange(0, k.len() as int));
            }
        }
    }

    /// A step that leaves the keys of the nodes as they are leaves what
    /// `keys_upto` says of them.
    proof fn lemma_upto_kept(old: &Self, mid: &Self, new: &Self, key: Seq<u8>, d: nat, i: int)
        requires
            Self::keys_upto(old, mid, key, d, i),
            Self::keys_kept(mid, new),
        ensures
            Self::keys_upto(old, new, key, d, i),
    {
        reveal(Art::keys_upto);
        assert forall|k: Seq<u8>| #[trigger]
            new.has_key_node(k) <==> old.has_key_node(k) || (Self::on_chain(key, d, k) && k.len()
                <= i) by {
            assert(new.has_key_node(k) <==> mid.has_key_node(k));
        }
    }

    /// A leaf under the node of the first `i` bytes of `key`, with a
    /// longest edge or with all that is left of `key`, is the next node on
    /// the way of `key`.
    proof fn lemma_upto_leaf(
        old: &Self,
        mid: &Self,
        new: &Self,
        key: Seq<u8>,
        d: nat,
        i: int,
        to: int,
    )
        requires
            Self::keys_upto(old, mid, key, d, i),
            d <= i < to <= key.len(),
            (i - d) % (MAX_EDGE_LEN as int) == 0,
            to - i <= MAX_EDGE_LEN,
            to - i == MAX_EDGE_LEN || to == key.len(),
            Self::keys_added(mid, new, key.subrange(0, to)),
        ensures
            Self::keys_upto(old, new, key, d, to),
            to < key.len() ==> (to - d) % (MAX_EDGE_LEN as int) == 0,
    {
        reveal(Art::keys_upto);
        assert forall|k: Seq<u8>| #[trigger]
            new.has_key_node(k) <==> old.has_key_node(k) || (Self::on_chain(key, d, k) && k.len()
                <= to) by {
            assert(new.has_key_node(k) <==> mid.has_key_node(k) || k == key.subrange(0, to));
            if k.is_prefix_of(key) {
                assert(k =~= key.subrange(0, k.len() as int));
            }
        }
    }

    /// The node that a split puts in behind the first `d` bytes of `key`
    /// is the first node on the way of `key` from there on.
    proof fn lemma_upto_split(old: &Self, mid: &Self, new: &Self, key: Seq<u8>, d: nat)
        requires
            Self::keys_kept(old, mid),
            d <= key.len(),
            Self::keys_added(mid, new, key.subrange(0, d as int)),
        ensures
            Self::keys_upto(old, new, key, d, d as int),
    {
        reveal(Art::keys_upto);
        assert forall|k: Seq<u8>| #[trigger]
            new.has_key_node(k) <==> old.has_key_node(k) || (Self::on_chain(key, d, k) && k.len()
                <= d) by {
            assert(new.has_key_node(k) <==> mid.has_key_node(k) || k == key.subrange(
                0,
                d as int,
            ));
            assert(mid.has_key_node(k) <==> old.has_key_node(k));
            if k.is_prefix_of(key) {
                assert(k =~= key.subrange(0, k.len() as int));
            }
        }
    }

    /// At the end of `key`, `keys_upto` speaks of all keys on its way.
    proof fn lemma_upto_end(old: &Self, mid: &Self, new: &Self, key: Seq<u8>, d: nat)
        requires
            Self::keys_upto(old, mid, key, d, key.len() as int),
            Self::keys_kept(mid, new),
        ensures
            forall|k: Seq<u8>|
                #[trigger] new.has_key_node(k) <==> old.has_key_node(k) || Self::on_chain(
                    key,
                    d,
                    k,
                ),
    {
        reveal(Art::keys_upto);
        assert forall|k: Seq<u8>| #[trigger]
            new.has_key_node(k) <==> old.has_key_node(k) || Self::on_chain(key, d, k) by {
            assert(new.has_key_node(k) <==> mid.has_key_node(k));
        }
    }

    /// The keys that lead to nodes say what the nodes hold beside class
    /// and values: the node of `k` has a child under the byte `b` exactly
    /// where some key of a node begins with `k` and `b`; and its edge is
    /// what `k` has behind the longest shorter beginning of `k` that leads
    /// to a node.
    pub proof fn lemma_shape(&self, k: Seq<u8>)
        requires
            self.wf(),
            self.has_key_node(k),
        ensures
            forall|b: u8|
                self.node_at(k).children.dom().contains(b) <==> #[trigger] self.on_path(k.push(b)),
            k.len() == 0 <==> locate(self.store(), self.root(), k) == Some(self.root()),
            k.len() > 0 ==> ({
                let e = self.node_at(k).edge;
                &&& 1 <= e.len() <= k.len()
                &&& e == k.subrange(k.len() - e.len(), k.len() as int)
                &&& self.has_key_node(k.subrange(0, k.len() - e.len()))
                &&& forall|q: Seq<u8>| #[trigger]
                    self.has_key_node(q) && q.is_prefix_of(k) && q != k ==> q.len() <= k.len()
                        - e.len()
            }),
    {
        self.lemma_nodes();
        let s = self.store();
        let paths = self.paths@;
        let root = self.root();
        lemma_key_leads(s, paths, root, k);
        let a = locate(s, root, k)->0;
        assert forall|b: u8| s[a].children.dom().contains(b) <==> #[trigger] self.on_path(
            k.push(b),
        ) by {
            if s[a].children.dom().contains(b) {
                assert(child_ok(s, paths, a, b));
                let c = s[a].children[b].addr;
                self.lemma_node_at(c);
                assert(k.push(b) =~= paths[c].subrange(0, k.len() as int + 1));
                assert(self.has_key_node(paths[c]) && k.push(b).is_prefix_of(paths[c]));
            }
            if self.on_path(k.push(b)) {
                let q = choose|q: Seq<u8>| #[trigger]
                    self.has_key_node(q) && k.push(b).is_prefix_of(q);
                lemma_keyed(s, paths, root, q);
                let n = choose|n: u32| s.dom().contains(n) && #[trigger] paths[n] == q;
                assert(k.push(b) =~= q.subrange(0, k.len() as int + 1));
                assert(k =~= q.subrange(0, k.len() as int));
                assert(q[k.len() as int] == k.push(b)[k.len() as int]);
                lemma_ancestor(s, paths, root, a, n);
            }
        }
        if k.len() > 0 {
            lemma_parent_of(s, paths, root, a);
            let p = s[a].parent.addr;
            let e = s[a].edge;
            let pk = paths[p];
            self.lemma_node_at(p);
            assert(pk =~= k.subrange(0, k.len() - e.len()));
            assert(e =~= k.subrange(k.len() - e.len(), k.len() as int));
            assert forall|q: Seq<u8>| #[trigger]
                self.has_key_node(q) && q.is_prefix_of(k) && q != k implies q.len() <= k.len()
                - e.len() by {
                if q.len() > pk.len() {
                    lemma_keyed(s, paths, root, q);
                    let n = choose|n: u32| s.dom().contains(n) && #[trigger] paths[n] == q;
                    assert(q =~= k.subrange(0, q.len() as int));
                    assert(pk =~= q.subrange(0, pk.len() as int));
                    assert(q[pk.len() as int] == e[0]);
                    lemma_ancestor(s, paths, root, p, n);
                    assert(k =~= q.subrange(0, k.len() as int));
                    assert(q =~= k);
                }
            }
        }
    }

    /// The node of `k` is full and there is a larger class for it.
    pub open spec fn due_to_grow(&self, k: Seq<u8>) -> bool {
        &&& spec_larger(self.node_at(k).tp) is Some
        &&& self.node_at(k).children.dom().len() == self.node_at(k).tp.spec_capacity()
    }

    /// The class of the node of `k` once `key` has gone in: the smallest
    /// for a node that was not there; the next larger for the node under
    /// which `key` leaves the tree, where that node was full; and the
    /// class that it had for any other node.
    pub open spec fn class_with(&self, key: Seq<u8>, k: Seq<u8>) -> NodeType {
        let d = self.spec_shared_len(key, key.len());
        if !self.has_key_node(k) {
            NodeType::N4
        } else if k == key.subrange(0, d as int) && d < key.len() && self.due_to_grow(k) {
            spec_larger(self.node_at(k).tp)->0
        } else {
            self.node_at(k).tp
        }
    }

    /// The nodes of `new` that `old` has not are of the smallest class;
    /// the node of the first `d` bytes of `key` is of the next larger class
    /// than in `old` where `grown` says so; and every other node has the
    /// class that it has in `old`.
    #[verifier::opaque]
    spec fn classes_upto(old: &Self, new: &Self, key: Seq<u8>, d: nat, grown: bool) -> bool {
        forall|k: Seq<u8>| #[trigger]
            new.has_key_node(k) ==> new.node_at(k).tp == if !old.has_key_node(k) {
                NodeType::N4
            } else if grown && k == key.subrange(0, d as int) {
                spec_larger(old.node_at(k).tp)->0
            } else {
                old.node_at(k).tp
            }
    }

    /// An index with the same keys and classes has the classes of `old`.
    proof fn lemma_classes_start(old: &Self, new: &Self, key: Seq<u8>, d: nat)
        requires
            Self::keys_kept(old, new),
            Self::classes_kept(old, new, Set::empty()),
        ensures
            Self::classes_upto(old, new, key, d, false),
    {
        reveal(Art::classes_upto);
        assert forall|k: Seq<u8>| #[trigger] new.has_key_node(k) implies new.node_at(k).tp
            == old.node_at(k).tp && old.has_key_node(k) by {
            assert(old.has_key_node(k));
        }
    }

    /// The node of the first `d` bytes of `key` has grown, and the others
    /// are as they were.
    proof fn lemma_classes_grown(old: &Self, new: &Self, key: Seq<u8>, d: nat)
        requires
            Self::keys_kept(old, new),
            Self::classes_kept(old, new, Set::empty().insert(key.subrange(0, d as int))),
            new.node_at(key.subrange(0, d as int)).tp == spec_larger(
                old.node_at(key.subrange(0, d as int)).tp,
            )->0,
        ensures
            Self::classes_upto(old, new, key, d, true),
    {
        reveal(Art::classes_upto);
        assert forall|k: Seq<u8>| #[trigger] new.has_key_node(k) implies new.node_at(k).tp == if k
            == key.subrange(0, d as int) {
            spec_larger(old.node_at(k).tp)->0
        } else {
            old.node_at(k).tp
        } && old.has_key_node(k) by {
            assert(old.has_key_node(k));
        }
    }

    /// A node of the smallest class for a key that had none goes with what
    /// `classes_upto` says.
    proof fn lemma_classes_added(
        old: &Self,
        mid: &Self,
        new: &Self,
        key: Seq<u8>,
        d: nat,
        grown: bool,
        added: Seq<u8>,
    )
        requires
            Self::classes_upto(old, mid, key, d, grown),
            Self::keys_added(mid, new, added),
            Self::classes_kept(mid, new, Set::empty().insert(added)),
            new.node_at(added).tp == NodeType::N4,
            !old.has_key_node(added),
        ensures
            Self::classes_upto(old, new, key, d, grown),
    {
        reveal(Art::classes_upto);
        assert forall|k: Seq<u8>| #[trigger] new.has_key_node(k) implies new.node_at(k).tp
            == if !old.has_key_node(k) {
            NodeType::N4
        } else if grown && k == key.subrange(0, d as int) {
            spec_larger(old.node_at(k).tp)->0
        } else {
            old.node_at(k).tp
        } by {
            if k != added {
                assert(mid.has_key_node(k));
                assert(!Set::<Seq<u8>>::empty().insert(added).contains(k));
            }
        }
    }

    /// A step that leaves keys and classes as they are leaves what
    /// `classes_upto` says.
    proof fn lemma_classes_on(
        old: &Self,
        mid: &Self,
        new: &Self,
        key: Seq<u8>,
        d: nat,
        grown: bool,
    )
        requires
            Self::classes_upto(old, mid, key, d, grown),
            Self::keys_kept(mid, new),
            Self::classes_kept(mid, new, Set::empty()),
        ensures
            Self::classes_upto(old, new, key, d, grown),
    {
        reveal(Art::classes_upto);
        assert forall|k: Seq<u8>| #[trigger] new.has_key_node(k) implies new.node_at(k).tp
            == if !old.has_key_node(k) {
            NodeType::N4
        } else if grown && k == key.subrange(0, d as int) {
            spec_larger(old.node_at(k).tp)->0
        } else {
            old.node_at(k).tp
        } by {
            assert(mid.has_key_node(k));
        }
    }

    /// At the end `classes_upto` gives every node the class that
    /// `class_with` names.
    proof fn lemma_classes_end(old: &Self, new: &Self, key: Seq<u8>, d: nat, grown: bool)
        requires
            Self::classes_upto(old, new, key, d, grown),
            d == old.spec_shared_len(key, key.len()),
            grown <==> old.has_key_node(key.subrange(0, d as int)) && d < key.len()
                && old.due_to_grow(key.subrange(0, d as int)),
        ensures
            forall|k: Seq<u8>| #[trigger]
                new.has_key_node(k) ==> new.node_at(k).tp == old.class_with(key, k),
    {
        reveal(Art::classes_upto);
    }

    /// Where the node that the first `i` bytes of `key` lead to has no
    /// child under the next byte, the index shares those bytes of `key` and
    /// no more.
    proof fn lemma_path_ends(&self, x: u32, key: Seq<u8>, i: int)
        requires
            self.wf_core(),
            self.has_node(x),
            0 <= i < key.len(),
            self.path_of(x) == key.subrange(0, i),
            !self.store()[x].children.dom().contains(key[i]),
        ensures
            self.has_key_node(key.subrange(0, i)),
            self.on_path(key.subrange(0, i)),
            !self.on_path(key.subrange(0, i + 1)),
    {
        self.lemma_nodes();
        let s = self.store();
        let paths = self.paths@;
        let k = key.subrange(0, i);
        lemma_keyed(s, paths, self.root(), k);
        assert(paths[x] == k);
        assert(self.has_key_node(k) && k.is_prefix_of(k));
        if self.on_path(key.subrange(0, i + 1)) {
            let q = choose|q: Seq<u8>| #[trigger]
                self.has_key_node(q) && key.subrange(0, i + 1).is_prefix_of(q);
            lemma_keyed(s, paths, self.root(), q);
            let n = choose|n: u32| s.dom().contains(n) && #[trigger] paths[n] == q;
            assert(key.subrange(0, i + 1) =~= q.subrange(0, i + 1));
            assert(k =~= q.subrange(0, i));
            assert(q[i] == key.subrange(0, i + 1)[i]);
            lemma_ancestor(s, paths, self.root(), x, n);
        }
    }

    /// Where the edge of the child that the node at `x` has under the next
    /// byte of `key` agrees with `key` on `m` bytes, and is longer, the
    /// index shares the bytes of `key` up to there and, where the two
    /// differ behind them, no more.
    proof fn lemma_path_parts(&self, x: u32, key: Seq<u8>, i: int, m: int)
        requires
            self.wf_core(),
            self.has_node(x),
            0 <= i < key.len(),
            self.path_of(x) == key.subrange(0, i),
            self.store()[x].children.dom().contains(key[i]),
            1 <= m < self.store()[self.store()[x].children[key[i]].addr].edge.len(),
            i + m <= key.len(),
            forall|j: int|
                0 <= j < m ==> self.store()[self.store()[x].children[key[i]].addr].edge[j] == key[i
                    + j],
            i + m < key.len() ==> self.store()[self.store()[x].children[key[i]].addr].edge[m]
                != key[i + m],
        ensures
            self.on_path(key.subrange(0, i + m)),
            !self.has_key_node(key.subrange(0, i + m)),
            i + m < key.len() ==> !self.on_path(key.subrange(0, i + m + 1)),
    {
        self.lemma_nodes();
        let s = self.store();
        let paths = self.paths@;
        let c = s[x].children[key[i]].addr;
        let e = s[c].edge;
        assert(child_ok(s, paths, x, key[i]));
        let pc = paths[c];
        assert(pc == key.subrange(0, i) + e);
        lemma_keyed(s, paths, self.root(), pc);
        assert(key.subrange(0, i + m) =~= pc.subrange(0, i + m));
        assert(self.has_key_node(pc) && key.subrange(0, i + m).is_prefix_of(pc));
        if self.has_key_node(key.subrange(0, i + m)) {
            let k = key.subrange(0, i + m);
            lemma_keyed(s, paths, self.root(), k);
            let n = choose|n: u32| s.dom().contains(n) && #[trigger] paths[n] == k;
            assert(paths[x] =~= k.subrange(0, i));
            assert(k[i] == key[i]);
            lemma_ancestor(s, paths, self.root(), x, n);
        }
        if i + m < key.len() && self.on_path(key.subrange(0, i + m + 1)) {
            let q = choose|q: Seq<u8>| #[trigger]
                self.has_key_node(q) && key.subrange(0, i + m + 1).is_prefix_of(q);
            lemma_keyed(s, paths, self.root(), q);
            let n = choose|n: u32| s.dom().contains(n) && #[trigger] paths[n] == q;
            assert(key.subrange(0, i + m + 1) =~= q.subrange(0, i + m + 1));
            assert(paths[x] =~= q.subrange(0, i));
            assert(q[i] == key.subrange(0, i + m + 1)[i]);
            assert(q[i + m] == key.subrange(0, i + m + 1)[i + m]);
            lemma_ancestor(s, paths, self.root(), x, n);
            assert(pc =~= q.subrange(0, pc.len() as int));
            assert(pc[i + m] == e[m]);
        }
    }

    /// Every page of the pool of `old` is a page of the pool of `new`, and
    /// its longest free range is shorter by no more than `size` bytes.
    pub open spec fn room_kept(old: &Self, new: &Self, size: int) -> bool {
        IndexPool::room_kept(&old.pool(), &new.pool(), size)
    }

    /// The slots of the pool go with the nodes: every slot that is taken in
    /// `new` was taken in `old` or holds a node of `new`, and the slot of a
    /// node of `old` that `new` has no longer is not taken in `new`.
    pub open spec fn slots_kept(old: &Self, new: &Self) -> bool {
        &&& forall|a: u32, s: int| #[trigger]
            new.pool().live(a, s) ==> old.pool().live(a, s) || new.has_node(a)
        &&& forall|a: u32, s: int|
            old.has_node(a) && !new.has_node(a) ==> !#[trigger] new.pool().live(a, s)
    }

    /// Slots that go with the nodes over two steps go with them over both.
    proof fn lemma_slots_trans(old: &Self, mid: &Self, new: &Self)
        requires
            Self::slots_kept(old, mid),
            Self::slots_kept(mid, new),
        ensures
            Self::slots_kept(old, new),
    {
        assert forall|a: u32, s: int| #[trigger] new.pool().live(a, s) implies old.pool().live(a, s)
            || new.has_node(a) by {
            if !new.has_node(a) {
                assert(mid.pool().live(a, s));
            }
        }
        assert forall|a: u32, s: int|
            old.has_node(a) && !new.has_node(a) implies !#[trigger] new.pool().live(a, s) by {
            if new.pool().live(a, s) {
                assert(mid.pool().live(a, s));
            }
        }
    }

    /// The node at `a` is a node of the index.
    pub open spec fn has_node(&self, a: u32) -> bool {
        self.store().dom().contains(a)
    }

    /// What the well-formedness of the index says of its nodes and of its
    /// pool.
    proof fn lemma_nodes(&self)
        requires
            self.wf_core(),
        ensures
            self.pool.wf(),
            self.pool.pages().len() <= self.pool.spec_limit(),
            tree_ok(self.store(), self.paths@, self.root()),
            self.store().dom() == self.nodes@.dom(),
            forall|a: u32|
                self.nodes@.dom().contains(a) ==> (#[trigger] self.nodes@[a]).wf() && self.pool.live(
                    a,
                    self.nodes@[a]@.tp.spec_size() as int,
                ) && self.store()[a] == self.nodes@[a]@,
    {
        assert(self.store().dom() =~= self.nodes@.dom());
        if self.pool.pages().len() > 0 {
            self.pool.lemma_pages_wf(0, 1);
        }
    }

    /// The slots of the nodes that have not changed, and whose bytes have
    /// not changed, still hold their wire forms.
    proof fn lemma_images_kept(old: &Self, new: &Self, dirty: Set<u32>)
        requires
            old.images(Set::empty()),
            forall|a: u32|
                new.nodes@.dom().contains(a) && !dirty.contains(a) ==> old.nodes@.dom().contains(a)
                    && (#[trigger] new.nodes@[a])@ == old.nodes@[a]@ && new.pool.slot_bytes(
                    a,
                    old.nodes@[a]@.tp.spec_size() as int,
                ) == old.pool.slot_bytes(a, old.nodes@[a]@.tp.spec_size() as int),
        ensures
            new.images(dirty),
    {
        assert forall|a: u32|
            new.nodes@.dom().contains(a) && !dirty.contains(a) implies #[trigger] new.image_ok(
            a,
        ) by {
            assert(new.nodes@[a]@ == old.nodes@[a]@);
            assert(old.image_ok(a));
        }
    }

    /// Writes the wire form of the node at `a` into its slot.
    fn sync(&mut self, a: u32, Ghost(dirty): Ghost<Set<u32>>)
        requires
            old(self).wf_core(),
            old(self).nodes@.dom().contains(a),
            old(self).images(dirty),
        ensures
            final(self).wf_core(),
            IndexPool::room_kept(&old(self).pool(), &final(self).pool(), 0),
            final(self).images(dirty.remove(a)),
            final(self).nodes@ == old(self).nodes@,
            final(self).store() == old(self).store(),
            final(self).paths@ == old(self).paths@,
            final(self).sentinel == old(self).sentinel,
            final(self).pool.pages().len() == old(self).pool.pages().len(),
            final(self).pool.spec_limit() == old(self).pool.spec_limit(),
            forall|c: u32, s: int| final(self).pool.live(c, s) <==> old(self).pool.live(c, s),
    {
        proof {
            self.lemma_nodes();
        }
        let node = self.nodes.get(&a).unwrap();
        let bytes = encode(node);
        self.pool.write_slot(a, bytes.as_slice());
        proof {
            assert(self.store() =~= old(self).store());
            assert forall|c: u32|
                self.nodes@.dom().contains(c) && !dirty.remove(a).contains(c) implies #[trigger] self.image_ok(
                c,
            ) by {
                if c != a {
                    assert(old(self).image_ok(c));
                    assert(old(self).pool.live(c, self.nodes@[c]@.tp.spec_size() as int));
                }
            }
        }
    }

    /// Reads the node that `ptr` points to from the bytes of its slot. The
    /// node comes without its values, and with their number. Fails closed
    /// where the pool has no page for the address, or where the bytes at
    /// the address are no wire form of a node of the class that the pointer
    /// tells.
    pub fn load(&self, ptr: Pointer) -> (r: Result<(Node, u32), ArtError>)
        requires
            self.wf(),
        ensures
            match r {
                Ok((n, c)) => n.wf() && n@.values == Seq::<Seq<u8>>::empty(),
                Err(e) => e == ArtError::CorruptPointer,
            },
            self.has_node(ptr.addr) && self.store()[ptr.addr].tp == ptr.spec_node_type() ==> (r matches Ok(
                (n, c),
            ) && n@ == (NodeView { values: Seq::<Seq<u8>>::empty(), ..self.store()[ptr.addr] })
                && c == spec_value_count(self.store()[ptr.addr])),
    {
        let tp = ptr.node_type();
        let size = tp.size() as usize;
        proof {
            self.lemma_nodes();
            if self.has_node(ptr.addr) {
                assert(self.image_ok(ptr.addr));
                self.pool.lemma_slot_in_page(
                    ptr.addr,
                    self.nodes@[ptr.addr]@.tp.spec_size() as int,
                );
            }
        }
        match self.pool.get_space(ptr.addr) {
            None => Err(ArtError::CorruptPointer),
            Some(view) => {
                if view.len() < size {
                    return Err(ArtError::CorruptPointer);
                }
                let slot = vstd::slice::slice_subrange(view, 0, size);
                proof {
                    if self.has_node(ptr.addr) && self.store()[ptr.addr].tp == tp {
                        assert(slot@ =~= self.pool.slot_bytes(ptr.addr, size as int));
                    }
                }
                match decode(slot, tp) {
                    None => Err(ArtError::CorruptPointer),
                    Some((n, c)) => Ok((n, c)),
                }
            },
        }
    }

    /// Adds `value` to the values of the node at `x`.
    fn append_value(&mut self, x: u32, value: Vec<u8>)
        requires
            old(self).wf(),
            old(self).has_node(x),
        ensures
            final(self).wf(),
            IndexPool::room_kept(&old(self).pool(), &final(self).pool(), 0),
            final(self).spec_size() == old(self).spec_size(),
            final(self).pool().spec_limit() == old(self).pool().spec_limit(),
            final(self).pool().pages().len() == old(self).pool().pages().len(),
            forall|a: u32, s: int| final(self).pool().live(a, s) <==> old(self).pool().live(a, s),
            forall|a: u32| final(self).has_node(a) <==> old(self).has_node(a),
            Self::keys_kept(old(self), final(self)),
            Self::classes_kept(old(self), final(self), Set::empty()),
            forall|k: Seq<u8>|
                final(self).lookup(k) == if k == old(self).path_of(x) {
                    old(self).lookup(k).push(value@)
                } else {
                    old(self).lookup(k)
                },
    {
        proof {
            self.lemma_nodes();
        }
        let ghost s = self.store();
        let mut n = self.nodes.remove(&x).unwrap();
        n.set_value(value);
        self.nodes.insert(x, n);
        proof {
            let v = s[x].values.push(value@);
            assert(self.store() =~= s.insert(x, NodeView { values: v, ..s[x] }));
            assert(self.store().dom() =~= s.dom());
            lemma_revalued(s, self.paths@, self.root(), x, v, self.store());
            assert(self.wf_core());
            Self::lemma_images_kept(old(self), self, Set::<u32>::empty().insert(x));
            assert forall|k: Seq<u8>| #[trigger] self.has_key_node(k) <==> old(self).has_key_node(
                k,
            ) by {
                Self::lemma_keys(old(self), self, k);
                if keyed(s, self.paths@, k) {
                    let n = choose|n: u32| s.dom().contains(n) && #[trigger] self.paths@[n] == k;
                    assert(self.store().dom().contains(n));
                }
                if keyed(self.store(), self.paths@, k) {
                    let n = choose|n: u32|
                        self.store().dom().contains(n) && #[trigger] self.paths@[n] == k;
                    assert(s.dom().contains(n));
                }
            }
        }
        let ghost pre = *self;
        self.sync(x, Ghost(Set::<u32>::empty().insert(x)));
        proof {
            assert(Set::<u32>::empty().insert(x).remove(x) =~= Set::<u32>::empty());
            assert(self.root() == pre.root());
            assert forall|k: Seq<u8>| #[trigger] self.has_key_node(k) <==> old(self).has_key_node(
                k,
            ) by {
                assert(self.has_key_node(k) == pre.has_key_node(k));
            }
            Self::lemma_classes_kept(old(self), self, Set::empty());
        }
    }

    /// Hangs a leaf without values under the node at `x`, with the bytes of
    /// `key` from `from` up to `to` as its edge. The leaf goes into the
    /// slot at `addr`, which is taken and holds no node yet.
    #[verifier::rlimit(30)]
    fn attach_leaf(&mut self, x: u32, key: &[u8], from: usize, to: usize, addr: u32)
        requires
            old(self).wf(),
            old(self).has_node(x),
            from < to <= key@.len(),
            to - from <= MAX_EDGE_LEN,
            old(self).path_of(x) == key@.subrange(0, from as int),
            !old(self).store()[x].children.dom().contains(key@[from as int]),
            old(self).store()[x].children.dom().len() < old(self).store()[x].tp.spec_capacity(),
            addr != 0,
            !old(self).has_node(addr),
            old(self).pool().live(addr, NodeType::N4.spec_size() as int),
        ensures
            final(self).wf(),
            IndexPool::room_kept(&old(self).pool(), &final(self).pool(), 0),
            final(self).pool().spec_limit() == old(self).pool().spec_limit(),
            final(self).pool().pages().len() == old(self).pool().pages().len(),
            forall|a: u32, s: int| final(self).pool().live(a, s) <==> old(self).pool().live(a, s),
            forall|a: u32| final(self).has_node(a) <==> old(self).has_node(a) || a == addr,
            forall|k: Seq<u8>| final(self).lookup(k) == old(self).lookup(k),
            final(self).path_of(addr) == key@.subrange(0, to as int),
            final(self).store()[addr].children.dom() == Set::<u8>::empty(),
            final(self).store()[addr].tp == NodeType::N4,
            final(self).spec_size() == old(self).spec_size() + 1,
            Self::keys_added(old(self), final(self), key@.subrange(0, to as int)),
            Self::classes_kept(
                old(self),
                final(self),
                Set::empty().insert(key@.subrange(0, to as int)),
            ),
    {
        proof {
            self.lemma_nodes();
        }
        let ghost s = self.store();
        let ghost paths = self.paths@;
        let ghost pool0 = self.pool;
        let mut xn = self.nodes.remove(&x).unwrap();
        let mut leaf = Node4::new();
        leaf.set_edge(vstd::slice::slice_subrange(key, from, to));
        leaf.set_parent(Pointer::new(xn.node_type(), xn.get_edge().len() as u8, x));
        let ptr = Pointer::new(NodeType::N4, (to - from) as u8, addr);
        proof {
            xn.lemma_wf();
        }
        let res = xn.set_child(key[from], ptr);
        assert(res == NodeOpRes::Succ);
        self.nodes.insert(x, xn);
        self.nodes.insert(addr, Node::N4(leaf));
        self.paths = Ghost(paths.insert(addr, paths[x] + leaf@.edge));
        proof {
            let lv = leaf@;
            assert(lv.edge[0] == key@[from as int]);
            assert(self.store() =~= s.insert(
                x,
                NodeView { children: s[x].children.insert(lv.edge[0], ptr), ..s[x] },
            ).insert(addr, lv));
            lemma_attach(s, paths, self.root(), x, ptr, lv, self.store(), self.paths@);
            assert(paths[x] + lv.edge =~= key@.subrange(0, to as int));
            assert(self.pool.pages().len() >= pool0.pages().len());
            assert(self.wf_core());
            assert forall|a: u32|
                self.nodes@.dom().contains(a) && a != x && a != addr implies old(
                self,
            ).nodes@.dom().contains(a) && (#[trigger] self.nodes@[a])@ == old(self).nodes@[a]@
                && self.pool.slot_bytes(a, old(self).nodes@[a]@.tp.spec_size() as int)
                == pool0.slot_bytes(a, old(self).nodes@[a]@.tp.spec_size() as int) by {
                assert(pool0.live(a, old(self).nodes@[a]@.tp.spec_size() as int));
            }
            Self::lemma_images_kept(
                old(self),
                self,
                Set::<u32>::empty().insert(x).insert(addr),
            );
            let added = key@.subrange(0, to as int);
            assert(self.paths@[addr] == added);
            assert forall|k: Seq<u8>| #[trigger] self.has_key_node(k) <==> old(self).has_key_node(
                k,
            ) || k == added by {
                Self::lemma_keys(old(self), self, k);
                if keyed(s, paths, k) {
                    let n = choose|n: u32| s.dom().contains(n) && #[trigger] paths[n] == k;
                    assert(self.paths@[n] == k);
                }
                if keyed(self.store(), self.paths@, k) {
                    let n = choose|n: u32|
                        self.store().dom().contains(n) && #[trigger] self.paths@[n] == k;
                    if n != addr {
                        assert(paths[n] == k);
                    }
                }
            }
        }
        let ghost pre = *self;
        let ghost dirty = Set::<u32>::empty().insert(x).insert(addr);
        self.sync(x, Ghost(dirty));
        self.sync(addr, Ghost(dirty.remove(x)));
        proof {
            assert(dirty.remove(x).remove(addr) =~= Set::<u32>::empty());
            assert(self.root() == pre.root());
            self.lemma_nodes();
            assert forall|k: Seq<u8>| #[trigger] self.has_key_node(k) <==> old(self).has_key_node(
                k,
            ) || k == key@.subrange(0, to as int) by {
                assert(self.has_key_node(k) == pre.has_key_node(k));
            }
            Self::lemma_classes_kept(
                old(self),
                self,
                Set::empty().insert(key@.subrange(0, to as int)),
            );
        }
    }
    /// Takes all values out of the node at `x`.
    fn clear_values(&mut self, x: u32)
        requires
            old(self).wf(),
            old(self).has_node(x),
        ensures
            final(self).wf(),
            IndexPool::room_kept(&old(self).pool(), &final(self).pool(), 0),
            final(self).has_node(x),
            Self::keys_kept(old(self), final(self)),
            Self::classes_kept(old(self), final(self), Set::empty()),
            final(self).path_of(x) == old(self).path_of(x),
            final(self).store()[x].children == old(self).store()[x].children,
            final(self).root() == old(self).root(),
            final(self).pool().spec_limit() == old(self).pool().spec_limit(),
            final(self).pool().pages().len() == old(self).pool().pages().len(),
            forall|a: u32, s: int| final(self).pool().live(a, s) <==> old(self).pool().live(a, s),
            forall|a: u32| final(self).has_node(a) <==> old(self).has_node(a),
            final(self).spec_size() == old(self).spec_size(),
            forall|k: Seq<u8>|
                final(self).lookup(k) == if k == old(self).path_of(x) {
                    Seq::<Seq<u8>>::empty()
                } else {
                    old(self).lookup(k)
                },
    {
        proof {
            self.lemma_nodes();
        }
        let ghost s = self.store();
        let mut n = self.nodes.remove(&x).unwrap();
        n.del_values();
        self.nodes.insert(x, n);
        proof {
            let v = Seq::<Seq<u8>>::empty();
            assert(self.store() =~= s.insert(x, NodeView { values: v, ..s[x] }));
            assert(self.store().dom() =~= s.dom());
            lemma_revalued(s, self.paths@, self.root(), x, v, self.store());
            assert(self.wf_core());
            Self::lemma_images_kept(old(self), self, Set::<u32>::empty().insert(x));
            assert forall|k: Seq<u8>| #[trigger] self.has_key_node(k) <==> old(self).has_key_node(
                k,
            ) by {
                Self::lemma_keys(old(self), self, k);
                if keyed(s, self.paths@, k) {
                    let n = choose|n: u32| s.dom().contains(n) && #[trigger] self.paths@[n] == k;
                    assert(self.store().dom().contains(n));
                }
                if keyed(self.store(), self.paths@, k) {
                    let n = choose|n: u32|
                        self.store().dom().contains(n) && #[trigger] self.paths@[n] == k;
                    assert(s.dom().contains(n));
                }
            }
        }
        let ghost pre = *self;
        self.sync(x, Ghost(Set::<u32>::empty().insert(x)));
        proof {
            assert(Set::<u32>::empty().insert(x).remove(x) =~= Set::<u32>::empty());
            assert(self.root() == pre.root());
            assert forall|k: Seq<u8>| #[trigger] self.has_key_node(k) <==> old(self).has_key_node(
                k,
            ) by {
                assert(self.has_key_node(k) == pre.has_key_node(k));
            }
            Self::lemma_classes_kept(old(self), self, Set::empty());
        }
    }

    /// Puts a node without values between the node at `x` and its child
    /// under `b`. The first `m` bytes of the edge of the child become the
    /// edge of the new node, and the child keeps the rest. The new node
    /// goes into the slot at `am`, which is taken and holds no node yet.
    #[verifier::rlimit(30)]
    fn split(&mut self, x: u32, b: u8, m: usize, am: u32)
        requires
            old(self).wf(),
            old(self).has_node(x),
            old(self).store()[x].children.dom().contains(b),
            1 <= m < old(self).store()[old(self).store()[x].children[b].addr].edge.len(),
            am != 0,
            !old(self).has_node(am),
            old(self).pool().live(am, NodeType::N4.spec_size() as int),
        ensures
            final(self).wf(),
            IndexPool::room_kept(&old(self).pool(), &final(self).pool(), 0),
            final(self).pool().spec_limit() == old(self).pool().spec_limit(),
            final(self).pool().pages().len() == old(self).pool().pages().len(),
            forall|a: u32, s: int| final(self).pool().live(a, s) <==> old(self).pool().live(a, s),
            forall|a: u32| final(self).has_node(a) <==> old(self).has_node(a) || a == am,
            forall|k: Seq<u8>| final(self).lookup(k) == old(self).lookup(k),
            ({
                let e = old(self).store()[old(self).store()[x].children[b].addr].edge;
                &&& final(self).path_of(am) == old(self).path_of(x) + e.subrange(0, m as int)
                &&& final(self).store()[am].tp == NodeType::N4
                &&& final(self).store()[am].values == Seq::<Seq<u8>>::empty()
                &&& final(self).store()[am].children.dom() == Set::<u8>::empty().insert(
                    e[m as int],
                )
            }),
            final(self).spec_size() == old(self).spec_size() + 1,
            Self::keys_added(old(self), final(self), final(self).path_of(am)),
            Self::classes_kept(
                old(self),
                final(self),
                Set::empty().insert(final(self).path_of(am)),
            ),
    {
        proof {
            self.lemma_nodes();
        }
        let ghost s = self.store();
        let ghost paths = self.paths@;
        let ghost pool0 = self.pool;
        proof {
            lemma_child_deeper(s, paths, self.root(), x, b);
            assert(child_ok(s, paths, x, b));
        }
        let xn0 = self.nodes.get(&x).unwrap();
        let c = xn0.get_child(b).unwrap().addr;
        let par_m = Pointer::new(xn0.node_type(), xn0.get_edge().len() as u8, x);
        let mut cn = self.nodes.remove(&c).unwrap();
        proof {
            cn.lemma_wf();
        }
        let e = copy_bytes(cn.get_edge().as_slice());
        let ptr_m = Pointer::new(NodeType::N4, m as u8, am);
        cn.set_edge(vstd::slice::slice_subrange(e.as_slice(), m, e.len()));
        cn.set_parent(ptr_m);
        let ptr_c = Pointer::new(cn.node_type(), (e.len() - m) as u8, c);
        let mut mid = Node4::new();
        mid.set_edge(vstd::slice::slice_subrange(e.as_slice(), 0, m));
        mid.set_parent(par_m);
        proof {
            mid.lemma_wf();
        }
        let res = mid.set_child(e[m], ptr_c);
        assert(res == NodeOpRes::Succ);
        self.nodes.insert(c, cn);
        self.nodes.insert(am, Node::N4(mid));
        let mut xn = self.nodes.remove(&x).unwrap();
        proof {
            xn.lemma_wf();
        }
        xn.del_child(b);
        proof {
            assert(s[x].children.dom().len() == s[x].children.dom().remove(b).len() + 1);
        }
        let res2 = xn.set_child(b, ptr_m);
        assert(res2 == NodeOpRes::Succ);
        self.nodes.insert(x, xn);
        self.paths = Ghost(paths.insert(am, paths[x] + e@.subrange(0, m as int)));
        proof {
            let mv = mid@;
            assert(s[x].children.remove(b).insert(b, ptr_m) =~= s[x].children.insert(b, ptr_m));
            assert(e@.skip(m as int) =~= e@.subrange(m as int, e@.len() as int));
            assert(self.store() =~= s.insert(
                c,
                NodeView { edge: e@.skip(m as int), parent: ptr_m, ..s[c] },
            ).insert(am, mv).insert(
                x,
                NodeView { children: s[x].children.insert(b, ptr_m), ..s[x] },
            ));
            lemma_split(
                s,
                paths,
                self.root(),
                x,
                b,
                m as int,
                ptr_m,
                mv,
                ptr_c,
                ptr_m,
                self.store(),
                self.paths@,
            );
            assert(mv.children.dom() =~= Set::<u8>::empty().insert(e@[m as int]));
            assert(self.pool.pages().len() >= pool0.pages().len());
            assert(self.wf_core());
            assert forall|a: u32|
                self.nodes@.dom().contains(a) && a != x && a != am && a != c implies old(
                self,
            ).nodes@.dom().contains(a) && (#[trigger] self.nodes@[a])@ == old(self).nodes@[a]@
                && self.pool.slot_bytes(a, old(self).nodes@[a]@.tp.spec_size() as int)
                == pool0.slot_bytes(a, old(self).nodes@[a]@.tp.spec_size() as int) by {
                assert(pool0.live(a, old(self).nodes@[a]@.tp.spec_size() as int));
            }
            Self::lemma_images_kept(
                old(self),
                self,
                Set::<u32>::empty().insert(x).insert(am).insert(c),
            );
            let added = self.paths@[am];
            assert forall|k: Seq<u8>| #[trigger] self.has_key_node(k) <==> old(self).has_key_node(
                k,
            ) || k == added by {
                Self::lemma_keys(old(self), self, k);
                if keyed(s, paths, k) {
                    let n = choose|n: u32| s.dom().contains(n) && #[trigger] paths[n] == k;
                    assert(self.paths@[n] == k);
                }
                if keyed(self.store(), self.paths@, k) {
                    let n = choose|n: u32|
                        self.store().dom().contains(n) && #[trigger] self.paths@[n] == k;
                    if n != am {
                        assert(paths[n] == k);
                    }
                }
            }
        }
        let ghost pre = *self;
        let ghost dirty = Set::<u32>::empty().insert(x).insert(am).insert(c);
        self.sync(x, Ghost(dirty));
        self.sync(am, Ghost(dirty.remove(x)));
        self.sync(c, Ghost(dirty.remove(x).remove(am)));
        proof {
            assert(dirty.remove(x).remove(am).remove(c) =~= Set::<u32>::empty());
            assert(self.root() == pre.root());
            self.lemma_nodes();
            assert forall|k: Seq<u8>| #[trigger] self.has_key_node(k) <==> old(self).has_key_node(
                k,
            ) || k == self.path_of(am) by {
                assert(self.has_key_node(k) == pre.has_key_node(k));
            }
            Self::lemma_classes_kept(old(self), self, Set::empty().insert(self.path_of(am)));
        }
    }

    /// Takes the node at `x`, which has no child and no value and is not
    /// the root, out of its parent and out of the store, gives its slot
    /// back, and hands out the address of its parent.
    #[verifier::rlimit(30)]
    fn unlink(&mut self, x: u32) -> (p: u32)
        requires
            old(self).wf(),
            old(self).has_node(x),
            x != old(self).root(),
            old(self).store()[x].children.dom() == Set::<u8>::empty(),
            old(self).store()[x].values.len() == 0,
        ensures
            final(self).wf(),
            IndexPool::room_kept(&old(self).pool(), &final(self).pool(), 0),
            final(self).has_node(p),
            p != x,
            !final(self).has_node(x),
            forall|n: u32| final(self).has_node(n) <==> old(self).has_node(n) && n != x,
            forall|a: u32, s: int|
                final(self).pool().live(a, s) <==> old(self).pool().live(a, s) && a != x,
            Self::slots_kept(old(self), final(self)),
            p == old(self).store()[x].parent.addr,
            final(self).path_of(p) + old(self).store()[x].edge == old(self).path_of(x),
            final(self).root() == old(self).root(),
            forall|k: Seq<u8>|
                #[trigger] final(self).has_key_node(k) <==> old(self).has_key_node(k) && k != old(
                    self,
                ).path_of(x),
            Self::classes_kept(old(self), final(self), Set::empty()),
            final(self).spec_size() == old(self).spec_size() - 1,
            final(self).pool().pages().len() == old(self).pool().pages().len(),
            old(self).exhausted() ==> final(self).exhausted(),
            final(self).pool().spec_limit() == old(self).pool().spec_limit(),
            old(self).pool().pages().len() <= final(self).pool().pages().len() <= old(
                self,
            ).pool().pages().len() + 1,
            forall|k: Seq<u8>| final(self).lookup(k) == old(self).lookup(k),
    {
        proof {
            self.lemma_nodes();
        }
        let ghost s = self.store();
        let ghost paths = self.paths@;
        let ghost pool0 = self.pool;
        proof {
            lemma_parent_of(s, paths, self.root(), x);
        }
        let xn = self.nodes.remove(&x).unwrap();
        let p = xn.get_parent().addr;
        let b = xn.get_edge()[0];
        let tp = xn.node_type();
        let mut pn = self.nodes.remove(&p).unwrap();
        pn.del_child(b);
        self.nodes.insert(p, pn);
        self.pool.release(x, tp);
        proof {
            assert(self.store() =~= s.insert(
                p,
                NodeView { children: s[p].children.remove(b), ..s[p] },
            ).remove(x));
            lemma_unlink(s, paths, self.root(), x, self.store());
            assert(self.store().dom() =~= s.dom().remove(x));
            assert(self.pool.pages().len() == pool0.pages().len());
            assert(self.wf_core());
            assert forall|a: u32|
                self.nodes@.dom().contains(a) && a != p implies old(self).nodes@.dom().contains(a) && (
                #[trigger] self.nodes@[a])@ == old(self).nodes@[a]@ && self.pool.slot_bytes(
                    a,
                    old(self).nodes@[a]@.tp.spec_size() as int,
                ) == pool0.slot_bytes(a, old(self).nodes@[a]@.tp.spec_size() as int) by {
                assert(pool0.live(a, old(self).nodes@[a]@.tp.spec_size() as int));
            }
            Self::lemma_images_kept(old(self), self, Set::<u32>::empty().insert(p));
            assert forall|k: Seq<u8>| #[trigger] self.has_key_node(k) <==> old(self).has_key_node(
                k,
            ) && k != paths[x] by {
                Self::lemma_keys(old(self), self, k);
                if keyed(s, paths, k) && k != paths[x] {
                    let n = choose|n: u32| s.dom().contains(n) && #[trigger] paths[n] == k;
                    assert(self.store().dom().contains(n));
                }
                if keyed(self.store(), self.paths@, k) {
                    let n = choose|n: u32|
                        self.store().dom().contains(n) && #[trigger] self.paths@[n] == k;
                    assert(s.dom().contains(n) && n != x);
                    if k == paths[x] {
                        assert(paths[n] == k && paths[x] == k);
                    }
                }
            }
        }
        let ghost pre = *self;
        self.sync(p, Ghost(Set::<u32>::empty().insert(p)));
        proof {
            assert(Set::<u32>::empty().insert(p).remove(p) =~= Set::<u32>::empty());
            assert(self.root() == pre.root());
            self.lemma_nodes();
            assert forall|k: Seq<u8>| #[trigger] self.has_key_node(k) <==> old(self).has_key_node(
                k,
            ) && k != old(self).path_of(x) by {
                assert(self.has_key_node(k) == pre.has_key_node(k));
            }
            Self::lemma_classes_kept(old(self), self, Set::empty());
        }
        p
    }
    /// The nodes whose slots `sync_all` is to write: those that the
    /// pointers of `e` from place `i` on lead to, the node at `x2`, and the
    /// node at `p` where `with_p` says so.
    spec fn moved_dirty(e: Seq<(u8, Pointer)>, i: int, x2: u32, p: u32, with_p: bool) -> Set<u32> {
        Set::new(|a: u32| points_from(e, i, a) || a == x2 || (with_p && a == p))
    }

    /// Writes the wire forms of the nodes that the pointers of `e` lead
    /// to, of the node at `x2`, and of the node at `p` where `with_p` says
    /// so, into their slots.
    #[verifier::rlimit(30)]
    fn sync_all(&mut self, e: &Vec<(u8, Pointer)>, x2: u32, p: u32, with_p: bool)
        requires
            old(self).wf_core(),
            old(self).images(Self::moved_dirty(e@, 0, x2, p, with_p)),
            old(self).nodes@.dom().contains(x2),
            with_p ==> old(self).nodes@.dom().contains(p),
            forall|j: int| 0 <= j < e@.len() ==> old(self).nodes@.dom().contains((#[trigger] e@[j]).1.addr),
        ensures
            final(self).wf(),
            IndexPool::room_kept(&old(self).pool(), &final(self).pool(), 0),
            final(self).nodes@ == old(self).nodes@,
            final(self).store() == old(self).store(),
            final(self).paths@ == old(self).paths@,
            final(self).sentinel == old(self).sentinel,
            final(self).pool.pages().len() == old(self).pool.pages().len(),
            final(self).pool.spec_limit() == old(self).pool.spec_limit(),
            forall|c: u32, s: int| final(self).pool.live(c, s) <==> old(self).pool.live(c, s),
    {
        let n = e.len();
        let mut i: usize = 0;
        while i < n
            invariant
                i <= n,
                n == e@.len(),
                self.wf_core(),
                self.images(Self::moved_dirty(e@, i as int, x2, p, with_p)),
                self.nodes@ == old(self).nodes@,
                self.store() == old(self).store(),
                self.paths@ == old(self).paths@,
                self.sentinel == old(self).sentinel,
                self.pool.pages().len() == old(self).pool.pages().len(),
                self.pool.spec_limit() == old(self).pool.spec_limit(),
                forall|c: u32, s: int| self.pool.live(c, s) <==> old(self).pool.live(c, s),
                IndexPool::room_kept(&old(self).pool(), &self.pool(), 0),
                forall|j: int|
                    0 <= j < e@.len() ==> old(self).nodes@.dom().contains((#[trigger] e@[j]).1.addr),
            decreases n - i,
        {
            let c = e[i].1.addr;
            let ghost d = Self::moved_dirty(e@, i as int, x2, p, with_p);
            self.sync(c, Ghost(d));
            proof {
                let d2 = Self::moved_dirty(e@, i + 1, x2, p, with_p);
                assert forall|a: u32|
                    self.nodes@.dom().contains(a) && !d2.contains(a) implies #[trigger] self.image_ok(
                    a,
                ) by {
                    if d.remove(c).contains(a) {
                        assert(points_from(e@, i as int, a));
                        let j = choose|j: int| i <= j < e@.len() && (#[trigger] e@[j]).1.addr == a;
                        assert(j != i);
                        assert(points_from(e@, i + 1, a));
                    }
                }
            }
            i += 1;
        }
        let ghost d = Self::moved_dirty(e@, n as int, x2, p, with_p);
        self.sync(x2, Ghost(d));
        if with_p {
            self.sync(p, Ghost(d.remove(x2)));
            proof {
                assert forall|a: u32| self.nodes@.dom().contains(a) implies #[trigger] self.image_ok(
                    a,
                ) by {
                    assert(!d.remove(x2).remove(p).contains(a));
                }
            }
        } else {
            proof {
                assert forall|a: u32| self.nodes@.dom().contains(a) implies #[trigger] self.image_ok(
                    a,
                ) by {
                    assert(!d.remove(x2).contains(a));
                }
            }
        }
    }

    /// Takes a slot for a node of class `tp` from the pool and keeps it
    /// aside: no node is in it. None where the pool has no slot; nothing
    /// has changed then.
    fn take_slot(&mut self, tp: NodeType) -> (r: Option<u32>)
        requires
            old(self).wf(),
        ensures
            final(self).wf(),
            IndexPool::room_kept(
                &old(self).pool(),
                &final(self).pool(),
                tp.spec_size() as int,
            ),
            final(self).nodes@ == old(self).nodes@,
            final(self).paths@ == old(self).paths@,
            final(self).sentinel == old(self).sentinel,
            final(self).pool().spec_limit() == old(self).pool().spec_limit(),
            match r {
                Some(addr) => {
                    &&& addr != 0
                    &&& !final(self).has_node(addr)
                    &&& forall|s: int| !old(self).pool().live(addr, s)
                    &&& forall|a: u32, s: int|
                        final(self).pool().live(a, s) <==> old(self).pool().live(a, s) || (a
                            == addr && s == tp.spec_size())
                    &&& old(self).pool().pages().len() <= final(self).pool().pages().len() <= old(
                        self,
                    ).pool().pages().len() + 1
                },
                None => {
                    &&& old(self).exhausted()
                    &&& final(self).pool().pages().len() == old(self).pool().pages().len()
                    &&& forall|a: u32, s: int|
                        final(self).pool().live(a, s) <==> old(self).pool().live(a, s)
                },
            },
            r is None <==> old(self).exhausted() && old(self).pool().no_room(
                tp.spec_size() as int,
            ),
            r is Some ==> IndexPool::room_kept(
                &old(self).pool(),
                &final(self).pool(),
                tp.spec_size() as int,
            ),
    {
        proof {
            self.lemma_nodes();
        }
        let ghost pool0 = self.pool;
        let r = self.pool.alloc_node(tp);
        proof {

            assert(self.store() =~= old(self).store());
            assert forall|a: u32| self.nodes@.dom().contains(a) implies self.pool.live(
                a,
                (#[trigger] self.nodes@[a])@.tp.spec_size() as int,
            ) && self.pool.slot_bytes(a, self.nodes@[a]@.tp.spec_size() as int)
                == pool0.slot_bytes(a, self.nodes@[a]@.tp.spec_size() as int) by {
                assert(pool0.live(a, self.nodes@[a]@.tp.spec_size() as int));
            }
            Self::lemma_images_kept(old(self), self, Set::empty());
            if r is Some {
                let addr = r->0;
                if self.nodes@.dom().contains(addr) {
                    assert(pool0.live(addr, self.nodes@[addr]@.tp.spec_size() as int));
                }
            }
        }
        r
    }

    /// Gives a slot that was kept aside for a node of class `tp` back to
    /// the pool.
    fn give_slot(&mut self, addr: u32, tp: NodeType)
        requires
            old(self).wf(),
            !old(self).has_node(addr),
            old(self).pool().live(addr, tp.spec_size() as int),
        ensures
            final(self).wf(),
            IndexPool::room_kept(&old(self).pool(), &final(self).pool(), 0),
            final(self).nodes@ == old(self).nodes@,
            final(self).paths@ == old(self).paths@,
            final(self).sentinel == old(self).sentinel,
            final(self).pool().spec_limit() == old(self).pool().spec_limit(),
            final(self).pool().pages().len() == old(self).pool().pages().len(),
            forall|a: u32, s: int|
                final(self).pool().live(a, s) <==> old(self).pool().live(a, s) && a != addr,
    {
        proof {
            self.lemma_nodes();
        }
        let ghost pool0 = self.pool;
        self.pool.release(addr, tp);
        proof {
            assert(self.store() =~= old(self).store());
            assert forall|a: u32| self.nodes@.dom().contains(a) implies self.pool.live(
                a,
                (#[trigger] self.nodes@[a])@.tp.spec_size() as int,
            ) && self.pool.slot_bytes(a, self.nodes@[a]@.tp.spec_size() as int)
                == pool0.slot_bytes(a, self.nodes@[a]@.tp.spec_size() as int) by {
                assert(pool0.live(a, self.nodes@[a]@.tp.spec_size() as int));
            }
            Self::lemma_images_kept(old(self), self, Set::empty());
        }
    }

    /// Moves the node at `x` to a slot of the class of `n2`, which is the
    /// same node in another class: takes a slot, stores `n2` there as
    /// `move_node` does, and gives the old slot back. Where the pool has no
    /// slot, nothing changes.
    #[verifier::rlimit(30)]
    fn replace_node(&mut self, x: u32, n2: Node) -> (r: Result<u32, ArtError>)
        requires
            old(self).wf(),
            old(self).has_node(x),
            n2.wf(),
            n2@ == (NodeView { tp: n2@.tp, ..old(self).store()[x] }),
        ensures
            final(self).wf(),
            IndexPool::room_kept(
                &old(self).pool(),
                &final(self).pool(),
                n2@.tp.spec_size() as int,
            ),
            old(self).exhausted() ==> final(self).exhausted(),
            final(self).pool().spec_limit() == old(self).pool().spec_limit(),
            old(self).pool().pages().len() <= final(self).pool().pages().len() <= old(
                self,
            ).pool().pages().len() + 1,
            forall|k: Seq<u8>| final(self).lookup(k) == old(self).lookup(k),
            Self::keys_kept(old(self), final(self)),
            Self::classes_kept(
                old(self),
                final(self),
                Set::empty().insert(old(self).path_of(x)),
            ),
            Self::slots_kept(old(self), final(self)),
            r is Err <==> old(self).exhausted() && old(self).pool().no_room(
                n2@.tp.spec_size() as int,
            ),
            match r {
                Ok(x2) => {
                    &&& final(self).has_node(x2)
                    &&& final(self).path_of(x2) == old(self).path_of(x)
                    &&& final(self).store()[x2] == n2@
                    &&& final(self).spec_size() == old(self).spec_size()
                    &&& x == old(self).root() <==> x2 == final(self).root()
                },
                Err(e) => {
                    &&& e == ArtError::AllocationExhausted
                    &&& final(self).exhausted()
                    &&& final(self).store() == old(self).store()
                    &&& final(self).root() == old(self).root()
                    &&& final(self).path_of(x) == old(self).path_of(x)
                    &&& final(self).pool().pages().len() == old(self).pool().pages().len()
                    &&& final(self).spec_size() == old(self).spec_size()
                },
            },
    {
        match self.take_slot(n2.node_type()) {
            None => Err(ArtError::AllocationExhausted),
            Some(x2) => {
                let ghost taken = *self;
                self.move_node(x, n2, x2);
                proof {
                    self.lemma_nodes();
                    assert forall|k: Seq<u8>| self.lookup(k) == old(self).lookup(k) by {
                        assert(taken.lookup(k) == old(self).lookup(k));
                    }
                    assert forall|k: Seq<u8>| #[trigger]
                        self.has_key_node(k) <==> old(self).has_key_node(k) by {
                        assert(taken.has_key_node(k) == old(self).has_key_node(k));
                    }
                    assert forall|k: Seq<u8>| #[trigger]
                        self.has_key_node(k) && old(self).has_key_node(k) && k != old(
                            self,
                        ).path_of(x) implies self.node_at(k).tp == old(self).node_at(k).tp by {
                        assert(taken.node_at(k) == old(self).node_at(k));
                        assert(taken.has_key_node(k));
                        assert(!Set::<Seq<u8>>::empty().insert(taken.path_of(x)).contains(k));
                    }
                }
                Ok(x2)
            },
        }
    }

    /// Moves the node at `x` into the slot at `x2`, which is taken for the
    /// class of `n2` and holds no node yet; `n2` is the same node in
    /// another class. Stores `n2` there, rewrites the pointer of the
    /// parent and the parent pointers of the children, and gives the old
    /// slot back.
    #[verifier::loop_isolation(false)]
    #[verifier::rlimit(30)]
    fn move_node(&mut self, x: u32, n2: Node, x2: u32)
        requires
            old(self).wf(),
            old(self).has_node(x),
            n2.wf(),
            n2@ == (NodeView { tp: n2@.tp, ..old(self).store()[x] }),
            x2 != 0,
            !old(self).has_node(x2),
            old(self).pool().live(x2, n2@.tp.spec_size() as int),
        ensures
            final(self).wf(),
            IndexPool::room_kept(&old(self).pool(), &final(self).pool(), 0),
            final(self).pool().spec_limit() == old(self).pool().spec_limit(),
            final(self).pool().pages().len() == old(self).pool().pages().len(),
            forall|a: u32, s: int|
                final(self).pool().live(a, s) <==> old(self).pool().live(a, s) && a != x,
            forall|a: u32| final(self).has_node(a) <==> (old(self).has_node(a) && a != x) || a == x2,
            forall|k: Seq<u8>| final(self).lookup(k) == old(self).lookup(k),
            Self::keys_kept(old(self), final(self)),
            Self::classes_kept(
                old(self),
                final(self),
                Set::empty().insert(old(self).path_of(x)),
            ),
            final(self).path_of(x2) == old(self).path_of(x),
            final(self).store()[x2] == n2@,
            final(self).spec_size() == old(self).spec_size(),
            x == old(self).root() <==> x2 == final(self).root(),
    {
        proof {
            self.lemma_nodes();
        }
        let ghost s = self.store();
        let ghost paths = self.paths@;
        let ghost pool0 = self.pool;
        let root = self.root_addr();
        let tp2 = n2.node_type();
        let ghost pool1 = self.pool;
        let ghost nodes0 = self.nodes@;
        proof {
            n2.lemma_wf();
        }
        let xn = self.nodes.remove(&x).unwrap();
        let tp1 = xn.node_type();
        let p_addr = xn.get_parent().addr;
        let ptr2 = Pointer::new(tp2, n2.get_edge().len() as u8, x2);
        if x == root {
            self.sentinel.set_child(0, ptr2);
        } else {
            proof {
                lemma_parent_of(s, paths, root, x);
            }
            let p = xn.get_parent().addr;
            let b = xn.get_edge()[0];
            let mut pn = self.nodes.remove(&p).unwrap();
            proof {
                pn.lemma_wf();
            }
            pn.del_child(b);
            proof {
                assert(s[p].children.dom().len() == s[p].children.dom().remove(b).len() + 1);
            }
            let res = pn.set_child(b, ptr2);
            assert(res == NodeOpRes::Succ);
            self.nodes.insert(p, pn);
            proof {
                assert(s[p].children.remove(b).insert(b, ptr2) =~= s[p].children.insert(b, ptr2));
            }
        }
        let entries = n2.get_children();
        let ghost mid = self.nodes@;
        let ghost e = entries@;
        proof {
            assert(mid.dom() =~= nodes0.dom().remove(x));
            assert forall|j: int| 0 <= j < e.len() implies mid.dom().contains((#[trigger] e[j]).1.addr)
                && e[j].1.addr != x && e[j].1.addr != root && s[e[j].1.addr].parent.addr == x
                && s[e[j].1.addr].edge[0] == e[j].0 by {
                assert(s[x].children.dom().contains(e[j].0));
                lemma_child_deeper(s, paths, root, x, e[j].0);
            }
            assert forall|j: int, k: int| 0 <= j < k < e.len() implies (#[trigger] e[j]).1.addr != (
            #[trigger] e[k]).1.addr by {
                assert(s[e[j].1.addr].edge[0] == e[j].0);
                assert(s[e[k].1.addr].edge[0] == e[k].0);
            }
        }
        let n = entries.len();
        let mut i: usize = 0;
        while i < n
            invariant
                i <= n,
                n == e.len(),
                e == entries@,
                self.pool == pool1,
                self.paths@ == paths,
                self.sentinel.spec_child() == (if x == root {
                    ptr2
                } else {
                    old(self).sentinel.spec_child()
                }),
                forall|a: u32| self.nodes@.dom().contains(a) <==> mid.dom().contains(a),
                forall|a: u32|
                    mid.dom().contains(a) ==> (#[trigger] self.nodes@[a]).wf() && self.nodes@[a]@
                        == if points_to(e, i as int, a) {
                        NodeView { parent: ptr2, ..mid[a]@ }
                    } else {
                        mid[a]@
                    },
            decreases n - i,
        {
            let c = entries[i].1.addr;
            let ghost before = self.nodes@;
            assert(!points_to(e, i as int, c)) by {
                if points_to(e, i as int, c) {
                    let j = choose|j: int| 0 <= j < i && (#[trigger] e[j]).1.addr == c;
                    assert(e[j].1.addr != e[i as int].1.addr);
                }
            }
            let mut cn = self.nodes.remove(&c).unwrap();
            cn.set_parent(ptr2);
            self.nodes.insert(c, cn);
            proof {
                assert forall|a: u32| mid.dom().contains(a) implies (#[trigger] self.nodes@[a]).wf()
                    && self.nodes@[a]@ == if points_to(e, i + 1, a) {
                    NodeView { parent: ptr2, ..mid[a]@ }
                } else {
                    mid[a]@
                } by {
                    if a == c {
                        assert(e[i as int].1.addr == c);
                    } else {
                        assert(self.nodes@[a] == before[a]);
                        if points_to(e, i + 1, a) {
                            let j = choose|j: int| 0 <= j < i + 1 && (#[trigger] e[j]).1.addr == a;
                            assert(j < i);
                        }
                        if points_to(e, i as int, a) {
                            let j = choose|j: int| 0 <= j < i && (#[trigger] e[j]).1.addr == a;
                            assert(e[j].1.addr == a);
                        }
                    }
                }
            }
            i += 1;
        }
        self.nodes.insert(x2, n2);
        self.pool.release(x, tp1);
        self.paths = Ghost(paths.insert(x2, paths[x]));
        proof {
            let s2 = self.store();
            let root2 = self.root();
            assert forall|a: u32| a != x && s.dom().contains(a) implies {
                &&& (#[trigger] s2[a]).edge == s[a].edge
                &&& s2[a].values == s[a].values
                &&& s2[a].tp == s[a].tp
                &&& s2[a].parent.addr == if a != root && s[a].parent.addr == x {
                    x2
                } else {
                    s[a].parent.addr
                }
                &&& s2[a].children == if x != root && a == s[x].parent.addr {
                    s[a].children.insert(s[x].edge[0], ptr2)
                } else {
                    s[a].children
                }
            } by {
                assert(mid.dom().contains(a));
                assert(self.nodes@[a]@ == s2[a]);
                if points_to(e, n as int, a) {
                    let j = choose|j: int| 0 <= j < n && (#[trigger] e[j]).1.addr == a;
                    assert(s[e[j].1.addr].parent.addr == x);
                } else {
                    if a != root && s[a].parent.addr == x {
                        lemma_parent_of(s, paths, root, a);
                        let b = s[a].edge[0];
                        let j = choose|j: int| 0 <= j < e.len() && (#[trigger] e[j]).0 == b;
                        assert(e[j].1.addr == a);
                        assert(points_to(e, n as int, a));
                    }
                }
            }
            assert(!ptr2.spec_is_null());
            assert(self.nodes@.dom() =~= mid.dom().insert(x2));
            assert(s2.dom() =~= self.nodes@.dom());
            assert forall|a: u32| s2.dom().contains(a) <==> (a != x && s.dom().contains(a)) || a
                == x2 by {
                assert(s2.dom().contains(a) <==> mid.dom().insert(x2).contains(a));
            }
            assert(s2[x2] == n2@);
            assert(ptr2.spec_node_type() == n2@.tp);
            assert(s2[x2] == (NodeView { tp: ptr2.spec_node_type(), ..s[x] }));
            assert(ptr2.spec_distance() == s[x].edge.len());
            assert(moved(s, root, x, ptr2, s2));
            lemma_moved(s, paths, root, x, ptr2, s2, self.paths@, root2);
            assert(s2.dom() =~= s.dom().remove(x).insert(x2));
            assert forall|a: u32| self.nodes@.dom().contains(a) implies (#[trigger] self.nodes@[a]).wf()
                && self.pool.live(a, self.nodes@[a]@.tp.spec_size() as int) by {
                if a != x2 {
                    assert(nodes0.dom().contains(a));
                    assert(pool0.live(a, nodes0[a]@.tp.spec_size() as int));
                    assert(s2[a].tp == s[a].tp);
                }
            }
            assert(self.pool.pages().len() >= pool0.pages().len());
            assert(self.wf_core());
            let dirty = Self::moved_dirty(e, 0, x2, p_addr, x != root);
            assert forall|a: u32|
                self.nodes@.dom().contains(a) && !dirty.contains(a) implies old(
                self,
            ).nodes@.dom().contains(a) && (#[trigger] self.nodes@[a])@ == old(self).nodes@[a]@
                && self.pool.slot_bytes(a, old(self).nodes@[a]@.tp.spec_size() as int)
                == pool0.slot_bytes(a, old(self).nodes@[a]@.tp.spec_size() as int) by {
                assert(a != x2);
                assert(mid.dom().contains(a));
                assert(!points_to(e, n as int, a)) by {
                    if points_to(e, n as int, a) {
                        let j = choose|j: int| 0 <= j < n && (#[trigger] e[j]).1.addr == a;
                        assert(points_from(e, 0, a));
                    }
                }
                assert(self.nodes@[a]@ == mid[a]@);
                assert(mid[a] == nodes0[a]);
                assert(pool0.live(a, nodes0[a]@.tp.spec_size() as int));
                assert(pool1.live(a, nodes0[a]@.tp.spec_size() as int));
                assert(pool1.slot_bytes(a, nodes0[a]@.tp.spec_size() as int) == pool0.slot_bytes(
                    a,
                    nodes0[a]@.tp.spec_size() as int,
                ));
            }
            Self::lemma_images_kept(old(self), self, dirty);
            assert forall|k: Seq<u8>| #[trigger] self.has_key_node(k) <==> old(self).has_key_node(
                k,
            ) by {
                Self::lemma_keys(old(self), self, k);
                if keyed(s, paths, k) {
                    let n = choose|n: u32| s.dom().contains(n) && #[trigger] paths[n] == k;
                    if n == x {
                        assert(self.paths@[x2] == k);
                    } else {
                        assert(self.paths@[n] == k);
                        assert(s2.dom().contains(n));
                    }
                }
                if keyed(s2, self.paths@, k) {
                    let n = choose|n: u32| s2.dom().contains(n) && #[trigger] self.paths@[n] == k;
                    if n == x2 {
                        assert(paths[x] == k);
                    } else {
                        assert(paths[n] == k);
                    }
                }
            }
        }
        let ghost pre = *self;
        self.sync_all(&entries, x2, p_addr, x != root);
        proof {
            assert(self.root() == pre.root());
            self.lemma_nodes();
            assert forall|k: Seq<u8>| #[trigger] self.has_key_node(k) <==> old(self).has_key_node(
                k,
            ) by {
                assert(self.has_key_node(k) == pre.has_key_node(k));
            }
            Self::lemma_classes_kept(old(self), self, Set::empty().insert(paths[x]));
        }
    }
    /// The node at `x` is to go: it is not the root, and has no child and no
    /// value.
    pub open spec fn is_bare(&self, x: u32) -> bool {
        &&& x != self.root()
        &&& self.store()[x].children.dom() == Set::<u8>::empty()
        &&& self.store()[x].values.len() == 0
    }

    /// All that lies at the key `k` or below it is on the way to `key`,
    /// and nothing of it but `key` has a value; and `k` is not the key of
    /// the root.
    pub open spec fn is_spare(&self, k: Seq<u8>, key: Seq<u8>) -> bool {
        &&& k.len() > 0
        &&& k.is_prefix_of(key)
        &&& forall|q: Seq<u8>| #[trigger]
            self.has_key_node(q) && k.is_prefix_of(q) ==> q.is_prefix_of(key) && (q == key
                || self.lookup(q).len() == 0)
    }

    /// What is spare on the way to `key` does not depend on the values of
    /// `key`.
    proof fn lemma_spare_kept(old: &Self, new: &Self, k: Seq<u8>, key: Seq<u8>)
        requires
            Self::keys_kept(old, new),
            forall|q: Seq<u8>| q != key ==> new.lookup(q) == old.lookup(q),
        ensures
            old.is_spare(k, key) == new.is_spare(k, key),
    {
        if old.is_spare(k, key) {
            assert forall|q: Seq<u8>| #[trigger]
                new.has_key_node(q) && k.is_prefix_of(q) implies q.is_prefix_of(key) && (q == key
                || new.lookup(q).len() == 0) by {
                assert(old.has_key_node(q));
            }
        }
        if new.is_spare(k, key) {
            assert forall|q: Seq<u8>| #[trigger]
                old.has_key_node(q) && k.is_prefix_of(q) implies q.is_prefix_of(key) && (q == key
                || old.lookup(q).len() == 0) by {
                assert(new.has_key_node(q));
            }
        }
    }

    /// `new` has the nodes of `old` but for those on the way to `target`
    /// with keys of more than `len` bytes, and those were spare.
    #[verifier::opaque]
    spec fn pruned_to(old: &Self, new: &Self, target: Seq<u8>, len: int) -> bool {
        &&& forall|k: Seq<u8>|
            #[trigger] new.has_key_node(k) <==> old.has_key_node(k) && !(k.is_prefix_of(target)
                && k.len() > len)
        &&& forall|k: Seq<u8>|
            #[trigger] old.has_key_node(k) && k.is_prefix_of(target) && k.len() > len
                ==> old.is_spare(k, target)
        &&& len < target.len() ==> old.lookup(target).len() == 0
    }

    /// Nothing has been taken out before the first step.
    proof fn lemma_pruned_start(old: &Self, target: Seq<u8>)
        ensures
            Self::pruned_to(old, old, target, target.len() as int),
    {
        reveal(Art::pruned_to);
    }

    /// Taking out a node without child and value, of which the nodes on
    /// the way to `target` behind it are gone, leaves the nodes up to its
    /// parent.
    proof fn lemma_pruned_step(
        old: &Self,
        mid: &Self,
        new: &Self,
        target: Seq<u8>,
        x: u32,
        pk: Seq<u8>,
    )
        requires
            mid.wf(),
            mid.has_node(x),
            x != mid.root(),
            mid.store()[x].children.dom() == Set::<u8>::empty(),
            mid.store()[x].values.len() == 0,
            mid.path_of(x).is_prefix_of(target),
            Self::pruned_to(old, mid, target, mid.path_of(x).len() as int),
            forall|k: Seq<u8>| mid.lookup(k) == old.lookup(k),
            forall|k: Seq<u8>|
                #[trigger] new.has_key_node(k) <==> mid.has_key_node(k) && k != mid.path_of(x),
            pk + mid.store()[x].edge == mid.path_of(x),
        ensures
            Self::pruned_to(old, new, target, pk.len() as int),
    {
        reveal(Art::pruned_to);
        mid.lemma_nodes();
        let s = mid.store();
        let paths = mid.paths@;
        let root = mid.root();
        let gone = paths[x];
        let e = s[x].edge;
        lemma_parent_of(s, paths, root, x);
        let p = s[x].parent.addr;
        assert(pk =~= gone.subrange(0, pk.len() as int));
        assert(paths[p] =~= gone.subrange(0, paths[p].len() as int));
        assert(paths[p] == pk);
        assert(gone =~= target.subrange(0, gone.len() as int));
        mid.lemma_lookup(gone);
        // no node has a key between that of the parent and that of the node
        assert forall|k: Seq<u8>|
            mid.has_key_node(k) && k.is_prefix_of(target) && pk.len() < k.len() <= gone.len() implies k
            == gone by {
            assert(k =~= target.subrange(0, k.len() as int));
            assert(k =~= gone.subrange(0, k.len() as int));
            if k.len() < gone.len() {
                lemma_keyed(s, paths, root, k);
                let n = choose|n: u32| s.dom().contains(n) && #[trigger] paths[n] == k;
                assert(pk =~= k.subrange(0, pk.len() as int));
                lemma_ancestor(s, paths, root, p, n);
                assert(k[pk.len() as int] == e[0]);
                assert(gone =~= k.subrange(0, gone.len() as int));
            }
        }
        // nothing lies below the node
        assert forall|q: Seq<u8>|
            mid.has_key_node(q) && gone.is_prefix_of(q) implies q == gone by {
            if q.len() > gone.len() {
                lemma_keyed(s, paths, root, q);
                let n = choose|n: u32| s.dom().contains(n) && #[trigger] paths[n] == q;
                lemma_ancestor(s, paths, root, x, n);
            } else {
                assert(q =~= gone);
            }
        }
        assert forall|k: Seq<u8>|
            #[trigger] new.has_key_node(k) <==> old.has_key_node(k) && !(k.is_prefix_of(target)
                && k.len() > pk.len()) by {
            assert(new.has_key_node(k) <==> mid.has_key_node(k) && k != gone);
            assert(mid.has_key_node(k) <==> old.has_key_node(k) && !(k.is_prefix_of(target)
                && k.len() > gone.len()));
        }
        assert(old.has_key_node(gone)) by {
            lemma_keyed(s, paths, root, gone);
            assert(mid.has_key_node(gone));
        }
        assert(old.is_spare(gone, target)) by {
            assert forall|q: Seq<u8>| #[trigger]
                old.has_key_node(q) && gone.is_prefix_of(q) implies q.is_prefix_of(target) && (q
                == target || old.lookup(q).len() == 0) by {
                if mid.has_key_node(q) {
                    assert(q == gone);
                } else {
                    assert(mid.lookup(q) == old.lookup(q));
                }
            }
        }
        assert forall|k: Seq<u8>|
            #[trigger] old.has_key_node(k) && k.is_prefix_of(target) && k.len()
                > pk.len() implies old.is_spare(k, target) by {
            if k.len() <= gone.len() {
                assert(mid.has_key_node(k));
                assert(k == gone);
            }
        }
        if pk.len() < target.len() && gone.len() == target.len() {
            assert(gone =~= target);
            assert(mid.lookup(target) == old.lookup(target));
        }
    }

    /// Where the way up ends at a node that stays, the nodes that are gone
    /// are the spare ones.
    proof fn lemma_pruned_stop(old: &Self, mid: &Self, target: Seq<u8>, x: u32)
        requires
            mid.wf(),
            mid.has_node(x),
            !mid.is_bare(x),
            mid.path_of(x).is_prefix_of(target),
            Self::pruned_to(old, mid, target, mid.path_of(x).len() as int),
            forall|k: Seq<u8>| mid.lookup(k) == old.lookup(k),
        ensures
            forall|k: Seq<u8>|
                #[trigger] mid.has_key_node(k) <==> old.has_key_node(k) && !(old.lookup(
                    target,
                ).len() == 0 && old.is_spare(k, target)),
    {
        reveal(Art::pruned_to);
        mid.lemma_nodes();
        let s = mid.store();
        let paths = mid.paths@;
        let root = mid.root();
        let here = paths[x];
        mid.lemma_lookup(here);
        lemma_keyed(s, paths, root, here);
        assert(mid.has_key_node(here));
        assert(old.has_key_node(here));
        assert(here =~= target.subrange(0, here.len() as int));
        assert forall|k: Seq<u8>|
            #[trigger] mid.has_key_node(k) <==> old.has_key_node(k) && !(old.lookup(target).len()
                == 0 && old.is_spare(k, target)) by {
            if old.has_key_node(k) && old.lookup(target).len() == 0 && old.is_spare(k, target)
                && k.len() <= here.len() {
                assert(k =~= target.subrange(0, k.len() as int));
                assert(k =~= here.subrange(0, k.len() as int));
                assert(k.is_prefix_of(here));
                assert(x != root);
                assert(mid.lookup(here) == old.lookup(here));
                if s[x].values.len() == 0 {
                    if forall|b: u8| !s[x].children.dom().contains(b) {
                        assert(s[x].children.dom() =~= Set::<u8>::empty());
                    }
                    let b = choose|b: u8| s[x].children.dom().contains(b);
                    assert(child_ok(s, paths, x, b));
                    let c = s[x].children[b].addr;
                    let q = paths[c];
                    lemma_keyed(s, paths, root, q);
                    assert(mid.has_key_node(q));
                    assert(old.has_key_node(q));
                    assert(k =~= q.subrange(0, k.len() as int));
                    assert(k.is_prefix_of(q));
                    assert(q.is_prefix_of(target));
                    assert(false);
                } else {
                    assert(here == target);
                    assert(false);
                }
            }
        }
    }

    /// `k` is the longest beginning of `key` that leads to a node.
    pub open spec fn is_last_on_way(&self, k: Seq<u8>, key: Seq<u8>) -> bool {
        &&& self.has_key_node(k)
        &&& k.is_prefix_of(key)
        &&& forall|q: Seq<u8>| #[trigger]
            self.has_key_node(q) && q.is_prefix_of(key) ==> q.len() <= k.len()
    }

    /// The class of the node of `k` in `new`, once the way to `key` has
    /// been tidied up: where the way now ends at that node, and the node
    /// has fewer children than the low-water mark of the class that it had
    /// in `old`, the next smaller class, or the same where the pool of
    /// `old` was exhausted and none of its pages had a free range for a
    /// slot of the smaller class; and the class that it had in `old`
    /// otherwise.
    pub open spec fn shrunk_or_kept(old: &Self, new: &Self, key: Seq<u8>, k: Seq<u8>) -> bool {
        if new.is_last_on_way(k, key) && new.node_at(k).children.dom().len() < spec_low_water(
            old.node_at(k).tp,
        ) {
            ||| Some(new.node_at(k).tp) == spec_smaller(old.node_at(k).tp)
            ||| old.exhausted() && !old.pool().has_room(
                spec_smaller(old.node_at(k).tp)->0.spec_size() as int,
            ) && new.node_at(k).tp == old.node_at(k).tp
        } else {
            new.node_at(k).tp == old.node_at(k).tp
        }
    }

    /// Classes that are kept over two steps are kept.
    proof fn lemma_classes_trans(old: &Self, mid: &Self, new: &Self, except: Set<Seq<u8>>)
        requires
            Self::classes_kept(old, mid, Set::empty()),
            Self::classes_kept(mid, new, except),
            forall|k: Seq<u8>| #[trigger] new.has_key_node(k) ==> mid.has_key_node(k),
        ensures
            Self::classes_kept(old, new, except),
    {
        assert forall|k: Seq<u8>| #[trigger]
            new.has_key_node(k) && old.has_key_node(k) && !except.contains(k) implies new.node_at(
            k,
        ).tp == old.node_at(k).tp by {
            assert(mid.has_key_node(k));
        }
    }

    /// Where the way up has stopped at the node at `x`, and that node has
    /// shrunk or not as it was due, every node has the class that
    /// `shrunk_or_kept` gives it.
    proof fn lemma_pruned_classes(old: &Self, mid: &Self, new: &Self, target: Seq<u8>, x: u32)
        requires
            mid.wf(),
            mid.has_node(x),
            mid.path_of(x).is_prefix_of(target),
            Self::pruned_to(old, mid, target, mid.path_of(x).len() as int),
            Self::classes_kept(old, mid, Set::empty()),
            Self::keys_kept(mid, new),
            Self::classes_kept(mid, new, Set::empty().insert(mid.path_of(x))),
            new.node_at(mid.path_of(x)).children == mid.store()[x].children,
            if mid.store()[x].children.dom().len() < spec_low_water(mid.store()[x].tp) {
                ||| Some(new.node_at(mid.path_of(x)).tp) == spec_smaller(mid.store()[x].tp)
                ||| old.exhausted() && !old.pool().has_room(
                    spec_smaller(mid.store()[x].tp)->0.spec_size() as int,
                ) && new.node_at(mid.path_of(x)).tp == mid.store()[x].tp
            } else {
                new.node_at(mid.path_of(x)).tp == mid.store()[x].tp
            },
        ensures
            forall|k: Seq<u8>| #[trigger]
                new.has_key_node(k) ==> Self::shrunk_or_kept(old, new, target, k),
    {
        reveal(Art::pruned_to);
        let here = mid.path_of(x);
        mid.lemma_node_at(x);
        assert(new.has_key_node(here));
        assert(old.has_key_node(here));
        assert(here =~= target.subrange(0, here.len() as int));
        assert(new.is_last_on_way(here, target)) by {
            assert forall|q: Seq<u8>| #[trigger]
                new.has_key_node(q) && q.is_prefix_of(target) implies q.len() <= here.len() by {
                assert(mid.has_key_node(q));
            }
        }
        assert forall|k: Seq<u8>| #[trigger] new.has_key_node(k) implies Self::shrunk_or_kept(
            old,
            new,
            target,
            k,
        ) by {
            assert(mid.has_key_node(k));
            assert(old.has_key_node(k));
            if k != here {
                assert(!Set::<Seq<u8>>::empty().insert(here).contains(k));
                if new.is_last_on_way(k, target) {
                    assert(k.len() >= here.len());
                    assert(k =~= target.subrange(0, k.len() as int));
                    assert(false);
                }
            }
        }
    }

    /// Tidies up from the node at `x` towards the root: takes out every
    /// node on the way that has no child and no value, but never the root,
    /// and turns the node at which it stops into the next smaller class
    /// where that node is due to shrink and the pool has a slot.
    #[verifier::rlimit(30)]
    fn prune(&mut self, x: u32)
        requires
            old(self).wf(),
            old(self).has_node(x),
        ensures
            final(self).wf(),
            Self::room_kept(old(self), final(self), crate::codec::NODE48_SIZE as int),
            old(self).exhausted() ==> final(self).exhausted(),
            final(self).pool().spec_limit() == old(self).pool().spec_limit(),
            old(self).pool().pages().len() <= final(self).pool().pages().len() <= old(
                self,
            ).pool().pages().len() + 1,
            final(self).spec_size() <= old(self).spec_size(),
            Self::slots_kept(old(self), final(self)),
            forall|k: Seq<u8>| final(self).lookup(k) == old(self).lookup(k),
            forall|k: Seq<u8>| #[trigger] final(self).has_key_node(k) ==> old(self).has_key_node(k),
            forall|k: Seq<u8>|
                old(self).has_key_node(k) && !k.is_prefix_of(old(self).path_of(x))
                    ==> #[trigger] final(self).has_key_node(k),
            final(self).has_key_node(old(self).path_of(x)) <==> !old(self).is_bare(x),
            forall|k: Seq<u8>|
                #[trigger] final(self).has_key_node(k) <==> old(self).has_key_node(k) && !(old(
                    self,
                ).lookup(old(self).path_of(x)).len() == 0 && old(self).is_spare(
                    k,
                    old(self).path_of(x),
                )),
            forall|k: Seq<u8>| #[trigger]
                final(self).has_key_node(k) ==> Self::shrunk_or_kept(
                    old(self),
                    final(self),
                    old(self).path_of(x),
                    k,
                ),
    {
        let ghost target = self.path_of(x);
        let mut cur = x;
        proof {
            self.lemma_lookup(target);
            assert(target =~= target.subrange(0, target.len() as int));
            Self::lemma_pruned_start(old(self), target);
        }
        loop
            invariant
                self.wf(),
                self.has_node(cur),
                self.spec_size() <= old(self).spec_size(),
                self.pool().spec_limit() == old(self).pool().spec_limit(),
                self.pool().pages().len() == old(self).pool().pages().len(),
                forall|k: Seq<u8>| self.lookup(k) == old(self).lookup(k),
                target == old(self).path_of(x),
                self.path_of(cur).is_prefix_of(target),
                forall|k: Seq<u8>| #[trigger] self.has_key_node(k) ==> old(self).has_key_node(k),
                forall|k: Seq<u8>|
                    old(self).has_key_node(k) && !k.is_prefix_of(target)
                        ==> #[trigger] self.has_key_node(k),
                self.has_key_node(target) <==> cur == x,
                cur != x ==> !self.has_node(x) && old(self).is_bare(x),
                cur == x ==> self.store()[x] == old(self).store()[x] && self.root() == old(
                    self,
                ).root() && self.path_of(x) == target,
                Self::pruned_to(old(self), self, target, self.path_of(cur).len() as int),
                Self::classes_kept(old(self), self, Set::empty()),
                Self::slots_kept(old(self), self),
                Self::room_kept(old(self), self, 0),
            ensures
                cur == x ==> !old(self).is_bare(x),
                !self.is_bare(cur),
            decreases self.spec_size(),
        {
            proof {
                self.lemma_nodes();
            }
            if cur == self.root_addr() {
                break ;
            }
            let n = self.nodes.get(&cur).unwrap();
            let vals = n.get_values();
            proof {
                assert(values_view(vals@).len() == vals@.len());
            }
            if !n.empty() || vals.len() != 0 {
                break ;
            }
            let ghost before = *self;
            let ghost gone_key = self.path_of(cur);
            let p = self.unlink(cur);
            proof {
                let pk = self.path_of(p);
                let e = before.store()[cur].edge;
                assert(pk =~= gone_key.subrange(0, pk.len() as int));
                assert(pk =~= target.subrange(0, pk.len() as int)) by {
                    assert(gone_key =~= target.subrange(0, gone_key.len() as int));
                }
                assert forall|k: Seq<u8>|
                    old(self).has_key_node(k) && !k.is_prefix_of(target) implies #[trigger] self.has_key_node(
                    k,
                ) by {
                    assert(before.has_key_node(k));
                    assert(k != gone_key);
                }
                Self::lemma_pruned_step(old(self), &before, self, target, cur, pk);
                Self::lemma_classes_trans(old(self), &before, self, Set::empty());
                Self::lemma_slots_trans(old(self), &before, self);
            }
            cur = p;
        }
        proof {
            self.lemma_nodes();
            Self::lemma_pruned_stop(old(self), self, target, cur);
        }
        let ghost stopped = *self;
        let n = self.nodes.get(&cur).unwrap();
        if n.need_shrink() {
            match n.shrink() {
                Some(n2) => {
                    match self.replace_node(cur, n2) {
                        Ok(x2) => {
                            proof {
                                self.lemma_node_at(x2);
                            }
                        },
                        Err(_) => {
                            proof {
                                stopped.lemma_node_at(cur);
                                let sz = spec_smaller(stopped.store()[cur].tp)->0.spec_size() as int;
                                if old(self).pool().has_room(sz) {
                                    let i = choose|i: int|
                                        0 <= i < old(self).pool().pages().len() && (
                                        #[trigger] old(self).pool().pages()[i]).spec_free_max()
                                            >= sz;
                                    assert(stopped.pool().pages()[i].spec_free_max() >= sz);
                                    stopped.pool().lemma_page_has_room(i + 1, sz);
                                }
                            }
                        },
                    }
                },
                None => {},
            }
        } else {
            proof {
                stopped.lemma_node_at(cur);
            }
        }
        proof {
            assert forall|k: Seq<u8>| #[trigger]
                self.has_key_node(k) <==> old(self).has_key_node(k) && !(old(self).lookup(
                    target,
                ).len() == 0 && old(self).is_spare(k, target)) by {
                assert(self.has_key_node(k) <==> stopped.has_key_node(k));
            }
            Self::lemma_pruned_classes(old(self), &stopped, self, target, cur);
            Self::lemma_slots_trans(old(self), &stopped, self);
        }
    }

    /// The slots of `v` from place `from` on are kept aside: each is taken
    /// for a node of the smallest class, no node is in it, and no two are
    /// the same.
    spec fn kept_aside(&self, v: Seq<u32>, from: int) -> bool {
        &&& forall|j: int|
            from <= j < v.len() ==> (#[trigger] v[j]) != 0 && !self.has_node(v[j])
                && self.pool().live(v[j], NodeType::N4.spec_size() as int)
        &&& forall|j: int, k: int| from <= j < k < v.len() ==> v[j] != v[k]
    }

    /// Gives the slots of `v` from place `from` on, which were kept aside,
    /// back to the pool: they are free again, every other slot is as it was.
    #[verifier::rlimit(30)]
    fn unreserve(&mut self, v: &Vec<u32>, from: usize)
        requires
            old(self).wf(),
            from <= v@.len(),
            old(self).kept_aside(v@, from as int),
        ensures
            final(self).wf(),
            IndexPool::room_kept(&old(self).pool(), &final(self).pool(), 0),
            final(self).nodes@ == old(self).nodes@,
            final(self).paths@ == old(self).paths@,
            final(self).sentinel == old(self).sentinel,
            final(self).pool().spec_limit() == old(self).pool().spec_limit(),
            final(self).pool().pages().len() == old(self).pool().pages().len(),
            forall|a: u32, s: int|
                final(self).pool().live(a, s) <==> old(self).pool().live(a, s) && !Self::among(
                    v@,
                    from as int,
                    v@.len() as int,
                    a,
                ),
    {
        let mut j = from;
        while j < v.len()
            invariant
                from <= j <= v@.len(),
                self.wf(),
                self.kept_aside(v@, j as int),
                self.nodes@ == old(self).nodes@,
                self.paths@ == old(self).paths@,
                self.sentinel == old(self).sentinel,
                self.pool().spec_limit() == old(self).pool().spec_limit(),
                self.pool().pages().len() == old(self).pool().pages().len(),
                IndexPool::room_kept(&old(self).pool(), &self.pool(), 0),
                forall|a: u32, s: int|
                    self.pool().live(a, s) <==> old(self).pool().live(a, s) && !Self::among(
                        v@,
                        from as int,
                        j as int,
                        a,
                    ),
            decreases v@.len() - j,
        {
            let ghost before = *self;
            self.give_slot(v[j], NodeType::N4);
            proof {
                assert forall|a: u32, s: int|
                    self.pool().live(a, s) <==> old(self).pool().live(a, s) && !Self::among(
                        v@,
                        from as int,
                        j + 1,
                        a,
                    ) by {
                    Self::lemma_among_next(v@, from as int, j as int, a);
                    assert(self.pool().live(a, s) <==> before.pool().live(a, s) && a != v@[j as int]);
                }
            }
            j += 1;
        }
    }

    /// `a` is one of the addresses of `v` from place `from` up to place
    /// `to`.
    spec fn among(v: Seq<u32>, from: int, to: int, a: u32) -> bool {
        exists|j: int| from <= j < to && #[trigger] v[j] == a
    }

    /// One place more adds the address at that place.
    proof fn lemma_among_next(v: Seq<u32>, from: int, to: int, a: u32)
        requires
            from <= to,
        ensures
            Self::among(v, from, to + 1, a) <==> Self::among(v, from, to, a) || v[to] == a,
    {
        if Self::among(v, from, to, a) {
            let j = choose|j: int| from <= j < to && #[trigger] v[j] == a;
            assert(from <= j < to + 1 && v[j] == a);
        }
        if v[to] == a {
            assert(from <= to < to + 1 && v[to] == a);
        }
    }

    /// Takes `n` slots for nodes of the smallest class from the pool and
    /// keeps them aside, or none of them where the pool cannot give as
    /// many.
    #[verifier::rlimit(30)]
    fn reserve(&mut self, n: usize) -> (r: Option<Vec<u32>>)
        requires
            old(self).wf(),
        ensures
            final(self).wf(),
            IndexPool::room_kept(&old(self).pool(), &final(self).pool(), n * NODE4_SIZE),
            final(self).nodes@ == old(self).nodes@,
            final(self).paths@ == old(self).paths@,
            final(self).sentinel == old(self).sentinel,
            final(self).pool().spec_limit() == old(self).pool().spec_limit(),
            old(self).pool().pages().len() <= final(self).pool().pages().len() <= old(
                self,
            ).pool().pages().len() + n,
            r matches Some(v) ==> v@.len() == n && final(self).kept_aside(v@, 0),
            r matches Some(v) ==> forall|a: u32, s: int|
                final(self).pool().live(a, s) <==> old(self).pool().live(a, s) || (Self::among(
                    v@,
                    0,
                    n as int,
                    a,
                ) && s == NodeType::N4.spec_size()),
            r matches Some(v) ==> forall|j: int, s: int|
                0 <= j < n ==> !#[trigger] old(self).pool().live(v@[j], s),
            r is None ==> final(self).exhausted(),
            r is None ==> forall|a: u32, s: int|
                final(self).pool().live(a, s) <==> old(self).pool().live(a, s),
            old(self).pool().pages().len() + n <= old(self).pool().spec_limit() ==> r is Some,
            old(self).pool().has_room(n * NODE4_SIZE) ==> r is Some,
            n >= 1 && old(self).exhausted() && old(self).pool().no_room(NODE4_SIZE as int)
                ==> r is None,
    {
        let mut v: Vec<u32> = Vec::new();
        proof {
            self.lemma_nodes();
        }
        while v.len() < n
            invariant
                v@.len() <= n,
                self.wf(),
                self.kept_aside(v@, 0),
                self.nodes@ == old(self).nodes@,
                self.paths@ == old(self).paths@,
                self.sentinel == old(self).sentinel,
                self.pool().spec_limit() == old(self).pool().spec_limit(),
                old(self).pool().pages().len() <= self.pool().pages().len() <= old(
                    self,
                ).pool().pages().len() + v@.len(),
                self.pool().pages().len() <= self.pool().spec_limit(),
                forall|a: u32, s: int|
                    self.pool().live(a, s) <==> old(self).pool().live(a, s) || (Self::among(
                        v@,
                        0,
                        v@.len() as int,
                        a,
                    ) && s == NodeType::N4.spec_size()),
                forall|j: int, s: int|
                    0 <= j < v@.len() ==> !#[trigger] old(self).pool().live(v@[j], s),
                IndexPool::room_kept(&old(self).pool(), &self.pool(), v@.len() * NODE4_SIZE),
                v@.len() == 0 ==> self.pool() == old(self).pool(),
                v@.len() > 0 ==> !(old(self).exhausted() && old(self).pool().no_room(
                    NODE4_SIZE as int,
                )),
            decreases n - v@.len(),
        {
            let ghost before = *self;
            let ghost got = v@;
            match self.take_slot(NodeType::N4) {
                None => {
                    proof {
                        assert(self.kept_aside(v@, 0));
                        if old(self).pool().has_room(n * NODE4_SIZE) {
                            let i = choose|i: int|
                                0 <= i < old(self).pool().pages().len() && (
                                #[trigger] old(self).pool().pages()[i]).spec_free_max() >= n
                                    * NODE4_SIZE;
                            assert(before.pool().pages()[i].spec_free_max() >= NODE4_SIZE);
                            before.pool().lemma_page_has_room(i + 1, NODE4_SIZE as int);
                        }
                    }
                    let ghost full = *self;
                    self.unreserve(&v, 0);
                    proof {
                        assert forall|a: u32, s: int|
                            self.pool().live(a, s) <==> old(self).pool().live(a, s) by {
                            assert(full.pool().live(a, s) <==> before.pool().live(a, s));
                            if Self::among(v@, 0, v@.len() as int, a) {
                                let j = choose|j: int| 0 <= j < v@.len() && #[trigger] v@[j] == a;
                                assert(!old(self).pool().live(v@[j], s));
                            }
                        }
                    }
                    return None;
                },
                Some(addr) => {
                    v.push(addr);
                    proof {
                        IndexPool::lemma_room_trans(
                            &old(self).pool(),
                            &before.pool(),
                            &self.pool(),
                            got.len() * NODE4_SIZE,
                            NODE4_SIZE as int,
                        );
                        assert forall|a: u32, s: int|
                            self.pool().live(a, s) <==> old(self).pool().live(a, s) || (
                            Self::among(v@, 0, v@.len() as int, a) && s
                                == NodeType::N4.spec_size()) by {
                            Self::lemma_among_next(v@, 0, got.len() as int, a);
                            if Self::among(got, 0, got.len() as int, a) {
                                let j = choose|j: int| 0 <= j < got.len() && #[trigger] got[j] == a;
                                assert(v@[j] == a);
                            }
                            if Self::among(v@, 0, got.len() as int, a) {
                                let j = choose|j: int| 0 <= j < got.len() && #[trigger] v@[j] == a;
                                assert(got[j] == a);
                            }
                            assert(self.pool().live(a, s) <==> before.pool().live(a, s) || (a
                                == addr && s == NodeType::N4.spec_size()));
                        }
                        assert forall|j: int, s: int| 0 <= j < v@.len() implies !#[trigger] old(
                            self,
                        ).pool().live(v@[j], s) by {
                            if j < got.len() {
                                assert(got[j] == v@[j]);
                            } else {
                                assert(!before.pool().live(addr, s));
                            }
                        }
                        self.lemma_nodes();
                        assert forall|j: int| 0 <= j < v@.len() implies (#[trigger] v@[j]) != 0
                            && !self.has_node(v@[j]) && self.pool().live(
                            v@[j],
                            NodeType::N4.spec_size() as int,
                        ) by {
                            if j < got.len() {
                                assert(got[j] == v@[j]);
                            }
                        }
                        assert forall|j: int, k: int| 0 <= j < k < v@.len() implies v@[j]
                            != v@[k] by {
                            if k == got.len() {
                                assert(before.pool().live(
                                    got[j],
                                    NodeType::N4.spec_size() as int,
                                ));
                            } else {
                                assert(got[j] != got[k]);
                            }
                        }
                    }
                },
            }
        }
        Some(v)
    }

    /// Follows `key` from the root as long as whole edges agree with it.
    /// Hands out the address of the node at which that ends, the number of
    /// bytes of `key` that lead to it, and the number of bytes on which
    /// the edge of the child under the next byte agrees with `key`; 0
    /// where there is no such child, or where `key` ends at the node.
    fn descend(&self, key: &[u8]) -> (r: (u32, usize, usize))
        requires
            self.wf(),
        ensures
            self.has_node(r.0),
            r.1 <= key@.len(),
            self.path_of(r.0) == key@.subrange(0, r.1 as int),
            r.1 == key@.len() ==> r.2 == 0,
            r.1 < key@.len() && r.2 == 0 ==> !self.store()[r.0].children.dom().contains(
                key@[r.1 as int],
            ),
            r.2 > 0 ==> ({
                let e = self.store()[self.store()[r.0].children[key@[r.1 as int]].addr].edge;
                &&& r.1 < key@.len()
                &&& self.store()[r.0].children.dom().contains(key@[r.1 as int])
                &&& r.2 < e.len()
                &&& r.1 + r.2 <= key@.len()
                &&& forall|j: int| 0 <= j < r.2 ==> e[j] == key@[r.1 + j]
                &&& r.1 + r.2 < key@.len() ==> e[r.2 as int] != key@[r.1 + r.2]
            }),
    {
        let mut cur = self.root_addr();
        let mut i: usize = 0;
        let mut m: usize = 0;
        let mut going = true;
        proof {
            self.lemma_lookup(key@);
            assert(key@.subrange(0, 0) =~= Seq::<u8>::empty());
        }
        while going && i < key.len()
            invariant
                self.wf(),
                self.has_node(cur),
                i <= key@.len(),
                self.path_of(cur) == key@.subrange(0, i as int),
                going ==> m == 0,
                !going ==> i < key@.len(),
                !going && m == 0 ==> !self.store()[cur].children.dom().contains(key@[i as int]),
                m > 0 ==> ({
                    let e = self.store()[self.store()[cur].children[key@[i as int]].addr].edge;
                    &&& i < key@.len()
                    &&& self.store()[cur].children.dom().contains(key@[i as int])
                    &&& m < e.len()
                    &&& i + m <= key@.len()
                    &&& forall|j: int| 0 <= j < m ==> e[j] == key@[i + j]
                    &&& i + m < key@.len() ==> e[m as int] != key@[i + m]
                }),
            decreases key@.len() - i + (if going { 1int } else { 0int }),
        {
            proof {
                self.lemma_nodes();
            }
            let b = key[i];
            let node = self.nodes.get(&cur).unwrap();
            match node.get_child(b) {
                None => {
                    going = false;
                },
                Some(ptr) => {
                    proof {
                        assert(child_ok(self.store(), self.paths@, cur, b));
                    }
                    let c = ptr.addr;
                    let child = self.nodes.get(&c).unwrap();
                    let e = child.get_edge();
                    let n = find_common_prefix(e.as_slice(), key, i);
                    proof {
                        lemma_match_len(e@, key@, i as int);
                        assert(n >= 1);
                    }
                    if n == e.len() {
                        proof {
                            assert(e@ =~= key@.subrange(i as int, i + n));
                            assert(key@.subrange(0, i as int) + key@.subrange(i as int, i + n)
                                =~= key@.subrange(0, i + n));
                        }
                        cur = c;
                        i = i + n;
                    } else {
                        m = n;
                        going = false;
                    }
                },
            }
        }
        (cur, i, m)
    }

    /// How many nodes `key` needs beside those that are there: one for each
    /// longest edge, or what is left of one, behind what the index shares
    /// of `key`, and one more where what it shares ends inside an edge.
    pub open spec fn spec_nodes_needed(&self, key: Seq<u8>) -> nat {
        let d = self.spec_shared_len(key, key.len());
        let leaves = (key.len() - d + MAX_EDGE_LEN - 1) / (MAX_EDGE_LEN as int);
        if self.has_key_node(key.subrange(0, d as int)) {
            leaves as nat
        } else {
            (leaves + 1) as nat
        }
    }

    /// The node under which `key` leaves the tree is full, so that it has
    /// to grow before `key` goes in.
    pub open spec fn grows_for(&self, key: Seq<u8>) -> bool {
        let d = self.spec_shared_len(key, key.len());
        &&& self.has_key_node(key.subrange(0, d as int))
        &&& d < key.len()
        &&& self.due_to_grow(key.subrange(0, d as int))
    }

    /// How many bytes the slots take that `key` needs: a slot of the
    /// smallest class for each node, and one of the next larger class for
    /// the node that has to grow.
    pub open spec fn spec_bytes_needed(&self, key: Seq<u8>) -> int {
        let d = self.spec_shared_len(key, key.len());
        self.spec_nodes_needed(key) * NODE4_SIZE + if self.grows_for(key) {
            spec_larger(self.node_at(key.subrange(0, d as int)).tp)->0.spec_size() as int
        } else {
            0
        }
    }

    /// How many slots `key` needs: one for each node, and one for the node
    /// that has to grow.
    pub open spec fn spec_slots_needed(&self, key: Seq<u8>) -> nat {
        if self.grows_for(key) {
            self.spec_nodes_needed(key) + 1
        } else {
            self.spec_nodes_needed(key)
        }
    }

    /// What the index shares of a key is no longer than the key.
    pub proof fn lemma_shared_len_bound(&self, key: Seq<u8>, n: nat)
        ensures
            self.spec_shared_len(key, n) <= n,
        decreases n,
    {
        if n > 0 {
            self.lemma_shared_len_bound(key, (n - 1) as nat);
        }
    }

    /// A key needs no more slots than one for each longest edge that it
    /// is long, and one more; and none where it has its node.
    pub proof fn lemma_slots_needed(&self, key: Seq<u8>)
        ensures
            self.spec_nodes_needed(key) <= self.spec_slots_needed(key) <= (key.len()
                + MAX_EDGE_LEN - 1) / (MAX_EDGE_LEN as int) + 1,
            self.has_key_node(key) ==> self.spec_slots_needed(key) == 0,
    {
        self.lemma_shared_len_bound(key, key.len());
        if self.has_key_node(key) {
            assert(key.subrange(0, key.len() as int) =~= key);
            assert(self.has_key_node(key) && key.is_prefix_of(key));
        }
    }

    /// What `descend` finds tells how much of `key` the index shares, and
    /// whether a node stands where that ends, and at the end of `key`.
    proof fn lemma_descended(&self, at: u32, key: Seq<u8>, i: int, m: int)
        requires
            self.wf(),
            self.has_node(at),
            0 <= i <= key.len(),
            0 <= m,
            self.path_of(at) == key.subrange(0, i),
            i == key.len() ==> m == 0,
            i < key.len() && m == 0 ==> !self.store()[at].children.dom().contains(key[i]),
            m > 0 ==> ({
                let e = self.store()[self.store()[at].children[key[i]].addr].edge;
                &&& i < key.len()
                &&& self.store()[at].children.dom().contains(key[i])
                &&& m < e.len()
                &&& i + m <= key.len()
                &&& forall|j: int| 0 <= j < m ==> e[j] == key[i + j]
                &&& i + m < key.len() ==> e[m] != key[i + m]
            }),
        ensures
            self.spec_shared_len(key, key.len()) == i + m,
            self.has_key_node(key.subrange(0, i + m)) <==> m == 0,
            self.has_key_node(key) <==> i == key.len(),
    {
        let d = (i + m) as nat;
        assert(key.subrange(0, key.len() as int) =~= key);
        if i == key.len() {
            self.lemma_node_at(at);
            assert(self.has_key_node(key) && key.is_prefix_of(key));
        } else if m == 0 {
            self.lemma_path_ends(at, key, i);
            if self.has_key_node(key) {
                assert(key.subrange(0, i + 1).is_prefix_of(key));
            }
        } else {
            self.lemma_path_parts(at, key, i, m);
            if self.has_key_node(key) && i + m < key.len() {
                assert(key.subrange(0, i + m + 1).is_prefix_of(key));
            }
        }
        self.lemma_shared_len(key, d, key.len());
    }

    /// The slots on the way of an insertion: every slot that is taken in
    /// `new` was taken in `start`, holds a node of `new`, or is one of
    /// `slots` from place `used` on; and the slot of a node of `start` that
    /// `new` has no longer is not taken.
    spec fn slots_ok(start: &Self, new: &Self, slots: Seq<u32>, used: int) -> bool {
        &&& forall|a: u32, s: int| #[trigger]
            new.pool().live(a, s) ==> start.pool().live(a, s) || new.has_node(a) || Self::among(
                slots,
                used,
                slots.len() as int,
                a,
            )
        &&& forall|a: u32, s: int|
            start.has_node(a) && !new.has_node(a) ==> !#[trigger] new.pool().live(a, s)
    }

    /// The first place of a range of places adds the address at that place.
    proof fn lemma_among_first(v: Seq<u32>, from: int, to: int, a: u32)
        requires
            from < to,
        ensures
            Self::among(v, from, to, a) <==> v[from] == a || Self::among(v, from + 1, to, a),
    {
        if Self::among(v, from, to, a) {
            let j = choose|j: int| from <= j < to && #[trigger] v[j] == a;
            if j != from {
                assert(from + 1 <= j < to && v[j] == a);
            }
        }
        if Self::among(v, from + 1, to, a) {
            let j = choose|j: int| from + 1 <= j < to && #[trigger] v[j] == a;
            assert(from <= j < to && v[j] == a);
        }
        if v[from] == a {
            assert(from <= from < to && v[from] == a);
        }
    }

    /// A node that goes into the next of the slots leaves what `slots_ok`
    /// says.
    proof fn lemma_slots_used(start: &Self, mid: &Self, new: &Self, slots: Seq<u32>, used: int)
        requires
            Self::slots_ok(start, mid, slots, used),
            0 <= used < slots.len(),
            forall|a: u32, s: int| new.pool().live(a, s) <==> mid.pool().live(a, s),
            forall|a: u32| new.has_node(a) <==> mid.has_node(a) || a == slots[used],
        ensures
            Self::slots_ok(start, new, slots, used + 1),
    {
        assert forall|a: u32, s: int| #[trigger] new.pool().live(a, s) implies start.pool().live(
            a,
            s,
        ) || new.has_node(a) || Self::among(slots, used + 1, slots.len() as int, a) by {
            assert(mid.pool().live(a, s));
            Self::lemma_among_first(slots, used, slots.len() as int, a);
        }
        assert forall|a: u32, s: int|
            start.has_node(a) && !new.has_node(a) implies !#[trigger] new.pool().live(a, s) by {
            assert(!mid.pool().live(a, s));
        }
    }

    /// A node that moves from the slot at `at` into a slot that was just
    /// taken for it leaves what `slots_ok` says.
    proof fn lemma_slots_moved(
        start: &Self,
        held: &Self,
        taken: &Self,
        new: &Self,
        slots: Seq<u32>,
        at: u32,
        big: u32,
        size: int,
    )
        requires
            Self::slots_ok(start, held, slots, 0),
            forall|a: u32| taken.has_node(a) <==> held.has_node(a),
            forall|a: u32, s: int|
                taken.pool().live(a, s) <==> held.pool().live(a, s) || (a == big && s == size),
            forall|a: u32, s: int| new.pool().live(a, s) <==> taken.pool().live(a, s) && a != at,
            forall|a: u32| new.has_node(a) <==> (taken.has_node(a) && a != at) || a == big,
        ensures
            Self::slots_ok(start, new, slots, 0),
    {
        assert forall|a: u32, s: int| #[trigger] new.pool().live(a, s) implies start.pool().live(
            a,
            s,
        ) || new.has_node(a) || Self::among(slots, 0, slots.len() as int, a) by {
            assert(taken.pool().live(a, s));
            if a != big {
                assert(held.pool().live(a, s));
            }
        }
        assert forall|a: u32, s: int|
            start.has_node(a) && !new.has_node(a) implies !#[trigger] new.pool().live(a, s) by {
            if new.pool().live(a, s) {
                assert(taken.pool().live(a, s));
                assert(held.pool().live(a, s));
            }
        }
    }

    /// The classes of the nodes of `new` are those of `old`, but for the
    /// node of the first `d` bytes of `key` where `grown` says that it has
    /// grown; `d` bytes of `key` are what `old` shares of it, and `new`
    /// has the keys of `old` and those on the way of `key` up to `i`
    /// bytes.
    spec fn on_the_way(
        old: &Self,
        new: &Self,
        key: Seq<u8>,
        d: nat,
        i: int,
        grown: bool,
    ) -> bool {
        &&& d <= i <= key.len()
        &&& old.on_path(key.subrange(0, d as int))
        &&& d < key.len() ==> !old.on_path(key.subrange(0, d as int + 1))
        &&& i < key.len() ==> (i - d) % (MAX_EDGE_LEN as int) == 0
        &&& Self::keys_upto(old, new, key, d, i)
        &&& Self::classes_upto(old, new, key, d, grown)
        &&& grown <==> old.has_key_node(key.subrange(0, d as int)) && d < key.len()
            && old.due_to_grow(key.subrange(0, d as int))
    }

    /// Makes the first change on the way of `key`, with the slots of
    /// `slots` at hand. Where the edge of the next child agrees with `key`
    /// on `m` bytes only, puts a node in between, into the first of the
    /// slots. Where there is no next child and the node at `at` is full,
    /// moves it into the next larger class; where the pool has no slot for
    /// that, gives the slots back and leaves the tree as it is. Hands out
    /// the address of the node under which the next leaf goes, and the
    /// number of slots that are used up.
    #[verifier::rlimit(30)]
    fn open_way(
        &mut self,
        at: u32,
        key: &[u8],
        i: usize,
        m: usize,
        slots: &Vec<u32>,
        Ghost(start): Ghost<Art>,
    ) -> (r: Result<(u32, usize), ArtError>)
        requires
            old(self).wf(),
            start.wf(),
            old(self).nodes@ == start.nodes@,
            old(self).paths@ == start.paths@,
            old(self).sentinel == start.sentinel,
            old(self).has_node(at),
            i < key@.len(),
            old(self).path_of(at) == key@.subrange(0, i as int),
            m == 0 ==> !old(self).store()[at].children.dom().contains(key@[i as int]),
            m > 0 ==> ({
                let e = old(self).store()[old(self).store()[at].children[key@[i as int]].addr].edge;
                &&& old(self).store()[at].children.dom().contains(key@[i as int])
                &&& m < e.len()
                &&& i + m <= key@.len()
                &&& forall|j: int| 0 <= j < m ==> e[j] == key@[i + j]
                &&& i + m < key@.len() ==> e[m as int] != key@[i + m]
            }),
            m > 0 ==> slots@.len() >= 1,
            old(self).kept_aside(slots@, 0),
            Self::slots_ok(&start, old(self), slots@, 0),
        ensures
            final(self).wf(),
            Self::room_kept(
                old(self),
                final(self),
                if m == 0 && start.due_to_grow(key@.subrange(0, i as int)) {
                    spec_larger(start.node_at(key@.subrange(0, i as int)).tp)->0.spec_size() as int
                } else {
                    0
                },
            ),
            final(self).pool().spec_limit() == old(self).pool().spec_limit(),
            old(self).pool().pages().len() <= final(self).pool().pages().len() <= old(
                self,
            ).pool().pages().len() + 1,
            old(self).pool().pages().len() < old(self).pool().spec_limit() ==> r is Ok,
            !(m == 0 && start.due_to_grow(key@.subrange(0, i as int))) ==> r is Ok
                && final(self).pool().pages().len() == old(self).pool().pages().len(),
            r is Err <==> m == 0 && start.due_to_grow(key@.subrange(0, i as int)) && old(
                self,
            ).exhausted() && old(self).pool().no_room(
                spec_larger(start.node_at(key@.subrange(0, i as int)).tp)->0.spec_size() as int,
            ),
            match r {
                Ok((cur, used)) => {
                    &&& used == (if m > 0 { 1int } else { 0int })
                    &&& Self::slots_ok(&start, final(self), slots@, used as int)
                    &&& final(self).has_node(cur)
                    &&& final(self).path_of(cur) == key@.subrange(0, i + m)
                    &&& final(self).kept_aside(slots@, used as int)
                    &&& i + m < key@.len() ==> !final(self).store()[cur].children.dom().contains(
                        key@[i + m],
                    ) && final(self).store()[cur].children.dom().len()
                        < final(self).store()[cur].tp.spec_capacity()
                    &&& forall|k: Seq<u8>| final(self).lookup(k) == start.lookup(k)
                    &&& final(self).spec_size() == start.spec_size() + used
                    &&& Self::on_the_way(
                        &start,
                        final(self),
                        key@,
                        (i + m) as nat,
                        i + m,
                        m == 0 && start.due_to_grow(key@.subrange(0, i as int)),
                    )
                },
                Err(e) => {
                    &&& e == ArtError::AllocationExhausted
                    &&& final(self).exhausted()
                    &&& final(self).nodes@ == start.nodes@
                    &&& final(self).paths@ == start.paths@
                    &&& final(self).sentinel == start.sentinel
                    &&& forall|a: u32, s: int|
                        final(self).pool().live(a, s) <==> old(self).pool().live(a, s)
                            && !Self::among(slots@, 0, slots@.len() as int, a)
                },
            },
    {
        let ghost held = *self;
        let ghost d: nat = (i + m) as nat;
        proof {
            self.lemma_nodes();
            assert(self.store() =~= start.store());
            assert(Self::keys_kept(&start, self));
            assert(forall|k: Seq<u8>| self.lookup(k) == start.lookup(k));
        }
        if m > 0 {
            proof {
                self.lemma_path_parts(at, key@, i as int, m as int);
                Self::lemma_paths_kept(&start, self, key@.subrange(0, i + m));
                Self::lemma_paths_kept(&start, self, key@.subrange(0, i + m + 1));
                let e = self.store()[self.store()[at].children[key@[i as int]].addr].edge;
                assert(e.subrange(0, m as int) =~= key@.subrange(i as int, i + m));
                assert(key@.subrange(0, i as int) + key@.subrange(i as int, i + m)
                    =~= key@.subrange(0, i + m));
            }
            let am = slots[0];
            self.split(at, key[i], m, am);
            proof {
                Self::lemma_slots_used(&start, &held, self, slots@, 0);
                Self::lemma_upto_split(&start, &held, self, key@, d);
                Self::lemma_classes_start(&start, &held, key@, d);
                self.lemma_node_at(am);
                Self::lemma_classes_added(
                    &start,
                    &held,
                    self,
                    key@,
                    d,
                    false,
                    key@.subrange(0, i + m),
                );
                assert(self.store()[am].children.dom().len() == 1);
            }
            Ok((am, 1))
        } else {
            proof {
                self.lemma_path_ends(at, key@, i as int);
                Self::lemma_paths_kept(&start, self, key@.subrange(0, i as int));
                Self::lemma_paths_kept(&start, self, key@.subrange(0, i + 1));
                Self::lemma_upto_start(&start, self, key@, i as int);
                self.lemma_node_at(at);
                start.lemma_node_at(at);
            }
            let node = self.nodes.get(&at).unwrap();
            if node.need_expand() {
                let n2 = node.expand().unwrap();
                match self.take_slot(n2.node_type()) {
                    None => {
                        self.unreserve(slots, 0);
                        Err(ArtError::AllocationExhausted)
                    },
                    Some(big) => {
                        let ghost taken = *self;
                        proof {
                            assert(taken.store() =~= start.store());
                            assert(Self::keys_kept(&start, &taken));
                            assert(forall|k: Seq<u8>| taken.lookup(k) == start.lookup(k));
                            assert forall|j: int| 0 <= j < slots@.len() implies slots@[j]
                                != big by {
                                assert(held.pool().live(
                                    slots@[j],
                                    NodeType::N4.spec_size() as int,
                                ));
                            }
                        }
                        self.move_node(at, n2, big);
                        proof {
                            Self::lemma_slots_moved(
                                &start,
                                &held,
                                &taken,
                                self,
                                slots@,
                                at,
                                big,
                                n2@.tp.spec_size() as int,
                            );
                            Self::lemma_upto_start(&start, &taken, key@, i as int);
                            Self::lemma_upto_kept(&start, &taken, self, key@, d, i as int);
                            self.lemma_node_at(big);
                            assert forall|k: Seq<u8>| #[trigger]
                                self.has_key_node(k) <==> start.has_key_node(k) by {
                                assert(taken.has_key_node(k) == start.has_key_node(k));
                            }
                            assert forall|k: Seq<u8>| #[trigger]
                                self.has_key_node(k) && start.has_key_node(k) && !Set::<
                                    Seq<u8>,
                                >::empty().insert(key@.subrange(0, d as int)).contains(
                                    k,
                                ) implies self.node_at(k).tp == start.node_at(k).tp by {
                                assert(taken.node_at(k) == start.node_at(k));
                                assert(taken.has_key_node(k));
                                assert(!Set::<Seq<u8>>::empty().insert(taken.path_of(at)).contains(
                                    k,
                                ));
                            }
                            Self::lemma_classes_grown(&start, self, key@, d);
                        }
                        Ok((big, 0))
                    },
                }
            } else {
                proof {
                    node.lemma_room(key@[i as int]);
                    Self::lemma_classes_start(&start, self, key@, d);
                }
                Ok((at, 0))
            }
        }
    }

    /// Hangs the leaves that the rest of `key` from place `from` on needs
    /// under the node at `at`, one under the other, each with a longest
    /// edge but the last, into the slots of `slots` from place `used` on.
    /// Hands out the address of the node that `key` leads to.
    #[verifier::rlimit(30)]
    fn chain(
        &mut self,
        at: u32,
        key: &[u8],
        from: usize,
        slots: &Vec<u32>,
        used: usize,
        Ghost(start): Ghost<Art>,
        Ghost(d): Ghost<nat>,
        Ghost(bigger): Ghost<bool>,
    ) -> (cur: u32)
        requires
            old(self).wf(),
            old(self).has_node(at),
            from <= key@.len(),
            used <= slots@.len(),
            old(self).path_of(at) == key@.subrange(0, from as int),
            old(self).kept_aside(slots@, used as int),
            from < key@.len() ==> !old(self).store()[at].children.dom().contains(key@[from as int])
                && old(self).store()[at].children.dom().len()
                < old(self).store()[at].tp.spec_capacity(),
            (key@.len() - from + MAX_EDGE_LEN - 1) / (MAX_EDGE_LEN as int) == slots@.len() - used,
            Self::on_the_way(&start, old(self), key@, d, from as int, bigger),
            Self::slots_ok(&start, old(self), slots@, used as int),
        ensures
            final(self).wf(),
            Self::room_kept(old(self), final(self), 0),
            final(self).has_node(cur),
            final(self).path_of(cur) == key@,
            final(self).pool().spec_limit() == old(self).pool().spec_limit(),
            final(self).pool().pages().len() == old(self).pool().pages().len(),
            forall|k: Seq<u8>| final(self).lookup(k) == old(self).lookup(k),
            final(self).spec_size() == old(self).spec_size() + slots@.len() - used,
            Self::on_the_way(&start, final(self), key@, d, key@.len() as int, bigger),
            Self::slots_ok(&start, final(self), slots@, slots@.len() as int),
    {
        let mut cur = at;
        let ghost used0 = used;
        let mut used = used;
        let mut pos = from;
        let n = slots.len();
        while pos < key.len()
            invariant
                n == slots@.len(),
                self.wf(),
                self.has_node(cur),
                pos <= key@.len(),
                used <= slots@.len(),
                self.path_of(cur) == key@.subrange(0, pos as int),
                self.kept_aside(slots@, used as int),
                pos < key@.len() ==> !self.store()[cur].children.dom().contains(key@[pos as int])
                    && self.store()[cur].children.dom().len()
                    < self.store()[cur].tp.spec_capacity(),
                (key@.len() - pos + MAX_EDGE_LEN - 1) / (MAX_EDGE_LEN as int) == slots@.len()
                    - used,
                self.pool().spec_limit() == old(self).pool().spec_limit(),
                self.pool().pages().len() == old(self).pool().pages().len(),
                forall|k: Seq<u8>| self.lookup(k) == old(self).lookup(k),
                self.spec_size() - used == old(self).spec_size() - used0,
                Self::room_kept(old(self), self, 0),
                Self::on_the_way(&start, self, key@, d, pos as int, bigger),
                Self::slots_ok(&start, self, slots@, used as int),
            decreases key@.len() - pos,
        {
            let to: usize = if key.len() - pos > MAX_EDGE_LEN {
                pos + MAX_EDGE_LEN
            } else {
                key.len()
            };
            let ghost before = *self;
            assert(used < n);
            let l = slots[used];
            self.attach_leaf(cur, key, pos, to, l);
            proof {
                let added = key@.subrange(0, to as int);
                Self::lemma_upto_leaf(&start, &before, self, key@, d, pos as int, to as int);
                self.lemma_node_at(l);
                assert(!start.has_key_node(added)) by {
                    assert(key@.subrange(0, d as int + 1) =~= added.subrange(0, d as int + 1));
                    assert(key@.subrange(0, d as int + 1).is_prefix_of(added));
                }
                Self::lemma_classes_added(&start, &before, self, key@, d, bigger, added);
                Self::lemma_slots_used(&start, &before, self, slots@, used as int);
            }
            cur = l;
            used = used + 1;
            pos = to;
        }
        proof {
            assert(key@.subrange(0, pos as int) =~= key@);
        }
        cur
    }

    /// Stores `value` under `key`, beside the values that `key` has. The
    /// slots for the nodes that this needs are taken first: where the pool
    /// cannot give them, the index keeps the nodes that it had, and nothing
    /// of what it holds has changed. The pool can give them where `key`
    /// has its node and needs none, where it may still grow by a page for
    /// each slot, and where one of its pages has a free range for all of
    /// them; it cannot where it is at its limit and no page has room for
    /// one slot.
    #[verifier::rlimit(30)]
    pub fn insert(&mut self, key: &[u8], value: Vec<u8>) -> (r: Result<(), ArtError>)
        requires
            old(self).wf(),
        ensures
            final(self).wf(),
            Self::room_kept(old(self), final(self), old(self).spec_bytes_needed(key@)),
            match r {
                Ok(_) => {
                    &&& final(self).contents() == model_insert(old(self).contents(), key@, value@)
                    &&& locate(final(self).store(), final(self).root(), key@) is Some
                },
                Err(e) => {
                    &&& e == ArtError::AllocationExhausted
                    &&& final(self).exhausted()
                    &&& final(self).store() == old(self).store()
                    &&& final(self).root() == old(self).root()
                    &&& final(self).contents() == old(self).contents()
                    &&& forall|a: u32, s: int|
                        final(self).pool().live(a, s) <==> old(self).pool().live(a, s)
                },
            },
            old(self).has_key_node(key@) ==> r is Ok,
            old(self).spec_slots_needed(key@) == 0 ==> r is Ok,
            old(self).pool().pages().len() + old(self).spec_slots_needed(key@) <= old(
                self,
            ).pool().spec_limit() ==> r is Ok,
            old(self).pool().pages().len() + 2 * key@.len() <= old(self).pool().spec_limit()
                ==> r is Ok,
            old(self).pool().has_room(old(self).spec_bytes_needed(key@)) ==> r is Ok,
            old(self).spec_slots_needed(key@) >= 1 && old(self).exhausted() && old(
                self,
            ).pool().no_room(NODE4_SIZE as int) ==> r is Err,
            final(self).pool().spec_limit() == old(self).pool().spec_limit(),
            old(self).pool().pages().len() <= final(self).pool().pages().len() <= old(
                self,
            ).pool().pages().len() + old(self).spec_slots_needed(key@),
            final(self).pool().pages().len() <= old(self).pool().pages().len() + 2 * key@.len(),
            final(self).spec_size() == if r is Ok {
                old(self).spec_size() + old(self).spec_nodes_needed(key@)
            } else {
                old(self).spec_size()
            },
            r is Ok ==> Self::slots_kept(old(self), final(self)),
            r is Ok ==> forall|k: Seq<u8>|
                #[trigger] final(self).has_key_node(k) <==> old(self).has_key_node(k)
                    || Self::on_chain(
                    key@,
                    old(self).spec_shared_len(key@, key@.len()),
                    k,
                ),
            r is Ok ==> forall|k: Seq<u8>| #[trigger]
                final(self).has_key_node(k) ==> final(self).node_at(k).tp == old(self).class_with(
                    key@,
                    k,
                ),
    {
        let (at, i, m) = self.descend(key);
        let ghost start = *self;
        proof {
            start.lemma_descended(at, key@, i as int, m as int);
        }
        if i == key.len() {
            self.append_value(at, value);
            proof {
                assert(Self::slots_kept(&start, self));
                assert(key@.subrange(0, i as int) =~= key@);
                start.lemma_lookup(key@);
                self.lemma_lookup(key@);
                start.lemma_node_at(at);
                assert(start.has_key_node(key@) && key@.is_prefix_of(key@));
                assert(self.contents() =~= model_insert(start.contents(), key@, value@));
                Self::lemma_upto_start(&start, &start, key@, key@.len() as int);
                start.lemma_shared_len(key@, key@.len(), key@.len());
                Self::lemma_upto_end(&start, &start, self, key@, key@.len());
                Self::lemma_classes_start(&start, &start, key@, key@.len());
                Self::lemma_classes_on(&start, &start, self, key@, key@.len(), false);
                Self::lemma_classes_end(&start, self, key@, key@.len(), false);
                assert(self.has_key_node(key@));
            }
            return Ok(());
        }
        let rest: usize = key.len() - i - m;
        let whole: usize = rest / MAX_EDGE_LEN;
        let leaves: usize = if rest % MAX_EDGE_LEN == 0 {
            whole
        } else {
            whole + 1
        };
        let n4: usize = if m > 0 {
            leaves + 1
        } else {
            leaves
        };
        let slots = match self.reserve(n4) {
            None => {
                proof {
                    assert(self.store() =~= start.store());
                    assert(self.contents() =~= start.contents());
                    if start.pool().has_room(start.spec_bytes_needed(key@)) {
                        let j = choose|j: int|
                            0 <= j < start.pool().pages().len() && (
                            #[trigger] start.pool().pages()[j]).spec_free_max()
                                >= start.spec_bytes_needed(key@);
                        assert(start.pool().pages()[j].spec_free_max() >= n4 * NODE4_SIZE);
                    }
                }
                return Err(ArtError::AllocationExhausted);
            },
            Some(v) => v,
        };
        proof {
            assert(self.store() =~= start.store());
        }
        let ghost held = *self;
        let (cur, used) = match self.open_way(at, key, i, m, &slots, Ghost(start)) {
            Err(e) => {
                proof {
                    assert(self.store() =~= start.store());
                    assert(self.contents() =~= start.contents());
                    if start.pool().has_room(start.spec_bytes_needed(key@)) {
                        let j = choose|j: int|
                            0 <= j < start.pool().pages().len() && (
                            #[trigger] start.pool().pages()[j]).spec_free_max()
                                >= start.spec_bytes_needed(key@);
                        let big = spec_larger(
                            start.node_at(key@.subrange(0, i as int)).tp,
                        )->0.spec_size() as int;
                        assert(held.pool().pages()[j].spec_free_max() >= big);
                        held.pool().lemma_page_has_room(j + 1, big);
                    }
                    assert forall|a: u32, s: int|
                        self.pool().live(a, s) <==> start.pool().live(a, s) by {
                        if Self::among(slots@, 0, slots@.len() as int, a) {
                            let j = choose|j: int|
                                0 <= j < slots@.len() && #[trigger] slots@[j] == a;
                            assert(!start.pool().live(slots@[j], s));
                        }
                        assert(held.pool().live(a, s) <==> start.pool().live(a, s) || (
                        Self::among(slots@, 0, slots@.len() as int, a) && s
                            == NodeType::N4.spec_size()));
                    }
                }
                return Err(e);
            },
            Ok(r) => r,
        };
        let ghost d: nat = (i + m) as nat;
        let ghost bigger = m == 0 && start.due_to_grow(key@.subrange(0, i as int));
        let last = self.chain(cur, key, i + m, &slots, used, Ghost(start), Ghost(d), Ghost(bigger));
        let ghost before = *self;
        self.append_value(last, value);
        proof {
            assert(self.contents() =~= model_insert(start.contents(), key@, value@));
            before.lemma_lookup(key@);
            self.lemma_lookup(key@);
            before.lemma_node_at(last);
            assert(self.has_key_node(key@));
            start.lemma_shared_len(key@, d, key@.len());
            Self::lemma_upto_end(&start, &before, self, key@, d);
            Self::lemma_classes_on(&start, &before, self, key@, d, bigger);
            Self::lemma_classes_end(&start, self, key@, d, bigger);
            assert(Self::slots_kept(&start, self)) by {
                assert forall|a: u32, s: int| #[trigger] self.pool().live(a, s) implies start.pool().live(
                    a,
                    s,
                ) || self.has_node(a) by {
                    assert(before.pool().live(a, s));
                    assert(!Self::among(slots@, slots@.len() as int, slots@.len() as int, a));
                }
                assert forall|a: u32, s: int|
                    start.has_node(a) && !self.has_node(a) implies !#[trigger] self.pool().live(
                    a,
                    s,
                ) by {
                    assert(!before.pool().live(a, s));
                }
            }
        }
        Ok(())
    }

    /// Takes all values of `key` out of the index, and tells whether it had
    /// any. Nodes that are left without child and value go, and their slots
    /// go back to the pool; the node at which that stops shrinks where it
    /// is due to and the pool has a slot for it.
    #[verifier::rlimit(30)]
    pub fn delete(&mut self, key: &[u8]) -> (found: bool)
        requires
            old(self).wf(),
        ensures
            final(self).wf(),
            Self::room_kept(old(self), final(self), crate::codec::NODE48_SIZE as int),
            found == (old(self).lookup(key@).len() > 0),
            final(self).contents() == model_delete(old(self).contents(), key@),
            final(self).spec_size() <= old(self).spec_size(),
            final(self).pool().spec_limit() == old(self).pool().spec_limit(),
            old(self).pool().pages().len() <= final(self).pool().pages().len() <= old(
                self,
            ).pool().pages().len() + 1,
            Self::slots_kept(old(self), final(self)),
            !found ==> final(self).store() == old(self).store() && final(self).root() == old(
                self,
            ).root() && final(self).pool() == old(self).pool(),
            found ==> (final(self).has_key_node(key@) <==> key@.len() == 0 || old(
                self,
            ).store()[locate(old(self).store(), old(self).root(), key@)->0].children.dom()
                != Set::<u8>::empty()),
            forall|k: Seq<u8>|
                #[trigger] final(self).has_key_node(k) <==> old(self).has_key_node(k) && !(found
                    && old(self).is_spare(k, key@)),
            forall|k: Seq<u8>| #[trigger]
                final(self).has_key_node(k) ==> if found {
                    Self::shrunk_or_kept(old(self), final(self), key@, k)
                } else {
                    final(self).node_at(k).tp == old(self).node_at(k).tp
                },
    {
        proof {
            self.lemma_lookup(Seq::<u8>::empty());
            self.lemma_lookup(key@);
        }
        match self.find_node(key) {
            None => {
                proof {
                    assert(self.contents() =~= model_delete(old(self).contents(), key@));
                }
                false
            },
            Some(a) => {
                let vals = self.nodes.get(&a).unwrap().get_values();
                proof {
                    self.lemma_lookup(key@);
                    assert(values_view(vals@).len() == vals@.len());
                }
                if vals.len() == 0 {
                    proof {
                        assert(self.lookup(key@) =~= Seq::<Seq<u8>>::empty());
                        assert(self.contents() =~= model_delete(old(self).contents(), key@));
                    }
                    return false;
                }
                self.clear_values(a);
                let ghost cleared = *self;
                proof {
                    assert(Self::slots_kept(old(self), &cleared));
                    cleared.lemma_lookup(Seq::<u8>::empty());
                    cleared.lemma_lookup(key@);
                }
                self.prune(a);
                proof {
                    assert(self.contents() =~= model_delete(old(self).contents(), key@));
                    assert(a == old(self).root() <==> key@.len() == 0);
                    assert forall|k: Seq<u8>| #[trigger]
                        self.has_key_node(k) <==> old(self).has_key_node(k) && !old(
                            self,
                        ).is_spare(k, key@) by {
                        Self::lemma_spare_kept(old(self), &cleared, k, key@);
                        assert(cleared.has_key_node(k) <==> old(self).has_key_node(k));
                    }
                    assert forall|k: Seq<u8>| #[trigger]
                        self.has_key_node(k) implies Self::shrunk_or_kept(
                        old(self),
                        self,
                        key@,
                        k,
                    ) by {
                        assert(Self::shrunk_or_kept(&cleared, self, key@, k));
                        assert(cleared.has_key_node(k));
                        assert(old(self).has_key_node(k));
                        assert(cleared.node_at(k).tp == old(self).node_at(k).tp);
                        let sz = spec_smaller(old(self).node_at(k).tp)->0.spec_size() as int;
                        if old(self).pool().has_room(sz) {
                            let i = choose|i: int|
                                0 <= i < old(self).pool().pages().len() && (
                                #[trigger] old(self).pool().pages()[i]).spec_free_max() >= sz;
                            assert(cleared.pool().pages()[i].spec_free_max() >= sz);
                        }
                    }
                    Self::lemma_slots_trans(old(self), &cleared, self);
                }
                true
            },
        }
    }

    /// What the index holds: the values of every key.
    pub open spec fn contents(&self) -> Map<Seq<u8>, Seq<Seq<u8>>> {
        Map::total(|k: Seq<u8>| self.lookup(k))
    }
}

/// What an index holds after `value` was stored under `key`: `key` has one
/// value more, and every other key has the values that it had.
pub open spec fn model_insert(
    c: Map<Seq<u8>, Seq<Seq<u8>>>,
    key: Seq<u8>,
    value: Seq<u8>,
) -> Map<Seq<u8>, Seq<Seq<u8>>> {
    c.insert(key, c[key].push(value))
}

/// What an index holds after `key` was deleted: `key` has no value, and
/// every other key has the values that it had.
pub open spec fn model_delete(c: Map<Seq<u8>, Seq<Seq<u8>>>, key: Seq<u8>) -> Map<
    Seq<u8>,
    Seq<Seq<u8>>,
> {
    c.insert(key, Seq::empty())
}

/// An insertion or a deletion.
pub enum Op {
    Insert { key: Seq<u8>, value: Seq<u8> },
    Delete { key: Seq<u8> },
}

impl Op {
    /// The key that the operation is about.
    pub open spec fn key(self) -> Seq<u8> {
        match self {
            Op::Insert { key, value } => key,
            Op::Delete { key } => key,
        }
    }

    /// What an index that holds `c` holds after the operation.
    pub open spec fn apply(self, c: Map<Seq<u8>, Seq<Seq<u8>>>) -> Map<Seq<u8>, Seq<Seq<u8>>> {
        match self {
            Op::Insert { key, value } => model_insert(c, key, value),
            Op::Delete { key } => model_delete(c, key),
        }
    }
}

/// What an index that holds `c` holds after the operations of `ops`, one
/// after the other.
pub open spec fn model_apply(c: Map<Seq<u8>, Seq<Seq<u8>>>, ops: Seq<Op>) -> Map<
    Seq<u8>,
    Seq<Seq<u8>>,
>
    decreases ops.len(),
{
    if ops.len() == 0 {
        c
    } else {
        ops.last().apply(model_apply(c, ops.drop_last()))
    }
}

/// A value that was stored under `key` stays among the values of `key`
/// through every sequence of insertions and deletions of other keys.
pub proof fn lemma_inserted_value_stays(
    c: Map<Seq<u8>, Seq<Seq<u8>>>,
    key: Seq<u8>,
    value: Seq<u8>,
    ops: Seq<Op>,
)
    requires
        forall|i: int| 0 <= i < ops.len() ==> (#[trigger] ops[i]).key() != key,
    ensures
        model_apply(model_insert(c, key, value), ops)[key] == c[key].push(value),
        model_apply(model_insert(c, key, value), ops)[key].contains(value),
    decreases ops.len(),
{
    if ops.len() > 0 {
        let rest = ops.drop_last();
        assert forall|i: int| 0 <= i < rest.len() implies (#[trigger] rest[i]).key() != key by {
            assert(rest[i] == ops[i]);
        }
        lemma_inserted_value_stays(c, key, value, rest);
        assert(ops.last() == ops[ops.len() - 1]);
    }
    assert(c[key].push(value)[c[key].len() as int] == value);
}

} // verus!
