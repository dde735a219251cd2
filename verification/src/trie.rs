//! A plain trie: every node has one child slot for each key byte, and an
//! edge is one byte long.
use crate::node::{copy_values, values_view};
use vstd::prelude::*;

verus! {

/// Number of child slots of a node.
pub const TRIE_NODE_SPAN: usize = 256;

/// A node of the trie.
pub struct TrieNode {
    edge: u8,
    child: Vec<Option<Box<TrieNode>>>,
    values: Vec<Vec<u8>>,
}

impl TrieNode {
    /// The key byte that leads to the node.
    pub closed spec fn spec_edge(&self) -> u8 {
        self.edge
    }

    /// The values of the key that ends at the node.
    pub closed spec fn spec_values(&self) -> Seq<Seq<u8>> {
        values_view(self.values@)
    }

    /// The child under the key byte `b`.
    pub closed spec fn spec_child(&self, b: u8) -> Option<TrieNode> {
        if b < self.child@.len() {
            match self.child@[b as int] {
                Some(c) => Some(*c),
                None => None,
            }
        } else {
            None
        }
    }

    /// The node that the key `k` leads to from this node.
    pub open spec fn reach(&self, k: Seq<u8>) -> Option<TrieNode>
        decreases k.len(),
    {
        if k.len() == 0 {
            Some(*self)
        } else {
            match self.spec_child(k[0]) {
                Some(c) => c.reach(k.skip(1)),
                None => None,
            }
        }
    }

    /// The node has a slot for every key byte.
    pub closed spec fn spans(&self) -> bool {
        self.child@.len() == TRIE_NODE_SPAN
    }

    /// A node without children and without values.
    pub fn new(edge: u8) -> (n: TrieNode)
        ensures
            n.spans(),
            n.spec_edge() == edge,
            n.spec_values() == Seq::<Seq<u8>>::empty(),
            forall|b: u8| n.spec_child(b) is None,
    {
        let mut child: Vec<Option<Box<TrieNode>>> = Vec::new();
        let mut i: usize = 0;
        while i < TRIE_NODE_SPAN
            invariant
                i <= TRIE_NODE_SPAN,
                child@.len() == i,
                forall|j: int| 0 <= j < i ==> (#[trigger] child@[j]) is None,
            decreases TRIE_NODE_SPAN - i,
        {
            child.push(None);
            i += 1;
        }
        let n = TrieNode { edge, child, values: Vec::new() };
        assert(values_view(n.values@) =~= Seq::<Seq<u8>>::empty());
        n
    }

    /// Every node that a key leads to from this node has a slot for every
    /// key byte, and hangs under the last byte of the key.
    pub open spec fn wf(&self) -> bool {
        forall|k: Seq<u8>| node_ok(#[trigger] self.reach(k), k)
    }

    /// The values of every key that leads to a node from this node.
    pub open spec fn contents(&self) -> Map<Seq<u8>, Seq<Seq<u8>>> {
        Map::new(|k: Seq<u8>| self.reach(k) is Some, |k: Seq<u8>| self.reach(k)->0.spec_values())
    }

    /// Number of bytes at the beginning of `k` that lead to nodes.
    pub open spec fn depth(&self, k: Seq<u8>) -> nat
        decreases k.len(),
    {
        if k.len() == 0 {
            0
        } else {
            match self.spec_child(k[0]) {
                Some(c) => 1 + c.depth(k.skip(1)),
                None => 0,
            }
        }
    }

    /// A key leads where its end leads from where its beginning leads.
    pub proof fn lemma_reach_concat(&self, k1: Seq<u8>, k2: Seq<u8>)
        ensures
            self.reach(k1 + k2) == match self.reach(k1) {
                Some(n) => n.reach(k2),
                None => None,
            },
        decreases k1.len(),
    {
        if k1.len() == 0 {
            assert(k1 + k2 =~= k2);
        } else {
            assert((k1 + k2)[0] == k1[0]);
            assert((k1 + k2).skip(1) =~= k1.skip(1) + k2);
            match self.spec_child(k1[0]) {
                Some(c) => {
                    c.lemma_reach_concat(k1.skip(1), k2);
                },
                None => {},
            }
        }
    }

    /// The children of a well-formed node are well formed, and hang under
    /// their key bytes.
    pub proof fn lemma_child_wf(&self, b: u8)
        requires
            self.wf(),
        ensures
            self.spans(),
            self.spec_child(b) matches Some(c) ==> c.wf() && c.spec_edge() == b,
    {
        assert(self.reach(Seq::<u8>::empty()) == Some(*self));
        match self.spec_child(b) {
            Some(c) => {
                let kb = seq![b];
                assert(kb.skip(1) =~= Seq::<u8>::empty());
                assert(c.reach(kb.skip(1)) == Some(c));
                assert(self.reach(kb) == Some(c));
                assert forall|k: Seq<u8>| node_ok(#[trigger] c.reach(k), k) by {
                    self.lemma_reach_concat(kb, k);
                    assert(self.reach(kb + k) == c.reach(k));
                    if k.len() > 0 {
                        assert((kb + k).last() == k.last());
                    }
                }
            },
            None => {},
        }
    }

    /// The key byte that leads to the node.
    pub fn edge(&self) -> (e: u8)
        ensures
            e == self.spec_edge(),
    {
        self.edge
    }

    /// The values of the key that ends at the node.
    pub fn values(&self) -> (v: &Vec<Vec<u8>>)
        ensures
            values_view(v@) == self.spec_values(),
    {
        &self.values
    }

    /// The child under the key byte `b`.
    pub fn child(&self, b: u8) -> (c: Option<&TrieNode>)
        ensures
            match c {
                Some(n) => self.spec_child(b) == Some(*n),
                None => self.spec_child(b) is None,
            },
    {
        let i = b as usize;
        if i < self.child.len() {
            match &self.child[i] {
                Some(c) => Some(&**c),
                None => None,
            }
        } else {
            None
        }
    }

    /// The key bytes below `n` that have a child, in rising order.
    pub open spec fn child_bytes(&self, n: int) -> Seq<u8>
        decreases n,
    {
        if n <= 0 {
            Seq::empty()
        } else if self.spec_child((n - 1) as u8) is Some {
            self.child_bytes(n - 1).push((n - 1) as u8)
        } else {
            self.child_bytes(n - 1)
        }
    }

    /// The key bytes that have a child, in rising order.
    pub fn children(&self) -> (r: Vec<u8>)
        ensures
            r@ == self.child_bytes(256),
    {
        let mut r: Vec<u8> = Vec::new();
        let mut i: usize = 0;
        while i < 256
            invariant
                i <= 256,
                r@ == self.child_bytes(i as int),
            decreases 256 - i,
        {
            if self.child(i as u8).is_some() {
                r.push(i as u8);
            }
            i += 1;
        }
        r
    }

    /// The keys with values among those that lead through the children of
    /// this node under the key bytes below `n`, each behind `prefix`, in the
    /// order of their bytes.
    pub open spec fn keys_below(&self, prefix: Seq<u8>, n: int) -> Seq<Seq<u8>>
        decreases self, n,
    {
        if n <= 0 || n > 256 {
            Seq::empty()
        } else {
            self.keys_below(prefix, n - 1) + match self.spec_child((n - 1) as u8) {
                Some(c) => c.keys(prefix.push((n - 1) as u8)),
                None => Seq::empty(),
            }
        }
    }

    /// The keys with values that lead to this node or through it, each
    /// behind `prefix`, in the order of their bytes: the key of a node comes
    /// before the keys that go on from it.
    pub open spec fn keys(&self, prefix: Seq<u8>) -> Seq<Seq<u8>>
        decreases self, 257int,
    {
        (if self.spec_values().len() > 0 {
            seq![prefix]
        } else {
            Seq::empty()
        }) + self.keys_below(prefix, 256)
    }

    /// The key `k` leads from this node to a node with values.
    pub open spec fn has_values(&self, k: Seq<u8>) -> bool {
        match self.reach(k) {
            Some(n) => n.spec_values().len() > 0,
            None => false,
        }
    }

    /// Every key that `keys_below` lists is `prefix` and a key that leads
    /// from this node to a node with values, through a child under a byte
    /// below `n`; and every such key is listed.
    #[verifier::rlimit(30)]
    pub proof fn lemma_keys_below(&self, prefix: Seq<u8>, n: int)
        requires
            0 <= n <= 256,
        ensures
            forall|i: int|
                0 <= i < self.keys_below(prefix, n).len() ==> {
                    let k = #[trigger] self.keys_below(prefix, n)[i];
                    &&& k.len() > prefix.len()
                    &&& k.subrange(0, prefix.len() as int) == prefix
                    &&& k[prefix.len() as int] < n
                    &&& self.has_values(k.skip(prefix.len() as int))
                },
            forall|s: Seq<u8>|
                s.len() > 0 && s[0] < n && #[trigger] self.has_values(s) ==> self.keys_below(
                    prefix,
                    n,
                ).contains(prefix + s),
        decreases self, n,
    {
        if n > 0 {
            let b = (n - 1) as u8;
            self.lemma_keys_below(prefix, n - 1);
            let rest = self.keys_below(prefix, n - 1);
            let all = self.keys_below(prefix, n);
            match self.spec_child(b) {
                Some(c) => {
                    let p2 = prefix.push(b);
                    c.lemma_keys(p2);
                    let sub = c.keys(p2);
                    assert(all == rest + sub);
                    assert forall|i: int| 0 <= i < all.len() implies {
                        let k = #[trigger] all[i];
                        &&& k.len() > prefix.len()
                        &&& k.subrange(0, prefix.len() as int) == prefix
                        &&& k[prefix.len() as int] < n
                        &&& self.has_values(k.skip(prefix.len() as int))
                    } by {
                        let k = all[i];
                        if i < rest.len() {
                            assert(all[i] == rest[i]);
                        } else {
                            assert(all[i] == sub[i - rest.len()]);
                            let t = k.skip(p2.len() as int);
                            let sfx = k.skip(prefix.len() as int);
                            assert(k.subrange(0, p2.len() as int) == p2);
                            assert(k.subrange(0, prefix.len() as int) =~= prefix) by {
                                assert forall|j: int| 0 <= j < prefix.len() implies k[j]
                                    == prefix[j] by {
                                    assert(k.subrange(0, p2.len() as int)[j] == p2[j]);
                                }
                            }
                            assert(k[prefix.len() as int] == b) by {
                                assert(k.subrange(0, p2.len() as int)[prefix.len() as int]
                                    == p2[prefix.len() as int]);
                            }
                            assert(sfx[0] == b);
                            assert(sfx.skip(1) =~= t);
                            assert(self.reach(sfx) == c.reach(t));
                        }
                    }
                    assert forall|s: Seq<u8>|
                        s.len() > 0 && s[0] < n && #[trigger] self.has_values(s) implies all.contains(
                        prefix + s,
                    ) by {
                        if s[0] < n - 1 {
                            assert(rest.contains(prefix + s));
                            let i = choose|i: int| 0 <= i < rest.len() && rest[i] == prefix + s;
                            assert(all[i] == prefix + s);
                        } else {
                            let t = s.skip(1);
                            assert(self.reach(s) == c.reach(t));
                            assert(c.has_values(t));
                            assert(sub.contains(p2 + t));
                            assert(p2 + t =~= prefix + s);
                            let i = choose|i: int| 0 <= i < sub.len() && sub[i] == p2 + t;
                            assert(all[rest.len() + i] == prefix + s);
                        }
                    }
                },
                None => {
                    assert(all =~= rest);
                    assert forall|s: Seq<u8>|
                        s.len() > 0 && s[0] < n && #[trigger] self.has_values(s) implies all.contains(
                        prefix + s,
                    ) by {
                        if s[0] == b {
                            assert(self.reach(s) is None);
                        }
                    }
                },
            }
        }
    }

    /// Every key that `keys` lists is `prefix` and a key that leads from
    /// this node to a node with values, and every such key is listed.
    pub proof fn lemma_keys(&self, prefix: Seq<u8>)
        ensures
            forall|i: int|
                0 <= i < self.keys(prefix).len() ==> {
                    let k = #[trigger] self.keys(prefix)[i];
                    &&& k.len() >= prefix.len()
                    &&& k.subrange(0, prefix.len() as int) == prefix
                    &&& self.has_values(k.skip(prefix.len() as int))
                },
            forall|s: Seq<u8>| #[trigger] self.has_values(s) ==> self.keys(prefix).contains(prefix + s),
        decreases self, 257int,
    {
        self.lemma_keys_below(prefix, 256);
        let head: Seq<Seq<u8>> = if self.spec_values().len() > 0 {
            seq![prefix]
        } else {
            Seq::empty()
        };
        let below = self.keys_below(prefix, 256);
        let all = self.keys(prefix);
        assert(all == head + below);
        assert forall|i: int| 0 <= i < all.len() implies {
            let k = #[trigger] all[i];
            &&& k.len() >= prefix.len()
            &&& k.subrange(0, prefix.len() as int) == prefix
            &&& self.has_values(k.skip(prefix.len() as int))
        } by {
            if i < head.len() {
                assert(all[i] == prefix);
                assert(prefix.subrange(0, prefix.len() as int) =~= prefix);
                assert(prefix.skip(prefix.len() as int) =~= Seq::<u8>::empty());
                assert(self.reach(Seq::<u8>::empty()) == Some(*self));
            } else {
                assert(all[i] == below[i - head.len()]);
            }
        }
        assert forall|s: Seq<u8>| #[trigger] self.has_values(s) implies all.contains(prefix + s) by {
            if s.len() == 0 {
                assert(prefix + s =~= prefix);
                assert(all[0] == prefix);
            } else {
                assert(below.contains(prefix + s));
                let i = choose|i: int| 0 <= i < below.len() && below[i] == prefix + s;
                assert(all[head.len() + i] == prefix + s);
            }
        }
    }

    /// Adds to `out` the keys with values that lead to this node or through
    /// it, each behind `prefix`, in the order of their bytes.
    pub fn list_keys(&self, prefix: &mut Vec<u8>, out: &mut Vec<Vec<u8>>)
        ensures
            final(prefix)@ == old(prefix)@,
            final(out)@.len() == old(out)@.len() + self.keys(old(prefix)@).len(),
            forall|i: int| 0 <= i < old(out)@.len() ==> #[trigger] final(out)@[i] == old(out)@[i],
            forall|i: int|
                0 <= i < self.keys(old(prefix)@).len() ==> (#[trigger] final(out)@[old(out)@.len()
                    + i])@ == self.keys(old(prefix)@)[i],
        decreases self,
    {
        let ghost p0 = prefix@;
        let ghost out0 = out@;
        let ghost head: Seq<Seq<u8>> = if self.spec_values().len() > 0 {
            seq![p0]
        } else {
            Seq::empty()
        };
        if self.values.len() > 0 {
            out.push(crate::node::copy_bytes(prefix.as_slice()));
        }
        let mut b: usize = 0;
        while b < 256
            invariant
                b <= 256,
                prefix@ == p0,
                out@.len() == out0.len() + head.len() + self.keys_below(p0, b as int).len(),
                forall|i: int| 0 <= i < out0.len() ==> #[trigger] out@[i] == out0[i],
                forall|i: int| 0 <= i < head.len() ==> (#[trigger] out@[out0.len() + i])@ == head[i],
                forall|i: int|
                    0 <= i < self.keys_below(p0, b as int).len() ==> (#[trigger] out@[out0.len()
                        + head.len() + i])@ == self.keys_below(p0, b as int)[i],
            decreases 256 - b,
        {
            let ghost before = out@;
            let ghost done = self.keys_below(p0, b as int);
            match self.child(b as u8) {
                Some(c) => {
                    prefix.push(b as u8);
                    c.list_keys(prefix, out);
                    prefix.pop();
                    proof {
                        let sub = c.keys(p0.push(b as u8));
                        assert(prefix@ =~= p0);
                        assert(self.keys_below(p0, b + 1) == done + sub);
                        assert forall|i: int| 0 <= i < (done + sub).len() implies (
                        #[trigger] out@[out0.len() + head.len() + i])@ == (done + sub)[i] by {
                            if i < done.len() {
                                assert(out@[out0.len() + head.len() + i] == before[out0.len()
                                    + head.len() + i]);
                            } else {
                                assert(out@[before.len() + (i - done.len())]@ == sub[i - done.len()]);
                            }
                        }
                    }
                },
                None => {
                    proof {
                        assert(self.keys_below(p0, b + 1) =~= done);
                    }
                },
            }
            b += 1;
        }
        proof {
            let all = self.keys(p0);
            assert(all == head + self.keys_below(p0, 256));
            assert forall|i: int| 0 <= i < all.len() implies (#[trigger] out@[out0.len() + i])@
                == all[i] by {
                if i >= head.len() {
                    assert(out@[out0.len() + head.len() + (i - head.len())]@ == self.keys_below(
                        p0,
                        256,
                    )[i - head.len()]);
                }
            }
        }
    }

    /// Stores `val` under the rest of `key` from place `i` on, seen from
    /// this node, and makes the nodes on the way that are not there yet.
    /// Hands back how many nodes it made.
    pub fn insert_at(&mut self, key: &[u8], i: usize, val: Vec<u8>) -> (made: usize)
        requires
            old(self).wf(),
            i <= key@.len(),
        ensures
            final(self).wf(),
            final(self).spec_edge() == old(self).spec_edge(),
            final(self).contents() == trie_insert(old(self).contents(), key@.skip(i as int), val@),
            made == key@.len() - i - old(self).depth(key@.skip(i as int)),
        decreases key@.len() - i,
    {
        let ghost rest = key@.skip(i as int);
        let ghost before = *self;
        proof {
            before.lemma_child_wf(0);
        }
        if i == key.len() {
            self.values.push(val);
            proof {
                assert(values_view(self.values@) =~= before.spec_values().push(val@));
                assert forall|k: Seq<u8>| k.len() > 0 implies #[trigger] self.reach(k) == before.reach(
                    k,
                ) by {
                    assert(self.spec_child(k[0]) == before.spec_child(k[0]));
                }
                assert(self.contents() =~= trie_insert(before.contents(), rest, val@)) by {
                    assert forall|k: Seq<u8>|
                        #![trigger self.contents().dom().contains(k)]
                        #![trigger trie_insert(before.contents(), rest, val@).dom().contains(k)]
                        self.contents().dom().contains(k) == trie_insert(
                            before.contents(),
                            rest,
                            val@,
                        ).dom().contains(k) && (self.contents().dom().contains(k)
                            ==> self.contents()[k] == trie_insert(
                            before.contents(),
                            rest,
                            val@,
                        )[k]) by {
                        if k.len() > 0 {
                            assert(self.reach(k) == before.reach(k));
                            assert(!k.is_prefix_of(rest));
                        } else {
                            assert(k =~= rest);
                        }
                    }
                }
            }
            return 0;
        }
        let b = key[i];
        let idx = b as usize;
        proof {
            before.lemma_child_wf(b);
            assert(rest[0] == b);
            assert(rest.skip(1) =~= key@.skip(i + 1));
        }
        let (mut c, made0): (Box<TrieNode>, usize) = match self.child[idx].take() {
            Some(c) => (c, 0),
            None => (Box::new(TrieNode::new(b)), 1),
        };
        let ghost c0 = *c;
        proof {
            if before.spec_child(b) is None {
                assert forall|k: Seq<u8>| node_ok(#[trigger] c0.reach(k), k) by {
                    if k.len() > 0 {
                        assert(c0.spec_child(k[0]) is None);
                    }
                }
            }
        }
        let made1 = c.insert_at(key, i + 1, val);
        let ghost c1 = *c;
        self.child[idx] = Some(c);
        proof {
            let tail = rest.skip(1);
            assert(self.spec_child(b) == Some(c1));
            assert forall|b2: u8| b2 != b implies self.spec_child(b2) == before.spec_child(b2) by {}
            // from this node a key leads where it led, but under `b`
            assert forall|k: Seq<u8>| k.len() > 0 implies #[trigger] self.reach(k) == if k[0] == b {
                c1.reach(k.skip(1))
            } else {
                before.reach(k)
            } by {
                if k[0] != b {
                    assert(self.spec_child(k[0]) == before.spec_child(k[0]));
                }
            }
            assert forall|k: Seq<u8>| node_ok(#[trigger] self.reach(k), k) by {
                if k.len() > 0 {
                    if k[0] == b {
                        let k1 = k.skip(1);
                        assert(c1.reach(k1) == self.reach(k));
                        if k1.len() > 0 {
                            assert(k1.last() == k.last());
                        } else {
                            assert(k.last() == k[0]);
                        }
                    } else {
                        assert(before.reach(k) == self.reach(k));
                    }
                }
            }
            let target = trie_insert(before.contents(), rest, val@);
            assert forall|k: Seq<u8>|
                #![trigger self.contents().dom().contains(k)]
                #![trigger target.dom().contains(k)]
                self.contents().dom().contains(k) == target.dom().contains(k) && (
                self.contents().dom().contains(k) ==> self.contents()[k] == target[k]) by {
                if k.len() == 0 {
                    assert(before.reach(k) == Some(before));
                    assert(k != rest);
                } else if k[0] != b {
                    assert(self.reach(k) == before.reach(k));
                    if k.is_prefix_of(rest) {
                        assert(k[0] == rest.subrange(0, k.len() as int)[0]);
                    }
                } else {
                    let k1 = k.skip(1);
                    assert(self.reach(k) == c1.reach(k1));
                    let m0 = c0.contents();
                    let t1 = trie_insert(m0, tail, val@);
                    assert(c1.contents() == t1);
                    assert(c1.contents().dom().contains(k1) == t1.dom().contains(k1));
                    assert(k.is_prefix_of(rest) <==> k1.is_prefix_of(tail)) by {
                        if k.is_prefix_of(rest) {
                            assert(k1 =~= tail.subrange(0, k1.len() as int));
                        }
                        if k1.is_prefix_of(tail) {
                            assert(k =~= rest.subrange(0, k.len() as int)) by {
                                assert forall|j: int| 0 <= j < k.len() implies k[j] == rest[j] by {
                                    if j > 0 {
                                        assert(k1[j - 1] == tail.subrange(0, k1.len() as int)[j
                                            - 1]);
                                    }
                                }
                            }
                        }
                    }
                    assert(k == rest <==> k1 == tail) by {
                        if k1 == tail {
                            assert(k =~= rest);
                        }
                    }
                    if before.spec_child(b) is Some {
                        assert(before.reach(k) == c0.reach(k1));
                    } else {
                        assert(before.reach(k) is None);
                        if k1.len() > 0 {
                            assert(c0.spec_child(k1[0]) is None);
                            assert(c0.reach(k1) is None);
                        } else {
                            assert(c0.reach(k1) == Some(c0));
                        }
                    }
                    if self.contents().dom().contains(k) {
                        assert(c1.contents()[k1] == t1[k1]);
                    }
                }
            }
            assert(self.contents() =~= target);
        }
        made0 + made1
    }

    /// The values of `key`, seen from this node; none where `key` leads to
    /// no node.
    pub fn search(&self, key: &[u8]) -> (r: Option<Vec<Vec<u8>>>)
        requires
            self.wf(),
        ensures
            match r {
                Some(v) => self.reach(key@) matches Some(n) && values_view(v@) == n.spec_values(),
                None => self.reach(key@) is None,
            },
    {
        match self.find(key) {
            Some(n) => Some(copy_values(&n.values)),
            None => None,
        }
    }

    /// The node that `key` leads to from this node; none where it leads to
    /// no node.
    pub fn find(&self, key: &[u8]) -> (r: Option<&TrieNode>)
        requires
            self.wf(),
        ensures
            match r {
                Some(n) => self.reach(key@) == Some(*n),
                None => self.reach(key@) is None,
            },
    {
        let mut cur: &TrieNode = self;
        let mut i: usize = 0;
        proof {
            assert(key@.subrange(0, 0) =~= Seq::<u8>::empty());
        }
        while i < key.len()
            invariant
                i <= key@.len(),
                self.wf(),
                self.reach(key@.subrange(0, i as int)) == Some(*cur),
            decreases key@.len() - i,
        {
            let ghost done = key@.subrange(0, i as int);
            let ghost step = seq![key@[i as int]];
            proof {
                assert(done + step =~= key@.subrange(0, i + 1));
                self.lemma_reach_concat(done, step);
                assert(step.skip(1) =~= Seq::<u8>::empty());
                assert(cur.spans());
            }
            match cur.child(key[i]) {
                Some(c) => {
                    proof {
                        assert(c.reach(step.skip(1)) == Some(*c));
                        assert(cur.reach(step) == Some(*c));
                    }
                    cur = c;
                },
                None => {
                    proof {
                        let tail = key@.subrange(i as int, key@.len() as int);
                        assert(done + tail =~= key@);
                        self.lemma_reach_concat(done, tail);
                        assert(tail[0] == key@[i as int]);
                    }
                    return None;
                },
            }
            i += 1;
        }
        proof {
            assert(key@.subrange(0, i as int) =~= key@);
        }
        Some(cur)
    }
}

/// The node that the key `k` leads to, where it leads to one, has a slot
/// for every key byte and hangs under the last byte of `k`.
pub open spec fn node_ok(r: Option<TrieNode>, k: Seq<u8>) -> bool {
    match r {
        Some(n) => n.spans() && (k.len() > 0 ==> n.spec_edge() == k.last()),
        None => true,
    }
}

/// What a trie holds after `val` was stored under `key`: every beginning of
/// `key` leads to a node, `key` has one value more, and every other key has
/// the values that it had.
pub open spec fn trie_insert(
    m: Map<Seq<u8>, Seq<Seq<u8>>>,
    key: Seq<u8>,
    val: Seq<u8>,
) -> Map<Seq<u8>, Seq<Seq<u8>>> {
    Map::new(
        |k: Seq<u8>| m.dom().contains(k) || k.is_prefix_of(key),
        |k: Seq<u8>|
            {
                let had = if m.dom().contains(k) {
                    m[k]
                } else {
                    Seq::empty()
                };
                if k == key {
                    had.push(val)
                } else {
                    had
                }
            },
    )
}

/// A trie.
pub struct Trie {
    root: Option<Box<TrieNode>>,
    size: u32,
}

impl Trie {
    /// The root.
    pub closed spec fn spec_root(&self) -> Option<Box<TrieNode>> {
        self.root
    }

    /// Number of nodes below the root, as far as the counter can count.
    pub closed spec fn spec_size(&self) -> u32 {
        self.size
    }

    /// The trie has a root, which is well formed.
    pub open spec fn wf(&self) -> bool {
        self.spec_root() matches Some(r) && r.wf()
    }

    /// The values of every key that leads to a node.
    pub open spec fn contents(&self) -> Map<Seq<u8>, Seq<Seq<u8>>> {
        self.spec_root()->0.contents()
    }

    /// A trie with a root and nothing else.
    pub fn new() -> (t: Box<Trie>)
        ensures
            t.wf(),
            t.spec_size() == 0,
            t.contents() == Map::<Seq<u8>, Seq<Seq<u8>>>::empty().insert(
                Seq::<u8>::empty(),
                Seq::<Seq<u8>>::empty(),
            ),
    {
        let r = TrieNode::new(0);
        proof {
            assert forall|k: Seq<u8>| node_ok(#[trigger] r.reach(k), k) by {
                if k.len() > 0 {
                    assert(r.spec_child(k[0]) is None);
                }
            }
            let target = Map::<Seq<u8>, Seq<Seq<u8>>>::empty().insert(
                Seq::<u8>::empty(),
                Seq::<Seq<u8>>::empty(),
            );
            assert forall|k: Seq<u8>|
                #![trigger r.contents().dom().contains(k)]
                #![trigger target.dom().contains(k)]
                r.contents().dom().contains(k) == target.dom().contains(k) && (
                r.contents().dom().contains(k) ==> r.contents()[k] == target[k]) by {
                if k.len() > 0 {
                    assert(r.spec_child(k[0]) is None);
                } else {
                    assert(k =~= Seq::<u8>::empty());
                }
            }
            assert(r.contents() =~= target);
        }
        Box::new(Trie { root: Some(Box::new(r)), size: 0 })
    }

    /// Number of nodes below the root, as far as the counter can count.
    pub fn get_size(&self) -> (n: u32)
        ensures
            n == self.spec_size(),
    {
        self.size
    }

    /// The root.
    pub fn get_root(&self) -> (r: &Option<Box<TrieNode>>)
        ensures
            *r == self.spec_root(),
    {
        &self.root
    }

    /// Stores `val` under `key`, beside the values that `key` has, and
    /// makes the nodes on the way that are not there yet. The counter goes
    /// up by the number of nodes made, as far as it can count. Hands out
    /// the node that `key` leads to.
    pub fn insert(&mut self, key: &[u8], val: Vec<u8>) -> (r: &TrieNode)
        requires
            old(self).wf(),
        ensures
            final(self).wf(),
            final(self).spec_root()->0.reach(key@) == Some(*r),
            final(self).contents() == trie_insert(old(self).contents(), key@, val@),
            final(self).spec_size() == if old(self).spec_size() + key@.len() - old(
                self,
            ).spec_root()->0.depth(key@) > u32::MAX {
                u32::MAX as int
            } else {
                old(self).spec_size() + key@.len() - old(self).spec_root()->0.depth(key@)
            },
    {
        proof {
            assert(key@.skip(0) =~= key@);
        }
        match self.root.take() {
            Some(mut r) => {
                let made = r.insert_at(key, 0, val);
                self.root = Some(r);
                if made > (u32::MAX - self.size) as usize {
                    self.size = u32::MAX;
                } else {
                    self.size = self.size + made as u32;
                }
            },
            None => {},
        }
        proof {
            assert(self.contents().dom().contains(key@));
        }
        match &self.root {
            Some(r) => match r.find(key) {
                Some(n) => n,
                None => vstd::pervasive::unreached(),
            },
            None => vstd::pervasive::unreached(),
        }
    }

    /// The keys that have values, in the order of their bytes.
    pub fn keys(&self) -> (r: Vec<Vec<u8>>)
        requires
            self.wf(),
        ensures
            r@.len() == self.spec_root()->0.keys(Seq::<u8>::empty()).len(),
            forall|i: int|
                0 <= i < r@.len() ==> (#[trigger] r@[i])@ == self.spec_root()->0.keys(
                    Seq::<u8>::empty(),
                )[i],
    {
        let mut out: Vec<Vec<u8>> = Vec::new();
        let mut prefix: Vec<u8> = Vec::new();
        match &self.root {
            Some(r) => {
                r.list_keys(&mut prefix, &mut out);
                proof {
                    let all = r.keys(Seq::<u8>::empty());
                    assert forall|i: int| 0 <= i < out@.len() implies (#[trigger] out@[i])@
                        == all[i] by {
                        assert(out@[0 + i]@ == all[i]);
                    }
                }
            },
            None => {},
        }
        out
    }

    /// The values of `key`; none where `key` leads to no node.
    pub fn search(&self, key: &[u8]) -> (r: Option<Vec<Vec<u8>>>)
        requires
            self.wf(),
        ensures
            match r {
                Some(v) => self.contents().dom().contains(key@) && values_view(v@)
                    == self.contents()[key@],
                None => !self.contents().dom().contains(key@),
            },
    {
        match &self.root {
            Some(r) => r.search(key),
            None => None,
        }
    }
}

} // verus!
