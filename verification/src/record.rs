//! The wire form of a node: the bytes that stand for it in its slot.
//!
//! Every class starts with a state byte, the length of the edge and the
//! parent pointer. Then comes the child table in the layout of the class:
//! a key array and a pointer array in step with it (N4, N16), an index of
//! 256 slot numbers and a dense pointer array (N48), or one pointer per key
//! byte (N256). The rest of the slot holds the edge and the reference to
//! the values: a type byte and the number of values.
//!
//! The values themselves are no part of the wire form: a node that is read
//! back from its bytes has none, and is told how many there were.
use crate::codec::{
    be_u32, lemma_pointer_round_trip, spec_be_byte, spec_be_u32, NodeType, Pointer,
};
use crate::node::{ArtNode, Node, Node16, Node256, Node4, Node48, NodeView, MAX_EDGE_LEN};
use crate::page::ACTIVE;
use crate::table::{entries_of, NodeOpRes};
use vstd::prelude::*;

verus! {

/// Offset of the length of the edge.
pub const EDGE_LEN_OFFSET: usize = 1;

/// Offset of the parent pointer.
pub const PARENT_ADDR_OFFSET: usize = 2;

/// Offset of the child table.
pub const CHILD_KEY_OFFSET: usize = 8;

/// Offset of the edge in a node of each class.
pub const NODE4_EDGE_OFFSET: usize = 36;

pub const NODE16_EDGE_OFFSET: usize = 120;

pub const NODE48_EDGE_OFFSET: usize = 552;

pub const NODE256_EDGE_OFFSET: usize = 1544;

/// Type byte of the value reference of a node without values.
pub const NONE: u8 = 0;

/// Type byte of a value reference that holds an address.
pub const ADDR: u8 = 1;

/// Type byte of the value reference of a node with values.
pub const DATA: u8 = 2;

/// Slot number of a key without child in the index of an N48 node.
pub const ABSENT: u8 = 0xFF;

/// The pointer that the six bytes of `b` from `off` on spell.
pub open spec fn spec_ptr_at(b: Seq<u8>, off: int) -> Pointer {
    Pointer {
        tag: b[off],
        info: b[off + 1],
        addr: spec_be_u32(b[off + 2], b[off + 3], b[off + 4], b[off + 5]),
    }
}

/// Reads the pointer at `off`.
pub fn read_ptr(b: &[u8], off: usize) -> (p: Pointer)
    requires
        off + 6 <= b@.len(),
    ensures
        p == spec_ptr_at(b@, off as int),
{
    Pointer {
        tag: b[off],
        info: b[off + 1],
        addr: be_u32(b[off + 2], b[off + 3], b[off + 4], b[off + 5]),
    }
}

/// Writes `p` at `off`, and leaves every other byte as it is.
pub fn write_ptr(b: &mut Vec<u8>, off: usize, p: Pointer)
    requires
        off + 6 <= old(b)@.len(),
    ensures
        final(b)@.len() == old(b)@.len(),
        spec_ptr_at(final(b)@, off as int) == p,
        forall|i: int|
            0 <= i < old(b)@.len() && !(off <= i < off + 6) ==> #[trigger] final(b)@[i] == old(
                b,
            )@[i],
{
    assert(b.len() <= usize::MAX);
    let bytes = p.to_bytes();
    b[off] = bytes[0];
    b[off + 1] = bytes[1];
    b[off + 2] = bytes[2];
    b[off + 3] = bytes[3];
    b[off + 4] = bytes[4];
    b[off + 5] = bytes[5];
    proof {
        lemma_pointer_round_trip(p);
        assert(bytes@ == p.spec_bytes());
        assert(bytes@[2] == spec_be_byte(p.addr, 0));
        assert(bytes@[3] == spec_be_byte(p.addr, 1));
        assert(bytes@[4] == spec_be_byte(p.addr, 2));
        assert(bytes@[5] == spec_be_byte(p.addr, 3));
        assert(Pointer::spec_from_bytes(p.spec_bytes()) == p);
    }
}

/// The map that a list of pairs spells, a later pair for a key taking the
/// place of an earlier one.
pub open spec fn map_of(e: Seq<(u8, Pointer)>) -> Map<u8, Pointer>
    decreases e.len(),
{
    if e.len() == 0 {
        Map::empty()
    } else {
        map_of(e.drop_last()).insert(e.last().0, e.last().1)
    }
}

/// No two pairs of `e` have the same key.
pub open spec fn keys_distinct(e: Seq<(u8, Pointer)>) -> bool {
    forall|i: int, j: int| 0 <= i < j < e.len() ==> (#[trigger] e[i]).0 != (#[trigger] e[j]).0
}

/// The keys of the map of a list are the keys of its pairs.
pub proof fn lemma_map_of_dom(e: Seq<(u8, Pointer)>, b: u8)
    ensures
        map_of(e).dom().contains(b) <==> exists|i: int| 0 <= i < e.len() && (#[trigger] e[i]).0 == b,
        map_of(e).dom().finite(),
    decreases e.len(),
{
    if e.len() > 0 {
        let d = e.drop_last();
        lemma_map_of_dom(d, b);
        if exists|i: int| 0 <= i < d.len() && (#[trigger] d[i]).0 == b {
            let i = choose|i: int| 0 <= i < d.len() && (#[trigger] d[i]).0 == b;
            assert(e[i].0 == b);
        }
        if exists|i: int| 0 <= i < e.len() && (#[trigger] e[i]).0 == b {
            let i = choose|i: int| 0 <= i < e.len() && (#[trigger] e[i]).0 == b;
            if i < d.len() {
                assert(d[i].0 == b);
            } else {
                assert(e.last() == e[i]);
            }
        }
        if e.last().0 == b {
            assert(e[e.len() - 1].0 == b);
        }
    }
}

/// A list with distinct keys lists the pairs of its map.
pub proof fn lemma_map_of_entries(e: Seq<(u8, Pointer)>)
    requires
        keys_distinct(e),
    ensures
        entries_of(e, map_of(e)),
        map_of(e).dom().finite(),
        map_of(e).dom().len() == e.len(),
    decreases e.len(),
{
    if e.len() > 0 {
        let d = e.drop_last();
        assert forall|i: int, j: int| 0 <= i < j < d.len() implies (#[trigger] d[i]).0 != (
        #[trigger] d[j]).0 by {
            assert(d[i] == e[i] && d[j] == e[j]);
        }
        lemma_map_of_entries(d);
        lemma_map_of_dom(d, e.last().0);
        assert(!map_of(d).dom().contains(e.last().0)) by {
            if map_of(d).dom().contains(e.last().0) {
                let i = choose|i: int| 0 <= i < d.len() && (#[trigger] d[i]).0 == e.last().0;
                assert(e[i].0 != e[e.len() - 1].0);
            }
        }
        let m = map_of(e);
        assert forall|i: int| 0 <= i < e.len() implies m.dom().contains((#[trigger] e[i]).0) && m[e[i].0]
            == e[i].1 by {
            if i < d.len() {
                assert(d[i] == e[i]);
                assert(e[i].0 != e[e.len() - 1].0);
            }
        }
        assert forall|b: u8| m.dom().contains(b) implies exists|i: int|
            0 <= i < e.len() && (#[trigger] e[i]).0 == b by {
            lemma_map_of_dom(e, b);
        }
    } else {
        assert(map_of(e).dom() =~= Set::<u8>::empty());
    }
}

/// A list of the pairs of a map spells that map.
pub proof fn lemma_entries_map_of(e: Seq<(u8, Pointer)>, m: Map<u8, Pointer>)
    requires
        entries_of(e, m),
    ensures
        map_of(e) == m,
        keys_distinct(e),
{
    lemma_map_of_entries(e);
    let m2 = map_of(e);
    assert forall|b: u8|
        #![trigger m2.dom().contains(b)]
        #![trigger m.dom().contains(b)]
        m2.dom().contains(b) == m.dom().contains(b) && (m2.dom().contains(b) ==> m2[b] == m[b]) by {
        lemma_map_of_dom(e, b);
        if m2.dom().contains(b) {
            let i = choose|i: int| 0 <= i < e.len() && (#[trigger] e[i]).0 == b;
            assert(m.dom().contains(e[i].0));
            assert(m2[e[i].0] == e[i].1);
        }
        if m.dom().contains(b) {
            let i = choose|i: int| 0 <= i < e.len() && (#[trigger] e[i]).0 == b;
            assert(e[i].0 == b);
        }
    }
    assert(m2 =~= m);
}

/// Gives the node `node`, which has no child, the pairs of `e` as its
/// children, one after the other. None where two pairs have the same key or
/// where the node has no room for all of them.
pub fn build<N: ArtNode>(node: N, e: &Vec<(u8, Pointer)>) -> (r: Option<N>)
    requires
        node.wf(),
        node@.children == Map::<u8, Pointer>::empty(),
        forall|i: int| 0 <= i < e@.len() ==> !(#[trigger] e@[i]).1.spec_is_null(),
    ensures
        r is Some <==> keys_distinct(e@) && e@.len() <= node@.tp.spec_capacity(),
        r matches Some(n2) ==> n2.wf() && n2@ == (NodeView { children: map_of(e@), ..node@ }),
{
    let ghost v0 = node@;
    let mut t = node;
    let n = e.len();
    let mut i: usize = 0;
    proof {
        assert(e@.subrange(0, 0) =~= Seq::<(u8, Pointer)>::empty());
        assert(t@.children.dom() =~= Set::<u8>::empty());
    }
    while i < n
        invariant
            i <= n,
            n == e@.len(),
            t.wf(),
            v0 == node@,
            forall|j: int| 0 <= j < e@.len() ==> !(#[trigger] e@[j]).1.spec_is_null(),
            keys_distinct(e@.subrange(0, i as int)),
            t@ == (NodeView { children: map_of(e@.subrange(0, i as int)), ..v0 }),
            i <= v0.tp.spec_capacity(),
        decreases n - i,
    {
        let ghost done = e@.subrange(0, i as int);
        let ghost next = e@.subrange(0, i + 1);
        let (k, p) = e[i];
        proof {
            lemma_map_of_entries(done);
            lemma_map_of_dom(done, k);
            assert(next.drop_last() =~= done);
            assert(next.last() == e@[i as int]);
        }
        let res = t.set_child(k, p);
        if res != NodeOpRes::Succ {
            proof {
                if map_of(done).dom().contains(k) {
                    let j = choose|j: int| 0 <= j < done.len() && (#[trigger] done[j]).0 == k;
                    assert(done[j] == e@[j]);
                    assert(e@[j].0 == e@[i as int].0);
                    assert(!keys_distinct(e@));
                } else {
                    assert(res == NodeOpRes::NotEnoughSpace);
                    assert(map_of(done).dom().len() == i);
                    assert(e@.len() > v0.tp.spec_capacity());
                }
            }
            return None;
        }
        proof {
            assert forall|a: int, b: int| 0 <= a < b < next.len() implies (#[trigger] next[a]).0 != (
            #[trigger] next[b]).0 by {
                if b < i {
                    assert(done[a] == next[a] && done[b] == next[b]);
                } else {
                    assert(done[a] == next[a]);
                    assert(done[a].0 == next[a].0);
                }
            }
            lemma_map_of_entries(next);
            t.lemma_wf();
        }
        i += 1;
    }
    proof {
        assert(e@.subrange(0, n as int) =~= e@);
    }
    Some(t)
}

/// The pointer in slot `j` of the pointer array behind a key array of `cap`
/// slots.
pub open spec fn linear_ptr(b: Seq<u8>, cap: int, j: int) -> Pointer {
    spec_ptr_at(b, 8 + cap + 6 * j)
}

/// The key in slot `j` of a key array.
pub open spec fn linear_key(b: Seq<u8>, j: int) -> u8 {
    b[8 + j]
}

/// The pointer in the slot of key `k` of a pointer array with one slot per
/// key.
pub open spec fn direct_ptr(b: Seq<u8>, k: int) -> Pointer {
    spec_ptr_at(b, 8 + 6 * k)
}

/// The slot number of key `k` in an index of slot numbers.
pub open spec fn index_byte(b: Seq<u8>, k: int) -> u8 {
    b[8 + k]
}

/// The pointer in slot `s` of the dense pointer array behind an index.
pub open spec fn dense_ptr(b: Seq<u8>, s: int) -> Pointer {
    spec_ptr_at(b, 264 + 6 * s)
}

/// The pairs that the first `n` slots of a key array of `cap` slots and the
/// pointer array behind it spell: one for each slot whose pointer is not
/// null.
pub open spec fn linear_entries(b: Seq<u8>, cap: int, n: int) -> Seq<(u8, Pointer)>
    decreases n,
{
    if n <= 0 {
        Seq::empty()
    } else {
        let rest = linear_entries(b, cap, n - 1);
        let p = linear_ptr(b, cap, n - 1);
        if p.spec_is_null() {
            rest
        } else {
            rest.push((linear_key(b, n - 1), p))
        }
    }
}

/// The pairs that the first `n` slots of a pointer array with one slot per
/// key spell: one for each slot whose pointer is not null.
pub open spec fn direct_entries(b: Seq<u8>, n: int) -> Seq<(u8, Pointer)>
    decreases n,
{
    if n <= 0 {
        Seq::empty()
    } else {
        let rest = direct_entries(b, n - 1);
        let p = direct_ptr(b, n - 1);
        if p.spec_is_null() {
            rest
        } else {
            rest.push(((n - 1) as u8, p))
        }
    }
}

/// The pairs that the first `n` bytes of an index of slot numbers and the
/// dense pointer array behind the index spell: one for each key whose slot
/// number is not `ABSENT`.
pub open spec fn indexed_entries(b: Seq<u8>, n: int) -> Seq<(u8, Pointer)>
    decreases n,
{
    if n <= 0 {
        Seq::empty()
    } else {
        let rest = indexed_entries(b, n - 1);
        let s = index_byte(b, n - 1);
        if s == ABSENT {
            rest
        } else {
            rest.push(((n - 1) as u8, dense_ptr(b, s as int)))
        }
    }
}

/// Every slot number of the index is `ABSENT` or names a slot of the dense
/// array that holds a pointer.
pub open spec fn indexed_valid(b: Seq<u8>) -> bool {
    forall|k: int|
        0 <= k < 256 ==> (#[trigger] index_byte(b, k)) == ABSENT || (index_byte(b, k) < 48
            && !dense_ptr(b, index_byte(b, k) as int).spec_is_null())
}

/// The pairs of the first `n` slots have keys below `n`, in rising order,
/// and pointers that are not null; and every slot below `n` with a pointer
/// has its pair.
proof fn lemma_direct_entries(b: Seq<u8>, n: int)
    requires
        0 <= n <= 256,
    ensures
        direct_entries(b, n).len() <= n,
        forall|i: int|
            0 <= i < direct_entries(b, n).len() ==> {
                let x = #[trigger] direct_entries(b, n)[i];
                &&& x.0 < n
                &&& x.1 == direct_ptr(b, x.0 as int)
                &&& !x.1.spec_is_null()
            },
        forall|i: int, j: int|
            0 <= i < j < direct_entries(b, n).len() ==> (#[trigger] direct_entries(b, n)[i]).0 < (
            #[trigger] direct_entries(b, n)[j]).0,
        forall|k: int|
            0 <= k < n && !(#[trigger] direct_ptr(b, k)).spec_is_null() ==> exists|i: int|
                0 <= i < direct_entries(b, n).len() && (#[trigger] direct_entries(b, n)[i]).0
                    == k,
    decreases n,
{
    if n > 0 {
        lemma_direct_entries(b, n - 1);
        let rest = direct_entries(b, n - 1);
        let e = direct_entries(b, n);
        assert forall|k: int| 0 <= k < n && !(#[trigger] direct_ptr(b, k)).spec_is_null() implies exists|
            i: int,
        |
            0 <= i < e.len() && (#[trigger] e[i]).0 == k by {
            if k < n - 1 {
                let i = choose|i: int| 0 <= i < rest.len() && (#[trigger] rest[i]).0 == k;
                assert(e[i].0 == k);
            } else {
                assert(e[rest.len() as int].0 == k);
            }
        }
        assert forall|i: int, j: int| 0 <= i < j < e.len() implies (#[trigger] e[i]).0 < (
        #[trigger] e[j]).0 by {
            if j < rest.len() {
                assert(rest[i].0 < rest[j].0);
            } else {
                assert(rest[i].0 < n - 1);
            }
        }
    }
}

/// As `lemma_direct_entries`, for the index of slot numbers.
proof fn lemma_indexed_entries(b: Seq<u8>, n: int)
    requires
        0 <= n <= 256,
    ensures
        indexed_entries(b, n).len() <= n,
        forall|i: int|
            0 <= i < indexed_entries(b, n).len() ==> {
                let x = #[trigger] indexed_entries(b, n)[i];
                &&& x.0 < n
                &&& index_byte(b, x.0 as int) != ABSENT
                &&& x.1 == dense_ptr(b, index_byte(b, x.0 as int) as int)
            },
        forall|i: int, j: int|
            0 <= i < j < indexed_entries(b, n).len() ==> (#[trigger] indexed_entries(b, n)[i]).0 < (
            #[trigger] indexed_entries(b, n)[j]).0,
        forall|k: int|
            0 <= k < n && (#[trigger] index_byte(b, k)) != ABSENT ==> exists|i: int|
                0 <= i < indexed_entries(b, n).len() && (#[trigger] indexed_entries(b, n)[i]).0
                    == k,
    decreases n,
{
    if n > 0 {
        lemma_indexed_entries(b, n - 1);
        let rest = indexed_entries(b, n - 1);
        let e = indexed_entries(b, n);
        assert forall|k: int| 0 <= k < n && (#[trigger] index_byte(b, k)) != ABSENT implies exists|
            i: int,
        |
            0 <= i < e.len() && (#[trigger] e[i]).0 == k by {
            if k < n - 1 {
                let i = choose|i: int| 0 <= i < rest.len() && (#[trigger] rest[i]).0 == k;
                assert(e[i].0 == k);
            } else {
                assert(e[rest.len() as int].0 == k);
            }
        }
        assert forall|i: int, j: int| 0 <= i < j < e.len() implies (#[trigger] e[i]).0 < (
        #[trigger] e[j]).0 by {
            if j < rest.len() {
                assert(rest[i].0 < rest[j].0);
            } else {
                assert(rest[i].0 < n - 1);
            }
        }
    }
}

/// Where the first slots of the arrays hold the pairs of `e` and the other
/// slots hold null pointers, the arrays spell `e`.
proof fn lemma_linear_entries(b: Seq<u8>, cap: int, e: Seq<(u8, Pointer)>, n: int)
    requires
        0 <= n <= cap,
        e.len() <= cap,
        forall|j: int|
            0 <= j < e.len() ==> linear_key(b, j) == (#[trigger] e[j]).0 && linear_ptr(b, cap, j)
                == e[j].1 && !e[j].1.spec_is_null(),
        forall|j: int| e.len() <= j < cap ==> (#[trigger] linear_ptr(b, cap, j)).spec_is_null(),
    ensures
        linear_entries(b, cap, n) == e.subrange(
            0,
            if n <= e.len() {
                n
            } else {
                e.len() as int
            },
        ),
    decreases n,
{
    if n > 0 {
        lemma_linear_entries(b, cap, e, n - 1);
        if n <= e.len() {
            assert(e.subrange(0, n - 1).push(e[n - 1]) =~= e.subrange(0, n));
        } else {
            assert(linear_ptr(b, cap, n - 1).spec_is_null());
        }
    } else {
        assert(e.subrange(0, 0) =~= Seq::<(u8, Pointer)>::empty());
    }
}

/// The pairs of the first `n` slots of a key array have pointers that are
/// not null, and there are no more of them than slots.
proof fn lemma_linear_entries_ok(b: Seq<u8>, cap: int, n: int)
    requires
        0 <= n,
    ensures
        linear_entries(b, cap, n).len() <= n,
        forall|i: int|
            0 <= i < linear_entries(b, cap, n).len() ==> !(#[trigger] linear_entries(
                b,
                cap,
                n,
            )[i]).1.spec_is_null(),
    decreases n,
{
    if n > 0 {
        lemma_linear_entries_ok(b, cap, n - 1);
    }
}

/// Reads the pairs of a key array of `cap` slots and the pointer array
/// behind it.
pub fn parse_linear(b: &[u8], cap: usize) -> (r: Vec<(u8, Pointer)>)
    requires
        cap <= 16,
        8 + 7 * cap <= b@.len(),
    ensures
        r@ == linear_entries(b@, cap as int, cap as int),
        r@.len() <= cap,
        forall|i: int| 0 <= i < r@.len() ==> !(#[trigger] r@[i]).1.spec_is_null(),
{
    let mut r: Vec<(u8, Pointer)> = Vec::new();
    let mut j: usize = 0;
    while j < cap
        invariant
            j <= cap,
            cap <= 16,
            8 + 7 * cap <= b@.len(),
            r@ == linear_entries(b@, cap as int, j as int),
        decreases cap - j,
    {
        let p = read_ptr(b, 8 + cap + 6 * j);
        if !p.is_null() {
            r.push((b[8 + j], p));
        }
        j += 1;
    }
    proof {
        lemma_linear_entries_ok(b@, cap as int, cap as int);
    }
    r
}

/// Reads the pairs of a pointer array with one slot per key.
pub fn parse_direct(b: &[u8]) -> (r: Vec<(u8, Pointer)>)
    requires
        8 + 6 * 256 <= b@.len(),
    ensures
        r@ == direct_entries(b@, 256),
        r@.len() <= 256,
        keys_distinct(r@),
        forall|i: int| 0 <= i < r@.len() ==> !(#[trigger] r@[i]).1.spec_is_null(),
{
    let mut r: Vec<(u8, Pointer)> = Vec::new();
    let mut k: usize = 0;
    while k < 256
        invariant
            k <= 256,
            8 + 6 * 256 <= b@.len(),
            r@ == direct_entries(b@, k as int),
        decreases 256 - k,
    {
        let p = read_ptr(b, 8 + 6 * k);
        if !p.is_null() {
            r.push((k as u8, p));
        }
        k += 1;
    }
    proof {
        lemma_direct_entries(b@, 256);
    }
    r
}

/// Reads the pairs of an index of slot numbers and the dense pointer array
/// behind it. None where a slot number names no slot, or a slot without
/// pointer.
pub fn parse_indexed(b: &[u8]) -> (r: Option<Vec<(u8, Pointer)>>)
    requires
        264 + 6 * 48 <= b@.len(),
    ensures
        r is Some <==> indexed_valid(b@),
        r matches Some(v) ==> {
            &&& v@ == indexed_entries(b@, 256)
            &&& keys_distinct(v@)
            &&& forall|i: int| 0 <= i < v@.len() ==> !(#[trigger] v@[i]).1.spec_is_null()
        },
{
    let mut r: Vec<(u8, Pointer)> = Vec::new();
    let mut k: usize = 0;
    while k < 256
        invariant
            k <= 256,
            264 + 6 * 48 <= b@.len(),
            r@ == indexed_entries(b@, k as int),
            forall|t: int|
                0 <= t < k ==> (#[trigger] index_byte(b@, t)) == ABSENT || (index_byte(b@, t) < 48
                    && !dense_ptr(b@, index_byte(b@, t) as int).spec_is_null()),
        decreases 256 - k,
    {
        let s = b[8 + k];
        assert(s == index_byte(b@, k as int));
        if s != ABSENT {
            if s >= 48 {
                return None;
            }
            let p = read_ptr(b, 264 + 6 * (s as usize));
            if p.is_null() {
                return None;
            }
            r.push((k as u8, p));
        }
        k += 1;
    }
    proof {
        lemma_indexed_entries(b@, 256);
        assert forall|i: int| 0 <= i < r@.len() implies !(#[trigger] r@[i]).1.spec_is_null() by {
            let x = indexed_entries(b@, 256)[i];
            assert(index_byte(b@, x.0 as int) != ABSENT);
        }
    }
    Some(r)
}

/// Writes the pairs of `e` into the first slots of a key array of `cap`
/// slots and of the pointer array behind it.
pub fn put_linear(b: &mut Vec<u8>, cap: usize, e: &Vec<(u8, Pointer)>)
    requires
        cap <= 16,
        8 + 7 * cap <= old(b)@.len(),
        e@.len() <= cap,
        forall|i: int| 0 <= i < e@.len() ==> !(#[trigger] e@[i]).1.spec_is_null(),
        forall|i: int| 8 <= i < 8 + 7 * cap ==> #[trigger] old(b)@[i] == 0,
    ensures
        final(b)@.len() == old(b)@.len(),
        forall|i: int|
            0 <= i < old(b)@.len() && !(8 <= i < 8 + 7 * cap) ==> #[trigger] final(b)@[i] == old(
                b,
            )@[i],
        linear_entries(final(b)@, cap as int, cap as int) == e@,
{
    let n = e.len();
    let mut j: usize = 0;
    while j < n
        invariant
            j <= n,
            n == e@.len(),
            n <= cap <= 16,
            8 + 7 * cap <= b@.len(),
            b@.len() == old(b)@.len(),
            forall|i: int|
                0 <= i < b@.len() && !(8 <= i < 8 + 7 * cap) ==> #[trigger] b@[i] == old(b)@[i],
            forall|t: int|
                0 <= t < j ==> linear_key(b@, t) == (#[trigger] e@[t]).0 && linear_ptr(
                    b@,
                    cap as int,
                    t,
                ) == e@[t].1,
            forall|i: int| 8 + cap + 6 * j <= i < 8 + 7 * cap ==> #[trigger] b@[i] == 0,
        decreases n - j,
    {
        let (k, p) = e[j];
        let ghost before = b@;
        b[8 + j] = k;
        write_ptr(b, 8 + cap + 6 * j, p);
        proof {
            assert forall|t: int| 0 <= t < j + 1 implies linear_key(b@, t) == (#[trigger] e@[t]).0
                && linear_ptr(b@, cap as int, t) == e@[t].1 by {
                if t < j {
                    assert(linear_key(before, t) == e@[t].0);
                    assert(linear_ptr(before, cap as int, t) == e@[t].1);
                }
            }
        }
        j += 1;
    }
    proof {
        assert forall|t: int| n <= t < cap implies (#[trigger] linear_ptr(
            b@,
            cap as int,
            t,
        )).spec_is_null() by {
            assert(b@[8 + cap + 6 * t] == 0);
        }
        lemma_linear_entries(b@, cap as int, e@, cap as int);
        assert(e@.subrange(0, e@.len() as int) =~= e@);
    }
}

/// Writes the pairs of `e` into a pointer array with one slot per key.
pub fn put_direct(b: &mut Vec<u8>, e: &Vec<(u8, Pointer)>)
    requires
        8 + 6 * 256 <= old(b)@.len(),
        keys_distinct(e@),
        forall|i: int| 0 <= i < e@.len() ==> !(#[trigger] e@[i]).1.spec_is_null(),
        forall|i: int| 8 <= i < 8 + 6 * 256 ==> #[trigger] old(b)@[i] == 0,
    ensures
        final(b)@.len() == old(b)@.len(),
        forall|i: int|
            0 <= i < old(b)@.len() && !(8 <= i < 8 + 6 * 256) ==> #[trigger] final(b)@[i] == old(
                b,
            )@[i],
        keys_distinct(direct_entries(final(b)@, 256)),
        direct_entries(final(b)@, 256).len() <= 256,
        map_of(direct_entries(final(b)@, 256)) == map_of(e@),
{
    let n = e.len();
    let mut j: usize = 0;
    while j < n
        invariant
            j <= n,
            n == e@.len(),
            8 + 6 * 256 <= b@.len(),
            b@.len() == old(b)@.len(),
            keys_distinct(e@),
            forall|i: int|
                0 <= i < b@.len() && !(8 <= i < 8 + 6 * 256) ==> #[trigger] b@[i] == old(b)@[i],
            forall|t: int| 0 <= t < j ==> direct_ptr(b@, (#[trigger] e@[t]).0 as int) == e@[t].1,
            forall|k: int|
                0 <= k < 256 && (forall|t: int| 0 <= t < j ==> (#[trigger] e@[t]).0 != k)
                    ==> (#[trigger] direct_ptr(b@, k)).spec_is_null(),
        decreases n - j,
    {
        let (k, p) = e[j];
        let ghost before = b@;
        write_ptr(b, 8 + 6 * (k as usize), p);
        proof {
            assert forall|t: int| 0 <= t < j + 1 implies direct_ptr(b@, (#[trigger] e@[t]).0 as int)
                == e@[t].1 by {
                if t < j {
                    assert(e@[t].0 != e@[j as int].0);
                    assert(direct_ptr(before, e@[t].0 as int) == e@[t].1);
                }
            }
            assert forall|k2: int|
                0 <= k2 < 256 && (forall|t: int| 0 <= t < j + 1 ==> (#[trigger] e@[t]).0 != k2) implies (
            #[trigger] direct_ptr(b@, k2)).spec_is_null() by {
                assert(e@[j as int].0 != k2);
                assert(direct_ptr(before, k2).spec_is_null());
            }
        }
        j += 1;
    }
    proof {
        let d = direct_entries(b@, 256);
        let m = map_of(e@);
        lemma_direct_entries(b@, 256);
        lemma_map_of_entries(e@);
        assert forall|i: int| 0 <= i < d.len() implies m.dom().contains((#[trigger] d[i]).0) && m[d[i].0]
            == d[i].1 by {
            let k = d[i].0 as int;
            assert(!direct_ptr(b@, k).spec_is_null());
            if forall|t: int| 0 <= t < n ==> (#[trigger] e@[t]).0 != k {
                assert(direct_ptr(b@, k).spec_is_null());
            }
            let t = choose|t: int| 0 <= t < n && (#[trigger] e@[t]).0 == k;
            assert(m.dom().contains(e@[t].0));
        }
        assert forall|k: u8| m.dom().contains(k) implies exists|i: int|
            0 <= i < d.len() && (#[trigger] d[i]).0 == k by {
            let t = choose|t: int| 0 <= t < e@.len() && (#[trigger] e@[t]).0 == k;
            assert(direct_ptr(b@, e@[t].0 as int) == e@[t].1);
            assert(!direct_ptr(b@, k as int).spec_is_null());
        }
        lemma_entries_map_of(d, m);
    }
}

/// Writes the pairs of `e` into an index of slot numbers and the dense
/// pointer array behind it: pair `j` goes to slot `j`.
pub fn put_indexed(b: &mut Vec<u8>, e: &Vec<(u8, Pointer)>)
    requires
        264 + 6 * 48 <= old(b)@.len(),
        e@.len() <= 48,
        keys_distinct(e@),
        forall|i: int| 0 <= i < e@.len() ==> !(#[trigger] e@[i]).1.spec_is_null(),
    ensures
        final(b)@.len() == old(b)@.len(),
        forall|i: int|
            0 <= i < old(b)@.len() && !(8 <= i < 264 + 6 * 48) ==> #[trigger] final(b)@[i] == old(
                b,
            )@[i],
        indexed_valid(final(b)@),
        keys_distinct(indexed_entries(final(b)@, 256)),
        indexed_entries(final(b)@, 256).len() <= 48,
        map_of(indexed_entries(final(b)@, 256)) == map_of(e@),
{
    let n = e.len();
    let mut k: usize = 0;
    while k < 256
        invariant
            k <= 256,
            264 + 6 * 48 <= b@.len(),
            b@.len() == old(b)@.len(),
            forall|i: int|
                0 <= i < b@.len() && !(8 <= i < 264 + 6 * 48) ==> #[trigger] b@[i] == old(b)@[i],
            forall|t: int| 0 <= t < k ==> #[trigger] index_byte(b@, t) == ABSENT,
        decreases 256 - k,
    {
        let ghost before = b@;
        b[8 + k] = ABSENT;
        proof {
            assert forall|t: int| 0 <= t < k + 1 implies #[trigger] index_byte(b@, t) == ABSENT by {
                if t < k {
                    assert(index_byte(before, t) == ABSENT);
                }
            }
        }
        k += 1;
    }
    let mut j: usize = 0;
    while j < n
        invariant
            j <= n,
            n == e@.len(),
            n <= 48,
            264 + 6 * 48 <= b@.len(),
            b@.len() == old(b)@.len(),
            keys_distinct(e@),
            forall|i: int| 0 <= i < e@.len() ==> !(#[trigger] e@[i]).1.spec_is_null(),
            forall|i: int|
                0 <= i < b@.len() && !(8 <= i < 264 + 6 * 48) ==> #[trigger] b@[i] == old(b)@[i],
            forall|t: int|
                0 <= t < j ==> index_byte(b@, (#[trigger] e@[t]).0 as int) == t && dense_ptr(b@, t)
                    == e@[t].1,
            forall|k: int|
                0 <= k < 256 && (forall|t: int| 0 <= t < j ==> (#[trigger] e@[t]).0 != k)
                    ==> (#[trigger] index_byte(b@, k)) == ABSENT,
        decreases n - j,
    {
        let (k, p) = e[j];
        let ghost before = b@;
        b[8 + k as usize] = j as u8;
        write_ptr(b, 264 + 6 * j, p);
        proof {
            assert forall|t: int| 0 <= t < j + 1 implies index_byte(b@, (#[trigger] e@[t]).0 as int)
                == t && dense_ptr(b@, t) == e@[t].1 by {
                if t < j {
                    assert(e@[t].0 != e@[j as int].0);
                    assert(index_byte(before, e@[t].0 as int) == t);
                    assert(dense_ptr(before, t) == e@[t].1);
                }
            }
            assert forall|k2: int|
                0 <= k2 < 256 && (forall|t: int| 0 <= t < j + 1 ==> (#[trigger] e@[t]).0 != k2) implies (
            #[trigger] index_byte(b@, k2)) == ABSENT by {
                assert(e@[j as int].0 != k2);
                assert(index_byte(before, k2) == ABSENT);
            }
        }
        j += 1;
    }
    proof {
        let d = indexed_entries(b@, 256);
        let m = map_of(e@);
        lemma_indexed_entries(b@, 256);
        lemma_map_of_entries(e@);
        // which pair a key with a slot number belongs to
        assert forall|k: int| 0 <= k < 256 && (#[trigger] index_byte(b@, k)) != ABSENT implies exists|
            t: int,
        |
            0 <= t < n && (#[trigger] e@[t]).0 == k && index_byte(b@, k) == t by {
            if forall|t: int| 0 <= t < n ==> (#[trigger] e@[t]).0 != k {
                assert(index_byte(b@, k) == ABSENT);
            }
            let t = choose|t: int| 0 <= t < n && (#[trigger] e@[t]).0 == k;
            assert(index_byte(b@, e@[t].0 as int) == t);
        }
        assert forall|k: int| 0 <= k < 256 implies (#[trigger] index_byte(b@, k)) == ABSENT || (
        index_byte(b@, k) < 48 && !dense_ptr(b@, index_byte(b@, k) as int).spec_is_null()) by {
            if index_byte(b@, k) != ABSENT {
                let t = choose|t: int|
                    0 <= t < n && (#[trigger] e@[t]).0 == k && index_byte(b@, k) == t;
                assert(dense_ptr(b@, t) == e@[t].1);
            }
        }
        assert forall|i: int| 0 <= i < d.len() implies m.dom().contains((#[trigger] d[i]).0) && m[d[i].0]
            == d[i].1 by {
            let k = d[i].0 as int;
            assert(index_byte(b@, k) != ABSENT);
            let t = choose|t: int|
                0 <= t < n && (#[trigger] e@[t]).0 == k && index_byte(b@, k) == t;
            assert(dense_ptr(b@, t) == e@[t].1);
            assert(m.dom().contains(e@[t].0));
        }
        assert forall|k: u8| m.dom().contains(k) implies exists|i: int|
            0 <= i < d.len() && (#[trigger] d[i]).0 == k by {
            let t = choose|t: int| 0 <= t < e@.len() && (#[trigger] e@[t]).0 == k;
            assert(index_byte(b@, e@[t].0 as int) == t);
            assert(index_byte(b@, k as int) != ABSENT);
        }
        lemma_entries_map_of(d, m);
        lemma_map_of_entries(d);
    }
}

/// What the wire form of a node says: all of the node but its values, of
/// which it tells the number.
pub struct Record {
    pub tp: NodeType,
    pub edge: Seq<u8>,
    pub children: Map<u8, Pointer>,
    pub parent: Pointer,
    pub value_count: u32,
}

/// The number of values that the wire form of a node tells: the number of
/// its values, or the greatest number that four bytes can tell.
pub open spec fn spec_value_count(v: NodeView) -> u32 {
    if v.values.len() > u32::MAX {
        u32::MAX
    } else {
        v.values.len() as u32
    }
}

/// What the wire form of the node says.
pub open spec fn record_of(v: NodeView) -> Record {
    Record {
        tp: v.tp,
        edge: v.edge,
        children: v.children,
        parent: v.parent,
        value_count: spec_value_count(v),
    }
}

/// Offset of the edge in the wire form of a node of class `tp`.
pub open spec fn spec_edge_offset(tp: NodeType) -> int {
    match tp {
        NodeType::N4 => NODE4_EDGE_OFFSET as int,
        NodeType::N16 => NODE16_EDGE_OFFSET as int,
        NodeType::N48 => NODE48_EDGE_OFFSET as int,
        NodeType::N256 => NODE256_EDGE_OFFSET as int,
    }
}

/// The pairs that the child table in the wire form of a node of class `tp`
/// spells.
pub open spec fn spec_entries(b: Seq<u8>, tp: NodeType) -> Seq<(u8, Pointer)> {
    match tp {
        NodeType::N4 => linear_entries(b, 4, 4),
        NodeType::N16 => linear_entries(b, 16, 16),
        NodeType::N48 => indexed_entries(b, 256),
        NodeType::N256 => direct_entries(b, 256),
    }
}

/// The number of values that the wire form tells.
pub open spec fn spec_count_at(b: Seq<u8>, tp: NodeType) -> u32 {
    let o = spec_edge_offset(tp) + MAX_EDGE_LEN;
    spec_be_u32(b[o + 1], b[o + 2], b[o + 3], b[o + 4])
}

/// The bytes are the wire form of a node of class `tp`: they fill a slot
/// of the class, the state byte says that the slot holds a node, the edge
/// is not too long, the child table names no key twice and no more
/// children than the class holds, and the type of the value reference goes
/// with the number of values.
pub open spec fn spec_well_formed(b: Seq<u8>, tp: NodeType) -> bool {
    let o = spec_edge_offset(tp) + MAX_EDGE_LEN;
    &&& b.len() >= tp.spec_size()
    &&& b[0] == ACTIVE
    &&& b[1] <= MAX_EDGE_LEN
    &&& tp == NodeType::N48 ==> indexed_valid(b)
    &&& keys_distinct(spec_entries(b, tp))
    &&& spec_entries(b, tp).len() <= tp.spec_capacity()
    &&& (b[o] == NONE && spec_count_at(b, tp) == 0) || (b[o] == DATA && spec_count_at(b, tp) > 0)
}

/// What the bytes say as the wire form of a node of class `tp`; none where
/// they are no such wire form.
pub open spec fn spec_decode(b: Seq<u8>, tp: NodeType) -> Option<Record> {
    if spec_well_formed(b, tp) {
        Some(
            Record {
                tp,
                edge: b.subrange(spec_edge_offset(tp), spec_edge_offset(tp) + b[1]),
                children: map_of(spec_entries(b, tp)),
                parent: spec_ptr_at(b, 2),
                value_count: spec_count_at(b, tp),
            },
        )
    } else {
        None
    }
}

/// Offset of the edge in the wire form of a node of class `tp`.
pub fn edge_offset(tp: NodeType) -> (o: usize)
    ensures
        o == spec_edge_offset(tp),
        8 <= o,
        o + 24 <= tp.spec_size(),
{
    match tp {
        NodeType::N4 => NODE4_EDGE_OFFSET,
        NodeType::N16 => NODE16_EDGE_OFFSET,
        NodeType::N48 => NODE48_EDGE_OFFSET,
        NodeType::N256 => NODE256_EDGE_OFFSET,
    }
}

/// `n` zero bytes.
fn zeros(n: usize) -> (v: Vec<u8>)
    ensures
        v@.len() == n,
        forall|i: int| 0 <= i < n ==> #[trigger] v@[i] == 0,
{
    let mut v: Vec<u8> = Vec::new();
    let mut i: usize = 0;
    while i < n
        invariant
            i <= n,
            v@.len() == i,
            forall|j: int| 0 <= j < i ==> #[trigger] v@[j] == 0,
        decreases n - i,
    {
        v.push(0);
        i += 1;
    }
    v
}

/// The head, the edge and the value reference of a wire form are what they
/// were where only the bytes of the child table have changed.
proof fn lemma_table_frame(before: Seq<u8>, after: Seq<u8>, tp: NodeType)
    requires
        after.len() == before.len(),
        before.len() >= tp.spec_size(),
        before[1] <= MAX_EDGE_LEN,
        forall|i: int|
            0 <= i < before.len() && !(8 <= i < spec_edge_offset(tp)) ==> #[trigger] after[i]
                == before[i],
    ensures
        after[0] == before[0],
        after[1] == before[1],
        spec_ptr_at(after, 2) == spec_ptr_at(before, 2),
        spec_count_at(after, tp) == spec_count_at(before, tp),
        after[spec_edge_offset(tp) + MAX_EDGE_LEN] == before[spec_edge_offset(tp) + MAX_EDGE_LEN],
        after.subrange(spec_edge_offset(tp), spec_edge_offset(tp) + before[1]) == before.subrange(
            spec_edge_offset(tp),
            spec_edge_offset(tp) + before[1],
        ),
{
    let eoff = spec_edge_offset(tp);
    assert(after[2] == before[2] && after[3] == before[3] && after[4] == before[4] && after[5]
        == before[5] && after[6] == before[6] && after[7] == before[7]);
    let o = eoff + MAX_EDGE_LEN;
    assert(after[o + 1] == before[o + 1] && after[o + 2] == before[o + 2] && after[o + 3]
        == before[o + 3] && after[o + 4] == before[o + 4]);
    assert(after.subrange(eoff, eoff + before[1]) =~= before.subrange(eoff, eoff + before[1]));
}

/// Writes the bytes of `edge` at `off`, and leaves every other byte as it
/// is.
fn put_edge(b: &mut Vec<u8>, off: usize, edge: &[u8])
    requires
        off + edge@.len() <= old(b)@.len(),
    ensures
        final(b)@.len() == old(b)@.len(),
        final(b)@.subrange(off as int, off + edge@.len()) == edge@,
        forall|i: int|
            0 <= i < old(b)@.len() && !(off <= i < off + edge@.len()) ==> #[trigger] final(b)@[i]
                == old(b)@[i],
{
    let n = edge.len();
    let len = b.len();
    let mut j: usize = 0;
    while j < n
        invariant
            j <= n,
            n == edge@.len(),
            off + n <= len,
            b@.len() == len,
            len == old(b)@.len(),
            forall|i: int| 0 <= i < j ==> #[trigger] b@[off + i] == edge@[i],
            forall|i: int|
                0 <= i < b@.len() && !(off <= i < off + j) ==> #[trigger] b@[i] == old(b)@[i],
        decreases n - j,
    {
        b[off + j] = edge[j];
        j += 1;
    }
    proof {
        assert forall|i: int| 0 <= i < n implies b@.subrange(off as int, off + n)[i]
            == edge@[i] by {
            assert(b@[off + i] == edge@[i]);
        }
        assert(b@.subrange(off as int, off + n) =~= edge@);
    }
}

/// Writes the value reference for `count` values at `off`: the type byte
/// and the number, most significant byte first. Leaves every other byte as
/// it is.
fn put_count(b: &mut Vec<u8>, off: usize, count: u32)
    requires
        off + 5 <= old(b)@.len(),
    ensures
        final(b)@.len() == old(b)@.len(),
        final(b)@[off as int] == if count == 0 {
            NONE
        } else {
            DATA
        },
        spec_be_u32(
            final(b)@[off + 1],
            final(b)@[off + 2],
            final(b)@[off + 3],
            final(b)@[off + 4],
        ) == count,
        forall|i: int|
            0 <= i < old(b)@.len() && !(off <= i < off + 5) ==> #[trigger] final(b)@[i] == old(
                b,
            )@[i],
{
    assert(b.len() <= usize::MAX);
    b[off] = if count == 0 {
        NONE
    } else {
        DATA
    };
    b[off + 1] = (count / 0x100_0000) as u8;
    b[off + 2] = (count / 0x1_0000 % 256) as u8;
    b[off + 3] = (count / 0x100 % 256) as u8;
    b[off + 4] = (count % 256) as u8;
}

/// The wire form of the node with an empty child table.
fn encode_head(n: &Node) -> (b: Vec<u8>)
    requires
        n.wf(),
    ensures
        b@.len() == n@.tp.spec_size(),
        b@[0] == ACTIVE,
        b@[1] == n@.edge.len(),
        b@[1] <= MAX_EDGE_LEN,
        spec_ptr_at(b@, 2) == n@.parent,
        forall|i: int| 8 <= i < spec_edge_offset(n@.tp) ==> #[trigger] b@[i] == 0,
        b@.subrange(spec_edge_offset(n@.tp), spec_edge_offset(n@.tp) + b@[1]) == n@.edge,
        spec_count_at(b@, n@.tp) == spec_value_count(n@),
        b@[spec_edge_offset(n@.tp) + MAX_EDGE_LEN] == if spec_value_count(n@) == 0 {
            NONE
        } else {
            DATA
        },
{
    let tp = n.node_type();
    let size = tp.size() as usize;
    let eoff = edge_offset(tp);
    proof {
        n.lemma_wf();
    }
    let mut b = zeros(size);
    b[0] = ACTIVE;
    let edge = n.get_edge();
    let el = edge.len();
    b[1] = el as u8;
    write_ptr(&mut b, 2, n.get_parent());
    let ghost b1 = b@;
    put_edge(&mut b, eoff, edge.as_slice());
    let ghost b2 = b@;
    let values = n.get_values();
    let count: u32 = if values.len() > u32::MAX as usize {
        u32::MAX
    } else {
        values.len() as u32
    };
    put_count(&mut b, eoff + MAX_EDGE_LEN, count);
    proof {
        assert(crate::node::values_view(values@).len() == values@.len());
        assert(b@[0] == b1[0] && b@[1] == b1[1]);
        assert(b@[2] == b1[2] && b@[3] == b1[3] && b@[4] == b1[4] && b@[5] == b1[5] && b@[6]
            == b1[6] && b@[7] == b1[7]);
        assert forall|i: int| 8 <= i < eoff implies #[trigger] b@[i] == 0 by {
            assert(b@[i] == b2[i]);
            assert(b2[i] == b1[i]);
        }
        assert(b@.subrange(eoff as int, eoff + el) =~= b2.subrange(eoff as int, eoff + el));
    }
    b
}

/// The wire form of the node: as many bytes as a slot of its class has,
/// which say what the node says but for its values.
pub fn encode(n: &Node) -> (b: Vec<u8>)
    requires
        n.wf(),
    ensures
        b@.len() == n@.tp.spec_size(),
        spec_decode(b@, n@.tp) == Some(record_of(n@)),
{
    let tp = n.node_type();
    let mut b = encode_head(n);
    let e = n.get_children();
    proof {
        n.lemma_wf();
        assert forall|i: int| 0 <= i < e@.len() implies !(#[trigger] e@[i]).1.spec_is_null() by {
            assert(n@.children.dom().contains(e@[i].0));
        }
        lemma_entries_map_of(e@, n@.children);
    }
    let ghost before = b@;
    match tp {
        NodeType::N4 => {
            put_linear(&mut b, 4, &e);
        },
        NodeType::N16 => {
            put_linear(&mut b, 16, &e);
        },
        NodeType::N48 => {
            put_indexed(&mut b, &e);
        },
        NodeType::N256 => {
            put_direct(&mut b, &e);
        },
    }
    proof {
        lemma_table_frame(before, b@, tp);
    }
    b
}

/// Reads a node of class `tp` from its wire form. The node has no values;
/// the number of values that the wire form tells comes with it. None where
/// the bytes are no wire form of a node of the class.
pub fn decode(b: &[u8], tp: NodeType) -> (r: Option<(Node, u32)>)
    ensures
        match r {
            Some((n, c)) => {
                &&& n.wf()
                &&& n@.values == Seq::<Seq<u8>>::empty()
                &&& spec_decode(b@, tp) == Some(
                    Record {
                        tp: n@.tp,
                        edge: n@.edge,
                        children: n@.children,
                        parent: n@.parent,
                        value_count: c,
                    },
                )
            },
            None => spec_decode(b@, tp) is None,
        },
{
    let size = tp.size() as usize;
    let eoff = edge_offset(tp);
    if b.len() < size {
        return None;
    }
    if b[0] != ACTIVE {
        return None;
    }
    let el = b[1] as usize;
    if el > MAX_EDGE_LEN {
        return None;
    }
    let o = eoff + MAX_EDGE_LEN;
    let count = be_u32(b[o + 1], b[o + 2], b[o + 3], b[o + 4]);
    if !((b[o] == NONE && count == 0) || (b[o] == DATA && count > 0)) {
        return None;
    }
    let parent = read_ptr(b, 2);
    let edge = vstd::slice::slice_subrange(b, eoff, eoff + el);
    match tp {
        NodeType::N4 => {
            let e = parse_linear(b, 4);
            match build(Node4::new(), &e) {
                None => None,
                Some(mut n) => {
                    n.set_edge(edge);
                    n.set_parent(parent);
                    Some((Node::N4(n), count))
                },
            }
        },
        NodeType::N16 => {
            let e = parse_linear(b, 16);
            match build(Node16::new(), &e) {
                None => None,
                Some(mut n) => {
                    n.set_edge(edge);
                    n.set_parent(parent);
                    Some((Node::N16(n), count))
                },
            }
        },
        NodeType::N48 => {
            match parse_indexed(b) {
                None => None,
                Some(e) => match build(Node48::new(), &e) {
                    None => None,
                    Some(mut n) => {
                        n.set_edge(edge);
                        n.set_parent(parent);
                        Some((Node::N48(n), count))
                    },
                },
            }
        },
        NodeType::N256 => {
            let e = parse_direct(b);
            match build(Node256::new(), &e) {
                None => None,
                Some(mut n) => {
                    n.set_edge(edge);
                    n.set_parent(parent);
                    Some((Node::N256(n), count))
                },
            }
        },
    }
}

} // verus!
