//! The child tables of the node size classes.
//!
//! A child table maps a key byte to the pointer of a child. The three
//! layouts differ in how they find the slot of a key: a linear table scans
//! a short key array, an indexed table looks the slot up in an array of 256
//! slot numbers, a direct table has one slot per key.
use crate::codec::Pointer;
use vstd::prelude::*;

verus! {

/// How an operation on a node ended.
#[derive(Clone, Copy, Debug, PartialEq, Eq, Structural)]
pub enum NodeOpRes {
    /// Done.
    Succ,
    /// Nothing was changed: the node has no room for what was to be stored.
    NotEnoughSpace,
    /// Nothing was changed: the key already has a child.
    ChildExists,
}

/// Number of pointers among the first `n` of `ptrs` that are not null.
pub open spec fn count_used(ptrs: Seq<Pointer>, n: int) -> int
    decreases n,
{
    if n <= 0 {
        0
    } else {
        count_used(ptrs, n - 1) + if ptrs[n - 1].spec_is_null() {
            0int
        } else {
            1int
        }
    }
}

proof fn lemma_count_bounds(ptrs: Seq<Pointer>, n: int)
    requires
        0 <= n <= ptrs.len(),
    ensures
        0 <= count_used(ptrs, n) <= n,
        count_used(ptrs, n) == n <==> forall|i: int| 0 <= i < n ==> !(#[trigger] ptrs[i]).spec_is_null(),
        count_used(ptrs, n) == 0 <==> forall|i: int| 0 <= i < n ==> (#[trigger] ptrs[i]).spec_is_null(),
    decreases n,
{
    if n > 0 {
        lemma_count_bounds(ptrs, n - 1);
    }
}

/// Changing one pointer changes the count by what that pointer counts.
proof fn lemma_count_update(ptrs: Seq<Pointer>, i: int, p: Pointer, n: int)
    requires
        0 <= i < ptrs.len(),
        0 <= n <= ptrs.len(),
    ensures
        count_used(ptrs.update(i, p), n) == count_used(ptrs, n) + if i < n {
            (if p.spec_is_null() {
                0int
            } else {
                1int
            }) - (if ptrs[i].spec_is_null() {
                0int
            } else {
                1int
            })
        } else {
            0int
        },
    decreases n,
{
    if n > 0 {
        lemma_count_update(ptrs, i, p, n - 1);
    }
}

/// The uniform operation set of the child tables.
pub trait ChildTable: Sized {
    /// The children by key.
    spec fn children(&self) -> Map<u8, Pointer>;

    /// The table is well formed.
    spec fn wf(&self) -> bool;

    /// Number of children that the table can hold.
    spec fn spec_capacity(&self) -> nat;

    /// A well-formed table holds finitely many children, no more than its
    /// capacity, and no null pointer.
    proof fn lemma_wf(&self)
        requires
            self.wf(),
        ensures
            self.children().dom().finite(),
            self.children().dom().len() <= self.spec_capacity(),
            forall|b: u8|
                self.children().dom().contains(b) ==> !(#[trigger] self.children()[b]).spec_is_null(),
    ;

    /// The child of `key`.
    fn get(&self, key: u8) -> (r: Option<Pointer>)
        requires
            self.wf(),
        ensures
            r == if self.children().dom().contains(key) {
                Some(self.children()[key])
            } else {
                None
            },
    ;

    /// Stores `ptr` as the child of `key`, where `key` has no child yet and
    /// the table is not full.
    fn set(&mut self, key: u8, ptr: Pointer) -> (r: NodeOpRes)
        requires
            old(self).wf(),
            !ptr.spec_is_null(),
        ensures
            final(self).wf(),
            final(self).spec_capacity() == old(self).spec_capacity(),
            r == if old(self).children().dom().contains(key) {
                NodeOpRes::ChildExists
            } else if old(self).children().dom().len() >= old(self).spec_capacity() {
                NodeOpRes::NotEnoughSpace
            } else {
                NodeOpRes::Succ
            },
            final(self).children() == if r == NodeOpRes::Succ {
                old(self).children().insert(key, ptr)
            } else {
                old(self).children()
            },
    ;

    /// Takes the child of `key` out of the table.
    fn del(&mut self, key: u8)
        requires
            old(self).wf(),
        ensures
            final(self).wf(),
            final(self).spec_capacity() == old(self).spec_capacity(),
            final(self).children() == old(self).children().remove(key),
    ;

    /// Number of children.
    fn count(&self) -> (n: usize)
        requires
            self.wf(),
        ensures
            n == self.children().dom().len(),
    ;

    /// The children with their keys, each key once.
    fn entries(&self) -> (r: Vec<(u8, Pointer)>)
        requires
            self.wf(),
        ensures
            entries_of(r@, self.children()),
    ;
}

/// `e` lists the pairs of `m`, each key once.
pub open spec fn entries_of(e: Seq<(u8, Pointer)>, m: Map<u8, Pointer>) -> bool {
    &&& forall|i: int| 0 <= i < e.len() ==> m.dom().contains((#[trigger] e[i]).0) && m[e[i].0] == e[i].1
    &&& forall|i: int, j: int| 0 <= i < j < e.len() ==> (#[trigger] e[i]).0 != (#[trigger] e[j]).0
    &&& forall|b: u8| m.dom().contains(b) ==> exists|i: int| 0 <= i < e.len() && (#[trigger] e[i]).0 == b
}

/// Place of the first taken slot among the first `n` whose key is `key`;
/// `n` where there is none.
pub open spec fn find_key(keys: Seq<u8>, ptrs: Seq<Pointer>, key: u8, n: int) -> int
    decreases n,
{
    if n <= 0 {
        0
    } else {
        let r = find_key(keys, ptrs, key, n - 1);
        if r < n - 1 {
            r
        } else if !ptrs[n - 1].spec_is_null() && keys[n - 1] == key {
            n - 1
        } else {
            n
        }
    }
}

proof fn lemma_find_key(keys: Seq<u8>, ptrs: Seq<Pointer>, key: u8, n: int)
    requires
        0 <= n,
    ensures
        0 <= find_key(keys, ptrs, key, n) <= n,
        find_key(keys, ptrs, key, n) < n ==> !ptrs[find_key(keys, ptrs, key, n)].spec_is_null()
            && keys[find_key(keys, ptrs, key, n)] == key,
        forall|j: int|
            0 <= j < find_key(keys, ptrs, key, n) ==> (#[trigger] ptrs[j]).spec_is_null() || keys[j]
                != key,
    decreases n,
{
    if n > 0 {
        lemma_find_key(keys, ptrs, key, n - 1);
    }
}

proof fn lemma_find_key_is(keys: Seq<u8>, ptrs: Seq<Pointer>, key: u8, n: int, i: int)
    requires
        0 <= i <= n,
        forall|j: int| 0 <= j < i ==> (#[trigger] ptrs[j]).spec_is_null() || keys[j] != key,
        i < n ==> !ptrs[i].spec_is_null() && keys[i] == key,
    ensures
        find_key(keys, ptrs, key, n) == i,
    decreases n,
{
    if n > 0 {
        if i < n {
            lemma_find_key_is(keys, ptrs, key, n - 1, i);
        } else {
            lemma_find_key_is(keys, ptrs, key, n - 1, n - 1);
        }
    }
}

/// A child table that scans a short key array: slot `i` holds the key
/// `keys[i]` and the pointer `ptrs[i]`, and is free where the pointer is
/// null.
pub struct LinearTable {
    keys: Vec<u8>,
    ptrs: Vec<Pointer>,
}

impl LinearTable {
    spec fn slot(&self, key: u8) -> int {
        find_key(self.keys@, self.ptrs@, key, self.ptrs@.len() as int)
    }

    spec fn unique(&self) -> bool {
        forall|i: int, j: int|
            0 <= i < j < self.ptrs@.len() && !(#[trigger] self.ptrs@[i]).spec_is_null() && !(
            #[trigger] self.ptrs@[j]).spec_is_null() ==> self.keys@[i] != self.keys@[j]
    }

    /// An empty table of `cap` slots.
    pub fn new(cap: usize) -> (t: LinearTable)
        ensures
            t.wf(),
            t.spec_capacity() == cap,
            t.children() == Map::<u8, Pointer>::empty(),
    {
        let mut keys: Vec<u8> = Vec::new();
        let mut ptrs: Vec<Pointer> = Vec::new();
        let mut i: usize = 0;
        while i < cap
            invariant
                i <= cap,
                keys@.len() == i,
                ptrs@.len() == i,
                forall|j: int| 0 <= j < i ==> (#[trigger] ptrs@[j]).spec_is_null(),
            decreases cap - i,
        {
            keys.push(0);
            ptrs.push(Pointer::null());
            i += 1;
        }
        let t = LinearTable { keys, ptrs };
        proof {
            lemma_count_bounds(t.ptrs@, cap as int);
            assert forall|b: u8| !t.children().dom().contains(b) by {
                lemma_find_key(t.keys@, t.ptrs@, b, cap as int);
            }
            assert(t.children() =~= Map::<u8, Pointer>::empty());
        }
        t
    }

    /// What the table holds for `b` after slot `i` was given the key `key`
    /// and the pointer `ptr`.
    proof fn lemma_slot_written(old: &Self, new: &Self, i: int, key: u8, ptr: Pointer)
        requires
            old.wf(),
            0 <= i < old.ptrs@.len(),
            new.keys@ == old.keys@.update(i, key),
            new.ptrs@ == old.ptrs@.update(i, ptr),
            old.ptrs@[i].spec_is_null(),
            !ptr.spec_is_null(),
            !old.children().dom().contains(key),
        ensures
            new.wf(),
            new.children() == old.children().insert(key, ptr),
    {
        let n = old.ptrs@.len() as int;
        lemma_find_key(old.keys@, old.ptrs@, key, n);
        assert forall|a: int, b: int|
            0 <= a < b < n && !(#[trigger] new.ptrs@[a]).spec_is_null() && !(
            #[trigger] new.ptrs@[b]).spec_is_null() implies new.keys@[a] != new.keys@[b] by {
            if a != i && b != i {
                assert(!old.ptrs@[a].spec_is_null() && !old.ptrs@[b].spec_is_null());
            } else if a == i {
                assert(!old.ptrs@[b].spec_is_null());
            } else {
                assert(!old.ptrs@[a].spec_is_null());
            }
        }
        let target = old.children().insert(key, ptr);
        assert forall|b: u8|
            #![trigger new.children().dom().contains(b)]
            #![trigger target.dom().contains(b)]
            new.children().dom().contains(b) == target.dom().contains(b) && (
            new.children().dom().contains(b) ==> new.children()[b] == target[b]) by {
            lemma_find_key(old.keys@, old.ptrs@, b, n);
            lemma_find_key(new.keys@, new.ptrs@, b, n);
            let so = old.slot(b);
            let sn = new.slot(b);
            if b == key {
                assert(sn <= i) by {
                    if sn > i {
                        assert(new.ptrs@[i].spec_is_null() || new.keys@[i] != b);
                    }
                }
                if sn < i {
                    assert(!old.ptrs@[sn].spec_is_null() && old.keys@[sn] == key);
                    assert(old.ptrs@[sn].spec_is_null() || old.keys@[sn] != key);
                }
            } else {
                if so < n {
                    assert(so != i);
                    assert(!new.ptrs@[so].spec_is_null() && new.keys@[so] == b);
                    if sn > so {
                        assert(new.ptrs@[so].spec_is_null() || new.keys@[so] != b);
                    }
                    if sn < so {
                        assert(sn != i);
                        assert(old.ptrs@[sn].spec_is_null() || old.keys@[sn] != b);
                    }
                } else {
                    if sn < n {
                        assert(sn != i);
                        assert(old.ptrs@[sn].spec_is_null() || old.keys@[sn] != b);
                    }
                }
            }
        }
        assert(new.children() =~= old.children().insert(key, ptr));
        lemma_count_update(old.ptrs@, i, ptr, n);
    }

    /// What the table holds for `b` after slot `i` was freed.
    proof fn lemma_slot_freed(old: &Self, new: &Self, i: int)
        requires
            old.wf(),
            0 <= i < old.ptrs@.len(),
            new.keys@ == old.keys@,
            new.ptrs@ == old.ptrs@.update(i, Pointer { tag: 0, info: 0, addr: 0 }),
            !old.ptrs@[i].spec_is_null(),
        ensures
            new.wf(),
            new.children() == old.children().remove(old.keys@[i]),
    {
        let n = old.ptrs@.len() as int;
        let key = old.keys@[i];
        assert forall|a: int, b: int|
            0 <= a < b < n && !(#[trigger] new.ptrs@[a]).spec_is_null() && !(
            #[trigger] new.ptrs@[b]).spec_is_null() implies new.keys@[a] != new.keys@[b] by {
            assert(!old.ptrs@[a].spec_is_null() && !old.ptrs@[b].spec_is_null());
        }
        let target = old.children().remove(key);
        assert forall|b: u8|
            #![trigger new.children().dom().contains(b)]
            #![trigger target.dom().contains(b)]
            new.children().dom().contains(b) == target.dom().contains(b) && (
            new.children().dom().contains(b) ==> new.children()[b] == target[b]) by {
            lemma_find_key(old.keys@, old.ptrs@, b, n);
            lemma_find_key(new.keys@, new.ptrs@, b, n);
            let so = old.slot(b);
            let sn = new.slot(b);
            if b == key {
                if sn < n {
                    assert(sn != i);
                    assert(!old.ptrs@[sn].spec_is_null());
                    if sn < i {
                        assert(old.keys@[sn] != old.keys@[i]);
                    } else {
                        assert(old.keys@[i] != old.keys@[sn]);
                    }
                }
            } else {
                if so < n {
                    assert(so != i);
                    assert(!new.ptrs@[so].spec_is_null() && new.keys@[so] == b);
                    if sn > so {
                        assert(new.ptrs@[so].spec_is_null() || new.keys@[so] != b);
                    }
                    if sn < so {
                        assert(old.ptrs@[sn].spec_is_null() || old.keys@[sn] != b);
                    }
                } else {
                    if sn < n {
                        assert(old.ptrs@[sn].spec_is_null() || old.keys@[sn] != b);
                    }
                }
            }
        }
        assert(new.children() =~= old.children().remove(key));
        assert(old.children().dom().contains(key)) by {
            lemma_find_key(old.keys@, old.ptrs@, key, n);
            if old.slot(key) >= n {
                assert(old.ptrs@[i].spec_is_null() || old.keys@[i] != key);
            }
        }
        lemma_count_update(old.ptrs@, i, Pointer { tag: 0, info: 0, addr: 0 }, n);
    }

    /// The slot of `key`, or the number of slots where `key` has no child.
    fn find(&self, key: u8) -> (i: usize)
        requires
            self.wf(),
        ensures
            i == self.slot(key),
            i <= self.ptrs@.len(),
            i < self.ptrs@.len() <==> self.children().dom().contains(key),
            i < self.ptrs@.len() ==> self.children()[key] == self.ptrs@[i as int]
                && self.keys@[i as int] == key && !self.ptrs@[i as int].spec_is_null(),
    {
        let n = self.ptrs.len();
        let mut i: usize = 0;
        while i < n && !(!self.ptrs[i].is_null() && self.keys[i] == key)
            invariant
                i <= n,
                n == self.ptrs@.len(),
                n == self.keys@.len(),
                forall|j: int|
                    0 <= j < i ==> (#[trigger] self.ptrs@[j]).spec_is_null() || self.keys@[j] != key,
            decreases n - i,
        {
            i += 1;
        }
        proof {
            lemma_find_key_is(self.keys@, self.ptrs@, key, n as int, i as int);
        }
        i
    }

    /// The first free slot, or the number of slots where none is free.
    fn find_free(&self) -> (i: usize)
        requires
            self.wf(),
        ensures
            i <= self.ptrs@.len(),
            i < self.ptrs@.len() ==> self.ptrs@[i as int].spec_is_null(),
            i == self.ptrs@.len() <==> self.children().dom().len() == self.spec_capacity(),
    {
        let n = self.ptrs.len();
        let mut i: usize = 0;
        while i < n && !self.ptrs[i].is_null()
            invariant
                i <= n,
                n == self.ptrs@.len(),
                forall|j: int| 0 <= j < i ==> !(#[trigger] self.ptrs@[j]).spec_is_null(),
            decreases n - i,
        {
            i += 1;
        }
        proof {
            lemma_count_bounds(self.ptrs@, n as int);
        }
        i
    }
}

impl ChildTable for LinearTable {
    closed spec fn children(&self) -> Map<u8, Pointer> {
        Map::new(
            |b: u8| self.slot(b) < self.ptrs@.len(),
            |b: u8| self.ptrs@[self.slot(b)],
        )
    }

    closed spec fn wf(&self) -> bool {
        &&& self.keys@.len() == self.ptrs@.len()
        &&& self.unique()
        &&& self.children().dom().finite()
        &&& self.children().dom().len() == count_used(self.ptrs@, self.ptrs@.len() as int)
    }

    closed spec fn spec_capacity(&self) -> nat {
        self.ptrs@.len()
    }

    proof fn lemma_wf(&self) {
        lemma_count_bounds(self.ptrs@, self.ptrs@.len() as int);
        assert forall|b: u8| self.children().dom().contains(b) implies !(
        #[trigger] self.children()[b]).spec_is_null() by {
            lemma_find_key(self.keys@, self.ptrs@, b, self.ptrs@.len() as int);
        }
    }

    fn get(&self, key: u8) -> (r: Option<Pointer>) {
        let i = self.find(key);
        if i < self.ptrs.len() {
            Some(self.ptrs[i])
        } else {
            None
        }
    }

    fn set(&mut self, key: u8, ptr: Pointer) -> (r: NodeOpRes) {
        let n = self.ptrs.len();
        proof {
            self.lemma_wf();
        }
        if self.find(key) < n {
            return NodeOpRes::ChildExists;
        }
        let i = self.find_free();
        if i >= n {
            return NodeOpRes::NotEnoughSpace;
        }
        self.keys[i] = key;
        self.ptrs[i] = ptr;
        proof {
            Self::lemma_slot_written(old(self), self, i as int, key, ptr);
        }
        NodeOpRes::Succ
    }

    fn del(&mut self, key: u8) {
        let i = self.find(key);
        if i < self.ptrs.len() {
            self.ptrs[i] = Pointer::null();
            proof {
                Self::lemma_slot_freed(old(self), self, i as int);
            }
        } else {
            assert(self.children() =~= old(self).children().remove(key));
        }
    }

    fn count(&self) -> (n: usize) {
        let len = self.ptrs.len();
        let mut n: usize = 0;
        let mut i: usize = 0;
        while i < len
            invariant
                i <= len,
                len == self.ptrs@.len(),
                n == count_used(self.ptrs@, i as int),
                n <= i,
            decreases len - i,
        {
            if !self.ptrs[i].is_null() {
                n += 1;
            }
            i += 1;
        }
        n
    }

    fn entries(&self) -> (r: Vec<(u8, Pointer)>) {
        let len = self.ptrs.len();
        let mut r: Vec<(u8, Pointer)> = Vec::new();
        let ghost mut at: Seq<int> = Seq::empty();
        let mut i: usize = 0;
        while i < len
            invariant
                i <= len,
                len == self.ptrs@.len(),
                self.wf(),
                at.len() == r@.len(),
                forall|j: int|
                    0 <= j < r@.len() ==> 0 <= (#[trigger] at[j]) < i && !self.ptrs@[at[j]].spec_is_null()
                        && r@[j] == (self.keys@[at[j]], self.ptrs@[at[j]]),
                forall|j: int, k: int| 0 <= j < k < r@.len() ==> (#[trigger] at[j]) < (#[trigger] at[k]),
                forall|s: int|
                    0 <= s < i && !(#[trigger] self.ptrs@[s]).spec_is_null() ==> exists|j: int|
                        0 <= j < r@.len() && (#[trigger] at[j]) == s,
            decreases len - i,
        {
            if !self.ptrs[i].is_null() {
                let ghost r0 = r@;
                let ghost at0 = at;
                r.push((self.keys[i], self.ptrs[i]));
                proof {
                    at = at.push(i as int);
                    assert forall|s: int|
                        0 <= s < i + 1 && !(#[trigger] self.ptrs@[s]).spec_is_null() implies exists|
                        j: int,
                    |
                        0 <= j < r@.len() && (#[trigger] at[j]) == s by {
                        if s < i {
                            let j = choose|j: int| 0 <= j < r0.len() && (#[trigger] at0[j]) == s;
                            assert(at[j] == s);
                        } else {
                            assert(at[r0.len() as int] == s);
                        }
                    }
                }
            }
            i += 1;
        }
        proof {
            let m = self.children();
            let n = len as int;
            assert forall|j: int| 0 <= j < r@.len() implies m.dom().contains((#[trigger] r@[j]).0)
                && m[r@[j].0] == r@[j].1 by {
                let s = at[j];
                let b = self.keys@[s];
                lemma_find_key(self.keys@, self.ptrs@, b, n);
                let f = self.slot(b);
                if f > s {
                    assert(self.ptrs@[s].spec_is_null() || self.keys@[s] != b);
                }
                if f < s {
                    assert(!self.ptrs@[f].spec_is_null() && !self.ptrs@[s].spec_is_null());
                }
            }
            assert forall|j: int, k: int| 0 <= j < k < r@.len() implies (#[trigger] r@[j]).0 != (
            #[trigger] r@[k]).0 by {
                assert(at[j] < at[k]);
                assert(!self.ptrs@[at[j]].spec_is_null() && !self.ptrs@[at[k]].spec_is_null());
            }
            assert forall|b: u8| m.dom().contains(b) implies exists|j: int|
                0 <= j < r@.len() && (#[trigger] r@[j]).0 == b by {
                lemma_find_key(self.keys@, self.ptrs@, b, n);
                let s = self.slot(b);
                assert(!self.ptrs@[s].spec_is_null());
                let j = choose|j: int| 0 <= j < r@.len() && (#[trigger] at[j]) == s;
                assert(r@[j].0 == b);
            }
        }
        r
    }
}

/// A child table with one slot per key: the slot of a key is free where
/// its pointer is null.
pub struct DirectTable {
    ptrs: Vec<Pointer>,
}

impl DirectTable {
    /// An empty table.
    pub fn new() -> (t: DirectTable)
        ensures
            t.wf(),
            t.spec_capacity() == 256,
            t.children() == Map::<u8, Pointer>::empty(),
    {
        let mut ptrs: Vec<Pointer> = Vec::new();
        let mut i: usize = 0;
        while i < 256
            invariant
                i <= 256,
                ptrs@.len() == i,
                forall|j: int| 0 <= j < i ==> (#[trigger] ptrs@[j]).spec_is_null(),
            decreases 256 - i,
        {
            ptrs.push(Pointer::null());
            i += 1;
        }
        let t = DirectTable { ptrs };
        proof {
            lemma_count_bounds(t.ptrs@, 256);
            assert(t.children() =~= Map::<u8, Pointer>::empty());
        }
        t
    }
}

impl DirectTable {
    /// A table in which some key has no child is not full.
    pub proof fn lemma_room(&self, key: u8)
        requires
            self.wf(),
            !self.children().dom().contains(key),
        ensures
            self.children().dom().len() < 256,
    {
        lemma_count_bounds(self.ptrs@, 256);
        assert(self.ptrs@[key as int].spec_is_null());
    }
}

impl ChildTable for DirectTable {
    closed spec fn children(&self) -> Map<u8, Pointer> {
        Map::new(|b: u8| !self.ptrs@[b as int].spec_is_null(), |b: u8| self.ptrs@[b as int])
    }

    closed spec fn wf(&self) -> bool {
        &&& self.ptrs@.len() == 256
        &&& self.children().dom().finite()
        &&& self.children().dom().len() == count_used(self.ptrs@, 256)
    }

    closed spec fn spec_capacity(&self) -> nat {
        256
    }

    proof fn lemma_wf(&self) {
        lemma_count_bounds(self.ptrs@, 256);
    }

    fn get(&self, key: u8) -> (r: Option<Pointer>) {
        let p = self.ptrs[key as usize];
        if p.is_null() {
            None
        } else {
            Some(p)
        }
    }

    fn set(&mut self, key: u8, ptr: Pointer) -> (r: NodeOpRes) {
        proof {
            lemma_count_bounds(self.ptrs@, 256);
        }
        if !self.ptrs[key as usize].is_null() {
            return NodeOpRes::ChildExists;
        }
        self.ptrs[key as usize] = ptr;
        proof {
            let target = old(self).children().insert(key, ptr);
            assert forall|b: u8|
                #![trigger self.children().dom().contains(b)]
                #![trigger target.dom().contains(b)]
                self.children().dom().contains(b) == target.dom().contains(b) && (
                self.children().dom().contains(b) ==> self.children()[b] == target[b]) by {}
            assert(self.children() =~= target);
            lemma_count_update(old(self).ptrs@, key as int, ptr, 256);
        }
        NodeOpRes::Succ
    }

    fn del(&mut self, key: u8) {
        self.ptrs[key as usize] = Pointer::null();
        proof {
            let target = old(self).children().remove(key);
            assert forall|b: u8|
                #![trigger self.children().dom().contains(b)]
                #![trigger target.dom().contains(b)]
                self.children().dom().contains(b) == target.dom().contains(b) && (
                self.children().dom().contains(b) ==> self.children()[b] == target[b]) by {}
            assert(self.children() =~= target);
            lemma_count_update(old(self).ptrs@, key as int, Pointer { tag: 0, info: 0, addr: 0 }, 256);
        }
    }

    fn count(&self) -> (n: usize) {
        let mut n: usize = 0;
        let mut i: usize = 0;
        while i < 256
            invariant
                i <= 256,
                self.ptrs@.len() == 256,
                n == count_used(self.ptrs@, i as int),
                n <= i,
            decreases 256 - i,
        {
            if !self.ptrs[i].is_null() {
                n += 1;
            }
            i += 1;
        }
        n
    }

    fn entries(&self) -> (r: Vec<(u8, Pointer)>) {
        let mut r: Vec<(u8, Pointer)> = Vec::new();
        let mut i: usize = 0;
        while i < 256
            invariant
                i <= 256,
                self.ptrs@.len() == 256,
                forall|j: int|
                    0 <= j < r@.len() ==> (#[trigger] r@[j]).0 < i && !self.ptrs@[r@[j].0 as int].spec_is_null()
                        && r@[j].1 == self.ptrs@[r@[j].0 as int],
                forall|j: int, k: int| 0 <= j < k < r@.len() ==> (#[trigger] r@[j]).0 < (#[trigger] r@[k]).0,
                forall|b: u8|
                    b < i && !(#[trigger] self.ptrs@[b as int]).spec_is_null() ==> exists|j: int|
                        0 <= j < r@.len() && (#[trigger] r@[j]).0 == b,
            decreases 256 - i,
        {
            if !self.ptrs[i].is_null() {
                let ghost r0 = r@;
                r.push((i as u8, self.ptrs[i]));
                proof {
                    assert forall|b: u8|
                        b < i + 1 && !(#[trigger] self.ptrs@[b as int]).spec_is_null() implies exists|
                        j: int,
                    |
                        0 <= j < r@.len() && (#[trigger] r@[j]).0 == b by {
                        if b < i {
                            let j = choose|j: int| 0 <= j < r0.len() && (#[trigger] r0[j]).0 == b;
                            assert(r@[j].0 == b);
                        } else {
                            assert(r@[r0.len() as int].0 == b);
                        }
                    }
                }
            }
            i += 1;
        }
        r
    }
}

/// A child table that looks the slot of a key up in an array of 256 slot
/// numbers, where -1 says that the key has no child. The pointers stand in
/// a dense array of 48 slots.
pub struct IndexedTable {
    index: Vec<i8>,
    ptrs: Vec<Pointer>,
}

impl IndexedTable {
    /// An empty table.
    pub fn new() -> (t: IndexedTable)
        ensures
            t.wf(),
            t.spec_capacity() == 48,
            t.children() == Map::<u8, Pointer>::empty(),
    {
        let mut index: Vec<i8> = Vec::new();
        let mut ptrs: Vec<Pointer> = Vec::new();
        let mut i: usize = 0;
        while i < 256
            invariant
                i <= 256,
                index@.len() == i,
                forall|j: int| 0 <= j < i ==> (#[trigger] index@[j]) == -1,
            decreases 256 - i,
        {
            index.push(-1);
            i += 1;
        }
        i = 0;
        while i < 48
            invariant
                i <= 48,
                ptrs@.len() == i,
                forall|j: int| 0 <= j < i ==> (#[trigger] ptrs@[j]).spec_is_null(),
            decreases 48 - i,
        {
            ptrs.push(Pointer::null());
            i += 1;
        }
        let t = IndexedTable { index, ptrs };
        proof {
            lemma_count_bounds(t.ptrs@, 48);
            assert(t.children() =~= Map::<u8, Pointer>::empty());
        }
        t
    }

    spec fn index_ok(&self) -> bool {
        &&& forall|b: int|
            0 <= b < 256 && (#[trigger] self.index@[b]) >= 0 ==> self.index@[b] < 48
                && !self.ptrs@[self.index@[b] as int].spec_is_null()
        &&& forall|b1: int, b2: int|
            0 <= b1 < b2 < 256 && (#[trigger] self.index@[b1]) >= 0 && (#[trigger] self.index@[b2])
                >= 0 ==> self.index@[b1] != self.index@[b2]
    }
}

impl ChildTable for IndexedTable {
    closed spec fn children(&self) -> Map<u8, Pointer> {
        Map::new(
            |b: u8| self.index@[b as int] >= 0,
            |b: u8| self.ptrs@[self.index@[b as int] as int],
        )
    }

    closed spec fn wf(&self) -> bool {
        &&& self.index@.len() == 256
        &&& self.ptrs@.len() == 48
        &&& self.index_ok()
        &&& self.children().dom().finite()
        &&& self.children().dom().len() == count_used(self.ptrs@, 48)
    }

    closed spec fn spec_capacity(&self) -> nat {
        48
    }

    proof fn lemma_wf(&self) {
        lemma_count_bounds(self.ptrs@, 48);
        assert forall|b: u8| self.children().dom().contains(b) implies !(
        #[trigger] self.children()[b]).spec_is_null() by {
            assert(self.index@[b as int] >= 0);
        }
    }

    fn get(&self, key: u8) -> (r: Option<Pointer>) {
        let i = self.index[key as usize];
        if i < 0 {
            None
        } else {
            Some(self.ptrs[i as usize])
        }
    }

    fn set(&mut self, key: u8, ptr: Pointer) -> (r: NodeOpRes) {
        proof {
            lemma_count_bounds(self.ptrs@, 48);
        }
        if self.index[key as usize] >= 0 {
            return NodeOpRes::ChildExists;
        }
        let mut i: usize = 0;
        while i < 48 && !self.ptrs[i].is_null()
            invariant
                i <= 48,
                self.ptrs@.len() == 48,
                forall|j: int| 0 <= j < i ==> !(#[trigger] self.ptrs@[j]).spec_is_null(),
            decreases 48 - i,
        {
            i += 1;
        }
        if i >= 48 {
            return NodeOpRes::NotEnoughSpace;
        }
        self.ptrs[i] = ptr;
        self.index[key as usize] = i as i8;
        proof {
            let target = old(self).children().insert(key, ptr);
            assert forall|b: int|
                0 <= b < 256 && (#[trigger] self.index@[b]) >= 0 implies self.index@[b] < 48
                && !self.ptrs@[self.index@[b] as int].spec_is_null() by {
                if b != key {
                    assert(old(self).index@[b] >= 0);
                }
            }
            assert forall|b1: int, b2: int|
                0 <= b1 < b2 < 256 && (#[trigger] self.index@[b1]) >= 0 && (
                #[trigger] self.index@[b2]) >= 0 implies self.index@[b1] != self.index@[b2] by {
                if b1 != key && b2 != key {
                    assert(old(self).index@[b1] != old(self).index@[b2]);
                } else if b1 == key {
                    assert(old(self).index@[b2] >= 0);
                } else {
                    assert(old(self).index@[b1] >= 0);
                }
            }
            assert forall|b: u8|
                #![trigger self.children().dom().contains(b)]
                #![trigger target.dom().contains(b)]
                self.children().dom().contains(b) == target.dom().contains(b) && (
                self.children().dom().contains(b) ==> self.children()[b] == target[b]) by {
                if b != key {
                    if old(self).index@[b as int] >= 0 {
                        assert(!old(self).ptrs@[old(self).index@[b as int] as int].spec_is_null());
                    }
                }
            }
            assert(self.children() =~= target);
            lemma_count_update(old(self).ptrs@, i as int, ptr, 48);
        }
        NodeOpRes::Succ
    }

    fn del(&mut self, key: u8) {
        let i = self.index[key as usize];
        if i >= 0 {
            self.ptrs[i as usize] = Pointer::null();
            self.index[key as usize] = -1;
            proof {
                let target = old(self).children().remove(key);
                assert forall|b: int|
                    0 <= b < 256 && (#[trigger] self.index@[b]) >= 0 implies self.index@[b] < 48
                    && !self.ptrs@[self.index@[b] as int].spec_is_null() by {
                    assert(old(self).index@[b] >= 0);
                    if b < key {
                        assert(old(self).index@[b] != old(self).index@[key as int]);
                    } else {
                        assert(old(self).index@[key as int] != old(self).index@[b]);
                    }
                }
                assert forall|b1: int, b2: int|
                    0 <= b1 < b2 < 256 && (#[trigger] self.index@[b1]) >= 0 && (
                    #[trigger] self.index@[b2]) >= 0 implies self.index@[b1] != self.index@[b2] by {
                    assert(old(self).index@[b1] != old(self).index@[b2]);
                }
                assert forall|b: u8|
                    #![trigger self.children().dom().contains(b)]
                    #![trigger target.dom().contains(b)]
                    self.children().dom().contains(b) == target.dom().contains(b) && (
                    self.children().dom().contains(b) ==> self.children()[b] == target[b]) by {
                    if b != key && old(self).index@[b as int] >= 0 {
                        if b < key {
                            assert(old(self).index@[b as int] != old(self).index@[key as int]);
                        } else {
                            assert(old(self).index@[key as int] != old(self).index@[b as int]);
                        }
                    }
                }
                assert(self.children() =~= target);
                lemma_count_update(
                    old(self).ptrs@,
                    i as int,
                    Pointer { tag: 0, info: 0, addr: 0 },
                    48,
                );
            }
        } else {
            assert(self.children() =~= old(self).children().remove(key));
        }
    }

    fn count(&self) -> (n: usize) {
        let mut n: usize = 0;
        let mut i: usize = 0;
        while i < 48
            invariant
                i <= 48,
                self.ptrs@.len() == 48,
                n == count_used(self.ptrs@, i as int),
                n <= i,
            decreases 48 - i,
        {
            if !self.ptrs[i].is_null() {
                n += 1;
            }
            i += 1;
        }
        n
    }

    fn entries(&self) -> (r: Vec<(u8, Pointer)>) {
        let mut r: Vec<(u8, Pointer)> = Vec::new();
        let mut i: usize = 0;
        while i < 256
            invariant
                i <= 256,
                self.wf(),
                forall|j: int|
                    0 <= j < r@.len() ==> (#[trigger] r@[j]).0 < i && self.index@[r@[j].0 as int] >= 0
                        && r@[j].1 == self.ptrs@[self.index@[r@[j].0 as int] as int],
                forall|j: int, k: int| 0 <= j < k < r@.len() ==> (#[trigger] r@[j]).0 < (#[trigger] r@[k]).0,
                forall|b: u8|
                    b < i && (#[trigger] self.index@[b as int]) >= 0 ==> exists|j: int|
                        0 <= j < r@.len() && (#[trigger] r@[j]).0 == b,
            decreases 256 - i,
        {
            let s = self.index[i];
            if s >= 0 {
                let ghost r0 = r@;
                r.push((i as u8, self.ptrs[s as usize]));
                proof {
                    assert forall|b: u8|
                        b < i + 1 && (#[trigger] self.index@[b as int]) >= 0 implies exists|j: int|
                        0 <= j < r@.len() && (#[trigger] r@[j]).0 == b by {
                        if b < i {
                            let j = choose|j: int| 0 <= j < r0.len() && (#[trigger] r0[j]).0 == b;
                            assert(r@[j].0 == b);
                        } else {
                            assert(r@[r0.len() as int].0 == b);
                        }
                    }
                }
            }
            i += 1;
        }
        r
    }
}

/// Stores every pair of `e` in the empty table `t`; hands back whether all
/// of them found room.
pub(crate) fn fill<T: ChildTable>(t: &mut T, e: &Vec<(u8, Pointer)>, Ghost(m): Ghost<Map<u8, Pointer>>) -> (ok:
    bool)
    requires
        old(t).wf(),
        old(t).children() == Map::<u8, Pointer>::empty(),
        entries_of(e@, m),
        forall|b: u8| m.dom().contains(b) ==> !(#[trigger] m[b]).spec_is_null(),
    ensures
        final(t).wf(),
        final(t).spec_capacity() == old(t).spec_capacity(),
        ok == (e@.len() <= old(t).spec_capacity()),
        ok ==> final(t).children() == m,
        e@.len() == m.dom().len(),
{
    let n = e.len();
    let mut i: usize = 0;
    let mut ok = true;
    proof {
        lemma_entries_len(e@, m);
    }
    while i < n
        invariant
            i <= n,
            n == e@.len(),
            t.wf(),
            t.spec_capacity() == old(t).spec_capacity(),
            entries_of(e@, m),
            forall|b: u8| m.dom().contains(b) ==> !(#[trigger] m[b]).spec_is_null(),
            ok ==> t.children().dom().finite() && t.children().dom().len() == i,
            ok ==> forall|b: u8|
                #![trigger t.children().dom().contains(b)]
                t.children().dom().contains(b) <==> exists|j: int|
                    0 <= j < i && (#[trigger] e@[j]).0 == b,
            ok ==> forall|j: int| 0 <= j < i ==> t.children()[(#[trigger] e@[j]).0] == e@[j].1,
            ok ==> i <= t.spec_capacity(),
            !ok ==> n > t.spec_capacity(),
        decreases n - i,
    {
        if ok {
            let (k, p) = e[i];
            let ghost before = t.children();
            proof {
                t.lemma_wf();
                assert(m.dom().contains(e@[i as int].0));
                if before.dom().contains(k) {
                    let j = choose|j: int| 0 <= j < i && (#[trigger] e@[j]).0 == k;
                    assert(e@[j].0 != e@[i as int].0);
                }
            }
            let r = t.set(k, p);
            if r != NodeOpRes::Succ {
                ok = false;
            } else {
                proof {
                    assert forall|b: u8|
                        #![trigger t.children().dom().contains(b)]
                        t.children().dom().contains(b) <==> exists|j: int|
                            0 <= j < i + 1 && (#[trigger] e@[j]).0 == b by {
                        if b == k {
                            assert(e@[i as int].0 == b);
                        } else {
                            if before.dom().contains(b) {
                                let j = choose|j: int| 0 <= j < i && (#[trigger] e@[j]).0 == b;
                                assert(e@[j].0 == b);
                            }
                            if exists|j: int| 0 <= j < i + 1 && (#[trigger] e@[j]).0 == b {
                                let j = choose|j: int| 0 <= j < i + 1 && (#[trigger] e@[j]).0 == b;
                                assert(j < i);
                            }
                        }
                    }
                    assert forall|j: int| 0 <= j < i + 1 implies t.children()[(#[trigger] e@[j]).0]
                        == e@[j].1 by {
                        if j < i {
                            assert(e@[j].0 != e@[i as int].0);
                        }
                    }
                }
            }
        }
        i += 1;
    }
    proof {
        if ok {
            assert forall|b: u8|
                #![trigger t.children().dom().contains(b)]
                #![trigger m.dom().contains(b)]
                t.children().dom().contains(b) == m.dom().contains(b) && (
                t.children().dom().contains(b) ==> t.children()[b] == m[b]) by {
                if t.children().dom().contains(b) {
                    let j = choose|j: int| 0 <= j < n && (#[trigger] e@[j]).0 == b;
                    assert(m.dom().contains(e@[j].0));
                }
                if m.dom().contains(b) {
                    let j = choose|j: int| 0 <= j < e@.len() && (#[trigger] e@[j]).0 == b;
                    assert(e@[j].0 == b);
                }
            }
            assert(t.children() =~= m);
        }
    }
    ok
}

/// A list of the pairs of a map, each key once, is as long as the map has
/// keys.
pub proof fn lemma_entries_len(e: Seq<(u8, Pointer)>, m: Map<u8, Pointer>)
    requires
        entries_of(e, m),
    ensures
        m.dom().finite(),
        e.len() == m.dom().len(),
    decreases e.len(),
{
    if e.len() == 0 {
        assert(m.dom() =~= Set::<u8>::empty());
    } else {
        let last = e.last();
        let e2 = e.drop_last();
        let m2 = m.remove(last.0);
        assert(m.dom().contains(e[e.len() - 1].0));
        assert forall|i: int| 0 <= i < e2.len() implies m2.dom().contains((#[trigger] e2[i]).0)
            && m2[e2[i].0] == e2[i].1 by {
            assert(e2[i] == e[i]);
            assert(e[i].0 != e[e.len() - 1].0);
        }
        assert forall|i: int, j: int| 0 <= i < j < e2.len() implies (#[trigger] e2[i]).0 != (
        #[trigger] e2[j]).0 by {
            assert(e2[i] == e[i] && e2[j] == e[j]);
        }
        assert forall|b: u8| m2.dom().contains(b) implies exists|i: int|
            0 <= i < e2.len() && (#[trigger] e2[i]).0 == b by {
            let i = choose|i: int| 0 <= i < e.len() && (#[trigger] e[i]).0 == b;
            assert(e2[i].0 == b);
        }
        lemma_entries_len(e2, m2);
        assert(m.dom() =~= m2.dom().insert(last.0));
    }
}

} // verus!
