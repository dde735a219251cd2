//! An ordered multi-level list.
//!
//! Elements are kept in the order of a scalar key. Every element sits in a
//! node with one forward link per level; a node that is `h` levels high is
//! linked into the lists of levels `0..h`, so that a search can start at the
//! top level and skip over most of the elements. A head and a tail node,
//! which hold no element, bound every level.
//!
//! The nodes live in one vector and link to each other by position in it.
use rand::Rng;
use vstd::prelude::*;

verus! {

/// Greatest number of levels of a list.
pub const SKIPLIST_MAXLEVEL: i32 = 32;

/// A node gets one more level while the number drawn for it is above this.
pub const SKIPLIST_P: i32 = 0;

/// The scalar key by which the elements of a list are ordered.
pub trait Value {
    spec fn spec_value(&self) -> u64;

    fn value(&self) -> (v: u64)
        ensures
            v == self.spec_value(),
    ;
}

impl Value for u64 {
    open spec fn spec_value(&self) -> u64 {
        *self
    }

    fn value(&self) -> (v: u64) {
        *self
    }
}

impl Value for i32 {
    /// Shifted by 2^31, which keeps the order of the numbers.
    open spec fn spec_value(&self) -> u64 {
        (*self + 0x8000_0000) as u64
    }

    fn value(&self) -> (v: u64) {
        (*self as i64 + 0x8000_0000) as u64
    }
}

/// The keys of `s` never go down.
pub open spec fn sorted<T: Value>(s: Seq<T>) -> bool {
    forall|i: int, j: int|
        0 <= i <= j < s.len() ==> (#[trigger] s[i]).spec_value() <= (#[trigger] s[j]).spec_value()
}

/// Number of elements of `s` whose key is below `key`. In a sorted `s` this
/// is the place of the first element whose key is `key` or more.
pub open spec fn rank<T: Value>(s: Seq<T>, key: u64) -> int
    decreases s.len(),
{
    if s.len() == 0 {
        0
    } else {
        rank(s.drop_last(), key) + if s.last().spec_value() < key {
            1int
        } else {
            0int
        }
    }
}

/// The rank of a key lies inside the sequence or just behind it.
pub proof fn lemma_rank_bounds<T: Value>(s: Seq<T>, key: u64)
    ensures
        0 <= rank(s, key) <= s.len(),
    decreases s.len(),
{
    if s.len() > 0 {
        lemma_rank_bounds(s.drop_last(), key);
    }
}

/// A place that parts the keys below `key` from the others is the rank.
pub proof fn lemma_rank_unique<T: Value>(s: Seq<T>, key: u64, k: int)
    requires
        0 <= k <= s.len(),
        forall|i: int| 0 <= i < k ==> (#[trigger] s[i]).spec_value() < key,
        forall|i: int| k <= i < s.len() ==> (#[trigger] s[i]).spec_value() >= key,
    ensures
        rank(s, key) == k,
    decreases s.len(),
{
    if s.len() > 0 {
        let t = s.drop_last();
        if k == s.len() {
            assert forall|i: int| 0 <= i < k - 1 implies (#[trigger] t[i]).spec_value() < key by {
                assert(t[i] == s[i]);
            }
            lemma_rank_unique(t, key, k - 1);
            assert(s.last() == s[k - 1]);
        } else {
            assert forall|i: int| 0 <= i < k implies (#[trigger] t[i]).spec_value() < key by {
                assert(t[i] == s[i]);
            }
            assert forall|i: int| k <= i < t.len() implies (#[trigger] t[i]).spec_value()
                >= key by {
                assert(t[i] == s[i]);
            }
            lemma_rank_unique(t, key, k);
            assert(s.last() == s[s.len() - 1]);
        }
    }
}

/// In a sorted sequence the rank parts the keys below `key` from the others.
pub proof fn lemma_rank_parts<T: Value>(s: Seq<T>, key: u64)
    requires
        sorted(s),
    ensures
        0 <= rank(s, key) <= s.len(),
        forall|i: int| 0 <= i < rank(s, key) ==> (#[trigger] s[i]).spec_value() < key,
        forall|i: int| rank(s, key) <= i < s.len() ==> (#[trigger] s[i]).spec_value() >= key,
    decreases s.len(),
{
    lemma_rank_bounds(s, key);
    if s.len() > 0 {
        let t = s.drop_last();
        assert forall|i: int, j: int| 0 <= i <= j < t.len() implies (#[trigger] t[i]).spec_value() <= (
        #[trigger] t[j]).spec_value() by {
            assert(t[i] == s[i] && t[j] == s[j]);
        }
        lemma_rank_parts(t, key);
        let r = rank(t, key);
        assert forall|i: int| 0 <= i < rank(s, key) implies (#[trigger] s[i]).spec_value() < key by {
            if i < t.len() {
                assert(t[i] == s[i]);
                if i >= r {
                    // then the last key is below `key`, and so is every key
                    assert(s[i].spec_value() <= s[s.len() - 1].spec_value());
                }
            }
        }
        assert forall|i: int| rank(s, key) <= i < s.len() implies (#[trigger] s[i]).spec_value()
            >= key by {
            if i < t.len() {
                assert(t[i] == s[i]);
            } else {
                if s.last().spec_value() < key {
                    assert(rank(s, key) == r + 1);
                    if r < t.len() {
                        assert(t[r] == s[r]);
                        assert(s[r].spec_value() <= s[s.len() - 1].spec_value());
                    }
                }
            }
        }
    }
}

/// The keys of `keys` whose nodes, with the heights `hs`, are more than `l`
/// levels high.
pub open spec fn level_of(keys: Seq<u64>, hs: Seq<nat>, l: int) -> Seq<u64>
    decreases keys.len(),
{
    if keys.len() == 0 {
        Seq::empty()
    } else if hs.last() > l {
        level_of(keys.drop_last(), hs.drop_last(), l).push(keys.last())
    } else {
        level_of(keys.drop_last(), hs.drop_last(), l)
    }
}

/// Place of the first node behind place `p` that is more than `l` levels
/// high, where `h` lists the heights of the nodes in list order; the length
/// of `h` where there is none.
pub open spec fn succ(h: Seq<nat>, p: int, l: int) -> int
    decreases h.len() - p,
{
    if p < 0 || p + 1 >= h.len() {
        h.len() as int
    } else if h[p + 1] > l {
        p + 1
    } else {
        succ(h, p + 1, l)
    }
}

/// Where the last node is high enough, `succ` finds a node behind `p`, and
/// no node between the two is high enough.
proof fn lemma_succ_first(h: Seq<nat>, p: int, l: int)
    requires
        0 <= p < h.len() - 1,
        h[h.len() - 1] > l,
    ensures
        p < succ(h, p, l) <= h.len() - 1,
        h[succ(h, p, l)] > l,
        forall|r: int| p < r < succ(h, p, l) ==> #[trigger] h[r] <= l,
    decreases h.len() - p,
{
    if h[p + 1] > l {
    } else {
        lemma_succ_first(h, p + 1, l);
    }
}

/// The first node behind `p` that is high enough is what `succ` finds.
proof fn lemma_succ_is(h: Seq<nat>, p: int, l: int, q: int)
    requires
        0 <= p < q < h.len(),
        h[q] > l,
        forall|r: int| p < r < q ==> #[trigger] h[r] <= l,
    ensures
        succ(h, p, l) == q,
    decreases q - p,
{
    if p + 1 == q {
    } else {
        assert(h[p + 1] <= l);
        lemma_succ_is(h, p + 1, l, q);
    }
}

/// Putting a height in at place `k` moves the nodes from `k` on, and what
/// `succ` finds for them, one place further.
proof fn lemma_succ_insert_after(h: Seq<nat>, k: int, x: nat, p: int, l: int)
    requires
        0 <= k <= p < h.len() - 1,
        h[h.len() - 1] > l,
    ensures
        succ(h.insert(k, x), p + 1, l) == succ(h, p, l) + 1,
{
    let h2 = h.insert(k, x);
    let q = succ(h, p, l);
    lemma_succ_first(h, p, l);
    assert(h2[q + 1] == h[q]);
    assert forall|r: int| p + 1 < r < q + 1 implies #[trigger] h2[r] <= l by {
        assert(h2[r] == h[r - 1]);
    }
    lemma_succ_is(h2, p + 1, l, q + 1);
}

/// What `succ` finds for the height that was put in at place `k` is what
/// it found for a node before `k` whose next node was at `k` or behind.
proof fn lemma_succ_insert_at(h: Seq<nat>, k: int, x: nat, p: int, l: int)
    requires
        0 <= p < k <= h.len() - 1,
        h[h.len() - 1] > l,
        succ(h, p, l) >= k,
    ensures
        succ(h.insert(k, x), k, l) == succ(h, p, l) + 1,
{
    let h2 = h.insert(k, x);
    let q = succ(h, p, l);
    lemma_succ_first(h, p, l);
    assert(h2[q + 1] == h[q]);
    assert forall|r: int| k < r < q + 1 implies #[trigger] h2[r] <= l by {
        assert(h2[r] == h[r - 1]);
    }
    lemma_succ_is(h2, k, l, q + 1);
}

/// What `succ` finds for a node before place `k` after a height was put in
/// at `k`.
proof fn lemma_succ_insert_before(h: Seq<nat>, k: int, x: nat, p: int, l: int)
    requires
        0 <= p < k <= h.len() - 1,
        h[h.len() - 1] > l,
    ensures
        succ(h.insert(k, x), p, l) == if succ(h, p, l) < k {
            succ(h, p, l)
        } else if x > l {
            k
        } else {
            succ(h, p, l) + 1
        },
{
    let h2 = h.insert(k, x);
    let q = succ(h, p, l);
    lemma_succ_first(h, p, l);
    if q < k {
        assert(h2[q] == h[q]);
        assert forall|r: int| p < r < q implies #[trigger] h2[r] <= l by {
            assert(h2[r] == h[r]);
        }
        lemma_succ_is(h2, p, l, q);
    } else if x > l {
        assert(h2[k] == x);
        assert forall|r: int| p < r < k implies #[trigger] h2[r] <= l by {
            assert(h2[r] == h[r]);
        }
        lemma_succ_is(h2, p, l, k);
    } else {
        assert(h2[q + 1] == h[q]);
        assert forall|r: int| p < r < q + 1 implies #[trigger] h2[r] <= l by {
            if r < k {
                assert(h2[r] == h[r]);
            } else if r > k {
                assert(h2[r] == h[r - 1]);
            }
        }
        lemma_succ_is(h2, p, l, q + 1);
    }
}

/// Before place `k` only one node that is more than `l` levels high has
/// its next such node at `k` or behind.
proof fn lemma_succ_last_before(h: Seq<nat>, k: int, p: int, pl: int, l: int)
    requires
        0 <= p < k <= h.len() - 1,
        0 <= pl < k,
        h[h.len() - 1] > l,
        h[p] > l,
        h[pl] > l,
        succ(h, pl, l) >= k,
        p != pl,
    ensures
        succ(h, p, l) < k,
{
    lemma_succ_first(h, p, l);
    lemma_succ_first(h, pl, l);
    if p < pl {
        if succ(h, p, l) > pl {
            assert(h[pl] <= l);
        }
    } else {
        assert(h[p] <= l);
    }
}

/// The thread-local random number generator of the `rand` crate. Nothing
/// is known of what it holds.
#[verifier::external_type_specification]
#[verifier::external_body]
pub struct ExThreadRng(rand::rngs::ThreadRng);

/// `rand::thread_rng` hands out the generator of the calling thread, which
/// the system seeds; where the system cannot seed it, the call ends the
/// program. Nothing is claimed of the generator.
pub assume_specification[ rand::thread_rng ]() -> (rng: rand::rngs::ThreadRng)
;

/// Draws the next number from the generator with `rand::Rng::gen`. The
/// number may be any `i32`: nothing is claimed of it. The generator reseeds
/// itself from the system now and then; where the system cannot seed it,
/// the call ends the program, as `rand::thread_rng` does.
#[verifier::external_body]
fn next_i32(rng: &mut rand::rngs::ThreadRng) -> (rn: i32) {
    rng.gen()
}

/// Draws the height of a new node: one level, and one more for each number
/// drawn that is above `SKIPLIST_P`, up to `SKIPLIST_MAXLEVEL` levels.
fn random_level() -> (level: i32)
    ensures
        1 <= level <= SKIPLIST_MAXLEVEL,
{
    let mut rng = rand::thread_rng();
    let mut level: i32 = 1;
    let mut rn: i32 = next_i32(&mut rng);
    while climbs(rn, level)
        invariant
            1 <= level <= SKIPLIST_MAXLEVEL,
        decreases SKIPLIST_MAXLEVEL - level,
    {
        level += 1;
        rn = next_i32(&mut rng);
    }
    level
}

/// Whether a node that has `level` levels gets one more for the number `rn`
/// that was drawn for it: it does where the number is above `SKIPLIST_P`
/// and the node is not yet `SKIPLIST_MAXLEVEL` levels high.
pub fn climbs(rn: i32, level: i32) -> (up: bool)
    ensures
        up == (rn > SKIPLIST_P && level < SKIPLIST_MAXLEVEL),
{
    rn > SKIPLIST_P && level < SKIPLIST_MAXLEVEL
}

struct ListNode<T> {
    /// Forward links, one per level of the node.
    levels: Vec<usize>,
    /// The node before this one on level 0.
    backward: usize,
    /// The element; none in the head, in the tail and in a vacant node.
    current: Option<T>,
}

/// An ordered multi-level list of elements with a scalar key.
pub struct SkipList<T> {
    /// All nodes; the head is at 0 and the tail at 1.
    nodes: Vec<ListNode<T>>,
    /// Places in `nodes` that hold no node of the list.
    free: Vec<usize>,
    /// Number of levels of the head and the tail.
    level: usize,
    /// Number of elements.
    length: u64,
    /// The places in `nodes` of the nodes of the list, from head to tail.
    order: Ghost<Seq<int>>,
}

impl<T: Value> View for SkipList<T> {
    type V = Seq<T>;

    /// The elements from first to last, as level 0 links them.
    closed spec fn view(&self) -> Seq<T> {
        Seq::new((self.order@.len() - 2) as nat, |i: int| self.node(i + 1).current->0)
    }
}

impl<T: Value> SkipList<T> {
    spec fn node(&self, p: int) -> ListNode<T> {
        self.nodes@[self.order@[p]]
    }

    spec fn height(&self, p: int) -> nat {
        self.node(p).levels@.len()
    }

    spec fn heights(&self) -> Seq<nat> {
        Seq::new(self.order@.len(), |p: int| self.height(p))
    }

    spec fn link(&self, p: int, l: int) -> int {
        self.node(p).levels@[l] as int
    }

    spec fn key(&self, p: int) -> u64 {
        (self.node(p).current->0).spec_value()
    }

    spec fn wf_shape(&self) -> bool {
        let n = self.order@.len();
        &&& 1 <= self.level <= 32
        &&& n >= 2
        &&& self.nodes@.len() == n + self.free@.len()
        &&& self.length == n - 2
        &&& self.order@[0] == 0
        &&& self.order@[n - 1] == 1
        &&& forall|p: int| 0 <= p < n ==> 0 <= #[trigger] self.order@[p] < self.nodes@.len()
        &&& forall|p: int, q: int|
            0 <= p < q < n ==> #[trigger] self.order@[p] != #[trigger] self.order@[q]
        &&& forall|p: int| 0 <= p < n ==> 1 <= #[trigger] self.height(p) <= self.level
        &&& self.height(0) == self.level
        &&& self.height(n - 1) == self.level
        &&& forall|p: int| 0 < p < n - 1 ==> (#[trigger] self.node(p)).current is Some
        &&& self.node(0).current is None
        &&& self.node(n - 1).current is None
    }

    spec fn wf_links(&self) -> bool {
        let n = self.order@.len();
        &&& forall|p: int, l: int|
            0 <= p < n - 1 && 0 <= l < self.height(p) ==> #[trigger] self.link(p, l)
                == self.order@[succ(self.heights(), p, l)]
        &&& forall|p: int| 0 < p < n ==> (#[trigger] self.node(p)).backward == self.order@[p - 1]
    }

    spec fn wf_free(&self) -> bool {
        &&& forall|i: int|
            0 <= i < self.free@.len() ==> (#[trigger] self.free@[i]) < self.nodes@.len()
                && !self.order@.contains(self.free@[i] as int)
        &&& forall|i: int, j: int|
            0 <= i < j < self.free@.len() ==> #[trigger] self.free@[i] != #[trigger] self.free@[j]
    }

    spec fn wf_sorted(&self) -> bool {
        forall|p: int, q: int|
            0 < p <= q < self.order@.len() - 1 ==> #[trigger] self.key(p) <= #[trigger] self.key(q)
    }

    /// The list is well formed: its links at every level lead through the
    /// nodes in list order, and the keys never go down from head to tail.
    pub closed spec fn wf(&self) -> bool {
        &&& self.wf_shape()
        &&& self.wf_links()
        &&& self.wf_free()
        &&& self.wf_sorted()
    }

    /// Number of levels of the list.
    pub closed spec fn spec_level(&self) -> int {
        self.level as int
    }

    /// The length field of the list.
    pub closed spec fn spec_len(&self) -> u64 {
        self.length
    }

    /// In a well-formed list the keys never go down from the first element
    /// to the last, and the length field counts the elements.
    pub proof fn lemma_ordered(&self)
        requires
            self.wf(),
        ensures
            sorted(self@),
            self.spec_len() == self@.len(),
    {
        assert forall|i: int, j: int| 0 <= i <= j < self@.len() implies (#[trigger] self@[i]).spec_value() <= (
        #[trigger] self@[j]).spec_value() by {
            assert(self.key(i + 1) <= self.key(j + 1));
        }
    }

    /// An empty list of `level` levels; of 32 levels where `level` is not
    /// between 1 and 32.
    pub fn new(level: i32) -> (sl: SkipList<T>)
        ensures
            sl.wf(),
            sl@ == Seq::<T>::empty(),
            sl.spec_heights() == Seq::<nat>::empty(),
            sl.spec_len() == 0,
            sl.spec_level() == if level <= 0 || level > SKIPLIST_MAXLEVEL {
                SKIPLIST_MAXLEVEL as int
            } else {
                level as int
            },
    {
        let lv: usize = if level <= 0 || level > SKIPLIST_MAXLEVEL {
            32
        } else {
            level as usize
        };
        let mut h: Vec<usize> = Vec::new();
        let mut t: Vec<usize> = Vec::new();
        let mut i: usize = 0;
        while i < lv
            invariant
                i <= lv,
                h@.len() == i,
                t@.len() == i,
                forall|j: int| 0 <= j < i ==> h@[j] == 1,
            decreases lv - i,
        {
            h.push(1);
            t.push(1);
            i += 1;
        }
        let head = ListNode { levels: h, backward: 0, current: None };
        let tail = ListNode { levels: t, backward: 0, current: None };
        let mut nodes: Vec<ListNode<T>> = Vec::new();
        nodes.push(head);
        nodes.push(tail);
        let ghost order: Seq<int> = seq![0int, 1int];
        let sl = SkipList { nodes, free: Vec::new(), level: lv, length: 0, order: Ghost(order) };
        proof {
            assert(sl.order@.len() == 2);
            assert(sl.node(0) == sl.nodes@[0]);
            assert(sl.node(1) == sl.nodes@[1]);
            assert forall|p: int, l: int| 0 <= p < 1 && 0 <= l < sl.height(p) implies #[trigger] sl.link(
                p,
                l,
            ) == sl.order@[succ(sl.heights(), p, l)] by {
                assert(sl.heights()[1] == sl.height(1));
                assert(succ(sl.heights(), 0, l) == 1);
            }
            assert(sl@ =~= Seq::<T>::empty());
            assert(sl.spec_heights() =~= Seq::<nat>::empty());
        }
        sl
    }

    /// What `find_prevs` hands back for `key`: at each level `l` the node at
    /// place `ps[l]` is the last one that is linked at level `l` and whose
    /// key is below `key`, or the head.
    spec fn prevs_ok(&self, key: u64, prevs: Seq<usize>, ps: Seq<int>) -> bool {
        let n = self.order@.len();
        &&& prevs.len() == self.level
        &&& ps.len() == self.level
        &&& ps[0] == rank(self@, key)
        &&& forall|l: int|
            #![trigger ps[l]]
            0 <= l < self.level ==> {
                &&& 0 <= ps[l] <= ps[0] < n - 1
                &&& prevs[l] == self.order@[ps[l]]
                &&& self.height(ps[l]) > l
                &&& ps[0] < succ(self.heights(), ps[l], l) <= n - 1
            }
    }

    /// Walks from the head at the top level down to level 0 and notes, at
    /// each level, the last node whose key is below `key`.
    fn find_prevs(&self, key: u64) -> (r: (Vec<usize>, Ghost<Seq<int>>))
        requires
            self.wf(),
        ensures
            self.prevs_ok(key, r.0@, r.1@),
    {
        let ghost n = self.order@.len() as int;
        let ghost h = self.heights();
        let mut prevs: Vec<usize> = Vec::new();
        let mut i: usize = 0;
        while i < self.level
            invariant
                i <= self.level,
                prevs@.len() == i,
            decreases self.level - i,
        {
            prevs.push(0);
            i += 1;
        }
        let ghost mut ps: Seq<int> = Seq::new(self.level as nat, |l: int| 0int);
        let mut curr: usize = 0;
        let ghost mut p: int = 0;
        let mut lvl: usize = self.level;
        while lvl > 0
            invariant
                self.wf(),
                n == self.order@.len(),
                h == self.heights(),
                lvl <= self.level,
                prevs@.len() == self.level,
                ps.len() == self.level,
                0 <= p < n - 1,
                curr == self.order@[p],
                self.height(p) >= lvl,
                p == 0 || self.key(p) < key,
                forall|l: int|
                    #![trigger ps[l]]
                    lvl <= l < self.level ==> {
                        &&& 0 <= ps[l] <= p
                        &&& prevs@[l] == self.order@[ps[l]]
                        &&& self.height(ps[l]) > l
                        &&& (succ(h, ps[l], l) == n - 1 || (succ(h, ps[l], l) < n - 1 && self.key(
                            succ(h, ps[l], l),
                        ) >= key))
                    },
            decreases lvl,
        {
            lvl -= 1;
            loop
                invariant
                    self.wf(),
                    n == self.order@.len(),
                    h == self.heights(),
                    lvl < self.level,
                    0 <= p < n - 1,
                    curr == self.order@[p],
                    self.height(p) > lvl,
                    p == 0 || self.key(p) < key,
                    forall|l: int|
                        #![trigger ps[l]]
                        lvl < l < self.level ==> 0 <= ps[l] <= p,
                ensures
                    succ(h, p, lvl as int) == n - 1 || (succ(h, p, lvl as int) < n - 1 && self.key(
                        succ(h, p, lvl as int),
                    ) >= key),
                decreases n - p,
            {
                proof {
                    assert(h[n - 1] == self.height(n - 1));
                    lemma_succ_first(h, p, lvl as int);
                    assert(self.link(p, lvl as int) == self.order@[succ(h, p, lvl as int)]);
                }
                let ghost q = succ(h, p, lvl as int);
                let next = self.nodes[curr].levels[lvl];
                assert(next == self.order@[q]);
                assert(self.node(q) == self.nodes@[next as int]);
                match &self.nodes[next].current {
                    None => {
                        break ;
                    },
                    Some(e) => {
                        let v = e.value();
                        assert(v == self.key(q));
                        if key <= v {
                            break ;
                        }
                        proof {
                            assert(h[q] == self.height(q));
                            p = q;
                        }
                        curr = next;
                    },
                }
            }
            prevs[lvl] = curr;
            proof {
                ps = ps.update(lvl as int, p);
            }
        }
        proof {
            let k = ps[0];
            assert(k == p);
            assert(h[n - 1] == self.height(n - 1));
            lemma_succ_first(h, k, 0);
            assert(h[k + 1] == self.height(k + 1));
            assert(succ(h, k, 0) == k + 1);
            // the keys before place k + 1 are below `key`, the others are not
            assert forall|i: int| 0 <= i < k implies (#[trigger] self@[i]).spec_value() < key by {
                assert(self.key(i + 1) <= self.key(k));
            }
            assert forall|i: int| k <= i < self@.len() implies (#[trigger] self@[i]).spec_value()
                >= key by {
                assert(self.key(k + 1) <= self.key(i + 1));
            }
            lemma_rank_unique(self@, key, k);
            assert forall|l: int| #![trigger ps[l]] 0 <= l < self.level implies {
                &&& 0 <= ps[l] <= ps[0] < n - 1
                &&& prevs@[l] == self.order@[ps[l]]
                &&& self.height(ps[l]) > l
                &&& ps[0] < succ(self.heights(), ps[l], l) <= n - 1
            } by {
                lemma_succ_first(h, ps[l], l);
                let q = succ(h, ps[l], l);
                if q < n - 1 && q <= k {
                    assert(self.key(q) <= self.key(k));
                }
            }
        }
        (prevs, Ghost(ps))
    }

    /// The first element whose key is the key of `ele` or more: an element
    /// with the same key where there is one, else the one with the smallest
    /// key above it; none where every key is below.
    pub fn search(&self, ele: T) -> (r: Option<&T>)
        requires
            self.wf(),
        ensures
            match r {
                Some(e) => rank(self@, ele.spec_value()) < self@.len() && *e == self@[rank(
                    self@,
                    ele.spec_value(),
                )],
                None => rank(self@, ele.spec_value()) == self@.len(),
            },
    {
        let key = ele.value();
        let (prevs, Ghost(ps)) = self.find_prevs(key);
        let ghost k = ps[0];
        proof {
            assert(self.heights()[self.order@.len() - 1] == self.height(self.order@.len() - 1));
            lemma_succ_first(self.heights(), k, 0);
            assert(self.heights()[k + 1] == self.height(k + 1));
            assert(self.link(k, 0) == self.order@[succ(self.heights(), k, 0)]);
        }
        let next = self.nodes[prevs[0]].levels[0];
        assert(self.node(k + 1) == self.nodes@[next as int]);
        self.nodes[next].current.as_ref()
    }

    /// `new` is `old` with a node for `ele`, `hn` levels high and at place
    /// `idx` of the vector, linked in behind the nodes that `prevs` names.
    spec fn linked_in(
        old: &Self,
        new: &Self,
        ele: T,
        idx: usize,
        hn: int,
        prevs: Seq<usize>,
        ps: Seq<int>,
    ) -> bool {
        let k = ps[0] + 1;
        &&& 1 <= hn <= old.level
        &&& new.level == old.level
        &&& new.length == old.length + 1
        &&& new.order@ == old.order@.insert(k, idx as int)
        &&& 0 <= idx < new.nodes@.len()
        &&& !old.order@.contains(idx as int)
        &&& new.nodes@.len() >= old.nodes@.len()
        &&& new.nodes@.len() == new.order@.len() + new.free@.len()
        &&& new.nodes@[idx as int].current == Some(ele)
        &&& new.nodes@[idx as int].levels@.len() == hn
        &&& new.nodes@[idx as int].backward == prevs[0]
        &&& forall|l: int|
            0 <= l < hn ==> #[trigger] new.nodes@[idx as int].levels@[l] == old.link(ps[l], l)
        &&& forall|a: int|
            #![trigger new.nodes@[a]]
            0 <= a < old.nodes@.len() && a != idx ==> {
                &&& new.nodes@[a].current == old.nodes@[a].current
                &&& new.nodes@[a].levels@.len() == old.nodes@[a].levels@.len()
                &&& new.nodes@[a].backward == if a == old.order@[k] {
                    idx
                } else {
                    old.nodes@[a].backward
                }
            }
        &&& forall|a: int, l: int|
            0 <= a < old.nodes@.len() && a != idx && 0 <= l < old.nodes@[a].levels@.len()
                ==> #[trigger] new.nodes@[a].levels@[l] == if l < hn && a == prevs[l] {
                idx
            } else {
                old.nodes@[a].levels@[l]
            }
    }

    /// Place in `old` of the node that is at place `p2` of `new`, where a
    /// node was put in at place `k`.
    spec fn place_before(k: int, p2: int) -> int {
        if p2 < k {
            p2
        } else {
            p2 - 1
        }
    }

    /// After a node was linked in, every other node is where it was or one
    /// place further on, as high as before and with the same element.
    proof fn lemma_linked_in_at(
        old: &Self,
        new: &Self,
        ele: T,
        idx: usize,
        hn: int,
        prevs: Seq<usize>,
        ps: Seq<int>,
        p2: int,
    )
        requires
            old.wf(),
            old.prevs_ok(ele.spec_value(), prevs, ps),
            Self::linked_in(old, new, ele, idx, hn, prevs, ps),
            0 <= p2 <= old.order@.len(),
        ensures
            new.order@.len() == old.order@.len() + 1,
            p2 == ps[0] + 1 ==> new.order@[p2] == idx && new.node(p2) == new.nodes@[idx as int]
                && new.height(p2) == hn,
            p2 != ps[0] + 1 ==> {
                let op = Self::place_before(ps[0] + 1, p2);
                &&& 0 <= op < old.order@.len()
                &&& new.order@[p2] == old.order@[op]
                &&& new.order@[p2] != idx
                &&& new.node(p2) == new.nodes@[old.order@[op]]
                &&& new.height(p2) == old.height(op)
                &&& new.node(p2).current == old.node(op).current
            },
    {
        let k = ps[0] + 1;
        if p2 != k {
            let op = Self::place_before(k, p2);
            assert(old.order@.contains(old.order@[op]));
        }
    }

    proof fn lemma_linked_in_heights(
        old: &Self,
        new: &Self,
        ele: T,
        idx: usize,
        hn: int,
        prevs: Seq<usize>,
        ps: Seq<int>,
    )
        requires
            old.wf(),
            old.prevs_ok(ele.spec_value(), prevs, ps),
            Self::linked_in(old, new, ele, idx, hn, prevs, ps),
        ensures
            new.heights() == old.heights().insert(ps[0] + 1, hn as nat),
    {
        let k = ps[0] + 1;
        let h = old.heights();
        let h2 = new.heights();
        let n = old.order@.len() as int;
        Self::lemma_linked_in_at(old, new, ele, idx, hn, prevs, ps, 0);
        assert forall|p2: int| 0 <= p2 <= n implies h2[p2] == h.insert(k, hn as nat)[p2] by {
            Self::lemma_linked_in_at(old, new, ele, idx, hn, prevs, ps, p2);
        }
        assert(h2 =~= h.insert(k, hn as nat));
    }

    /// After a node was linked in, the link of the node at place `p2` on
    /// level `l` leads to the next node that is linked on that level.
    #[verifier::rlimit(30)]
    proof fn lemma_linked_in_link(
        old: &Self,
        new: &Self,
        ele: T,
        idx: usize,
        hn: int,
        prevs: Seq<usize>,
        ps: Seq<int>,
        p2: int,
        l: int,
    )
        requires
            old.wf(),
            old.prevs_ok(ele.spec_value(), prevs, ps),
            Self::linked_in(old, new, ele, idx, hn, prevs, ps),
            0 <= p2 < old.order@.len(),
            0 <= l < new.height(p2),
        ensures
            new.link(p2, l) == new.order@[succ(new.heights(), p2, l)],
    {
        let n = old.order@.len() as int;
        let k = ps[0] + 1;
        let h = old.heights();
        let x = hn as nat;
        Self::lemma_linked_in_heights(old, new, ele, idx, hn, prevs, ps);
        Self::lemma_linked_in_at(old, new, ele, idx, hn, prevs, ps, p2);
        assert(h[n - 1] == old.height(n - 1));
        if l < hn {
            assert(0 <= ps[l] <= ps[0]);
            assert(h[ps[l]] == old.height(ps[l]));
        }
        if p2 > k {
            let op = p2 - 1;
            let a = old.order@[op];
            if l < hn {
                assert(old.order@[ps[l]] != old.order@[op]);
            }
            assert(new.link(p2, l) == new.nodes@[a].levels@[l]);
            assert(new.link(p2, l) == old.link(op, l));
            lemma_succ_first(h, op, l);
            lemma_succ_insert_after(h, k, x, op, l);
            assert(new.order@[succ(h, op, l) + 1] == old.order@[succ(h, op, l)]);
        } else if p2 == k {
            assert(new.link(p2, l) == old.link(ps[l], l));
            lemma_succ_first(h, ps[l], l);
            lemma_succ_insert_at(h, k, x, ps[l], l);
            assert(new.order@[succ(h, ps[l], l) + 1] == old.order@[succ(h, ps[l], l)]);
        } else {
            let a = old.order@[p2];
            assert(new.link(p2, l) == new.nodes@[a].levels@[l]);
            let q = succ(h, p2, l);
            lemma_succ_first(h, p2, l);
            lemma_succ_insert_before(h, k, x, p2, l);
            assert(h[p2] == old.height(p2));
            if l < hn && a == prevs[l] {
                if p2 < ps[l] {
                    assert(old.order@[p2] != old.order@[ps[l]]);
                } else if p2 > ps[l] {
                    assert(old.order@[ps[l]] != old.order@[p2]);
                }
                assert(p2 == ps[l]);
                } else {
                assert(new.link(p2, l) == old.link(p2, l));
                if l < hn {
                    lemma_succ_last_before(h, k, p2, ps[l], l);
                }
                if q < k {
                    assert(new.order@[q] == old.order@[q]);
                } else {
                    assert(new.order@[q + 1] == old.order@[q]);
                }
                }
        }
    }

    proof fn lemma_linked_in_shape(
        old: &Self,
        new: &Self,
        ele: T,
        idx: usize,
        hn: int,
        prevs: Seq<usize>,
        ps: Seq<int>,
    )
        requires
            old.wf(),
            old.prevs_ok(ele.spec_value(), prevs, ps),
            Self::linked_in(old, new, ele, idx, hn, prevs, ps),
        ensures
            new.wf_shape(),
    {
        let n = old.order@.len() as int;
        let k = ps[0] + 1;
        Self::lemma_linked_in_at(old, new, ele, idx, hn, prevs, ps, 0);
        Self::lemma_linked_in_at(old, new, ele, idx, hn, prevs, ps, n);
        assert forall|p: int| 0 <= p <= n implies 0 <= #[trigger] new.order@[p]
            < new.nodes@.len() by {
            Self::lemma_linked_in_at(old, new, ele, idx, hn, prevs, ps, p);
        }
        assert forall|p: int, q: int| 0 <= p < q <= n implies #[trigger] new.order@[p]
            != #[trigger] new.order@[q] by {
            Self::lemma_linked_in_at(old, new, ele, idx, hn, prevs, ps, p);
            Self::lemma_linked_in_at(old, new, ele, idx, hn, prevs, ps, q);
            if p != k && q != k {
                assert(old.order@[Self::place_before(k, p)] != old.order@[Self::place_before(k, q)]);
            }
        }
        assert forall|p: int| 0 <= p <= n implies 1 <= #[trigger] new.height(p) <= new.level by {
            Self::lemma_linked_in_at(old, new, ele, idx, hn, prevs, ps, p);
            if p != k {
                assert(old.height(Self::place_before(k, p)) >= 1);
            }
        }
        assert forall|p: int| 0 < p < n implies (#[trigger] new.node(p)).current is Some by {
            Self::lemma_linked_in_at(old, new, ele, idx, hn, prevs, ps, p);
            if p != k {
                assert(old.node(Self::place_before(k, p)).current is Some);
            }
        }
    }

    proof fn lemma_linked_in_links(
        old: &Self,
        new: &Self,
        ele: T,
        idx: usize,
        hn: int,
        prevs: Seq<usize>,
        ps: Seq<int>,
    )
        requires
            old.wf(),
            old.prevs_ok(ele.spec_value(), prevs, ps),
            Self::linked_in(old, new, ele, idx, hn, prevs, ps),
        ensures
            new.wf_links(),
    {
        let n = old.order@.len() as int;
        let k = ps[0] + 1;
        Self::lemma_linked_in_at(old, new, ele, idx, hn, prevs, ps, 0);
        assert forall|p2: int, l: int| 0 <= p2 < n && 0 <= l < new.height(p2) implies #[trigger] new.link(
            p2,
            l,
        ) == new.order@[succ(new.heights(), p2, l)] by {
            Self::lemma_linked_in_link(old, new, ele, idx, hn, prevs, ps, p2, l);
        }
        assert forall|p: int| 0 < p <= n implies (#[trigger] new.node(p)).backward == new.order@[p
            - 1] by {
            Self::lemma_linked_in_at(old, new, ele, idx, hn, prevs, ps, p);
            Self::lemma_linked_in_at(old, new, ele, idx, hn, prevs, ps, p - 1);
            if p != k {
                let op = Self::place_before(k, p);
                assert(old.node(op).backward == old.order@[op - 1]);
                if op < k {
                    assert(old.order@[op] != old.order@[k]);
                } else if op > k {
                    assert(old.order@[k] != old.order@[op]);
                }
            }
        }
    }

    /// Linking a node in behind the last node of each level whose key is
    /// below the new key keeps the list well formed, and puts the element
    /// at the rank of its key.
    #[verifier::rlimit(30)]
    proof fn lemma_linked_in(
        old: &Self,
        new: &Self,
        ele: T,
        idx: usize,
        hn: int,
        prevs: Seq<usize>,
        ps: Seq<int>,
    )
        requires
            old.wf(),
            old.prevs_ok(ele.spec_value(), prevs, ps),
            Self::linked_in(old, new, ele, idx, hn, prevs, ps),
            new.wf_free(),
        ensures
            new.wf(),
            new@ == old@.insert(ps[0], ele),
            new.spec_heights() == old.spec_heights().insert(ps[0], hn as nat),
    {
        let n = old.order@.len() as int;
        let k = ps[0] + 1;
        let key = ele.spec_value();
        Self::lemma_linked_in_heights(old, new, ele, idx, hn, prevs, ps);
        assert(new.spec_heights() =~= old.spec_heights().insert(ps[0], hn as nat)) by {
            assert forall|i: int| 0 <= i < n - 1 implies new.spec_heights()[i]
                == old.spec_heights().insert(ps[0], hn as nat)[i] by {
                assert(new.heights()[i + 1] == new.height(i + 1));
                if i < ps[0] {
                    assert(old.heights()[i + 1] == old.height(i + 1));
                } else if i > ps[0] {
                    assert(old.heights()[i] == old.height(i));
                }
            }
        }
        Self::lemma_linked_in_shape(old, new, ele, idx, hn, prevs, ps);
        Self::lemma_linked_in_links(old, new, ele, idx, hn, prevs, ps);
        old.lemma_ordered();
        lemma_rank_parts(old@, key);
        assert forall|p: int| 0 < p < n implies #[trigger] new.key(p) == old@.insert(ps[0], ele)[p
            - 1].spec_value() by {
            Self::lemma_linked_in_at(old, new, ele, idx, hn, prevs, ps, p);
        }
        assert forall|p: int, q: int| 0 < p <= q < n implies #[trigger] new.key(p) <= #[trigger] new.key(
            q,
        ) by {
            let op = Self::place_before(k, p);
            let oq = Self::place_before(k, q);
            if p != k && q != k {
                assert(old@[op - 1].spec_value() <= old@[oq - 1].spec_value());
            } else if p == k && q != k {
                assert(old@[oq - 1].spec_value() >= key);
            } else if q == k && p != k {
                assert(old@[op - 1].spec_value() < key);
            }
        }
        assert(new@ =~= old@.insert(ps[0], ele)) by {
            assert forall|i: int| 0 <= i < n - 1 implies new@[i] == old@.insert(ps[0], ele)[i] by {
                Self::lemma_linked_in_at(old, new, ele, idx, hn, prevs, ps, i + 1);
            }
        }
    }

    /// Puts `ele` into the list, before the first element whose key is the
    /// key of `ele` or more, in a node that is `level` levels high; one level
    /// where `level` is below 1, and as many as the list has where it is
    /// above that.
    #[verifier::loop_isolation(false)]
    pub fn insert_with_level(&mut self, ele: T, level: i32)
        requires
            old(self).wf(),
        ensures
            final(self).wf(),
            final(self)@ == old(self)@.insert(rank(old(self)@, ele.spec_value()), ele),
            final(self).spec_heights() == old(self).spec_heights().insert(
                rank(old(self)@, ele.spec_value()),
                (if level < 1 {
                    1
                } else if level > old(self).spec_level() {
                    old(self).spec_level()
                } else {
                    level as int
                }) as nat,
            ),
            final(self).spec_level() == old(self).spec_level(),
    {
        let key = ele.value();
        let hn: usize = if level < 1 {
            1
        } else if level as usize > self.level {
            self.level
        } else {
            level as usize
        };
        let (prevs, Ghost(ps)) = self.find_prevs(key);
        let ghost old_self = *self;
        let ghost k = ps[0] + 1;
        // the links of the new node: what the nodes before it link to now
        let mut links: Vec<usize> = Vec::new();
        let mut l: usize = 0;
        while l < hn
            invariant
                *self == old_self,
                self.wf(),
                self.prevs_ok(key, prevs@, ps),
                l <= hn <= self.level,
                links@.len() == l,
                forall|j: int| 0 <= j < l ==> #[trigger] links@[j] == self.link(ps[j], j),
            decreases hn - l,
        {
            assert(0 <= ps[l as int] <= ps[0]);
            assert(self.node(ps[l as int]) == self.nodes@[prevs@[l as int] as int]);
            links.push(self.nodes[prevs[l]].levels[l]);
            l += 1;
        }
        proof {
            assert(0 <= ps[0] <= ps[0]);
            assert(self.heights()[self.order@.len() - 1] == self.height(self.order@.len() - 1));
            assert(self.heights()[k] == self.height(k));
            lemma_succ_first(self.heights(), ps[0], 0);
            assert(links@[0] == self.link(ps[0], 0));
            assert(forall|p: int|
                0 <= p < self.order@.len() ==> #[trigger] self.order@.contains(self.order@[p]));
        }
        let next0 = links[0];
        let prev0 = prevs[0];
        assert(next0 == self.order@[k]);
        let node = ListNode { levels: links, backward: prev0, current: Some(ele) };
        let idx: usize;
        match self.free.pop() {
            Some(i) => {
                assert(i == old_self.free@[old_self.free@.len() - 1]);
                self.nodes[i] = node;
                idx = i;
            },
            None => {
                idx = self.nodes.len();
                self.nodes.push(node);
            },
        }
        let ghost mid = self.nodes@;
        let ghost free_now = self.free;
        assert(!old_self.order@.contains(idx as int));
        assert(forall|j: int| 0 <= j < hn ==> 0 <= #[trigger] ps[j] <= ps[0]);
        assert forall|j: int| 0 <= j < hn implies (#[trigger] prevs@[j]) < mid.len() && prevs@[j]
            != idx && j < mid[prevs@[j] as int].levels@.len() by {
            assert(0 <= ps[j] <= ps[0]);
            assert(old_self.node(ps[j]) == old_self.nodes@[prevs@[j] as int]);
            assert(old_self.order@.contains(old_self.order@[ps[j]]));
        }
        l = 0;
        while l < hn
            invariant
                l <= hn,
                prevs@.len() >= hn,
                self.nodes@.len() == mid.len(),
                idx < mid.len(),
                self.free == free_now,
                self.level == old_self.level,
                self.length == old_self.length,
                self.order == old_self.order,
                forall|a: int|
                    #![trigger self.nodes@[a]]
                    0 <= a < mid.len() ==> {
                        &&& self.nodes@[a].current == mid[a].current
                        &&& self.nodes@[a].backward == mid[a].backward
                        &&& self.nodes@[a].levels@.len() == mid[a].levels@.len()
                    },
                forall|a: int, j: int|
                    0 <= a < mid.len() && 0 <= j < mid[a].levels@.len()
                        ==> #[trigger] self.nodes@[a].levels@[j] == if j < l && a == prevs@[j] {
                        idx
                    } else {
                        mid[a].levels@[j]
                    },
            decreases hn - l,
        {
            self.nodes[prevs[l]].levels[l] = idx;
            l += 1;
        }
        self.nodes[next0].backward = idx;
        assert(self.length + 2 <= old_self.nodes.len());
        self.length = self.length + 1;
        self.order = Ghost(self.order@.insert(k, idx as int));
        proof {
            assert(self.wf_free()) by {
                assert forall|i: int| 0 <= i < self.free@.len() implies (#[trigger] self.free@[i])
                    < self.nodes@.len() && !self.order@.contains(self.free@[i] as int) by {
                    assert(self.free@[i] == old_self.free@[i]);
                    assert(!old_self.order@.contains(old_self.free@[i] as int));
                    assert(mid.len() >= old_self.nodes@.len());
                    if self.order@.contains(self.free@[i] as int) {
                        let w = choose|w: int|
                            0 <= w < self.order@.len() && self.order@[w] == self.free@[i] as int;
                        if w < k {
                            assert(old_self.order@[w] == self.order@[w]);
                        } else if w > k {
                            assert(old_self.order@[w - 1] == self.order@[w]);
                        } else {
                            if old_self.free@.len() > self.free@.len() {
                                assert(old_self.free@[i] != old_self.free@[old_self.free@.len()
                                    - 1]);
                            }
                        }
                    }
                }
                assert forall|i: int, j: int| 0 <= i < j < self.free@.len() implies #[trigger] self.free@[i]
                    != #[trigger] self.free@[j] by {
                    assert(self.free@[i] == old_self.free@[i]);
                    assert(self.free@[j] == old_self.free@[j]);
                }
            }
            assert(Self::linked_in(&old_self, self, ele, idx, hn as int, prevs@, ps)) by {
                assert forall|j: int| 0 <= j < hn implies #[trigger] self.nodes@[idx as int].levels@[j]
                    == old_self.link(ps[j], j) by {
                    assert(self.nodes@[idx as int].levels@[j] == mid[idx as int].levels@[j]);
                }
            }
            Self::lemma_linked_in(&old_self, self, ele, idx, hn as int, prevs@, ps);
        }
    }

    /// Puts `ele` into the list, before the first element whose key is the
    /// key of `ele` or more. The height of its node is drawn at random.
    pub fn insert(&mut self, ele: T)
        requires
            old(self).wf(),
        ensures
            final(self).wf(),
            final(self)@ == old(self)@.insert(rank(old(self)@, ele.spec_value()), ele),
            final(self).spec_heights().remove(rank(old(self)@, ele.spec_value())) == old(
                self,
            ).spec_heights(),
            final(self).spec_level() == old(self).spec_level(),
    {
        let level = random_level();
        self.insert_with_level(ele, level);
        proof {
            let k = rank(old(self)@, ele.spec_value());
            lemma_rank_bounds(old(self)@, ele.spec_value());
            old(self).lemma_heights();
            assert(self.spec_heights().remove(k) =~= old(self).spec_heights());
        }
    }

    /// `new` is `old` with the node at place `k` of the list taken out of
    /// the links of the nodes that `prevs` names.
    spec fn unlinked(old: &Self, new: &Self, target: usize, prevs: Seq<usize>, ps: Seq<int>) -> bool {
        let k = ps[0] + 1;
        let t = target as int;
        let ht = old.height(k);
        &&& k < old.order@.len() - 1
        &&& old.order@[k] == t
        &&& new.level == old.level
        &&& new.length == old.length - 1
        &&& new.order@ == old.order@.remove(k)
        &&& new.nodes@.len() == old.nodes@.len()
        &&& new.free@ == old.free@.push(target)
        &&& forall|a: int|
            #![trigger new.nodes@[a]]
            0 <= a < old.nodes@.len() && a != t ==> {
                &&& new.nodes@[a].current == old.nodes@[a].current
                &&& new.nodes@[a].levels@.len() == old.nodes@[a].levels@.len()
                &&& new.nodes@[a].backward == if a == old.order@[k + 1] {
                    prevs[0]
                } else {
                    old.nodes@[a].backward
                }
            }
        &&& forall|a: int, l: int|
            0 <= a < old.nodes@.len() && a != t && 0 <= l < old.nodes@[a].levels@.len()
                ==> #[trigger] new.nodes@[a].levels@[l] == if l < ht && a == prevs[l] {
                old.nodes@[t].levels@[l]
            } else {
                old.nodes@[a].levels@[l]
            }
    }

    /// Place in `old` of the node that is at place `p2` of `new`, where the
    /// node at place `k` was taken out.
    spec fn place_with(k: int, p2: int) -> int {
        if p2 < k {
            p2
        } else {
            p2 + 1
        }
    }

    /// After a node was taken out, every other node is where it was or one
    /// place nearer the head, as high as before and with the same element.
    proof fn lemma_unlinked_at(
        old: &Self,
        new: &Self,
        target: usize,
        prevs: Seq<usize>,
        ps: Seq<int>,
        p2: int,
    )
        requires
            old.wf(),
            Self::unlinked(old, new, target, prevs, ps),
            0 <= ps[0],
            0 <= p2 < old.order@.len() - 1,
        ensures
            new.order@.len() == old.order@.len() - 1,
            ({
                let op = Self::place_with(ps[0] + 1, p2);
                &&& 0 <= op < old.order@.len()
                &&& op != ps[0] + 1
                &&& new.order@[p2] == old.order@[op]
                &&& new.order@[p2] != old.order@[ps[0] + 1]
                &&& new.node(p2) == new.nodes@[old.order@[op]]
                &&& new.height(p2) == old.height(op)
                &&& new.node(p2).current == old.node(op).current
            }),
    {
        let k = ps[0] + 1;
        let op = Self::place_with(k, p2);
        if op < k {
            assert(old.order@[op] != old.order@[k]);
        } else {
            assert(old.order@[k] != old.order@[op]);
        }
    }

    proof fn lemma_unlinked_heights(
        old: &Self,
        new: &Self,
        target: usize,
        prevs: Seq<usize>,
        ps: Seq<int>,
    )
        requires
            old.wf(),
            Self::unlinked(old, new, target, prevs, ps),
            0 <= ps[0],
        ensures
            old.heights() == new.heights().insert(ps[0] + 1, old.height(ps[0] + 1)),
            new.heights().len() == old.order@.len() - 1,
    {
        let k = ps[0] + 1;
        let h = old.heights();
        let h2 = new.heights();
        let n = old.order@.len() as int;
        Self::lemma_unlinked_at(old, new, target, prevs, ps, 0);
        assert forall|p: int| 0 <= p < n implies h[p] == h2.insert(k, old.height(k))[p] by {
            if p < k {
                Self::lemma_unlinked_at(old, new, target, prevs, ps, p);
            } else if p > k {
                Self::lemma_unlinked_at(old, new, target, prevs, ps, p - 1);
            }
        }
        assert(h =~= h2.insert(k, old.height(k)));
    }

    /// After a node was taken out, the link of the node at place `p2` on
    /// level `l` leads to the next node that is linked on that level.
    #[verifier::rlimit(30)]
    proof fn lemma_unlinked_link(
        old: &Self,
        new: &Self,
        target: usize,
        key: u64,
        prevs: Seq<usize>,
        ps: Seq<int>,
        p2: int,
        l: int,
    )
        requires
            old.wf(),
            old.prevs_ok(key, prevs, ps),
            Self::unlinked(old, new, target, prevs, ps),
            0 <= p2 < old.order@.len() - 2,
            0 <= l < new.height(p2),
        ensures
            new.link(p2, l) == new.order@[succ(new.heights(), p2, l)],
    {
        let n = old.order@.len() as int;
        let k = ps[0] + 1;
        let t = old.order@[k];
        let h = old.heights();
        let h2 = new.heights();
        let x = old.height(k);
        assert(0 <= ps[0] <= ps[0]);
        Self::lemma_unlinked_heights(old, new, target, prevs, ps);
        Self::lemma_unlinked_at(old, new, target, prevs, ps, p2);
        Self::lemma_unlinked_at(old, new, target, prevs, ps, n - 2);
        assert(h[n - 1] == old.height(n - 1));
        assert(h2[n - 2] == new.height(n - 2));
        assert(h[k] == x);
        if l < x {
            assert(0 <= ps[l] <= ps[0]);
            assert(h[ps[l]] == old.height(ps[l]));
            lemma_succ_first(h, ps[l], l);
            assert(succ(h, ps[l], l) == k);
        }
        lemma_succ_first(h2, p2, l);
        let q2 = succ(h2, p2, l);
        if p2 >= k {
            let op = p2 + 1;
            let a = old.order@[op];
            if l < x {
                assert(old.order@[ps[l]] != old.order@[op]);
            }
            assert(new.link(p2, l) == new.nodes@[a].levels@[l]);
            assert(new.link(p2, l) == old.link(op, l));
            lemma_succ_insert_after(h2, k, x, p2, l);
            assert(new.order@[q2] == old.order@[q2 + 1]);
        } else {
            let a = old.order@[p2];
            assert(new.link(p2, l) == new.nodes@[a].levels@[l]);
            assert(h[p2] == old.height(p2));
            lemma_succ_insert_before(h2, k, x, p2, l);
            if l < x && a == prevs[l] {
                if p2 < ps[l] {
                    assert(old.order@[p2] != old.order@[ps[l]]);
                } else if p2 > ps[l] {
                    assert(old.order@[ps[l]] != old.order@[p2]);
                }
                assert(p2 == ps[l]);
                assert(new.link(p2, l) == old.link(k, l));
                lemma_succ_insert_at(h2, k, x, p2, l);
                assert(new.order@[q2] == old.order@[q2 + 1]);
            } else {
                assert(new.link(p2, l) == old.link(p2, l));
                if l < x {
                    lemma_succ_last_before(h, k, p2, ps[l], l);
                }
                if q2 < k {
                    assert(new.order@[q2] == old.order@[q2]);
                } else {
                    assert(new.order@[q2] == old.order@[q2 + 1]);
                }
            }
        }
    }

    proof fn lemma_unlinked_shape(
        old: &Self,
        new: &Self,
        target: usize,
        prevs: Seq<usize>,
        ps: Seq<int>,
    )
        requires
            old.wf(),
            Self::unlinked(old, new, target, prevs, ps),
            0 <= ps[0],
        ensures
            new.wf_shape(),
            new.wf_free(),
    {
        let n = old.order@.len() as int;
        let k = ps[0] + 1;
        let t = target as int;
        Self::lemma_unlinked_at(old, new, target, prevs, ps, 0);
        Self::lemma_unlinked_at(old, new, target, prevs, ps, n - 2);
        assert forall|p: int| 0 <= p < n - 1 implies 0 <= #[trigger] new.order@[p]
            < new.nodes@.len() by {
            Self::lemma_unlinked_at(old, new, target, prevs, ps, p);
        }
        assert forall|p: int, q: int| 0 <= p < q < n - 1 implies #[trigger] new.order@[p]
            != #[trigger] new.order@[q] by {
            Self::lemma_unlinked_at(old, new, target, prevs, ps, p);
            Self::lemma_unlinked_at(old, new, target, prevs, ps, q);
            assert(old.order@[Self::place_with(k, p)] != old.order@[Self::place_with(k, q)]);
        }
        assert forall|p: int| 0 <= p < n - 1 implies 1 <= #[trigger] new.height(p)
            <= new.level by {
            Self::lemma_unlinked_at(old, new, target, prevs, ps, p);
            assert(old.height(Self::place_with(k, p)) >= 1);
        }
        assert forall|p: int| 0 < p < n - 2 implies (#[trigger] new.node(p)).current is Some by {
            Self::lemma_unlinked_at(old, new, target, prevs, ps, p);
            assert(old.node(Self::place_with(k, p)).current is Some);
        }
        assert(new.wf_shape());
        assert forall|i: int| 0 <= i < new.free@.len() implies (#[trigger] new.free@[i])
            < new.nodes@.len() && !new.order@.contains(new.free@[i] as int) by {
            if new.order@.contains(new.free@[i] as int) {
                let w = choose|w: int|
                    0 <= w < new.order@.len() && new.order@[w] == new.free@[i] as int;
                Self::lemma_unlinked_at(old, new, target, prevs, ps, w);
                if i < old.free@.len() {
                    assert(old.order@.contains(old.order@[Self::place_with(k, w)]));
                    assert(old.free@[i] == new.free@[i]);
                }
            }
            if i < old.free@.len() {
                assert(old.free@[i] == new.free@[i]);
            }
        }
        assert forall|i: int, j: int| 0 <= i < j < new.free@.len() implies #[trigger] new.free@[i]
            != #[trigger] new.free@[j] by {
            assert(old.free@[i] == new.free@[i]);
            if j < old.free@.len() {
                assert(old.free@[j] == new.free@[j]);
            } else {
                assert(old.order@.contains(t));
            }
        }
    }

    /// Taking the first node whose key is `key` or more out of the links
    /// keeps the list well formed, and takes its element out of the list.
    #[verifier::rlimit(30)]
    proof fn lemma_unlinked(
        old: &Self,
        new: &Self,
        target: usize,
        key: u64,
        prevs: Seq<usize>,
        ps: Seq<int>,
    )
        requires
            old.wf(),
            old.prevs_ok(key, prevs, ps),
            Self::unlinked(old, new, target, prevs, ps),
        ensures
            new.wf(),
            new@ == old@.remove(ps[0]),
            new.spec_heights() == old.spec_heights().remove(ps[0]),
    {
        let n = old.order@.len() as int;
        let k = ps[0] + 1;
        assert(0 <= ps[0] <= ps[0]);
        Self::lemma_unlinked_heights(old, new, target, prevs, ps);
        assert(new.spec_heights() =~= old.spec_heights().remove(ps[0])) by {
            assert forall|i: int| 0 <= i < n - 3 implies new.spec_heights()[i]
                == old.spec_heights().remove(ps[0])[i] by {
                assert(new.heights()[i + 1] == new.height(i + 1));
                if i < ps[0] {
                    assert(old.heights()[i + 1] == old.height(i + 1));
                } else {
                    assert(old.heights()[i + 2] == old.height(i + 2));
                }
            }
        }
        Self::lemma_unlinked_shape(old, new, target, prevs, ps);
        assert forall|p2: int, l: int| 0 <= p2 < n - 2 && 0 <= l < new.height(p2) implies #[trigger] new.link(
            p2,
            l,
        ) == new.order@[succ(new.heights(), p2, l)] by {
            Self::lemma_unlinked_link(old, new, target, key, prevs, ps, p2, l);
        }
        assert forall|p: int| 0 < p < n - 1 implies (#[trigger] new.node(p)).backward == new.order@[p
            - 1] by {
            Self::lemma_unlinked_at(old, new, target, prevs, ps, p);
            Self::lemma_unlinked_at(old, new, target, prevs, ps, p - 1);
            let op = Self::place_with(k, p);
            assert(old.node(op).backward == old.order@[op - 1]);
            if op < k + 1 {
                assert(old.order@[op] != old.order@[k + 1]);
            } else if op > k + 1 {
                assert(old.order@[k + 1] != old.order@[op]);
            }
        }
        assert(new.wf_links());
        old.lemma_ordered();
        assert forall|p: int| 0 < p < n - 2 implies #[trigger] new.key(p) == old@.remove(ps[0])[p
            - 1].spec_value() by {
            Self::lemma_unlinked_at(old, new, target, prevs, ps, p);
        }
        assert forall|p: int, q: int| 0 < p <= q < n - 2 implies #[trigger] new.key(p) <= #[trigger] new.key(
            q,
        ) by {
            let op = Self::place_with(k, p);
            let oq = Self::place_with(k, q);
            assert(old@[op - 1].spec_value() <= old@[oq - 1].spec_value());
        }
        assert(new@ =~= old@.remove(ps[0])) by {
            assert forall|i: int| 0 <= i < n - 3 implies new@[i] == old@.remove(ps[0])[i] by {
                Self::lemma_unlinked_at(old, new, target, prevs, ps, i + 1);
            }
        }
    }

    /// Takes the first element whose key is the key of `ele` or more out of
    /// the list and hands it over; none where every key is below.
    #[verifier::loop_isolation(false)]
    pub fn get(&mut self, ele: T) -> (r: Option<T>)
        requires
            old(self).wf(),
        ensures
            final(self).wf(),
            final(self).spec_level() == old(self).spec_level(),
            match r {
                Some(e) => {
                    let k = rank(old(self)@, ele.spec_value());
                    &&& k < old(self)@.len()
                    &&& e == old(self)@[k]
                    &&& final(self)@ == old(self)@.remove(k)
                    &&& final(self).spec_heights() == old(self).spec_heights().remove(k)
                },
                None => {
                    &&& rank(old(self)@, ele.spec_value()) == old(self)@.len()
                    &&& final(self)@ == old(self)@
                    &&& final(self).spec_heights() == old(self).spec_heights()
                },
            },
    {
        let key = ele.value();
        let (prevs, Ghost(ps)) = self.find_prevs(key);
        let ghost old_self = *self;
        let ghost k = ps[0] + 1;
        let ghost h = self.heights();
        let ghost n = self.order@.len() as int;
        proof {
            assert(0 <= ps[0] <= ps[0]);
            assert(h[n - 1] == self.height(n - 1));
            assert(h[k] == self.height(k));
            lemma_succ_first(h, ps[0], 0);
            assert(self.link(ps[0], 0) == self.order@[k]);
        }
        let prev0 = prevs[0];
        let target = self.nodes[prev0].levels[0];
        assert(self.node(k) == self.nodes@[target as int]);
        if self.nodes[target].current.is_none() {
            return None;
        }
        let ht = self.nodes[target].levels.len();
        proof {
            assert forall|j: int| 0 <= j < ht implies (#[trigger] prevs@[j]) < self.nodes@.len()
                && prevs@[j] != target && j < self.nodes@[prevs@[j] as int].levels@.len() by {
                assert(0 <= ps[j] <= ps[0]);
                assert(self.node(ps[j]) == self.nodes@[prevs@[j] as int]);
                assert(self.order@[ps[j]] != self.order@[k]);
            }
            if k + 1 < n - 1 {
                assert(h[k + 1] == self.height(k + 1));
            }
            lemma_succ_first(h, k, 0);
            assert(self.link(k, 0) == self.order@[k + 1]);
            assert(self.order@[k] != self.order@[k + 1]);
        }
        let ghost mid = self.nodes@;
        let mut l: usize = 0;
        while l < ht
            invariant
                l <= ht,
                self.nodes@.len() == mid.len(),
                self.free == old_self.free,
                self.level == old_self.level,
                self.length == old_self.length,
                self.order == old_self.order,
                forall|a: int|
                    #![trigger self.nodes@[a]]
                    0 <= a < mid.len() ==> {
                        &&& self.nodes@[a].current == mid[a].current
                        &&& self.nodes@[a].backward == mid[a].backward
                        &&& self.nodes@[a].levels@.len() == mid[a].levels@.len()
                    },
                forall|a: int, j: int|
                    0 <= a < mid.len() && 0 <= j < mid[a].levels@.len()
                        ==> #[trigger] self.nodes@[a].levels@[j] == if j < l && a == prevs@[j] {
                        mid[target as int].levels@[j]
                    } else {
                        mid[a].levels@[j]
                    },
            decreases ht - l,
        {
            let nx = self.nodes[target].levels[l];
            self.nodes[prevs[l]].levels[l] = nx;
            l += 1;
        }
        let next0 = self.nodes[target].levels[0];
        assert(next0 == old_self.order@[k + 1]);
        self.nodes[next0].backward = prev0;
        let r = self.nodes[target].current.take();
        self.nodes[target].levels = Vec::new();
        self.free.push(target);
        self.length = self.length - 1;
        self.order = Ghost(self.order@.remove(k));
        proof {
            assert(Self::unlinked(&old_self, self, target, prevs@, ps));
            Self::lemma_unlinked(&old_self, self, target, key, prevs@, ps);
        }
        r
    }

    /// The keys of the nodes at the places `1..n` of the list that are more
    /// than `l` levels high.
    spec fn keys_above(&self, l: int, n: int) -> Seq<u64>
        decreases n,
    {
        if n <= 1 {
            Seq::empty()
        } else if self.height(n - 1) > l {
            self.keys_above(l, n - 1).push(self.key(n - 1))
        } else {
            self.keys_above(l, n - 1)
        }
    }

    /// The heights of the nodes of the elements, from the first element to
    /// the last: the node of an element is linked at every level below its
    /// height.
    pub closed spec fn spec_heights(&self) -> Seq<nat> {
        Seq::new((self.order@.len() - 2) as nat, |i: int| self.height(i + 1))
    }

    /// The keys of the elements, from the first to the last.
    pub open spec fn spec_keys(&self) -> Seq<u64> {
        Seq::new(self@.len(), |i: int| self@[i].spec_value())
    }

    /// The keys of the elements whose nodes are linked at `level`, from head
    /// to tail.
    pub open spec fn level_values(&self, level: int) -> Seq<u64> {
        level_of(self.spec_keys(), self.spec_heights(), level)
    }

    /// The keys at the places before `n` that are high enough are what
    /// `level_of` finds among the first elements.
    proof fn lemma_keys_above_is(&self, l: int, n: int)
        requires
            self.wf(),
            1 <= n <= self.order@.len() - 1,
        ensures
            self.keys_above(l, n) == level_of(
                self.spec_keys().subrange(0, n - 1),
                self.spec_heights().subrange(0, n - 1),
                l,
            ),
        decreases n,
    {
        let ks = self.spec_keys().subrange(0, n - 1);
        let hs = self.spec_heights().subrange(0, n - 1);
        if n > 1 {
            self.lemma_keys_above_is(l, n - 1);
            assert(ks.drop_last() =~= self.spec_keys().subrange(0, n - 2));
            assert(hs.drop_last() =~= self.spec_heights().subrange(0, n - 2));
            assert(ks.last() == self.key(n - 1));
            assert(hs.last() == self.height(n - 1));
        }
    }

    /// The heights of the nodes lie between 1 and the number of levels of
    /// the list, and there is one for each element.
    pub proof fn lemma_heights(&self)
        requires
            self.wf(),
        ensures
            self.spec_heights().len() == self@.len(),
            forall|i: int|
                0 <= i < self@.len() ==> 1 <= (#[trigger] self.spec_heights()[i])
                    <= self.spec_level(),
    {
        assert forall|i: int| 0 <= i < self@.len() implies 1 <= (#[trigger] self.spec_heights()[i])
            <= self.spec_level() by {
            assert(1 <= self.height(i + 1) <= self.level);
        }
    }

    proof fn lemma_keys_above_skip(&self, l: int, p: int, q: int)
        requires
            1 <= p <= q,
            forall|r: int| p <= r < q ==> self.height(r) <= l,
        ensures
            self.keys_above(l, q) == self.keys_above(l, p),
        decreases q - p,
    {
        if p < q {
            self.lemma_keys_above_skip(l, p, q - 1);
        }
    }

    /// Level 0 links every element: its keys are the keys of the list.
    pub proof fn lemma_level0(&self)
        requires
            self.wf(),
        ensures
            self.level_values(0) == self.spec_keys(),
            self.level_values(0).len() == self.spec_len(),
    {
        self.lemma_level0_upto(self@.len() as int);
        assert(self.spec_keys().subrange(0, self@.len() as int) =~= self.spec_keys());
        assert(self.spec_heights().subrange(0, self@.len() as int) =~= self.spec_heights());
    }

    proof fn lemma_level0_upto(&self, n: int)
        requires
            self.wf(),
            0 <= n <= self@.len(),
        ensures
            level_of(self.spec_keys().subrange(0, n), self.spec_heights().subrange(0, n), 0)
                == self.spec_keys().subrange(0, n),
        decreases n,
    {
        let ks = self.spec_keys().subrange(0, n);
        let hs = self.spec_heights().subrange(0, n);
        if n > 0 {
            self.lemma_level0_upto(n - 1);
            assert(ks.drop_last() =~= self.spec_keys().subrange(0, n - 1));
            assert(hs.drop_last() =~= self.spec_heights().subrange(0, n - 1));
            assert(hs.last() == self.height(n));
            assert(self.height(n) >= 1);
            assert(ks.drop_last().push(ks.last()) =~= ks);
        } else {
            assert(ks =~= Seq::<u64>::empty());
        }
    }

    /// Walks the links of `level` from head to tail and lists the keys on
    /// the way; the list is empty where the list has no such level.
    pub fn values(&self, level: usize) -> (r: Vec<u64>)
        requires
            self.wf(),
        ensures
            level < self.spec_level() ==> r@ == self.level_values(level as int),
            level >= self.spec_level() ==> r@ == Seq::<u64>::empty(),
    {
        let mut r: Vec<u64> = Vec::new();
        if level >= self.level {
            return r;
        }
        let ghost n = self.order@.len() as int;
        let ghost h = self.heights();
        let mut curr: usize = 0;
        let ghost mut p: int = 0;
        loop
            invariant
                self.wf(),
                n == self.order@.len(),
                h == self.heights(),
                level < self.level,
                0 <= p < n - 1,
                curr == self.order@[p],
                self.height(p) > level,
                r@ == self.keys_above(level as int, p + 1),
            ensures
                r@ == self.keys_above(level as int, n - 1),
            decreases n - p,
        {
            proof {
                assert(h[n - 1] == self.height(n - 1));
                lemma_succ_first(h, p, level as int);
                assert(self.link(p, level as int) == self.order@[succ(h, p, level as int)]);
            }
            let ghost q = succ(h, p, level as int);
            let next = self.nodes[curr].levels[level];
            assert(self.node(q) == self.nodes@[next as int]);
            proof {
                assert forall|t: int| p + 1 <= t < q implies self.height(t) <= level by {
                    assert(h[t] == self.height(t));
                }
                self.lemma_keys_above_skip(level as int, p + 1, q);
                assert(h[q] == self.height(q));
            }
            match &self.nodes[next].current {
                None => {
                    break ;
                },
                Some(e) => {
                    r.push(e.value());
                    proof {
                        p = q;
                    }
                    curr = next;
                },
            }
        }
        proof {
            self.lemma_keys_above_is(level as int, n - 1);
            assert(self.spec_keys().subrange(0, n - 2) =~= self.spec_keys());
            assert(self.spec_heights().subrange(0, n - 2) =~= self.spec_heights());
        }
        r
    }

    /// Number of elements.
    pub fn len(&self) -> (n: u64)
        requires
            self.wf(),
        ensures
            n == self@.len(),
            n == self.spec_len(),
    {
        self.length
    }
}

} // verus!
