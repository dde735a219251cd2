//! Pages and the pool that hands out node slots.
//!
//! A page is a block of 4096 bytes: a meta region of 128 bytes, then the
//! space for node slots. The page keeps the list of its free byte ranges
//! and the length of the longest of them. The pool owns all pages and keeps
//! those with room for a node in a skip list ordered by that length, so
//! that a request is served from the fullest page that can still take it.
use crate::codec::{
    make_pointer_addr, spec_offset_of, spec_page_of, INDEX_TYPE, MAX_PAGES, NODE4_SIZE, NodeType,
    PAGE_META_SIZE, PAGE_SIZE,
};
use crate::skiplist::{lemma_rank_parts, rank, sorted, SkipList, Value};
use vstd::prelude::*;

verus! {

/// State byte of a slot that holds a node.
pub const ACTIVE: u8 = 1;

/// State byte of a slot whose node was given up.
pub const DELETED: u8 = 2;

/// Bytes of a page that slots can take.
pub const PAGE_DATA_SIZE: u16 = 3968;

/// Sum of the lengths of the ranges in `s`; a range is an offset and a
/// length.
pub open spec fn sum_len(s: Seq<(int, int)>) -> int
    decreases s.len(),
{
    if s.len() == 0 {
        0
    } else {
        sum_len(s.drop_last()) + s.last().1
    }
}

/// The range lies behind the meta region and inside the page, and is not
/// empty.
pub open spec fn in_page(r: (int, int)) -> bool {
    PAGE_META_SIZE <= r.0 && 1 <= r.1 && r.0 + r.1 <= PAGE_SIZE
}

/// The two ranges share no byte.
pub open spec fn apart(a: (int, int), b: (int, int)) -> bool {
    a.0 + a.1 <= b.0 || b.0 + b.1 <= a.0
}

/// No two ranges of `s` share a byte.
pub open spec fn all_apart(s: Seq<(int, int)>) -> bool {
    forall|i: int, j: int| 0 <= i < j < s.len() ==> #[trigger] apart(s[i], s[j])
}

/// No range of `s` shares a byte with a range of `t`.
pub open spec fn apart_from(s: Seq<(int, int)>, t: Seq<(int, int)>) -> bool {
    forall|i: int, j: int| 0 <= i < s.len() && 0 <= j < t.len() ==> #[trigger] apart(s[i], t[j])
}

/// The range `a` ends where `b` starts.
pub open spec fn touches(a: (int, int), b: (int, int)) -> bool {
    a.0 + a.1 == b.0
}

/// No range of `s` ends where another one starts.
pub open spec fn coalesced(s: Seq<(int, int)>) -> bool {
    forall|i: int, j: int|
        0 <= i < s.len() && 0 <= j < s.len() && i != j ==> !#[trigger] touches(s[i], s[j])
}

/// Every range of `s` lies in the part of a page that slots can take.
pub open spec fn all_in_page(s: Seq<(int, int)>) -> bool {
    forall|i: int| 0 <= i < s.len() ==> #[trigger] in_page(s[i])
}

/// The free ranges `f` and the taken slots `s` part a page between them:
/// all lie behind the meta region, no two share a byte, no free range ends
/// where another starts, and together they fill the page.
pub open spec fn ranges_ok(f: Seq<(int, int)>, s: Seq<(int, int)>) -> bool {
    &&& all_in_page(f)
    &&& all_in_page(s)
    &&& all_apart(f)
    &&& all_apart(s)
    &&& apart_from(f, s)
    &&& coalesced(f)
    &&& sum_len(f) + sum_len(s) == PAGE_DATA_SIZE
}

/// `m` is the greatest length of a range of `s`, or 0 where `s` is empty.
pub open spec fn is_max_len(s: Seq<(int, int)>, m: int) -> bool {
    &&& forall|i: int| 0 <= i < s.len() ==> (#[trigger] s[i]).1 <= m
    &&& s.len() == 0 ==> m == 0
    &&& s.len() > 0 ==> exists|i: int| 0 <= i < s.len() && (#[trigger] s[i]).1 == m
}

/// A question asked of a range.
pub enum RangeTest {
    /// Is the range at least this long?
    Fits(int),
    /// Does the range end at this offset?
    EndsAt(int),
    /// Does the range start at this offset?
    StartsAt(int),
}

impl RangeTest {
    /// The answer for the range `r`.
    pub open spec fn holds(self, r: (int, int)) -> bool {
        match self {
            RangeTest::Fits(size) => r.1 >= size,
            RangeTest::EndsAt(x) => r.0 + r.1 == x,
            RangeTest::StartsAt(x) => r.0 == x,
        }
    }
}

/// Place of the first range of `s` that `t` holds of; the length of `s`
/// where there is none.
pub open spec fn first_where(s: Seq<(int, int)>, t: RangeTest) -> int
    decreases s.len(),
{
    if s.len() == 0 {
        0
    } else {
        let r = first_where(s.drop_last(), t);
        if r < s.len() - 1 {
            r
        } else if t.holds(s.last()) {
            s.len() - 1
        } else {
            s.len() as int
        }
    }
}

/// A place before which `t` holds of no range, and which holds a range that
/// `t` holds of or lies behind the last one, is the first such place.
pub proof fn lemma_first_where_is(s: Seq<(int, int)>, t: RangeTest, i: int)
    requires
        0 <= i <= s.len(),
        forall|j: int| 0 <= j < i ==> !t.holds(#[trigger] s[j]),
        i < s.len() ==> t.holds(s[i]),
    ensures
        first_where(s, t) == i,
    decreases s.len(),
{
    if s.len() > 0 {
        let u = s.drop_last();
        if i < s.len() - 1 {
            assert forall|j: int| 0 <= j < i implies !t.holds(#[trigger] u[j]) by {
                assert(u[j] == s[j]);
            }
            assert(u[i] == s[i]);
            lemma_first_where_is(u, t, i);
        } else {
            assert forall|j: int| 0 <= j < s.len() - 1 implies !t.holds(#[trigger] u[j]) by {
                assert(u[j] == s[j]);
            }
            lemma_first_where_is(u, t, s.len() - 1);
        }
    }
}

/// Place of the first range of `s` that is at least `size` long; the length
/// of `s` where there is none.
pub open spec fn first_fit(s: Seq<(int, int)>, size: int) -> int {
    first_where(s, RangeTest::Fits(size))
}

/// Place of the range of `s` that ends at `x`; the length of `s` where
/// there is none.
pub open spec fn ends_at(s: Seq<(int, int)>, x: int) -> int {
    first_where(s, RangeTest::EndsAt(x))
}

/// Place of the range of `s` that starts at `x`; the length of `s` where
/// there is none.
pub open spec fn starts_at(s: Seq<(int, int)>, x: int) -> int {
    first_where(s, RangeTest::StartsAt(x))
}

/// The ranges of `s` after `size` bytes were taken from the front of the
/// first range that is long enough.
pub open spec fn carve(s: Seq<(int, int)>, size: int) -> Seq<(int, int)> {
    let i = first_fit(s, size);
    if i >= s.len() {
        s
    } else if s[i].1 > size {
        s.update(i, (s[i].0 + size, s[i].1 - size))
    } else {
        s.remove(i)
    }
}

/// Carving a slot of `size` bytes makes the longest range shorter by no
/// more than `size` bytes.
pub proof fn lemma_carve_max(s: Seq<(int, int)>, size: int, m: int, m2: int)
    requires
        is_max_len(s, m),
        is_max_len(carve(s, size), m2),
        0 <= m2,
        0 < size,
    ensures
        m2 >= m - size,
{
    let c = carve(s, size);
    let i = first_fit(s, size);
    lemma_first_where(s, RangeTest::Fits(size));
    if s.len() > 0 {
        let w = choose|w: int| 0 <= w < s.len() && (#[trigger] s[w]).1 == m;
        if i >= s.len() {
            assert(c[w].1 <= m2);
        } else if s[i].1 > size {
            assert(c[w].1 <= m2);
        } else {
            if w < i {
                assert(c[w] == s[w]);
                assert(c[w].1 <= m2);
            } else if w > i {
                assert(c[w - 1] == s[w]);
                assert(c[w - 1].1 <= m2);
            }
        }
    }
}

/// The ranges of `s` after the range `r` was given back: `r` grows the
/// range that ends where it starts and swallows the range that starts
/// where it ends; where it touches neither it becomes a range of its own.
pub open spec fn give_back(s: Seq<(int, int)>, r: (int, int)) -> Seq<(int, int)> {
    let i = ends_at(s, r.0);
    let j = starts_at(s, r.0 + r.1);
    if i < s.len() && j < s.len() {
        s.update(i, (s[i].0, s[i].1 + r.1 + s[j].1)).remove(j)
    } else if i < s.len() {
        s.update(i, (s[i].0, s[i].1 + r.1))
    } else if j < s.len() {
        s.update(j, (r.0, r.1 + s[j].1))
    } else {
        s.push(r)
    }
}

/// Giving a range back makes the longest range no shorter.
pub proof fn lemma_give_back_max(s: Seq<(int, int)>, r: (int, int), m: int, m2: int)
    requires
        all_in_page(s),
        1 <= r.1,
        is_max_len(s, m),
        is_max_len(give_back(s, r), m2),
    ensures
        m2 >= m,
{
    let g = give_back(s, r);
    let i = ends_at(s, r.0);
    let j = starts_at(s, r.0 + r.1);
    lemma_first_where(s, RangeTest::EndsAt(r.0));
    lemma_first_where(s, RangeTest::StartsAt(r.0 + r.1));
    if s.len() == 0 {
        assert(g[0] == r);
        assert(g[0].1 <= m2);
    } else {
        let w = choose|w: int| 0 <= w < s.len() && (#[trigger] s[w]).1 == m;
        assert(in_page(s[w]));
        if i < s.len() && j < s.len() {
            assert(in_page(s[i]));
            assert(in_page(s[j]));
            let u = s.update(i, (s[i].0, s[i].1 + r.1 + s[j].1));
            let k = if i < j {
                i
            } else {
                i - 1
            };
            assert(g[k] == u[i]);
            assert(g[k].1 <= m2);
            if w != i && w != j {
                let k2 = if w < j {
                    w
                } else {
                    w - 1
                };
                assert(g[k2] == s[w]);
                assert(g[k2].1 <= m2);
            }
        } else if i < s.len() {
            assert(in_page(s[i]));
            assert(g[i].1 <= m2);
            assert(g[w].1 <= m2);
        } else if j < s.len() {
            assert(in_page(s[j]));
            assert(g[j].1 <= m2);
            assert(g[w].1 <= m2);
        } else {
            assert(g[w] == s[w]);
            assert(g[w].1 <= m2);
        }
    }
}

proof fn lemma_sum_push(s: Seq<(int, int)>, x: (int, int))
    ensures
        sum_len(s.push(x)) == sum_len(s) + x.1,
{
    assert(s.push(x).drop_last() =~= s);
}

proof fn lemma_sum_update(s: Seq<(int, int)>, i: int, x: (int, int))
    requires
        0 <= i < s.len(),
    ensures
        sum_len(s.update(i, x)) == sum_len(s) - s[i].1 + x.1,
    decreases s.len(),
{
    if i == s.len() - 1 {
        assert(s.update(i, x).drop_last() =~= s.drop_last());
    } else {
        assert(s.update(i, x).drop_last() =~= s.drop_last().update(i, x));
        lemma_sum_update(s.drop_last(), i, x);
    }
}

proof fn lemma_sum_remove(s: Seq<(int, int)>, i: int)
    requires
        0 <= i < s.len(),
    ensures
        sum_len(s.remove(i)) == sum_len(s) - s[i].1,
    decreases s.len(),
{
    if i == s.len() - 1 {
        assert(s.remove(i) =~= s.drop_last());
    } else {
        assert(s.remove(i).drop_last() =~= s.drop_last().remove(i));
        assert(s.remove(i).last() == s.last());
        lemma_sum_remove(s.drop_last(), i);
    }
}

/// Two ranges of `s` at different places share no byte.
proof fn lemma_apart_at(s: Seq<(int, int)>, a: int, b: int)
    requires
        all_apart(s),
        0 <= a < s.len(),
        0 <= b < s.len(),
        a != b,
    ensures
        apart(s[a], s[b]),
{
    if a < b {
        assert(apart(s[a], s[b]));
    } else {
        assert(apart(s[b], s[a]));
    }
}

/// Taking a slot from the front of the first free range that is long
/// enough leaves the page parted between free ranges and taken slots.
proof fn lemma_carve_ok(f: Seq<(int, int)>, s: Seq<(int, int)>, size: int)
    requires
        ranges_ok(f, s),
        size >= 1,
        0 <= first_fit(f, size) < f.len(),
        f[first_fit(f, size)].1 >= size,
    ensures
        ranges_ok(carve(f, size), s.push((f[first_fit(f, size)].0, size))),
{
    let i = first_fit(f, size);
    let slot = (f[i].0, size);
    let f2 = carve(f, size);
    let s2 = s.push(slot);
    let cut = f[i].1 > size;
    // where the range at place `a` of `f2` was in `f`
    let from = |a: int|
        if cut || a < i {
            a
        } else {
            a + 1
        };
    assert(in_page(f[i]));
    lemma_sum_push(s, slot);
    if cut {
        lemma_sum_update(f, i, (f[i].0 + size, f[i].1 - size));
    } else {
        lemma_sum_remove(f, i);
    }
    assert forall|a: int| 0 <= a < f2.len() implies #[trigger] in_page(f2[a]) && apart(
        f2[a],
        slot,
    ) && 0 <= from(a) < f.len() && (from(a) != i ==> f2[a] == f[from(a)]) && (from(a) == i
        ==> cut && f2[a] == (f[i].0 + size, f[i].1 - size)) by {
        let b = from(a);
        assert(in_page(f[b]));
        if b != i {
            lemma_apart_at(f, b, i);
        }
    }
    assert forall|a: int| 0 <= a < s2.len() implies #[trigger] in_page(s2[a]) by {
        if a < s.len() {
            assert(in_page(s[a]));
        }
    }
    assert forall|a: int, b: int| 0 <= a < b < f2.len() implies #[trigger] apart(
        f2[a],
        f2[b],
    ) by {
        assert(in_page(f2[a]) && in_page(f2[b]));
        assert(apart(f[from(a)], f[from(b)]));
    }
    assert forall|a: int, b: int| 0 <= a < b < s2.len() implies #[trigger] apart(
        s2[a],
        s2[b],
    ) by {
        if b < s.len() {
            assert(apart(s[a], s[b]));
        } else {
            assert(apart(f[i], s[a]));
            assert(in_page(s[a]));
        }
    }
    assert forall|a: int, b: int| 0 <= a < f2.len() && 0 <= b < s2.len() implies #[trigger] apart(
        f2[a],
        s2[b],
    ) by {
        assert(in_page(f2[a]));
        if b < s.len() {
            assert(apart(f[from(a)], s[b]));
            assert(in_page(s[b]));
        }
    }
    assert forall|a: int, b: int|
        0 <= a < f2.len() && 0 <= b < f2.len() && a != b implies !#[trigger] touches(
        f2[a],
        f2[b],
    ) by {
        assert(in_page(f2[a]) && in_page(f2[b]));
        assert(in_page(f[from(a)]) && in_page(f[from(b)]));
        assert(!touches(f[from(a)], f[from(b)]));
        lemma_apart_at(f, from(a), from(b));
    }
}

/// What `first_where` finds: `t` holds of the range at that place and of
/// none before it.
pub proof fn lemma_first_where(s: Seq<(int, int)>, t: RangeTest)
    ensures
        0 <= first_where(s, t) <= s.len(),
        first_where(s, t) < s.len() ==> t.holds(s[first_where(s, t)]),
        forall|j: int| 0 <= j < first_where(s, t) ==> !t.holds(#[trigger] s[j]),
    decreases s.len(),
{
    if s.len() > 0 {
        let u = s.drop_last();
        lemma_first_where(u, t);
        let r = first_where(u, t);
        if r < s.len() - 1 {
            assert(u[r] == s[r]);
        }
        assert forall|j: int| 0 <= j < first_where(s, t) implies !t.holds(#[trigger] s[j]) by {
            if j < u.len() {
                assert(u[j] == s[j]);
            }
        }
    }
}

/// Giving a taken slot back, merged with the free ranges that it touches,
/// leaves the page parted between free ranges and taken slots.
proof fn lemma_give_back_ok(f: Seq<(int, int)>, s: Seq<(int, int)>, k: int)
    requires
        ranges_ok(f, s),
        0 <= k < s.len(),
    ensures
        ranges_ok(give_back(f, s[k]), s.remove(k)),
        sum_len(give_back(f, s[k])) == sum_len(f) + s[k].1,
{
    let r = s[k];
    let i = ends_at(f, r.0);
    let j = starts_at(f, r.0 + r.1);
    let f2 = give_back(f, r);
    let s2 = s.remove(k);
    lemma_first_where(f, RangeTest::EndsAt(r.0));
    lemma_first_where(f, RangeTest::StartsAt(r.0 + r.1));
    assert(in_page(r));
    lemma_sum_remove(s, k);
    if i < f.len() {
        assert(in_page(f[i]));
        assert(apart(f[i], s[k]));
    }
    if j < f.len() {
        assert(in_page(f[j]));
        assert(apart(f[j], s[k]));
    }
    // the range that takes `r` in, and where it stands in `f2`
    let merged = if i < f.len() && j < f.len() {
        (f[i].0, f[i].1 + r.1 + f[j].1)
    } else if i < f.len() {
        (f[i].0, f[i].1 + r.1)
    } else if j < f.len() {
        (r.0, r.1 + f[j].1)
    } else {
        r
    };
    let both = i < f.len() && j < f.len();
    let at = if both {
        if i < j {
            i
        } else {
            i - 1
        }
    } else if i < f.len() {
        i
    } else if j < f.len() {
        j
    } else {
        f.len() as int
    };
    // where the range at another place `a` of `f2` was in `f`
    let from = |a: int|
        if both && a >= j {
            a + 1
        } else {
            a
        };
    if both {
        let f1 = f.update(i, merged);
        lemma_sum_update(f, i, merged);
        lemma_sum_remove(f1, j);
        assert(f1[j] == f[j]);
    } else if i < f.len() {
        lemma_sum_update(f, i, merged);
    } else if j < f.len() {
        lemma_sum_update(f, j, merged);
    } else {
        lemma_sum_push(f, r);
    }
    assert(0 <= at < f2.len() && f2[at] == merged);
    assert(in_page(merged));
    assert forall|a: int| 0 <= a < f2.len() && a != at implies 0 <= from(a) < f.len() && from(a)
        != i && from(a) != j && #[trigger] f2[a] == f[from(a)] && in_page(f2[a]) && apart(
        f2[a],
        merged,
    ) && !touches(f2[a], merged) && !touches(merged, f2[a]) by {
        let b = from(a);
        assert(in_page(f[b]));
        assert(apart(f[b], s[k]));
        if i < f.len() {
            lemma_apart_at(f, b, i);
            assert(!touches(f[b], f[i]));
        }
        if j < f.len() {
            lemma_apart_at(f, b, j);
            assert(!touches(f[j], f[b]));
        }
    }
    assert forall|a: int| 0 <= a < f2.len() implies #[trigger] in_page(f2[a]) by {
        if a != at {
            assert(f2[a] == f[from(a)]);
        }
    }
    assert forall|a: int| 0 <= a < s2.len() implies #[trigger] in_page(s2[a]) by {
        assert(in_page(s[if a < k {
            a
        } else {
            a + 1
        }]));
    }
    assert forall|a: int, b: int| 0 <= a < b < f2.len() implies #[trigger] apart(
        f2[a],
        f2[b],
    ) by {
        if a != at && b != at {
            assert(f2[a] == f[from(a)] && f2[b] == f[from(b)]);
            assert(apart(f[from(a)], f[from(b)]));
        } else if a == at {
            assert(f2[b] == f[from(b)]);
        } else {
            assert(f2[a] == f[from(a)]);
        }
    }
    assert forall|a: int, b: int| 0 <= a < b < s2.len() implies #[trigger] apart(
        s2[a],
        s2[b],
    ) by {
        let a1 = if a < k {
            a
        } else {
            a + 1
        };
        let b1 = if b < k {
            b
        } else {
            b + 1
        };
        assert(apart(s[a1], s[b1]));
    }
    assert forall|a: int, b: int| 0 <= a < f2.len() && 0 <= b < s2.len() implies #[trigger] apart(
        f2[a],
        s2[b],
    ) by {
        let b1 = if b < k {
            b
        } else {
            b + 1
        };
        assert(in_page(s[b1]));
        lemma_apart_at(s, b1, k);
        if a != at {
            assert(f2[a] == f[from(a)]);
            assert(apart(f[from(a)], s[b1]));
        } else {
            if i < f.len() {
                assert(apart(f[i], s[b1]));
            }
            if j < f.len() {
                assert(apart(f[j], s[b1]));
            }
        }
    }
    assert forall|a: int, b: int|
        0 <= a < f2.len() && 0 <= b < f2.len() && a != b implies !#[trigger] touches(
        f2[a],
        f2[b],
    ) by {
        if a != at && b != at {
            assert(f2[a] == f[from(a)] && f2[b] == f[from(b)]);
            assert(!touches(f[from(a)], f[from(b)]));
        } else if a == at {
            assert(f2[b] == f[from(b)]);
        } else {
            assert(f2[a] == f[from(a)]);
        }
    }
}

/// The greatest of the numbers in `v`; 0 where `v` is empty.
fn max_of(v: &Vec<u16>) -> (m: u16)
    ensures
        forall|i: int| 0 <= i < v@.len() ==> (#[trigger] v@[i]) <= m,
        v@.len() == 0 ==> m == 0,
        v@.len() > 0 ==> exists|i: int| 0 <= i < v@.len() && (#[trigger] v@[i]) == m,
{
    let mut m: u16 = 0;
    let mut i: usize = 0;
    let ghost mut w: int = 0;
    while i < v.len()
        invariant
            i <= v@.len(),
            forall|j: int| 0 <= j < i ==> (#[trigger] v@[j]) <= m,
            i == 0 ==> m == 0,
            i > 0 ==> 0 <= w < i && v@[w] == m,
        decreases v@.len() - i,
    {
        if v[i] > m || i == 0 {
            m = v[i];
            proof {
                w = i as int;
            }
        }
        i += 1;
    }
    m
}

/// A page of node slots.
pub struct IndexPage {
    dirty: bool,
    /// The bytes of the page.
    space: Vec<u8>,
    /// Lengths of the free ranges.
    free_space: Vec<u16>,
    /// Offsets of the free ranges, in step with `free_space`.
    free_offset: Vec<u16>,
    /// Length of the longest free range.
    free_max: u16,
    /// Identifier of the page in its pool; 0 outside a pool.
    index: u32,
    /// The slots that are taken: offset and length of each.
    slots: Ghost<Seq<(int, int)>>,
}

impl IndexPage {
    /// The free ranges of the page, each as offset and length.
    pub closed spec fn free_ranges(&self) -> Seq<(int, int)> {
        Seq::new(
            self.free_offset@.len(),
            |i: int| (self.free_offset@[i] as int, self.free_space@[i] as int),
        )
    }

    /// The slots of the page that hold a node, each as offset and length.
    pub closed spec fn slots(&self) -> Seq<(int, int)> {
        self.slots@
    }

    /// A slot of `size` bytes at `offset` holds a node.
    pub open spec fn live(&self, offset: int, size: int) -> bool {
        self.slots().contains((offset, size))
    }

    /// Length of the longest free range.
    pub closed spec fn spec_free_max(&self) -> u16 {
        self.free_max
    }

    /// Identifier of the page in its pool.
    pub closed spec fn spec_index(&self) -> u32 {
        self.index
    }

    /// The page was marked as changed.
    pub closed spec fn spec_dirty(&self) -> bool {
        self.dirty
    }

    /// The bytes of the page.
    pub closed spec fn bytes(&self) -> Seq<u8> {
        self.space@
    }

    /// Bytes of the page that are free.
    pub open spec fn free_total(&self) -> int {
        sum_len(self.free_ranges())
    }

    /// Bytes of the page that slots with a node take.
    pub open spec fn used_total(&self) -> int {
        sum_len(self.slots())
    }

    /// The page is well formed: the free ranges and the taken slots lie
    /// behind the meta region, no two of them share a byte, no free range
    /// ends where another starts, together they fill the page, and
    /// `free_max` is the length of the longest free range.
    pub closed spec fn wf(&self) -> bool {
        &&& self.space@.len() == PAGE_SIZE
        &&& self.free_space@.len() == self.free_offset@.len()
        &&& ranges_ok(self.free_ranges(), self.slots@)
        &&& is_max_len(self.free_ranges(), self.free_max as int)
    }

    /// The greatest of the lengths in `free_space` is the greatest length
    /// of a free range.
    proof fn lemma_max_len(&self)
        requires
            self.free_space@.len() == self.free_offset@.len(),
            forall|i: int| 0 <= i < self.free_space@.len() ==> (#[trigger] self.free_space@[i])
                <= self.free_max,
            self.free_space@.len() == 0 ==> self.free_max == 0,
            self.free_space@.len() > 0 ==> exists|i: int|
                0 <= i < self.free_space@.len() && (#[trigger] self.free_space@[i])
                    == self.free_max,
        ensures
            is_max_len(self.free_ranges(), self.free_max as int),
    {
        let f = self.free_ranges();
        assert forall|i: int| 0 <= i < f.len() implies (#[trigger] f[i]).1 <= self.free_max by {
            assert(self.free_space@[i] <= self.free_max);
        }
        if f.len() > 0 {
            let w = choose|i: int|
                0 <= i < self.free_space@.len() && (#[trigger] self.free_space@[i])
                    == self.free_max;
            assert(f[w].1 == self.free_max);
        }
    }

    /// In a well-formed page the free bytes and the bytes of the taken
    /// slots add up to the page without its meta region.
    pub proof fn lemma_accounting(&self)
        requires
            self.wf(),
        ensures
            self.free_total() + self.used_total() == PAGE_SIZE - PAGE_META_SIZE,
            ranges_ok(self.free_ranges(), self.slots()),
            is_max_len(self.free_ranges(), self.spec_free_max() as int),
    {
    }

    /// A slot is known by its offset: two taken slots at one offset are
    /// one slot.
    pub proof fn lemma_live_size(&self, offset: int, s1: int, s2: int)
        requires
            self.wf(),
            self.live(offset, s1),
            self.live(offset, s2),
        ensures
            s1 == s2,
    {
        let s = self.slots@;
        let i = choose|i: int| 0 <= i < s.len() && s[i] == (offset, s1);
        let j = choose|j: int| 0 <= j < s.len() && s[j] == (offset, s2);
        assert(in_page(s[i]) && in_page(s[j]));
        if i < j {
            assert(apart(s[i], s[j]));
        } else if j < i {
            assert(apart(s[j], s[i]));
        }
    }

    /// A page with no slot taken: one free range behind the meta region.
    pub fn new() -> (p: IndexPage)
        ensures
            p.wf(),
            p.free_ranges() == seq![(PAGE_META_SIZE as int, PAGE_DATA_SIZE as int)],
            p.slots() == Seq::<(int, int)>::empty(),
            p.spec_free_max() == PAGE_DATA_SIZE,
            p.spec_index() == 0,
            !p.spec_dirty(),
            p.bytes()[0] == INDEX_TYPE,
            forall|i: int| 1 <= i < PAGE_SIZE ==> #[trigger] p.bytes()[i] == 0,
    {
        let mut space: Vec<u8> = Vec::new();
        let mut i: usize = 0;
        while i < 4096
            invariant
                i <= 4096,
                space@.len() == i,
                forall|j: int| 0 <= j < i ==> #[trigger] space@[j] == 0,
            decreases 4096 - i,
        {
            space.push(0);
            i += 1;
        }
        space[0] = INDEX_TYPE;
        let mut free_space: Vec<u16> = Vec::new();
        let mut free_offset: Vec<u16> = Vec::new();
        free_space.push(PAGE_DATA_SIZE);
        free_offset.push(PAGE_META_SIZE);
        let p = IndexPage {
            dirty: false,
            space,
            free_space,
            free_offset,
            free_max: PAGE_DATA_SIZE,
            index: 0,
            slots: Ghost(Seq::empty()),
        };
        proof {
            let f = p.free_ranges();
            assert(f =~= seq![(PAGE_META_SIZE as int, PAGE_DATA_SIZE as int)]);
            lemma_sum_push(Seq::empty(), (PAGE_META_SIZE as int, PAGE_DATA_SIZE as int));
            assert(f =~= Seq::<(int, int)>::empty().push(
                (PAGE_META_SIZE as int, PAGE_DATA_SIZE as int),
            ));
            assert(f[0].1 == PAGE_DATA_SIZE);
        }
        p
    }

    /// Place of the taken slot at `offset` in `slots()`.
    pub open spec fn slot_place(&self, offset: int) -> int {
        choose|k: int| 0 <= k < self.slots().len() && (#[trigger] self.slots()[k]).0 == offset
    }

    /// Takes a slot for a node of class `tp` from the front of the first
    /// free range that is long enough, and hands out its offset; none
    /// where no free range is long enough.
    pub fn new_node(&mut self, tp: NodeType) -> (r: Option<u16>)
        requires
            old(self).wf(),
        ensures
            final(self).wf(),
            final(self).spec_index() == old(self).spec_index(),
            final(self).spec_dirty() == old(self).spec_dirty(),
            old(self).spec_free_max() < tp.spec_size() ==> {
                &&& r is None
                &&& final(self).free_ranges() == old(self).free_ranges()
                &&& final(self).slots() == old(self).slots()
                &&& final(self).bytes() == old(self).bytes()
                &&& final(self).spec_free_max() == old(self).spec_free_max()
            },
            old(self).spec_free_max() >= tp.spec_size() ==> {
                let f = old(self).free_ranges();
                let i = first_fit(f, tp.spec_size() as int);
                &&& 0 <= i < f.len()
                &&& r == Some(f[i].0 as u16)
                &&& final(self).free_ranges() == carve(f, tp.spec_size() as int)
                &&& final(self).slots() == old(self).slots().push((f[i].0, tp.spec_size() as int))
                &&& final(self).bytes() == old(self).bytes().update(f[i].0, ACTIVE)
            },
    {
        let size = tp.size();
        if self.free_max < size {
            return None;
        }
        let ghost f = self.free_ranges();
        let ghost s = self.slots@;
        let n = self.free_space.len();
        let mut idx: usize = 0;
        while idx < n && self.free_space[idx] < size
            invariant
                idx <= n,
                n == self.free_space@.len(),
                f == self.free_ranges(),
                f.len() == n,
                forall|j: int| 0 <= j < idx ==> (#[trigger] f[j]).1 < size,
            decreases n - idx,
        {
            idx += 1;
        }
        proof {
            let w = choose|w: int| 0 <= w < f.len() && (#[trigger] f[w]).1 == self.free_max;
            assert(f[w].1 >= size);
            assert(idx < n);
            assert(f[idx as int].1 >= size);
            lemma_first_where_is(f, RangeTest::Fits(size as int), idx as int);
            assert(in_page(f[idx as int]));
        }
        let offset = self.free_offset[idx];
        let len = self.free_space[idx];
        if len > size {
            self.free_offset[idx] = offset + size;
            self.free_space[idx] = len - size;
        } else {
            self.free_offset.remove(idx);
            self.free_space.remove(idx);
        }
        self.space[offset as usize] = ACTIVE;
        self.free_max = max_of(&self.free_space);
        self.slots = Ghost(s.push((offset as int, size as int)));
        proof {
            assert(self.free_ranges() =~= carve(f, size as int));
            lemma_carve_ok(f, s, size as int);
            self.lemma_max_len();
        }
        Some(offset)
    }

    /// Takes a slot for a node of the smallest class.
    pub fn new_node4(&mut self) -> (r: Option<u16>)
        requires
            old(self).wf(),
        ensures
            final(self).wf(),
            final(self).spec_index() == old(self).spec_index(),
            final(self).spec_dirty() == old(self).spec_dirty(),
            old(self).spec_free_max() < NODE4_SIZE ==> {
                &&& r is None
                &&& final(self).free_ranges() == old(self).free_ranges()
                &&& final(self).slots() == old(self).slots()
                &&& final(self).bytes() == old(self).bytes()
                &&& final(self).spec_free_max() == old(self).spec_free_max()
            },
            old(self).spec_free_max() >= NODE4_SIZE ==> {
                let f = old(self).free_ranges();
                let i = first_fit(f, NODE4_SIZE as int);
                &&& 0 <= i < f.len()
                &&& r == Some(f[i].0 as u16)
                &&& final(self).free_ranges() == carve(f, NODE4_SIZE as int)
                &&& final(self).slots() == old(self).slots().push((f[i].0, NODE4_SIZE as int))
                &&& final(self).bytes() == old(self).bytes().update(f[i].0, ACTIVE)
            },
    {
        self.new_node(NodeType::N4)
    }

    /// Gives the taken slot of class `tp` at `offset` back to the free
    /// ranges, merged with the free ranges that it touches.
    pub fn free_node(&mut self, offset: u16, tp: NodeType)
        requires
            old(self).wf(),
            old(self).live(offset as int, tp.spec_size() as int),
        ensures
            final(self).wf(),
            final(self).spec_index() == old(self).spec_index(),
            final(self).spec_dirty() == old(self).spec_dirty(),
            final(self).free_ranges() == give_back(
                old(self).free_ranges(),
                (offset as int, tp.spec_size() as int),
            ),
            final(self).slots() == old(self).slots().remove(old(self).slot_place(offset as int)),
            old(self).slots()[old(self).slot_place(offset as int)] == (
                offset as int,
                tp.spec_size() as int,
            ),
            final(self).free_total() == old(self).free_total() + tp.spec_size(),
            final(self).bytes() == old(self).bytes().update(offset as int, DELETED),
    {
        let size = tp.size();
        let ghost f = self.free_ranges();
        let ghost s = self.slots@;
        let ghost r = (offset as int, size as int);
        let ghost k = self.slot_place(offset as int);
        proof {
            let w = choose|w: int| 0 <= w < s.len() && s[w] == r;
            assert(s[w].0 == offset);
            assert(0 <= k < s.len() && s[k].0 == offset);
            assert(in_page(s[k]) && in_page(s[w]));
            if k != w {
                lemma_apart_at(s, k, w);
            }
            assert(s[k] == r);
        }
        let end: u16 = offset + size;
        let n = self.free_space.len();
        let mut li: usize = n;
        let mut ri: usize = n;
        let mut i: usize = 0;
        while i < n
            invariant
                i <= n,
                n == self.free_space@.len(),
                n == self.free_offset@.len(),
                f == self.free_ranges(),
                all_in_page(f),
                r == (offset as int, size as int),
                end == offset + size,
                li <= n,
                ri <= n,
                li < n ==> li < i && touches(f[li as int], r),
                ri < n ==> ri < i && f[ri as int].0 == end,
                forall|j: int| 0 <= j < (if li < n { li } else { i }) ==> !touches(#[trigger] f[j], r),
                forall|j: int| 0 <= j < (if ri < n { ri } else { i }) ==> (#[trigger] f[j]).0 != end,
            decreases n - i,
        {
            assert(in_page(f[i as int]));
            if li == n && self.free_offset[i] + self.free_space[i] == offset {
                li = i;
            }
            if ri == n && self.free_offset[i] == end {
                ri = i;
            }
            i += 1;
        }
        proof {
            lemma_first_where_is(f, RangeTest::EndsAt(r.0), li as int);
            lemma_first_where_is(f, RangeTest::StartsAt(r.0 + r.1), ri as int);
            lemma_give_back_ok(f, s, k);
            if li < n {
                assert(in_page(f[li as int]));
            }
            if ri < n {
                assert(in_page(f[ri as int]));
            }
            if li < n && ri < n {
                assert(apart(f[li as int], s[k]));
                lemma_apart_at(f, li as int, ri as int);
            }
        }
        if li < n && ri < n {
            self.free_space[li] = self.free_space[li] + size + self.free_space[ri];
            self.free_offset.remove(ri);
            self.free_space.remove(ri);
        } else if li < n {
            self.free_space[li] = self.free_space[li] + size;
        } else if ri < n {
            self.free_offset[ri] = offset;
            self.free_space[ri] = self.free_space[ri] + size;
        } else {
            self.free_offset.push(offset);
            self.free_space.push(size);
        }
        self.space[offset as usize] = DELETED;
        self.free_max = max_of(&self.free_space);
        self.slots = Ghost(s.remove(k));
        proof {
            assert(self.free_ranges() =~= give_back(f, r));
            self.lemma_max_len();
        }
    }

    /// A taken slot lies in the page behind the meta region, and two taken
    /// slots at different offsets share no byte.
    pub proof fn lemma_slots_apart(&self, o1: int, s1: int, o2: int, s2: int)
        requires
            self.wf(),
            self.live(o1, s1),
            self.live(o2, s2),
        ensures
            in_page((o1, s1)),
            o1 != o2 ==> apart((o1, s1), (o2, s2)),
    {
        let s = self.slots@;
        let i = choose|i: int| 0 <= i < s.len() && s[i] == (o1, s1);
        let j = choose|j: int| 0 <= j < s.len() && s[j] == (o2, s2);
        assert(in_page(s[i]) && in_page(s[j]));
        if i != j {
            lemma_apart_at(s, i, j);
        }
    }

    /// A well-formed page has as many bytes as a page has.
    pub proof fn lemma_bytes_len(&self)
        requires
            self.wf(),
        ensures
            self.bytes().len() == PAGE_SIZE,
    {
    }

    /// A taken slot and a free range share no byte.
    pub proof fn lemma_slot_not_free(&self, o1: int, s1: int, i: int)
        requires
            self.wf(),
            self.live(o1, s1),
            0 <= i < self.free_ranges().len(),
        ensures
            apart(self.free_ranges()[i], (o1, s1)),
            in_page(self.free_ranges()[i]),
            in_page((o1, s1)),
    {
        let s = self.slots@;
        let j = choose|j: int| 0 <= j < s.len() && s[j] == (o1, s1);
        assert(apart(self.free_ranges()[i], s[j]));
        assert(in_page(s[j]));
        assert(in_page(self.free_ranges()[i]));
    }

    /// The bytes of the page from `offset` on, `size` of them.
    pub open spec fn slot_image(&self, offset: int, size: int) -> Seq<u8> {
        self.bytes().subrange(offset, offset + size)
    }

    /// What holds of the taken slots of a page after a slot of `size` bytes
    /// was taken at `off`, the start of a free range: no slot was taken at
    /// `off` before, the new slot is taken beside those that were, and the
    /// bytes of those are what they were.
    pub proof fn lemma_slot_taken(&self, after: &IndexPage, i: int, size: int)
        requires
            self.wf(),
            0 <= i < self.free_ranges().len(),
            1 <= size <= self.free_ranges()[i].1,
            after.slots() == self.slots().push((self.free_ranges()[i].0, size)),
            after.bytes() == self.bytes().update(self.free_ranges()[i].0, ACTIVE),
        ensures
            forall|s: int| !self.live(self.free_ranges()[i].0, s),
            forall|o: int, s: int|
                after.live(o, s) <==> self.live(o, s) || (o == self.free_ranges()[i].0 && s
                    == size),
            forall|o: int, s: int|
                self.live(o, s) ==> #[trigger] after.slot_image(o, s) == self.slot_image(o, s),
    {
        let off = self.free_ranges()[i].0;
        let s0 = self.slots();
        let s2 = after.slots();
        assert forall|s: int| !self.live(off, s) by {
            if self.live(off, s) {
                self.lemma_slot_not_free(off, s, i);
            }
        }
        assert forall|o: int, s: int|
            after.live(o, s) <==> self.live(o, s) || (o == off && s == size) by {
            if s2.contains((o, s)) {
                let w = choose|w: int| 0 <= w < s2.len() && s2[w] == (o, s);
                if w < s0.len() {
                    assert(s0[w] == (o, s));
                }
            }
            if s0.contains((o, s)) {
                let w = choose|w: int| 0 <= w < s0.len() && s0[w] == (o, s);
                assert(s2[w] == (o, s));
            }
            if o == off && s == size {
                assert(s2[s0.len() as int] == (o, s));
            }
        }
        assert forall|o: int, s: int| self.live(o, s) implies #[trigger] after.slot_image(o, s)
            == self.slot_image(o, s) by {
            self.lemma_slot_not_free(o, s, i);
            self.lemma_slot_bytes_kept(after.bytes(), off, o, s);
        }
    }

    /// What holds of the taken slots of a page after the slot of `size`
    /// bytes at `off` was given back: the other slots are taken as before,
    /// and their bytes are what they were.
    pub proof fn lemma_slot_given_back(&self, after: &IndexPage, off: int, size: int)
        requires
            self.wf(),
            self.live(off, size),
            self.slots()[self.slot_place(off)] == (off, size),
            after.slots() == self.slots().remove(self.slot_place(off)),
            after.bytes() == self.bytes().update(off, DELETED),
        ensures
            forall|o: int, s: int| after.live(o, s) <==> self.live(o, s) && o != off,
            forall|o: int, s: int|
                self.live(o, s) && o != off ==> #[trigger] after.slot_image(o, s)
                    == self.slot_image(o, s),
    {
        let s0 = self.slots();
        let s2 = after.slots();
        let k = self.slot_place(off);
        self.lemma_slots_apart(off, size, off, size);
        assert(0 <= k < s0.len()) by {
            let w = choose|w: int| 0 <= w < s0.len() && s0[w] == (off, size);
            assert(s0[w].0 == off);
        }
        assert forall|o: int, s: int| after.live(o, s) <==> self.live(o, s) && o != off by {
            if s2.contains((o, s)) {
                let w = choose|w: int| 0 <= w < s2.len() && s2[w] == (o, s);
                let w0 = if w < k {
                    w
                } else {
                    w + 1
                };
                assert(s0[w0] == (o, s));
                self.lemma_slots_apart(o, s, off, size);
                lemma_apart_at(s0, w0, k);
            }
            if s0.contains((o, s)) && o != off {
                let w = choose|w: int| 0 <= w < s0.len() && s0[w] == (o, s);
                assert(w != k);
                let w2 = if w < k {
                    w
                } else {
                    w - 1
                };
                assert(s2[w2] == (o, s));
            }
        }
        assert forall|o: int, s: int| self.live(o, s) && o != off implies #[trigger] after.slot_image(
            o,
            s,
        ) == self.slot_image(o, s) by {
            self.lemma_slots_apart(o, s, off, size);
            self.lemma_slot_bytes_kept(after.bytes(), off, o, s);
        }
    }

    /// The bytes of a taken slot are what they were where only a byte
    /// outside the slot has changed.
    pub proof fn lemma_slot_bytes_kept(&self, after: Seq<u8>, at: int, o1: int, s1: int)
        requires
            self.wf(),
            self.live(o1, s1),
            !(o1 <= at < o1 + s1),
            0 <= at < self.bytes().len(),
            after == self.bytes().update(at, after[at]),
        ensures
            after.subrange(o1, o1 + s1) == self.bytes().subrange(o1, o1 + s1),
    {
        self.lemma_slots_apart(o1, s1, o1, s1);
        assert(after.subrange(o1, o1 + s1) =~= self.bytes().subrange(o1, o1 + s1));
    }

    /// Writes `data` into the taken slot at `offset`, which is as long as
    /// `data`.
    pub fn write_slot(&mut self, offset: u16, data: &[u8])
        requires
            old(self).wf(),
            old(self).live(offset as int, data@.len() as int),
        ensures
            final(self).wf(),
            final(self).spec_index() == old(self).spec_index(),
            final(self).spec_dirty() == old(self).spec_dirty(),
            final(self).free_ranges() == old(self).free_ranges(),
            final(self).slots() == old(self).slots(),
            final(self).spec_free_max() == old(self).spec_free_max(),
            final(self).bytes().len() == old(self).bytes().len(),
            final(self).bytes().subrange(offset as int, offset + data@.len()) == data@,
            forall|i: int|
                0 <= i < old(self).bytes().len() && !(offset <= i < offset + data@.len())
                    ==> #[trigger] final(self).bytes()[i] == old(self).bytes()[i],
    {
        proof {
            self.lemma_slots_apart(
                offset as int,
                data@.len() as int,
                offset as int,
                data@.len() as int,
            );
        }
        let n = data.len();
        let off = offset as usize;
        let mut i: usize = 0;
        while i < n
            invariant
                i <= n,
                n == data@.len(),
                off == offset,
                off + n <= 4096,
                self.space@.len() == 4096,
                self.free_space == old(self).free_space,
                self.free_offset == old(self).free_offset,
                self.free_max == old(self).free_max,
                self.index == old(self).index,
                self.dirty == old(self).dirty,
                self.slots == old(self).slots,
                forall|j: int| 0 <= j < i ==> #[trigger] self.space@[off + j] == data@[j],
                forall|j: int|
                    0 <= j < 4096 && !(off <= j < off + i) ==> #[trigger] self.space@[j] == old(
                        self,
                    ).space@[j],
            decreases n - i,
        {
            self.space[off + i] = data[i];
            i += 1;
        }
        proof {
            assert(self.free_ranges() =~= old(self).free_ranges());
            assert forall|j: int| 0 <= j < n implies self.space@.subrange(off as int, off + n)[j]
                == data@[j] by {
                assert(self.space@[off + j] == data@[j]);
            }
            assert(self.space@.subrange(off as int, off + n) =~= data@);
        }
    }

    /// The free ranges of the page, each as offset and length.
    pub fn free_list(&self) -> (r: Vec<(u16, u16)>)
        requires
            self.wf(),
        ensures
            r@.len() == self.free_ranges().len(),
            forall|i: int|
                0 <= i < r@.len() ==> (#[trigger] r@[i]).0 == self.free_ranges()[i].0 && r@[i].1
                    == self.free_ranges()[i].1,
    {
        let n = self.free_space.len();
        let mut r: Vec<(u16, u16)> = Vec::new();
        let mut i: usize = 0;
        while i < n
            invariant
                i <= n,
                n == self.free_space@.len(),
                n == self.free_offset@.len(),
                r@.len() == i,
                forall|j: int|
                    0 <= j < i ==> (#[trigger] r@[j]).0 == self.free_offset@[j] && r@[j].1
                        == self.free_space@[j],
            decreases n - i,
        {
            r.push((self.free_offset[i], self.free_space[i]));
            i += 1;
        }
        r
    }

    /// Marks the page as changed, or as unchanged.
    pub fn set_dirty(&mut self, b: bool)
        ensures
            final(self).spec_dirty() == b,
            final(self).free_ranges() == old(self).free_ranges(),
            final(self).slots() == old(self).slots(),
            final(self).spec_free_max() == old(self).spec_free_max(),
            final(self).spec_index() == old(self).spec_index(),
            final(self).bytes() == old(self).bytes(),
            old(self).wf() ==> final(self).wf(),
    {
        self.dirty = b;
    }

    /// The page was marked as changed.
    pub fn is_dirty(&self) -> (b: bool)
        ensures
            b == self.spec_dirty(),
    {
        self.dirty
    }

    /// Length of the longest free range.
    pub fn free_max(&self) -> (m: u16)
        ensures
            m == self.spec_free_max(),
    {
        self.free_max
    }

    /// Identifier of the page in its pool.
    pub fn index(&self) -> (i: u32)
        ensures
            i == self.spec_index(),
    {
        self.index
    }
}

/// An entry of the free-space index: a page, under the length of its
/// longest free range.
#[derive(Clone, Copy, Debug)]
pub struct PageKey {
    pub free_max: u16,
    pub index: u32,
}

impl Value for PageKey {
    /// Pages are ordered by the length of their longest free range, and
    /// pages with the same length by their identifier.
    open spec fn spec_value(&self) -> u64 {
        (self.free_max * 0x1_0000_0000 + self.index) as u64
    }

    fn value(&self) -> (v: u64) {
        (self.free_max as u64) * 0x1_0000_0000 + (self.index as u64)
    }
}

/// The page `id` has an entry in `keys`.
pub open spec fn indexed(keys: Seq<PageKey>, id: int) -> bool {
    exists|i: int| 0 <= i < keys.len() && (#[trigger] keys[i]).index == id
}

/// The pool of index pages: all pages, and the free-space index of those
/// that have room for a node.
pub struct IndexPool {
    /// Entries of the pages whose longest free range can take a node of the
    /// smallest class.
    available_set: SkipList<PageKey>,
    /// All pages; the page with identifier `id` is at place `id - 1`.
    unify_space: Vec<IndexPage>,
    /// Greatest number of pages that the pool may hold.
    limit: u32,
}

impl IndexPool {
    /// All pages of the pool; the page with identifier `id` is at place
    /// `id - 1`.
    pub closed spec fn pages(&self) -> Seq<IndexPage> {
        self.unify_space@
    }

    /// The entries of the free-space index, in its order.
    pub closed spec fn index_keys(&self) -> Seq<PageKey> {
        self.available_set@
    }

    /// Greatest number of pages that the pool may hold.
    pub closed spec fn spec_limit(&self) -> u32 {
        self.limit
    }

    /// `id` names a page of the pool.
    pub open spec fn has_page(&self, id: int) -> bool {
        1 <= id <= self.pages().len()
    }

    /// The slot of `size` bytes at address `addr` holds a node.
    pub open spec fn live(&self, addr: u32, size: int) -> bool {
        &&& self.has_page(spec_page_of(addr) as int)
        &&& self.pages()[spec_page_of(addr) - 1].live(spec_offset_of(addr) as int, size)
    }

    /// The bytes of the slot of `size` bytes at address `addr`.
    pub open spec fn slot_bytes(&self, addr: u32, size: int) -> Seq<u8> {
        self.pages()[spec_page_of(addr) - 1].slot_image(spec_offset_of(addr) as int, size)
    }

    /// The invariant of the pool while the page `out` is being worked on
    /// (`out` is 0 where no page is): every page is well formed and knows
    /// its identifier, and the free-space index holds one entry for each
    /// page but `out` whose longest free range can take a node of the
    /// smallest class, under the length of that range, and no other entry.
    pub closed spec fn inv(&self, out: int) -> bool {
        let keys = self.available_set@;
        let pages = self.unify_space@;
        &&& self.available_set.wf()
        &&& pages.len() <= self.limit <= MAX_PAGES
        &&& forall|i: int|
            0 <= i < pages.len() ==> (#[trigger] pages[i]).wf() && pages[i].spec_index() == i + 1
        &&& forall|i: int|
            0 <= i < keys.len() ==> {
                &&& 1 <= (#[trigger] keys[i]).index <= pages.len()
                &&& keys[i].index != out
                &&& keys[i].free_max == pages[keys[i].index - 1].spec_free_max()
                &&& keys[i].free_max >= NODE4_SIZE
            }
        &&& forall|i: int, j: int|
            0 <= i < j < keys.len() ==> (#[trigger] keys[i]).index != (#[trigger] keys[j]).index
        &&& forall|id: int|
            1 <= id <= pages.len() && id != out && (#[trigger] pages[id - 1]).spec_free_max()
                >= NODE4_SIZE ==> indexed(keys, id)
    }

    /// The pool is well formed: its invariant holds with no page left out.
    pub open spec fn wf(&self) -> bool {
        self.inv(0)
    }

    /// In a well-formed pool every page is well formed and knows its
    /// identifier, so that on every page the free bytes and the bytes of
    /// the taken slots add up to the page without its meta region.
    pub proof fn lemma_pages_wf(&self, out: int, id: int)
        requires
            self.inv(out),
            self.has_page(id),
        ensures
            self.pages()[id - 1].wf(),
            self.pages()[id - 1].spec_index() == id,
            self.pages()[id - 1].free_total() + self.pages()[id - 1].used_total() == PAGE_SIZE
                - PAGE_META_SIZE,
            self.pages().len() <= self.spec_limit() <= MAX_PAGES,
    {
        self.pages()[id - 1].lemma_accounting();
    }

    /// In a well-formed pool the free-space index is in the order of its
    /// keys, and holds one entry for each page whose longest free range can
    /// take a node of the smallest class, under the length of that range,
    /// and no other entry.
    pub proof fn lemma_index(&self)
        requires
            self.wf(),
        ensures
            sorted(self.index_keys()),
            forall|i: int|
                0 <= i < self.index_keys().len() ==> {
                    let e = #[trigger] self.index_keys()[i];
                    &&& self.has_page(e.index as int)
                    &&& e.free_max == self.pages()[e.index - 1].spec_free_max()
                    &&& e.free_max >= NODE4_SIZE
                },
            forall|i: int, j: int|
                0 <= i < j < self.index_keys().len() ==> (#[trigger] self.index_keys()[i]).index != (
                #[trigger] self.index_keys()[j]).index,
            forall|id: int|
                self.has_page(id) && (#[trigger] self.pages()[id - 1]).spec_free_max() >= NODE4_SIZE
                    ==> indexed(self.index_keys(), id),
    {
        self.available_set.lemma_ordered();
    }

    /// A slot is known by its address: two taken slots at one address are
    /// one slot.
    pub proof fn lemma_live_size(&self, out: int, addr: u32, s1: int, s2: int)
        requires
            self.inv(out),
            self.live(addr, s1),
            self.live(addr, s2),
        ensures
            s1 == s2,
    {
        self.pages()[spec_page_of(addr) - 1].lemma_live_size(spec_offset_of(addr) as int, s1, s2);
    }

    /// A pool without pages, which may hold as many pages as an address
    /// can name.
    pub fn new() -> (pool: IndexPool)
        ensures
            pool.wf(),
            pool.pages() == Seq::<IndexPage>::empty(),
            pool.index_keys() == Seq::<PageKey>::empty(),
            pool.spec_limit() == MAX_PAGES,
    {
        IndexPool { available_set: SkipList::new(32), unify_space: Vec::new(), limit: MAX_PAGES }
    }

    /// A pool without pages, which may hold `limit` pages, but no more
    /// than an address can name.
    pub fn with_limit(limit: u32) -> (pool: IndexPool)
        ensures
            pool.wf(),
            pool.pages() == Seq::<IndexPage>::empty(),
            pool.index_keys() == Seq::<PageKey>::empty(),
            pool.spec_limit() == if limit > MAX_PAGES {
                MAX_PAGES
            } else {
                limit
            },
    {
        let limit = if limit > MAX_PAGES {
            MAX_PAGES
        } else {
            limit
        };
        IndexPool { available_set: SkipList::new(32), unify_space: Vec::new(), limit }
    }

    /// Greatest number of pages that the pool may hold.
    pub fn limit(&self) -> (n: u32)
        ensures
            n == self.spec_limit(),
    {
        self.limit
    }

    /// Number of pages.
    pub fn page_count(&self) -> (n: usize)
        ensures
            n == self.pages().len(),
    {
        self.unify_space.len()
    }

    /// The page with identifier `id`; none where the pool has no such page.
    pub fn page(&self, id: u32) -> (p: Option<&IndexPage>)
        ensures
            self.has_page(id as int) ==> p == Some(&self.pages()[id - 1]),
            !self.has_page(id as int) ==> p is None,
    {
        if id >= 1 && (id as usize) <= self.unify_space.len() {
            Some(&self.unify_space[(id - 1) as usize])
        } else {
            None
        }
    }

    /// Adds a page with no slot taken and hands out its identifier; none
    /// where the pool holds as many pages as an address can name. The new
    /// page is left out of the free-space index.
    pub fn new_page(&mut self) -> (r: Option<u32>)
        requires
            old(self).wf(),
        ensures
            final(self).spec_limit() == old(self).spec_limit(),
            final(self).index_keys() == old(self).index_keys(),
            match r {
                Some(id) => {
                    &&& id == old(self).pages().len() + 1
                    &&& final(self).pages().len() == id
                    &&& final(self).pages().drop_last() == old(self).pages()
                    &&& final(self).pages()[id - 1].slots() == Seq::<(int, int)>::empty()
                    &&& final(self).pages()[id - 1].free_ranges() == seq![
                        (PAGE_META_SIZE as int, PAGE_DATA_SIZE as int),
                    ]
                    &&& final(self).pages()[id - 1].spec_free_max() == PAGE_DATA_SIZE
                    &&& final(self).pages()[id - 1].bytes()[0] == INDEX_TYPE
                    &&& forall|i: int|
                        1 <= i < PAGE_SIZE ==> #[trigger] final(self).pages()[id - 1].bytes()[i]
                            == 0
                    &&& final(self).inv(id as int)
                },
                None => old(self).pages().len() == old(self).spec_limit() && final(self).pages() == old(
                    self,
                ).pages() && final(self).wf(),
            },
    {
        let n = self.unify_space.len();
        if n >= self.limit as usize {
            return None;
        }
        let mut p = IndexPage::new();
        let id: u32 = (n + 1) as u32;
        p.index = id;
        self.unify_space.push(p);
        proof {
            assert(self.unify_space@.drop_last() =~= old(self).unify_space@);
            assert forall|i: int| 0 <= i < self.unify_space@.len() implies (
            #[trigger] self.unify_space@[i]).wf() && self.unify_space@[i].spec_index() == i
                + 1 by {
                if i < n {
                    assert(self.unify_space@[i] == old(self).unify_space@[i]);
                }
            }
            assert forall|i: int| 0 <= i < self.available_set@.len() implies {
                &&& 1 <= (#[trigger] self.available_set@[i]).index <= self.unify_space@.len()
                &&& self.available_set@[i].index != id
                &&& self.available_set@[i].free_max == self.unify_space@[self.available_set@[i].index
                    - 1].spec_free_max()
                &&& self.available_set@[i].free_max >= NODE4_SIZE
            } by {
                let e = self.available_set@[i];
                assert(self.unify_space@[e.index - 1] == old(self).unify_space@[e.index - 1]);
            }
            assert forall|id2: int|
                1 <= id2 <= self.unify_space@.len() && id2 != id && (
                #[trigger] self.unify_space@[id2 - 1]).spec_free_max() >= NODE4_SIZE implies indexed(
                self.available_set@,
                id2,
            ) by {
                assert(self.unify_space@[id2 - 1] == old(self).unify_space@[id2 - 1]);
            }
        }
        Some(id)
    }
    /// The pages of `final` are those of `old`, but for the page `id`.
    pub open spec fn same_pages_but(old: &Self, new: &Self, id: int) -> bool {
        &&& new.pages().len() == old.pages().len()
        &&& forall|i: int|
            1 <= i <= old.pages().len() && i != id ==> #[trigger] new.pages()[i - 1]
                == old.pages()[i - 1]
    }

    /// Some page of the pool has a free range of `size` bytes.
    pub open spec fn has_room(&self, size: int) -> bool {
        exists|i: int|
            0 <= i < self.pages().len() && (#[trigger] self.pages()[i]).spec_free_max() >= size
    }

    /// The page `id` has a free range of `size` bytes, so the pool has
    /// room for them.
    pub proof fn lemma_page_has_room(&self, id: int, size: int)
        requires
            self.has_page(id),
            self.pages()[id - 1].spec_free_max() >= size,
        ensures
            !self.no_room(size),
            self.has_room(size),
    {
        assert(0 <= id - 1 < self.pages().len() && self.pages()[id - 1].spec_free_max() >= size);
    }

    /// A pool has room for `size` bytes exactly where it is not without
    /// room for them.
    pub proof fn lemma_room(&self, size: int)
        ensures
            self.has_room(size) <==> !self.no_room(size),
    {
        if self.has_room(size) {
            let i = choose|i: int|
                0 <= i < self.pages().len() && (#[trigger] self.pages()[i]).spec_free_max()
                    >= size;
            self.lemma_page_has_room(i + 1, size);
        }
        if !self.no_room(size) {
            let id = choose|id: int|
                1 <= id <= self.pages().len() && !((#[trigger] self.pages()[id - 1]).spec_free_max()
                    < size);
            self.lemma_page_has_room(id, size);
        }
    }

    /// Every page of `old` is a page of `new`, and its longest free range
    /// is shorter by no more than `size` bytes.
    pub open spec fn room_kept(old: &Self, new: &Self, size: int) -> bool {
        &&& old.pages().len() <= new.pages().len()
        &&& forall|i: int|
            0 <= i < old.pages().len() ==> (#[trigger] new.pages()[i]).spec_free_max()
                >= old.pages()[i].spec_free_max() - size
    }

    /// Room that is kept over two steps is kept over both.
    pub proof fn lemma_room_trans(old: &Self, mid: &Self, new: &Self, s1: int, s2: int)
        requires
            Self::room_kept(old, mid, s1),
            Self::room_kept(mid, new, s2),
        ensures
            Self::room_kept(old, new, s1 + s2),
    {
        assert forall|i: int| 0 <= i < old.pages().len() implies (#[trigger] new.pages()[i]).spec_free_max()
            >= old.pages()[i].spec_free_max() - (s1 + s2) by {
            assert(mid.pages()[i].spec_free_max() >= old.pages()[i].spec_free_max() - s1);
        }
    }

    /// A pool to which a slot of the page `id` was given back keeps its
    /// room.
    pub proof fn lemma_room_released(old: &Self, new: &Self, id: int, r: (int, int))
        requires
            old.wf(),
            new.wf(),
            1 <= r.1,
            old.has_page(id),
            Self::same_pages_but(old, new, id),
            new.pages()[id - 1].free_ranges() == give_back(old.pages()[id - 1].free_ranges(), r),
        ensures
            Self::room_kept(old, new, 0),
    {
        assert forall|i: int| 0 <= i < old.pages().len() implies (#[trigger] new.pages()[i]).spec_free_max()
            >= old.pages()[i].spec_free_max() - 0 by {
            if i == id - 1 {
                old.lemma_pages_wf(0, id);
                new.lemma_pages_wf(0, id);
                old.pages()[id - 1].lemma_accounting();
                new.pages()[id - 1].lemma_accounting();
                lemma_give_back_max(
                    old.pages()[id - 1].free_ranges(),
                    r,
                    old.pages()[id - 1].spec_free_max() as int,
                    new.pages()[id - 1].spec_free_max() as int,
                );
            } else {
                assert(new.pages()[(i + 1) - 1] == old.pages()[(i + 1) - 1]);
            }
        }
    }

    /// A pool from which a slot of `size` bytes was taken, from the page
    /// `id`, keeps its room but for those bytes.
    pub proof fn lemma_room_kept(old: &Self, new: &Self, id: int, size: int)
        requires
            old.wf(),
            new.wf(),
            0 < size,
            new.has_page(id),
            if id <= old.pages().len() {
                &&& Self::same_pages_but(old, new, id)
                &&& new.pages()[id - 1].free_ranges() == carve(
                    old.pages()[id - 1].free_ranges(),
                    size,
                )
            } else {
                new.pages().drop_last() == old.pages()
            },
        ensures
            Self::room_kept(old, new, size),
    {
        assert forall|i: int| 0 <= i < old.pages().len() implies (#[trigger] new.pages()[i]).spec_free_max()
            >= old.pages()[i].spec_free_max() - size by {
            if id <= old.pages().len() {
                if i == id - 1 {
                    old.lemma_pages_wf(0, id);
                    new.lemma_pages_wf(0, id);
                    old.pages()[id - 1].lemma_accounting();
                    new.pages()[id - 1].lemma_accounting();
                    lemma_carve_max(
                        old.pages()[id - 1].free_ranges(),
                        size,
                        old.pages()[id - 1].spec_free_max() as int,
                        new.pages()[id - 1].spec_free_max() as int,
                    );
                } else {
                    assert(new.pages()[(i + 1) - 1] == old.pages()[(i + 1) - 1]);
                }
            } else {
                assert(new.pages().drop_last()[i] == new.pages()[i]);
            }
        }
    }

    /// No page of the pool has a free range of `size` bytes.
    pub open spec fn no_room(&self, size: int) -> bool {
        forall|id: int|
            1 <= id <= self.pages().len() ==> (#[trigger] self.pages()[id - 1]).spec_free_max()
                < size
    }

    /// Of the pages of the pool with a free range of `size` bytes, none
    /// has a shorter longest free range than the page `id`.
    pub open spec fn best_fit(&self, id: int, size: int) -> bool {
        &&& self.has_page(id)
        &&& self.pages()[id - 1].spec_free_max() >= size
        &&& forall|id2: int|
            1 <= id2 <= self.pages().len() && (#[trigger] self.pages()[id2 - 1]).spec_free_max()
                >= size ==> self.pages()[id - 1].spec_free_max() <= self.pages()[id2
                - 1].spec_free_max()
    }

    /// Picks the page for a slot of `size` bytes and takes it out of the
    /// free-space index: of the pages with such a free range the one whose
    /// longest free range is shortest; a new page where there is none.
    /// None where a page cannot hold such a slot, or where a new page is
    /// needed and the pool cannot grow.
    #[verifier::rlimit(30)]
    pub fn find_page(&mut self, size: u16) -> (r: Option<u32>)
        requires
            old(self).wf(),
        ensures
            final(self).spec_limit() == old(self).spec_limit(),
            match r {
                Some(id) => {
                    &&& final(self).inv(id as int)
                    &&& final(self).has_page(id as int)
                    &&& final(self).pages()[id - 1].spec_free_max() >= size
                    &&& size <= PAGE_DATA_SIZE
                    &&& if id <= old(self).pages().len() {
                        &&& final(self).pages() == old(self).pages()
                        &&& size >= NODE4_SIZE ==> old(self).best_fit(id as int, size as int)
                    } else {
                        &&& id == old(self).pages().len() + 1
                        &&& final(self).pages().drop_last() == old(self).pages()
                        &&& final(self).pages()[id - 1].slots() == Seq::<(int, int)>::empty()
                        &&& final(self).pages()[id - 1].free_ranges() == seq![
                            (PAGE_META_SIZE as int, PAGE_DATA_SIZE as int),
                        ]
                        &&& size >= NODE4_SIZE ==> old(self).no_room(size as int)
                    }
                },
                None => {
                    &&& final(self).wf()
                    &&& final(self).pages() == old(self).pages()
                    &&& final(self).index_keys() == old(self).index_keys()
                    &&& size > PAGE_DATA_SIZE || (old(self).pages().len() == old(self).spec_limit() && (size
                        >= NODE4_SIZE ==> old(self).no_room(size as int)))
                },
            },
    {
        if size > PAGE_DATA_SIZE {
            return None;
        }
        let probe = PageKey { free_max: size, index: 0 };
        let ghost keys = self.available_set@;
        let ghost k = rank(keys, probe.spec_value());
        proof {
            self.available_set.lemma_ordered();
            lemma_rank_parts(keys, probe.spec_value());
        }
        match self.available_set.get(probe) {
            Some(e) => {
                proof {
                    let keys2 = self.available_set@;
                    let pages = self.unify_space@;
                    assert(e == keys[k]);
                    assert(keys[k].spec_value() >= probe.spec_value());
                    assert forall|i: int| 0 <= i < keys2.len() implies {
                        &&& 1 <= (#[trigger] keys2[i]).index <= pages.len()
                        &&& keys2[i].index != e.index
                        &&& keys2[i].free_max == pages[keys2[i].index - 1].spec_free_max()
                        &&& keys2[i].free_max >= NODE4_SIZE
                    } by {
                        let i1 = if i < k {
                            i
                        } else {
                            i + 1
                        };
                        assert(keys2[i] == keys[i1]);
                        if i1 < k {
                            assert(keys[i1].index != keys[k].index);
                        } else {
                            assert(keys[k].index != keys[i1].index);
                        }
                    }
                    assert forall|i: int, j: int| 0 <= i < j < keys2.len() implies (
                    #[trigger] keys2[i]).index != (#[trigger] keys2[j]).index by {
                        let i1 = if i < k {
                            i
                        } else {
                            i + 1
                        };
                        let j1 = if j < k {
                            j
                        } else {
                            j + 1
                        };
                        assert(keys[i1].index != keys[j1].index);
                    }
                    assert forall|id: int|
                        1 <= id <= pages.len() && id != e.index && (#[trigger] pages[id
                            - 1]).spec_free_max() >= NODE4_SIZE implies indexed(keys2, id) by {
                        assert(indexed(keys, id));
                        let w = choose|w: int| 0 <= w < keys.len() && (#[trigger] keys[w]).index == id;
                        let w2 = if w < k {
                            w
                        } else {
                            w - 1
                        };
                        assert(keys2[w2] == keys[w]);
                    }
                    if size >= NODE4_SIZE {
                        assert forall|id2: int|
                            1 <= id2 <= pages.len() && (#[trigger] pages[id2 - 1]).spec_free_max()
                                >= size implies pages[e.index - 1].spec_free_max() <= pages[id2
                            - 1].spec_free_max() by {
                            assert(indexed(keys, id2));
                            let w = choose|w: int|
                                0 <= w < keys.len() && (#[trigger] keys[w]).index == id2;
                            assert(keys[w].spec_value() >= probe.spec_value());
                            if w < k {
                                assert(keys[w].spec_value() < probe.spec_value());
                            }
                            assert(keys[k].spec_value() <= keys[w].spec_value());
                        }
                    }
                }
                Some(e.index)
            },
            None => {
                proof {
                    let pages = self.unify_space@;
                    if size >= NODE4_SIZE {
                        assert forall|id: int| 1 <= id <= pages.len() implies (#[trigger] pages[id
                            - 1]).spec_free_max() < size by {
                            if pages[id - 1].spec_free_max() >= size {
                                assert(indexed(keys, id));
                                let w = choose|w: int|
                                    0 <= w < keys.len() && (#[trigger] keys[w]).index == id;
                                assert(keys[w].spec_value() < probe.spec_value());
                            }
                        }
                    }
                }
                self.new_page()
            },
        }
    }

    /// Puts the page `id`, which was left out of the free-space index, back
    /// into it where its longest free range can take a node of the smallest
    /// class.
    pub fn put_page(&mut self, id: u32)
        requires
            old(self).inv(id as int),
            old(self).has_page(id as int),
        ensures
            final(self).spec_limit() == old(self).spec_limit(),
            final(self).wf(),
            final(self).pages() == old(self).pages(),
    {
        let fm = self.unify_space[(id - 1) as usize].free_max;
        if fm >= NODE4_SIZE {
            let e = PageKey { free_max: fm, index: id };
            let ghost keys = self.available_set@;
            let ghost k = rank(keys, e.spec_value());
            self.available_set.insert(e);
            proof {
                let keys2 = self.available_set@;
                let pages = self.unify_space@;
                assert(keys2 == keys.insert(k, e));
                crate::skiplist::lemma_rank_bounds(keys, e.spec_value());
                assert forall|i: int| 0 <= i < keys2.len() implies {
                    &&& 1 <= (#[trigger] keys2[i]).index <= pages.len()
                    &&& keys2[i].index != 0
                    &&& keys2[i].free_max == pages[keys2[i].index - 1].spec_free_max()
                    &&& keys2[i].free_max >= NODE4_SIZE
                    &&& i != k ==> keys2[i].index != id
                } by {
                    if i != k {
                        let i1 = if i < k {
                            i
                        } else {
                            i - 1
                        };
                        assert(keys2[i] == keys[i1]);
                    }
                }
                assert forall|i: int, j: int| 0 <= i < j < keys2.len() implies (
                #[trigger] keys2[i]).index != (#[trigger] keys2[j]).index by {
                    let i1 = if i < k {
                        i
                    } else {
                        i - 1
                    };
                    let j1 = if j < k {
                        j
                    } else {
                        j - 1
                    };
                    if i != k && j != k {
                        assert(keys[i1].index != keys[j1].index);
                    }
                }
                assert forall|id2: int|
                    1 <= id2 <= pages.len() && id2 != 0 && (#[trigger] pages[id2
                        - 1]).spec_free_max() >= NODE4_SIZE implies indexed(keys2, id2) by {
                    if id2 == id {
                        assert(keys2[k].index == id);
                    } else {
                        assert(indexed(keys, id2));
                        let w = choose|w: int|
                            0 <= w < keys.len() && (#[trigger] keys[w]).index == id2;
                        let w2 = if w < k {
                            w
                        } else {
                            w + 1
                        };
                        assert(keys2[w2] == keys[w]);
                    }
                }
            }
        }
    }
    /// `new` is `old` with another page in the place of the page `id`; the
    /// free-space index is as it was.
    spec fn page_changed(old: &Self, new: &Self, id: int) -> bool {
        &&& old.has_page(id)
        &&& new.available_set@ == old.available_set@
        &&& new.available_set.wf()
        &&& new.limit == old.limit
        &&& new.unify_space@.len() == old.unify_space@.len()
        &&& forall|j: int|
            0 <= j < old.unify_space@.len() && j != id - 1 ==> #[trigger] new.unify_space@[j]
                == old.unify_space@[j]
        &&& new.unify_space@[id - 1].wf()
        &&& new.unify_space@[id - 1].spec_index() == id
    }

    /// The invariant holds on while the page that is left out changes.
    proof fn lemma_page_changed(old: &Self, new: &Self, id: int)
        requires
            old.inv(id),
            Self::page_changed(old, new, id),
        ensures
            new.inv(id),
            Self::same_pages_but(old, new, id),
    {
        let pages0 = old.unify_space@;
        let pages2 = new.unify_space@;
        let keys = new.available_set@;
        assert forall|j: int| 0 <= j < pages2.len() implies (#[trigger] pages2[j]).wf()
            && pages2[j].spec_index() == j + 1 by {
            if j != id - 1 {
                assert(pages2[j] == pages0[j]);
            }
        }
        assert forall|j: int| 0 <= j < keys.len() implies {
            &&& 1 <= (#[trigger] keys[j]).index <= pages2.len()
            &&& keys[j].index != id
            &&& keys[j].free_max == pages2[keys[j].index - 1].spec_free_max()
            &&& keys[j].free_max >= NODE4_SIZE
        } by {
            assert(keys[j].index != id);
            assert(pages2[keys[j].index - 1] == pages0[keys[j].index - 1]);
        }
        assert forall|id2: int|
            1 <= id2 <= pages2.len() && id2 != id && (#[trigger] pages2[id2 - 1]).spec_free_max()
                >= NODE4_SIZE implies indexed(keys, id2) by {
            assert(pages2[id2 - 1] == pages0[id2 - 1]);
        }
        assert forall|j: int| 1 <= j <= pages0.len() && j != id implies #[trigger] new.pages()[j
            - 1] == old.pages()[j - 1] by {
            assert(pages2[j - 1] == pages0[j - 1]);
        }
    }

    /// What holds of the taken slots of a pool after a slot of `size`
    /// bytes was taken at `addr` on one of its pages.
    proof fn lemma_live_added(old: &Self, new: &Self, addr: u32, size: int)
        requires
            Self::same_pages_but(old, new, spec_page_of(addr) as int),
            old.has_page(spec_page_of(addr) as int),
            ({
                let p0 = old.pages()[spec_page_of(addr) - 1];
                let p2 = new.pages()[spec_page_of(addr) - 1];
                let off = spec_offset_of(addr) as int;
                &&& forall|s: int| !p0.live(off, s)
                &&& forall|o: int, s: int| p2.live(o, s) <==> p0.live(o, s) || (o == off && s == size)
                &&& forall|o: int, s: int|
                    p0.live(o, s) ==> #[trigger] p2.slot_image(o, s) == p0.slot_image(o, s)
            }),
        ensures
            forall|s: int| !old.live(addr, s),
            forall|a: u32, s: int| new.live(a, s) <==> old.live(a, s) || (a == addr && s == size),
            forall|a: u32, s: int|
                old.live(a, s) ==> #[trigger] new.slot_bytes(a, s) == old.slot_bytes(a, s),
    {
        let id = spec_page_of(addr) as int;
        assert forall|a: u32, s: int| new.live(a, s) <==> old.live(a, s) || (a == addr && s
            == size) by {
            let ida = spec_page_of(a) as int;
            if 1 <= ida <= old.pages().len() && ida != id {
                assert(new.pages()[ida - 1] == old.pages()[ida - 1]);
            }
        }
        assert forall|a: u32, s: int| old.live(a, s) implies #[trigger] new.slot_bytes(a, s)
            == old.slot_bytes(a, s) by {
            let ida = spec_page_of(a) as int;
            if ida != id {
                assert(new.pages()[ida - 1] == old.pages()[ida - 1]);
            }
        }
    }

    /// What holds of the taken slots of a pool after the slot of `size`
    /// bytes at `addr` was given back.
    proof fn lemma_live_removed(old: &Self, new: &Self, addr: u32, size: int)
        requires
            Self::same_pages_but(old, new, spec_page_of(addr) as int),
            old.has_page(spec_page_of(addr) as int),
            ({
                let p0 = old.pages()[spec_page_of(addr) - 1];
                let p2 = new.pages()[spec_page_of(addr) - 1];
                let off = spec_offset_of(addr) as int;
                &&& forall|o: int, s: int| p2.live(o, s) <==> p0.live(o, s) && o != off
                &&& forall|o: int, s: int|
                    p0.live(o, s) && o != off ==> #[trigger] p2.slot_image(o, s) == p0.slot_image(
                        o,
                        s,
                    )
            }),
        ensures
            forall|a: u32, s: int| new.live(a, s) <==> old.live(a, s) && a != addr,
            forall|a: u32, s: int|
                old.live(a, s) && a != addr ==> #[trigger] new.slot_bytes(a, s) == old.slot_bytes(
                    a,
                    s,
                ),
    {
        let id = spec_page_of(addr) as int;
        assert forall|a: u32, s: int| new.live(a, s) <==> old.live(a, s) && a != addr by {
            let ida = spec_page_of(a) as int;
            if 1 <= ida <= old.pages().len() && ida != id {
                assert(new.pages()[ida - 1] == old.pages()[ida - 1]);
            }
        }
        assert forall|a: u32, s: int| old.live(a, s) && a != addr implies #[trigger] new.slot_bytes(
            a,
            s,
        ) == old.slot_bytes(a, s) by {
            let ida = spec_page_of(a) as int;
            if ida != id {
                assert(new.pages()[ida - 1] == old.pages()[ida - 1]);
            }
        }
    }

    /// What `find_page` has done to the pool when it hands out the page
    /// `id`: nothing, or it has added the page `id` without a taken slot.
    spec fn page_found(old: &Self, new: &Self, id: int) -> bool {
        &&& new.has_page(id)
        &&& if id <= old.pages().len() {
            new.pages() == old.pages()
        } else {
            &&& id == old.pages().len() + 1
            &&& new.pages().drop_last() == old.pages()
            &&& new.pages()[id - 1].slots() == Seq::<(int, int)>::empty()
        }
    }

    /// The taken slots of a pool and their bytes are what they were after
    /// `find_page`.
    proof fn lemma_page_found(old: &Self, new: &Self, id: int)
        requires
            Self::page_found(old, new, id),
        ensures
            forall|a: u32, s: int| new.live(a, s) <==> old.live(a, s),
            forall|a: u32, s: int|
                old.live(a, s) ==> #[trigger] new.slot_bytes(a, s) == old.slot_bytes(a, s),
    {
        assert forall|a: u32, s: int| new.live(a, s) <==> old.live(a, s) by {
            let ida = spec_page_of(a) as int;
            if id > old.pages().len() && 1 <= ida <= old.pages().len() {
                assert(new.pages().drop_last()[ida - 1] == new.pages()[ida - 1]);
            }
        }
        assert forall|a: u32, s: int| old.live(a, s) implies #[trigger] new.slot_bytes(a, s)
            == old.slot_bytes(a, s) by {
            let ida = spec_page_of(a) as int;
            if id > old.pages().len() {
                assert(new.pages().drop_last()[ida - 1] == new.pages()[ida - 1]);
            }
        }
    }

    /// Takes a slot for a node of class `tp` and hands out its address. The
    /// slot comes from the page that `find_page` picks, from the front of
    /// its first free range that is long enough. None where no page has
    /// room and the pool cannot grow; the pool is then as it was.
    #[verifier::rlimit(30)]
    pub fn alloc_node(&mut self, tp: NodeType) -> (r: Option<u32>)
        requires
            old(self).wf(),
        ensures
            final(self).spec_limit() == old(self).spec_limit(),
            final(self).wf(),
            match r {
                Some(addr) => {
                    let id = spec_page_of(addr) as int;
                    let off = spec_offset_of(addr) as int;
                    let size = tp.spec_size() as int;
                    &&& addr != 0
                    &&& final(self).has_page(id)
                    &&& PAGE_META_SIZE <= off
                    &&& off + size <= PAGE_SIZE
                    &&& forall|s: int| !old(self).live(addr, s)
                    &&& forall|a: u32, s: int|
                        final(self).live(a, s) <==> old(self).live(a, s) || (a == addr && s == size)
                    &&& forall|a: u32, s: int|
                        old(self).live(a, s) ==> #[trigger] final(self).slot_bytes(a, s) == old(
                            self,
                        ).slot_bytes(a, s)
                    &&& if id <= old(self).pages().len() {
                        &&& old(self).best_fit(id, size)
                        &&& Self::same_pages_but(old(self), final(self), id)
                        &&& final(self).pages()[id - 1].free_ranges() == carve(
                            old(self).pages()[id - 1].free_ranges(),
                            size,
                        )
                    } else {
                        &&& id == old(self).pages().len() + 1
                        &&& old(self).no_room(size)
                        &&& final(self).pages().drop_last() == old(self).pages()
                        &&& off == PAGE_META_SIZE
                        &&& final(self).pages()[id - 1].free_ranges() == seq![
                            (PAGE_META_SIZE + size, PAGE_DATA_SIZE - size),
                        ]
                    }
                },
                None => {
                    &&& final(self).pages() == old(self).pages()
                    &&& final(self).index_keys() == old(self).index_keys()
                    &&& old(self).pages().len() == old(self).spec_limit()
                    &&& old(self).no_room(tp.spec_size() as int)
                },
            },
            r is None <==> old(self).pages().len() == old(self).spec_limit() && old(self).no_room(
                tp.spec_size() as int,
            ),
            r is Some ==> Self::room_kept(old(self), final(self), tp.spec_size() as int),
    {
        let size = tp.size();
        match self.find_page(size) {
            None => None,
            Some(id) => {
                let ghost found = *self;
                let ghost p1 = self.unify_space@[id - 1];
                let ghost f = p1.free_ranges();
                let ghost fi = first_fit(f, size as int);
                proof {
                    p1.lemma_accounting();
                    lemma_first_where(f, RangeTest::Fits(size as int));
                    Self::lemma_page_found(old(self), &found, id as int);
                }
                let r = self.unify_space[(id - 1) as usize].new_node(tp);
                let off: u16 = match r {
                    Some(off) => off,
                    None => 0,
                };
                let addr = make_pointer_addr(id, off as u32);
                let ghost carved = *self;
                proof {
                    assert(in_page(f[fi]));
                    assert(spec_page_of(addr) == id && spec_offset_of(addr) == off);
                    Self::lemma_page_changed(&found, &carved, id as int);
                    p1.lemma_slot_taken(&carved.unify_space@[id - 1], fi, size as int);
                    Self::lemma_live_added(&found, &carved, addr, size as int);
                }
                self.put_page(id);
                proof {
                    if id > old(self).pages().len() {
                        assert(self.pages().drop_last() =~= old(self).pages()) by {
                            assert forall|j: int| 0 <= j < old(self).pages().len() implies self.pages().drop_last()[j]
                                == old(self).pages()[j] by {
                                assert(carved.pages()[j + 1 - 1] == found.pages()[j + 1 - 1]);
                                assert(found.pages().drop_last()[j] == found.pages()[j]);
                            }
                        }
                        lemma_first_where_is(f, RangeTest::Fits(size as int), 0);
                        assert(self.pages()[id - 1].free_ranges() =~= seq![
                            (PAGE_META_SIZE + size, PAGE_DATA_SIZE - size),
                        ]);
                        self.lemma_pages_wf(0, 1);
                    } else {
                        assert(old(self).pages()[id - 1].spec_free_max() >= size);
                    }
                    Self::lemma_room_kept(old(self), self, id as int, size as int);
                }
                Some(addr)
            },
        }
    }

    /// Takes a slot for a node of the smallest class, as `alloc_node` does
    /// for any class: from the page that fits best, or from a new page.
    pub fn alloc_node4(&mut self) -> (r: Option<u32>)
        requires
            old(self).wf(),
        ensures
            final(self).spec_limit() == old(self).spec_limit(),
            final(self).wf(),
            match r {
                Some(addr) => {
                    let id = spec_page_of(addr) as int;
                    let off = spec_offset_of(addr) as int;
                    let size = NODE4_SIZE as int;
                    &&& addr != 0
                    &&& final(self).has_page(id)
                    &&& PAGE_META_SIZE <= off
                    &&& off + size <= PAGE_SIZE
                    &&& forall|s: int| !old(self).live(addr, s)
                    &&& forall|a: u32, s: int|
                        final(self).live(a, s) <==> old(self).live(a, s) || (a == addr && s == size)
                    &&& forall|a: u32, s: int|
                        old(self).live(a, s) ==> #[trigger] final(self).slot_bytes(a, s) == old(
                            self,
                        ).slot_bytes(a, s)
                    &&& if id <= old(self).pages().len() {
                        &&& old(self).best_fit(id, size)
                        &&& Self::same_pages_but(old(self), final(self), id)
                        &&& final(self).pages()[id - 1].free_ranges() == carve(
                            old(self).pages()[id - 1].free_ranges(),
                            size,
                        )
                    } else {
                        &&& id == old(self).pages().len() + 1
                        &&& old(self).no_room(size)
                        &&& final(self).pages().drop_last() == old(self).pages()
                        &&& off == PAGE_META_SIZE
                        &&& final(self).pages()[id - 1].free_ranges() == seq![
                            (PAGE_META_SIZE + size, PAGE_DATA_SIZE - size),
                        ]
                    }
                },
                None => {
                    &&& final(self).pages() == old(self).pages()
                    &&& final(self).index_keys() == old(self).index_keys()
                    &&& old(self).pages().len() == old(self).spec_limit()
                    &&& old(self).no_room(NODE4_SIZE as int)
                },
            },
            r is None <==> old(self).pages().len() == old(self).spec_limit() && old(self).no_room(
                NODE4_SIZE as int,
            ),
            r is Some ==> Self::room_kept(old(self), final(self), NODE4_SIZE as int),
    {
        self.alloc_node(NodeType::N4)
    }

    /// Takes the entry of the page `id` out of the free-space index, where
    /// it has one.
    fn take_entry(&mut self, id: u32)
        requires
            old(self).wf(),
            old(self).has_page(id as int),
        ensures
            final(self).inv(id as int),
            final(self).pages() == old(self).pages(),
            final(self).spec_limit() == old(self).spec_limit(),
    {
        let ghost pages0 = self.unify_space@;
        let ghost keys = self.available_set@;
        let fm = self.unify_space[(id - 1) as usize].free_max;
        if fm >= NODE4_SIZE {
            let probe = PageKey { free_max: fm, index: id };
            let ghost k = rank(keys, probe.spec_value());
            proof {
                self.available_set.lemma_ordered();
                lemma_rank_parts(keys, probe.spec_value());
                assert(indexed(keys, id as int));
                let w = choose|w: int| 0 <= w < keys.len() && (#[trigger] keys[w]).index == id;
                assert(keys[w].spec_value() == probe.spec_value());
                if w < k {
                    assert(keys[w].spec_value() < probe.spec_value());
                }
                assert(keys[k].spec_value() <= keys[w].spec_value());
                assert(keys[k].spec_value() >= probe.spec_value());
                assert(keys[k].index == id);
            }
            let _ = self.available_set.get(probe);
            proof {
                let keys2 = self.available_set@;
                assert(keys2 == keys.remove(k));
                assert forall|j: int| 0 <= j < keys2.len() implies {
                    &&& 1 <= (#[trigger] keys2[j]).index <= pages0.len()
                    &&& keys2[j].index != id
                    &&& keys2[j].free_max == pages0[keys2[j].index - 1].spec_free_max()
                    &&& keys2[j].free_max >= NODE4_SIZE
                } by {
                    let j1 = if j < k {
                        j
                    } else {
                        j + 1
                    };
                    assert(keys2[j] == keys[j1]);
                    if j1 < k {
                        assert(keys[j1].index != keys[k].index);
                    } else {
                        assert(keys[k].index != keys[j1].index);
                    }
                }
                assert forall|a: int, b: int| 0 <= a < b < keys2.len() implies (
                #[trigger] keys2[a]).index != (#[trigger] keys2[b]).index by {
                    let a1 = if a < k {
                        a
                    } else {
                        a + 1
                    };
                    let b1 = if b < k {
                        b
                    } else {
                        b + 1
                    };
                    assert(keys[a1].index != keys[b1].index);
                }
                assert forall|id2: int|
                    1 <= id2 <= pages0.len() && id2 != id && (#[trigger] pages0[id2
                        - 1]).spec_free_max() >= NODE4_SIZE implies indexed(keys2, id2) by {
                    assert(indexed(keys, id2));
                    let w = choose|w: int| 0 <= w < keys.len() && (#[trigger] keys[w]).index == id2;
                    let w2 = if w < k {
                        w
                    } else {
                        w - 1
                    };
                    assert(keys2[w2] == keys[w]);
                }
            }
        } else {
            proof {
                assert forall|j: int| 0 <= j < keys.len() implies (#[trigger] keys[j]).index
                    != id by {
                    if keys[j].index == id {
                        assert(keys[j].free_max == pages0[id - 1].spec_free_max());
                    }
                }
            }
        }
    }

    /// Gives the slot of a node of class `tp` at address `addr` back to its
    /// page, and files the page in the free-space index under the new
    /// length of its longest free range.
    #[verifier::rlimit(30)]
    pub fn release(&mut self, addr: u32, tp: NodeType)
        requires
            old(self).wf(),
            old(self).live(addr, tp.spec_size() as int),
        ensures
            final(self).spec_limit() == old(self).spec_limit(),
            final(self).wf(),
            Self::same_pages_but(old(self), final(self), spec_page_of(addr) as int),
            final(self).pages()[spec_page_of(addr) - 1].free_ranges() == give_back(
                old(self).pages()[spec_page_of(addr) - 1].free_ranges(),
                (spec_offset_of(addr) as int, tp.spec_size() as int),
            ),
            final(self).pages()[spec_page_of(addr) - 1].free_total() == old(self).pages()[spec_page_of(
                addr,
            ) - 1].free_total() + tp.spec_size(),
            forall|a: u32, s: int| final(self).live(a, s) <==> old(self).live(a, s) && a != addr,
            forall|a: u32, s: int|
                old(self).live(a, s) && a != addr ==> #[trigger] final(self).slot_bytes(a, s) == old(
                    self,
                ).slot_bytes(a, s),
            Self::room_kept(old(self), final(self), 0),
    {
        let id: u32 = addr / 4096;
        let off: u16 = (addr % 4096) as u16;
        let ghost p0 = self.unify_space@[id - 1];
        self.take_entry(id);
        let ghost taken = *self;
        self.unify_space[(id - 1) as usize].free_node(off, tp);
        let ghost freed = *self;
        proof {
            Self::lemma_page_changed(&taken, &freed, id as int);
            p0.lemma_slot_given_back(
                &freed.unify_space@[id - 1],
                off as int,
                tp.spec_size() as int,
            );
            Self::lemma_live_removed(old(self), &freed, addr, tp.spec_size() as int);
        }
        self.put_page(id);
        proof {
            Self::lemma_room_released(
                old(self),
                self,
                id as int,
                (spec_offset_of(addr) as int, tp.spec_size() as int),
            );
        }
    }

    /// Writes `data` into the taken slot at `addr`, which is as long as
    /// `data`.
    pub fn write_slot(&mut self, addr: u32, data: &[u8])
        requires
            old(self).wf(),
            old(self).live(addr, data@.len() as int),
        ensures
            final(self).spec_limit() == old(self).spec_limit(),
            final(self).wf(),
            final(self).index_keys() == old(self).index_keys(),
            final(self).pages().len() == old(self).pages().len(),
            forall|i: int|
                0 <= i < old(self).pages().len() ==> (#[trigger] final(self).pages()[i]).free_ranges()
                    == old(self).pages()[i].free_ranges() && final(self).pages()[i].spec_free_max()
                    == old(self).pages()[i].spec_free_max(),
            Self::room_kept(old(self), final(self), 0),
            forall|a: u32, s: int| final(self).live(a, s) <==> old(self).live(a, s),
            final(self).slot_bytes(addr, data@.len() as int) == data@,
            forall|a: u32, s: int|
                old(self).live(a, s) && a != addr ==> #[trigger] final(self).slot_bytes(a, s) == old(
                    self,
                ).slot_bytes(a, s),
    {
        let id: u32 = addr / 4096;
        let off: u16 = (addr % 4096) as u16;
        let i: usize = (id - 1) as usize;
        let ghost pages0 = self.unify_space@;
        let ghost p0 = pages0[id - 1];
        self.unify_space[i].write_slot(off, data);
        proof {
            let pages2 = self.unify_space@;
            let p2 = pages2[id - 1];
            let keys = self.available_set@;
            assert forall|j: int| 0 <= j < pages2.len() implies (#[trigger] pages2[j]).wf()
                && pages2[j].spec_index() == j + 1 by {
                if j != i {
                    assert(pages2[j] == pages0[j]);
                }
            }
            assert forall|j: int| 0 <= j < keys.len() implies (#[trigger] keys[j]).free_max
                == pages2[keys[j].index - 1].spec_free_max() by {
                if keys[j].index != id {
                    assert(pages2[keys[j].index - 1] == pages0[keys[j].index - 1]);
                }
            }
            assert forall|id2: int|
                1 <= id2 <= pages2.len() && id2 != 0 && (#[trigger] pages2[id2
                    - 1]).spec_free_max() >= NODE4_SIZE implies indexed(keys, id2) by {
                if id2 != id {
                    assert(pages2[id2 - 1] == pages0[id2 - 1]);
                }
                assert(pages0[id2 - 1].spec_free_max() >= NODE4_SIZE);
            }
            assert forall|a: u32, s: int| self.live(a, s) <==> old(self).live(a, s) by {
                let ida = spec_page_of(a) as int;
                if 1 <= ida <= pages2.len() && ida != id {
                    assert(pages2[ida - 1] == pages0[ida - 1]);
                }
            }
            assert forall|a: u32, s: int| old(self).live(a, s) && a != addr implies #[trigger] self.slot_bytes(
                a,
                s,
            ) == old(self).slot_bytes(a, s) by {
                let ida = spec_page_of(a) as int;
                let offa = spec_offset_of(a) as int;
                if ida == id {
                    p0.lemma_slots_apart(offa, s, off as int, data@.len() as int);
                    assert(p2.slot_image(offa, s) =~= p0.slot_image(offa, s));
                } else {
                    assert(pages2[ida - 1] == pages0[ida - 1]);
                }
            }
        }
    }

    /// A taken slot lies in its page behind the meta region.
    pub proof fn lemma_slot_in_page(&self, addr: u32, size: int)
        requires
            self.wf(),
            self.live(addr, size),
        ensures
            self.has_page(spec_page_of(addr) as int),
            PAGE_META_SIZE <= spec_offset_of(addr),
            1 <= size,
            spec_offset_of(addr) + size <= PAGE_SIZE,
            self.pages()[spec_page_of(addr) - 1].bytes().len() == PAGE_SIZE,
            self.slot_bytes(addr, size).len() == size,
    {
        let p = self.pages()[spec_page_of(addr) - 1];
        p.lemma_slots_apart(spec_offset_of(addr) as int, size, spec_offset_of(addr) as int, size);
        p.lemma_bytes_len();
    }

    /// The bytes of the page of `addr` from the offset of `addr` on; none
    /// where the pool has no such page.
    pub fn get_space(&self, addr: u32) -> (r: Option<&[u8]>)
        requires
            self.wf(),
        ensures
            match r {
                Some(b) => {
                    &&& self.has_page(spec_page_of(addr) as int)
                    &&& b@ == self.pages()[spec_page_of(addr) - 1].bytes().subrange(
                        spec_offset_of(addr) as int,
                        PAGE_SIZE as int,
                    )
                },
                None => !self.has_page(spec_page_of(addr) as int),
            },
    {
        let id: u32 = addr / 4096;
        let off: usize = (addr % 4096) as usize;
        if id < 1 || id as usize > self.unify_space.len() {
            return None;
        }
        let p = &self.unify_space[(id - 1) as usize];
        Some(vstd::slice::slice_subrange(p.space.as_slice(), off, 4096))
    }
}

/// A page of values.
pub struct DataPage {
    pub dirty: bool,
    pub space: Vec<u8>,
    pub free_space: Vec<u16>,
    pub free_offset: Vec<u16>,
}

/// The pool of data pages.
pub struct DataPool {
    pub active_set: Vec<DataPage>,
}

} // verus!
