//! A set of numbers stored as sorted, non-adjacent, non-overlapping ranges.
use std::ops::{Range, RangeInclusive};

use smallvec::SmallVec;
use vstd::prelude::*;

use crate::bit_stream::{
    can_grow, compressed_groups, compressed_read, lemma_compressed_len, lemma_flatten_cons,
    lemma_put_groups, lemma_put_groups_append, place_bits, put_bits, put_groups, stream_wf, BitStreamRead, BitStreamWrite,
    lemma_read_compressed_back, lemma_read_value_back, lemma_written_groups_read_back, ReadSafe,
    Wire, WriteSafe,
};
use crate::bits::{bits_of, bytes_for};
use crate::error::Error;

verus! {

/// The most ranges a list holds: past it, growing the inline buffer of a
/// `SmallVec` of 8-byte ranges could overflow its layout arithmetic.
pub const MAX_RANGES: usize = 0x0800_0000;

/// The ranges of a list, held in a `SmallVec` that stores `N` of them inline.
#[verifier::external_body]
#[verifier::reject_recursive_types(I)]
#[derive(PartialEq, Eq)]
pub struct RangeStore<const N: usize, I> {
    inner: SmallVec<[Range<I>; N]>,
}

/// The ranges that a store holds, each as its start and its (exclusive) end.
pub uninterp spec fn stored_ranges(store: RangeStore<1, u32>) -> Seq<(u32, u32)>;

/// `SmallVec::new`: an empty vector.
#[verifier::external_body]
fn store_new() -> (r: RangeStore<1, u32>)
    ensures
        stored_ranges(r) == Seq::<(u32, u32)>::empty(),
{
    RangeStore { inner: SmallVec::new() }
}

/// `SmallVec::len`: the number of items.
#[verifier::external_body]
fn store_len(store: &RangeStore<1, u32>) -> (r: usize)
    ensures
        r == stored_ranges(*store).len(),
{
    store.inner.len()
}

/// `SmallVec::is_empty`: whether there is no item.
#[verifier::external_body]
fn store_is_empty(store: &RangeStore<1, u32>) -> (r: bool)
    ensures
        r == (stored_ranges(*store).len() == 0),
{
    store.inner.is_empty()
}

/// Indexing a `SmallVec`: the item at `index`, as its start and end.
#[verifier::external_body]
fn store_get(store: &RangeStore<1, u32>, index: usize) -> (r: (u32, u32))
    requires
        index < stored_ranges(*store).len(),
    ensures
        r == stored_ranges(*store)[index as int],
{
    let range = &store.inner[index];
    (range.start, range.end)
}

/// Mutable indexing of a `SmallVec`: the item at `index` becomes `start..end`.
#[verifier::external_body]
fn store_set(store: &mut RangeStore<1, u32>, index: usize, start: u32, end: u32)
    requires
        index < stored_ranges(*old(store)).len(),
    ensures
        stored_ranges(*final(store)) == stored_ranges(*old(store)).update(
            index as int,
            (start, end),
        ),
{
    store.inner[index] = start..end;
}

/// `SmallVec::insert`: `start..end` goes in at `index`, the items from there on
/// move up.
#[verifier::external_body]
fn store_insert(store: &mut RangeStore<1, u32>, index: usize, start: u32, end: u32)
    requires
        index <= stored_ranges(*old(store)).len(),
        stored_ranges(*old(store)).len() < MAX_RANGES,
    ensures
        stored_ranges(*final(store)) == stored_ranges(*old(store)).insert(
            index as int,
            (start, end),
        ),
{
    store.inner.insert(index, start..end);
}

/// `SmallVec::remove`: the item at `index` goes, the items after it move down.
#[verifier::external_body]
fn store_remove(store: &mut RangeStore<1, u32>, index: usize)
    requires
        index < stored_ranges(*old(store)).len(),
    ensures
        stored_ranges(*final(store)) == stored_ranges(*old(store)).remove(index as int),
{
    store.inner.remove(index);
}

/// `SmallVec::push`: `start..end` goes at the end.
#[verifier::external_body]
fn store_push(store: &mut RangeStore<1, u32>, start: u32, end: u32)
    requires
        stored_ranges(*old(store)).len() < MAX_RANGES,
    ensures
        stored_ranges(*final(store)) == stored_ranges(*old(store)).push((start, end)),
{
    store.inner.push(start..end);
}

/// `SmallVec::clear`: no item is left.
#[verifier::external_body]
fn store_clear(store: &mut RangeStore<1, u32>)
    ensures
        stored_ranges(*final(store)) == Seq::<(u32, u32)>::empty(),
{
    store.inner.clear();
}

/// The ranges are well formed: each holds a number, and each ends before the
/// next starts, with at least one number between them.
pub open spec fn ranges_wf(r: Seq<(u32, u32)>) -> bool {
    &&& forall|i: int| 0 <= i < r.len() ==> #[trigger] r[i].0 < r[i].1
    &&& forall|i: int, j: int| 0 <= i < j < r.len() ==> #[trigger] r[i].1 < #[trigger] r[j].0
}

/// The ranges hold `x`.
pub open spec fn ranges_contain(r: Seq<(u32, u32)>, x: int) -> bool {
    exists|i: int| 0 <= i < r.len() && #[trigger] r[i].0 <= x < r[i].1
}

/// Set of numbers stored as a set of non-adjacent, non-overlapping ranges.
///
/// `N` is the number of ranges stored without a heap allocation; `I` the type of
/// the numbers.
#[verifier::reject_recursive_types(I)]
#[derive(PartialEq, Eq)]
pub struct RangeList<const N: usize, I> {
    inner: RangeStore<N, I>,
}

impl View for RangeList<1, u32> {
    type V = Seq<(u32, u32)>;

    /// The ranges, in order, each as its start and its exclusive end.
    closed spec fn view(&self) -> Seq<(u32, u32)> {
        stored_ranges(self.inner)
    }
}

impl Default for RangeList<1, u32> {
    fn default() -> (r: Self)
        ensures
            r@ == Seq::<(u32, u32)>::empty(),
    {
        Self::new()
    }
}

impl RangeList<1, u32> {
    /// An empty set.
    pub fn new() -> (r: Self)
        ensures
            r@ == Seq::<(u32, u32)>::empty(),
    {
        Self { inner: store_new() }
    }

    /// Whether the set holds no number.
    pub fn is_empty(&self) -> (r: bool)
        ensures
            r == (self@.len() == 0),
    {
        store_is_empty(&self.inner)
    }

    /// The number of ranges.
    pub fn len(&self) -> (r: usize)
        ensures
            r == self@.len(),
    {
        store_len(&self.inner)
    }

    /// The ranges, each as its start and its exclusive end.
    pub fn ranges(&self) -> (r: Vec<Range<u32>>)
        ensures
            r@.len() == self@.len(),
            forall|i: int|
                0 <= i < r@.len() ==> #[trigger] r@[i].start == self@[i].0 && r@[i].end
                    == self@[i].1,
    {
        let len = store_len(&self.inner);
        let mut r: Vec<Range<u32>> = Vec::new();
        let mut i: usize = 0;
        while i < len
            invariant
                len == self@.len(),
                i <= len,
                r@.len() == i,
                forall|k: int|
                    0 <= k < i ==> #[trigger] r@[k].start == self@[k].0 && r@[k].end
                        == self@[k].1,
            decreases len - i,
        {
            let (start, end) = store_get(&self.inner, i);
            r.push(Range { start, end });
            i = i + 1;
        }
        r
    }

    /// Where `v` is, or would go: `Ok(i)` where range `i` holds `v`, else
    /// `Err(i)` where the ranges before `i` end before `v` and the others start
    /// after it.
    pub fn find(&self, v: u32) -> (r: Result<usize, usize>)
        requires
            ranges_wf(self@),
        ensures
            r matches Ok(i) ==> i < self@.len() && self@[i as int].0 <= v < self@[i as int].1,
            r matches Err(i) ==> i <= self@.len() && (forall|j: int|
                0 <= j < i ==> #[trigger] self@[j].1 <= v) && (forall|j: int|
                i <= j < self@.len() ==> v < #[trigger] self@[j].0),
    {
        let mut lo: usize = 0;
        let mut hi: usize = store_len(&self.inner);
        while lo < hi
            invariant
                ranges_wf(self@),
                0 <= lo <= hi <= self@.len(),
                forall|j: int| 0 <= j < lo ==> #[trigger] self@[j].1 <= v,
                forall|j: int| hi <= j < self@.len() ==> v < #[trigger] self@[j].0,
            decreases hi - lo,
        {
            let mid = lo + (hi - lo) / 2;
            let (start, end) = store_get(&self.inner, mid);
            if v < start {
                proof {
                    assert forall|j: int| mid <= j < self@.len() implies v < #[trigger] self@[j].0 by {
                        if j > mid {
                            assert(self@[mid as int].1 < self@[j].0);
                            assert(self@[mid as int].0 < self@[mid as int].1);
                        }
                    }
                }
                hi = mid;
            } else if v >= end {
                proof {
                    assert forall|j: int| 0 <= j < mid + 1 implies #[trigger] self@[j].1 <= v by {
                        if j < mid {
                            assert(self@[j].1 < self@[mid as int].0);
                            assert(self@[mid as int].0 < self@[mid as int].1);
                        }
                    }
                }
                lo = mid + 1;
            } else {
                return Ok(mid);
            }
        }
        Err(lo)
    }

    /// Whether the set holds `v`.
    pub fn contains(&self, v: u32) -> (r: bool)
        requires
            ranges_wf(self@),
        ensures
            r == ranges_contain(self@, v as int),
    {
        match self.find(v) {
            Ok(_) => true,
            Err(i) => {
                proof {
                    assert forall|k: int| 0 <= k < self@.len() implies !(#[trigger] self@[k].0 <= v
                        < self@[k].1) by {
                        if k < i {
                            assert(self@[k].1 <= v);
                        } else {
                            assert(v < self@[k].0);
                        }
                    }
                }
                false
            },
        }
    }

    /// Inserts `v`.
    pub fn insert(&mut self, v: u32)
        requires
            ranges_wf(old(self)@),
            v < u32::MAX,
            old(self)@.len() < MAX_RANGES,
        ensures
            ranges_wf(final(self)@),
            forall|x: int|
                ranges_contain(final(self)@, x) == (ranges_contain(old(self)@, x) || x == v),
            final(self)@.len() <= old(self)@.len() + 1,
            ranges_contain(old(self)@, v as int) ==> final(self)@ == old(self)@,
    {
        let ghost r = old(self)@;
        let v1 = v + 1;
        match self.find(v) {
            Ok(_) => {
                proof {
                    assert forall|x: int|
                        ranges_contain(self@, x) == (ranges_contain(r, x) || x == v) by {
                        if x == v {
                            let i = choose|i: int| 0 <= i < r.len() && #[trigger] r[i].0 <= v < r[i].1;
                            assert(r[i].0 <= x < r[i].1);
                        }
                    }
                }
            },
            Err(at) => {
                let len = store_len(&self.inner);
                if at == 0 {
                    let first = if len > 0 {
                        Some(store_get(&self.inner, 0))
                    } else {
                        None
                    };
                    match first {
                        Some((start, end)) if v1 == start => {
                            store_set(&mut self.inner, 0, v, end);
                            proof {
                                assert(self@ == r.update(0, (v, end)));
                                lemma_contain_update(r, self@, 0, v, end, v as int);
                                assert forall|i: int, j: int| 0 <= i < j < self@.len() implies #[trigger] self@[i].1 < #[trigger] self@[j].0 by {
                                    assert(r[i].1 < r[j].0);
                                }
                            }
                        },
                        _ => {
                            store_insert(&mut self.inner, 0, v, v1);
                            proof {
                                assert(self@ == r.insert(0, (v, v1)));
                                lemma_contain_insert(r, self@, 0, v, v1);
                                lemma_insert_wf(r, 0, v, v1);
                            }
                        },
                    }
                } else if at == len {
                    let (start, end) = store_get(&self.inner, at - 1);
                    if end == v {
                        store_set(&mut self.inner, at - 1, start, v + 1);
                        proof {
                            assert(self@ == r.update(at - 1, (start, v1)));
                                lemma_contain_update(r, self@, at - 1, start, v1, v as int);
                            assert forall|i: int, j: int| 0 <= i < j < self@.len() implies #[trigger] self@[i].1 < #[trigger] self@[j].0 by {
                                assert(r[i].1 < r[j].0);
                            }
                        }
                    } else {
                        store_push(&mut self.inner, v, v1);
                        proof {
                            assert(r.push((v, v1)) == r.insert(len as int, (v, v1)));
                            assert(self@ == r.insert(len as int, (v, v1)));
                                lemma_contain_insert(r, self@, len as int, v, v1);
                            lemma_insert_wf(r, len as int, v, v1);
                        }
                    }
                } else {
                    let (before_start, before_end) = store_get(&self.inner, at - 1);
                    let (after_start, after_end) = store_get(&self.inner, at);
                    if before_end == v {
                        if after_start == v1 {
                            store_set(&mut self.inner, at - 1, before_start, after_end);
                            store_remove(&mut self.inner, at);
                            proof {
                                assert(self@ == r.update(at - 1, (r[at - 1].0, r[at as int].1)).remove(at as int));
                                lemma_contain_merge(r, self@, at - 1, v as int);
                                lemma_merge_wf(r, at - 1);
                            }
                        } else {
                            store_set(&mut self.inner, at - 1, before_start, v1);
                            proof {
                                assert(self@ == r.update(at - 1, (before_start, v1)));
                                lemma_contain_update(r, self@, at - 1, before_start, v1, v as int);
                                assert forall|i: int, j: int| 0 <= i < j < self@.len() implies #[trigger] self@[i].1 < #[trigger] self@[j].0 by {
                                    assert(r[i].1 < r[j].0);
                                    if j > at - 1 {
                                        assert(r[at as int].0 <= r[j].0);
                                    }
                                }
                            }
                        }
                    } else if v1 == after_start {
                        store_set(&mut self.inner, at, v, after_end);
                        proof {
                            assert(self@ == r.update(at as int, (v, after_end)));
                                lemma_contain_update(r, self@, at as int, v, after_end, v as int);
                            assert forall|i: int, j: int| 0 <= i < j < self@.len() implies #[trigger] self@[i].1 < #[trigger] self@[j].0 by {
                                assert(r[i].1 < r[j].0);
                                if i < at {
                                    assert(r[i].1 <= r[at - 1].1);
                                }
                            }
                        }
                    } else {
                        store_insert(&mut self.inner, at, v, v1);
                        proof {
                            assert(self@ == r.insert(at as int, (v, v1)));
                                lemma_contain_insert(r, self@, at as int, v, v1);
                            lemma_insert_wf(r, at as int, v, v1);
                        }
                    }
                }
            },
        }
    }

    /// Every range, as the inclusive pair of its first and last number.
    pub fn min_max_ranges(&self) -> (r: Vec<RangeInclusive<u32>>)
        requires
            forall|i: int| 0 <= i < self@.len() ==> #[trigger] self@[i].1 >= 1,
        ensures
            r@.len() == self@.len(),
            forall|i: int|
                0 <= i < r@.len() ==> #[trigger] r@[i]@.start == self@[i].0 && r@[i]@.end
                    == self@[i].1 - 1 && !r@[i]@.exhausted,
    {
        let len = store_len(&self.inner);
        let mut r: Vec<RangeInclusive<u32>> = Vec::new();
        let mut i: usize = 0;
        while i < len
            invariant
                len == self@.len(),
                i <= len,
                r@.len() == i,
                forall|k: int| 0 <= k < self@.len() ==> #[trigger] self@[k].1 >= 1,
                forall|k: int|
                    0 <= k < i ==> #[trigger] r@[k]@.start == self@[k].0 && r@[k]@.end
                        == self@[k].1 - 1 && !r@[k]@.exhausted,
            decreases len - i,
        {
            let (start, end) = store_get(&self.inner, i);
            r.push(RangeInclusive::new(start, end - 1));
            i = i + 1;
        }
        r
    }

    /// Inserts every number of `items`, in order.
    pub fn insert_all(&mut self, items: &[u32])
        requires
            ranges_wf(old(self)@),
            forall|k: int| 0 <= k < items@.len() ==> #[trigger] items@[k] < u32::MAX,
            old(self)@.len() + items@.len() < MAX_RANGES,
        ensures
            ranges_wf(final(self)@),
            forall|x: int|
                ranges_contain(final(self)@, x) == (ranges_contain(old(self)@, x) || exists|k: int|
                    0 <= k < items@.len() && #[trigger] items@[k] == x),
    {
        let mut i: usize = 0;
        while i < items.len()
            invariant
                ranges_wf(self@),
                i <= items@.len(),
                forall|k: int| 0 <= k < items@.len() ==> #[trigger] items@[k] < u32::MAX,
                self@.len() <= old(self)@.len() + i,
                old(self)@.len() + items@.len() < MAX_RANGES,
                forall|x: int|
                    ranges_contain(self@, x) == (ranges_contain(old(self)@, x) || exists|k: int|
                        0 <= k < i && #[trigger] items@[k] == x),
            decreases items@.len() - i,
        {
            self.insert(items[i]);
            proof {
                assert forall|x: int|
                    ranges_contain(self@, x) == (ranges_contain(old(self)@, x) || exists|k: int|
                        0 <= k < i + 1 && #[trigger] items@[k] == x) by {
                    if x == items@[i as int] {
                        assert(items@[i as int] == x);
                    }
                    if exists|k: int| 0 <= k < i + 1 && #[trigger] items@[k] == x {
                        let k = choose|k: int| 0 <= k < i + 1 && #[trigger] items@[k] == x;
                        if k < i {
                            assert(items@[k] == x);
                        }
                    }
                }
            }
            i = i + 1;
        }
    }

    /// Writes the number of ranges, compressed, then each range: a bit that
    /// says whether it holds one number, its first number and, where it holds
    /// more, its last.
    pub fn serialize(&mut self, bs: &mut BitStreamWrite)
        requires
            old(bs).wf(),
            forall|i: int| 0 <= i < old(self)@.len() ==> #[trigger] old(self)@[i].1 >= 1,
            can_grow(old(bs).bit_len() as int, (18 + 65 * old(self)@.len()) as int),
        ensures
            final(self)@ == old(self)@,
            final(bs).raw() == put_groups(
                old(bs).raw(),
                old(bs).bit_len() as int,
                list_groups(old(self)@),
            ),
            final(bs).bit_len() == old(bs).bit_len() + list_groups(old(self)@).flatten().len(),
            final(bs).wf(),
            final(bs)@ == old(bs)@ + list_groups(old(self)@).flatten(),
    {
        let ghost r = self@;
        let ghost raw0 = bs.raw();
        let ghost n0 = bs.bit_len() as int;
        let len = store_len(&self.inner);
        let count = len as u16;
        let ghost cg = compressed_groups(count.to_bytes(), 1);
        bs.write_compressed(count);
        proof {
            lemma_put_groups(raw0, n0, cg);
            vstd::bytes::lemma_auto_spec_u16_to_from_le_bytes();
            lemma_compressed_len(count.to_bytes(), 1);
            assert(cg + ranges_groups(r.take(0)) =~= cg);
        }
        let mut i: usize = 0;
        while i < len
            invariant
                self@ == r,
                len == r.len(),
                i <= len,
                forall|k: int| 0 <= k < r.len() ==> #[trigger] r[k].1 >= 1,
                can_grow(n0, (18 + 65 * r.len()) as int),
                stream_wf(raw0, n0),
                cg == compressed_groups(count.to_bytes(), 1),
                cg.flatten().len() <= 18,
                bs.wf(),
                bs.raw() == put_groups(raw0, n0, cg + ranges_groups(r.take(i as int))),
                bs.bit_len() == n0 + (cg + ranges_groups(r.take(i as int))).flatten().len(),
                (cg + ranges_groups(r.take(i as int))).flatten().len() <= 18 + 65 * i,
            decreases len - i,
        {
            let ghost before = bs.raw();
            let ghost nb = bs.bit_len() as int;
            let ghost prefix = cg + ranges_groups(r.take(i as int));
            let (start, end) = store_get(&self.inner, i);
            let last = end - 1;
            let min_is_max = start == last;
            let ghost g = range_groups((start, end));
            bs.write_bool(min_is_max);
            bs.write(start);
            if !min_is_max {
                bs.write(last);
            }
            proof {
                assert(r.take(i + 1).drop_last() =~= r.take(i as int));
                assert(cg + ranges_groups(r.take(i + 1)) =~= prefix + g);
                lemma_put_groups_append(raw0, n0, prefix, g);
                lemma_range_groups(before, nb, (start, end));
                vstd::seq_lib::lemma_flatten_concat(prefix, g);
            }
            i = i + 1;
        }
        proof {
            assert(r.take(len as int) =~= r);
            lemma_put_groups(raw0, n0, list_groups(r));
        }
    }

    /// Reads what `serialize` writes. Each end is the last number plus one,
    /// wrapping past `u32::MAX`; the ranges read need not be well formed.
    pub fn deserialize(bs: &mut BitStreamRead) -> (r: Result<Self, Error>)
        requires
            old(bs).wf(),
        ensures
            final(bs).bytes() == old(bs).bytes(),
            final(bs).bits_used() == old(bs).bits_used(),
            final(bs).wf(),
            ({
                let (res, used) = list_read(old(bs)@);
                &&& r is Err <==> res is None
                &&& r is Err ==> r == Err::<Self, Error>(Error::BitStreamEos)
                &&& r matches Ok(list) ==> res == Some(list@)
                &&& final(bs).offset() == old(bs).offset() + used
                &&& final(bs)@ == old(bs)@.skip(used as int)
            }),
    {
        let ghost bits0 = bs@;
        let mut list = Self::new();
        let count: u16 = match bs.read_compressed() {
            Ok(c) => c,
            Err(e) => {
                return Err(e);
            },
        };
        let ghost c0 = bs.offset() - old(bs).offset();
        let mut i: u16 = 0;
        proof {
            assert(list@ =~= Seq::<(u32, u32)>::empty());
            assert(bs@ =~= bits0.skip(c0));
            lemma_prefixed_empty(c0 as nat, ranges_read(bs@, count as nat));
        }
        while i < count
            invariant
                bs.wf(),
                bs.bytes() == old(bs).bytes(),
                bs.bits_used() == old(bs).bits_used(),
                c0 >= 0,
                bs.offset() >= old(bs).offset() + c0,
                bs@ == bits0.skip(bs.offset() - old(bs).offset()),
                bits0 == old(bs)@,
                i <= count,
                list@.len() == i,
                list_read(bits0) == prefixed(
                    list@,
                    (bs.offset() - old(bs).offset()) as nat,
                    ranges_read(bs@, (count - i) as nat),
                ),
            decreases count - i,
        {
            let ghost cur = bs@;
            let ghost off = bs.offset();
            let ghost d = (bs.offset() - old(bs).offset()) as nat;
            let ghost k = (count - i) as nat;
            proof {
                lemma_ranges_read_step(cur, k);
            }
            let min_is_max = match bs.read_bool() {
                Ok(b) => b,
                Err(e) => {
                    proof {
                        assert(cur.len() == 0);
                        assert(range_read(cur).1 == 0);
                        lemma_prefixed_none(list@, d, ranges_read(cur, k));
                        assert(ranges_read(cur, k).0 is None);
                        assert(ranges_read(cur, k).1 == 0);
                        assert(list_read(bits0).0 is None);
                        assert(list_read(bits0).1 == d);
                        assert(bs.offset() == off);
                        assert(off == old(bs).offset() + d);
                    }
                    return Err(e);
                },
            };
            proof {
                assert(bs@ =~= cur.skip(1));
            }
            let min: u32 = match bs.read() {
                Ok(v) => v,
                Err(e) => {
                    proof {
                        lemma_prefixed_none(list@, d, ranges_read(cur, k));
                    }
                    return Err(e);
                },
            };
            proof {
                assert(bs@ =~= cur.skip(33));
                assert(cur.skip(1).skip(32) =~= cur.skip(33));
            }
            let max: u32 = if min_is_max {
                min
            } else {
                match bs.read() {
                    Ok(v) => v,
                    Err(e) => {
                        proof {
                            lemma_prefixed_none(list@, d, ranges_read(cur, k));
                        }
                        return Err(e);
                    },
                }
            };
            let end = max.wrapping_add(1);
            proof {
                if !min_is_max {
                    assert(cur.skip(33).skip(32) =~= cur.skip(65));
                }
                assert(bits0.skip(off - old(bs).offset()).skip(range_read(cur).1 as int) =~= bits0.skip(bs.offset() - old(bs).offset()));
                assert(bs@ =~= cur.skip(range_read(cur).1 as int));
                assert(range_read(cur).0 == Some((min, end)));
                lemma_prefixed_assoc(list@, d, seq![(min, end)], range_read(cur).1, ranges_read(bs@, (k - 1) as nat));
            }
            store_push(&mut list.inner, min, end);
            i = i + 1;
        }
        proof {
            assert(list@ + Seq::<(u32, u32)>::empty() =~= list@);
        }
        Ok(list)
    }

    /// Removes every number.
    pub fn clear(&mut self)
        ensures
            final(self)@ == Seq::<(u32, u32)>::empty(),
    {
        store_clear(&mut self.inner);
    }
}

/// Widening range `k` by the number `v` widens the set by `v`.
proof fn lemma_contain_update(r: Seq<(u32, u32)>, n: Seq<(u32, u32)>, k: int, s: u32, e: u32, v: int)
    requires
        n == r.update(k, (s, e)),
        0 <= k < r.len(),
        r[k].0 < r[k].1,
        (s == v && v + 1 == r[k].0 && e == r[k].1) || (s == r[k].0 && r[k].1 == v && e == v + 1),
    ensures
        forall|x: int| #[trigger] ranges_contain(n, x) == (ranges_contain(r, x) || x == v),
{
    assert forall|x: int| ranges_contain(n, x) == (ranges_contain(r, x) || x == v) by {
        if ranges_contain(n, x) {
            let j = choose|j: int| 0 <= j < n.len() && #[trigger] n[j].0 <= x < n[j].1;
            if j != k {
                assert(r[j].0 <= x < r[j].1);
            } else if x != v {
                assert(r[k].0 <= x < r[k].1);
            }
        }
        if ranges_contain(r, x) {
            let j = choose|j: int| 0 <= j < r.len() && #[trigger] r[j].0 <= x < r[j].1;
            assert(n[j].0 <= x < n[j].1);
        }
        if x == v {
            assert(n[k].0 <= x < n[k].1);
        }
    }
}

/// Inserting the range of the one number `v` widens the set by `v`.
proof fn lemma_contain_insert(r: Seq<(u32, u32)>, n: Seq<(u32, u32)>, k: int, v: u32, e: u32)
    requires
        n == r.insert(k, (v, e)),
        0 <= k <= r.len(),
        e == v + 1,
    ensures
        forall|x: int| #[trigger] ranges_contain(n, x) == (ranges_contain(r, x) || x == v),
{
    assert forall|x: int| ranges_contain(n, x) == (ranges_contain(r, x) || x == v) by {
        if ranges_contain(n, x) {
            let j = choose|j: int| 0 <= j < n.len() && #[trigger] n[j].0 <= x < n[j].1;
            if j < k {
                assert(r[j].0 <= x < r[j].1);
            } else if j > k {
                assert(r[j - 1].0 <= x < r[j - 1].1);
            }
        }
        if ranges_contain(r, x) {
            let j = choose|j: int| 0 <= j < r.len() && #[trigger] r[j].0 <= x < r[j].1;
            if j < k {
                assert(n[j].0 <= x < n[j].1);
            } else {
                assert(n[j + 1].0 <= x < n[j + 1].1);
            }
        }
        if x == v {
            assert(n[k].0 <= x < n[k].1);
        }
    }
}

/// Joining ranges `k` and `k + 1` across the number `v` between them widens
/// the set by `v`.
proof fn lemma_contain_merge(r: Seq<(u32, u32)>, n: Seq<(u32, u32)>, k: int, v: int)
    requires
        n == r.update(k, (r[k].0, r[k + 1].1)).remove(k + 1),
        0 <= k,
        k + 1 < r.len(),
        r[k].0 < r[k].1,
        r[k + 1].0 < r[k + 1].1,
        r[k].1 == v,
        r[k + 1].0 == v + 1,
    ensures
        forall|x: int| #[trigger] ranges_contain(n, x) == (ranges_contain(r, x) || x == v),
{
    assert forall|x: int| ranges_contain(n, x) == (ranges_contain(r, x) || x == v) by {
        if ranges_contain(n, x) {
            let j = choose|j: int| 0 <= j < n.len() && #[trigger] n[j].0 <= x < n[j].1;
            if j < k {
                assert(r[j].0 <= x < r[j].1);
            } else if j > k {
                assert(r[j + 1].0 <= x < r[j + 1].1);
            } else if x < v {
                assert(r[k].0 <= x < r[k].1);
            } else if x > v {
                assert(r[k + 1].0 <= x < r[k + 1].1);
            }
        }
        if ranges_contain(r, x) {
            let j = choose|j: int| 0 <= j < r.len() && #[trigger] r[j].0 <= x < r[j].1;
            if j < k {
                assert(n[j].0 <= x < n[j].1);
            } else if j > k + 1 {
                assert(n[j - 1].0 <= x < n[j - 1].1);
            } else {
                assert(n[k].0 <= x < n[k].1);
            }
        }
        if x == v {
            assert(n[k].0 <= x < n[k].1);
        }
    }
}

/// Inserting the range of the one number `v`, where the ranges before end
/// before it with a gap and the others start after it with a gap, keeps them
/// well formed.
proof fn lemma_insert_wf(r: Seq<(u32, u32)>, k: int, v: u32, e: u32)
    requires
        ranges_wf(r),
        0 <= k <= r.len(),
        e == v + 1,
        k > 0 ==> r[k - 1].1 < v,
        k < r.len() ==> e < r[k].0,
    ensures
        ranges_wf(r.insert(k, (v, e))),
{
    let n = r.insert(k, (v, e));
    assert forall|i: int, j: int| 0 <= i < j < n.len() implies #[trigger] n[i].1 < #[trigger] n[j].0 by {
        if j < k {
            assert(r[i].1 < r[j].0);
        } else if i > k {
            assert(r[i - 1].1 < r[j - 1].0);
        } else if i == k {
            assert(r[k].0 <= r[j - 1].0);
        } else if j == k {
            if i < k - 1 {
                assert(r[i].1 < r[k - 1].0);
            }
            assert(r[i].1 <= r[k - 1].1);
        } else {
            assert(r[i].1 < r[j - 1].0);
        }
    }
}

/// Joining two neighbouring ranges keeps the ranges well formed.
proof fn lemma_merge_wf(r: Seq<(u32, u32)>, k: int)
    requires
        ranges_wf(r),
        0 <= k,
        k + 1 < r.len(),
    ensures
        ranges_wf(r.update(k, (r[k].0, r[k + 1].1)).remove(k + 1)),
{
    let n = r.update(k, (r[k].0, r[k + 1].1)).remove(k + 1);
    assert(r[k].1 < r[k + 1].0);
    assert forall|i: int, j: int| 0 <= i < j < n.len() implies #[trigger] n[i].1 < #[trigger] n[j].0 by {
        if i < k && j < k {
            assert(r[i].1 < r[j].0);
        } else if i < k && j == k {
            assert(r[i].1 < r[k].0);
        } else if i < k {
            assert(r[i].1 < r[j + 1].0);
        } else if i == k {
            assert(r[k + 1].1 < r[j + 1].0);
        } else {
            assert(r[i + 1].1 < r[j + 1].0);
        }
    }
}

/// The first range of well formed ranges starts below every number they hold,
/// and the others hold exactly the numbers they hold from its end on.
proof fn lemma_first_range(r: Seq<(u32, u32)>)
    requires
        ranges_wf(r),
        r.len() > 0,
    ensures
        forall|x: int| ranges_contain(r, x) ==> r[0].0 <= x,
        forall|x: int|
            ranges_contain(r.drop_first(), x) == (ranges_contain(r, x) && r[0].1 <= x),
        ranges_wf(r.drop_first()),
{
    assert forall|x: int| ranges_contain(r, x) implies r[0].0 <= x by {
        let i = choose|i: int| 0 <= i < r.len() && #[trigger] r[i].0 <= x < r[i].1;
        if i > 0 {
            assert(r[0].1 < r[i].0);
            assert(r[0].0 < r[0].1);
        }
    }
    let d = r.drop_first();
    assert forall|x: int| ranges_contain(d, x) == (ranges_contain(r, x) && r[0].1 <= x) by {
        if ranges_contain(d, x) {
            let i = choose|i: int| 0 <= i < d.len() && #[trigger] d[i].0 <= x < d[i].1;
            assert(r[i + 1] == d[i]);
            assert(r[0].1 < r[i + 1].0);
        }
        if ranges_contain(r, x) && r[0].1 <= x {
            let i = choose|i: int| 0 <= i < r.len() && #[trigger] r[i].0 <= x < r[i].1;
            assert(i != 0);
            assert(d[i - 1] == r[i]);
        }
    }
    assert forall|i: int, j: int| 0 <= i < j < d.len() implies #[trigger] d[i].1 < #[trigger] d[j].0 by {
        assert(d[i] == r[i + 1] && d[j] == r[j + 1]);
    }
}

/// A set has one list of ranges: two well formed lists of ranges that hold
/// the same numbers are the same list.
pub proof fn lemma_ranges_canonical(a: Seq<(u32, u32)>, b: Seq<(u32, u32)>)
    requires
        ranges_wf(a),
        ranges_wf(b),
        forall|x: int| ranges_contain(a, x) == ranges_contain(b, x),
    ensures
        a == b,
    decreases a.len(),
{
    if a.len() == 0 || b.len() == 0 {
        if a.len() > 0 {
            assert(ranges_contain(a, a[0].0 as int)) by {
                assert(a[0].0 < a[0].1);
            }
        }
        if b.len() > 0 {
            assert(ranges_contain(b, b[0].0 as int)) by {
                assert(b[0].0 < b[0].1);
            }
        }
        assert(a =~= b);
    } else {
        lemma_first_range(a);
        lemma_first_range(b);
        assert(a[0].0 < a[0].1 && b[0].0 < b[0].1);
        assert(ranges_contain(a, a[0].0 as int));
        assert(ranges_contain(b, b[0].0 as int));
        assert(a[0].0 == b[0].0);
        if a[0].1 < b[0].1 {
            assert(ranges_contain(b, a[0].1 as int));
            assert(ranges_contain(a, a[0].1 as int));
            let i = choose|i: int| 0 <= i < a.len() && #[trigger] a[i].0 <= a[0].1 < a[i].1;
            if i > 0 {
                assert(a[0].1 < a[i].0);
            }
        }
        if b[0].1 < a[0].1 {
            assert(ranges_contain(a, b[0].1 as int));
            assert(ranges_contain(b, b[0].1 as int));
            let i = choose|i: int| 0 <= i < b.len() && #[trigger] b[i].0 <= b[0].1 < b[i].1;
            if i > 0 {
                assert(b[0].1 < b[i].0);
            }
        }
        assert(a[0] == b[0]);
        assert forall|x: int|
            ranges_contain(a.drop_first(), x) == ranges_contain(b.drop_first(), x) by {
            assert(ranges_contain(a, x) == ranges_contain(b, x));
        }
        lemma_ranges_canonical(a.drop_first(), b.drop_first());
        assert(a =~= seq![a[0]] + a.drop_first());
        assert(b =~= seq![b[0]] + b.drop_first());
    }
}

/// The bits of a `u32` as written: its bytes, least significant first.
pub open spec fn u32_bits(x: u32) -> Seq<bool> {
    bits_of(x.to_bytes(), 0, 32)
}

/// The groups of bits that `serialize` writes for one range: whether it holds
/// one number, its first number and, where it holds more, its last.
pub open spec fn range_groups(r: (u32, u32)) -> Seq<Seq<bool>> {
    let last = (r.1 - 1) as u32;
    if r.0 == last {
        seq![seq![true], u32_bits(r.0)]
    } else {
        seq![seq![false], u32_bits(r.0), u32_bits(last)]
    }
}

/// The groups of bits that `serialize` writes for the ranges `r`.
pub open spec fn ranges_groups(r: Seq<(u32, u32)>) -> Seq<Seq<bool>>
    decreases r.len(),
{
    if r.len() == 0 {
        Seq::empty()
    } else {
        ranges_groups(r.drop_last()) + range_groups(r.last())
    }
}

/// The groups of bits that `serialize` writes: the number of ranges, as a
/// compressed `u16`, then the ranges.
pub open spec fn list_groups(r: Seq<(u32, u32)>) -> Seq<Seq<bool>> {
    compressed_groups((r.len() as u16).to_bytes(), 1) + ranges_groups(r)
}

/// A `u32` read from the front of `bits`.
pub open spec fn u32_read(bits: Seq<bool>) -> u32 {
    <u32 as ReadSafe>::from_bytes(place_bits(bits, 32, 4))
}

/// The outcome of reading one range from `bits`: the range, or `None` where the
/// bits run out; and the number of bits consumed either way.
pub open spec fn range_read(bits: Seq<bool>) -> (Option<(u32, u32)>, nat) {
    if bits.len() == 0 {
        (None, 0)
    } else if bits.len() < 33 {
        (None, 1)
    } else if bits[0] {
        let min = u32_read(bits.skip(1));
        (Some((min, min.wrapping_add(1))), 33)
    } else if bits.len() < 65 {
        (None, 33)
    } else {
        let min = u32_read(bits.skip(1));
        let max = u32_read(bits.skip(33));
        (Some((min, max.wrapping_add(1))), 65)
    }
}

/// An outcome `r` of reading, after `pre` was read in `d` bits.
pub open spec fn prefixed(pre: Seq<(u32, u32)>, d: nat, r: (Option<Seq<(u32, u32)>>, nat)) -> (
    Option<Seq<(u32, u32)>>,
    nat,
) {
    (
        match r.0 {
            Some(s) => Some(pre + s),
            None => None,
        },
        d + r.1,
    )
}

/// The outcome of reading `count` ranges from `bits`.
pub open spec fn ranges_read(bits: Seq<bool>, count: nat) -> (Option<Seq<(u32, u32)>>, nat)
    decreases count,
{
    if count == 0 {
        (Some(Seq::empty()), 0)
    } else {
        let (x, c) = range_read(bits);
        match x {
            None => (None, c),
            Some(rg) => prefixed(seq![rg], c, ranges_read(bits.skip(c as int), (count - 1) as nat)),
        }
    }
}

/// The outcome of `deserialize` on `bits`: the ranges, or `None` where the bits
/// run out; and the number of bits consumed either way.
pub open spec fn list_read(bits: Seq<bool>) -> (Option<Seq<(u32, u32)>>, nat) {
    let (cnt, c0) = compressed_read(bits, 1, 2);
    match cnt {
        None => (None, c0),
        Some(b) => prefixed(
            Seq::empty(),
            c0,
            ranges_read(bits.skip(c0 as int), <u16 as ReadSafe>::from_bytes(b) as nat),
        ),
    }
}

proof fn lemma_prefixed_empty(d: nat, r: (Option<Seq<(u32, u32)>>, nat))
    ensures
        prefixed(Seq::empty(), d, r) == (r.0, d + r.1),
{
    if let Some(s) = r.0 {
        assert(Seq::<(u32, u32)>::empty() + s =~= s);
    }
}

proof fn lemma_prefixed_none(pre: Seq<(u32, u32)>, d: nat, r: (Option<Seq<(u32, u32)>>, nat))
    requires
        r.0 is None,
    ensures
        prefixed(pre, d, r) == (None::<Seq<(u32, u32)>>, d + r.1),
{
}

proof fn lemma_prefixed_assoc(
    pre: Seq<(u32, u32)>,
    d: nat,
    mid: Seq<(u32, u32)>,
    c: nat,
    r: (Option<Seq<(u32, u32)>>, nat),
)
    ensures
        prefixed(pre, d, prefixed(mid, c, r)) == prefixed(pre + mid, d + c, r),
{
    if let Some(s) = r.0 {
        assert(pre + (mid + s) =~= pre + mid + s);
    }
}

/// One step of reading ranges.
proof fn lemma_ranges_read_step(bits: Seq<bool>, k: nat)
    requires
        k > 0,
    ensures
        ranges_read(bits, k) == match range_read(bits).0 {
            None => (None, range_read(bits).1),
            Some(rg) => prefixed(
                seq![rg],
                range_read(bits).1,
                ranges_read(bits.skip(range_read(bits).1 as int), (k - 1) as nat),
            ),
        },
{
}

/// The writes of one range, as `serialize` makes them, write its groups.
proof fn lemma_range_groups(raw: Seq<u8>, start: int, r: (u32, u32))
    ensures
        ({
            let last = (r.1 - 1) as u32;
            let s1 = put_bits(raw, start, seq![r.0 == last]);
            let s2 = put_bits(s1, start + 1, u32_bits(r.0));
            let s3 = put_bits(s2, start + 33, u32_bits(last));
            &&& r.0 == last ==> put_groups(raw, start, range_groups(r)) == s2
            &&& r.0 != last ==> put_groups(raw, start, range_groups(r)) == s3
            &&& range_groups(r).flatten().len() == if r.0 == last {
                33int
            } else {
                65int
            }
        }),
{
    let last = (r.1 - 1) as u32;
    let g = range_groups(r);
    let s1 = put_bits(raw, start, seq![r.0 == last]);
    let s2 = put_bits(s1, start + 1, u32_bits(r.0));
    let s3 = put_bits(s2, start + 33, u32_bits(last));
    let e = Seq::<Seq<bool>>::empty();
    lemma_flatten_cons(seq![r.0 == last], g.drop_first());
    assert(seq![seq![r.0 == last]] + g.drop_first() =~= g);
    assert(g[0] == seq![r.0 == last]);
    assert(put_groups(raw, start, g) == put_groups(s1, start + 1, g.drop_first()));
    if r.0 == last {
        let t = g.drop_first();
        assert(t =~= seq![u32_bits(r.0)]);
        lemma_flatten_cons(u32_bits(r.0), e);
        assert(seq![u32_bits(r.0)] + e =~= seq![u32_bits(r.0)]);
        assert(t.drop_first() =~= e);
        assert(put_groups(s1, start + 1, t) == put_groups(s2, start + 33, t.drop_first()));
        assert(put_groups(s2, start + 33, e) == s2);
    } else {
        let t = g.drop_first();
        assert(t =~= seq![u32_bits(r.0), u32_bits(last)]);
        lemma_flatten_cons(u32_bits(r.0), seq![u32_bits(last)]);
        lemma_flatten_cons(u32_bits(last), e);
        assert(seq![u32_bits(r.0)] + seq![u32_bits(last)] =~= seq![u32_bits(r.0), u32_bits(last)]);
        assert(seq![u32_bits(last)] + e =~= seq![u32_bits(last)]);
        let t2 = t.drop_first();
        assert(t2 =~= seq![u32_bits(last)]);
        assert(t2.drop_first() =~= e);
        assert(put_groups(s1, start + 1, t) == put_groups(s2, start + 33, t2));
        assert(put_groups(s2, start + 33, t2) == put_groups(s3, start + 65, t2.drop_first()));
        assert(put_groups(s3, start + 65, e) == s3);
    }
}

/// The bits `serialize` writes for the ranges `r` are at most 65 per range,
/// after at most 18 for their number.
pub proof fn lemma_list_groups_len(r: Seq<(u32, u32)>)
    ensures
        list_groups(r).flatten().len() <= 18 + 65 * r.len(),
{
    vstd::bytes::lemma_auto_spec_u16_to_from_le_bytes();
    lemma_compressed_len((r.len() as u16).to_bytes(), 1);
    lemma_ranges_groups_len(r);
    vstd::seq_lib::lemma_flatten_concat(
        compressed_groups((r.len() as u16).to_bytes(), 1),
        ranges_groups(r),
    );
}

proof fn lemma_ranges_groups_len(r: Seq<(u32, u32)>)
    ensures
        ranges_groups(r).flatten().len() <= 65 * r.len(),
    decreases r.len(),
{
    if r.len() > 0 {
        lemma_ranges_groups_len(r.drop_last());
        lemma_range_groups(Seq::empty(), 0, r.last());
        vstd::seq_lib::lemma_flatten_concat(ranges_groups(r.drop_last()), range_groups(r.last()));
    }
}

/// The groups for ranges, taken from the front.
proof fn lemma_ranges_groups_front(r: Seq<(u32, u32)>)
    requires
        r.len() > 0,
    ensures
        ranges_groups(r) == range_groups(r[0]) + ranges_groups(r.drop_first()),
    decreases r.len(),
{
    if r.len() == 1 {
        assert(r.drop_last() =~= Seq::<(u32, u32)>::empty());
        assert(r.drop_first() =~= Seq::<(u32, u32)>::empty());
        assert(ranges_groups(r) =~= range_groups(r[0]) + ranges_groups(r.drop_first()));
    } else {
        lemma_ranges_groups_front(r.drop_last());
        assert(r.drop_last().drop_first() =~= r.drop_first().drop_last());
        assert(r.drop_first().last() == r.last());
        assert(ranges_groups(r) =~= range_groups(r[0]) + ranges_groups(r.drop_first()));
    }
}

/// Reading a range back from the bits `serialize` writes for it gives it
/// back, where it ends past 0.
proof fn lemma_range_read_back(x: (u32, u32), rest: Seq<bool>)
    requires
        x.1 >= 1,
    ensures
        range_read(range_groups(x).flatten() + rest) == (
            Some(x),
            range_groups(x).flatten().len(),
        ),
{
    let last = (x.1 - 1) as u32;
    let g = range_groups(x);
    let e = Seq::<Seq<bool>>::empty();
    vstd::bytes::lemma_auto_spec_u32_to_from_le_bytes();
    if x.0 == last {
        assert(g =~= seq![seq![true]] + seq![u32_bits(x.0)]);
        lemma_flatten_cons(seq![true], seq![u32_bits(x.0)]);
        lemma_flatten_cons(u32_bits(x.0), e);
        assert(seq![u32_bits(x.0)] =~= seq![u32_bits(x.0)] + e);
        let bits = g.flatten() + rest;
        assert(bits.skip(1) =~= u32_bits(x.0) + rest);
        lemma_read_value_back::<u32>(x.0, rest);
    } else {
        assert(g =~= seq![seq![false]] + seq![u32_bits(x.0), u32_bits(last)]);
        lemma_flatten_cons(seq![false], seq![u32_bits(x.0), u32_bits(last)]);
        assert(seq![u32_bits(x.0), u32_bits(last)] =~= seq![u32_bits(x.0)] + seq![u32_bits(last)]);
        lemma_flatten_cons(u32_bits(x.0), seq![u32_bits(last)]);
        lemma_flatten_cons(u32_bits(last), e);
        assert(seq![u32_bits(last)] =~= seq![u32_bits(last)] + e);
        let bits = g.flatten() + rest;
        assert(bits.skip(1) =~= u32_bits(x.0) + (u32_bits(last) + rest));
        assert(bits.skip(33) =~= u32_bits(last) + rest);
        lemma_read_value_back::<u32>(x.0, u32_bits(last) + rest);
        lemma_read_value_back::<u32>(last, rest);
    }
}

/// Reading ranges back from the bits `serialize` writes for them gives them
/// back, where each ends past 0.
proof fn lemma_ranges_read_back(r: Seq<(u32, u32)>, rest: Seq<bool>)
    requires
        forall|i: int| 0 <= i < r.len() ==> #[trigger] r[i].1 >= 1,
    ensures
        ranges_read(ranges_groups(r).flatten() + rest, r.len()) == (
            Some(r),
            ranges_groups(r).flatten().len(),
        ),
    decreases r.len(),
{
    if r.len() == 0 {
        assert(ranges_groups(r).flatten() + rest =~= rest);
    } else {
        let t = r.drop_first();
        lemma_ranges_groups_front(r);
        vstd::seq_lib::lemma_flatten_concat(range_groups(r[0]), ranges_groups(t));
        let a = range_groups(r[0]).flatten();
        let b = ranges_groups(t).flatten();
        assert(ranges_groups(r).flatten() + rest =~= a + (b + rest));
        lemma_range_read_back(r[0], b + rest);
        assert((a + (b + rest)).skip(a.len() as int) =~= b + rest);
        lemma_ranges_read_back(t, rest);
        assert(seq![r[0]] + t =~= r);
    }
}

/// What `serialize` writes, `deserialize` reads back, whatever follows it:
/// the same ranges, for lists of at most 65535 ranges that each end past 0.
pub proof fn lemma_list_round_trip(r: Seq<(u32, u32)>, rest: Seq<bool>)
    requires
        r.len() <= 65535,
        forall|i: int| 0 <= i < r.len() ==> #[trigger] r[i].1 >= 1,
    ensures
        list_read(list_groups(r).flatten() + rest) == (Some(r), list_groups(r).flatten().len()),
{
    let count = r.len() as u16;
    let b = count.to_bytes();
    vstd::bytes::lemma_auto_spec_u16_to_from_le_bytes();
    let cg = compressed_groups(b, 1);
    let rg = ranges_groups(r);
    vstd::seq_lib::lemma_flatten_concat(cg, rg);
    let bits = list_groups(r).flatten() + rest;
    assert(bits =~= cg.flatten() + (rg.flatten() + rest));
    lemma_read_compressed_back(b, rg.flatten() + rest);
    <u16 as Wire>::lemma_wire_round_trip(count);
    assert(bits.skip(cg.flatten().len() as int) =~= rg.flatten() + rest);
    lemma_ranges_read_back(r, rest);
    assert(Seq::<(u32, u32)>::empty() + r =~= r);
}

/// What `RangeList::serialize` writes to a stream of `n` bits held in `raw`,
/// `RangeList::deserialize` reads back from a reader over the stream's bytes
/// at the bit where the write began: the same ranges, consuming exactly the
/// bits written; for well formed lists of at most 65535 ranges.
pub proof fn lemma_deserialize_reads_serialize(raw: Seq<u8>, n: int, r: Seq<(u32, u32)>)
    requires
        stream_wf(raw, n),
        ranges_wf(r),
        r.len() <= 65535,
    ensures
        ({
            let g = list_groups(r);
            let m = n + g.flatten().len();
            let view = bits_of(put_groups(raw, n, g).subrange(0, bytes_for(m)), n, m);
            list_read(view) == (Some(r), g.flatten().len())
        }),
{
    let g = list_groups(r);
    lemma_written_groups_read_back(raw, n, g);
    assert forall|i: int| 0 <= i < r.len() implies #[trigger] r[i].1 >= 1 by {
        assert(r[i].0 < r[i].1);
    }
    lemma_list_round_trip(r, Seq::empty());
    assert(g.flatten() + Seq::<bool>::empty() =~= g.flatten());
}

} // verus!
