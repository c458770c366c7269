use vstd::layout::size_of;
use vstd::prelude::*;

pub mod get_cache;
pub mod item;
pub mod iter;
pub mod utils;

use crate::get_cache::GetCache;
use crate::item::Item;
use crate::iter::{CompSeqIter, CompSeqIterRef};

verus! {

/// The values of `items`, concatenated front to back.
pub open spec fn decode(items: Seq<Item>, stride: u32) -> Seq<u32>
    decreases items.len(),
{
    if items.len() == 0 {
        Seq::empty()
    } else {
        decode(items.drop_last(), stride) + items.last().values(stride)
    }
}

/// Every item is well formed for `stride`.
pub open spec fn items_wf(items: Seq<Item>, stride: u32) -> bool {
    forall|i: int| 0 <= i < items.len() ==> #[trigger] items[i].wf(stride)
}

/// Each value is smaller than every later one.
pub open spec fn strictly_ascending(s: Seq<u32>) -> bool {
    forall|i: int, j: int| 0 <= i < j < s.len() ==> s[i] < s[j]
}

/// The value at `pos`, or `None` outside `[0, s.len())`.
pub open spec fn at_position(s: Seq<u32>, pos: int) -> Option<u32> {
    if 0 <= pos < s.len() {
        Some(s[pos])
    } else {
        None
    }
}

/// The greedy merge rule: the items after `v` is pushed onto `items`.
pub open spec fn push_items(items: Seq<Item>, stride: u32, v: u32) -> Seq<Item> {
    if items.len() == 0 {
        seq![Item::Numbers(v, None)]
    } else {
        let n = items.len() - 1;
        let fresh = items.push(Item::Numbers(v, None));
        match items.last() {
            Item::Numbers(a, b) => {
                if b is Some {
                    fresh
                } else if a + stride == v {
                    items.update(n, Item::Sequence(a, 1))
                } else if a < v && v - a <= u16::MAX {
                    items.update(n, Item::Numbers(a, Some((v - a) as u16)))
                } else {
                    fresh
                }
            },
            Item::Sequence(s, c) => {
                if c == u16::MAX {
                    fresh
                } else if items.last().last_value(stride) + stride == v {
                    items.update(n, Item::Sequence(s, (c + 1) as u16))
                } else {
                    fresh
                }
            },
        }
    }
}

/// The items that pushing the values of `vals` in order onto an empty sequence builds.
pub open spec fn build(stride: u32, vals: Seq<u32>) -> Seq<Item>
    decreases vals.len(),
{
    if vals.len() == 0 {
        Seq::empty()
    } else {
        push_items(build(stride, vals.drop_last()), stride, vals.last())
    }
}

/// Decoding distributes over concatenation.
pub proof fn lemma_decode_append(a: Seq<Item>, b: Seq<Item>, stride: u32)
    ensures
        decode(a + b, stride) == decode(a, stride) + decode(b, stride),
    decreases b.len(),
{
    if b.len() == 0 {
        assert(a + b =~= a);
        assert(decode(a, stride) + decode(b, stride) =~= decode(a, stride));
    } else {
        assert((a + b).drop_last() =~= a + b.drop_last());
        lemma_decode_append(a, b.drop_last(), stride);
        assert(decode(a + b, stride) =~= decode(a, stride) + decode(b, stride));
    }
}

/// Splits the decoding of `items` at item `k`.
pub proof fn lemma_decode_split(items: Seq<Item>, k: int, stride: u32)
    requires
        0 <= k < items.len(),
    ensures
        decode(items.take(k + 1), stride) == decode(items.take(k), stride) + items[k].values(
            stride,
        ),
        decode(items, stride) == decode(items.take(k + 1), stride) + decode(
            items.skip(k + 1),
            stride,
        ),
{
    assert(items.take(k + 1).drop_last() =~= items.take(k));
    assert(items =~= items.take(k + 1) + items.skip(k + 1));
    lemma_decode_append(items.take(k + 1), items.skip(k + 1), stride);
}

/// Decoding yields at least one value per item.
pub proof fn lemma_decode_len(items: Seq<Item>, stride: u32)
    ensures
        decode(items, stride).len() >= items.len(),
    decreases items.len(),
{
    if items.len() > 0 {
        lemma_decode_len(items.drop_last(), stride);
    }
}

/// A strictly ascending sequence of `u32` holds at most 2^32 values.
pub proof fn lemma_ascending_len(s: Seq<u32>)
    requires
        strictly_ascending(s),
    ensures
        s.len() <= u32::MAX + 1,
    decreases s.len(),
{
    if s.len() > 0 {
        lemma_ascending_len(s.drop_last());
        lemma_ascending_above_index(s, s.len() - 1);
    }
}

/// In a strictly ascending sequence the value at `i` is at least `i`.
proof fn lemma_ascending_above_index(s: Seq<u32>, i: int)
    requires
        strictly_ascending(s),
        0 <= i < s.len(),
    ensures
        s[i] >= i,
    decreases i,
{
    if i > 0 {
        lemma_ascending_above_index(s, i - 1);
    }
}

/// Pushing by the greedy rule appends `v` to the decoded values and keeps every item well formed.
pub proof fn lemma_push_items(items: Seq<Item>, stride: u32, v: u32)
    requires
        items_wf(items, stride),
        strictly_ascending(decode(items, stride)),
        decode(items, stride).len() == 0 || decode(items, stride).last() < v,
    ensures
        items_wf(push_items(items, stride, v), stride),
        decode(push_items(items, stride, v), stride) == decode(items, stride).push(v),
        strictly_ascending(decode(items, stride).push(v)),
{
    let r = push_items(items, stride, v);
    let single = Item::Numbers(v, None);
    assert(single.values(stride) =~= seq![v]);
    if items.len() == 0 {
        assert(r.drop_last() =~= Seq::<Item>::empty());
        assert(decode(Seq::<Item>::empty(), stride) =~= Seq::<u32>::empty());
        assert(decode(r, stride) =~= decode(items, stride).push(v));
    } else {
        let n = items.len() - 1;
        let last = items.last();
        lemma_decode_len(items.drop_last(), stride);
        last.lemma_value_bounds(last.spec_len() - 1, stride);
        assert(decode(items, stride).last() == last.values(stride).last());
        if r == items.push(single) {
            assert(r.drop_last() =~= items);
            assert(decode(r, stride) =~= decode(items, stride).push(v));
        } else {
            let x = r.last();
            assert(r.drop_last() =~= items.drop_last());
            match last {
                Item::Numbers(a, b) => {
                    if a + stride == v {
                        assert(x == Item::Sequence(a, 1));
                        assert(x.value_at(1, stride) == v);
                    } else {
                        assert(x == Item::Numbers(a, Some((v - a) as u16)));
                        assert(x.value_at(1, stride) == v);
                    }
                    assert(x.values(stride) =~= last.values(stride).push(v));
                },
                Item::Sequence(s, c) => {
                    assert((c + 1) * stride == c * stride + stride) by (nonlinear_arith);
                    assert(x.values(stride) =~= last.values(stride).push(v));
                },
            }
            assert(decode(r, stride) =~= decode(items, stride).push(v));
        }
    }
}

/// Items that a compressed sequence may hold: each well formed, values strictly ascending,
/// and their count within `usize`.
pub open spec fn parts_valid(items: Seq<Item>, stride: u32) -> bool {
    &&& items_wf(items, stride)
    &&& strictly_ascending(decode(items, stride))
    &&& decode(items, stride).len() <= usize::MAX
}

/// Sorted in ascending order, equal values allowed.
pub open spec fn sorted(s: Seq<u32>) -> bool {
    forall|i: int, j: int| 0 <= i <= j < s.len() ==> s[i] <= s[j]
}

/// Relies on `slice::sort_unstable`: the same values afterwards, in ascending order.
#[verifier::external_body]
fn sort_values(v: &mut Vec<u32>)
    ensures
        final(v)@.to_multiset() == old(v)@.to_multiset(),
        sorted(final(v)@),
{
    v.sort_unstable();
}

/// The decoding of a prefix of the items is a prefix of the decoding.
proof fn lemma_decode_prefix(items: Seq<Item>, k: int, stride: u32)
    requires
        0 <= k <= items.len(),
    ensures
        decode(items, stride) == decode(items.take(k), stride) + decode(items.skip(k), stride),
{
    assert(items =~= items.take(k) + items.skip(k));
    lemma_decode_append(items.take(k), items.skip(k), stride);
}

/// Pushing a strictly ascending sequence of values in order, starting from nothing, builds
/// well-formed items that decode to exactly those values.
pub proof fn lemma_build_materializes(stride: u32, vals: Seq<u32>)
    requires
        strictly_ascending(vals),
    ensures
        items_wf(build(stride, vals), stride),
        decode(build(stride, vals), stride) == vals,
        decode(build(stride, vals), stride).len() == vals.len(),
    decreases vals.len(),
{
    if vals.len() == 0 {
        assert(decode(Seq::<Item>::empty(), stride) =~= vals);
    } else {
        let init = vals.drop_last();
        lemma_build_materializes(stride, init);
        lemma_push_items(build(stride, init), stride, vals.last());
        assert(init.push(vals.last()) =~= vals);
    }
}

/// After pushing a strictly ascending sequence of values, position `p` holds the `p`-th value.
pub proof fn lemma_build_positions(stride: u32, vals: Seq<u32>, p: int)
    requires
        strictly_ascending(vals),
        0 <= p < vals.len(),
    ensures
        at_position(decode(build(stride, vals), stride), p) == Some(vals[p]),
{
    lemma_build_materializes(stride, vals);
}

/// After pushing a strictly ascending sequence of values, exactly those values are held.
pub proof fn lemma_build_membership(stride: u32, vals: Seq<u32>, x: u32)
    requires
        strictly_ascending(vals),
    ensures
        decode(build(stride, vals), stride).contains(x) == vals.contains(x),
{
    lemma_build_materializes(stride, vals);
}

/// An empty sequence holds a value at no position.
pub proof fn lemma_empty_positions(pos: int)
    ensures
        at_position(Seq::<u32>::empty(), pos) is None,
{
}

/// A run holding the most values it can takes no more: the next value starts a new item.
pub proof fn lemma_full_run_starts_new_item(items: Seq<Item>, stride: u32, v: u32)
    requires
        items.len() > 0,
        items.last() matches Item::Sequence(_, c) && c == u16::MAX,
    ensures
        push_items(items, stride, v) == items.push(Item::Numbers(v, None)),
{
}

/// A single-value pair takes a second value up to the largest offset `u16::MAX` above its
/// base (unless the value continues a run), and a value one further starts a new item.
pub proof fn lemma_pair_offset_limit(items: Seq<Item>, stride: u32, a: u32, v: u32)
    requires
        items.len() > 0,
        items.last() == Item::Numbers(a, None),
        a + stride != v,
        a < v,
    ensures
        v - a <= u16::MAX ==> push_items(items, stride, v) == items.update(
            items.len() - 1,
            Item::Numbers(a, Some((v - a) as u16)),
        ),
        v - a > u16::MAX ==> push_items(items, stride, v) == items.push(Item::Numbers(v, None)),
{
}

/// A well-formed sequence, taken apart into its stride and items, is valid to rebuild from
/// them, and the rebuilt sequence holds the same values.
pub proof fn lemma_parts_round_trip(s: CompressedSequence)
    requires
        s.wf(),
    ensures
        parts_valid(s.items(), s.stride()),
        decode(s.items(), s.stride()) == s@,
{
}

/// How many of `items` are pairs.
pub open spec fn count_pairs(items: Seq<Item>) -> nat
    decreases items.len(),
{
    if items.len() == 0 {
        0
    } else {
        count_pairs(items.drop_last()) + if items.last() is Numbers {
            1nat
        } else {
            0nat
        }
    }
}

/// How many of `items` are pairs holding a single value.
pub open spec fn count_single_pairs(items: Seq<Item>) -> nat
    decreases items.len(),
{
    if items.len() == 0 {
        0
    } else {
        count_single_pairs(items.drop_last()) + if items.last() matches Item::Numbers(_, None) {
            1nat
        } else {
            0nat
        }
    }
}

/// How many of `items` are runs.
pub open spec fn count_runs(items: Seq<Item>) -> nat
    decreases items.len(),
{
    if items.len() == 0 {
        0
    } else {
        count_runs(items.drop_last()) + if items.last() is Sequence {
            1nat
        } else {
            0nat
        }
    }
}

/// A compressed sequence of ascending numbers that often lie a fixed stride apart.
#[derive(Debug, Clone, PartialEq, Eq)]
pub struct CompressedSequence {
    step: u32,
    seq: Vec<Item>,
}

impl View for CompressedSequence {
    type V = Seq<u32>;

    open spec fn view(&self) -> Seq<u32> {
        decode(self.items(), self.stride())
    }
}

impl CompressedSequence {
    /// The encoded items, front to back.
    pub open(crate) spec fn items(&self) -> Seq<Item> {
        self.seq@
    }

    /// The stride shared by all runs.
    pub open(crate) spec fn stride(&self) -> u32 {
        self.step
    }

    /// Items well formed, values strictly ascending, count within `usize`.
    pub open spec fn wf(&self) -> bool {
        &&& items_wf(self.items(), self.stride())
        &&& strictly_ascending(self@)
        &&& self@.len() <= usize::MAX
    }

    /// A cache entry `(p, vi, l)` is true of this sequence: item `vi` exists, `l` values lie
    /// before it, and `l <= p`.
    pub open spec fn entry_fits(&self, e: (u32, u32, u32)) -> bool {
        &&& e.1 < self.items().len()
        &&& e.2 == decode(self.items().take(e.1 as int), self.stride()).len()
        &&& e.2 <= e.0
    }

    /// Every entry of the cache is true of this sequence.
    pub open spec fn cache_fits(&self, c: Seq<(u32, u32, u32)>) -> bool {
        forall|j: int| 0 <= j < c.len() ==> self.entry_fits(#[trigger] c[j])
    }

    /// An empty sequence with the given stride.
    pub fn new(step: u32) -> (r: Self)
        ensures
            r.wf(),
            r@ == Seq::<u32>::empty(),
            r.items() == Seq::<Item>::empty(),
            r.stride() == step,
    {
        Self { seq: Vec::new(), step }
    }

    /// Appends `item`, which must exceed every value already held.
    pub fn push(&mut self, item: u32)
        requires
            old(self).wf(),
            old(self)@.len() < usize::MAX,
            old(self)@.len() == 0 || old(self)@.last() < item,
        ensures
            final(self).wf(),
            final(self)@ == old(self)@.push(item),
            final(self).items() == push_items(old(self).items(), old(self).stride(), item),
            final(self).stride() == old(self).stride(),
    {
        proof {
            lemma_push_items(self.seq@, self.step, item);
        }
        let last = match self.last_item() {
            Some(it) => *it,
            None => {
                self.seq.push(Item::new(item));
                assert(self.seq@ =~= seq![Item::Numbers(item, None)]);
                return ;
            },
        };
        let n = self.seq.len();
        let step_size = self.step;
        proof {
            assert(self.seq@[n - 1].wf(step_size));
        }
        if !last.can_add() {
            self.seq.push(Item::new(item));
            return ;
        }
        let last_nr = last.last_number(step_size);
        if step_size <= u32::MAX - last_nr && last_nr + step_size == item {
            let mut grown = last.to_sequence();
            grown.seq_add();
            self.seq.set(n - 1, grown);
            return ;
        }
        if let Item::Numbers(nr, None) = last {
            if item > nr && item - nr <= u16::MAX as u32 {
                self.seq.set(n - 1, Item::Numbers(nr, Some((item - nr) as u16)));
                return ;
            }
        }
        self.seq.push(Item::new(item));
    }

    /// The value at position `pos`, or `None` past the end.
    pub fn get(&self, pos: usize) -> (r: Option<u32>)
        requires
            self.wf(),
        ensures
            r == at_position(self@, pos as int),
    {
        let mut i_len: usize = 0;
        let mut k: usize = 0;
        while k < self.seq.len()
            invariant
                self.wf(),
                k <= self.seq@.len(),
                i_len == decode(self.seq@.take(k as int), self.step).len(),
                i_len <= pos,
            decreases self.seq@.len() - k,
        {
            let it = &self.seq[k];
            proof {
                lemma_decode_split(self.seq@, k as int, self.step);
                assert(self.seq@[k as int].wf(self.step));
            }
            let next_len = i_len + it.len();
            if pos < next_len {
                return it.at(pos - i_len, self.step);
            }
            i_len = next_len;
            k += 1;
        }
        proof {
            assert(self.seq@.take(k as int) =~= self.seq@);
        }
        None
    }

    /// Number of values held.
    pub fn len(&self) -> (r: usize)
        requires
            self.wf(),
        ensures
            r == self@.len(),
    {
        let mut len: usize = 0;
        let mut k: usize = 0;
        while k < self.seq.len()
            invariant
                self.wf(),
                k <= self.seq@.len(),
                len == decode(self.seq@.take(k as int), self.step).len(),
            decreases self.seq@.len() - k,
        {
            proof {
                lemma_decode_split(self.seq@, k as int, self.step);
            }
            match &self.seq[k] {
                Item::Numbers(_, next) => {
                    len += 1;
                    if next.is_some() {
                        len += 1;
                    }
                },
                Item::Sequence(_, count) => {
                    len += *count as usize + 1;
                },
            }
            k += 1;
        }
        proof {
            assert(self.seq@.take(k as int) =~= self.seq@);
        }
        len
    }

    /// All values, in order, in a new vector.
    pub fn to_vec(&self) -> (r: Vec<u32>)
        requires
            self.wf(),
        ensures
            r@ == self@,
    {
        let mut out: Vec<u32> = Vec::new();
        let mut k: usize = 0;
        while k < self.seq.len()
            invariant
                self.wf(),
                k <= self.seq@.len(),
                out@ == decode(self.seq@.take(k as int), self.step),
            decreases self.seq@.len() - k,
        {
            proof {
                lemma_decode_split(self.seq@, k as int, self.step);
                assert(self.seq@[k as int].wf(self.step));
            }
            let it = self.seq[k];
            let ghost before = out@;
            match it {
                Item::Numbers(start, next) => {
                    out.push(start);
                    if let Some(d) = next {
                        out.push(start + d as u32);
                    }
                    assert(out@ =~= before + it.values(self.step));
                },
                Item::Sequence(start, count) => {
                    let mut i: u32 = 0;
                    while i <= count as u32
                        invariant
                            self.wf(),
                            it == self.seq@[k as int],
                            it.wf(self.step),
                            it == Item::Sequence(start, count),
                            i <= count + 1,
                            out@ == before + it.values(self.step).take(i as int),
                        decreases count + 1 - i,
                    {
                        proof {
                            it.lemma_value_bounds(i as int, self.step);
                            item::lemma_mul_mono(i as int, count as int, self.step as int);
                        }
                        out.push(start + self.step * i);
                        proof {
                            assert(out@ =~= before + it.values(self.step).take(i + 1));
                        }
                        i += 1;
                    }
                    assert(it.values(self.step).take(i as int) =~= it.values(self.step));
                },
            }
            k += 1;
        }
        proof {
            assert(self.seq@.take(k as int) =~= self.seq@);
        }
        out
    }

    /// Whether the sequence holds no value.
    pub fn is_empty(&self) -> (r: bool)
        requires
            self.wf(),
        ensures
            r == (self@.len() == 0),
    {
        proof {
            lemma_decode_len(self.seq@, self.step);
            if self.seq@.len() == 0 {
                assert(self@ =~= Seq::<u32>::empty());
            }
        }
        self.seq.len() == 0
    }

    /// The value at position `pos`, or `None` past the end; resumes from the cache's nearest
    /// entry at or below `pos` and records the item found.
    pub fn get_cached(&self, pos: usize, cache: &mut GetCache) -> (r: Option<u32>)
        requires
            self.wf(),
            old(cache).wf(),
            self.cache_fits(old(cache)@),
        ensures
            r == at_position(self@, pos as int),
            final(cache).wf(),
            self.cache_fits(final(cache)@),
    {
        proof {
            lemma_ascending_len(self@);
        }
        if pos > u32::MAX as usize {
            return None;
        }
        let mut i_len: usize = 0;
        let mut k: usize = 0;
        proof {
            assert(self.seq@.take(0) =~= Seq::<Item>::empty());
        }
        if let Some(e) = cache.get(pos as u32) {
            proof {
                let j = choose|j: int| 0 <= j < cache@.len() && cache@[j] == e;
                assert(self.entry_fits(cache@[j]));
            }
            i_len = e.2 as usize;
            k = e.1 as usize;
        }
        while k < self.seq.len()
            invariant
                self.wf(),
                cache.wf(),
                self.cache_fits(cache@),
                pos <= u32::MAX,
                k <= self.seq@.len(),
                i_len == decode(self.seq@.take(k as int), self.step).len(),
                i_len <= pos,
            decreases self.seq@.len() - k,
        {
            let it = &self.seq[k];
            proof {
                lemma_decode_split(self.seq@, k as int, self.step);
                assert(self.seq@[k as int].wf(self.step));
            }
            let next_len = i_len + it.len();
            if pos < next_len {
                let value = it.at(pos - i_len, self.step);
                proof {
                    lemma_decode_len(self.seq@.take(k as int), self.step);
                }
                let ghost before = cache@;
                let entry = (i_len as u32, k as u32, i_len as u32);
                cache.insert(i_len as u32, k as u32, i_len as u32);
                proof {
                    assert(self.entry_fits(entry));
                    if cache@ != before {
                        let q = choose|q: int|
                            0 <= q <= before.len() && cache@ == before.insert(q, entry);
                        assert forall|j: int| 0 <= j < cache@.len() implies self.entry_fits(
                            #[trigger] cache@[j],
                        ) by {
                            if j < q {
                                assert(cache@[j] == before[j]);
                            } else if j > q {
                                assert(cache@[j] == before[j - 1]);
                            }
                        }
                    }
                }
                return value;
            }
            i_len = next_len;
            k += 1;
        }
        proof {
            assert(self.seq@.take(k as int) =~= self.seq@);
        }
        None
    }

    /// Whether `item` is held, by binary search over the positions.
    pub fn has_bin_search(&self, item: u32) -> (r: bool)
        requires
            self.wf(),
        ensures
            r == self@.contains(item),
    {
        let mut size = self.len();
        let mut left: usize = 0;
        let mut right: usize = size;
        let mut pos_cache = GetCache::with_capacity(16);
        while left < right
            invariant
                self.wf(),
                pos_cache.wf(),
                self.cache_fits(pos_cache@),
                left <= right <= self@.len(),
                size == right - left,
                forall|i: int| 0 <= i < left ==> #[trigger] self@[i] < item,
                forall|i: int| right <= i < self@.len() ==> #[trigger] self@[i] > item,
            decreases right - left,
        {
            let mid = left + size / 2;
            let v = match self.get_cached(mid, &mut pos_cache) {
                Some(v) => v,
                // unreachable: `mid` lies below the length
                None => {
                    return false;
                },
            };
            if v < item {
                left = mid + 1;
            } else if v > item {
                right = mid;
            } else {
                return true;
            }
            size = right - left;
        }
        proof {
            if self@.contains(item) {
                let i = choose|i: int| 0 <= i < self@.len() && self@[i] == item;
                assert(self@[i] == item);
            }
        }
        false
    }

    /// Whether `item` is held, by a linear scan.
    pub fn contains(&self, item: u32) -> (r: bool)
        requires
            self.wf(),
        ensures
            r == self@.contains(item),
    {
        let mut it = self.iter();
        loop
            invariant
                self.wf(),
                it.wf(),
                it.values() == self@,
                0 <= it.index() <= self@.len(),
                forall|i: int| 0 <= i < it.index() ==> #[trigger] self@[i] != item,
            decreases self@.len() - it.index(),
        {
            match it.next() {
                Some(v) => {
                    if v == item {
                        return true;
                    }
                },
                None => {
                    proof {
                        if self@.contains(item) {
                            let i = choose|i: int| 0 <= i < self@.len() && self@[i] == item;
                            assert(self@[i] != item);
                        }
                    }
                    return false;
                },
            }
        }
    }

    /// A forward iterator over the values.
    pub fn iter(&self) -> (r: CompSeqIterRef<'_>)
        requires
            self.wf(),
        ensures
            r.wf(),
            r.values() == self@,
            r.index() == 0,
    {
        CompSeqIterRef::new(self)
    }

    /// An iterator that takes the sequence over and yields its values in order.
    pub fn into_iter(self) -> (r: CompSeqIter)
        requires
            self.wf(),
        ensures
            r.wf(),
            r.values() == self@,
            r.index() == 0,
    {
        CompSeqIter::new(self)
    }

    /// Appends `values` in order; each must exceed every value held before it.
    pub fn extend(&mut self, values: Vec<u32>)
        requires
            old(self).wf(),
            strictly_ascending(old(self)@ + values@),
            old(self)@.len() + values@.len() <= usize::MAX,
        ensures
            final(self).wf(),
            final(self)@ == old(self)@ + values@,
            final(self).stride() == old(self).stride(),
    {
        let ghost start = self@;
        let mut i: usize = 0;
        while i < values.len()
            invariant
                self.wf(),
                self.stride() == old(self).stride(),
                start == old(self)@,
                strictly_ascending(start + values@),
                start.len() + values@.len() <= usize::MAX,
                i <= values@.len(),
                self@ == start + values@.take(i as int),
            decreases values@.len() - i,
        {
            proof {
                let all = start + values@;
                if self@.len() > 0 {
                    assert(self@.last() == all[self@.len() - 1]);
                    assert(values@[i as int] == all[self@.len() as int]);
                }
            }
            self.push(values[i]);
            proof {
                assert(self@ =~= start + values@.take(i + 1));
            }
            i += 1;
        }
        proof {
            assert(values@.take(i as int) =~= values@);
        }
    }

    /// A sequence holding the given distinct values, sorted first.
    pub fn from_iterator(step: u32, values: Vec<u32>) -> (r: Self)
        requires
            values@.no_duplicates(),
        ensures
            r.wf(),
            r.stride() == step,
            strictly_ascending(r@),
            r@.to_multiset() == values@.to_multiset(),
    {
        let mut vec = values;
        let ghost original = vec@;
        sort_values(&mut vec);
        proof {
            original.lemma_multiset_has_no_duplicates();
            vec@.lemma_multiset_has_no_duplicates_conv();
            assert(strictly_ascending(vec@)) by {
                assert forall|i: int, j: int| 0 <= i < j < vec@.len() implies vec@[i]
                    < vec@[j] by {
                    assert(vec@[i] <= vec@[j]);
                    assert(vec@[i] != vec@[j]);
                }
            }
            assert(Seq::<u32>::empty() + vec@ =~= vec@);
        }
        // the length of a vector fits in `usize`
        let count = vec.len();
        assert(count == vec@.len());
        let mut seq = Self::new(step);
        seq.extend(vec);
        seq
    }

    /// Approximate size of the sequence in memory, in bytes (saturating).
    pub fn size_of(&self) -> (r: usize)
        ensures
            r as int == if size_of::<Self>() + self.items().len() * size_of::<Item>() <= usize::MAX {
                (size_of::<Self>() + self.items().len() * size_of::<Item>()) as int
            } else {
                usize::MAX as int
            },
    {
        let size_self = core::mem::size_of::<Self>();
        let size_item = core::mem::size_of::<Item>();
        let items = self.seq.len();
        proof {
            assert(items * size_item >= 0) by (nonlinear_arith)
                requires
                    items >= 0,
                    size_item >= 0,
            ;
        }
        match items.checked_mul(size_item) {
            Some(bytes) => size_self.saturating_add(bytes),
            None => usize::MAX,
        }
    }

    /// The stride shared by all runs.
    pub fn step(&self) -> (r: u32)
        ensures
            r == self.stride(),
    {
        self.step
    }

    /// The encoded items, front to back.
    pub fn seq(&self) -> (r: &Vec<Item>)
        ensures
            r@ == self.items(),
    {
        &self.seq
    }

    /// The last encoded item, if any.
    fn last_item(&self) -> (r: Option<&Item>)
        ensures
            r == if self.items().len() == 0 {
                None
            } else {
                Some(&self.items().last())
            },
    {
        self.seq.last()
    }

    /// A sequence with the given stride and items, if they form a valid sequence.
    pub fn from_parts(step: u32, items: Vec<Item>) -> (r: Option<Self>)
        ensures
            r is Some <==> parts_valid(items@, step),
            r matches Some(s) ==> s.wf() && s.items() == items@ && s.stride() == step && s@
                == decode(items@, step),
    {
        let mut k: usize = 0;
        let mut total: usize = 0;
        let mut prev_last: Option<u32> = None;
        while k < items.len()
            invariant
                k <= items@.len(),
                items_wf(items@.take(k as int), step),
                strictly_ascending(decode(items@.take(k as int), step)),
                total == decode(items@.take(k as int), step).len(),
                k == 0 ==> prev_last is None,
                k > 0 ==> prev_last == Some(decode(items@.take(k as int), step).last()),
            decreases items@.len() - k,
        {
            let it = items[k];
            proof {
                lemma_decode_split(items@, k as int, step);
                lemma_decode_prefix(items@, k as int + 1, step);
                lemma_decode_len(items@.take(k as int), step);
                if k == 0 {
                    assert(items@.take(0) =~= Seq::<Item>::empty());
                    assert(decode(Seq::<Item>::empty(), step) =~= Seq::<u32>::empty());
                }
            }
            let ghost head = decode(items@.take(k as int), step);
            let ghost upto = decode(items@.take(k as int + 1), step);
            let ghost vals = it.values(step);
            let (ok, first) = match it {
                Item::Numbers(a, Some(d)) => (d != 0 && a as u64 + d as u64 <= u32::MAX as u64, a),
                Item::Numbers(a, None) => (true, a),
                Item::Sequence(s, c) => {
                    proof {
                        item::lemma_mul_mono(c as int, u16::MAX as int, step as int);
                    }
                    (s as u64 + c as u64 * step as u64 <= u32::MAX as u64 && (c == 0 || step
                        > 0), s)
                },
            };
            if !ok {
                proof {
                    if parts_valid(items@, step) {
                        assert(items@[k as int].wf(step));
                        assert(upto[head.len() as int] == upto[head.len() as int + 1]);
                        assert(decode(items@, step)[head.len() as int] == decode(items@, step)[head.len() as int + 1]);
                    }
                }
                return None;
            }
            proof {
                it.lemma_value_bounds(0, step);
                it.lemma_value_bounds(vals.len() - 1, step);
                assert(vals[0] == first);
                assert(strictly_ascending(vals)) by {
                    assert forall|i: int, j: int| 0 <= i < j < vals.len() implies vals[i]
                        < vals[j] by {
                        it.lemma_value_bounds(i, step);
                        it.lemma_value_bounds(j, step);
                        if let Item::Sequence(s, c) = it {
                            assert(i * step < j * step) by (nonlinear_arith)
                                requires
                                    i < j,
                                    step > 0,
                            ;
                        }
                    }
                }
            }
            if let Some(p) = prev_last {
                if p >= first {
                    proof {
                        if parts_valid(items@, step) {
                            assert(upto[head.len() - 1] == p);
                            assert(upto[head.len() as int] == first);
                            assert(decode(items@, step)[head.len() - 1] == p);
                            assert(decode(items@, step)[head.len() as int] == first);
                        }
                    }
                    return None;
                }
            }
            let n = it.len();
            if total > usize::MAX - n {
                proof {
                    lemma_decode_len(items@.skip(k as int + 1), step);
                }
                return None;
            }
            proof {
                assert(items_wf(items@.take(k as int + 1), step)) by {
                    assert forall|i: int| 0 <= i < k + 1 implies #[trigger] items@.take(
                        k as int + 1,
                    )[i].wf(step) by {
                        if i < k {
                            assert(items@.take(k as int)[i] == items@.take(k as int + 1)[i]);
                        }
                    }
                }
                assert(strictly_ascending(upto)) by {
                    assert forall|i: int, j: int| 0 <= i < j < upto.len() implies upto[i]
                        < upto[j] by {
                        if j < head.len() {
                            assert(upto[i] == head[i] && upto[j] == head[j]);
                        } else if i >= head.len() {
                            assert(upto[i] == vals[i - head.len()] && upto[j] == vals[j
                                - head.len()]);
                        } else {
                            assert(upto[j] == vals[j - head.len()]);
                            assert(upto[i] == head[i]);
                            if k > 0 {
                                assert(head[i] <= head.last());
                            }
                            assert(vals[0] <= vals[j - head.len()]);
                        }
                    }
                }
            }
            total = total + n;
            prev_last = Some(it.last_number(step));
            k += 1;
        }
        proof {
            assert(items@.take(k as int) =~= items@);
        }
        Some(Self { step, seq: items })
    }

    /// The number of pairs, of single-value pairs, and of runs among the items.
    pub fn item_counts(&self) -> (r: (usize, usize, usize))
        ensures
            r.0 == count_pairs(self.items()),
            r.1 == count_single_pairs(self.items()),
            r.2 == count_runs(self.items()),
    {
        let mut pairs: usize = 0;
        let mut singles: usize = 0;
        let mut runs: usize = 0;
        let mut k: usize = 0;
        while k < self.seq.len()
            invariant
                k <= self.seq@.len(),
                pairs == count_pairs(self.seq@.take(k as int)),
                singles == count_single_pairs(self.seq@.take(k as int)),
                runs == count_runs(self.seq@.take(k as int)),
                singles <= pairs,
                pairs + runs == k,
            decreases self.seq@.len() - k,
        {
            proof {
                assert(self.seq@.take(k as int + 1).drop_last() =~= self.seq@.take(k as int));
            }
            match &self.seq[k] {
                Item::Numbers(_, next) => {
                    pairs += 1;
                    if next.is_none() {
                        singles += 1;
                    }
                },
                Item::Sequence(_, _) => {
                    runs += 1;
                },
            }
            k += 1;
        }
        proof {
            assert(self.seq@.take(k as int) =~= self.seq@);
        }
        (pairs, singles, runs)
    }
}

} // verus!
