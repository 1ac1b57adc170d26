//! An unbounded bit set: a dynamic set of non-negative integers packed into
//! 32-bit chunks that are stored in an auto-growing [`DefaultVec`].

use vstd::prelude::*;
use crate::default_vec::{DefaultVec, grow_to, slot_or_default};

verus! {

/// Whether bit `off` of chunk `c` is 1.
pub open spec fn nth_bit(c: u32, off: u32) -> bool {
    1u32 & (c >> off) == 1
}

/// Chunk `c` with bit `off` set when `v` is true, cleared otherwise.
pub open spec fn with_bit(c: u32, off: u32, v: bool) -> u32 {
    if v {
        c | (1u32 << off)
    } else {
        c & !(1u32 << off)
    }
}

/// Whether the chunk sequence `s` holds element `x`: the bit `x % 32` of
/// chunk `x / 32` is 1. Chunks past the end of `s` are implicitly all-zero,
/// so elements addressing them are absent.
pub open spec fn chunk_contains(s: Seq<u32>, x: int) -> bool {
    &&& 0 <= x
    &&& x / 32 < s.len()
    &&& nth_bit(s[x / 32], (x % 32) as u32)
}

/// The mathematical set of elements held by the chunk sequence `s`.
pub open spec fn as_set(s: Seq<u32>) -> Set<int> {
    Set::new(|x: int| chunk_contains(s, x))
}

/// The chunk sequence `s` after writing value `v` into the bit of element
/// `x`: the sequence grows (with zero chunks) until `x`'s chunk exists, then
/// that chunk's bit `x % 32` is set or cleared.
pub open spec fn chunks_with_bit(s: Seq<u32>, x: int, v: bool) -> Seq<u32> {
    grow_to(s, x / 32 + 1).update(x / 32, with_bit(slot_or_default(s, x / 32), (x % 32) as u32, v))
}

proof fn lemma_zero_bit(off: u32)
    ensures
        !nth_bit(0u32, off),
{
    assert(1u32 & (0u32 >> off) != 1) by (bit_vector);
}

proof fn lemma_mask_test(c: u32, off: u32)
    requires
        off < 32,
    ensures
        (c & (1u32 << off) != 0) == nth_bit(c, off),
{
    assert((c & (1u32 << off) != 0) == (1u32 & (c >> off) == 1)) by (bit_vector)
        requires
            off < 32,
    ;
}

proof fn lemma_with_bit(c: u32, off: u32, v: bool, o2: u32)
    requires
        off < 32,
        o2 < 32,
    ensures
        nth_bit(with_bit(c, off, v), o2) == (if o2 == off { v } else { nth_bit(c, o2) }),
{
    if v {
        assert((1u32 & ((c | (1u32 << off)) >> o2) == 1) == (if o2 == off {
            true
        } else {
            1u32 & (c >> o2) == 1
        })) by (bit_vector)
            requires
                off < 32,
                o2 < 32,
        ;
    } else {
        assert((1u32 & ((c & !(1u32 << off)) >> o2) == 1) == (if o2 == off {
            false
        } else {
            1u32 & (c >> o2) == 1
        })) by (bit_vector)
            requires
                off < 32,
                o2 < 32,
        ;
    }
}

proof fn lemma_same_cell(x: int, y: int)
    requires
        0 <= x,
        0 <= y,
        x / 32 == y / 32,
        x % 32 == y % 32,
    ensures
        x == y,
{
    vstd::arithmetic::div_mod::lemma_fundamental_div_mod(x, 32);
    vstd::arithmetic::div_mod::lemma_fundamental_div_mod(y, 32);
}

/// Every element of a chunk sequence lies below 32 times the chunk count.
pub proof fn lemma_members_bounded(s: Seq<u32>)
    ensures
        forall|y: int| as_set(s).contains(y) ==> 0 <= y < 32 * s.len(),
{
    assert forall|y: int| as_set(s).contains(y) implies 0 <= y < 32 * s.len() by {
        vstd::arithmetic::div_mod::lemma_fundamental_div_mod(y, 32);
    }
}

/// Writing the bit of `x` to `v` changes membership of `x` alone: afterwards
/// `x` is present exactly when `v` is true, and every other element keeps
/// the membership it had before.
pub proof fn lemma_with_bit_membership(s: Seq<u32>, x: int, v: bool, y: int)
    requires
        0 <= x,
    ensures
        as_set(chunks_with_bit(s, x, v)).contains(y) == (if y == x {
            v
        } else {
            as_set(s).contains(y)
        }),
{
    let t = chunks_with_bit(s, x, v);
    let ci = x / 32;
    let off = (x % 32) as u32;
    if y < 0 {
    } else {
        let cj = y / 32;
        let oy = (y % 32) as u32;
        vstd::arithmetic::div_mod::lemma_fundamental_div_mod(y, 32);
        vstd::arithmetic::div_mod::lemma_fundamental_div_mod(x, 32);
        if cj < t.len() {
            if cj == ci {
                lemma_with_bit(slot_or_default(s, ci), off, v, oy);
                if oy == off {
                    lemma_same_cell(x, y);
                } else {
                    if ci >= s.len() {
                        lemma_zero_bit(oy);
                    }
                }
            } else {
                // the written chunk is not y's chunk, so y's bit is what the
                // grown sequence held there
                if cj >= s.len() {
                    lemma_zero_bit(oy);
                }
            }
        } else {
            // y's chunk exists in neither sequence
        }
    }
}

/// The mathematical set of the elements listed in `xs`; duplicates collapse
/// and the order of the listing does not matter.
pub open spec fn elems_of(xs: Seq<usize>) -> Set<int> {
    Set::new(|y: int| exists|k: int| 0 <= k < xs.len() && xs[k] as int == y)
}

/// A dynamic set of non-negative integers stored as packed bits: element `x`
/// lives at bit `x % 32` of chunk `x / 32`.
///
/// The chunk storage grows whenever an element that would not otherwise fit
/// is addressed mutably, and it never shrinks, so memory can be wasted when
/// a very large element is added and then removed.
pub struct BitSet {
    chunks: DefaultVec<u32>,
}

impl Clone for BitSet {
    /// An independent copy with the same chunks, capacity included.
    fn clone(&self) -> (r: Self)
        ensures
            r@ == self@,
    {
        BitSet { chunks: self.chunks.clone() }
    }
}

impl View for BitSet {
    type V = Seq<u32>;

    closed spec fn view(&self) -> Seq<u32> {
        self.chunks@
    }
}

impl Default for BitSet {
    /// An empty set with no allocated chunks.
    fn default() -> (r: Self)
        ensures
            r@ == Seq::<u32>::empty(),
            as_set(r@) == Set::<int>::empty(),
    {
        let r = BitSet { chunks: DefaultVec::default() };
        proof {
            assert(as_set(r@) =~= Set::<int>::empty());
        }
        r
    }
}

/// Splits an element into its chunk index, the single-bit mask of its bit
/// within that chunk, and the bit offset itself.
fn split(x: usize) -> (r: (usize, u32, u32))
    ensures
        r.0 == x as int / 32,
        r.2 == x as int % 32,
        r.2 < 32,
        r.1 == 1u32 << r.2,
{
    let offset: u32 = (x % 32) as u32;
    (x / 32, 1u32 << offset, offset)
}

impl BitSet {
    /// Adds an element to the set.
    ///
    /// Returns true when the set did not have this element present, false
    /// when it did. May grow the backing storage, never shrinks it.
    pub fn insert(&mut self, x: usize) -> (r: bool)
        ensures
            r == !as_set(old(self)@).contains(x as int),
            final(self)@ == chunks_with_bit(old(self)@, x as int, true),
            as_set(final(self)@) == as_set(old(self)@).insert(x as int),
            old(self)@.len() <= final(self)@.len(),
    {
        proof {
            assert(x as int / 32 < usize::MAX) by (nonlinear_arith)
                requires
                    x <= usize::MAX,
                    usize::MAX >= 32,
            ;
        }
        let (ci, mask, off) = split(x);
        let chunk = self.chunks.get_mut(ci);
        let res = (*chunk & mask) == 0;
        *chunk |= mask;
        proof {
            lemma_mask_test(slot_or_default(old(self)@, ci as int), off);
            if ci as int >= old(self)@.len() {
                lemma_zero_bit(off);
            }
            assert(self@ == chunks_with_bit(old(self)@, x as int, true));
            assert forall|y: int|
                as_set(self@).contains(y) == as_set(old(self)@).insert(x as int).contains(y) by {
                lemma_with_bit_membership(old(self)@, x as int, true, y);
            }
            assert(as_set(self@) =~= as_set(old(self)@).insert(x as int));
        }
        res
    }

    /// Removes an element from the set.
    ///
    /// Returns true when the element was present, false otherwise. Removing
    /// an element still grows the storage far enough to address its chunk
    /// (the growth path is shared with [`BitSet::insert`]), but an element in
    /// a never-grown region always reports false.
    pub fn remove(&mut self, x: usize) -> (r: bool)
        ensures
            r == as_set(old(self)@).contains(x as int),
            final(self)@ == chunks_with_bit(old(self)@, x as int, false),
            as_set(final(self)@) == as_set(old(self)@).remove(x as int),
            old(self)@.len() <= final(self)@.len(),
    {
        proof {
            assert(x as int / 32 < usize::MAX) by (nonlinear_arith)
                requires
                    x <= usize::MAX,
                    usize::MAX >= 32,
            ;
        }
        let (ci, mask, off) = split(x);
        let chunk = self.chunks.get_mut(ci);
        let res = (*chunk & mask) != 0;
        *chunk &= !mask;
        proof {
            lemma_mask_test(slot_or_default(old(self)@, ci as int), off);
            if ci as int >= old(self)@.len() {
                lemma_zero_bit(off);
            }
            assert(self@ == chunks_with_bit(old(self)@, x as int, false));
            assert forall|y: int|
                as_set(self@).contains(y) == as_set(old(self)@).remove(x as int).contains(y) by {
                lemma_with_bit_membership(old(self)@, x as int, false, y);
            }
            assert(as_set(self@) =~= as_set(old(self)@).remove(x as int));
        }
        res
    }

    /// Inserts `x` when `v` is true, removes it otherwise.
    ///
    /// Returns whether the set contained `x` before the call.
    pub fn set(&mut self, x: usize, v: bool) -> (r: bool)
        ensures
            r == as_set(old(self)@).contains(x as int),
            final(self)@ == chunks_with_bit(old(self)@, x as int, v),
            as_set(final(self)@) == (if v {
                as_set(old(self)@).insert(x as int)
            } else {
                as_set(old(self)@).remove(x as int)
            }),
            old(self)@.len() <= final(self)@.len(),
    {
        proof {
            assert(x as int / 32 < usize::MAX) by (nonlinear_arith)
                requires
                    x <= usize::MAX,
                    usize::MAX >= 32,
            ;
        }
        let (ci, mask, off) = split(x);
        let chunk = self.chunks.get_mut(ci);
        let res = (*chunk & mask) != 0;
        let cleared = *chunk & !mask;
        *chunk = cleared | ((if v { 1u32 } else { 0u32 }) << off);
        proof {
            let c0 = slot_or_default(old(self)@, ci as int);
            lemma_mask_test(c0, off);
            if ci as int >= old(self)@.len() {
                lemma_zero_bit(off);
            }
            if v {
                assert((c0 & !(1u32 << off)) | (1u32 << off) == c0 | (1u32 << off)) by (bit_vector);
            } else {
                assert((c0 & !(1u32 << off)) | (0u32 << off) == c0 & !(1u32 << off)) by (bit_vector);
            }
            assert(self@ == chunks_with_bit(old(self)@, x as int, v));
            assert forall|y: int|
                as_set(self@).contains(y) == (if v {
                    as_set(old(self)@).insert(x as int)
                } else {
                    as_set(old(self)@).remove(x as int)
                }).contains(y) by {
                lemma_with_bit_membership(old(self)@, x as int, v, y);
            }
            if v {
                assert(as_set(self@) =~= as_set(old(self)@).insert(x as int));
            } else {
                assert(as_set(self@) =~= as_set(old(self)@).remove(x as int));
            }
        }
        res
    }

    /// Tests whether the set contains `x`. Read-only: an element past the
    /// allocated chunks is absent by definition, and the storage never grows.
    pub fn contains(&self, x: usize) -> (r: bool)
        ensures
            r == as_set(self@).contains(x as int),
    {
        let (ci, mask, off) = split(x);
        let chunk = self.chunks.get(ci);
        proof {
            lemma_mask_test(slot_or_default(self@, ci as int), off);
            if ci as int >= self@.len() {
                lemma_zero_bit(off);
            }
        }
        (chunk & mask) != 0
    }

    /// Tests whether the set contains `x`, and also guarantees that the
    /// storage is grown far enough to address `x`'s chunk, for call sites
    /// that are about to mutate near `x`.
    pub fn contains_mut(&mut self, x: usize) -> (r: bool)
        ensures
            r == as_set(old(self)@).contains(x as int),
            final(self)@ == grow_to(old(self)@, x as int / 32 + 1),
            as_set(final(self)@) == as_set(old(self)@),
            x as int / 32 < final(self)@.len(),
    {
        proof {
            assert(x as int / 32 < usize::MAX) by (nonlinear_arith)
                requires
                    x <= usize::MAX,
                    usize::MAX >= 32,
            ;
        }
        let (ci, mask, off) = split(x);
        let chunk = *self.chunks.get_mut(ci);
        proof {
            let g = grow_to(old(self)@, ci + 1);
            assert(self@ =~= g);
            lemma_mask_test(slot_or_default(old(self)@, ci as int), off);
            if ci as int >= old(self)@.len() {
                lemma_zero_bit(off);
            }
            lemma_grow_same_set(old(self)@, ci + 1);
        }
        (chunk & mask) != 0
    }

    /// All elements of the set, in ascending order.
    ///
    /// The cost is proportional to the number of bits ever grown to (32 times
    /// the chunk count), not to the number of present elements; that cost
    /// model is deliberate. Each call yields a fresh vector.
    pub fn iter(&self) -> (r: Vec<usize>)
        requires
            32 * self@.len() <= usize::MAX,
        ensures
            forall|k: int| 0 <= k < r@.len() ==> as_set(self@).contains(#[trigger] r@[k] as int),
            forall|k1: int, k2: int| 0 <= k1 < k2 < r@.len() ==> r@[k1] < r@[k2],
            forall|y: usize| as_set(self@).contains(y as int) ==> r@.contains(y),
    {
        let cap = self.chunks.capacity();
        let max = cap * 32;
        let mut out: Vec<usize> = Vec::new();
        let mut x: usize = 0;
        while x < max
            invariant
                max == 32 * self@.len(),
                x <= max,
                forall|k: int|
                    0 <= k < out@.len() ==> as_set(self@).contains(#[trigger] out@[k] as int)
                        && out@[k] < x,
                forall|k1: int, k2: int| 0 <= k1 < k2 < out@.len() ==> out@[k1] < out@[k2],
                forall|y: usize| y < x && as_set(self@).contains(y as int) ==> out@.contains(y),
            decreases max - x,
        {
            if self.contains(x) {
                out.push(x);
                proof {
                    broadcast use vstd::seq_lib::lemma_seq_contains_after_push;
                }
            }
            x += 1;
        }
        proof {
            lemma_members_bounded(self@);
        }
        out
    }

    /// Replaces `self` with the intersection of `self` and `other`.
    ///
    /// The chunk count is unchanged: chunks past the end of `other` are
    /// treated as zero, so intersecting with a shorter set empties the
    /// excess. An operation that can only remove elements never grows the
    /// allocation.
    pub fn bitand_assign(&mut self, other: &BitSet)
        ensures
            final(self)@ == inter_chunks(old(self)@, other@),
            as_set(final(self)@) == as_set(old(self)@).intersect(as_set(other@)),
            final(self)@.len() == old(self)@.len(),
    {
        let n = self.chunks.capacity();
        let mut i: usize = 0;
        while i < n
            invariant
                n == self@.len(),
                self@.len() == old(self)@.len(),
                i <= n,
                forall|k: int|
                    0 <= k < i ==> self@[k] == (old(self)@[k] & slot_or_default(other@, k)),
                forall|k: int| i <= k < n ==> self@[k] == old(self)@[k],
            decreases n - i,
        {
            let rhs_chunk = other.chunks.get(i);
            let c = self.chunks.get_mut(i);
            *c &= rhs_chunk;
            i += 1;
        }
        proof {
            assert(self@ =~= inter_chunks(old(self)@, other@));
            lemma_inter_set(old(self)@, other@);
        }
    }

    /// Replaces `self` with the union of `self` and `other`.
    ///
    /// Grows `self` first when `other` has more chunks, so that no element of
    /// `other` is lost; chunks of `self` past the end of `other` are left
    /// unchanged.
    pub fn bitor_assign(&mut self, other: &BitSet)
        ensures
            final(self)@ == union_chunks(old(self)@, other@),
            as_set(final(self)@) == as_set(old(self)@).union(as_set(other@)),
            old(self)@.len() <= final(self)@.len(),
    {
        let m = other.chunks.capacity();
        if m > self.chunks.capacity() {
            self.chunks.reserve(m - 1);
        }
        proof {
            assert(self@ =~= grow_to(old(self)@, m as int));
        }
        let mut i: usize = 0;
        while i < m
            invariant
                m == other@.len(),
                self@.len() == union_chunks(old(self)@, other@).len(),
                i <= m,
                forall|k: int|
                    0 <= k < i ==> self@[k] == (slot_or_default(old(self)@, k) | other@[k]),
                forall|k: int|
                    i <= k < self@.len() ==> self@[k] == slot_or_default(old(self)@, k),
            decreases m - i,
        {
            let rhs_chunk = other.chunks.get(i);
            let c = self.chunks.get_mut(i);
            *c |= rhs_chunk;
            i += 1;
        }
        proof {
            assert(self@ =~= union_chunks(old(self)@, other@));
            lemma_union_set(old(self)@, other@);
        }
    }

    /// Replaces `self` with the set difference of `self` and `other`.
    ///
    /// Combines pairwise over the shorter of the two chunk counts; chunks of
    /// `self` past the end of `other` have nothing to subtract and are left
    /// unchanged. Never grows the allocation.
    pub fn sub_assign(&mut self, other: &BitSet)
        ensures
            final(self)@ == diff_chunks(old(self)@, other@),
            as_set(final(self)@) == as_set(old(self)@).difference(as_set(other@)),
            final(self)@.len() == old(self)@.len(),
    {
        let cap = self.chunks.capacity();
        let m = other.chunks.capacity();
        let n = if m < cap {
            m
        } else {
            cap
        };
        let mut i: usize = 0;
        while i < n
            invariant
                n <= self@.len(),
                n <= other@.len(),
                n == if other@.len() < old(self)@.len() {
                    other@.len() as int
                } else {
                    old(self)@.len() as int
                },
                self@.len() == old(self)@.len(),
                i <= n,
                forall|k: int| 0 <= k < i ==> self@[k] == (old(self)@[k] & !other@[k]),
                forall|k: int| i <= k < self@.len() ==> self@[k] == old(self)@[k],
            decreases n - i,
        {
            let rhs_chunk = other.chunks.get(i);
            let c = self.chunks.get_mut(i);
            *c &= !rhs_chunk;
            i += 1;
        }
        proof {
            assert(self@ =~= diff_chunks(old(self)@, other@));
            lemma_diff_set(old(self)@, other@);
        }
    }

    /// Replaces `self` with the symmetric difference of `self` and `other`.
    ///
    /// Grows `self` first when `other` has more chunks, so that no element of
    /// `other` is lost; chunks of `self` past the end of `other` are left
    /// unchanged.
    pub fn bitxor_assign(&mut self, other: &BitSet)
        ensures
            final(self)@ == xor_chunks(old(self)@, other@),
            as_set(final(self)@) == as_set(old(self)@).union(as_set(other@)).difference(
                as_set(old(self)@).intersect(as_set(other@)),
            ),
            old(self)@.len() <= final(self)@.len(),
    {
        let m = other.chunks.capacity();
        if m > self.chunks.capacity() {
            self.chunks.reserve(m - 1);
        }
        proof {
            assert(self@ =~= grow_to(old(self)@, m as int));
        }
        let mut i: usize = 0;
        while i < m
            invariant
                m == other@.len(),
                self@.len() == xor_chunks(old(self)@, other@).len(),
                i <= m,
                forall|k: int|
                    0 <= k < i ==> self@[k] == (slot_or_default(old(self)@, k) ^ other@[k]),
                forall|k: int|
                    i <= k < self@.len() ==> self@[k] == slot_or_default(old(self)@, k),
            decreases m - i,
        {
            let rhs_chunk = other.chunks.get(i);
            let c = self.chunks.get_mut(i);
            *c ^= rhs_chunk;
            i += 1;
        }
        proof {
            assert(self@ =~= xor_chunks(old(self)@, other@));
            lemma_xor_set(old(self)@, other@);
        }
    }

    /// Inserts every element listed in `xs`. Duplicates collapse and the
    /// order of the listing does not affect the resulting set.
    pub fn extend(&mut self, xs: &Vec<usize>)
        ensures
            as_set(final(self)@) == as_set(old(self)@).union(elems_of(xs@)),
            old(self)@.len() <= final(self)@.len(),
    {
        let n = xs.len();
        let mut i: usize = 0;
        while i < n
            invariant
                n == xs@.len(),
                i <= n,
                old(self)@.len() <= self@.len(),
                forall|y: int|
                    as_set(self@).contains(y) == (as_set(old(self)@).contains(y) || exists|k: int|
                        0 <= k < i && xs@[k] as int == y),
            decreases n - i,
        {
            self.insert(xs[i]);
            proof {
                assert forall|y: int|
                    as_set(self@).contains(y) == (as_set(old(self)@).contains(y) || exists|k: int|
                        0 <= k < i + 1 && xs@[k] as int == y) by {
                    if as_set(self@).contains(y) && y == xs@[i as int] as int {
                        assert(0 <= i < i + 1 && xs@[i as int] as int == y);
                    }
                    if exists|k: int| 0 <= k < i + 1 && xs@[k] as int == y {
                        let k = choose|k: int| 0 <= k < i + 1 && xs@[k] as int == y;
                        if k < i {
                            assert(0 <= k < i && xs@[k] as int == y);
                        }
                    }
                }
            }
            i += 1;
        }
        proof {
            assert(as_set(self@) =~= as_set(old(self)@).union(elems_of(xs@)));
        }
    }

    /// Builds a set holding exactly the elements listed in `xs`; duplicates
    /// collapse and the order of the listing does not matter.
    pub fn from_iter(xs: &Vec<usize>) -> (r: BitSet)
        ensures
            as_set(r@) == elems_of(xs@),
    {
        let mut r = BitSet::default();
        r.extend(xs);
        proof {
            assert(as_set(r@) =~= elems_of(xs@));
        }
        r
    }

    /// A copy of the raw chunk buffer, in order: exactly the allocated
    /// chunks, trailing zero chunks included, so that persisting it keeps
    /// both contents and capacity.
    pub fn to_chunks(&self) -> (r: Vec<u32>)
        ensures
            r@ == self@,
    {
        self.chunks.iter()
    }

    /// Rebuilds a set from a raw chunk buffer, as produced by
    /// [`BitSet::to_chunks`]: the round trip restores contents and capacity
    /// exactly.
    pub fn from_chunks(chunks: Vec<u32>) -> (r: BitSet)
        ensures
            r@ == chunks@,
    {
        BitSet { chunks: DefaultVec::from_slots(chunks) }
    }

    /// Removes every element; the allocated chunk count is unchanged.
    pub fn clear(&mut self)
        ensures
            final(self)@.len() == old(self)@.len(),
            as_set(final(self)@) == Set::<int>::empty(),
    {
        self.chunks.clear();
        proof {
            assert forall|y: int| !as_set(self@).contains(y) by {
                if 0 <= y && y / 32 < self@.len() {
                    lemma_zero_bit((y % 32) as u32);
                }
            }
            assert(as_set(self@) =~= Set::<int>::empty());
        }
    }
}

/// The chunks of the intersection of two sets: pairwise AND, where chunks
/// past the end of `b` count as zero. The chunk count stays `a`'s.
pub open spec fn inter_chunks(a: Seq<u32>, b: Seq<u32>) -> Seq<u32> {
    Seq::new(a.len(), |i: int| a[i] & slot_or_default(b, i))
}

/// The chunks of the union of two sets: pairwise OR after growing `a` (with
/// zero chunks) to `b`'s length; chunks of `a` past the end of `b` are left
/// unchanged.
pub open spec fn union_chunks(a: Seq<u32>, b: Seq<u32>) -> Seq<u32> {
    Seq::new(
        if a.len() >= b.len() {
            a.len()
        } else {
            b.len()
        },
        |i: int|
            if i < b.len() {
                slot_or_default(a, i) | b[i]
            } else {
                a[i]
            },
    )
}

/// The chunks of the difference of two sets: pairwise AND-NOT over the
/// shorter length; chunks of `a` past the end of `b` are left unchanged.
pub open spec fn diff_chunks(a: Seq<u32>, b: Seq<u32>) -> Seq<u32> {
    Seq::new(
        a.len(),
        |i: int|
            if i < b.len() {
                a[i] & !b[i]
            } else {
                a[i]
            },
    )
}

/// The chunks of the symmetric difference of two sets: pairwise XOR after
/// growing `a` (with zero chunks) to `b`'s length; chunks of `a` past the
/// end of `b` are left unchanged.
pub open spec fn xor_chunks(a: Seq<u32>, b: Seq<u32>) -> Seq<u32> {
    Seq::new(
        if a.len() >= b.len() {
            a.len()
        } else {
            b.len()
        },
        |i: int|
            if i < b.len() {
                slot_or_default(a, i) ^ b[i]
            } else {
                a[i]
            },
    )
}

proof fn lemma_pair_bits(a: u32, b: u32, o: u32)
    requires
        o < 32,
    ensures
        nth_bit(a & b, o) == (nth_bit(a, o) && nth_bit(b, o)),
        nth_bit(a | b, o) == (nth_bit(a, o) || nth_bit(b, o)),
        nth_bit(a ^ b, o) == (nth_bit(a, o) != nth_bit(b, o)),
        nth_bit(a & !b, o) == (nth_bit(a, o) && !nth_bit(b, o)),
{
    assert((1u32 & ((a & b) >> o) == 1) == ((1u32 & (a >> o) == 1) && (1u32 & (b >> o) == 1))
        && (1u32 & ((a | b) >> o) == 1) == ((1u32 & (a >> o) == 1) || (1u32 & (b >> o) == 1))
        && (1u32 & ((a ^ b) >> o) == 1) == ((1u32 & (a >> o) == 1) != (1u32 & (b >> o) == 1))
        && (1u32 & ((a & !b) >> o) == 1) == ((1u32 & (a >> o) == 1) && !(1u32 & (b >> o) == 1)))
        by (bit_vector)
        requires
            o < 32,
    ;
}

/// Membership in the intersection chunks is membership in both operands.
pub proof fn lemma_inter_set(a: Seq<u32>, b: Seq<u32>)
    ensures
        as_set(inter_chunks(a, b)) == as_set(a).intersect(as_set(b)),
{
    let t = inter_chunks(a, b);
    assert forall|y: int|
        as_set(t).contains(y) == (as_set(a).contains(y) && as_set(b).contains(y)) by {
        if 0 <= y && y / 32 < t.len() {
            lemma_pair_bits(a[y / 32], slot_or_default(b, y / 32), (y % 32) as u32);
            if y / 32 >= b.len() {
                lemma_zero_bit((y % 32) as u32);
            }
        }
    }
    assert(as_set(t) =~= as_set(a).intersect(as_set(b)));
}

/// Membership in the union chunks is membership in either operand.
pub proof fn lemma_union_set(a: Seq<u32>, b: Seq<u32>)
    ensures
        as_set(union_chunks(a, b)) == as_set(a).union(as_set(b)),
{
    let t = union_chunks(a, b);
    assert forall|y: int|
        as_set(t).contains(y) == (as_set(a).contains(y) || as_set(b).contains(y)) by {
        if 0 <= y && y / 32 < t.len() {
            let oy = (y % 32) as u32;
            if y / 32 < b.len() {
                lemma_pair_bits(slot_or_default(a, y / 32), b[y / 32], oy);
                if y / 32 >= a.len() {
                    lemma_zero_bit(oy);
                }
            }
        }
    }
    assert(as_set(t) =~= as_set(a).union(as_set(b)));
}

/// Membership in the difference chunks is membership in `a` but not `b`.
pub proof fn lemma_diff_set(a: Seq<u32>, b: Seq<u32>)
    ensures
        as_set(diff_chunks(a, b)) == as_set(a).difference(as_set(b)),
{
    let t = diff_chunks(a, b);
    assert forall|y: int|
        as_set(t).contains(y) == (as_set(a).contains(y) && !as_set(b).contains(y)) by {
        if 0 <= y && y / 32 < t.len() {
            if y / 32 < b.len() {
                lemma_pair_bits(a[y / 32], b[y / 32], (y % 32) as u32);
            }
        }
    }
    assert(as_set(t) =~= as_set(a).difference(as_set(b)));
}

/// Membership in the symmetric-difference chunks is membership in exactly
/// one operand.
pub proof fn lemma_xor_set(a: Seq<u32>, b: Seq<u32>)
    ensures
        as_set(xor_chunks(a, b)) == as_set(a).union(as_set(b)).difference(
            as_set(a).intersect(as_set(b)),
        ),
{
    let t = xor_chunks(a, b);
    assert forall|y: int|
        as_set(t).contains(y) == (as_set(a).contains(y) != as_set(b).contains(y)) by {
        if 0 <= y && y / 32 < t.len() {
            let oy = (y % 32) as u32;
            if y / 32 < b.len() {
                lemma_pair_bits(slot_or_default(a, y / 32), b[y / 32], oy);
                if y / 32 >= a.len() {
                    lemma_zero_bit(oy);
                }
            }
        }
    }
    assert(as_set(t) =~= as_set(a).union(as_set(b)).difference(as_set(a).intersect(as_set(b))));
}

impl PartialEq for BitSet {
    /// Two bit sets are equal exactly when their chunk sequences are equal:
    /// trailing zero chunks are not normalized away, so two sets with the
    /// same elements but a different growth history can compare unequal.
    fn eq(&self, other: &Self) -> (r: bool) {
        let n = self.chunks.capacity();
        if n != other.chunks.capacity() {
            return false;
        }
        let mut i: usize = 0;
        while i < n
            invariant
                n == self@.len(),
                n == other@.len(),
                i <= n,
                forall|k: int| 0 <= k < i ==> self@[k] == other@[k],
            decreases n - i,
        {
            if self.chunks.get(i) != other.chunks.get(i) {
                return false;
            }
            i += 1;
        }
        proof {
            assert(self@ =~= other@);
        }
        true
    }
}

impl vstd::std_specs::cmp::PartialEqSpecImpl for BitSet {
    open spec fn obeys_eq_spec() -> bool {
        true
    }

    open spec fn eq_spec(&self, other: &BitSet) -> bool {
        self@ == other@
    }
}

impl Eq for BitSet {}

proof fn lemma_bv_basic(x: u32)
    ensures
        x & x == x,
        x | 0 == x,
        x & 0 == 0,
        x ^ x == 0,
        x & !x == 0,
{
    assert(x & x == x && x | 0 == x && x & 0 == 0 && x ^ x == 0 && x & !x == 0) by (bit_vector);
}

proof fn lemma_bits_subset(x: u32, y: u32)
    requires
        forall|o: u32| o < 32 ==> (nth_bit(x, o) ==> nth_bit(y, o)),
    ensures
        x | y == y,
{
    assert(x | y == y) by (bit_vector)
        requires
            nth_bit(x, 0) ==> nth_bit(y, 0),
            nth_bit(x, 1) ==> nth_bit(y, 1),
            nth_bit(x, 2) ==> nth_bit(y, 2),
            nth_bit(x, 3) ==> nth_bit(y, 3),
            nth_bit(x, 4) ==> nth_bit(y, 4),
            nth_bit(x, 5) ==> nth_bit(y, 5),
            nth_bit(x, 6) ==> nth_bit(y, 6),
            nth_bit(x, 7) ==> nth_bit(y, 7),
            nth_bit(x, 8) ==> nth_bit(y, 8),
            nth_bit(x, 9) ==> nth_bit(y, 9),
            nth_bit(x, 10) ==> nth_bit(y, 10),
            nth_bit(x, 11) ==> nth_bit(y, 11),
            nth_bit(x, 12) ==> nth_bit(y, 12),
            nth_bit(x, 13) ==> nth_bit(y, 13),
            nth_bit(x, 14) ==> nth_bit(y, 14),
            nth_bit(x, 15) ==> nth_bit(y, 15),
            nth_bit(x, 16) ==> nth_bit(y, 16),
            nth_bit(x, 17) ==> nth_bit(y, 17),
            nth_bit(x, 18) ==> nth_bit(y, 18),
            nth_bit(x, 19) ==> nth_bit(y, 19),
            nth_bit(x, 20) ==> nth_bit(y, 20),
            nth_bit(x, 21) ==> nth_bit(y, 21),
            nth_bit(x, 22) ==> nth_bit(y, 22),
            nth_bit(x, 23) ==> nth_bit(y, 23),
            nth_bit(x, 24) ==> nth_bit(y, 24),
            nth_bit(x, 25) ==> nth_bit(y, 25),
            nth_bit(x, 26) ==> nth_bit(y, 26),
            nth_bit(x, 27) ==> nth_bit(y, 27),
            nth_bit(x, 28) ==> nth_bit(y, 28),
            nth_bit(x, 29) ==> nth_bit(y, 29),
            nth_bit(x, 30) ==> nth_bit(y, 30),
            nth_bit(x, 31) ==> nth_bit(y, 31),
    ;
}

proof fn lemma_chunkwise_subset(a: Seq<u32>, b: Seq<u32>, i: int)
    requires
        as_set(a).subset_of(as_set(b)),
        0 <= i,
    ensures
        slot_or_default(a, i) | slot_or_default(b, i) == slot_or_default(b, i),
{
    let x = slot_or_default(a, i);
    let y = slot_or_default(b, i);
    assert forall|o: u32| o < 32 && nth_bit(x, o) implies nth_bit(y, o) by {
        let e = 32 * i + o;
        vstd::arithmetic::div_mod::lemma_fundamental_div_mod_converse(e, 32, i, o as int);
        if i < a.len() {
            assert(chunk_contains(a, e));
            assert(as_set(a).contains(e));
            assert(as_set(b).contains(e));
        } else {
            lemma_zero_bit(o);
        }
    }
    lemma_bits_subset(x, y);
}

/// When every element of `a` already lies in `b`, taking the union with `b`
/// and then the intersection with `b` leaves the chunks exactly as they were
/// right after the union.
pub proof fn lemma_union_then_intersect(a: Seq<u32>, b: Seq<u32>)
    requires
        as_set(a).subset_of(as_set(b)),
    ensures
        inter_chunks(union_chunks(a, b), b) == union_chunks(a, b),
{
    let u = union_chunks(a, b);
    assert forall|i: int| 0 <= i < u.len() implies inter_chunks(u, b)[i] == u[i] by {
        lemma_chunkwise_subset(a, b, i);
        if i < b.len() {
            lemma_bv_basic(b[i]);
        } else {
            // a has chunks past b's end: the subset bound forces them to be zero
            lemma_bv_basic(a[i]);
            assert(a[i] | 0u32 == 0u32);
            lemma_bv_basic(0u32);
        }
    }
    assert(inter_chunks(u, b) =~= u);
}

/// The symmetric difference of a set with itself is empty; the chunk count
/// stays what it was.
pub proof fn lemma_xor_self(a: Seq<u32>)
    ensures
        xor_chunks(a, a).len() == a.len(),
        as_set(xor_chunks(a, a)) == Set::<int>::empty(),
{
    assert forall|y: int| !as_set(xor_chunks(a, a)).contains(y) by {
        if 0 <= y && y / 32 < a.len() {
            lemma_bv_basic(a[y / 32]);
            lemma_zero_bit((y % 32) as u32);
        }
    }
    assert(as_set(xor_chunks(a, a)) =~= Set::<int>::empty());
}

/// The difference of a set with itself is empty; the chunk count stays what
/// it was.
pub proof fn lemma_sub_self(a: Seq<u32>)
    ensures
        diff_chunks(a, a).len() == a.len(),
        as_set(diff_chunks(a, a)) == Set::<int>::empty(),
{
    assert forall|y: int| !as_set(diff_chunks(a, a)).contains(y) by {
        if 0 <= y && y / 32 < a.len() {
            lemma_bv_basic(a[y / 32]);
            lemma_zero_bit((y % 32) as u32);
        }
    }
    assert(as_set(diff_chunks(a, a)) =~= Set::<int>::empty());
}

/// Inserting an element a second time changes nothing: not even the chunks,
/// so membership is idempotent under repeated insertion.
pub proof fn lemma_insert_idempotent(s: Seq<u32>, x: int)
    requires
        0 <= x,
    ensures
        chunks_with_bit(chunks_with_bit(s, x, true), x, true) == chunks_with_bit(s, x, true),
{
    let t = chunks_with_bit(s, x, true);
    let ci = x / 32;
    let off = (x % 32) as u32;
    let c = slot_or_default(s, ci);
    assert((c | (1u32 << off)) | (1u32 << off) == c | (1u32 << off)) by (bit_vector);
    assert(grow_to(t, ci + 1) =~= t);
    assert(chunks_with_bit(t, x, true) =~= t);
}

/// Growing a chunk sequence with zero chunks changes no element's
/// membership.
pub proof fn lemma_grow_same_set(s: Seq<u32>, n: int)
    ensures
        as_set(grow_to(s, n)) == as_set(s),
{
    let g = grow_to(s, n);
    assert forall|y: int| as_set(g).contains(y) == as_set(s).contains(y) by {
        if 0 <= y {
            if y / 32 >= s.len() && y / 32 < g.len() {
                lemma_zero_bit((y % 32) as u32);
            }
        }
    }
    assert(as_set(g) =~= as_set(s));
}

} // verus!


