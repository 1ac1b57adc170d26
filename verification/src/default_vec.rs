//! An auto-growing dense array: every index maps to a value, and indices that
//! were never written read as the element type's default value.

use vstd::prelude::*;

verus! {

/// A value type with a fixed, constant default: the value implicitly present
/// at every index of a [`DefaultVec`] that was never explicitly written.
pub trait ConstDefault: Sized {
    /// The default value, as a mathematical constant.
    spec fn spec_default() -> Self;

    /// Produces the default value.
    fn default_value() -> (r: Self)
        ensures
            r == Self::spec_default(),
    ;
}

impl ConstDefault for u32 {
    open spec fn spec_default() -> Self {
        0u32
    }

    fn default_value() -> (r: Self) {
        0u32
    }
}

impl ConstDefault for u64 {
    open spec fn spec_default() -> Self {
        0u64
    }

    fn default_value() -> (r: Self) {
        0u64
    }
}

impl ConstDefault for usize {
    open spec fn spec_default() -> Self {
        0usize
    }

    fn default_value() -> (r: Self) {
        0usize
    }
}

/// The slice `s` padded with default values on the right until it holds at
/// least `n` slots; `s` itself when it is already long enough.
pub open spec fn grow_to<T: ConstDefault>(s: Seq<T>, n: int) -> Seq<T> {
    if n <= s.len() {
        s
    } else {
        s + Seq::new((n - s.len()) as nat, |k: int| T::spec_default())
    }
}

/// The value a [`DefaultVec`] with slots `s` holds at index `i`: the stored
/// slot when `i` is in range, the default value otherwise.
pub open spec fn slot_or_default<T: ConstDefault>(s: Seq<T>, i: int) -> T {
    if 0 <= i < s.len() {
        s[i]
    } else {
        T::spec_default()
    }
}

/// A mapping from non-negative integer indices to values where every index
/// initially maps to the default value of `T`.
///
/// The backing buffer grows on demand when an out-of-range index is accessed
/// mutably, and it never shrinks, so memory can be wasted when a slot with a
/// large index is written and then no longer needed.
pub struct DefaultVec<T: ConstDefault> {
    slots: Vec<T>,
}

impl<T: ConstDefault> View for DefaultVec<T> {
    type V = Seq<T>;

    closed spec fn view(&self) -> Seq<T> {
        self.slots@
    }
}

impl<T: ConstDefault + Copy> Clone for DefaultVec<T> {
    /// An independent copy with the same slots, capacity included.
    fn clone(&self) -> (r: Self)
        ensures
            r@ == self@,
    {
        DefaultVec { slots: self.iter() }
    }
}

impl<T: ConstDefault> Default for DefaultVec<T> {
    /// An empty array: no allocated slots, every index reads as default.
    fn default() -> (r: Self)
        ensures
            r@ == Seq::<T>::empty(),
    {
        DefaultVec { slots: Vec::new() }
    }
}

impl<T: ConstDefault> DefaultVec<T> {
    /// Grows the buffer so that index `i` is addressable, filling every new
    /// slot with the default value. Existing slots are untouched.
    pub fn reserve(&mut self, i: usize)
        requires
            i < usize::MAX,
        ensures
            final(self)@ == grow_to(old(self)@, i + 1),
            i < final(self)@.len(),
    {
        while self.slots.len() <= i
            invariant
                i < usize::MAX,
                self@ =~= grow_to(old(self)@, self@.len() as int),
                old(self)@.len() <= self@.len(),
                old(self)@.len() < i + 1 ==> self@.len() <= i + 1,
                old(self)@.len() >= i + 1 ==> self@.len() == old(self)@.len(),
            decreases i + 1 - self.slots.len(),
        {
            self.slots.push(T::default_value());
            proof {
                assert(self@ =~= grow_to(old(self)@, self@.len() as int));
            }
        }
        proof {
            assert(self@ =~= grow_to(old(self)@, i + 1));
        }
    }

    /// Returns mutable access to the slot at `i`, growing the buffer first
    /// when `i` is out of range. The slot initially holds the value the array
    /// mapped `i` to before the call.
    pub fn get_mut(&mut self, i: usize) -> (r: &mut T)
        requires
            i < usize::MAX,
        ensures
            *r == slot_or_default(old(self)@, i as int),
            final(self)@ == grow_to(old(self)@, i + 1).update(i as int, *final(r)),
            i < final(self)@.len(),
            old(self)@.len() <= final(self)@.len(),
    {
        if i >= self.slots.len() {
            self.reserve(i);
        } else {
            proof {
                assert(self@ =~= grow_to(old(self)@, i + 1));
            }
        }
        &mut self.slots[i]
    }

    /// Returns the value at `i`: the stored slot when `i` is in range, the
    /// default value otherwise. Never grows the buffer.
    pub fn get(&self, i: usize) -> (r: T) where T: Copy
        ensures
            r == slot_or_default(self@, i as int),
    {
        if i < self.slots.len() {
            self.slots[i]
        } else {
            T::default_value()
        }
    }

    /// Resets every allocated slot to the default value; the capacity is
    /// unchanged.
    pub fn clear(&mut self)
        ensures
            final(self)@.len() == old(self)@.len(),
            forall|k: int| 0 <= k < final(self)@.len() ==> final(self)@[k] == T::spec_default(),
    {
        let n = self.slots.len();
        let mut j: usize = 0;
        while j < n
            invariant
                n == self@.len(),
                j <= n,
                forall|k: int| 0 <= k < j ==> self@[k] == T::spec_default(),
            decreases n - j,
        {
            self.slots.set(j, T::default_value());
            j += 1;
        }
    }

    /// The number of currently addressable slots. Monotonically
    /// non-decreasing over the life of the array.
    pub fn capacity(&self) -> (r: usize)
        ensures
            r == self@.len(),
    {
        self.slots.len()
    }

    /// The values of all allocated slots, in index order: exactly
    /// `capacity()` values. Each call yields a fresh copy.
    pub fn iter(&self) -> (r: Vec<T>) where T: Copy
        ensures
            r@ == self@,
    {
        let n = self.slots.len();
        let mut out: Vec<T> = Vec::new();
        let mut j: usize = 0;
        while j < n
            invariant
                n == self@.len(),
                j <= n,
                out@ =~= self@.take(j as int),
            decreases n - j,
        {
            out.push(self.slots[j]);
            proof {
                assert(out@ =~= self@.take(j + 1));
            }
            j += 1;
        }
        proof {
            assert(self@.take(n as int) =~= self@);
        }
        out
    }

    /// Builds an array whose allocated slots are exactly `slots`, in order.
    /// Together with [`DefaultVec::iter`] this round-trips both capacity and
    /// contents, for callers that persist the raw buffer.
    pub fn from_slots(slots: Vec<T>) -> (r: Self)
        ensures
            r@ == slots@,
    {
        DefaultVec { slots }
    }
}

} // verus!
