//! A fixed-length bit array backed by `bitvec`, with the contracts the rest of
//! the library relies on.

use vstd::prelude::*;

verus! {

/// A bit array. The storage is a `bitvec::vec::BitVec`.
#[verifier::external_body]
#[derive(Debug)]
pub struct Bits {
    inner: bitvec::vec::BitVec,
}

/// The bits held by a bit array, in index order.
pub uninterp spec fn bits_of(b: Bits) -> Seq<bool>;

/// The most bits that one array can hold.
pub open spec fn max_bits() -> int {
    usize::MAX as int / 8
}

/// The indices of the set bits of `s`, in increasing order.
pub open spec fn ones_of(s: Seq<bool>) -> Seq<usize>
    decreases s.len(),
{
    if s.len() == 0 {
        Seq::empty()
    } else if s.last() {
        ones_of(s.drop_last()).push((s.len() - 1) as usize)
    } else {
        ones_of(s.drop_last())
    }
}

/// The number of clear bits of `s`.
pub open spec fn zeros_of(s: Seq<bool>) -> nat
    decreases s.len(),
{
    if s.len() == 0 {
        0
    } else if s.last() {
        zeros_of(s.drop_last())
    } else {
        zeros_of(s.drop_last()) + 1
    }
}

impl View for Bits {
    type V = Seq<bool>;

    /// The bits held, in index order.
    open spec fn view(&self) -> Seq<bool> {
        bits_of(*self)
    }
}

impl Bits {
    /// `BitVec::repeat`: an array of `len` copies of `bit`.
    #[verifier::external_body]
    pub(crate) fn repeat(bit: bool, len: usize) -> (r: Bits)
        requires
            len <= max_bits(),
        ensures
            bits_of(r) == Seq::new(len as nat, |i: int| bit),
    {
        Bits { inner: bitvec::vec::BitVec::repeat(bit, len) }
    }

    /// Indexing a `BitVec`: the bit at `index`.
    #[verifier::external_body]
    pub(crate) fn get(&self, index: usize) -> (r: bool)
        requires
            index < bits_of(*self).len(),
        ensures
            r == bits_of(*self)[index as int],
    {
        self.inner[index]
    }

    /// `BitSlice::set`: overwrites the bit at `index`.
    #[verifier::external_body]
    pub(crate) fn set(&mut self, index: usize, value: bool)
        requires
            index < bits_of(*old(self)).len(),
        ensures
            bits_of(*final(self)) == bits_of(*old(self)).update(index as int, value),
    {
        self.inner.set(index, value)
    }

    /// `BitSlice::fill` on the bits from `lo` up to `hi`: each becomes `value`,
    /// the others stay.
    #[verifier::external_body]
    pub(crate) fn fill_range(&mut self, lo: usize, hi: usize, value: bool)
        requires
            lo <= hi <= bits_of(*old(self)).len(),
        ensures
            bits_of(*final(self)) == Seq::new(
                bits_of(*old(self)).len(),
                |i: int| if lo <= i < hi { value } else { bits_of(*old(self))[i] },
            ),
    {
        self.inner[lo..hi].fill(value)
    }

    /// `BitSlice::first_one` on the bits from `lo` up to `hi`: how far after
    /// `lo` the first set bit stands, if one is set.
    #[verifier::external_body]
    pub(crate) fn first_one_in(&self, lo: usize, hi: usize) -> (r: Option<usize>)
        requires
            lo <= hi <= bits_of(*self).len(),
        ensures
            match r {
                Some(k) => lo + k < hi && bits_of(*self)[lo + k] && forall|t: int|
                    lo <= t < lo + k ==> !bits_of(*self)[t],
                None => forall|t: int| lo <= t < hi ==> !bits_of(*self)[t],
            },
    {
        self.inner[lo..hi].first_one()
    }

    /// `BitSlice::last_one` on the bits from `lo` up to `hi`: how far after
    /// `lo` the last set bit stands, if one is set.
    #[verifier::external_body]
    pub(crate) fn last_one_in(&self, lo: usize, hi: usize) -> (r: Option<usize>)
        requires
            lo <= hi <= bits_of(*self).len(),
        ensures
            match r {
                Some(k) => lo + k < hi && bits_of(*self)[lo + k] && forall|t: int|
                    lo + k < t < hi ==> !bits_of(*self)[t],
                None => forall|t: int| lo <= t < hi ==> !bits_of(*self)[t],
            },
    {
        self.inner[lo..hi].last_one()
    }

    /// `BitSlice::iter_ones` on the bits from `lo` up to `hi`: how far after
    /// `lo` each set bit stands, in increasing order.
    #[verifier::external_body]
    pub(crate) fn ones_in(&self, lo: usize, hi: usize) -> (r: Vec<usize>)
        requires
            lo <= hi <= bits_of(*self).len(),
        ensures
            r@ == ones_of(bits_of(*self).subrange(lo as int, hi as int)),
    {
        self.inner[lo..hi].iter_ones().collect()
    }

    /// `BitSlice::count_zeros`: the number of clear bits.
    #[verifier::external_body]
    pub(crate) fn count_zeros(&self) -> (r: usize)
        ensures
            r == zeros_of(bits_of(*self)),
    {
        self.inner.count_zeros()
    }
}

/// What `ones_of` lists: each entry is the index of a set bit, the entries
/// increase, and every set bit is listed.
pub proof fn lemma_ones_of(s: Seq<bool>)
    requires
        s.len() <= usize::MAX,
    ensures
        ones_of(s).len() <= s.len(),
        forall|k: int| 0 <= k < ones_of(s).len() ==> #[trigger] ones_of(s)[k] < s.len() && s[ones_of(s)[k] as int],
        forall|k: int, l: int| 0 <= k < l < ones_of(s).len() ==> ones_of(s)[k] < ones_of(s)[l],
        forall|i: int| 0 <= i < s.len() && s[i] ==> ones_of(s).contains(i as usize),
    decreases s.len(),
{
    if s.len() > 0 {
        let t = s.drop_last();
        lemma_ones_of(t);
        let o = ones_of(s);
        assert forall|i: int| 0 <= i < s.len() && s[i] implies o.contains(i as usize) by {
            if i < t.len() {
                assert(t[i]);
                let k = choose|k: int| 0 <= k < ones_of(t).len() && ones_of(t)[k] == i as usize;
                assert(o[k] == i as usize);
            } else {
                assert(o[o.len() - 1] == i as usize);
            }
        }
    }
}

/// No more bits are clear than there are bits, and where as many are clear
/// as there are bits, none is set.
pub proof fn lemma_zeros_of(s: Seq<bool>)
    ensures
        zeros_of(s) <= s.len(),
        zeros_of(s) == s.len() ==> forall|i: int| 0 <= i < s.len() ==> !s[i],
    decreases s.len(),
{
    if s.len() > 0 {
        lemma_zeros_of(s.drop_last());
        if zeros_of(s) == s.len() {
            assert forall|i: int| 0 <= i < s.len() implies !s[i] by {
                if i < s.len() - 1 {
                    assert(s.drop_last()[i] == s[i]);
                }
            }
        }
    }
}

/// Two different clear bits make at least two clear bits.
pub proof fn lemma_two_zeros(s: Seq<bool>, i: int, j: int)
    requires
        0 <= i < j < s.len(),
        !s[i],
        !s[j],
    ensures
        zeros_of(s) >= 2,
    decreases s.len(),
{
    let t = s.drop_last();
    if j < s.len() - 1 {
        lemma_two_zeros(t, i, j);
    } else {
        lemma_one_zero(t, i);
    }
}

/// A clear bit makes at least one clear bit.
pub proof fn lemma_one_zero(s: Seq<bool>, i: int)
    requires
        0 <= i < s.len(),
        !s[i],
    ensures
        zeros_of(s) >= 1,
    decreases s.len(),
{
    if i < s.len() - 1 {
        lemma_one_zero(s.drop_last(), i);
    }
}

/// Where a bit is clear, some index holds a clear bit.
pub proof fn lemma_some_zero(s: Seq<bool>) -> (i: int)
    requires
        zeros_of(s) >= 1,
    ensures
        0 <= i < s.len(),
        !s[i],
    decreases s.len(),
{
    if s.last() {
        lemma_some_zero(s.drop_last())
    } else {
        s.len() - 1
    }
}

/// Where two bits are clear, one of them is not the last bit.
pub proof fn lemma_zero_before_last(s: Seq<bool>) -> (i: int)
    requires
        zeros_of(s) >= 2,
    ensures
        0 <= i < s.len() - 1,
        !s[i],
{
    lemma_some_zero(s.drop_last())
}

} // verus!
