//! Bitmap allocators: each bit of `0..CAP` is free (1) or taken (0).
//!
//! `BitAlloc16` holds sixteen bits in one word; `BitAllocCascade16<T>` holds
//! sixteen allocators of type `T` and a summary word whose bit `i` says whether
//! the `i`-th of them has a free bit, so that the first free bit is found
//! without scanning the whole map.
use crate::bits::{bit16, bits_of, get_bit16, get_bits16, lemma_get_bit, lemma_no_bits_zero, lemma_range_ones_fit, lemma_set_bit, lemma_set_range_ones, lemma_set_range_zeros, lemma_zero_fits, set_bit16, set_bits16};
use core::ops::Range;
use vstd::arithmetic::div_mod::*;
use vstd::arithmetic::power2::*;
use vstd::bits::{lemma_usize_pow2_no_overflow, lemma_usize_shl_is_mul, lemma_usize_shr_is_div};
use vstd::prelude::*;

verus! {

/// The keys `start..end`.
pub open spec fn range_set(start: int, end: int) -> Set<int> {
    Set::new(|k: int| start <= k < end)
}

/// `i` is the least element of `s`.
pub open spec fn is_least(s: Set<int>, i: int) -> bool {
    &&& s.contains(i)
    &&& forall|j: int| #[trigger] s.contains(j) ==> i <= j
}

/// What `alloc_one` does to the free set `before`: it takes its least element, or
/// finds it empty.
pub open spec fn alloc_result(before: Set<int>, after: Set<int>, r: Option<usize>) -> bool {
    match r {
        Some(i) => is_least(before, i as int) && after == before.remove(i as int),
        None => before == Set::<int>::empty() && after == before,
    }
}

/// What `next(key)` answers on the free set `s`: the least free key at or above
/// `key`, or `None` when there is none.
pub open spec fn next_result(s: Set<int>, key: int, r: Option<usize>) -> bool {
    match r {
        Some(j) => {
            &&& key <= j
            &&& s.contains(j as int)
            &&& forall|x: int| key <= x < j ==> !#[trigger] s.contains(x)
        },
        None => forall|x: int| key <= x ==> !#[trigger] s.contains(x),
    }
}

/// `base` starts a run of `size` free keys that ends at or before `capacity` and
/// is a multiple of `2^align_log2`.
pub open spec fn fits(s: Set<int>, capacity: int, size: int, align_log2: nat, base: int) -> bool {
    &&& 0 <= base
    &&& base % (pow2(align_log2) as int) == 0
    &&& base + size <= capacity
    &&& forall|k: int| base <= k < base + size ==> #[trigger] s.contains(k)
}

/// What a search for a contiguous run answers: `None` when `2^align_log2`
/// exceeds `capacity`, when `size` is 0, or when no base fits; else the least
/// base that fits.
pub open spec fn contiguous_result(
    s: Set<int>,
    capacity: int,
    size: int,
    align_log2: nat,
    r: Option<usize>,
) -> bool {
    match r {
        Some(b) => {
            &&& pow2(align_log2) <= capacity
            &&& size > 0
            &&& fits(s, capacity, size, align_log2, b as int)
            &&& forall|b2: int| #[trigger] fits(s, capacity, size, align_log2, b2) ==> b <= b2
        },
        None => {
            ||| capacity < pow2(align_log2)
            ||| size == 0
            ||| forall|b: int| !#[trigger] fits(s, capacity, size, align_log2, b)
        },
    }
}

/// A bitmap of `CAP` bits, numbered from 0 to `CAP - 1`; its view is the set of
/// the free ones.
pub trait BitAlloc: Sized + Default {
    /// The number of bits, `CAP`.
    spec fn spec_cap() -> nat;

    /// `CAP` is `2^cap_log2()`.
    spec fn cap_log2() -> nat;

    /// The free bits.
    spec fn view(&self) -> Set<int>;

    /// The internal invariant.
    spec fn wf(&self) -> bool;

    /// The ranges that `insert` and `remove` take without panicking.
    spec fn accepts_range(start: int, end: int) -> bool;

    proof fn lemma_cap()
        ensures
            Self::spec_cap() == pow2(Self::cap_log2()),
            Self::cap_log2() >= 4,
    ;

    proof fn lemma_wf(&self)
        requires
            self.wf(),
        ensures
            Self::spec_cap() <= usize::MAX,
            forall|k: int| #[trigger] self@.contains(k) ==> 0 <= k < Self::spec_cap(),
    ;

    proof fn lemma_accepts_range(start: int, end: int)
        ensures
            Self::accepts_range(start, end) ==> 0 <= start <= end <= Self::spec_cap(),
            0 <= start < end <= Self::spec_cap() ==> Self::accepts_range(start, end),
            0 < start == end < Self::spec_cap() ==> Self::accepts_range(start, end),
    ;

    /// `CAP`.
    fn cap() -> (c: usize)
        requires
            Self::spec_cap() <= usize::MAX,
        ensures
            c == Self::spec_cap(),
    ;

    /// A bitmap with no free bit.
    fn new() -> (r: Self)
        ensures
            Self::spec_cap() <= usize::MAX ==> r.wf() && r@ == Set::<int>::empty(),
    ;

    /// Takes the least free bit.
    fn alloc_one(&mut self) -> (r: Option<usize>)
        requires
            old(self).wf(),
        ensures
            final(self).wf(),
            alloc_result(old(self)@, final(self)@, r),
    ;

    /// The least free bit at or above `key`.
    fn next(&self, key: usize) -> (r: Option<usize>)
        requires
            self.wf(),
        ensures
            next_result(self@, key as int, r),
    ;

    /// Gives back the taken bit `key`.
    fn dealloc(&mut self, key: usize)
        requires
            old(self).wf(),
            key < Self::spec_cap(),
            !old(self)@.contains(key as int),
        ensures
            final(self).wf(),
            final(self)@ == old(self)@.insert(key as int),
    ;

    /// Marks the bits of `range` free.
    fn insert(&mut self, range: Range<usize>)
        requires
            old(self).wf(),
            Self::accepts_range(range.start as int, range.end as int),
        ensures
            final(self).wf(),
            final(self)@ == old(self)@.union(range_set(range.start as int, range.end as int)),
    ;

    /// Marks the bits of `range` taken.
    fn remove(&mut self, range: Range<usize>)
        requires
            old(self).wf(),
            Self::accepts_range(range.start as int, range.end as int),
        ensures
            final(self).wf(),
            final(self)@ == old(self)@.difference(range_set(range.start as int, range.end as int)),
    ;

    /// Whether no bit is free.
    fn is_empty(&self) -> (r: bool)
        requires
            self.wf(),
        ensures
            r == (self@ == Set::<int>::empty()),
    ;

    /// Whether bit `key` is free.
    fn test(&self, key: usize) -> (r: bool)
        requires
            self.wf(),
            key < Self::spec_cap(),
        ensures
            r == self@.contains(key as int),
    ;
}

/// A bitmap of 2^20 bits.
pub type BitAlloc1M = BitAllocCascade16<BitAlloc64K>;

/// A bitmap of 2^16 bits.
pub type BitAlloc64K = BitAllocCascade16<BitAlloc4K>;

/// A bitmap of 4096 bits.
pub type BitAlloc4K = BitAllocCascade16<BitAlloc256>;

/// A bitmap of 256 bits.
pub type BitAlloc256 = BitAllocCascade16<BitAlloc16>;

/// Sixteen bits in one word.
pub struct BitAlloc16(u16);

impl BitAlloc for BitAlloc16 {
    open spec fn spec_cap() -> nat {
        16
    }

    open spec fn cap_log2() -> nat {
        4
    }

    closed spec fn view(&self) -> Set<int> {
        bits_of(self.0)
    }

    closed spec fn wf(&self) -> bool {
        true
    }

    open spec fn accepts_range(start: int, end: int) -> bool {
        0 <= start <= end <= 16 && start < 16
    }

    proof fn lemma_cap() {
        lemma2_to64();
    }

    proof fn lemma_wf(&self) {
    }

    proof fn lemma_accepts_range(start: int, end: int) {
    }

    fn cap() -> (c: usize) {
        u16::BITS as usize
    }

    fn new() -> (r: Self) {
        let r = BitAlloc16(0);
        proof {
            lemma_no_bits_zero(0);
        }
        r
    }

    fn alloc_one(&mut self) -> (r: Option<usize>) {
        let ghost before = self.0;
        proof {
            vstd::std_specs::bits::axiom_u16_trailing_zeros(before);
        }
        let i = self.0.trailing_zeros() as usize;
        if i < Self::cap() {
            set_bit16(&mut self.0, i, false);
            proof {
                assert forall|j: int| bits_of(before).contains(j) implies i <= j by {
                    if j < i {
                        let jj = j as u16;
                        assert((before >> jj) & 1u16 == 0u16);
                    }
                }
                assert forall|j: int| #![auto]
                    bits_of(self.0).contains(j) == bits_of(before).remove(i as int).contains(j) by {
                    if 0 <= j < 16 {
                        lemma_set_bit(before, i as u16, j as u16);
                    }
                }
                assert(bits_of(self.0) =~= bits_of(before).remove(i as int));
            }
            Some(i)
        } else {
            proof {
                lemma_no_bits_zero(before);
            }
            None
        }
    }

    fn dealloc(&mut self, key: usize) {
        let ghost before = self.0;
        set_bit16(&mut self.0, key, true);
        proof {
            assert forall|j: int| #![auto]
                bits_of(self.0).contains(j) == bits_of(before).insert(key as int).contains(j) by {
                if 0 <= j < 16 {
                    lemma_set_bit(before, key as u16, j as u16);
                }
            }
            assert(bits_of(self.0) =~= bits_of(before).insert(key as int));
        }
    }

    fn insert(&mut self, range: Range<usize>) {
        let ghost before = self.0;
        let Range { start, end } = range;
        let ones = get_bits16(0xffff, start, end);
        proof {
            if start < end {
                lemma_range_ones_fit(
                    start as u16,
                    end as u16,
                    (16 - end) as u16,
                    (16 - (end - start)) as u16,
                );
            }
        }
        set_bits16(&mut self.0, start, end, ones);
        proof {
            assert forall|j: int| #![auto]
                bits_of(self.0).contains(j) == bits_of(before).union(
                    range_set(start as int, end as int),
                ).contains(j) by {
                if 0 <= j < 16 && start < end {
                    lemma_set_range_ones(before, start as u16, end as u16, (16 - end) as u16, j as u16);
                }
            }
            assert(bits_of(self.0) =~= bits_of(before).union(range_set(start as int, end as int)));
        }
    }

    fn remove(&mut self, range: Range<usize>) {
        let ghost before = self.0;
        let Range { start, end } = range;
        proof {
            if start < end {
                lemma_zero_fits((16 - (end - start)) as u16);
            }
        }
        set_bits16(&mut self.0, start, end, 0);
        proof {
            assert forall|j: int| #![auto]
                bits_of(self.0).contains(j) == bits_of(before).difference(
                    range_set(start as int, end as int),
                ).contains(j) by {
                if 0 <= j < 16 && start < end {
                    lemma_set_range_zeros(before, start as u16, end as u16, (16 - end) as u16, j as u16);
                }
            }
            assert(bits_of(self.0) =~= bits_of(before).difference(
                range_set(start as int, end as int),
            ));
        }
    }

    fn is_empty(&self) -> (r: bool) {
        proof {
            lemma_no_bits_zero(self.0);
        }
        self.0 == 0
    }

    fn test(&self, key: usize) -> (r: bool) {
        proof {
            lemma_get_bit(self.0, key as u16);
        }
        get_bit16(self.0, key)
    }

    fn next(&self, key: usize) -> (r: Option<usize>) {
        let mut i = key;
        while i < Self::cap()
            invariant
                key <= i,
                forall|x: int| key <= x < i ==> !#[trigger] self@.contains(x),
            decreases 16 - i,
        {
            proof {
                lemma_get_bit(self.0, i as u16);
            }
            if get_bit16(self.0, i) {
                return Some(i);
            }
            i += 1;
        }
        None
    }
}

impl BitAlloc16 {
    /// Takes the least run of `size` free bits that starts at a multiple of
    /// `2^align_log2`.
    pub fn alloc_contiguous(&mut self, size: usize, align_log2: usize) -> (r: Option<usize>)
        requires
            old(self).wf(),
            align_log2 < usize::BITS,
        ensures
            final(self).wf(),
            contiguous_result(old(self)@, Self::spec_cap() as int, size as int, align_log2 as nat, r),
            r matches Some(b) ==> final(self)@ == old(self)@.difference(range_set(b as int, b + size)),
            r is None ==> final(self)@ == old(self)@,
    {
        proof {
            self.lemma_wf();
        }
        if let Some(base) = find_contiguous(&*self, Self::cap(), size, align_log2) {
            proof {
                Self::lemma_accepts_range(base as int, base + size);
            }
            self.remove(base..base + size);
            Some(base)
        } else {
            None
        }
    }

}

impl Default for BitAlloc16 {
    fn default() -> (r: Self)
        ensures
            r.wf(),
            r@ == Set::<int>::empty(),
    {
        Self::new()
    }
}

/// Sixteen allocators of type `T` side by side; bit `i` of `bitset` is set
/// exactly when `sub[i]` has a free bit.
pub struct BitAllocCascade16<T: BitAlloc> {
    bitset: u16,
    sub: [T; 16],
}

/// Key `k` of a cascade of children of capacity `c` lies in child `k / c` at `k % c`.
proof fn lemma_key_split(k: int, c: int)
    requires
        c > 0,
        0 <= k < 16 * c,
    ensures
        0 <= k / c < 16,
        0 <= k % c < c,
        k == (k / c) * c + k % c,
{
    lemma_fundamental_div_mod(k, c);
    lemma_mod_pos_bound(k, c);
    assert(c * (k / c) == (k / c) * c) by (nonlinear_arith);
    if k / c >= 16 {
        assert((k / c) * c >= 16 * c) by (nonlinear_arith)
            requires
                k / c >= 16,
                c > 0,
        ;
    }
    if k / c < 0 {
        assert((k / c) * c <= -c) by (nonlinear_arith)
            requires
                k / c < 0,
                c > 0,
        ;
    }
}

/// Position `x` of child `i` is key `i * c + x`.
proof fn lemma_key_join(i: int, x: int, c: int)
    requires
        c > 0,
        0 <= i < 16,
        0 <= x < c,
    ensures
        (i * c + x) / c == i,
        (i * c + x) % c == x,
        0 <= i * c + x < 16 * c,
{
    lemma_fundamental_div_mod_converse(i * c + x, c, i, x);
    assert(0 <= i * c <= 15 * c) by (nonlinear_arith)
        requires
            0 <= i < 16,
            c > 0,
    ;
}

/// Keys of a lower child come before keys of a higher one.
proof fn lemma_key_order(i1: int, x1: int, i2: int, x2: int, c: int)
    requires
        0 <= i1 < i2,
        0 <= x1 < c,
        0 <= x2 < c,
    ensures
        i1 * c + x1 < i2 * c + x2,
{
    assert(i1 * c + c <= i2 * c) by (nonlinear_arith)
        requires
            i1 < i2,
            c > 0,
    ;
}

/// A non-empty set has an element.
proof fn lemma_nonempty_has(s: Set<int>)
    requires
        s != Set::<int>::empty(),
    ensures
        exists|x: int| s.contains(x),
{
    if !exists|x: int| s.contains(x) {
        assert(s =~= Set::<int>::empty());
    }
}

/// Where key `k` lies relative to block `i` of width `c`.
proof fn lemma_block_of(k: int, c: int, i: int)
    requires
        c > 0,
        0 <= k,
    ensures
        k < i * c ==> k / c < i,
        i * c <= k < i * c + c ==> k / c == i,
        i * c + c <= k ==> k / c > i,
{
    lemma_fundamental_div_mod(k, c);
    lemma_mod_pos_bound(k, c);
    let q = k / c;
    assert(c * q == q * c) by (nonlinear_arith);
    if k < i * c && q >= i {
        assert(q * c >= i * c) by (nonlinear_arith)
            requires
                q >= i,
                c > 0,
        ;
    }
    if i * c <= k < i * c + c {
        lemma_fundamental_div_mod_converse(k, c, i, k - i * c);
    }
    if i * c + c <= k && q <= i {
        assert(q * c <= i * c) by (nonlinear_arith)
            requires
                q <= i,
                c > 0,
        ;
    }
}

/// The part of `start..end` that falls in block `i` of width `c` is `lo..hi`,
/// counted from the start of the block.
proof fn lemma_block_range(start: int, end: int, c: int, i: int, lo: int, hi: int)
    requires
        c > 0,
        0 <= start <= end,
        0 < end,
        start / c <= i <= (end - 1) / c,
        lo == (if start / c == i {
            start % c
        } else {
            0
        }),
        hi == (if end / c == i {
            end % c
        } else {
            c
        }),
    ensures
        0 <= lo <= hi <= c,
        lo < c,
        1 <= hi,
        forall|x: int|
            0 <= x < c ==> ((lo <= x < hi) <==> (start <= #[trigger] (i * c + x) < end)),
{
    let fs = start / c;
    let fe = end / c;
    let le = (end - 1) / c;
    lemma_fundamental_div_mod(start, c);
    lemma_mod_pos_bound(start, c);
    lemma_fundamental_div_mod(end, c);
    lemma_mod_pos_bound(end, c);
    lemma_fundamental_div_mod(end - 1, c);
    lemma_mod_pos_bound(end - 1, c);
    lemma_div_is_ordered(end - 1, end, c);
    assert(c * fs == fs * c && c * fe == fe * c && c * le == le * c) by (nonlinear_arith);
    if fs < i {
        assert(fs * c + c <= i * c) by (nonlinear_arith)
            requires
                fs + 1 <= i,
                c > 0,
        ;
    }
    if i < fe {
        assert(i * c + c <= fe * c) by (nonlinear_arith)
            requires
                i + 1 <= fe,
                c > 0,
        ;
    }
    if i == fe && end % c == 0 {
        assert(le < fe) by (nonlinear_arith)
            requires
                le * c <= end - 1,
                end == fe * c,
                c > 0,
        ;
    }
}

impl<T: BitAlloc> BitAllocCascade16<T> {
    /// The free bits of child `i`.
    closed spec fn child(&self, i: int) -> Set<int> {
        self.sub@[i]@
    }

    /// Child `i` is well formed, and bit `i` of the summary says whether it has
    /// a free bit.
    closed spec fn child_ok(&self, i: int) -> bool {
        &&& self.sub@[i].wf()
        &&& (bit16(self.bitset, i) <==> self.sub@[i]@ != Set::<int>::empty())
    }

    proof fn lemma_child_cap()
        ensures
            T::spec_cap() >= 16,
    {
        T::lemma_cap();
        lemma_pow2_pos(T::cap_log2());
        if T::cap_log2() > 4 {
            lemma_pow2_strictly_increases(4, T::cap_log2());
        }
        lemma2_to64();
    }

    /// The view holds key `i * C + x` exactly when child `i` holds `x`.
    proof fn lemma_view_at(&self, i: int, x: int)
        requires
            0 <= i < 16,
            0 <= x < T::spec_cap(),
        ensures
            self@.contains(i * T::spec_cap() + x) == self.child(i).contains(x),
    {
        Self::lemma_child_cap();
        lemma_key_join(i, x, T::spec_cap() as int);
    }

    /// A key of the view comes from its child.
    proof fn lemma_view_key(&self, k: int)
        requires
            0 <= k < Self::spec_cap(),
        ensures
            0 <= k / (T::spec_cap() as int) < 16,
            0 <= k % (T::spec_cap() as int) < T::spec_cap(),
            self@.contains(k) == self.child(k / (T::spec_cap() as int)).contains(
                k % (T::spec_cap() as int),
            ),
            k == (k / (T::spec_cap() as int)) * T::spec_cap() + k % (T::spec_cap() as int),
    {
        Self::lemma_child_cap();
        lemma_key_split(k, T::spec_cap() as int);
    }

    /// No free bit in the view exactly when the summary word is zero.
    proof fn lemma_empty_iff(&self)
        requires
            self.wf(),
        ensures
            (self.bitset == 0) == (self@ == Set::<int>::empty()),
    {
        Self::lemma_child_cap();
        lemma_no_bits_zero(self.bitset);
        if self@ == Set::<int>::empty() {
            assert forall|i: int| !#[trigger] bits_of(self.bitset).contains(i) by {
                if bits_of(self.bitset).contains(i) {
                    assert(self.child_ok(i));
                    lemma_nonempty_has(self.child(i));
                    let x = choose|x: int| self.child(i).contains(x);
                    assert(self.child(i).contains(x));
                    self.sub@[i].lemma_wf();
                    self.lemma_view_at(i, x);
                    assert(self@.contains(i * T::spec_cap() + x));
                }
            }
            assert(bits_of(self.bitset) =~= Set::<int>::empty());
        }
        if self.bitset == 0 {
            assert forall|k: int| !#[trigger] self@.contains(k) by {
                if self@.contains(k) {
                    self.lemma_view_key(k);
                    let i = k / (T::spec_cap() as int);
                    assert(self.child_ok(i));
                    assert(!bits_of(self.bitset).contains(i));
                    assert(self.sub@[i]@ != Set::<int>::empty());
                }
            }
            assert(self@ =~= Set::<int>::empty());
        }
    }

    /// Applies `insert` (when `mark_free`) or `remove` to the children that
    /// `range` meets, keeping the summary word in step.
    fn for_range(&mut self, range: Range<usize>, mark_free: bool)
        requires
            old(self).wf(),
            Self::accepts_range(range.start as int, range.end as int),
        ensures
            final(self).wf(),
            final(self)@ == (if mark_free {
                old(self)@.union(range_set(range.start as int, range.end as int))
            } else {
                old(self)@.difference(range_set(range.start as int, range.end as int))
            }),
    {
        let Range { start, end } = range;
        let ghost whole = range_set(start as int, end as int);
        let ghost target = if mark_free {
            old(self)@.union(whole)
        } else {
            old(self)@.difference(whole)
        };
        proof {
            Self::lemma_child_cap();
        }
        let c = T::cap();
        let first = start / c;
        let last = (end - 1) / c;
        let mut i = first;
        proof {
            lemma_key_split((end - 1) as int, c as int);
            lemma_block_of(start as int, c as int, first as int);
            lemma_fundamental_div_mod(start as int, c as int);
            lemma_mod_pos_bound(start as int, c as int);
            assert(c * first == first * c) by (nonlinear_arith);
            assert forall|k: int| 0 <= k < first * c implies #[trigger] self@.contains(k)
                == target.contains(k) by {
                assert(!whole.contains(k));
            }
        }
        while i <= last
            invariant
                self.wf(),
                c == T::spec_cap(),
                c >= 16,
                Self::spec_cap() <= usize::MAX,
                0 < end <= Self::spec_cap(),
                start <= end,
                first == start as int / c as int,
                last == (end - 1) as int / c as int,
                last < 16,
                first <= i,
                i <= last + 1 || i == first,
                whole == range_set(start as int, end as int),
                target == (if mark_free {
                    old(self)@.union(whole)
                } else {
                    old(self)@.difference(whole)
                }),
                forall|k: int|
                    0 <= k < i * c ==> (#[trigger] self@.contains(k) == target.contains(k)),
                forall|k: int|
                    i * c <= k ==> (#[trigger] self@.contains(k) == old(self)@.contains(k)),
            decreases 16 - i,
        {
            let lo = if start / c == i {
                start % c
            } else {
                0
            };
            let hi = if end / c == i {
                end % c
            } else {
                c
            };
            let ghost mid = *self;
            proof {
                lemma_block_range(start as int, end as int, c as int, i as int, lo as int, hi as int);
                T::lemma_accepts_range(lo as int, hi as int);
                assert(self.child_ok(i as int));
            }
            if mark_free {
                self.sub[i].insert(lo..hi);
            } else {
                self.sub[i].remove(lo..hi);
            }
            let e = self.sub[i].is_empty();
            set_bit16(&mut self.bitset, i, !e);
            proof {
                let ci = c as int;
                let ii = i as int;
                assert forall|j: int| 0 <= j < 16 implies #[trigger] self.child_ok(j) by {
                    lemma_set_bit(mid.bitset, i as u16, j as u16);
                    assert(mid.child_ok(j));
                }
                assert forall|k: int| 0 <= k < ii * ci + ci implies #[trigger] self@.contains(k)
                    == target.contains(k) by {
                    lemma_block_of(k, ci, ii);
                    if k < Self::spec_cap() {
                        self.lemma_view_key(k);
                        mid.lemma_view_key(k);
                        if ii * ci <= k {
                            let x = k % ci;
                            assert(k == ii * ci + x);
                            assert(mid@.contains(k) == old(self)@.contains(k));
                        }
                    }
                }
                assert forall|k: int| ii * ci + ci <= k implies #[trigger] self@.contains(k)
                    == old(self)@.contains(k) by {
                    assert(ii * ci <= ii * ci + ci);
                    assert(mid@.contains(k) == old(self)@.contains(k));
                    if k < Self::spec_cap() {
                        lemma_block_of(k, ci, ii);
                        self.lemma_view_key(k);
                        mid.lemma_view_key(k);
                    }
                }
                assert((ii + 1) * ci == ii * ci + ci) by (nonlinear_arith);
            }
            i += 1;
        }
        proof {
            let ci = c as int;
            assert(i * ci >= end) by (nonlinear_arith)
                requires
                    i >= last + 1,
                    last * ci + ci > end - 1,
                    ci > 0,
            ;
            assert forall|k: int| #![auto] self@.contains(k) == target.contains(k) by {
                if k >= i * ci {
                    assert(!whole.contains(k));
                }
            }
            assert(self@ =~= target);
        }
    }
}

impl<T: BitAlloc> BitAlloc for BitAllocCascade16<T> {
    open spec fn spec_cap() -> nat {
        16 * T::spec_cap()
    }

    open spec fn cap_log2() -> nat {
        T::cap_log2() + 4
    }

    closed spec fn view(&self) -> Set<int> {
        Set::new(
            |k: int|
                0 <= k < 16 * T::spec_cap() && self.sub@[k / (T::spec_cap() as int)]@.contains(
                    k % (T::spec_cap() as int),
                ),
        )
    }

    closed spec fn wf(&self) -> bool {
        &&& 16 * T::spec_cap() <= usize::MAX
        &&& forall|i: int| 0 <= i < 16 ==> #[trigger] self.child_ok(i)
    }

    open spec fn accepts_range(start: int, end: int) -> bool {
        0 <= start <= end <= 16 * T::spec_cap() && end > 0
    }

    proof fn lemma_cap() {
        T::lemma_cap();
        lemma_pow2_adds(T::cap_log2(), 4);
        lemma2_to64();
    }

    proof fn lemma_wf(&self) {
    }

    proof fn lemma_accepts_range(start: int, end: int) {
    }

    fn cap() -> (c: usize) {
        T::cap() * 16
    }

    fn new() -> (r: Self) {
        let r = BitAllocCascade16 {
            bitset: 0,
            sub: [
                T::new(),
                T::new(),
                T::new(),
                T::new(),
                T::new(),
                T::new(),
                T::new(),
                T::new(),
                T::new(),
                T::new(),
                T::new(),
                T::new(),
                T::new(),
                T::new(),
                T::new(),
                T::new(),
            ],
        };
        proof {
            if Self::spec_cap() <= usize::MAX {
                lemma_no_bits_zero(0);
                assert forall|i: int| 0 <= i < 16 implies #[trigger] r.child_ok(i) && r.sub@[i]@
                    == Set::<int>::empty() by {
                    assert(!bits_of(0).contains(i));
                }
                assert forall|k: int| !#[trigger] r@.contains(k) by {
                    if r@.contains(k) {
                        r.lemma_view_key(k);
                    }
                }
                assert(r@ =~= Set::<int>::empty());
            }
        }
        r
    }

    fn alloc_one(&mut self) -> (r: Option<usize>) {
        proof {
            Self::lemma_child_cap();
            self.lemma_empty_iff();
        }
        if !self.is_empty() {
            let ghost before = *self;
            proof {
                vstd::std_specs::bits::axiom_u16_trailing_zeros(self.bitset);
            }
            let i = self.bitset.trailing_zeros() as usize;
            let c = T::cap();
            proof {
                assert(bits_of(self.bitset).contains(i as int));
                assert(self.child_ok(i as int));
                self.sub@[i as int].lemma_wf();
            }
            let x = self.sub[i].alloc_one().unwrap();
            proof {
                before.sub@[i as int].lemma_wf();
                assert(before.child(i as int).contains(x as int));
                lemma_key_join(i as int, x as int, c as int);
            }
            let res = x + i * c;
            let e = self.sub[i].is_empty();
            set_bit16(&mut self.bitset, i, !e);
            proof {
                let ci = c as int;
                assert(res == i * ci + x);
                assert forall|j: int| 0 <= j < 16 implies #[trigger] self.child_ok(j) by {
                    lemma_set_bit(before.bitset, i as u16, j as u16);
                    assert(before.child_ok(j));
                }
                assert forall|k: int| #![auto]
                    self@.contains(k) == before@.remove(res as int).contains(k) by {
                    if 0 <= k < Self::spec_cap() {
                        self.lemma_view_key(k);
                        before.lemma_view_key(k);
                    }
                }
                assert(self@ =~= before@.remove(res as int));
                before.lemma_view_at(i as int, x as int);
                assert forall|k: int| #[trigger] before@.contains(k) implies res <= k by {
                    before.lemma_view_key(k);
                    let i2 = k / ci;
                    let x2 = k % ci;
                    assert(before.child(i2).contains(x2));
                    assert(before.child_ok(i2));
                    assert(bit16(before.bitset, i2));
                    if i2 < i {
                        let jj = i2 as u16;
                        assert((before.bitset >> jj) & 1u16 == 0u16);
                    }
                    if i2 > i {
                        lemma_key_order(i as int, x as int, i2, x2, ci);
                    }
                }
            }
            Some(res)
        } else {
            None
        }
    }

    fn dealloc(&mut self, key: usize) {
        let ghost before = *self;
        proof {
            Self::lemma_child_cap();
            self.lemma_view_key(key as int);
        }
        let c = T::cap();
        let i = key / c;
        proof {
            assert(self.child_ok(i as int));
        }
        self.sub[i].dealloc(key % c);
        set_bit16(&mut self.bitset, i, true);
        proof {
            let ci = c as int;
            assert(self.child(i as int).contains((key % c) as int));
            assert forall|j: int| 0 <= j < 16 implies #[trigger] self.child_ok(j) by {
                lemma_set_bit(before.bitset, i as u16, j as u16);
                assert(before.child_ok(j));
            }
            assert forall|k: int| #![auto]
                self@.contains(k) == before@.insert(key as int).contains(k) by {
                if 0 <= k < Self::spec_cap() {
                    self.lemma_view_key(k);
                    before.lemma_view_key(k);
                    if k / ci == i && k % ci == key % c {
                        assert(k == key);
                    }
                }
            }
            assert(self@ =~= before@.insert(key as int));
        }
    }

    fn insert(&mut self, range: Range<usize>) {
        self.for_range(range, true);
    }

    fn remove(&mut self, range: Range<usize>) {
        self.for_range(range, false);
    }

    fn is_empty(&self) -> (r: bool) {
        proof {
            self.lemma_empty_iff();
        }
        self.bitset == 0
    }

    fn test(&self, key: usize) -> (r: bool) {
        proof {
            Self::lemma_child_cap();
            self.lemma_view_key(key as int);
        }
        let c = T::cap();
        proof {
            assert(self.child_ok((key / c) as int));
            self.sub@[(key / c) as int].lemma_wf();
        }
        self.sub[key / c].test(key % c)
    }

    fn next(&self, key: usize) -> (r: Option<usize>) {
        proof {
            Self::lemma_child_cap();
        }
        let c = T::cap();
        let idx = key / c;
        proof {
            lemma_fundamental_div_mod(key as int, c as int);
            lemma_mod_pos_bound(key as int, c as int);
            assert(c * idx == idx * c) by (nonlinear_arith);
        }
        let mut i = idx;
        while i < 16
            invariant
                self.wf(),
                c == T::spec_cap(),
                c >= 16,
                16 * c <= usize::MAX,
                idx * c <= key < idx * c + c,
                idx <= i,
                forall|x: int| key <= x < i * c ==> !#[trigger] self@.contains(x),
            decreases 16 - i,
        {
            let ghost ci = c as int;
            let ghost ii = i as int;
            proof {
                assert(self.child_ok(ii));
                lemma_get_bit(self.bitset, i as u16);
                assert(ii * ci <= 15 * ci) by (nonlinear_arith)
                    requires
                        ii <= 15,
                        ci > 0,
                ;
                if ii > idx {
                    assert(ii * ci >= idx * ci + ci) by (nonlinear_arith)
                        requires
                            ii >= idx + 1,
                            ci > 0,
                    ;
                }
            }
            if get_bit16(self.bitset, i) {
                let k = if i == idx {
                    key - c * idx
                } else {
                    0
                };
                proof {
                    self.sub@[ii].lemma_wf();
                }
                if let Some(x) = self.sub[i].next(k) {
                    proof {
                        assert(c * i == ii * ci) by (nonlinear_arith)
                            requires
                                ci == c,
                                ii == i,
                        ;
                        self.lemma_view_at(ii, x as int);
                        assert forall|y: int| key <= y < ii * ci + x implies !#[trigger] self@.contains(
                            y,
                        ) by {
                            if y >= ii * ci {
                                self.lemma_view_at(ii, y - ii * ci);
                            }
                        }
                    }
                    return Some(x + c * i);
                }
                proof {
                    assert forall|y: int| key <= y < ii * ci + ci implies !#[trigger] self@.contains(
                        y,
                    ) by {
                        if y >= ii * ci {
                            self.lemma_view_at(ii, y - ii * ci);
                        }
                    }
                }
            } else {
                proof {
                    assert forall|y: int| key <= y < ii * ci + ci implies !#[trigger] self@.contains(
                        y,
                    ) by {
                        if y >= ii * ci {
                            self.lemma_view_at(ii, y - ii * ci);
                            assert(self.child(ii) == Set::<int>::empty());
                        }
                    }
                }
            }
            proof {
                assert((ii + 1) * ci == ii * ci + ci) by (nonlinear_arith);
            }
            i += 1;
        }
        proof {
            let ci = c as int;
            assert(i * ci >= 16 * ci) by (nonlinear_arith)
                requires
                    i >= 16,
                    ci > 0,
            ;
        }
        None
    }
}

impl<T: BitAlloc> BitAllocCascade16<T> {
    /// Takes the least run of `size` free bits that starts at a multiple of
    /// `2^align_log2`.
    pub fn alloc_contiguous(&mut self, size: usize, align_log2: usize) -> (r: Option<usize>)
        requires
            old(self).wf(),
            align_log2 < usize::BITS,
        ensures
            final(self).wf(),
            contiguous_result(old(self)@, Self::spec_cap() as int, size as int, align_log2 as nat, r),
            r matches Some(b) ==> final(self)@ == old(self)@.difference(range_set(b as int, b + size)),
            r is None ==> final(self)@ == old(self)@,
    {
        proof {
            self.lemma_wf();
        }
        if let Some(base) = find_contiguous(&*self, Self::cap(), size, align_log2) {
            proof {
                Self::lemma_accepts_range(base as int, base + size);
            }
            self.remove(base..base + size);
            Some(base)
        } else {
            None
        }
    }
}

impl<T: BitAlloc> Default for BitAllocCascade16<T> {
    fn default() -> (r: Self)
        ensures
            Self::spec_cap() <= usize::MAX ==> r.wf() && r@ == Set::<int>::empty(),
    {
        Self::new()
    }
}

/// `pow2(k)` is a power of two that fits in a `usize` only when `k < usize::BITS`,
/// so it is at most half the word's range.
proof fn lemma_pow2_fits(k: nat)
    requires
        pow2(k) <= usize::MAX,
    ensures
        k < usize::BITS,
        pow2(k) <= pow2((usize::BITS - 1) as nat),
        2 * pow2((usize::BITS - 1) as nat) == usize::MAX + 1,
{
    lemma2_to64();
    lemma2_to64_rest();
    if k >= usize::BITS {
        if k > usize::BITS {
            lemma_pow2_strictly_increases(usize::BITS as nat, k);
        }
    }
    if k < usize::BITS - 1 {
        lemma_pow2_strictly_increases(k, (usize::BITS - 1) as nat);
    }
}

/// Rounding `n - 1` down to a multiple of `p` and adding `p` gives the least
/// multiple of `p` at or above `n`.
proof fn lemma_align_up(n: int, p: int)
    requires
        n >= 1,
        p >= 1,
    ensures
        (((n - 1) / p + 1) * p) % p == 0,
        n <= ((n - 1) / p + 1) * p <= n - 1 + p,
        forall|b: int| 0 <= b < ((n - 1) / p + 1) * p && #[trigger] (b % p) == 0 ==> b <= n - 1,
{
    let q = (n - 1) / p;
    lemma_fundamental_div_mod(n - 1, p);
    lemma_mod_multiples_basic(q + 1, p);
    assert(0 <= (n - 1) % p < p) by {
        lemma_mod_pos_bound(n - 1, p);
    }
    assert((q + 1) * p == q * p + p) by (nonlinear_arith);
    assert(p * q == q * p) by (nonlinear_arith);
    assert forall|b: int| 0 <= b < (q + 1) * p && #[trigger] (b % p) == 0 implies b <= n - 1 by {
        lemma_fundamental_div_mod(b, p);
        let m = b / p;
        assert(b == p * m);
        if m > q {
            assert(p * m >= p * (q + 1)) by (nonlinear_arith)
                requires
                    m > q,
                    p >= 1,
            ;
            assert(p * (q + 1) == (q + 1) * p) by (nonlinear_arith);
        }
        assert(m <= q);
        assert(p * m <= p * q) by (nonlinear_arith)
            requires
                m <= q,
                p >= 1,
        ;
    }
}

/// The free keys of a bitmap lie below half the range of a `usize`.
proof fn lemma_free_keys_below_half<B: BitAlloc>(ba: &B)
    requires
        ba.wf(),
    ensures
        forall|k: int| #[trigger] ba@.contains(k) ==> 0 <= k < pow2((usize::BITS - 1) as nat),
{
    B::lemma_cap();
    ba.lemma_wf();
    lemma_pow2_fits(B::cap_log2());
}

/// Finds the least base, a multiple of `2^align_log2`, of a run of `size` free
/// bits of `ba` that ends at or before `capacity`.
pub fn find_contiguous(ba: &impl BitAlloc, capacity: usize, size: usize, align_log2: usize) -> (r:
    Option<usize>)
    requires
        ba.wf(),
        align_log2 < usize::BITS,
    ensures
        contiguous_result(ba@, capacity as int, size as int, align_log2 as nat, r),
{
    let ghost a = align_log2 as nat;
    let ghost p = pow2(a) as int;
    proof {
        lemma_usize_pow2_no_overflow(a);
        lemma_usize_shl_is_mul(1, align_log2);
        lemma_pow2_pos(a);
        lemma_pow2_fits(a);
        ba.lemma_wf();
    }
    if capacity < (1usize << align_log2) || ba.is_empty() {
        proof {
            if capacity >= p && size > 0 {
                assert forall|b: int| !#[trigger] fits(ba@, capacity as int, size as int, a, b) by {
                    if fits(ba@, capacity as int, size as int, a, b) {
                        assert(ba@.contains(b));
                    }
                }
            }
        }
        return None;
    }
    let mut base: usize = 0;
    let mut offset: usize = base;
    while offset < capacity
        invariant
            ba.wf(),
            p == pow2(a),
            1 <= p <= capacity,
            p <= pow2((usize::BITS - 1) as nat),
            2 * pow2((usize::BITS - 1) as nat) == usize::MAX + 1,
            a == align_log2,
            align_log2 < usize::BITS,
            base <= offset,
            base as int % p == 0,
            size > 0 ==> offset - base < size,
            forall|k: int| base <= k < offset ==> #[trigger] ba@.contains(k),
            size > 0 ==> forall|b: int|
                0 <= b < base ==> !#[trigger] fits(ba@, capacity as int, size as int, a, b),
        decreases usize::MAX - offset,
    {
        if let Some(next) = ba.next(offset) {
            if next != offset {
                let ghost old_base = base as int;
                proof {
                    lemma_free_keys_below_half(ba);
                    lemma_align_up(next as int, p);
                    lemma_usize_shr_is_div((next - 1) as usize, align_log2);
                    lemma_usize_shl_is_mul(
                        ((((next - 1) as usize) >> align_log2) + 1) as usize,
                        align_log2,
                    );
                }
                base = (((next - 1) >> align_log2) + 1) << align_log2;
                proof {
                    if size > 0 {
                        assert forall|b: int|
                            0 <= b < base implies !#[trigger] fits(
                            ba@,
                            capacity as int,
                            size as int,
                            a,
                            b,
                        ) by {
                            if b >= old_base && fits(ba@, capacity as int, size as int, a, b) {
                                assert(b % p == 0);
                                assert(b <= next - 1);
                                if b <= offset {
                                    assert(ba@.contains(offset as int));
                                } else {
                                    assert(ba@.contains(b));
                                }
                            }
                        }
                    }
                }
                offset = base;
                continue;
            }
        } else {
            proof {
                if size > 0 {
                    assert forall|b: int| !#[trigger] fits(ba@, capacity as int, size as int, a, b) by {
                        if b >= base && fits(ba@, capacity as int, size as int, a, b) {
                            if b <= offset {
                                assert(ba@.contains(offset as int));
                            } else {
                                assert(ba@.contains(b));
                            }
                        }
                    }
                }
            }
            return None;
        }
        offset += 1;
        if offset - base == size {
            return Some(base);
        }
    }
    proof {
        if size > 0 {
            assert forall|b: int| !#[trigger] fits(ba@, capacity as int, size as int, a, b) by {
                if b >= base && fits(ba@, capacity as int, size as int, a, b) {
                    assert(b + size > offset);
                }
            }
        }
    }
    None
}

} // verus!
