//! Properties of the bitmap allocators that relate several of their operations,
//! stated over the free sets that their contracts speak of.
use crate::bitmap::{alloc_result, contiguous_result, fits, next_result, range_set};
use vstd::arithmetic::power2::pow2;
use vstd::prelude::*;

verus! {

/// Giving back the bit that `alloc_one` took restores the free set.
pub proof fn law_alloc_then_dealloc(before: Set<int>, after: Set<int>, i: usize)
    requires
        alloc_result(before, after, Some(i)),
    ensures
        !after.contains(i as int),
        after.insert(i as int) == before,
{
    assert(after.insert(i as int) =~= before);
}

/// `alloc_one` hands out a bit that was free, no free bit below it, and takes
/// exactly that bit.
pub proof fn law_alloc_takes_least_free(before: Set<int>, after: Set<int>, i: usize)
    requires
        alloc_result(before, after, Some(i)),
    ensures
        before.contains(i as int),
        forall|j: int| 0 <= j < i ==> !#[trigger] before.contains(j),
        forall|j: int| #[trigger] after.contains(j) <==> (before.contains(j) && j != i),
{
}

/// `next(key)` answers a free bit at or above `key` with no free bit between
/// them, and `None` only when no bit at or above `key` is free.
pub proof fn law_next_is_first_free_at_or_above(s: Set<int>, key: usize, r: Option<usize>, j: int)
    requires
        next_result(s, key as int, r),
    ensures
        r matches Some(n) ==> key <= n && s.contains(n as int) && (key <= j < n ==> !s.contains(j)),
        r is None ==> (key <= j ==> !s.contains(j)),
        s.contains(j) && key <= j ==> (r matches Some(n) && n <= j),
{
}

/// The run that a contiguous search answers is free, aligned, within the
/// capacity, and no aligned run below it is all free within the capacity.
pub proof fn law_contiguous_is_least_free_run(
    s: Set<int>,
    capacity: int,
    size: int,
    align_log2: nat,
    r: Option<usize>,
    b: int,
)
    requires
        contiguous_result(s, capacity, size, align_log2, r),
        0 <= b,
        b % (pow2(align_log2) as int) == 0,
        b + size <= capacity,
        forall|k: int| b <= k < b + size ==> #[trigger] s.contains(k),
        size > 0,
        pow2(align_log2) <= capacity,
    ensures
        r matches Some(base) && base <= b,
{
    assert(fits(s, capacity, size, align_log2, b));
}

/// `alloc_one` fails exactly when no bit is free, and then changes nothing.
pub proof fn law_alloc_fails_iff_empty(before: Set<int>, after: Set<int>, r: Option<usize>)
    requires
        alloc_result(before, after, r),
    ensures
        (r is None) <==> before == Set::<int>::empty(),
        r is None ==> after == before,
{
    if let Some(i) = r {
        assert(before.contains(i as int));
    }
}

/// After `insert(start..end)` a bit is free exactly when it was free before or
/// lies in the range.
pub proof fn law_insert_frees_range(s: Set<int>, start: int, end: int, k: int)
    ensures
        s.union(range_set(start, end)).contains(k) == (s.contains(k) || start <= k < end),
{
}

/// After `remove(start..end)` a bit is free exactly when it was free before and
/// lies outside the range.
pub proof fn law_remove_takes_range(s: Set<int>, start: int, end: int, k: int)
    ensures
        s.difference(range_set(start, end)).contains(k) == (s.contains(k) && !(start <= k < end)),
{
}

/// Marking a range taken right after marking it free leaves the range taken and
/// the other bits as they were.
pub proof fn law_insert_then_remove(s: Set<int>, start: int, end: int)
    ensures
        s.union(range_set(start, end)).difference(range_set(start, end)) == s.difference(
            range_set(start, end),
        ),
{
    assert(s.union(range_set(start, end)).difference(range_set(start, end)) =~= s.difference(
        range_set(start, end),
    ));
}

/// Marking a range free right after marking it taken leaves the range free and
/// the other bits as they were.
pub proof fn law_remove_then_insert(s: Set<int>, start: int, end: int)
    ensures
        s.difference(range_set(start, end)).union(range_set(start, end)) == s.union(
            range_set(start, end),
        ),
{
    assert(s.difference(range_set(start, end)).union(range_set(start, end)) =~= s.union(
        range_set(start, end),
    ));
}

/// `next(key)` answers `key` itself exactly when bit `key` is free.
pub proof fn law_next_at_free_key(s: Set<int>, key: usize, r: Option<usize>)
    requires
        next_result(s, key as int, r),
    ensures
        (r == Some(key)) <==> s.contains(key as int),
{
    if s.contains(key as int) {
        if let Some(j) = r {
            assert(!(key < j));
        }
    }
}

/// A run of one bit with no alignment, searched over the whole capacity, is the
/// least free bit: `alloc_contiguous(1, 0)` and `alloc_one` answer alike.
pub proof fn law_single_run_is_least_free(
    s: Set<int>,
    capacity: int,
    run: Option<usize>,
    after: Set<int>,
    one: Option<usize>,
)
    requires
        capacity >= 1,
        forall|k: int| #[trigger] s.contains(k) ==> 0 <= k < capacity,
        contiguous_result(s, capacity, 1, 0, run),
        alloc_result(s, after, one),
    ensures
        run == one,
{
    vstd::arithmetic::power2::lemma2_to64();
    assert(pow2(0) == 1);
    match one {
        Some(i) => {
            assert(fits(s, capacity, 1, 0, i as int)) by {
                assert forall|k: int| i <= k < i + 1 implies #[trigger] s.contains(k) by {
                    assert(k == i);
                }
            }
            match run {
                Some(b) => {
                    assert(s.contains(b as int));
                }
                None => {
                    assert(!fits(s, capacity, 1, 0, i as int));
                }
            }
        }
        None => {
            if let Some(b) = run {
                assert(s.contains(b as int));
            }
        }
    }
}

/// The run that `alloc_contiguous` takes was all free, and giving back each of
/// its bits restores the free set.
pub proof fn law_contiguous_then_free(
    s: Set<int>,
    capacity: int,
    size: int,
    align_log2: nat,
    base: usize,
)
    requires
        contiguous_result(s, capacity, size, align_log2, Some(base)),
    ensures
        range_set(base as int, base + size).subset_of(s),
        s.difference(range_set(base as int, base + size)).union(range_set(base as int, base + size))
            == s,
{
    assert(s.difference(range_set(base as int, base + size)).union(
        range_set(base as int, base + size),
    ) =~= s);
}

/// The run that `alloc_contiguous` takes starts at a multiple of
/// `2^align_log2` and ends within the capacity.
pub proof fn law_contiguous_aligned(
    s: Set<int>,
    capacity: int,
    size: int,
    align_log2: nat,
    base: usize,
)
    requires
        contiguous_result(s, capacity, size, align_log2, Some(base)),
    ensures
        base as int % pow2(align_log2) as int == 0,
        base + size <= capacity,
        size > 0,
{
}

} // verus!
