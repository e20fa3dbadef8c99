//! The physical memory map that the boot loader hands over, summed up: how
//! much of it is usable, and where the table of page frames can go.
use vstd::prelude::*;

verus! {

/// The kind of a region of the memory map.
#[derive(Debug, PartialEq, Eq, Structural)]
pub enum MmapEntryType {
    Usable,
    Reserved,
    AcpiNVS,
    BadMem,
    Reclaimable,
    Kernel,
    Framebuffer,
    Unknown,
}

/// One region of the memory map: `length` bytes from physical address `base`.
pub struct MmapEntry {
    pub base: u64,
    pub length: u64,
    pub entry_type: MmapEntryType,
}

/// What the frame table records of one page frame.
pub struct PageInfo {
    used: bool,
}

impl PageInfo {
    /// Whether the frame is in use.
    pub closed spec fn spec_used(&self) -> bool {
        self.used
    }

    /// Whether the frame is in use.
    pub fn is_used(&self) -> (r: bool)
        ensures
            r == self.spec_used(),
    {
        self.used
    }
}

/// The bytes that one region adds to the usable total.
pub open spec fn usable_bytes(e: MmapEntry) -> int {
    if e.entry_type is Usable {
        e.length as int
    } else {
        0
    }
}

/// The total length of the usable regions of `entries`.
pub open spec fn usable_sum(entries: Seq<MmapEntry>) -> int
    decreases entries.len(),
{
    if entries.len() == 0 {
        0
    } else {
        usable_sum(entries.drop_last()) + usable_bytes(entries.last())
    }
}

/// A region that is not `Usable` (`Kernel`, `AcpiNVS`, `Unknown`, ...) adds
/// nothing to the usable total, wherever it stands in the map.
pub proof fn law_usable_ignores_other_regions(a: Seq<MmapEntry>, e: MmapEntry, b: Seq<MmapEntry>)
    requires
        !(e.entry_type is Usable),
    ensures
        usable_sum(a.push(e) + b) == usable_sum(a + b),
{
    lemma_usable_sum_concat(a.push(e), b);
    lemma_usable_sum_concat(a, b);
    assert(a.push(e).drop_last() =~= a);
}

/// A `Usable` region adds its whole length to the usable total, wherever it
/// stands in the map.
pub proof fn law_usable_counts_usable_regions(a: Seq<MmapEntry>, e: MmapEntry, b: Seq<MmapEntry>)
    requires
        e.entry_type is Usable,
    ensures
        usable_sum(a.push(e) + b) == usable_sum(a + b) + e.length,
{
    lemma_usable_sum_concat(a.push(e), b);
    lemma_usable_sum_concat(a, b);
    assert(a.push(e).drop_last() =~= a);
}

/// A map without a `Usable` region has no usable memory.
pub proof fn law_usable_none_without_usable_regions(s: Seq<MmapEntry>)
    requires
        forall|i: int| 0 <= i < s.len() ==> !(#[trigger] s[i].entry_type is Usable),
    ensures
        usable_sum(s) == 0,
    decreases s.len(),
{
    if s.len() > 0 {
        assert(!(s[s.len() - 1].entry_type is Usable));
        law_usable_none_without_usable_regions(s.drop_last());
    }
}

/// The usable total of two maps laid end to end is the sum of their totals.
pub proof fn law_usable_of_concat(a: Seq<MmapEntry>, b: Seq<MmapEntry>)
    ensures
        usable_sum(a + b) == usable_sum(a) + usable_sum(b),
{
    lemma_usable_sum_concat(a, b);
}

proof fn lemma_usable_sum_concat(a: Seq<MmapEntry>, b: Seq<MmapEntry>)
    ensures
        usable_sum(a + b) == usable_sum(a) + usable_sum(b),
    decreases b.len(),
{
    if b.len() == 0 {
        assert(a + b =~= a);
    } else {
        lemma_usable_sum_concat(a, b.drop_last());
        assert((a + b).drop_last() =~= a + b.drop_last());
        assert((a + b).last() == b.last());
    }
}

/// The usable total of a prefix is at most that of the whole map.
proof fn lemma_usable_sum_prefix(entries: Seq<MmapEntry>, i: int)
    requires
        0 <= i <= entries.len(),
    ensures
        0 <= usable_sum(entries.take(i)) <= usable_sum(entries),
    decreases entries.len(),
{
    if entries.len() > 0 {
        if i == entries.len() {
            assert(entries.take(i) =~= entries);
            lemma_usable_sum_prefix(entries.drop_last(), i - 1);
            assert(entries.drop_last().take(i - 1) =~= entries.drop_last());
        } else {
            lemma_usable_sum_prefix(entries.drop_last(), i);
            assert(entries.drop_last().take(i) =~= entries.take(i));
            lemma_usable_sum_prefix(entries.drop_last(), entries.len() - 1);
            assert(entries.drop_last().take(entries.len() - 1) =~= entries.drop_last());
        }
    } else {
        assert(entries.take(i) =~= entries);
    }
}

/// The total length of the usable regions, or `None` when it does not fit in a
/// `u64` (where the sum would overflow).
pub fn usable_memory(entries: &[MmapEntry]) -> (r: Option<u64>)
    ensures
        r == (if usable_sum(entries@) <= u64::MAX {
            Some(usable_sum(entries@) as u64)
        } else {
            None::<u64>
        }),
{
    let mut total: u64 = 0;
    let mut i: usize = 0;
    proof {
        assert(entries@.take(0) =~= Seq::<MmapEntry>::empty());
    }
    while i < entries.len()
        invariant
            i <= entries@.len(),
            total == usable_sum(entries@.take(i as int)),
        decreases entries@.len() - i,
    {
        proof {
            assert(entries@.take(i + 1).drop_last() =~= entries@.take(i as int));
            assert(entries@.take(i + 1).last() == entries@[i as int]);
        }
        match entries[i].entry_type {
            MmapEntryType::Usable => {
                match total.checked_add(entries[i].length) {
                    Some(t) => {
                        total = t;
                    },
                    None => {
                        proof {
                            lemma_usable_sum_prefix(entries@, i + 1);
                        }
                        return None;
                    },
                }
            },
            _ => {},
        }
        i += 1;
    }
    proof {
        assert(entries@.take(i as int) =~= entries@);
    }
    Some(total)
}

/// The base of the first region of the map, of any kind, that is at least
/// `needed` bytes long; `None` when there is none.
pub fn bitmap_base(entries: &[MmapEntry], needed: u64) -> (r: Option<u64>)
    ensures
        match r {
            Some(b) => exists|i: int|
                0 <= i < entries@.len() && entries@[i].length >= needed && entries@[i].base == b
                    && forall|j: int| 0 <= j < i ==> #[trigger] entries@[j].length < needed,
            None => forall|j: int| 0 <= j < entries@.len() ==> #[trigger] entries@[j].length < needed,
        },
{
    let mut i: usize = 0;
    while i < entries.len()
        invariant
            i <= entries@.len(),
            forall|j: int| 0 <= j < i ==> #[trigger] entries@[j].length < needed,
        decreases entries@.len() - i,
    {
        if entries[i].length >= needed {
            return Some(entries[i].base);
        }
        i += 1;
    }
    None
}

} // verus!
