use helium::bitmap::find_contiguous;
use helium::bitmap::BitAlloc;
use helium::bitmap::BitAlloc16;
use helium::bitmap::BitAlloc1M;
use helium::bitmap::BitAlloc256;
use helium::bitmap::BitAlloc4K;
use helium::bitmap::BitAlloc64K;

#[test]
fn bitalloc16() {
    let mut ba = BitAlloc16::default();
    assert_eq!(BitAlloc16::cap(), 16);
    ba.insert(0..16);
    for i in 0..16 {
        assert!(ba.test(i));
    }
    ba.remove(2..8);
    assert_eq!(ba.alloc_one(), Some(0));
    assert_eq!(ba.alloc_one(), Some(1));
    assert_eq!(ba.alloc_one(), Some(8));
    ba.dealloc(0);
    ba.dealloc(1);
    ba.dealloc(8);

    assert!(!ba.is_empty());
    for _ in 0..10 {
        assert!(ba.alloc_one().is_some());
    }
    assert!(ba.is_empty());
    assert!(ba.alloc_one().is_none());
}

#[test]
fn bitalloc4k() {
    let mut ba = BitAlloc4K::default();
    assert_eq!(BitAlloc4K::cap(), 4096);
    ba.insert(0..4096);
    for i in 0..4096 {
        assert!(ba.test(i));
    }
    ba.remove(2..4094);
    for i in 0..4096 {
        assert_eq!(ba.test(i), !(2..4094).contains(&i));
    }
    assert_eq!(ba.alloc_one(), Some(0));
    assert_eq!(ba.alloc_one(), Some(1));
    assert_eq!(ba.alloc_one(), Some(4094));
    ba.dealloc(0);
    ba.dealloc(1);
    ba.dealloc(4094);

    assert!(!ba.is_empty());
    for _ in 0..4 {
        assert!(ba.alloc_one().is_some());
    }
    assert!(ba.is_empty());
    assert!(ba.alloc_one().is_none());
}

#[test]
fn bitalloc_contiguous() {
    let mut ba0 = BitAlloc16::default();
    ba0.insert(0..BitAlloc16::cap());
    ba0.remove(3..6);
    assert_eq!(ba0.next(0), Some(0));
    assert_eq!(ba0.alloc_contiguous(1, 1), Some(0));
    assert_eq!(find_contiguous(&ba0, BitAlloc4K::cap(), 2, 0), Some(1));

    let mut ba = BitAlloc4K::default();
    assert_eq!(BitAlloc4K::cap(), 4096);
    ba.insert(0..BitAlloc4K::cap());
    ba.remove(3..6);
    assert_eq!(ba.next(0), Some(0));
    assert_eq!(ba.alloc_contiguous(1, 1), Some(0));
    assert_eq!(ba.next(0), Some(1));
    assert_eq!(ba.next(1), Some(1));
    assert_eq!(ba.next(2), Some(2));
    assert_eq!(find_contiguous(&ba, BitAlloc4K::cap(), 2, 0), Some(1));
    assert_eq!(ba.alloc_contiguous(2, 0), Some(1));
    assert_eq!(ba.alloc_contiguous(2, 3), Some(8));
    ba.remove(0..4096 - 64);
    assert_eq!(ba.alloc_contiguous(128, 7), None);
    assert_eq!(ba.alloc_contiguous(7, 3), Some(4096 - 64));
    ba.insert(321..323);
    assert_eq!(ba.alloc_contiguous(2, 1), Some(4096 - 64 + 8));
    assert_eq!(ba.alloc_contiguous(2, 0), Some(321));
    assert_eq!(ba.alloc_contiguous(64, 6), None);
    assert_eq!(ba.alloc_contiguous(32, 4), Some(4096 - 48));
    for i in 0..4096 - 64 + 7 {
        ba.dealloc(i);
    }
    for i in 4096 - 64 + 8..4096 - 64 + 10 {
        ba.dealloc(i);
    }
    for i in 4096 - 48..4096 - 16 {
        ba.dealloc(i);
    }
}

#[test]
fn capacities_of_the_cascades() {
    assert_eq!(BitAlloc16::cap(), 16);
    assert_eq!(BitAlloc256::cap(), 256);
    assert_eq!(BitAlloc4K::cap(), 4096);
    assert_eq!(BitAlloc64K::cap(), 65536);
    assert_eq!(BitAlloc1M::cap(), 1 << 20);
}

#[test]
fn new_bitmap_has_no_free_bit() {
    let mut a = BitAlloc16::new();
    assert!(a.is_empty());
    assert_eq!(a.alloc_one(), None);
    assert_eq!(a.next(0), None);
    let mut b = BitAlloc256::default();
    assert!(b.is_empty());
    assert_eq!(b.alloc_one(), None);
    assert_eq!(b.next(0), None);
}

#[test]
fn alloc_takes_the_least_free_bit() {
    let mut ba = BitAlloc256::default();
    ba.insert(200..210);
    ba.insert(37..38);
    ba.insert(100..101);
    assert_eq!(ba.alloc_one(), Some(37));
    assert!(!ba.test(37));
    assert_eq!(ba.alloc_one(), Some(100));
    assert_eq!(ba.alloc_one(), Some(200));
    assert_eq!(ba.next(0), Some(201));
}

#[test]
fn alloc_then_dealloc_restores() {
    let mut ba = BitAlloc4K::default();
    ba.insert(1000..1003);
    let k = ba.alloc_one().unwrap();
    assert_eq!(k, 1000);
    assert!(!ba.test(1000));
    ba.dealloc(k);
    assert!(ba.test(1000));
    assert_eq!(ba.next(0), Some(1000));
    assert_eq!(ba.alloc_one(), Some(1000));
    assert_eq!(ba.alloc_one(), Some(1001));
    assert_eq!(ba.alloc_one(), Some(1002));
    assert_eq!(ba.alloc_one(), None);
}

#[test]
fn insert_then_remove_and_back() {
    let mut ba = BitAlloc256::default();
    ba.insert(10..20);
    ba.remove(12..15);
    for i in 0..256 {
        assert_eq!(ba.test(i), (10..12).contains(&i) || (15..20).contains(&i));
    }
    ba.insert(12..15);
    for i in 0..256 {
        assert_eq!(ba.test(i), (10..20).contains(&i));
    }
}

#[test]
fn ranges_across_children() {
    let mut ba = BitAlloc4K::default();
    ba.insert(250..530);
    assert!(!ba.test(249));
    assert!(ba.test(250));
    assert!(ba.test(255));
    assert!(ba.test(256));
    assert!(ba.test(511));
    assert!(ba.test(512));
    assert!(ba.test(529));
    assert!(!ba.test(530));
    ba.remove(255..513);
    assert_eq!(ba.next(255), Some(513));
    assert_eq!(ba.next(0), Some(250));
}

#[test]
fn empty_ranges_change_nothing() {
    let mut a = BitAlloc16::default();
    a.insert(5..5);
    assert!(a.is_empty());
    a.insert(0..16);
    a.remove(7..7);
    assert!(a.test(7));
    let mut b = BitAlloc256::default();
    b.insert(16..16);
    b.insert(17..17);
    b.insert(256..256);
    assert!(b.is_empty());
}

#[test]
fn next_past_the_end() {
    let mut ba = BitAlloc16::default();
    ba.insert(0..16);
    assert_eq!(ba.next(15), Some(15));
    assert_eq!(ba.next(16), None);
    assert_eq!(ba.next(1000), None);
    let mut bb = BitAlloc256::default();
    bb.insert(0..256);
    assert_eq!(bb.next(255), Some(255));
    assert_eq!(bb.next(256), None);
    assert_eq!(bb.next(usize::MAX), None);
}

#[test]
fn next_skips_taken_bits() {
    let mut ba = BitAlloc64K::default();
    ba.insert(40000..40001);
    ba.insert(7..8);
    assert_eq!(ba.next(0), Some(7));
    assert_eq!(ba.next(7), Some(7));
    assert_eq!(ba.next(8), Some(40000));
    assert_eq!(ba.next(40001), None);
}

#[test]
fn contiguous_respects_alignment() {
    let mut ba = BitAlloc256::default();
    ba.insert(3..40);
    assert_eq!(find_contiguous(&ba, 256, 4, 3), Some(8));
    assert_eq!(find_contiguous(&ba, 256, 4, 0), Some(3));
    assert_eq!(find_contiguous(&ba, 256, 8, 5), Some(32));
    assert_eq!(find_contiguous(&ba, 256, 9, 5), None);
    assert_eq!(ba.alloc_contiguous(4, 2), Some(4));
    for i in 4..8 {
        assert!(!ba.test(i));
    }
    assert!(ba.test(3));
    assert!(ba.test(8));
}

#[test]
fn contiguous_edge_cases() {
    let mut ba = BitAlloc16::default();
    ba.insert(0..16);
    assert_eq!(find_contiguous(&ba, 16, 0, 0), None);
    assert_eq!(find_contiguous(&ba, 16, 16, 0), Some(0));
    assert_eq!(find_contiguous(&ba, 16, 17, 0), None);
    assert_eq!(find_contiguous(&ba, 15, 1, 4), None);
    assert_eq!(find_contiguous(&ba, 3, 1, 0), Some(0));
    assert_eq!(find_contiguous(&ba, 8, 4, 3), Some(0));
    let empty = BitAlloc16::default();
    assert_eq!(find_contiguous(&empty, 16, 1, 0), None);
    assert_eq!(ba.alloc_contiguous(16, 4), Some(0));
    assert!(ba.is_empty());
}

#[test]
fn single_run_matches_alloc_one() {
    let mut a = BitAlloc4K::default();
    let mut b = BitAlloc4K::default();
    a.insert(77..80);
    b.insert(77..80);
    assert_eq!(a.alloc_contiguous(1, 0), b.alloc_one());
    assert_eq!(a.alloc_contiguous(1, 0), b.alloc_one());
    assert_eq!(a.alloc_contiguous(1, 0), Some(79));
    assert_eq!(b.alloc_one(), Some(79));
    assert_eq!(a.alloc_contiguous(1, 0), None);
    assert_eq!(b.alloc_one(), None);
}

#[test]
fn contiguous_then_free_restores() {
    let mut ba = BitAlloc256::default();
    ba.insert(0..256);
    let b = ba.alloc_contiguous(20, 4).unwrap();
    assert_eq!(b, 0);
    assert_eq!(ba.next(0), Some(20));
    for i in b..b + 20 {
        ba.dealloc(i);
    }
    for i in 0..256 {
        assert!(ba.test(i));
    }
}
