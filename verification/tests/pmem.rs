use helium::pmem::bitmap_base;
use helium::pmem::usable_memory;
use helium::pmem::MmapEntry;
use helium::pmem::MmapEntryType;

fn entry(base: u64, length: u64, entry_type: MmapEntryType) -> MmapEntry {
    MmapEntry { base, length, entry_type }
}

#[test]
fn usable_memory_sums_usable_regions() {
    let map = vec![
        entry(0, 0x9f000, MmapEntryType::Usable),
        entry(0x9f000, 0x1000, MmapEntryType::Reserved),
        entry(0x100000, 0x7ee0000, MmapEntryType::Usable),
        entry(0x7fe0000, 0x20000, MmapEntryType::Reclaimable),
        entry(0xfd000000, 0x300000, MmapEntryType::Framebuffer),
    ];
    assert_eq!(usable_memory(&map), Some(0x9f000 + 0x7ee0000));
    assert_eq!(usable_memory(&[]), Some(0));
}

#[test]
fn usable_memory_overflow_is_none() {
    let map = vec![
        entry(0, u64::MAX, MmapEntryType::Usable),
        entry(0, 5, MmapEntryType::Kernel),
        entry(0, 1, MmapEntryType::Usable),
    ];
    assert_eq!(usable_memory(&map), None);
    let ok = vec![entry(0, u64::MAX, MmapEntryType::Usable), entry(0, 1, MmapEntryType::BadMem)];
    assert_eq!(usable_memory(&ok), Some(u64::MAX));
}

#[test]
fn bitmap_base_is_first_long_enough_region() {
    let map = vec![
        entry(0x1000, 0x100, MmapEntryType::Usable),
        entry(0x5000, 0x2000, MmapEntryType::Reserved),
        entry(0x9000, 0x4000, MmapEntryType::Usable),
    ];
    assert_eq!(bitmap_base(&map, 0x2000), Some(0x5000));
    assert_eq!(bitmap_base(&map, 0x2001), Some(0x9000));
    assert_eq!(bitmap_base(&map, 0x100), Some(0x1000));
    assert_eq!(bitmap_base(&map, 0x4001), None);
    assert_eq!(bitmap_base(&[], 0), None);
}

#[test]
fn entry_types_compare() {
    assert_eq!(MmapEntryType::Usable, MmapEntryType::Usable);
    assert_ne!(MmapEntryType::Usable, MmapEntryType::Unknown);
    assert_eq!(format!("{:?}", MmapEntryType::AcpiNVS), "AcpiNVS");
}
