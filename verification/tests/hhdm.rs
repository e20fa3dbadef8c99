use helium::hhdm::phys2virt;
use helium::hhdm::phys_offset;
use helium::hhdm::virt2phys;

const OFFSET: u64 = 0xffff_8000_0000_0000;

#[test]
fn phys2virt_adds_the_offset() {
    assert_eq!(phys2virt(0x1000, OFFSET), Some(0xffff_8000_0000_1000));
    assert_eq!(phys2virt(0, OFFSET), Some(OFFSET));
    assert_eq!(phys2virt(0x1234, 0), Some(0x1234));
}

#[test]
fn phys2virt_rejects_non_canonical_and_overflow() {
    assert_eq!(phys2virt(0x8000_0000_0000, 0), None);
    assert_eq!(phys2virt(0x7fff_ffff_ffff, 1), None);
    assert_eq!(phys2virt(0x7fff_ffff_ffff, 0), Some(0x7fff_ffff_ffff));
    assert_eq!(phys2virt(0x8000_0000_0000, OFFSET), None);
    assert_eq!(phys2virt(1, u64::MAX), None);
}

#[test]
fn virt2phys_subtracts_the_offset() {
    assert_eq!(virt2phys(0xffff_8000_0000_1000, OFFSET), Some(0x1000));
    assert_eq!(virt2phys(0x5000, 0x1000), Some(0x4000));
}

#[test]
fn virt2phys_rejects_underflow_and_wide_addresses() {
    assert_eq!(virt2phys(0x1000, 0x2000), None);
    assert_eq!(virt2phys(0x10_0000_0000_0000, 0), None);
    assert_eq!(virt2phys(0x0f_ffff_ffff_ffff, 0), Some(0x0f_ffff_ffff_ffff));
}

#[test]
fn round_trip_through_the_direct_map() {
    let p = 0x3456_7000;
    let v = phys2virt(p, OFFSET).unwrap();
    assert_eq!(virt2phys(v, OFFSET), Some(p));
}

#[test]
fn phys_offset_checks_the_offset() {
    assert_eq!(phys_offset(0x8000_0000), Some(0x8000_0000));
    assert_eq!(phys_offset(OFFSET), None);
}
