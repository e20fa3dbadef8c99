//! Translation between physical addresses and their virtual addresses in the
//! higher-half direct map, which maps all of physical memory at a fixed offset.
use vstd::prelude::*;
use x86_64::{PhysAddr, VirtAddr};

verus! {

/// A canonical x86-64 virtual address: bits 48 to 63 repeat bit 47.
pub open spec fn is_canonical(addr: u64) -> bool {
    addr < 0x8000_0000_0000 || addr >= 0xffff_8000_0000_0000
}

/// A valid x86-64 physical address: no bit from 52 up is set.
pub open spec fn is_physical(addr: u64) -> bool {
    addr < 0x10_0000_0000_0000
}

/// Physical address `paddr` seen through a direct map at `offset`: `None`
/// where the sum overflows or is not canonical.
pub open spec fn virt_of(paddr: u64, offset: u64) -> Option<u64> {
    if paddr + offset <= u64::MAX && is_canonical((paddr + offset) as u64) {
        Some((paddr + offset) as u64)
    } else {
        None
    }
}

/// The physical address behind `vaddr` in a direct map at `offset`: `None`
/// where the difference is negative or not a physical address.
pub open spec fn phys_of(vaddr: u64, offset: u64) -> Option<u64> {
    if vaddr >= offset && is_physical((vaddr - offset) as u64) {
        Some((vaddr - offset) as u64)
    } else {
        None
    }
}

/// `x86_64::VirtAddr::try_new`: the crate sign-extends bit 47 over bits 48 to
/// 63 and accepts `addr` exactly when that changes nothing.
#[verifier::external_body]
fn virt_addr_try_new(addr: u64) -> (r: Option<u64>)
    ensures
        r == (if is_canonical(addr) {
            Some(addr)
        } else {
            None::<u64>
        }),
{
    match VirtAddr::try_new(addr) {
        Ok(v) => Some(v.as_u64()),
        Err(_) => None,
    }
}

/// `x86_64::PhysAddr::try_new`: the crate drops bits 52 to 63 and accepts
/// `addr` exactly when that changes nothing.
#[verifier::external_body]
fn phys_addr_try_new(addr: u64) -> (r: Option<u64>)
    ensures
        r == (if is_physical(addr) {
            Some(addr)
        } else {
            None::<u64>
        }),
{
    match PhysAddr::try_new(addr) {
        Ok(p) => Some(p.as_u64()),
        Err(_) => None,
    }
}

/// The virtual address of physical address `paddr` in a direct map at `offset`:
/// their sum, or `None` where the sum overflows or is not canonical.
pub fn phys2virt(paddr: u64, offset: u64) -> (r: Option<u64>)
    ensures
        r == virt_of(paddr, offset),
{
    match paddr.checked_add(offset) {
        Some(addr) => virt_addr_try_new(addr),
        None => None,
    }
}

/// The physical address behind virtual address `vaddr` of a direct map at
/// `offset`: their difference, or `None` where it is negative or not a
/// physical address.
pub fn virt2phys(vaddr: u64, offset: u64) -> (r: Option<u64>)
    ensures
        r == phys_of(vaddr, offset),
{
    match vaddr.checked_sub(offset) {
        Some(addr) => phys_addr_try_new(addr),
        None => None,
    }
}

/// The offset of the direct map as a physical address, or `None` where it is
/// not one.
pub fn phys_offset(offset: u64) -> (r: Option<u64>)
    ensures
        r == (if is_physical(offset) {
            Some(offset)
        } else {
            None::<u64>
        }),
{
    phys_addr_try_new(offset)
}

/// Translating into the direct map adds the offset: whenever the sum fits in 64
/// bits and bits 48 to 63 of it repeat bit 47, the answer is the sum, and any
/// answer is such a sum.
pub proof fn law_phys2virt_adds_offset(paddr: u64, offset: u64)
    ensures
        paddr + offset <= u64::MAX && (paddr + offset < 0x8000_0000_0000 || paddr + offset
            >= 0xffff_8000_0000_0000) ==> virt_of(paddr, offset) == Some((paddr + offset) as u64),
        virt_of(paddr, offset) matches Some(v) ==> v == paddr + offset && (v < 0x8000_0000_0000
            || v >= 0xffff_8000_0000_0000),
{
}

/// Translating out of the direct map subtracts the offset: whenever the
/// difference is non-negative and below 2^52, the answer is the difference, and
/// any answer is such a difference.
pub proof fn law_virt2phys_subtracts_offset(vaddr: u64, offset: u64)
    ensures
        vaddr >= offset && vaddr - offset < 0x10_0000_0000_0000 ==> phys_of(vaddr, offset) == Some(
            (vaddr - offset) as u64,
        ),
        phys_of(vaddr, offset) matches Some(p) ==> p == vaddr - offset && p < 0x10_0000_0000_0000,
{
}

/// The offset is accepted as a physical address exactly when it is below 2^52.
pub proof fn law_phys_offset_below_2_52(offset: u64)
    ensures
        is_physical(offset) <==> offset < 0x10_0000_0000_0000,
{
}

/// Mapping a physical address into the direct map and back gives it again.
pub proof fn law_phys_virt_round_trip(paddr: u64, offset: u64)
    requires
        is_physical(paddr),
        virt_of(paddr, offset) is Some,
    ensures
        phys_of(virt_of(paddr, offset)->0, offset) == Some(paddr),
{
}

/// Taking a canonical virtual address back to physical memory and into the
/// direct map again gives it again.
pub proof fn law_virt_phys_round_trip(vaddr: u64, offset: u64)
    requires
        is_canonical(vaddr),
        phys_of(vaddr, offset) is Some,
    ensures
        virt_of(phys_of(vaddr, offset)->0, offset) == Some(vaddr),
{
}

} // verus!
