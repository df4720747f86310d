//! Page-offset arithmetic.
use vstd::prelude::*;

use crate::memory::address::{AddressTranslator, TPA, TVA};

verus! {

/// Translates between physical and virtual addresses by a fixed offset: virtual
/// addresses lie `OFFSET` above physical ones.
pub struct PageOffsetTranslator<const OFFSET: usize>;

impl<T, const OFFSET: usize> AddressTranslator<T> for PageOffsetTranslator<OFFSET> {
    open spec fn maps_phys(pa: usize) -> bool {
        pa + OFFSET <= usize::MAX
    }

    open spec fn maps_virt(va: usize) -> bool {
        OFFSET <= va
    }

    open spec fn phys_of(va: usize) -> usize {
        (va - OFFSET) as usize
    }

    open spec fn virt_of(pa: usize) -> usize {
        (pa + OFFSET) as usize
    }

    fn virt_to_phys(va: TVA<T>) -> (r: TPA<T>) {
        TPA::from_value(va.value() - OFFSET)
    }

    fn phys_to_virt(pa: TPA<T>) -> (r: TVA<T>) {
        TVA::from_value(pa.value() + OFFSET)
    }
}

/// Going through the offset translator and back gives the address back, and
/// every address that has a translation has one back.
pub proof fn page_offset_round_trip<T, const OFFSET: usize>(pa: usize, va: usize)
    requires
        <PageOffsetTranslator<OFFSET> as AddressTranslator<T>>::maps_phys(pa),
        <PageOffsetTranslator<OFFSET> as AddressTranslator<T>>::maps_virt(va),
    ensures
        <PageOffsetTranslator<OFFSET> as AddressTranslator<T>>::maps_virt(
            <PageOffsetTranslator<OFFSET> as AddressTranslator<T>>::virt_of(pa),
        ),
        <PageOffsetTranslator<OFFSET> as AddressTranslator<T>>::phys_of(
            <PageOffsetTranslator<OFFSET> as AddressTranslator<T>>::virt_of(pa),
        ) == pa,
        <PageOffsetTranslator<OFFSET> as AddressTranslator<T>>::maps_phys(
            <PageOffsetTranslator<OFFSET> as AddressTranslator<T>>::phys_of(va),
        ),
        <PageOffsetTranslator<OFFSET> as AddressTranslator<T>>::virt_of(
            <PageOffsetTranslator<OFFSET> as AddressTranslator<T>>::phys_of(va),
        ) == va,
{
}

} // verus!
