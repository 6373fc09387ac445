pub mod pmm;
pub mod vmm;
use pmm::{kmalloc_alloc_ok, kmalloc_alloc_post, kmalloc_free_ok, kmalloc_free_post, kmallocmanager, FreePageList};
use vmm::{
    last_with_base, region_alloc_ok, region_alloc_post, region_dealloc_ok, region_dealloc_post, PageMap, VMMFlags,
    KTPRESENT, KTWRITEALLOWED,
};
use vstd::prelude::*;

verus! {

/// Memory-map entry types reported by the bootloader.
pub const MEMMAP_USABLE: u64 = 0;
pub const MEMMAP_RESERVED: u64 = 1;
pub const MEMMAP_ACPI_RECLAIMABLE: u64 = 2;
pub const MEMMAP_ACPI_NVS: u64 = 3;
pub const MEMMAP_BAD_MEMORY: u64 = 4;
pub const MEMMAP_BOOTLOADER_RECLAIMABLE: u64 = 5;
pub const MEMMAP_KERNEL_AND_MODULES: u64 = 6;
pub const MEMMAP_FRAMEBUFFER: u64 = 7;

/// One range of physical memory as the bootloader describes it.
#[derive(Clone, Copy, Debug, PartialEq, Eq, Structural)]
pub struct MemmapEntry {
    pub base: u64,
    pub length: u64,
    pub entry_type: u64,
}

/// A power of two: exactly one bit set.
pub open spec fn is_pow2(a: usize) -> bool {
    a > 0 && a & ((a - 1) as usize) == 0
}

/// Rounds `addr` up to the next multiple of `align`.
///
/// The sum `addr + align` must fit in a `usize`.  For a power-of-two
/// `align` the result is the least multiple of `align` that is not below `addr`.
pub fn align_up(addr: usize, align: usize) -> (r: usize)
    requires
        align > 0,
        addr + align <= usize::MAX,
    ensures
        r == ((addr + align - 1) as usize) & !((align - 1) as usize),
        is_pow2(align) ==> r & ((align - 1) as usize) == 0 && addr <= r && r < addr + align,
{
    let s: usize = addr + align - 1;
    let m: usize = align - 1;
    let r: usize = s & !m;
    proof {
        if is_pow2(align) {
            assert(r & m == 0 && r <= s && s - r <= m) by (bit_vector)
                requires
                    align > 0,
                    align & m == 0,
                    m == align - 1,
                    r == s & !m,
            ;
        }
    }
    r
}

/// Rounds `addr` down to a multiple of `align`.
///
/// For a power-of-two `align` the result is the greatest multiple of `align`
/// that is not above `addr`.
pub fn align_down(addr: usize, align: usize) -> (r: usize)
    requires
        align > 0,
    ensures
        r == addr & !((align - 1) as usize),
        is_pow2(align) ==> r & ((align - 1) as usize) == 0 && r <= addr && addr < r + align,
{
    let m: usize = align - 1;
    let r: usize = addr & !m;
    proof {
        if is_pow2(align) {
            assert(r & m == 0 && r <= addr && addr - r <= m) by (bit_vector)
                requires
                    align > 0,
                    align & m == 0,
                    m == align - 1,
                    r == addr & !m,
            ;
        }
    }
    r
}

/// The kernel's memory: the free frames, the slab caches of the heap, the
/// kernel's address space, and where the direct map of physical memory starts.
pub struct MemoryManagement {
    pub pmm: FreePageList,
    pub kmalloc: kmallocmanager,
    pub kermap: PageMap,
    pub hhdm: usize,
}

/// The flags heap regions are mapped with: present and writable.
pub open spec fn heap_flags() -> VMMFlags {
    VMMFlags::from_bits_spec(KTPRESENT | KTWRITEALLOWED)
}

impl MemoryManagement {
    /// Takes `size` bytes of heap: an object of the slab caches where one
    /// is large enough (up to 1024 bytes), else a region of the kernel's
    /// address space mapped present and writable.  Returns its address.
    pub fn allocate(&mut self, size: usize) -> (r: u64)
        requires
            kmalloc_alloc_ok(old(self).kmalloc, old(self).pmm, old(self).hhdm, size),
            size > 1024 ==> region_alloc_ok(old(self).kermap, old(self).pmm, size, heap_flags()),
        ensures
            final(self).hhdm == old(self).hhdm,
            size <= 1024 ==> {
                &&& kmalloc_alloc_post(
                    old(self).kmalloc,
                    final(self).kmalloc,
                    old(self).pmm,
                    final(self).pmm,
                    old(self).hhdm,
                    size,
                    Some(r as usize),
                )
                &&& r <= usize::MAX
                &&& final(self).kermap == old(self).kermap
            },
            size > 1024 ==> {
                &&& final(self).kmalloc.wf()
                &&& final(self).kmalloc.caches() == old(self).kmalloc.caches()
                &&& region_alloc_post(
                    old(self).kermap,
                    final(self).kermap,
                    old(self).pmm,
                    final(self).pmm,
                    size,
                    heap_flags(),
                    Some(r),
                )
            },
    {
        match self.kmalloc.allocate(&mut self.pmm, self.hhdm, size) {
            Some(q) => q as u64,
            None => {
                let flags = VMMFlags::from_bits(KTPRESENT | KTWRITEALLOWED);
                self.kermap.vmm_region_alloc(&mut self.pmm, size, flags).unwrap()
            },
        }
    }

    /// Gives back the `size` bytes of heap at `ptr`: as a region of the
    /// kernel's address space when they are more than a page, else to the
    /// slab caches.
    pub fn deallocate(&mut self, ptr: u64, size: usize)
        requires
            size > 4096 ==> region_dealloc_ok(old(self).kermap, old(self).pmm, ptr),
            size <= 4096 ==> ptr <= usize::MAX && kmalloc_free_ok(old(self).kmalloc, ptr as usize),
        ensures
            final(self).hhdm == old(self).hhdm,
            size > 4096 ==> {
                &&& final(self).kmalloc == old(self).kmalloc
                &&& region_dealloc_post(
                    old(self).kermap,
                    final(self).kermap,
                    old(self).pmm,
                    final(self).pmm,
                    ptr,
                    last_with_base(old(self).kermap.regions(), ptr, old(self).kermap.regions().len() as int) >= 0,
                )
            },
            size <= 4096 ==> {
                &&& kmalloc_free_post(old(self).kmalloc, final(self).kmalloc, ptr as usize)
                &&& final(self).kermap == old(self).kermap
                &&& final(self).pmm == old(self).pmm
            },
    {
        if size > 4096 {
            self.kermap.vmm_region_dealloc(&mut self.pmm, ptr);
        } else {
            self.kmalloc.free(ptr as usize);
        }
    }
}

} // verus!
