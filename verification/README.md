# nyaux_kt

The core of a small x86-64 kernel as a verified library: the physical frame
list and the slab allocator of the kernel heap, the four-level page tables and
the regions of the kernel's address space, the interrupt and global
descriptor tables, the round-robin scheduler, the ELF symbol table used for
stack traces, and the arithmetic of the HPET and local APIC timers.

- `src/` is verified with Verus. Page tables, slabs and frame lists are kept
  as plain values (tables by physical address, frames by address), and every
  public function states exactly what it does to them.
- `app/` is the boot glue around the library: bootloader requests, port and
  memory-mapped I/O, descriptor-table loads, interrupt entry stubs, the
  terminal, ACPI, and copying the library's page tables to their frames.
- `tests/` runs the library on concrete memory maps, tables and ELF images.
