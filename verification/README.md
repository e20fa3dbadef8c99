# helium

The verified core of helium, a very small x86-64 microkernel.

- `src/bitmap.rs`: the bitmap allocators (`BitAlloc16`, the cascades
  `BitAlloc256` to `BitAlloc1M`) and `find_contiguous`, with contracts over the
  set of free bits.
- `src/bits.rs`: bit access to 16-bit words through the `bit_field` crate.
- `src/hhdm.rs`: physical/virtual translation in the direct map, through the
  `x86_64` crate.
- `src/pmem.rs`: the memory-map summary used to place the frame table.
- `src/laws.rs`: properties that relate several operations.
- `app/`: the kernel around the library (boot requests, serial console, frame
  table setup).
