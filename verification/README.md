# mikanos

The verified core of a small x86-64 hobby operating system and its tools.

- `src/` — the library, verified with Verus:
  - `raster` — the byte-level model of drawing (`paint`) and its laws;
  - `mikanlib`, `graphics` — frame buffers, colours and pixel writes (64-bit
    and `usize` coordinates), glyph drawing;
  - `fonts` — the 8 x 16 bitmap font table;
  - `kernel` — the boot screen the kernel draws;
  - `make_font` — the compiler from the text form of a font to its table;
  - `boot` — the boot loader's computations: kernel entry point, page count,
    memory-map rows.
- `app/` — the font compiler's command line, and the boot loader's and
  kernel's glue to the firmware and the hardware.
- `tests/` — tests of the library on concrete values.
