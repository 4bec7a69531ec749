//! Verified core of a small x86-64 hobby operating system: frame-buffer
//! pixel and glyph drawing, the bitmap font table, the font compiler used at
//! build time, and the pure computations of the UEFI boot loader.

pub mod raster;
pub mod boot;
pub mod fonts;
pub mod graphics;
pub mod kernel;
pub mod make_font;
pub mod mikanlib;
