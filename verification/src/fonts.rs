//! The bitmap font the kernel draws text with.

use vstd::prelude::*;
use vstd::slice::slice_subrange;

verus! {

/// Height of a glyph in rows; each row is one byte, one bit per column.
pub const FONT_SIZE: usize = 16;

/// Size of a font table: one glyph for each of the 256 byte values.
pub const FONT_TABLE_SIZE: usize = 4096;

/// A bitmap font of 8 x 16 glyphs: `FONT_SIZE` bytes for each of the 256
/// byte values, glyph `c` at `FONT_SIZE * c`.
pub struct Font(pub &'static [u8; FONT_TABLE_SIZE]);

impl View for Font {
    type V = Seq<u8>;

    open spec fn view(&self) -> Seq<u8> {
        self.0@
    }
}

/// The `FONT_SIZE` rows of the glyph of `c` in the font table `table`.
pub open spec fn glyph(table: Seq<u8>, c: u8) -> Seq<u8> {
    table.subrange(FONT_SIZE * c, FONT_SIZE * c + FONT_SIZE)
}

/// The glyphs of the first `n` byte values of `table`, one after another.
pub open spec fn glyphs_in_order(table: Seq<u8>, n: nat) -> Seq<u8>
    decreases n,
{
    if n == 0 {
        seq![]
    } else {
        glyphs_in_order(table, (n - 1) as nat) + glyph(table, (n - 1) as u8)
    }
}

/// The glyphs of the first `n` byte values cover the first `n` glyph slots
/// of the table.
proof fn lemma_glyphs_in_order_prefix(table: Seq<u8>, n: nat)
    requires
        table.len() == FONT_TABLE_SIZE,
        n <= 256,
    ensures
        glyphs_in_order(table, n) == table.take(FONT_SIZE * n),
    decreases n,
{
    if n == 0 {
        assert(table.take(0) =~= Seq::<u8>::empty());
    } else {
        lemma_glyphs_in_order_prefix(table, (n - 1) as nat);
        let c = (n - 1) as u8;
        assert(c == n - 1);
        assert(table.take(FONT_SIZE * (n - 1)) + glyph(table, c) =~= table.take(FONT_SIZE * n));
    }
}

/// The 256 glyphs tile the font table: taken in order of their byte values,
/// one after another, they make up the whole table, without gaps or
/// overlaps.
pub proof fn glyphs_tile_the_table(table: Seq<u8>)
    requires
        table.len() == FONT_TABLE_SIZE,
    ensures
        glyphs_in_order(table, 256) == table,
{
    lemma_glyphs_in_order_prefix(table, 256);
    assert(table.take(FONT_SIZE * 256) =~= table);
}

impl Font {
    /// The font whose table is `data`.
    pub fn new(data: &'static [u8; FONT_TABLE_SIZE]) -> (f: Self)
        ensures
            f@ == data@,
    {
        Self(data)
    }

    /// The number of bytes in the font's table.
    pub fn len(&self) -> (n: usize)
        ensures
            n == self@.len(),
            n == FONT_TABLE_SIZE,
    {
        FONT_TABLE_SIZE
    }

    /// The rows of the glyph of `char`. Every byte value has a glyph, so the
    /// result is always `Ok`.
    pub fn get_font(&self, char: u8) -> (r: Result<&'static [u8], ()>)
        ensures
            r is Ok,
            r matches Ok(rows) ==> rows@ == glyph(self@, char),
    {
        let index = char as usize * FONT_SIZE;

        if index > self.len() {
            return Err(());
        }
        let table: &'static [u8] = self.0.as_slice();
        Ok(slice_subrange(table, index, index + FONT_SIZE))
    }
}

} // verus!
