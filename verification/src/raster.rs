//! The byte-level model of drawing into a frame buffer: every pixel takes
//! four bytes, the first three carry the colour channels, the fourth is
//! reserved and never written.

use vstd::prelude::*;

verus! {

/// The byte that a pixel of colour `c` (three bytes, in memory order) holds
/// at offset `k` within its four-byte slot.
pub open spec fn channel(c: (u8, u8, u8), k: int) -> u8 {
    if k == 0 {
        c.0
    } else if k == 1 {
        c.1
    } else {
        c.2
    }
}

/// Linear pixel number of the point `(x, y)` in a buffer whose rows are
/// `pixels_per_scan_line` pixels apart.
pub open spec fn pixel_index(pixels_per_scan_line: int, x: int, y: int) -> int {
    pixels_per_scan_line * y + x
}

/// `buf` after every pixel whose number satisfies `covered` has been set to
/// the memory-order colour `c`: the three colour bytes of such a pixel change,
/// every other byte (and the reserved fourth byte) keeps its value.
pub open spec fn paint(buf: Seq<u8>, covered: spec_fn(int) -> bool, c: (u8, u8, u8)) -> Seq<u8> {
    Seq::new(
        buf.len(),
        |i: int|
            if i % 4 < 3 && covered(i / 4) {
                channel(c, i % 4)
            } else {
                buf[i]
            },
    )
}

/// Painting with two regions that hold of the same pixels gives one buffer.
pub proof fn lemma_paint_same_region(
    buf: Seq<u8>,
    f: spec_fn(int) -> bool,
    g: spec_fn(int) -> bool,
    c: (u8, u8, u8),
)
    requires
        forall|p: int| #[trigger] f(p) == g(p),
    ensures
        paint(buf, f, c) == paint(buf, g, c),
{
    assert forall|i: int| 0 <= i < buf.len() implies paint(buf, f, c)[i] == paint(buf, g, c)[i] by {
        assert(f(i / 4) == g(i / 4));
    }
    assert(paint(buf, f, c) =~= paint(buf, g, c));
}

/// Column `col` (0 = leftmost) of a glyph row is set: the row's bit `7 - col`.
pub open spec fn glyph_bit(row: u8, col: int) -> bool {
    (row >> ((7 - col) as u32)) & 1u8 == 1u8
}

/// Shifting a row left by `col` moves column `col` to the top bit.
pub proof fn lemma_glyph_bit(row: u8, col: u32)
    requires
        col < 8,
    ensures
        ((row << col) & 0x80u8 != 0u8) == glyph_bit(row, col as int),
{
    assert(((row << col) & 0x80u8 != 0u8) == ((row >> ((7 - col) as u32)) & 1u8 == 1u8)) by (bit_vector)
        requires
            col < 8,
    ;
}

/// Within rows `ppsl` pixels apart, a column below `ppsl` and a row name
/// one pixel: no two such points share a pixel number.
pub proof fn lemma_pixel_unique(ppsl: int, a: int, b: int, c: int, d: int)
    requires
        0 <= b < ppsl,
        0 <= d < ppsl,
        0 <= a,
        0 <= c,
        ppsl * a + b == ppsl * c + d,
    ensures
        a == c,
        b == d,
{
    if a < c {
        assert(ppsl * a + ppsl <= ppsl * c) by (nonlinear_arith)
            requires
                a < c,
                0 < ppsl,
        ;
    } else if c < a {
        assert(ppsl * c + ppsl <= ppsl * a) by (nonlinear_arith)
            requires
                c < a,
                0 < ppsl,
        ;
    }
}

/// The bytes `4 * p .. 4 * p + 3` are exactly the colour bytes of pixel `p`.
pub proof fn lemma_pixel_bytes(i: int, p: int)
    requires
        0 <= i,
        0 <= p,
    ensures
        (i / 4 == p && i % 4 < 3) <==> (4 * p <= i < 4 * p + 3),
        4 * p <= i < 4 * p + 4 ==> i % 4 == i - 4 * p,
{
    assert((i / 4 == p && i % 4 < 3) <==> (4 * p <= i < 4 * p + 3)) by (nonlinear_arith)
        requires
            0 <= i,
            0 <= p,
    ;
    assert(4 * p <= i < 4 * p + 4 ==> i % 4 == i - 4 * p) by (nonlinear_arith)
        requires
            0 <= i,
            0 <= p,
    ;
}

/// Painting one pixel with three byte updates: the updated buffer is the
/// painted one.
pub proof fn lemma_paint_one(buf: Seq<u8>, p: int, c: (u8, u8, u8))
    requires
        0 <= p,
        4 * p + 3 <= buf.len(),
    ensures
        buf.update(4 * p, c.0).update(4 * p + 1, c.1).update(4 * p + 2, c.2)
            == paint(buf, |q: int| q == p, c),
{
    let lhs = buf.update(4 * p, c.0).update(4 * p + 1, c.1).update(4 * p + 2, c.2);
    let rhs = paint(buf, |q: int| q == p, c);
    assert forall|i: int| 0 <= i < buf.len() implies lhs[i] == rhs[i] by {
        lemma_pixel_bytes(i, p);
    }
    assert(lhs =~= rhs);
}

/// Painting twice with one colour paints the union of the two regions.
pub proof fn lemma_paint_union(
    buf: Seq<u8>,
    f: spec_fn(int) -> bool,
    g: spec_fn(int) -> bool,
    c: (u8, u8, u8),
)
    ensures
        paint(paint(buf, f, c), g, c) == paint(buf, |p: int| f(p) || g(p), c),
{
    assert(paint(paint(buf, f, c), g, c) =~= paint(buf, |p: int| f(p) || g(p), c));
}

/// Writing one pixel: its three colour bytes take the colour's bytes in
/// order, and every other byte of the buffer keeps its value.
pub proof fn pixel_write_frame(buf: Seq<u8>, p: int, c: (u8, u8, u8), i: int)
    requires
        0 <= p,
        0 <= i < buf.len(),
    ensures
        4 * p <= i < 4 * p + 3 ==> paint(buf, |q: int| q == p, c)[i] == channel(c, i - 4 * p),
        !(4 * p <= i < 4 * p + 3) ==> paint(buf, |q: int| q == p, c)[i] == buf[i],
{
    lemma_pixel_bytes(i, p);
}

/// The fourth, reserved byte of every pixel is never written.
pub proof fn paint_keeps_reserved_bytes(buf: Seq<u8>, f: spec_fn(int) -> bool, c: (u8, u8, u8), i: int)
    requires
        0 <= i < buf.len(),
        i % 4 == 3,
    ensures
        paint(buf, f, c)[i] == buf[i],
{
}

/// Drawing a region a second time with the same colour changes nothing.
pub proof fn paint_idempotent(buf: Seq<u8>, f: spec_fn(int) -> bool, c: (u8, u8, u8))
    ensures
        paint(paint(buf, f, c), f, c) == paint(buf, f, c),
{
    assert(paint(paint(buf, f, c), f, c) =~= paint(buf, f, c));
}

/// With one colour, the order in which two regions are drawn does not matter.
pub proof fn paint_commutes(
    buf: Seq<u8>,
    f: spec_fn(int) -> bool,
    g: spec_fn(int) -> bool,
    c: (u8, u8, u8),
)
    ensures
        paint(paint(buf, f, c), g, c) == paint(paint(buf, g, c), f, c),
{
    assert(paint(paint(buf, f, c), g, c) =~= paint(paint(buf, g, c), f, c));
}

/// Drawing over a region that contains an earlier one leaves no trace of
/// the earlier drawing, whatever its colour.
pub proof fn paint_later_wins(
    buf: Seq<u8>,
    f: spec_fn(int) -> bool,
    g: spec_fn(int) -> bool,
    c1: (u8, u8, u8),
    c2: (u8, u8, u8),
)
    requires
        forall|p: int| #[trigger] f(p) ==> g(p),
    ensures
        paint(paint(buf, f, c1), g, c2) == paint(buf, g, c2),
{
    assert forall|i: int| 0 <= i < buf.len() implies paint(paint(buf, f, c1), g, c2)[i] == paint(
        buf,
        g,
        c2,
    )[i] by {
        if f(i / 4) {
            assert(g(i / 4));
        }
    }
    assert(paint(paint(buf, f, c1), g, c2) =~= paint(buf, g, c2));
}

/// Drawing an empty region leaves the buffer as it was.
pub proof fn paint_nothing(buf: Seq<u8>, f: spec_fn(int) -> bool, c: (u8, u8, u8))
    requires
        forall|p: int| !#[trigger] f(p),
    ensures
        paint(buf, f, c) == buf,
{
    assert forall|i: int| 0 <= i < buf.len() implies paint(buf, f, c)[i] == buf[i] by {
        assert(!f(i / 4));
    }
    assert(paint(buf, f, c) =~= buf);
}

} // verus!
