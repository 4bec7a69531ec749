//! The font compiler: turns the text form of a bitmap font into the bytes of
//! a font table.
//!
//! The text form holds, among other lines, one line per glyph row, drawn
//! with `.` for a clear pixel and `*` or `@` for a set one. A run is a
//! maximal stretch of those three characters within a line. Every line that
//! holds at least one run becomes one output byte: each run gives one bit (0
//! when the run is the single character `.`, else 1) and the bits are read as
//! a binary number, first run most significant. Lines without runs give
//! nothing.

use vstd::prelude::*;
use vstd::slice::slice_subrange;
use vstd::string::StringSliceAdditionalSpecFns;

verus! {

/// The character `.`.
pub const DOT: u8 = 46;
/// The character `*`.
pub const STAR: u8 = 42;
/// The character `@`.
pub const AT: u8 = 64;
/// The line separator.
pub const NEWLINE: u8 = 10;

/// `c` is one of the characters that draw a bitmap: `.`, `*` or `@`.
pub open spec fn is_bitmap_char(c: u8) -> bool {
    c == DOT || c == STAR || c == AT
}

/// A run starts at position `i` of `line`.
pub open spec fn starts_run(line: Seq<u8>, i: int) -> bool {
    is_bitmap_char(line[i]) && (i == 0 || !is_bitmap_char(line[i - 1]))
}

/// The bit of the run that starts at position `i` of `line`: 0 when the run
/// is the single character `.`, else 1.
pub open spec fn run_bit(line: Seq<u8>, i: int) -> u8 {
    if line[i] == DOT && (i + 1 == line.len() || !is_bitmap_char(line[i + 1])) {
        0
    } else {
        1
    }
}

/// The bits of the runs that start before position `n` of `line`, in order.
pub open spec fn run_bits(line: Seq<u8>, n: int) -> Seq<u8>
    decreases n,
{
    if n <= 0 {
        seq![]
    } else if starts_run(line, n - 1) {
        run_bits(line, n - 1).push(run_bit(line, n - 1))
    } else {
        run_bits(line, n - 1)
    }
}

/// The bits of all runs of `line`, in order.
pub open spec fn line_bits(line: Seq<u8>) -> Seq<u8> {
    run_bits(line, line.len() as int)
}

/// `bits` read as a binary number, first element most significant:
/// each step doubles what came before and adds the next element.
pub open spec fn bits_value(bits: Seq<u8>) -> nat
    decreases bits.len(),
{
    if bits.len() == 0 {
        0
    } else {
        2 * bits_value(bits.drop_last()) + bits.last() as nat
    }
}

/// The pieces of `text` between line separators, in order; a text without
/// separators is one piece.
pub open spec fn split_lines(text: Seq<u8>) -> Seq<Seq<u8>>
    decreases text.len(),
{
    if text.len() == 0 {
        seq![seq![]]
    } else {
        let pieces = split_lines(text.drop_last());
        if text.last() == NEWLINE {
            pieces.push(seq![])
        } else {
            pieces.update(pieces.len() - 1, pieces.last().push(text.last()))
        }
    }
}

/// The bits of each of `lines` that holds a run, in order.
pub open spec fn bitmap_rows(lines: Seq<Seq<u8>>) -> Seq<Seq<u8>>
    decreases lines.len(),
{
    if lines.len() == 0 {
        seq![]
    } else if line_bits(lines.last()).len() > 0 {
        bitmap_rows(lines.drop_last()).push(line_bits(lines.last()))
    } else {
        bitmap_rows(lines.drop_last())
    }
}

/// The bit rows of the font text `text`.
pub open spec fn font_rows(text: Seq<u8>) -> Seq<Seq<u8>> {
    bitmap_rows(split_lines(text))
}

/// Every row's value fits in a byte.
pub open spec fn rows_fit(rows: Seq<Seq<u8>>) -> bool {
    forall|k: int| 0 <= k < rows.len() ==> #[trigger] bits_value(rows[k]) <= 255
}

/// The bytes of the rows: each row's value.
pub open spec fn rows_bytes(rows: Seq<Seq<u8>>) -> Seq<u8> {
    rows.map_values(|r: Seq<u8>| bits_value(r) as u8)
}

/// `split_lines` always yields at least one piece.
pub proof fn lemma_split_lines_nonempty(text: Seq<u8>)
    ensures
        split_lines(text).len() >= 1,
    decreases text.len(),
{
    if text.len() > 0 {
        lemma_split_lines_nonempty(text.drop_last());
    }
}

/// Reading on from the start `i` of a line up to `j`, without crossing a
/// separator, extends the last piece by the characters read.
proof fn lemma_split_lines_extend(text: Seq<u8>, i: int, j: int)
    requires
        0 <= i <= j <= text.len(),
        split_lines(text.take(i)).last() == Seq::<u8>::empty(),
        forall|k: int| i <= k < j ==> text[k] != NEWLINE,
    ensures
        split_lines(text.take(j)) == split_lines(text.take(i)).update(
            split_lines(text.take(i)).len() - 1,
            text.subrange(i, j),
        ),
    decreases j - i,
{
    lemma_split_lines_nonempty(text.take(i));
    let base = split_lines(text.take(i));
    if j == i {
        assert(text.subrange(i, j) =~= Seq::<u8>::empty());
        assert(base.update(base.len() - 1, text.subrange(i, j)) =~= base);
    } else {
        lemma_split_lines_extend(text, i, j - 1);
        assert(text.take(j).drop_last() =~= text.take(j - 1));
        assert(text.subrange(i, j - 1).push(text[j - 1]) =~= text.subrange(i, j));
        let p = split_lines(text.take(j - 1));
        assert(p.update(p.len() - 1, p.last().push(text[j - 1])) =~= base.update(
            base.len() - 1,
            text.subrange(i, j),
        ));
    }
}

/// The bits of a line, one run start at a time.
pub fn bitmap_bits(line: &[u8]) -> (bits: Vec<u8>)
    ensures
        bits@ == line_bits(line@),
        (forall|i: int| 0 <= i < line@.len() ==> #[trigger] line@[i] != 46 && line@[i] != 42 && line@[i]
            != 64) ==> bits@.len() == 0,
{
    proof {
        if forall|i: int| 0 <= i < line@.len() ==> #[trigger] line@[i] != 46 && line@[i] != 42 && line@[i]
            != 64 {
            only_dots_stars_and_ats_form_runs(line@);
        }
    }
    let mut bits: Vec<u8> = Vec::new();
    let mut i: usize = 0;
    while i < line.len()
        invariant
            i <= line@.len(),
            bits@ == run_bits(line@, i as int),
        decreases line@.len() - i,
    {
        if (line[i] == DOT || line[i] == STAR || line[i] == AT) && (i == 0 || !(line[i - 1] == DOT
            || line[i - 1] == STAR || line[i - 1] == AT)) {
            if line[i] == DOT && (i + 1 == line.len() || !(line[i + 1] == DOT || line[i + 1] == STAR
                || line[i + 1] == AT)) {
                bits.push(0);
            } else {
                bits.push(1);
            }
        }
        i = i + 1;
    }
    bits
}

/// A prefix of the bits is worth no more than all of them.
pub proof fn lemma_bits_value_prefix(bits: Seq<u8>, n: int)
    requires
        0 <= n <= bits.len(),
    ensures
        bits_value(bits.take(n)) <= bits_value(bits),
    decreases bits.len() - n,
{
    if n < bits.len() {
        lemma_bits_value_prefix(bits, n + 1);
        assert(bits.take(n + 1).drop_last() =~= bits.take(n));
    } else {
        assert(bits.take(n) =~= bits);
    }
}

/// The value of non-empty `bits` as a byte, as folding `2 * a + b` over them
/// gives it, or `None` when it does not fit in a byte.
pub fn bits_to_byte(bits: &[u8]) -> (byte: Option<u8>)
    requires
        bits@.len() > 0,
    ensures
        byte is Some <==> bits_value(bits@) <= 255,
        byte matches Some(b) ==> b == bits_value(bits@),
{
    let mut acc: u8 = 0;
    let mut k: usize = 0;
    while k < bits.len()
        invariant
            k <= bits@.len(),
            acc == bits_value(bits@.take(k as int)),
        decreases bits@.len() - k,
    {
        assert(bits@.take(k + 1).drop_last() =~= bits@.take(k as int));
        let next: u32 = 2 * (acc as u32) + (bits[k] as u32);
        if next > 255 {
            proof {
                lemma_bits_value_prefix(bits@, k + 1);
            }
            return None;
        }
        acc = next as u8;
        k = k + 1;
    }
    assert(bits@.take(k as int) =~= bits@);
    Some(acc)
}

/// The pieces of `a`, a separator, then `b` are the pieces of `a` followed
/// by those of `b`.
proof fn lemma_split_lines_concat(a: Seq<u8>, b: Seq<u8>)
    ensures
        split_lines(a + seq![NEWLINE] + b) == split_lines(a) + split_lines(b),
    decreases b.len(),
{
    let t = a + seq![NEWLINE] + b;
    if b.len() == 0 {
        assert(t.drop_last() =~= a);
        assert(split_lines(a).push(seq![]) =~= split_lines(a) + split_lines(b));
    } else {
        lemma_split_lines_concat(a, b.drop_last());
        lemma_split_lines_nonempty(b.drop_last());
        assert(t.drop_last() =~= a + seq![NEWLINE] + b.drop_last());
        let x = split_lines(a);
        let y = split_lines(b.drop_last());
        if b.last() == NEWLINE {
            assert((x + y).push(seq![]) =~= x + y.push(seq![]));
        } else {
            assert((x + y).update((x + y).len() - 1, (x + y).last().push(b.last())) =~= x + y.update(
                y.len() - 1,
                y.last().push(b.last()),
            ));
        }
    }
}

/// `bitmap_rows` of two runs of lines is the rows of each, one after the
/// other.
proof fn lemma_bitmap_rows_concat(x: Seq<Seq<u8>>, y: Seq<Seq<u8>>)
    ensures
        bitmap_rows(x + y) == bitmap_rows(x) + bitmap_rows(y),
    decreases y.len(),
{
    if y.len() == 0 {
        assert(x + y =~= x);
        assert(bitmap_rows(x) + bitmap_rows(y) =~= bitmap_rows(x));
    } else {
        lemma_bitmap_rows_concat(x, y.drop_last());
        assert((x + y).drop_last() =~= x + y.drop_last());
        assert((x + y).last() == y.last());
        if line_bits(y.last()).len() > 0 {
            assert((bitmap_rows(x) + bitmap_rows(y.drop_last())).push(line_bits(y.last())) =~= bitmap_rows(x)
                + bitmap_rows(y.drop_last()).push(line_bits(y.last())));
        }
    }
}

/// Font texts concatenate: compiling `a`, a line separator, then `b` gives
/// the rows of `a` followed by those of `b`, fits in bytes exactly when both
/// do, and gives the bytes of `a` followed by those of `b`.
pub proof fn font_text_concatenation(a: Seq<u8>, b: Seq<u8>)
    ensures
        font_rows(a + seq![NEWLINE] + b) == font_rows(a) + font_rows(b),
        rows_fit(font_rows(a + seq![NEWLINE] + b)) <==> rows_fit(font_rows(a)) && rows_fit(
            font_rows(b),
        ),
        rows_bytes(font_rows(a + seq![NEWLINE] + b)) == rows_bytes(font_rows(a)) + rows_bytes(
            font_rows(b),
        ),
{
    lemma_split_lines_concat(a, b);
    lemma_bitmap_rows_concat(split_lines(a), split_lines(b));
    let ra = font_rows(a);
    let rb = font_rows(b);
    let r = ra + rb;
    assert(rows_bytes(r) =~= rows_bytes(ra) + rows_bytes(rb));
    if rows_fit(r) {
        assert forall|k: int| 0 <= k < ra.len() implies #[trigger] bits_value(ra[k]) <= 255 by {
            assert(r[k] == ra[k]);
        }
        assert forall|k: int| 0 <= k < rb.len() implies #[trigger] bits_value(rb[k]) <= 255 by {
            assert(r[ra.len() + k] == rb[k]);
        }
    }
    if rows_fit(ra) && rows_fit(rb) {
        assert forall|k: int| 0 <= k < r.len() implies #[trigger] bits_value(r[k]) <= 255 by {
            if k < ra.len() {
                assert(r[k] == ra[k]);
            } else {
                assert(r[k] == rb[k - ra.len()]);
            }
        }
    }
}

/// A text without bitmap characters splits into pieces without them.
proof fn lemma_split_lines_plain(text: Seq<u8>)
    requires
        forall|i: int| 0 <= i < text.len() ==> !is_bitmap_char(#[trigger] text[i]),
    ensures
        forall|k: int, i: int|
            0 <= k < split_lines(text).len() && 0 <= i < split_lines(text)[k].len()
                ==> !is_bitmap_char(#[trigger] split_lines(text)[k][i]),
    decreases text.len(),
{
    if text.len() > 0 {
        let prev = text.drop_last();
        assert forall|i: int| 0 <= i < prev.len() implies !is_bitmap_char(#[trigger] prev[i]) by {
            assert(prev[i] == text[i]);
        }
        lemma_split_lines_plain(prev);
        lemma_split_lines_nonempty(prev);
        assert(!is_bitmap_char(text[text.len() - 1]));
    }
}

/// A line without bitmap characters has no runs.
proof fn lemma_run_bits_plain(line: Seq<u8>, n: int)
    requires
        0 <= n <= line.len(),
        forall|i: int| 0 <= i < line.len() ==> !is_bitmap_char(#[trigger] line[i]),
    ensures
        run_bits(line, n).len() == 0,
    decreases n,
{
    if n > 0 {
        lemma_run_bits_plain(line, n - 1);
        assert(!is_bitmap_char(line[n - 1]));
    }
}

/// Lines without runs give no rows.
proof fn lemma_bitmap_rows_plain(lines: Seq<Seq<u8>>)
    requires
        forall|k: int| 0 <= k < lines.len() ==> #[trigger] line_bits(lines[k]).len() == 0,
    ensures
        bitmap_rows(lines).len() == 0,
    decreases lines.len(),
{
    if lines.len() > 0 {
        let prev = lines.drop_last();
        assert forall|k: int| 0 <= k < prev.len() implies #[trigger] line_bits(prev[k]).len() == 0 by {
            assert(prev[k] == lines[k]);
        }
        lemma_bitmap_rows_plain(prev);
        assert(line_bits(lines[lines.len() - 1]).len() == 0);
    }
}

/// A text without any `.`, `*` or `@` compiles to nothing; so such lines
/// (a glyph's heading, say) can stand anywhere in a font text without
/// changing the table.
pub proof fn text_without_bitmap_chars_gives_no_rows(text: Seq<u8>)
    requires
        forall|i: int| 0 <= i < text.len() ==> !is_bitmap_char(#[trigger] text[i]),
    ensures
        font_rows(text) == Seq::<Seq<u8>>::empty(),
{
    let lines = split_lines(text);
    lemma_split_lines_plain(text);
    assert forall|k: int| 0 <= k < lines.len() implies #[trigger] line_bits(lines[k]).len() == 0 by {
        assert forall|i: int| 0 <= i < lines[k].len() implies !is_bitmap_char(#[trigger] lines[k][i]) by {
            assert(!is_bitmap_char(split_lines(text)[k][i]));
        }
        lemma_run_bits_plain(lines[k], lines[k].len() as int);
    }
    lemma_bitmap_rows_plain(lines);
    assert(font_rows(text) =~= Seq::<Seq<u8>>::empty());
}

/// Run bits are 0 or 1.
proof fn lemma_run_bits_binary(line: Seq<u8>, n: int)
    ensures
        forall|i: int| 0 <= i < run_bits(line, n).len() ==> #[trigger] run_bits(line, n)[i] <= 1,
    decreases n,
{
    if n > 0 {
        lemma_run_bits_binary(line, n - 1);
        let prev = run_bits(line, n - 1);
        assert forall|i: int| 0 <= i < run_bits(line, n).len() implies #[trigger] run_bits(line, n)[i] <= 1 by {
            if i < prev.len() {
                assert(prev[i] <= 1);
            }
        }
    }
}

/// The bits of every bitmap row are 0 or 1.
proof fn lemma_bitmap_rows_binary(lines: Seq<Seq<u8>>)
    ensures
        forall|k: int, i: int|
            0 <= k < bitmap_rows(lines).len() && 0 <= i < bitmap_rows(lines)[k].len()
                ==> #[trigger] bitmap_rows(lines)[k][i] <= 1,
    decreases lines.len(),
{
    if lines.len() > 0 {
        lemma_bitmap_rows_binary(lines.drop_last());
        lemma_run_bits_binary(lines.last(), lines.last().len() as int);
        let prev = bitmap_rows(lines.drop_last());
        let last = line_bits(lines.last());
        assert forall|k: int, i: int|
            0 <= k < bitmap_rows(lines).len() && 0 <= i < bitmap_rows(lines)[k].len()
                implies #[trigger] bitmap_rows(lines)[k][i] <= 1 by {
            if k < prev.len() {
                assert(prev[k][i] <= 1);
            } else {
                assert(last[i] <= 1);
            }
        }
    }
}

/// `2` to the power `n`.
pub open spec fn exp2(n: nat) -> nat
    decreases n,
{
    if n == 0 {
        1
    } else {
        2 * exp2((n - 1) as nat)
    }
}

/// `n` binary digits are worth less than `2` to the power `n`.
proof fn lemma_bits_value_bound(bits: Seq<u8>)
    requires
        forall|i: int| 0 <= i < bits.len() ==> #[trigger] bits[i] <= 1,
    ensures
        bits_value(bits) < exp2(bits.len()),
    decreases bits.len(),
{
    if bits.len() > 0 {
        let prev = bits.drop_last();
        assert forall|i: int| 0 <= i < prev.len() implies #[trigger] prev[i] <= 1 by {
            assert(prev[i] == bits[i]);
        }
        lemma_bits_value_bound(prev);
        assert(bits[bits.len() - 1] <= 1);
    }
}

/// `2` to the power `n` grows with `n`.
proof fn lemma_exp2_monotone(m: nat, n: nat)
    requires
        m <= n,
    ensures
        exp2(m) <= exp2(n),
    decreases n - m,
{
    if m < n {
        lemma_exp2_monotone(m, (n - 1) as nat);
    }
}

/// Bits read most significant first: the value of `a` followed by `b` is
/// the value of `a` shifted left by the length of `b`, plus the value of
/// `b`; a single bit is worth itself.
pub proof fn bits_read_most_significant_first(a: Seq<u8>, b: Seq<u8>, bit: u8)
    ensures
        bits_value(a + b) == bits_value(a) * exp2(b.len()) + bits_value(b),
        bits_value(seq![bit]) == bit,
    decreases b.len(),
{
    let one = seq![bit];
    assert(one.drop_last() =~= Seq::<u8>::empty());
    assert(bits_value(Seq::<u8>::empty()) == 0);
    assert(one.last() == bit);
    assert(bits_value(one) == 2 * bits_value(one.drop_last()) + one.last() as nat);
    if b.len() == 0 {
        assert(a + b =~= a);
        assert(exp2(0) == 1);
    } else {
        let b0 = b.drop_last();
        bits_read_most_significant_first(a, b0, bit);
        assert((a + b).drop_last() =~= a + b0);
        assert((a + b).last() == b.last());
        let va = bits_value(a);
        let vb0 = bits_value(b0);
        let e = exp2(b0.len());
        assert(exp2(b.len()) == 2 * e);
        assert(bits_value(a + b) == 2 * bits_value(a + b0) + b.last() as nat);
        assert(bits_value(b) == 2 * vb0 + b.last() as nat);
        assert(bits_value(a + b0) == va * e + vb0);
        assert(va * (2 * e) == 2 * (va * e)) by (nonlinear_arith);
    }
}

/// A font text whose bitmap lines hold at most eight runs each always
/// compiles: each line's value fits in a byte.
pub proof fn rows_of_eight_runs_fit(text: Seq<u8>)
    requires
        forall|k: int| 0 <= k < font_rows(text).len() ==> #[trigger] font_rows(text)[k].len() <= 8,
    ensures
        rows_fit(font_rows(text)),
{
    let rows = font_rows(text);
    lemma_bitmap_rows_binary(split_lines(text));
    assert(exp2(8) == 256) by {
        reveal_with_fuel(exp2, 9);
    }
    assert forall|k: int| 0 <= k < rows.len() implies #[trigger] bits_value(rows[k]) <= 255 by {
        assert forall|i: int| 0 <= i < rows[k].len() implies #[trigger] rows[k][i] <= 1 by {
            assert(font_rows(text)[k][i] <= 1);
        }
        lemma_bits_value_bound(rows[k]);
        lemma_exp2_monotone(rows[k].len(), 8);
    }
}

/// `a` and `b` draw the same: they agree everywhere, except that where one
/// holds `*` or `@` the other may hold the other of the two.
pub open spec fn same_drawing(a: Seq<u8>, b: Seq<u8>) -> bool {
    &&& a.len() == b.len()
    &&& forall|i: int|
        0 <= i < a.len() ==> (#[trigger] a[i] == b[i] || ((a[i] == STAR || a[i] == AT) && (b[i]
            == STAR || b[i] == AT)))
}

/// `text` with every `@` written as `*`.
pub open spec fn ats_as_stars(text: Seq<u8>) -> Seq<u8> {
    text.map_values(|c: u8| if c == AT { STAR } else { c })
}

/// `text` with every `*` written as `@`.
pub open spec fn stars_as_ats(text: Seq<u8>) -> Seq<u8> {
    text.map_values(|c: u8| if c == STAR { AT } else { c })
}

/// Lines that draw the same have the same runs and bits.
proof fn lemma_run_bits_same_drawing(a: Seq<u8>, b: Seq<u8>, n: int)
    requires
        same_drawing(a, b),
        n <= a.len(),
    ensures
        run_bits(a, n) == run_bits(b, n),
    decreases n,
{
    if n > 0 {
        lemma_run_bits_same_drawing(a, b, n - 1);
        let i = n - 1;
        assert(a[i] == b[i] || ((a[i] == STAR || a[i] == AT) && (b[i] == STAR || b[i] == AT)));
        if i > 0 {
            assert(a[i - 1] == b[i - 1] || ((a[i - 1] == STAR || a[i - 1] == AT) && (b[i - 1] == STAR
                || b[i - 1] == AT)));
        }
        if i + 1 < a.len() {
            assert(a[i + 1] == b[i + 1] || ((a[i + 1] == STAR || a[i + 1] == AT) && (b[i + 1] == STAR
                || b[i + 1] == AT)));
        }
        assert(starts_run(a, i) == starts_run(b, i));
        assert(run_bit(a, i) == run_bit(b, i));
    }
}

/// Texts that draw the same split into pieces that draw the same.
proof fn lemma_split_lines_same_drawing(a: Seq<u8>, b: Seq<u8>)
    requires
        same_drawing(a, b),
    ensures
        split_lines(a).len() == split_lines(b).len(),
        forall|k: int|
            0 <= k < split_lines(a).len() ==> same_drawing(
                #[trigger] split_lines(a)[k],
                split_lines(b)[k],
            ),
    decreases a.len(),
{
    if a.len() > 0 {
        let a0 = a.drop_last();
        let b0 = b.drop_last();
        assert forall|i: int| 0 <= i < a0.len() implies (#[trigger] a0[i] == b0[i] || ((a0[i] == STAR
            || a0[i] == AT) && (b0[i] == STAR || b0[i] == AT))) by {
            assert(a0[i] == a[i] && b0[i] == b[i]);
            assert(a[i] == b[i] || ((a[i] == STAR || a[i] == AT) && (b[i] == STAR || b[i] == AT)));
        }
        lemma_split_lines_same_drawing(a0, b0);
        lemma_split_lines_nonempty(a0);
        lemma_split_lines_nonempty(b0);
        let last = a.len() - 1;
        assert(a[last] == b[last] || ((a[last] == STAR || a[last] == AT) && (b[last] == STAR
            || b[last] == AT)));
        let pa = split_lines(a0);
        let pb = split_lines(b0);
        if a.last() == NEWLINE {
            assert(b.last() == NEWLINE);
            assert forall|k: int| 0 <= k < split_lines(a).len() implies same_drawing(
                #[trigger] split_lines(a)[k],
                split_lines(b)[k],
            ) by {
                if k < pa.len() {
                    assert(same_drawing(pa[k], pb[k]));
                }
            }
        } else {
            assert(b.last() != NEWLINE);
            let la = pa.last().push(a.last());
            let lb = pb.last().push(b.last());
            assert(same_drawing(pa[pa.len() - 1], pb[pb.len() - 1]));
            assert forall|i: int| 0 <= i < la.len() implies (#[trigger] la[i] == lb[i] || ((la[i] == STAR
                || la[i] == AT) && (lb[i] == STAR || lb[i] == AT))) by {
                if i < la.len() - 1 {
                    assert(la[i] == pa.last()[i] && lb[i] == pb.last()[i]);
                    assert(pa.last()[i] == pb.last()[i] || ((pa.last()[i] == STAR || pa.last()[i] == AT)
                        && (pb.last()[i] == STAR || pb.last()[i] == AT)));
                }
            }
            assert forall|k: int| 0 <= k < split_lines(a).len() implies same_drawing(
                #[trigger] split_lines(a)[k],
                split_lines(b)[k],
            ) by {
                if k < pa.len() - 1 {
                    assert(same_drawing(pa[k], pb[k]));
                }
            }
        }
    }
}

/// Lines that pairwise draw the same give the same rows.
proof fn lemma_bitmap_rows_same_drawing(x: Seq<Seq<u8>>, y: Seq<Seq<u8>>)
    requires
        x.len() == y.len(),
        forall|k: int| 0 <= k < x.len() ==> same_drawing(#[trigger] x[k], y[k]),
    ensures
        bitmap_rows(x) == bitmap_rows(y),
    decreases x.len(),
{
    if x.len() > 0 {
        let x0 = x.drop_last();
        let y0 = y.drop_last();
        assert forall|k: int| 0 <= k < x0.len() implies same_drawing(#[trigger] x0[k], y0[k]) by {
            assert(same_drawing(x[k], y[k]));
        }
        lemma_bitmap_rows_same_drawing(x0, y0);
        assert(same_drawing(x[x.len() - 1], y[y.len() - 1]));
        lemma_run_bits_same_drawing(x.last(), y.last(), x.last().len() as int);
    }
}

/// Font texts that draw the same compile to the same rows: only whether a
/// run is the single character `.` matters, so `*` and `@` are
/// interchangeable.
pub proof fn same_drawing_same_rows(a: Seq<u8>, b: Seq<u8>)
    requires
        same_drawing(a, b),
    ensures
        font_rows(a) == font_rows(b),
{
    lemma_split_lines_same_drawing(a, b);
    lemma_bitmap_rows_same_drawing(split_lines(a), split_lines(b));
}

/// Writing every `@` as `*`, or every `*` as `@`, leaves the compiled font
/// as it was.
pub proof fn stars_and_ats_are_interchangeable(text: Seq<u8>)
    ensures
        font_rows(ats_as_stars(text)) == font_rows(text),
        font_rows(stars_as_ats(text)) == font_rows(text),
{
    let s = ats_as_stars(text);
    let t = stars_as_ats(text);
    assert forall|i: int| 0 <= i < s.len() implies (#[trigger] s[i] == text[i] || ((s[i] == STAR
        || s[i] == AT) && (text[i] == STAR || text[i] == AT))) by {}
    assert forall|i: int| 0 <= i < t.len() implies (#[trigger] t[i] == text[i] || ((t[i] == STAR
        || t[i] == AT) && (text[i] == STAR || text[i] == AT))) by {}
    same_drawing_same_rows(s, text);
    same_drawing_same_rows(t, text);
}

/// A line without any `.` (46), `*` (42) or `@` (64) gives no bits: no
/// other character forms a run.
pub proof fn only_dots_stars_and_ats_form_runs(line: Seq<u8>)
    requires
        forall|i: int| 0 <= i < line.len() ==> #[trigger] line[i] != 46 && line[i] != 42 && line[i] != 64,
    ensures
        line_bits(line) == Seq::<u8>::empty(),
{
    assert forall|i: int| 0 <= i < line.len() implies !is_bitmap_char(#[trigger] line[i]) by {
        assert(line[i] != 46 && line[i] != 42 && line[i] != 64);
    }
    lemma_run_bits_plain(line, line.len() as int);
    assert(line_bits(line) =~= Seq::<u8>::empty());
}

/// A font text without any `.` (46), `*` (42) or `@` (64) compiles to no
/// rows, whatever other characters (a glyph's heading such as `0x23 '#'`)
/// it holds.
pub proof fn text_without_dots_stars_or_ats_gives_no_rows(text: Seq<u8>)
    requires
        forall|i: int| 0 <= i < text.len() ==> #[trigger] text[i] != 46 && text[i] != 42 && text[i] != 64,
    ensures
        font_rows(text) == Seq::<Seq<u8>>::empty(),
{
    assert forall|i: int| 0 <= i < text.len() implies !is_bitmap_char(#[trigger] text[i]) by {
        assert(text[i] != 46 && text[i] != 42 && text[i] != 64);
    }
    text_without_bitmap_chars_gives_no_rows(text);
}

/// The bits of a line made only of the drawing characters.
proof fn lemma_run_bits_one_run(line: Seq<u8>, n: int)
    requires
        1 <= n <= line.len(),
        forall|i: int| 0 <= i < line.len() ==> #[trigger] line[i] == 46 || line[i] == 42 || line[i] == 64,
    ensures
        run_bits(line, n) == seq![run_bit(line, 0)],
    decreases n,
{
    assert(line[0] == 46 || line[0] == 42 || line[0] == 64);
    if n > 1 {
        lemma_run_bits_one_run(line, n - 1);
        assert(line[n - 2] == 46 || line[n - 2] == 42 || line[n - 2] == 64);
        assert(!starts_run(line, n - 1));
    } else {
        assert(run_bits(line, 0) =~= Seq::<u8>::empty());
        assert(run_bits(line, 1) =~= seq![run_bit(line, 0)]);
    }
}

/// A non-empty line made only of `.` (46), `*` (42) and `@` (64) is one run
/// and gives one bit: 0 when the line is the single character `.`, else 1.
pub proof fn a_line_of_drawing_characters_is_one_bit(line: Seq<u8>)
    requires
        line.len() >= 1,
        forall|i: int| 0 <= i < line.len() ==> #[trigger] line[i] == 46 || line[i] == 42 || line[i] == 64,
    ensures
        line_bits(line) == seq![if line == seq![46u8] { 0u8 } else { 1u8 }],
{
    lemma_run_bits_one_run(line, line.len() as int);
    if line.len() > 1 {
        assert(line[1] == 46 || line[1] == 42 || line[1] == 64);
        assert(line != seq![46u8]);
    } else if line[0] == 46 {
        assert(line =~= seq![46u8]);
    } else {
        assert(line != seq![46u8]);
    }
}

/// The runs of `a` come before a separator `c`, those of `b` after it.
proof fn lemma_run_bits_split(a: Seq<u8>, c: u8, b: Seq<u8>, n: int)
    requires
        c != 46 && c != 42 && c != 64,
        0 <= n <= a.len() + 1 + b.len(),
    ensures
        n <= a.len() ==> run_bits(a + seq![c] + b, n) == run_bits(a, n),
        n > a.len() ==> run_bits(a + seq![c] + b, n) == run_bits(a, a.len() as int) + run_bits(
            b,
            n - a.len() - 1,
        ),
    decreases n,
{
    let t = a + seq![c] + b;
    let la = a.len() as int;
    if n > 0 {
        lemma_run_bits_split(a, c, b, n - 1);
        let i = n - 1;
        if i < la {
            assert(t[i] == a[i]);
            if i > 0 {
                assert(t[i - 1] == a[i - 1]);
            }
            if i + 1 < la {
                assert(t[i + 1] == a[i + 1]);
            } else {
                assert(t[i + 1] == c);
            }
            assert(starts_run(t, i) == starts_run(a, i));
            assert(run_bit(t, i) == run_bit(a, i));
        } else if i == la {
            assert(t[i] == c);
            assert(!starts_run(t, i));
            assert(run_bits(b, 0) =~= Seq::<u8>::empty());
            assert(run_bits(a, la) + run_bits(b, 0) =~= run_bits(a, la));
        } else {
            let j = i - la - 1;
            assert(t[i] == b[j]);
            if j > 0 {
                assert(t[i - 1] == b[j - 1]);
            } else {
                assert(t[i - 1] == c);
            }
            if j + 1 < b.len() {
                assert(t[i + 1] == b[j + 1]);
            }
            assert(starts_run(t, i) == starts_run(b, j));
            assert(run_bit(t, i) == run_bit(b, j));
            if starts_run(b, j) {
                assert(run_bits(a, la) + run_bits(b, j).push(run_bit(b, j)) =~= (run_bits(a, la)
                    + run_bits(b, j)).push(run_bit(b, j)));
            }
        }
    }
}

/// Any character other than `.` (46), `*` (42) and `@` (64) separates runs:
/// the bits of `a`, such a character, then `b` are those of `a` followed by
/// those of `b`.
pub proof fn other_characters_separate_runs(a: Seq<u8>, c: u8, b: Seq<u8>)
    requires
        c != 46 && c != 42 && c != 64,
    ensures
        line_bits(a + seq![c] + b) == line_bits(a) + line_bits(b),
{
    lemma_run_bits_split(a, c, b, (a.len() + 1 + b.len()) as int);
}

/// The contents of a vector of rows.
pub open spec fn rows_view(rows: Seq<Vec<u8>>) -> Seq<Seq<u8>> {
    rows.map_values(|r: Vec<u8>| r@)
}

/// Every row of `bitmap_rows` holds at least one bit.
pub proof fn lemma_bitmap_rows_nonempty(lines: Seq<Seq<u8>>)
    ensures
        forall|k: int|
            0 <= k < bitmap_rows(lines).len() ==> #[trigger] bitmap_rows(lines)[k].len() > 0,
    decreases lines.len(),
{
    if lines.len() > 0 {
        lemma_bitmap_rows_nonempty(lines.drop_last());
        let prev = bitmap_rows(lines.drop_last());
        assert forall|k: int| 0 <= k < bitmap_rows(lines).len() implies #[trigger] bitmap_rows(
            lines,
        )[k].len() > 0 by {
            if k < prev.len() {
                assert(prev[k].len() > 0);
            }
        }
    }
}

/// The bit rows of the font text `font`: the bits of every line that holds a
/// run, in order.
pub fn font_bitmap_rows(font: &str) -> (rows: Vec<Vec<u8>>)
    ensures
        rows_view(rows@) == font_rows(font.spec_bytes()),
{
    let text: &[u8] = font.as_bytes();
    let mut rows: Vec<Vec<u8>> = Vec::new();
    let mut line_start: usize = 0;
    let mut k: usize = 0;
    proof {
        assert(text@.take(0) =~= Seq::<u8>::empty());
        assert(split_lines(text@.take(0)).drop_last() =~= Seq::<Seq<u8>>::empty());
    }
    while k < text.len()
        invariant
            line_start <= k <= text@.len(),
            forall|m: int| line_start <= m < k ==> text@[m] != NEWLINE,
            split_lines(text@.take(line_start as int)).last() == Seq::<u8>::empty(),
            rows_view(rows@) == bitmap_rows(split_lines(text@.take(line_start as int)).drop_last()),
        decreases text@.len() - k,
    {
        if text[k] == NEWLINE {
            let line = slice_subrange(text, line_start, k);
            let bits = bitmap_bits(line);
            proof {
                let base = split_lines(text@.take(line_start as int));
                lemma_split_lines_nonempty(text@.take(line_start as int));
                lemma_split_lines_extend(text@, line_start as int, k as int);
                assert(text@.take(k + 1).drop_last() =~= text@.take(k as int));
                assert(split_lines(text@.take(k + 1)).drop_last() =~= split_lines(text@.take(k as int)));
                assert(split_lines(text@.take(k as int)) =~= base.drop_last().push(line@));
                assert(split_lines(text@.take(k as int)).drop_last() =~= base.drop_last());
            }
            if bits.len() > 0 {
                let ghost old_rows = rows@;
                rows.push(bits);
                assert(rows_view(rows@) =~= rows_view(old_rows).push(line_bits(line@)));
            }
            line_start = k + 1;
        }
        k = k + 1;
    }
    let line = slice_subrange(text, line_start, k);
    let bits = bitmap_bits(line);
    proof {
        let base = split_lines(text@.take(line_start as int));
        lemma_split_lines_nonempty(text@.take(line_start as int));
        lemma_split_lines_extend(text@, line_start as int, k as int);
        assert(text@.take(k as int) =~= text@);
        assert(split_lines(text@) =~= base.drop_last().push(line@));
        assert(split_lines(text@).drop_last() =~= base.drop_last());
    }
    if bits.len() > 0 {
        let ghost old_rows = rows@;
        rows.push(bits);
        assert(rows_view(rows@) =~= rows_view(old_rows).push(line_bits(line@)));
    }
    rows
}

/// Compiles the font text `font` into a font table: one byte per line that
/// holds a run, the value of that line's bits. `None` when some line's value
/// does not fit in a byte.
pub fn compile(font: &str) -> (table: Option<Vec<u8>>)
    ensures
        table is Some <==> rows_fit(font_rows(font.spec_bytes())),
        table matches Some(bytes) ==> bytes@ == rows_bytes(font_rows(font.spec_bytes())),
        (forall|i: int|
            0 <= i < font.spec_bytes().len() ==> #[trigger] font.spec_bytes()[i] != 46
                && font.spec_bytes()[i] != 42 && font.spec_bytes()[i] != 64) ==> (table matches Some(bytes)
            && bytes@.len() == 0),
{
    proof {
        if forall|i: int|
            0 <= i < font.spec_bytes().len() ==> #[trigger] font.spec_bytes()[i] != 46
                && font.spec_bytes()[i] != 42 && font.spec_bytes()[i] != 64 {
            text_without_dots_stars_or_ats_gives_no_rows(font.spec_bytes());
        }
    }
    let rows = font_bitmap_rows(font);
    let ghost spec_rows = font_rows(font.spec_bytes());
    proof {
        lemma_bitmap_rows_nonempty(split_lines(font.spec_bytes()));
    }
    let mut ret: Vec<u8> = Vec::new();
    let mut k: usize = 0;
    while k < rows.len()
        invariant
            k <= rows@.len(),
            rows_view(rows@) == spec_rows,
            spec_rows == font_rows(font.spec_bytes()),
            forall|m: int| 0 <= m < spec_rows.len() ==> #[trigger] spec_rows[m].len() > 0,
            forall|m: int| 0 <= m < k ==> #[trigger] bits_value(spec_rows[m]) <= 255,
            ret@ == rows_bytes(spec_rows.take(k as int)),
        decreases rows@.len() - k,
    {
        assert(rows[k as int]@ == spec_rows[k as int]);
        match bits_to_byte(rows[k].as_slice()) {
            None => {
                assert(k < spec_rows.len());
                assert(!(bits_value(spec_rows[k as int]) <= 255));
                assert(!rows_fit(spec_rows));
                proof {
                    if forall|i: int|
                        0 <= i < font.spec_bytes().len() ==> #[trigger] font.spec_bytes()[i] != 46
                            && font.spec_bytes()[i] != 42 && font.spec_bytes()[i] != 64 {
                        text_without_dots_stars_or_ats_gives_no_rows(font.spec_bytes());
                    }
                }
                return None;
            },
            Some(byte) => {
                ret.push(byte);
                assert(rows_bytes(spec_rows.take(k + 1)) =~= rows_bytes(spec_rows.take(k as int)).push(
                    byte,
                ));
            },
        }
        k = k + 1;
    }
    assert(spec_rows.take(k as int) =~= spec_rows);
    Some(ret)
}

} // verus!
