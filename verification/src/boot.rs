//! The computations of the UEFI boot loader: where the kernel's entry point
//! is, how many pages the kernel file needs, and what each entry of the
//! firmware's memory map says.

use vstd::prelude::*;
use vstd::slice::slice_subrange;
use byteorder::{ByteOrder, LittleEndian};
use uefi::mem::memory_map::MemoryMapKey;

verus! {

/// The firmware's key of one state of the memory map, carried through
/// unread.
#[verifier::external_type_specification]
#[verifier::external_body]
pub struct ExMemoryMapKey(uefi::mem::memory_map::MemoryMapKey);

/// The value of `bytes` read as a little-endian unsigned number.
pub open spec fn le_value(bytes: Seq<u8>) -> nat
    decreases bytes.len(),
{
    if bytes.len() == 0 {
        0
    } else {
        bytes[0] as nat + 256 * le_value(bytes.drop_first())
    }
}

/// `byteorder`'s `LittleEndian::read_u64`: the first eight bytes of `buf`
/// read as a little-endian `u64`. It panics on fewer than eight bytes.
#[verifier::external_body]
fn read_u64_le(buf: &[u8]) -> (r: u64)
    requires
        buf@.len() >= 8,
    ensures
        r as nat == le_value(buf@.take(8)),
{
    LittleEndian::read_u64(buf)
}

/// `byteorder`'s `LittleEndian::read_u32`: the first four bytes of `buf`
/// read as a little-endian `u32`. It panics on fewer than four bytes.
#[verifier::external_body]
fn read_u32_le(buf: &[u8]) -> (r: u32)
    requires
        buf@.len() >= 4,
    ensures
        r as nat == le_value(buf@.take(4)),
{
    LittleEndian::read_u32(buf)
}

/// Offset of the entry-point address in the header of an ELF64 file.
pub const ENTRY_POINT_OFFSET: usize = 24;

/// The address at which the kernel starts: the little-endian `u64` at
/// `ENTRY_POINT_OFFSET` of the loaded kernel image `image`.
pub fn kernel_entry_point(image: &[u8]) -> (entry: u64)
    requires
        image@.len() >= ENTRY_POINT_OFFSET + 8,
    ensures
        entry as nat == le_value(image@.subrange(ENTRY_POINT_OFFSET as int, ENTRY_POINT_OFFSET + 8)),
{
    let field = slice_subrange(image, ENTRY_POINT_OFFSET, ENTRY_POINT_OFFSET + 8);
    assert(field@.take(8) =~= field@);
    read_u64_le(field)
}

/// Size of a UEFI page in bytes.
pub const PAGE_SIZE: u64 = 0x1000;

/// The number of pages that hold `file_size` bytes: `file_size` divided by
/// the page size, rounded up.
pub fn pages_for_file(file_size: u64) -> (pages: u64)
    requires
        file_size + 0xfff <= u64::MAX,
    ensures
        pages == (file_size + 0xfff) / 0x1000,
        pages * PAGE_SIZE >= file_size,
        pages == 0 || (pages - 1) * PAGE_SIZE < file_size,
{
    let pages = (file_size + 0xfff) / 0x1000;
    assert(pages * PAGE_SIZE >= file_size && (pages == 0 || (pages - 1) * PAGE_SIZE < file_size))
        by (nonlinear_arith)
        requires
            pages == (file_size + 0xfff) / 0x1000,
    ;
    pages
}

/// Bytes that a memory descriptor occupies: its type (four bytes and four
/// of padding), physical start, virtual start, page count and attributes.
pub const MEMORY_DESCRIPTOR_LEN: usize = 40;

/// One line of the saved memory map: the descriptor's position in the map,
/// its type, physical start address, number of pages and attribute bits.
#[derive(Clone, Copy, PartialEq, Eq, Debug)]
pub struct MemoryDescriptorRow {
    pub index: usize,
    pub ty: u32,
    pub phys_start: u64,
    pub page_count: u64,
    pub attribute: u64,
}

/// The row that the descriptor held in `bytes` (at least
/// `MEMORY_DESCRIPTOR_LEN` of them) gives at position `index`.
pub open spec fn decode_descriptor(index: int, bytes: Seq<u8>) -> MemoryDescriptorRow {
    MemoryDescriptorRow {
        index: index as usize,
        ty: le_value(bytes.subrange(0, 4)) as u32,
        phys_start: le_value(bytes.subrange(8, 16)) as u64,
        page_count: le_value(bytes.subrange(24, 32)) as u64,
        attribute: le_value(bytes.subrange(32, 40)) as u64,
    }
}

/// The rows of the memory map `buf` cut into pieces of `size` bytes (the
/// last piece may be shorter), numbered from `index` on. A piece whose first
/// byte is zero gives no row, nor does a piece too short to hold a
/// descriptor; every other piece gives the descriptor it holds.
pub open spec fn descriptor_rows(buf: Seq<u8>, size: nat, index: nat) -> Seq<MemoryDescriptorRow>
    decreases buf.len(),
{
    if buf.len() == 0 || size == 0 {
        seq![]
    } else {
        let n = if size < buf.len() {
            size as int
        } else {
            buf.len() as int
        };
        let rest = descriptor_rows(buf.skip(n), size, index + 1);
        if buf[0] != 0 && n >= MEMORY_DESCRIPTOR_LEN {
            seq![decode_descriptor(index as int, buf.take(n))] + rest
        } else {
            rest
        }
    }
}

/// The little-endian `u32` in the four bytes of `buf` from `s` on.
pub open spec fn u32_at(buf: Seq<u8>, s: int) -> int {
    buf[s] + 0x100 * buf[s + 1] + 0x1_0000 * buf[s + 2] + 0x100_0000 * buf[s + 3]
}

/// The little-endian `u64` in the eight bytes of `buf` from `s` on.
pub open spec fn u64_at(buf: Seq<u8>, s: int) -> int {
    u32_at(buf, s) + 0x1_0000_0000 * u32_at(buf, s + 4)
}

/// Four bytes read little-endian.
proof fn lemma_le_value_4(b: Seq<u8>)
    requires
        b.len() == 4,
    ensures
        le_value(b) == u32_at(b, 0),
{
    let b1 = b.drop_first();
    let b2 = b1.drop_first();
    let b3 = b2.drop_first();
    let b4 = b3.drop_first();
    assert(b4.len() == 0);
    assert(le_value(b3) == b[3] + 256 * le_value(b4));
    assert(le_value(b2) == b[2] + 256 * le_value(b3));
    assert(le_value(b1) == b[1] + 256 * le_value(b2));
    assert(le_value(b) == b[0] + 256 * le_value(b1));
}

/// Eight bytes read little-endian.
proof fn lemma_le_value_8(b: Seq<u8>)
    requires
        b.len() == 8,
    ensures
        le_value(b) == u64_at(b, 0),
{
    let b1 = b.drop_first();
    let b2 = b1.drop_first();
    let b3 = b2.drop_first();
    let b4 = b3.drop_first();
    lemma_le_value_4(b4);
    assert(u32_at(b4, 0) == u32_at(b, 4));
    assert(le_value(b3) == b[3] + 256 * le_value(b4));
    assert(le_value(b2) == b[2] + 256 * le_value(b3));
    assert(le_value(b1) == b[1] + 256 * le_value(b2));
    assert(le_value(b) == b[0] + 256 * le_value(b1));
}

/// Each row of the memory map `buf`, cut into pieces of `size` bytes and
/// numbered from `index` on, comes from the piece that its index names:
/// that piece starts at `(row.index - index) * size`, has a non-zero first
/// byte and holds a whole descriptor, and the row's fields are the
/// little-endian numbers at its offsets 0 (type, 32 bits), 8 (physical
/// start, 64 bits), 24 (page count, 64 bits) and 32 (attributes, 64 bits).
pub proof fn memory_map_rows_come_from_their_pieces(buf: Seq<u8>, size: nat, index: nat, k: int)
    requires
        size > 0,
        index + buf.len() <= usize::MAX,
        0 <= k < descriptor_rows(buf, size, index).len(),
    ensures
        ({
            let row = descriptor_rows(buf, size, index)[k];
            let s = (row.index - index) * size;
            &&& index <= row.index
            &&& MEMORY_DESCRIPTOR_LEN <= size
            &&& 0 <= s
            &&& s + MEMORY_DESCRIPTOR_LEN <= buf.len()
            &&& buf[s] != 0
            &&& row.ty == u32_at(buf, s)
            &&& row.phys_start == u64_at(buf, s + 8)
            &&& row.page_count == u64_at(buf, s + 24)
            &&& row.attribute == u64_at(buf, s + 32)
        }),
    decreases buf.len(),
{
    let n = if size < buf.len() {
        size as int
    } else {
        buf.len() as int
    };
    let rows = descriptor_rows(buf, size, index);
    let rest = descriptor_rows(buf.skip(n), size, index + 1);
    let first = buf[0] != 0 && n >= MEMORY_DESCRIPTOR_LEN;
    if first && k == 0 {
        let piece = buf.take(n);
        let row = rows[0];
        assert(row == decode_descriptor(index as int, piece));
        lemma_le_value_4(piece.subrange(0, 4));
        lemma_le_value_8(piece.subrange(8, 16));
        lemma_le_value_8(piece.subrange(24, 32));
        lemma_le_value_8(piece.subrange(32, 40));
        assert(row.index == index);
        assert((row.index - index) * size == 0);
    } else {
        let k2 = if first {
            k - 1
        } else {
            k
        };
        assert(rows[k] == rest[k2]);
        assert(buf.skip(n).len() > 0);
        assert(n == size);
        memory_map_rows_come_from_their_pieces(buf.skip(n), size, index + 1, k2);
        let row = rest[k2];
        let s2 = (row.index - (index + 1)) * size;
        let s = (row.index - index) * size;
        assert(s == s2 + size) by (nonlinear_arith)
            requires
                s2 == (row.index - (index + 1)) * size,
                s == (row.index - index) * size,
        ;
        let t = buf.skip(n);
        assert(forall|j: int| 0 <= j < t.len() ==> #[trigger] t[j] == buf[j + n]);
        assert(u32_at(t, s2) == u32_at(buf, s));
        assert(u32_at(t, s2 + 8) == u32_at(buf, s + 8));
        assert(u32_at(t, s2 + 12) == u32_at(buf, s + 12));
        assert(u32_at(t, s2 + 24) == u32_at(buf, s + 24));
        assert(u32_at(t, s2 + 28) == u32_at(buf, s + 28));
        assert(u32_at(t, s2 + 32) == u32_at(buf, s + 32));
        assert(u32_at(t, s2 + 36) == u32_at(buf, s + 36));
    }
}

/// Reads the descriptor at the start of `chunk`.
fn read_descriptor(index: usize, chunk: &[u8]) -> (row: MemoryDescriptorRow)
    requires
        chunk@.len() >= MEMORY_DESCRIPTOR_LEN,
    ensures
        row == decode_descriptor(index as int, chunk@),
{
    let ty = read_u32_le(chunk);
    let phys_start = read_u64_le(slice_subrange(chunk, 8, 16));
    let page_count = read_u64_le(slice_subrange(chunk, 24, 32));
    let attribute = read_u64_le(slice_subrange(chunk, 32, 40));
    assert(chunk@.take(4) =~= chunk@.subrange(0, 4));
    assert(chunk@.subrange(8, 16).take(8) =~= chunk@.subrange(8, 16));
    assert(chunk@.subrange(24, 32).take(8) =~= chunk@.subrange(24, 32));
    assert(chunk@.subrange(32, 40).take(8) =~= chunk@.subrange(32, 40));
    MemoryDescriptorRow { index, ty, phys_start, page_count, attribute }
}

/// The rows of the memory map `buf` cut into pieces of `size` bytes.
pub fn memory_map_rows(buf: &[u8], size: usize) -> (rows: Vec<MemoryDescriptorRow>)
    requires
        size > 0,
    ensures
        rows@ == descriptor_rows(buf@, size as nat, 0),
        forall|k: int|
            0 <= k < rows@.len() ==> ({
                let row = #[trigger] rows@[k];
                let s = row.index * size;
                &&& s + MEMORY_DESCRIPTOR_LEN <= buf@.len()
                &&& buf@[s] != 0
                &&& row.ty == u32_at(buf@, s)
                &&& row.phys_start == u64_at(buf@, s + 8)
                &&& row.page_count == u64_at(buf@, s + 24)
                &&& row.attribute == u64_at(buf@, s + 32)
            }),
{
    let mut rows: Vec<MemoryDescriptorRow> = Vec::new();
    let mut start: usize = 0;
    let mut index: usize = 0;
    assert(buf@.skip(0) =~= buf@);
    while start < buf.len()
        invariant
            size > 0,
            start <= buf@.len(),
            index <= start,
            rows@ + descriptor_rows(buf@.skip(start as int), size as nat, index as nat)
                == descriptor_rows(buf@, size as nat, 0),
        decreases buf@.len() - start,
    {
        let end = if size < buf.len() - start {
            start + size
        } else {
            buf.len()
        };
        let ghost rest = buf@.skip(start as int);
        assert(rest.skip(end - start) =~= buf@.skip(end as int));
        assert(rest.take(end - start) =~= buf@.subrange(start as int, end as int));
        let chunk = slice_subrange(buf, start, end);
        if chunk[0] != 0 && end - start >= MEMORY_DESCRIPTOR_LEN {
            let row = read_descriptor(index, chunk);
            let ghost before = rows@;
            rows.push(row);
            assert(rows@ + descriptor_rows(buf@.skip(end as int), size as nat, (index + 1) as nat) =~= before
                + descriptor_rows(rest, size as nat, index as nat));
        } else {
            assert(rows@ + descriptor_rows(buf@.skip(end as int), size as nat, (index + 1) as nat) =~= rows@
                + descriptor_rows(rest, size as nat, index as nat));
        }
        start = end;
        index = index + 1;
    }
    assert(buf@.skip(start as int) =~= Seq::<u8>::empty());
    assert(rows@ + Seq::<MemoryDescriptorRow>::empty() =~= rows@);
    proof {
        assert(buf@.len() == buf.len());
        assert forall|k: int| 0 <= k < rows@.len() implies ({
            let row = #[trigger] rows@[k];
            let s = row.index * size;
            &&& s + MEMORY_DESCRIPTOR_LEN <= buf@.len()
            &&& buf@[s] != 0
            &&& row.ty == u32_at(buf@, s)
            &&& row.phys_start == u64_at(buf@, s + 8)
            &&& row.page_count == u64_at(buf@, s + 24)
            &&& row.attribute == u64_at(buf@, s + 32)
        }) by {
            memory_map_rows_come_from_their_pieces(buf@, size as nat, 0, k);
        }
    }
    rows
}

/// The firmware's memory map as the boot loader keeps it: the raw map, the
/// key that identifies this version of it, what `descriptor_size` holds (the
/// number of descriptors the firmware reported) and the layout revision.
#[derive(Debug)]
pub struct MemoryMap<const N: usize> {
    pub map_buffer: Option<[u8; N]>,
    pub map_key: MemoryMapKey,
    pub descriptor_size: usize,
    pub descriptor_version: u32,
}

impl<const N: usize> MemoryMap<N> {
    /// The memory map that the firmware wrote into `map_buffer`, under the
    /// key `map_key`, reporting `descriptor_count` descriptors laid out in
    /// revision `descriptor_version`.
    pub fn from_firmware(
        map_buffer: [u8; N],
        map_key: MemoryMapKey,
        descriptor_count: usize,
        descriptor_version: u32,
    ) -> (map: Self)
        ensures
            map.map_buffer == Some(map_buffer),
            map.map_key == map_key,
            map.descriptor_size == descriptor_count,
            map.descriptor_version == descriptor_version,
    {
        let mut map = MemoryMap {
            map_buffer: None,
            map_key,
            descriptor_size: descriptor_count,
            descriptor_version,
        };
        map.map_buffer = Some(map_buffer);
        map
    }

    /// The rows that saving the map writes: the map cut into pieces of
    /// `descriptor_size` bytes, one row per piece that gives one (see
    /// `descriptor_rows`); none when the map holds no buffer.
    pub fn rows(&self) -> (rows: Vec<MemoryDescriptorRow>)
        requires
            self.map_buffer is Some ==> self.descriptor_size > 0,
        ensures
            rows@ == match self.map_buffer {
                Some(buf) => descriptor_rows(buf@, self.descriptor_size as nat, 0),
                None => Seq::<MemoryDescriptorRow>::empty(),
            },
    {
        match &self.map_buffer {
            Some(buf) => memory_map_rows(buf.as_slice(), self.descriptor_size),
            None => Vec::new(),
        }
    }
}

} // verus!
