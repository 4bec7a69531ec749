use uefi::mem::memory_map::MemoryMapKey;
use mikanos::boot::{
    kernel_entry_point, memory_map_rows, pages_for_file, MemoryDescriptorRow, MemoryMap,
};

#[test]
fn entry_point_is_little_endian_at_offset_24() {
    let mut image = vec![0u8; 64];
    image[24..32].copy_from_slice(&[0x20, 0x01, 0x10, 0x00, 0x00, 0x00, 0x00, 0x80]);
    assert_eq!(kernel_entry_point(&image), 0x8000_0000_0010_0120);
    image[24] = 0xff;
    assert_eq!(kernel_entry_point(&image[..32]), 0x8000_0000_0010_01ff);
}

#[test]
fn pages_round_up() {
    assert_eq!(pages_for_file(0), 0);
    assert_eq!(pages_for_file(1), 1);
    assert_eq!(pages_for_file(4096), 1);
    assert_eq!(pages_for_file(4097), 2);
    assert_eq!(pages_for_file(3 * 4096 - 1), 3);
}

fn descriptor(ty: u32, phys: u64, virt: u64, pages: u64, att: u64) -> Vec<u8> {
    let mut d = Vec::new();
    d.extend_from_slice(&ty.to_le_bytes());
    d.extend_from_slice(&[0xAA; 4]);
    d.extend_from_slice(&phys.to_le_bytes());
    d.extend_from_slice(&virt.to_le_bytes());
    d.extend_from_slice(&pages.to_le_bytes());
    d.extend_from_slice(&att.to_le_bytes());
    d
}

#[test]
fn memory_map_rows_decode_each_piece() {
    let mut buf = descriptor(7, 0x1000, 0, 16, 0xF);
    buf.extend(vec![0u8; 8]);
    buf.extend(descriptor(3, 0x20_0000, 0x99, 2, 0x8000_0000_0000_000F));
    buf.extend(vec![0u8; 8]);
    buf.extend(vec![1u8; 20]); // a short last piece gives no row
    let rows = memory_map_rows(&buf, 48);
    assert_eq!(
        rows,
        vec![
            MemoryDescriptorRow { index: 0, ty: 7, phys_start: 0x1000, page_count: 16, attribute: 0xF },
            MemoryDescriptorRow {
                index: 1,
                ty: 3,
                phys_start: 0x20_0000,
                page_count: 2,
                attribute: 0x8000_0000_0000_000F,
            },
        ]
    );
}

#[test]
fn memory_map_rows_skip_short_pieces() {
    let buf = descriptor(1, 2, 3, 4, 5);
    // pieces of 3 bytes never hold a descriptor
    assert_eq!(memory_map_rows(&buf, 3), vec![]);
    assert_eq!(memory_map_rows(&[], 40), vec![]);
}

#[test]
fn memory_map_keeps_the_firmware_answer() {
    let mut raw = [0u8; 80];
    raw[..40].copy_from_slice(&descriptor(7, 0x5000, 0, 1, 0));
    raw[40..].copy_from_slice(&descriptor(2, 0x6000, 0, 3, 1));
    let key = MemoryMapKey::default();
    let map = MemoryMap::from_firmware(raw, key, 40, 1);
    assert_eq!(map.map_key, key);
    assert_eq!(map.descriptor_size, 40);
    assert_eq!(map.descriptor_version, 1);
    assert_eq!(map.map_buffer, Some(raw));
    let rows = map.rows();
    assert_eq!(rows.len(), 2);
    assert_eq!(rows[1].index, 1);
    assert_eq!(rows[1].phys_start, 0x6000);
    assert_eq!(rows[1].page_count, 3);
    let empty: MemoryMap<16> = MemoryMap { map_buffer: None, map_key: MemoryMapKey::default(), descriptor_size: 0, descriptor_version: 1 };
    assert_eq!(empty.rows(), vec![]);
}

#[test]
fn memory_map_rows_skip_pieces_starting_with_zero() {
    let mut buf = descriptor(0, 0x1000, 0, 1, 0);
    buf.extend(descriptor(0x100, 0x2000, 0, 2, 0));
    buf.extend(descriptor(5, 0x3000, 0, 3, 0));
    let rows = memory_map_rows(&buf, 40);
    assert_eq!(rows.len(), 1);
    assert_eq!(
        rows[0],
        MemoryDescriptorRow { index: 2, ty: 5, phys_start: 0x3000, page_count: 3, attribute: 0 }
    );
}
