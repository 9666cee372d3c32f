use patchgpt::header::{
    HeaderView, CRC32_WIDTH, HEADER_CRC32_OFFSET, HEADER_SIZE, LBA_WIDTH, MY_LBA_OFFSET,
    PARTITION_ENTRY_LBA_OFFSET,
};

fn ramp(len: usize) -> Vec<u8> {
    (0..len).map(|i| i as u8).collect()
}

#[test]
fn layout_constants() {
    assert_eq!(HEADER_SIZE, 92);
    assert_eq!(HEADER_CRC32_OFFSET, 16);
    assert_eq!(CRC32_WIDTH, 4);
    assert_eq!(MY_LBA_OFFSET, 24);
    assert_eq!(PARTITION_ENTRY_LBA_OFFSET, 72);
    assert_eq!(LBA_WIDTH, 8);
    assert_eq!(HEADER_SIZE, std::mem::size_of::<gpt_disk_types::GptHeader>());
}

#[test]
fn getters_read_little_endian_fields() {
    let buffer = ramp(92);
    let view = HeaderView::overlay(0, 92);
    assert_eq!(view.header_crc32(&buffer), 0x1312_1110);
    assert_eq!(view.my_lba(&buffer), 0x1f1e_1d1c_1b1a_1918);
    assert_eq!(view.partition_entry_lba(&buffer), 0x4f4e_4d4c_4b4a_4948);
}

#[test]
fn set_my_lba_writes_eight_little_endian_bytes() {
    let mut buffer = ramp(92);
    let before = buffer.clone();
    let view = HeaderView::overlay(0, 92);
    view.set_my_lba(&mut buffer, 0x0102_0304_0506_0708);
    assert_eq!(&buffer[24..32], &[8u8, 7, 6, 5, 4, 3, 2, 1]);
    assert_eq!(&buffer[..24], &before[..24]);
    assert_eq!(&buffer[32..], &before[32..]);
    assert_eq!(view.my_lba(&buffer), 0x0102_0304_0506_0708);
}

#[test]
fn set_partition_entry_lba_writes_eight_little_endian_bytes() {
    let mut buffer = ramp(92);
    let before = buffer.clone();
    let view = HeaderView::overlay(0, 92);
    view.set_partition_entry_lba(&mut buffer, 0xa1a2_a3a4_a5a6_a7a8);
    assert_eq!(&buffer[72..80], &[0xa8u8, 0xa7, 0xa6, 0xa5, 0xa4, 0xa3, 0xa2, 0xa1]);
    assert_eq!(&buffer[..72], &before[..72]);
    assert_eq!(&buffer[80..], &before[80..]);
    assert_eq!(view.partition_entry_lba(&buffer), 0xa1a2_a3a4_a5a6_a7a8);
}

#[test]
fn setters_write_small_and_large_values() {
    let mut buffer = vec![0xeeu8; 92];
    let view = HeaderView::overlay(0, 92);
    view.set_my_lba(&mut buffer, 0);
    assert_eq!(&buffer[24..32], &[0u8; 8]);
    view.set_my_lba(&mut buffer, u64::MAX);
    assert_eq!(&buffer[24..32], &[0xffu8; 8]);
    view.set_partition_entry_lba(&mut buffer, 1);
    assert_eq!(&buffer[72..80], &[1u8, 0, 0, 0, 0, 0, 0, 0]);
}

#[test]
fn recompute_crc32_of_a_zero_header() {
    let mut buffer = vec![0u8; 92];
    let view = HeaderView::overlay(0, 92);
    view.recompute_crc32(&mut buffer);
    assert_eq!(view.header_crc32(&buffer), 0xc2b5_26e7);
    assert_eq!(&buffer[16..20], &[0xe7u8, 0x26, 0xb5, 0xc2]);
    assert_eq!(&buffer[..16], &[0u8; 16]);
    assert_eq!(&buffer[20..], &[0u8; 72]);
}

#[test]
fn recompute_crc32_takes_the_stored_checksum_as_zero() {
    let mut buffer = ramp(92);
    let before = buffer.clone();
    let view = HeaderView::overlay(0, 92);
    view.recompute_crc32(&mut buffer);
    assert_eq!(view.header_crc32(&buffer), 0x18f1_c727);
    assert_eq!(&buffer[..16], &before[..16]);
    assert_eq!(&buffer[20..], &before[20..]);

    let mut other = ramp(92);
    other[16..20].copy_from_slice(&[0xde, 0xad, 0xbe, 0xef]);
    view.recompute_crc32(&mut other);
    assert_eq!(other, buffer);
}

#[test]
fn recompute_crc32_twice_changes_nothing() {
    let mut buffer = ramp(92);
    let view = HeaderView::overlay(0, 92);
    view.recompute_crc32(&mut buffer);
    let once = buffer.clone();
    view.recompute_crc32(&mut buffer);
    assert_eq!(buffer, once);
}

#[test]
fn recompute_crc32_follows_the_other_fields() {
    let mut buffer = vec![0u8; 92];
    let view = HeaderView::overlay(0, 92);
    view.recompute_crc32(&mut buffer);
    let of_zeros = view.header_crc32(&buffer);
    view.set_my_lba(&mut buffer, 1);
    view.recompute_crc32(&mut buffer);
    assert_ne!(view.header_crc32(&buffer), of_zeros);
}

#[test]
fn view_inside_a_larger_buffer() {
    let mut buffer = vec![0x55u8; 300];
    for byte in buffer[100..192].iter_mut() {
        *byte = 0;
    }
    let view = HeaderView::overlay(100, 192);
    view.set_my_lba(&mut buffer, 7);
    view.set_partition_entry_lba(&mut buffer, 9);
    view.recompute_crc32(&mut buffer);
    assert!(buffer[..100].iter().all(|byte| *byte == 0x55));
    assert!(buffer[192..].iter().all(|byte| *byte == 0x55));
    assert_eq!(view.my_lba(&buffer), 7);
    assert_eq!(view.partition_entry_lba(&buffer), 9);
    assert_eq!(&buffer[124..132], &[7u8, 0, 0, 0, 0, 0, 0, 0]);
    assert_eq!(&buffer[172..180], &[9u8, 0, 0, 0, 0, 0, 0, 0]);

    let header: &gpt_disk_types::GptHeader = bytemuck::from_bytes(&buffer[100..192]);
    assert_eq!(header.my_lba.to_u64(), 7);
    assert_eq!(header.partition_entry_lba.to_u64(), 9);
    let stored = header.header_crc32;
    assert_eq!(stored.0.to_u32(), view.header_crc32(&buffer));
    assert_eq!(header.calculate_header_crc32(), stored);
}

#[test]
fn view_at_the_end_of_a_buffer() {
    let mut buffer = vec![0u8; 93];
    buffer[0] = 0xaa;
    let view = HeaderView::overlay(1, 93);
    view.recompute_crc32(&mut buffer);
    assert_eq!(buffer[0], 0xaa);
    assert_eq!(view.header_crc32(&buffer), 0xc2b5_26e7);
    assert_eq!(&buffer[17..21], &[0xe7u8, 0x26, 0xb5, 0xc2]);
}
