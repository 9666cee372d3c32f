use patchgpt::endian::read_le;

#[test]
fn read_le_of_eight_bytes() {
    let buffer = [0x88u8, 0x77, 0x66, 0x55, 0x44, 0x33, 0x22, 0x11];
    assert_eq!(read_le(&buffer, 0, 8), 0x1122_3344_5566_7788);
}

#[test]
fn read_le_of_four_bytes_inside_a_buffer() {
    let buffer = [0xffu8, 0xff, 0x78, 0x56, 0x34, 0x12, 0xff];
    assert_eq!(read_le(&buffer, 2, 4), 0x1234_5678);
}

#[test]
fn read_le_of_no_bytes_is_zero() {
    let buffer = [7u8, 8, 9];
    assert_eq!(read_le(&buffer, 3, 0), 0);
    assert_eq!(read_le(&buffer, 1, 0), 0);
}

#[test]
fn read_le_of_one_byte() {
    let buffer = [7u8, 8, 9];
    assert_eq!(read_le(&buffer, 1, 1), 8);
}

#[test]
fn read_le_of_the_largest_value() {
    let buffer = [0xffu8; 8];
    assert_eq!(read_le(&buffer, 0, 8), u64::MAX);
}

#[test]
fn read_le_agrees_with_std() {
    let buffer = [1u8, 2, 3, 4, 5, 6, 7, 8, 9, 10];
    let mut field = [0u8; 8];
    field.copy_from_slice(&buffer[1..9]);
    assert_eq!(read_le(&buffer, 1, 8), u64::from_le_bytes(field));
}
