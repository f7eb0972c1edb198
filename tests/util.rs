use steg::raster::Image;
use steg::util::{
    byte_with_x_last_bit, construct_string_from_byte_vector, convert_byte_vector_to_u32,
    convert_string_to_bytes, convert_u32_to_bytes, decode_utf8_bytes, file_name_from_path,
    get_last_bit_of_byte,
};

#[test]
fn test_convert_u32_to_bytes() {
    let u32_val = 8123;
    let bytes = convert_u32_to_bytes(u32_val);

    let original_val = convert_byte_vector_to_u32(&bytes);
    assert_eq!(original_val, u32_val);
}

#[test]
fn u32_big_endian_bytes() {
    assert_eq!(convert_u32_to_bytes(8123), vec![0x00, 0x00, 0x1f, 0xbb]);
    assert_eq!(convert_u32_to_bytes(0x0102_0304), vec![1, 2, 3, 4]);
    assert_eq!(convert_byte_vector_to_u32(&vec![0x00, 0x00, 0x1f, 0xbb]), 8123);
    assert_eq!(convert_byte_vector_to_u32(&vec![0xff, 0xff, 0xff, 0xff, 0x12]), u32::MAX);
    for x in [0u32, 1, 255, 256, 65535, 65536, 0x00ff_ff00, u32::MAX - 1, u32::MAX] {
        assert_eq!(convert_byte_vector_to_u32(&convert_u32_to_bytes(x)), x);
    }
}

#[test]
fn low_bit_set_and_cleared() {
    assert_eq!(byte_with_x_last_bit(&0b1010_1010, 1), 0b1010_1011);
    assert_eq!(byte_with_x_last_bit(&0b1010_1011, 0), 0b1010_1010);
    assert_eq!(byte_with_x_last_bit(&0xff, 0), 0xfe);
    assert_eq!(byte_with_x_last_bit(&0x00, 1), 0x01);
    assert_eq!(byte_with_x_last_bit(&0x37, 1), 0x37);
    assert_eq!(get_last_bit_of_byte(&0x37), 1);
    assert_eq!(get_last_bit_of_byte(&0x36), 0);
}

#[test]
fn string_bytes_are_utf8() {
    assert_eq!(convert_string_to_bytes(&"ab".to_string()), vec![0x61, 0x62]);
    assert_eq!(convert_string_to_bytes(&"é".to_string()), vec![0xc3, 0xa9]);
    assert!(convert_string_to_bytes(&String::new()).is_empty());
}

#[test]
fn utf8_bytes_decode_or_fail() {
    assert_eq!(decode_utf8_bytes(&vec![0xc3, 0xa9, 0x21]), Some("é!".to_string()));
    assert_eq!(decode_utf8_bytes(&vec![0x61, 0xff]), None);
    assert_eq!(decode_utf8_bytes(&vec![0xc3]), None);
    assert_eq!(construct_string_from_byte_vector(&vec![0x68, 0x69]), "hi");
}

#[test]
fn file_name_is_last_component() {
    assert_eq!(file_name_from_path(&b"test-data/data.txt".to_vec()), b"data.txt".to_vec());
    assert_eq!(file_name_from_path(&b"/a/b/c".to_vec()), b"c".to_vec());
    assert_eq!(file_name_from_path(&b"plain".to_vec()), b"plain".to_vec());
    assert_eq!(file_name_from_path(&b"dir/".to_vec()), Vec::<u8>::new());
    assert_eq!(file_name_from_path(&Vec::new()), Vec::<u8>::new());
}

#[test]
fn raw_image_needs_four_bytes_per_pixel() {
    assert!(Image::from_raw(2, 2, vec![0u8; 16]).is_some());
    assert!(Image::from_raw(2, 2, vec![0u8; 15]).is_none());
    assert!(Image::from_raw(2, 2, vec![0u8; 17]).is_none());
    let img = Image::from_raw(3, 2, (0..24u8).collect()).unwrap();
    assert_eq!(img.width(), 3);
    assert_eq!(img.height(), 2);
    assert_eq!(img.pixel_count(), 6);
    assert_eq!(img.get_pixel(1, 1), [16, 17, 18, 19]);
    let mut img = img;
    img.put_pixel(2, 0, [9, 9, 9, 9]);
    assert_eq!(&img.into_raw()[8..12], &[9, 9, 9, 9]);
}
