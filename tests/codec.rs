use steg::pixels::{
    decode_data, embed, encode_data, fits, get_image_capacity, get_pixel_position,
    read_byte_from_image, read_bytes_from_image, read_header, write_byte_to_image,
    write_byte_vector_to_image, write_header, Header, StegError, HEADER_LEN,
};
use steg::raster::Image;
use steg::util::convert_string_to_bytes;

/// An RGBA image whose channel bytes follow a fixed, uneven pattern.
fn patterned(width: u32, height: u32) -> Image {
    let n = (width as usize) * (height as usize) * 4;
    let data: Vec<u8> = (0..n).map(|i| ((i * 37 + 11) % 256) as u8).collect();
    Image::from_raw(width, height, data).expect("four bytes per pixel")
}

#[test]
fn test_write_and_read_single_pixel() {
    let mut img = patterned(64, 48);

    for byte in 0..255 {
        let mut write_pixel_cursor: u32 = 0;
        write_byte_to_image(&mut img, &mut write_pixel_cursor, &byte).unwrap();
        assert_eq!(write_pixel_cursor, 2);
        let mut read_pixel_cursor: u32 = 0;
        let read_byte = read_byte_from_image(&img, &mut read_pixel_cursor).unwrap();
        assert_eq!(read_pixel_cursor, 2);

        assert_eq!(byte, read_byte);
    }
}

#[test]
fn test_get_pixel_position() {
    let img = patterned(2141, 50);

    assert_eq!(get_pixel_position(&img, &0), Ok((0, 0)));
    assert_eq!(get_pixel_position(&img, &10), Ok((10, 0)));
    assert_eq!(get_pixel_position(&img, &1000), Ok((1000, 0)));
    assert_eq!(get_pixel_position(&img, &10000), Ok((1436, 4)));
    assert_eq!(get_pixel_position(&img, &100000), Ok((1514, 46)));
}

#[test]
fn test_e2e_encode_decode() {
    let data: Vec<u8> = b"some test data\nwith a second line\n".to_vec();
    let name = "data.txt".to_string();

    let mut img_copy = patterned(120, 90);
    encode_data(&mut img_copy, &data, &convert_string_to_bytes(&name)).unwrap();

    let file_data = decode_data(&img_copy).unwrap();

    assert_eq!(file_data.name, name);
    assert_eq!(file_data.data, data);
}

#[test]
fn every_byte_round_trips_at_any_cursor() {
    let mut img = patterned(16, 16);
    for byte in 0..=255u8 {
        let start: u32 = (byte as u32) % 200;
        let mut w = start;
        write_byte_to_image(&mut img, &mut w, &byte).unwrap();
        assert_eq!(w, start + 2);
        let mut r = start;
        assert_eq!(read_byte_from_image(&img, &mut r), Ok(byte));
        assert_eq!(r, start + 2);
    }
}

#[test]
fn byte_bits_land_in_channel_order() {
    let mut img = Image::from_raw(2, 1, vec![0u8; 8]).unwrap();
    let mut cursor: u32 = 0;
    write_byte_to_image(&mut img, &mut cursor, &0b1010_0110).unwrap();
    assert_eq!(img.into_raw(), vec![0, 1, 1, 0, 0, 1, 0, 1]);
}

#[test]
fn pixel_position_wraps_rows() {
    let img = patterned(7, 3);
    assert_eq!(get_pixel_position(&img, &0), Ok((0, 0)));
    assert_eq!(get_pixel_position(&img, &6), Ok((6, 0)));
    assert_eq!(get_pixel_position(&img, &7), Ok((0, 1)));
    assert_eq!(get_pixel_position(&img, &20), Ok((6, 2)));
    assert_eq!(get_pixel_position(&img, &21), Err(StegError::PixelOutOfBounds));
}

#[test]
fn pixel_position_in_empty_image_is_out_of_bounds() {
    let img = Image::from_raw(0, 5, vec![]).unwrap();
    assert_eq!(get_pixel_position(&img, &0), Err(StegError::PixelOutOfBounds));
}

#[test]
fn encoding_keeps_high_bits_and_untouched_pixels() {
    let original = patterned(30, 20);
    let mut img = patterned(30, 20);
    let name = b"n.bin".to_vec();
    let data = vec![0xff, 0x00, 0x5a, 0xa5];
    encode_data(&mut img, &data, &name).unwrap();
    let before = original.into_raw();
    let after = img.into_raw();
    let touched = 4 * 2 * (HEADER_LEN as usize + name.len() + data.len());
    for j in 0..before.len() {
        assert_eq!(before[j] >> 1, after[j] >> 1);
        if j >= touched {
            assert_eq!(before[j], after[j]);
        }
    }
}

#[test]
fn capacity_rejection_leaves_image_unchanged() {
    // 100 x 100 pixels: budget 9000; 8992 / 9000 > 0.999.
    let mut img = patterned(100, 100);
    assert_eq!(get_image_capacity(&img), 9000);
    let data = vec![3u8; 8992];
    assert_eq!(fits(&data, &img), Err(StegError::CapacityExceeded));
    assert_eq!(embed(&mut img, &data, &b"big".to_vec()), Err(StegError::CapacityExceeded));
    assert_eq!(img.into_raw(), patterned(100, 100).into_raw());
    assert_eq!(fits(&vec![3u8; 8991], &patterned(100, 100)), Ok(()));
}

#[test]
fn capacity_of_small_image_is_zero() {
    let img = patterned(10, 10);
    assert_eq!(get_image_capacity(&img), 0);
    assert_eq!(fits(&vec![1u8], &img), Err(StegError::CapacityExceeded));
}

#[test]
fn stream_too_long_for_image_is_refused_before_writing() {
    let mut img = patterned(10, 10);
    let data = vec![9u8; 30];
    assert_eq!(
        encode_data(&mut img, &data, &b"x".to_vec()),
        Err(StegError::PixelOutOfBounds)
    );
    assert_eq!(img.into_raw(), patterned(10, 10).into_raw());
    let mut small = patterned(10, 10);
    assert_eq!(embed(&mut small, &data, &b"x".to_vec()), Err(StegError::CapacityExceeded));
}

#[test]
fn stream_exactly_filling_image_is_accepted() {
    let mut img = patterned(10, 6);
    let data = vec![1u8, 2, 3, 4];
    let name = b"a".to_vec();
    assert_eq!(encode_data(&mut img, &data, &name), Ok(()));
    let got = decode_data(&img).unwrap();
    assert_eq!(got.name, "a");
    assert_eq!(got.data, data);
    let mut tight = patterned(10, 6);
    assert_eq!(
        encode_data(&mut tight, &vec![1u8, 2, 3, 4, 5], &name),
        Err(StegError::PixelOutOfBounds)
    );
}

#[test]
fn scenario_hundred_square_image() {
    let mut img = patterned(100, 100);
    let name = "data.txt".to_string();
    let data = b"test".to_vec();
    assert_eq!(embed(&mut img, &data, &convert_string_to_bytes(&name)), Ok(()));

    let mut cursor: u32 = 0;
    assert_eq!(read_header(&img, &mut cursor), Ok(Header { name_length: 8, data_length: 4 }));
    let mut raw_cursor: u32 = 0;
    let bytes = read_bytes_from_image(&img, &mut raw_cursor, &37).unwrap();
    assert_eq!(raw_cursor, 74);
    assert_eq!(&bytes[0..9], &[0, 0, 0, 0, 8, 0, 0, 0, 4]);
    assert_eq!(&bytes[9..25], &[0u8; 16]);
    assert_eq!(&bytes[25..33], b"data.txt");
    assert_eq!(&bytes[33..37], b"test");

    let after = img.into_raw();
    let before = patterned(100, 100).into_raw();
    assert_eq!(&after[74 * 4..], &before[74 * 4..]);

    let mut again = patterned(100, 100);
    embed(&mut again, &data, &convert_string_to_bytes(&name)).unwrap();
    let file_data = decode_data(&again).unwrap();
    assert_eq!(file_data.name, "data.txt");
    assert_eq!(file_data.data, b"test".to_vec());
}

#[test]
fn unicode_name_and_empty_payload_round_trip() {
    let mut img = patterned(40, 40);
    let name = "résumé-ß-😀.txt".to_string();
    let data: Vec<u8> = vec![];
    encode_data(&mut img, &data, &convert_string_to_bytes(&name)).unwrap();
    let got = decode_data(&img).unwrap();
    assert_eq!(got.name, name);
    assert!(got.data.is_empty());
}

#[test]
fn invalid_name_is_reported() {
    let mut img = patterned(40, 40);
    encode_data(&mut img, &b"payload".to_vec(), &vec![0xff, 0xfe, 0x41]).unwrap();
    assert_eq!(decode_data(&img), Err(StegError::InvalidName));
}

#[test]
fn header_announcing_too_much_is_out_of_bounds() {
    let mut img = patterned(40, 40);
    let mut cursor: u32 = 0;
    let huge_name = vec![b'a'; 1000];
    write_header(&mut img, &vec![], &huge_name, &mut cursor).unwrap();
    assert_eq!(cursor, 2 * HEADER_LEN);
    assert_eq!(decode_data(&img), Err(StegError::PixelOutOfBounds));

    let mut img2 = patterned(40, 40);
    let mut cursor2: u32 = 0;
    write_header(&mut img2, &vec![0u8; 5000], &b"ok".to_vec(), &mut cursor2).unwrap();
    write_byte_vector_to_image(&mut img2, &mut cursor2, &b"ok".to_vec()).unwrap();
    assert_eq!(decode_data(&img2), Err(StegError::PixelOutOfBounds));
}

#[test]
fn image_too_small_for_header() {
    let img = patterned(7, 7);
    assert_eq!(decode_data(&img), Err(StegError::PixelOutOfBounds));
    let mut cursor: u32 = 0;
    assert_eq!(read_header(&img, &mut cursor), Err(StegError::PixelOutOfBounds));
    assert_eq!(cursor, 0);
}

#[test]
fn writes_near_the_end_fail_without_change() {
    let mut img = patterned(3, 1);
    let mut cursor: u32 = 2;
    assert_eq!(
        write_byte_to_image(&mut img, &mut cursor, &0xff),
        Err(StegError::PixelOutOfBounds)
    );
    assert_eq!(cursor, 2);
    assert_eq!(img.into_raw(), patterned(3, 1).into_raw());
    let mut img2 = patterned(3, 1);
    let mut c2: u32 = 0;
    assert_eq!(
        write_byte_vector_to_image(&mut img2, &mut c2, &vec![1, 2]),
        Err(StegError::PixelOutOfBounds)
    );
    assert_eq!(c2, 0);
    let mut r: u32 = 2;
    assert_eq!(read_byte_from_image(&img2, &mut r), Err(StegError::PixelOutOfBounds));
    assert_eq!(read_bytes_from_image(&img2, &mut r, &1), Err(StegError::PixelOutOfBounds));
    assert_eq!(r, 2);
}

#[test]
fn payload_within_budget_but_stream_too_long_is_capacity_exceeded() {
    // 8000 bytes pass the 99.9% rule against a budget of 9000, but header,
    // name and payload need 2 * (25 + 8 + 8000) = 16066 pixels.
    let mut img = patterned(100, 100);
    let data = vec![5u8; 8000];
    assert_eq!(fits(&data, &img), Ok(()));
    assert_eq!(embed(&mut img, &data, &b"data.txt".to_vec()), Err(StegError::CapacityExceeded));
    assert_eq!(img.into_raw(), patterned(100, 100).into_raw());
}
