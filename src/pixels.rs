use crate::raster::{Image, ImageView};
use crate::util::{decode_utf8_bytes, lemma_be_round_trip, lemma_utf8_round_trip};
use crate::util::{
    be_bytes, be_value, bit_at, byte_with_x_last_bit, convert_byte_vector_to_u32,
    convert_u32_to_bytes, get_last_bit_of_byte, with_low_bit,
};
use vstd::prelude::*;
use vstd::utf8::{decode_utf8, encode_utf8, valid_utf8};

verus! {

/// Size in bytes of the embedded header: flags, two lengths, reserved salt.
pub const HEADER_LEN: u32 = 25;

/// Pixels held back from the usable budget, well beyond the
/// 2 * `HEADER_LEN` that the header takes.
pub const RESERVED_MARGIN: u32 = 1000;

/// Ways in which hiding or recovering a payload fails.
#[derive(Debug, Clone, Copy, PartialEq, Eq)]
pub enum StegError {
    /// The image could not be read or is of an unsupported kind.
    ImageLoadError,
    /// The payload is too large for the image's usable pixel budget.
    CapacityExceeded,
    /// The pixel cursor ran past the last pixel of the image.
    PixelOutOfBounds,
    /// The recovered name is not valid UTF-8.
    InvalidName,
    /// Reading or writing a file failed.
    IoError,
}

/// The lengths recorded in the embedded header.
#[derive(Debug, Clone, Copy, PartialEq, Eq)]
pub struct Header {
    pub name_length: u32,
    pub data_length: u32,
}

/// A recovered payload: the file's name and its bytes.
#[derive(Debug, PartialEq, Eq)]
pub struct FileData {
    pub name: String,
    pub data: Vec<u8>,
}

/// The channel bytes after `bytes` are packed from pixel `start` on: bit `i`
/// of byte `k` becomes the low bit of channel `4 * start + 8 * k + i`; every
/// other channel, and the upper seven bits of the touched ones, are kept.
pub open spec fn embedded(ch: Seq<u8>, start: int, bytes: Seq<u8>) -> Seq<u8> {
    Seq::new(
        ch.len(),
        |j: int|
            if 4 * start <= j < 4 * start + 8 * bytes.len() {
                with_low_bit(ch[j], bit_at(bytes[(j - 4 * start) / 8], ((j - 4 * start) % 8) as u8))
            } else {
                ch[j]
            },
    )
}

/// The byte held in the low bits of the eight channels of pixels `p` and
/// `p + 1`, the first channel giving bit 0.
#[verifier::opaque]
pub open spec fn packed_byte(ch: Seq<u8>, p: int) -> u8 {
    let c = 4 * p;
    (ch[c] & 1) | ((ch[c + 1] & 1) << 1u8) | ((ch[c + 2] & 1) << 2u8) | ((ch[c + 3] & 1) << 3u8)
        | ((ch[c + 4] & 1) << 4u8) | ((ch[c + 5] & 1) << 5u8) | ((ch[c + 6] & 1) << 6u8) | ((ch[c
        + 7] & 1) << 7u8)
}

/// The `n` bytes packed from pixel `start` on.
pub open spec fn extracted(ch: Seq<u8>, start: int, n: nat) -> Seq<u8> {
    Seq::new(n, |k: int| packed_byte(ch, start + 2 * k))
}

/// The image with its channels replaced.
pub open spec fn with_channels(img: ImageView, ch: Seq<u8>) -> ImageView {
    ImageView { width: img.width, height: img.height, channels: ch }
}

/// Column and row of the pixel with linear index `pixel_index`, row-major.
/// Fails with `PixelOutOfBounds` past the last pixel.
pub fn get_pixel_position(img: &Image, pixel_index: &u32) -> (r: Result<(u32, u32), StegError>)
    requires
        img@.wf(),
    ensures
        *pixel_index < img@.pixel_count() ==> r == Ok::<(u32, u32), StegError>(
            ((*pixel_index % (img@.width as u32)) as u32, (*pixel_index / (img@.width as u32)) as u32),
        ),
        *pixel_index >= img@.pixel_count() ==> r == Err::<(u32, u32), StegError>(
            StegError::PixelOutOfBounds,
        ),
        r matches Ok((x, y)) ==> x < img@.width && y < img@.height && y * img@.width + x
            == *pixel_index,
{
    let width: u32 = img.width();
    let height: u32 = img.height();
    if width == 0 {
        proof {
            assert(img@.pixel_count() == 0) by (nonlinear_arith)
                requires img@.width == 0, img@.pixel_count() == img@.width * img@.height;
        }
        return Err(StegError::PixelOutOfBounds);
    }
    let x: u32 = pixel_index % width;
    let y: u32 = pixel_index / width;
    proof {
        let i = *pixel_index as int;
        let w = width as int;
        let h = height as int;
        vstd::arithmetic::div_mod::lemma_fundamental_div_mod(i, w);
        assert(y < h <==> i < w * h) by (nonlinear_arith)
            requires i == w * y + x, 0 <= x < w, 0 <= y, h >= 0;
        assert(y * w + x == i) by (nonlinear_arith)
            requires i == w * y + x;
    }
    if y >= height {
        return Err(StegError::PixelOutOfBounds);
    }
    Ok((x, y))
}

/// `px` with bits `first` to `first + 3` of `byte` in the low bits of its
/// four channels.
fn pack_pixel(px: [u8; 4], byte: u8, first: u8) -> (r: [u8; 4])
    requires
        first == 0 || first == 4,
    ensures
        r@ == seq![
            with_low_bit(px@[0], bit_at(byte, first)),
            with_low_bit(px@[1], bit_at(byte, (first + 1) as u8)),
            with_low_bit(px@[2], bit_at(byte, (first + 2) as u8)),
            with_low_bit(px@[3], bit_at(byte, (first + 3) as u8)),
        ],
{
    let b0: u8 = (byte >> first) & 1;
    let b1: u8 = (byte >> (first + 1)) & 1;
    let b2: u8 = (byte >> (first + 2)) & 1;
    let b3: u8 = (byte >> (first + 3)) & 1;
    assert(b0 <= 1 && b1 <= 1 && b2 <= 1 && b3 <= 1) by (bit_vector)
        requires
            b0 == (byte >> first) & 1,
            b1 == (byte >> (first + 1) as u8) & 1,
            b2 == (byte >> (first + 2) as u8) & 1,
            b3 == (byte >> (first + 3) as u8) & 1,
    ;
    let r = [
        byte_with_x_last_bit(&px[0], b0),
        byte_with_x_last_bit(&px[1], b1),
        byte_with_x_last_bit(&px[2], b2),
        byte_with_x_last_bit(&px[3], b3),
    ];
    assert(r@ =~= seq![
        with_low_bit(px@[0], bit_at(byte, first)),
        with_low_bit(px@[1], bit_at(byte, (first + 1) as u8)),
        with_low_bit(px@[2], bit_at(byte, (first + 2) as u8)),
        with_low_bit(px@[3], bit_at(byte, (first + 3) as u8)),
    ]);
    r
}

/// Packs `byte` into the low bits of the two pixels at the cursor (bits 0 to
/// 3 into the first pixel's R, G, B, A; bits 4 to 7 into the second's) and
/// advances the cursor by two. When fewer than two pixels remain, fails with
/// `PixelOutOfBounds` and changes nothing.
pub fn write_byte_to_image(
    img: &mut Image,
    pixel_cursor: &mut u32,
    byte: &u8,
) -> (r: Result<(), StegError>)
    requires
        old(img)@.wf(),
    ensures
        final(img)@.wf(),
        r is Ok <==> *old(pixel_cursor) + 2 <= old(img)@.pixel_count(),
        r is Ok ==> *final(pixel_cursor) == *old(pixel_cursor) + 2 && final(img)@ == with_channels(
            old(img)@,
            embedded(old(img)@.channels, *old(pixel_cursor) as int, seq![*byte]),
        ),
        r is Err ==> r == Err::<(), StegError>(StegError::PixelOutOfBounds) && *final(pixel_cursor)
            == *old(pixel_cursor) && final(img)@ == old(img)@,
{
    let first = match get_pixel_position(img, pixel_cursor) {
        Ok(p) => p,
        Err(e) => return Err(e),
    };
    let next: u32 = *pixel_cursor + 1;
    let second = match get_pixel_position(img, &next) {
        Ok(p) => p,
        Err(e) => return Err(e),
    };
    let ghost ch = img@.channels;
    let ghost c = *pixel_cursor as int;
    let px0 = img.get_pixel(first.0, first.1);
    img.put_pixel(first.0, first.1, pack_pixel(px0, *byte, 0));
    *pixel_cursor = *pixel_cursor + 1;
    let px1 = img.get_pixel(second.0, second.1);
    img.put_pixel(second.0, second.1, pack_pixel(px1, *byte, 4));
    *pixel_cursor = *pixel_cursor + 1;
    proof {
        let e = embedded(ch, c, seq![*byte]);
        assert forall|j: int| 0 <= j < ch.len() implies #[trigger] img@.channels[j] == e[j] by {
            if 4 * c <= j < 4 * c + 8 {
                assert((j - 4 * c) / 8 == 0 && (j - 4 * c) % 8 == j - 4 * c);
            }
        }
        assert(img@.channels =~= e);
    }
    Ok(())
}

/// Reads the byte packed in the two pixels at the cursor and advances the
/// cursor by two. When fewer than two pixels remain, fails with
/// `PixelOutOfBounds` and leaves the cursor where it was.
pub fn read_byte_from_image(img: &Image, pixel_cursor: &mut u32) -> (r: Result<u8, StegError>)
    requires
        img@.wf(),
    ensures
        *old(pixel_cursor) + 2 <= img@.pixel_count() ==> r == Ok::<u8, StegError>(
            packed_byte(img@.channels, *old(pixel_cursor) as int),
        ) && *final(pixel_cursor) == *old(pixel_cursor) + 2,
        *old(pixel_cursor) + 2 > img@.pixel_count() ==> r == Err::<u8, StegError>(
            StegError::PixelOutOfBounds,
        ) && *final(pixel_cursor) == *old(pixel_cursor),
{
    let first = match get_pixel_position(img, pixel_cursor) {
        Ok(p) => p,
        Err(e) => return Err(e),
    };
    let next: u32 = *pixel_cursor + 1;
    let second = match get_pixel_position(img, &next) {
        Ok(p) => p,
        Err(e) => return Err(e),
    };
    let px0 = img.get_pixel(first.0, first.1);
    let px1 = img.get_pixel(second.0, second.1);
    let byte: u8 = get_last_bit_of_byte(&px0[0]) | (get_last_bit_of_byte(&px0[1]) << 1u8) | (
    get_last_bit_of_byte(&px0[2]) << 2u8) | (get_last_bit_of_byte(&px0[3]) << 3u8) | (
    get_last_bit_of_byte(&px1[0]) << 4u8) | (get_last_bit_of_byte(&px1[1]) << 5u8) | (
    get_last_bit_of_byte(&px1[2]) << 6u8) | (get_last_bit_of_byte(&px1[3]) << 7u8);
    *pixel_cursor = *pixel_cursor + 2;
    proof {
        reveal(packed_byte);
    }
    Ok(byte)
}

/// Packing `a` and then, from the pixel where it ended, `b` is packing
/// `a + b`.
proof fn lemma_embedded_append(ch: Seq<u8>, start: int, a: Seq<u8>, b: Seq<u8>)
    requires
        0 <= start,
    ensures
        embedded(embedded(ch, start, a), start + 2 * a.len(), b) == embedded(ch, start, a + b),
{
    let left = embedded(embedded(ch, start, a), start + 2 * a.len(), b);
    let right = embedded(ch, start, a + b);
    assert forall|j: int| 0 <= j < ch.len() implies #[trigger] left[j] == right[j] by {
        let t = j - 4 * start - 8 * a.len();
        if 0 <= t < 8 * b.len() {
            let n = a.len() as int;
            assert((8 * n + t) / 8 == n + t / 8 && (8 * n + t) % 8 == t % 8) by (nonlinear_arith)
                requires
                    n >= 0,
                    t >= 0,
            ;
            assert(j - 4 * start == 8 * n + t);
        }
    }
    assert(left =~= right);
}

/// Writes `bytes` in order from the cursor, two pixels each, and advances the
/// cursor by two pixels per byte. When they do not all fit in the pixels that
/// remain, fails with `PixelOutOfBounds` before changing anything.
pub fn write_byte_vector_to_image(
    img: &mut Image,
    pixel_cursor: &mut u32,
    bytes: &Vec<u8>,
) -> (r: Result<(), StegError>)
    requires
        old(img)@.wf(),
    ensures
        final(img)@.wf(),
        r is Ok <==> *old(pixel_cursor) + 2 * bytes@.len() <= old(img)@.pixel_count(),
        r is Ok ==> *final(pixel_cursor) == *old(pixel_cursor) + 2 * bytes@.len() && final(img)@
            == with_channels(
            old(img)@,
            embedded(old(img)@.channels, *old(pixel_cursor) as int, bytes@),
        ),
        r is Err ==> r == Err::<(), StegError>(StegError::PixelOutOfBounds) && *final(pixel_cursor)
            == *old(pixel_cursor) && final(img)@ == old(img)@,
{
    let count: u32 = img.pixel_count();
    if *pixel_cursor as u128 + 2 * (bytes.len() as u128) > count as u128 {
        return Err(StegError::PixelOutOfBounds);
    }
    let ghost img0 = img@;
    let ghost c = *pixel_cursor as int;
    let mut i: usize = 0;
    while i < bytes.len()
        invariant
            i <= bytes@.len(),
            img@.wf(),
            img@.width == img0.width,
            img@.height == img0.height,
            c + 2 * bytes@.len() <= img0.pixel_count(),
            c >= 0,
            *pixel_cursor == c + 2 * i,
            img@.channels == embedded(img0.channels, c, bytes@.subrange(0, i as int)),
        decreases bytes@.len() - i,
    {
        let ghost before = img@.channels;
        match write_byte_to_image(img, pixel_cursor, &bytes[i]) {
            Ok(()) => {},
            Err(e) => return Err(e),
        }
        proof {
            lemma_embedded_append(img0.channels, c, bytes@.subrange(0, i as int), seq![bytes@[i as int]]);
            assert(bytes@.subrange(0, i as int) + seq![bytes@[i as int]] =~= bytes@.subrange(0, i + 1));
        }
        i = i + 1;
    }
    assert(bytes@.subrange(0, i as int) =~= bytes@);
    Ok(())
}

/// Reads `length` bytes in order from the cursor and advances the cursor by
/// two pixels per byte. When they do not all lie in the pixels that remain,
/// fails with `PixelOutOfBounds` and leaves the cursor where it was.
pub fn read_bytes_from_image(
    img: &Image,
    pixel_cursor: &mut u32,
    length: &u32,
) -> (r: Result<Vec<u8>, StegError>)
    requires
        img@.wf(),
    ensures
        r is Ok <==> *old(pixel_cursor) + 2 * *length <= img@.pixel_count(),
        r matches Ok(v) ==> v@ == extracted(img@.channels, *old(pixel_cursor) as int, *length as nat)
            && *final(pixel_cursor) == *old(pixel_cursor) + 2 * *length,
        r is Err ==> r == Err::<Vec<u8>, StegError>(StegError::PixelOutOfBounds) 
            && *final(pixel_cursor) == *old(pixel_cursor),
{
    let count: u32 = img.pixel_count();
    if *pixel_cursor as u64 + 2 * (*length as u64) > count as u64 {
        return Err(StegError::PixelOutOfBounds);
    }
    let ghost c = *pixel_cursor as int;
    let mut bytes: Vec<u8> = Vec::new();
    let mut i: u32 = 0;
    while i < *length
        invariant
            i <= *length,
            img@.wf(),
            c + 2 * *length <= img@.pixel_count(),
            c >= 0,
            *pixel_cursor == c + 2 * i,
            bytes@ == extracted(img@.channels, c, i as nat),
        decreases *length - i,
    {
        let byte = match read_byte_from_image(img, pixel_cursor) {
            Ok(b) => b,
            Err(e) => return Err(e),
        };
        bytes.push(byte);
        i = i + 1;
        assert(bytes@ =~= extracted(img@.channels, c, i as nat));
    }
    Ok(bytes)
}

/// The header bytes: a zero flags byte, the two lengths in big-endian order,
/// then sixteen reserved zero bytes.
pub open spec fn header_bytes(name_length: u32, data_length: u32) -> Seq<u8> {
    seq![0u8] + be_bytes(name_length) + be_bytes(data_length) + Seq::new(16, |i: int| 0u8)
}

/// Everything that is embedded for a name and a payload, in order.
pub open spec fn stream(name: Seq<u8>, data: Seq<u8>) -> Seq<u8> {
    header_bytes(name.len() as u32, data.len() as u32) + name + data
}

/// Writes the header for `name` and `data` from the cursor. When its
/// 2 * `HEADER_LEN` pixels do not fit, fails with `PixelOutOfBounds` before
/// changing anything.
pub fn write_header(
    img: &mut Image,
    data: &Vec<u8>,
    name: &Vec<u8>,
    pixel_cursor: &mut u32,
) -> (r: Result<(), StegError>)
    requires
        old(img)@.wf(),
        name@.len() <= u32::MAX,
        data@.len() <= u32::MAX,
    ensures
        final(img)@.wf(),
        r is Ok <==> *old(pixel_cursor) + 2 * HEADER_LEN <= old(img)@.pixel_count(),
        r is Ok ==> *final(pixel_cursor) == *old(pixel_cursor) + 2 * HEADER_LEN && final(img)@
            == with_channels(
            old(img)@,
            embedded(
                old(img)@.channels,
                *old(pixel_cursor) as int,
                header_bytes(name@.len() as u32, data@.len() as u32),
            ),
        ),
        r is Err ==> r == Err::<(), StegError>(StegError::PixelOutOfBounds) && *final(pixel_cursor)
            == *old(pixel_cursor) && final(img)@ == old(img)@,
{
    let count: u32 = img.pixel_count();
    if *pixel_cursor as u64 + 2 * (HEADER_LEN as u64) > count as u64 {
        return Err(StegError::PixelOutOfBounds);
    }
    let ghost ch = img@.channels;
    let ghost c = *pixel_cursor as int;
    match write_byte_to_image(img, pixel_cursor, &0u8) {
        Ok(()) => {},
        Err(e) => return Err(e),
    }
    let name_length = convert_u32_to_bytes(name.len() as u32);
    match write_byte_vector_to_image(img, pixel_cursor, &name_length) {
        Ok(()) => {},
        Err(e) => return Err(e),
    }
    let data_length = convert_u32_to_bytes(data.len() as u32);
    match write_byte_vector_to_image(img, pixel_cursor, &data_length) {
        Ok(()) => {},
        Err(e) => return Err(e),
    }
    let salt: Vec<u8> = vec![0u8; 16];
    match write_byte_vector_to_image(img, pixel_cursor, &salt) {
        Ok(()) => {},
        Err(e) => return Err(e),
    }
    proof {
        let a = seq![0u8];
        lemma_embedded_append(ch, c, a, name_length@);
        lemma_embedded_append(ch, c, a + name_length@, data_length@);
        lemma_embedded_append(ch, c, a + name_length@ + data_length@, salt@);
        assert(salt@ =~= Seq::new(16, |i: int| 0u8));
    }
    Ok(())
}

/// Reads the header at the cursor. When its 2 * `HEADER_LEN` pixels do not
/// lie in the image, fails with `PixelOutOfBounds` and leaves the cursor
/// where it was.
pub fn read_header(img: &Image, pixel_cursor: &mut u32) -> (r: Result<Header, StegError>)
    requires
        img@.wf(),
    ensures
        r is Ok <==> *old(pixel_cursor) + 2 * HEADER_LEN <= img@.pixel_count(),
        r matches Ok(h) ==> h.name_length == be_value(
            extracted(img@.channels, *old(pixel_cursor) + 2, 4),
        ) && h.data_length == be_value(extracted(img@.channels, *old(pixel_cursor) + 10, 4))
            && *final(pixel_cursor) == *old(pixel_cursor) + 2 * HEADER_LEN,
        r is Err ==> r == Err::<Header, StegError>(StegError::PixelOutOfBounds) && *final(
        pixel_cursor) == *old(pixel_cursor),
{
    let count: u32 = img.pixel_count();
    if *pixel_cursor as u64 + 2 * (HEADER_LEN as u64) > count as u64 {
        return Err(StegError::PixelOutOfBounds);
    }
    let _flags = match read_byte_from_image(img, pixel_cursor) {
        Ok(b) => b,
        Err(e) => return Err(e),
    };
    let name_length_vec = match read_bytes_from_image(img, pixel_cursor, &4) {
        Ok(v) => v,
        Err(e) => return Err(e),
    };
    let data_length_vec = match read_bytes_from_image(img, pixel_cursor, &4) {
        Ok(v) => v,
        Err(e) => return Err(e),
    };
    let _salt = match read_bytes_from_image(img, pixel_cursor, &16) {
        Ok(v) => v,
        Err(e) => return Err(e),
    };
    Ok(
        Header {
            name_length: convert_byte_vector_to_u32(&name_length_vec),
            data_length: convert_byte_vector_to_u32(&data_length_vec),
        },
    )
}

/// Writes the header, then `name`, then `data` from the first pixel on.
/// When the whole stream does not fit in the image, fails with
/// `PixelOutOfBounds` before changing anything.
pub fn encode_data(img: &mut Image, data: &Vec<u8>, name: &Vec<u8>) -> (r: Result<(), StegError>)
    requires
        old(img)@.wf(),
    ensures
        final(img)@.wf(),
        r is Ok <==> 2 * (HEADER_LEN + name@.len() + data@.len()) <= old(img)@.pixel_count(),
        r is Ok ==> final(img)@ == with_channels(
            old(img)@,
            embedded(old(img)@.channels, 0, stream(name@, data@)),
        ),
        r is Err ==> r == Err::<(), StegError>(StegError::PixelOutOfBounds) && final(img)@ == old(
            img,
        )@,
{
    let count: u32 = img.pixel_count();
    if 2 * (HEADER_LEN as u128 + name.len() as u128 + data.len() as u128) > count as u128 {
        return Err(StegError::PixelOutOfBounds);
    }
    let ghost ch = img@.channels;
    let mut pixel_cursor: u32 = 0;
    match write_header(img, data, name, &mut pixel_cursor) {
        Ok(()) => {},
        Err(e) => return Err(e),
    }
    match write_byte_vector_to_image(img, &mut pixel_cursor, name) {
        Ok(()) => {},
        Err(e) => return Err(e),
    }
    match write_byte_vector_to_image(img, &mut pixel_cursor, data) {
        Ok(()) => {},
        Err(e) => return Err(e),
    }
    proof {
        let h = header_bytes(name@.len() as u32, data@.len() as u32);
        lemma_embedded_append(ch, 0, h, name@);
        lemma_embedded_append(ch, 0, h + name@, data@);
    }
    Ok(())
}

/// What decoding an image yields: its name's characters and its payload, or
/// the first failure met while reading header, name and payload in turn.
pub open spec fn decoded(img: ImageView) -> Result<(Seq<char>, Seq<u8>), StegError> {
    let ch = img.channels;
    let name_length = be_value(extracted(ch, 2, 4));
    let data_length = be_value(extracted(ch, 10, 4));
    let name = extracted(ch, 2 * HEADER_LEN, name_length as nat);
    if img.pixel_count() < 2 * HEADER_LEN {
        Err(StegError::PixelOutOfBounds)
    } else if img.pixel_count() < 2 * (HEADER_LEN + name_length) {
        Err(StegError::PixelOutOfBounds)
    } else if !valid_utf8(name) {
        Err(StegError::InvalidName)
    } else if img.pixel_count() < 2 * (HEADER_LEN + name_length + data_length) {
        Err(StegError::PixelOutOfBounds)
    } else {
        Ok(
            (
                decode_utf8(name),
                extracted(ch, 2 * (HEADER_LEN + name_length), data_length as nat),
            ),
        )
    }
}

/// Reads the header from the first pixel on, then the name it announces
/// (which must be UTF-8), then the payload.
pub fn decode_data(img: &Image) -> (r: Result<FileData, StegError>)
    requires
        img@.wf(),
    ensures
        match r {
            Ok(f) => decoded(img@) == Ok::<(Seq<char>, Seq<u8>), StegError>((f.name@, f.data@)),
            Err(e) => decoded(img@) == Err::<(Seq<char>, Seq<u8>), StegError>(e),
        },
{
    let mut pixel_cursor: u32 = 0;
    let header = match read_header(img, &mut pixel_cursor) {
        Ok(h) => h,
        Err(e) => return Err(e),
    };
    let file_name_bytes = match read_bytes_from_image(img, &mut pixel_cursor, &header.name_length) {
        Ok(v) => v,
        Err(e) => return Err(e),
    };
    let name = match decode_utf8_bytes(&file_name_bytes) {
        Some(s) => s,
        None => return Err(StegError::InvalidName),
    };
    let data_bytes = match read_bytes_from_image(img, &mut pixel_cursor, &header.data_length) {
        Ok(v) => v,
        Err(e) => return Err(e),
    };
    Ok(FileData { name, data: data_bytes })
}

/// The usable pixel budget: all pixels but `RESERVED_MARGIN`, and none when
/// the image has fewer.
pub open spec fn capacity(img: ImageView) -> nat {
    if img.pixel_count() >= RESERVED_MARGIN {
        (img.pixel_count() - RESERVED_MARGIN) as nat
    } else {
        0
    }
}

/// A payload of `len` bytes takes more than 99.9% of the budget `budget`.
pub open spec fn exceeds_capacity(len: nat, budget: nat) -> bool {
    1000 * len > 999 * budget
}

/// The usable pixel budget of `img`.
pub fn get_image_capacity(img: &Image) -> (r: u32)
    requires
        img@.wf(),
    ensures
        r == capacity(img@),
{
    let count: u32 = img.pixel_count();
    if count >= RESERVED_MARGIN {
        count - RESERVED_MARGIN
    } else {
        0
    }
}

/// Fails with `CapacityExceeded` when `payload` takes more than 99.9% of the
/// usable pixel budget of `img`.
pub fn fits(payload: &Vec<u8>, img: &Image) -> (r: Result<(), StegError>)
    requires
        img@.wf(),
    ensures
        r == if exceeds_capacity(payload@.len(), capacity(img@)) {
            Err::<(), StegError>(StegError::CapacityExceeded)
        } else {
            Ok::<(), StegError>(())
        },
{
    let budget: u32 = get_image_capacity(img);
    if 1000 * (payload.len() as u128) > 999 * (budget as u128) {
        Err(StegError::CapacityExceeded)
    } else {
        Ok(())
    }
}

/// Hides `name` and `data` in `img` when both checks pass: the payload takes
/// at most 99.9% of the usable budget, and the whole stream (header, name,
/// payload, two pixels per byte) fits in the image. Otherwise fails with
/// `CapacityExceeded` and leaves `img` as it was.
pub fn embed(img: &mut Image, data: &Vec<u8>, name: &Vec<u8>) -> (r: Result<(), StegError>)
    requires
        old(img)@.wf(),
    ensures
        final(img)@.wf(),
        r is Ok <==> !exceeds_capacity(data@.len(), capacity(old(img)@)) && 2 * (HEADER_LEN
            + name@.len() + data@.len()) <= old(img)@.pixel_count(),
        r is Ok ==> final(img)@ == with_channels(
            old(img)@,
            embedded(old(img)@.channels, 0, stream(name@, data@)),
        ),
        r is Err ==> r == Err::<(), StegError>(StegError::CapacityExceeded) && final(img)@ == old(
            img,
        )@,
{
    match fits(data, img) {
        Ok(()) => {},
        Err(e) => return Err(e),
    }
    let count: u32 = img.pixel_count();
    if 2 * (HEADER_LEN as u128 + name.len() as u128 + data.len() as u128) > count as u128 {
        return Err(StegError::CapacityExceeded);
    }
    encode_data(img, data, name)
}

/// Each low bit, once written from a byte, reads back as that bit.
proof fn lemma_low_bits_reassemble(b: u8, c0: u8, c1: u8, c2: u8, c3: u8, c4: u8, c5: u8, c6: u8, c7: u8)
    by (bit_vector)
    ensures
        (((c0 & 0xfe) | ((b >> 0u8) & 1)) & 1) | ((((c1 & 0xfe) | ((b >> 1u8) & 1)) & 1) << 1u8) | ((((
        c2 & 0xfe) | ((b >> 2u8) & 1)) & 1) << 2u8) | ((((c3 & 0xfe) | ((b >> 3u8) & 1)) & 1) << 3u8)
            | ((((c4 & 0xfe) | ((b >> 4u8) & 1)) & 1) << 4u8) | ((((c5 & 0xfe) | ((b >> 5u8) & 1)) & 1)
            << 5u8) | ((((c6 & 0xfe) | ((b >> 6u8) & 1)) & 1) << 6u8) | ((((c7 & 0xfe) | ((b >> 7u8)
            & 1)) & 1) << 7u8) == b,
{
}

/// Channel `4 * start + 8 * k + i` of a packed stream holds bit `i` of byte
/// `k`.
proof fn lemma_embedded_at(ch: Seq<u8>, start: int, bytes: Seq<u8>, k: int, i: int)
    requires
        0 <= start,
        0 <= k < bytes.len(),
        0 <= i < 8,
        4 * start + 8 * bytes.len() <= ch.len(),
    ensures
        embedded(ch, start, bytes)[4 * start + 8 * k + i] == with_low_bit(
            ch[4 * start + 8 * k + i],
            bit_at(bytes[k], i as u8),
        ),
{
    assert((8 * k + i) / 8 == k && (8 * k + i) % 8 == i) by (nonlinear_arith)
        requires
            0 <= k,
            0 <= i < 8,
    ;
    assert(8 * k + i < 8 * bytes.len()) by (nonlinear_arith)
        requires
            k < bytes.len(),
            0 <= i < 8,
    ;
}

/// The byte packed at pixel `start + 2 * k` of a packed stream is its byte
/// `k`.
proof fn lemma_packed_at(ch: Seq<u8>, start: int, bytes: Seq<u8>, k: int)
    requires
        0 <= start,
        0 <= k < bytes.len(),
        4 * start + 8 * bytes.len() <= ch.len(),
    ensures
        packed_byte(embedded(ch, start, bytes), start + 2 * k) == bytes[k],
{
    reveal(packed_byte);
    let c = 4 * start + 8 * k;
    lemma_embedded_at(ch, start, bytes, k, 0);
    lemma_embedded_at(ch, start, bytes, k, 1);
    lemma_embedded_at(ch, start, bytes, k, 2);
    lemma_embedded_at(ch, start, bytes, k, 3);
    lemma_embedded_at(ch, start, bytes, k, 4);
    lemma_embedded_at(ch, start, bytes, k, 5);
    lemma_embedded_at(ch, start, bytes, k, 6);
    lemma_embedded_at(ch, start, bytes, k, 7);
    assert(4 * (start + 2 * k) == c);
    lemma_low_bits_reassemble(
        bytes[k],
        ch[c],
        ch[c + 1],
        ch[c + 2],
        ch[c + 3],
        ch[c + 4],
        ch[c + 5],
        ch[c + 6],
        ch[c + 7],
    );
}

/// Reading back a packed stream from where it starts gives the stream.
pub proof fn lemma_extracted_embedded(ch: Seq<u8>, start: int, bytes: Seq<u8>)
    requires
        0 <= start,
        4 * start + 8 * bytes.len() <= ch.len(),
    ensures
        extracted(embedded(ch, start, bytes), start, bytes.len()) == bytes,
{
    assert forall|k: int| 0 <= k < bytes.len() implies #[trigger] extracted(
        embedded(ch, start, bytes),
        start,
        bytes.len(),
    )[k] == bytes[k] by {
        lemma_packed_at(ch, start, bytes, k);
    }
    assert(extracted(embedded(ch, start, bytes), start, bytes.len()) =~= bytes);
}

/// Any byte written at a cursor with two pixels left reads back unchanged
/// from that cursor.
pub proof fn lemma_byte_round_trip(img: ImageView, cursor: u32, b: u8)
    requires
        img.wf(),
        cursor + 2 <= img.pixel_count(),
    ensures
        packed_byte(embedded(img.channels, cursor as int, seq![b]), cursor as int) == b,
{
    lemma_packed_at(img.channels, cursor as int, seq![b], 0);
}

/// Bytes `k` to `k + n` of a run read from pixel `start` are the run of `n`
/// bytes read from pixel `start + 2 * k`.
proof fn lemma_extracted_slice(ch: Seq<u8>, start: int, m: nat, k: int, n: nat)
    requires
        0 <= k,
        k + n <= m,
    ensures
        extracted(ch, start + 2 * k, n) == extracted(ch, start, m).subrange(k, k + n),
{
    assert(extracted(ch, start + 2 * k, n) =~= extracted(ch, start, m).subrange(k, k + n));
}

/// Decoding an image into which a name and a payload that fit were encoded
/// gives back that name and that payload.
pub proof fn lemma_round_trip(img: ImageView, name: Seq<char>, data: Seq<u8>)
    requires
        img.wf(),
        2 * (HEADER_LEN + encode_utf8(name).len() + data.len()) <= img.pixel_count(),
    ensures
        decoded(with_channels(img, embedded(img.channels, 0, stream(encode_utf8(name), data))))
            == Ok::<(Seq<char>, Seq<u8>), StegError>((name, data)),
{
    let nb = encode_utf8(name);
    let s = stream(nb, data);
    let e = embedded(img.channels, 0, s);
    let nl = nb.len() as u32;
    let dl = data.len() as u32;
    let n = s.len();
    assert(n == 25 + nb.len() + data.len());
    lemma_extracted_embedded(img.channels, 0, s);
    assert(be_value(extracted(e, 2, 4)) == nl) by {
        lemma_extracted_slice(e, 0, n, 1, 4);
        assert(s.subrange(1, 5) =~= be_bytes(nl));
        lemma_be_round_trip(nl);
    }
    assert(be_value(extracted(e, 10, 4)) == dl) by {
        lemma_extracted_slice(e, 0, n, 5, 4);
        assert(s.subrange(5, 9) =~= be_bytes(dl));
        lemma_be_round_trip(dl);
    }
    assert(extracted(e, 50, nl as nat) == nb) by {
        lemma_extracted_slice(e, 0, n, 25, nl as nat);
        assert(s.subrange(25, 25 + nl) =~= nb);
    }
    assert(extracted(e, 2 * (25 + nl), dl as nat) == data) by {
        lemma_extracted_slice(e, 0, n, 25 + nl, dl as nat);
        assert(s.subrange(25 + nl, 25 + nl + dl) =~= data);
    }
    lemma_utf8_round_trip(name);
}

/// Packing a stream changes no channel outside the pixels it covers, and in
/// those it covers only the least-significant bit.
pub proof fn lemma_non_interference(ch: Seq<u8>, start: int, bytes: Seq<u8>)
    requires
        0 <= start,
    ensures
        embedded(ch, start, bytes).len() == ch.len(),
        forall|j: int|
            0 <= j < ch.len() ==> (#[trigger] embedded(ch, start, bytes)[j] >> 1u8) == ch[j] >> 1u8,
        forall|j: int|
            0 <= j < ch.len() && !(4 * start <= j < 4 * start + 8 * bytes.len()) ==> #[trigger] embedded(
                ch,
                start,
                bytes,
            )[j] == ch[j],
{
    assert forall|j: int| 0 <= j < ch.len() implies (#[trigger] embedded(ch, start, bytes)[j] >> 1u8)
        == ch[j] >> 1u8 by {
        if 4 * start <= j < 4 * start + 8 * bytes.len() {
            let c = ch[j];
            let b = bytes[(j - 4 * start) / 8];
            let i = ((j - 4 * start) % 8) as u8;
            assert((((c & 0xfe) | ((b >> i) & 1)) >> 1u8) == c >> 1u8) by (bit_vector);
        }
    }
}

} // verus!
