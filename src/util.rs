use vstd::prelude::*;
use vstd::slice::slice_to_vec;
use vstd::utf8::{decode_utf8, encode_utf8, valid_utf8};

verus! {

/// `byte` with its least-significant bit replaced by `bit` (0 or 1).
pub open spec fn with_low_bit(byte: u8, bit: u8) -> u8 {
    (byte & 0xfe) | bit
}

/// Bit `i` (0 = least significant) of `byte`, as 0 or 1.
pub open spec fn bit_at(byte: u8, i: u8) -> u8 {
    (byte >> i) & 1
}

/// Returns `byte` with its least-significant bit set when `x == 1` and
/// cleared otherwise; the other seven bits are kept.
pub fn byte_with_x_last_bit(byte: &u8, x: u8) -> (r: u8)
    ensures
        r == with_low_bit(*byte, if x == 1 { 1u8 } else { 0u8 }),
{
    if x == 1 {
        assert((*byte | 1) == ((*byte & 0xfe) | 1)) by (bit_vector);
        *byte | 1
    } else {
        assert((*byte & !1u8) == ((*byte & 0xfe) | 0)) by (bit_vector);
        *byte & !1u8
    }
}

/// The least-significant bit of `byte`.
pub fn get_last_bit_of_byte(byte: &u8) -> (r: u8)
    ensures
        r == *byte & 1,
        r == bit_at(*byte, 0),
        r <= 1,
{
    assert((*byte & 1) == ((*byte >> 0u8) & 1) && (*byte & 1) <= 1) by (bit_vector);
    *byte & 1
}

/// The four big-endian bytes of `x`, most significant first.
pub open spec fn be_bytes(x: u32) -> Seq<u8> {
    seq![
        (x / 0x100_0000) as u8,
        (x / 0x1_0000 % 0x100) as u8,
        (x / 0x100 % 0x100) as u8,
        (x % 0x100) as u8,
    ]
}

/// The number whose big-endian bytes are the first four of `b`.
pub open spec fn be_value(b: Seq<u8>) -> int
    recommends
        b.len() >= 4,
{
    b[0] * 0x100_0000 + b[1] * 0x1_0000 + b[2] * 0x100 + b[3]
}

/// The bytes of `s` in UTF-8.
pub fn convert_string_to_bytes(s: &String) -> (r: Vec<u8>)
    ensures
        r@ == encode_utf8(s@),
{
    let text: &str = s.as_str();
    slice_to_vec(text.as_bytes())
}

/// Relies on `String::from_utf8`: it succeeds exactly when the bytes are
/// valid UTF-8, and then holds the characters they encode.
#[verifier::external_body]
fn string_from_utf8(bytes: Vec<u8>) -> (r: Option<String>)
    ensures
        match r {
            Some(s) => valid_utf8(bytes@) && s@ == decode_utf8(bytes@),
            None => !valid_utf8(bytes@),
        },
{
    String::from_utf8(bytes).ok()
}

/// The string that `bytes` encode in UTF-8, or `None` when they are not
/// valid UTF-8.
pub fn decode_utf8_bytes(bytes: &Vec<u8>) -> (r: Option<String>)
    ensures
        match r {
            Some(s) => valid_utf8(bytes@) && s@ == decode_utf8(bytes@),
            None => !valid_utf8(bytes@),
        },
{
    string_from_utf8(bytes.clone())
}

/// The string that the valid UTF-8 `bytes` encode.
pub fn construct_string_from_byte_vector(bytes: &Vec<u8>) -> (r: String)
    requires
        valid_utf8(bytes@),
    ensures
        r@ == decode_utf8(bytes@),
{
    match decode_utf8_bytes(bytes) {
        Some(s) => s,
        None => String::new(),
    }
}

/// The big-endian bytes of `x`.
pub fn convert_u32_to_bytes(x: u32) -> (r: Vec<u8>)
    ensures
        r@ == be_bytes(x),
{
    let b0: u8 = (x >> 24u32) as u8;
    let b1: u8 = (x >> 16u32) as u8;
    let b2: u8 = (x >> 8u32) as u8;
    let b3: u8 = x as u8;
    assert(b0 == (x / 0x100_0000) as u8 && b1 == (x / 0x1_0000 % 0x100) as u8 && b2 == (x / 0x100
        % 0x100) as u8 && b3 == (x % 0x100) as u8) by (bit_vector)
        requires
            b0 == (x >> 24u32) as u8,
            b1 == (x >> 16u32) as u8,
            b2 == (x >> 8u32) as u8,
            b3 == x as u8,
    ;
    let r = vec![b0, b1, b2, b3];
    assert(r@ =~= be_bytes(x));
    r
}

/// The number whose big-endian bytes are the first four of `bytes`.
pub fn convert_byte_vector_to_u32(bytes: &Vec<u8>) -> (r: u32)
    requires
        bytes@.len() >= 4,
    ensures
        r as int == be_value(bytes@),
{
    let b0: u8 = bytes[0];
    let b1: u8 = bytes[1];
    let b2: u8 = bytes[2];
    let b3: u8 = bytes[3];
    let r: u32 = ((b0 as u32) << 24u32) | ((b1 as u32) << 16u32) | ((b2 as u32) << 8u32) | (b3 as u32);
    assert(r == (b0 as u32) * 0x100_0000 + (b1 as u32) * 0x1_0000 + (b2 as u32) * 0x100 + (b3 as u32))
        by (bit_vector)
        requires
            r == ((b0 as u32) << 24u32) | ((b1 as u32) << 16u32) | ((b2 as u32) << 8u32) | (b3 as u32),
    ;
    r
}

/// The last `/`-separated component of `path`: the bytes after its last
/// `/`, or all of it when it holds none.
pub fn file_name_from_path(path: &Vec<u8>) -> (r: Vec<u8>)
    ensures
        r@.len() <= path@.len(),
        r@ == path@.subrange(path@.len() - r@.len(), path@.len() as int),
        !r@.contains(0x2f),
        r@.len() < path@.len() ==> path@[path@.len() - r@.len() - 1] == 0x2f,
{
    let mut start: usize = 0;
    let mut i: usize = 0;
    while i < path.len()
        invariant
            start <= i <= path@.len(),
            forall|j: int| start <= j < i ==> path@[j] != 0x2f,
            start > 0 ==> path@[start - 1] == 0x2f,
        decreases path@.len() - i,
    {
        if path[i] == 0x2f {
            start = i + 1;
        }
        i = i + 1;
    }
    let mut r: Vec<u8> = Vec::new();
    let mut k: usize = start;
    while k < path.len()
        invariant
            start <= k <= path@.len(),
            r@ == path@.subrange(start as int, k as int),
        decreases path@.len() - k,
    {
        r.push(path[k]);
        k = k + 1;
        assert(r@ =~= path@.subrange(start as int, k as int));
    }
    assert(!r@.contains(0x2f)) by {
        assert forall|j: int| 0 <= j < r@.len() implies r@[j] != 0x2f by {
            assert(r@[j] == path@[start + j]);
        }
    }
    r
}

/// Reading back the big-endian bytes of a number gives the number.
pub proof fn lemma_be_round_trip(x: u32)
    ensures
        be_value(be_bytes(x)) == x,
{
    let b = be_bytes(x);
    assert(b[0] * 0x100_0000 + b[1] * 0x1_0000 + b[2] * 0x100 + b[3] == x as int) by (nonlinear_arith)
        requires
            b[0] == (x / 0x100_0000) as u8,
            b[1] == (x / 0x1_0000 % 0x100) as u8,
            b[2] == (x / 0x100 % 0x100) as u8,
            b[3] == (x % 0x100) as u8,
            0 <= x <= u32::MAX,
    ;
}

/// Decoding the UTF-8 bytes of a string gives the string back.
pub proof fn lemma_utf8_round_trip(s: Seq<char>)
    ensures
        valid_utf8(encode_utf8(s)),
        decode_utf8(encode_utf8(s)) == s,
{
    vstd::utf8::encode_utf8_valid_utf8(s);
    vstd::utf8::encode_utf8_decode_utf8(s);
}

} // verus!
