//! The uncompressed 24-bit bitmap file format.
//!
//! A file is a 54-byte header followed by the pixel rows, the bottom row of
//! the picture first. A pixel takes three bytes, blue, green, red, and each
//! row is filled up with zero bytes to a multiple of four bytes.

use crate::color::Color;
use vstd::arithmetic::div_mod::lemma_fundamental_div_mod_converse;
use vstd::prelude::*;

verus! {

/// The number of bytes in the header.
pub const HEADER_SIZE: u64 = 54;

/// The resolution written into every header, in pixels per metre.
pub const RESOLUTION: u32 = 2835;

/// The number of bytes that a row of `width` pixels takes in the file.
pub open spec fn row_size(width: int) -> int {
    (3 * width + 3) / 4 * 4
}

/// The number of bytes that all rows together take in the file.
pub open spec fn data_size(width: int, height: int) -> int {
    row_size(width) * height
}

/// Whether a picture of this size can be written: both sides and the size of
/// the whole file must fit the fields that the header has for them.
pub open spec fn fits(width: int, height: int) -> bool {
    0 <= width <= 0x7FFF_FFFF && 0 <= height <= 0x7FFF_FFFF && HEADER_SIZE + data_size(
        width,
        height,
    ) <= 0xFFFF_FFFF
}

/// The four bytes of a number below 2^32, lowest byte first.
pub open spec fn le_bytes(n: int) -> Seq<u8> {
    seq![
        (n % 256) as u8,
        (n / 0x100 % 256) as u8,
        (n / 0x1_0000 % 256) as u8,
        (n / 0x100_0000 % 256) as u8,
    ]
}

/// The header of the file for a picture of `width` by `height` pixels.
#[verifier::opaque]
pub open spec fn header(width: int, height: int) -> Seq<u8> {
    seq![0x42u8, 0x4Du8] + le_bytes(HEADER_SIZE + data_size(width, height)) + le_bytes(0)
        + le_bytes(HEADER_SIZE as int) + le_bytes(40) + le_bytes(width) + le_bytes(height)
        + seq![1u8, 0u8, 24u8, 0u8] + le_bytes(0) + le_bytes(data_size(width, height)) + le_bytes(
        RESOLUTION as int,
    ) + le_bytes(RESOLUTION as int) + le_bytes(0) + le_bytes(0)
}

/// Byte `i` of the pixel rows. `pixels` holds the rows in the order of the
/// file, each from left to right.
pub open spec fn data_byte(width: int, pixels: Seq<Color>, i: int) -> u8 {
    let row = i / row_size(width);
    let place = i % row_size(width);
    if place < 3 * width {
        let color = pixels[row * width + place / 3];
        if place % 3 == 0 {
            color.blue
        } else if place % 3 == 1 {
            color.green
        } else {
            color.red
        }
    } else {
        0u8
    }
}

/// The first `n` bytes of the pixel rows.
pub open spec fn data_upto(width: int, pixels: Seq<Color>, n: int) -> Seq<u8> {
    Seq::new(n as nat, |i: int| data_byte(width, pixels, i))
}

/// The whole file.
pub open spec fn file_bytes(width: int, height: int, pixels: Seq<Color>) -> Seq<u8> {
    header(width, height) + data_upto(width, pixels, data_size(width, height))
}

/// The three bytes of the pixel at column `x` of row `r` of the file stand
/// at the start of the row's bytes, blue first.
pub proof fn lemma_data_byte_pixel(width: int, pixels: Seq<Color>, r: int, x: int)
    requires
        0 <= r,
        0 <= x < width,
    ensures
        data_byte(width, pixels, r * row_size(width) + 3 * x) == pixels[r * width + x].blue,
        data_byte(width, pixels, r * row_size(width) + 3 * x + 1) == pixels[r * width + x].green,
        data_byte(width, pixels, r * row_size(width) + 3 * x + 2) == pixels[r * width + x].red,
{
    let row = row_size(width);
    lemma_fundamental_div_mod_converse(r * row + 3 * x, row, r, 3 * x);
    lemma_fundamental_div_mod_converse(r * row + 3 * x + 1, row, r, 3 * x + 1);
    lemma_fundamental_div_mod_converse(r * row + 3 * x + 2, row, r, 3 * x + 2);
}

/// The bytes of a row after its pixels are zero.
pub proof fn lemma_data_byte_padding(width: int, pixels: Seq<Color>, r: int, place: int)
    requires
        0 <= r,
        0 <= width,
        3 * width <= place < row_size(width),
    ensures
        data_byte(width, pixels, r * row_size(width) + place) == 0,
{
    let row = row_size(width);
    lemma_fundamental_div_mod_converse(r * row + place, row, r, place);
}

/// Appends the four bytes of `n`, lowest byte first.
fn push_u32(bytes: &mut Vec<u8>, n: u32)
    ensures
        final(bytes)@ == old(bytes)@ + le_bytes(n as int),
{
    let b0: u8 = (n & 0xFF) as u8;
    let b1: u8 = ((n >> 8) & 0xFF) as u8;
    let b2: u8 = ((n >> 16) & 0xFF) as u8;
    let b3: u8 = ((n >> 24) & 0xFF) as u8;
    assert(n & 0xFF == n % 256 && (n >> 8) & 0xFF == n / 0x100 % 256 && (n >> 16) & 0xFF == n
        / 0x1_0000 % 256 && (n >> 24) & 0xFF == n / 0x100_0000 % 256) by (bit_vector);
    bytes.push(b0);
    bytes.push(b1);
    bytes.push(b2);
    bytes.push(b3);
    assert(bytes@ =~= old(bytes)@ + le_bytes(n as int));
}

/// Appends one byte of the pixel rows.
fn push_data(
    bytes: &mut Vec<u8>,
    byte: u8,
    Ghost(width): Ghost<int>,
    Ghost(height): Ghost<int>,
    Ghost(pixels): Ghost<Seq<Color>>,
    Ghost(count): Ghost<int>,
)
    requires
        0 <= count,
        old(bytes)@ == header(width, height) + data_upto(width, pixels, count),
        byte == data_byte(width, pixels, count),
    ensures
        final(bytes)@ == header(width, height) + data_upto(width, pixels, count + 1),
{
    bytes.push(byte);
    assert(bytes@ =~= header(width, height) + data_upto(width, pixels, count + 1));
}

/// Writes the header of the file for a picture of `width` by `height`
/// pixels whose rows take `data` bytes.
fn header_bytes(width: u32, height: u32, data: u32) -> (bytes: Vec<u8>)
    requires
        data == data_size(width as int, height as int),
        HEADER_SIZE + data <= 0xFFFF_FFFF,
    ensures
        bytes@ == header(width as int, height as int),
{
    reveal(header);
    let mut bytes: Vec<u8> = Vec::new();
    bytes.push(0x42);
    bytes.push(0x4D);
    assert(bytes@ =~= seq![0x42u8, 0x4Du8]);
    push_u32(&mut bytes, HEADER_SIZE as u32 + data);
    push_u32(&mut bytes, 0);
    push_u32(&mut bytes, HEADER_SIZE as u32);
    push_u32(&mut bytes, 40);
    push_u32(&mut bytes, width);
    push_u32(&mut bytes, height);
    let ghost first = bytes@;
    bytes.push(1);
    bytes.push(0);
    bytes.push(24);
    bytes.push(0);
    assert(bytes@ =~= first + seq![1u8, 0u8, 24u8, 0u8]);
    push_u32(&mut bytes, 0);
    push_u32(&mut bytes, data);
    push_u32(&mut bytes, RESOLUTION);
    push_u32(&mut bytes, RESOLUTION);
    push_u32(&mut bytes, 0);
    push_u32(&mut bytes, 0);
    bytes
}

/// Encodes a picture of `width` by `height` pixels as a bitmap file.
/// `pixels` holds the rows in the order of the file, the bottom row of the
/// picture first, each row from left to right. There is no file for a
/// picture too large for the format, nor where the number of pixels is not
/// that of the picture.
pub fn encode(width: usize, height: usize, pixels: &[Color]) -> (file: Option<Vec<u8>>)
    ensures
        file is Some <==> fits(width as int, height as int) && pixels@.len() == width * height,
        file matches Some(bytes) ==> bytes@ == file_bytes(width as int, height as int, pixels@),
{
    if width > 0x7FFF_FFFF || height > 0x7FFF_FFFF {
        return None;
    }
    assert(width * height <= 0x7FFF_FFFF * 0x7FFF_FFFF) by (nonlinear_arith)
        requires
            0 <= width <= 0x7FFF_FFFF,
            0 <= height <= 0x7FFF_FFFF,
    ;
    if pixels.len() as u64 != (width as u64) * (height as u64) {
        return None;
    }
    let row: u64 = (3 * (width as u64) + 3) / 4 * 4;
    assert(row * height <= 0x2_0000_0000 * 0x7FFF_FFFF) by (nonlinear_arith)
        requires
            0 <= row <= 0x2_0000_0000,
            0 <= height <= 0x7FFF_FFFF,
    ;
    let data: u64 = row * (height as u64);
    if data > 0xFFFF_FFFF - HEADER_SIZE {
        return None;
    }
    let ghost w = width as int;
    let ghost h = height as int;
    let mut bytes = header_bytes(width as u32, height as u32, data as u32);
    assert(bytes@ =~= bytes@ + data_upto(w, pixels@, 0));
    let mut r: usize = 0;
    while r < height
        invariant
            r <= height,
            w == width,
            h == height,
            row == row_size(w),
            3 * width <= row,
            pixels@.len() == width * height,
            bytes@ == header(w, h) + data_upto(w, pixels@, r * row),
        decreases height - r,
    {
        assert((r + 1) * row == r * row + row && r * width + width <= width * height && 0 <= r
            * width && 0 <= r * row) by (nonlinear_arith)
            requires
                0 <= r < height,
                0 <= row,
                0 <= width,
        ;
        let ghost base = r * row;
        assert(pixels@.len() == pixels.len());
        let mut x: usize = 0;
        while x < width
            invariant
                x <= width,
                w == width,
                0 <= base,
                base == r * row_size(w),
                0 <= r * width,
                r * width + width <= pixels@.len() <= usize::MAX,
                bytes@ == header(w, h) + data_upto(w, pixels@, base + 3 * x),
            decreases width - x,
        {
            let color = pixels[r * width + x];
            proof {
                lemma_data_byte_pixel(w, pixels@, r as int, x as int);
            }
            push_data(&mut bytes, color.blue, Ghost(w), Ghost(h), Ghost(pixels@), Ghost(base + 3 * x));
            push_data(
                &mut bytes,
                color.green,
                Ghost(w),
                Ghost(h),
                Ghost(pixels@),
                Ghost(base + 3 * x + 1),
            );
            push_data(
                &mut bytes,
                color.red,
                Ghost(w),
                Ghost(h),
                Ghost(pixels@),
                Ghost(base + 3 * x + 2),
            );
            x += 1;
        }
        let mut filled: u64 = 3 * (width as u64);
        while filled < row
            invariant
                3 * width <= filled <= row,
                w == width,
                row == row_size(w),
                0 <= base,
                base == r * row_size(w),
                bytes@ == header(w, h) + data_upto(w, pixels@, base + filled),
            decreases row - filled,
        {
            proof {
                lemma_data_byte_padding(w, pixels@, r as int, filled as int);
            }
            push_data(&mut bytes, 0, Ghost(w), Ghost(h), Ghost(pixels@), Ghost(base + filled));
            filled += 1;
        }
        r += 1;
    }
    assert(height * row == row * height) by (nonlinear_arith);
    Some(bytes)
}

} // verus!
