//! Bitmap files: the header, and the pixels brought into the order that
//! the game draws from.
use crate::host_api::Bitmap;
use vstd::prelude::*;

verus! {

/// The length of the header of a bitmap file.
pub const HEADER_LEN: usize = 66;

/// The header of a bitmap file, as the file holds it: field after field
/// without gaps, each number with its low byte first.
#[derive(Copy, Clone, Debug, PartialEq, Eq, Structural)]
pub struct BmpHeader {
    pub file_type: u16,
    pub file_size: u32,
    pub reserved1: u16,
    pub reserved2: u16,
    pub bitmap_offset: u32,
    pub size: u32,
    pub width: i32,
    pub height: i32,
    pub planes: u16,
    pub bits_per_pixel: u16,
    pub compression: u32,
    pub size_of_bitmap: u32,
    pub horz_resolution: i32,
    pub vert_resolution: i32,
    pub colors_used: u32,
    pub colors_important: u32,
    pub red_mask: u32,
    pub green_mask: u32,
    pub blue_mask: u32,
}

/// The number that the two bytes at `at` stand for, the low byte first.
pub open spec fn spec_le_u16(bytes: Seq<u8>, at: int) -> u16 {
    (bytes[at] + 256 * bytes[at + 1]) as u16
}

/// The number that the four bytes at `at` stand for, the low byte first.
pub open spec fn spec_le_u32(bytes: Seq<u8>, at: int) -> u32 {
    (bytes[at] + 256 * bytes[at + 1] + 65_536 * bytes[at + 2] + 16_777_216 * bytes[at + 3]) as u32
}

/// The signed number that the four bytes at `at` stand for, the low byte
/// first, in two's complement.
pub open spec fn spec_le_i32(bytes: Seq<u8>, at: int) -> i32 {
    let v = spec_le_u32(bytes, at) as int;
    if v >= 0x8000_0000 {
        (v - 0x1_0000_0000) as i32
    } else {
        v as i32
    }
}

/// The header that a file starts with.
pub open spec fn spec_header(bytes: Seq<u8>) -> BmpHeader {
    BmpHeader {
        file_type: spec_le_u16(bytes, 0),
        file_size: spec_le_u32(bytes, 2),
        reserved1: spec_le_u16(bytes, 6),
        reserved2: spec_le_u16(bytes, 8),
        bitmap_offset: spec_le_u32(bytes, 10),
        size: spec_le_u32(bytes, 14),
        width: spec_le_i32(bytes, 18),
        height: spec_le_i32(bytes, 22),
        planes: spec_le_u16(bytes, 26),
        bits_per_pixel: spec_le_u16(bytes, 28),
        compression: spec_le_u32(bytes, 30),
        size_of_bitmap: spec_le_u32(bytes, 34),
        horz_resolution: spec_le_i32(bytes, 38),
        vert_resolution: spec_le_i32(bytes, 42),
        colors_used: spec_le_u32(bytes, 46),
        colors_important: spec_le_u32(bytes, 50),
        red_mask: spec_le_u32(bytes, 54),
        green_mask: spec_le_u32(bytes, 58),
        blue_mask: spec_le_u32(bytes, 62),
    }
}

/// The number that two bytes stand for, the low byte first.
pub fn le_u16(bytes: &[u8], at: usize) -> (r: u16)
    requires
        at + 2 <= bytes@.len(),
    ensures
        r == spec_le_u16(bytes@, at as int),
{
    bytes[at] as u16 + 256 * (bytes[at + 1] as u16)
}

/// The number that four bytes stand for, the low byte first.
pub fn le_u32(bytes: &[u8], at: usize) -> (r: u32)
    requires
        at + 4 <= bytes@.len(),
    ensures
        r == spec_le_u32(bytes@, at as int),
{
    bytes[at] as u32 + 256 * (bytes[at + 1] as u32) + 65_536 * (bytes[at + 2] as u32) + 16_777_216
        * (bytes[at + 3] as u32)
}

/// The signed number that four bytes stand for, the low byte first.
pub fn le_i32(bytes: &[u8], at: usize) -> (r: i32)
    requires
        at + 4 <= bytes@.len(),
    ensures
        r == spec_le_i32(bytes@, at as int),
{
    let v = le_u32(bytes, at);
    if v >= 0x8000_0000 {
        (v as i64 - 0x1_0000_0000) as i32
    } else {
        v as i32
    }
}

/// The header that a file starts with.
pub fn header(buf: &[u8]) -> (h: BmpHeader)
    requires
        buf@.len() >= HEADER_LEN,
    ensures
        h == spec_header(buf@),
{
    BmpHeader {
        file_type: le_u16(buf, 0),
        file_size: le_u32(buf, 2),
        reserved1: le_u16(buf, 6),
        reserved2: le_u16(buf, 8),
        bitmap_offset: le_u32(buf, 10),
        size: le_u32(buf, 14),
        width: le_i32(buf, 18),
        height: le_i32(buf, 22),
        planes: le_u16(buf, 26),
        bits_per_pixel: le_u16(buf, 28),
        compression: le_u32(buf, 30),
        size_of_bitmap: le_u32(buf, 34),
        horz_resolution: le_i32(buf, 38),
        vert_resolution: le_i32(buf, 42),
        colors_used: le_u32(buf, 46),
        colors_important: le_u32(buf, 50),
        red_mask: le_u32(buf, 54),
        green_mask: le_u32(buf, 58),
        blue_mask: le_u32(buf, 62),
    }
}

/// The byte of `color` that starts at the bit `shift`.
pub open spec fn channel_of(color: u32, shift: u32) -> u8 {
    ((color >> shift) & 0xFF) as u8
}

/// The byte of `color` that starts at the bit `shift`.
pub fn channel(color: u32, shift: u32) -> (r: u8)
    requires
        shift < 32,
    ensures
        r == channel_of(color, shift),
{
    let masked: u32 = (color >> shift) & 0xFF;
    assert(masked <= 255) by (bit_vector)
        requires
            masked == (color >> shift) & 0xFF,
    ;
    masked as u8
}

/// The mask of the bits that no colour uses: they hold the alpha.
pub open spec fn alpha_mask(h: BmpHeader) -> u32 {
    !(h.red_mask | h.green_mask | h.blue_mask)
}

/// Bytes for each pixel in the file.
pub open spec fn pixel_bytes(h: BmpHeader) -> int {
    h.bits_per_pixel as int / 8
}

/// Where in the file the pixel `i` starts, the pixels counted row by row.
pub open spec fn pixel_start(h: BmpHeader, i: int) -> int {
    let x = i % (h.width as int);
    let y = i / (h.width as int);
    h.bitmap_offset + y * (h.width * pixel_bytes(h)) + x * pixel_bytes(h)
}

/// Whether `bytes` is a bitmap file that can be read: it holds a header,
/// no mask is empty, the picture is as large as the header says, and every
/// pixel lies within the file.
pub open spec fn readable(bytes: Seq<u8>) -> bool {
    let h = spec_header(bytes);
    &&& bytes.len() >= HEADER_LEN
    &&& h.red_mask != 0
    &&& h.green_mask != 0
    &&& h.blue_mask != 0
    &&& alpha_mask(h) != 0
    &&& h.width >= 0
    &&& h.height >= 0
    &&& h.width * h.height * 4 == h.size_of_bitmap
    &&& h.width > 0 && h.height > 0 ==> pixel_start(h, h.width * h.height - 1) + 4 <= bytes.len()
}

/// The byte `j` of the picture that the file `bytes` holds: of each pixel
/// blue, green, red, alpha, every one taken from where its mask starts.
pub open spec fn picture_byte(bytes: Seq<u8>, j: int) -> u8 {
    let h = spec_header(bytes);
    let color = spec_le_u32(bytes, pixel_start(h, j / 4));
    let part = j % 4;
    if part == 0 {
        channel_of(color, vstd::std_specs::bits::u32_trailing_zeros(h.blue_mask))
    } else if part == 1 {
        channel_of(color, vstd::std_specs::bits::u32_trailing_zeros(h.green_mask))
    } else if part == 2 {
        channel_of(color, vstd::std_specs::bits::u32_trailing_zeros(h.red_mask))
    } else {
        channel_of(color, vstd::std_specs::bits::u32_trailing_zeros(alpha_mask(h)))
    }
}

/// A pixel lies within the file when the last one does.
proof fn lemma_pixel_within(h: BmpHeader, i: int, n: int)
    requires
        h.width > 0,
        h.height > 0,
        n == h.width * h.height,
        0 <= i < n,
    ensures
        0 <= pixel_start(h, i) <= pixel_start(h, n - 1),
        i / (h.width as int) < h.height,
        0 <= i % (h.width as int) < h.width,
{
    let w = h.width as int;
    let b = pixel_bytes(h);
    let x = i % w;
    let y = i / w;
    let lx = (n - 1) % w;
    let ly = (n - 1) / w;
    assert(n - 1 == (h.height - 1) * w + (w - 1)) by (nonlinear_arith)
        requires
            n == w * h.height,
    ;
    assert(ly == h.height - 1 && lx == w - 1) by (nonlinear_arith)
        requires
            n - 1 == (h.height - 1) * w + (w - 1),
            ly == (n - 1) / w,
            lx == (n - 1) % w,
            w > 0,
            h.height > 0,
    ;
    assert(0 <= y <= ly && 0 <= x <= lx) by (nonlinear_arith)
        requires
            0 <= i < n,
            n == w * h.height,
            x == i % w,
            y == i / w,
            ly == h.height - 1,
            lx == w - 1,
            w > 0,
    ;
    assert(0 <= y * (w * b) <= ly * (w * b) && 0 <= x * b <= lx * b) by (nonlinear_arith)
        requires
            0 <= y <= ly,
            0 <= x <= lx,
            w > 0,
            b >= 0,
    ;
}

/// The picture that the bitmap file `bytes` holds, or `None` where the
/// file cannot be read. The point of the picture that is put on a place is
/// its lower left corner.
pub fn decode(bytes: &[u8]) -> (r: Option<Bitmap>)
    ensures
        r is Some <==> readable(bytes@),
        r is Some ==> {
            let b = r->0;
            let h = spec_header(bytes@);
            &&& b.wf()
            &&& b.align_x == 0
            &&& b.align_y == 0
            &&& b.width == h.width
            &&& b.height == h.height
            &&& forall|j: int| 0 <= j < b.pixels@.len() ==> b.pixels@[j] == picture_byte(bytes@, j)
        },
{
    if bytes.len() < HEADER_LEN {
        return None;
    }
    let h = header(bytes);
    let alpha = !(h.red_mask | h.green_mask | h.blue_mask);
    if h.red_mask == 0 || h.green_mask == 0 || h.blue_mask == 0 || alpha == 0 {
        return None;
    }
    if h.width < 0 || h.height < 0 {
        return None;
    }
    let red_shift = h.red_mask.trailing_zeros();
    let green_shift = h.green_mask.trailing_zeros();
    let blue_shift = h.blue_mask.trailing_zeros();
    let alpha_shift = alpha.trailing_zeros();
    proof {
        vstd::std_specs::bits::axiom_u32_trailing_zeros(h.red_mask);
        vstd::std_specs::bits::axiom_u32_trailing_zeros(h.green_mask);
        vstd::std_specs::bits::axiom_u32_trailing_zeros(h.blue_mask);
        vstd::std_specs::bits::axiom_u32_trailing_zeros(alpha);
    }
    let width: u64 = h.width as u64;
    let height: u64 = h.height as u64;
    assert(width * height <= 0x4000_0000_0000_0000) by (nonlinear_arith)
        requires
            width <= 0x8000_0000,
            height <= 0x8000_0000,
    ;
    let count: u64 = width * height;
    if count as u128 * 4 != h.size_of_bitmap as u128 {
        return None;
    }
    let step: u64 = (h.bits_per_pixel / 8) as u64;
    assert(width * step <= 0x1_0000_0000_0000) by (nonlinear_arith)
        requires
            width <= 0x8000_0000,
            step <= 0x2000,
    ;
    let pitch: u64 = width * step;
    let size: usize = bytes.len();
    let len: u64 = size as u64;
    assert(count > 0 <==> width > 0 && height > 0) by (nonlinear_arith)
        requires
            count == width * height,
            width >= 0,
            height >= 0,
    ;
    if width > 0 && height > 0 {
        assert((height - 1) * pitch <= 0x8000_0000_0000_0000_0000) by (nonlinear_arith)
            requires
                height <= 0x8000_0000,
                height >= 1,
                pitch <= 0x1_0000_0000_0000,
        ;
        assert((width - 1) * step <= 0x1_0000_0000_0000) by (nonlinear_arith)
            requires
                1 <= width <= 0x8000_0000,
                step <= 0x2000,
        ;
        let last: u128 = h.bitmap_offset as u128 + (height as u128 - 1) * (pitch as u128) + (width
            as u128 - 1) * (step as u128);
        proof {
            lemma_pixel_within(h, count - 1, count as int);
            assert((count - 1) / (h.width as int) == height - 1 && (count - 1) % (h.width as int)
                == width - 1) by (nonlinear_arith)
                requires
                    count == width * height,
                    width == h.width,
                    width > 0,
                    height > 0,
            ;
            assert(last == pixel_start(h, count - 1));
        }
        if last + 4 > len as u128 {
            return None;
        }
    }
    assert(readable(bytes@));
    let mut result: Vec<u8> = Vec::new();
    let mut i: u64 = 0;
    while i < count
        invariant
            i <= count,
            readable(bytes@),
            h == spec_header(bytes@),
            count == h.width * h.height,
            width == h.width,
            height == h.height,
            step == pixel_bytes(h),
            pitch == width * step,
            len == bytes@.len(),
            size == bytes@.len(),
            red_shift == vstd::std_specs::bits::u32_trailing_zeros(h.red_mask),
            green_shift == vstd::std_specs::bits::u32_trailing_zeros(h.green_mask),
            blue_shift == vstd::std_specs::bits::u32_trailing_zeros(h.blue_mask),
            alpha_shift == vstd::std_specs::bits::u32_trailing_zeros(alpha_mask(h)),
            red_shift < 32,
            green_shift < 32,
            blue_shift < 32,
            alpha_shift < 32,
            count > 0 ==> width > 0 && height > 0,
            result@.len() == i * 4,
            forall|j: int| 0 <= j < result@.len() ==> result@[j] == picture_byte(bytes@, j),
        decreases count - i,
    {
        let x: u64 = i % width;
        let y: u64 = i / width;
        proof {
            lemma_pixel_within(h, i as int, count as int);
            lemma_pixel_within(h, count - 1, count as int);
            assert(0 <= y * pitch && 0 <= x * step && y * pitch == y * (h.width * pixel_bytes(h)))
                by (nonlinear_arith)
                requires
                    pitch == width * step,
                    width == h.width,
                    step == pixel_bytes(h),
                    y >= 0,
                    x >= 0,
                    step >= 0,
                    width >= 0,
            ;
        }
        assert(h.bitmap_offset + y * pitch + x * step == pixel_start(h, i as int));
        assert(pixel_start(h, i as int) + 4 <= len);
        let offset: u64 = h.bitmap_offset as u64 + y * pitch + x * step;
        assert(offset == pixel_start(h, i as int));
        assert(offset + 4 <= bytes@.len());
        let color = le_u32(bytes, offset as usize);
        assert(color == spec_le_u32(bytes@, pixel_start(h, i as int)));
        let ghost before = result@;
        let blue = channel(color, blue_shift);
        let green = channel(color, green_shift);
        let red = channel(color, red_shift);
        let alpha = channel(color, alpha_shift);
        result.push(blue);
        result.push(green);
        result.push(red);
        result.push(alpha);
        proof {
            let at = 4 * i as int;
            assert(result@ =~= before.push(blue).push(green).push(red).push(alpha));
            assert(picture_byte(bytes@, at) == blue) by {
                assert(at / 4 == i && at % 4 == 0);
            }
            assert(picture_byte(bytes@, at + 1) == green) by {
                assert((at + 1) / 4 == i && (at + 1) % 4 == 1);
            }
            assert(picture_byte(bytes@, at + 2) == red) by {
                assert((at + 2) / 4 == i && (at + 2) % 4 == 2);
            }
            assert(picture_byte(bytes@, at + 3) == alpha) by {
                assert((at + 3) / 4 == i && (at + 3) % 4 == 3);
            }
            assert forall|j: int| 0 <= j < result@.len() implies result@[j] == picture_byte(
                bytes@,
                j,
            ) by {
                if j < before.len() {
                    assert(result@[j] == before[j]);
                }
            }
        }
        i += 1;
    }
    Some(Bitmap { align_x: 0, align_y: 0, width: h.width as usize, height: h.height as usize, pixels: result })
}

} // verus!
