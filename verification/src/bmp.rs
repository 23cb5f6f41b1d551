//! Serialization of a pixel grid to the uncompressed bitmap byte layout:
//! a fixed 54-byte header followed by pixel rows written bottom-to-top,
//! each pixel as three bytes in blue, green, red order.

use vstd::arithmetic::div_mod::lemma_fundamental_div_mod_converse;
use vstd::arithmetic::mul::lemma_mul_is_commutative;
use vstd::arithmetic::mul::lemma_mul_is_distributive_add_other_way;
use vstd::arithmetic::mul::lemma_mul_nonnegative;
use vstd::prelude::*;

use crate::framebuffer::lemma_row_major_index;
use crate::framebuffer::Framebuffer;

verus! {

/// The four little-endian bytes of a 32-bit value.
pub open spec fn le4(v: int) -> Seq<u8> {
    seq![
        (v % 256) as u8,
        ((v / 256) % 256) as u8,
        ((v / 65536) % 256) as u8,
        ((v / 16777216) % 256) as u8,
    ]
}

/// The two little-endian bytes of a 16-bit value.
pub open spec fn le2(v: int) -> Seq<u8> {
    seq![(v % 256) as u8, ((v / 256) % 256) as u8]
}

/// The 54-byte bitmap file header for a `w` by `h` grid of 3-byte pixels:
/// the `BM` signature, the little-endian file size `54 + w*h*3`, reserved
/// zeros, pixel data offset 54, then the 40-byte info header with one color
/// plane, 24 bits per pixel, no compression, image data size `w*h*3`, and
/// zeroed resolution and palette fields.
pub open spec fn bmp_header_bytes(w: int, h: int) -> Seq<u8> {
    seq![0x42u8, 0x4Du8] + le4(54 + w * h * 3) + le4(0) + le4(54) + le4(40) + le4(w) + le4(h) + le2(
        1,
    ) + le2(24) + le4(0) + le4(w * h * 3) + le4(0) + le4(0) + le4(0) + le4(0)
}

/// The blue, green and red bytes of a packed color, in file order.
pub open spec fn bgr_bytes(c: u32) -> Seq<u8> {
    seq![(c % 256) as u8, ((c / 256) % 256) as u8, ((c / 65536) % 256) as u8]
}

/// Byte `i` of the pixel data: rows bottom-to-top, three bytes per pixel.
pub open spec fn pixel_byte(cells: Seq<u32>, w: int, h: int, i: int) -> u8 {
    let p = i / 3;
    let k = i % 3;
    let row_from_bottom = p / w;
    let col = p % w;
    bgr_bytes(cells[(h - 1 - row_from_bottom) * w + col])[k]
}

/// All pixel data bytes of a `w` by `h` grid.
pub open spec fn pixel_bytes(cells: Seq<u32>, w: int, h: int) -> Seq<u8> {
    Seq::new((w * h * 3) as nat, |i: int| pixel_byte(cells, w, h, i))
}

/// Append the four little-endian bytes of `v`.
fn push_le4(out: &mut Vec<u8>, v: u32)
    ensures
        final(out)@ == old(out)@ + le4(v as int),
{
    proof {
        assert(v % 256 < 256 && (v / 256) % 256 < 256 && (v / 65536) % 256 < 256 && (v
            / 16777216) % 256 < 256 && v & 0xFF == v % 256 && (v >> 8) & 0xFF == (v / 256) % 256 && (
        v >> 16) & 0xFF == (v / 65536) % 256 && (v >> 24) & 0xFF == (v / 16777216)
            % 256) by (bit_vector);
    }
    out.push((v & 0xFF) as u8);
    out.push(((v >> 8) & 0xFF) as u8);
    out.push(((v >> 16) & 0xFF) as u8);
    out.push(((v >> 24) & 0xFF) as u8);
    proof {
        assert(out@ =~= old(out)@ + le4(v as int));
    }
}

/// Append the two little-endian bytes of `v`.
fn push_le2(out: &mut Vec<u8>, v: u16)
    ensures
        final(out)@ == old(out)@ + le2(v as int),
{
    proof {
        assert(v % 256 < 256 && (v / 256) % 256 < 256 && v & 0xFF == v % 256 && (v >> 8) & 0xFF == (
        v / 256) % 256) by (bit_vector);
    }
    out.push((v & 0xFF) as u8);
    out.push(((v >> 8) & 0xFF) as u8);
    proof {
        assert(out@ =~= old(out)@ + le2(v as int));
    }
}

/// Produce the 54-byte bitmap header for a `w` by `h` grid.
#[verifier::rlimit(100)]
pub fn write_bmp_header(width: usize, height: usize) -> (out: Vec<u8>)
    requires
        width <= u32::MAX,
        height <= u32::MAX,
        54 + width * height * 3 <= u32::MAX,
    ensures
        out@ == bmp_header_bytes(width as int, height as int),
{
    let file_size = (54 + width * height * 3) as u32;
    let image_size = (width * height * 3) as u32;
    let mut out: Vec<u8> = Vec::new();
    out.push(0x42);
    out.push(0x4D);
    proof {
        assert(out@ =~= seq![0x42u8, 0x4Du8]);
    }
    push_le4(&mut out, file_size);
    push_le4(&mut out, 0);
    push_le4(&mut out, 54);
    push_le4(&mut out, 40);
    push_le4(&mut out, width as u32);
    push_le4(&mut out, height as u32);
    push_le2(&mut out, 1);
    push_le2(&mut out, 24);
    push_le4(&mut out, 0);
    push_le4(&mut out, image_size);
    push_le4(&mut out, 0);
    push_le4(&mut out, 0);
    push_le4(&mut out, 0);
    push_le4(&mut out, 0);
    proof {
        assert(out@ == bmp_header_bytes(width as int, height as int));
    }
    out
}

/// Serialize the pixel rows bottom-to-top, three bytes per pixel in blue,
/// green, red order.
#[verifier::loop_isolation(false)]
#[verifier::rlimit(100)]
pub fn write_pixel_data(buffer: &Vec<u32>, width: usize, height: usize) -> (out: Vec<u8>)
    requires
        buffer@.len() == width * height,
        width * height <= usize::MAX,
    ensures
        out@ == pixel_bytes(buffer@, width as int, height as int),
{
    let ghost w = width as int;
    let ghost h = height as int;
    let mut out: Vec<u8> = Vec::new();
    let mut done_rows: usize = 0;
    while done_rows < height
        invariant
            done_rows <= height,
            out@.len() == 3 * (done_rows * w),
            forall|i: int|
                0 <= i < out@.len() ==> #[trigger] out@[i] == pixel_byte(buffer@, w, h, i),
        decreases height - done_rows,
    {
        let y = height - 1 - done_rows;
        let mut x: usize = 0;
        while x < width
            invariant
                x <= width,
                done_rows < height,
                y == height - 1 - done_rows,
                out@.len() == 3 * (done_rows * w + x),
                forall|i: int|
                    0 <= i < out@.len() ==> #[trigger] out@[i] == pixel_byte(buffer@, w, h, i),
            decreases width - x,
        {
            proof {
                lemma_row_major_index(w, h, x as int, y as int);
            }
            let index = y * width + x;
            let c = buffer[index];
            proof {
                assert(c % 256 < 256 && (c / 256) % 256 < 256 && (c / 65536) % 256 < 256 && c
                    & 0xFF == c % 256 && (c >> 8) & 0xFF == (c / 256) % 256 && (c >> 16) & 0xFF == (
                c / 65536) % 256) by (bit_vector);
                let p = done_rows as int * w + x as int;
                lemma_mul_nonnegative(done_rows as int, w);
                lemma_fundamental_div_mod_converse(3 * p, 3, p, 0);
                lemma_fundamental_div_mod_converse(3 * p + 1, 3, p, 1);
                lemma_fundamental_div_mod_converse(3 * p + 2, 3, p, 2);
                lemma_fundamental_div_mod_converse(p, w, done_rows as int, x as int);
                assert(pixel_byte(buffer@, w, h, 3 * p) == bgr_bytes(buffer@[y as int * w
                    + x as int])[0]);
                assert(pixel_byte(buffer@, w, h, 3 * p + 1) == bgr_bytes(buffer@[y as int * w
                    + x as int])[1]);
                assert(pixel_byte(buffer@, w, h, 3 * p + 2) == bgr_bytes(buffer@[y as int * w
                    + x as int])[2]);
            }
            out.push((c & 0xFF) as u8);
            out.push(((c >> 8) & 0xFF) as u8);
            out.push(((c >> 16) & 0xFF) as u8);
            x = x + 1;
        }
        proof {
            lemma_mul_is_distributive_add_other_way(w, done_rows as int, 1);
            vstd::arithmetic::mul::lemma_mul_basics(w);
        }
        done_rows = done_rows + 1;
    }
    proof {
        lemma_mul_is_commutative(h, w);
        assert(out@ =~= pixel_bytes(buffer@, w, h));
    }
    out
}

/// The value of four little-endian bytes read back from `b` at `off`.
pub open spec fn le4_value(b: Seq<u8>, off: int) -> int {
    b[off] + b[off + 1] * 256 + b[off + 2] * 65536 + b[off + 3] * 16777216
}

/// The packed color read back from three bytes in blue, green, red order.
pub open spec fn bgr_value(b: Seq<u8>, off: int) -> int {
    b[off] + b[off + 1] * 256 + b[off + 2] * 65536
}

/// The little-endian bytes of a 32-bit value read back as that value.
proof fn lemma_le4_roundtrip(v: u32)
    ensures
        le4(v as int)[0] + le4(v as int)[1] * 256 + le4(v as int)[2] * 65536 + le4(v as int)[3]
            * 16777216 == v,
{
    assert(v % 256 + ((v / 256) % 256) * 256 + ((v / 65536) % 256) * 65536 + ((v / 16777216) % 256)
        * 16777216 == v) by (bit_vector);
}

/// Round trip: reading the exported bytes back recovers the header's
/// declared file size, width and height, and, for every pixel, the original
/// packed color from its three data bytes.
pub proof fn lemma_bmp_roundtrip(cells: Seq<u32>, w: int, h: int, x: int, y: int)
    requires
        cells.len() == w * h,
        forall|i: int| 0 <= i < cells.len() ==> (#[trigger] cells[i]) < 0x1000000,
        0 <= w <= u32::MAX,
        0 <= h <= u32::MAX,
        54 + w * h * 3 <= u32::MAX,
        0 <= x < w,
        0 <= y < h,
    ensures
        (bmp_header_bytes(w, h) + pixel_bytes(cells, w, h)).len() == 54 + w * h * 3,
        le4_value(bmp_header_bytes(w, h) + pixel_bytes(cells, w, h), 2) == 54 + w * h * 3,
        le4_value(bmp_header_bytes(w, h) + pixel_bytes(cells, w, h), 18) == w,
        le4_value(bmp_header_bytes(w, h) + pixel_bytes(cells, w, h), 22) == h,
        bgr_value(bmp_header_bytes(w, h) + pixel_bytes(cells, w, h), 54 + 3 * ((h - 1 - y) * w + x))
            == cells[y * w + x],
{
    let header = bmp_header_bytes(w, h);
    let data = pixel_bytes(cells, w, h);
    let bytes = header + data;
    assert(header.len() == 54);
    lemma_le4_roundtrip((54 + w * h * 3) as u32);
    lemma_le4_roundtrip(w as u32);
    lemma_le4_roundtrip(h as u32);
    assert(le4_value(bytes, 2) == 54 + w * h * 3);
    assert(le4_value(bytes, 18) == w);
    assert(le4_value(bytes, 22) == h);
    let row_from_bottom = h - 1 - y;
    let p = row_from_bottom * w + x;
    lemma_row_major_index(w, h, x, row_from_bottom);
    lemma_fundamental_div_mod_converse(3 * p, 3, p, 0);
    lemma_fundamental_div_mod_converse(3 * p + 1, 3, p, 1);
    lemma_fundamental_div_mod_converse(3 * p + 2, 3, p, 2);
    lemma_fundamental_div_mod_converse(p, w, row_from_bottom, x);
    lemma_row_major_index(w, h, x, y);
    let c = cells[y * w + x];
    assert(bytes[54 + 3 * p] == bgr_bytes(c)[0]);
    assert(bytes[54 + 3 * p + 1] == bgr_bytes(c)[1]);
    assert(bytes[54 + 3 * p + 2] == bgr_bytes(c)[2]);
    assert(c % 256 + ((c / 256) % 256) * 256 + ((c / 65536) % 256) * 65536 == c) by (bit_vector)
        requires
            c < 0x1000000,
    ;
}

impl Framebuffer {
    /// Serialize the grid to bitmap file bytes: the 54-byte header followed
    /// by the pixel data.
    pub fn render_buffer(&self) -> (out: Vec<u8>)
        requires
            self.wf(),
            self.width <= u32::MAX,
            self.height <= u32::MAX,
            54 + self.width * self.height * 3 <= u32::MAX,
        ensures
            out@ == bmp_header_bytes(self.width as int, self.height as int) + pixel_bytes(
                self.cells(),
                self.width as int,
                self.height as int,
            ),
    {
        let mut out = write_bmp_header(self.width, self.height);
        let mut data = write_pixel_data(&self.buffer, self.width, self.height);
        out.append(&mut data);
        out
    }
}

} // verus!
