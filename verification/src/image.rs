//! An in-memory framebuffer and its serialization to the uncompressed bitmap
//! file format: a 14-byte file header, a 40-byte DIB block, then pixel rows
//! padded to four-byte boundaries, all little-endian.
//!
//! The encoder produces the file as a byte vector; writing those bytes to a
//! file or a stream is the caller's business.

use vstd::prelude::*;
use byteorder::{LittleEndian, WriteBytesExt};

verus! {

const PIXEL_START: i32 = 54;

const DIB_SIZE: i32 = 40;

const COMPRESSION: i32 = 0;

const DATA_SIZE: i32 = 0;

const H_RESOLUTION: i32 = 3780;

const V_RESOLUTION: i32 = 3780;

const PALETTE_SIZE: i32 = 0;

const IMPORTANT: i32 = 0;

/// A pixel's color: full RGB, a grey level, or black.
#[derive(Debug, Clone, Copy, PartialEq, Eq, Structural)]
pub enum Color {
    RGB(u8, u8, u8),
    Grey(u8),
    Black,
}

/// The four little-endian bytes of a nonnegative 32-bit value.
pub open spec fn le4(v: int) -> Seq<u8>
    recommends
        0 <= v < 0x1_0000_0000,
{
    seq![
        (v % 256) as u8,
        ((v / 256) % 256) as u8,
        ((v / 65536) % 256) as u8,
        ((v / 16777216) % 256) as u8,
    ]
}

/// The two little-endian bytes of a nonnegative 16-bit value.
pub open spec fn le2(v: int) -> Seq<u8>
    recommends
        0 <= v < 0x1_0000,
{
    seq![(v % 256) as u8, ((v / 256) % 256) as u8]
}

/// Relies on byteorder's `WriteBytesExt::write_i32` with the `LittleEndian`
/// order: it appends the four little-endian bytes of the value, and a write
/// into a `Vec<u8>` cannot fail.
#[verifier::external_body]
fn push_i32_le(buf: &mut Vec<u8>, v: i32)
    requires
        0 <= v,
    ensures
        final(buf)@ == old(buf)@ + le4(v as int),
{
    buf.write_i32::<LittleEndian>(v).unwrap();
}

/// Relies on byteorder's `WriteBytesExt::write_i16` with the `LittleEndian`
/// order: it appends the two little-endian bytes of the value, and a write
/// into a `Vec<u8>` cannot fail.
#[verifier::external_body]
fn push_i16_le(buf: &mut Vec<u8>, v: i16)
    requires
        0 <= v,
    ensures
        final(buf)@ == old(buf)@ + le2(v as int),
{
    buf.write_i16::<LittleEndian>(v).unwrap();
}

/// Relies on byteorder's `WriteBytesExt::write_u16` with the `LittleEndian`
/// order: it appends the two little-endian bytes of the value, and a write
/// into a `Vec<u8>` cannot fail.
#[verifier::external_body]
fn push_u16_le(buf: &mut Vec<u8>, v: u16)
    ensures
        final(buf)@ == old(buf)@ + le2(v as int),
{
    buf.write_u16::<LittleEndian>(v).unwrap();
}

/// A 24-bit pixel: blue, green, red.
pub open spec fn bgr_of(c: Color) -> Seq<u8> {
    match c {
        Color::RGB(r, g, b) => seq![b, g, r],
        Color::Grey(g) => seq![g, g, g],
        Color::Black => seq![0u8, 0u8, 0u8],
    }
}

/// An 8-bit pixel: one grey byte; RGB channels are averaged.
pub open spec fn grey_of(c: Color) -> Seq<u8> {
    match c {
        Color::RGB(r, g, b) => seq![((r as int + g as int + b as int) / 3) as u8],
        Color::Grey(g) => seq![g],
        Color::Black => seq![0u8],
    }
}

/// The bytes of one pixel at the given bit depth.
pub open spec fn pixel_encoding(c: Color, depth: int) -> Seq<u8> {
    if depth == 8 {
        grey_of(c)
    } else {
        bgr_of(c)
    }
}

/// The unpadded byte length of one pixel row.
pub open spec fn row_base_len(width: int, depth: int) -> int {
    width * depth / 8
}

/// The zero bytes that bring a row up to the next multiple of four
/// (none if the row is already aligned).
pub open spec fn row_pad_len(width: int, depth: int) -> int {
    if row_base_len(width, depth) % 4 == 0 {
        0
    } else {
        4 - row_base_len(width, depth) % 4
    }
}

/// The whole file's byte count: the two headers, then the padded rows.
pub open spec fn file_size_of(width: int, height: int, depth: int) -> int {
    54 + (row_base_len(width, depth) + row_pad_len(width, depth)) * height
}

/// The 14-byte file header: magic "BM", total file size, four reserved zero
/// bytes, and the fixed pixel-array offset.
pub open spec fn header_of(size: int) -> Seq<u8> {
    seq![0x42u8, 0x4Du8] + le4(size) + le2(0) + le2(0) + le4(54)
}

/// The 40-byte DIB block. The height field carries the width value, kept
/// byte-for-byte compatible with this encoder's established output; square
/// tiles are unaffected.
pub open spec fn dib_of(width: int, depth: int) -> Seq<u8> {
    le4(40) + le4(width) + le4(width) + le2(1) + le2(depth) + le4(0) + le4(0) + le4(3780) + le4(
        3780,
    ) + le4(0) + le4(0)
}

/// `n` zero bytes.
pub open spec fn pad_zeros(n: int) -> Seq<u8>
    recommends
        0 <= n,
{
    Seq::new(n as nat, |i: int| 0u8)
}

/// The encodings of the first `n` pixels of row `y`, concatenated.
pub open spec fn row_pixels(pix: Seq<Color>, width: int, depth: int, y: int, n: int) -> Seq<u8>
    decreases n,
{
    if n <= 0 {
        Seq::<u8>::empty()
    } else {
        row_pixels(pix, width, depth, y, n - 1) + pixel_encoding(pix[y * width + (n - 1)], depth)
    }
}

/// The first `m` padded rows, top to bottom, concatenated.
pub open spec fn rows_bytes(pix: Seq<Color>, width: int, depth: int, m: int) -> Seq<u8>
    decreases m,
{
    if m <= 0 {
        Seq::<u8>::empty()
    } else {
        rows_bytes(pix, width, depth, m - 1) + row_pixels(pix, width, depth, m - 1, width)
            + pad_zeros(row_pad_len(width, depth))
    }
}

/// The complete serialized file of a bitmap.
pub open spec fn file_bytes(b: Bitmap) -> Seq<u8> {
    header_of(file_size_of(b.spec_width(), b.spec_height(), b.spec_depth())) + dib_of(
        b.spec_width(),
        b.spec_depth(),
    ) + rows_bytes(b.pixels(), b.spec_width(), b.spec_depth(), b.spec_height())
}

/// An in-memory framebuffer destined for file output.
///
/// The pixel buffer is row-major (`index = width * y + x`) and logically
/// black wherever no color was ever stored.
#[derive(Debug)]
pub struct Bitmap {
    width: i32,
    height: i32,
    depth: i16,
    data: Vec<Color>,
}

impl Bitmap {
    /// The width in pixels.
    pub closed spec fn spec_width(self) -> int {
        self.width as int
    }

    /// The height in pixels.
    pub closed spec fn spec_height(self) -> int {
        self.height as int
    }

    /// The bit depth: 8 or 24.
    pub closed spec fn spec_depth(self) -> int {
        self.depth as int
    }

    /// The logical pixel buffer: `width * height` colors, black where never
    /// set.
    pub closed spec fn pixels(self) -> Seq<Color> {
        Seq::new(
            (self.width as int * self.height as int) as nat,
            |i: int|
                if 0 <= i < self.data@.len() {
                    self.data@[i]
                } else {
                    Color::Black
                },
        )
    }

    /// Well-formedness: an accepted bit depth, nonnegative extents whose
    /// product fits the size field, and a backing store within capacity.
    /// Established by `new` and preserved by every method.
    pub closed spec fn inv(self) -> bool {
        &&& (self.depth == 8 || self.depth == 24)
        &&& 0 <= self.width
        &&& 0 <= self.height
        &&& (self.width as int) * (self.height as int) <= i32::MAX
        &&& self.data@.len() <= (self.width as int) * (self.height as int)
    }

    /// The width in pixels.
    pub fn width(&self) -> (r: i32)
        ensures
            r as int == self.spec_width(),
    {
        self.width
    }

    /// The height in pixels.
    pub fn height(&self) -> (r: i32)
        ensures
            r as int == self.spec_height(),
    {
        self.height
    }

    /// The bit depth: 8 or 24.
    pub fn depth(&self) -> (r: i16)
        ensures
            r as int == self.spec_depth(),
    {
        self.depth
    }

    /// Accepts exactly the bit depths 8 and 24; any other depth yields no
    /// bitmap. A fresh bitmap's buffer is logically all black.
    pub fn new(width: i32, height: i32, depth: i16) -> (r: Option<Bitmap>)
        requires
            0 <= width,
            0 <= height,
            (width as int) * (height as int) <= i32::MAX,
        ensures
            r is Some <==> (depth == 8 || depth == 24),
            r is Some ==> {
                &&& r.unwrap().inv()
                &&& r.unwrap().spec_width() == width as int
                &&& r.unwrap().spec_height() == height as int
                &&& r.unwrap().spec_depth() == depth as int
                &&& r.unwrap().pixels() == Seq::new(
                    ((width as int) * (height as int)) as nat,
                    |i: int| Color::Black,
                )
            },
    {
        match depth {
            8 | 24 => {
                let b = Bitmap { width, height, depth, data: Vec::new() };
                proof {
                    assert(b.pixels() =~= Seq::new(
                        ((width as int) * (height as int)) as nat,
                        |i: int| Color::Black,
                    ));
                }
                Some(b)
            },
            _ => None,
        }
    }

    /// Stores a color at row-major index `width * y + x`. A write whose index
    /// falls outside the `width * height` buffer is silently dropped.
    pub fn set(&mut self, x: i32, y: i32, color: Color)
        requires
            old(self).inv(),
        ensures
            final(self).inv(),
            final(self).spec_width() == old(self).spec_width(),
            final(self).spec_height() == old(self).spec_height(),
            final(self).spec_depth() == old(self).spec_depth(),
            ({
                let idx = old(self).spec_width() * (y as int) + (x as int);
                if 0 <= idx && idx < old(self).spec_width() * old(self).spec_height() {
                    final(self).pixels() == old(self).pixels().update(idx, color)
                } else {
                    final(self).pixels() == old(self).pixels()
                }
            }),
    {
        proof {
            assert(-0x4000_0000_0000_0000 <= (self.width as int) * (y as int) <= 0x4000_0000_0000_0000)
                by (nonlinear_arith)
                requires
                    -0x8000_0000 <= self.width as int <= 0x7fff_ffff,
                    -0x8000_0000 <= y as int <= 0x7fff_ffff,
            ;
        }
        let idx64: i64 = (self.width as i64) * (y as i64) + (x as i64);
        let cap64: i64 = (self.width as i64) * (self.height as i64);
        if 0 <= idx64 && idx64 < cap64 {
            let idx: usize = idx64 as usize;
            while self.data.len() <= idx
                invariant
                    self.width == old(self).width,
                    self.height == old(self).height,
                    self.depth == old(self).depth,
                    idx as int == idx64 as int,
                    0 <= idx64 as int,
                    (idx64 as int) < (self.width as int) * (self.height as int),
                    old(self).data@.len() <= self.data@.len(),
                    self.data@.len() <= vstd::math::max(
                        old(self).data@.len() as int,
                        idx as int + 1,
                    ),
                    old(self).inv(),
                    forall|j: int|
                        0 <= j < old(self).data@.len() ==> #[trigger] self.data@[j] == old(
                            self,
                        ).data@[j],
                    forall|j: int|
                        old(self).data@.len() <= j < self.data@.len() ==> #[trigger] self.data@[j]
                            == Color::Black,
                decreases idx + 1 - self.data@.len(),
            {
                self.data.push(Color::Black);
            }
            self.data[idx] = color;
            proof {
                let w = old(self).spec_width();
                let h = old(self).spec_height();
                let i0 = w * (y as int) + (x as int);
                assert(i0 == idx64 as int);
                assert forall|i: int| 0 <= i < w * h implies #[trigger] self.pixels()[i] == old(
                    self,
                ).pixels().update(i0, color)[i] by {
                    if i != i0 {
                        if i < old(self).data@.len() {
                            assert(self.data@[i] == old(self).data@[i]);
                        } else if i < self.data@.len() {
                            assert(self.data@[i] == Color::Black);
                        }
                    }
                }
                assert(self.pixels() =~= old(self).pixels().update(i0, color));
            }
        } else {
            proof {
                assert(self.pixels() =~= old(self).pixels());
            }
        }
    }

    /// Serializes the bitmap: file header, DIB block, then the padded pixel
    /// rows, top to bottom. The caller hands the bytes to whatever sink it
    /// likes.
    pub fn write_out(&self) -> (out: Vec<u8>)
        requires
            self.inv(),
            file_size_of(self.spec_width(), self.spec_height(), self.spec_depth()) <= i32::MAX,
        ensures
            out@ == file_bytes(*self),
            out@.len() == file_size_of(self.spec_width(), self.spec_height(), self.spec_depth()),
    {
        proof {
            assert(0 <= (self.width as int) * (self.depth as int) <= 0x1_0000_0000_0000)
                by (nonlinear_arith)
                requires
                    0 <= self.width as int <= 0x7fff_ffff,
                    self.depth as int == 8 || self.depth as int == 24,
            ;
            lemma_row_padding(self.spec_width(), self.spec_depth());
        }
        let row_base: i64 = (self.width as i64) * (self.depth as i64) / 8;
        let row_padding: i64 = if row_base % 4 == 0 {
            0
        } else {
            4 - row_base % 4
        };
        proof {
            assert(row_base as int == row_base_len(self.spec_width(), self.spec_depth()));
            assert(row_padding as int == row_pad_len(self.spec_width(), self.spec_depth()));
            assert(0 <= (row_base as int + row_padding as int) * (self.height as int))
                by (nonlinear_arith)
                requires
                    0 <= row_base as int + row_padding as int,
                    0 <= self.height as int,
            ;
        }
        let size: i64 = 54 + (row_base + row_padding) * (self.height as i64);
        let size32: i32 = size as i32;
        let mut out: Vec<u8> = Vec::new();
        self.write_header(&mut out, size32);
        self.write_dib(&mut out);
        self.write_pixels(&mut out, row_padding as i32);
        proof {
            assert(out@ =~= file_bytes(*self));
            lemma_rows_bytes_len(
                self.pixels(),
                self.spec_width(),
                self.spec_depth(),
                self.spec_height(),
            );
        }
        out
    }

    /// Appends the 14-byte file header.
    fn write_header(&self, buf: &mut Vec<u8>, size: i32)
        requires
            0 <= size,
        ensures
            final(buf)@ == old(buf)@ + header_of(size as int),
    {
        buf.push(0x42u8);
        buf.push(0x4Du8);
        push_i32_le(buf, size);
        push_u16_le(buf, 0);
        push_u16_le(buf, 0);
        push_i32_le(buf, PIXEL_START);
        proof {
            assert(buf@ =~= old(buf)@ + header_of(size as int));
        }
    }

    /// Appends the 40-byte DIB block; see `dib_of` for the height field.
    fn write_dib(&self, buf: &mut Vec<u8>)
        requires
            self.inv(),
        ensures
            final(buf)@ == old(buf)@ + dib_of(self.spec_width(), self.spec_depth()),
    {
        push_i32_le(buf, DIB_SIZE);
        push_i32_le(buf, self.width);
        push_i32_le(buf, self.width);
        push_i16_le(buf, 1);
        push_i16_le(buf, self.depth);
        push_i32_le(buf, COMPRESSION);
        push_i32_le(buf, DATA_SIZE);
        push_i32_le(buf, H_RESOLUTION);
        push_i32_le(buf, V_RESOLUTION);
        push_i32_le(buf, PALETTE_SIZE);
        push_i32_le(buf, IMPORTANT);
        proof {
            assert(buf@ =~= old(buf)@ + dib_of(self.spec_width(), self.spec_depth()));
        }
    }

    /// Appends every pixel row, each one followed by `row_padding` zero
    /// bytes.
    fn write_pixels(&self, buf: &mut Vec<u8>, row_padding: i32)
        requires
            self.inv(),
            row_padding as int == row_pad_len(self.spec_width(), self.spec_depth()),
        ensures
            final(buf)@ == old(buf)@ + rows_bytes(
                self.pixels(),
                self.spec_width(),
                self.spec_depth(),
                self.spec_height(),
            ),
    {
        let ghost pix = self.pixels();
        let ghost w = self.spec_width();
        let ghost d = self.spec_depth();
        let mut y: i32 = 0;
        while y < self.height
            invariant
                self.inv(),
                row_padding as int == row_pad_len(w, d),
                pix == self.pixels(),
                w == self.spec_width(),
                d == self.spec_depth(),
                0 <= y as int <= self.spec_height(),
                buf@ == old(buf)@ + rows_bytes(pix, w, d, y as int),
            decreases self.spec_height() - y as int,
        {
            let ghost row_start = buf@;
            let mut x: i32 = 0;
            while x < self.width
                invariant
                    self.inv(),
                    pix == self.pixels(),
                    w == self.spec_width(),
                    d == self.spec_depth(),
                    0 <= y as int && (y as int) < self.spec_height(),
                    0 <= x as int <= self.spec_width(),
                    buf@ == row_start + row_pixels(pix, w, d, y as int, x as int),
                decreases self.spec_width() - x as int,
            {
                proof {
                    assert(0 <= w * (y as int) + (x as int) && w * (y as int) + (x as int) < w
                        * (self.spec_height())) by (nonlinear_arith)
                        requires
                            0 <= x as int && (x as int) < w,
                            0 <= y as int && (y as int) < self.spec_height(),
                    ;
                }
                let c = self.get_pixel(x, y);
                let bytes = if self.depth == 8 {
                    to_grey(c)
                } else {
                    to_bgr(c)
                };
                let ghost before = buf@;
                let mut j: usize = 0;
                while j < bytes.len()
                    invariant
                        j <= bytes@.len(),
                        buf@ == before + bytes@.take(j as int),
                    decreases bytes@.len() - j,
                {
                    buf.push(bytes[j]);
                    proof {
                        assert(bytes@.take(j as int + 1) =~= bytes@.take(j as int).push(
                            bytes@[j as int],
                        ));
                    }
                    j += 1;
                }
                proof {
                    assert(bytes@.take(bytes@.len() as int) =~= bytes@);
                    assert(bytes@ == pixel_encoding(pix[(y as int) * w + (x as int)], d));
                    assert(buf@ =~= row_start + row_pixels(pix, w, d, y as int, x as int + 1));
                }
                x += 1;
            }
            let mut p: i32 = 0;
            while p < row_padding
                invariant
                    0 <= p as int <= row_padding as int,
                    buf@ == row_start + row_pixels(pix, w, d, y as int, w) + pad_zeros(p as int),
                decreases row_padding as int - p as int,
            {
                buf.push(0u8);
                proof {
                    assert(pad_zeros(p as int + 1) =~= pad_zeros(p as int).push(0u8));
                    assert(buf@ =~= row_start + row_pixels(pix, w, d, y as int, w) + pad_zeros(
                        p as int + 1,
                    ));
                }
                p += 1;
            }
            proof {
                assert(buf@ =~= old(buf)@ + rows_bytes(pix, w, d, y as int + 1));
            }
            y += 1;
        }
    }

    /// Reads the logical pixel at row-major index `width * y + x`; a cell
    /// never stored reads as black.
    pub fn get_pixel(&self, x: i32, y: i32) -> (r: Color)
        requires
            self.inv(),
            0 <= self.spec_width() * (y as int) + (x as int),
            self.spec_width() * (y as int) + (x as int) < self.spec_width() * self.spec_height(),
        ensures
            r == self.pixels()[self.spec_width() * (y as int) + (x as int)],
    {
        proof {
            assert(-0x4000_0000_0000_0000 <= (self.width as int) * (y as int) <= 0x4000_0000_0000_0000)
                by (nonlinear_arith)
                requires
                    -0x8000_0000 <= self.width as int <= 0x7fff_ffff,
                    -0x8000_0000 <= y as int <= 0x7fff_ffff,
            ;
        }
        let idx64: i64 = (self.width as i64) * (y as i64) + (x as i64);
        let idx: usize = idx64 as usize;
        if idx < self.data.len() {
            self.data[idx]
        } else {
            Color::Black
        }
    }
}

/// The blue-green-red bytes of one 24-bit pixel.
pub fn to_bgr(color: Color) -> (out: Vec<u8>)
    ensures
        out@ == bgr_of(color),
{
    let mut out: Vec<u8> = Vec::new();
    match color {
        Color::RGB(r, g, b) => {
            out.push(b);
            out.push(g);
            out.push(r);
        },
        Color::Grey(g) => {
            out.push(g);
            out.push(g);
            out.push(g);
        },
        Color::Black => {
            out.push(0u8);
            out.push(0u8);
            out.push(0u8);
        },
    }
    proof {
        assert(out@ =~= bgr_of(color));
    }
    out
}

/// Law: for the accepted bit depths, the row padding is the smallest count
/// of zero bytes that brings the row to a four-byte boundary: the padded row
/// length is a multiple of four, and fewer than four bytes above the bare
/// row.
pub proof fn lemma_row_padding(width: int, depth: int)
    requires
        0 <= width,
        depth == 8 || depth == 24,
    ensures
        0 <= row_pad_len(width, depth) < 4,
        0 <= row_base_len(width, depth),
        (row_base_len(width, depth) + row_pad_len(width, depth)) % 4 == 0,
        row_base_len(width, depth) + row_pad_len(width, depth) < row_base_len(width, depth) + 4,
{
    let b = row_base_len(width, depth);
    assert(0 <= width * depth && width * depth / 8 * 8 <= width * depth) by (nonlinear_arith)
        requires
            0 <= width,
            depth == 8 || depth == 24,
    ;
    assert(0 <= b % 4 < 4) by (nonlinear_arith)
        requires
            0 <= b,
    ;
    if b % 4 != 0 {
        assert((b + (4 - b % 4)) % 4 == 0) by (nonlinear_arith)
            requires
                0 <= b,
        ;
    }
}

proof fn lemma_row_pixels_len(pix: Seq<Color>, width: int, depth: int, y: int, n: int)
    requires
        depth == 8 || depth == 24,
        0 <= n,
    ensures
        row_pixels(pix, width, depth, y, n).len() == n * (depth / 8),
    decreases n,
{
    if n == 0 {
    } else {
        lemma_row_pixels_len(pix, width, depth, y, n - 1);
        assert(pixel_encoding(pix[y * width + (n - 1)], depth).len() == depth / 8);
        assert((n - 1) * (depth / 8) + (depth / 8) == n * (depth / 8)) by (nonlinear_arith);
    }
}

proof fn lemma_rows_bytes_len(pix: Seq<Color>, width: int, depth: int, m: int)
    requires
        depth == 8 || depth == 24,
        0 <= width,
        0 <= m,
    ensures
        rows_bytes(pix, width, depth, m).len() == (row_base_len(width, depth) + row_pad_len(
            width,
            depth,
        )) * m,
    decreases m,
{
    if m == 0 {
    } else {
        lemma_rows_bytes_len(pix, width, depth, m - 1);
        lemma_row_pixels_len(pix, width, depth, m - 1, width);
        lemma_row_padding(width, depth);
        assert(width * (depth / 8) == width * depth / 8) by (nonlinear_arith)
            requires
                0 <= width,
                depth == 8 || depth == 24,
        ;
        let r = row_base_len(width, depth) + row_pad_len(width, depth);
        assert(r * (m - 1) + r == r * m) by (nonlinear_arith);
    }
}

/// The single grey byte of one 8-bit pixel; RGB channels are averaged.
pub fn to_grey(color: Color) -> (out: Vec<u8>)
    ensures
        out@ == grey_of(color),
{
    let mut out: Vec<u8> = Vec::new();
    match color {
        Color::RGB(r, g, b) => {
            let v: u32 = (r as u32 + g as u32 + b as u32) / 3;
            out.push(v as u8);
        },
        Color::Grey(g) => {
            out.push(g);
        },
        Color::Black => {
            out.push(0u8);
        },
    }
    proof {
        assert(out@ =~= grey_of(color));
    }
    out
}

} // verus!
