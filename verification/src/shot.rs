//! A frame read back into memory: RGBA bytes, row by row, and the same frame
//! as a PNG file.
use vstd::prelude::*;

verus! {

/// The bytes that the `png` crate writes for an 8-bit RGBA image of
/// `width` by `height` pixels with the given rows, at its default settings.
pub uninterp spec fn png_rgba8(width: u32, height: u32, pixels: Seq<u8>) -> Seq<u8>;

/// The eight bytes every PNG file starts with.
pub open spec fn png_signature() -> Seq<u8> {
    seq![137u8, 80, 78, 71, 13, 10, 26, 10]
}

/// The four big-endian bytes of `x`.
pub open spec fn be_bytes(x: u32) -> Seq<u8> {
    seq![(x / 16777216) as u8, (x / 65536 % 256) as u8, (x / 256 % 256) as u8, (x % 256) as u8]
}

/// A PNG file that opens with the signature and an `IHDR` chunk declaring a
/// `width` by `height` image, eight bits per sample, RGBA, not interlaced.
pub open spec fn rgba8_header(bytes: Seq<u8>, width: u32, height: u32) -> bool {
    &&& bytes.len() >= 29
    &&& bytes.subrange(0, 8) == png_signature()
    &&& bytes.subrange(8, 12) == be_bytes(13)
    &&& bytes.subrange(12, 16) == seq![73u8, 72, 68, 82]
    &&& bytes.subrange(16, 20) == be_bytes(width)
    &&& bytes.subrange(20, 24) == be_bytes(height)
    &&& bytes.subrange(24, 29) == seq![8u8, 6, 0, 0, 0]
}

/// Encodes 8-bit RGBA rows as a PNG file with `png::Encoder`, in memory.
///
/// Trusted: the encoder fails exactly on a zero width, a zero height
/// (`write_header`) or rows of the wrong length (`write_image_data`); writing
/// into a `Vec` does not fail. Its bytes are named by [`png_rgba8`]; of them
/// only the signature and the `IHDR` chunk that `encode_header` writes first
/// are stated. The error message is the encoder's own and is not stated.
#[verifier::external_body]
fn encode_rgba8(width: u32, height: u32, pixels: &[u8]) -> (r: Result<Vec<u8>, String>)
    requires
        width * 4 * height + width * 4 + 1 <= usize::MAX,
    ensures
        r is Ok <==> (width > 0 && height > 0 && pixels@.len() == width * height * 4),
        r matches Ok(bytes) ==> bytes@ == png_rgba8(width, height, pixels@),
        r matches Ok(bytes) ==> rgba8_header(bytes@, width, height),
{
    let mut bytes: Vec<u8> = Vec::new();
    let mut encoder = png::Encoder::new(&mut bytes, width, height);
    encoder.set_color(png::ColorType::Rgba);
    encoder.set_depth(png::BitDepth::Eight);
    let mut writer = encoder.write_header().map_err(|e| e.to_string())?;
    writer.write_image_data(pixels).map_err(|e| e.to_string())?;
    writer.finish().map_err(|e| e.to_string())?;
    Ok(bytes)
}

/// The rows of a read-back buffer with the padding dropped: of each of the
/// first `rows` rows, which start `padded` bytes apart, its first `unpadded`
/// bytes, in order.
pub open spec fn unpadded_rows(data: Seq<u8>, unpadded: int, padded: int, rows: int) -> Seq<u8>
    decreases rows,
{
    if rows <= 0 {
        Seq::empty()
    } else {
        unpadded_rows(data, unpadded, padded, rows - 1) + data.subrange(
            (rows - 1) * padded,
            (rows - 1) * padded + unpadded,
        )
    }
}

/// `rows` rows of `unpadded` bytes make `rows * unpadded` bytes.
pub proof fn lemma_unpadded_len(data: Seq<u8>, unpadded: int, padded: int, rows: int)
    requires
        0 <= unpadded <= padded,
        0 <= rows,
        rows == 0 || (rows - 1) * padded + unpadded <= data.len(),
    ensures
        unpadded_rows(data, unpadded, padded, rows).len() == rows * unpadded,
    decreases rows,
{
    if rows > 0 {
        assert(0 <= (rows - 1) * padded) by (nonlinear_arith)
            requires
                rows >= 1,
                padded >= 0,
        ;
        if rows > 1 {
            assert((rows - 2) * padded <= (rows - 1) * padded) by (nonlinear_arith)
                requires
                    padded >= 0,
            ;
        }
        lemma_unpadded_len(data, unpadded, padded, rows - 1);
        assert(rows * unpadded == (rows - 1) * unpadded + unpadded) by (nonlinear_arith);
    }
}

/// Bytes in one row of a read-back buffer: the row's `width * 4` bytes
/// rounded up to a multiple of 256, the alignment a texture-to-buffer copy
/// demands.
pub fn padded_row_bytes(width: u32) -> (n: u32)
    requires
        width * 4 + 255 <= u32::MAX,
    ensures
        n % 256 == 0,
        width * 4 <= n < width * 4 + 256,
{
    let unpadded = width * 4;
    (unpadded + 255) / 256 * 256
}

/// A frame in memory: `width * height` pixels, four bytes each, rows of
/// constant `y` one after another.
pub struct Shot {
    pub width: u32,
    pub height: u32,
    pub pixels: Vec<u8>,
}

impl Shot {
    /// Where pixel `(x, y)` starts in `pixels`.
    pub open spec fn offset_of(&self, x: int, y: int) -> int {
        (y * self.width + x) * 4
    }

    /// The four bytes of pixel `(x, y)`: red, green, blue, alpha.
    pub fn pixel(&self, x: u32, y: u32) -> (p: [u8; 4])
        requires
            y * self.width + x <= u32::MAX,
            (y * self.width + x) * 4 <= u32::MAX,
            self.offset_of(x as int, y as int) + 4 <= self.pixels@.len(),
        ensures
            forall|k: int|
                0 <= k < 4 ==> p@[k] == self.pixels@[self.offset_of(x as int, y as int) + k],
    {
        let offset = ((y * self.width + x) * 4) as usize;
        [
            self.pixels[offset],
            self.pixels[offset + 1],
            self.pixels[offset + 2],
            self.pixels[offset + 3],
        ]
    }

    /// The frame from a read-back buffer of `height` rows that start `padded`
    /// bytes apart: the first `width * 4` bytes of each row, in order.
    pub fn from_padded_rows(data: &[u8], width: u32, height: u32, padded: u32) -> (shot: Shot)
        requires
            width * 4 <= padded,
            height == 0 || (height - 1) * padded + width * 4 <= data@.len(),
        ensures
            shot.width == width,
            shot.height == height,
            shot.pixels@ == unpadded_rows(data@, width * 4, padded as int, height as int),
            shot.pixels@.len() == width * height * 4,
    {
        let unpadded: usize = width as usize * 4;
        let len: usize = data.len();
        let mut pixels: Vec<u8> = Vec::new();
        let mut row: u32 = 0;
        while row < height
            invariant
                unpadded == width * 4,
                unpadded <= padded,
                len == data@.len(),
                height == 0 || (height - 1) * padded + unpadded <= len,
                row <= height,
                pixels@ == unpadded_rows(data@, unpadded as int, padded as int, row as int),
            decreases height - row,
        {
            assert(row * padded <= (height - 1) * padded) by (nonlinear_arith)
                requires
                    row <= height - 1,
                    padded >= 0,
            ;
            let start: usize = row as usize * padded as usize;
            let mut i: usize = 0;
            while i < unpadded
                invariant
                    unpadded == width * 4,
                    len == data@.len(),
                    start + unpadded <= len,
                    i <= unpadded,
                    pixels@ == unpadded_rows(data@, unpadded as int, padded as int, row as int)
                        + data@.subrange(start as int, start + i),
                decreases unpadded - i,
            {
                pixels.push(data[start + i]);
                i = i + 1;
                assert(data@.subrange(start as int, start + i) == data@.subrange(
                    start as int,
                    start + i - 1,
                ).push(data@[start + i - 1]));
            }
            row = row + 1;
        }
        proof {
            lemma_unpadded_len(data@, unpadded as int, padded as int, height as int);
            assert(height * unpadded == width * height * 4) by (nonlinear_arith)
                requires
                    unpadded == width * 4,
            ;
        }
        Shot { width, height, pixels }
    }

    /// The frame as a PNG file: eight bits per sample, RGBA, rows top to
    /// bottom.
    ///
    /// Fails on an empty frame and on pixels that do not make `width * height`
    /// RGBA pixels; the message is the encoder's.
    pub fn png(&self) -> (r: Result<Vec<u8>, String>)
        requires
            self.width * 4 * self.height + self.width * 4 + 1 <= usize::MAX,
        ensures
            r is Ok <==> (self.width > 0 && self.height > 0 && self.pixels@.len() == self.width
                * self.height * 4),
            r matches Ok(bytes) ==> bytes@ == png_rgba8(self.width, self.height, self.pixels@),
            r matches Ok(bytes) ==> rgba8_header(bytes@, self.width, self.height),
    {
        encode_rgba8(self.width, self.height, self.pixels.as_slice())
    }
}

} // verus!
