//! The BMP images of boot logos: uncompressed, with 16 bits per pixel.

use vstd::prelude::*;

use crate::bytes;

verus! {

pub const MAX_LOGO_SIDE: u32 = 8192;

pub const MAX_LOGO_DECODE_ALLOCATION: u64 = 402_653_184;

/// The size of the file and information headers of an encoded image.
pub const BMP_HEADER_SIZE: usize = 0x36;

#[derive(Debug, Clone, Copy, PartialEq, Eq, Structural)]
pub struct BmpInfo {
    pub width: u32,
    pub height: u32,
    pub top_down: bool,
    pub bits_per_pixel: u16,
    pub compression: u32,
    pub data_offset: usize,
}

#[derive(Debug, Clone, Copy, PartialEq, Eq, Structural)]
pub enum BmpError {
    /// The data has no BMP header that is supported.
    Unsupported,
    /// The image is compressed, or has another number of bits per pixel.
    NotRgb565,
    /// The pixels do not fit in the data.
    Truncated,
    /// The pixels do not match the width and the height.
    PixelCount,
    /// A side is longer than a logo's may be.
    TooLarge,
    /// The image data cannot be decoded.
    Undecodable,
}

/// The signed height that a header states, as its distance from zero.
pub open spec fn height_of(field: int) -> int {
    if field < 0x8000_0000 {
        field
    } else {
        0x1_0000_0000 - field
    }
}

/// What the headers of a BMP image state.
pub open spec fn header_of(data: Seq<u8>) -> Option<BmpInfo> {
    let width = bytes::le32(data, 18);
    let field = bytes::le32(data, 22);
    if data.len() >= 34 && data[0] == 0x42 && data[1] == 0x4d && bytes::le32(data, 14) >= 40 && 0
        < width <= MAX_LOGO_SIDE && 0 < height_of(field) <= MAX_LOGO_SIDE {
        Some(
            BmpInfo {
                width: width as u32,
                height: height_of(field) as u32,
                top_down: field >= 0x8000_0000,
                bits_per_pixel: bytes::le16(data, 28) as u16,
                compression: bytes::le32(data, 30) as u32,
                data_offset: bytes::le32(data, 10) as usize,
            },
        )
    } else {
        None
    }
}

pub fn bmp_info(data: &[u8]) -> (info: Option<BmpInfo>)
    ensures
        info == header_of(data@),
{
    if data.len() < 34 || data[0] != 0x42 || data[1] != 0x4d || bytes::read_u32(data, 14) < 40 {
        return None;
    }
    let width: u32 = bytes::read_u32(data, 18);
    let field: u32 = bytes::read_u32(data, 22);
    let top_down = field >= 0x8000_0000;
    if width == 0 || width > MAX_LOGO_SIDE || field == 0 {
        return None;
    }
    let height: u32 = if top_down {
        (0x1_0000_0000u64 - field as u64) as u32
    } else {
        field
    };
    if height > MAX_LOGO_SIDE {
        return None;
    }
    Some(
        BmpInfo {
            width,
            height,
            top_down,
            bits_per_pixel: bytes::read_u16(data, 28),
            compression: bytes::read_u32(data, 30),
            data_offset: bytes::read_u32(data, 10) as usize,
        },
    )
}

// ---------------------------------------------------------------------------
// Decoding
// ---------------------------------------------------------------------------

/// The length of a row of 16-bit pixels, a multiple of four.
pub open spec fn stride_of(width: int) -> int {
    (2 * width + 3) / 4 * 4
}

/// The four bytes of a pixel of five, six and five bits, opaque.
pub open spec fn expanded(pixel: int) -> Seq<u8> {
    let red = pixel / 2048;
    let green = pixel / 32 % 64;
    let blue = pixel % 32;
    seq![
        (red * 8 + red / 4) as u8,
        (green * 4 + green / 16) as u8,
        (blue * 8 + blue / 4) as u8,
        0xffu8,
    ]
}

/// Where row `row` of the picture stands in the data.
pub open spec fn row_start(info: BmpInfo, row: int) -> int {
    let source = if info.top_down {
        row
    } else {
        info.height - 1 - row
    };
    info.data_offset + source * stride_of(info.width as int)
}

/// The first `columns` pixels of the row that stands at `start`, expanded.
pub open spec fn decoded_row(data: Seq<u8>, start: int, columns: int) -> Seq<u8>
    decreases columns,
{
    if columns <= 0 {
        seq![]
    } else {
        decoded_row(data, start, columns - 1) + expanded(
            bytes::le16(data, start + 2 * (columns - 1)),
        )
    }
}

/// The first `rows` rows of the picture, from top to bottom, expanded.
pub open spec fn decoded_rows(data: Seq<u8>, info: BmpInfo, rows: int) -> Seq<u8>
    decreases rows,
{
    if rows <= 0 {
        seq![]
    } else {
        decoded_rows(data, info, rows - 1) + decoded_row(
            data,
            row_start(info, rows - 1),
            info.width as int,
        )
    }
}

/// True when the pixels that the header announces lie within the data.
pub open spec fn holds_pixels(data: Seq<u8>, info: BmpInfo) -> bool {
    info.data_offset + stride_of(info.width as int) * info.height <= data.len()
}

fn push_expanded(out: &mut Vec<u8>, pixel: u16)
    ensures
        final(out)@ == old(out)@ + expanded(pixel as int),
{
    let red: u16 = pixel / 2048;
    let green: u16 = pixel / 32 % 64;
    let blue: u16 = pixel % 32;
    out.push((red * 8 + red / 4) as u8);
    out.push((green * 4 + green / 16) as u8);
    out.push((blue * 8 + blue / 4) as u8);
    out.push(0xff);
}

/// Decodes an uncompressed 16-bit image into four bytes for each pixel.
pub fn decode_rgb565_bmp(data: &[u8]) -> (decoded: Result<(Vec<u8>, u32, u32), BmpError>)
    ensures
        match decoded {
            Ok((rgba, width, height)) => header_of(data@) matches Some(info) && {
                &&& info.bits_per_pixel == 16
                &&& info.compression == 0
                &&& holds_pixels(data@, info)
                &&& width == info.width
                &&& height == info.height
                &&& rgba@ == decoded_rows(data@, info, info.height as int)
            },
            Err(BmpError::Unsupported) => header_of(data@) is None,
            Err(BmpError::NotRgb565) => header_of(data@) matches Some(info) && !(info.bits_per_pixel
                == 16 && info.compression == 0),
            Err(BmpError::Truncated) => header_of(data@) matches Some(info) && info.bits_per_pixel
                == 16 && info.compression == 0 && !holds_pixels(data@, info),
            Err(_) => false,
        },
{
    let info = match bmp_info(data) {
        Some(info) => info,
        None => {
            return Err(BmpError::Unsupported);
        },
    };
    if info.bits_per_pixel != 16 || info.compression != 0 {
        return Err(BmpError::NotRgb565);
    }
    let width: usize = info.width as usize;
    let height: usize = info.height as usize;
    let stride: usize = (width * 2 + 3) / 4 * 4;
    assert(stride == stride_of(width as int));
    assert(stride * height <= 16384 * 8192) by (nonlinear_arith)
        requires
            stride <= 16384,
            height <= 8192,
    ;
    assert(0 <= stride * height) by (nonlinear_arith);
    let end: u64 = info.data_offset as u64 + (stride * height) as u64;
    if end > data.len() as u64 {
        return Err(BmpError::Truncated);
    }
    let mut rgba: Vec<u8> = Vec::new();
    let mut row: usize = 0;
    while row < height
        invariant
            row <= height,
            header_of(data@) == Some(info),
            width == info.width,
            height == info.height,
            height <= 8192,
            stride == stride_of(width as int),
            stride >= 2 * width,
            stride <= 16384,
            holds_pixels(data@, info),
            rgba@ == decoded_rows(data@, info, row as int),
        decreases height - row,
    {
        let source: usize = if info.top_down {
            row
        } else {
            height - 1 - row
        };
        assert(0 <= source * stride && source * stride + stride <= stride * height)
            by (nonlinear_arith)
            requires
                0 <= source < height,
                0 <= stride,
        ;
        assert(data.len() <= usize::MAX);
        let start: usize = info.data_offset + source * stride;
        assert(start == row_start(info, row as int));
        let ghost before = rgba@;
        let mut column: usize = 0;
        assert(before + Seq::<u8>::empty() =~= before);
        while column < width
            invariant
                column <= width,
                stride >= 2 * width,
                start + stride <= data@.len(),
                data@.len() <= usize::MAX,
                rgba@ == before + decoded_row(data@, start as int, column as int),
            decreases width - column,
        {
            let ghost old_rgba = rgba@;
            let pixel: u16 = bytes::read_u16(data, start + column * 2);
            push_expanded(&mut rgba, pixel);
            column += 1;
            assert(rgba@ =~= before + decoded_row(data@, start as int, column as int));
        }
        row += 1;
    }
    Ok((rgba, info.width, info.height))
}

// ---------------------------------------------------------------------------
// Encoding
// ---------------------------------------------------------------------------

/// The 16-bit pixel of a red, a green and a blue byte.
pub open spec fn packed(red: u8, green: u8, blue: u8) -> int {
    red / 8 * 2048 + green / 4 * 32 + blue / 8
}

/// The first `columns` pixels from pixel `first` on, packed.
pub open spec fn encoded_row(rgba: Seq<u8>, first: int, columns: int) -> Seq<u8>
    decreases columns,
{
    if columns <= 0 {
        seq![]
    } else {
        let at = (first + columns - 1) * 4;
        encoded_row(rgba, first, columns - 1) + bytes::bytes16(
            packed(rgba[at], rgba[at + 1], rgba[at + 2]),
        )
    }
}

/// The first `rows` rows, packed, each filled up with zeros to its stride.
pub open spec fn encoded_rows(rgba: Seq<u8>, width: int, rows: int) -> Seq<u8>
    decreases rows,
{
    if rows <= 0 {
        seq![]
    } else {
        encoded_rows(rgba, width, rows - 1) + encoded_row(rgba, (rows - 1) * width, width)
            + bytes::filled(0, stride_of(width) - 2 * width)
    }
}

/// The headers of an encoded image, whose rows run from top to bottom.
pub open spec fn encoded_header(width: int, height: int) -> Seq<u8> {
    let pixel_bytes = stride_of(width) * height;
    seq![0x42u8, 0x4d] + bytes::bytes32(0x36 + pixel_bytes) + bytes::bytes32(0) + bytes::bytes32(
        0x36,
    ) + bytes::bytes32(40) + bytes::bytes32(width) + bytes::bytes32(
        if height == 0 {
            0
        } else {
            0x1_0000_0000 - height
        },
    ) + bytes::bytes16(1) + bytes::bytes16(16) + bytes::bytes32(0) + bytes::bytes32(pixel_bytes)
        + bytes::filled(0, 16)
}

/// The encoded image of `height` rows of `width` pixels.
pub open spec fn encoded(width: int, height: int, rgba: Seq<u8>) -> Seq<u8> {
    encoded_header(width, height) + encoded_rows(rgba, width, height)
}

fn push_header(bmp: &mut Vec<u8>, width: u32, height: u32, pixel_bytes: u32)
    requires
        height <= MAX_LOGO_SIDE,
        pixel_bytes == stride_of(width as int) * height,
        pixel_bytes <= 0x0fff_ffff,
    ensures
        final(bmp)@ == old(bmp)@ + encoded_header(width as int, height as int),
{
    let field: u32 = if height == 0 {
        0
    } else {
        (0x1_0000_0000u64 - height as u64) as u32
    };
    bmp.push(0x42);
    bmp.push(0x4d);
    bytes::push_u32(bmp, BMP_HEADER_SIZE as u32 + pixel_bytes);
    bytes::push_u32(bmp, 0);
    bytes::push_u32(bmp, BMP_HEADER_SIZE as u32);
    bytes::push_u32(bmp, 40);
    bytes::push_u32(bmp, width);
    bytes::push_u32(bmp, field);
    bytes::push_u16(bmp, 1);
    bytes::push_u16(bmp, 16);
    bytes::push_u32(bmp, 0);
    bytes::push_u32(bmp, pixel_bytes);
    bytes::push_filled(bmp, 0, 16);
    assert(bmp@ =~= old(bmp)@ + encoded_header(width as int, height as int));
}

/// Encodes four bytes for each pixel as an uncompressed 16-bit image.
pub fn encode_rgb565_bmp(width: u32, height: u32, rgba: &[u8]) -> (bmp: Result<Vec<u8>, BmpError>)
    ensures
        match bmp {
            Ok(data) => rgba@.len() == width * height * 4 && width <= MAX_LOGO_SIDE && height
                <= MAX_LOGO_SIDE && data@ == encoded(width as int, height as int, rgba@),
            Err(BmpError::PixelCount) => rgba@.len() != width * height * 4,
            Err(BmpError::TooLarge) => rgba@.len() == width * height * 4 && (width > MAX_LOGO_SIDE
                || height > MAX_LOGO_SIDE),
            Err(_) => false,
        },
{
    assert(width * height <= 0xffff_ffff * 0xffff_ffff) by (nonlinear_arith)
        requires
            width <= 0xffff_ffff,
            height <= 0xffff_ffff,
    ;
    assert(0 <= width * height) by (nonlinear_arith);
    if rgba.len() as u128 != (width as u128) * (height as u128) * 4 {
        return Err(BmpError::PixelCount);
    }
    if width > MAX_LOGO_SIDE || height > MAX_LOGO_SIDE {
        return Err(BmpError::TooLarge);
    }
    let columns: usize = width as usize;
    let rows: usize = height as usize;
    let stride: usize = (columns * 2 + 3) / 4 * 4;
    assert(0 <= stride * rows <= 16384 * 8192) by (nonlinear_arith)
        requires
            0 <= stride <= 16384,
            0 <= rows <= 8192,
    ;
    let pixel_bytes: usize = stride * rows;
    let mut bmp: Vec<u8> = Vec::new();
    push_header(&mut bmp, width, height, pixel_bytes as u32);
    let ghost head = bmp@;
    let mut y: usize = 0;
    assert(head + Seq::<u8>::empty() =~= head);
    while y < rows
        invariant
            y <= rows,
            columns <= 8192,
            rows <= 8192,
            stride == stride_of(columns as int),
            rgba@.len() == columns * rows * 4,
            bmp@ == head + encoded_rows(rgba@, columns as int, y as int),
        decreases rows - y,
    {
        let ghost before = bmp@;
        let mut x: usize = 0;
        assert(before + Seq::<u8>::empty() =~= before);
        assert(0 <= y * columns && y * columns + columns <= columns * rows) by (nonlinear_arith)
            requires
                0 <= y < rows,
                0 <= columns,
        ;
        assert(columns * rows <= 8192 * 8192) by (nonlinear_arith)
            requires
                0 <= columns <= 8192,
                0 <= rows <= 8192,
        ;
        let first: usize = y * columns;
        while x < columns
            invariant
                x <= columns,
                first + columns <= columns * rows,
                columns * rows <= 8192 * 8192,
                rgba@.len() == columns * rows * 4,
                bmp@ == before + encoded_row(rgba@, first as int, x as int),
            decreases columns - x,
        {
            let at: usize = (first + x) * 4;
            let pixel: u16 = rgba[at] as u16 / 8 * 2048 + rgba[at + 1] as u16 / 4 * 32 + rgba[at
                + 2] as u16 / 8;
            bytes::push_u16(&mut bmp, pixel);
            x += 1;
            assert(bmp@ =~= before + encoded_row(rgba@, first as int, x as int));
        }
        bytes::push_filled(&mut bmp, 0, stride - 2 * columns);
        y += 1;
        assert(bmp@ =~= head + encoded_rows(rgba@, columns as int, y as int));
    }
    Ok(bmp)
}

// ---------------------------------------------------------------------------
// Laws
// ---------------------------------------------------------------------------

proof fn lemma_row_len(rgba: Seq<u8>, first: int, columns: int)
    requires
        0 <= columns,
    ensures
        encoded_row(rgba, first, columns).len() == 2 * columns,
    decreases columns,
{
    if columns > 0 {
        lemma_row_len(rgba, first, columns - 1);
    }
}

#[verifier::rlimit(40)]
#[verifier::spinoff_prover]
proof fn lemma_encoded_row(rgba: Seq<u8>, first: int, columns: int, x: int)
    requires
        0 <= x < columns,
    ensures
        encoded_row(rgba, first, columns).len() == 2 * columns,
        bytes::le16(encoded_row(rgba, first, columns), 2 * x) == packed(
            rgba[(first + x) * 4],
            rgba[(first + x) * 4 + 1],
            rgba[(first + x) * 4 + 2],
        ),
    decreases columns,
{
    let before = encoded_row(rgba, first, columns - 1);
    let whole = encoded_row(rgba, first, columns);
    lemma_row_len(rgba, first, columns - 1);
    lemma_row_len(rgba, first, columns);
    if x < columns - 1 {
        lemma_encoded_row(rgba, first, columns - 1, x);
        assert(whole[2 * x] == before[2 * x]);
        assert(whole[2 * x + 1] == before[2 * x + 1]);
    } else {
        let at = (first + x) * 4;
        let pixel = packed(rgba[at], rgba[at + 1], rgba[at + 2]);
        assert(at == (first + columns - 1) * 4);
        bytes::lemma_bytes16(pixel);
        assert(whole[2 * x] == bytes::bytes16(pixel)[0]);
        assert(whole[2 * x + 1] == bytes::bytes16(pixel)[1]);
    }
}

proof fn lemma_encoded_rows(rgba: Seq<u8>, width: int, rows: int, y: int, x: int)
    requires
        0 <= y < rows,
        0 <= x < width,
    ensures
        encoded_rows(rgba, width, rows).len() == rows * stride_of(width),
        0 <= y * stride_of(width),
        (y + 1) * stride_of(width) <= rows * stride_of(width),
        bytes::le16(encoded_rows(rgba, width, rows), y * stride_of(width) + 2 * x) == packed(
            rgba[(y * width + x) * 4],
            rgba[(y * width + x) * 4 + 1],
            rgba[(y * width + x) * 4 + 2],
        ),
    decreases rows,
{
    let stride = stride_of(width);
    let row = encoded_row(rgba, (rows - 1) * width, width);
    let before = encoded_rows(rgba, width, rows - 1);
    let whole = encoded_rows(rgba, width, rows);
    lemma_encoded_row(rgba, (rows - 1) * width, width, x);
    lemma_rows_len(rgba, width, rows - 1);
    lemma_rows_len(rgba, width, rows);
    assert((y + 1) * stride <= rows * stride && 0 <= y * stride) by (nonlinear_arith)
        requires
            0 <= y < rows,
            0 <= stride,
    ;
    let at = y * stride + 2 * x;
    if y < rows - 1 {
        lemma_encoded_rows(rgba, width, rows - 1, y, x);
        assert((y + 1) * stride <= (rows - 1) * stride) by (nonlinear_arith)
            requires
                y < rows - 1,
                0 <= stride,
        ;
        assert((y + 1) * stride == y * stride + stride) by (nonlinear_arith);
        assert(whole[at] == before[at]);
        assert(whole[at + 1] == before[at + 1]);
    } else {
        assert(whole[at] == row[2 * x]);
        assert(whole[at + 1] == row[2 * x + 1]);
    }
}

proof fn lemma_rows_len(rgba: Seq<u8>, width: int, rows: int)
    requires
        0 <= rows,
        0 <= width,
    ensures
        encoded_rows(rgba, width, rows).len() == rows * stride_of(width),
    decreases rows,
{
    let stride = stride_of(width);
    if rows > 0 {
        lemma_rows_len(rgba, width, rows - 1);
        lemma_row_len(rgba, (rows - 1) * width, width);
        assert(rows * stride == (rows - 1) * stride + stride) by (nonlinear_arith);
    } else {
        assert(0 * stride == 0) by (nonlinear_arith);
    }
}

/// A pixel as it comes back from 16 bits: the upper five, six and five bits of
/// its colours, each filled up from its own upper bits, and opaque.
pub open spec fn reduced(red: u8, green: u8, blue: u8) -> Seq<u8> {
    seq![
        (red / 8 * 8 + red / 32) as u8,
        (green / 4 * 4 + green / 64) as u8,
        (blue / 8 * 8 + blue / 32) as u8,
        0xffu8,
    ]
}

/// The first `count` pixels, reduced to what 16 bits keep of them.
pub open spec fn reduced_pixels(rgba: Seq<u8>, count: int) -> Seq<u8>
    decreases count,
{
    if count <= 0 {
        seq![]
    } else {
        let at = (count - 1) * 4;
        reduced_pixels(rgba, count - 1) + reduced(rgba[at], rgba[at + 1], rgba[at + 2])
    }
}

/// The headers of an encoded image state its width and its height, with the
/// rows from top to bottom, 16 bits per pixel and no compression.
pub proof fn law_encoded_header_reads_back(width: int, height: int, rgba: Seq<u8>)
    requires
        0 < width <= MAX_LOGO_SIDE,
        0 < height <= MAX_LOGO_SIDE,
    ensures
        header_of(encoded(width, height, rgba)) == Some(
            BmpInfo {
                width: width as u32,
                height: height as u32,
                top_down: true,
                bits_per_pixel: 16,
                compression: 0,
                data_offset: 0x36,
            },
        ),
        holds_pixels(
            encoded(width, height, rgba),
            header_of(encoded(width, height, rgba))->0,
        ),
{
    let stride = stride_of(width);
    let pixel_bytes = stride * height;
    assert(0 <= pixel_bytes <= 16384 * 8192) by (nonlinear_arith)
        requires
            pixel_bytes == stride * height,
            0 <= stride <= 16384,
            0 <= height <= 8192,
    ;
    let data = encoded(width, height, rgba);
    let field = 0x1_0000_0000 - height;
    bytes::lemma_bytes32(0x36);
    bytes::lemma_bytes32(40);
    bytes::lemma_bytes32(width);
    bytes::lemma_bytes32(field);
    bytes::lemma_bytes32(0);
    bytes::lemma_bytes16(16);
    lemma_rows_len(rgba, width, height);
    assert(height * stride == stride * height) by (nonlinear_arith);
    assert(data.len() == 0x36 + pixel_bytes);
    assert(bytes::le32(data, 10) == bytes::le32(bytes::bytes32(0x36), 0));
    assert(bytes::le32(data, 14) == bytes::le32(bytes::bytes32(40), 0));
    assert(bytes::le32(data, 18) == bytes::le32(bytes::bytes32(width), 0));
    assert(bytes::le32(data, 22) == bytes::le32(bytes::bytes32(field), 0));
    assert(bytes::le16(data, 28) == bytes::le16(bytes::bytes16(16), 0));
    assert(bytes::le32(data, 30) == bytes::le32(bytes::bytes32(0), 0));
    assert(data[0] == 0x42);
    assert(data[1] == 0x4d);
}

proof fn lemma_packed(red: u8, green: u8, blue: u8)
    ensures
        0 <= packed(red, green, blue) < 0x1_0000,
        expanded(packed(red, green, blue)) == reduced(red, green, blue),
{
    let p = packed(red, green, blue);
    assert(p / 2048 == red / 8);
    assert(p / 32 % 64 == green / 4);
    assert(p % 32 == blue / 8);
    assert(expanded(p) =~= reduced(red, green, blue));
}

proof fn lemma_decoded_row(
    data: Seq<u8>,
    rgba: Seq<u8>,
    width: int,
    height: int,
    y: int,
    columns: int,
)
    requires
        0 < width,
        0 <= y < height,
        0 <= columns <= width,
        forall|k: int|
            0 <= k < encoded_rows(rgba, width, height).len() ==> #[trigger] data[0x36 + k]
                == encoded_rows(rgba, width, height)[k],
    ensures
        reduced_pixels(rgba, y * width) + decoded_row(
            data,
            0x36 + y * stride_of(width),
            columns,
        ) == reduced_pixels(rgba, y * width + columns),
    decreases columns,
{
    let start = 0x36 + y * stride_of(width);
    let head = reduced_pixels(rgba, y * width);
    assert(0 <= y * width) by (nonlinear_arith)
        requires
            0 <= y,
            0 < width,
    ;
    if columns > 0 {
        lemma_decoded_row(data, rgba, width, height, y, columns - 1);
        let x = columns - 1;
        lemma_encoded_rows(rgba, width, height, y, x);
        let rows = encoded_rows(rgba, width, height);
        let at = y * stride_of(width) + 2 * x;
        let pixel = (y * width + x) * 4;
        assert((y + 1) * stride_of(width) == y * stride_of(width) + stride_of(width))
            by (nonlinear_arith);
        assert(data[0x36 + at] == rows[at]);
        assert(data[0x36 + (at + 1)] == rows[at + 1]);
        lemma_packed(rgba[pixel], rgba[pixel + 1], rgba[pixel + 2]);
        let last = reduced(rgba[pixel], rgba[pixel + 1], rgba[pixel + 2]);
        let front = decoded_row(data, start, columns - 1);
        assert(decoded_row(data, start, columns) == front + last);
        assert(head + (front + last) =~= (head + front) + last);
        assert((y * width + columns - 1) * 4 == pixel);
        assert(reduced_pixels(rgba, y * width + columns) == reduced_pixels(
            rgba,
            y * width + (columns - 1),
        ) + last);
    } else {
        assert(head + Seq::<u8>::empty() =~= head);
    }
}

/// Decoding what was encoded gives back every pixel in its place, reduced to
/// what 16 bits keep of it.
pub proof fn law_encoded_pixels_read_back(width: int, height: int, rgba: Seq<u8>)
    requires
        0 < width <= MAX_LOGO_SIDE,
        0 < height <= MAX_LOGO_SIDE,
    ensures
        decoded_rows(
            encoded(width, height, rgba),
            header_of(encoded(width, height, rgba))->0,
            height,
        ) == reduced_pixels(rgba, height * width),
{
    law_encoded_header_reads_back(width, height, rgba);
    lemma_rows_back(width, height, rgba, height);
}

proof fn lemma_encoded_rows_stand(width: int, height: int, rgba: Seq<u8>)
    ensures
        forall|k: int|
            0 <= k < encoded_rows(rgba, width, height).len() ==> #[trigger] encoded(
                width,
                height,
                rgba,
            )[0x36 + k] == encoded_rows(rgba, width, height)[k],
{
    assert(encoded_header(width, height).len() == 0x36);
}

proof fn lemma_rows_back(width: int, height: int, rgba: Seq<u8>, rows: int)
    requires
        0 < width <= MAX_LOGO_SIDE,
        0 < height <= MAX_LOGO_SIDE,
        0 <= rows <= height,
    ensures
        decoded_rows(
            encoded(width, height, rgba),
            header_of(encoded(width, height, rgba))->0,
            rows,
        ) == reduced_pixels(rgba, rows * width),
    decreases rows,
{
    law_encoded_header_reads_back(width, height, rgba);
    if rows > 0 {
        lemma_rows_back(width, height, rgba, rows - 1);
        let data = encoded(width, height, rgba);
        lemma_encoded_rows_stand(width, height, rgba);
        lemma_decoded_row(data, rgba, width, height, rows - 1, width);
        assert((rows - 1) * width + width == rows * width) by (nonlinear_arith);
    } else {
        assert(0 * width == 0) by (nonlinear_arith);
    }
}

/// The headers of an encoded image, byte by byte: the letters `BM`, the length
/// of the file, where the pixels start, the size of the second header, the width
/// and the height, negative as the first row is the top one, one plane of 16
/// bits, no compression, and the size of the pixels. The rows behind them take
/// whole multiples of four bytes.
pub proof fn law_encoded_images_are_bitmap_files(width: int, height: int, rgba: Seq<u8>)
    requires
        0 < width <= 8192,
        0 < height <= 8192,
    ensures
        ({
            let data = encoded(width, height, rgba);
            let row = if width % 2 == 0 {
                2 * width
            } else {
                2 * width + 2
            };
            &&& data.len() == 54 + height * row
            &&& data[0] == 66 && data[1] == 77
            &&& bytes::le32(data, 2) == data.len()
            &&& bytes::le32(data, 6) == 0
            &&& bytes::le32(data, 10) == 54
            &&& bytes::le32(data, 14) == 40
            &&& bytes::le32(data, 18) == width
            &&& bytes::le32(data, 22) + height == 0x1_0000_0000
            &&& bytes::le16(data, 26) == 1
            &&& bytes::le16(data, 28) == 16
            &&& bytes::le32(data, 30) == 0
            &&& bytes::le32(data, 34) == height * row
            &&& forall|k: int| 38 <= k < 54 ==> #[trigger] data[k] == 0
        }),
{
    let row = if width % 2 == 0 {
        2 * width
    } else {
        2 * width + 2
    };
    assert(stride_of(width) == row);
    let pixel_bytes = row * height;
    assert(0 <= pixel_bytes <= 16384 * 8192) by (nonlinear_arith)
        requires
            pixel_bytes == row * height,
            0 <= row <= 16384,
            0 <= height <= 8192,
    ;
    assert(height * row == row * height) by (nonlinear_arith);
    let head = encoded_header(width, height);
    let data = encoded(width, height, rgba);
    let field = 0x1_0000_0000 - height;
    lemma_rows_len(rgba, width, height);
    assert(head.len() == 54);
    assert forall|k: int| 0 <= k < 54 implies #[trigger] data[k] == head[k] by {}
    bytes::lemma_bytes32(54 + pixel_bytes);
    bytes::lemma_bytes32(0);
    bytes::lemma_bytes32(54);
    bytes::lemma_bytes32(40);
    bytes::lemma_bytes32(width);
    bytes::lemma_bytes32(field);
    bytes::lemma_bytes32(pixel_bytes);
    bytes::lemma_bytes16(1);
    bytes::lemma_bytes16(16);
    assert(bytes::le32(data, 2) == bytes::le32(bytes::bytes32(54 + pixel_bytes), 0));
    assert(bytes::le32(data, 6) == bytes::le32(bytes::bytes32(0), 0));
    assert(bytes::le32(data, 10) == bytes::le32(bytes::bytes32(54), 0));
    assert(bytes::le32(data, 14) == bytes::le32(bytes::bytes32(40), 0));
    assert(bytes::le32(data, 18) == bytes::le32(bytes::bytes32(width), 0));
    assert(bytes::le32(data, 22) == bytes::le32(bytes::bytes32(field), 0));
    assert(bytes::le16(data, 26) == bytes::le16(bytes::bytes16(1), 0));
    assert(bytes::le16(data, 28) == bytes::le16(bytes::bytes16(16), 0));
    assert(bytes::le32(data, 30) == bytes::le32(bytes::bytes32(0), 0));
    assert(bytes::le32(data, 34) == bytes::le32(bytes::bytes32(pixel_bytes), 0));
}

proof fn lemma_word(red: u8, green: u8, blue: u8)
    ensures
        ({
            let word = packed(red, green, blue);
            &&& 0 <= word < 65_536
            &&& word / 2048 == red / 8
            &&& word / 32 % 64 == green / 4
            &&& word % 32 == blue / 8
        }),
{
}

/// Every pixel of an encoded image is a 16-bit word in its place, with the
/// upper five bits of red at the top, the upper six bits of green in the middle
/// and the upper five bits of blue at the bottom. How opaque it is is not kept.
#[verifier::rlimit(40)]
#[verifier::spinoff_prover]
pub proof fn law_pixels_are_stored_red_green_blue(
    width: int,
    height: int,
    rgba: Seq<u8>,
    x: int,
    y: int,
)
    requires
        0 < width <= 8192,
        0 < height <= 8192,
        0 <= x < width,
        0 <= y < height,
    ensures
        ({
            let row = if width % 2 == 0 {
                2 * width
            } else {
                2 * width + 2
            };
            let word = bytes::le16(encoded(width, height, rgba), 54 + y * row + 2 * x);
            let pixel = 4 * (y * width + x);
            &&& 0 <= word < 65_536
            &&& word / 2048 == rgba[pixel] / 8
            &&& word / 32 % 64 == rgba[pixel + 1] / 4
            &&& word % 32 == rgba[pixel + 2] / 8
        }),
{
    let row = if width % 2 == 0 {
        2 * width
    } else {
        2 * width + 2
    };
    assert(stride_of(width) == row);
    let data = encoded(width, height, rgba);
    let rows = encoded_rows(rgba, width, height);
    let at = y * row + 2 * x;
    lemma_encoded_rows(rgba, width, height, y, x);
    lemma_encoded_rows_stand(width, height, rgba);
    assert((y + 1) * row == y * row + row) by (nonlinear_arith);
    assert(data[0x36 + at] == rows[at]);
    assert(data[0x36 + (at + 1)] == rows[at + 1]);
    assert((y * width + x) * 4 == 4 * (y * width + x));
    let pixel = 4 * (y * width + x);
    assert(bytes::le16(data, 0x36 + at) == bytes::le16(rows, at));
    lemma_word(rgba[pixel], rgba[pixel + 1], rgba[pixel + 2]);
}

proof fn lemma_decoded_row_len(data: Seq<u8>, start: int, columns: int)
    requires
        0 <= columns,
    ensures
        decoded_row(data, start, columns).len() == 4 * columns,
    decreases columns,
{
    if columns > 0 {
        lemma_decoded_row_len(data, start, columns - 1);
    }
}

proof fn lemma_decoded_column(data: Seq<u8>, start: int, columns: int, x: int)
    requires
        0 <= x < columns,
    ensures
        decoded_row(data, start, columns).len() == 4 * columns,
        decoded_row(data, start, columns).subrange(4 * x, 4 * x + 4) == expanded(
            bytes::le16(data, start + 2 * x),
        ),
    decreases columns,
{
    lemma_decoded_row_len(data, start, columns);
    lemma_decoded_row_len(data, start, columns - 1);
    let whole = decoded_row(data, start, columns);
    let before = decoded_row(data, start, columns - 1);
    if x < columns - 1 {
        lemma_decoded_column(data, start, columns - 1, x);
        assert(whole.subrange(4 * x, 4 * x + 4) =~= before.subrange(4 * x, 4 * x + 4));
    } else {
        assert(whole.subrange(4 * x, 4 * x + 4) =~= expanded(bytes::le16(data, start + 2 * x)));
    }
}

proof fn lemma_decoded_rows_len(data: Seq<u8>, info: BmpInfo, rows: int)
    requires
        0 <= rows,
    ensures
        decoded_rows(data, info, rows).len() == 4 * (rows * info.width),
    decreases rows,
{
    let width = info.width as int;
    if rows > 0 {
        lemma_decoded_rows_len(data, info, rows - 1);
        lemma_decoded_row_len(data, row_start(info, rows - 1), width);
        assert(rows * width == (rows - 1) * width + width) by (nonlinear_arith);
    } else {
        assert(0 * width == 0) by (nonlinear_arith);
    }
}

proof fn lemma_decoded_pixel(data: Seq<u8>, info: BmpInfo, rows: int, x: int, y: int)
    requires
        0 <= x < info.width,
        0 <= y < rows,
    ensures
        decoded_rows(data, info, rows).len() == 4 * (rows * info.width),
        0 <= y * info.width + x < rows * info.width,
        decoded_rows(data, info, rows).subrange(
            4 * (y * info.width + x),
            4 * (y * info.width + x) + 4,
        ) == expanded(bytes::le16(data, row_start(info, y) + 2 * x)),
    decreases rows,
{
    let width = info.width as int;
    let at = 4 * (y * width + x);
    let whole = decoded_rows(data, info, rows);
    let before = decoded_rows(data, info, rows - 1);
    let row = decoded_row(data, row_start(info, rows - 1), width);
    lemma_decoded_rows_len(data, info, rows);
    lemma_decoded_rows_len(data, info, rows - 1);
    lemma_decoded_column(data, row_start(info, rows - 1), width, x);
    assert(0 <= y * width && y * width + width <= rows * width) by (nonlinear_arith)
        requires
            0 <= y < rows,
            0 < width,
    ;
    if y < rows - 1 {
        lemma_decoded_pixel(data, info, rows - 1, x, y);
        assert(whole.subrange(at, at + 4) =~= before.subrange(at, at + 4));
    } else {
        assert(whole.subrange(at, at + 4) =~= row.subrange(4 * x, 4 * x + 4));
    }
}

proof fn lemma_colours(word: int)
    requires
        0 <= word < 65_536,
    ensures
        ({
            let four = expanded(word);
            &&& four.len() == 4
            &&& four[0] / 8 == word / 2048 && four[0] % 8 == four[0] / 32
            &&& four[1] / 4 == word / 32 % 64 && four[1] % 4 == four[1] / 64
            &&& four[2] / 8 == word % 32 && four[2] % 8 == four[2] / 32
            &&& four[3] == 255
        }),
{
}

/// Every pixel of a 16-bit image comes from the word in its place: the top five
/// bits are its red, the middle six its green and the bottom five its blue, each
/// filled up from its own upper bits, and it is opaque. Rows run upwards, unless
/// the height was negative.
#[verifier::rlimit(40)]
#[verifier::spinoff_prover]
pub proof fn law_words_are_read_red_green_blue(data: Seq<u8>, info: BmpInfo, x: int, y: int)
    requires
        0 <= x < info.width,
        0 <= y < info.height,
    ensures
        ({
            let width = info.width as int;
            let stored = if info.top_down {
                y
            } else {
                info.height - 1 - y
            };
            let row = if width % 2 == 0 {
                2 * width
            } else {
                2 * width + 2
            };
            let word = bytes::le16(data, info.data_offset + stored * row + 2 * x);
            let picture = decoded_rows(data, info, info.height as int);
            let at = 4 * (y * width + x);
            &&& picture.len() == 4 * (info.height * width)
            &&& picture[at] / 8 == word / 2048 && picture[at] % 8 == picture[at] / 32
            &&& picture[at + 1] / 4 == word / 32 % 64 && picture[at + 1] % 4 == picture[at + 1] / 64
            &&& picture[at + 2] / 8 == word % 32 && picture[at + 2] % 8 == picture[at + 2] / 32
            &&& picture[at + 3] == 255
        }),
{
    let width = info.width as int;
    let row = if width % 2 == 0 {
        2 * width
    } else {
        2 * width + 2
    };
    assert(stride_of(width) == row);
    let at = 4 * (y * width + x);
    let picture = decoded_rows(data, info, info.height as int);
    let word = bytes::le16(data, row_start(info, y) + 2 * x);
    lemma_decoded_pixel(data, info, info.height as int, x, y);
    let four = picture.subrange(at, at + 4);
    assert(four[0] == picture[at] && four[1] == picture[at + 1]);
    assert(four[2] == picture[at + 2] && four[3] == picture[at + 3]);
    lemma_colours(word);
    assert(four == expanded(word));
}

/// A bitmap is read where it starts with `BM`, has a second header of 40 bytes
/// or more, and has sides from 1 to 8192. What is read of it is where the format
/// has it; a height with its top bit set is negative, and stands for rows from
/// top to bottom.
pub proof fn law_bitmap_headers_are_read(data: Seq<u8>)
    ensures
        ({
            let width = bytes::le32(data, 18);
            let tall = bytes::le32(data, 22);
            let height = if tall >= 0x8000_0000 {
                0x1_0000_0000 - tall
            } else {
                tall
            };
            header_of(data) is Some <==> {
                &&& data.len() >= 34
                &&& data[0] == 66
                &&& data[1] == 77
                &&& bytes::le32(data, 14) >= 40
                &&& 1 <= width <= 8192
                &&& 1 <= height <= 8192
            }
        }),
        header_of(data) matches Some(info) ==> {
            &&& info.width == bytes::le32(data, 18)
            &&& info.top_down ==> bytes::le32(data, 22) + info.height == 0x1_0000_0000
            &&& !info.top_down ==> bytes::le32(data, 22) == info.height
            &&& info.bits_per_pixel == bytes::le16(data, 28)
            &&& info.compression == bytes::le32(data, 30)
            &&& info.data_offset == bytes::le32(data, 10)
        },
{
}

} // verus!
