//! The compressed and encoded forms in which logos are stored and supplied.

use vstd::prelude::*;

use crate::oeminfo::bmp;
use crate::oeminfo::bmp::{BmpError, MAX_LOGO_DECODE_ALLOCATION, MAX_LOGO_SIDE};

verus! {

/// The first `most` bytes that a gzip stream of one or more members decodes
/// to, or nothing where it is found corrupt before they are read.
pub uninterp spec fn gunzipped(data: Seq<u8>, most: u64) -> Option<Seq<u8>>;

/// The gzip stream of the data at the best compression level.
pub uninterp spec fn gzipped(data: Seq<u8>) -> Option<Seq<u8>>;

/// The pixels of a BMP image, four bytes each, with its width and height; or
/// nothing where it is no such image or exceeds the limits on its sides and on
/// what decoding it may allocate.
pub uninterp spec fn decoded_bmp(data: Seq<u8>, max_side: u32, max_allocation: u64) -> Option<
    (Seq<u8>, u32, u32),
>;

/// `flate2::read::MultiGzDecoder`, read to its end or up to `most` bytes. The
/// result has a name; it is never longer than `most`.
#[verifier::external_body]
fn gunzip(data: &[u8], most: u64) -> (decoded: Option<Vec<u8>>)
    ensures
        match decoded {
            Some(bytes) => gunzipped(data@, most) == Some(bytes@) && bytes@.len() <= most,
            None => gunzipped(data@, most) is None,
        },
{
    let mut bytes = Vec::new();
    let mut limited = std::io::Read::take(flate2::read::MultiGzDecoder::new(data), most);
    match std::io::Read::read_to_end(&mut limited, &mut bytes) {
        Ok(_) => Some(bytes),
        Err(_) => None,
    }
}

/// `flate2::write::GzEncoder` at the best level, over the whole data. The
/// result has a name; it starts with the two magic bytes of the format, and
/// decoding it with enough room gives back the data.
#[verifier::external_body]
pub(crate) fn gzip(data: &[u8]) -> (encoded: Option<Vec<u8>>)
    ensures
        match encoded {
            Some(bytes) => {
                &&& gzipped(data@) == Some(bytes@)
                &&& bytes@.len() >= 2
                &&& bytes@[0] == 0x1f
                &&& bytes@[1] == 0x8b
                &&& forall|most: u64|
                    data@.len() <= most ==> #[trigger] gunzipped(bytes@, most) == Some(data@)
            },
            None => gzipped(data@) is None,
        },
{
    let mut encoder = flate2::write::GzEncoder::new(Vec::new(), flate2::Compression::best());
    match std::io::Write::write_all(&mut encoder, data) {
        Ok(()) => encoder.finish().ok(),
        Err(_) => None,
    }
}

/// `image::ImageReader::decode` on BMP data, with limits on the sides of the
/// image and on what decoding it may allocate. The result has a name.
#[verifier::external_body]
fn decode_bmp(data: &[u8], max_side: u32, max_allocation: u64) -> (decoded: Option<
    (Vec<u8>, u32, u32),
>)
    ensures
        match decoded {
            Some((rgba, width, height)) => decoded_bmp(data@, max_side, max_allocation) == Some(
                (rgba@, width, height),
            ),
            None => decoded_bmp(data@, max_side, max_allocation) is None,
        },
{
    let mut limits = image::Limits::default();
    limits.max_image_width = Some(max_side);
    limits.max_image_height = Some(max_side);
    limits.max_alloc = Some(max_allocation);
    let source = std::io::Cursor::new(data);
    let mut reader = image::ImageReader::with_format(source, image::ImageFormat::Bmp);
    reader.limits(limits);
    let picture = reader.decode().ok()?;
    let (width, height) = (picture.width(), picture.height());
    Some((picture.into_rgba8().into_raw(), width, height))
}

/// Why an embedded image cannot be decompressed.
#[derive(Debug, Clone, Copy, PartialEq, Eq, Structural)]
pub enum GzipError {
    Corrupt,
    TooLarge,
}

/// One more than a limit, or the limit where there is no larger number.
pub open spec fn one_more(limit: u64) -> u64 {
    if limit < u64::MAX {
        (limit + 1) as u64
    } else {
        limit
    }
}

/// What decompressing an image gives, when at most `limit` bytes are allowed.
pub open spec fn within_limit(decoded: Option<Seq<u8>>, limit: u64) -> Result<Seq<u8>, GzipError> {
    match decoded {
        None => Err(GzipError::Corrupt),
        Some(bytes) => if bytes.len() <= limit {
            Ok(bytes)
        } else {
            Err(GzipError::TooLarge)
        },
    }
}

/// Holds decompressed bytes to a limit.
pub fn check_limit(decoded: Option<Vec<u8>>, limit: u64) -> (checked: Result<Vec<u8>, GzipError>)
    ensures
        match checked {
            Ok(bytes) => decoded matches Some(all) && bytes@ == all@ && all@.len() <= limit,
            Err(GzipError::Corrupt) => decoded is None,
            Err(GzipError::TooLarge) => decoded matches Some(all) && all@.len() > limit,
        },
{
    match decoded {
        None => Err(GzipError::Corrupt),
        Some(bytes) => if bytes.len() as u64 <= limit {
            Ok(bytes)
        } else {
            Err(GzipError::TooLarge)
        },
    }
}

/// Decompresses an image to at most `limit` bytes.
pub fn decompress_logo_gzip(data: &[u8], limit: u64) -> (decoded: Result<Vec<u8>, GzipError>)
    ensures
        match decoded {
            Ok(bytes) => within_limit(gunzipped(data@, one_more(limit)), limit) == Ok::<
                Seq<u8>,
                GzipError,
            >(bytes@),
            Err(error) => within_limit(gunzipped(data@, one_more(limit)), limit) == Err::<
                Seq<u8>,
                GzipError,
            >(error),
        },
{
    let most: u64 = if limit < u64::MAX {
        limit + 1
    } else {
        limit
    };
    check_limit(gunzip(data, most), limit)
}

/// What a replacement logo is stored as: its pixels packed into 16 bits.
pub open spec fn repacked(decoded: Option<(Seq<u8>, u32, u32)>) -> Result<
    (Seq<u8>, u32, u32),
    BmpError,
> {
    match decoded {
        None => Err(BmpError::Undecodable),
        Some((rgba, width, height)) => if rgba.len() != width * height * 4 {
            Err(BmpError::PixelCount)
        } else if width > MAX_LOGO_SIDE || height > MAX_LOGO_SIDE {
            Err(BmpError::TooLarge)
        } else {
            Ok((bmp::encoded(width as int, height as int, rgba), width, height))
        },
    }
}

/// Packs decoded pixels into the form in which a logo is stored.
pub fn repack_pixels(decoded: Option<(Vec<u8>, u32, u32)>) -> (stored: Result<
    (Vec<u8>, u32, u32),
    BmpError,
>)
    ensures
        ({
            let model = match decoded {
                Some((rgba, width, height)) => Some((rgba@, width, height)),
                None => None,
            };
            match stored {
                Ok((bmp, width, height)) => repacked(model) == Ok::<(Seq<u8>, u32, u32), BmpError>(
                    (bmp@, width, height),
                ),
                Err(error) => repacked(model) == Err::<(Seq<u8>, u32, u32), BmpError>(error),
            }
        }),
{
    match decoded {
        None => Err(BmpError::Undecodable),
        Some((rgba, width, height)) => match bmp::encode_rgb565_bmp(
            width,
            height,
            rgba.as_slice(),
        ) {
            Ok(bmp) => Ok((bmp, width, height)),
            Err(error) => Err(error),
        },
    }
}

/// What `transcode_replacement_bmp` makes of a supplied file.
pub open spec fn transcoded(data: Seq<u8>) -> Result<(Seq<u8>, u32, u32), BmpError> {
    if bmp::header_of(data) is None {
        Err(BmpError::Unsupported)
    } else {
        repacked(decoded_bmp(data, MAX_LOGO_SIDE, MAX_LOGO_DECODE_ALLOCATION))
    }
}

/// Turns a supplied BMP file into the form in which a logo is stored.
pub fn transcode_replacement_bmp(data: &[u8]) -> (stored: Result<(Vec<u8>, u32, u32), BmpError>)
    ensures
        match stored {
            Ok((bmp, width, height)) => transcoded(data@) == Ok::<(Seq<u8>, u32, u32), BmpError>(
                (bmp@, width, height),
            ),
            Err(error) => transcoded(data@) == Err::<(Seq<u8>, u32, u32), BmpError>(error),
        },
{
    if bmp::bmp_info(data).is_none() {
        return Err(BmpError::Unsupported);
    }
    repack_pixels(decode_bmp(data, MAX_LOGO_SIDE, MAX_LOGO_DECODE_ALLOCATION))
}

/// What is decompressed is taken as it is up to the limit, and refused beyond it;
/// one byte more than the limit is decompressed to tell.
pub proof fn law_limits_are_kept(decoded: Seq<u8>, limit: u64)
    ensures
        decoded.len() <= limit ==> within_limit(Some(decoded), limit) == Ok::<Seq<u8>, GzipError>(
            decoded,
        ),
        decoded.len() > limit ==> within_limit(Some(decoded), limit) == Err::<Seq<u8>, GzipError>(
            GzipError::TooLarge,
        ),
        within_limit(None, limit) == Err::<Seq<u8>, GzipError>(GzipError::Corrupt),
        limit < u64::MAX ==> one_more(limit) == limit + 1,
{
}

/// A replacement is a bitmap that can be decoded, of at most 8192 pixels to each
/// side; it is stored in its own width and height with four bytes given for each
/// pixel.
pub proof fn law_replacements_keep_their_size(data: Seq<u8>)
    ensures
        bmp::header_of(data) is None ==> transcoded(data) is Err,
        transcoded(data) matches Ok((stored, width, height)) ==> {
            &&& decoded_bmp(data, 8192, 402_653_184) matches Some((rgba, w, h)) && w == width && h == height
                && rgba.len() == 4 * width * height && stored == bmp::encoded(
                width as int,
                height as int,
                rgba,
            )
            &&& width <= 8192 && height <= 8192
        },
{
    if let Some((rgba, w, h)) = decoded_bmp(data, 8192, 402_653_184) {
        assert(w * h * 4 == 4 * w * h) by (nonlinear_arith);
    }
}

} // verus!
