use haucet::bytes::overwrite;
use haucet::oeminfo::bank::OemInfoRegion;
use haucet::oeminfo::bmp::{bmp_info, decode_rgb565_bmp, encode_rgb565_bmp, BmpError};
use haucet::oeminfo::codec::{
    check_limit, decompress_logo_gzip, repack_pixels, transcode_replacement_bmp, GzipError,
};
use haucet::oeminfo::embedded::{
    read_embedded_image, read_embedded_image_with_limit, EmbeddedImageError,
};
use haucet::oeminfo::header::{
    find_magic_offsets, parse_header, probe_bytes, probe_scan_length, OemInfoLayout,
};
use haucet::oeminfo::logo::{confirm_boot_logo, replace_boot_logo, LogoError};
use haucet::oeminfo::payload::{classify_payload, OemInfoPayloadKind};
use haucet::oeminfo::summary::{inspect, looks_like_version, overview};
use haucet::oeminfo::{OemInfoError, OemInfoImage};

const SIZE: usize = 0x10_0000;
const BANK: usize = 0x8_0000;

fn plain(_: &[u8]) -> bool {
    false
}

fn put(raw: &mut [u8], offset: usize, id: u32, sub_id: u32, age: u32, payload: &[u8]) {
    raw[offset..offset + 8].copy_from_slice(b"OEM_INFO");
    for (i, value) in [8, id, sub_id, payload.len() as u32, age].into_iter().enumerate() {
        raw[offset + 8 + 4 * i..offset + 12 + 4 * i].copy_from_slice(&value.to_le_bytes());
    }
    raw[offset + 0x200..offset + 0x200 + payload.len()].copy_from_slice(payload);
}

fn image_payload(data: &[u8]) -> Vec<u8> {
    let length = 26 + data.len() as u32;
    let end = (length + 15) / 16 * 16;
    let mut payload = Vec::new();
    payload.extend_from_slice(&26u32.to_le_bytes());
    payload.extend_from_slice(&end.to_le_bytes());
    payload.extend_from_slice(&(end - length).to_le_bytes());
    payload.extend_from_slice(&[0xab; 12]);
    payload.extend_from_slice(&[0, 0]);
    payload.extend_from_slice(data);
    payload
}

fn picture(width: u32, height: u32, seed: u8) -> Vec<u8> {
    let rgba: Vec<u8> =
        (0..width * height * 4).map(|i| (i as u8).wrapping_mul(7).wrapping_add(seed)).collect();
    encode_rgb565_bmp(width, height, &rgba).unwrap()
}

// A 24-bit picture, rows from bottom to top.
fn true_colour(width: u32, height: u32) -> Vec<u8> {
    let stride = (width * 3 + 3) / 4 * 4;
    let mut bmp = Vec::new();
    bmp.extend_from_slice(b"BM");
    for value in [54 + stride * height, 0, 54, 40, width, height] {
        bmp.extend_from_slice(&value.to_le_bytes());
    }
    bmp.extend_from_slice(&1u16.to_le_bytes());
    bmp.extend_from_slice(&24u16.to_le_bytes());
    for value in [0, stride * height, 0, 0, 0, 0] {
        bmp.extend_from_slice(&value.to_le_bytes());
    }
    for y in 0..height {
        for x in 0..width {
            bmp.extend_from_slice(&[(x * 40) as u8, (y * 90) as u8, 200]);
        }
        for _ in width * 3..stride {
            bmp.push(0);
        }
    }
    bmp
}

fn sample(logo: &[u8]) -> Vec<u8> {
    let mut raw = vec![0xff; SIZE];
    put(&mut raw, 0x1000, 1516, 1, 3, b"OHOS 5.0.0.25\0");
    put(&mut raw, 0x1000 + BANK, 1516, 1, 4, b"OHOS 5.0.0.26\0");
    put(&mut raw, 0x2000, 1518, 1, 2, b"ABC-AL00\0");
    put(&mut raw, 0x4000, 4501, 1, 5, &image_payload(logo));
    put(&mut raw, 0x4000 + BANK, 4501, 1, 6, &image_payload(logo));
    raw
}

#[test]
fn blocks_are_listed_with_their_banks_and_newest_copies() {
    let raw = sample(&picture(4, 2, 1));
    let summary = inspect(raw.clone(), &plain).unwrap();
    assert_eq!(summary.file_size, SIZE as u64);
    assert_eq!(summary.region_size, BANK as u64);
    assert_eq!(summary.total_blocks, 5);
    assert_eq!(summary.active_blocks + summary.inactive_blocks, 5);
    assert_eq!(summary.standard_blocks, 5);
    assert_eq!(summary.region_a_blocks, 3);
    assert_eq!(summary.region_b_blocks, 2);
    let newest: Vec<u64> = summary
        .blocks
        .iter()
        .filter(|block| block.id == 1516 && block.active)
        .map(|block| block.offset)
        .collect();
    assert_eq!(newest, [0x1000 + BANK as u64]);
    let info = overview(&summary);
    assert_eq!(info.base_version.unwrap(), "OHOS 5.0.0.26");
    assert_eq!(info.product_model.unwrap(), "ABC-AL00");
    assert_eq!(find_magic_offsets(&raw).len(), 5);
    assert_eq!(inspect(vec![0; 16], &plain).unwrap_err(), OemInfoError::TooSmall);
    assert_eq!(inspect(vec![0; SIZE], &plain).unwrap_err(), OemInfoError::NoBlocks);
}

#[test]
fn inactive_blocks_do_not_count() {
    let mut summary = inspect(sample(&picture(4, 2, 1)), &plain).unwrap();
    let all = format!("{:?}", overview(&summary));
    assert!(summary.blocks.iter().any(|block| !block.active));
    summary.blocks.retain(|block| block.active);
    assert_eq!(format!("{:?}", overview(&summary)), all);
    summary.blocks.retain(|block| block.id != 1518);
    assert!(overview(&summary).product_model.is_none());
    assert_eq!(overview(&summary).base_version.unwrap(), "OHOS 5.0.0.26");
}

#[test]
fn headers_are_standard_compact_or_reused() {
    let mut raw = vec![0xff; 0x4000];
    put(&mut raw, 0x1000, 1, 2, 3, b"abc");
    put(&mut raw, 0x2200, 1, 2, 3, b"abc");
    let header = parse_header(&raw, 0x1000).unwrap();
    assert_eq!((header.id, header.sub_id, header.length, header.age), (1, 2, 3, 3));
    assert_eq!(header.layout, OemInfoLayout::Standard);
    assert_eq!(header.header_padding_byte, 0xff);
    assert_eq!(parse_header(&raw, 0x2200).unwrap().layout, OemInfoLayout::StandardCompact);
    raw[0x1000 + 0x80] = 7;
    assert_eq!(parse_header(&raw, 0x1000).unwrap().layout, OemInfoLayout::Reused);
    assert!(parse_header(&raw, 0x3000).is_none());
    assert!(probe_bytes(&raw, 0x4000));
    assert!(!probe_bytes(&[0; 0x1000], 0x4000));
    assert!(probe_scan_length(u64::MAX) < u64::MAX);
    assert_eq!(OemInfoRegion::A.name(), "A");
}

#[test]
fn payloads_are_classified() {
    let kind = |payload: &[u8], entropy: bool| {
        classify_payload(payload, &|_: &[u8]| entropy).kind
    };
    assert_eq!(kind(b"plain text here", false), OemInfoPayloadKind::Ascii);
    assert_eq!(kind(&[1, 2, 3, 4, 5, 6, 7, 8], false), OemInfoPayloadKind::Raw);
    assert_eq!(
        kind(&image_payload(&picture(2, 2, 0)), false),
        OemInfoPayloadKind::ImageRaw
    );
    let details = classify_payload(&image_payload(&picture(2, 2, 0)), &plain);
    assert_eq!(details.image_version_hex.unwrap(), "ABABABABABABABABABABABAB");
}

#[test]
fn pictures_read_back_in_sixteen_bits() {
    let rgba = [255, 255, 255, 9, 0, 128, 64, 9, 8, 4, 8, 9, 7, 3, 7, 9];
    let bmp = encode_rgb565_bmp(2, 2, &rgba).unwrap();
    let info = bmp_info(&bmp).unwrap();
    assert_eq!((info.width, info.height, info.top_down), (2, 2, true));
    assert_eq!((info.bits_per_pixel, info.compression), (16, 0));
    let (back, width, height) = decode_rgb565_bmp(&bmp).unwrap();
    assert_eq!((width, height), (2, 2));
    assert_eq!(
        back,
        [255, 255, 255, 255, 0, 130, 66, 255, 8, 4, 8, 255, 0, 0, 0, 255]
    );
    assert_eq!(encode_rgb565_bmp(2, 2, &rgba[..15]), Err(BmpError::PixelCount));
    assert_eq!(
        encode_rgb565_bmp(8193, 1, &vec![0; 8193 * 4]),
        Err(BmpError::TooLarge)
    );
    assert_eq!(decode_rgb565_bmp(&bmp[..60]).map(|_| ()), Err(BmpError::Truncated));
    assert_eq!(decode_rgb565_bmp(b"no picture").map(|_| ()), Err(BmpError::Unsupported));
    assert_eq!(
        decode_rgb565_bmp(&true_colour(2, 2)).map(|_| ()),
        Err(BmpError::NotRgb565)
    );
}

#[test]
fn replacements_are_transcoded() {
    let (stored, width, height) = transcode_replacement_bmp(&true_colour(3, 2)).unwrap();
    assert_eq!((width, height), (3, 2));
    let (pixels, _, _) = decode_rgb565_bmp(&stored).unwrap();
    assert_eq!(pixels[..4], [206, 89, 0, 255]);
    assert_eq!(
        transcode_replacement_bmp(b"BM no picture").map(|_| ()),
        Err(BmpError::Unsupported)
    );
    assert_eq!(
        transcode_replacement_bmp(&true_colour(3, 2)[..60]).map(|_| ()),
        Err(BmpError::Undecodable)
    );
    assert_eq!(repack_pixels(None).map(|_| ()), Err(BmpError::Undecodable));
}

#[test]
fn compressed_logos_are_limited() {
    let mut encoder = flate2::write::GzEncoder::new(Vec::new(), flate2::Compression::best());
    std::io::Write::write_all(&mut encoder, &[7; 100]).unwrap();
    let gzip = encoder.finish().unwrap();
    assert_eq!(decompress_logo_gzip(&gzip, 100).unwrap(), vec![7; 100]);
    assert_eq!(decompress_logo_gzip(&gzip, 99), Err(GzipError::TooLarge));
    assert_eq!(decompress_logo_gzip(b"broken", 99), Err(GzipError::Corrupt));
    assert_eq!(check_limit(Some(vec![1]), 1), Ok(vec![1]));
}

#[test]
fn embedded_images_are_read_where_nothing_changed() {
    let logo = picture(4, 2, 1);
    let raw = sample(&logo);
    let summary = inspect(raw.clone(), &plain).unwrap();
    let block =
        summary.blocks.iter().find(|block| block.id == 4501 && block.offset == 0x4000).unwrap();
    let read = read_embedded_image(&raw, block).unwrap();
    assert_eq!(read.data, logo);
    assert_eq!(read.kind, OemInfoPayloadKind::ImageRaw);
    let error = |raw: &[u8]| read_embedded_image(raw, block).map(|_| ()).unwrap_err();
    let changed = |at: usize, value: u8| {
        let mut copy = raw.clone();
        copy[at] = value;
        copy
    };
    assert_eq!(error(&changed(0x4000, 0)), EmbeddedImageError::MagicChanged);
    assert_eq!(error(&changed(0x4008, 9)), EmbeddedImageError::FieldChanged);
    assert_eq!(error(&changed(0x4100, 9)), EmbeddedImageError::PaddingLayoutChanged);
    assert_eq!(error(&changed(0x4200, 9)), EmbeddedImageError::DataOffsetChanged);
    assert_eq!(error(&changed(0x4204, 9)), EmbeddedImageError::InvalidLength);
    assert_eq!(error(&changed(0x420c, 9)), EmbeddedImageError::VersionChanged);
    assert_eq!(error(&changed(0x421a, 9)), EmbeddedImageError::UnknownSignature);
    assert_eq!(error(&raw[..0x4100]), EmbeddedImageError::HeaderTruncated);
    assert_eq!(error(&raw[..0x4210]), EmbeddedImageError::PayloadTruncated);
    assert_eq!(
        read_embedded_image_with_limit(&raw, block, 10).map(|_| ()),
        Err(EmbeddedImageError::TooLarge)
    );
    let text = summary.blocks.iter().find(|block| block.id == 1518).unwrap();
    assert_eq!(
        read_embedded_image(&raw, text).map(|_| ()),
        Err(EmbeddedImageError::NotAnImage)
    );
}

#[test]
fn a_replaced_logo_is_the_active_one() {
    let raw = sample(&picture(4, 2, 1));
    let (plan, width, height) =
        replace_boot_logo(raw.clone(), &true_colour(4, 2), &plain).unwrap();
    assert_eq!((width, height), (4, 2));
    assert_eq!(plan.target, 0x4000);
    assert_eq!(plan.age, 7);
    let mut written = raw.clone();
    overwrite(&mut written, plan.target, &plan.block);
    assert_eq!(written[..0x4000], raw[..0x4000]);
    assert_eq!(written[0x4000 + plan.block.len()..], raw[0x4000 + plan.block.len()..]);
    let image = OemInfoImage::from_bytes(written.clone(), &plain).unwrap();
    assert_eq!(image.as_bytes(), &written[..]);
    let done = confirm_boot_logo(&image, &plan, width, height, "backup".to_string()).unwrap();
    assert_eq!((done.age, done.target_offset), (7, 0x4000));
    assert_eq!(done.backup_path, "backup");
    let stale = OemInfoImage::from_bytes(raw, &plain).unwrap();
    assert!(confirm_boot_logo(&stale, &plan, width, height, String::new()).is_err());
}

#[test]
fn a_written_logo_joins_the_other_blocks() {
    let listed = |raw: Vec<u8>| -> Vec<(u64, u32, u32, bool)> {
        let blocks = inspect(raw, &plain).unwrap().blocks;
        blocks.iter().map(|b| (b.offset, b.id, b.age, b.active)).collect()
    };
    let mut single = sample(&picture(4, 2, 1));
    single[0x4000..0x6000].fill(0xff);
    for raw in [sample(&picture(4, 2, 1)), single] {
        let (plan, _, _) = replace_boot_logo(raw.clone(), &true_colour(4, 2), &plain).unwrap();
        let mut written = raw.clone();
        overwrite(&mut written, plan.target, &plan.block);
        let before = listed(raw);
        let after = listed(written);
        let target = plan.target as u64;
        for block in before.iter().filter(|b| b.0 != target && b.1 != 4501) {
            assert!(after.contains(block));
        }
        let logos: Vec<_> = after.iter().filter(|b| b.1 == 4501).collect();
        assert_eq!(logos.len(), 2);
        assert!(logos.contains(&&(target, 4501, 7, true)));
        assert!(logos.contains(&&(0x4000 + BANK as u64, 4501, 6, false)));
    }
}

#[test]
fn logos_that_cannot_be_replaced_have_their_error() {
    let error = |raw: Vec<u8>, replacement: &[u8]| {
        replace_boot_logo(raw, replacement, &plain).map(|_| ()).unwrap_err()
    };
    let raw = sample(&picture(4, 2, 1));
    assert_eq!(
        error(raw.clone(), b"BM no picture"),
        LogoError::Replacement(BmpError::Unsupported)
    );
    assert_eq!(error(raw.clone(), &true_colour(5, 2)), LogoError::DimensionMismatch);
    assert_eq!(
        error(vec![0; 16], &true_colour(4, 2)),
        LogoError::Image(OemInfoError::TooSmall)
    );
    let mut none = vec![0xff; SIZE];
    put(&mut none, 0x1000, 1516, 1, 3, b"OHOS 5.0.0.25\0");
    assert_eq!(error(none, &true_colour(4, 2)), LogoError::NoLogo);
    let mut old = raw.clone();
    old[0x4000 + BANK + 24..0x4000 + BANK + 28].copy_from_slice(&0x3b9a_c9ffu32.to_le_bytes());
    assert_eq!(error(old, &true_colour(4, 2)), LogoError::AgeOverflow);
}

#[test]
fn versions_are_recognized() {
    let is = |text: &str| looks_like_version(&text.chars().collect::<Vec<char>>());
    assert!(is("OHOS 5.0.0.25"));
    assert!(!is("ABC-AL00"));
}
