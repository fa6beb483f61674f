use haucet::formats::certificate::{
    decode_extension_value, read_certificate, summarize_certificate, SecImageExtensionValue,
};
use haucet::formats::der::{decode_hex, decode_unsigned_integer, printable_text, single_der_value};
use haucet::formats::gpt::{
    format_guid, looks_like_storage_head, parse_header_bytes, parse_image, parse_name,
    parse_storage_head, GptError, GptPartition,
};
use haucet::formats::secimg::{
    parse_stage, probe, probe_image, probe_length, validate_name, SecImageError, SecImageInfo,
};
use haucet::names::{find_base_name, find_ending, holds_name, is_simple_name, join};
use haucet::splituapp::{
    check_stored_entry, find_update_app, inspect_reader, normalize_selection, probe as probe_app,
    unpack, unpack_reader, unpack_selected, ArchiveEntry, PackageError,
};
use haucet::text::{
    control, find_text, lower, parse_signed, parse_unsigned, split_lines, split_words, trim, white,
};

fn chars(text: &str) -> Vec<char> {
    text.chars().collect()
}

// ---------------------------------------------------------------------------
// Partition tables
// ---------------------------------------------------------------------------

fn header(entries: u32, size: u32) -> Vec<u8> {
    let mut b = vec![0; 512];
    b[..8].copy_from_slice(b"EFI PART");
    b[8..12].copy_from_slice(&0x10000u32.to_le_bytes());
    b[12..16].copy_from_slice(&92u32.to_le_bytes());
    b[24..32].copy_from_slice(&1u64.to_le_bytes());
    b[32..40].copy_from_slice(&99u64.to_le_bytes());
    b[40..48].copy_from_slice(&34u64.to_le_bytes());
    b[48..56].copy_from_slice(&90u64.to_le_bytes());
    for i in 0..16 {
        b[56 + i] = i as u8;
    }
    b[72..80].copy_from_slice(&2u64.to_le_bytes());
    b[80..84].copy_from_slice(&entries.to_le_bytes());
    b[84..88].copy_from_slice(&size.to_le_bytes());
    b
}

fn entry(name: &str, first: u64, last: u64) -> Vec<u8> {
    let mut b = vec![0; 128];
    b[..16].fill(0x11);
    b[16..32].fill(0x22);
    b[32..40].copy_from_slice(&first.to_le_bytes());
    b[40..48].copy_from_slice(&last.to_le_bytes());
    for (i, unit) in name.encode_utf16().enumerate() {
        b[56 + 2 * i..58 + 2 * i].copy_from_slice(&unit.to_le_bytes());
    }
    b
}

fn disk() -> Vec<u8> {
    let mut raw = vec![0; 512];
    raw.extend(header(4, 128));
    raw.extend(entry("boot", 34, 41));
    raw.extend(entry("sys\u{1F600}", 42, 42));
    raw.resize(100 * 512, 0);
    raw
}

#[test]
fn partition_tables_are_read() {
    let info = parse_image(&disk()).unwrap();
    assert_eq!(info.tables.len(), 1);
    assert_eq!(info.partition_count(), 2);
    let table = &info.tables[0];
    assert_eq!((table.image_offset, table.block_size), (512, 512));
    assert_eq!(table.header.disk_guid, "03020100-0504-0706-0809-0A0B0C0D0E0F");
    assert_eq!(table.partitions[0].name, "boot");
    assert_eq!(table.partitions[0].sector_count(), 8);
    assert_eq!(table.partitions[0].byte_len(512), 4096);
    assert_eq!(table.partitions[1].name, "sys\u{1F600}");
    let head = parse_storage_head(&disk()).unwrap();
    assert_eq!(head.tables[0].partitions.len(), 2);
    assert!(!looks_like_storage_head(&disk()));
    let moved = [vec![0; 512], disk()].concat();
    assert!(looks_like_storage_head(&moved));
    assert!(!looks_like_storage_head(&[0; 2048]));
}

#[test]
fn wrong_partition_tables_have_their_error() {
    let error = |b: Vec<u8>| parse_header_bytes(&b).map(|_| ()).unwrap_err();
    assert_eq!(error(vec![0; 10]), GptError::TooSmall);
    assert_eq!(error(vec![0; 512]), GptError::MissingSignature);
    let mut short = header(4, 128);
    short[12] = 10;
    assert_eq!(error(short), GptError::HeaderSize);
    assert_eq!(error(header(16385, 128)), GptError::EntryCount);
    assert_eq!(error(header(4, 100)), GptError::EntrySize);
    assert!(parse_header_bytes(&header(4, 128)).is_ok());
    let backwards = GptPartition {
        index: 0,
        type_guid: String::new(),
        unique_guid: String::new(),
        first_lba: 9,
        last_lba: 3,
        attributes: 0,
        name: String::new(),
    };
    assert_eq!(backwards.sector_count(), 1);
    assert_eq!(
        format_guid(&[1, 2, 3, 4, 5, 6, 7, 8, 9, 10, 11, 12, 13, 14, 15, 16]),
        "04030201-0605-0807-090A-0B0C0D0E0F10"
    );
    assert_eq!(parse_name(&[0x61, 0, 0, 0, 0x62, 0]), "a");
}

// ---------------------------------------------------------------------------
// Signed images
// ---------------------------------------------------------------------------

fn der(tag: u8, content: &[u8]) -> Vec<u8> {
    let mut out = vec![tag];
    if content.len() < 128 {
        out.push(content.len() as u8);
    } else {
        out.push(0x82);
        out.extend_from_slice(&(content.len() as u16).to_be_bytes());
    }
    out.extend_from_slice(content);
    out
}

fn name(text: &str) -> Vec<u8> {
    let pair = der(0x30, &[der(6, &[0x55, 4, 3]), der(0x0c, text.as_bytes())].concat());
    der(0x30, &der(0x31, &pair))
}

fn certificate(issuer: &str, subject: &str, extensions: &[(Vec<u8>, Vec<u8>)]) -> Vec<u8> {
    let algorithm = der(0x30, &[der(6, &[0x2a, 0x86, 0x48, 0x86, 0xf7, 13, 1, 1, 11]), vec![5, 0]].concat());
    let key_algorithm = der(0x30, &[der(6, &[0x2a, 0x86, 0x48, 0x86, 0xf7, 13, 1, 1, 1]), vec![5, 0]].concat());
    let key = der(0x30, &[key_algorithm, der(3, &[0, 1, 2, 3])].concat());
    let validity = der(0x30, &[der(0x17, b"200101000000Z"), der(0x17, b"300101000000Z")].concat());
    let mut list = Vec::new();
    for (oid, value) in extensions {
        list.extend(der(0x30, &[der(6, oid), der(4, value)].concat()));
    }
    let mut body = [
        der(0xa0, &der(2, &[2])),
        der(2, &[0x12, 0x34]),
        algorithm.clone(),
        name(issuer),
        validity,
        name(subject),
        key,
    ]
    .concat();
    if !extensions.is_empty() {
        body.extend(der(0xa3, &der(0x30, &list)));
    }
    der(0x30, &[der(0x30, &body), algorithm, der(3, &[0, 9, 9])].concat())
}

#[test]
fn certificates_are_summarized() {
    let oid = vec![0x2b, 6, 1, 4, 1, 0x82, 0x8f, 0x5b, 1];
    let raw = certificate("Root", "Leaf", &[(oid, der(2, &[5]))]);
    let found = read_certificate(&[raw.clone(), vec![1, 2, 3]].concat()).unwrap();
    assert_eq!(found.remaining, 3);
    assert_eq!(found.subject, "CN=Leaf");
    assert_eq!(found.issuer, "CN=Root");
    assert_eq!(found.serial_hex, "12:34");
    assert_eq!(found.signature_algorithm_oid, "1.2.840.113549.1.1.11");
    assert_eq!(found.extensions.len(), 1);
    assert_eq!(found.extensions[0].value, [2, 1, 5]);
    let summary = summarize_certificate(&found, 1, 64, raw.len()).unwrap();
    assert_eq!((summary.chain_index, summary.offset), (1, 64));
    assert!(read_certificate(b"no certificate").is_none());
}

#[test]
fn extension_values_are_decoded() {
    assert!(matches!(
        decode_extension_value(&[2, 2, 1, 0]),
        SecImageExtensionValue::Integer { value: 256 }
    ));
    match decode_extension_value(&[4, 4, b'b', b'o', b'o', b't']) {
        SecImageExtensionValue::Octets { hex, text } => {
            assert_eq!(hex, "626f6f74");
            assert_eq!(text.unwrap(), "boot");
        }
        other => panic!("{other:?}"),
    }
    assert!(matches!(
        decode_extension_value(&[0x30, 0]),
        SecImageExtensionValue::Der { .. }
    ));
    assert_eq!(single_der_value(&[4, 2, 8, 9]), Some((4, &[8, 9][..])));
    assert_eq!(single_der_value(&[4, 3, 8, 9]), None);
    assert_eq!(decode_unsigned_integer(&[0, 0x80]), Some(128));
    assert_eq!(decode_unsigned_integer(&[0x80]), None);
    assert_eq!(printable_text(b"vendor").unwrap(), "vendor");
    assert_eq!(printable_text(&[1, 2]), None);
    assert_eq!(decode_hex("00ff"), Some(vec![0, 255]));
    assert_eq!(decode_hex("0g"), None);
}

#[test]
fn files_without_certificates_are_no_signed_images() {
    assert!(!probe(&[0; 0x3000]));
    assert!(!probe_image(&[0; 0x3000], 0x3000));
    assert!(probe_length(5) <= 5);
    assert_eq!(
        SecImageInfo::from_bytes(&[0; 100]).map(|_| ()).unwrap_err(),
        SecImageError::TooSmall
    );
    assert_eq!(
        parse_stage(&[0; 0x3000], 0).map(|_| ()).unwrap_err(),
        SecImageError::Certificate
    );
    assert!(validate_name("xloader"));
    assert!(!validate_name("../xloader"));
}

#[test]
fn signed_images_are_told_by_their_header_alone() {
    let oid = |last: u8| vec![0x64, 2, last];
    let leaf = [
        (oid(8), der(4, b"xloader")),
        (oid(14), der(4, b"xloader_a")),
        (oid(67), der(2, &[1, 0])),
        (oid(65), der(4, &[7; 32])),
    ];
    let mut head = [
        certificate("Root", "Root", &[]),
        certificate("Root", "Stage", &[]),
        certificate("Stage", "Leaf", &leaf),
    ]
    .concat();
    head.resize(0x2000, 0);
    assert!(probe(&head));
    for tail in [vec![0; 1], vec![0xff; 0x100], vec![0x30; 0x3000]] {
        assert!(probe(&[head.clone(), tail].concat()));
    }
    assert!(!probe(&head[..0x1fff]));
    assert!(probe_image(&head, 0x2100));
    assert!(!probe_image(&head, 0x20ff));
    head[4] ^= 0xff;
    assert!(!probe(&head));
}

// ---------------------------------------------------------------------------
// Packages
// ---------------------------------------------------------------------------

fn record(name: &str, data: &[u8]) -> Vec<u8> {
    let mut b = vec![0x55, 0xaa, 0x5a, 0xa5];
    let checksum = [7, 7];
    b.extend_from_slice(&(98 + checksum.len() as u32).to_le_bytes());
    b.extend_from_slice(&1u32.to_le_bytes());
    b.extend_from_slice(b"HW64C\0\0\0");
    b.extend_from_slice(&3u32.to_le_bytes());
    b.extend_from_slice(&(data.len() as u32).to_le_bytes());
    b.resize(60, 0);
    b.extend_from_slice(name.as_bytes());
    b.resize(98, 0);
    b.extend_from_slice(&checksum);
    b.extend_from_slice(data);
    while b.len() % 4 != 0 {
        b.push(0);
    }
    b
}

fn package() -> Vec<u8> {
    let mut raw = vec![0; 92];
    raw.extend(record("BOOT", b"boot data"));
    raw.extend(record("VENDOR", b"vendor"));
    raw
}

#[test]
fn packages_are_listed_and_planned() {
    let raw = package();
    assert!(probe_app(&raw));
    assert!(!probe_app(&[0; 200]));
    let index = inspect_reader(&raw, Some(raw.len() as u64)).unwrap();
    assert_eq!(index.records.len(), 2);
    let boot = &index.records[0];
    assert_eq!(boot.name, "boot");
    assert_eq!(&raw[boot.data_offset as usize..][..boot.size as usize], b"boot data");
    assert_eq!(boot.checksum, [7, 7]);
    let plan = unpack(&raw, "out").unwrap();
    assert_eq!(plan.len(), 2);
    assert!(plan[0].path.starts_with("out/"));
    let wanted = normalize_selection(&vec!["vendor".to_string()]).unwrap();
    assert_eq!(wanted.len(), 1);
    let chosen = unpack_selected(&raw, "out", &vec!["vendor".to_string()]).unwrap();
    assert_eq!(chosen.len(), 1);
    assert_eq!(chosen[0].record.name, "vendor");
    assert_eq!(
        unpack_selected(&raw, "out", &vec!["missing".to_string()]).map(|_| ()),
        Err(PackageError::MissingImage)
    );
    assert_eq!(
        unpack_reader(&raw, Some(raw.len() as u64 + 4), "out", &Vec::new()).map(|_| ()),
        Err(PackageError::LengthMismatch)
    );
}

#[test]
fn wrong_packages_have_their_error() {
    let error = |raw: &[u8]| inspect_reader(raw, None).map(|_| ()).unwrap_err();
    assert_eq!(error(&[]), PackageError::NoRecords);
    assert_eq!(error(&[0; 7]), PackageError::TruncatedMagic);
    assert_eq!(error(&vec![0; 0x10_0008]), PackageError::NoMagic);
    let raw = package();
    assert_eq!(error(&raw[..150]), PackageError::TruncatedHeader);
    assert_eq!(error(&raw[..195]), PackageError::Truncated);
    let mut bad = raw.clone();
    bad[96..100].copy_from_slice(&5u32.to_le_bytes());
    assert_eq!(error(&bad), PackageError::HeaderSize);
    let mut unsafe_name = vec![0; 92];
    unsafe_name.extend(record("../BOOT", b"x"));
    assert_eq!(error(&unsafe_name), PackageError::UnsafeName);
}

#[test]
fn archives_hold_one_package() {
    let file = |name: &str| ArchiveEntry {
        enclosed: true,
        directory: false,
        file_name: Some(name.to_string()),
    };
    assert_eq!(find_update_app(&vec![file("a"), file("UPDATE.APP")]), Ok(1));
    assert_eq!(find_update_app(&vec![file("a")]), Err(PackageError::NoPackage));
    assert_eq!(
        find_update_app(&vec![file("UPDATE.APP"), file("UPDATE.APP")]),
        Err(PackageError::SeveralPackages)
    );
    let outside = ArchiveEntry { enclosed: false, directory: false, file_name: None };
    assert_eq!(find_update_app(&vec![outside]), Err(PackageError::UnsafeEntry));
    assert_eq!(check_stored_entry(10, 10, 5, 15), Ok(()));
    assert_eq!(check_stored_entry(10, 11, 5, 15), Err(PackageError::StoredSize));
}

// ---------------------------------------------------------------------------
// Text
// ---------------------------------------------------------------------------

#[test]
fn characters_are_classed_as_in_the_standard_library() {
    for code in 0..0x11_0000u32 {
        if let Some(c) = char::from_u32(code) {
            assert_eq!(white(c), c.is_whitespace(), "{code:x}");
            assert_eq!(control(c), c.is_control(), "{code:x}");
        }
    }
}

#[test]
fn text_is_split_as_in_the_standard_library() {
    for text in ["", " a  b\tc \u{3000}d", "one\r\ntwo\n\nthree", "x", "\n", "a\r", "  "] {
        let own = chars(text);
        let words: Vec<String> = split_words(&own).iter().map(|w| w.iter().collect()).collect();
        assert_eq!(words, text.split_whitespace().collect::<Vec<_>>());
        let lines: Vec<String> = split_lines(&own).iter().map(|w| w.iter().collect()).collect();
        assert_eq!(lines, text.lines().collect::<Vec<_>>());
        assert_eq!(trim(&own).iter().collect::<String>(), text.trim());
        assert_eq!(lower(&own).iter().collect::<String>(), text.to_ascii_lowercase());
    }
    for number in ["0", "+7", "-7", "18446744073709551615", "18446744073709551616", "", "+", "x"] {
        assert_eq!(parse_unsigned(&chars(number), 10, u64::MAX), number.parse::<u64>().ok());
        assert_eq!(parse_signed(&chars(number)), number.parse::<i64>().ok());
    }
    assert_eq!(parse_unsigned(&chars("fF"), 16, 255), Some(255));
    assert_eq!(find_text(&chars("abcabd"), &chars("abd")), Some(3));
    assert_eq!(find_text(&chars("abc"), &chars("x")), None);
}

#[test]
fn names_are_simple_joined_and_found() {
    assert!(is_simple_name(&chars("boot.img")));
    for bad in ["", ".", "..", "a/b", "a\\b"] {
        assert!(!is_simple_name(&chars(bad)), "{bad}");
    }
    assert_eq!(join(&chars("a"), &chars("b")).iter().collect::<String>(), "a/b");
    assert_eq!(find_base_name(&chars("a/b\\c")).iter().collect::<String>(), "c");
    let list = vec!["a_x".to_string(), "b_y".to_string()];
    assert_eq!(find_ending(&list, "_y"), Some(1));
    assert!(holds_name(&list, &chars("a_x")));
    assert!(!holds_name(&list, &chars("a")));
}
