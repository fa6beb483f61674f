use haucet::erofs::build_options::BuildOptions;
use haucet::erofs::builder::build_image;
use haucet::erofs::compression::{compress_file, Compression, CompressError};
use haucet::erofs::directory::{encode_directory, DirectoryEntry, DirectoryError};
use haucet::erofs::image::BuildReport;
use haucet::erofs::indexes::{relocate_indexes, IndexError};
use haucet::erofs::layout::{
    EROFS_INODE_COMPRESSED_COMPACT, EROFS_INODE_COMPRESSED_FULL, EROFS_INODE_FLAT_INLINE,
    EROFS_XATTR_INDEX_SECURITY,
};
use haucet::erofs::metadata::{EntryMetadata, MetadataManifest, MetadataResolver};
use haucet::erofs::slots::{assign_slots, SlotRequest};
use haucet::erofs::stage::write_regular;
use haucet::erofs::tree::{
    attach_child, child_path, hardlink_identity, is_valid_name, needs_digest, resolve_hardlinks, Entry,
    LinkIdentity,
};
use haucet::erofs::verify::{
    image_inventory, verify_image, Extent, ImageHeader, Node, VerifyError,
};
use haucet::erofs::xattrs::{encode_xattrs, XattrError};

const REG: u32 = 0x8000;
const DIR: u32 = 0x4000;
const LNK: u32 = 0xa000;

fn metadata(mode: u32) -> EntryMetadata {
    EntryMetadata {
        mode,
        uid: 0,
        gid: 0,
        mtime: 0,
        mtime_nsec: 0,
        rdev: 0,
        original_nid: None,
        symlink: None,
        xattrs: Vec::new(),
    }
}

fn options() -> BuildOptions {
    BuildOptions::default()
}

/// A source tree in memory.
struct Source {
    entries: Vec<Entry>,
    contents: Vec<Vec<u8>>,
}

impl Source {
    fn new() -> Source {
        let root = Entry::new("/".to_string(), metadata(DIR | 0o755), 0, true, false, 0).unwrap();
        Source { entries: vec![root], contents: vec![Vec::new()] }
    }

    fn add(&mut self, parent: usize, name: &str, metadata: EntryMetadata, data: &[u8]) -> usize {
        let path = child_path(&self.entries[parent].path, name);
        let directory = metadata.mode & 0xf000 == DIR;
        let file = metadata.mode & 0xf000 == REG;
        let entry =
            Entry::new(path, metadata, parent, directory, file, data.len() as u64).unwrap();
        let index = self.entries.len();
        self.entries.push(entry);
        self.contents.push(data.to_vec());
        attach_child(&mut self.entries, parent, name, index).unwrap();
        index
    }

    fn file(&mut self, name: &str, data: &[u8]) -> usize {
        self.add(0, name, metadata(REG | 0o644), data)
    }

    fn link(&mut self, identities: Vec<Option<LinkIdentity>>) {
        let mut digests = Vec::new();
        for i in 0..self.entries.len() {
            digests.push(if needs_digest(&self.entries, &identities, i) {
                Some(haucet::erofs::inode::content_digest(&self.contents[i]))
            } else {
                None
            });
        }
        resolve_hardlinks(&mut self.entries, &identities, &digests).unwrap();
    }

    fn build(&mut self, options: &BuildOptions) -> (Vec<u8>, BuildReport) {
        build_image(&mut self.entries, &self.contents, options, 0, &lz4).unwrap()
    }
}

// A greedy LZ4 block compressor that fills at most `capacity` bytes.
fn lz4(input: &[u8], capacity: usize) -> Option<(usize, Vec<u8>)> {
    let mut table: Vec<usize> = vec![usize::MAX; 1 << 14];
    let mut out: Vec<u8> = Vec::new();
    let mut anchor = 0;
    let mut i = 0;
    while i + 4 <= input.len() {
        let word = u32::from_le_bytes([input[i], input[i + 1], input[i + 2], input[i + 3]]);
        let slot = (word.wrapping_mul(2654435761) >> 18) as usize;
        let candidate = table[slot];
        table[slot] = i;
        if candidate == usize::MAX
            || i - candidate > 65535
            || input[candidate..candidate + 4] != input[i..i + 4]
        {
            i += 1;
            continue;
        }
        let mut length = 4;
        while i + length < input.len() && input[candidate + length] == input[i + length] {
            length += 1;
        }
        let literals = i - anchor;
        let cost = 1 + literals + literals / 255 + 1 + 2 + length / 255 + 1;
        if out.len() + cost + 1 > capacity {
            break;
        }
        sequence(&mut out, &input[anchor..i], Some((i - candidate, length)));
        i += length;
        anchor = i;
    }
    let rest = input.len() - anchor;
    let room = capacity - out.len();
    let fits = if rest + rest / 255 + 2 <= room { rest } else { room - 2 - room / 255 };
    sequence(&mut out, &input[anchor..anchor + fits], None);
    Some((anchor + fits, out))
}

fn sequence(out: &mut Vec<u8>, literals: &[u8], found: Option<(usize, usize)>) {
    let high = literals.len().min(15);
    let low = found.map_or(0, |(_, length)| (length - 4).min(15));
    out.push((high * 16 + low) as u8);
    if high == 15 {
        extend(out, literals.len() - 15);
    }
    out.extend_from_slice(literals);
    if let Some((offset, length)) = found {
        out.extend_from_slice(&(offset as u16).to_le_bytes());
        if low == 15 {
            extend(out, length - 19);
        }
    }
}

fn extend(out: &mut Vec<u8>, mut rest: usize) {
    while rest >= 255 {
        out.push(255);
        rest -= 255;
    }
    out.push(rest as u8);
}

fn unlz4(block: &[u8], size: usize) -> Vec<u8> {
    let mut at = block.iter().position(|&b| b != 0).unwrap();
    let mut out: Vec<u8> = Vec::new();
    loop {
        let token = block[at] as usize;
        at += 1;
        let mut literals = token / 16;
        if literals == 15 {
            loop {
                let more = block[at] as usize;
                at += 1;
                literals += more;
                if more != 255 {
                    break;
                }
            }
        }
        out.extend_from_slice(&block[at..at + literals]);
        at += literals;
        if out.len() >= size || at >= block.len() {
            return out;
        }
        let offset = block[at] as usize + 256 * block[at + 1] as usize;
        at += 2;
        let mut length = token % 16 + 4;
        if length == 19 {
            loop {
                let more = block[at] as usize;
                at += 1;
                length += more;
                if more != 255 {
                    break;
                }
            }
        }
        for _ in 0..length {
            out.push(out[out.len() - offset]);
        }
    }
}

fn number(image: &[u8], at: usize, size: usize) -> u64 {
    let mut value = 0;
    for i in 0..size {
        value |= (image[at + i] as u64) << (8 * i);
    }
    value
}

#[derive(Debug)]
struct Inode {
    nid: u64,
    layout: u8,
    mode: u32,
    size: usize,
    union: usize,
    uid: u32,
    gid: u32,
    mtime: u64,
    nsec: u32,
    links: u32,
    end: usize,
    header: usize,
    xattrs: usize,
}

fn inode(image: &[u8], nid: u64) -> Inode {
    let at = nid as usize * 32;
    let format = number(image, at, 2);
    let extended = format & 1 == 1;
    let count = number(image, at + 2, 2) as usize;
    let xattrs = if count == 0 { 0 } else { 12 + 4 * (count - 1) };
    let header = if extended { 64 } else { 32 };
    let epoch = number(image, 1024 + 24, 8);
    Inode {
        nid,
        layout: (format >> 1) as u8 & 7,
        mode: number(image, at + 4, 2) as u32,
        size: number(image, at + 8, if extended { 8 } else { 4 }) as usize,
        union: number(image, at + 16, 4) as usize,
        uid: number(image, at + 24, if extended { 4 } else { 2 }) as u32,
        gid: number(image, at + if extended { 28 } else { 26 }, if extended { 4 } else { 2 }) as u32,
        mtime: if extended { number(image, at + 32, 8) } else { epoch },
        nsec: if extended { number(image, at + 40, 4) as u32 } else { 0 },
        links: number(image, at + if extended { 44 } else { 6 }, if extended { 4 } else { 2 }) as u32,
        end: at + header + xattrs,
        header,
        xattrs,
    }
}

// One attribute, and where the next one stands.
fn attribute(image: &[u8], at: usize) -> ((String, Vec<u8>), usize) {
    let prefix = match image[at + 1] {
        1 => "user.",
        4 => "trusted.",
        6 => "security.",
        other => panic!("{other}"),
    };
    let start = at + 4;
    let middle = start + image[at] as usize;
    let end = middle + number(image, at + 2, 2) as usize;
    let suffix = String::from_utf8(image[start..middle].to_vec()).unwrap();
    ((format!("{prefix}{suffix}"), image[middle..end].to_vec()), end.next_multiple_of(4))
}

// The attributes of an inode: those that it refers to, and those that it holds.
fn attributes_of(image: &[u8], node: &Inode) -> Vec<(String, Vec<u8>)> {
    let mut found = Vec::new();
    if node.xattrs == 0 {
        return found;
    }
    let table = (number(image, 1024 + 44, 4) as usize) << image[1024 + 12];
    let mut at = node.end - node.xattrs;
    let count = image[at + 4];
    at += 12;
    for _ in 0..count {
        let offset = 4 * number(image, at, 4) as usize;
        found.push(attribute(image, table + offset).0);
        at += 4;
    }
    while at < node.end {
        let (entry, next) = attribute(image, at);
        found.push(entry);
        at = next;
    }
    found
}

fn read(image: &[u8], node: &Inode) -> Vec<u8> {
    let block = 1usize << image[1024 + 12];
    if node.size == 0 {
        return Vec::new();
    }
    let start = node.union * block;
    match node.layout {
        0 => image[start..start + node.size].to_vec(),
        2 => {
            let whole = node.size / block * block;
            let mut data = if whole == 0 { Vec::new() } else { image[start..start + whole].to_vec() };
            data.extend_from_slice(&image[node.end..node.end + node.size - whole]);
            data
        }
        _ => read_compressed(image, node, block),
    }
}

// The kind, the offset and the value of each logical cluster.
fn clusters(image: &[u8], node: &Inode, block: usize) -> (Vec<(u8, usize, usize)>, usize) {
    let map = (node.end + 7) / 8 * 8;
    let total = (node.size + block - 1) / block;
    let big = number(image, map + 4, 2) & 2 != 0;
    let mut list = Vec::new();
    if node.layout == EROFS_INODE_COMPRESSED_FULL {
        for l in 0..total {
            let at = map + 16 + 8 * l;
            list.push((
                number(image, at, 2) as u8 & 3,
                number(image, at + 2, 2) as usize,
                number(image, at + 4, 2) as usize,
            ));
        }
        return (list, number(image, map + 20, 4) as usize);
    }
    let start = map + 8;
    let first = ((32 - start % 32) / 4) & 7;
    let first = if first > total { 0 } else { first };
    let short = (total - first) / 16 * 16;
    let mut at = start;
    let mut l = 0;
    let base = {
        let size = if first == 0 && short > 0 { 32 } else { 8 };
        number(image, start + size - 4, 4) as u32
    };
    while l < total {
        let (count, size) = if l >= first && l < first + short { (16, 32) } else { (2, 8) };
        let bits = (size - 4) * 8 / count;
        for slot in 0..count {
            let mut value = 0;
            for n in 0..bits {
                let bit = slot * bits + n;
                value |= ((image[at + bit / 8] as usize >> (bit % 8)) & 1) << n;
            }
            list.push(((value >> 12) as u8 & 3, value & 4095, value & 4095));
        }
        at += size;
        l += count;
    }
    list.truncate(total);
    (list, if big { base } else { base.wrapping_add(1) } as usize)
}

fn read_compressed(image: &[u8], node: &Inode, block: usize) -> Vec<u8> {
    let (list, mut address) = clusters(image, node, block);
    let mut heads: Vec<(usize, u8, usize)> = Vec::new();
    for (l, &(kind, offset, _)) in list.iter().enumerate() {
        if kind != 2 {
            let blocks = match list.get(l + 1) {
                Some(&(2, _, value)) if value & 0x800 != 0 => value & 0x7ff,
                _ => 1,
            };
            heads.push((l * block + offset, kind, blocks));
        }
    }
    let mut data = Vec::new();
    for (i, &(start, kind, blocks)) in heads.iter().enumerate() {
        let end = heads.get(i + 1).map_or(node.size, |next| next.0).min(node.size);
        if start >= end {
            break;
        }
        let stored = &image[address * block..(address + blocks) * block];
        address += blocks;
        let piece = if kind == 0 { stored.to_vec() } else { unlz4(stored, end - start) };
        data.extend_from_slice(&piece[..end - start]);
    }
    data
}

fn listing(image: &[u8], nid: u64) -> Vec<(String, u64)> {
    let block = 1usize << image[1024 + 12];
    let data = read(image, &inode(image, nid));
    let mut found = Vec::new();
    for chunk in data.chunks(block) {
        let count = number(chunk, 8, 2) as usize / 12;
        for i in 0..count {
            let from = number(chunk, 12 * i + 8, 2) as usize;
            let to = if i + 1 < count {
                number(chunk, 12 * i + 20, 2) as usize
            } else {
                chunk.len()
            };
            let name = &chunk[from..to];
            let name = &name[..name.iter().position(|&b| b == 0).unwrap_or(name.len())];
            found.push((String::from_utf8(name.to_vec()).unwrap(), number(chunk, 12 * i, 8)));
        }
    }
    found
}

fn root(image: &[u8]) -> u64 {
    number(image, 1024 + 14, 2)
}

fn lookup(image: &[u8], path: &str) -> Inode {
    let mut nid = root(image);
    for part in path.split('/').filter(|part| !part.is_empty()) {
        nid = listing(image, nid).into_iter().find(|(name, _)| name == part).unwrap().1;
    }
    inode(image, nid)
}

fn read_file(image: &[u8], path: &str) -> (Inode, Vec<u8>) {
    let node = lookup(image, path);
    let data = read(image, &node);
    (node, data)
}

fn header(image: &[u8]) -> ImageHeader {
    let mut uuid = [0; 16];
    uuid.copy_from_slice(&image[1024 + 48..1024 + 64]);
    ImageHeader {
        blocks: number(image, 1024 + 36, 4),
        block_size: 1 << image[1024 + 12],
        superblock_size: 128,
        checksum: if number(image, 1024 + 8, 4) & 1 == 1 {
            Some(number(image, 1024 + 4, 4) as u32)
        } else {
            None
        },
        packed_nid: 0,
        uuid,
        label: image[1024 + 64..1024 + 80].to_vec(),
        epoch: number(image, 1024 + 24, 8) as i64,
        build_time: number(image, 1024 + 108, 4) as u32,
    }
}

fn flat_extents(image: &[u8], node: &Inode) -> Vec<Extent> {
    let block = 1usize << image[1024 + 12];
    let mapped = |logical: usize, length: usize, physical: usize| Extent {
        logical: logical as u64,
        length: length as u64,
        is_mapped: true,
        is_fragment: false,
        physical: physical as u64,
        physical_length: length as u64,
        device: 0,
    };
    let whole = if node.layout == 2 { node.size / block * block } else { node.size };
    let mut extents = Vec::new();
    if whole > 0 {
        extents.push(mapped(0, whole, node.union * block));
    }
    if whole < node.size {
        extents.push(mapped(whole, node.size - whole, node.end));
    }
    extents
}

fn nodes(image: &[u8], directory: u64, path: &str) -> Vec<Node> {
    let mut found = Vec::new();
    let node = inode(image, directory);
    let data = read(image, &node);
    found.push(Node {
        path: path.to_string(),
        nid: node.nid,
        offset: node.nid * 32,
        inode_size: node.header as u32,
        xattr_size: node.xattrs as u32,
        size: node.size as u64,
        fragment_offset: 0,
        metadata: EntryMetadata { mtime: node.mtime, ..metadata(node.mode) },
        extents: flat_extents(image, &node),
        data,
    });
    if node.mode & 0xf000 == DIR {
        for (name, nid) in listing(image, directory) {
            if name != "." && name != ".." {
                found.extend(nodes(image, nid, &child_path(path, &name)));
            }
        }
    }
    found
}

#[test]
fn flat_images_roundtrip_multiblock_directories_and_inline_tails() {
    for block_size in [512u32, 1024, 2048, 4096] {
        let mut source = Source::new();
        let data: Vec<u8> = (0..3 * block_size + 73).map(|i| (i % 251) as u8).collect();
        source.file("empty", &[]);
        source.add(0, "empty-dir", metadata(DIR | 0o755), &[]);
        for number in 0..150 {
            source.file(&format!("entry-{number:03}"), &[number as u8]);
        }
        source.file("large", &data);
        let options = BuildOptions {
            block_size,
            cluster_size: block_size,
            compression: Compression::Off,
            timestamp: Some(123456),
            ..options()
        };
        let (image, report) = source.build(&options);
        assert_eq!(report.directory_count, 2);
        assert_eq!(report.file_count, 152);
        assert_eq!(report.image_bytes % block_size as u64, 0);
        assert_eq!(report.image_bytes, image.len() as u64);
        assert_eq!(read_file(&image, "/large").1, data);
        assert!(read_file(&image, "/empty").1.is_empty());
        assert_eq!(read_file(&image, "/entry-149").1, [149]);
        let root = read_file(&image, "/").0;
        assert_eq!(root.links, 3);
        let mut raw = image.clone();
        let stored = number(&raw, 1028, 4) as u32;
        raw[1028..1032].fill(0);
        let checksum_length = if block_size > 1024 { block_size - 1024 } else { block_size };
        assert_eq!(stored, !crc32c::crc32c(&raw[1024..1024 + checksum_length as usize]));
    }
}

#[test]
fn compressed_images_roundtrip_and_fall_back_for_noise() {
    for (cluster_size, compact_indexes) in
        [(4096, false), (4096, true), (16384, false), (16384, true)]
    {
        let mut source = Source::new();
        let data: Vec<u8> = (0..360_019).map(|i| ((i / 133) % 239) as u8).collect();
        source.file("compressible", &data);
        let mut state = 0x1234abcd_u32;
        let noise: Vec<u8> = (0..65593)
            .map(|_| {
                state ^= state << 13;
                state ^= state >> 17;
                state ^= state << 5;
                state as u8
            })
            .collect();
        source.file("noise", &noise);
        let options =
            BuildOptions { cluster_size, compact_indexes, timestamp: Some(0), ..options() };
        let (image, report) = source.build(&options);
        assert_eq!(report.compressed_files, 1);
        let (inode, read) = read_file(&image, "/compressible");
        assert_eq!(
            inode.layout,
            if compact_indexes {
                EROFS_INODE_COMPRESSED_COMPACT
            } else {
                EROFS_INODE_COMPRESSED_FULL
            }
        );
        assert_eq!(read, data);
        assert_eq!(read_file(&image, "/noise").1, noise);
    }
}

#[test]
fn inline_inode_gaps_are_reused_without_overlapping_data() {
    let mut source = Source::new();
    for number in 0..10 {
        source.file(&format!("a-{number}"), &vec![number; 2600]);
    }
    for number in 0..10 {
        source.file(&format!("z-{number}"), &vec![number; 1000]);
    }
    let (image, report) = source.build(&BuildOptions {
        compression: Compression::Off,
        timestamp: Some(0),
        ..options()
    });
    assert!(report.image_bytes <= 12 * 4096);
    verify_image(&image, &header(&image), &nodes(&image, root(&image), "/"), &None).unwrap();
    assert_eq!(number(&image, 1024 + 40, 4), 0);
    assert_ne!(root(&image), 0);
    for number in 0..10 {
        assert_eq!(read_file(&image, &format!("/a-{number}")).1, vec![number; 2600]);
        assert_eq!(read_file(&image, &format!("/z-{number}")).1, vec![number; 1000]);
    }
}

#[test]
fn incompressible_data_is_stored_flat() {
    let mut state = 0x1234abcd_u32;
    let data: Vec<u8> = (0..7800)
        .map(|_| {
            state ^= state << 13;
            state ^= state >> 17;
            state ^= state << 5;
            state as u8
        })
        .collect();
    let mut entry = Entry {
        path: "/system/lib64/libabsl_container.z.so".to_string(),
        metadata: metadata(REG | 0o644),
        parent: 0,
        children: Vec::new(),
        alias: None,
        size: data.len() as u64,
        links: 1,
        inode_size: 32,
        xattrs: Vec::new(),
        layout: EROFS_INODE_FLAT_INLINE,
        data_union: u32::MAX,
        inline: vec![0; data.len() % 4096],
        compression: Vec::new(),
        nid: 0,
    };
    let written = write_regular(&mut entry, &data, 4096, &options(), &lz4).unwrap();
    assert_eq!(entry.layout, EROFS_INODE_FLAT_INLINE);
    assert_eq!(entry.inline, data[4096..]);
    assert_eq!(written, data[..4096]);
}

#[test]
fn xattr_encoding_uses_namespaces_and_rejects_overflow() {
    let attributes = vec![
        ("security.selinux".to_string(), b"u:object_r:system_file:s0\0".to_vec()),
        ("user.note".to_string(), b"value".to_vec()),
    ];
    let bytes = encode_xattrs(&attributes, &Vec::new()).unwrap();
    assert_eq!(bytes[12], 7);
    assert_eq!(bytes[13], EROFS_XATTR_INDEX_SECURITY);
    assert_eq!(bytes.len() % 4, 0);
    assert!(encode_xattrs(&vec![("user.huge".to_string(), vec![0; 65536])], &Vec::new()).is_err());
    assert_eq!(
        encode_xattrs(&vec![("other.name".to_string(), Vec::new())], &Vec::new()),
        Err(XattrError::UnsupportedNamespace)
    );
}

#[test]
fn preserves_recorded_ownership_xattrs_and_hardlinks_with_edited_copies() {
    let attributes = vec![
        ("security.selinux".to_string(), b"u:object_r:system_file:s0\0".to_vec()),
        ("user.large".to_string(), vec![0x53; 6001]),
    ];
    let recorded = EntryMetadata {
        mode: REG | 0o6751,
        uid: 123456,
        gid: 654321,
        mtime: 424242,
        mtime_nsec: 12345,
        rdev: 0,
        original_nid: Some(99),
        symlink: None,
        xattrs: attributes.clone(),
    };
    let manifest = MetadataManifest {
        version: 1,
        block_size: 4096,
        uuid: [0; 16],
        volume_label: String::new(),
        build_time: 7,
        extraction_root: None,
        entries: vec![
            ("/edited".to_string(), recorded.clone()),
            ("/first".to_string(), recorded.clone()),
            ("/second".to_string(), recorded),
        ],
    };
    let options = BuildOptions {
        metadata_file: Some("metadata.json".to_string()),
        timestamp: Some(7),
        xattr_tolerance: 1,
        ..options()
    };
    let resolver = MetadataResolver::load(
        BuildOptions { uuid: None, ..options.clone() },
        Some(manifest),
        None,
        None,
    )
    .unwrap();
    let mut source = Source::new();
    let mut identities = vec![None];
    for (name, content) in [("edited", "edit"), ("first", "same"), ("second", "same")] {
        let found =
            resolver.resolve(&format!("/{name}"), &metadata(REG | 0o644), None).unwrap();
        identities.push(found.original_nid.map(LinkIdentity::Original));
        source.add(0, name, found, content.as_bytes());
    }
    source.link(identities);
    let (image, report) = source.build(&options);
    assert_eq!(report.inode_count, 3);
    let (first, content) = read_file(&image, "/first");
    assert_eq!(content, b"same");
    assert_eq!(first.nid, read_file(&image, "/second").0.nid);
    assert_ne!(first.nid, read_file(&image, "/edited").0.nid);
    assert_eq!(first.links, 2);
    assert_eq!((first.mode, first.uid, first.gid), (REG | 0o6751, 123456, 654321));
    assert_eq!((first.mtime, first.nsec), (424242, 12345));
    assert!(number(&image, 1024 + 44, 4) != 0);
    let stored = attributes_of(&image, &first);
    assert_eq!(stored.len(), attributes.len());
    for (name, value) in attributes {
        let actual = &stored.iter().find(|entry| entry.0 == name).unwrap().1;
        assert_eq!(actual.len(), value.len());
        assert_eq!(actual, &value);
    }
}

#[test]
fn inodes_keep_their_own_attributes_and_refer_to_shared_ones() {
    let shared = ("security.selinux".to_string(), b"u:object_r:system_file:s0\0".to_vec());
    let own = |name: &str| ("user.name".to_string(), name.as_bytes().to_vec());
    let mut source = Source::new();
    for name in ["first", "second", "third"] {
        let xattrs = vec![shared.clone(), own(name)];
        source.add(0, name, EntryMetadata { xattrs, ..metadata(REG | 0o644) }, b"data");
    }
    let (image, _) = source.build(&BuildOptions { xattr_tolerance: 1, ..options() });
    for name in ["first", "second", "third"] {
        let (node, content) = read_file(&image, &format!("/{name}"));
        assert_eq!(content, b"data");
        let area = node.nid as usize * 32 + node.header;
        assert_eq!(image[area + 4], 1);
        assert_eq!(attributes_of(&image, &node), [shared.clone(), own(name)]);
    }
}

#[test]
fn preserves_host_symlink_targets_without_following_them() {
    let mut source = Source::new();
    for (name, target) in [("absolute", "/system/bin/tool"), ("relative", "../absent")] {
        let link = EntryMetadata { symlink: Some(target.to_string()), ..metadata(LNK | 0o777) };
        source.add(0, name, link, &[]);
    }
    let (image, _) = source.build(&options());
    assert_eq!(read_file(&image, "/absolute").1, b"/system/bin/tool");
    assert_eq!(read_file(&image, "/relative").1, b"../absent");
}

#[test]
fn preserves_native_host_hardlinks_without_metadata_sidecar() {
    let mut source = Source::new();
    source.file("first", b"linked content");
    source.file("second", b"linked content");
    source.link(vec![None, Some(LinkIdentity::Host(1, 2)), Some(LinkIdentity::Host(1, 2))]);
    let (image, report) = source.build(&options());
    assert_eq!(report.file_count, 1);
    let first = read_file(&image, "/first").0;
    assert_eq!(first.nid, read_file(&image, "/second").0.nid);
    assert_eq!(first.links, 2);
}

#[test]
fn links_with_other_contents_are_kept_apart() {
    let mut source = Source::new();
    source.file("first", b"one");
    source.file("second", b"two");
    source.link(vec![None, Some(LinkIdentity::Original(5)), Some(LinkIdentity::Original(5))]);
    assert_eq!(source.entries[2].alias, None);
    let (image, report) = source.build(&options());
    assert_eq!(report.file_count, 2);
    assert_eq!(read_file(&image, "/second").1, b"two");
}

#[test]
fn inventories_digest_files_and_report_damage() {
    let mut source = Source::new();
    source.file("note", b"abc");
    let (image, _) = source.build(&BuildOptions {
        compression: Compression::Off,
        volume_label: "system".to_string(),
        timestamp: Some(99),
        ..options()
    });
    let head = header(&image);
    let files = nodes(&image, root(&image), "/");
    let inventory = image_inventory(&image, &head, &files, &None).unwrap();
    assert_eq!(inventory.metadata.volume_label, "system");
    assert_eq!(inventory.metadata.build_time, 99);
    assert_eq!(inventory.sha256.len(), 1);
    assert_eq!(inventory.sha256[0].0, "/note");
    assert_eq!(
        inventory.digest_text(0),
        "ba7816bf8f01cfea414140de5dae2223b00361a396177a9cb410ff61f20015ad"
    );

    let mut damaged = image.clone();
    damaged[1024 + 64] ^= 1;
    assert_eq!(verify_image(&damaged, &head, &files, &None), Err(VerifyError::Checksum));
    assert_eq!(
        verify_image(&image[..1100], &head, &files, &None),
        Err(VerifyError::TruncatedSuperblock)
    );
    assert_eq!(
        verify_image(&image[..image.len() - 1], &head, &files, &None),
        Err(VerifyError::InvalidSize)
    );
    let huge = ImageHeader { blocks: u64::MAX, ..header(&image) };
    assert_eq!(verify_image(&image, &huge, &files, &None), Err(VerifyError::SizeOverflow));
    let packed = ImageHeader { packed_nid: 7, ..header(&image) };
    assert_eq!(verify_image(&image, &packed, &files, &None), Err(VerifyError::PackedInode));
    let early = ImageHeader { epoch: -1, ..header(&image) };
    assert_eq!(verify_image(&image, &early, &files, &None), Err(VerifyError::BuildTime));
    let label = ImageHeader { label: vec![0xff], ..header(&image) };
    assert_eq!(verify_image(&image, &label, &files, &None), Err(VerifyError::LabelNotText));
}

#[test]
fn extents_outside_the_filesystem_are_refused() {
    let mut source = Source::new();
    source.file("note", &vec![7; 5000]);
    let (image, _) = source.build(&BuildOptions {
        compression: Compression::Off,
        inline_data: false,
        ..options()
    });
    let head = header(&image);
    let check = |change: &dyn Fn(&mut Node)| {
        let mut files = nodes(&image, root(&image), "/");
        change(&mut files[1]);
        verify_image(&image, &head, &files, &None)
    };
    assert_eq!(check(&|_| {}), Ok(()));
    assert_eq!(check(&|n| n.offset = u64::MAX), Err(VerifyError::InodeOffset));
    assert_eq!(check(&|n| n.offset = 1 << 40), Err(VerifyError::InodeBeyondEnd));
    assert_eq!(check(&|n| n.extents.clear()), Err(VerifyError::MissingExtent));
    assert_eq!(check(&|n| n.extents[0].length = u64::MAX), Ok(()));
    assert_eq!(
        check(&|n| {
            n.extents[0].logical = 1;
            n.extents[0].length = u64::MAX;
        }),
        Err(VerifyError::ExtentOverflow)
    );
    assert_eq!(check(&|n| n.extents[0].length = 0), Err(VerifyError::EmptyExtent));
    assert_eq!(check(&|n| n.extents[0].is_fragment = true), Err(VerifyError::PackedInode));
    assert_eq!(check(&|n| n.extents[0].device = 1), Err(VerifyError::ExternalDevice));
    assert_eq!(check(&|n| n.extents[0].physical = 1 << 40), Err(VerifyError::ExtentBeyondEnd));
    assert_eq!(
        check(&|n| {
            n.metadata.mode = LNK;
            n.data = vec![0xff];
        }),
        Err(VerifyError::LinkNotText)
    );
}

#[test]
fn slots_fill_gaps_and_keep_inline_data_in_one_block() {
    let requests = vec![
        SlotRequest { body: 2700, inline: true },
        SlotRequest { body: 2700, inline: true },
        SlotRequest { body: 1000, inline: true },
    ];
    let (offsets, end) = assign_slots(&requests, 4096).unwrap();
    assert_eq!(offsets, [0, 4096, 2720]);
    assert_eq!(end, 4096 + 2720);
}

#[test]
fn compression_refuses_bad_sizes_and_levels() {
    let run = |start, block, cluster, compression| {
        compress_file(&[0; 10], start, block, cluster, compression, &lz4).map(|_| ())
    };
    assert_eq!(run(0, 4096, 4096, Compression::Lz4), Ok(()));
    assert_eq!(run(0, 8192, 8192, Compression::Lz4), Err(CompressError::BlockSize));
    assert_eq!(run(0, 4096, 5000, Compression::Lz4), Err(CompressError::ClusterSize));
    assert_eq!(run(1, 4096, 4096, Compression::Lz4), Err(CompressError::Unaligned));
    assert_eq!(run(0, 4096, 4096, Compression::Lz4Hc { level: 13 }), Err(CompressError::Level));
    let fails = |_: &[u8], _: usize| None;
    assert_eq!(
        compress_file(&[0; 9000], 0, 4096, 4096, Compression::Lz4, &fails).map(|_| ()),
        Err(CompressError::Compressor)
    );
}

#[test]
fn the_compressor_is_asked_before_the_address_is_checked() {
    let start = 1u64 << 44;
    let fails = |_: &[u8], _: usize| None;
    let run = |data: &[u8]| {
        compress_file(data, start, 4096, 4096, Compression::Lz4, &lz4).map(|found| found.1.len())
    };
    assert_eq!(
        compress_file(&[0; 9000], start, 4096, 4096, Compression::Lz4, &fails).map(|_| ()),
        Err(CompressError::Compressor)
    );
    assert_eq!(run(&[0; 9000]), Err(CompressError::AddressOverflow));
    assert_eq!(run(&[]), Ok(0));
}

#[test]
fn the_block_size_scales_the_kinds_of_compact_indexes() {
    let values = |block_size| {
        let (mut file, _) =
            compress_file(&[7; 12000], 4096, 4096, 4096, Compression::Lz4, &lz4).unwrap();
        file.compact_indexes(64, block_size).unwrap();
        (number(&file.metadata, 8, 2), number(&file.metadata, 10, 2), file.metadata.len())
    };
    let (first, second, length) = values(4096);
    assert_eq!((first, second / 0x1000, length), (0x1000, 2, 24));
    let low = second % 0x1000;
    assert_eq!(values(512), (0x1000, 0x2000 + low, 24));
    assert_eq!(values(0x3000), (0x1000, 0x2000 + low, 24));
    assert_eq!(values(0x2000), (0x2000, 0x4000 + low, 24));
    assert_eq!(values(0x6000), (0x2000, 0x4000 + low, 24));
    assert_eq!(values(0x8000), (0x8000, low, 24));
    assert_eq!(values(0x1_0000), (0, low, 24));
    assert_eq!(values(0x8000_0000), (0, low, 24));
}

#[test]
fn moves_that_fail_leave_what_was_moved_before() {
    let data: Vec<u8> = (0..70_001).map(|i| (i * i / 7 + i / 13) as u8).collect();
    let (file, _) = compress_file(&data, 4096, 4096, 4096, Compression::Lz4, &lz4).unwrap();
    let heads: Vec<usize> = (0..18)
        .map(|i| 16 + 8 * i)
        .filter(|&at| file.metadata[at] != 2 && number(&file.metadata, at + 4, 4) != 0)
        .collect();
    assert_eq!(number(&file.metadata, heads[0] + 4, 4), 1);
    assert_eq!(number(&file.metadata, heads[1] + 4, 4), 2);
    let mut moved = file.metadata.clone();
    assert_eq!(
        relocate_indexes(&mut moved, 64, 18, false, 0xffff_fffe),
        Err(IndexError::AddressOverflow)
    );
    assert_eq!(number(&moved, heads[0] + 4, 4), 0xffff_ffff);
    let rest = heads[0] + 8;
    assert_eq!(moved[rest..], file.metadata[rest..]);
    let mut packs = file;
    packs.compact_indexes(64, 4096).unwrap();
    let before = packs.metadata.clone();
    let last = before.len() - 8;
    assert_eq!(
        relocate_indexes(&mut packs.metadata, 64, 16, true, 1),
        Err(IndexError::InvalidLength)
    );
    for at in (8..last).step_by(8) {
        let base = number(&before, at + 4, 4);
        assert_eq!(number(&packs.metadata, at + 4, 4), base + 1);
        assert_eq!(packs.metadata[at..at + 4], before[at..at + 4]);
    }
    assert_eq!(packs.metadata[last..], before[last..]);
}

#[test]
fn file_names_are_checked() {
    assert!(is_valid_name("boot.img"));
    assert!(!is_valid_name(""));
    assert!(!is_valid_name("a\0b"));
    assert!(is_valid_name(&"x".repeat(255)));
    assert!(!is_valid_name(&"x".repeat(256)));
    assert_eq!(child_path("/", "a"), "/a");
    assert_eq!(child_path("/a", "b"), "/a/b");
}

#[test]
fn images_read_back_with_every_setting() {
    let mut state = 0x1234abcd_u32;
    let noise: Vec<u8> = (0..9001)
        .map(|_| {
            state ^= state << 13;
            state ^= state >> 17;
            state ^= state << 5;
            state as u8
        })
        .collect();
    let runs: Vec<u8> = (0..70_001).map(|i| ((i / 133) % 239) as u8).collect();
    let mixed = [&runs[..20_000], &noise[..], &runs[..30_000]].concat();
    let target = LNK | 0o777;
    for block_size in [512u32, 1024, 2048, 4096] {
        for blocks in [1u32, 2, 4] {
            for compression in
                [Compression::Off, Compression::Lz4, Compression::Lz4Hc { level: 9 }]
            {
                for compact_indexes in [false, true] {
                    let mut source = Source::new();
                    let below = source.add(0, "below", metadata(DIR | 0o755), &[]);
                    let link = EntryMetadata {
                        symlink: Some("../runs".to_string()),
                        ..metadata(target)
                    };
                    source.add(below, "link", link, b"../runs");
                    source.add(below, "mixed", metadata(REG | 0o600), &mixed);
                    source.file("empty", &[]);
                    source.file("noise", &noise);
                    source.file("runs", &runs);
                    let (image, _) = source.build(&BuildOptions {
                        block_size,
                        cluster_size: blocks * block_size,
                        compression,
                        compact_indexes,
                        timestamp: Some(0),
                        ..options()
                    });
                    assert_eq!(read_file(&image, "/below/mixed").1, mixed);
                    assert_eq!(read_file(&image, "/below/link").1, b"../runs");
                    assert!(read_file(&image, "/empty").1.is_empty());
                    assert_eq!(read_file(&image, "/noise").1, noise);
                    assert_eq!(read_file(&image, "/runs").1, runs);
                    let names: Vec<String> =
                        listing(&image, root(&image)).into_iter().map(|entry| entry.0).collect();
                    assert_eq!(names, [".", "..", "below", "empty", "noise", "runs"]);
                }
            }
        }
    }
}

#[test]
fn moves_of_indexes_add_up() {
    let data: Vec<u8> = (0..70_001).map(|i| ((i / 133) % 239) as u8).collect();
    for compact in [false, true] {
        let (mut file, _) =
            compress_file(&data, 4096, 4096, 8192, Compression::Lz4, &lz4).unwrap();
        let total = 18;
        if compact {
            file.compact_indexes(64, 4096).unwrap();
        }
        let mut twice = file.metadata.clone();
        relocate_indexes(&mut twice, 64, total, compact, 5).unwrap();
        relocate_indexes(&mut twice, 64, total, compact, 7).unwrap();
        let mut once = file.metadata.clone();
        relocate_indexes(&mut once, 64, total, compact, 12).unwrap();
        assert_eq!(once, twice);
        assert_ne!(once, file.metadata);
        assert_eq!(once.len(), file.metadata.len());
        let mut still = file.metadata.clone();
        relocate_indexes(&mut still, 64, total, compact, 0).unwrap();
        assert_eq!(still, file.metadata);
    }
}

#[test]
fn directories_are_encoded_entry_by_entry() {
    let list: Vec<DirectoryEntry> = (0..40)
        .map(|i| DirectoryEntry {
            name: format!("entry-{i:02}").into_bytes(),
            nid: 100 + i,
            file_type: 1,
        })
        .collect();
    let data = encode_directory(&list, 512).unwrap();
    let mut found = Vec::new();
    for block in data.chunks(512) {
        let count = number(block, 8, 2) as usize / 12;
        for i in 0..count {
            let start = number(block, 12 * i + 8, 2) as usize;
            let end = if i + 1 < count {
                number(block, 12 * i + 20, 2) as usize
            } else {
                block.iter().rposition(|&byte| byte != 0).unwrap() + 1
            };
            found.push((block[start..end].to_vec(), number(block, 12 * i, 8), block[12 * i + 10]));
        }
    }
    let wanted: Vec<(Vec<u8>, u64, u8)> =
        list.into_iter().map(|entry| (entry.name, entry.nid, entry.file_type)).collect();
    assert_eq!(found, wanted);
    let long = vec![DirectoryEntry { name: vec![b'n'; 501], nid: 1, file_type: 1 }];
    assert_eq!(encode_directory(&long, 512), Err(DirectoryError::EntryTooLong));
    assert_eq!(encode_directory(&long, 1024).unwrap().len(), 513);
}

#[test]
fn checks_agree_with_inventories() {
    let mut source = Source::new();
    source.file("note", b"abc");
    let (image, _) = source.build(&BuildOptions { timestamp: Some(1), ..options() });
    let files = nodes(&image, root(&image), "/");
    let mut damaged = image.clone();
    damaged[1024 + 64] ^= 1;
    for (raw, blocks) in [(&image, None), (&damaged, None), (&image, Some(u64::MAX))] {
        let mut head = header(&image);
        if let Some(blocks) = blocks {
            head.blocks = blocks;
        }
        let checked = verify_image(raw, &head, &files, &None);
        let listed = image_inventory(raw, &head, &files, &None);
        assert_eq!(checked, listed.map(|_| ()));
    }
}

#[test]
fn hard_links_are_matched_by_their_source_or_their_record() {
    assert_eq!(hardlink_identity(true, 5, 1, 2, Some(9)), None);
    assert_eq!(hardlink_identity(false, 2, 1, 2, Some(9)), Some(LinkIdentity::Host(1, 2)));
    assert_eq!(hardlink_identity(false, 1, 1, 2, Some(9)), Some(LinkIdentity::Original(9)));
    assert_eq!(hardlink_identity(false, 1, 1, 2, None), None);
}
