//! Workspaces: extracted EROFS images that can be packed again.

use vstd::prelude::*;

use crate::bytes;
use crate::erofs::build_options;
use crate::erofs::build_options::{BuildOptions, OptionError, OptionsModel};
use crate::names;
use crate::oeminfo::payload::text_of;
use crate::shell;
use crate::text;

verus! {

pub const MANIFEST_VERSION: u32 = 1;

/// Where the verified-boot data of an image stands.
#[derive(Debug, Clone, Copy, PartialEq, Eq, Structural)]
pub struct HvbFooter {
    pub cert_offset: u64,
    pub cert_size: u64,
    pub image_size: u64,
    pub partition_size: u64,
}

#[derive(Debug, Clone)]
pub struct HvbManifest {
    pub footer: HvbFooter,
    pub certificate_file: String,
}

/// What a workspace records of the image that it was extracted from.
#[derive(Debug, Clone)]
pub struct ErofsManifest {
    pub version: u32,
    pub partition: String,
    pub original_file_name: String,
    pub original_size: u64,
    pub original_sha256: String,
    pub source_dir: String,
    pub config_dir: String,
    pub fs_options_file: String,
    pub extract_erofs_version: String,
    pub mkfs_erofs_version: String,
    pub hvb: Option<HvbManifest>,
}

/// Why a workspace cannot be packed.
#[derive(Debug, Clone, Copy, PartialEq, Eq, Structural)]
pub enum WorkspaceError {
    UnsupportedVersion,
    InvalidImage,
    MissingOptions,
    Quoting,
    MissingPaths,
    Options(OptionError),
    InvalidPath,
    /// There is no file with the suffix, or more than one.
    NoSingleFile,
    /// There is no directory of sources, or more than one.
    NoSingleSource,
    UnsafePartitionName,
    MissingCertificate,
    CertificateSize,
    /// The image would not fit where the certificate says it is.
    ExceedsMapping,
    /// The image is larger than the original one.
    Grown,
}

// ---------------------------------------------------------------------------
// Images
// ---------------------------------------------------------------------------

/// True when data is an EROFS image.
pub open spec fn is_erofs_image(data: Seq<u8>) -> bool {
    bytes::stands_at(data, 1024, seq![0xe2u8, 0xe1, 0xf5, 0xe0])
}

pub fn is_erofs(data: &[u8]) -> (is: bool)
    ensures
        is == is_erofs_image(data@),
{
    let mut magic: Vec<u8> = Vec::new();
    magic.push(0xe2);
    magic.push(0xe1);
    magic.push(0xf5);
    magic.push(0xe0);
    assert(magic@ =~= seq![0xe2u8, 0xe1, 0xf5, 0xe0]);
    bytes::matches_at(data, 1024, magic.as_slice())
}

// ---------------------------------------------------------------------------
// Unpacking
// ---------------------------------------------------------------------------

/// The directories among the first `n` that may hold the sources.
pub open spec fn source_dirs(directories: Seq<Seq<char>>, n: int) -> Seq<Seq<char>>
    decreases n,
{
    if n <= 0 {
        seq![]
    } else if directories[n - 1] == "config"@ {
        source_dirs(directories, n - 1)
    } else {
        source_dirs(directories, n - 1).push(directories[n - 1])
    }
}

/// The index of the one directory of a workspace that holds the sources.
pub fn find_source_dir(directories: &Vec<String>) -> (found: Result<usize, WorkspaceError>)
    ensures
        ({
            let all = text::texts(directories@);
            let sources = source_dirs(all, all.len() as int);
            match found {
                Ok(i) => sources.len() == 1 && i < directories@.len() && sources[0]
                    == directories@[i as int]@,
                Err(error) => sources.len() != 1 && error == WorkspaceError::NoSingleSource,
            }
        }),
{
    let ghost all = text::texts(directories@);
    let mut count: usize = 0;
    let mut last: usize = 0;
    let mut n: usize = 0;
    while n < directories.len()
        invariant
            n <= directories@.len(),
            all == text::texts(directories@),
            count == source_dirs(all, n as int).len(),
            count <= n,
            count > 0 ==> last < directories@.len() && source_dirs(all, n as int).last()
                == directories@[last as int]@,
        decreases directories@.len() - n,
    {
        assert(all[n as int] == directories@[n as int]@);
        if !text::same_text(directories[n].as_str(), "config") {
            count += 1;
            last = n;
        }
        n += 1;
    }
    if count == 1 {
        Ok(last)
    } else {
        Err(WorkspaceError::NoSingleSource)
    }
}

/// The name of the partition: the one that its certificate states, where that
/// can be the name of a directory, else the extracted one.
pub open spec fn partition_of(stated: Option<Seq<char>>, extracted: Seq<char>) -> Seq<char> {
    match stated {
        Some(name) if names::is_simple(name) => name,
        _ => extracted,
    }
}

pub fn choose_partition(stated: Option<&str>, extracted: &str) -> (partition: String)
    ensures
        partition@ == partition_of(
            match stated {
                Some(name) => Some(name@),
                None => None,
            },
            extracted@,
        ),
{
    if let Some(name) = stated {
        let chars = text::chars_of(name);
        if names::is_simple_name(chars.as_slice()) {
            return text::string_of(chars.as_slice());
        }
    }
    text::string_of(text::chars_of(extracted).as_slice())
}

/// The file with a suffix, and its name with the name of the partition.
pub open spec fn renaming(files: Seq<Seq<char>>, partition: Seq<char>, suffix: Seq<char>) -> Option<
    (Seq<char>, Seq<char>),
> {
    match names::unique_ending(files, suffix) {
        Some(name) => Some((name, partition + suffix)),
        None => None,
    }
}

/// How the files of a workspace are renamed after its partition.
pub open spec fn renamings(
    extracted: Seq<char>,
    partition: Seq<char>,
    files: Seq<Seq<char>>,
) -> Result<Seq<(Seq<char>, Seq<char>)>, WorkspaceError> {
    if extracted == partition {
        Ok(seq![])
    } else if !names::is_simple(partition) {
        Err(WorkspaceError::UnsafePartitionName)
    } else {
        match (
            renaming(files, partition, "_fs_config"@),
            renaming(files, partition, "_file_contexts"@),
            renaming(files, partition, "_fs_options"@),
        ) {
            (Some(a), Some(b), Some(c)) => Ok(seq![a, b, c]),
            _ => Err(WorkspaceError::NoSingleFile),
        }
    }
}

pub open spec fn pairs(list: Seq<(String, String)>) -> Seq<(Seq<char>, Seq<char>)> {
    list.map_values(|p: (String, String)| (p.0@, p.1@))
}

fn rename(files: &Vec<String>, partition: &str, suffix: &str) -> (pair: Option<(String, String)>)
    ensures
        match pair {
            Some((old_name, new_name)) => renaming(text::texts(files@), partition@, suffix@)
                == Some((old_name@, new_name@)),
            None => renaming(text::texts(files@), partition@, suffix@) is None,
        },
{
    match names::find_ending(files, suffix) {
        Some(i) => {
            let mut name = text::chars_of(partition);
            text::append_text(&mut name, suffix);
            Some((files[i].clone(), text::string_of(name.as_slice())))
        },
        None => None,
    }
}

/// Which files of a workspace to rename, and how, so that they have the name of
/// the partition.
pub fn normalize_extraction(extracted: &str, partition: &str, files: &Vec<String>) -> (renames:
    Result<Vec<(String, String)>, WorkspaceError>)
    ensures
        match renames {
            Ok(list) => renamings(extracted@, partition@, text::texts(files@)) == Ok::<
                Seq<(Seq<char>, Seq<char>)>,
                WorkspaceError,
            >(pairs(list@)),
            Err(error) => renamings(extracted@, partition@, text::texts(files@)) == Err::<
                Seq<(Seq<char>, Seq<char>)>,
                WorkspaceError,
            >(error),
        },
{
    let mut list: Vec<(String, String)> = Vec::new();
    if text::same_text(extracted, partition) {
        assert(pairs(list@) =~= Seq::<(Seq<char>, Seq<char>)>::empty());
        return Ok(list);
    }
    if !names::is_simple_name(text::chars_of(partition).as_slice()) {
        return Err(WorkspaceError::UnsafePartitionName);
    }
    match (
        rename(files, partition, "_fs_config"),
        rename(files, partition, "_file_contexts"),
        rename(files, partition, "_fs_options"),
    ) {
        (Some(a), Some(b), Some(c)) => {
            let ghost wanted = seq![(a.0@, a.1@), (b.0@, b.1@), (c.0@, c.1@)];
            list.push(a);
            list.push(b);
            list.push(c);
            assert(pairs(list@) =~= wanted);
            Ok(list)
        },
        _ => Err(WorkspaceError::NoSingleFile),
    }
}

// ---------------------------------------------------------------------------
// Recorded options
// ---------------------------------------------------------------------------

/// What the first line from `from` on that records options says.
pub open spec fn recorded_line(lines: Seq<Seq<char>>, from: int) -> Option<Seq<char>>
    decreases lines.len() - from,
{
    if from < 0 || from >= lines.len() {
        None
    } else {
        match text::text_position(lines[from], "mkfs.erofs options:"@, 0) {
            Some(at) => Some(text::trimmed(lines[from].skip(at + "mkfs.erofs options:"@.len()))),
            None => recorded_line(lines, from + 1),
        }
    }
}

/// True when a path starts with the letter of a drive.
pub open spec fn has_drive(path: Seq<char>) -> bool {
    path.len() >= 2 && text::is_ascii_letter(path[0]) && path[1] == ':'
}

/// Where a recorded configuration file is now: the file of that name, or else
/// the one with the suffix.
pub open spec fn relocated(
    path: Seq<char>,
    suffix: Seq<char>,
    config_dir: Seq<char>,
    files: Seq<Seq<char>>,
) -> Result<Seq<char>, WorkspaceError> {
    let base = names::base_name(path);
    if base.len() == 0 || !(names::is_simple(base) || has_drive(path)) {
        Err(WorkspaceError::InvalidPath)
    } else if names::is_simple(base) && files.contains(base) {
        Ok(names::joined(config_dir, base))
    } else {
        match names::unique_ending(files, suffix) {
            Some(name) => Ok(names::joined(config_dir, name)),
            None => Err(WorkspaceError::NoSingleFile),
        }
    }
}

pub open spec fn relocated_option(
    path: Option<Seq<char>>,
    suffix: Seq<char>,
    config_dir: Seq<char>,
    files: Seq<Seq<char>>,
) -> Result<Option<Seq<char>>, WorkspaceError> {
    match path {
        None => Ok(None),
        Some(p) => match relocated(p, suffix, config_dir, files) {
            Ok(found) => Ok(Some(found)),
            Err(error) => Err(error),
        },
    }
}

/// The options that a file records, with the configuration files where they are
/// now. The last two words of the recorded command are paths.
pub open spec fn recorded_options(
    content: Seq<char>,
    config_dir: Seq<char>,
    files: Seq<Seq<char>>,
) -> Result<OptionsModel, WorkspaceError> {
    match recorded_line(text::lines(content), 0) {
        None => Err(WorkspaceError::MissingOptions),
        Some(line) => match shell::shell_words(line) {
            None => Err(WorkspaceError::Quoting),
            Some(words) => options_in(words, config_dir, files),
        },
    }
}

/// The options that the words of a recorded command state.
pub open spec fn options_in(
    words: Seq<Seq<char>>,
    config_dir: Seq<char>,
    files: Seq<Seq<char>>,
) -> Result<OptionsModel, WorkspaceError> {
    if words.len() < 2 {
        Err(WorkspaceError::MissingPaths)
    } else {
        match build_options::options_of(words.take(words.len() - 2)) {
            Err(error) => Err(WorkspaceError::Options(error)),
            Ok(o) => match relocated_option(o.fs_config, "_fs_config"@, config_dir, files) {
                Err(error) => Err(error),
                Ok(fs_config) => match relocated_option(
                    o.file_contexts,
                    "_file_contexts"@,
                    config_dir,
                    files,
                ) {
                    Err(error) => Err(error),
                    Ok(file_contexts) => Ok(OptionsModel { fs_config, file_contexts, ..o }),
                },
            },
        }
    }
}

fn relocate(path: &str, suffix: &str, config_dir: &str, files: &Vec<String>) -> (found: Result<
    String,
    WorkspaceError,
>)
    ensures
        match found {
            Ok(chars) => relocated(path@, suffix@, config_dir@, text::texts(files@)) == Ok::<
                Seq<char>,
                WorkspaceError,
            >(chars@),
            Err(error) => relocated(path@, suffix@, config_dir@, text::texts(files@)) == Err::<
                Seq<char>,
                WorkspaceError,
            >(error),
        },
{
    let chars = text::chars_of(path);
    let base = names::find_base_name(chars.as_slice());
    let simple = names::is_simple_name(base);
    let drive = chars.len() >= 2 && text::ascii_alphanumeric(chars[0]) && !text::ascii_digit(
        chars[0],
    ) && chars[1] == ':';
    if base.len() == 0 || !(simple || drive) {
        return Err(WorkspaceError::InvalidPath);
    }
    let directory = text::chars_of(config_dir);
    if simple && names::holds_name(files, base) {
        return Ok(text::string_of(names::join(directory.as_slice(), base).as_slice()));
    }
    match names::find_ending(files, suffix) {
        Some(i) => {
            let name = text::chars_of(files[i].as_str());
            Ok(text::string_of(names::join(directory.as_slice(), name.as_slice()).as_slice()))
        },
        None => Err(WorkspaceError::NoSingleFile),
    }
}

fn relocate_option(
    path: &Option<String>,
    suffix: &str,
    config_dir: &str,
    files: &Vec<String>,
) -> (found: Result<Option<String>, WorkspaceError>)
    ensures
        match found {
            Ok(chars) => relocated_option(
                text_of(*path),
                suffix@,
                config_dir@,
                text::texts(files@),
            ) == Ok::<Option<Seq<char>>, WorkspaceError>(text_of(chars)),
            Err(error) => relocated_option(
                text_of(*path),
                suffix@,
                config_dir@,
                text::texts(files@),
            ) == Err::<Option<Seq<char>>, WorkspaceError>(error),
        },
{
    match path {
        None => Ok(None),
        Some(p) => match relocate(p.as_str(), suffix, config_dir, files) {
            Ok(found) => Ok(Some(found)),
            Err(error) => Err(error),
        },
    }
}

fn find_recorded_line(content: &str) -> (line: Option<String>)
    ensures
        match line {
            Some(found) => recorded_line(text::lines(content@), 0) == Some(found@),
            None => recorded_line(text::lines(content@), 0) is None,
        },
{
    let ghost all = text::lines(content@);
    let lines = text::split_lines(text::chars_of(content).as_slice());
    let marker = text::chars_of("mkfs.erofs options:");
    let mut n: usize = 0;
    while n < lines.len()
        invariant
            n <= lines@.len(),
            all == text::lines(content@),
            text::pieces(lines@) == all,
            marker@ == "mkfs.erofs options:"@,
            recorded_line(all, 0) == recorded_line(all, n as int),
        decreases lines@.len() - n,
    {
        assert(all[n as int] == lines@[n as int]@);
        let line = lines[n].as_slice();
        if let Some(at) = text::find_text(line, marker.as_slice()) {
            assert(line.len() <= usize::MAX);
            let rest = &line[at + marker.len()..line.len()];
            assert(rest@ =~= line@.skip(at + marker@.len()));
            return Some(text::string_of(text::trim(rest)));
        }
        n += 1;
    }
    None
}

/// Reads the options that the words of a recorded command state, whose
/// configuration files are among the files of a directory.
pub fn read_options(words: Vec<String>, config_dir: &str, files: &Vec<String>) -> (options: Result<
    BuildOptions,
    WorkspaceError,
>)
    ensures
        ({
            let wanted = options_in(text::texts(words@), config_dir@, text::texts(files@));
            match options {
                Ok(found) => wanted == Ok::<OptionsModel, WorkspaceError>(found@),
                Err(error) => wanted == Err::<OptionsModel, WorkspaceError>(error),
            }
        }),
{
    let ghost all = text::texts(words@);
    assert(all.len() == words@.len());
    if words.len() < 2 {
        return Err(WorkspaceError::MissingPaths);
    }
    let args = &words.as_slice()[0..words.len() - 2];
    assert(text::texts(args@) =~= all.take(all.len() - 2));
    let mut options = match BuildOptions::from_args(args) {
        Ok(options) => options,
        Err(error) => {
            return Err(WorkspaceError::Options(error));
        },
    };
    let ghost stated = options@;
    match relocate_option(&options.fs_config, "_fs_config", config_dir, files) {
        Ok(found) => {
            options.fs_config = found;
        },
        Err(error) => {
            return Err(error);
        },
    }
    match relocate_option(&options.file_contexts, "_file_contexts", config_dir, files) {
        Ok(found) => {
            options.file_contexts = found;
        },
        Err(error) => {
            return Err(error);
        },
    }
    assert(options@ == (OptionsModel {
        fs_config: options@.fs_config,
        file_contexts: options@.file_contexts,
        ..stated
    }));
    Ok(options)
}

/// Reads the options that a file records. `files` are those of the directory
/// with the configuration files.
pub fn parse_mkfs_options(content: &str, config_dir: &str, files: &Vec<String>) -> (options: Result<
    BuildOptions,
    WorkspaceError,
>)
    ensures
        ({
            let wanted = recorded_options(content@, config_dir@, text::texts(files@));
            match options {
                Ok(found) => wanted == Ok::<OptionsModel, WorkspaceError>(found@),
                Err(error) => wanted == Err::<OptionsModel, WorkspaceError>(error),
            }
        }),
{
    let line = match find_recorded_line(content) {
        Some(line) => line,
        None => {
            return Err(WorkspaceError::MissingOptions);
        },
    };
    let words = match shell::split_shell(line.as_str()) {
        Some(words) => words,
        None => {
            return Err(WorkspaceError::Quoting);
        },
    };
    read_options(words, config_dir, files)
}

// ---------------------------------------------------------------------------
// Packing
// ---------------------------------------------------------------------------

/// The preserved certificate of an image: how long it is, and the length of the
/// image that it states.
#[derive(Debug, Clone, Copy, PartialEq, Eq, Structural)]
pub struct HvbCertificate {
    pub length: u64,
    pub image_len: u64,
}

/// What becomes of a packed image.
#[derive(Debug)]
pub enum RepackPlan {
    /// It is wrapped with the preserved certificate.
    Wrap,
    /// It is written as it is, with zeros behind it.
    Raw { image: Vec<u8> },
}

/// How large an image may be that a certificate covers.
pub open spec fn mapping_limit(certificate: HvbCertificate, footer: HvbFooter) -> u64 {
    if certificate.image_len != 0 {
        certificate.image_len
    } else {
        footer.image_size
    }
}

pub fn validate_hvb_image_size(
    raw_size: u64,
    certificate: &HvbCertificate,
    footer: &HvbFooter,
) -> (valid: Result<(), WorkspaceError>)
    ensures
        match valid {
            Ok(()) => raw_size <= mapping_limit(*certificate, *footer),
            Err(error) => raw_size > mapping_limit(*certificate, *footer) && error
                == WorkspaceError::ExceedsMapping,
        },
{
    let limit: u64 = if certificate.image_len != 0 {
        certificate.image_len
    } else {
        footer.image_size
    };
    if raw_size > limit {
        Err(WorkspaceError::ExceedsMapping)
    } else {
        Ok(())
    }
}

/// Why a packed image is refused.
pub open spec fn repack_error(
    manifest: ErofsManifest,
    raw: Seq<u8>,
    certificate: Option<HvbCertificate>,
    allow_grow: bool,
) -> Option<WorkspaceError> {
    if manifest.version != MANIFEST_VERSION {
        Some(WorkspaceError::UnsupportedVersion)
    } else if !is_erofs_image(raw) {
        Some(WorkspaceError::InvalidImage)
    } else {
        match (manifest.hvb, certificate) {
            (Some(hvb), None) => Some(WorkspaceError::MissingCertificate),
            (Some(hvb), Some(c)) => if c.length != hvb.footer.cert_size {
                Some(WorkspaceError::CertificateSize)
            } else if raw.len() > mapping_limit(c, hvb.footer) {
                Some(WorkspaceError::ExceedsMapping)
            } else {
                None
            },
            (None, _) => if !allow_grow && raw.len() > manifest.original_size {
                Some(WorkspaceError::Grown)
            } else {
                None
            },
        }
    }
}

/// The size of an image without a certificate: at least that of the original.
pub open spec fn final_size(manifest: ErofsManifest, raw: Seq<u8>) -> int {
    if raw.len() > manifest.original_size {
        raw.len() as int
    } else {
        manifest.original_size as int
    }
}

/// True when `plan` says what becomes of an image, or why it is refused.
pub open spec fn is_repack(
    manifest: ErofsManifest,
    raw: Seq<u8>,
    certificate: Option<HvbCertificate>,
    allow_grow: bool,
    plan: Result<RepackPlan, WorkspaceError>,
) -> bool {
    match plan {
        Ok(RepackPlan::Wrap) => repack_error(manifest, raw, certificate, allow_grow) is None
            && manifest.hvb is Some,
        Ok(RepackPlan::Raw { image }) => {
            &&& repack_error(manifest, raw, certificate, allow_grow) is None
            &&& manifest.hvb is None
            &&& image@ == raw + bytes::filled(0, final_size(manifest, raw) - raw.len())
        },
        Err(error) => repack_error(manifest, raw, certificate, allow_grow) == Some(error),
    }
}

/// What a plan says: the image that is written as it is, if there is one.
pub open spec fn plan_of(plan: Result<RepackPlan, WorkspaceError>) -> Result<
    Option<Seq<u8>>,
    WorkspaceError,
> {
    match plan {
        Ok(RepackPlan::Wrap) => Ok(None),
        Ok(RepackPlan::Raw { image }) => Ok(Some(image@)),
        Err(error) => Err(error),
    }
}

/// Decides what becomes of an image that was built from a workspace. Without a
/// certificate the image must not be larger than the original one, unless it
/// may grow, and is filled up to the size of the original.
pub fn repack(
    manifest: &ErofsManifest,
    raw: Vec<u8>,
    certificate: Option<HvbCertificate>,
    allow_grow: bool,
) -> (plan: Result<RepackPlan, WorkspaceError>)
    requires
        manifest.original_size <= usize::MAX,
    ensures
        is_repack(*manifest, raw@, certificate, allow_grow, plan),
{
    if manifest.version != MANIFEST_VERSION {
        return Err(WorkspaceError::UnsupportedVersion);
    }
    if !is_erofs(raw.as_slice()) {
        return Err(WorkspaceError::InvalidImage);
    }
    let raw_size: u64 = raw.len() as u64;
    if let Some(hvb) = &manifest.hvb {
        let found = match certificate {
            Some(found) => found,
            None => {
                return Err(WorkspaceError::MissingCertificate);
            },
        };
        if found.length != hvb.footer.cert_size {
            return Err(WorkspaceError::CertificateSize);
        }
        if let Err(error) = validate_hvb_image_size(raw_size, &found, &hvb.footer) {
            return Err(error);
        }
        return Ok(RepackPlan::Wrap);
    }
    if !allow_grow && raw_size > manifest.original_size {
        return Err(WorkspaceError::Grown);
    }
    let mut image = raw;
    if raw_size < manifest.original_size {
        bytes::push_filled(&mut image, 0, (manifest.original_size - raw_size) as usize);
    } else {
        assert(image@ =~= raw@ + bytes::filled(0, 0));
    }
    Ok(RepackPlan::Raw { image })
}

/// Decides as [`repack`] does, whatever tools are installed: the library builds
/// images itself, and never consults them.
pub fn repack_with_tools<T>(
    manifest: &ErofsManifest,
    raw: Vec<u8>,
    certificate: Option<HvbCertificate>,
    _tools: &T,
    allow_grow: bool,
) -> (plan: Result<RepackPlan, WorkspaceError>)
    requires
        manifest.original_size <= usize::MAX,
    ensures
        is_repack(*manifest, raw@, certificate, allow_grow, plan),
{
    repack(manifest, raw, certificate, allow_grow)
}

/// Whatever the tools are, and with or without any, the decision is the same.
pub proof fn law_tools_are_never_consulted<T, U>(
    manifest: &ErofsManifest,
    raw: Vec<u8>,
    certificate: Option<HvbCertificate>,
    some_tools: &T,
    other_tools: &U,
    allow_grow: bool,
    with_some: Result<RepackPlan, WorkspaceError>,
    with_other: Result<RepackPlan, WorkspaceError>,
    without: Result<RepackPlan, WorkspaceError>,
)
    requires
        call_ensures(
            repack_with_tools::<T>,
            (manifest, raw, certificate, some_tools, allow_grow),
            with_some,
        ),
        call_ensures(
            repack_with_tools::<U>,
            (manifest, raw, certificate, other_tools, allow_grow),
            with_other,
        ),
        call_ensures(repack, (manifest, raw, certificate, allow_grow), without),
    ensures
        plan_of(with_some) == plan_of(without),
        plan_of(with_other) == plan_of(without),
{
}

/// A packed image that may not grow has the size of the original.
pub proof fn law_repacking_keeps_the_size(
    manifest: ErofsManifest,
    raw: Seq<u8>,
    certificate: Option<HvbCertificate>,
)
    requires
        manifest.hvb is None,
        repack_error(manifest, raw, certificate, false) is None,
    ensures
        (raw + bytes::filled(0, final_size(manifest, raw) - raw.len())).len()
            == manifest.original_size,
{
}

/// An image with a certificate stays within the length that the certificate
/// maps, and leave to grow changes nothing about that.
pub proof fn law_growth_stays_within_the_mapping(
    manifest: ErofsManifest,
    raw: Seq<u8>,
    certificate: Option<HvbCertificate>,
    allow_grow: bool,
)
    requires
        manifest.hvb is Some,
    ensures
        repack_error(manifest, raw, certificate, allow_grow) == repack_error(
            manifest,
            raw,
            certificate,
            !allow_grow,
        ),
        repack_error(manifest, raw, certificate, allow_grow) is None ==> certificate is Some
            && raw.len() <= mapping_limit(certificate->0, manifest.hvb->0.footer),
{
}

// ---------------------------------------------------------------------------
// What a workspace holds
// ---------------------------------------------------------------------------

/// An EROFS image has the number 0xe0f5e1e2 at byte 1024.
pub proof fn law_erofs_images_have_their_magic(data: Seq<u8>)
    ensures
        is_erofs_image(data) <==> data.len() >= 1028 && bytes::le32(data, 1024) == 0xe0f5_e1e2,
{
    let magic = seq![0xe2u8, 0xe1, 0xf5, 0xe0];
    assert(magic[0] == 0xe2 && magic[1] == 0xe1 && magic[2] == 0xf5 && magic[3] == 0xe0);
    if data.len() >= 1028 {
        let part = data.subrange(1024, 1028);
        assert(part[0] == data[1024] && part[1] == data[1025]);
        assert(part[2] == data[1026] && part[3] == data[1027]);
        bytes::law_numbers_start_with_their_lowest_byte(data, 1024);
        if bytes::le32(data, 1024) == 0xe0f5_e1e2 {
            assert(part =~= magic);
        }
    }
}

/// The sources are in a directory that is not called `config`: every other one is
/// counted, in order.
pub proof fn law_sources_are_not_the_configuration(directories: Seq<Seq<char>>, name: Seq<char>)
    ensures
        ({
            let n = directories.len() as int;
            let before = source_dirs(directories, n);
            let after = source_dirs(directories.push(name), n + 1);
            after == if name == "config"@ {
                before
            } else {
                before.push(name)
            }
        }),
        source_dirs(seq![], 0).len() == 0,
{
    lemma_sources_prefix(directories, name, directories.len() as int);
}

proof fn lemma_sources_prefix(directories: Seq<Seq<char>>, name: Seq<char>, n: int)
    requires
        n <= directories.len(),
    ensures
        source_dirs(directories.push(name), n) == source_dirs(directories, n),
    decreases n,
{
    if n > 0 {
        lemma_sources_prefix(directories, name, n - 1);
    }
}

/// A partition is called as was stated, where that is a plain name, and else as it
/// was extracted.
pub proof fn law_stated_names_come_first(stated: Seq<char>, extracted: Seq<char>)
    ensures
        names::is_simple(stated) ==> partition_of(Some(stated), extracted) == stated,
        !names::is_simple(stated) ==> partition_of(Some(stated), extracted) == extracted,
        partition_of(None, extracted) == extracted,
{
}

/// The three files of a workspace are renamed after the partition where it was not
/// extracted under that name: each is the only one with its suffix, and keeps it.
pub proof fn law_files_are_renamed_after_the_partition(
    extracted: Seq<char>,
    partition: Seq<char>,
    files: Seq<Seq<char>>,
)
    ensures
        renamings(partition, partition, files) == Ok::<
            Seq<(Seq<char>, Seq<char>)>,
            WorkspaceError,
        >(seq![]),
        extracted != partition && !names::is_simple(partition) ==> renamings(
            extracted,
            partition,
            files,
        ) is Err,
        extracted != partition && renamings(extracted, partition, files) is Ok ==> {
            let list = renamings(extracted, partition, files)->Ok_0;
            &&& list.len() == 3
            &&& Some(list[0].0) == names::unique_ending(files, "_fs_config"@) && list[0].1
                == partition + "_fs_config"@
            &&& Some(list[1].0) == names::unique_ending(files, "_file_contexts"@) && list[1].1
                == partition + "_file_contexts"@
            &&& Some(list[2].0) == names::unique_ending(files, "_fs_options"@) && list[2].1
                == partition + "_fs_options"@
        },
{
}

/// The options are recorded in the first line that says so, behind these words.
pub proof fn law_options_are_in_the_first_line(lines: Seq<Seq<char>>, from: int)
    requires
        from >= 0,
    ensures
        match recorded_line(lines, from) {
            Some(found) => exists|i: int|
                {
                    &&& from <= i < lines.len()
                    &&& text::text_position(#[trigger] lines[i], "mkfs.erofs options:"@, 0) is Some
                    &&& found == text::trimmed(
                        lines[i].skip(
                            text::text_position(lines[i], "mkfs.erofs options:"@, 0)->0 + 19,
                        ),
                    )
                    &&& forall|k: int|
                        from <= k < i ==> text::text_position(
                            #[trigger] lines[k],
                            "mkfs.erofs options:"@,
                            0,
                        ) is None
                },
            None => forall|k: int|
                from <= k < lines.len() ==> text::text_position(
                    #[trigger] lines[k],
                    "mkfs.erofs options:"@,
                    0,
                ) is None,
        },
    decreases lines.len() - from,
{
    reveal_strlit("mkfs.erofs options:");
    if from < lines.len() {
        if text::text_position(lines[from], "mkfs.erofs options:"@, 0) is None {
            law_options_are_in_the_first_line(lines, from + 1);
        }
    }
}

/// A configuration file that is recorded by its path is looked for in the
/// configuration directory: by its own name, and else by its suffix, which only one
/// file may have.
pub proof fn law_configuration_files_are_found_again(
    path: Seq<char>,
    suffix: Seq<char>,
    config_dir: Seq<char>,
    files: Seq<Seq<char>>,
)
    ensures
        ({
            let base = names::base_name(path);
            let found = relocated(path, suffix, config_dir, files);
            &&& names::is_simple(base) && base.len() > 0 && files.contains(base) ==> found == Ok::<
                Seq<char>,
                WorkspaceError,
            >(names::joined(config_dir, base))
            &&& names::is_simple(base) && base.len() > 0 && !files.contains(base) ==> match names::unique_ending(
                files,
                suffix,
            ) {
                Some(name) => found == Ok::<Seq<char>, WorkspaceError>(
                    names::joined(config_dir, name),
                ),
                None => found is Err,
            }
            &&& base.len() == 0 ==> found is Err
            &&& found is Ok ==> exists|name: Seq<char>|
                files.contains(name) && found == Ok::<Seq<char>, WorkspaceError>(
                    #[trigger] names::joined(config_dir, name),
                ) || names::unique_ending(files, suffix) == Some(name) && found == Ok::<
                    Seq<char>,
                    WorkspaceError,
                >(names::joined(config_dir, name))
        }),
{
    let base = names::base_name(path);
    if relocated(path, suffix, config_dir, files) is Ok {
        if names::is_simple(base) && files.contains(base) {
            assert(names::joined(config_dir, base) == names::joined(config_dir, base));
        } else {
            let name = names::unique_ending(files, suffix)->0;
            assert(names::joined(config_dir, name) == names::joined(config_dir, name));
        }
    }
}

/// The words of a recorded command but for its last two, which are paths, state the
/// options; only the places of the two configuration files are changed.
pub proof fn law_recorded_commands_state_options(
    words: Seq<Seq<char>>,
    image: Seq<char>,
    source: Seq<char>,
    config_dir: Seq<char>,
    files: Seq<Seq<char>>,
)
    ensures
        ({
            let all = words.push(image).push(source);
            match options_in(all, config_dir, files) {
                Ok(found) => {
                    &&& build_options::options_of(words) matches Ok(stated) && found == (
                    OptionsModel {
                        fs_config: found.fs_config,
                        file_contexts: found.file_contexts,
                        ..stated
                    }) && (stated.fs_config is None ==> found.fs_config is None) && (
                    stated.file_contexts is None ==> found.file_contexts is None) && (
                    stated.fs_config is Some ==> found.fs_config is Some && relocated(
                        stated.fs_config->0,
                        "_fs_config"@,
                        config_dir,
                        files,
                    ) == Ok::<Seq<char>, WorkspaceError>(found.fs_config->0)) && (
                    stated.file_contexts is Some ==> found.file_contexts is Some && relocated(
                        stated.file_contexts->0,
                        "_file_contexts"@,
                        config_dir,
                        files,
                    ) == Ok::<Seq<char>, WorkspaceError>(found.file_contexts->0))
                },
                Err(WorkspaceError::Options(error)) => build_options::options_of(words) == Err::<
                    OptionsModel,
                    build_options::OptionError,
                >(error),
                Err(_) => build_options::options_of(words) is Ok,
            }
        }),
        words.len() < 2 ==> options_in(words, config_dir, files) == Err::<
            OptionsModel,
            WorkspaceError,
        >(WorkspaceError::MissingPaths),
{
    let all = words.push(image).push(source);
    assert(all.take(all.len() - 2) =~= words);
}

/// A packed image is accepted where the manifest is of a known version and the image
/// is one: with a certificate where that has the recorded size and maps the image,
/// and else where the image has not grown or may.
pub proof fn law_sound_images_are_accepted(
    manifest: ErofsManifest,
    raw: Seq<u8>,
    certificate: Option<HvbCertificate>,
    allow_grow: bool,
)
    ensures
        repack_error(manifest, raw, certificate, allow_grow) is None <==> {
            &&& manifest.version == 1
            &&& raw.len() >= 1028 && bytes::le32(raw, 1024) == 0xe0f5_e1e2
            &&& manifest.hvb is None ==> allow_grow || raw.len() <= manifest.original_size
            &&& manifest.hvb is Some ==> certificate is Some && certificate->0.length
                == manifest.hvb->0.footer.cert_size && raw.len() <= (
            if certificate->0.image_len != 0 {
                certificate->0.image_len
            } else {
                manifest.hvb->0.footer.image_size
            })
        },
        repack_error(manifest, raw, certificate, allow_grow) == Some(WorkspaceError::Grown) ==> raw.len()
            > manifest.original_size && !allow_grow,
{
    law_erofs_images_have_their_magic(raw);
}

/// An image that is written as it is has zeros behind it up to the size of the
/// original, where it is smaller.
pub proof fn law_images_are_filled_up(
    manifest: ErofsManifest,
    raw: Seq<u8>,
    certificate: Option<HvbCertificate>,
    allow_grow: bool,
    plan: Result<RepackPlan, WorkspaceError>,
)
    requires
        is_repack(manifest, raw, certificate, allow_grow, plan),
        repack_error(manifest, raw, certificate, allow_grow) is None,
    ensures
        manifest.hvb is Some <==> plan == Ok::<RepackPlan, WorkspaceError>(RepackPlan::Wrap),
        plan matches Ok(RepackPlan::Raw { image }) ==> {
            &&& image@.len() >= raw.len() && image@.len() >= manifest.original_size
            &&& image@.len() == raw.len() || image@.len() == manifest.original_size
            &&& forall|i: int| 0 <= i < raw.len() ==> #[trigger] image@[i] == raw[i]
            &&& forall|i: int| raw.len() <= i < image@.len() ==> #[trigger] image@[i] == 0
        },
{
}

/// The options of a workspace are those of its recorded command; a file that records
/// none, or one that cannot be split into words, is refused.
pub proof fn law_workspaces_keep_their_options(
    content: Seq<char>,
    config_dir: Seq<char>,
    files: Seq<Seq<char>>,
)
    ensures
        match recorded_line(text::lines(content), 0) {
            None => recorded_options(content, config_dir, files) == Err::<
                OptionsModel,
                WorkspaceError,
            >(WorkspaceError::MissingOptions),
            Some(line) => match shell::shell_words(line) {
                None => recorded_options(content, config_dir, files) == Err::<
                    OptionsModel,
                    WorkspaceError,
                >(WorkspaceError::Quoting),
                Some(words) => recorded_options(content, config_dir, files) == options_in(
                    words,
                    config_dir,
                    files,
                ),
            },
        },
{
}

} // verus!
