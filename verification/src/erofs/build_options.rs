//! The options of an image build, and how a command line states them.

use vstd::prelude::*;

use crate::erofs::compression::{Compression, CompressionError};
use crate::oeminfo::payload::text_of;
use crate::text;

verus! {

/// Options for building a single-device image from a directory.
#[derive(Debug, Clone)]
pub struct BuildOptions {
    pub compression: Compression,
    pub block_size: u32,
    pub cluster_size: u32,
    pub timestamp: Option<u64>,
    pub uuid: Option<[u8; 16]>,
    pub volume_label: String,
    pub fs_config: Option<String>,
    pub file_contexts: Option<String>,
    pub metadata_file: Option<String>,
    pub mount_point: String,
    pub force_uid: Option<u32>,
    pub force_gid: Option<u32>,
    pub uid_offset: i64,
    pub gid_offset: i64,
    pub preserve_mtime: bool,
    /// Leaves out the extended attributes of the source files; recorded ones
    /// still apply.
    pub no_xattrs: bool,
    pub xattr_tolerance: u32,
    pub inline_data: bool,
    pub compact_indexes: bool,
    pub checksum: bool,
}

/// The values of build options, with texts as character sequences.
#[verifier::ext_equal]
pub struct OptionsModel {
    pub compression: Compression,
    pub block_size: u32,
    pub cluster_size: u32,
    pub timestamp: Option<u64>,
    pub uuid: Option<Seq<u8>>,
    pub volume_label: Seq<char>,
    pub fs_config: Option<Seq<char>>,
    pub file_contexts: Option<Seq<char>>,
    pub metadata_file: Option<Seq<char>>,
    pub mount_point: Seq<char>,
    pub force_uid: Option<u32>,
    pub force_gid: Option<u32>,
    pub uid_offset: i64,
    pub gid_offset: i64,
    pub preserve_mtime: bool,
    pub no_xattrs: bool,
    pub xattr_tolerance: u32,
    pub inline_data: bool,
    pub compact_indexes: bool,
    pub checksum: bool,
}

impl View for BuildOptions {
    type V = OptionsModel;

    open spec fn view(&self) -> OptionsModel {
        OptionsModel {
            compression: self.compression,
            block_size: self.block_size,
            cluster_size: self.cluster_size,
            timestamp: self.timestamp,
            uuid: match self.uuid {
                Some(bytes) => Some(bytes@),
                None => None,
            },
            volume_label: self.volume_label@,
            fs_config: text_of(self.fs_config),
            file_contexts: text_of(self.file_contexts),
            metadata_file: text_of(self.metadata_file),
            mount_point: self.mount_point@,
            force_uid: self.force_uid,
            force_gid: self.force_gid,
            uid_offset: self.uid_offset,
            gid_offset: self.gid_offset,
            preserve_mtime: self.preserve_mtime,
            no_xattrs: self.no_xattrs,
            xattr_tolerance: self.xattr_tolerance,
            inline_data: self.inline_data,
            compact_indexes: self.compact_indexes,
            checksum: self.checksum,
        }
    }
}

/// The options of a build that none is stated for.
pub open spec fn default_options() -> OptionsModel {
    OptionsModel {
        compression: Compression::Lz4Hc { level: 9 },
        block_size: 4096,
        cluster_size: 4096,
        timestamp: None,
        uuid: None,
        volume_label: seq![],
        fs_config: None,
        file_contexts: None,
        metadata_file: None,
        mount_point: seq![],
        force_uid: None,
        force_gid: None,
        uid_offset: 0,
        gid_offset: 0,
        preserve_mtime: true,
        no_xattrs: false,
        xattr_tolerance: 2,
        inline_data: true,
        compact_indexes: true,
        checksum: true,
    }
}

impl Default for BuildOptions {
    fn default() -> (options: BuildOptions)
        ensures
            options@ == default_options(),
    {
        let options = BuildOptions {
            compression: Compression::default(),
            block_size: 4096,
            cluster_size: 4096,
            timestamp: None,
            uuid: None,
            volume_label: String::new(),
            fs_config: None,
            file_contexts: None,
            metadata_file: None,
            mount_point: String::new(),
            force_uid: None,
            force_gid: None,
            uid_offset: 0,
            gid_offset: 0,
            preserve_mtime: true,
            no_xattrs: false,
            xattr_tolerance: 2,
            inline_data: true,
            compact_indexes: true,
            checksum: true,
        };
        assert(options@ =~= default_options());
        options
    }
}

/// Why options cannot be used.
#[derive(Debug, Clone, Copy, PartialEq, Eq, Structural)]
pub enum OptionError {
    UnexpectedOperand,
    MissingValue,
    UnexpectedValue,
    Unsupported,
    Compression(CompressionError),
    InvalidNumber,
    InvalidUuid,
    InvalidDebugLevel,
    XattrTolerance,
    ExtendedOption,
    Level,
    BlockSize,
    ClusterSize,
    VolumeLabel,
    MountPoint,
}

// ---------------------------------------------------------------------------
// Validity
// ---------------------------------------------------------------------------

/// True when a path has a component that stands for a directory above.
pub open spec fn has_dot_component(path: Seq<char>) -> bool {
    let parts = text::split(path, '/');
    exists|i: int| 0 <= i < parts.len() && (#[trigger] parts[i] == "."@ || parts[i] == ".."@)
}

/// What is wrong with options, the first thing that is.
pub open spec fn invalid(o: OptionsModel) -> Option<OptionError> {
    if o.compression matches Compression::Lz4Hc { level } && !(1 <= level <= 12) {
        Some(OptionError::Level)
    } else if !(o.block_size == 512 || o.block_size == 1024 || o.block_size == 2048
        || o.block_size == 4096) {
        Some(OptionError::BlockSize)
    } else if !(o.block_size <= o.cluster_size <= 0x10_0000 && o.cluster_size % o.block_size == 0
        && o.cluster_size / o.block_size < 2048) {
        Some(OptionError::ClusterSize)
    } else if vstd::utf8::encode_utf8(o.volume_label).len() > 16 || o.volume_label.contains('\0') {
        Some(OptionError::VolumeLabel)
    } else if has_dot_component(o.mount_point) || o.mount_point.contains('\\')
        || o.mount_point.contains('\0') {
        Some(OptionError::MountPoint)
    } else {
        None
    }
}

pub(crate) fn dot_component(path: &[char]) -> (has: bool)
    ensures
        has == has_dot_component(path@),
{
    let parts = text::split_char(path, '/');
    let ghost all = text::split(path@, '/');
    let mut i: usize = 0;
    while i < parts.len()
        invariant
            i <= parts@.len(),
            all == text::split(path@, '/'),
            text::pieces(parts@) == all,
            forall|k: int| 0 <= k < i ==> !(#[trigger] all[k] == "."@ || all[k] == ".."@),
        decreases parts@.len() - i,
    {
        assert(all[i as int] == parts@[i as int]@);
        if text::is_text(parts[i].as_slice(), ".") || text::is_text(parts[i].as_slice(), "..") {
            return true;
        }
        i += 1;
    }
    false
}

impl BuildOptions {
    pub fn validate(&self) -> (valid: Result<(), OptionError>)
        ensures
            match valid {
                Ok(()) => invalid(self@) is None,
                Err(error) => invalid(self@) == Some(error),
            },
    {
        if let Compression::Lz4Hc { level } = self.compression {
            if level < 1 || level > 12 {
                return Err(OptionError::Level);
            }
        }
        let b: u32 = self.block_size;
        if !(b == 512 || b == 1024 || b == 2048 || b == 4096) {
            return Err(OptionError::BlockSize);
        }
        let c: u32 = self.cluster_size;
        if !(c >= b && c <= 0x10_0000 && c % b == 0 && c / b < 2048) {
            return Err(OptionError::ClusterSize);
        }
        let label = text::chars_of(self.volume_label.as_str());
        if self.volume_label.as_str().as_bytes().len() > 16 || text::contains_char(
            label.as_slice(),
            '\0',
        ) {
            return Err(OptionError::VolumeLabel);
        }
        let mount = text::chars_of(self.mount_point.as_str());
        if dot_component(mount.as_slice()) || text::contains_char(mount.as_slice(), '\\')
            || text::contains_char(mount.as_slice(), '\0') {
            return Err(OptionError::MountPoint);
        }
        Ok(())
    }
}

// ---------------------------------------------------------------------------
// Command lines
// ---------------------------------------------------------------------------

/// The option of an argument, and the value that stands in the same argument.
pub open spec fn key_of(arg: Seq<char>) -> Option<(Seq<char>, Option<Seq<char>>)> {
    if text::begins_with(arg, "--"@) {
        match text::halves(arg, '=') {
            Some((key, value)) => Some((key, Some(value))),
            None => Some((arg, None)),
        }
    } else if arg.len() >= 2 && arg[0] == '-' && text::is_ascii(arg[1]) {
        Some(
            (
                arg.take(2),
                if arg.len() > 2 {
                    Some(arg.skip(2))
                } else {
                    None
                },
            ),
        )
    } else {
        None
    }
}

/// True for the options that have a value.
pub open spec fn takes_value(key: Seq<char>) -> bool {
    ||| key == "-z"@
    ||| key == "-b"@
    ||| key == "-C"@
    ||| key == "-T"@
    ||| key == "-U"@
    ||| key == "-L"@
    ||| key == "-d"@
    ||| key == "-x"@
    ||| key == "-E"@
    ||| key == "--fs-config-file"@
    ||| key == "--file-contexts"@
    ||| key == "--metadata"@
    ||| key == "--mount-point"@
    ||| key == "--force-uid"@
    ||| key == "--force-gid"@
    ||| key == "--uid-offset"@
    ||| key == "--gid-offset"@
}

/// The hexadecimal digits of an identifier, without its dashes.
pub open spec fn uuid_digits(s: Seq<char>) -> Seq<char> {
    s.subrange(0, 8) + s.subrange(9, 13) + s.subrange(14, 18) + s.subrange(19, 23) + s.subrange(
        24,
        36,
    )
}

/// The sixteen bytes of an identifier in the 8-4-4-4-12 format.
pub open spec fn uuid_of(s: Seq<char>) -> Option<Seq<u8>> {
    if s.len() == 36 && s[8] == '-' && s[13] == '-' && s[18] == '-' && s[23] == '-'
        && text::all_digits(uuid_digits(s), 16) {
        Some(
            Seq::new(
                16,
                |i: int|
                    (text::digit_value(uuid_digits(s)[2 * i])->0 * 16 + text::digit_value(
                        uuid_digits(s)[2 * i + 1],
                    )->0) as u8,
            ),
        )
    } else {
        None
    }
}

fn parse_uuid(s: &[char]) -> (uuid: Option<[u8; 16]>)
    ensures
        match uuid {
            Some(bytes) => uuid_of(s@) == Some(bytes@),
            None => uuid_of(s@) is None,
        },
{
    if s.len() != 36 || s[8] != '-' || s[13] != '-' || s[18] != '-' || s[23] != '-' {
        return None;
    }
    let mut digits: Vec<char> = Vec::new();
    text::append_chars(&mut digits, &s[0..8]);
    text::append_chars(&mut digits, &s[9..13]);
    text::append_chars(&mut digits, &s[14..18]);
    text::append_chars(&mut digits, &s[19..23]);
    text::append_chars(&mut digits, &s[24..36]);
    assert(digits@ =~= uuid_digits(s@));
    let mut bytes: [u8; 16] = [0;16];
    let mut i: usize = 0;
    while i < 16
        invariant
            i <= 16,
            digits@ == uuid_digits(s@),
            digits@.len() == 32,
            bytes@.len() == 16,
            forall|k: int| 0 <= k < 2 * i ==> text::is_digit_in(#[trigger] digits@[k], 16),
            forall|k: int|
                0 <= k < i ==> #[trigger] bytes@[k] == (text::digit_value(digits@[2 * k])->0 * 16
                    + text::digit_value(digits@[2 * k + 1])->0) as u8,
        decreases 16 - i,
    {
        let high: u64 = match text::digit_in(digits[2 * i], 16) {
            Some(d) => d,
            None => {
                assert(!text::is_digit_in(digits@[2 * i as int], 16));
                return None;
            },
        };
        let low: u64 = match text::digit_in(digits[2 * i + 1], 16) {
            Some(d) => d,
            None => {
                assert(!text::is_digit_in(digits@[2 * i as int + 1], 16));
                return None;
            },
        };
        bytes[i] = (high * 16 + low) as u8;
        i += 1;
    }
    assert(bytes@ =~= uuid_of(s@)->0);
    Some(bytes)
}

/// The options with the features of an extended option applied.
pub open spec fn with_features(o: OptionsModel, features: Seq<Seq<char>>) -> Result<
    OptionsModel,
    OptionError,
>
    decreases features.len(),
{
    if features.len() == 0 {
        Ok(o)
    } else {
        match with_features(o, features.drop_last()) {
            Err(error) => Err(error),
            Ok(before) => {
                let feature = features.last();
                if feature == "legacy-compress"@ {
                    Ok(OptionsModel { compact_indexes: false, ..before })
                } else if feature == "noinline_data"@ {
                    Ok(OptionsModel { inline_data: false, ..before })
                } else if feature == "nosbcrc"@ {
                    Ok(OptionsModel { checksum: false, ..before })
                } else {
                    Err(OptionError::ExtendedOption)
                }
            },
        }
    }
}

/// The options with one more option applied.
pub open spec fn with_option(o: OptionsModel, key: Seq<char>, value: Seq<char>) -> Result<
    OptionsModel,
    OptionError,
> {
    if key == "-z"@ {
        match crate::erofs::compression::compression_of(value) {
            Ok(compression) => Ok(OptionsModel { compression, ..o }),
            Err(error) => Err(OptionError::Compression(error)),
        }
    } else if key == "-b"@ {
        match text::unsigned(value, 10, u32::MAX as nat) {
            Some(n) => Ok(OptionsModel { block_size: n as u32, ..o }),
            None => Err(OptionError::InvalidNumber),
        }
    } else if key == "-C"@ {
        match text::unsigned(value, 10, u32::MAX as nat) {
            Some(n) => Ok(OptionsModel { cluster_size: n as u32, ..o }),
            None => Err(OptionError::InvalidNumber),
        }
    } else if key == "-T"@ {
        match text::unsigned(value, 10, u64::MAX as nat) {
            Some(n) => Ok(OptionsModel { timestamp: Some(n as u64), ..o }),
            None => Err(OptionError::InvalidNumber),
        }
    } else if key == "-U"@ {
        match uuid_of(value) {
            Some(uuid) => Ok(OptionsModel { uuid: Some(uuid), ..o }),
            None => Err(OptionError::InvalidUuid),
        }
    } else if key == "-L"@ {
        Ok(OptionsModel { volume_label: value, ..o })
    } else if key == "--fs-config-file"@ {
        Ok(OptionsModel { fs_config: Some(value), ..o })
    } else if key == "--file-contexts"@ {
        Ok(OptionsModel { file_contexts: Some(value), ..o })
    } else if key == "--metadata"@ {
        Ok(OptionsModel { metadata_file: Some(value), ..o })
    } else if key == "--mount-point"@ {
        Ok(OptionsModel { mount_point: text::stripped(value, '/'), ..o })
    } else if key == "--force-uid"@ {
        match text::unsigned(value, 10, u32::MAX as nat) {
            Some(n) => Ok(OptionsModel { force_uid: Some(n as u32), ..o }),
            None => Err(OptionError::InvalidNumber),
        }
    } else if key == "--force-gid"@ {
        match text::unsigned(value, 10, u32::MAX as nat) {
            Some(n) => Ok(OptionsModel { force_gid: Some(n as u32), ..o }),
            None => Err(OptionError::InvalidNumber),
        }
    } else if key == "--uid-offset"@ {
        match text::signed(value, i64::MIN as int, i64::MAX as nat) {
            Some(n) => Ok(OptionsModel { uid_offset: n as i64, ..o }),
            None => Err(OptionError::InvalidNumber),
        }
    } else if key == "--gid-offset"@ {
        match text::signed(value, i64::MIN as int, i64::MAX as nat) {
            Some(n) => Ok(OptionsModel { gid_offset: n as i64, ..o }),
            None => Err(OptionError::InvalidNumber),
        }
    } else if key == "--all-root"@ {
        Ok(OptionsModel { force_uid: Some(0), force_gid: Some(0), ..o })
    } else if key == "--ignore-mtime"@ {
        Ok(OptionsModel { preserve_mtime: false, ..o })
    } else if key == "--preserve-mtime"@ {
        Ok(OptionsModel { preserve_mtime: true, ..o })
    } else if key == "-d"@ {
        match text::unsigned(value, 10, 9) {
            Some(_) => Ok(o),
            None => Err(OptionError::InvalidDebugLevel),
        }
    } else if key == "-x"@ {
        match text::signed(value, i32::MIN as int, i32::MAX as nat) {
            None => Err(OptionError::InvalidNumber),
            Some(n) => if n < -1 {
                Err(OptionError::XattrTolerance)
            } else if n == -1 {
                Ok(OptionsModel { no_xattrs: true, ..o })
            } else {
                Ok(OptionsModel { no_xattrs: false, xattr_tolerance: n as u32, ..o })
            },
        }
    } else if key == "-E"@ {
        with_features(o, text::split(value, ','))
    } else {
        Err(OptionError::Unsupported)
    }
}

/// The options that the arguments from `index` on state, beside those of `o`.
pub open spec fn stated(args: Seq<Seq<char>>, index: int, o: OptionsModel) -> Result<
    OptionsModel,
    OptionError,
>
    decreases args.len() - index,
{
    if index < 0 || index >= args.len() {
        Ok(o)
    } else {
        match key_of(args[index]) {
            None => Err(OptionError::UnexpectedOperand),
            Some((key, inline)) => if takes_value(key) {
                match inline {
                    Some(value) => match with_option(o, key, value) {
                        Ok(next) => stated(args, index + 1, next),
                        Err(error) => Err(error),
                    },
                    None => if index + 1 < args.len() {
                        match with_option(o, key, args[index + 1]) {
                            Ok(next) => stated(args, index + 2, next),
                            Err(error) => Err(error),
                        }
                    } else {
                        Err(OptionError::MissingValue)
                    },
                }
            } else if inline is Some {
                Err(OptionError::UnexpectedValue)
            } else {
                match with_option(o, key, seq![]) {
                    Ok(next) => stated(args, index + 1, next),
                    Err(error) => Err(error),
                }
            },
        }
    }
}

/// The options that a command line states, if they are valid.
pub open spec fn options_of(args: Seq<Seq<char>>) -> Result<OptionsModel, OptionError> {
    match stated(args, 0, default_options()) {
        Err(error) => Err(error),
        Ok(o) => match invalid(o) {
            Some(error) => Err(error),
            None => Ok(o),
        },
    }
}

fn has_value(key: &[char]) -> (has: bool)
    ensures
        has == takes_value(key@),
{
    text::is_text(key, "-z") || text::is_text(key, "-b") || text::is_text(key, "-C")
        || text::is_text(key, "-T") || text::is_text(key, "-U") || text::is_text(key, "-L")
        || text::is_text(key, "-d") || text::is_text(key, "-x") || text::is_text(key, "-E")
        || text::is_text(key, "--fs-config-file") || text::is_text(key, "--file-contexts")
        || text::is_text(key, "--metadata") || text::is_text(key, "--mount-point")
        || text::is_text(key, "--force-uid") || text::is_text(key, "--force-gid")
        || text::is_text(key, "--uid-offset") || text::is_text(key, "--gid-offset")
}

fn parse_u32(value: &[char]) -> (number: Option<u32>)
    ensures
        match number {
            Some(n) => text::unsigned(value@, 10, u32::MAX as nat) == Some(n as nat),
            None => text::unsigned(value@, 10, u32::MAX as nat) is None,
        },
{
    match text::parse_unsigned(value, 10, 0xffff_ffff) {
        Some(n) => Some(n as u32),
        None => None,
    }
}

impl BuildOptions {
    fn apply_features(&mut self, value: &[char]) -> (applied: Result<(), OptionError>)
        ensures
            match applied {
                Ok(()) => with_features(old(self)@, text::split(value@, ',')) == Ok::<
                    OptionsModel,
                    OptionError,
                >(final(self)@),
                Err(error) => with_features(old(self)@, text::split(value@, ',')) == Err::<
                    OptionsModel,
                    OptionError,
                >(error),
            },
    {
        let features = text::split_char(value, ',');
        let ghost all = text::split(value@, ',');
        let mut i: usize = 0;
        assert(all.take(0) =~= Seq::<Seq<char>>::empty());
        while i < features.len()
            invariant
                i <= features@.len(),
                all == text::split(value@, ','),
                text::pieces(features@) == all,
                with_features(old(self)@, all.take(i as int)) == Ok::<OptionsModel, OptionError>(
                    self@,
                ),
            decreases features@.len() - i,
        {
            let feature = features[i].as_slice();
            let ghost next = all.take(i + 1);
            assert(next.drop_last() =~= all.take(i as int));
            assert(next.last() == feature@);
            if text::is_text(feature, "legacy-compress") {
                self.compact_indexes = false;
            } else if text::is_text(feature, "noinline_data") {
                self.inline_data = false;
            } else if text::is_text(feature, "nosbcrc") {
                self.checksum = false;
            } else {
                proof {
                    lemma_features_fail(old(self)@, all, i + 1);
                    assert(all.take(all.len() as int) =~= all);
                }
                return Err(OptionError::ExtendedOption);
            }
            i += 1;
        }
        assert(all.take(i as int) =~= all);
        Ok(())
    }

    fn apply_option(&mut self, key: &[char], value: &[char]) -> (applied: Result<(), OptionError>)
        ensures
            match applied {
                Ok(()) => with_option(old(self)@, key@, value@) == Ok::<OptionsModel, OptionError>(
                    final(self)@,
                ),
                Err(error) => with_option(old(self)@, key@, value@) == Err::<
                    OptionsModel,
                    OptionError,
                >(error),
            },
    {
        if text::is_text(key, "-z") {
            match Compression::parse(value) {
                Ok(compression) => {
                    self.compression = compression;
                },
                Err(error) => {
                    return Err(OptionError::Compression(error));
                },
            }
        } else if text::is_text(key, "-b") {
            match parse_u32(value) {
                Some(n) => {
                    self.block_size = n;
                },
                None => {
                    return Err(OptionError::InvalidNumber);
                },
            }
        } else if text::is_text(key, "-C") {
            match parse_u32(value) {
                Some(n) => {
                    self.cluster_size = n;
                },
                None => {
                    return Err(OptionError::InvalidNumber);
                },
            }
        } else if text::is_text(key, "-T") {
            match text::parse_unsigned(value, 10, u64::MAX) {
                Some(n) => {
                    self.timestamp = Some(n);
                },
                None => {
                    return Err(OptionError::InvalidNumber);
                },
            }
        } else if text::is_text(key, "-U") {
            match parse_uuid(value) {
                Some(uuid) => {
                    self.uuid = Some(uuid);
                },
                None => {
                    return Err(OptionError::InvalidUuid);
                },
            }
        } else if text::is_text(key, "-L") {
            self.volume_label = text::string_of(value);
        } else if text::is_text(key, "--fs-config-file") {
            self.fs_config = Some(text::string_of(value));
        } else if text::is_text(key, "--file-contexts") {
            self.file_contexts = Some(text::string_of(value));
        } else if text::is_text(key, "--metadata") {
            self.metadata_file = Some(text::string_of(value));
        } else if text::is_text(key, "--mount-point") {
            self.mount_point = text::string_of(text::strip(value, '/'));
        } else if text::is_text(key, "--force-uid") {
            match parse_u32(value) {
                Some(n) => {
                    self.force_uid = Some(n);
                },
                None => {
                    return Err(OptionError::InvalidNumber);
                },
            }
        } else if text::is_text(key, "--force-gid") {
            match parse_u32(value) {
                Some(n) => {
                    self.force_gid = Some(n);
                },
                None => {
                    return Err(OptionError::InvalidNumber);
                },
            }
        } else if text::is_text(key, "--uid-offset") {
            match text::parse_signed(value) {
                Some(n) => {
                    self.uid_offset = n;
                },
                None => {
                    return Err(OptionError::InvalidNumber);
                },
            }
        } else if text::is_text(key, "--gid-offset") {
            match text::parse_signed(value) {
                Some(n) => {
                    self.gid_offset = n;
                },
                None => {
                    return Err(OptionError::InvalidNumber);
                },
            }
        } else if text::is_text(key, "--all-root") {
            self.force_uid = Some(0);
            self.force_gid = Some(0);
        } else if text::is_text(key, "--ignore-mtime") {
            self.preserve_mtime = false;
        } else if text::is_text(key, "--preserve-mtime") {
            self.preserve_mtime = true;
        } else if text::is_text(key, "-d") {
            if text::parse_unsigned(value, 10, 9).is_none() {
                return Err(OptionError::InvalidDebugLevel);
            }
        } else if text::is_text(key, "-x") {
            proof {
                text::lemma_signed_range(value@, i32::MIN as int, i32::MAX as nat);
            }
            match text::parse_signed(value) {
                None => {
                    return Err(OptionError::InvalidNumber);
                },
                Some(n) => {
                    if n < i32::MIN as i64 || n > i32::MAX as i64 {
                        return Err(OptionError::InvalidNumber);
                    }
                    if n < -1 {
                        return Err(OptionError::XattrTolerance);
                    }
                    self.no_xattrs = n == -1;
                    if n >= 0 {
                        self.xattr_tolerance = n as u32;
                    }
                },
            }
        } else if text::is_text(key, "-E") {
            return self.apply_features(value);
        } else {
            return Err(OptionError::Unsupported);
        }
        Ok(())
    }

    /// Reads options only, without the output and source operands. Modes that
    /// are not supported are refused.
    pub fn from_args(args: &[String]) -> (options: Result<BuildOptions, OptionError>)
        ensures
            match options {
                Ok(found) => options_of(text::texts(args@)) == Ok::<OptionsModel, OptionError>(
                    found@,
                ),
                Err(error) => options_of(text::texts(args@)) == Err::<OptionsModel, OptionError>(
                    error,
                ),
            },
    {
        let mut options = BuildOptions::default();
        let ghost all = text::texts(args@);
        let mut index: usize = 0;
        while index < args.len()
            invariant
                index <= args@.len(),
                all == text::texts(args@),
                stated(all, 0, default_options()) == stated(all, index as int, options@),
            decreases args@.len() - index,
        {
            let arg = text::chars_of(args[index].as_str());
            let whole = arg.as_slice();
            assert(all[index as int] == whole@);
            let (key, inline): (&[char], Option<&[char]>) = if text::starts(whole, "--") {
                match text::split_at_first(whole, '=') {
                    Some((key, value)) => (key, Some(value)),
                    None => (whole, None),
                }
            } else if whole.len() >= 2 && whole[0] == '-' && text::ascii(whole[1]) {
                let value: Option<&[char]> = if whole.len() > 2 {
                    assert(whole@.skip(2) == whole@.subrange(2, whole@.len() as int));
                    Some(&whole[2..whole.len()])
                } else {
                    None
                };
                (&whole[0..2], value)
            } else {
                return Err(OptionError::UnexpectedOperand);
            };
            if has_value(key) {
                match inline {
                    Some(value) => {
                        if let Err(error) = options.apply_option(key, value) {
                            return Err(error);
                        }
                        index += 1;
                    },
                    None => {
                        if index + 1 >= args.len() {
                            return Err(OptionError::MissingValue);
                        }
                        let value = text::chars_of(args[index + 1].as_str());
                        assert(all[index + 1] == value@);
                        if let Err(error) = options.apply_option(key, value.as_slice()) {
                            return Err(error);
                        }
                        index += 2;
                    },
                }
            } else {
                if inline.is_some() {
                    return Err(OptionError::UnexpectedValue);
                }
                let nothing: Vec<char> = Vec::new();
                assert(nothing@ =~= seq![]);
                if let Err(error) = options.apply_option(key, nothing.as_slice()) {
                    return Err(error);
                }
                index += 1;
            }
        }
        match options.validate() {
            Ok(()) => Ok(options),
            Err(error) => Err(error),
        }
    }
}

/// Once a feature is refused, no feature after it mends that.
proof fn lemma_features_fail(o: OptionsModel, features: Seq<Seq<char>>, n: int)
    requires
        0 <= n <= features.len(),
        with_features(o, features.take(n)) is Err,
    ensures
        with_features(o, features.take(features.len() as int)) == with_features(
            o,
            features.take(n),
        ),
    decreases features.len() - n,
{
    if n < features.len() {
        assert(features.take(n + 1).drop_last() =~= features.take(n));
        lemma_features_fail(o, features, n + 1);
    }
}

// ---------------------------------------------------------------------------
// Laws
// ---------------------------------------------------------------------------

/// An option and its value in one argument.
pub open spec fn joined(key: Seq<char>, value: Seq<char>) -> Seq<char> {
    if text::begins_with(key, "--"@) {
        key + "="@ + value
    } else {
        key + value
    }
}

/// What follows accepted arguments is read with the options that they state.
proof fn lemma_stated_prefix(a: Seq<Seq<char>>, b: Seq<Seq<char>>, index: int, o: OptionsModel)
    requires
        0 <= index <= a.len(),
        stated(a, index, o) is Ok,
    ensures
        stated(a + b, index, o) == stated(a + b, a.len() as int, stated(a, index, o)->Ok_0),
    decreases a.len() - index,
{
    if index < a.len() {
        let all = a + b;
        assert(all[index] == a[index]);
        let (key, inline) = key_of(a[index])->0;
        if takes_value(key) {
            match inline {
                Some(value) => {
                    lemma_stated_prefix(a, b, index + 1, with_option(o, key, value)->Ok_0);
                },
                None => {
                    assert(all[index + 1] == a[index + 1]);
                    lemma_stated_prefix(
                        a,
                        b,
                        index + 2,
                        with_option(o, key, a[index + 1])->Ok_0,
                    );
                },
            }
        } else {
            lemma_stated_prefix(a, b, index + 1, with_option(o, key, seq![])->Ok_0);
        }
    }
}

/// Arguments are read the same wherever they stand.
proof fn lemma_stated_suffix(
    a: Seq<Seq<char>>,
    c: Seq<Seq<char>>,
    b: Seq<Seq<char>>,
    index: int,
    o: OptionsModel,
)
    requires
        0 <= index,
    ensures
        stated(a + b, a.len() + index, o) == stated(c + b, c.len() + index, o),
    decreases b.len() - index,
{
    let left = a + b;
    let right = c + b;
    if index < b.len() {
        assert(left[a.len() + index] == b[index]);
        assert(right[c.len() + index] == b[index]);
        if let Some((key, inline)) = key_of(b[index]) {
            if takes_value(key) {
                match inline {
                    Some(value) => {
                        if let Ok(next) = with_option(o, key, value) {
                            lemma_stated_suffix(a, c, b, index + 1, next);
                        }
                    },
                    None => {
                        if index + 1 < b.len() {
                            assert(left[a.len() + index + 1] == b[index + 1]);
                            assert(right[c.len() + index + 1] == b[index + 1]);
                            if let Ok(next) = with_option(o, key, b[index + 1]) {
                                lemma_stated_suffix(a, c, b, index + 2, next);
                            }
                        }
                    },
                }
            } else if inline is None {
                if let Ok(next) = with_option(o, key, seq![]) {
                    lemma_stated_suffix(a, c, b, index + 1, next);
                }
            }
        }
    }
}

/// The options that have a value are a dash and a letter, or two dashes and
/// more, and hold no equals sign.
proof fn lemma_value_keys(key: Seq<char>)
    requires
        takes_value(key),
    ensures
        key.len() >= 2,
        key[0] == '-',
        text::begins_with(key, "--"@) == (key[1] == '-'),
        !text::begins_with(key, "--"@) ==> key.len() == 2 && text::is_ascii(key[1]),
        forall|i: int| 0 <= i < key.len() ==> key[i] != '=',
{
    reveal_strlit("--");
    reveal_strlit("-z");
    reveal_strlit("-b");
    reveal_strlit("-C");
    reveal_strlit("-T");
    reveal_strlit("-U");
    reveal_strlit("-L");
    reveal_strlit("-d");
    reveal_strlit("-x");
    reveal_strlit("-E");
    reveal_strlit("--fs-config-file");
    reveal_strlit("--file-contexts");
    reveal_strlit("--metadata");
    reveal_strlit("--mount-point");
    reveal_strlit("--force-uid");
    reveal_strlit("--force-gid");
    reveal_strlit("--uid-offset");
    reveal_strlit("--gid-offset");
    if key[0] == '-' && key[1] == '-' && key.len() >= 2 {
        assert(key.take(2) =~= "--"@);
    } else if text::begins_with(key, "--"@) {
        assert(key.take(2)[1] == '-');
    }
}

/// An option in one argument with its value is read as the option and the value.
proof fn lemma_joined_key(key: Seq<char>, value: Seq<char>)
    requires
        takes_value(key),
        value.len() > 0 || text::begins_with(key, "--"@),
    ensures
        key_of(joined(key, value)) == Some((key, Some(value))),
        key_of(key) == Some((key, None::<Seq<char>>)),
{
    lemma_value_keys(key);
    let all = joined(key, value);
    reveal_strlit("--");
    reveal_strlit("=");
    if text::begins_with(key, "--"@) {
        assert(all.take(2) =~= key.take(2));
        text::lemma_position(all, '=', 0);
        text::lemma_position(key, '=', 0);
        let at = text::position(all, '=', 0);
        assert(all[key.len() as int] == '=');
        if at < key.len() {
            assert(all[at] == key[at]);
        }
        assert(at == key.len());
        assert(all.take(at) =~= key);
        assert(all.skip(at + 1) =~= value);
        assert(text::position(key, '=', 0) == key.len());
    } else {
        assert(all[1] == key[1]);
        if text::begins_with(all, "--"@) {
            assert(all.take(2)[1] == '-');
        }
        assert(all.take(2) =~= key);
        assert(all.skip(2) =~= value);
        assert(key.take(2) =~= key);
    }
}

/// A value may stand in the argument of its option or in the next one: behind
/// accepted arguments, and whatever follows, both say the same. In the argument
/// of a short option a value has at least one character.
pub proof fn law_values_stand_inline_or_apart(
    before: Seq<Seq<char>>,
    key: Seq<char>,
    value: Seq<char>,
    after: Seq<Seq<char>>,
)
    requires
        stated(before, 0, default_options()) is Ok,
        takes_value(key),
        value.len() > 0 || text::begins_with(key, "--"@),
    ensures
        options_of(before + seq![joined(key, value)] + after) == options_of(
            before + seq![key, value] + after,
        ),
{
    let o = stated(before, 0, default_options())->Ok_0;
    let one = before + seq![joined(key, value)];
    let two = before + seq![key, value];
    let n = before.len() as int;
    lemma_joined_key(key, value);
    assert(one + after =~= before + (seq![joined(key, value)] + after));
    assert(two + after =~= before + (seq![key, value] + after));
    lemma_stated_prefix(before, seq![joined(key, value)] + after, 0, default_options());
    lemma_stated_prefix(before, seq![key, value] + after, 0, default_options());
    assert((one + after)[n] == joined(key, value));
    assert((two + after)[n] == key);
    assert((two + after)[n + 1] == value);
    if let Ok(next) = with_option(o, key, value) {
        lemma_stated_suffix(one, two, after, 0, next);
    }
}

/// Only options are read: an argument that does not start with a dash is refused
/// behind accepted ones, whatever follows.
pub proof fn law_operands_are_refused(
    before: Seq<Seq<char>>,
    operand: Seq<char>,
    after: Seq<Seq<char>>,
)
    requires
        stated(before, 0, default_options()) is Ok,
        operand.len() == 0 || operand[0] != '-',
    ensures
        options_of(before + seq![operand] + after) == Err::<OptionsModel, OptionError>(
            OptionError::UnexpectedOperand,
        ),
{
    let n = before.len() as int;
    assert(before + seq![operand] + after =~= before + (seq![operand] + after));
    lemma_stated_prefix(before, seq![operand] + after, 0, default_options());
    assert((before + seq![operand] + after)[n] == operand);
    reveal_strlit("--");
    if text::begins_with(operand, "--"@) {
        assert(operand.take(2)[0] == operand[0]);
    }
}

/// Keys differ in their length or in one of their letters.
proof fn lemma_keys_differ()
    ensures
        "-z"@.len() == 2 && "-z"@[1] == 'z',
        "-b"@.len() == 2 && "-b"@[1] == 'b',
        "-C"@.len() == 2 && "-C"@[1] == 'C',
        "-T"@.len() == 2 && "-T"@[1] == 'T',
        "-U"@.len() == 2 && "-U"@[1] == 'U',
        "-L"@.len() == 2 && "-L"@[1] == 'L',
        "-d"@.len() == 2 && "-d"@[1] == 'd',
        "-x"@.len() == 2 && "-x"@[1] == 'x',
        "-E"@.len() == 2 && "-E"@[1] == 'E',
        "--fs-config-file"@.len() == 16 && "--fs-config-file"@[2] == 'f',
        "--file-contexts"@.len() == 15 && "--file-contexts"@[2] == 'f',
        "--metadata"@.len() == 10 && "--metadata"@[2] == 'm',
        "--mount-point"@.len() == 13 && "--mount-point"@[2] == 'm',
        "--force-uid"@.len() == 11 && "--force-uid"@[8] == 'u',
        "--force-gid"@.len() == 11 && "--force-gid"@[8] == 'g',
        "--uid-offset"@.len() == 12 && "--uid-offset"@[2] == 'u',
        "--gid-offset"@.len() == 12 && "--gid-offset"@[2] == 'g',
        "--all-root"@.len() == 10 && "--all-root"@[2] == 'a',
        "--ignore-mtime"@.len() == 14 && "--ignore-mtime"@[2] == 'i',
        "--preserve-mtime"@.len() == 16 && "--preserve-mtime"@[2] == 'p',
{
    reveal_strlit("-z");
    reveal_strlit("-b");
    reveal_strlit("-C");
    reveal_strlit("-T");
    reveal_strlit("-U");
    reveal_strlit("-L");
    reveal_strlit("-d");
    reveal_strlit("-x");
    reveal_strlit("-E");
    reveal_strlit("--fs-config-file");
    reveal_strlit("--file-contexts");
    reveal_strlit("--metadata");
    reveal_strlit("--mount-point");
    reveal_strlit("--force-uid");
    reveal_strlit("--force-gid");
    reveal_strlit("--uid-offset");
    reveal_strlit("--gid-offset");
    reveal_strlit("--all-root");
    reveal_strlit("--ignore-mtime");
    reveal_strlit("--preserve-mtime");
}

/// Where nothing is stated, data is compressed with LZ4HC at level 9, in blocks
/// and clusters of 4096 bytes, with compact indexes, inline data, a checksum and
/// the times of the files; attributes that more than two files have are shared.
pub proof fn law_defaults(args: Seq<Seq<char>>)
    requires
        args.len() == 0,
    ensures
        options_of(args) matches Ok(o) && {
            &&& o.compression == (Compression::Lz4Hc { level: 9 })
            &&& o.block_size == 4096
            &&& o.cluster_size == 4096
            &&& o.timestamp is None && o.uuid is None
            &&& o.volume_label.len() == 0 && o.mount_point.len() == 0
            &&& o.fs_config is None && o.file_contexts is None && o.metadata_file is None
            &&& o.force_uid is None && o.force_gid is None
            &&& o.uid_offset == 0 && o.gid_offset == 0
            &&& o.preserve_mtime && !o.no_xattrs
            &&& o.xattr_tolerance == 2
            &&& o.inline_data && o.compact_indexes && o.checksum
        },
{
    let o = default_options();
    assert(stated(args, 0, o) == Ok::<OptionsModel, OptionError>(o));
    assert(vstd::utf8::encode_utf8(Seq::<char>::empty()).len() == 0);
    let parts = text::split(o.mount_point, '/');
    text::law_pieces_make_the_text(o.mount_point, '/');
    reveal_strlit(".");
    reveal_strlit("..");
    assert(text::position(o.mount_point, '/', 0) == 0);
    assert(parts =~= seq![o.mount_point]);
}

/// Options that state a number take it as it is written, and change nothing
/// else.
#[verifier::rlimit(60)]
#[verifier::spinoff_prover]
pub proof fn law_numbers_are_taken(o: OptionsModel, n: nat)
    ensures
        n <= u32::MAX ==> {
            let value = text::decimal(n);
            &&& with_option(o, "-b"@, value) == Ok::<OptionsModel, OptionError>(
                OptionsModel { block_size: n as u32, ..o },
            )
            &&& with_option(o, "-C"@, value) == Ok::<OptionsModel, OptionError>(
                OptionsModel { cluster_size: n as u32, ..o },
            )
            &&& with_option(o, "--force-uid"@, value) == Ok::<OptionsModel, OptionError>(
                OptionsModel { force_uid: Some(n as u32), ..o },
            )
            &&& with_option(o, "--force-gid"@, value) == Ok::<OptionsModel, OptionError>(
                OptionsModel { force_gid: Some(n as u32), ..o },
            )
        },
        n <= u64::MAX ==> with_option(o, "-T"@, text::decimal(n)) == Ok::<OptionsModel, OptionError>(
            OptionsModel { timestamp: Some(n as u64), ..o },
        ),
        n > u32::MAX ==> with_option(o, "-b"@, text::decimal(n)) is Err && with_option(
            o,
            "-C"@,
            text::decimal(n),
        ) is Err,
{
    let value = text::decimal(n);
    text::law_written_numbers_read_back(n);
    text::lemma_decimal(n);
    assert(text::is_ascii_digit(value[0]));
    assert(text::without_plus(value) == value);
    lemma_keys_differ();
}

/// Options that state a signed number take it as it is written: offsets of
/// owners, and how many files may have an attribute before it is shared, where
/// -1 leaves out the attributes of the source.
#[verifier::rlimit(60)]
#[verifier::spinoff_prover]
pub proof fn law_signed_numbers_are_taken(o: OptionsModel, n: nat)
    requires
        n <= i32::MAX,
    ensures
        ({
            let plain = text::decimal(n);
            let negative = seq!['-'] + plain;
            &&& with_option(o, "--uid-offset"@, plain) == Ok::<OptionsModel, OptionError>(
                OptionsModel { uid_offset: n as i64, ..o },
            )
            &&& with_option(o, "--uid-offset"@, negative) == Ok::<OptionsModel, OptionError>(
                OptionsModel { uid_offset: (-n) as i64, ..o },
            )
            &&& with_option(o, "--gid-offset"@, plain) == Ok::<OptionsModel, OptionError>(
                OptionsModel { gid_offset: n as i64, ..o },
            )
            &&& with_option(o, "--gid-offset"@, negative) == Ok::<OptionsModel, OptionError>(
                OptionsModel { gid_offset: (-n) as i64, ..o },
            )
            &&& with_option(o, "-x"@, plain) == Ok::<OptionsModel, OptionError>(
                OptionsModel { no_xattrs: false, xattr_tolerance: n as u32, ..o },
            )
            &&& n == 1 ==> with_option(o, "-x"@, negative) == Ok::<OptionsModel, OptionError>(
                OptionsModel { no_xattrs: true, ..o },
            )
            &&& n > 1 ==> with_option(o, "-x"@, negative) == Err::<OptionsModel, OptionError>(
                OptionError::XattrTolerance,
            )
        }),
{
    let plain = text::decimal(n);
    let negative = seq!['-'] + plain;
    text::law_written_numbers_read_back(n);
    text::lemma_decimal(n);
    assert(text::is_ascii_digit(plain[0]));
    assert(text::without_plus(plain) == plain);
    assert(negative.skip(1) =~= plain);
    assert(negative[0] == '-');
    lemma_keys_differ();
}

/// Options that state a text take it as it is, and switches set what they name;
/// nothing else changes.
#[verifier::rlimit(60)]
#[verifier::spinoff_prover]
pub proof fn law_texts_and_switches_are_taken(o: OptionsModel, value: Seq<char>)
    ensures
        with_option(o, "-L"@, value) == Ok::<OptionsModel, OptionError>(
            OptionsModel { volume_label: value, ..o },
        ),
        with_option(o, "--fs-config-file"@, value) == Ok::<OptionsModel, OptionError>(
            OptionsModel { fs_config: Some(value), ..o },
        ),
        with_option(o, "--file-contexts"@, value) == Ok::<OptionsModel, OptionError>(
            OptionsModel { file_contexts: Some(value), ..o },
        ),
        with_option(o, "--metadata"@, value) == Ok::<OptionsModel, OptionError>(
            OptionsModel { metadata_file: Some(value), ..o },
        ),
        with_option(o, "--all-root"@, value) == Ok::<OptionsModel, OptionError>(
            OptionsModel { force_uid: Some(0), force_gid: Some(0), ..o },
        ),
        with_option(o, "--ignore-mtime"@, value) == Ok::<OptionsModel, OptionError>(
            OptionsModel { preserve_mtime: false, ..o },
        ),
        with_option(o, "--preserve-mtime"@, value) == Ok::<OptionsModel, OptionError>(
            OptionsModel { preserve_mtime: true, ..o },
        ),
        value.len() > 0 && value[0] != '/' && value.last() != '/' ==> with_option(
            o,
            "--mount-point"@,
            value,
        ) == Ok::<OptionsModel, OptionError>(OptionsModel { mount_point: value, ..o }),
        with_option(o, "--mount-point"@, seq!['/'] + value) == with_option(
            o,
            "--mount-point"@,
            value,
        ),
{
    assert((seq!['/'] + value).skip(1) =~= value);
    lemma_keys_differ();
}

/// A compression is chosen by its name, with a level behind a comma where it has
/// one.
#[verifier::rlimit(40)]
#[verifier::spinoff_prover]
pub proof fn law_compressions_are_chosen(o: OptionsModel, level: nat)
    ensures
        with_option(o, "-z"@, "none"@) == Ok::<OptionsModel, OptionError>(
            OptionsModel { compression: Compression::Off, ..o },
        ),
        with_option(o, "-z"@, "lz4"@) == Ok::<OptionsModel, OptionError>(
            OptionsModel { compression: Compression::Lz4, ..o },
        ),
        with_option(o, "-z"@, "lz4hc"@) == Ok::<OptionsModel, OptionError>(
            OptionsModel { compression: Compression::Lz4Hc { level: 9 }, ..o },
        ),
        1 <= level <= 12 ==> with_option(o, "-z"@, "lz4hc,"@ + text::decimal(level)) == Ok::<
            OptionsModel,
            OptionError,
        >(OptionsModel { compression: Compression::Lz4Hc { level: level as i32 }, ..o }),
{
    reveal_strlit("none");
    reveal_strlit("lz4");
    reveal_strlit("lz4hc");
    text::lemma_position("none"@, ',', 0);
    text::lemma_position("lz4"@, ',', 0);
    text::lemma_position("lz4hc"@, ',', 0);
    if 1 <= level <= 12 {
        crate::erofs::compression::law_written_compression_reads_back(
            Compression::Lz4Hc { level: level as i32 },
        );
    }
}

/// The features of an extended option are each turned off by their name.
#[verifier::rlimit(40)]
#[verifier::spinoff_prover]
pub proof fn law_features_are_turned_off(o: OptionsModel)
    ensures
        with_features(o, seq!["legacy-compress"@]) == Ok::<OptionsModel, OptionError>(
            OptionsModel { compact_indexes: false, ..o },
        ),
        with_features(o, seq!["noinline_data"@]) == Ok::<OptionsModel, OptionError>(
            OptionsModel { inline_data: false, ..o },
        ),
        with_features(o, seq!["nosbcrc"@]) == Ok::<OptionsModel, OptionError>(
            OptionsModel { checksum: false, ..o },
        ),
{
    reveal_strlit("legacy-compress");
    reveal_strlit("noinline_data");
    reveal_strlit("nosbcrc");
    reveal_with_fuel(with_features, 2);
    assert("legacy-compress"@.len() == 15 && "noinline_data"@.len() == 13 && "nosbcrc"@.len() == 7);
    assert(seq!["legacy-compress"@].drop_last() =~= Seq::<Seq<char>>::empty());
    assert(seq!["noinline_data"@].drop_last() =~= Seq::<Seq<char>>::empty());
    assert(seq!["nosbcrc"@].drop_last() =~= Seq::<Seq<char>>::empty());
}

/// Features are applied one after another, as further extended options are, and
/// one that is not known is refused.
pub proof fn law_features_are_applied_in_turn(
    o: OptionsModel,
    features: Seq<Seq<char>>,
    feature: Seq<char>,
)
    requires
        with_features(o, features) is Ok,
    ensures
        with_features(o, features.push(feature)) == with_features(
            with_features(o, features)->Ok_0,
            seq![feature],
        ),
        feature != "legacy-compress"@ && feature != "noinline_data"@ && feature != "nosbcrc"@
            ==> with_features(o, features.push(feature)) is Err,
{
    reveal_with_fuel(with_features, 2);
    assert(features.push(feature).drop_last() =~= features);
    assert(seq![feature].drop_last() =~= Seq::<Seq<char>>::empty());
}

/// An option behind accepted arguments changes what those state: the last one of
/// a kind holds.
pub proof fn law_later_options_hold(before: Seq<Seq<char>>, key: Seq<char>, value: Seq<char>)
    requires
        stated(before, 0, default_options()) is Ok,
        takes_value(key),
    ensures
        stated(before + seq![key, value], 0, default_options()) == with_option(
            stated(before, 0, default_options())->Ok_0,
            key,
            value,
        ),
{
    let o = stated(before, 0, default_options())->Ok_0;
    let all = before + seq![key, value];
    let n = before.len() as int;
    lemma_value_keys(key);
    lemma_plain_key(key);
    lemma_stated_prefix(before, seq![key, value], 0, default_options());
    assert(all[n] == key && all[n + 1] == value);
    if let Ok(next) = with_option(o, key, value) {
        assert(stated(all, n + 2, next) == Ok::<OptionsModel, OptionError>(next));
    }
}

proof fn lemma_plain_key(key: Seq<char>)
    requires
        takes_value(key),
    ensures
        key_of(key) == Some((key, None::<Seq<char>>)),
{
    if text::begins_with(key, "--"@) {
        lemma_joined_key(key, seq![]);
    } else {
        lemma_joined_key(key, seq!['x']);
    }
}

/// Options are valid exactly where blocks have 512, 1024, 2048 or 4096 bytes, a
/// cluster is 1 to 2047 whole blocks of at most 1 MiB, the level of LZ4HC is 1 to
/// 12, the label has at most 16 bytes and no zero, and the mount point has
/// neither `.` nor `..` among its parts, nor a backslash or a zero.
pub proof fn law_valid_options(o: OptionsModel)
    ensures
        invalid(o) is None <==> {
            &&& o.block_size == 512 || o.block_size == 1024 || o.block_size == 2048 || o.block_size
                == 4096
            &&& o.block_size <= o.cluster_size <= 1_048_576
            &&& o.cluster_size % o.block_size == 0
            &&& o.cluster_size / o.block_size <= 2047
            &&& o.compression matches Compression::Lz4Hc { level } ==> 1 <= level <= 12
            &&& vstd::utf8::encode_utf8(o.volume_label).len() <= 16
            &&& !o.volume_label.contains('\0')
            &&& forall|i: int|
                0 <= i < text::split(o.mount_point, '/').len() ==> #[trigger] text::split(
                    o.mount_point,
                    '/',
                )[i] != "."@ && text::split(o.mount_point, '/')[i] != ".."@
            &&& !o.mount_point.contains('\\') && !o.mount_point.contains('\0')
        },
{
}

/// An identifier is written in 32 hexadecimal digits with dashes after 8, 12, 16
/// and 20 of them; every two digits are a byte, in their order.
pub proof fn law_identifiers_are_read(s: Seq<char>)
    requires
        uuid_of(s) is Some,
    ensures
        s.len() == 36,
        s[8] == '-' && s[13] == '-' && s[18] == '-' && s[23] == '-',
        ({
            let uuid = uuid_of(s)->0;
            let pair = |i: int| 16 * text::digit_value(s[i])->0 + text::digit_value(s[i + 1])->0;
            &&& uuid.len() == 16
            &&& uuid[0] == pair(0) && uuid[1] == pair(2) && uuid[2] == pair(4) && uuid[3] == pair(6)
            &&& uuid[4] == pair(9) && uuid[5] == pair(11)
            &&& uuid[6] == pair(14) && uuid[7] == pair(16)
            &&& uuid[8] == pair(19) && uuid[9] == pair(21)
            &&& uuid[10] == pair(24) && uuid[11] == pair(26) && uuid[12] == pair(28)
            &&& uuid[13] == pair(30) && uuid[14] == pair(32) && uuid[15] == pair(34)
        }),
{
    let d = uuid_digits(s);
    assert forall|i: int| 0 <= i < 32 implies text::is_digit_in(#[trigger] d[i], 16) by {}
    assert(d[0] == s[0] && d[1] == s[1] && d[2] == s[2] && d[3] == s[3]);
    assert(d[4] == s[4] && d[5] == s[5] && d[6] == s[6] && d[7] == s[7]);
    assert(d[8] == s[9] && d[9] == s[10] && d[10] == s[11] && d[11] == s[12]);
    assert(d[12] == s[14] && d[13] == s[15] && d[14] == s[16] && d[15] == s[17]);
    assert(d[16] == s[19] && d[17] == s[20] && d[18] == s[21] && d[19] == s[22]);
    assert(d[20] == s[24] && d[21] == s[25] && d[22] == s[26] && d[23] == s[27]);
    assert(d[24] == s[28] && d[25] == s[29] && d[26] == s[30] && d[27] == s[31]);
    assert(d[28] == s[32] && d[29] == s[33] && d[30] == s[34] && d[31] == s[35]);
}

} // verus!
