//! The metadata of the files of an image, and where it comes from.

use vstd::prelude::*;

use crate::bytes;
use crate::erofs::attributes;
use crate::erofs::build_options;
use crate::erofs::build_options::{BuildOptions, OptionsModel};
use crate::erofs::layout;
use crate::erofs::layout::{
    S_IFBLK, S_IFCHR, S_IFDIR, S_IFIFO, S_IFLNK, S_IFREG, S_IFSOCK,
};
use crate::oeminfo::payload::text_of;
use crate::shell;
use crate::text;

verus! {

/// What an image records of a file beside its data.
#[derive(Debug, Clone)]
pub struct EntryMetadata {
    pub mode: u32,
    pub uid: u32,
    pub gid: u32,
    pub mtime: u64,
    pub mtime_nsec: u32,
    pub rdev: u32,
    pub original_nid: Option<u64>,
    pub symlink: Option<String>,
    /// The extended attributes, by name.
    pub xattrs: Vec<(String, Vec<u8>)>,
}

/// Metadata of a file, with texts as character sequences and the attributes by
/// name.
#[verifier::ext_equal]
pub struct MetadataModel {
    pub mode: u32,
    pub uid: u32,
    pub gid: u32,
    pub mtime: u64,
    pub mtime_nsec: u32,
    pub rdev: u32,
    pub original_nid: Option<u64>,
    pub symlink: Option<Seq<char>>,
    pub xattrs: Map<Seq<char>, Seq<u8>>,
}

impl View for EntryMetadata {
    type V = MetadataModel;

    open spec fn view(&self) -> MetadataModel {
        MetadataModel {
            mode: self.mode,
            uid: self.uid,
            gid: self.gid,
            mtime: self.mtime,
            mtime_nsec: self.mtime_nsec,
            rdev: self.rdev,
            original_nid: self.original_nid,
            symlink: text_of(self.symlink),
            xattrs: attributes::as_map(self.xattrs@),
        }
    }
}

/// The metadata that was recorded when an image was extracted.
#[derive(Debug, Clone)]
pub struct MetadataManifest {
    pub version: u32,
    pub block_size: u32,
    pub uuid: [u8; 16],
    pub volume_label: String,
    pub build_time: u64,
    pub extraction_root: Option<String>,
    /// The metadata of each file, by path.
    pub entries: Vec<(String, EntryMetadata)>,
}

/// Why metadata cannot be used.
#[derive(Debug, Clone, Copy, PartialEq, Eq, Structural)]
pub enum MetadataError {
    UnsupportedVersion,
    InvalidPath,
    InvalidInode,
    ConfigQuoting,
    ConfigFields,
    ConfigMode,
    ConfigPermissions,
    ConfigCapabilities,
    ConfigUnknownField,
    ConfigUser,
    ConfigGroup,
    ContextFields,
    ContextType,
    ContextPattern,
    OwnershipOffset,
    TimeBeforeEpoch,
    DeviceNumber,
    MissingTarget,
}

// ---------------------------------------------------------------------------
// Recorded metadata
// ---------------------------------------------------------------------------

/// True for the paths that a manifest may hold.
pub open spec fn is_recorded_path(path: Seq<char>) -> bool {
    text::begins_with(path, "/"@) && !path.contains('\0') && !build_options::has_dot_component(path)
}

/// What is wrong with the entries of a manifest from `from` on, the first thing
/// that is.
pub open spec fn entries_error(entries: Seq<(String, EntryMetadata)>, from: int) -> Option<
    MetadataError,
>
    decreases entries.len() - from,
{
    if from < 0 || from >= entries.len() {
        None
    } else if !is_recorded_path(entries[from].0@) {
        Some(MetadataError::InvalidPath)
    } else if entries[from].1.mode > 0xffff || entries[from].1.mtime_nsec >= 1_000_000_000 {
        Some(MetadataError::InvalidInode)
    } else {
        entries_error(entries, from + 1)
    }
}

/// What is wrong with a manifest, the first thing that is.
pub open spec fn manifest_error(manifest: MetadataManifest) -> Option<MetadataError> {
    if manifest.version != 1 {
        Some(MetadataError::UnsupportedVersion)
    } else {
        entries_error(manifest.entries@, 0)
    }
}

impl MetadataManifest {
    /// Checks a manifest before it is used.
    pub fn check(&self) -> (valid: Result<(), MetadataError>)
        ensures
            match valid {
                Ok(()) => manifest_error(*self) is None,
                Err(error) => manifest_error(*self) == Some(error),
            },
    {
        if self.version != 1 {
            return Err(MetadataError::UnsupportedVersion);
        }
        let mut n: usize = 0;
        while n < self.entries.len()
            invariant
                n <= self.entries@.len(),
                self.version == 1,
                entries_error(self.entries@, 0) == entries_error(self.entries@, n as int),
            decreases self.entries@.len() - n,
        {
            let path = text::chars_of(self.entries[n].0.as_str());
            if !text::starts(path.as_slice(), "/") || text::contains_char(path.as_slice(), '\0')
                || build_options::dot_component(path.as_slice()) {
                return Err(MetadataError::InvalidPath);
            }
            if self.entries[n].1.mode > 0xffff || self.entries[n].1.mtime_nsec >= 1_000_000_000 {
                return Err(MetadataError::InvalidInode);
            }
            n += 1;
        }
        Ok(())
    }
}

/// The metadata that a manifest records of a path. Of two entries with one path
/// the later one counts.
pub open spec fn recorded(entries: Seq<(String, EntryMetadata)>, path: Seq<char>) -> Option<
    MetadataModel,
>
    decreases entries.len(),
{
    if entries.len() == 0 {
        None
    } else if entries.last().0@ == path {
        Some(entries.last().1@)
    } else {
        recorded(entries.drop_last(), path)
    }
}

fn find_recorded(entries: &Vec<(String, EntryMetadata)>, path: &str) -> (found: Option<usize>)
    ensures
        match found {
            Some(i) => i < entries@.len() && recorded(entries@, path@) == Some(
                entries@[i as int].1@,
            ),
            None => recorded(entries@, path@) is None,
        },
{
    let mut n: usize = entries.len();
    assert(entries@.take(n as int) =~= entries@);
    while n > 0
        invariant
            n <= entries@.len(),
            recorded(entries@, path@) == recorded(entries@.take(n as int), path@),
        decreases n,
    {
        assert(entries@.take(n as int).drop_last() =~= entries@.take(n - 1));
        if text::same_text(entries[n - 1].0.as_str(), path) {
            return Some(n - 1);
        }
        n -= 1;
    }
    None
}

// ---------------------------------------------------------------------------
// Owners, permissions and capabilities by path
// ---------------------------------------------------------------------------

/// What is configured for a path.
#[derive(Debug)]
pub struct FsConfig {
    pub path: String,
    pub uid: u32,
    pub gid: u32,
    pub mode: u32,
    pub capabilities: Option<u64>,
}

#[verifier::ext_equal]
pub struct ConfigModel {
    pub path: Seq<char>,
    pub uid: u32,
    pub gid: u32,
    pub mode: u32,
    pub capabilities: Option<u64>,
}

impl View for FsConfig {
    type V = ConfigModel;

    open spec fn view(&self) -> ConfigModel {
        ConfigModel {
            path: self.path@,
            uid: self.uid,
            gid: self.gid,
            mode: self.mode,
            capabilities: self.capabilities,
        }
    }
}

pub open spec fn config_models(list: Seq<FsConfig>) -> Seq<ConfigModel> {
    list.map_values(|c: FsConfig| c@)
}

/// The capabilities that a field states, in decimal or hexadecimal.
pub open spec fn capabilities_in(field: Seq<char>) -> Result<u64, MetadataError> {
    if !text::begins_with(field, "capabilities="@) {
        Err(MetadataError::ConfigUnknownField)
    } else {
        let value = field.skip("capabilities="@.len() as int);
        let number = if text::begins_with(value, "0x"@) || text::begins_with(value, "0X"@) {
            text::unsigned(value.skip(2), 16, u64::MAX as nat)
        } else {
            text::unsigned(value, 10, u64::MAX as nat)
        };
        match number {
            Some(bits) => Ok(bits as u64),
            None => Err(MetadataError::ConfigCapabilities),
        }
    }
}

/// The capabilities that the fields before `n` state, the last ones.
pub open spec fn capabilities_of(fields: Seq<Seq<char>>, n: int) -> Result<
    Option<u64>,
    MetadataError,
>
    decreases n,
{
    if n <= 4 {
        Ok(None)
    } else {
        match capabilities_of(fields, n - 1) {
            Err(error) => Err(error),
            Ok(_) => match capabilities_in(fields[n - 1]) {
                Err(error) => Err(error),
                Ok(bits) => Ok(Some(bits)),
            },
        }
    }
}

/// What a line of fields configures: a path, its owner and group, its
/// permissions, and its capabilities.
pub open spec fn config_of(fields: Seq<Seq<char>>) -> Result<ConfigModel, MetadataError> {
    if fields.len() < 4 {
        Err(MetadataError::ConfigFields)
    } else {
        match text::unsigned(fields[3], 8, u32::MAX as nat) {
            None => Err(MetadataError::ConfigMode),
            Some(mode) => if mode > 0xfff {
                Err(MetadataError::ConfigPermissions)
            } else {
                match capabilities_of(fields, fields.len() as int) {
                    Err(error) => Err(error),
                    Ok(capabilities) => match text::unsigned(fields[1], 10, u32::MAX as nat) {
                        None => Err(MetadataError::ConfigUser),
                        Some(uid) => match text::unsigned(fields[2], 10, u32::MAX as nat) {
                            None => Err(MetadataError::ConfigGroup),
                            Some(gid) => Ok(
                                ConfigModel {
                                    path: text::stripped(fields[0], '/'),
                                    uid: uid as u32,
                                    gid: gid as u32,
                                    mode: mode as u32,
                                    capabilities,
                                },
                            ),
                        },
                    },
                }
            },
        }
    }
}

/// What the first `n` lines configure.
pub open spec fn configs(lines: Seq<Seq<char>>, n: int) -> Result<Seq<ConfigModel>, MetadataError>
    decreases n,
{
    if n <= 0 {
        Ok(seq![])
    } else {
        match configs(lines, n - 1) {
            Err(error) => Err(error),
            Ok(before) => match shell::shell_words(lines[n - 1]) {
                None => Err(MetadataError::ConfigQuoting),
                Some(fields) => if fields.len() == 0 {
                    Ok(before)
                } else {
                    match config_of(fields) {
                        Err(error) => Err(error),
                        Ok(config) => Ok(before.push(config)),
                    }
                },
            },
        }
    }
}

proof fn lemma_configs_fail(lines: Seq<Seq<char>>, n: int, m: int)
    requires
        0 <= n <= m,
        configs(lines, n) is Err,
    ensures
        configs(lines, m) == configs(lines, n),
    decreases m,
{
    if n < m {
        lemma_configs_fail(lines, n, m - 1);
    }
}

fn read_capabilities(field: &[char]) -> (bits: Result<u64, MetadataError>)
    ensures
        bits == capabilities_in(field@),
{
    if !text::starts(field, "capabilities=") {
        return Err(MetadataError::ConfigUnknownField);
    }
    proof {
        reveal_strlit("capabilities=");
        reveal_strlit("0x");
        reveal_strlit("0X");
    }
    let value = &field[13..field.len()];
    assert(value@ =~= field@.skip("capabilities="@.len() as int));
    let number = if text::starts(value, "0x") || text::starts(value, "0X") {
        let digits = &value[2..value.len()];
        assert(digits@ =~= value@.skip(2));
        text::parse_unsigned(digits, 16, u64::MAX)
    } else {
        text::parse_unsigned(value, 10, u64::MAX)
    };
    match number {
        Some(bits) => Ok(bits),
        None => Err(MetadataError::ConfigCapabilities),
    }
}

/// Reads what a line of fields configures.
pub fn parse_config(fields: &Vec<String>) -> (config: Result<FsConfig, MetadataError>)
    ensures
        match config {
            Ok(found) => config_of(text::texts(fields@)) == Ok::<ConfigModel, MetadataError>(
                found@,
            ),
            Err(error) => config_of(text::texts(fields@)) == Err::<ConfigModel, MetadataError>(
                error,
            ),
        },
{
    let ghost all = text::texts(fields@);
    if fields.len() < 4 {
        return Err(MetadataError::ConfigFields);
    }
    let mode: u64 = match text::parse_unsigned(
        text::chars_of(fields[3].as_str()).as_slice(),
        8,
        0xffff_ffff,
    ) {
        Some(mode) => mode,
        None => {
            return Err(MetadataError::ConfigMode);
        },
    };
    assert(all[3] == fields@[3]@);
    if mode > 0xfff {
        return Err(MetadataError::ConfigPermissions);
    }
    let mut capabilities: Option<u64> = None;
    let mut n: usize = 4;
    while n < fields.len()
        invariant
            4 <= n <= fields@.len(),
            all == text::texts(fields@),
            text::unsigned(all[3], 8, u32::MAX as nat) == Some(mode as nat),
            mode <= 0xfff,
            capabilities_of(all, n as int) == Ok::<Option<u64>, MetadataError>(capabilities),
        decreases fields@.len() - n,
    {
        let field = text::chars_of(fields[n].as_str());
        assert(all[n as int] == field@);
        match read_capabilities(field.as_slice()) {
            Ok(bits) => {
                capabilities = Some(bits);
            },
            Err(error) => {
                proof {
                    lemma_capabilities_fail(all, n + 1, all.len() as int);
                }
                return Err(error);
            },
        }
        n += 1;
    }
    let uid: u64 = match text::parse_unsigned(
        text::chars_of(fields[1].as_str()).as_slice(),
        10,
        0xffff_ffff,
    ) {
        Some(uid) => uid,
        None => {
            return Err(MetadataError::ConfigUser);
        },
    };
    let gid: u64 = match text::parse_unsigned(
        text::chars_of(fields[2].as_str()).as_slice(),
        10,
        0xffff_ffff,
    ) {
        Some(gid) => gid,
        None => {
            return Err(MetadataError::ConfigGroup);
        },
    };
    let path = text::string_of(text::strip(text::chars_of(fields[0].as_str()).as_slice(), '/'));
    Ok(
        FsConfig {
            path,
            uid: uid as u32,
            gid: gid as u32,
            mode: mode as u32,
            capabilities,
        },
    )
}

proof fn lemma_capabilities_fail(fields: Seq<Seq<char>>, n: int, m: int)
    requires
        n <= m,
        capabilities_of(fields, n) is Err,
    ensures
        capabilities_of(fields, m) == capabilities_of(fields, n),
    decreases m,
{
    if n < m {
        lemma_capabilities_fail(fields, n, m - 1);
    }
}

/// Reads what a file configures, line by line.
pub fn parse_configs(content: &str) -> (list: Result<Vec<FsConfig>, MetadataError>)
    ensures
        ({
            let lines = text::lines(content@);
            match list {
                Ok(found) => configs(lines, lines.len() as int) == Ok::<
                    Seq<ConfigModel>,
                    MetadataError,
                >(config_models(found@)),
                Err(error) => configs(lines, lines.len() as int) == Err::<
                    Seq<ConfigModel>,
                    MetadataError,
                >(error),
            }
        }),
{
    let ghost all = text::lines(content@);
    let lines = text::split_lines(text::chars_of(content).as_slice());
    let mut list: Vec<FsConfig> = Vec::new();
    let mut n: usize = 0;
    assert(config_models(list@) =~= Seq::<ConfigModel>::empty());
    while n < lines.len()
        invariant
            n <= lines@.len(),
            all == text::lines(content@),
            text::pieces(lines@) == all,
            configs(all, n as int) == Ok::<Seq<ConfigModel>, MetadataError>(config_models(list@)),
        decreases lines@.len() - n,
    {
        assert(all[n as int] == lines@[n as int]@);
        let line = text::string_of(lines[n].as_slice());
        let fields = match shell::split_shell(line.as_str()) {
            Some(fields) => fields,
            None => {
                proof {
                    lemma_configs_fail(all, n + 1, all.len() as int);
                }
                return Err(MetadataError::ConfigQuoting);
            },
        };
        if fields.len() > 0 {
            match parse_config(&fields) {
                Ok(config) => {
                    let ghost before = config_models(list@);
                    let ghost model = config@;
                    list.push(config);
                    assert(config_models(list@) =~= before.push(model));
                },
                Err(error) => {
                    proof {
                        lemma_configs_fail(all, n + 1, all.len() as int);
                    }
                    return Err(error);
                },
            }
        }
        n += 1;
    }
    Ok(list)
}

/// What is configured for a path. A later line replaces an earlier one.
pub open spec fn config_for(list: Seq<ConfigModel>, path: Seq<char>) -> Option<ConfigModel>
    decreases list.len(),
{
    if list.len() == 0 {
        None
    } else if list.last().path == path {
        Some(list.last())
    } else {
        config_for(list.drop_last(), path)
    }
}

fn find_config(list: &Vec<FsConfig>, path: &[char]) -> (found: Option<usize>)
    ensures
        match found {
            Some(i) => i < list@.len() && config_for(config_models(list@), path@) == Some(
                list@[i as int]@,
            ),
            None => config_for(config_models(list@), path@) is None,
        },
{
    let ghost all = config_models(list@);
    let mut n: usize = list.len();
    assert(all.take(n as int) =~= all);
    while n > 0
        invariant
            n <= list@.len(),
            all == config_models(list@),
            config_for(all, path@) == config_for(all.take(n as int), path@),
        decreases n,
    {
        assert(all.take(n as int).drop_last() =~= all.take(n - 1));
        if text::is_text(path, list[n - 1].path.as_str()) {
            return Some(n - 1);
        }
        n -= 1;
    }
    None
}

// ---------------------------------------------------------------------------
// Security labels by pattern
// ---------------------------------------------------------------------------

/// A compiled pattern.
#[verifier::external_type_specification]
#[verifier::external_body]
pub struct ExRegex(regex::Regex);

/// The text that a compiled pattern was made of.
pub uninterp spec fn pattern_of(regex: regex::Regex) -> Seq<char>;

/// True when a pattern matches somewhere in a text.
pub uninterp spec fn pattern_matches(pattern: Seq<char>, haystack: Seq<char>) -> bool;

/// `regex::Regex::new`. A compiled pattern keeps the text it was made of. Which
/// patterns compile is left open: it depends on a limit on their size in memory.
#[verifier::external_body]
fn compile(pattern: &str) -> (compiled: Option<regex::Regex>)
    ensures
        match compiled {
            Some(regex) => pattern_of(regex) == pattern@,
            None => true,
        },
{
    regex::Regex::new(pattern).ok()
}

/// `regex::Regex::is_match`. Whether there is a match has a name, over the text
/// of the pattern.
#[verifier::external_body]
fn is_match(regex: &regex::Regex, haystack: &str) -> (is: bool)
    ensures
        is == pattern_matches(pattern_of(*regex), haystack@),
{
    regex.is_match(haystack)
}

/// The label of the files that a pattern matches, and that are of one kind.
pub struct FileContext {
    pub regex: regex::Regex,
    pub format: Option<u32>,
    pub label: String,
}

#[verifier::ext_equal]
pub struct ContextModel {
    pub pattern: Seq<char>,
    pub format: Option<u32>,
    pub label: Seq<char>,
}

impl View for FileContext {
    type V = ContextModel;

    open spec fn view(&self) -> ContextModel {
        ContextModel {
            pattern: pattern_of(self.regex),
            format: self.format,
            label: self.label@,
        }
    }
}

pub open spec fn context_models(list: Seq<FileContext>) -> Seq<ContextModel> {
    list.map_values(|c: FileContext| c@)
}

/// The kind of file that a field names.
pub open spec fn format_in(field: Seq<char>) -> Option<u32> {
    if field == "--"@ {
        Some(S_IFREG)
    } else if field == "-d"@ {
        Some(S_IFDIR)
    } else if field == "-l"@ {
        Some(S_IFLNK)
    } else if field == "-c"@ {
        Some(S_IFCHR)
    } else if field == "-b"@ {
        Some(S_IFBLK)
    } else if field == "-p"@ {
        Some(S_IFIFO)
    } else if field == "-s"@ {
        Some(S_IFSOCK)
    } else {
        None
    }
}

/// The part of a line that counts.
pub open spec fn context_text(line: Seq<char>) -> Seq<char> {
    text::trimmed(text::stripped(line, '\0'))
}

/// What a line says: nothing where it is empty or a comment, else a pattern, a
/// kind of file where there are three fields, and a label.
pub open spec fn context_of(line: Seq<char>) -> Result<Option<ContextModel>, MetadataError> {
    let rest = context_text(line);
    let fields = text::words(rest);
    if rest.len() == 0 || text::begins_with(rest, "#"@) {
        Ok(None)
    } else if fields.len() != 2 && fields.len() != 3 {
        Err(MetadataError::ContextFields)
    } else if fields.len() == 3 && format_in(fields[1]) is None {
        Err(MetadataError::ContextType)
    } else {
        Ok(
            Some(
                ContextModel {
                    pattern: "^(?:"@ + fields[0] + ")$"@,
                    format: if fields.len() == 3 {
                        format_in(fields[1])
                    } else {
                        None
                    },
                    label: text::stripped_end(fields.last(), '\0'),
                },
            ),
        )
    }
}

/// What the first `n` lines say.
pub open spec fn contexts(lines: Seq<Seq<char>>, n: int) -> Result<Seq<ContextModel>, MetadataError>
    decreases n,
{
    if n <= 0 {
        Ok(seq![])
    } else {
        match contexts(lines, n - 1) {
            Err(error) => Err(error),
            Ok(before) => match context_of(lines[n - 1]) {
                Err(error) => Err(error),
                Ok(None) => Ok(before),
                Ok(Some(context)) => Ok(before.push(context)),
            },
        }
    }
}

proof fn lemma_contexts_fail(lines: Seq<Seq<char>>, n: int, m: int)
    requires
        0 <= n <= m,
        contexts(lines, n) is Err,
    ensures
        contexts(lines, m) == contexts(lines, n),
    decreases m,
{
    if n < m {
        lemma_contexts_fail(lines, n, m - 1);
    }
}

fn read_format(field: &[char]) -> (format: Option<u32>)
    ensures
        format == format_in(field@),
{
    if text::is_text(field, "--") {
        Some(S_IFREG)
    } else if text::is_text(field, "-d") {
        Some(S_IFDIR)
    } else if text::is_text(field, "-l") {
        Some(S_IFLNK)
    } else if text::is_text(field, "-c") {
        Some(S_IFCHR)
    } else if text::is_text(field, "-b") {
        Some(S_IFBLK)
    } else if text::is_text(field, "-p") {
        Some(S_IFIFO)
    } else if text::is_text(field, "-s") {
        Some(S_IFSOCK)
    } else {
        None
    }
}

/// Reads one line. A pattern that does not compile is an error of its own.
pub fn parse_context(line: &[char]) -> (context: Result<Option<FileContext>, MetadataError>)
    ensures
        match context {
            Ok(Some(found)) => context_of(line@) == Ok::<Option<ContextModel>, MetadataError>(
                Some(found@),
            ),
            Ok(None) => context_of(line@) == Ok::<Option<ContextModel>, MetadataError>(None),
            Err(MetadataError::ContextPattern) => context_of(line@) matches Ok(Some(_)),
            Err(error) => context_of(line@) == Err::<Option<ContextModel>, MetadataError>(error),
        },
{
    let rest = text::trim(text::strip(line, '\0'));
    if rest.len() == 0 || text::starts(rest, "#") {
        return Ok(None);
    }
    let fields = text::split_words(rest);
    let ghost all = text::words(rest@);
    assert(all.len() == fields@.len());
    if fields.len() != 2 && fields.len() != 3 {
        return Err(MetadataError::ContextFields);
    }
    assert(all[0] == fields@[0]@);
    assert(all[1] == fields@[1]@);
    assert(all.last() == fields@.last()@);
    let mut format: Option<u32> = None;
    if fields.len() == 3 {
        format = read_format(fields[1].as_slice());
        if format.is_none() {
            return Err(MetadataError::ContextType);
        }
    }
    let mut pattern: Vec<char> = Vec::new();
    text::append_text(&mut pattern, "^(?:");
    text::append_chars(&mut pattern, fields[0].as_slice());
    text::append_text(&mut pattern, ")$");
    let written = text::string_of(pattern.as_slice());
    assert(written@ =~= "^(?:"@ + all[0] + ")$"@);
    let label = text::string_of(text::strip_end(fields[fields.len() - 1].as_slice(), '\0'));
    match compile(written.as_str()) {
        Some(regex) => Ok(Some(FileContext { regex, format, label })),
        None => Err(MetadataError::ContextPattern),
    }
}

/// True when the pattern of some line could not be compiled, and the lines
/// before it could be read.
pub open spec fn has_pattern(lines: Seq<Seq<char>>) -> bool {
    exists|n: int|
        0 <= n < lines.len() && (#[trigger] contexts(lines, n)) is Ok && context_of(
            lines[n],
        ) matches Ok(Some(_))
}

/// Reads the labels of a file, line by line.
pub fn parse_contexts(content: &str) -> (list: Result<Vec<FileContext>, MetadataError>)
    ensures
        ({
            let lines = text::lines(content@);
            match list {
                Ok(found) => contexts(lines, lines.len() as int) == Ok::<
                    Seq<ContextModel>,
                    MetadataError,
                >(context_models(found@)),
                Err(MetadataError::ContextPattern) => has_pattern(lines),
                Err(error) => contexts(lines, lines.len() as int) == Err::<
                    Seq<ContextModel>,
                    MetadataError,
                >(error),
            }
        }),
{
    let ghost all = text::lines(content@);
    let lines = text::split_lines(text::chars_of(content).as_slice());
    let mut list: Vec<FileContext> = Vec::new();
    let mut n: usize = 0;
    assert(context_models(list@) =~= Seq::<ContextModel>::empty());
    while n < lines.len()
        invariant
            n <= lines@.len(),
            all == text::lines(content@),
            text::pieces(lines@) == all,
            contexts(all, n as int) == Ok::<Seq<ContextModel>, MetadataError>(
                context_models(list@),
            ),
        decreases lines@.len() - n,
    {
        assert(all[n as int] == lines@[n as int]@);
        match parse_context(lines[n].as_slice()) {
            Ok(Some(context)) => {
                let ghost before = context_models(list@);
                let ghost model = context@;
                list.push(context);
                assert(context_models(list@) =~= before.push(model));
            },
            Ok(None) => {},
            Err(error) => {
                proof {
                    if error != MetadataError::ContextPattern {
                        lemma_contexts_fail(all, n + 1, all.len() as int);
                    } else {
                        assert(contexts(all, n as int) is Ok);
                        assert(has_pattern(all));
                    }
                }
                return Err(error);
            },
        }
        n += 1;
    }
    Ok(list)
}

// ---------------------------------------------------------------------------
// Resolving
// ---------------------------------------------------------------------------

/// Where the metadata of files comes from: the build options, recorded
/// metadata, and what is configured by path and by pattern.
pub struct MetadataResolver {
    pub options: BuildOptions,
    pub manifest: Option<MetadataManifest>,
    pub config: Vec<FsConfig>,
    pub contexts: Vec<FileContext>,
}

/// An identifier with an offset, where it stays in range.
pub open spec fn adjusted(id: u32, offset: i64) -> Option<u32> {
    if 0 <= id + offset <= u32::MAX {
        Some((id + offset) as u32)
    } else {
        None
    }
}

pub fn adjusted_id(id: u32, offset: i64) -> (result: Result<u32, MetadataError>)
    ensures
        match result {
            Ok(found) => adjusted(id, offset) == Some(found),
            Err(error) => adjusted(id, offset) is None && error == MetadataError::OwnershipOffset,
        },
{
    let sum: i128 = id as i128 + offset as i128;
    if sum < 0 || sum > 0xffff_ffff {
        return Err(MetadataError::OwnershipOffset);
    }
    Ok(sum as u32)
}

/// The permitted capabilities that the value of an attribute states, in any of
/// its three versions.
pub open spec fn bits_of(value: Seq<u8>) -> Option<int> {
    let low = bytes::le32(value, 4);
    if value.len() < 12 {
        None
    } else if value[3] == 1 && value.len() == 12 {
        Some(low)
    } else if (value[3] == 2 || value[3] == 3) && (value.len() == 20 || value.len() == 24) {
        Some(low + 0x1_0000_0000 * bytes::le32(value, 12))
    } else {
        None
    }
}

pub fn capability_bits(value: &[u8]) -> (bits: Option<u64>)
    ensures
        match bits {
            Some(found) => bits_of(value@) == Some(found as int),
            None => bits_of(value@) is None,
        },
{
    if value.len() < 12 {
        return None;
    }
    let low: u64 = bytes::read_u32(value, 4) as u64;
    if value[3] == 1 && value.len() == 12 {
        return Some(low);
    }
    if (value[3] == 2 || value[3] == 3) && (value.len() == 20 || value.len() == 24) {
        let high: u64 = bytes::read_u32(value, 12) as u64;
        return Some(low + 0x1_0000_0000 * high);
    }
    None
}

/// The value of an attribute that states the given capabilities.
pub open spec fn capability_value(bits: u64) -> Seq<u8> {
    bytes::bytes32(0x0200_0001) + bytes::bytes32(bits as int % 0x1_0000_0000) + bytes::filled(0, 4)
        + bytes::bytes32(bits as int / 0x1_0000_0000) + bytes::filled(0, 4)
}

/// The attribute that is written for capabilities states them.
pub proof fn law_capabilities_read_back(bits: u64)
    ensures
        bits_of(capability_value(bits)) == Some(bits as int),
{
    let value = capability_value(bits);
    let low = bits as int % 0x1_0000_0000;
    let high = bits as int / 0x1_0000_0000;
    bytes::lemma_bytes32(low);
    bytes::lemma_bytes32(high);
    bytes::lemma_bytes32(0x0200_0001);
    assert(value.len() == 20);
    assert(value[3] == bytes::bytes32(0x0200_0001)[3]);
    assert forall|k: int| 0 <= k < 4 implies value[4 + k] == bytes::bytes32(low)[k] && value[12 + k]
        == bytes::bytes32(high)[k] by {}
    assert(bytes::le32(value, 4) == bytes::le32(bytes::bytes32(low), 0));
    assert(bytes::le32(value, 12) == bytes::le32(bytes::bytes32(high), 0));
}

fn write_capability(bits: u64) -> (value: Vec<u8>)
    ensures
        value@ == capability_value(bits),
{
    let mut value: Vec<u8> = Vec::new();
    bytes::push_u32(&mut value, 0x0200_0001);
    bytes::push_u32(&mut value, (bits % 0x1_0000_0000) as u32);
    bytes::push_filled(&mut value, 0, 4);
    bytes::push_u32(&mut value, (bits / 0x1_0000_0000) as u32);
    bytes::push_filled(&mut value, 0, 4);
    assert(value@ =~= capability_value(bits));
    value
}

/// The path of a file below the mount point, without slashes at its ends.
pub open spec fn mounted_path(mount_point: Seq<char>, relative: Seq<char>) -> Seq<char> {
    text::stripped(
        "/"@ + mount_point + "/"@ + text::stripped_start(relative, '/'),
        '/',
    )
}

/// True when metadata was recorded for a path, of a file of the kind that the
/// mode states.
pub open spec fn has_original(
    manifest: Option<MetadataManifest>,
    relative: Seq<char>,
    mode: u32,
) -> bool {
    manifest matches Some(m) && (recorded(m.entries@, relative) matches Some(e)
        && layout::format_of(e.mode) == layout::format_of(mode))
}

/// The recorded metadata of a file, where it is of the kind that the file has.
pub open spec fn original_of(
    manifest: Option<MetadataManifest>,
    relative: Seq<char>,
    host: MetadataModel,
) -> Option<MetadataModel> {
    match manifest {
        None => None,
        Some(m) => match recorded(m.entries@, relative) {
            Some(e) if layout::format_of(e.mode) == layout::format_of(host.mode) => Some(e),
            _ => None,
        },
    }
}

/// The metadata that a file starts with: what was recorded of it, or what it
/// has itself. The target of a link is that of the file.
pub open spec fn initial_metadata(
    options: OptionsModel,
    original: Option<MetadataModel>,
    host: MetadataModel,
    target: Option<Seq<char>>,
) -> Result<MetadataModel, MetadataError> {
    let first = match original {
        Some(e) => e,
        None => MetadataModel {
            xattrs: if options.no_xattrs {
                Map::empty()
            } else {
                host.xattrs
            },
            ..host
        },
    };
    if !layout::is_lnk(first.mode) {
        Ok(first)
    } else if target is None {
        Err(MetadataError::MissingTarget)
    } else {
        Ok(MetadataModel { symlink: target, ..first })
    }
}

pub open spec fn capability_name() -> Seq<char> {
    "security.capability"@
}

pub open spec fn label_name() -> Seq<char> {
    "security.selinux"@
}

/// The attributes with the capabilities that are configured. Where none are
/// configured, those of a file that was not recorded go.
pub open spec fn with_capabilities(
    xattrs: Map<Seq<char>, Seq<u8>>,
    capabilities: Option<u64>,
    is_original: bool,
) -> Map<Seq<char>, Seq<u8>> {
    match capabilities {
        Some(bits) => if bits == 0 {
            xattrs.remove(capability_name())
        } else if xattrs.contains_key(capability_name()) && bits_of(xattrs[capability_name()])
            == Some(bits as int) {
            xattrs
        } else {
            xattrs.insert(capability_name(), capability_value(bits))
        },
        None => if is_original {
            xattrs
        } else {
            xattrs.remove(capability_name())
        },
    }
}

/// The metadata with what is configured for the path.
pub open spec fn configured(e: MetadataModel, config: Option<ConfigModel>, is_original: bool) -> MetadataModel {
    match config {
        None => e,
        Some(c) => MetadataModel {
            uid: c.uid,
            gid: c.gid,
            mode: (layout::format_of(e.mode) + c.mode) as u32,
            xattrs: with_capabilities(e.xattrs, c.capabilities, is_original),
            ..e
        },
    }
}

/// True when a label is meant for a file of the given kind and paths.
pub open spec fn applies(c: ContextModel, format: u32, mounted: Seq<char>, relative: Seq<char>) -> bool {
    &&& c.format matches Some(wanted) ==> wanted == format
    &&& pattern_matches(c.pattern, "/"@ + mounted) || pattern_matches(c.pattern, relative)
}

/// The label that is meant for a file, the last one of the first `n`.
pub open spec fn context_for(
    list: Seq<ContextModel>,
    format: u32,
    mounted: Seq<char>,
    relative: Seq<char>,
    n: int,
) -> Option<ContextModel>
    decreases n,
{
    if n <= 0 {
        None
    } else if applies(list[n - 1], format, mounted, relative) {
        Some(list[n - 1])
    } else {
        context_for(list, format, mounted, relative, n - 1)
    }
}

/// A value without the zeros that it ends with.
pub open spec fn without_zeros(value: Seq<u8>) -> Seq<u8>
    decreases value.len(),
{
    if value.len() > 0 && value.last() == 0 {
        without_zeros(value.drop_last())
    } else {
        value
    }
}

/// The attributes with a label. One that differs only in zeros at its end stays
/// as it is.
pub open spec fn labelled(xattrs: Map<Seq<char>, Seq<u8>>, context: Option<ContextModel>) -> Map<
    Seq<char>,
    Seq<u8>,
> {
    match context {
        None => xattrs,
        Some(c) => {
            let label = vstd::utf8::encode_utf8(c.label);
            if c.label == "<<none>>"@ {
                xattrs.remove(label_name())
            } else if xattrs.contains_key(label_name()) && without_zeros(xattrs[label_name()])
                == label {
                xattrs
            } else {
                xattrs.insert(label_name(), label)
            }
        },
    }
}

/// The times of a file: those of the options, unless times are preserved and,
/// for a file that was not recorded, not later than the options say.
pub open spec fn timed(options: OptionsModel, e: MetadataModel, is_original: bool) -> MetadataModel {
    if !options.preserve_mtime {
        MetadataModel {
            mtime: match options.timestamp {
                Some(time) => time,
                None => 0,
            },
            mtime_nsec: 0,
            ..e
        }
    } else if !is_original && (options.timestamp matches Some(time) && e.mtime >= time) {
        MetadataModel { mtime: options.timestamp->0, mtime_nsec: 0, ..e }
    } else {
        e
    }
}

/// The metadata with the owner and the group that the options ask for.
pub open spec fn owned(options: OptionsModel, e: MetadataModel) -> Result<
    MetadataModel,
    MetadataError,
> {
    let uid = match options.force_uid {
        Some(id) => id,
        None => e.uid,
    };
    let gid = match options.force_gid {
        Some(id) => id,
        None => e.gid,
    };
    match (adjusted(uid, options.uid_offset), adjusted(gid, options.gid_offset)) {
        (Some(uid), Some(gid)) => Ok(MetadataModel { uid, gid, ..e }),
        _ => Err(MetadataError::OwnershipOffset),
    }
}

/// What is configured for a file: by its path below the mount point, else by
/// its path in the image.
pub open spec fn configuration(list: Seq<ConfigModel>, mounted: Seq<char>, relative: Seq<char>) -> Option<
    ConfigModel,
> {
    match config_for(list, mounted) {
        Some(c) => Some(c),
        None => config_for(list, text::stripped(relative, '/')),
    }
}

/// The metadata that an image records of a file.
pub open spec fn resolved(
    options: OptionsModel,
    manifest: Option<MetadataManifest>,
    config: Seq<ConfigModel>,
    contexts: Seq<ContextModel>,
    relative: Seq<char>,
    host: MetadataModel,
    target: Option<Seq<char>>,
) -> Result<MetadataModel, MetadataError> {
    let original = original_of(manifest, relative, host);
    let mounted = mounted_path(options.mount_point, relative);
    match initial_metadata(options, original, host, target) {
        Err(error) => Err(error),
        Ok(first) => {
            let second = configured(
                first,
                configuration(config, mounted, relative),
                original is Some,
            );
            let context = context_for(
                contexts,
                layout::format_of(second.mode),
                mounted,
                relative,
                contexts.len() as int,
            );
            let third = MetadataModel { xattrs: labelled(second.xattrs, context), ..second };
            match owned(options, third) {
                Err(error) => Err(error),
                Ok(fourth) => Ok(timed(options, fourth, original is Some)),
            }
        },
    }
}

fn trim_zeros(value: &[u8]) -> (rest: &[u8])
    ensures
        rest@ == without_zeros(value@),
{
    let mut n: usize = value.len();
    assert(value@.take(n as int) =~= value@);
    while n > 0 && value[n - 1] == 0
        invariant
            n <= value@.len(),
            without_zeros(value@) == without_zeros(value@.take(n as int)),
        decreases n,
    {
        assert(value@.take(n as int).drop_last() =~= value@.take(n - 1));
        n -= 1;
    }
    assert(value@.subrange(0, n as int) =~= value@.take(n as int));
    &value[0..n]
}

fn copy_text(value: &Option<String>) -> (copy: Option<String>)
    ensures
        text_of(copy) == text_of(*value),
{
    match value {
        Some(text) => Some(text.clone()),
        None => None,
    }
}

fn copy_metadata(e: &EntryMetadata) -> (copy: EntryMetadata)
    ensures
        copy@ == e@,
        attributes::is_ordered(copy.xattrs@),
{
    EntryMetadata {
        mode: e.mode,
        uid: e.uid,
        gid: e.gid,
        mtime: e.mtime,
        mtime_nsec: e.mtime_nsec,
        rdev: e.rdev,
        original_nid: e.original_nid,
        symlink: copy_text(&e.symlink),
        xattrs: attributes::ordered(&e.xattrs),
    }
}

/// The metadata of a file of the source tree, as the system states it. The
/// attributes come in any order.
pub fn host_entry(
    mode: u32,
    uid: u32,
    gid: u32,
    mtime: i64,
    mtime_nsec: u32,
    rdev: u64,
    xattrs: Vec<(String, Vec<u8>)>,
) -> (entry: Result<EntryMetadata, MetadataError>)
    ensures
        match entry {
            Ok(e) => {
                &&& mtime >= 0
                &&& rdev <= u32::MAX
                &&& e@ == (MetadataModel {
                    mode,
                    uid,
                    gid,
                    mtime: mtime as u64,
                    mtime_nsec,
                    rdev: rdev as u32,
                    original_nid: None,
                    symlink: None,
                    xattrs: attributes::as_map(xattrs@),
                })
                &&& attributes::is_ordered(e.xattrs@)
            },
            Err(error) => if mtime < 0 {
                error == MetadataError::TimeBeforeEpoch
            } else {
                error == MetadataError::DeviceNumber && rdev > u32::MAX
            },
        },
{
    if mtime < 0 {
        return Err(MetadataError::TimeBeforeEpoch);
    }
    if rdev > 0xffff_ffff {
        return Err(MetadataError::DeviceNumber);
    }
    Ok(
        EntryMetadata {
            mode,
            uid,
            gid,
            mtime: mtime as u64,
            mtime_nsec,
            rdev: rdev as u32,
            original_nid: None,
            symlink: None,
            xattrs: attributes::ordered(&xattrs),
        },
    )
}

fn apply_config(e: &mut EntryMetadata, config: &FsConfig, is_original: bool)
    requires
        attributes::is_ordered(old(e).xattrs@),
        config.mode <= 0xfff,
    ensures
        attributes::is_ordered(final(e).xattrs@),
        final(e)@ == configured(old(e)@, Some(config@), is_original),
{
    e.uid = config.uid;
    e.gid = config.gid;
    e.mode = layout::file_format(e.mode) + config.mode;
    match config.capabilities {
        Some(bits) => {
            if bits == 0 {
                attributes::unset(&mut e.xattrs, "security.capability");
            } else {
                let known = match attributes::find(&e.xattrs, "security.capability") {
                    Some(i) => match capability_bits(e.xattrs[i].1.as_slice()) {
                        Some(found) => found == bits,
                        None => false,
                    },
                    None => false,
                };
                if !known {
                    attributes::set(&mut e.xattrs, "security.capability", write_capability(bits));
                }
            }
        },
        None => {
            if !is_original {
                attributes::unset(&mut e.xattrs, "security.capability");
            }
        },
    }
    assert(e@ =~= configured(old(e)@, Some(config@), is_original));
}

fn apply_label(xattrs: &mut Vec<(String, Vec<u8>)>, context: &FileContext)
    requires
        attributes::is_ordered(old(xattrs)@),
    ensures
        attributes::is_ordered(final(xattrs)@),
        attributes::as_map(final(xattrs)@) == labelled(
            attributes::as_map(old(xattrs)@),
            Some(context@),
        ),
{
    if text::same_text(context.label.as_str(), "<<none>>") {
        attributes::unset(xattrs, "security.selinux");
        return ;
    }
    let label = context.label.as_str().as_bytes();
    let known = match attributes::find(xattrs, "security.selinux") {
        Some(i) => bytes::same_bytes(trim_zeros(xattrs[i].1.as_slice()), label),
        None => false,
    };
    if !known {
        let value = bytes::copy_range(label, 0, label.len());
        assert(value@ =~= label@);
        attributes::set(xattrs, "security.selinux", value);
    }
}

/// What is wrong with recorded metadata, or else with configured metadata.
pub open spec fn early_error(
    manifest: Option<MetadataManifest>,
    fs_config: Option<&str>,
) -> Option<MetadataError> {
    match (manifest, fs_config) {
        (Some(m), _) if manifest_error(m) is Some => manifest_error(m),
        (_, Some(content)) => {
            let lines = text::lines(content@);
            match configs(lines, lines.len() as int) {
                Ok(_) => None,
                Err(error) => Some(error),
            }
        },
        _ => None,
    }
}

impl MetadataResolver {
    /// Puts together where metadata comes from: the texts are the contents of
    /// the files that the options name.
    pub fn load(
        options: BuildOptions,
        manifest: Option<MetadataManifest>,
        fs_config: Option<&str>,
        file_contexts: Option<&str>,
    ) -> (resolver: Result<MetadataResolver, MetadataError>)
        ensures
            match resolver {
                Ok(r) => {
                    &&& r.options == options
                    &&& r.manifest == manifest
                    &&& early_error(manifest, fs_config) is None
                    &&& r.has_config(fs_config)
                    &&& r.has_contexts(file_contexts)
                    &&& r.is_valid()
                },
                Err(error) => match early_error(manifest, fs_config) {
                    Some(early) => error == early,
                    None => file_contexts matches Some(content) && ({
                        let lines = text::lines(content@);
                        ||| contexts(lines, lines.len() as int) == Err::<
                            Seq<ContextModel>,
                            MetadataError,
                        >(error)
                        ||| error == MetadataError::ContextPattern && has_pattern(lines)
                    }),
                },
            },
    {
        if let Some(m) = &manifest {
            if let Err(error) = m.check() {
                return Err(error);
            }
        }
        let mut config: Vec<FsConfig> = Vec::new();
        assert(config_models(config@) =~= Seq::<ConfigModel>::empty());
        if let Some(content) = fs_config {
            config = match parse_configs(content) {
                Ok(list) => list,
                Err(error) => {
                    return Err(error);
                },
            };
        }
        let mut contexts: Vec<FileContext> = Vec::new();
        assert(context_models(contexts@) =~= Seq::<ContextModel>::empty());
        if let Some(content) = file_contexts {
            contexts = match parse_contexts(content) {
                Ok(list) => list,
                Err(error) => {
                    return Err(error);
                },
            };
        }
        proof {
            if let Some(content) = fs_config {
                let lines = text::lines(content@);
                lemma_config_modes(lines, lines.len() as int);
                assert forall|i: int| 0 <= i < config@.len() implies (#[trigger] config@[i]).mode
                    <= 0xfff by {
                    assert(config_models(config@)[i].mode <= 0xfff);
                }
            }
        }
        Ok(MetadataResolver { options, manifest, config, contexts })
    }

    /// True when the resolver holds what the text configures.
    pub open spec fn has_config(&self, fs_config: Option<&str>) -> bool {
        match fs_config {
            Some(content) => configs(
                text::lines(content@),
                text::lines(content@).len() as int,
            ) == Ok::<Seq<ConfigModel>, MetadataError>(config_models(self.config@)),
            None => self.config@.len() == 0,
        }
    }

    /// True when the resolver holds the labels that the text states.
    pub open spec fn has_contexts(&self, file_contexts: Option<&str>) -> bool {
        match file_contexts {
            Some(content) => contexts(
                text::lines(content@),
                text::lines(content@).len() as int,
            ) == Ok::<Seq<ContextModel>, MetadataError>(context_models(self.contexts@)),
            None => self.contexts@.len() == 0,
        }
    }

    /// True when configured permissions are permissions only.
    pub open spec fn is_valid(&self) -> bool {
        forall|i: int| 0 <= i < self.config@.len() ==> (#[trigger] self.config@[i]).mode <= 0xfff
    }

    /// Resolves the metadata of a file of the source tree: `host` is what the
    /// system states of it, `target` where a link leads.
    pub fn resolve(&self, relative: &str, host: &EntryMetadata, target: Option<String>) -> (entry:
        Result<EntryMetadata, MetadataError>)
        requires
            self.is_valid(),
        ensures
            ({
                let wanted = resolved(
                    self.options@,
                    self.manifest,
                    config_models(self.config@),
                    context_models(self.contexts@),
                    relative@,
                    host@,
                    text_of(target),
                );
                match entry {
                    Ok(e) => wanted == Ok::<MetadataModel, MetadataError>(e@)
                        && attributes::is_ordered(e.xattrs@),
                    Err(error) => wanted == Err::<MetadataModel, MetadataError>(error),
                }
            }),
    {
        let ghost original = original_of(self.manifest, relative@, host@);
        let ghost mounted = mounted_path(self.options.mount_point@, relative@);
        let (mut e, is_original) = match self.start(relative, host, target) {
            Ok(started) => started,
            Err(error) => {
                return Err(error);
            },
        };
        let ghost first = e@;
        let chars = text::chars_of(relative);
        let path = self.mounted(chars.as_slice());
        let config = match find_config(&self.config, path.as_slice()) {
            Some(i) => Some(i),
            None => find_config(&self.config, text::strip(chars.as_slice(), '/')),
        };
        if let Some(i) = config {
            apply_config(&mut e, &self.config[i], is_original);
        }
        let ghost second = e@;
        assert(second == configured(
            first,
            configuration(config_models(self.config@), mounted, relative@),
            original is Some,
        ));
        let format: u32 = layout::file_format(e.mode);
        if let Some(i) = self.find_context(format, path.as_slice(), relative) {
            apply_label(&mut e.xattrs, &self.contexts[i]);
        }
        assert(e@ =~= (MetadataModel {
            xattrs: labelled(
                second.xattrs,
                context_for(
                    context_models(self.contexts@),
                    format,
                    mounted,
                    relative@,
                    self.contexts@.len() as int,
                ),
            ),
            ..second
        }));
        match self.finish(e, is_original) {
            Ok(e) => Ok(e),
            Err(error) => Err(error),
        }
    }

    /// Tells whether recorded metadata stands for what the system states of a
    /// file, so that the latter need not be asked for.
    pub fn is_recorded(&self, relative: &str, mode: u32) -> (found: bool)
        ensures
            found == has_original(self.manifest, relative@, mode),
            forall|host: MetadataModel|
                host.mode == mode ==> found == (#[trigger] original_of(
                    self.manifest,
                    relative@,
                    host,
                ) is Some),
    {
        match &self.manifest {
            None => false,
            Some(manifest) => match find_recorded(&manifest.entries, relative) {
                None => false,
                Some(i) => layout::file_format(manifest.entries[i].1.mode) == layout::file_format(
                    mode,
                ),
            },
        }
    }

    /// What a file starts with, and whether that was recorded.
    fn start(&self, relative: &str, host: &EntryMetadata, target: Option<String>) -> (started:
        Result<(EntryMetadata, bool), MetadataError>)
        ensures
            ({
                let original = original_of(self.manifest, relative@, host@);
                let wanted = initial_metadata(self.options@, original, host@, text_of(target));
                match started {
                    Ok((e, is_original)) => {
                        &&& wanted == Ok::<MetadataModel, MetadataError>(e@)
                        &&& is_original == (original is Some)
                        &&& attributes::is_ordered(e.xattrs@)
                    },
                    Err(error) => wanted == Err::<MetadataModel, MetadataError>(error),
                }
            }),
    {
        let mut found: Option<EntryMetadata> = None;
        if let Some(manifest) = &self.manifest {
            if let Some(i) = find_recorded(&manifest.entries, relative) {
                if layout::file_format(manifest.entries[i].1.mode) == layout::file_format(
                    host.mode,
                ) {
                    found = Some(copy_metadata(&manifest.entries[i].1));
                }
            }
        }
        let is_original = found.is_some();
        let mut e = match found {
            Some(e) => e,
            None => {
                let mut e = copy_metadata(host);
                if self.options.no_xattrs {
                    e.xattrs = Vec::new();
                    assert(attributes::as_map(e.xattrs@) =~= Map::<Seq<char>, Seq<u8>>::empty());
                }
                e
            },
        };
        if layout::s_islnk(e.mode) {
            if target.is_none() {
                return Err(MetadataError::MissingTarget);
            }
            e.symlink = target;
        }
        Ok((e, is_original))
    }

    fn mounted(&self, relative: &[char]) -> (path: Vec<char>)
        ensures
            path@ == mounted_path(self.options.mount_point@, relative@),
    {
        let mut joined: Vec<char> = Vec::new();
        text::append_text(&mut joined, "/");
        text::append_text(&mut joined, self.options.mount_point.as_str());
        text::append_text(&mut joined, "/");
        text::append_chars(&mut joined, text::strip_start(relative, '/'));
        assert(joined@ =~= "/"@ + self.options.mount_point@ + "/"@ + text::stripped_start(
            relative@,
            '/',
        ));
        text::copy_chars(text::strip(joined.as_slice(), '/'))
    }

    /// The label that is meant for a file.
    fn find_context(&self, format: u32, mounted: &[char], relative: &str) -> (chosen: Option<usize>)
        ensures
            ({
                let list = context_models(self.contexts@);
                let wanted = context_for(list, format, mounted@, relative@, list.len() as int);
                match chosen {
                    Some(i) => i < self.contexts@.len() && wanted == Some(
                        self.contexts@[i as int]@,
                    ),
                    None => wanted is None,
                }
            }),
    {
        let ghost all = context_models(self.contexts@);
        let mut joined: Vec<char> = Vec::new();
        text::append_text(&mut joined, "/");
        text::append_chars(&mut joined, mounted);
        assert(joined@ =~= "/"@ + mounted@);
        let in_tree = text::string_of(joined.as_slice());
        let mut n: usize = self.contexts.len();
        while n > 0
            invariant
                n <= self.contexts@.len(),
                all == context_models(self.contexts@),
                in_tree@ == "/"@ + mounted@,
                context_for(all, format, mounted@, relative@, all.len() as int) == context_for(
                    all,
                    format,
                    mounted@,
                    relative@,
                    n as int,
                ),
            decreases n,
        {
            let context = &self.contexts[n - 1];
            assert(all[n - 1] == context@);
            let kind = match context.format {
                Some(wanted) => wanted == format,
                None => true,
            };
            if kind && (is_match(&context.regex, in_tree.as_str()) || is_match(
                &context.regex,
                relative,
            )) {
                return Some(n - 1);
            }
            n -= 1;
        }
        None
    }

    /// Sets the owner, the group and the times that the options ask for.
    fn finish(&self, entry: EntryMetadata, is_original: bool) -> (finished: Result<
        EntryMetadata,
        MetadataError,
    >)
        ensures
            match finished {
                Ok(e) => {
                    &&& owned(self.options@, entry@) is Ok
                    &&& e@ == timed(self.options@, owned(self.options@, entry@)->Ok_0, is_original)
                    &&& e.xattrs == entry.xattrs
                },
                Err(error) => owned(self.options@, entry@) == Err::<MetadataModel, MetadataError>(
                    error,
                ),
            },
    {
        let mut e = entry;
        let uid: u32 = match self.options.force_uid {
            Some(id) => id,
            None => e.uid,
        };
        let gid: u32 = match self.options.force_gid {
            Some(id) => id,
            None => e.gid,
        };
        match (
            adjusted_id(uid, self.options.uid_offset),
            adjusted_id(gid, self.options.gid_offset),
        ) {
            (Ok(uid), Ok(gid)) => {
                e.uid = uid;
                e.gid = gid;
            },
            _ => {
                return Err(MetadataError::OwnershipOffset);
            },
        }
        if !self.options.preserve_mtime {
            e.mtime = match self.options.timestamp {
                Some(time) => time,
                None => 0,
            };
            e.mtime_nsec = 0;
        } else if !is_original {
            if let Some(time) = self.options.timestamp {
                if e.mtime >= time {
                    e.mtime = time;
                    e.mtime_nsec = 0;
                }
            }
        }
        Ok(e)
    }
}

/// Configured permissions are permissions only.
proof fn lemma_config_modes(lines: Seq<Seq<char>>, n: int)
    requires
        configs(lines, n) is Ok,
    ensures
        forall|i: int|
            0 <= i < configs(lines, n)->Ok_0.len() ==> (#[trigger] configs(
                lines,
                n,
            )->Ok_0[i]).mode <= 0xfff,
    decreases n,
{
    if n > 0 {
        lemma_config_modes(lines, n - 1);
        let before = configs(lines, n - 1)->Ok_0;
        let now = configs(lines, n)->Ok_0;
        assert forall|i: int| 0 <= i < now.len() implies (#[trigger] now[i]).mode <= 0xfff by {
            if i < before.len() {
                assert(now[i] == before[i]);
            }
        }
    }
}

// ---------------------------------------------------------------------------
// What is resolved
// ---------------------------------------------------------------------------

/// A line of four fields configures a path, without the slashes around it, with the
/// owner and the group that it states in decimal digits and the permissions that it
/// states in octal ones, at most 7777.
pub proof fn law_lines_configure_paths(path: Seq<char>, uid: nat, gid: nat, mode: Seq<char>)
    requires
        text::all_digits(mode, 8),
    ensures
        ({
            let fields = seq![path, text::decimal(uid), text::decimal(gid), mode];
            let n = text::digits_value(mode, 8);
            &&& uid <= u32::MAX && gid <= u32::MAX && n <= 4095 ==> config_of(fields) == Ok::<
                ConfigModel,
                MetadataError,
            >(
                ConfigModel {
                    path: text::stripped(path, '/'),
                    uid: uid as u32,
                    gid: gid as u32,
                    mode: n as u32,
                    capabilities: None,
                },
            )
            &&& 4095 < n <= u32::MAX ==> config_of(fields) == Err::<ConfigModel, MetadataError>(
                MetadataError::ConfigPermissions,
            )
            &&& n <= 4095 && uid > u32::MAX ==> config_of(fields) == Err::<
                ConfigModel,
                MetadataError,
            >(MetadataError::ConfigUser)
        }),
{
    let fields = seq![path, text::decimal(uid), text::decimal(gid), mode];
    text::law_written_numbers_read_back(uid);
    text::law_written_numbers_read_back(gid);
    assert(text::is_digit_in(mode[0], 8));
    assert(text::is_digit_in(text::decimal(uid)[0], 10));
    assert(text::is_digit_in(text::decimal(gid)[0], 10));
    assert(text::without_plus(mode) == mode);
    assert(text::without_plus(text::decimal(uid)) == text::decimal(uid));
    assert(text::without_plus(text::decimal(gid)) == text::decimal(gid));
    assert(fields[0] == path && fields[1] == text::decimal(uid));
    assert(fields[2] == text::decimal(gid) && fields[3] == mode);
    assert(capabilities_of(fields, 4) == Ok::<Option<u64>, MetadataError>(None));
}

/// A field states capabilities in decimal digits, or in hexadecimal ones behind
/// `0x`.
pub proof fn law_fields_state_capabilities(bits: u64)
    ensures
        capabilities_in("capabilities="@ + text::decimal(bits as nat)) == Ok::<u64, MetadataError>(
            bits,
        ),
        capabilities_in("capabilities=0x"@ + text::hexadecimal(bits as nat)) == Ok::<
            u64,
            MetadataError,
        >(bits),
{
    reveal_strlit("capabilities=");
    reveal_strlit("capabilities=0x");
    reveal_strlit("0x");
    reveal_strlit("0X");
    let d = text::decimal(bits as nat);
    let h = text::hexadecimal(bits as nat);
    text::law_written_numbers_read_back(bits as nat);
    assert(text::is_digit_in(d[0], 10));
    assert(text::is_digit_in(h[0], 16));
    let a = "capabilities="@ + d;
    assert(a.take(13) =~= "capabilities="@);
    assert(a.skip(13) =~= d);
    if d.len() >= 2 {
        assert(text::is_digit_in(d[1], 10));
        assert(d.take(2)[1] == d[1]);
        assert("0x"@[1] == 'x' && "0X"@[1] == 'X');
    }
    assert(text::without_plus(d) == d);
    let b = "capabilities=0x"@ + h;
    assert(b.take(13) =~= "capabilities="@);
    assert(b.skip(13) =~= "0x"@ + h);
    assert(("0x"@ + h).take(2) =~= "0x"@);
    assert(("0x"@ + h).skip(2) =~= h);
    assert(text::without_plus(h) == h);
}

/// Lines are read in their order; one without fields adds nothing.
pub proof fn law_lines_are_read_in_order(lines: Seq<Seq<char>>, line: Seq<char>)
    requires
        configs(lines, lines.len() as int) is Ok,
    ensures
        ({
            let before = configs(lines, lines.len() as int)->Ok_0;
            let all = lines.push(line);
            let after = configs(all, all.len() as int);
            match shell::shell_words(line) {
                None => after is Err,
                Some(fields) => if fields.len() == 0 {
                    after == Ok::<Seq<ConfigModel>, MetadataError>(before)
                } else {
                    match config_of(fields) {
                        Err(error) => after == Err::<Seq<ConfigModel>, MetadataError>(error),
                        Ok(config) => after == Ok::<Seq<ConfigModel>, MetadataError>(
                            before.push(config),
                        ),
                    }
                },
            }
        }),
{
    lemma_configs_prefix(lines, line, lines.len() as int);
}

proof fn lemma_configs_prefix(lines: Seq<Seq<char>>, line: Seq<char>, n: int)
    requires
        n <= lines.len(),
    ensures
        configs(lines.push(line), n) == configs(lines, n),
    decreases n,
{
    if n > 0 {
        lemma_configs_prefix(lines, line, n - 1);
    }
}

/// Of several lines for one path the last one counts.
pub proof fn law_last_lines_count(list: Seq<ConfigModel>, path: Seq<char>)
    ensures
        match config_for(list, path) {
            Some(c) => exists|i: int|
                {
                    &&& 0 <= i < list.len()
                    &&& #[trigger] list[i] == c && c.path == path
                    &&& forall|k: int| i < k < list.len() ==> (#[trigger] list[k]).path != path
                },
            None => forall|k: int| 0 <= k < list.len() ==> (#[trigger] list[k]).path != path,
        },
    decreases list.len(),
{
    if list.len() > 0 {
        let less = list.drop_last();
        let last = list.len() - 1;
        if list[last].path != path {
            law_last_lines_count(less, path);
            if let Some(c) = config_for(less, path) {
                let i = choose|i: int|
                    {
                        &&& 0 <= i < less.len()
                        &&& #[trigger] less[i] == c && c.path == path
                        &&& forall|k: int| i < k < less.len() ==> (#[trigger] less[k]).path != path
                    };
                assert(list[i] == c);
                assert forall|k: int| i < k < list.len() implies (#[trigger] list[k]).path
                    != path by {
                    if k < last {
                        assert(list[k] == less[k]);
                    }
                }
            } else {
                assert forall|k: int| 0 <= k < list.len() implies (#[trigger] list[k]).path
                    != path by {
                    if k < last {
                        assert(list[k] == less[k]);
                    }
                }
            }
        }
    }
}

/// The fields for kinds of files stand for the formats of their modes.
pub proof fn law_fields_name_kinds(field: Seq<char>)
    ensures
        format_in("--"@) == Some(0x8000u32),
        format_in("-d"@) == Some(0x4000u32),
        format_in("-l"@) == Some(0xa000u32),
        format_in("-c"@) == Some(0x2000u32),
        format_in("-b"@) == Some(0x6000u32),
        format_in("-p"@) == Some(0x1000u32),
        format_in("-s"@) == Some(0xc000u32),
        format_in(field) is Some ==> field.len() == 2 && field[0] == '-',
{
    reveal_strlit("--");
    reveal_strlit("-d");
    reveal_strlit("-l");
    reveal_strlit("-c");
    reveal_strlit("-b");
    reveal_strlit("-p");
    reveal_strlit("-s");
    assert("--"@[1] == '-' && "-d"@[1] == 'd' && "-l"@[1] == 'l' && "-c"@[1] == 'c');
    assert("-b"@[1] == 'b' && "-p"@[1] == 'p' && "-s"@[1] == 's');
}

/// A line of a label has a pattern, which is for whole paths, the kind of file where
/// it has three fields, and the label; comments and empty lines say nothing.
pub proof fn law_lines_label_patterns(line: Seq<char>)
    ensures
        ({
            let rest = context_text(line);
            let fields = text::words(rest);
            &&& rest.len() == 0 || rest[0] == '#' ==> context_of(line) == Ok::<
                Option<ContextModel>,
                MetadataError,
            >(None)
            &&& rest.len() > 0 && rest[0] != '#' && fields.len() == 2 ==> (context_of(line) matches Ok(
                Some(c),
            ) && c.pattern == seq!['^', '(', '?', ':'] + fields[0] + seq![')', '$'] && c.format is None
                && c.label == text::stripped_end(fields[1], '\0'))
            &&& rest.len() > 0 && rest[0] != '#' && fields.len() == 3 && format_in(
                fields[1],
            ) is Some ==> (context_of(line) matches Ok(Some(c)) && c.pattern == seq![
                '^',
                '(',
                '?',
                ':',
            ] + fields[0] + seq![')', '$'] && c.format == format_in(fields[1]) && c.label
                == text::stripped_end(fields[2], '\0'))
            &&& rest.len() > 0 && rest[0] != '#' && (fields.len() < 2 || fields.len() > 3)
                ==> context_of(line) is Err
        }),
{
    reveal_strlit("#");
    reveal_strlit("^(?:");
    reveal_strlit(")$");
    let rest = context_text(line);
    if rest.len() > 0 {
        assert(rest.take(1)[0] == rest[0]);
        if rest[0] == '#' {
            assert(rest.take(1) =~= "#"@);
        }
        assert("#"@[0] == '#');
    }
    let fields = text::words(rest);
    if fields.len() >= 2 {
        assert("^(?:"@ =~= seq!['^', '(', '?', ':']);
        assert(")$"@ =~= seq![')', '$']);
    }
}

/// Of several labels that are meant for a file the last one counts. One is meant
/// for it where it names no kind of file or that of the file, and its pattern
/// matches the path below the mount point or the one in the image.
pub proof fn law_last_labels_count(
    list: Seq<ContextModel>,
    format: u32,
    mounted: Seq<char>,
    relative: Seq<char>,
    n: int,
)
    requires
        0 <= n <= list.len(),
    ensures
        match context_for(list, format, mounted, relative, n) {
            Some(c) => exists|i: int|
                {
                    &&& 0 <= i < n
                    &&& #[trigger] list[i] == c
                    &&& c.format is None || c.format == Some(format)
                    &&& pattern_matches(c.pattern, seq!['/'] + mounted) || pattern_matches(
                        c.pattern,
                        relative,
                    )
                    &&& forall|k: int|
                        i < k < n ==> !applies(#[trigger] list[k], format, mounted, relative)
                },
            None => forall|k: int|
                0 <= k < n ==> !applies(#[trigger] list[k], format, mounted, relative),
        },
    decreases n,
{
    reveal_strlit("/");
    assert("/"@ =~= seq!['/']);
    if n > 0 {
        if applies(list[n - 1], format, mounted, relative) {
            assert(list[n - 1] == context_for(list, format, mounted, relative, n)->0);
        } else {
            law_last_labels_count(list, format, mounted, relative, n - 1);
            if let Some(c) = context_for(list, format, mounted, relative, n - 1) {
                let i = choose|i: int|
                    {
                        &&& 0 <= i < n - 1
                        &&& #[trigger] list[i] == c
                        &&& c.format is None || c.format == Some(format)
                        &&& pattern_matches(c.pattern, seq!['/'] + mounted) || pattern_matches(
                            c.pattern,
                            relative,
                        )
                        &&& forall|k: int|
                            i < k < n - 1 ==> !applies(#[trigger] list[k], format, mounted, relative)
                    };
                assert(list[i] == c);
            }
        }
    }
}

/// Configured capabilities are what the attribute then states, and none remove it;
/// where none are configured, a recorded file keeps its attribute and another one
/// loses it. Other attributes stay.
pub proof fn law_configured_capabilities_are_stated(
    xattrs: Map<Seq<char>, Seq<u8>>,
    bits: u64,
    is_original: bool,
    name: Seq<char>,
)
    ensures
        ({
            let after = with_capabilities(xattrs, Some(bits), is_original);
            let key = "security.capability"@;
            &&& bits > 0 ==> after.contains_key(key) && bits_of(after[key]) == Some(bits as int)
            &&& bits == 0 ==> !after.contains_key(key)
            &&& name != key ==> (after.contains_key(name) <==> xattrs.contains_key(name))
            &&& name != key && xattrs.contains_key(name) ==> after[name] == xattrs[name]
        }),
        with_capabilities(xattrs, None, true) == xattrs,
        !with_capabilities(xattrs, None, false).contains_key("security.capability"@),
        name != "security.capability"@ && xattrs.contains_key(name) ==> with_capabilities(
            xattrs,
            None,
            false,
        ).contains_key(name) && with_capabilities(xattrs, None, false)[name] == xattrs[name],
{
    law_capabilities_read_back(bits);
}

/// The value that states capabilities has twenty bytes: the revision and the mark of
/// effective ones, and both halves of the bits, at 4 and at 12.
pub proof fn law_capability_values(bits: u64)
    ensures
        ({
            let value = capability_value(bits);
            &&& value.len() == 20
            &&& bytes::le32(value, 0) == 0x0200_0001
            &&& bytes::le32(value, 4) == bits as int % 0x1_0000_0000
            &&& bytes::le32(value, 8) == 0
            &&& bytes::le32(value, 12) == bits as int / 0x1_0000_0000
            &&& bytes::le32(value, 16) == 0
        }),
{
    let value = capability_value(bits);
    let low = bits as int % 0x1_0000_0000;
    let high = bits as int / 0x1_0000_0000;
    bytes::lemma_bytes32(low);
    bytes::lemma_bytes32(high);
    bytes::lemma_bytes32(0x0200_0001);
    assert forall|k: int| 0 <= k < 4 implies value[k] == bytes::bytes32(0x0200_0001)[k] && value[4
        + k] == bytes::bytes32(low)[k] && value[12 + k] == bytes::bytes32(high)[k] && value[8 + k]
        == 0 && value[16 + k] == 0 by {}
    assert(bytes::le32(value, 0) == bytes::le32(bytes::bytes32(0x0200_0001), 0));
    assert(bytes::le32(value, 4) == bytes::le32(bytes::bytes32(low), 0));
    assert(bytes::le32(value, 12) == bytes::le32(bytes::bytes32(high), 0));
    assert(bytes::le32(value, 8) == 0);
    assert(bytes::le32(value, 16) == 0);
}

/// A configured file has the owner, the group and the permissions of its line, and
/// stays of its kind.
pub proof fn law_configured_files_stay_of_their_kind(
    e: MetadataModel,
    c: ConfigModel,
    is_original: bool,
)
    requires
        c.mode <= 4095,
    ensures
        ({
            let after = configured(e, Some(c), is_original);
            &&& after.uid == c.uid && after.gid == c.gid
            &&& after.mode as int % 4096 == c.mode
            &&& after.mode as int / 4096 == e.mode as int / 4096 % 16
            &&& after.mtime == e.mtime && after.mtime_nsec == e.mtime_nsec && after.rdev == e.rdev
            &&& after.symlink == e.symlink
        }),
        configured(e, None, is_original) == e,
{
}

/// A file with a label has it as its attribute, with at most zeros behind it, and
/// `<<none>>` takes the attribute away. Other attributes stay.
pub proof fn law_labels_become_attributes(
    xattrs: Map<Seq<char>, Seq<u8>>,
    c: ContextModel,
    name: Seq<char>,
)
    ensures
        ({
            let after = labelled(xattrs, Some(c));
            let key = "security.selinux"@;
            let label = vstd::utf8::encode_utf8(c.label);
            &&& c.label == "<<none>>"@ ==> !after.contains_key(key)
            &&& c.label != "<<none>>"@ ==> after.contains_key(key) && (after[key] == label
                || without_zeros(after[key]) == label)
            &&& name != key ==> (after.contains_key(name) <==> xattrs.contains_key(name))
            &&& name != key && xattrs.contains_key(name) ==> after[name] == xattrs[name]
        }),
        labelled(xattrs, None) == xattrs,
{
}

/// Zeros are taken off the end of a value, all of them and nothing else.
pub proof fn law_zeros_are_taken_off(value: Seq<u8>)
    ensures
        ({
            let rest = without_zeros(value);
            &&& rest.len() <= value.len() && rest == value.take(rest.len() as int)
            &&& rest.len() > 0 ==> rest.last() != 0
            &&& forall|i: int| rest.len() <= i < value.len() ==> #[trigger] value[i] == 0
        }),
    decreases value.len(),
{
    if value.len() > 0 && value.last() == 0 {
        let less = value.drop_last();
        law_zeros_are_taken_off(less);
        let rest = without_zeros(value);
        assert(rest =~= value.take(rest.len() as int));
        assert forall|i: int| rest.len() <= i < value.len() implies #[trigger] value[i] == 0 by {
            if i < less.len() {
                assert(less[i] == value[i]);
            }
        }
    } else {
        assert(value.take(value.len() as int) =~= value);
    }
}

/// Without preserved times every file has the time of the options, or zero. With
/// them a recorded file keeps its time, and another one has at most that of the
/// options.
pub proof fn law_times_are_bounded(options: OptionsModel, e: MetadataModel, is_original: bool)
    ensures
        ({
            let after = timed(options, e, is_original);
            &&& !options.preserve_mtime ==> after.mtime_nsec == 0 && after.mtime == (
            if options.timestamp is Some {
                options.timestamp->0
            } else {
                0
            })
            &&& options.preserve_mtime && (is_original || options.timestamp is None) ==> after == e
            &&& options.preserve_mtime && !is_original && options.timestamp is Some ==> after.mtime
                <= options.timestamp->0 && (e.mtime < options.timestamp->0 ==> after == e) && (
            e.mtime >= options.timestamp->0 ==> after.mtime == options.timestamp->0
                && after.mtime_nsec == 0)
            &&& after.uid == e.uid && after.gid == e.gid && after.mode == e.mode
            &&& after.xattrs == e.xattrs && after.symlink == e.symlink && after.rdev == e.rdev
        }),
{
}

/// Every file has the owner and the group that the options force, or its own, moved
/// by the offset; where one leaves the range of 32 bits there is no metadata.
pub proof fn law_owners_are_forced_and_moved(options: OptionsModel, e: MetadataModel)
    ensures
        ({
            let uid = (if options.force_uid is Some {
                options.force_uid->0
            } else {
                e.uid
            }) + options.uid_offset;
            let gid = (if options.force_gid is Some {
                options.force_gid->0
            } else {
                e.gid
            }) + options.gid_offset;
            match owned(options, e) {
                Ok(after) => after.uid == uid && after.gid == gid && after == (MetadataModel {
                    uid: after.uid,
                    gid: after.gid,
                    ..e
                }),
                Err(error) => error == MetadataError::OwnershipOffset && (uid < 0 || uid > u32::MAX
                    || gid < 0 || gid > u32::MAX),
            }
        }),
{
}

/// A file is configured by its path below the mount point where there is a line for
/// that, else by its path in the image.
pub proof fn law_mounted_paths_come_first(
    list: Seq<ConfigModel>,
    mounted: Seq<char>,
    relative: Seq<char>,
)
    ensures
        config_for(list, mounted) is Some ==> configuration(list, mounted, relative) == config_for(
            list,
            mounted,
        ),
        config_for(list, mounted) is None ==> configuration(list, mounted, relative) == config_for(
            list,
            text::stripped(relative, '/'),
        ),
{
}

/// What an image records of a file follows the options, the lines and the labels,
/// each in its place: it has the owner of the options before that of its line, and
/// that before what was recorded or the file has itself.
pub proof fn law_files_are_recorded_as_asked(
    options: OptionsModel,
    manifest: Option<MetadataManifest>,
    config: Seq<ConfigModel>,
    contexts: Seq<ContextModel>,
    relative: Seq<char>,
    host: MetadataModel,
    target: Option<Seq<char>>,
)
    requires
        resolved(options, manifest, config, contexts, relative, host, target) is Ok,
    ensures
        ({
            let r = resolved(options, manifest, config, contexts, relative, host, target)->Ok_0;
            let recorded = has_original(manifest, relative, host.mode);
            let line = configuration(
                config,
                mounted_path(options.mount_point, relative),
                relative,
            );
            let own = original_of(manifest, relative, host);
            let first = if recorded {
                own->0
            } else {
                host
            };
            let uid = if options.force_uid is Some {
                options.force_uid->0
            } else if line is Some {
                line->0.uid
            } else {
                first.uid
            };
            let gid = if options.force_gid is Some {
                options.force_gid->0
            } else if line is Some {
                line->0.gid
            } else {
                first.gid
            };
            &&& recorded <==> own is Some
            &&& r.uid == uid + options.uid_offset && r.gid == gid + options.gid_offset
            &&& line is None ==> r.mode == first.mode
            &&& line is Some && line->0.mode <= 4095 ==> r.mode as int % 4096 == line->0.mode && r.mode
                as int / 4096 == first.mode as int / 4096 % 16
            &&& layout::is_lnk(first.mode) ==> r.symlink == target && target is Some
            &&& !options.preserve_mtime && options.timestamp is Some ==> r.mtime
                == options.timestamp->0
            &&& options.preserve_mtime && options.timestamp is None ==> r.mtime == first.mtime
                && r.mtime_nsec == first.mtime_nsec
            &&& r.rdev == first.rdev
        }),
{
}

/// The path below the mount point has the mount point before it and no slashes
/// around it.
pub proof fn law_mounted_paths(mount_point: Seq<char>, name: Seq<char>)
    requires
        name.len() > 0,
        name[0] != '/' && name.last() != '/',
        mount_point.len() > 0 ==> mount_point[0] != '/',
    ensures
        mount_point.len() > 0 ==> mounted_path(mount_point, seq!['/'] + name) == mount_point + seq![
            '/',
        ] + name,
        mount_point.len() == 0 ==> mounted_path(mount_point, seq!['/'] + name) == name,
{
    reveal_strlit("/");
    reveal_with_fuel(text::stripped_start, 3);
    let path = seq!['/'] + name;
    assert(path.skip(1) =~= name);
    assert(text::stripped_start(path, '/') == name);
    let all = "/"@ + mount_point + "/"@ + name;
    if mount_point.len() > 0 {
        let want = mount_point + seq!['/'] + name;
        assert(all.skip(1) =~= want);
        assert(all[0] == '/');
        assert(want[0] == mount_point[0]);
        assert(text::stripped_start(all, '/') == want);
        assert(want.last() == name.last());
    } else {
        assert(all.skip(1) =~= seq!['/'] + name);
        assert(all.skip(1).skip(1) =~= name);
        assert(all[0] == '/' && all.skip(1)[0] == '/');
        assert(text::stripped_start(all, '/') == name);
    }
}

/// A manifest is of version 1, and every path in it starts with a slash and has
/// neither `.` nor `..` among its parts; modes have 16 bits and nanoseconds are less
/// than a second.
pub proof fn law_manifests_are_checked(manifest: MetadataManifest)
    ensures
        manifest_error(manifest) is None <==> manifest.version == 1 && forall|i: int|
            0 <= i < manifest.entries@.len() ==> {
                let path = (#[trigger] manifest.entries@[i]).0@;
                let entry = manifest.entries@[i].1;
                &&& path.len() > 0 && path[0] == '/'
                &&& !path.contains('\0')
                &&& !build_options::has_dot_component(path)
                &&& entry.mode <= 0xffff
                &&& entry.mtime_nsec < 1_000_000_000
            },
{
    lemma_entries(manifest.entries@, 0);
}

proof fn lemma_entries(entries: Seq<(String, EntryMetadata)>, from: int)
    requires
        0 <= from,
    ensures
        entries_error(entries, from) is None <==> forall|i: int|
            from <= i < entries.len() ==> {
                let path = (#[trigger] entries[i]).0@;
                let entry = entries[i].1;
                &&& path.len() > 0 && path[0] == '/'
                &&& !path.contains('\0')
                &&& !build_options::has_dot_component(path)
                &&& entry.mode <= 0xffff
                &&& entry.mtime_nsec < 1_000_000_000
            },
    decreases entries.len() - from,
{
    if from < entries.len() {
        lemma_entries(entries, from + 1);
        reveal_strlit("/");
        let path = entries[from].0@;
        if path.len() > 0 {
            assert(path.take(1)[0] == path[0]);
            assert("/"@[0] == '/');
            if path[0] == '/' {
                assert(path.take(1) =~= "/"@);
            }
        }
    }
}

/// Recorded metadata is checked before configured metadata is read.
pub proof fn law_manifests_are_checked_first(manifest: MetadataManifest, content: &str)
    ensures
        manifest_error(manifest) is Some ==> early_error(Some(manifest), Some(content))
            == manifest_error(manifest),
        manifest_error(manifest) is None ==> early_error(Some(manifest), Some(content))
            == early_error(None, Some(content)),
        early_error(None, Some(content)) is Some <==> configs(
            text::lines(content@),
            text::lines(content@).len() as int,
        ) is Err,
        early_error(None, None) is None,
{
}

} // verus!
