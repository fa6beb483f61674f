//! Memory regions of a fastboot device: their list, and their download.

use vstd::prelude::*;

use crate::flash::script;
use crate::oeminfo::payload::text_of;
use crate::text;

verus! {

/// The most bytes that one request reads.
pub const CHUNK_SIZE: u32 = 0x40_0000;

/// How much of a region's name its file name holds.
pub const MAX_FILE_STEM: usize = 80;

/// The device that a list of regions was read from.
#[derive(Debug)]
pub struct MemoryDevice {
    pub bus: String,
    pub address: u8,
    pub vid: u16,
    pub pid: u16,
    pub serial: Option<String>,
}

#[verifier::ext_equal]
pub struct DeviceModel {
    pub bus: Seq<char>,
    pub address: u8,
    pub vid: u16,
    pub pid: u16,
    pub serial: Option<Seq<char>>,
}

impl View for MemoryDevice {
    type V = DeviceModel;

    open spec fn view(&self) -> DeviceModel {
        DeviceModel {
            bus: self.bus@,
            address: self.address,
            vid: self.vid,
            pid: self.pid,
            serial: text_of(self.serial),
        }
    }
}

/// A region of memory.
#[derive(Debug)]
pub struct MemoryRegion {
    pub name: String,
    pub base: u64,
    pub size: u32,
}

#[verifier::ext_equal]
pub struct RegionModel {
    pub name: Seq<char>,
    pub base: u64,
    pub size: u32,
}

impl View for MemoryRegion {
    type V = RegionModel;

    open spec fn view(&self) -> RegionModel {
        RegionModel { name: self.name@, base: self.base, size: self.size }
    }
}

pub open spec fn region_models(regions: Seq<MemoryRegion>) -> Seq<RegionModel> {
    regions.map_values(|r: MemoryRegion| r@)
}

/// The regions of a device.
#[derive(Debug)]
pub struct MemoryMap {
    pub device: MemoryDevice,
    pub regions: Vec<MemoryRegion>,
}

/// What is wrong with a region.
#[derive(Debug, Clone, Copy, PartialEq, Eq, Structural)]
pub enum RegionProblem {
    InvalidName,
    InvalidRange,
}

/// What is wrong with a line of a list.
#[derive(Debug, Clone, Copy, PartialEq, Eq, Structural)]
pub enum LineProblem {
    Malformed,
    Region { problem: RegionProblem },
}

/// What is wrong with a list of regions. Lines are counted from one.
#[derive(Debug, Clone, Copy, PartialEq, Eq, Structural)]
pub enum DumpError {
    Line { number: usize, problem: LineProblem },
    Empty,
}

/// Why a region cannot be downloaded.
#[derive(Debug, Clone, Copy, PartialEq, Eq, Structural)]
pub enum DownloadError {
    Region { problem: RegionProblem },
    DeviceChanged,
    RegionChanged,
    ShortRead,
    /// There is nothing left to read.
    Complete,
}

// ---------------------------------------------------------------------------
// Regions
// ---------------------------------------------------------------------------

/// What is wrong with a region, if anything is.
pub open spec fn region_problem(region: RegionModel) -> Option<RegionProblem> {
    if region.name.len() == 0 || script::has_control(region.name) {
        Some(RegionProblem::InvalidName)
    } else if region.size == 0 || region.base % 4 != 0 || region.base + region.size > u64::MAX {
        Some(RegionProblem::InvalidRange)
    } else {
        None
    }
}

/// In how many pieces a region is read.
pub open spec fn chunk_count(size: int) -> int {
    (size + CHUNK_SIZE - 1) / CHUNK_SIZE as int
}

/// The address and the length of each piece of a region.
pub open spec fn chunks_of(region: RegionModel) -> Seq<(u64, u32)> {
    Seq::new(
        chunk_count(region.size as int) as nat,
        |i: int|
            {
                let offset = i * CHUNK_SIZE;
                let rest = region.size - offset;
                (
                    (region.base + offset) as u64,
                    if rest < CHUNK_SIZE {
                        rest as u32
                    } else {
                        CHUNK_SIZE
                    },
                )
            },
    )
}

/// True when every piece has an address.
pub open spec fn is_addressable(region: RegionModel) -> bool {
    region.size > 0 ==> region.base + (chunk_count(region.size as int) - 1) * CHUNK_SIZE
        <= u64::MAX
}

/// What a character of a name becomes in a file name.
pub open spec fn safe_char(c: char) -> char {
    if text::is_ascii_alphanumeric(c) || c == '_' || c == '-' {
        c
    } else {
        '_'
    }
}

/// The start of a name, in characters that any file name can hold.
pub open spec fn safe_stem(name: Seq<char>) -> Seq<char> {
    let n = if name.len() < MAX_FILE_STEM {
        name.len()
    } else {
        MAX_FILE_STEM as nat
    };
    Seq::new(n, |i: int| safe_char(name[i]))
}

/// The name of the file that a region is written to.
pub open spec fn file_name_of(region: RegionModel) -> Seq<char> {
    safe_stem(region.name) + "_"@ + text::hexadecimal(region.base as nat) + ".bin"@
}

impl MemoryRegion {
    pub fn validate(&self) -> (valid: Result<(), RegionProblem>)
        ensures
            match valid {
                Ok(()) => region_problem(self@) is None,
                Err(problem) => region_problem(self@) == Some(problem),
            },
    {
        let name = text::chars_of(self.name.as_str());
        if name.len() == 0 || script::holds_control(name.as_slice()) {
            return Err(RegionProblem::InvalidName);
        }
        if self.size == 0 || self.base % 4 != 0 || u64::MAX - self.base < self.size as u64 {
            return Err(RegionProblem::InvalidRange);
        }
        Ok(())
    }

    /// The pieces in which the region is read.
    pub fn chunks(&self) -> (chunks: Vec<(u64, u32)>)
        requires
            is_addressable(self@),
        ensures
            chunks@ == chunks_of(self@),
    {
        let mut out: Vec<(u64, u32)> = Vec::new();
        let mut offset: u64 = 0;
        while offset < self.size as u64
            invariant
                is_addressable(self@),
                offset == out@.len() * CHUNK_SIZE,
                out@.len() <= chunk_count(self.size as int),
                offset < self.size ==> out@.len() < chunk_count(self.size as int),
                offset >= self.size ==> out@.len() == chunk_count(self.size as int),
                forall|i: int| 0 <= i < out@.len() ==> out@[i] == chunks_of(self@)[i],
            decreases self.size + CHUNK_SIZE - offset,
        {
            let rest: u64 = self.size as u64 - offset;
            let length: u32 = if rest < CHUNK_SIZE as u64 {
                rest as u32
            } else {
                CHUNK_SIZE
            };
            let ghost n = out@.len() as int;
            assert(chunks_of(self@)[n] == ((self.base + offset) as u64, length));
            out.push((self.base + offset, length));
            offset = offset + CHUNK_SIZE as u64;
        }
        assert(out@ =~= chunks_of(self@));
        out
    }

    /// A file name for the region that holds nothing of a path.
    pub fn suggested_filename(&self) -> (name: String)
        ensures
            name@ == file_name_of(self@),
    {
        let chars = text::chars_of(self.name.as_str());
        let mut out: Vec<char> = Vec::new();
        let mut i: usize = 0;
        while i < chars.len() && i < MAX_FILE_STEM
            invariant
                i <= chars@.len(),
                i <= MAX_FILE_STEM,
                chars@ == self.name@,
                out@ == safe_stem(self.name@).take(i as int),
            decreases chars@.len() - i,
        {
            let c = chars[i];
            let kept = if text::ascii_alphanumeric(c) || c == '_' || c == '-' {
                c
            } else {
                '_'
            };
            out.push(kept);
            i += 1;
            assert(out@ =~= safe_stem(self.name@).take(i as int));
        }
        assert(safe_stem(self.name@).take(i as int) =~= safe_stem(self.name@));
        text::append_text(&mut out, "_");
        text::push_hexadecimal(&mut out, self.base);
        text::append_text(&mut out, ".bin");
        text::string_of(out.as_slice())
    }

    fn copy(&self) -> (copy: MemoryRegion)
        ensures
            copy@ == self@,
    {
        MemoryRegion { name: self.name.clone(), base: self.base, size: self.size }
    }
}

// ---------------------------------------------------------------------------
// The list of regions
// ---------------------------------------------------------------------------

/// True where the name of a field may begin.
pub open spec fn is_boundary(s: Seq<char>, at: int) -> bool {
    ||| at == 0
    ||| !text::is_ascii_alphanumeric(s[at - 1]) && s[at - 1] != '_'
    ||| text::ends_with(s.take(at), "INFO"@)
    ||| text::ends_with(s.take(at), "TEXT"@)
}

/// True when a field stands at a place: its name, and a colon behind it.
pub open spec fn is_field(s: Seq<char>, name: Seq<char>, at: int) -> bool {
    &&& 0 <= at
    &&& at + name.len() <= s.len()
    &&& s.subrange(at, at + name.len()) == name
    &&& is_boundary(s, at)
    &&& text::begins_with(text::trimmed_start(s.skip(at + name.len())), ":"@)
}

/// Where a field first stands, from a place on.
pub open spec fn field_from(s: Seq<char>, name: Seq<char>, from: int) -> Option<int>
    decreases s.len() - from,
{
    if from < 0 || from + name.len() > s.len() {
        None
    } else if is_field(s, name, from) {
        Some(from)
    } else if from == s.len() {
        None
    } else {
        field_from(s, name, from + 1)
    }
}

fn begins_field(s: &[char], at: usize) -> (is: bool)
    requires
        at <= s@.len(),
    ensures
        is == is_boundary(s@, at as int),
{
    if at == 0 {
        return true;
    }
    let c = s[at - 1];
    if !text::ascii_alphanumeric(c) && c != '_' {
        return true;
    }
    let before = &s[0..at];
    assert(before@ == s@.take(at as int));
    text::ends(before, "INFO") || text::ends(before, "TEXT")
}

/// Where a field first stands in a line.
pub fn field_start(s: &[char], name: &str) -> (at: Option<usize>)
    ensures
        match at {
            Some(found) => field_from(s@, name@, 0) == Some(found as int) && found + name@.len()
                <= s@.len(),
            None => field_from(s@, name@, 0) is None,
        },
{
    let wanted = text::chars_of(name);
    let mut at: usize = 0;
    while at <= s.len() && wanted.len() <= s.len() - at
        invariant
            wanted@ == name@,
            at <= s@.len() + 1,
            field_from(s@, name@, 0) == field_from(s@, name@, at as int),
        decreases s@.len() + 1 - at,
    {
        let end: usize = at + wanted.len();
        assert(s@.skip(end as int) =~= s@.subrange(end as int, s@.len() as int));
        if text::same_chars(&s[at..end], wanted.as_slice()) && begins_field(s, at)
            && text::starts(text::trim_start(&s[end..s.len()]), ":") {
            return Some(at);
        }
        if at == s.len() {
            return None;
        }
        at += 1;
    }
    None
}

/// What stands behind the name and the colon of a field.
pub open spec fn value_of(s: Seq<char>, name: Seq<char>) -> Option<Seq<char>> {
    let field = text::trimmed(s);
    let rest = text::trimmed_start(field.skip(name.len() as int));
    if text::begins_with(field, name) && text::begins_with(rest, ":"@) {
        Some(text::trimmed(rest.skip(1)))
    } else {
        None
    }
}

pub fn field_value<'a>(s: &'a [char], name: &str) -> (value: Option<&'a [char]>)
    ensures
        match value {
            Some(found) => value_of(s@, name@) == Some(found@),
            None => value_of(s@, name@) is None,
        },
{
    let wanted = text::chars_of(name);
    let field = text::trim(s);
    if !text::starts(field, name) {
        return None;
    }
    assert(field@.skip(wanted@.len() as int) =~= field@.subrange(
        wanted@.len() as int,
        field@.len() as int,
    ));
    let rest = text::trim_start(&field[wanted.len()..field.len()]);
    if !text::starts(rest, ":") {
        return None;
    }
    proof {
        reveal_strlit(":");
    }
    assert(rest@.skip(1) =~= rest@.subrange(1, rest@.len() as int));
    Some(text::trim(&rest[1..rest.len()]))
}

/// The number that a text writes in hexadecimal, with the mark before it.
pub open spec fn hex_of(s: Seq<char>) -> Option<u64> {
    let digits = s.skip(2);
    if (text::begins_with(s, "0x"@) || text::begins_with(s, "0X"@)) && text::all_digits(digits, 16)
        && text::digits_value(digits, 16) <= u64::MAX {
        Some(text::digits_value(digits, 16) as u64)
    } else {
        None
    }
}

pub fn hex_value(s: &[char]) -> (value: Option<u64>)
    ensures
        value == hex_of(s@),
{
    proof {
        reveal_strlit("0x");
        reveal_strlit("0X");
    }
    if !text::starts(s, "0x") && !text::starts(s, "0X") {
        return None;
    }
    assert(s@.skip(2) =~= s@.subrange(2, s@.len() as int));
    let digits = &s[2..s.len()];
    if digits.len() > 0 && digits[0] == '+' {
        assert(!text::is_digit_in(digits@[0], 16));
        return None;
    }
    assert(text::without_plus(digits@) == digits@);
    text::parse_unsigned(digits, 16, u64::MAX)
}

/// True for a line that is about a region.
pub open spec fn is_about_region(line: Seq<char>) -> bool {
    field_from(line, "base"@, 0) is Some || field_from(line, "size"@, 0) is Some || field_from(
        line,
        "mem"@,
        0,
    ) is Some
}

/// The region in what stands before and behind the first comma of a line.
pub open spec fn region_between(base: Seq<char>, rest: Seq<char>) -> Option<RegionModel> {
    match field_from(rest, "mem"@, 0) {
        None => None,
        Some(at) => {
            let size = text::stripped_end(text::trimmed(rest.take(at)), ',');
            match (value_of(rest.skip(at), "mem"@), value_of(base, "base"@), value_of(
                size,
                "size"@,
            )) {
                (Some(name), Some(base), Some(size)) => match (hex_of(base), hex_of(size)) {
                    (Some(base), Some(size)) => if size <= u32::MAX {
                        Some(RegionModel { name, base, size: size as u32 })
                    } else {
                        None
                    },
                    _ => None,
                },
                _ => None,
            }
        },
    }
}

/// The region that a line writes down.
pub open spec fn region_in(line: Seq<char>) -> Option<RegionModel> {
    match field_from(line, "base"@, 0) {
        None => None,
        Some(at) => match text::halves(line.skip(at), ',') {
            None => None,
            Some((base, rest)) => region_between(base, rest),
        },
    }
}

/// What comes of a line about a region.
pub open spec fn line_result(line: Seq<char>) -> Result<RegionModel, LineProblem> {
    match region_in(line) {
        None => Err(LineProblem::Malformed),
        Some(region) => match region_problem(region) {
            Some(problem) => Err(LineProblem::Region { problem }),
            None => Ok(region),
        },
    }
}

/// The regions of the lines from a place on, up to the first line that is wrong.
pub open spec fn regions_from(lines: Seq<Seq<char>>, from: int) -> Result<
    Seq<RegionModel>,
    DumpError,
>
    decreases lines.len() - from,
{
    if from < 0 || from >= lines.len() {
        Ok(seq![])
    } else if !is_about_region(lines[from]) {
        regions_from(lines, from + 1)
    } else {
        match line_result(lines[from]) {
            Err(problem) => Err(DumpError::Line { number: (from + 1) as usize, problem }),
            Ok(region) => with_before(seq![region], regions_from(lines, from + 1)),
        }
    }
}

/// Regions, put before others.
pub open spec fn with_before(
    before: Seq<RegionModel>,
    rest: Result<Seq<RegionModel>, DumpError>,
) -> Result<Seq<RegionModel>, DumpError> {
    match rest {
        Ok(regions) => Ok(before + regions),
        Err(error) => Err(error),
    }
}

/// The regions of a list.
pub open spec fn dump_of(output: Seq<char>) -> Result<Seq<RegionModel>, DumpError> {
    match regions_from(text::lines(output), 0) {
        Err(error) => Err(error),
        Ok(regions) => if regions.len() == 0 {
            Err(DumpError::Empty)
        } else {
            Ok(regions)
        },
    }
}

fn parse_region(base: &[char], rest: &[char]) -> (region: Option<MemoryRegion>)
    ensures
        match region {
            Some(found) => region_between(base@, rest@) == Some(found@),
            None => region_between(base@, rest@) is None,
        },
{
    let at: usize = match field_start(rest, "mem") {
        Some(at) => at,
        None => {
            return None;
        },
    };
    assert(rest@.skip(at as int) =~= rest@.subrange(at as int, rest@.len() as int));
    assert(rest@.take(at as int) =~= rest@.subrange(0, at as int));
    let size = text::strip_end(text::trim(&rest[0..at]), ',');
    let name = field_value(&rest[at..rest.len()], "mem");
    let base_value = field_value(base, "base");
    let size_value = field_value(size, "size");
    match (name, base_value, size_value) {
        (Some(name), Some(base), Some(size)) => match (hex_value(base), hex_value(size)) {
            (Some(base), Some(size)) => {
                if size <= u32::MAX as u64 {
                    Some(MemoryRegion { name: text::string_of(name), base, size: size as u32 })
                } else {
                    None
                }
            },
            _ => None,
        },
        _ => None,
    }
}

fn parse_line(line: &[char]) -> (region: Option<MemoryRegion>)
    ensures
        match region {
            Some(found) => region_in(line@) == Some(found@),
            None => region_in(line@) is None,
        },
{
    let at: usize = match field_start(line, "base") {
        Some(at) => at,
        None => {
            return None;
        },
    };
    assert(line@.skip(at as int) =~= line@.subrange(at as int, line@.len() as int));
    match text::split_at_first(&line[at..line.len()], ',') {
        Some((base, rest)) => parse_region(base, rest),
        None => None,
    }
}

/// Reads the list of regions that a device prints.
pub fn parse_ddrdump(output: &str) -> (regions: Result<Vec<MemoryRegion>, DumpError>)
    ensures
        match regions {
            Ok(list) => dump_of(output@) == Ok::<Seq<RegionModel>, DumpError>(region_models(list@)),
            Err(error) => dump_of(output@) == Err::<Seq<RegionModel>, DumpError>(error),
        },
{
    let chars = text::chars_of(output);
    let lines = text::split_lines(chars.as_slice());
    let ghost all = text::lines(output@);
    assert(text::pieces(lines@) == all);
    let mut regions: Vec<MemoryRegion> = Vec::new();
    let mut n: usize = 0;
    assert(region_models(regions@) + seq![] =~= seq![]);
    assert(with_before(region_models(regions@), regions_from(all, 0)) =~= regions_from(all, 0)) by {
        if let Ok(rest) = regions_from(all, 0) {
            assert(region_models(regions@) + rest =~= rest);
        }
    }
    while n < lines.len()
        invariant
            n <= lines@.len(),
            all == text::lines(output@),
            text::pieces(lines@) == all,
            with_before(region_models(regions@), regions_from(all, n as int)) == regions_from(
                all,
                0,
            ),
        decreases lines@.len() - n,
    {
        assert(lines.len() <= usize::MAX);
        let line = lines[n].as_slice();
        assert(all[n as int] == line@);
        if field_start(line, "base").is_some() || field_start(line, "size").is_some()
            || field_start(line, "mem").is_some() {
            let region = match parse_line(line) {
                Some(region) => region,
                None => {
                    return Err(DumpError::Line { number: n + 1, problem: LineProblem::Malformed });
                },
            };
            if let Err(problem) = region.validate() {
                return Err(
                    DumpError::Line { number: n + 1, problem: LineProblem::Region { problem } },
                );
            }
            let ghost before = regions@;
            let ghost model = region@;
            regions.push(region);
            proof {
                assert(region_models(regions@) =~= region_models(before) + seq![model]);
                if let Ok(rest) = regions_from(all, n + 1) {
                    assert(region_models(before) + (seq![model] + rest) =~= region_models(regions@)
                        + rest);
                }
            }
        }
        n += 1;
    }
    assert(region_models(regions@) + seq![] =~= region_models(regions@));
    assert(region_models(regions@).len() == regions@.len());
    if regions.len() == 0 {
        return Err(DumpError::Empty);
    }
    Ok(regions)
}

// ---------------------------------------------------------------------------
// The download of a region
// ---------------------------------------------------------------------------

pub fn same_serial(a: &Option<String>, b: &Option<String>) -> (same: bool)
    ensures
        same == (text_of(*a) == text_of(*b)),
{
    match (a, b) {
        (Some(x), Some(y)) => text::same_text(x.as_str(), y.as_str()),
        (None, None) => true,
        _ => false,
    }
}

impl MemoryDevice {
    /// Tells whether two devices are the same.
    pub fn is_same(&self, other: &MemoryDevice) -> (same: bool)
        ensures
            same == (self@ == other@),
    {
        text::same_text(self.bus.as_str(), other.bus.as_str()) && self.address == other.address
            && self.vid == other.vid && self.pid == other.pid && same_serial(
            &self.serial,
            &other.serial,
        )
    }
}

fn holds_region(regions: &Vec<MemoryRegion>, region: &MemoryRegion) -> (holds: bool)
    ensures
        holds == region_models(regions@).contains(region@),
{
    let ghost all = region_models(regions@);
    let mut n: usize = 0;
    while n < regions.len()
        invariant
            n <= regions@.len(),
            all == region_models(regions@),
            forall|i: int| 0 <= i < n ==> #[trigger] all[i] != region@,
        decreases regions@.len() - n,
    {
        let other = &regions[n];
        assert(all[n as int] == other@);
        if other.base == region.base && other.size == region.size && text::same_text(
            other.name.as_str(),
            region.name.as_str(),
        ) {
            assert(all.contains(region@)) by {
                assert(all[n as int] =~= region@);
            }
            return true;
        }
        n += 1;
    }
    assert(all.len() == regions@.len());
    false
}

/// Why a region cannot be downloaded: it is wrong, or no longer what the device
/// has.
pub open spec fn start_error(
    wanted: DeviceModel,
    found: DeviceModel,
    regions: Seq<RegionModel>,
    region: RegionModel,
) -> Option<DownloadError> {
    match region_problem(region) {
        Some(problem) => Some(DownloadError::Region { problem }),
        None => if wanted != found {
            Some(DownloadError::DeviceChanged)
        } else if !regions.contains(region) {
            Some(DownloadError::RegionChanged)
        } else {
            None
        },
    }
}

/// What a device is asked for a piece of memory.
pub open spec fn request_text(address: u64, length: u32) -> Seq<char> {
    "0x"@ + text::hexadecimal(address as nat) + ":0x"@ + text::hexadecimal(length as nat)
}

/// A download that is under way.
#[derive(Debug)]
pub struct MemoryDownload {
    region: MemoryRegion,
    chunks: Vec<(u64, u32)>,
    next: usize,
    data: Vec<u8>,
}

/// How many bytes the first `n` pieces of a region hold.
pub open spec fn received_after(region: RegionModel, n: int) -> int {
    if n * CHUNK_SIZE < region.size {
        n * CHUNK_SIZE
    } else {
        region.size as int
    }
}

impl MemoryDownload {
    /// The region that is downloaded.
    pub closed spec fn region(&self) -> RegionModel {
        self.region@
    }

    /// How many pieces have been received.
    pub closed spec fn received(&self) -> int {
        self.next as int
    }

    /// The bytes received so far.
    pub closed spec fn bytes(&self) -> Seq<u8> {
        self.data@
    }

    /// True for every download: its region is a valid one, and it holds the bytes
    /// of the pieces received.
    pub closed spec fn is_valid(&self) -> bool {
        &&& region_problem(self.region@) is None
        &&& self.chunks@ == chunks_of(self.region@)
        &&& self.next <= self.chunks@.len()
        &&& self.data@.len() == received_after(self.region@, self.next as int)
    }

    /// Starts a download, if the device and its regions are still what they were.
    pub fn start(
        wanted: &MemoryDevice,
        found: &MemoryDevice,
        regions: &Vec<MemoryRegion>,
        region: &MemoryRegion,
    ) -> (download: Result<MemoryDownload, DownloadError>)
        ensures
            match download {
                Ok(state) => {
                    &&& start_error(wanted@, found@, region_models(regions@), region@) is None
                    &&& state.is_valid()
                    &&& state.region() == region@
                    &&& state.received() == 0
                    &&& state.bytes() == Seq::<u8>::empty()
                },
                Err(error) => start_error(wanted@, found@, region_models(regions@), region@)
                    == Some(error),
            },
    {
        if let Err(problem) = region.validate() {
            return Err(DownloadError::Region { problem });
        }
        if !found.is_same(wanted) {
            return Err(DownloadError::DeviceChanged);
        }
        if !holds_region(regions, region) {
            return Err(DownloadError::RegionChanged);
        }
        proof {
            lemma_chunks(region@);
        }
        Ok(
            MemoryDownload {
                region: region.copy(),
                chunks: region.chunks(),
                next: 0,
                data: Vec::new(),
            },
        )
    }

    /// What to ask of the device next and how much it has to send, as long as
    /// there is something left.
    pub fn request(&self) -> (request: Option<(String, u32)>)
        requires
            self.is_valid(),
        ensures
            ({
                let chunks = chunks_of(self.region());
                match request {
                    Some((asked, length)) => {
                        &&& self.received() < chunks.len()
                        &&& asked@ == request_text(chunks[self.received()].0, length)
                        &&& length == chunks[self.received()].1
                    },
                    None => self.received() == chunks.len(),
                }
            }),
    {
        if self.next >= self.chunks.len() {
            return None;
        }
        let (address, length): (u64, u32) = self.chunks[self.next];
        let mut out: Vec<char> = Vec::new();
        text::append_text(&mut out, "0x");
        text::push_hexadecimal(&mut out, address);
        text::append_text(&mut out, ":0x");
        text::push_hexadecimal(&mut out, length as u64);
        assert(out@ =~= request_text(address, length));
        Some((text::string_of(out.as_slice()), length))
    }

    /// Takes the next piece, which has to be complete.
    pub fn receive(&mut self, data: &[u8]) -> (taken: Result<(), DownloadError>)
        requires
            old(self).is_valid(),
        ensures
            final(self).is_valid(),
            final(self).region() == old(self).region(),
            ({
                let chunks = chunks_of(old(self).region());
                let n = old(self).received();
                match taken {
                    Ok(()) => {
                        &&& n < chunks.len()
                        &&& data@.len() == chunks[n].1
                        &&& final(self).received() == n + 1
                        &&& final(self).bytes() == old(self).bytes() + data@
                    },
                    Err(error) => {
                        &&& *final(self) == *old(self)
                        &&& if n >= chunks.len() {
                            error == DownloadError::Complete
                        } else {
                            error == DownloadError::ShortRead && data@.len() != chunks[n].1
                        }
                    },
                }
            }),
    {
        if self.next >= self.chunks.len() {
            return Err(DownloadError::Complete);
        }
        let length: u32 = self.chunks[self.next].1;
        if data.len() as u64 != length as u64 {
            return Err(DownloadError::ShortRead);
        }
        proof {
            lemma_chunks(self.region@);
        }
        crate::bytes::push_all(&mut self.data, data);
        self.next = self.next + 1;
        Ok(())
    }

    /// The bytes of the region, once all of it has been received.
    pub fn finish(self) -> (data: Option<Vec<u8>>)
        requires
            self.is_valid(),
        ensures
            match data {
                Some(bytes) => {
                    &&& self.received() == chunks_of(self.region()).len()
                    &&& bytes@ == self.bytes()
                    &&& bytes@.len() == self.region().size
                },
                None => self.received() < chunks_of(self.region()).len(),
            },
    {
        if self.next < self.chunks.len() {
            return None;
        }
        proof {
            lemma_chunks(self.region@);
        }
        Some(self.data)
    }
}

// ---------------------------------------------------------------------------
// Laws
// ---------------------------------------------------------------------------

/// What the pieces of a valid region are.
proof fn lemma_chunks(region: RegionModel)
    requires
        region_problem(region) is None,
    ensures
        is_addressable(region),
        chunks_of(region).len() == chunk_count(region.size as int),
        received_after(region, chunk_count(region.size as int)) == region.size,
        forall|i: int|
            0 <= i < chunks_of(region).len() ==> {
                &&& (#[trigger] chunks_of(region)[i]).0 == region.base + received_after(region, i)
                &&& chunks_of(region)[i].1 == received_after(region, i + 1) - received_after(
                    region,
                    i,
                )
                &&& chunks_of(region)[i].1 > 0
            },
{
}

/// The pieces of a valid region cover it: they follow one another from its base
/// to its end without a gap, none is empty or longer than a request may be, and
/// each starts on a four-byte boundary.
pub proof fn law_chunks_cover_the_region(region: RegionModel)
    requires
        region_problem(region) is None,
    ensures
        ({
            let chunks = chunks_of(region);
            &&& chunks.len() > 0
            &&& chunks[0].0 == region.base
            &&& chunks.last().0 + chunks.last().1 == region.base + region.size
            &&& forall|i: int|
                0 <= i < chunks.len() ==> {
                    &&& (#[trigger] chunks[i]).0 % 4 == 0
                    &&& 0 < chunks[i].1 <= CHUNK_SIZE
                    &&& i + 1 < chunks.len() ==> chunks[i].0 + chunks[i].1 == chunks[i + 1].0
                }
        }),
{
    lemma_chunks(region);
}

/// The digits of a number are digits and small letters.
proof fn lemma_hexadecimal(n: nat)
    ensures
        forall|i: int|
            0 <= i < text::hexadecimal(n).len() ==> text::is_ascii_alphanumeric(
                #[trigger] text::hexadecimal(n)[i],
            ),
    decreases n,
{
    let last = text::hex_digit((n % 16) as int);
    assert('0' <= last <= '9' || 'a' <= last <= 'f');
    if n >= 16 {
        lemma_hexadecimal(n / 16);
        let before = text::hexadecimal(n / 16);
        assert forall|i: int| 0 <= i < text::hexadecimal(n).len() implies
            text::is_ascii_alphanumeric(#[trigger] text::hexadecimal(n)[i]) by {
            if i < before.len() {
                assert(text::hexadecimal(n)[i] == before[i]);
            } else {
                assert(text::hexadecimal(n)[i] == last);
            }
        }
    }
}

/// The file name of a region holds letters, digits, underscores, hyphens and
/// dots alone, whatever the device calls the region: it is never a path.
pub proof fn law_file_names_are_safe(region: RegionModel)
    ensures
        ({
            let name = file_name_of(region);
            forall|i: int|
                0 <= i < name.len() ==> text::is_ascii_alphanumeric(#[trigger] name[i]) || name[i]
                    == '_' || name[i] == '-' || name[i] == '.'
        }),
{
    lemma_hexadecimal(region.base as nat);
    reveal_strlit("_");
    reveal_strlit(".bin");
    let stem = safe_stem(region.name);
    let digits = text::hexadecimal(region.base as nat);
    let name = file_name_of(region);
    assert forall|i: int| 0 <= i < name.len() implies text::is_ascii_alphanumeric(
        #[trigger] name[i],
    ) || name[i] == '_' || name[i] == '-' || name[i] == '.' by {
        if i < stem.len() {
            assert(name[i] == stem[i]);
        } else if i == stem.len() {
            assert(name[i] == '_');
        } else if i < stem.len() + 1 + digits.len() {
            assert(name[i] == digits[i - stem.len() - 1]);
        } else {
            assert(name[i] == ".bin"@[i - stem.len() - 1 - digits.len()]);
        }
    }
}

/// Every region of a list that is read is a valid one.
pub proof fn law_listed_regions_are_valid(output: Seq<char>)
    requires
        dump_of(output) is Ok,
    ensures
        forall|i: int|
            0 <= i < dump_of(output)->Ok_0.len() ==> region_problem(
                #[trigger] dump_of(output)->Ok_0[i],
            ) is None,
{
    lemma_listed(text::lines(output), 0);
}

proof fn lemma_listed(lines: Seq<Seq<char>>, from: int)
    requires
        regions_from(lines, from) is Ok,
    ensures
        forall|i: int|
            0 <= i < regions_from(lines, from)->Ok_0.len() ==> region_problem(
                #[trigger] regions_from(lines, from)->Ok_0[i],
            ) is None,
    decreases lines.len() - from,
{
    if 0 <= from < lines.len() {
        lemma_listed(lines, from + 1);
    }
}

/// A region has a name without control characters, is not empty, starts on a
/// four-byte boundary and ends within 64 bits of addresses.
pub proof fn law_sound_regions(region: RegionModel)
    ensures
        region_problem(region) is None <==> {
            &&& region.name.len() > 0
            &&& forall|i: int|
                0 <= i < region.name.len() ==> !text::is_control(#[trigger] region.name[i])
            &&& region.size > 0
            &&& region.base % 4 == 0
            &&& region.base + region.size <= u64::MAX
        },
        region_problem(region) == Some(RegionProblem::InvalidName) ==> region.name.len() == 0
            || exists|i: int|
            0 <= i < region.name.len() && text::is_control(#[trigger] region.name[i]),
{
    if script::has_control(region.name) {
        let i = choose|i: int|
            0 <= i < region.name.len() && text::is_control(#[trigger] region.name[i]);
        assert(text::is_control(region.name[i]));
    }
}

/// Every piece of a region but its last has 4 MiB.
pub proof fn law_pieces_have_one_length(region: RegionModel, i: int)
    requires
        region_problem(region) is None,
        0 <= i < chunks_of(region).len(),
    ensures
        chunks_of(region)[i].0 == region.base + i * 0x40_0000,
        i + 1 < chunks_of(region).len() ==> chunks_of(region)[i].1 == 0x40_0000,
{
    lemma_chunks(region);
}

/// What is asked of a device is the address and the length of a piece, in
/// hexadecimal digits, each behind `0x` and with a colon between them.
pub proof fn law_requests_name_address_and_length(address: u64, length: u32)
    ensures
        ({
            let s = request_text(address, length);
            let a = text::hexadecimal(address as nat);
            let b = text::hexadecimal(length as nat);
            &&& s == seq!['0', 'x'] + a + seq![':', '0', 'x'] + b
            &&& text::digits_value(a, 16) == address && text::digits_value(b, 16) == length
        }),
{
    reveal_strlit("0x");
    reveal_strlit(":0x");
    text::law_written_numbers_read_back(address as nat);
    text::law_written_numbers_read_back(length as nat);
    assert("0x"@ =~= seq!['0', 'x']);
    assert(":0x"@ =~= seq![':', '0', 'x']);
}

/// A region is written to a file that is named by the first 80 characters of its
/// name, with an underscore for each that is not a letter, a digit, an underscore or
/// a hyphen, and by its address.
pub proof fn law_files_are_named_after_their_region(region: RegionModel, i: int)
    ensures
        ({
            let name = file_name_of(region);
            let n = if region.name.len() < 80 {
                region.name.len() as int
            } else {
                80
            };
            &&& name == safe_stem(region.name) + seq!['_'] + text::hexadecimal(region.base as nat)
                + seq!['.', 'b', 'i', 'n']
            &&& safe_stem(region.name).len() == n
            &&& 0 <= i < n ==> {
                let c = region.name[i];
                let plain = 48 <= c as int <= 57 || 65 <= c as int <= 90 || 97 <= c as int <= 122
                    || c == '_' || c == '-';
                name[i] == if plain {
                    c
                } else {
                    '_'
                }
            }
        }),
{
    reveal_strlit("_");
    reveal_strlit(".bin");
    assert("_"@ =~= seq!['_']);
    assert(".bin"@ =~= seq!['.', 'b', 'i', 'n']);
}

/// A number of a field has hexadecimal digits behind `0x` or `0X`.
pub proof fn law_numbers_of_fields_are_hexadecimal(n: u64, s: Seq<char>)
    ensures
        hex_of(seq!['0', 'x'] + text::hexadecimal(n as nat)) == Some(n),
        hex_of(seq!['0', 'X'] + text::hexadecimal(n as nat)) == Some(n),
        hex_of(s) is Some ==> s.len() > 2 && s[0] == '0' && (s[1] == 'x' || s[1] == 'X'),
{
    reveal_strlit("0x");
    reveal_strlit("0X");
    text::law_written_numbers_read_back(n as nat);
    let digits = text::hexadecimal(n as nat);
    let a = seq!['0', 'x'] + digits;
    let b = seq!['0', 'X'] + digits;
    assert(a.take(2) =~= "0x"@);
    assert(b.take(2) =~= "0X"@);
    assert(a.skip(2) =~= digits);
    assert(b.skip(2) =~= digits);
    if hex_of(s) is Some {
        assert(s.take(2)[0] == s[0] && s.take(2)[1] == s[1]);
        assert("0x"@[0] == '0' && "0X"@[0] == '0' && "0x"@[1] == 'x' && "0X"@[1] == 'X');
    }
}

/// Lines about no region are passed over; the first line about one that is wrong is
/// named by its number, counted from 1, and else the regions are those of the lines,
/// in order.
pub proof fn law_lines_give_their_regions(lines: Seq<Seq<char>>, from: int)
    requires
        0 <= from < lines.len(),
        lines.len() < usize::MAX,
    ensures
        ({
            let rest = regions_from(lines, from + 1);
            let all = regions_from(lines, from);
            &&& !is_about_region(lines[from]) ==> all == rest
            &&& is_about_region(lines[from]) ==> match line_result(lines[from]) {
                Err(problem) => all matches Err(DumpError::Line { number, problem: named }) && number
                    == from + 1 && named == problem,
                Ok(region) => match rest {
                    Ok(others) => all == Ok::<Seq<RegionModel>, DumpError>(seq![region] + others),
                    Err(error) => all == Err::<Seq<RegionModel>, DumpError>(error),
                },
            }
        }),
        regions_from(lines, lines.len() as int) == Ok::<Seq<RegionModel>, DumpError>(seq![]),
{
}

/// A region is read from a line with its three fields: its base is the number of the
/// first, its size that of the second and its name the text of the third.
pub proof fn law_lines_state_base_size_and_name(base: Seq<char>, rest: Seq<char>)
    ensures
        region_between(base, rest) matches Some(r) ==> {
            &&& field_from(rest, "mem"@, 0) matches Some(at) && value_of(rest.skip(at), "mem"@)
                == Some(r.name) && (value_of(
                text::stripped_end(text::trimmed(rest.take(at)), ','),
                "size"@,
            ) matches Some(size) && hex_of(size) == Some(r.size as u64))
            &&& value_of(base, "base"@) matches Some(b) && hex_of(b) == Some(r.base)
        },
{
}

/// The value of a field is what stands behind its name and a colon, without white
/// space around it.
pub proof fn law_fields_have_values(name: Seq<char>, value: Seq<char>)
    requires
        name.len() > 0,
        value.len() > 0,
        !text::is_white(name[0]),
        !text::is_white(value[0]) && !text::is_white(value.last()),
    ensures
        value_of(name + seq![':'] + value, name) == Some(value),
        value_of(name + seq![':', ' '] + value, name) == Some(value),
{
    reveal_strlit(":");
    let a = name + seq![':'] + value;
    let b = name + seq![':', ' '] + value;
    let n = name.len() as int;
    assert(a[0] == name[0] && b[0] == name[0]);
    assert(a.last() == value.last() && b.last() == value.last());
    assert(text::trimmed_start(a) == a && text::trimmed_end(a) == a);
    assert(text::trimmed_start(b) == b && text::trimmed_end(b) == b);
    assert(a.take(n) =~= name && b.take(n) =~= name);
    let ra = a.skip(n);
    let rb = b.skip(n);
    assert(ra =~= seq![':'] + value && rb =~= seq![':', ' '] + value);
    assert(text::trimmed_start(ra) == ra) by {
        assert(ra[0] == ':');
    }
    assert(text::trimmed_start(rb) == rb) by {
        assert(rb[0] == ':');
    }
    assert(ra.take(1) =~= ":"@ && rb.take(1) =~= ":"@);
    assert(ra.skip(1) =~= value);
    let spaced = seq![' '] + value;
    assert(rb.skip(1) =~= spaced);
    assert(spaced[0] == ' ' && spaced.skip(1) =~= value);
    assert(text::trimmed_start(value) == value && text::trimmed_end(value) == value);
    reveal_with_fuel(text::trimmed_start, 2);
    assert(text::trimmed_start(spaced) == value);
}

/// A region is downloaded only from the device that listed it, and only where it
/// still lists it as it was.
pub proof fn law_downloads_need_their_device(
    wanted: DeviceModel,
    found: DeviceModel,
    regions: Seq<RegionModel>,
    region: RegionModel,
)
    ensures
        start_error(wanted, found, regions, region) is None <==> region_problem(region) is None
            && wanted == found && regions.contains(region),
        region_problem(region) is None && wanted != found ==> start_error(
            wanted,
            found,
            regions,
            region,
        ) == Some(DownloadError::DeviceChanged),
        region_problem(region) is None && wanted == found && !regions.contains(region)
            ==> start_error(wanted, found, regions, region) == Some(DownloadError::RegionChanged),
{
}

} // verus!
