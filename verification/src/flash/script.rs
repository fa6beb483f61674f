//! Flash scripts: sessions of steps that are carried out in order.

use vstd::prelude::*;

use crate::text;

verus! {

pub const SCRIPT_VERSION: u32 = 1;

pub const MAX_STEPS: usize = 256;

#[derive(Debug, Clone, Copy, PartialEq, Eq, Structural)]
pub enum RebootMode {
    System,
    Bootloader,
    Fastboot,
    Recovery,
    Continue,
}

/// A step of a session.
#[derive(Debug)]
pub enum FlashStep {
    WaitVcom { timeout_secs: u64 },
    VcomUpload { port: String, address: String, file: String },
    WaitFastboot { timeout_secs: u64 },
    FastbootAssert { variable: String, value: String },
    FastbootFlash { partition: String, file: String },
    FastbootErase { partition: String },
    FastbootOem { command: String },
    FastbootReboot { mode: RebootMode },
    Alert { message: String },
    Sleep { millis: u64 },
}

#[verifier::ext_equal]
pub enum StepModel {
    WaitVcom { timeout_secs: u64 },
    VcomUpload { port: Seq<char>, address: Seq<char>, file: Seq<char> },
    WaitFastboot { timeout_secs: u64 },
    FastbootAssert { variable: Seq<char>, value: Seq<char> },
    FastbootFlash { partition: Seq<char>, file: Seq<char> },
    FastbootErase { partition: Seq<char> },
    FastbootOem { command: Seq<char> },
    FastbootReboot { mode: RebootMode },
    Alert { message: Seq<char> },
    Sleep { millis: u64 },
}

impl View for FlashStep {
    type V = StepModel;

    open spec fn view(&self) -> StepModel {
        match self {
            FlashStep::WaitVcom { timeout_secs } => StepModel::WaitVcom {
                timeout_secs: *timeout_secs,
            },
            FlashStep::VcomUpload { port, address, file } => StepModel::VcomUpload {
                port: port@,
                address: address@,
                file: file@,
            },
            FlashStep::WaitFastboot { timeout_secs } => StepModel::WaitFastboot {
                timeout_secs: *timeout_secs,
            },
            FlashStep::FastbootAssert { variable, value } => StepModel::FastbootAssert {
                variable: variable@,
                value: value@,
            },
            FlashStep::FastbootFlash { partition, file } => StepModel::FastbootFlash {
                partition: partition@,
                file: file@,
            },
            FlashStep::FastbootErase { partition } => StepModel::FastbootErase {
                partition: partition@,
            },
            FlashStep::FastbootOem { command } => StepModel::FastbootOem { command: command@ },
            FlashStep::FastbootReboot { mode } => StepModel::FastbootReboot { mode: *mode },
            FlashStep::Alert { message } => StepModel::Alert { message: message@ },
            FlashStep::Sleep { millis } => StepModel::Sleep { millis: *millis },
        }
    }
}

pub open spec fn step_models(steps: Seq<FlashStep>) -> Seq<StepModel> {
    steps.map_values(|s: FlashStep| s@)
}

/// A flash script.
#[derive(Debug)]
pub struct FlashScript {
    pub version: u32,
    pub name: String,
    pub steps: Vec<FlashStep>,
}

/// What is wrong with a step.
#[derive(Debug, Clone, Copy, PartialEq, Eq, Structural)]
pub enum StepProblem {
    Timeout,
    EmptyPort,
    Address,
    EmptyFile,
    Variable,
    Partition,
    Command,
    Message,
    Duration,
    FileMissing,
    NotRegular,
}

/// What is wrong with a script. Steps are counted from one.
#[derive(Debug, Clone, Copy, PartialEq, Eq, Structural)]
pub enum ScriptError {
    UnsupportedVersion,
    NoSteps,
    TooManySteps,
    Step { number: usize, problem: StepProblem },
}

// ---------------------------------------------------------------------------
// Fields
// ---------------------------------------------------------------------------

/// True when a text holds a control character.
pub open spec fn has_control(s: Seq<char>) -> bool {
    exists|i: int| 0 <= i < s.len() && text::is_control(#[trigger] s[i])
}

/// True when a text holds white space.
pub open spec fn has_white(s: Seq<char>) -> bool {
    exists|i: int| 0 <= i < s.len() && text::is_white(#[trigger] s[i])
}

/// True when a text is nothing but white space.
pub open spec fn is_blank(s: Seq<char>) -> bool {
    text::trimmed(s).len() == 0
}

/// True for a single word.
pub open spec fn is_token(s: Seq<char>) -> bool {
    !is_blank(s) && !has_control(s) && !has_white(s)
}

pub fn holds_control(s: &[char]) -> (holds: bool)
    ensures
        holds == has_control(s@),
{
    let mut i: usize = 0;
    while i < s.len()
        invariant
            i <= s@.len(),
            forall|k: int| 0 <= k < i ==> !text::is_control(#[trigger] s@[k]),
        decreases s@.len() - i,
    {
        if text::control(s[i]) {
            assert(text::is_control(s@[i as int]));
            return true;
        }
        i += 1;
    }
    false
}

pub fn holds_white(s: &[char]) -> (holds: bool)
    ensures
        holds == has_white(s@),
{
    let mut i: usize = 0;
    while i < s.len()
        invariant
            i <= s@.len(),
            forall|k: int| 0 <= k < i ==> !text::is_white(#[trigger] s@[k]),
        decreases s@.len() - i,
    {
        if text::white(s[i]) {
            assert(text::is_white(s@[i as int]));
            return true;
        }
        i += 1;
    }
    false
}

pub fn blank(s: &[char]) -> (is: bool)
    ensures
        is == is_blank(s@),
{
    text::trim(s).len() == 0
}

pub fn is_fastboot_token(value: &str) -> (is: bool)
    ensures
        is == is_token(value@),
{
    let chars = text::chars_of(value);
    let s = chars.as_slice();
    !blank(s) && !holds_control(s) && !holds_white(s)
}

/// What stands behind the mark of a hexadecimal number.
pub open spec fn address_digits(value: Seq<char>) -> Seq<char> {
    let s = text::trimmed(value);
    if text::begins_with(s, "0x"@) || text::begins_with(s, "0X"@) {
        s.skip(2)
    } else {
        s
    }
}

/// The 32-bit address that a text writes in hexadecimal, with or without the
/// mark before it.
pub open spec fn address_of(value: Seq<char>) -> Option<u32> {
    let digits = address_digits(value);
    if text::all_digits(digits, 16) && text::digits_value(digits, 16) <= u32::MAX {
        Some(text::digits_value(digits, 16) as u32)
    } else {
        None
    }
}

pub fn parse_u32_address(value: &str) -> (address: Option<u32>)
    ensures
        address == address_of(value@),
{
    let chars = text::chars_of(value);
    let s = text::trim(chars.as_slice());
    proof {
        reveal_strlit("0x");
        reveal_strlit("0X");
    }
    let digits = if text::starts(s, "0x") || text::starts(s, "0X") {
        assert(s@.skip(2) =~= s@.subrange(2, s@.len() as int));
        &s[2..s.len()]
    } else {
        s
    };
    assert(digits@ == address_digits(value@));
    if digits.len() > 0 && digits[0] == '+' {
        assert(!text::is_digit_in(digits@[0], 16));
        return None;
    }
    assert(text::without_plus(digits@) == digits@);
    match text::parse_unsigned(digits, 16, 0xffff_ffff) {
        Some(number) => Some(number as u32),
        None => None,
    }
}

// ---------------------------------------------------------------------------
// Steps
// ---------------------------------------------------------------------------

/// The name of a kind of step.
pub open spec fn kind_of(step: StepModel) -> Seq<char> {
    match step {
        StepModel::WaitVcom { .. } => "wait_vcom"@,
        StepModel::VcomUpload { .. } => "vcom_upload"@,
        StepModel::WaitFastboot { .. } => "wait_fastboot"@,
        StepModel::FastbootAssert { .. } => "fastboot_assert"@,
        StepModel::FastbootFlash { .. } => "fastboot_flash"@,
        StepModel::FastbootErase { .. } => "fastboot_erase"@,
        StepModel::FastbootOem { .. } => "fastboot_oem"@,
        StepModel::FastbootReboot { .. } => "fastboot_reboot"@,
        StepModel::Alert { .. } => "alert"@,
        StepModel::Sleep { .. } => "sleep"@,
    }
}

/// What is wrong with a step, the first thing that is.
pub open spec fn problem_of(step: StepModel) -> Option<StepProblem> {
    match step {
        StepModel::WaitVcom { timeout_secs } => if timeout_secs == 0 {
            Some(StepProblem::Timeout)
        } else {
            None
        },
        StepModel::WaitFastboot { timeout_secs } => if timeout_secs == 0 {
            Some(StepProblem::Timeout)
        } else {
            None
        },
        StepModel::VcomUpload { port, address, file } => if is_blank(port) {
            Some(StepProblem::EmptyPort)
        } else if address_of(address) is None {
            Some(StepProblem::Address)
        } else if is_blank(file) {
            Some(StepProblem::EmptyFile)
        } else {
            None
        },
        StepModel::FastbootAssert { variable, value } => if !is_token(variable) {
            Some(StepProblem::Variable)
        } else {
            None
        },
        StepModel::FastbootFlash { partition, file } => if !is_token(partition) {
            Some(StepProblem::Partition)
        } else if is_blank(file) {
            Some(StepProblem::EmptyFile)
        } else {
            None
        },
        StepModel::FastbootErase { partition } => if !is_token(partition) {
            Some(StepProblem::Partition)
        } else {
            None
        },
        StepModel::FastbootOem { command } => if is_blank(command) || has_control(command) {
            Some(StepProblem::Command)
        } else {
            None
        },
        StepModel::FastbootReboot { mode } => None,
        StepModel::Alert { message } => if is_blank(message) || has_control(message) {
            Some(StepProblem::Message)
        } else {
            None
        },
        StepModel::Sleep { millis } => if millis == 0 {
            Some(StepProblem::Duration)
        } else {
            None
        },
    }
}

/// True when a text may be shown or sent as a line.
fn is_line(value: &str) -> (is: bool)
    ensures
        is == !(is_blank(value@) || has_control(value@)),
{
    let chars = text::chars_of(value);
    let s = chars.as_slice();
    !blank(s) && !holds_control(s)
}

fn is_blank_text(value: &str) -> (is: bool)
    ensures
        is == is_blank(value@),
{
    blank(text::chars_of(value).as_slice())
}

impl FlashStep {
    pub fn kind(&self) -> (kind: &'static str)
        ensures
            kind@ == kind_of(self@),
    {
        match self {
            FlashStep::WaitVcom { .. } => "wait_vcom",
            FlashStep::VcomUpload { .. } => "vcom_upload",
            FlashStep::WaitFastboot { .. } => "wait_fastboot",
            FlashStep::FastbootAssert { .. } => "fastboot_assert",
            FlashStep::FastbootFlash { .. } => "fastboot_flash",
            FlashStep::FastbootErase { .. } => "fastboot_erase",
            FlashStep::FastbootOem { .. } => "fastboot_oem",
            FlashStep::FastbootReboot { .. } => "fastboot_reboot",
            FlashStep::Alert { .. } => "alert",
            FlashStep::Sleep { .. } => "sleep",
        }
    }

    /// Checks the fields of a step.
    pub fn validate(&self) -> (valid: Result<(), StepProblem>)
        ensures
            match valid {
                Ok(()) => problem_of(self@) is None,
                Err(problem) => problem_of(self@) == Some(problem),
            },
    {
        match self {
            FlashStep::WaitVcom { timeout_secs } => if *timeout_secs == 0 {
                Err(StepProblem::Timeout)
            } else {
                Ok(())
            },
            FlashStep::WaitFastboot { timeout_secs } => if *timeout_secs == 0 {
                Err(StepProblem::Timeout)
            } else {
                Ok(())
            },
            FlashStep::VcomUpload { port, address, file } => if is_blank_text(port.as_str()) {
                Err(StepProblem::EmptyPort)
            } else if parse_u32_address(address.as_str()).is_none() {
                Err(StepProblem::Address)
            } else if is_blank_text(file.as_str()) {
                Err(StepProblem::EmptyFile)
            } else {
                Ok(())
            },
            FlashStep::FastbootAssert { variable, value } => if !is_fastboot_token(
                variable.as_str(),
            ) {
                Err(StepProblem::Variable)
            } else {
                Ok(())
            },
            FlashStep::FastbootFlash { partition, file } => if !is_fastboot_token(
                partition.as_str(),
            ) {
                Err(StepProblem::Partition)
            } else if is_blank_text(file.as_str()) {
                Err(StepProblem::EmptyFile)
            } else {
                Ok(())
            },
            FlashStep::FastbootErase { partition } => if !is_fastboot_token(partition.as_str()) {
                Err(StepProblem::Partition)
            } else {
                Ok(())
            },
            FlashStep::FastbootOem { command } => if !is_line(command.as_str()) {
                Err(StepProblem::Command)
            } else {
                Ok(())
            },
            FlashStep::FastbootReboot { mode } => Ok(()),
            FlashStep::Alert { message } => if !is_line(message.as_str()) {
                Err(StepProblem::Message)
            } else {
                Ok(())
            },
            FlashStep::Sleep { millis } => if *millis == 0 {
                Err(StepProblem::Duration)
            } else {
                Ok(())
            },
        }
    }

    /// The same step once more.
    pub fn copy(&self) -> (copy: FlashStep)
        ensures
            copy@ == self@,
    {
        match self {
            FlashStep::WaitVcom { timeout_secs } => FlashStep::WaitVcom {
                timeout_secs: *timeout_secs,
            },
            FlashStep::VcomUpload { port, address, file } => FlashStep::VcomUpload {
                port: port.clone(),
                address: address.clone(),
                file: file.clone(),
            },
            FlashStep::WaitFastboot { timeout_secs } => FlashStep::WaitFastboot {
                timeout_secs: *timeout_secs,
            },
            FlashStep::FastbootAssert { variable, value } => FlashStep::FastbootAssert {
                variable: variable.clone(),
                value: value.clone(),
            },
            FlashStep::FastbootFlash { partition, file } => FlashStep::FastbootFlash {
                partition: partition.clone(),
                file: file.clone(),
            },
            FlashStep::FastbootErase { partition } => FlashStep::FastbootErase {
                partition: partition.clone(),
            },
            FlashStep::FastbootOem { command } => FlashStep::FastbootOem {
                command: command.clone(),
            },
            FlashStep::FastbootReboot { mode } => FlashStep::FastbootReboot { mode: *mode },
            FlashStep::Alert { message } => FlashStep::Alert { message: message.clone() },
            FlashStep::Sleep { millis } => FlashStep::Sleep { millis: *millis },
        }
    }
}

// ---------------------------------------------------------------------------
// Scripts
// ---------------------------------------------------------------------------

/// The first thing that is wrong with the steps from `from` on.
pub open spec fn steps_error(steps: Seq<StepModel>, from: int) -> Option<ScriptError>
    decreases steps.len() - from,
{
    if from < 0 || from >= steps.len() {
        None
    } else {
        match problem_of(steps[from]) {
            Some(problem) => Some(ScriptError::Step { number: (from + 1) as usize, problem }),
            None => steps_error(steps, from + 1),
        }
    }
}

/// The first thing that is wrong with a script.
pub open spec fn script_error(version: u32, steps: Seq<StepModel>) -> Option<ScriptError> {
    if version != SCRIPT_VERSION {
        Some(ScriptError::UnsupportedVersion)
    } else if steps.len() == 0 {
        Some(ScriptError::NoSteps)
    } else if steps.len() > MAX_STEPS {
        Some(ScriptError::TooManySteps)
    } else {
        steps_error(steps, 0)
    }
}

/// What is said of a problem with a step; `path` leads to the file that it is
/// about.
pub open spec fn problem_text(problem: StepProblem, path: Seq<char>) -> Seq<char> {
    match problem {
        StepProblem::Timeout => "timeout must be at least 1 second"@,
        StepProblem::EmptyPort => "port must not be empty"@,
        StepProblem::Address => "address must be a hexadecimal 32-bit value"@,
        StepProblem::EmptyFile => "file must not be empty"@,
        StepProblem::Variable => "variable must be a single non-empty word"@,
        StepProblem::Partition => "partition must be a single non-empty word"@,
        StepProblem::Command => "command must not be empty or contain control characters"@,
        StepProblem::Message => "message must not be empty or contain control characters"@,
        StepProblem::Duration => "duration must be at least 1 millisecond"@,
        StepProblem::FileMissing => "file not found: "@ + path,
        StepProblem::NotRegular => "not a regular file: "@ + path,
    }
}

/// What is said of a script that was refused.
pub open spec fn refusal_of(
    version: u32,
    steps: Seq<StepModel>,
    error: ScriptError,
    path: Seq<char>,
) -> Seq<char> {
    match error {
        ScriptError::UnsupportedVersion => "unsupported flash script version "@ + text::decimal(
            version as nat,
        ) + " (expected "@ + text::decimal(SCRIPT_VERSION as nat) + ")"@,
        ScriptError::NoSteps => "flash script must contain at least one step"@,
        ScriptError::TooManySteps => "flash script exceeds the maximum of "@ + text::decimal(
            MAX_STEPS as nat,
        ) + " steps"@,
        ScriptError::Step { number, problem } => "step "@ + text::decimal(number as nat) + " ("@
            + kind_of(steps[number - 1]) + "): "@ + problem_text(problem, path),
    }
}

fn append_problem(out: &mut Vec<char>, problem: StepProblem, path: &str)
    ensures
        final(out)@ == old(out)@ + problem_text(problem, path@),
{
    match problem {
        StepProblem::Timeout => text::append_text(out, "timeout must be at least 1 second"),
        StepProblem::EmptyPort => text::append_text(out, "port must not be empty"),
        StepProblem::Address => text::append_text(
            out,
            "address must be a hexadecimal 32-bit value",
        ),
        StepProblem::EmptyFile => text::append_text(out, "file must not be empty"),
        StepProblem::Variable => text::append_text(out, "variable must be a single non-empty word"),
        StepProblem::Partition => text::append_text(
            out,
            "partition must be a single non-empty word",
        ),
        StepProblem::Command => text::append_text(
            out,
            "command must not be empty or contain control characters",
        ),
        StepProblem::Message => text::append_text(
            out,
            "message must not be empty or contain control characters",
        ),
        StepProblem::Duration => text::append_text(out, "duration must be at least 1 millisecond"),
        StepProblem::FileMissing => {
            text::append_text(out, "file not found: ");
            text::append_text(out, path);
        },
        StepProblem::NotRegular => {
            text::append_text(out, "not a regular file: ");
            text::append_text(out, path);
        },
    }
    assert(out@ =~= old(out)@ + problem_text(problem, path@));
}

/// A script whose files were found.
#[derive(Debug)]
pub struct ResolvedScript {
    pub name: String,
    pub steps: Vec<ResolvedStep>,
}

/// A step, and the file that it uses.
#[derive(Debug)]
pub struct ResolvedStep {
    pub step: FlashStep,
    pub file: Option<String>,
}

impl ResolvedStep {
    pub fn kind(&self) -> (kind: &'static str)
        ensures
            kind@ == kind_of(self.step@),
    {
        self.step.kind()
    }
}

/// What there is at a path: nothing, no regular file, or a file, with the path
/// that leads to it without detours.
#[derive(Debug)]
pub enum Located {
    Missing,
    NotRegular,
    File { path: String },
}

/// The file that a step uses.
pub open spec fn file_in(step: StepModel) -> Option<Seq<char>> {
    match step {
        StepModel::VcomUpload { port, address, file } => Some(file),
        StepModel::FastbootFlash { partition, file } => Some(file),
        _ => None,
    }
}

/// Where the path of a file leads: to the same place from everywhere, or to the
/// path that it has in the directory of the script.
#[derive(Debug)]
pub enum Placed {
    Absolute,
    Within { path: String },
}

/// True when the file of a script may stand at `path`: an absolute path is taken
/// as it is, another one in the directory of the script, as `place` says of both.
pub open spec fn leads_to<P: Fn(&str, &str) -> Placed>(
    place: P,
    base: Seq<char>,
    file: Seq<char>,
    path: Seq<char>,
) -> bool {
    exists|directory: &str, asked: &str, answer: Placed|
        {
            &&& directory@ == base
            &&& asked@ == text::trimmed(file)
            &&& #[trigger] call_ensures(place, (directory, asked), answer)
            &&& match answer {
                Placed::Absolute => path == text::trimmed(file),
                Placed::Within { path: joined } => path == joined@,
            }
        }
}

/// True when `locate` may find the file at a path.
pub open spec fn finds<F: Fn(&str) -> Located>(locate: F, path: Seq<char>, found: Seq<char>) -> bool {
    exists|asked: &str, file: String|
        asked@ == path && file@ == found && #[trigger] call_ensures(
            locate,
            (asked,),
            Located::File { path: file },
        )
}

/// True when `locate` may answer that there is no file at a path.
pub open spec fn misses<F: Fn(&str) -> Located>(
    locate: F,
    path: Seq<char>,
    problem: StepProblem,
) -> bool {
    exists|asked: &str, answer: Located|
        asked@ == path && #[trigger] call_ensures(locate, (asked,), answer) && match answer {
            Located::Missing => problem == StepProblem::FileMissing,
            Located::NotRegular => problem == StepProblem::NotRegular,
            Located::File { path } => false,
        }
}

/// True when the file of a script may be found.
pub open spec fn is_found<P: Fn(&str, &str) -> Placed, F: Fn(&str) -> Located>(
    place: P,
    locate: F,
    base: Seq<char>,
    file: Seq<char>,
    found: Seq<char>,
) -> bool {
    exists|path: Seq<char>|
        #[trigger] leads_to(place, base, file, path) && finds(locate, path, found)
}

/// True when the file of a script may be missed.
pub open spec fn is_lost<P: Fn(&str, &str) -> Placed, F: Fn(&str) -> Located>(
    place: P,
    locate: F,
    base: Seq<char>,
    file: Seq<char>,
    problem: StepProblem,
) -> bool {
    exists|path: Seq<char>|
        #[trigger] leads_to(place, base, file, path) && misses(locate, path, problem)
}

/// True when a step is resolved: it is the same, and its file was found.
pub open spec fn is_resolved<P: Fn(&str, &str) -> Placed, F: Fn(&str) -> Located>(
    place: P,
    locate: F,
    base: Seq<char>,
    step: StepModel,
    resolved: ResolvedStep,
) -> bool {
    &&& resolved.step@ == step
    &&& match file_in(step) {
        None => resolved.file is None,
        Some(file) => resolved.file is Some && is_found(
            place,
            locate,
            base,
            file,
            resolved.file->0@,
        ),
    }
}

/// True when the file of a step may be missed, and those before it are found.
pub open spec fn is_missed<P: Fn(&str, &str) -> Placed, F: Fn(&str) -> Located>(
    place: P,
    locate: F,
    base: Seq<char>,
    steps: Seq<StepModel>,
    error: ScriptError,
) -> bool {
    exists|i: int|
        {
            &&& 0 <= i < steps.len()
            &&& file_in(#[trigger] steps[i]) is Some
            &&& error matches ScriptError::Step { number, problem }
            &&& number == i + 1
            &&& is_lost(place, locate, base, file_in(steps[i])->0, problem)
            &&& forall|k: int| 0 <= k < i ==> is_findable(place, locate, base, #[trigger] steps[k])
        }
}

/// True when a step needs no file, or its file may be found.
pub open spec fn is_findable<P: Fn(&str, &str) -> Placed, F: Fn(&str) -> Located>(
    place: P,
    locate: F,
    base: Seq<char>,
    step: StepModel,
) -> bool {
    match file_in(step) {
        None => true,
        Some(file) => exists|found: Seq<char>| is_found(place, locate, base, file, found),
    }
}

fn resolve_step<P: Fn(&str, &str) -> Placed, F: Fn(&str) -> Located>(
    step: &FlashStep,
    base: &str,
    place: &P,
    locate: &F,
) -> (resolved: Result<ResolvedStep, StepProblem>)
    requires
        forall|directory: &str, file: &str| call_requires(*place, (directory, file)),
        forall|path: &str| call_requires(*locate, (path,)),
    ensures
        match resolved {
            Ok(found) => is_resolved(*place, *locate, base@, step@, found),
            Err(problem) => file_in(step@) is Some && is_lost(
                *place,
                *locate,
                base@,
                file_in(step@)->0,
                problem,
            ),
        },
{
    let file = match step {
        FlashStep::VcomUpload { port, address, file } => file,
        FlashStep::FastbootFlash { partition, file } => file,
        _ => {
            return Ok(ResolvedStep { step: step.copy(), file: None });
        },
    };
    let chars = text::chars_of(file.as_str());
    let relative = text::string_of(text::trim(chars.as_slice()));
    let named = relative.as_str();
    let placed = place(base, named);
    assert(call_ensures(*place, (base, named), placed));
    let path = match placed {
        Placed::Absolute => relative,
        Placed::Within { path } => path,
    };
    assert(leads_to(*place, base@, file@, path@));
    let question = path.as_str();
    let answer = locate(question);
    assert(call_ensures(*locate, (question,), answer));
    match answer {
        Located::Missing => {
            assert(misses(*locate, path@, StepProblem::FileMissing));
            Err(StepProblem::FileMissing)
        },
        Located::NotRegular => {
            assert(misses(*locate, path@, StepProblem::NotRegular));
            Err(StepProblem::NotRegular)
        },
        Located::File { path: found } => {
            assert(finds(*locate, path@, found@));
            Ok(ResolvedStep { step: step.copy(), file: Some(found) })
        },
    }
}

impl FlashScript {
    /// Checks a script: its version, the number of its steps, and each step.
    pub fn validate(&self) -> (valid: Result<(), ScriptError>)
        ensures
            match valid {
                Ok(()) => script_error(self.version, step_models(self.steps@)) is None,
                Err(error) => script_error(self.version, step_models(self.steps@)) == Some(error),
            },
    {
        let ghost all = step_models(self.steps@);
        assert(all.len() == self.steps@.len());
        if self.version != SCRIPT_VERSION {
            return Err(ScriptError::UnsupportedVersion);
        }
        if self.steps.len() == 0 {
            return Err(ScriptError::NoSteps);
        }
        if self.steps.len() > MAX_STEPS {
            return Err(ScriptError::TooManySteps);
        }
        let mut n: usize = 0;
        while n < self.steps.len()
            invariant
                n <= self.steps@.len(),
                0 < self.steps@.len() <= MAX_STEPS,
                self.version == SCRIPT_VERSION,
                all == step_models(self.steps@),
                all.len() == self.steps@.len(),
                steps_error(all, 0) == steps_error(all, n as int),
            decreases self.steps@.len() - n,
        {
            assert(all[n as int] == self.steps@[n as int]@);
            if let Err(problem) = self.steps[n].validate() {
                return Err(ScriptError::Step { number: n + 1, problem });
            }
            n += 1;
        }
        Ok(())
    }

    /// Says why a script was refused. Where a file is the reason, `path` leads to
    /// it.
    pub fn refusal_text(&self, error: ScriptError, path: &str) -> (message: String)
        requires
            error matches ScriptError::Step { number, problem } ==> 1 <= number
                <= self.steps@.len(),
        ensures
            message@ == refusal_of(self.version, step_models(self.steps@), error, path@),
    {
        let mut out: Vec<char> = Vec::new();
        match error {
            ScriptError::UnsupportedVersion => {
                text::append_text(&mut out, "unsupported flash script version ");
                text::push_decimal(&mut out, self.version as u64);
                text::append_text(&mut out, " (expected ");
                text::push_decimal(&mut out, SCRIPT_VERSION as u64);
                text::append_text(&mut out, ")");
            },
            ScriptError::NoSteps => {
                text::append_text(&mut out, "flash script must contain at least one step");
            },
            ScriptError::TooManySteps => {
                text::append_text(&mut out, "flash script exceeds the maximum of ");
                text::push_decimal(&mut out, MAX_STEPS as u64);
                text::append_text(&mut out, " steps");
            },
            ScriptError::Step { number, problem } => {
                assert(step_models(self.steps@)[number - 1] == self.steps@[number - 1]@);
                text::append_text(&mut out, "step ");
                text::push_decimal(&mut out, number as u64);
                text::append_text(&mut out, " (");
                text::append_text(&mut out, self.steps[number - 1].kind());
                text::append_text(&mut out, "): ");
                append_problem(&mut out, problem, path);
            },
        }
        assert(out@ =~= refusal_of(self.version, step_models(self.steps@), error, path@));
        text::string_of(out.as_slice())
    }

    /// Checks a script and finds its files, relative to the directory `base`.
    /// `place` tells where a path leads from that directory, and `locate` what
    /// there is at a path.
    pub fn resolve<P: Fn(&str, &str) -> Placed, F: Fn(&str) -> Located>(
        &self,
        base: &str,
        place: &P,
        locate: &F,
    ) -> (resolved: Result<ResolvedScript, ScriptError>)
        requires
            forall|directory: &str, file: &str| call_requires(*place, (directory, file)),
            forall|path: &str| call_requires(*locate, (path,)),
        ensures
            ({
                let steps = step_models(self.steps@);
                match script_error(self.version, steps) {
                    Some(error) => resolved matches Err(found) && found == error,
                    None => match resolved {
                        Ok(script) => {
                            &&& script.name@ == self.name@
                            &&& script.steps@.len() == steps.len()
                            &&& forall|i: int|
                                0 <= i < steps.len() ==> is_resolved(
                                    *place,
                                    *locate,
                                    base@,
                                    steps[i],
                                    #[trigger] script.steps@[i],
                                )
                        },
                        Err(error) => is_missed(*place, *locate, base@, steps, error),
                    },
                }
            }),
    {
        if let Err(error) = self.validate() {
            return Err(error);
        }
        let ghost all = step_models(self.steps@);
        let mut steps: Vec<ResolvedStep> = Vec::new();
        let mut n: usize = 0;
        while n < self.steps.len()
            invariant
                n <= self.steps@.len(),
                all == step_models(self.steps@),
                all.len() == self.steps@.len(),
                forall|directory: &str, file: &str| call_requires(*place, (directory, file)),
                script_error(self.version, all) is None,
                forall|path: &str| call_requires(*locate, (path,)),
                steps@.len() == n,
                forall|i: int|
                    0 <= i < n ==> is_resolved(*place, *locate, base@, all[i], #[trigger] steps@[i]),
            decreases self.steps@.len() - n,
        {
            assert(all[n as int] == self.steps@[n as int]@);
            match resolve_step(&self.steps[n], base, place, locate) {
                Ok(step) => {
                    steps.push(step);
                },
                Err(problem) => {
                    assert(self.steps.len() <= usize::MAX);
                    let error = ScriptError::Step { number: n + 1, problem };
                    assert(file_in(all[n as int]) is Some);
                    assert forall|k: int| 0 <= k < n implies is_findable(
                        *place,
                        *locate,
                        base@,
                        #[trigger] all[k],
                    ) by {
                        assert(is_resolved(*place, *locate, base@, all[k], steps@[k]));
                        if file_in(all[k]) is Some {
                            assert(is_found(
                                *place,
                                *locate,
                                base@,
                                file_in(all[k])->0,
                                steps@[k].file->0@,
                            ));
                        }
                    }
                    assert(is_missed(*place, *locate, base@, all, error));
                    return Err(error);
                },
            }
            n += 1;
        }
        Ok(ResolvedScript { name: self.name.clone(), steps })
    }
}

// ---------------------------------------------------------------------------
// Laws
// ---------------------------------------------------------------------------

/// True when a text holds something other than white space.
pub open spec fn says_something(s: Seq<char>) -> bool {
    exists|i: int| 0 <= i < s.len() && !text::is_white(#[trigger] s[i])
}

pub(crate) proof fn lemma_blank(s: Seq<char>)
    ensures
        is_blank(s) <==> !says_something(s),
{
    text::law_trimming_takes_white_space_off(s);
    let t = text::trimmed(s);
    let (from, to) = choose|from: int, to: int| #[trigger] text::is_core(s, t, from, to);
    assert(text::is_core(s, t, from, to));
    if t.len() > 0 {
        assert(t[0] == s[from]);
        assert(!text::is_white(s[from]));
    } else {
        assert(from == to);
        assert forall|i: int| 0 <= i < s.len() implies text::is_white(#[trigger] s[i]) by {}
    }
}

/// True for one word: characters without white space or control characters among
/// them.
pub open spec fn is_one_word(s: Seq<char>) -> bool {
    &&& s.len() > 0
    &&& forall|i: int|
        0 <= i < s.len() ==> !text::is_white(#[trigger] s[i]) && !text::is_control(s[i])
}

/// True for a line that says something.
pub open spec fn is_full_line(s: Seq<char>) -> bool {
    &&& says_something(s)
    &&& forall|i: int| 0 <= i < s.len() ==> !text::is_control(#[trigger] s[i])
}

proof fn lemma_word(s: Seq<char>)
    ensures
        is_token(s) <==> is_one_word(s),
        !is_blank(s) && !has_control(s) <==> is_full_line(s),
{
    lemma_blank(s);
    if is_one_word(s) {
        assert(!text::is_white(s[0]));
    }
    if is_token(s) {
        let i = choose|i: int| 0 <= i < s.len() && !text::is_white(#[trigger] s[i]);
        assert(s.len() > 0);
    }
}

/// True when every field of a step is as it has to be.
pub open spec fn is_sound_step(step: StepModel) -> bool {
    match step {
        StepModel::WaitVcom { timeout_secs } => timeout_secs >= 1,
        StepModel::WaitFastboot { timeout_secs } => timeout_secs >= 1,
        StepModel::VcomUpload { port, address, file } => says_something(port) && address_of(
            address,
        ) is Some && says_something(file),
        StepModel::FastbootAssert { variable, value } => is_one_word(variable),
        StepModel::FastbootFlash { partition, file } => is_one_word(partition) && says_something(
            file,
        ),
        StepModel::FastbootErase { partition } => is_one_word(partition),
        StepModel::FastbootOem { command } => is_full_line(command),
        StepModel::FastbootReboot { mode } => true,
        StepModel::Alert { message } => is_full_line(message),
        StepModel::Sleep { millis } => millis >= 1,
    }
}

proof fn lemma_sound_step(step: StepModel)
    ensures
        problem_of(step) is None <==> is_sound_step(step),
{
    match step {
        StepModel::VcomUpload { port, address, file } => {
            lemma_blank(port);
            lemma_blank(file);
        },
        StepModel::FastbootAssert { variable, value } => {
            lemma_word(variable);
        },
        StepModel::FastbootFlash { partition, file } => {
            lemma_word(partition);
            lemma_blank(file);
        },
        StepModel::FastbootErase { partition } => {
            lemma_word(partition);
        },
        StepModel::FastbootOem { command } => {
            lemma_word(command);
        },
        StepModel::Alert { message } => {
            lemma_word(message);
        },
        _ => {},
    }
}

proof fn lemma_steps_sound(steps: Seq<StepModel>, from: int)
    requires
        0 <= from <= steps.len() <= usize::MAX,
    ensures
        match steps_error(steps, from) {
            None => forall|i: int| from <= i < steps.len() ==> is_sound_step(#[trigger] steps[i]),
            Some(ScriptError::Step { number, problem }) => {
                &&& from < number <= steps.len()
                &&& !is_sound_step(steps[number - 1])
                &&& problem_of(steps[number - 1]) == Some(problem)
                &&& forall|i: int| from <= i < number - 1 ==> is_sound_step(#[trigger] steps[i])
            },
            Some(_) => false,
        },
    decreases steps.len() - from,
{
    if from < steps.len() {
        lemma_sound_step(steps[from]);
        lemma_steps_sound(steps, from + 1);
    }
}

/// A script is accepted exactly where it has version 1, has 1 to 256 steps, and
/// all of its steps are sound. Otherwise the first thing that is wrong is said,
/// with the number of the first step that is not sound, counted from one.
pub proof fn law_sound_scripts_are_accepted(version: u32, steps: Seq<StepModel>)
    requires
        steps.len() <= usize::MAX,
    ensures
        script_error(version, steps) is None <==> version == 1 && 1 <= steps.len() <= 256 && (
        forall|i: int| 0 <= i < steps.len() ==> is_sound_step(#[trigger] steps[i])),
        script_error(version, steps) == Some(ScriptError::UnsupportedVersion) <==> version != 1,
        script_error(version, steps) == Some(ScriptError::NoSteps) <==> version == 1 && steps.len()
            == 0,
        script_error(version, steps) == Some(ScriptError::TooManySteps) <==> version == 1
            && steps.len() > 256,
        script_error(version, steps) matches Some(ScriptError::Step { number, problem }) ==> {
            &&& 1 <= number <= steps.len()
            &&& !is_sound_step(steps[number - 1])
            &&& forall|i: int| 0 <= i < number - 1 ==> is_sound_step(#[trigger] steps[i])
        },
{
    lemma_steps_sound(steps, 0);
    if let Some(ScriptError::Step { number, problem }) = steps_error(steps, 0) {
        assert(!is_sound_step(steps[number - 1]));
    }
}

/// What is said of a step fits its problem: an upload without a port, without a
/// hexadecimal address of 32 bits or without a file, in this order, and so on.
pub proof fn law_problems_name_their_field(step: StepModel)
    ensures
        match problem_of(step) {
            Some(StepProblem::Timeout) => match step {
                StepModel::WaitVcom { timeout_secs } => timeout_secs == 0,
                StepModel::WaitFastboot { timeout_secs } => timeout_secs == 0,
                _ => false,
            },
            Some(StepProblem::EmptyPort) => step matches StepModel::VcomUpload { port, address, file }
                && !says_something(port),
            Some(StepProblem::Address) => step matches StepModel::VcomUpload { port, address, file }
                && says_something(port) && address_of(address) is None,
            Some(StepProblem::EmptyFile) => match step {
                StepModel::VcomUpload { port, address, file } => says_something(port) && address_of(
                    address,
                ) is Some && !says_something(file),
                StepModel::FastbootFlash { partition, file } => is_one_word(partition)
                    && !says_something(file),
                _ => false,
            },
            Some(StepProblem::Variable) => step is FastbootAssert,
            Some(StepProblem::Partition) => step is FastbootFlash || step is FastbootErase,
            Some(StepProblem::Command) => step is FastbootOem,
            Some(StepProblem::Message) => step is Alert,
            Some(StepProblem::Duration) => step == (StepModel::Sleep { millis: 0 }),
            Some(_) => false,
            None => true,
        },
{
    match step {
        StepModel::VcomUpload { port, address, file } => {
            lemma_blank(port);
            lemma_blank(file);
        },
        StepModel::FastbootFlash { partition, file } => {
            lemma_word(partition);
            lemma_blank(file);
        },
        _ => {},
    }
}

/// An address is written in hexadecimal digits, with `0x` or `0X` before them or
/// without, and white space around them. Its value is that of the digits, where
/// it fits in 32 bits.
pub proof fn law_addresses_are_hexadecimal(value: Seq<char>, digits: Seq<char>)
    requires
        digits.len() > 0,
        forall|i: int| 0 <= i < digits.len() ==> text::is_digit_in(#[trigger] digits[i], 16),
        text::trimmed(value) == digits || text::trimmed(value) == "0x"@ + digits || text::trimmed(
            value,
        ) == "0X"@ + digits,
    ensures
        text::digits_value(digits, 16) <= 0xffff_ffff ==> address_of(value) == Some(
            text::digits_value(digits, 16) as u32,
        ),
        text::digits_value(digits, 16) > 0xffff_ffff ==> address_of(value) is None,
{
    reveal_strlit("0x");
    reveal_strlit("0X");
    let s = text::trimmed(value);
    if s == digits {
        if text::begins_with(s, "0x"@) {
            assert(s.take(2)[1] == s[1]);
        }
        if text::begins_with(s, "0X"@) {
            assert(s.take(2)[1] == s[1]);
        }
    } else {
        assert(s.skip(2) =~= digits);
        assert(s.take(2) =~= if s == "0x"@ + digits {
            "0x"@
        } else {
            "0X"@
        });
    }
}

/// What is no hexadecimal number is no address.
pub proof fn law_other_texts_are_no_addresses(value: Seq<char>, i: int)
    requires
        2 <= i < text::trimmed(value).len(),
        !text::is_digit_in(text::trimmed(value)[i], 16),
    ensures
        address_of(value) is None,
{
    reveal_strlit("0x");
    reveal_strlit("0X");
    let s = text::trimmed(value);
    let digits = address_digits(value);
    if digits == s {
        assert(digits[i] == s[i]);
    } else {
        assert(digits[i - 2] == s[i]);
    }
}

/// Kinds of steps have the names under which scripts list them.
pub proof fn law_kinds_have_names(step: StepModel)
    ensures
        match step {
            StepModel::WaitVcom { .. } => kind_of(step) == "wait_vcom"@,
            StepModel::VcomUpload { .. } => kind_of(step) == "vcom_upload"@,
            StepModel::WaitFastboot { .. } => kind_of(step) == "wait_fastboot"@,
            StepModel::FastbootAssert { .. } => kind_of(step) == "fastboot_assert"@,
            StepModel::FastbootFlash { .. } => kind_of(step) == "fastboot_flash"@,
            StepModel::FastbootErase { .. } => kind_of(step) == "fastboot_erase"@,
            StepModel::FastbootOem { .. } => kind_of(step) == "fastboot_oem"@,
            StepModel::FastbootReboot { .. } => kind_of(step) == "fastboot_reboot"@,
            StepModel::Alert { .. } => kind_of(step) == "alert"@,
            StepModel::Sleep { .. } => kind_of(step) == "sleep"@,
        },
{
}

/// Uploads and flashing use the file that they name, and no other step uses one.
pub proof fn law_files_of_steps(step: StepModel)
    ensures
        match step {
            StepModel::VcomUpload { port, address, file } => file_in(step) == Some(file),
            StepModel::FastbootFlash { partition, file } => file_in(step) == Some(file),
            _ => file_in(step) is None,
        },
{
}

/// What is said of a refused step has its number, its kind and what is wrong with
/// it, with the path of a file that is not there.
pub proof fn law_refusals_name_their_step(
    version: u32,
    steps: Seq<StepModel>,
    number: usize,
    problem: StepProblem,
    path: Seq<char>,
)
    ensures
        ({
            let said = refusal_of(version, steps, ScriptError::Step { number, problem }, path);
            let head = "step "@ + text::decimal(number as nat) + " ("@ + kind_of(steps[number - 1])
                + "): "@;
            match problem {
                StepProblem::Timeout => said == head + "timeout must be at least 1 second"@,
                StepProblem::EmptyPort => said == head + "port must not be empty"@,
                StepProblem::Address => said == head
                    + "address must be a hexadecimal 32-bit value"@,
                StepProblem::EmptyFile => said == head + "file must not be empty"@,
                StepProblem::Variable => said == head
                    + "variable must be a single non-empty word"@,
                StepProblem::Partition => said == head
                    + "partition must be a single non-empty word"@,
                StepProblem::Command => said == head
                    + "command must not be empty or contain control characters"@,
                StepProblem::Message => said == head
                    + "message must not be empty or contain control characters"@,
                StepProblem::Duration => said == head + "duration must be at least 1 millisecond"@,
                StepProblem::FileMissing => said == head + ("file not found: "@ + path),
                StepProblem::NotRegular => said == head + ("not a regular file: "@ + path),
            }
        }),
        refusal_of(version, steps, ScriptError::UnsupportedVersion, path)
            == "unsupported flash script version "@ + text::decimal(version as nat)
            + " (expected "@ + text::decimal(1) + ")"@,
        refusal_of(version, steps, ScriptError::NoSteps, path)
            == "flash script must contain at least one step"@,
{
}

/// A resolved step is the step itself, with a file exactly where it uses one.
pub proof fn law_resolved_steps_stay_the_same<P: Fn(&str, &str) -> Placed, F: Fn(&str) -> Located>(
    place: P,
    locate: F,
    base: Seq<char>,
    step: StepModel,
    resolved: ResolvedStep,
)
    requires
        is_resolved(place, locate, base, step, resolved),
    ensures
        resolved.step@ == step,
        resolved.file is Some <==> step is VcomUpload || step is FastbootFlash,
{
}

} // verus!
