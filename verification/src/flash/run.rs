//! Running flash scripts: what to ask of devices and of the user, and what
//! follows from the replies.

use vstd::prelude::*;

use crate::flash::script;
use crate::flash::script::{FlashStep, RebootMode, ResolvedScript, ResolvedStep, StepModel};
use crate::oeminfo::payload::text_of;
use crate::text;

verus! {

/// How long to wait before devices are looked for again.
pub const POLL_MILLIS: u64 = 500;

/// A serial port.
#[derive(Debug)]
pub struct PortChoice {
    pub name: String,
    pub description: String,
}

#[verifier::ext_equal]
pub struct PortModel {
    pub name: Seq<char>,
    pub description: Seq<char>,
}

impl View for PortChoice {
    type V = PortModel;

    open spec fn view(&self) -> PortModel {
        PortModel { name: self.name@, description: self.description@ }
    }
}

pub open spec fn port_models(ports: Seq<PortChoice>) -> Seq<PortModel> {
    ports.map_values(|p: PortChoice| p@)
}

/// What a run did.
#[derive(Debug)]
pub struct RunSummary {
    pub name: String,
    pub completed: usize,
    pub total: usize,
}

/// Why a step failed.
#[derive(Debug, Clone, Copy, PartialEq, Eq, Structural)]
pub enum RunError {
    VcomTimeout,
    FastbootTimeout,
    /// There is not exactly one fastboot device.
    DeviceCount,
    NoPort,
    UnknownPort,
    InvalidAddress,
    MissingFile,
    EmptyFile,
    /// A variable of the device has another value than the script asks for.
    WrongValue,
    /// What was asked for could not be done.
    Refused,
    /// The reply is none to what was asked.
    Unexpected,
}

// ---------------------------------------------------------------------------
// Descriptions
// ---------------------------------------------------------------------------

pub open spec fn mode_text(mode: RebootMode) -> Seq<char> {
    match mode {
        RebootMode::System => "system"@,
        RebootMode::Bootloader => "bootloader"@,
        RebootMode::Fastboot => "fastboot"@,
        RebootMode::Recovery => "recovery"@,
        RebootMode::Continue => "continue"@,
    }
}

pub fn mode_name(mode: RebootMode) -> (name: &'static str)
    ensures
        name@ == mode_text(mode),
{
    match mode {
        RebootMode::System => "system",
        RebootMode::Bootloader => "bootloader",
        RebootMode::Fastboot => "fastboot",
        RebootMode::Recovery => "recovery",
        RebootMode::Continue => "continue",
    }
}

/// What is said of a step.
pub open spec fn description_of(step: StepModel) -> Seq<char> {
    match step {
        StepModel::WaitVcom { timeout_secs } => "wait for VCOM port (up to "@ + text::decimal(
            timeout_secs as nat,
        ) + "s)"@,
        StepModel::VcomUpload { port, address, file } => "VCOM upload "@ + file + " via "@ + port,
        StepModel::WaitFastboot { timeout_secs } => "wait for fastboot device (up to "@
            + text::decimal(timeout_secs as nat) + "s)"@,
        StepModel::FastbootAssert { variable, value } => "assert "@ + variable + " = "@ + value,
        StepModel::FastbootFlash { partition, file } => "flash "@ + file + " to "@ + partition,
        StepModel::FastbootErase { partition } => "erase "@ + partition,
        StepModel::FastbootOem { command } => "oem "@ + command,
        StepModel::FastbootReboot { mode } => "reboot ("@ + mode_text(mode) + ")"@,
        StepModel::Alert { message } => "alert: "@ + message,
        StepModel::Sleep { millis } => "sleep "@ + text::decimal(millis as nat) + " ms"@,
    }
}

pub fn describe(step: &FlashStep) -> (description: String)
    ensures
        description@ == description_of(step@),
{
    let mut out: Vec<char> = Vec::new();
    match step {
        FlashStep::WaitVcom { timeout_secs } => {
            text::append_text(&mut out, "wait for VCOM port (up to ");
            text::push_decimal(&mut out, *timeout_secs);
            text::append_text(&mut out, "s)");
        },
        FlashStep::VcomUpload { port, address, file } => {
            text::append_text(&mut out, "VCOM upload ");
            text::append_text(&mut out, file.as_str());
            text::append_text(&mut out, " via ");
            text::append_text(&mut out, port.as_str());
        },
        FlashStep::WaitFastboot { timeout_secs } => {
            text::append_text(&mut out, "wait for fastboot device (up to ");
            text::push_decimal(&mut out, *timeout_secs);
            text::append_text(&mut out, "s)");
        },
        FlashStep::FastbootAssert { variable, value } => {
            text::append_text(&mut out, "assert ");
            text::append_text(&mut out, variable.as_str());
            text::append_text(&mut out, " = ");
            text::append_text(&mut out, value.as_str());
        },
        FlashStep::FastbootFlash { partition, file } => {
            text::append_text(&mut out, "flash ");
            text::append_text(&mut out, file.as_str());
            text::append_text(&mut out, " to ");
            text::append_text(&mut out, partition.as_str());
        },
        FlashStep::FastbootErase { partition } => {
            text::append_text(&mut out, "erase ");
            text::append_text(&mut out, partition.as_str());
        },
        FlashStep::FastbootOem { command } => {
            text::append_text(&mut out, "oem ");
            text::append_text(&mut out, command.as_str());
        },
        FlashStep::FastbootReboot { mode } => {
            text::append_text(&mut out, "reboot (");
            text::append_text(&mut out, mode_name(*mode));
            text::append_text(&mut out, ")");
        },
        FlashStep::Alert { message } => {
            text::append_text(&mut out, "alert: ");
            text::append_text(&mut out, message.as_str());
        },
        FlashStep::Sleep { millis } => {
            text::append_text(&mut out, "sleep ");
            text::push_decimal(&mut out, *millis);
            text::append_text(&mut out, " ms");
        },
    }
    assert(out@ =~= description_of(step@));
    text::string_of(out.as_slice())
}

/// What is said of a port in a list.
pub open spec fn port_entry(port: PortModel) -> Seq<char> {
    port.name + " ("@ + port.description + ")"@
}

/// The ports of a list, with their descriptions.
pub open spec fn ports_text(ports: Seq<PortModel>, n: int) -> Seq<char>
    decreases n,
{
    if n <= 0 {
        seq![]
    } else {
        let one = port_entry(ports[n - 1]);
        if n == 1 {
            one
        } else {
            ports_text(ports, n - 1) + ", "@ + one
        }
    }
}

/// Lists ports for a message.
pub fn port_list(ports: &Vec<PortChoice>) -> (list: String)
    ensures
        list@ == ports_text(port_models(ports@), ports@.len() as int),
{
    let ghost all = port_models(ports@);
    let mut out: Vec<char> = Vec::new();
    let mut n: usize = 0;
    while n < ports.len()
        invariant
            n <= ports@.len(),
            all == port_models(ports@),
            out@ == ports_text(all, n as int),
        decreases ports@.len() - n,
    {
        assert(all[n as int] == ports@[n as int]@);
        if n > 0 {
            text::append_text(&mut out, ", ");
        }
        text::append_text(&mut out, ports[n].name.as_str());
        text::append_text(&mut out, " (");
        text::append_text(&mut out, ports[n].description.as_str());
        text::append_text(&mut out, ")");
        n += 1;
        assert(out@ =~= ports_text(all, n as int));
    }
    text::string_of(out.as_slice())
}

/// What is said where a script leaves the choice among several ports to a user
/// who cannot be asked.
pub open spec fn choice_needed(ports: Seq<PortModel>) -> Seq<char> {
    "multiple VCOM ports found ("@ + ports_text(ports, ports.len() as int)
        + "); pin one port in the script or run in a terminal"@
}

pub fn choice_text(ports: &Vec<PortChoice>) -> (message: String)
    ensures
        message@ == choice_needed(port_models(ports@)),
{
    let mut out: Vec<char> = Vec::new();
    text::append_text(&mut out, "multiple VCOM ports found (");
    text::append_text(&mut out, port_list(ports).as_str());
    text::append_text(&mut out, "); pin one port in the script or run in a terminal");
    assert(port_models(ports@).len() == ports@.len());
    assert(out@ =~= choice_needed(port_models(ports@)));
    text::string_of(out.as_slice())
}

/// How far a transfer is, in tenths.
pub open spec fn tenths(sent: u64, total: u64) -> int {
    let done = if sent < total {
        sent as int
    } else {
        total as int
    };
    let scaled = if done * 10 > u64::MAX {
        u64::MAX as int
    } else {
        done * 10
    };
    scaled / total as int
}

/// Tells whether a transfer got a tenth further since the last report.
pub fn report_bucket(sent: u64, total: u64, last_bucket: &mut u64) -> (report: bool)
    ensures
        report == (total > 0 && tenths(sent, total) > *old(last_bucket)),
        *final(last_bucket) == if report {
            tenths(sent, total)
        } else {
            *old(last_bucket) as int
        },
{
    if total == 0 {
        return false;
    }
    let done: u64 = if sent < total {
        sent
    } else {
        total
    };
    let scaled: u64 = match done.checked_mul(10) {
        Some(product) => product,
        None => u64::MAX,
    };
    let bucket: u64 = scaled / total;
    if bucket <= *last_bucket {
        return false;
    }
    *last_bucket = bucket;
    true
}

// ---------------------------------------------------------------------------
// Ports
// ---------------------------------------------------------------------------

/// Which port to use.
#[derive(Debug)]
pub enum PortDecision {
    Use { port: String },
    /// The user has to choose one of several.
    Ask,
}

#[verifier::ext_equal]
pub enum DecisionModel {
    Use { port: Seq<char> },
    Ask,
}

impl View for PortDecision {
    type V = DecisionModel;

    open spec fn view(&self) -> DecisionModel {
        match self {
            PortDecision::Use { port } => DecisionModel::Use { port: port@ },
            PortDecision::Ask => DecisionModel::Ask,
        }
    }
}

/// True when a port has the name.
pub open spec fn has_port(ports: Seq<PortModel>, name: Seq<char>) -> bool {
    exists|i: int| 0 <= i < ports.len() && (#[trigger] ports[i]).name == name
}

/// Which of the ports a script means: the one that it names, or with `auto` the
/// only one there is.
pub open spec fn port_for(wanted: Seq<char>, ports: Seq<PortModel>) -> Result<
    DecisionModel,
    RunError,
> {
    let name = text::trimmed(wanted);
    if text::lowered(name) != "auto"@ {
        if has_port(ports, name) {
            Ok(DecisionModel::Use { port: name })
        } else {
            Err(RunError::UnknownPort)
        }
    } else if ports.len() == 0 {
        Err(RunError::NoPort)
    } else if ports.len() == 1 {
        Ok(DecisionModel::Use { port: ports[0].name })
    } else {
        Ok(DecisionModel::Ask)
    }
}

pub fn resolve_port(wanted: &str, ports: &Vec<PortChoice>) -> (decision: Result<
    PortDecision,
    RunError,
>)
    ensures
        match decision {
            Ok(found) => port_for(wanted@, port_models(ports@)) == Ok::<DecisionModel, RunError>(
                found@,
            ),
            Err(error) => port_for(wanted@, port_models(ports@)) == Err::<DecisionModel, RunError>(
                error,
            ),
        },
{
    let ghost all = port_models(ports@);
    assert(all.len() == ports@.len());
    let chars = text::chars_of(wanted);
    let name = text::trim(chars.as_slice());
    let small = text::lower(name);
    if !text::is_text(small.as_slice(), "auto") {
        let mut n: usize = 0;
        while n < ports.len()
            invariant
                n <= ports@.len(),
                all == port_models(ports@),
                name@ == text::trimmed(wanted@),
                text::lowered(name@) != "auto"@,
                forall|i: int| 0 <= i < n ==> (#[trigger] all[i]).name != name@,
            decreases ports@.len() - n,
        {
            assert(all[n as int] == ports@[n as int]@);
            if text::is_text(name, ports[n].name.as_str()) {
                assert(has_port(all, name@));
                return Ok(PortDecision::Use { port: text::string_of(name) });
            }
            n += 1;
        }
        return Err(RunError::UnknownPort);
    }
    if ports.len() == 0 {
        return Err(RunError::NoPort);
    }
    if ports.len() == 1 {
        assert(all[0] == ports@[0]@);
        return Ok(PortDecision::Use { port: ports[0].name.clone() });
    }
    Ok(PortDecision::Ask)
}

// ---------------------------------------------------------------------------
// Steps
// ---------------------------------------------------------------------------

/// What is asked of devices or of the user.
#[derive(Debug)]
pub enum Request {
    /// Which serial ports are there?
    Ports,
    /// How many fastboot devices are there?
    Devices,
    ChoosePort,
    Upload { port: String, address: u32, file: String },
    Variable { name: String },
    Flash { partition: String, file: String },
    Erase { partition: String },
    Oem { command: String },
    Reboot { mode: RebootMode },
    Alert { message: String },
    Pause { millis: u64 },
}

#[verifier::ext_equal]
pub enum RequestModel {
    Ports,
    Devices,
    ChoosePort,
    Upload { port: Seq<char>, address: u32, file: Seq<char> },
    Variable { name: Seq<char> },
    Flash { partition: Seq<char>, file: Seq<char> },
    Erase { partition: Seq<char> },
    Oem { command: Seq<char> },
    Reboot { mode: RebootMode },
    Alert { message: Seq<char> },
    Pause { millis: u64 },
}

impl View for Request {
    type V = RequestModel;

    open spec fn view(&self) -> RequestModel {
        match self {
            Request::Ports => RequestModel::Ports,
            Request::Devices => RequestModel::Devices,
            Request::ChoosePort => RequestModel::ChoosePort,
            Request::Upload { port, address, file } => RequestModel::Upload {
                port: port@,
                address: *address,
                file: file@,
            },
            Request::Variable { name } => RequestModel::Variable { name: name@ },
            Request::Flash { partition, file } => RequestModel::Flash {
                partition: partition@,
                file: file@,
            },
            Request::Erase { partition } => RequestModel::Erase { partition: partition@ },
            Request::Oem { command } => RequestModel::Oem { command: command@ },
            Request::Reboot { mode } => RequestModel::Reboot { mode: *mode },
            Request::Alert { message } => RequestModel::Alert { message: message@ },
            Request::Pause { millis } => RequestModel::Pause { millis: *millis },
        }
    }
}

/// What comes back. `expired` says that the time of a wait is over.
#[derive(Debug)]
pub enum Reply {
    Ports { ports: Vec<PortChoice>, expired: bool },
    Devices { count: usize, expired: bool },
    Port { name: String },
    Value { value: String },
    /// The file to upload is empty.
    NoData,
    Done,
    Refused,
}

#[verifier::ext_equal]
pub enum ReplyModel {
    Ports { ports: Seq<PortModel>, expired: bool },
    Devices { count: int, expired: bool },
    Port { name: Seq<char> },
    Value { value: Seq<char> },
    NoData,
    Done,
    Refused,
}

impl View for Reply {
    type V = ReplyModel;

    open spec fn view(&self) -> ReplyModel {
        match self {
            Reply::Ports { ports, expired } => ReplyModel::Ports {
                ports: port_models(ports@),
                expired: *expired,
            },
            Reply::Devices { count, expired } => ReplyModel::Devices {
                count: *count as int,
                expired: *expired,
            },
            Reply::Port { name } => ReplyModel::Port { name: name@ },
            Reply::Value { value } => ReplyModel::Value { value: value@ },
            Reply::NoData => ReplyModel::NoData,
            Reply::Done => ReplyModel::Done,
            Reply::Refused => ReplyModel::Refused,
        }
    }
}

/// What follows from a reply.
#[derive(Debug)]
pub enum Outcome {
    Finished,
    Next { request: Request },
    Failed { error: RunError },
}

#[verifier::ext_equal]
pub enum OutcomeModel {
    Finished,
    Next { request: RequestModel },
    Failed { error: RunError },
}

impl View for Outcome {
    type V = OutcomeModel;

    open spec fn view(&self) -> OutcomeModel {
        match self {
            Outcome::Finished => OutcomeModel::Finished,
            Outcome::Next { request } => OutcomeModel::Next { request: request@ },
            Outcome::Failed { error } => OutcomeModel::Failed { error: *error },
        }
    }
}

/// What a step asks first. Every fastboot step first asks for the devices.
pub open spec fn first_request(step: StepModel) -> RequestModel {
    match step {
        StepModel::WaitVcom { .. } => RequestModel::Ports,
        StepModel::VcomUpload { .. } => RequestModel::Ports,
        StepModel::Alert { message } => RequestModel::Alert { message },
        StepModel::Sleep { millis } => RequestModel::Pause { millis },
        _ => RequestModel::Devices,
    }
}

pub open spec fn failed(error: RunError) -> OutcomeModel {
    OutcomeModel::Failed { error }
}

/// What a fastboot step asks of the one device.
pub open spec fn device_request(step: StepModel, file: Option<Seq<char>>) -> Result<
    RequestModel,
    RunError,
> {
    match step {
        StepModel::FastbootAssert { variable, value } => Ok(
            RequestModel::Variable { name: variable },
        ),
        StepModel::FastbootFlash { partition, file: named } => match file {
            Some(path) => Ok(RequestModel::Flash { partition, file: path }),
            None => Err(RunError::MissingFile),
        },
        StepModel::FastbootErase { partition } => Ok(RequestModel::Erase { partition }),
        StepModel::FastbootOem { command } => Ok(RequestModel::Oem { command }),
        StepModel::FastbootReboot { mode } => Ok(RequestModel::Reboot { mode }),
        _ => Err(RunError::Unexpected),
    }
}

/// The upload of a file to a port.
pub open spec fn upload_outcome(port: Seq<char>, address: Seq<char>, file: Option<Seq<char>>) -> OutcomeModel {
    match (script::address_of(address), file) {
        (None, _) => failed(RunError::InvalidAddress),
        (_, None) => failed(RunError::MissingFile),
        (Some(address), Some(file)) => OutcomeModel::Next {
            request: RequestModel::Upload { port, address, file },
        },
    }
}

/// What follows from a reply while a step is carried out.
pub open spec fn outcome_of(step: StepModel, file: Option<Seq<char>>, reply: ReplyModel) -> OutcomeModel {
    if reply is Refused {
        failed(RunError::Refused)
    } else {
        match step {
            StepModel::WaitVcom { .. } => match reply {
                ReplyModel::Ports { ports, expired } => if ports.len() > 0 {
                    OutcomeModel::Finished
                } else if expired {
                    failed(RunError::VcomTimeout)
                } else {
                    OutcomeModel::Next { request: RequestModel::Pause { millis: POLL_MILLIS } }
                },
                ReplyModel::Done => OutcomeModel::Next { request: RequestModel::Ports },
                _ => failed(RunError::Unexpected),
            },
            StepModel::VcomUpload { port, address, file: named } => match reply {
                ReplyModel::Ports { ports, expired } => match port_for(port, ports) {
                    Err(error) => failed(error),
                    Ok(DecisionModel::Ask) => OutcomeModel::Next {
                        request: RequestModel::ChoosePort,
                    },
                    Ok(DecisionModel::Use { port: found }) => upload_outcome(found, address, file),
                },
                ReplyModel::Port { name } => upload_outcome(name, address, file),
                ReplyModel::NoData => failed(RunError::EmptyFile),
                ReplyModel::Done => OutcomeModel::Finished,
                _ => failed(RunError::Unexpected),
            },
            StepModel::WaitFastboot { .. } => match reply {
                ReplyModel::Devices { count, expired } => if count == 1 {
                    OutcomeModel::Finished
                } else if count > 1 {
                    failed(RunError::DeviceCount)
                } else if expired {
                    failed(RunError::FastbootTimeout)
                } else {
                    OutcomeModel::Next { request: RequestModel::Pause { millis: POLL_MILLIS } }
                },
                ReplyModel::Done => OutcomeModel::Next { request: RequestModel::Devices },
                _ => failed(RunError::Unexpected),
            },
            StepModel::Alert { .. } => match reply {
                ReplyModel::Done => OutcomeModel::Finished,
                _ => failed(RunError::Unexpected),
            },
            StepModel::Sleep { .. } => match reply {
                ReplyModel::Done => OutcomeModel::Finished,
                _ => failed(RunError::Unexpected),
            },
            _ => match reply {
                ReplyModel::Devices { count, expired } => if count != 1 {
                    failed(RunError::DeviceCount)
                } else {
                    match device_request(step, file) {
                        Ok(request) => OutcomeModel::Next { request },
                        Err(error) => failed(error),
                    }
                },
                ReplyModel::Value { value } => match step {
                    StepModel::FastbootAssert { variable, value: wanted } => if text::trimmed(
                        value,
                    ) == text::trimmed(wanted) {
                        OutcomeModel::Finished
                    } else {
                        failed(RunError::WrongValue)
                    },
                    _ => failed(RunError::Unexpected),
                },
                ReplyModel::Done => if step is FastbootAssert {
                    failed(RunError::Unexpected)
                } else {
                    OutcomeModel::Finished
                },
                _ => failed(RunError::Unexpected),
            },
        }
    }
}

/// What a step asks first.
pub fn start_step(step: &FlashStep) -> (request: Request)
    ensures
        request@ == first_request(step@),
{
    match step {
        FlashStep::WaitVcom { .. } => Request::Ports,
        FlashStep::VcomUpload { .. } => Request::Ports,
        FlashStep::Alert { message } => Request::Alert { message: message.clone() },
        FlashStep::Sleep { millis } => Request::Pause { millis: *millis },
        _ => Request::Devices,
    }
}

fn plan_upload(port: String, address: &str, file: &Option<String>) -> (outcome: Outcome)
    ensures
        outcome@ == upload_outcome(port@, address@, text_of(*file)),
{
    let number: u32 = match script::parse_u32_address(address) {
        Some(number) => number,
        None => {
            return Outcome::Failed { error: RunError::InvalidAddress };
        },
    };
    match file {
        Some(path) => Outcome::Next {
            request: Request::Upload { port, address: number, file: path.clone() },
        },
        None => Outcome::Failed { error: RunError::MissingFile },
    }
}

fn plan_device(step: &FlashStep, file: &Option<String>) -> (outcome: Outcome)
    ensures
        outcome@ == match device_request(step@, text_of(*file)) {
            Ok(request) => OutcomeModel::Next { request },
            Err(error) => failed(error),
        },
{
    let request = match step {
        FlashStep::FastbootAssert { variable, value } => Request::Variable {
            name: variable.clone(),
        },
        FlashStep::FastbootFlash { partition, file: named } => match file {
            Some(path) => Request::Flash { partition: partition.clone(), file: path.clone() },
            None => {
                return Outcome::Failed { error: RunError::MissingFile };
            },
        },
        FlashStep::FastbootErase { partition } => Request::Erase { partition: partition.clone() },
        FlashStep::FastbootOem { command } => Request::Oem { command: command.clone() },
        FlashStep::FastbootReboot { mode } => Request::Reboot { mode: *mode },
        _ => {
            return Outcome::Failed { error: RunError::Unexpected };
        },
    };
    Outcome::Next { request }
}

fn same_trimmed(a: &str, b: &str) -> (same: bool)
    ensures
        same == (text::trimmed(a@) == text::trimmed(b@)),
{
    let x = text::chars_of(a);
    let y = text::chars_of(b);
    text::same_chars(text::trim(x.as_slice()), text::trim(y.as_slice()))
}

/// Carries a step on with a reply.
pub fn run_step(resolved: &ResolvedStep, reply: &Reply) -> (outcome: Outcome)
    ensures
        outcome@ == outcome_of(resolved.step@, text_of(resolved.file), reply@),
{
    if let Reply::Refused = reply {
        return Outcome::Failed { error: RunError::Refused };
    }
    match &resolved.step {
        FlashStep::WaitVcom { .. } => match reply {
            Reply::Ports { ports, expired } => {
                assert(port_models(ports@).len() == ports@.len());
                if ports.len() > 0 {
                    Outcome::Finished
                } else if *expired {
                    Outcome::Failed { error: RunError::VcomTimeout }
                } else {
                    Outcome::Next { request: Request::Pause { millis: POLL_MILLIS } }
                }
            },
            Reply::Done => Outcome::Next { request: Request::Ports },
            _ => Outcome::Failed { error: RunError::Unexpected },
        },
        FlashStep::VcomUpload { port, address, file } => match reply {
            Reply::Ports { ports, expired } => match resolve_port(port.as_str(), ports) {
                Err(error) => Outcome::Failed { error },
                Ok(PortDecision::Ask) => Outcome::Next { request: Request::ChoosePort },
                Ok(PortDecision::Use { port: found }) => plan_upload(
                    found,
                    address.as_str(),
                    &resolved.file,
                ),
            },
            Reply::Port { name } => plan_upload(name.clone(), address.as_str(), &resolved.file),
            Reply::NoData => Outcome::Failed { error: RunError::EmptyFile },
            Reply::Done => Outcome::Finished,
            _ => Outcome::Failed { error: RunError::Unexpected },
        },
        FlashStep::WaitFastboot { .. } => match reply {
            Reply::Devices { count, expired } => {
                if *count == 1 {
                    Outcome::Finished
                } else if *count > 1 {
                    Outcome::Failed { error: RunError::DeviceCount }
                } else if *expired {
                    Outcome::Failed { error: RunError::FastbootTimeout }
                } else {
                    Outcome::Next { request: Request::Pause { millis: POLL_MILLIS } }
                }
            },
            Reply::Done => Outcome::Next { request: Request::Devices },
            _ => Outcome::Failed { error: RunError::Unexpected },
        },
        FlashStep::Alert { .. } => match reply {
            Reply::Done => Outcome::Finished,
            _ => Outcome::Failed { error: RunError::Unexpected },
        },
        FlashStep::Sleep { .. } => match reply {
            Reply::Done => Outcome::Finished,
            _ => Outcome::Failed { error: RunError::Unexpected },
        },
        step => match reply {
            Reply::Devices { count, expired } => {
                if *count != 1 {
                    Outcome::Failed { error: RunError::DeviceCount }
                } else {
                    plan_device(step, &resolved.file)
                }
            },
            Reply::Value { value } => match step {
                FlashStep::FastbootAssert { variable, value: wanted } => {
                    if same_trimmed(value.as_str(), wanted.as_str()) {
                        Outcome::Finished
                    } else {
                        Outcome::Failed { error: RunError::WrongValue }
                    }
                },
                _ => Outcome::Failed { error: RunError::Unexpected },
            },
            Reply::Done => match step {
                FlashStep::FastbootAssert { .. } => Outcome::Failed { error: RunError::Unexpected },
                _ => Outcome::Finished,
            },
            _ => Outcome::Failed { error: RunError::Unexpected },
        },
    }
}

// ---------------------------------------------------------------------------
// Whole scripts
// ---------------------------------------------------------------------------

/// What a run does next: it asks for something for a step, is complete, or has
/// failed at a step. Steps are counted from zero.
#[derive(Debug)]
pub enum Move {
    Ask { index: usize, request: Request },
    Complete { summary: RunSummary },
    Fail { index: usize, error: RunError },
}

#[verifier::ext_equal]
pub enum MoveModel {
    Ask { index: int, request: RequestModel },
    Complete { name: Seq<char>, completed: int, total: int },
    Fail { index: int, error: RunError },
}

impl View for Move {
    type V = MoveModel;

    open spec fn view(&self) -> MoveModel {
        match self {
            Move::Ask { index, request } => MoveModel::Ask {
                index: *index as int,
                request: request@,
            },
            Move::Complete { summary } => MoveModel::Complete {
                name: summary.name@,
                completed: summary.completed as int,
                total: summary.total as int,
            },
            Move::Fail { index, error } => MoveModel::Fail {
                index: *index as int,
                error: *error,
            },
        }
    }
}

/// The start of step `index`, or the end of the run behind the last step.
pub open spec fn move_to(run: ResolvedScript, index: int) -> MoveModel {
    let total = run.steps@.len() as int;
    if index >= total {
        MoveModel::Complete { name: run.name@, completed: total, total }
    } else {
        MoveModel::Ask { index, request: first_request(run.steps@[index].step@) }
    }
}

/// What follows in a run from a reply at step `index`. The first step that fails
/// ends the run.
pub open spec fn next_move(run: ResolvedScript, index: int, reply: ReplyModel) -> MoveModel {
    let step = run.steps@[index];
    match outcome_of(step.step@, text_of(step.file), reply) {
        OutcomeModel::Finished => move_to(run, index + 1),
        OutcomeModel::Next { request } => MoveModel::Ask { index, request },
        OutcomeModel::Failed { error } => MoveModel::Fail { index, error },
    }
}

fn begin(run: &ResolvedScript, index: usize) -> (next: Move)
    ensures
        next@ == move_to(*run, index as int),
{
    if index >= run.steps.len() {
        Move::Complete {
            summary: RunSummary {
                name: run.name.clone(),
                completed: run.steps.len(),
                total: run.steps.len(),
            },
        }
    } else {
        Move::Ask { index, request: start_step(&run.steps[index].step) }
    }
}

/// Starts a run.
pub fn start(run: &ResolvedScript) -> (next: Move)
    ensures
        next@ == move_to(*run, 0),
{
    begin(run, 0)
}

/// Carries a run on with the reply to what step `index` asked for.
pub fn advance(run: &ResolvedScript, index: usize, reply: &Reply) -> (next: Move)
    requires
        index < run.steps@.len(),
    ensures
        next@ == next_move(*run, index as int, reply@),
{
    assert(run.steps.len() <= usize::MAX);
    match run_step(&run.steps[index], reply) {
        Outcome::Finished => begin(run, index + 1),
        Outcome::Next { request } => Move::Ask { index, request },
        Outcome::Failed { error } => Move::Fail { index, error },
    }
}

// ---------------------------------------------------------------------------
// Failures
// ---------------------------------------------------------------------------

/// A text in double quotes, with escapes: what `{:?}` writes of it.
pub uninterp spec fn quoted(text: Seq<char>) -> Seq<char>;

/// Calls `std::fmt::Debug::fmt` of `str`. Which characters it writes as escapes
/// is not stated; the same text is always written in the same way.
#[verifier::external_body]
fn quote(text: &str) -> (written: String)
    ensures
        written@ == quoted(text@),
{
    format!("{:?}", text)
}

/// What every report of a failed step begins with.
pub open spec fn prefix_of(run: ResolvedScript, index: int) -> Seq<char> {
    "step "@ + text::decimal((index + 1) as nat) + "/"@ + text::decimal(run.steps@.len()) + " ("@
        + script::kind_of(run.steps@[index].step@) + ") failed"@
}

/// The number of the step, how many there are, and its kind.
pub fn step_prefix(run: &ResolvedScript, index: usize) -> (prefix: String)
    requires
        index < run.steps@.len(),
    ensures
        prefix@ == prefix_of(*run, index as int),
{
    assert(run.steps.len() <= usize::MAX);
    let mut out: Vec<char> = Vec::new();
    text::append_text(&mut out, "step ");
    text::push_decimal(&mut out, (index + 1) as u64);
    text::append_text(&mut out, "/");
    text::push_decimal(&mut out, run.steps.len() as u64);
    text::append_text(&mut out, " (");
    text::append_text(&mut out, run.steps[index].kind());
    text::append_text(&mut out, ") failed");
    assert(out@ =~= prefix_of(*run, index as int));
    text::string_of(out.as_slice())
}

/// What is said of a variable that has another value than the script asks for,
/// where both values are in quotes.
pub open spec fn mismatch_of(variable: Seq<char>, actual: Seq<char>, wanted: Seq<char>) -> Seq<char> {
    "device "@ + variable + " is "@ + actual + "; script requires "@ + wanted
}

pub fn mismatch_text(variable: &str, actual: &str, wanted: &str) -> (message: String)
    ensures
        message@ == mismatch_of(variable@, actual@, wanted@),
{
    let mut out: Vec<char> = Vec::new();
    text::append_text(&mut out, "device ");
    text::append_text(&mut out, variable);
    text::append_text(&mut out, " is ");
    text::append_text(&mut out, actual);
    text::append_text(&mut out, "; script requires ");
    text::append_text(&mut out, wanted);
    assert(out@ =~= mismatch_of(variable@, actual@, wanted@));
    text::string_of(out.as_slice())
}

/// How many devices a reply counts.
pub open spec fn counted(reply: ReplyModel) -> int {
    match reply {
        ReplyModel::Devices { count, expired } => count,
        _ => 0,
    }
}

/// The ports that a reply lists.
pub open spec fn listed(reply: ReplyModel) -> Seq<PortModel> {
    match reply {
        ReplyModel::Ports { ports, expired } => ports,
        _ => seq![],
    }
}

/// What is said of a step that does not find exactly one device.
pub open spec fn count_cause(step: StepModel, count: nat) -> Seq<char> {
    if step is WaitFastboot {
        text::decimal(count) + " fastboot devices found; connect exactly one"@
    } else {
        "expected exactly one fastboot device, found "@ + text::decimal(count)
    }
}

/// What is said of an upload to a port that is not there.
pub open spec fn port_cause(step: StepModel, ports: Seq<PortModel>) -> Seq<char> {
    let wanted = match step {
        StepModel::VcomUpload { port, address, file } => text::trimmed(port),
        _ => seq![],
    };
    "VCOM port "@ + wanted + " not found; available: "@ + ports_text(ports, ports.len() as int)
}

/// What is said of an address that is none.
pub open spec fn address_cause(step: StepModel) -> Seq<char> {
    let address = match step {
        StepModel::VcomUpload { port, address, file } => address,
        _ => seq![],
    };
    "invalid VCOM address: "@ + address
}

/// What is said of a file with nothing in it.
pub open spec fn empty_cause(file: Option<Seq<char>>) -> Seq<char> {
    let path = match file {
        Some(path) => path,
        None => seq![],
    };
    "loader file is empty: "@ + path
}

/// What is said of a device that reports another value.
pub open spec fn value_cause(step: StepModel, reply: ReplyModel) -> Seq<char> {
    match (step, reply) {
        (
            StepModel::FastbootAssert { variable, value: wanted },
            ReplyModel::Value { value },
        ) => mismatch_of(variable, quoted(value), quoted(wanted)),
        _ => "the device has another value"@,
    }
}

/// Why a step failed, after the reply that it failed on.
pub open spec fn cause_of(
    step: StepModel,
    file: Option<Seq<char>>,
    reply: ReplyModel,
    error: RunError,
) -> Seq<char> {
    match error {
        RunError::VcomTimeout => "timed out waiting for a VCOM port"@,
        RunError::FastbootTimeout => "timed out waiting for a fastboot device"@,
        RunError::DeviceCount => count_cause(step, counted(reply) as nat),
        RunError::NoPort => "no VCOM serial port found"@,
        RunError::UnknownPort => port_cause(step, listed(reply)),
        RunError::InvalidAddress => address_cause(step),
        RunError::MissingFile => "the step has no file"@,
        RunError::EmptyFile => empty_cause(file),
        RunError::WrongValue => value_cause(step, reply),
        RunError::Refused => "the request was refused"@,
        RunError::Unexpected => "the reply is none to the request"@,
    }
}

fn describe_count(step: &FlashStep, count: usize) -> (cause: String)
    ensures
        cause@ == count_cause(step@, count as nat),
{
    let mut out: Vec<char> = Vec::new();
    if let FlashStep::WaitFastboot { .. } = step {
        text::push_decimal(&mut out, count as u64);
        text::append_text(&mut out, " fastboot devices found; connect exactly one");
    } else {
        text::append_text(&mut out, "expected exactly one fastboot device, found ");
        text::push_decimal(&mut out, count as u64);
    }
    assert(out@ =~= count_cause(step@, count as nat));
    text::string_of(out.as_slice())
}

fn describe_port(step: &FlashStep, ports: &Vec<PortChoice>) -> (cause: String)
    ensures
        cause@ == port_cause(step@, port_models(ports@)),
{
    let mut out: Vec<char> = Vec::new();
    text::append_text(&mut out, "VCOM port ");
    if let FlashStep::VcomUpload { port, address, file } = step {
        let chars = text::chars_of(port.as_str());
        text::append_chars(&mut out, text::trim(chars.as_slice()));
    }
    text::append_text(&mut out, " not found; available: ");
    text::append_text(&mut out, port_list(ports).as_str());
    assert(port_models(ports@).len() == ports@.len());
    assert(out@ =~= port_cause(step@, port_models(ports@)));
    text::string_of(out.as_slice())
}

fn describe_address(step: &FlashStep) -> (cause: String)
    ensures
        cause@ == address_cause(step@),
{
    let mut out: Vec<char> = Vec::new();
    text::append_text(&mut out, "invalid VCOM address: ");
    if let FlashStep::VcomUpload { port, address, file } = step {
        text::append_text(&mut out, address.as_str());
    }
    assert(out@ =~= address_cause(step@));
    text::string_of(out.as_slice())
}

fn describe_empty(file: &Option<String>) -> (cause: String)
    ensures
        cause@ == empty_cause(text_of(*file)),
{
    let mut out: Vec<char> = Vec::new();
    text::append_text(&mut out, "loader file is empty: ");
    if let Some(path) = file {
        text::append_text(&mut out, path.as_str());
    }
    assert(out@ =~= empty_cause(text_of(*file)));
    text::string_of(out.as_slice())
}

fn describe_value(step: &FlashStep, reply: &Reply) -> (cause: String)
    ensures
        cause@ == value_cause(step@, reply@),
{
    if let (FlashStep::FastbootAssert { variable, value: wanted }, Reply::Value { value }) = (
        step,
        reply,
    ) {
        let actual = quote(value.as_str());
        let asked = quote(wanted.as_str());
        mismatch_text(variable.as_str(), actual.as_str(), asked.as_str())
    } else {
        "the device has another value".to_string()
    }
}

/// Says why a step failed on a reply.
pub fn cause_text(resolved: &ResolvedStep, reply: &Reply, error: RunError) -> (cause: String)
    ensures
        cause@ == cause_of(resolved.step@, text_of(resolved.file), reply@, error),
{
    let step = &resolved.step;
    match error {
        RunError::VcomTimeout => "timed out waiting for a VCOM port".to_string(),
        RunError::FastbootTimeout => "timed out waiting for a fastboot device".to_string(),
        RunError::DeviceCount => {
            let count: usize = match reply {
                Reply::Devices { count, expired } => *count,
                _ => 0,
            };
            describe_count(step, count)
        },
        RunError::NoPort => "no VCOM serial port found".to_string(),
        RunError::UnknownPort => match reply {
            Reply::Ports { ports, expired } => describe_port(step, ports),
            _ => {
                let none: Vec<PortChoice> = Vec::new();
                assert(port_models(none@) =~= Seq::<PortModel>::empty());
                describe_port(step, &none)
            },
        },
        RunError::InvalidAddress => describe_address(step),
        RunError::MissingFile => "the step has no file".to_string(),
        RunError::EmptyFile => describe_empty(&resolved.file),
        RunError::WrongValue => describe_value(step, reply),
        RunError::Refused => "the request was refused".to_string(),
        RunError::Unexpected => "the reply is none to the request".to_string(),
    }
}

// ---------------------------------------------------------------------------
// Laws
// ---------------------------------------------------------------------------

/// True for what changes or restarts a device, or reads from it.
pub open spec fn touches_device(request: RequestModel) -> bool {
    match request {
        RequestModel::Variable { .. } => true,
        RequestModel::Flash { .. } => true,
        RequestModel::Erase { .. } => true,
        RequestModel::Oem { .. } => true,
        RequestModel::Reboot { .. } => true,
        _ => false,
    }
}

/// Nothing is asked of a fastboot device unless exactly one was just counted.
pub proof fn law_fastboot_needs_one_device(
    step: StepModel,
    file: Option<Seq<char>>,
    reply: ReplyModel,
)
    ensures
        !touches_device(first_request(step)),
        outcome_of(step, file, reply) matches OutcomeModel::Next { request } ==> touches_device(
            request,
        ) ==> (reply matches ReplyModel::Devices { count, expired } && count == 1),
{
}

/// A run goes through the steps in order: from a step it stays there or goes on
/// to the next one, and it is complete only behind the last one.
pub proof fn law_steps_run_in_order(run: ResolvedScript, index: int, reply: ReplyModel)
    requires
        0 <= index < run.steps@.len(),
    ensures
        match next_move(run, index, reply) {
            MoveModel::Ask { index: next, request } => next == index || next == index + 1,
            MoveModel::Complete { name, completed, total } => {
                &&& index == run.steps@.len() - 1
                &&& completed == total == run.steps@.len()
                &&& name == run.name@
            },
            MoveModel::Fail { index: next, error } => next == index,
        },
{
}

/// True when a text holds another one.
pub open spec fn mentions(text: Seq<char>, part: Seq<char>) -> bool {
    exists|at: int|
        0 <= at <= text.len() - part.len() && #[trigger] text.subrange(at, at + part.len()) == part
}

proof fn lemma_mentions_within(front: Seq<char>, text: Seq<char>, back: Seq<char>, part: Seq<char>)
    requires
        mentions(text, part),
    ensures
        mentions(front + text + back, part),
{
    let at = choose|at: int|
        0 <= at <= text.len() - part.len() && #[trigger] text.subrange(at, at + part.len()) == part;
    let whole = front + text + back;
    let moved = front.len() + at;
    assert(whole.subrange(moved, moved + part.len()) =~= text.subrange(at, at + part.len()));
}

proof fn lemma_list_mentions(ports: Seq<PortModel>, n: int, i: int)
    requires
        0 <= i < n <= ports.len(),
    ensures
        mentions(ports_text(ports, n), port_entry(ports[i])),
    decreases n,
{
    let entry = port_entry(ports[n - 1]);
    let list = ports_text(ports, n);
    if i == n - 1 {
        let at = list.len() - entry.len();
        assert(list.subrange(at, at + entry.len()) =~= entry);
    } else {
        lemma_list_mentions(ports, n - 1, i);
        let before = ports_text(ports, n - 1);
        lemma_mentions_within(seq![], before, ", "@ + entry, port_entry(ports[i]));
        assert(list =~= Seq::<char>::empty() + before + (", "@ + entry));
    }
}

/// A step whose port is missing fails with a message that lists every port that
/// is there.
pub proof fn law_missing_ports_are_answered_with_a_list(
    step: StepModel,
    file: Option<Seq<char>>,
    ports: Seq<PortModel>,
    expired: bool,
    i: int,
)
    requires
        step matches StepModel::VcomUpload { port, address, file: named } && {
            &&& text::lowered(text::trimmed(port)) != "auto"@
            &&& !has_port(ports, text::trimmed(port))
        },
        0 <= i < ports.len(),
    ensures
        ({
            let reply = ReplyModel::Ports { ports, expired };
            &&& outcome_of(step, file, reply) == failed(RunError::UnknownPort)
            &&& mentions(
                cause_of(step, file, reply, RunError::UnknownPort),
                port_entry(ports[i]),
            )
        }),
{
    let list = ports_text(ports, ports.len() as int);
    let front = "VCOM port "@ + text::trimmed(step->VcomUpload_port) + " not found; available: "@;
    lemma_list_mentions(ports, ports.len() as int, i);
    lemma_mentions_within(front, list, seq![], port_entry(ports[i]));
    assert(port_cause(step, ports) =~= front + list + Seq::<char>::empty());
}

/// A run gets past a check of the device only where the device reports the
/// value that the script asks for.
pub proof fn law_assertions_guard_the_run(
    step: StepModel,
    file: Option<Seq<char>>,
    reply: ReplyModel,
)
    requires
        step is FastbootAssert,
        outcome_of(step, file, reply) is Finished,
    ensures
        reply matches ReplyModel::Value { value } && text::trimmed(value) == text::trimmed(
            step->FastbootAssert_value,
        ),
{
}

/// With exactly one device, each fastboot step asks for what it states: its own
/// variable, its own partition with the file that was found for it, its own
/// command, and a restart in its own mode.
pub proof fn law_fastboot_steps_ask_for_what_they_state(
    step: StepModel,
    file: Option<Seq<char>>,
    expired: bool,
)
    ensures
        ({
            let next = outcome_of(step, file, ReplyModel::Devices { count: 1, expired });
            match step {
                StepModel::FastbootReboot { mode } => next == (OutcomeModel::Next {
                    request: RequestModel::Reboot { mode },
                }),
                StepModel::FastbootErase { partition } => next == (OutcomeModel::Next {
                    request: RequestModel::Erase { partition },
                }),
                StepModel::FastbootOem { command } => next == (OutcomeModel::Next {
                    request: RequestModel::Oem { command },
                }),
                StepModel::FastbootAssert { variable, value } => next == (OutcomeModel::Next {
                    request: RequestModel::Variable { name: variable },
                }),
                StepModel::FastbootFlash { partition, file: named } => match file {
                    Some(path) => next == (OutcomeModel::Next {
                        request: RequestModel::Flash { partition, file: path },
                    }),
                    None => next == (OutcomeModel::Failed { error: RunError::MissingFile }),
                },
                StepModel::WaitFastboot { timeout_secs } => next is Finished,
                _ => next is Failed,
            }
        }),
{
}

/// Two restarts in different modes are different requests, and so are any two
/// steps that state different things.
pub proof fn law_different_steps_ask_for_different_things(
    a: StepModel,
    b: StepModel,
    file: Option<Seq<char>>,
    expired: bool,
)
    requires
        a is FastbootReboot || a is FastbootErase || a is FastbootOem,
        b is FastbootReboot || b is FastbootErase || b is FastbootOem,
        a != b,
    ensures
        outcome_of(a, file, ReplyModel::Devices { count: 1, expired }) != outcome_of(
            b,
            file,
            ReplyModel::Devices { count: 1, expired },
        ),
{
}

/// With no device or with several, no fastboot step asks for anything more: a
/// wait goes on while there is time, for half a second at a time, and everything
/// else fails.
pub proof fn law_fastboot_steps_need_their_device(
    step: StepModel,
    file: Option<Seq<char>>,
    count: int,
    expired: bool,
)
    requires
        count != 1,
    ensures
        ({
            let next = outcome_of(step, file, ReplyModel::Devices { count, expired });
            match step {
                StepModel::WaitFastboot { timeout_secs } => if count > 1 {
                    next == (OutcomeModel::Failed { error: RunError::DeviceCount })
                } else if expired {
                    next == (OutcomeModel::Failed { error: RunError::FastbootTimeout })
                } else {
                    next == (OutcomeModel::Next { request: RequestModel::Pause { millis: 500 } })
                },
                StepModel::FastbootReboot { .. } | StepModel::FastbootErase { .. }
                | StepModel::FastbootOem { .. } | StepModel::FastbootAssert { .. }
                | StepModel::FastbootFlash { .. } => next == (OutcomeModel::Failed {
                    error: RunError::DeviceCount,
                }),
                _ => next is Failed,
            }
        }),
{
}

/// A wait for a port ends with the first port, however late it comes. Without one
/// it goes on while there is time, for half a second at a time, and looks again
/// after that.
pub proof fn law_waits_end_with_a_port(
    timeout_secs: u64,
    file: Option<Seq<char>>,
    ports: Seq<PortModel>,
    expired: bool,
)
    ensures
        ({
            let step = StepModel::WaitVcom { timeout_secs };
            let next = outcome_of(step, file, ReplyModel::Ports { ports, expired });
            &&& first_request(step) == RequestModel::Ports
            &&& ports.len() > 0 ==> next is Finished
            &&& ports.len() == 0 && expired ==> next == (OutcomeModel::Failed {
                error: RunError::VcomTimeout,
            })
            &&& ports.len() == 0 && !expired ==> next == (OutcomeModel::Next {
                request: RequestModel::Pause { millis: 500 },
            })
            &&& outcome_of(step, file, ReplyModel::Done) == (OutcomeModel::Next {
                request: RequestModel::Ports,
            })
        }),
{
}

/// A wait for a device asks for the devices, and again after each pause.
pub proof fn law_waits_look_again(timeout_secs: u64, file: Option<Seq<char>>)
    ensures
        first_request(StepModel::WaitFastboot { timeout_secs }) == RequestModel::Devices,
        outcome_of(StepModel::WaitFastboot { timeout_secs }, file, ReplyModel::Done) == (
        OutcomeModel::Next { request: RequestModel::Devices }),
{
}

/// An upload goes to the port that the script names, where it is there. With
/// `auto`, in letters of any size, it goes to the only port, to the one that the
/// user chooses among several, or nowhere. It sends the file that was found to
/// the address that the script states.
pub proof fn law_uploads_go_where_the_script_says(
    port: Seq<char>,
    address: Seq<char>,
    named: Seq<char>,
    path: Seq<char>,
    ports: Seq<PortModel>,
    expired: bool,
    chosen: Seq<char>,
)
    requires
        script::address_of(address) is Some,
    ensures
        ({
            let step = StepModel::VcomUpload { port, address, file: named };
            let number = script::address_of(address)->0;
            let wanted = text::trimmed(port);
            let next = outcome_of(step, Some(path), ReplyModel::Ports { ports, expired });
            let upload = |to: Seq<char>| OutcomeModel::Next {
                request: RequestModel::Upload { port: to, address: number, file: path },
            };
            &&& first_request(step) == RequestModel::Ports
            &&& text::lowered(wanted) != "auto"@ ==> {
                &&& (exists|i: int| 0 <= i < ports.len() && (#[trigger] ports[i]).name == wanted)
                    ==> next == upload(wanted)
                &&& !(exists|i: int| 0 <= i < ports.len() && (#[trigger] ports[i]).name == wanted)
                    ==> next == (OutcomeModel::Failed { error: RunError::UnknownPort })
            }
            &&& text::lowered(wanted) == "auto"@ ==> {
                &&& ports.len() == 0 ==> next == (OutcomeModel::Failed { error: RunError::NoPort })
                &&& ports.len() == 1 ==> next == upload(ports[0].name)
                &&& ports.len() > 1 ==> next == (OutcomeModel::Next {
                    request: RequestModel::ChoosePort,
                })
            }
            &&& outcome_of(step, Some(path), ReplyModel::Port { name: chosen }) == upload(chosen)
            &&& outcome_of(step, Some(path), ReplyModel::Done) is Finished
            &&& outcome_of(step, Some(path), ReplyModel::NoData) == (OutcomeModel::Failed {
                error: RunError::EmptyFile,
            })
        }),
{
}

/// A message and a pause are asked for as they are stated, and end their step.
pub proof fn law_messages_and_pauses_are_passed_on(
    message: Seq<char>,
    millis: u64,
    file: Option<Seq<char>>,
)
    ensures
        first_request(StepModel::Alert { message }) == (RequestModel::Alert { message }),
        outcome_of(StepModel::Alert { message }, file, ReplyModel::Done) is Finished,
        first_request(StepModel::Sleep { millis }) == (RequestModel::Pause { millis }),
        outcome_of(StepModel::Sleep { millis }, file, ReplyModel::Done) is Finished,
{
}

/// A refused request fails every step. A check of a device ends with the value
/// that was asked for, white space around it aside, and fails with any other; the
/// other fastboot steps end when they are done.
pub proof fn law_replies_decide_steps(step: StepModel, file: Option<Seq<char>>, value: Seq<char>)
    ensures
        outcome_of(step, file, ReplyModel::Refused) == (OutcomeModel::Failed {
            error: RunError::Refused,
        }),
        step matches StepModel::FastbootAssert { variable, value: wanted } ==> {
            &&& first_request(step) == RequestModel::Devices
            &&& text::trimmed(value) == text::trimmed(wanted) ==> outcome_of(
                step,
                file,
                ReplyModel::Value { value },
            ) is Finished
            &&& text::trimmed(value) != text::trimmed(wanted) ==> outcome_of(
                step,
                file,
                ReplyModel::Value { value },
            ) == (OutcomeModel::Failed { error: RunError::WrongValue })
        },
        step is FastbootFlash || step is FastbootErase || step is FastbootOem
            || step is FastbootReboot ==> {
            &&& first_request(step) == RequestModel::Devices
            &&& outcome_of(step, file, ReplyModel::Done) is Finished
        },
{
}

/// A run starts with what its first step asks for. A step that ends is followed
/// by what the next one asks for, the last one by the end of the run; a step that
/// asks for more keeps its place, and one that fails ends the run there.
pub proof fn law_steps_follow_each_other(run: ResolvedScript, index: int, reply: ReplyModel)
    requires
        0 <= index < run.steps@.len(),
    ensures
        move_to(run, 0) == (MoveModel::Ask {
            index: 0,
            request: first_request(run.steps@[0].step@),
        }),
        ({
            let step = run.steps@[index];
            let file = match step.file {
                Some(path) => Some(path@),
                None => None,
            };
            let last = index + 1 == run.steps@.len();
            match outcome_of(step.step@, file, reply) {
                OutcomeModel::Finished => {
                    &&& !last ==> next_move(run, index, reply) == (MoveModel::Ask {
                        index: index + 1,
                        request: first_request(run.steps@[index + 1].step@),
                    })
                    &&& last ==> next_move(run, index, reply) == (MoveModel::Complete {
                        name: run.name@,
                        completed: run.steps@.len() as int,
                        total: run.steps@.len() as int,
                    })
                },
                OutcomeModel::Next { request } => next_move(run, index, reply) == (MoveModel::Ask {
                    index,
                    request,
                }),
                OutcomeModel::Failed { error } => next_move(run, index, reply) == (MoveModel::Fail {
                    index,
                    error,
                }),
            }
        }),
{
}

/// Reports of a transfer come with each tenth: where one is made, a tenth more
/// was sent since the last, and none is made where it was not.
pub proof fn law_tenths_are_parts_of_the_whole(sent: u64, total: u64)
    requires
        total > 0,
    ensures
        0 <= tenths(sent, total) <= 10,
        sent >= total && total < 0x1000_0000_0000_0000 ==> tenths(sent, total) == 10,
        sent < total && total < 0x1000_0000_0000_0000 ==> tenths(sent, total) * total <= 10 * sent
            < tenths(sent, total) * total + total,
{
    let whole = total as int;
    let done = if sent < total {
        sent as int
    } else {
        whole
    };
    let scaled = if done * 10 > u64::MAX {
        u64::MAX as int
    } else {
        done * 10
    };
    vstd::arithmetic::div_mod::lemma_fundamental_div_mod(scaled, whole);
    let q = scaled / whole;
    assert(whole * q == q * whole) by (nonlinear_arith);
    assert(0 <= q <= 10) by (nonlinear_arith)
        requires
            0 <= scaled <= 10 * whole,
            whole > 0,
            q == scaled / whole,
    ;
    if sent >= total && total < 0x1000_0000_0000_0000 {
        assert(q == 10) by (nonlinear_arith)
            requires
                scaled == 10 * whole,
                whole > 0,
                q == scaled / whole,
        ;
    }
}

/// What is said of a step names what it does and all that it does it with.
pub proof fn law_steps_are_described(step: StepModel)
    ensures
        match step {
            StepModel::WaitVcom { timeout_secs } => description_of(step)
                == "wait for VCOM port (up to "@ + text::decimal(timeout_secs as nat) + "s)"@,
            StepModel::VcomUpload { port, address, file } => description_of(step) == "VCOM upload "@
                + file + " via "@ + port,
            StepModel::WaitFastboot { timeout_secs } => description_of(step)
                == "wait for fastboot device (up to "@ + text::decimal(timeout_secs as nat)
                + "s)"@,
            StepModel::FastbootAssert { variable, value } => description_of(step) == "assert "@
                + variable + " = "@ + value,
            StepModel::FastbootFlash { partition, file } => description_of(step) == "flash "@ + file
                + " to "@ + partition,
            StepModel::FastbootErase { partition } => description_of(step) == "erase "@ + partition,
            StepModel::FastbootOem { command } => description_of(step) == "oem "@ + command,
            StepModel::FastbootReboot { mode } => description_of(step) == "reboot ("@ + (
            match mode {
                RebootMode::System => "system"@,
                RebootMode::Bootloader => "bootloader"@,
                RebootMode::Fastboot => "fastboot"@,
                RebootMode::Recovery => "recovery"@,
                RebootMode::Continue => "continue"@,
            }) + ")"@,
            StepModel::Alert { message } => description_of(step) == "alert: "@ + message,
            StepModel::Sleep { millis } => description_of(step) == "sleep "@ + text::decimal(
                millis as nat,
            ) + " ms"@,
        },
{
}

/// The report of a failed step begins with its number, counted from 1, how many
/// steps there are, and its kind.
pub proof fn law_reports_name_their_step(run: ResolvedScript, index: int)
    requires
        0 <= index < run.steps@.len(),
    ensures
        ({
            let number = text::decimal((index + 1) as nat);
            let count = text::decimal(run.steps@.len());
            &&& prefix_of(run, index) == "step "@ + number + "/"@ + count + " ("@ + script::kind_of(
                run.steps@[index].step@,
            ) + ") failed"@
            &&& text::digits_value(number, 10) == index + 1
            &&& text::digits_value(count, 10) == run.steps@.len()
        }),
{
    text::law_written_numbers_read_back((index + 1) as nat);
    text::law_written_numbers_read_back(run.steps@.len());
}

/// Ports are listed in their order, with a comma and a blank between each two.
pub proof fn law_ports_are_listed(ports: Seq<PortModel>, port: PortModel)
    ensures
        ports_text(seq![], 0).len() == 0,
        ports_text(seq![port], 1) == port_entry(port),
        ports.len() > 0 ==> ports_text(ports.push(port), ports.len() as int + 1) == ports_text(
            ports,
            ports.len() as int,
        ) + seq![',', ' '] + port_entry(port),
{
    reveal_strlit(", ");
    assert(", "@ =~= seq![',', ' ']);
    lemma_ports_prefix(ports, port, ports.len() as int);
}

proof fn lemma_ports_prefix(ports: Seq<PortModel>, port: PortModel, n: int)
    requires
        n <= ports.len(),
    ensures
        ports_text(ports.push(port), n) == ports_text(ports, n),
    decreases n,
{
    if n > 0 {
        lemma_ports_prefix(ports, port, n - 1);
    }
}

/// Why a step failed is said with what it failed on: how many devices there are, the
/// port that is not there and those that are, the address, the empty file, or the
/// value of the device and the one that the script requires.
pub proof fn law_causes_say_what_failed(
    step: StepModel,
    file: Seq<char>,
    ports: Seq<PortModel>,
    count: nat,
    expired: bool,
    reply: ReplyModel,
    port: Seq<char>,
    address: Seq<char>,
    variable: Seq<char>,
    wanted: Seq<char>,
    value: Seq<char>,
)
    requires
        count <= usize::MAX,
    ensures
        cause_of(step, None, reply, RunError::VcomTimeout) == "timed out waiting for a VCOM port"@,
        cause_of(step, None, reply, RunError::FastbootTimeout)
            == "timed out waiting for a fastboot device"@,
        cause_of(step, None, reply, RunError::NoPort) == "no VCOM serial port found"@,
        cause_of(step, Some(file), reply, RunError::EmptyFile) == "loader file is empty: "@ + file,
        ({
            let counted = ReplyModel::Devices { count: count as int, expired };
            &&& step is WaitFastboot ==> cause_of(step, None, counted, RunError::DeviceCount)
                == text::decimal(count) + " fastboot devices found; connect exactly one"@
            &&& !(step is WaitFastboot) ==> cause_of(step, None, counted, RunError::DeviceCount)
                == "expected exactly one fastboot device, found "@ + text::decimal(count)
        }),
        ({
            let upload = StepModel::VcomUpload { port, address, file };
            &&& cause_of(
                upload,
                Some(file),
                ReplyModel::Ports { ports, expired },
                RunError::UnknownPort,
            ) == "VCOM port "@ + text::trimmed(port) + " not found; available: "@ + ports_text(
                ports,
                ports.len() as int,
            )
            &&& cause_of(upload, Some(file), reply, RunError::InvalidAddress)
                == "invalid VCOM address: "@ + address
        }),
        cause_of(
            StepModel::FastbootAssert { variable, value: wanted },
            None,
            ReplyModel::Value { value },
            RunError::WrongValue,
        ) == "device "@ + variable + " is "@ + quoted(value) + "; script requires "@ + quoted(
            wanted,
        ),
{
}

} // verus!
