//! The page for fastboot devices: what it holds, which jobs it starts, and what
//! it makes of their results.

use vstd::prelude::*;

use crate::fastboot::command;
use crate::fastboot::command::{FastbootCommand, FastbootStatusPayload};
use crate::fastboot::memory;
use crate::fastboot::memory::{MemoryDevice, MemoryMap, MemoryRegion};
use crate::flash::script;
use crate::formats::gpt::GptInfo;
use crate::jobs::board::Level;
use crate::jobs::operation::JobOp;
use crate::oeminfo::payload::text_of;
use crate::text;

verus! {

/// The job that the page waits for.
#[derive(Debug, Clone, Copy, PartialEq, Eq, Structural)]
pub enum PendingOp {
    Status,
    Reboot,
    Command(FastbootCommand),
    Extract,
    Flash,
    MemoryList,
    UploadMemory,
    StorageAnalyse,
}

/// Why what a job handed back is not what was waited for.
#[derive(Debug)]
pub enum PayloadProblem {
    /// The job handed nothing back.
    Absent,
    /// It handed back what another job does.
    Foreign,
    /// It handed back what could not be read.
    Unreadable { error: String },
}

/// What is shown of a result.
#[derive(Debug)]
pub enum Notice {
    Summary { text: String },
    StatusPayload { problem: PayloadProblem },
    MemoryEmpty,
    MemoryPayload { problem: PayloadProblem },
    StorageNoTable,
    StoragePayload { problem: PayloadProblem },
}

/// What is said of a problem with a structure of the given name whose first
/// field is `field`.
pub open spec fn problem_text(problem: PayloadProblem, name: Seq<char>, field: Seq<char>) -> Seq<
    char,
> {
    match problem {
        PayloadProblem::Absent => "invalid type: null, expected struct "@ + name,
        PayloadProblem::Foreign => "missing field `"@ + field + "`"@,
        PayloadProblem::Unreadable { error } => error@,
    }
}

fn describe_problem(problem: &PayloadProblem, name: &str, field: &str) -> (description: String)
    ensures
        description@ == problem_text(*problem, name@, field@),
{
    let mut out: Vec<char> = Vec::new();
    match problem {
        PayloadProblem::Absent => {
            text::append_text(&mut out, "invalid type: null, expected struct ");
            text::append_text(&mut out, name);
        },
        PayloadProblem::Foreign => {
            text::append_text(&mut out, "missing field `");
            text::append_text(&mut out, field);
            text::append_text(&mut out, "`");
        },
        PayloadProblem::Unreadable { error } => text::append_text(&mut out, error.as_str()),
    }
    assert(out@ =~= problem_text(*problem, name@, field@));
    text::string_of(out.as_slice())
}

impl Notice {
    /// The error that a notice tells, where it tells of a payload.
    pub open spec fn error(self) -> Option<Seq<char>> {
        match self {
            Notice::StatusPayload { problem } => Some(
                problem_text(problem, "FastbootStatusPayload"@, "connected"@),
            ),
            Notice::MemoryPayload { problem } => Some(
                problem_text(problem, "MemoryMap"@, "device"@),
            ),
            Notice::StoragePayload { problem } => Some(
                problem_text(problem, "GptInfo"@, "tables"@),
            ),
            _ => None,
        }
    }

    /// Tells why a payload could not be used.
    pub fn error_text(&self) -> (error: Option<String>)
        ensures
            text_of(error) == self.error(),
    {
        match self {
            Notice::StatusPayload { problem } => Some(
                describe_problem(problem, "FastbootStatusPayload", "connected"),
            ),
            Notice::MemoryPayload { problem } => Some(
                describe_problem(problem, "MemoryMap", "device"),
            ),
            Notice::StoragePayload { problem } => Some(
                describe_problem(problem, "GptInfo", "tables"),
            ),
            _ => None,
        }
    }
}

#[derive(Debug)]
pub struct ResultView {
    pub ok: bool,
    pub summary: Notice,
}

/// What a job handed back besides its summary. `Invalid` is what could not be
/// read, and why.
#[derive(Debug)]
pub enum Payload {
    Absent,
    Status { status: FastbootStatusPayload },
    Memory { map: MemoryMap },
    Storage { gpt: GptInfo },
    Invalid { error: String },
}

/// The result of a job of this page.
#[derive(Debug)]
pub struct PageResult {
    pub ok: bool,
    pub cancelled: bool,
    pub summary: String,
    pub payload: Payload,
}

/// What is announced behind a job.
#[derive(Debug, Clone, Copy, PartialEq, Eq, Structural)]
pub enum Announcement {
    /// The view of the job's result.
    View,
    StatusError,
    NotFound,
    CannotOpen,
    Multiple,
}

#[derive(Debug)]
pub struct FastbootPage {
    pub status: Option<FastbootStatusPayload>,
    pub status_error: Option<Notice>,
    pub auto_checked: bool,
    pub image: String,
    pub target: String,
    pub extract_partition: String,
    pub extract_result: Option<ResultView>,
    pub result: Option<ResultView>,
    pub reboot_result: Option<ResultView>,
    pub command: FastbootCommand,
    pub command_argument: String,
    pub command_result: Option<ResultView>,
    pub memory_map: Option<MemoryMap>,
    pub selected_memory: Option<usize>,
    pub memory_result: Option<ResultView>,
    pub storage_gpt: Option<GptInfo>,
    pub storage_result: Option<ResultView>,
    pub pending: Option<PendingOp>,
}

// ---------------------------------------------------------------------------
// Results
// ---------------------------------------------------------------------------

pub open spec fn summary_view(result: PageResult) -> Option<ResultView> {
    Some(ResultView { ok: result.ok, summary: Notice::Summary { text: result.summary } })
}

/// The page without what it knows of memory.
pub open spec fn without_memory(page: FastbootPage) -> FastbootPage {
    FastbootPage { memory_map: None, selected_memory: None, memory_result: None, ..page }
}

/// The page without what it knows of storage.
pub open spec fn without_storage(page: FastbootPage) -> FastbootPage {
    FastbootPage { storage_gpt: None, storage_result: None, ..page }
}

/// What is wrong with what a job handed back, where it is not what was waited
/// for.
pub open spec fn problem_with(payload: Payload) -> PayloadProblem {
    match payload {
        Payload::Absent => PayloadProblem::Absent,
        Payload::Invalid { error } => PayloadProblem::Unreadable { error },
        _ => PayloadProblem::Foreign,
    }
}

fn find_problem(payload: Payload) -> (problem: PayloadProblem)
    ensures
        problem == problem_with(payload),
{
    match payload {
        Payload::Absent => PayloadProblem::Absent,
        Payload::Invalid { error } => PayloadProblem::Unreadable { error },
        _ => PayloadProblem::Foreign,
    }
}

/// The page with a list of regions, or why there is none. Whatever else was
/// handed back is an error.
pub open spec fn with_memory_list(page: FastbootPage, result: PageResult) -> FastbootPage {
    let clear = without_memory(page);
    if !result.ok {
        FastbootPage { memory_result: summary_view(result), ..clear }
    } else {
        match result.payload {
            Payload::Memory { map } => if map.regions@.len() > 0 {
                FastbootPage {
                    memory_map: Some(map),
                    selected_memory: Some(0),
                    memory_result: summary_view(result),
                    ..clear
                }
            } else {
                FastbootPage {
                    memory_result: Some(ResultView { ok: false, summary: Notice::MemoryEmpty }),
                    ..clear
                }
            },
            other => FastbootPage {
                memory_result: Some(
                    ResultView {
                        ok: false,
                        summary: Notice::MemoryPayload { problem: problem_with(other) },
                    },
                ),
                ..clear
            },
        }
    }
}

/// The page with a partition table, or why there is none.
pub open spec fn with_storage(page: FastbootPage, result: PageResult) -> FastbootPage {
    if !result.ok {
        FastbootPage { storage_result: summary_view(result), ..page }
    } else {
        match result.payload {
            Payload::Storage { gpt } => if gpt.tables@.len() > 0 {
                FastbootPage {
                    storage_gpt: Some(gpt),
                    storage_result: summary_view(result),
                    ..page
                }
            } else {
                FastbootPage {
                    storage_result: Some(ResultView { ok: false, summary: Notice::StorageNoTable }),
                    ..page
                }
            },
            other => FastbootPage {
                storage_result: Some(
                    ResultView {
                        ok: false,
                        summary: Notice::StoragePayload { problem: problem_with(other) },
                    },
                ),
                ..page
            },
        }
    }
}

/// The page with the state of the devices, or why it is not known. A job that
/// handed nothing back changes nothing about it.
pub open spec fn with_status(page: FastbootPage, result: PageResult) -> FastbootPage {
    let clear = FastbootPage { result: None, ..page };
    if !result.ok {
        FastbootPage {
            status: None,
            status_error: Some(Notice::Summary { text: result.summary }),
            ..clear
        }
    } else {
        match result.payload {
            Payload::Status { status } => FastbootPage {
                status: Some(status),
                status_error: None,
                ..clear
            },
            Payload::Absent => clear,
            other => FastbootPage {
                status: None,
                status_error: Some(Notice::StatusPayload { problem: problem_with(other) }),
                ..clear
            },
        }
    }
}

/// The page behind a command.
pub open spec fn with_command(
    page: FastbootPage,
    asked: FastbootCommand,
    result: PageResult,
) -> FastbootPage {
    let shown = FastbootPage { command_result: summary_view(result), ..page };
    let cleared = if asked == FastbootCommand::Getvar {
        shown
    } else {
        without_storage(without_memory(shown))
    };
    if asked == FastbootCommand::Continue {
        FastbootPage { status: None, status_error: None, ..cleared }
    } else {
        cleared
    }
}

/// The job that a result belongs to.
pub open spec fn awaited(page: FastbootPage) -> PendingOp {
    match page.pending {
        Some(op) => op,
        None => PendingOp::Status,
    }
}

/// The page behind a result.
pub open spec fn polled(page: FastbootPage, result: PageResult) -> FastbootPage {
    let idle = FastbootPage { pending: None, ..page };
    match awaited(page) {
        PendingOp::Status => with_status(idle, result),
        PendingOp::Reboot => {
            let shown = FastbootPage { reboot_result: summary_view(result), ..idle };
            if result.ok {
                FastbootPage { status: None, status_error: None, ..shown }
            } else {
                shown
            }
        },
        PendingOp::Command(asked) => with_command(idle, asked, result),
        PendingOp::Extract => FastbootPage { extract_result: summary_view(result), ..idle },
        PendingOp::Flash => FastbootPage { result: summary_view(result), ..idle },
        PendingOp::MemoryList => with_memory_list(idle, result),
        PendingOp::UploadMemory => {
            let shown = FastbootPage { memory_result: summary_view(result), ..idle };
            if result.ok {
                shown
            } else {
                FastbootPage { memory_map: None, selected_memory: None, ..shown }
            }
        },
        PendingOp::StorageAnalyse => with_storage(idle, result),
    }
}

/// The view of the result of a job.
pub open spec fn view_for(page: FastbootPage, op: PendingOp) -> Option<ResultView> {
    match op {
        PendingOp::Status => None,
        PendingOp::Reboot => page.reboot_result,
        PendingOp::Command(_) => page.command_result,
        PendingOp::Extract => page.extract_result,
        PendingOp::Flash => page.result,
        PendingOp::MemoryList => page.memory_result,
        PendingOp::UploadMemory => page.memory_result,
        PendingOp::StorageAnalyse => page.storage_result,
    }
}

/// What is announced behind a job, and how loud.
pub open spec fn announced(page: FastbootPage, op: PendingOp, cancelled: bool) -> Option<
    (Level, Announcement),
> {
    match op {
        PendingOp::Status => if page.status_error is Some {
            if cancelled {
                Some((Level::Warning, Announcement::StatusError))
            } else {
                Some((Level::Error, Announcement::StatusError))
            }
        } else {
            match page.status {
                Some(status) => if status.connected {
                    None
                } else if status.devices@.len() == 0 {
                    Some((Level::Warning, Announcement::NotFound))
                } else if status.devices@.len() == 1 {
                    Some((Level::Warning, Announcement::CannotOpen))
                } else {
                    Some((Level::Warning, Announcement::Multiple))
                },
                None => None,
            }
        },
        _ => match view_for(page, op) {
            Some(view) => if cancelled {
                Some((Level::Warning, Announcement::View))
            } else if view.ok {
                Some((Level::Success, Announcement::View))
            } else {
                Some((Level::Error, Announcement::View))
            },
            None => None,
        },
    }
}

/// True when exactly one device is connected.
pub open spec fn has_device(page: FastbootPage) -> bool {
    match page.status {
        Some(status) => status.connected && status.devices@.len() == 1,
        None => false,
    }
}

impl Default for FastbootPage {
    fn default() -> (page: FastbootPage)
        ensures
            page.status is None,
            page.status_error is None,
            !page.auto_checked,
            page.image@.len() == 0,
            page.target@.len() == 0,
            page.extract_partition@.len() == 0,
            page.command == FastbootCommand::Getvar,
            page.command_argument@.len() == 0,
            page.memory_map is None,
            page.selected_memory is None,
            page.storage_gpt is None,
            page.pending is None,
            page.extract_result is None,
            page.result is None,
            page.reboot_result is None,
            page.command_result is None,
            page.memory_result is None,
            page.storage_result is None,
    {
        FastbootPage {
            status: None,
            status_error: None,
            auto_checked: false,
            image: String::new(),
            target: String::new(),
            extract_partition: String::new(),
            extract_result: None,
            result: None,
            reboot_result: None,
            command: FastbootCommand::Getvar,
            command_argument: String::new(),
            command_result: None,
            memory_map: None,
            selected_memory: None,
            memory_result: None,
            storage_gpt: None,
            storage_result: None,
            pending: None,
        }
    }
}

impl FastbootPage {
    fn clear_memory(&mut self)
        ensures
            *final(self) == without_memory(*old(self)),
    {
        self.memory_map = None;
        self.selected_memory = None;
        self.memory_result = None;
    }

    fn clear_storage(&mut self)
        ensures
            *final(self) == without_storage(*old(self)),
    {
        self.storage_gpt = None;
        self.storage_result = None;
    }

    fn accept_status(&mut self, result: PageResult)
        ensures
            *final(self) == with_status(*old(self), result),
    {
        self.result = None;
        if !result.ok {
            self.status = None;
            self.status_error = Some(Notice::Summary { text: result.summary });
            return;
        }
        match result.payload {
            Payload::Status { status } => {
                self.status = Some(status);
                self.status_error = None;
            },
            Payload::Absent => {},
            other => {
                self.status = None;
                self.status_error = Some(Notice::StatusPayload { problem: find_problem(other) });
            },
        }
    }

    fn accept_memory_list(&mut self, result: PageResult)
        ensures
            *final(self) == with_memory_list(*old(self), result),
    {
        self.clear_memory();
        if !result.ok {
            self.memory_result =
            Some(ResultView { ok: false, summary: Notice::Summary { text: result.summary } });
            return;
        }
        match result.payload {
            Payload::Memory { map } => {
                if map.regions.len() > 0 {
                    self.memory_map = Some(map);
                    self.selected_memory = Some(0);
                    self.memory_result =
                    Some(
                        ResultView { ok: true, summary: Notice::Summary { text: result.summary } },
                    );
                } else {
                    self.memory_result =
                    Some(ResultView { ok: false, summary: Notice::MemoryEmpty });
                }
            },
            other => {
                let problem = find_problem(other);
                self.memory_result =
                Some(ResultView { ok: false, summary: Notice::MemoryPayload { problem } });
            },
        }
    }

    fn accept_storage_result(&mut self, result: PageResult)
        ensures
            *final(self) == with_storage(*old(self), result),
    {
        if !result.ok {
            self.storage_result =
            Some(ResultView { ok: false, summary: Notice::Summary { text: result.summary } });
            return;
        }
        match result.payload {
            Payload::Storage { gpt } => {
                if gpt.tables.len() > 0 {
                    self.storage_gpt = Some(gpt);
                    self.storage_result =
                    Some(
                        ResultView { ok: true, summary: Notice::Summary { text: result.summary } },
                    );
                } else {
                    self.storage_result =
                    Some(ResultView { ok: false, summary: Notice::StorageNoTable });
                }
            },
            other => {
                let problem = find_problem(other);
                self.storage_result =
                Some(ResultView { ok: false, summary: Notice::StoragePayload { problem } });
            },
        }
    }

    fn accept_command(&mut self, asked: FastbootCommand, result: PageResult)
        ensures
            *final(self) == with_command(*old(self), asked, result),
    {
        self.command_result =
        Some(ResultView { ok: result.ok, summary: Notice::Summary { text: result.summary } });
        if asked != FastbootCommand::Getvar {
            self.clear_memory();
            self.clear_storage();
        }
        if asked == FastbootCommand::Continue {
            self.status = None;
            self.status_error = None;
        }
    }

    fn announce(&self, op: PendingOp, cancelled: bool) -> (said: Option<(Level, Announcement)>)
        ensures
            said == announced(*self, op, cancelled),
    {
        let view = match op {
            PendingOp::Status => {
                if self.status_error.is_some() {
                    let level = if cancelled {
                        Level::Warning
                    } else {
                        Level::Error
                    };
                    return Some((level, Announcement::StatusError));
                }
                if let Some(status) = &self.status {
                    if !status.connected {
                        let what = if status.devices.len() == 0 {
                            Announcement::NotFound
                        } else if status.devices.len() == 1 {
                            Announcement::CannotOpen
                        } else {
                            Announcement::Multiple
                        };
                        return Some((Level::Warning, what));
                    }
                }
                return None;
            },
            PendingOp::Reboot => &self.reboot_result,
            PendingOp::Command(_) => &self.command_result,
            PendingOp::Extract => &self.extract_result,
            PendingOp::Flash => &self.result,
            PendingOp::MemoryList => &self.memory_result,
            PendingOp::UploadMemory => &self.memory_result,
            PendingOp::StorageAnalyse => &self.storage_result,
        };
        match view {
            Some(view) => {
                if cancelled {
                    Some((Level::Warning, Announcement::View))
                } else if view.ok {
                    Some((Level::Success, Announcement::View))
                } else {
                    Some((Level::Error, Announcement::View))
                }
            },
            None => None,
        }
    }

    /// Takes the result of the job that the page waits for, and tells what to
    /// announce.
    pub fn poll_result(&mut self, result: PageResult) -> (said: Option<(Level, Announcement)>)
        ensures
            *final(self) == polled(*old(self), result),
            said == announced(*final(self), awaited(*old(self)), result.cancelled),
    {
        let op = match self.pending {
            Some(op) => op,
            None => PendingOp::Status,
        };
        self.pending = None;
        let cancelled = result.cancelled;
        match op {
            PendingOp::Status => self.accept_status(result),
            PendingOp::Reboot => {
                self.reboot_result =
                Some(
                    ResultView { ok: result.ok, summary: Notice::Summary { text: result.summary } },
                );
                if result.ok {
                    self.status = None;
                    self.status_error = None;
                }
            },
            PendingOp::Command(asked) => self.accept_command(asked, result),
            PendingOp::Extract => {
                self.extract_result =
                Some(
                    ResultView { ok: result.ok, summary: Notice::Summary { text: result.summary } },
                );
            },
            PendingOp::Flash => {
                self.result =
                Some(
                    ResultView { ok: result.ok, summary: Notice::Summary { text: result.summary } },
                );
            },
            PendingOp::MemoryList => self.accept_memory_list(result),
            PendingOp::UploadMemory => {
                if !result.ok {
                    self.memory_map = None;
                    self.selected_memory = None;
                }
                self.memory_result =
                Some(
                    ResultView { ok: result.ok, summary: Notice::Summary { text: result.summary } },
                );
            },
            PendingOp::StorageAnalyse => self.accept_storage_result(result),
        }
        self.announce(op, cancelled)
    }

    // -----------------------------------------------------------------------
    // Jobs
    // -----------------------------------------------------------------------

    /// Tells whether exactly one device is connected.
    pub fn is_connected(&self) -> (connected: bool)
        ensures
            connected == has_device(*self),
    {
        match &self.status {
            Some(status) => status.connected && status.devices.len() == 1,
            None => false,
        }
    }

    /// Looks for devices once, when the page is first shown while no job runs.
    pub fn check_once(&mut self, running: bool) -> (job: Option<JobOp>)
        ensures
            match job {
                Some(op) => {
                    &&& !old(self).auto_checked && !running
                    &&& op == JobOp::FastbootStatus
                    &&& *final(self) == status_started(
                        (FastbootPage { auto_checked: true, ..*old(self) }),
                    )
                },
                None => *final(self) == *old(self) && (old(self).auto_checked || running),
            },
    {
        if self.auto_checked || running {
            return None;
        }
        self.auto_checked = true;
        Some(self.start_status())
    }

    /// Starts to look for devices.
    pub fn start_status(&mut self) -> (op: JobOp)
        ensures
            op == JobOp::FastbootStatus,
            *final(self) == status_started(*old(self)),
    {
        self.clear_memory();
        self.clear_storage();
        self.status_error = None;
        self.reboot_result = None;
        self.pending = Some(PendingOp::Status);
        JobOp::FastbootStatus
    }

    /// Starts to restart the device.
    pub fn start_reboot(&mut self, running: bool) -> (job: Option<JobOp>)
        ensures
            match job {
                Some(op) => {
                    &&& !running && has_device(*old(self))
                    &&& op == JobOp::FastbootReboot
                    &&& *final(self) == (FastbootPage {
                        reboot_result: None,
                        pending: Some(PendingOp::Reboot),
                        ..without_memory(*old(self))
                    })
                },
                None => *final(self) == *old(self) && (running || !has_device(*old(self))),
            },
    {
        if running || !self.is_connected() {
            return None;
        }
        self.clear_memory();
        self.reboot_result = None;
        self.pending = Some(PendingOp::Reboot);
        Some(JobOp::FastbootReboot)
    }

    /// Starts the command that is typed in.
    pub fn start_command(&mut self, running: bool) -> (job: Option<JobOp>)
        ensures
            ({
                let argument = command::argument_of(
                    old(self).command,
                    old(self).command_argument@,
                );
                let ready = !running && has_device(*old(self)) && argument is Some;
                match job {
                    Some(op) => {
                        &&& ready
                        &&& op matches JobOp::FastbootCommand { command: asked, argument: given }
                        &&& asked == old(self).command
                        &&& Some(given@) == argument
                        &&& *final(self) == (FastbootPage {
                            command_result: None,
                            pending: Some(PendingOp::Command(old(self).command)),
                            ..*old(self)
                        })
                    },
                    None => *final(self) == *old(self) && !ready,
                }
            }),
    {
        if running || !self.is_connected() {
            return None;
        }
        match self.command.argument(self.command_argument.as_str()) {
            Ok(argument) => {
                self.command_result = None;
                self.pending = Some(PendingOp::Command(self.command));
                Some(JobOp::FastbootCommand { command: self.command, argument })
            },
            Err(_) => None,
        }
    }

    /// Starts to read the partition table.
    pub fn start_storage(&mut self, running: bool) -> (job: Option<JobOp>)
        ensures
            match job {
                Some(op) => {
                    &&& !running && has_device(*old(self))
                    &&& op == JobOp::FastbootStorageAnalyse
                    &&& *final(self) == (FastbootPage {
                        pending: Some(PendingOp::StorageAnalyse),
                        ..without_storage(*old(self))
                    })
                },
                None => *final(self) == *old(self) && (running || !has_device(*old(self))),
            },
    {
        if running || !self.is_connected() {
            return None;
        }
        self.clear_storage();
        self.pending = Some(PendingOp::StorageAnalyse);
        Some(JobOp::FastbootStorageAnalyse)
    }

    /// The partition to extract, and a file name for it.
    pub fn extract_target(&self, running: bool) -> (target: Option<(String, String)>)
        ensures
            ({
                let partition = text::trimmed(self.extract_partition@);
                match target {
                    Some((name, file)) => {
                        &&& !running && has_device(*self) && partition.len() > 0
                        &&& name@ == partition
                        &&& file@ == partition + ".img"@
                    },
                    None => running || !has_device(*self) || partition.len() == 0,
                }
            }),
    {
        if running || !self.is_connected() {
            return None;
        }
        let chars = text::chars_of(self.extract_partition.as_str());
        let partition = text::trim(chars.as_slice());
        if partition.len() == 0 {
            return None;
        }
        let mut file: Vec<char> = text::copy_chars(partition);
        text::append_text(&mut file, ".img");
        Some((text::string_of(partition), text::string_of(file.as_slice())))
    }

    /// Starts to extract a partition.
    pub fn start_extract(&mut self, partition: String, output: String) -> (op: JobOp)
        ensures
            op == (JobOp::FastbootExtract { partition, output }),
            *final(self) == (FastbootPage {
                extract_result: None,
                pending: Some(PendingOp::Extract),
                ..*old(self)
            }),
    {
        self.extract_result = None;
        self.pending = Some(PendingOp::Extract);
        JobOp::FastbootExtract { partition, output }
    }

    /// Starts to list the regions of memory.
    pub fn start_memory_list(&mut self, running: bool) -> (job: Option<JobOp>)
        ensures
            match job {
                Some(op) => {
                    &&& !running && has_device(*old(self))
                    &&& op == JobOp::FastbootMemoryList
                    &&& *final(self) == (FastbootPage {
                        pending: Some(PendingOp::MemoryList),
                        ..without_memory(*old(self))
                    })
                },
                None => *final(self) == *old(self) && (running || !has_device(*old(self))),
            },
    {
        if running || !self.is_connected() {
            return None;
        }
        self.clear_memory();
        self.pending = Some(PendingOp::MemoryList);
        Some(JobOp::FastbootMemoryList)
    }

    /// The region that is chosen, and a file name for it.
    pub fn chosen_region(&self, running: bool) -> (chosen: Option<(usize, String)>)
        ensures
            ({
                let ready = !running && has_device(*self) && self.memory_map is Some
                    && self.selected_memory is Some && self.selected_memory->0
                    < self.memory_map->0.regions@.len();
                match chosen {
                    Some((index, file)) => {
                        &&& ready
                        &&& index == self.selected_memory->0
                        &&& file@ == memory::file_name_of(
                            self.memory_map->0.regions@[index as int]@,
                        )
                    },
                    None => !ready,
                }
            }),
    {
        if running || !self.is_connected() {
            return None;
        }
        match (&self.memory_map, self.selected_memory) {
            (Some(map), Some(index)) => {
                if index < map.regions.len() {
                    Some((index, map.regions[index].suggested_filename()))
                } else {
                    None
                }
            },
            _ => None,
        }
    }

    /// Starts to download a region.
    pub fn start_upload(
        &mut self,
        device: MemoryDevice,
        region: MemoryRegion,
        output: String,
    ) -> (op: JobOp)
        ensures
            op == (JobOp::FastbootUploadMemory { device, region, output }),
            *final(self) == (FastbootPage {
                memory_result: None,
                pending: Some(PendingOp::UploadMemory),
                ..*old(self)
            }),
    {
        self.memory_result = None;
        self.pending = Some(PendingOp::UploadMemory);
        JobOp::FastbootUploadMemory { device, region, output }
    }

    /// Starts to flash an image.
    pub fn start_flash(&mut self, running: bool) -> (job: Option<JobOp>)
        ensures
            ({
                let ready = !running && has_device(*old(self)) && !script::is_blank(
                    old(self).image@,
                ) && !script::is_blank(old(self).target@);
                match job {
                    Some(op) => {
                        &&& ready
                        &&& op matches JobOp::FastbootFlash { image, target }
                        &&& image@ == text::trimmed(old(self).image@)
                        &&& target@ == text::trimmed(old(self).target@)
                        &&& *final(self) == (FastbootPage {
                            result: None,
                            pending: Some(PendingOp::Flash),
                            ..*old(self)
                        })
                    },
                    None => *final(self) == *old(self) && !ready,
                }
            }),
    {
        if running || !self.is_connected() {
            return None;
        }
        let image_chars = text::chars_of(self.image.as_str());
        let target_chars = text::chars_of(self.target.as_str());
        let image = text::trim(image_chars.as_slice());
        let target = text::trim(target_chars.as_slice());
        if image.len() == 0 || target.len() == 0 {
            return None;
        }
        self.result = None;
        self.pending = Some(PendingOp::Flash);
        Some(
            JobOp::FastbootFlash {
                image: text::string_of(image),
                target: text::string_of(target),
            },
        )
    }

    /// Chooses an image, and the partition that its name tells.
    pub fn set_image(&mut self, path: String)
        ensures
            final(self).image@ == path@,
            final(self).target@ == match partition_for(path@) {
                Some(target) => target,
                None => old(self).target@,
            },
            *final(self) == (FastbootPage {
                image: final(self).image,
                target: final(self).target,
                ..*old(self)
            }),
    {
        if let Some(target) = partition_name_from_image(path.as_str()) {
            self.target = target;
        }
        self.image = path;
    }
}

/// The page while devices are looked for.
pub open spec fn status_started(page: FastbootPage) -> FastbootPage {
    FastbootPage {
        status_error: None,
        reboot_result: None,
        pending: Some(PendingOp::Status),
        ..without_storage(without_memory(page))
    }
}

// ---------------------------------------------------------------------------
// Partition names
// ---------------------------------------------------------------------------

/// True for a piece of a path that names nothing.
pub open spec fn is_skipped(piece: Seq<char>) -> bool {
    piece.len() == 0 || piece == "."@
}

/// The last piece that names something, among the first `n`.
pub open spec fn last_named(pieces: Seq<Seq<char>>, n: int) -> Option<Seq<char>>
    decreases n,
{
    if n <= 0 {
        None
    } else if is_skipped(pieces[n - 1]) {
        last_named(pieces, n - 1)
    } else {
        Some(pieces[n - 1])
    }
}

/// The name of the file at a path.
pub open spec fn file_of(path: Seq<char>) -> Option<Seq<char>> {
    let pieces = text::split(path, '/');
    match last_named(pieces, pieces.len() as int) {
        Some(name) => if name == ".."@ {
            None
        } else {
            Some(name)
        },
        None => None,
    }
}

/// Where the last dot of a name is, among its first `n` characters; -1 where
/// there is none.
pub open spec fn last_dot(name: Seq<char>, n: int) -> int
    decreases n,
{
    if n <= 0 {
        -1
    } else if name[n - 1] == '.' {
        n - 1
    } else {
        last_dot(name, n - 1)
    }
}

/// The partition that an image is for, as its name tells: what stands before
/// the extension `img` or `bin`, or `ptable`.
pub open spec fn partition_for(path: Seq<char>) -> Option<Seq<char>> {
    match file_of(path) {
        None => None,
        Some(name) => {
            let dot = last_dot(name, name.len() as int);
            if text::lowered(text::trimmed(name)) == "ptable"@ {
                Some("ptable"@)
            } else if dot <= 0 {
                None
            } else {
                let extension = text::lowered(name.skip(dot + 1));
                let stem = text::trimmed(name.take(dot));
                if (extension == "img"@ || extension == "bin"@) && stem.len() > 0 {
                    Some(stem)
                } else {
                    None
                }
            }
        },
    }
}

fn find_file(path: &[char]) -> (name: Option<Vec<char>>)
    ensures
        match name {
            Some(found) => file_of(path@) == Some(found@),
            None => file_of(path@) is None,
        },
{
    let list = text::split_char(path, '/');
    let ghost pieces = text::split(path@, '/');
    assert(text::pieces(list@) == pieces);
    assert(pieces.len() == list@.len());
    let mut n: usize = list.len();
    while n > 0
        invariant
            n <= list@.len(),
            pieces == text::split(path@, '/'),
            text::pieces(list@) == pieces,
            pieces.len() == list@.len(),
            last_named(pieces, pieces.len() as int) == last_named(pieces, n as int),
        decreases n,
    {
        let piece = list[n - 1].as_slice();
        assert(pieces[n - 1] == piece@);
        if piece.len() > 0 && !text::is_text(piece, ".") {
            if text::is_text(piece, "..") {
                return None;
            }
            return Some(text::copy_chars(piece));
        }
        n -= 1;
    }
    None
}

/// The partition that an image is for, as its name tells.
pub fn partition_name_from_image(path: &str) -> (partition: Option<String>)
    ensures
        text_of(partition) == partition_for(path@),
{
    let chars = text::chars_of(path);
    let found = match find_file(chars.as_slice()) {
        Some(found) => found,
        None => {
            return None;
        },
    };
    let name = found.as_slice();
    let small = text::lower(text::trim(name));
    if text::is_text(small.as_slice(), "ptable") {
        return Some("ptable".to_string());
    }
    let mut n: usize = name.len();
    while n > 0 && name[n - 1] != '.'
        invariant
            n <= name@.len(),
            last_dot(name@, name@.len() as int) == last_dot(name@, n as int),
        decreases n,
    {
        n -= 1;
    }
    if n <= 1 {
        return None;
    }
    let ghost dot = last_dot(name@, name@.len() as int);
    assert(dot == n - 1);
    assert(name@.skip(n as int) =~= name@.subrange(n as int, name@.len() as int));
    let extension = text::lower(&name[n..name.len()]);
    if !text::is_text(extension.as_slice(), "img") && !text::is_text(extension.as_slice(), "bin") {
        return None;
    }
    assert(name@.take(dot) =~= name@.subrange(0, dot));
    let stem = text::trim(&name[0..n - 1]);
    if stem.len() == 0 {
        return None;
    }
    Some(text::string_of(stem))
}

/// Behind every command that may change the device, whatever came of it, the
/// page knows nothing of memory and storage any more, and behind `continue`
/// nothing of the device.
pub proof fn law_commands_forget_what_was_read(
    page: FastbootPage,
    asked: FastbootCommand,
    result: PageResult,
)
    requires
        page.pending == Some(PendingOp::Command(asked)),
        asked != FastbootCommand::Getvar,
    ensures
        polled(page, result).memory_map is None,
        polled(page, result).selected_memory is None,
        polled(page, result).storage_gpt is None,
        asked == FastbootCommand::Continue ==> !has_device(polled(page, result)),
{
}

/// A result is shown where the job that it belongs to shows its results, with its
/// own summary and as well as it went, and nowhere else; the page waits no more.
pub proof fn law_results_are_shown_with_their_job(page: FastbootPage, result: PageResult)
    ensures
        ({
            let after = polled(page, result);
            let own = Some(
                ResultView { ok: result.ok, summary: Notice::Summary { text: result.summary } },
            );
            &&& after.pending is None
            &&& page.pending == Some(PendingOp::Reboot) ==> after.reboot_result == own
                && after.extract_result == page.extract_result && after.result == page.result
            &&& page.pending == Some(PendingOp::Extract) ==> after.extract_result == own
                && after.reboot_result == page.reboot_result && after.result == page.result
                && after.status == page.status
            &&& page.pending == Some(PendingOp::Flash) ==> after.result == own
                && after.extract_result == page.extract_result && after.status == page.status
            &&& page.pending == Some(PendingOp::UploadMemory) ==> after.memory_result == own
            &&& page.pending matches Some(PendingOp::Command(_)) ==> after.command_result == own
        }),
{
}

/// A device that was restarted is no longer known, and one that could not be is
/// still there.
pub proof fn law_restarts_lose_the_device(page: FastbootPage, result: PageResult)
    requires
        page.pending == Some(PendingOp::Reboot),
    ensures
        result.ok ==> polled(page, result).status is None && !has_device(polled(page, result)),
        !result.ok ==> polled(page, result).status == page.status,
{
}

/// What devices there are is known where looking for them went well and handed back
/// their state, and an error is shown where it did not.
pub proof fn law_states_are_taken_over(page: FastbootPage, result: PageResult)
    requires
        page.pending is None || page.pending == Some(PendingOp::Status),
    ensures
        ({
            let after = polled(page, result);
            &&& result.ok && result.payload is Status ==> after.status == Some(
                result.payload->status,
            ) && after.status_error is None
            &&& !result.ok ==> after.status is None && after.status_error == Some(
                Notice::Summary { text: result.summary },
            )
            &&& result.ok && !(result.payload is Status) && !(result.payload is Absent)
                ==> after.status is None && after.status_error is Some
            &&& result.ok && result.payload is Absent ==> after.status == page.status
        }),
{
}

/// A list of regions is taken over where it is not empty, with the first one chosen,
/// and the tables of a storage where there are some; else none are known of memory,
/// and the result says what is wrong.
pub proof fn law_lists_are_taken_over(page: FastbootPage, result: PageResult)
    ensures
        page.pending == Some(PendingOp::MemoryList) ==> {
            let after = polled(page, result);
            let good = result.ok && result.payload is Memory && result.payload->map.regions@.len()
                > 0;
            &&& good ==> after.memory_map == Some(result.payload->map) && after.selected_memory
                == Some(0usize)
            &&& !good ==> after.memory_map is None && after.selected_memory is None
            &&& after.memory_result is Some && after.memory_result->0.ok == good
        },
        page.pending == Some(PendingOp::StorageAnalyse) ==> {
            let after = polled(page, result);
            let good = result.ok && result.payload is Storage && result.payload->gpt.tables@.len()
                > 0;
            &&& good ==> after.storage_gpt == Some(result.payload->gpt)
            &&& after.storage_result is Some && after.storage_result->0.ok == good
        },
{
}

/// What is announced of a result warns where the job was cancelled, and else is a
/// success or an error as the result that is shown; of the devices it is announced
/// where there is not exactly one that could be opened.
pub proof fn law_announcements_fit_the_result(page: FastbootPage, op: PendingOp, cancelled: bool)
    ensures
        op != PendingOp::Status && view_for(page, op) is Some ==> (announced(page, op, cancelled)
            matches Some((level, what)) && what == Announcement::View && level == (if cancelled {
            Level::Warning
        } else if view_for(page, op)->0.ok {
            Level::Success
        } else {
            Level::Error
        })),
        page.status_error is None && page.status is Some ==> {
            let status = page.status->0;
            let said = announced(page, PendingOp::Status, cancelled);
            &&& status.connected ==> said is None
            &&& !status.connected && status.devices@.len() == 0 ==> said == Some(
                (Level::Warning, Announcement::NotFound),
            )
            &&& !status.connected && status.devices@.len() == 1 ==> said == Some(
                (Level::Warning, Announcement::CannotOpen),
            )
            &&& !status.connected && status.devices@.len() > 1 ==> said == Some(
                (Level::Warning, Announcement::Multiple),
            )
        },
        page.status_error is Some ==> announced(page, PendingOp::Status, cancelled) == Some(
            (
                if cancelled {
                    Level::Warning
                } else {
                    Level::Error
                },
                Announcement::StatusError,
            ),
        ),
{
}

/// A device is there where exactly one is and it could be opened.
pub proof fn law_devices_are_single(page: FastbootPage)
    ensures
        has_device(page) <==> page.status is Some && page.status->0.connected
            && page.status->0.devices@.len() == 1,
{
}

/// The partition of an image is told by the name of its file: by what stands before
/// `.img` or `.bin`, whatever the case of these letters.
pub proof fn law_images_name_their_partition(stem: Seq<char>, bin: bool)
    requires
        stem.len() > 0,
        !stem.contains('/'),
        !stem.contains('.'),
        !text::is_white(stem[0]) && !text::is_white(stem.last()),
    ensures
        ({
            let name = stem + if bin {
                seq!['.', 'b', 'i', 'n']
            } else {
                seq!['.', 'i', 'm', 'g']
            };
            partition_for(name) == Some(stem)
        }),
        file_of(stem) == Some(stem),
{
    reveal_strlit("img");
    reveal_strlit("bin");
    reveal_strlit("ptable");
    reveal_strlit(".");
    reveal_strlit("..");
    let tail = if bin {
        seq!['.', 'b', 'i', 'n']
    } else {
        seq!['.', 'i', 'm', 'g']
    };
    let name = stem + tail;
    let n = stem.len() as int;
    assert forall|i: int| 0 <= i < name.len() implies #[trigger] name[i] != '/' by {
        if i < n {
            assert(stem.contains(stem[i]));
        }
    }
    assert forall|i: int| 0 <= i < n implies #[trigger] stem[i] != '/' && stem[i] != '.' by {
        assert(stem.contains(stem[i]));
    }
    text::lemma_position(name, '/', 0);
    text::lemma_position(stem, '/', 0);
    assert(text::split(name, '/') == seq![name]);
    assert(text::split(stem, '/') == seq![stem]);
    assert(name[n] == '.');
    assert(stem[0] != '.');
    assert("."@[0] == '.' && ".."@[0] == '.');
    assert(name[0] == stem[0]);
    assert(!is_skipped(name) && !is_skipped(stem));
    assert(seq![name][0] == name && seq![stem][0] == stem);
    assert(file_of(name) == Some(name));
    assert(name[n + 1] != '.' && name[n + 2] != '.' && name[n + 3] != '.');
    assert(last_dot(name, n + 1) == n);
    assert(last_dot(name, n + 2) == n);
    assert(last_dot(name, n + 3) == n);
    assert(last_dot(name, n + 4) == n);
    assert(name.take(n) =~= stem);
    assert(name.skip(n + 1) =~= tail.skip(1));
    let small = text::lowered(name.skip(n + 1));
    if bin {
        assert(small =~= "bin"@);
    } else {
        assert(small =~= "img"@);
    }
    let low = text::lowered(text::trimmed(name));
    assert(text::trimmed_start(name) == name);
    assert(name.last() == tail[3]);
    assert(text::trimmed(name) == name);
    assert(low[n] == '.');
    if low == "ptable"@ {
        assert("ptable"@[n] == low[n]);
    }
    assert(text::trimmed(stem) == stem) by {
        assert(text::trimmed_start(stem) == stem);
    }
}

/// While devices are looked for, nothing is known of memory or storage, and no error
/// or restart of before is shown; what was known of the devices stays.
pub proof fn law_looking_forgets_what_was_read(page: FastbootPage)
    ensures
        ({
            let after = status_started(page);
            &&& after.pending == Some(PendingOp::Status)
            &&& after.memory_map is None && after.selected_memory is None
            &&& after.memory_result is None && after.storage_gpt is None
            &&& after.storage_result is None && after.status_error is None
            &&& after.reboot_result is None
            &&& after.status == page.status && after.result == page.result
            &&& after.command == page.command && after.image == page.image
        }),
{
}

} // verus!
