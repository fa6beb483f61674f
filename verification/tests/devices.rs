use haucet::fastboot::command::{
    check_storage, command_label, command_summary, single_device, status, CommandReply,
    DeviceSelectionError, FastbootCommand, FastbootDeviceInfo, FastbootStatusPayload,
    InvalidArgument, StatusSummary,
};
use haucet::fastboot::memory::{
    parse_ddrdump, DownloadError, DumpError, LineProblem, MemoryDevice, MemoryDownload, MemoryMap,
    MemoryRegion, RegionProblem, CHUNK_SIZE,
};
use haucet::fastboot::page::{
    partition_name_from_image, Announcement, FastbootPage, Notice, PageResult, Payload, PendingOp,
};
use haucet::flash::page::{FlashPage, ScriptJob};
use haucet::flash::run::{
    advance, cause_text, choice_text, describe, mismatch_text, mode_name, port_list,
    report_bucket, resolve_port, start, step_prefix, Move, PortChoice, PortDecision, Reply,
    Request, RunError,
};
use haucet::flash::script::{
    is_fastboot_token, parse_u32_address, FlashScript, FlashStep, Located, Placed, RebootMode,
    ResolvedScript, ScriptError, StepProblem,
};
use haucet::flash::terminal::{
    check_answer, check_choice, choose_port, progress_line, AnswerProblem,
};
use haucet::formats::gpt::GptInfo;
use haucet::jobs::board::{
    push_log, result_level, result_owner, ImageKind, JobBoard, JobResult, Level, Page, ResultOwner,
};
use haucet::jobs::message::Value;
use haucet::jobs::operation::{
    job_label, layout_label, partition_label, reports_upload, summarize, JobOp, JobProblem,
    Outcome, PackageFormat, PartitionKind, UpdateLayout,
};

fn script(steps: Vec<FlashStep>) -> FlashScript {
    FlashScript { version: 1, name: "session".to_string(), steps }
}

fn flash_step() -> FlashStep {
    FlashStep::FastbootFlash { partition: "boot".to_string(), file: " images/boot.img ".to_string() }
}

fn upload_step(port: &str) -> FlashStep {
    FlashStep::VcomUpload {
        port: port.to_string(),
        address: "0x00023000".to_string(),
        file: "loader.bin".to_string(),
    }
}

fn assert_step() -> FlashStep {
    FlashStep::FastbootAssert { variable: "product".to_string(), value: "ABC".to_string() }
}

fn locate(path: &str) -> Located {
    if path.ends_with("missing") {
        Located::Missing
    } else if path.ends_with("directory") {
        Located::NotRegular
    } else {
        Located::File { path: path.to_string() }
    }
}

fn place(base: &str, file: &str) -> Placed {
    if file.starts_with('/') {
        Placed::Absolute
    } else {
        Placed::Within { path: format!("{base}/{file}") }
    }
}

fn resolved(steps: Vec<FlashStep>) -> ResolvedScript {
    script(steps).resolve("/work", &place, &locate).unwrap()
}

fn port(name: &str) -> PortChoice {
    PortChoice { name: name.to_string(), description: "PCUI".to_string() }
}

#[test]
fn addresses_and_tokens_are_checked() {
    assert_eq!(parse_u32_address(" 0x00023000 "), Some(0x23000));
    assert_eq!(parse_u32_address("0XFFFFFFFF"), Some(u32::MAX));
    assert_eq!(parse_u32_address("80000000"), Some(0x8000_0000));
    for bad in ["", "0x", "0x100000000", "+1", "0x+1", "xyz"] {
        assert_eq!(parse_u32_address(bad), None, "{bad}");
    }
    assert!(is_fastboot_token("boot"));
    assert!(!is_fastboot_token("boot a"));
    assert!(!is_fastboot_token(" "));
}

#[test]
fn scripts_are_validated_step_by_step() {
    let problem = |step: FlashStep| {
        match script(vec![FlashStep::Sleep { millis: 1 }, step]).validate() {
            Err(ScriptError::Step { number: 2, problem }) => Some(problem),
            Ok(()) => None,
            other => panic!("{other:?}"),
        }
    };
    assert_eq!(problem(flash_step()), None);
    assert_eq!(problem(upload_step("auto")), None);
    assert_eq!(problem(FlashStep::FastbootReboot { mode: RebootMode::System }), None);
    assert!(problem(FlashStep::WaitVcom { timeout_secs: 0 }).is_some());
    assert!(problem(FlashStep::WaitFastboot { timeout_secs: 0 }).is_some());
    assert!(problem(upload_step(" ")).is_some());
    assert!(problem(FlashStep::FastbootErase { partition: "a b".to_string() }).is_some());
    assert!(problem(FlashStep::FastbootOem { command: "a\nb".to_string() }).is_some());
    assert!(problem(FlashStep::Alert { message: String::new() }).is_some());
    assert!(problem(FlashStep::Sleep { millis: 0 }).is_some());
    assert_eq!(script(vec![]).validate(), Err(ScriptError::NoSteps));
    let many = (0..257).map(|_| FlashStep::Sleep { millis: 1 }).collect();
    assert_eq!(script(many).validate(), Err(ScriptError::TooManySteps));
    let newer = FlashScript { version: 2, ..script(vec![flash_step()]) };
    assert_eq!(newer.validate(), Err(ScriptError::UnsupportedVersion));
}

#[test]
fn files_are_found_relative_to_the_script() {
    let run = resolved(vec![flash_step(), FlashStep::Sleep { millis: 1 }]);
    assert_eq!(run.name, "session");
    assert_eq!(run.steps[0].file.as_deref(), Some("/work/images/boot.img"));
    assert_eq!(run.steps[0].kind(), "fastboot_flash");
    assert_eq!(run.steps[1].file, None);
    let error = |file: &str| {
        let step =
            FlashStep::FastbootFlash { partition: "boot".to_string(), file: file.to_string() };
        script(vec![flash_step(), step]).resolve("/work", &place, &locate).map(|_| ()).unwrap_err()
    };
    assert_eq!(
        error("/abs/missing"),
        ScriptError::Step { number: 2, problem: StepProblem::FileMissing }
    );
    assert_eq!(
        error("directory"),
        ScriptError::Step { number: 2, problem: StepProblem::NotRegular }
    );
}

#[test]
fn refusals_name_the_step_and_its_problem() {
    let text = |problem| {
        script(vec![FlashStep::Sleep { millis: 1 }, flash_step()])
            .refusal_text(ScriptError::Step { number: 2, problem }, "/work/boot.img")
    };
    let step = |rest: &str| format!("step 2 (fastboot_flash): {rest}");
    assert_eq!(text(StepProblem::Timeout), step("timeout must be at least 1 second"));
    assert_eq!(text(StepProblem::EmptyPort), step("port must not be empty"));
    assert_eq!(text(StepProblem::Address), step("address must be a hexadecimal 32-bit value"));
    assert_eq!(text(StepProblem::EmptyFile), step("file must not be empty"));
    assert_eq!(text(StepProblem::Variable), step("variable must be a single non-empty word"));
    assert_eq!(text(StepProblem::Partition), step("partition must be a single non-empty word"));
    assert_eq!(
        text(StepProblem::Command),
        step("command must not be empty or contain control characters")
    );
    assert_eq!(
        text(StepProblem::Message),
        step("message must not be empty or contain control characters")
    );
    assert_eq!(text(StepProblem::Duration), step("duration must be at least 1 millisecond"));
    assert_eq!(text(StepProblem::FileMissing), step("file not found: /work/boot.img"));
    assert_eq!(text(StepProblem::NotRegular), step("not a regular file: /work/boot.img"));
    let newer = FlashScript { version: 2, ..script(vec![]) };
    assert_eq!(
        newer.refusal_text(ScriptError::UnsupportedVersion, ""),
        "unsupported flash script version 2 (expected 1)"
    );
    assert_eq!(
        newer.refusal_text(ScriptError::NoSteps, ""),
        "flash script must contain at least one step"
    );
    assert_eq!(
        newer.refusal_text(ScriptError::TooManySteps, ""),
        "flash script exceeds the maximum of 256 steps"
    );
}

#[test]
fn the_platform_says_which_paths_are_absolute() {
    let windows = |base: &str, file: &str| {
        if file.get(1..3) == Some(":\\") {
            Placed::Absolute
        } else {
            Placed::Within { path: format!("{base}\\{file}") }
        }
    };
    let found = |file: &str| {
        let step =
            FlashStep::FastbootFlash { partition: "boot".to_string(), file: file.to_string() };
        let mut run = script(vec![step]).resolve("D:\\work", &windows, &locate).unwrap();
        run.steps.remove(0).file.unwrap()
    };
    assert_eq!(found(" C:\\images\\boot.img "), "C:\\images\\boot.img");
    assert_eq!(found(" boot.img"), "D:\\work\\boot.img");
}

#[test]
fn steps_are_described() {
    assert_eq!(describe(&FlashStep::WaitVcom { timeout_secs: 60 }), "wait for VCOM port (up to 60s)");
    assert_eq!(describe(&upload_step("COM7")), "VCOM upload loader.bin via COM7");
    assert_eq!(
        describe(&FlashStep::WaitFastboot { timeout_secs: 5 }),
        "wait for fastboot device (up to 5s)"
    );
    assert_eq!(describe(&assert_step()), "assert product = ABC");
    assert_eq!(describe(&flash_step()), "flash  images/boot.img  to boot");
    assert_eq!(describe(&FlashStep::FastbootErase { partition: "a".to_string() }), "erase a");
    assert_eq!(describe(&FlashStep::FastbootOem { command: "x".to_string() }), "oem x");
    assert_eq!(
        describe(&FlashStep::FastbootReboot { mode: RebootMode::Recovery }),
        "reboot (recovery)"
    );
    assert_eq!(describe(&FlashStep::Alert { message: "m".to_string() }), "alert: m");
    assert_eq!(describe(&FlashStep::Sleep { millis: 500 }), "sleep 500 ms");
    assert_eq!(mode_name(RebootMode::Continue), "continue");
    assert_eq!(port_list(&vec![port("COM1"), port("COM2")]), "COM1 (PCUI), COM2 (PCUI)");
}

#[test]
fn ports_are_named_or_the_only_one() {
    let decide = |wanted: &str, ports: Vec<PortChoice>| resolve_port(wanted, &ports);
    assert!(matches!(
        decide(" COM1 ", vec![port("COM1"), port("COM2")]),
        Ok(PortDecision::Use { port }) if port == "COM1"
    ));
    assert!(matches!(decide("COM9", vec![port("COM1")]), Err(RunError::UnknownPort)));
    assert!(matches!(
        decide("Auto", vec![port("COM1")]),
        Ok(PortDecision::Use { port }) if port == "COM1"
    ));
    assert!(matches!(decide("auto", vec![]), Err(RunError::NoPort)));
    assert!(matches!(
        decide("auto", vec![port("COM1"), port("COM2")]),
        Ok(PortDecision::Ask)
    ));
}

#[test]
fn a_run_goes_through_its_steps() {
    let run = resolved(vec![
        FlashStep::WaitVcom { timeout_secs: 1 },
        upload_step("auto"),
        FlashStep::WaitFastboot { timeout_secs: 1 },
        assert_step(),
        flash_step(),
        FlashStep::FastbootReboot { mode: RebootMode::System },
    ]);
    assert!(matches!(start(&run), Move::Ask { index: 0, request: Request::Ports }));
    let none = Reply::Ports { ports: vec![], expired: false };
    assert!(matches!(
        advance(&run, 0, &none),
        Move::Ask { index: 0, request: Request::Pause { millis: 500 } }
    ));
    assert!(matches!(
        advance(&run, 0, &Reply::Done),
        Move::Ask { index: 0, request: Request::Ports }
    ));
    let two = || Reply::Ports { ports: vec![port("COM1"), port("COM2")], expired: true };
    assert!(matches!(
        advance(&run, 0, &two()),
        Move::Ask { index: 1, request: Request::Ports }
    ));
    assert!(matches!(
        advance(&run, 1, &two()),
        Move::Ask { index: 1, request: Request::ChoosePort }
    ));
    match advance(&run, 1, &Reply::Port { name: "COM2".to_string() }) {
        Move::Ask { index: 1, request: Request::Upload { port, address, file } } => {
            assert_eq!((port.as_str(), address, file.as_str()), ("COM2", 0x23000, "/work/loader.bin"));
        }
        other => panic!("{other:?}"),
    }
    assert!(matches!(
        advance(&run, 1, &Reply::Done),
        Move::Ask { index: 2, request: Request::Devices }
    ));
    let devices = |count, expired| Reply::Devices { count, expired };
    assert!(matches!(
        advance(&run, 2, &devices(1, false)),
        Move::Ask { index: 3, request: Request::Devices }
    ));
    assert!(matches!(
        advance(&run, 3, &devices(1, false)),
        Move::Ask { index: 3, request: Request::Variable { name } } if name == "product"
    ));
    assert!(matches!(
        advance(&run, 3, &Reply::Value { value: "ABC \n".to_string() }),
        Move::Ask { index: 4, request: Request::Devices }
    ));
    assert!(matches!(
        advance(&run, 4, &devices(1, false)),
        Move::Ask { index: 4, request: Request::Flash { .. } }
    ));
    assert!(matches!(
        advance(&run, 4, &Reply::Done),
        Move::Ask { index: 5, request: Request::Devices }
    ));
    match advance(&run, 5, &Reply::Done) {
        Move::Complete { summary } => {
            assert_eq!((summary.name.as_str(), summary.completed, summary.total), ("session", 6, 6));
        }
        other => panic!("{other:?}"),
    }
}

#[test]
fn a_run_stops_at_the_first_failure() {
    let run = resolved(vec![
        FlashStep::WaitVcom { timeout_secs: 1 },
        upload_step("auto"),
        FlashStep::WaitFastboot { timeout_secs: 1 },
        assert_step(),
    ]);
    let error = |index, reply| match advance(&run, index, &reply) {
        Move::Fail { index: at, error } => {
            assert_eq!(at, index);
            error
        }
        other => panic!("{other:?}"),
    };
    assert_eq!(error(0, Reply::Ports { ports: vec![], expired: true }), RunError::VcomTimeout);
    assert_eq!(error(0, Reply::Refused), RunError::Refused);
    assert_eq!(error(0, Reply::NoData), RunError::Unexpected);
    assert_eq!(error(1, Reply::Ports { ports: vec![], expired: false }), RunError::NoPort);
    assert_eq!(error(1, Reply::NoData), RunError::EmptyFile);
    assert_eq!(error(2, Reply::Devices { count: 2, expired: false }), RunError::DeviceCount);
    assert_eq!(error(2, Reply::Devices { count: 0, expired: true }), RunError::FastbootTimeout);
    assert_eq!(error(3, Reply::Devices { count: 0, expired: false }), RunError::DeviceCount);
    assert_eq!(error(3, Reply::Value { value: "ABD".to_string() }), RunError::WrongValue);
    let mut broken = resolved(vec![upload_step("COM1")]);
    broken.steps[0].file = None;
    let only = || Reply::Ports { ports: vec![port("COM1")], expired: false };
    assert!(matches!(
        advance(&broken, 0, &only()),
        Move::Fail { index: 0, error: RunError::MissingFile }
    ));
}

#[test]
fn failures_name_the_step_and_its_cause() {
    let run = resolved(vec![
        FlashStep::WaitVcom { timeout_secs: 1 },
        upload_step(" COM9 "),
        FlashStep::WaitFastboot { timeout_secs: 1 },
        assert_step(),
    ]);
    assert_eq!(step_prefix(&run, 0), "step 1/4 (wait_vcom) failed");
    assert_eq!(step_prefix(&run, 3), "step 4/4 (fastboot_assert) failed");
    let cause = |index, reply| match advance(&run, index, &reply) {
        Move::Fail { index: at, error } => cause_text(&run.steps[at], &reply, error),
        other => panic!("{other:?}"),
    };
    let ports = |list| Reply::Ports { ports: list, expired: true };
    let devices = |count| Reply::Devices { count, expired: true };
    assert_eq!(cause(0, ports(vec![])), "timed out waiting for a VCOM port");
    assert_eq!(
        cause(1, ports(vec![port("COM1"), port("COM2")])),
        "VCOM port COM9 not found; available: COM1 (PCUI), COM2 (PCUI)"
    );
    assert_eq!(cause(1, Reply::NoData), "loader file is empty: /work/loader.bin");
    assert_eq!(cause(2, devices(0)), "timed out waiting for a fastboot device");
    assert_eq!(cause(2, devices(2)), "2 fastboot devices found; connect exactly one");
    assert_eq!(cause(3, devices(0)), "expected exactly one fastboot device, found 0");
    assert_eq!(
        cause(3, Reply::Value { value: "A\"B\n".to_string() }),
        "device product is \"A\\\"B\\n\"; script requires \"ABC\""
    );
    assert_eq!(
        choice_text(&vec![port("COM1"), port("COM2")]),
        "multiple VCOM ports found (COM1 (PCUI), COM2 (PCUI)); pin one port in the script or run in a terminal"
    );
    assert_eq!(mismatch_text("a", "'b'", "'c'"), "device a is 'b'; script requires 'c'");
    let auto = resolved(vec![upload_step("auto")]);
    assert_eq!(
        cause_text(&auto.steps[0], &ports(vec![]), RunError::NoPort),
        "no VCOM serial port found"
    );
    let mut odd = resolved(vec![upload_step("COM1")]);
    odd.steps[0].step = FlashStep::VcomUpload {
        port: "COM1".to_string(),
        address: "xyz".to_string(),
        file: "loader.bin".to_string(),
    };
    let only = ports(vec![port("COM1")]);
    assert!(matches!(
        advance(&odd, 0, &only),
        Move::Fail { index: 0, error: RunError::InvalidAddress }
    ));
    assert_eq!(
        cause_text(&odd.steps[0], &only, RunError::InvalidAddress),
        "invalid VCOM address: xyz"
    );
}

#[test]
fn transfers_report_each_tenth_once() {
    let mut last = 0;
    assert!(!report_bucket(5, 100, &mut last));
    assert!(report_bucket(10, 100, &mut last));
    assert!(!report_bucket(19, 100, &mut last));
    assert!(report_bucket(200, 100, &mut last));
    assert_eq!(last, 10);
    assert!(!report_bucket(1, 0, &mut last));
    assert!(reports_upload(100, 100));
    assert!(reports_upload(22, 100));
    assert!(!reports_upload(23, 100));
    assert!(!reports_upload(0, 0));
}

#[test]
fn the_terminal_shows_progress_and_reads_answers() {
    assert_eq!(
        progress_line(50, 100),
        format!("\r  [{}{}]  50%  50/100 bytes", "#".repeat(15), "-".repeat(15))
    );
    assert_eq!(progress_line(7, 0), format!("\r  [{}] 100%  0/0 bytes", "#".repeat(30)));
    let ports = vec![port("COM1"), port("2")];
    assert_eq!(choose_port(&ports, " 1\n"), Some(0));
    assert_eq!(choose_port(&ports, "2"), Some(1));
    assert_eq!(choose_port(&ports, "com1"), Some(0));
    assert_eq!(choose_port(&ports, "3"), None);
    assert_eq!(choose_port(&ports, ""), None);
    let answer = || Some("answer".to_string());
    assert_eq!(check_answer(&answer(), Some(4), 4), Ok(()));
    assert_eq!(check_answer(&None, Some(4), 4), Err(AnswerProblem::NotAnAnswer));
    assert_eq!(check_answer(&answer(), None, 4), Err(AnswerProblem::OtherPrompt));
    assert_eq!(check_choice(&ports, &Some("COM1".to_string())), Ok(()));
    assert_eq!(check_choice(&ports, &None), Err(AnswerProblem::NothingChosen));
    assert_eq!(check_choice(&ports, &Some("COM9".to_string())), Err(AnswerProblem::NotOffered));
}

#[test]
fn scripts_are_validated_before_they_run() {
    let mut page = FlashPage::default();
    assert!(page.press_run(false).is_none());
    page.script = " script.json ".to_string();
    assert!(page.press_run(true).is_none());
    assert!(matches!(
        page.press_run(false),
        Some(JobOp::FlashScriptValidate { path }) if path == "script.json"
    ));
    assert_eq!(page.pending, Some(ScriptJob::Validate));
    assert!(!page.poll_result(true, 3));
    assert!(page.confirm_open && page.validated);
    assert_eq!(page.step_count, 3);
    assert!(matches!(page.confirm(), JobOp::FlashScriptRun { path } if path == "script.json"));
    assert!(page.poll_result(true, 0));
    page.script_edited();
    assert!(!page.validated);
    assert!(page.set_script("other.json".to_string(), false).is_some());
    assert!(page.poll_result(false, 0));
    assert!(!page.confirm_open);
    page.decline();
    page.propose_port(&vec![port("COM1")]);
    assert_eq!(page.chosen_port().unwrap(), "COM1");
}

// ---------------------------------------------------------------------------
// Fastboot
// ---------------------------------------------------------------------------

fn region(name: &str, base: u64, size: u32) -> MemoryRegion {
    MemoryRegion { name: name.to_string(), base, size }
}

fn device(address: u8) -> MemoryDevice {
    MemoryDevice {
        bus: "001".to_string(),
        address,
        vid: 0x12d1,
        pid: 0x3609,
        serial: Some("S".to_string()),
    }
}

#[test]
fn commands_check_their_arguments() {
    assert_eq!(FastbootCommand::Getvar.argument(" product "), Ok("product".to_string()));
    assert_eq!(FastbootCommand::Getvar.argument("a b"), Err(InvalidArgument));
    assert_eq!(FastbootCommand::Oem.argument("a b"), Ok("a b".to_string()));
    assert_eq!(FastbootCommand::Erase.argument(""), Err(InvalidArgument));
    assert_eq!(FastbootCommand::Continue.argument("anything"), Ok(String::new()));
    assert!(!FastbootCommand::Continue.takes_argument());
    assert_eq!(FastbootCommand::default().name(), "getvar");
    assert_eq!(command_label(FastbootCommand::Erase, "boot"), "erase boot");
    assert_eq!(command_label(FastbootCommand::Continue, ""), "continue");
    let value = CommandReply::Value { value: "ABC".to_string() };
    assert_eq!(command_summary("done", "product", &value), "done\nproduct: ABC");
    let lines = CommandReply::Lines { lines: vec!["a".to_string(), "b".to_string()] };
    assert_eq!(command_summary("done", "x", &lines), "done\na\nb");
    assert_eq!(command_summary("done", "x", &CommandReply::Done), "done");
}

#[test]
fn the_state_of_devices_is_reported() {
    let info = || {
        FastbootDeviceInfo::new("1".to_string(), 2, 0x12d1, 0x9, Some("P".to_string()), None)
    };
    assert_eq!((info().vid.as_str(), info().pid.as_str()), ("12d1", "0009"));
    assert_eq!(info().serial, "");
    let vars = vec![("product".to_string(), "ABC".to_string())];
    let (summary, payload) = status(vec![info()], Some(vars));
    assert!(payload.connected);
    assert!(matches!(summary, StatusSummary::Connected { product: Some(p) } if p == "ABC"));
    assert!(matches!(status(vec![info()], None).0, StatusSummary::CannotOpen));
    assert!(matches!(status(vec![], None).0, StatusSummary::NotFound));
    let (summary, payload) = status(vec![info(), info()], Some(vec![]));
    assert!(matches!(summary, StatusSummary::Multiple));
    assert!(!payload.connected);
    assert_eq!(single_device(0), Err(DeviceSelectionError::NotFound));
    assert!(check_storage(&GptInfo { tables: vec![] }).is_err());
}

#[test]
fn memory_lists_are_read() {
    let regions = parse_ddrdump(
        "INFObase: 0x1000, size: 0x2000, mem: fw dump\nnoise\nbase : 0X4, size : 0x8 , mem : b\n",
    )
    .unwrap();
    assert_eq!(regions.len(), 2);
    assert_eq!((regions[0].name.as_str(), regions[0].base, regions[0].size), ("fw dump", 0x1000, 0x2000));
    assert_eq!((regions[1].name.as_str(), regions[1].base, regions[1].size), ("b", 4, 8));
    let error = |text: &str| parse_ddrdump(text).map(|_| ()).unwrap_err();
    assert_eq!(error("nothing"), DumpError::Empty);
    assert_eq!(
        error("x\nbase: 4, mem: a"),
        DumpError::Line { number: 2, problem: LineProblem::Malformed }
    );
    assert_eq!(
        error("base: 0x3, size: 0x8, mem: a"),
        DumpError::Line {
            number: 1,
            problem: LineProblem::Region { problem: RegionProblem::InvalidRange }
        }
    );
    assert_eq!(
        error("base: 0x4, size: 0x100000000, mem: a"),
        DumpError::Line { number: 1, problem: LineProblem::Malformed }
    );
    assert_eq!(region("", 0, 1).validate(), Err(RegionProblem::InvalidName));
}

#[test]
fn regions_are_read_in_pieces() {
    let whole = region("a/b\u{e9}c", 0x1000, 2 * CHUNK_SIZE + 4);
    assert_eq!(
        whole.chunks(),
        [
            (0x1000, CHUNK_SIZE),
            (0x1000 + CHUNK_SIZE as u64, CHUNK_SIZE),
            (0x1000 + 2 * CHUNK_SIZE as u64, 4)
        ]
    );
    assert_eq!(whole.suggested_filename(), "a_b_c_1000.bin");
    let small = region("a", 0x10, 4);
    let mut download =
        MemoryDownload::start(&device(1), &device(1), &vec![region("a", 0x10, 4)], &small).unwrap();
    assert_eq!(download.request(), Some(("0x10:0x4".to_string(), 4)));
    assert_eq!(download.receive(&[1, 2, 3]), Err(DownloadError::ShortRead));
    assert_eq!(download.receive(&[1, 2, 3, 4]), Ok(()));
    assert_eq!(download.request(), None);
    assert_eq!(download.receive(&[1]), Err(DownloadError::Complete));
    assert_eq!(download.finish(), Some(vec![1, 2, 3, 4]));
    let error = |found, regions, region: &MemoryRegion| {
        MemoryDownload::start(&device(1), &found, &regions, region).map(|_| ()).unwrap_err()
    };
    assert_eq!(error(device(2), vec![], &small), DownloadError::DeviceChanged);
    assert_eq!(error(device(1), vec![], &small), DownloadError::RegionChanged);
    assert_eq!(
        error(device(1), vec![], &region("a", 1, 4)),
        DownloadError::Region { problem: RegionProblem::InvalidRange }
    );
}

fn result(ok: bool, payload: Payload) -> PageResult {
    PageResult { ok, cancelled: false, summary: "summary".to_string(), payload }
}

fn connected() -> Payload {
    let info = FastbootDeviceInfo::new("1".to_string(), 2, 1, 2, None, None);
    Payload::Status {
        status: FastbootStatusPayload { connected: true, devices: vec![info], vars: vec![] },
    }
}

fn listed(regions: Vec<MemoryRegion>) -> Payload {
    Payload::Memory { map: MemoryMap { device: device(1), regions } }
}

#[test]
fn the_page_follows_its_jobs() {
    let mut page = FastbootPage::default();
    assert!(page.check_once(true).is_none());
    assert!(matches!(page.check_once(false), Some(JobOp::FastbootStatus)));
    assert!(page.check_once(false).is_none());
    assert_eq!(page.poll_result(result(true, connected())), None);
    assert!(page.is_connected());
    assert!(matches!(page.start_memory_list(false), Some(JobOp::FastbootMemoryList)));
    assert_eq!(
        page.poll_result(result(true, listed(vec![region("a", 0x10, 4)]))),
        Some((Level::Success, Announcement::View))
    );
    assert_eq!(page.chosen_region(false).unwrap(), (0, "a_10.bin".to_string()));
    page.start_upload(device(1), region("a", 0x10, 4), "out".to_string());
    assert_eq!(
        page.poll_result(result(false, Payload::Absent)),
        Some((Level::Error, Announcement::View))
    );
    assert!(page.memory_map.is_none());
    assert!(matches!(page.start_storage(false), Some(JobOp::FastbootStorageAnalyse)));
    page.poll_result(result(true, Payload::Storage { gpt: GptInfo { tables: vec![] } }));
    assert!(matches!(
        page.storage_result,
        Some(ref view) if !view.ok && matches!(view.summary, Notice::StorageNoTable)
    ));
    page.command = FastbootCommand::Continue;
    assert!(matches!(page.start_command(false), Some(JobOp::FastbootCommand { .. })));
    assert_eq!(page.pending, Some(PendingOp::Command(FastbootCommand::Continue)));
    page.poll_result(result(true, Payload::Absent));
    assert!(!page.is_connected());
    assert!(page.storage_result.is_none());
    assert!(page.start_reboot(false).is_none());
    page.start_status();
    assert_eq!(
        page.poll_result(result(true, Payload::Status {
            status: FastbootStatusPayload { connected: false, devices: vec![], vars: vec![] }
        })),
        Some((Level::Warning, Announcement::NotFound))
    );
    page.start_status();
    let cancelled = PageResult { cancelled: true, ..result(false, Payload::Absent) };
    assert_eq!(
        page.poll_result(cancelled),
        Some((Level::Warning, Announcement::StatusError))
    );
}

#[test]
fn payloads_of_another_kind_are_errors() {
    let storage = || Payload::Storage { gpt: GptInfo { tables: vec![] } };
    let invalid = || Payload::Invalid { error: "eof".to_string() };
    let memory = |payload| {
        let mut page = FastbootPage::default();
        page.poll_result(result(true, connected()));
        assert!(page.start_memory_list(false).is_some());
        let said = page.poll_result(result(true, payload));
        assert_eq!(said, Some((Level::Error, Announcement::View)));
        assert!(page.memory_map.is_none());
        page.memory_result.unwrap().summary
    };
    assert!(matches!(memory(listed(vec![])), Notice::MemoryEmpty));
    assert_eq!(memory(listed(vec![])).error_text(), None);
    assert_eq!(
        memory(Payload::Absent).error_text().unwrap(),
        "invalid type: null, expected struct MemoryMap"
    );
    assert_eq!(memory(storage()).error_text().unwrap(), "missing field `device`");
    assert_eq!(memory(invalid()).error_text().unwrap(), "eof");
    let table = |payload| {
        let mut page = FastbootPage::default();
        page.poll_result(result(true, connected()));
        assert!(page.start_storage(false).is_some());
        page.poll_result(result(true, payload));
        assert!(page.storage_gpt.is_none());
        page.storage_result.unwrap().summary
    };
    assert_eq!(
        table(Payload::Absent).error_text().unwrap(),
        "invalid type: null, expected struct GptInfo"
    );
    assert_eq!(table(listed(vec![])).error_text().unwrap(), "missing field `tables`");
    assert_eq!(table(invalid()).error_text().unwrap(), "eof");
    let mut page = FastbootPage::default();
    page.poll_result(result(true, connected()));
    page.start_status();
    page.poll_result(result(true, Payload::Absent));
    assert!(page.status_error.is_none());
    page.start_status();
    page.poll_result(result(true, storage()));
    assert!(!page.is_connected());
    assert_eq!(page.status_error.unwrap().error_text().unwrap(), "missing field `connected`");
}

#[test]
fn images_tell_their_partition() {
    let partition = partition_name_from_image;
    assert_eq!(partition("/a/boot.IMG").unwrap(), "boot");
    assert_eq!(partition("a/PTABLE").unwrap(), "ptable");
    assert_eq!(partition("vendor.bin/").unwrap(), "vendor");
    for none in ["", "/", "boot.txt", ".img", "a/..", "boot"] {
        assert_eq!(partition(none), None, "{none}");
    }
    let mut page = FastbootPage::default();
    page.set_image("x/boot.img".to_string());
    assert_eq!((page.image.as_str(), page.target.as_str()), ("x/boot.img", "boot"));
    assert!(page.start_flash(false).is_none());
    page.poll_result(result(true, connected()));
    assert!(matches!(
        page.start_flash(false),
        Some(JobOp::FastbootFlash { image, target }) if image == "x/boot.img" && target == "boot"
    ));
    page.extract_partition = " boot ".to_string();
    assert_eq!(
        page.extract_target(false).unwrap(),
        ("boot".to_string(), "boot.img".to_string())
    );
    let op = page.start_extract("boot".to_string(), "out".to_string());
    assert!(matches!(op, JobOp::FastbootExtract { .. }));
}

// ---------------------------------------------------------------------------
// Jobs
// ---------------------------------------------------------------------------

fn done(summary: &str) -> JobResult {
    JobResult { ok: true, cancelled: false, summary: summary.to_string(), payload: None }
}

#[test]
fn results_wait_for_the_page_that_asked() {
    let mut board = JobBoard::new();
    let fetch = JobOp::OnlineFetch { url: "u".to_string() };
    assert!(board.start_job(&fetch, Page::Home, Ok(()), "start".to_string()));
    assert!(!board.start_job(&JobOp::VcomStatus, Page::Vcom, Ok(()), "no".to_string()));
    assert!(board.job_running() && board.is_busy(Page::Online));
    board.finish_job("[ok]", done("fetched"));
    assert_eq!(board.logs, ["start", "[ok] fetched"]);
    assert!(board.take_result(Page::Home).is_none());
    assert_eq!(board.take_result(Page::Online).unwrap().summary, "fetched");
    assert!(board.take_result(Page::Online).is_none());
    let unpack = JobOp::Ext4Unpack {
        image: String::new(),
        output: String::new(),
        force: false,
    };
    assert_eq!(result_owner(&unpack, Page::Home), ResultOwner::Image(ImageKind::Ext4));
    assert!(!board.start_job(&unpack, Page::Images, Err("broken".to_string()), "e".to_string()));
    let failed = board.take_image_result(ImageKind::Ext4).unwrap();
    assert!(!failed.ok);
    assert_eq!(failed.summary, "broken");
    assert_eq!(result_level(&failed), Level::Error);
    assert_eq!(result_level(&done("x")), Level::Success);
    let mut logs = Vec::new();
    for i in 0..2005 {
        push_log(&mut logs, i.to_string());
    }
    assert_eq!((logs.len(), logs[0].as_str(), logs[1999].as_str()), (2000, "5", "2004"));
}

#[test]
fn jobs_are_checked_and_named() {
    let flash = |target: &str| JobOp::FastbootFlash {
        image: "i".to_string(),
        target: target.to_string(),
    };
    assert_eq!(flash("boot").check(), Ok(()));
    assert_eq!(flash(" ").check(), Err(JobProblem::EmptyPartitionName));
    let vcom = JobOp::VcomFlash { port: " ".to_string(), address: 0, file: String::new() };
    assert_eq!(vcom.check(), Err(JobProblem::EmptyPort));
    let command =
        JobOp::FastbootCommand { command: FastbootCommand::Getvar, argument: "a b".to_string() };
    assert_eq!(command.check(), Err(JobProblem::InvalidArgument));
    let upload = JobOp::FastbootUploadMemory {
        device: device(1),
        region: region("a", 1, 1),
        output: String::new(),
    };
    assert_eq!(upload.check(), Err(JobProblem::InvalidRegion));
    assert_eq!(job_label(&flash("boot")).key, "job-fastboot-flash");
    let label = job_label(&command);
    assert!(matches!(&label.arguments[0].value, Value::Text { text } if text == "getvar"));
    assert_eq!(layout_label(UpdateLayout::L2), "L2");
    assert_eq!(partition_label(&PartitionKind::HvbWrapped).key, "hvb-wrapped-partition-image");
}

#[test]
fn results_are_summarized() {
    let message = summarize(&Outcome::Inspected {
        format: PackageFormat::UpdateBin,
        count: 3,
        layout: UpdateLayout::Auto,
    });
    assert_eq!(message.key, "worker-package-inspected");
    assert_eq!(message.arguments[0].name, "count");
    assert!(matches!(message.arguments[0].value, Value::Number { number: 3 }));
    assert!(matches!(&message.arguments[1].value, Value::Text { text } if text == "auto"));
    let probe = |patched, layout_known| {
        summarize(&Outcome::RamdiskProbed { patched, layout_known }).key
    };
    assert_eq!(probe(true, false), "worker-image-patched");
    assert_eq!(probe(false, true), "stock-image-patchable");
    assert_eq!(probe(false, false), "worker-ramdisk-layout-unknown");
    let crc = summarize(&Outcome::NvmeInspected { copies: 1, entries: 2, crc_errors: None });
    assert!(matches!(
        crc.arguments[2].value,
        Value::Phrase { key: "worker-crc-disabled", count: None }
    ));
    let flashed = summarize(&Outcome::VcomFlashed {
        file: "f".to_string(),
        port: "COM1".to_string(),
        address: 0x23abc,
    });
    assert!(matches!(&flashed.arguments[2].value, Value::Text { text } if text == "0x00023ABC"));
}
