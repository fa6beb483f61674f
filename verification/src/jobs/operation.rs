//! What a job does, and what is said of its result.

use vstd::prelude::*;

use crate::fastboot::command;
use crate::fastboot::command::FastbootCommand;
use crate::fastboot::memory::{MemoryDevice, MemoryRegion};
use crate::flash::script;
use crate::jobs::message;
use crate::jobs::message::{said, Message, MessageModel, ValueModel};
use crate::oeminfo::OemInfoBlockSummary;
use crate::text;

verus! {

/// How an update package is laid out.
#[derive(Debug, Clone, Copy, PartialEq, Eq, Structural)]
pub enum UpdateLayout {
    Auto,
    L1,
    L2,
}

/// The kinds of update packages.
#[derive(Debug, Clone, Copy, PartialEq, Eq, Structural)]
pub enum PackageFormat {
    UpdateApp,
    UpdateBin,
}

/// What a job does.
#[derive(Debug)]
pub enum JobOp {
    OnlineFetch { url: String },
    PackageInspect { input: String, layout: UpdateLayout },
    PackageUnpack {
        input: String,
        output: String,
        partitions: Vec<String>,
        all_erofs: bool,
        layout: UpdateLayout,
        force: bool,
    },
    ErofsUnpack { image: String, output: String, force: bool },
    ErofsRepack { workspace: String, output: String, allow_grow: bool },
    Ext4Unpack { image: String, output: String, force: bool },
    RamdiskUnpack { image: String, output: String, force: bool },
    RamdiskRepack { workspace: String, original: String, output: String },
    RamdiskPatch { image: String, binary: String, output: String },
    RamdiskProbe { image: String },
    PartitionInfo { image: String },
    NvmeInspect { image: String },
    OemInfoInspect { image: String },
    OemInfoExportImage { image: String, block: OemInfoBlockSummary, output: String },
    NvmeEdit { image: String, key: String, value: String, value_format: String },
    FastbootStatus,
    FastbootReboot,
    FastbootCommand { command: FastbootCommand, argument: String },
    FastbootFlash { image: String, target: String },
    FastbootExtract { partition: String, output: String },
    FastbootMemoryList,
    FastbootUploadMemory { device: MemoryDevice, region: MemoryRegion, output: String },
    FastbootStorageAnalyse,
    VcomStatus,
    VcomFlash { port: String, address: u32, file: String },
    FlashScriptValidate { path: String },
    FlashScriptRun { path: String },
}

/// Why a job is not started.
#[derive(Debug, Clone, Copy, PartialEq, Eq, Structural)]
pub enum JobProblem {
    EmptyPartitionName,
    EmptyPort,
    InvalidArgument,
    InvalidRegion,
}

/// What is wrong with what a job is asked to do, if anything is.
pub open spec fn problem_with(op: JobOp) -> Option<JobProblem> {
    match op {
        JobOp::FastbootFlash { image, target } => if script::is_blank(target@) {
            Some(JobProblem::EmptyPartitionName)
        } else {
            None
        },
        JobOp::FastbootExtract { partition, output } => if script::is_blank(partition@) {
            Some(JobProblem::EmptyPartitionName)
        } else {
            None
        },
        JobOp::FastbootCommand { command: asked, argument } => if command::argument_of(
            asked,
            argument@,
        ) is None {
            Some(JobProblem::InvalidArgument)
        } else {
            None
        },
        JobOp::FastbootUploadMemory { device, region, output } =>
            if crate::fastboot::memory::region_problem(region@) is Some {
            Some(JobProblem::InvalidRegion)
        } else {
            None
        },
        JobOp::VcomFlash { port, address, file } => if script::is_blank(port@) {
            Some(JobProblem::EmptyPort)
        } else {
            None
        },
        _ => None,
    }
}

fn is_blank_text(value: &String) -> (is: bool)
    ensures
        is == script::is_blank(value@),
{
    let chars = text::chars_of(value.as_str());
    script::blank(chars.as_slice())
}

/// The name of a layout.
pub open spec fn layout_text(layout: UpdateLayout) -> Seq<char> {
    match layout {
        UpdateLayout::Auto => "auto"@,
        UpdateLayout::L1 => "L1"@,
        UpdateLayout::L2 => "L2"@,
    }
}

pub fn layout_label(layout: UpdateLayout) -> (label: &'static str)
    ensures
        label@ == layout_text(layout),
{
    match layout {
        UpdateLayout::Auto => "auto",
        UpdateLayout::L1 => "L1",
        UpdateLayout::L2 => "L2",
    }
}

/// What a partition image was found to be.
#[derive(Debug)]
pub enum PartitionKind {
    Harmony { partition: String },
    Rvt { descriptors: u64 },
    Gpt { tables: u64, partitions: u64 },
    SecImage { image: String, partition: String },
    HvbWrapped,
    Unknown,
}

/// What a job found or did. `output` is a path, as it is shown.
#[derive(Debug)]
pub enum Outcome {
    Fetched { bytes: u64, requests: u64 },
    Inspected { format: PackageFormat, count: u64, layout: UpdateLayout },
    PackageUnpacked { output: String },
    ErofsUnpacked { output: String, partition: String },
    ErofsRepacked { output: String },
    Ext4Unpacked { output: String, files: u64, directories: u64 },
    RamdiskUnpacked { output: String },
    RamdiskRepacked { output: String },
    RamdiskPatched { output: String },
    RamdiskProbed { patched: bool, layout_known: bool },
    NvmeInspected { copies: u64, entries: u64, crc_errors: Option<u64> },
    OemInfoInspected { total: u64, active: u64, inactive: u64 },
    OemInfoExported { output: String },
    NvmeEdited { source: u64, target: u64, count: u64, generation: u64, backup: String },
    Rebooted,
    ImageFlashed { image: String, target: String },
    PartitionExtracted { partition: String, output: String, length: u64 },
    MemoryListed { count: u64 },
    MemoryDownloaded { name: String, output: String, length: u64 },
    StorageListed { count: u64 },
    VcomListed { ports: u64 },
    VcomFlashed { file: String, port: String, address: u32 },
    ScriptValidated { count: u64 },
    ScriptFinished { done: u64, total: u64 },
}

/// A load address, in eight hexadecimal digits.
pub open spec fn address_text(address: u32) -> Seq<char> {
    "0x"@ + text::zero_padded(capitals(text::hexadecimal(address as nat)), 8)
}

/// A text with its ASCII small letters made capital.
pub open spec fn capitals(s: Seq<char>) -> Seq<char> {
    s.map_values(|c: char| capital(c))
}

pub open spec fn capital(c: char) -> char {
    if 'a' <= c <= 'z' {
        (c as u32 - 32) as u8 as char
    } else {
        c
    }
}

/// What is said of a job's result.
pub open spec fn message_of(outcome: Outcome) -> MessageModel {
    match outcome {
        Outcome::Fetched { bytes, requests } => said("online-fetched"@).with_number(
            "bytes"@,
            bytes,
        ).with_number("requests"@, requests),
        Outcome::Inspected { format, count, layout } => match format {
            PackageFormat::UpdateApp => said("worker-app-inspected"@).with_number("count"@, count),
            PackageFormat::UpdateBin => said("worker-package-inspected"@).with_number(
                "count"@,
                count,
            ).with_text("layout"@, layout_text(layout)),
        },
        Outcome::PackageUnpacked { output } => said("worker-package-unpacked"@).with_text(
            "output"@,
            output@,
        ),
        Outcome::ErofsUnpacked { output, partition } => said("worker-erofs-unpacked"@).with_text(
            "output"@,
            output@,
        ).with_text("partition"@, partition@),
        Outcome::ErofsRepacked { output } => said("worker-erofs-repacked"@).with_text(
            "output"@,
            output@,
        ),
        Outcome::Ext4Unpacked { output, files, directories } => said(
            "worker-ext4-unpacked"@,
        ).with_text("output"@, output@).with_number("files"@, files).with_number(
            "directories"@,
            directories,
        ),
        Outcome::RamdiskUnpacked { output } => said("worker-ramdisk-unpacked"@).with_text(
            "output"@,
            output@,
        ),
        Outcome::RamdiskRepacked { output } => said("worker-ramdisk-repacked"@).with_text(
            "output"@,
            output@,
        ),
        Outcome::RamdiskPatched { output } => said("worker-patch-written"@).with_text(
            "output"@,
            output@,
        ),
        Outcome::RamdiskProbed { patched, layout_known } => if patched {
            said("worker-image-patched"@)
        } else if layout_known {
            said("stock-image-patchable"@)
        } else {
            said("worker-ramdisk-layout-unknown"@)
        },
        Outcome::NvmeInspected { copies, entries, crc_errors } => match crc_errors {
            Some(count) => said("worker-nve-summary"@).with_number("copies"@, copies).with_number(
                "entries"@,
                entries,
            ).with_phrase("crc"@, "worker-crc-errors"@, Some(count)),
            None => said("worker-nve-summary"@).with_number("copies"@, copies).with_number(
                "entries"@,
                entries,
            ).with_phrase("crc"@, "worker-crc-disabled"@, None),
        },
        Outcome::OemInfoInspected { total, active, inactive } => said(
            "worker-oeminfo-summary"@,
        ).with_number("total"@, total).with_number("active"@, active).with_number(
            "inactive"@,
            inactive,
        ),
        Outcome::OemInfoExported { output } => said("worker-oeminfo-exported"@).with_text(
            "output"@,
            output@,
        ),
        Outcome::NvmeEdited { source, target, count, generation, backup } => said(
            "worker-nve-edited"@,
        ).with_number("source"@, source).with_number("target"@, target).with_number(
            "count"@,
            count,
        ).with_number("generation"@, generation).with_text("backup"@, backup@),
        Outcome::Rebooted => said("worker-reboot-sent"@),
        Outcome::ImageFlashed { image, target } => said("worker-image-flashed"@).with_text(
            "image"@,
            image@,
        ).with_text("target"@, target@),
        Outcome::PartitionExtracted { partition, output, length } => said(
            "worker-partition-extracted"@,
        ).with_text("partition"@, partition@).with_text("output"@, output@).with_number(
            "length"@,
            length,
        ),
        Outcome::MemoryListed { count } => said("fastboot-memory-listed"@).with_number(
            "count"@,
            count,
        ),
        Outcome::MemoryDownloaded { name, output, length } => said(
            "fastboot-memory-downloaded"@,
        ).with_text("name"@, name@).with_text("output"@, output@).with_number("length"@, length),
        Outcome::StorageListed { count } => said("fastboot-storage-listed"@).with_number(
            "count"@,
            count,
        ),
        Outcome::VcomListed { ports } => said("worker-vcom-status"@).with_number("ports"@, ports),
        Outcome::VcomFlashed { file, port, address } => said("worker-vcom-finished"@).with_text(
            "file"@,
            file@,
        ).with_text("port"@, port@).with_text("address"@, address_text(address)),
        Outcome::ScriptValidated { count } => said("flash-script-steps"@).with_number(
            "count"@,
            count,
        ),
        Outcome::ScriptFinished { done, total } => said("flash-script-finished"@).with_number(
            "done"@,
            done,
        ).with_number("total"@, total),
    }
}

/// What a partition image is called.
pub open spec fn label_of(kind: PartitionKind) -> MessageModel {
    match kind {
        PartitionKind::Harmony { partition } => said("worker-harmony-partition"@).with_text(
            "partition"@,
            partition@,
        ),
        PartitionKind::Rvt { descriptors } => said("worker-rvt-image"@).with_number(
            "count"@,
            descriptors,
        ),
        PartitionKind::Gpt { tables, partitions } => said("worker-gpt-image"@).with_number(
            "tables"@,
            tables,
        ).with_number("partitions"@, partitions),
        PartitionKind::SecImage { image, partition } => said("worker-sec-image"@).with_text(
            "image"@,
            image@,
        ).with_text("partition"@, partition@),
        PartitionKind::HvbWrapped => said("hvb-wrapped-partition-image"@),
        PartitionKind::Unknown => said("worker-partition-unknown"@),
    }
}

impl JobOp {
    /// Checks what a job is asked to do before anything is done.
    pub fn check(&self) -> (checked: Result<(), JobProblem>)
        ensures
            match checked {
                Ok(()) => problem_with(*self) is None,
                Err(problem) => problem_with(*self) == Some(problem),
            },
    {
        match self {
            JobOp::FastbootFlash { image, target } => {
                if is_blank_text(target) {
                    return Err(JobProblem::EmptyPartitionName);
                }
            },
            JobOp::FastbootExtract { partition, output } => {
                if is_blank_text(partition) {
                    return Err(JobProblem::EmptyPartitionName);
                }
            },
            JobOp::FastbootCommand { command: asked, argument } => {
                if asked.argument(argument.as_str()).is_err() {
                    return Err(JobProblem::InvalidArgument);
                }
            },
            JobOp::FastbootUploadMemory { device, region, output } => {
                if region.validate().is_err() {
                    return Err(JobProblem::InvalidRegion);
                }
            },
            JobOp::VcomFlash { port, address, file } => {
                if is_blank_text(port) {
                    return Err(JobProblem::EmptyPort);
                }
            },
            _ => {},
        }
        Ok(())
    }
}

fn hex_address(address: u32) -> (out: String)
    ensures
        out@ == address_text(address),
{
    let mut digits: Vec<char> = Vec::new();
    text::push_hexadecimal(&mut digits, address as u64);
    assert(digits@ =~= text::hexadecimal(address as nat));
    let ghost small = digits@;
    let mut i: usize = 0;
    while i < digits.len()
        invariant
            i <= digits@.len(),
            digits@.len() == small.len(),
            forall|k: int| 0 <= k < i ==> digits@[k] == capital(#[trigger] small[k]),
            forall|k: int| i <= k < small.len() ==> digits@[k] == #[trigger] small[k],
        decreases digits@.len() - i,
    {
        let c: char = digits[i];
        if 'a' <= c && c <= 'z' {
            digits.set(i, (c as u32 - 32) as u8 as char);
        }
        i += 1;
    }
    assert(digits@ =~= capitals(small));
    let mut out: Vec<char> = Vec::new();
    text::append_text(&mut out, "0x");
    text::push_padded(&mut out, digits.as_slice(), 8);
    assert(out@ =~= address_text(address));
    text::string_of(out.as_slice())
}

/// What is said of a job's result.
pub fn summarize(outcome: &Outcome) -> (message: Message)
    ensures
        message@ == message_of(*outcome),
{
    match outcome {
        Outcome::Fetched { bytes, requests } => Message::new("online-fetched").number(
            "bytes",
            *bytes,
        ).number("requests", *requests),
        Outcome::Inspected { format, count, layout } => match format {
            PackageFormat::UpdateApp => Message::new("worker-app-inspected").number(
                "count",
                *count,
            ),
            PackageFormat::UpdateBin => {
                let label = layout_label(*layout).to_string();
                Message::new("worker-package-inspected").number("count", *count).text(
                    "layout",
                    &label,
                )
            },
        },
        Outcome::PackageUnpacked { output } => Message::new("worker-package-unpacked").text(
            "output",
            output,
        ),
        Outcome::ErofsUnpacked { output, partition } => Message::new("worker-erofs-unpacked").text(
            "output",
            output,
        ).text("partition", partition),
        Outcome::ErofsRepacked { output } => Message::new("worker-erofs-repacked").text(
            "output",
            output,
        ),
        Outcome::Ext4Unpacked { output, files, directories } => Message::new(
            "worker-ext4-unpacked",
        ).text("output", output).number("files", *files).number("directories", *directories),
        Outcome::RamdiskUnpacked { output } => Message::new("worker-ramdisk-unpacked").text(
            "output",
            output,
        ),
        Outcome::RamdiskRepacked { output } => Message::new("worker-ramdisk-repacked").text(
            "output",
            output,
        ),
        Outcome::RamdiskPatched { output } => Message::new("worker-patch-written").text(
            "output",
            output,
        ),
        Outcome::RamdiskProbed { patched, layout_known } => {
            if *patched {
                Message::new("worker-image-patched")
            } else if *layout_known {
                Message::new("stock-image-patchable")
            } else {
                Message::new("worker-ramdisk-layout-unknown")
            }
        },
        Outcome::NvmeInspected { copies, entries, crc_errors } => {
            let message = Message::new("worker-nve-summary").number("copies", *copies).number(
                "entries",
                *entries,
            );
            match crc_errors {
                Some(count) => message.phrase("crc", "worker-crc-errors", Some(*count)),
                None => message.phrase("crc", "worker-crc-disabled", None),
            }
        },
        Outcome::OemInfoInspected { total, active, inactive } => Message::new(
            "worker-oeminfo-summary",
        ).number("total", *total).number("active", *active).number("inactive", *inactive),
        Outcome::OemInfoExported { output } => Message::new("worker-oeminfo-exported").text(
            "output",
            output,
        ),
        Outcome::NvmeEdited { source, target, count, generation, backup } => Message::new(
            "worker-nve-edited",
        ).number("source", *source).number("target", *target).number("count", *count).number(
            "generation",
            *generation,
        ).text("backup", backup),
        Outcome::Rebooted => Message::new("worker-reboot-sent"),
        Outcome::ImageFlashed { image, target } => Message::new("worker-image-flashed").text(
            "image",
            image,
        ).text("target", target),
        Outcome::PartitionExtracted { partition, output, length } => Message::new(
            "worker-partition-extracted",
        ).text("partition", partition).text("output", output).number("length", *length),
        Outcome::MemoryListed { count } => Message::new("fastboot-memory-listed").number(
            "count",
            *count,
        ),
        Outcome::MemoryDownloaded { name, output, length } => Message::new(
            "fastboot-memory-downloaded",
        ).text("name", name).text("output", output).number("length", *length),
        Outcome::StorageListed { count } => Message::new("fastboot-storage-listed").number(
            "count",
            *count,
        ),
        Outcome::VcomListed { ports } => Message::new("worker-vcom-status").number("ports", *ports),
        Outcome::VcomFlashed { file, port, address } => {
            let shown = hex_address(*address);
            Message::new("worker-vcom-finished").text("file", file).text("port", port).text(
                "address",
                &shown,
            )
        },
        Outcome::ScriptValidated { count } => Message::new("flash-script-steps").number(
            "count",
            *count,
        ),
        Outcome::ScriptFinished { done, total } => Message::new("flash-script-finished").number(
            "done",
            *done,
        ).number("total", *total),
    }
}

/// What a partition image is called.
pub fn partition_label(kind: &PartitionKind) -> (label: Message)
    ensures
        label@ == label_of(*kind),
{
    match kind {
        PartitionKind::Harmony { partition } => Message::new("worker-harmony-partition").text(
            "partition",
            partition,
        ),
        PartitionKind::Rvt { descriptors } => Message::new("worker-rvt-image").number(
            "count",
            *descriptors,
        ),
        PartitionKind::Gpt { tables, partitions } => Message::new("worker-gpt-image").number(
            "tables",
            *tables,
        ).number("partitions", *partitions),
        PartitionKind::SecImage { image, partition } => Message::new("worker-sec-image").text(
            "image",
            image,
        ).text("partition", partition),
        PartitionKind::HvbWrapped => Message::new("hvb-wrapped-partition-image"),
        PartitionKind::Unknown => Message::new("worker-partition-unknown"),
    }
}

/// What a job is called.
pub open spec fn job_name(op: JobOp) -> MessageModel {
    match op {
        JobOp::NvmeInspect { .. } => said("job-nvme-inspect"@),
        JobOp::NvmeEdit { .. } => said("job-nvme-edit"@),
        JobOp::OemInfoInspect { .. } => said("job-oeminfo-inspect"@),
        JobOp::OemInfoExportImage { .. } => said("job-oeminfo-export"@),
        JobOp::PackageInspect { .. } => said("job-package-inspect"@),
        JobOp::OnlineFetch { .. } => said("online-fetch"@),
        JobOp::PackageUnpack { .. } => said("job-package-unpack"@),
        JobOp::ErofsUnpack { .. } => said("job-erofs-unpack"@),
        JobOp::ErofsRepack { .. } => said("job-erofs-repack"@),
        JobOp::Ext4Unpack { .. } => said("job-ext4-unpack"@),
        JobOp::RamdiskUnpack { .. } => said("job-ramdisk-unpack"@),
        JobOp::RamdiskRepack { .. } => said("job-ramdisk-repack"@),
        JobOp::RamdiskPatch { .. } => said("job-ramdisk-patch"@),
        JobOp::RamdiskProbe { .. } => said("job-ramdisk-probe"@),
        JobOp::PartitionInfo { .. } => said("job-partition-info"@),
        JobOp::FastbootStatus => said("job-fastboot-status"@),
        JobOp::FastbootReboot => said("job-fastboot-reboot"@),
        JobOp::FastbootCommand { command: asked, .. } => said("job-fastboot-command"@).with_text(
            "command"@,
            command::command_name(asked),
        ),
        JobOp::FastbootFlash { .. } => said("job-fastboot-flash"@),
        JobOp::FastbootExtract { .. } => said("job-fastboot-extract"@),
        JobOp::FastbootMemoryList => said("job-fastboot-memory-list"@),
        JobOp::FastbootUploadMemory { .. } => said("job-fastboot-upload-memory"@),
        JobOp::FastbootStorageAnalyse => said("job-fastboot-storage-analyse"@),
        JobOp::VcomStatus => said("job-vcom-status"@),
        JobOp::VcomFlash { .. } => said("job-vcom-flash"@),
        JobOp::FlashScriptValidate { .. } => said("job-flash-script-validate"@),
        JobOp::FlashScriptRun { .. } => said("job-flash-script-run"@),
    }
}

/// What a job is called.
pub fn job_label(op: &JobOp) -> (label: Message)
    ensures
        label@ == job_name(*op),
{
    match op {
        JobOp::NvmeInspect { .. } => Message::new("job-nvme-inspect"),
        JobOp::NvmeEdit { .. } => Message::new("job-nvme-edit"),
        JobOp::OemInfoInspect { .. } => Message::new("job-oeminfo-inspect"),
        JobOp::OemInfoExportImage { .. } => Message::new("job-oeminfo-export"),
        JobOp::PackageInspect { .. } => Message::new("job-package-inspect"),
        JobOp::OnlineFetch { .. } => Message::new("online-fetch"),
        JobOp::PackageUnpack { .. } => Message::new("job-package-unpack"),
        JobOp::ErofsUnpack { .. } => Message::new("job-erofs-unpack"),
        JobOp::ErofsRepack { .. } => Message::new("job-erofs-repack"),
        JobOp::Ext4Unpack { .. } => Message::new("job-ext4-unpack"),
        JobOp::RamdiskUnpack { .. } => Message::new("job-ramdisk-unpack"),
        JobOp::RamdiskRepack { .. } => Message::new("job-ramdisk-repack"),
        JobOp::RamdiskPatch { .. } => Message::new("job-ramdisk-patch"),
        JobOp::RamdiskProbe { .. } => Message::new("job-ramdisk-probe"),
        JobOp::PartitionInfo { .. } => Message::new("job-partition-info"),
        JobOp::FastbootStatus => Message::new("job-fastboot-status"),
        JobOp::FastbootReboot => Message::new("job-fastboot-reboot"),
        JobOp::FastbootCommand { command: asked, .. } => {
            let name = asked.name().to_string();
            Message::new("job-fastboot-command").text("command", &name)
        },
        JobOp::FastbootFlash { .. } => Message::new("job-fastboot-flash"),
        JobOp::FastbootExtract { .. } => Message::new("job-fastboot-extract"),
        JobOp::FastbootMemoryList => Message::new("job-fastboot-memory-list"),
        JobOp::FastbootUploadMemory { .. } => Message::new("job-fastboot-upload-memory"),
        JobOp::FastbootStorageAnalyse => Message::new("job-fastboot-storage-analyse"),
        JobOp::VcomStatus => Message::new("job-vcom-status"),
        JobOp::VcomFlash { .. } => Message::new("job-vcom-flash"),
        JobOp::FlashScriptValidate { .. } => Message::new("job-flash-script-validate"),
        JobOp::FlashScriptRun { .. } => Message::new("job-flash-script-run"),
    }
}

/// Tells whether an upload reports how far it is: at its end, and at about every
/// tenth.
pub fn reports_upload(sent: u64, total: u64) -> (report: bool)
    ensures
        report == (total > 0 && (sent == total || sent as int % (total as int / 10 + 1) == 0)),
{
    total > 0 && (sent == total || sent % (total / 10 + 1) == 0)
}

/// What is said of a result is named after what was done and shows every number and
/// text of it, and nothing else.
pub proof fn law_results_are_told(outcome: Outcome)
    ensures
        ({
            let m = message_of(outcome);
            match outcome {
                Outcome::Fetched { bytes, requests } => m.key == "online-fetched"@ && m.arguments.len() == 2 && message::shows_number(m, "bytes"@, bytes) && message::shows_number(m, "requests"@, requests),
                Outcome::PackageUnpacked { output } => m.key == "worker-package-unpacked"@ && m.arguments.len() == 1 && message::shows_text(m, "output"@, output@),
                Outcome::ErofsUnpacked { output, partition } => m.key == "worker-erofs-unpacked"@ && m.arguments.len() == 2 && message::shows_text(m, "output"@, output@) && message::shows_text(m, "partition"@, partition@),
                Outcome::ErofsRepacked { output } => m.key == "worker-erofs-repacked"@ && m.arguments.len() == 1 && message::shows_text(m, "output"@, output@),
                Outcome::Ext4Unpacked { output, files, directories } => m.key == "worker-ext4-unpacked"@ && m.arguments.len() == 3 && message::shows_text(m, "output"@, output@) && message::shows_number(m, "files"@, files) && message::shows_number(m, "directories"@, directories),
                Outcome::RamdiskUnpacked { output } => m.key == "worker-ramdisk-unpacked"@ && m.arguments.len() == 1 && message::shows_text(m, "output"@, output@),
                Outcome::RamdiskRepacked { output } => m.key == "worker-ramdisk-repacked"@ && m.arguments.len() == 1 && message::shows_text(m, "output"@, output@),
                Outcome::RamdiskPatched { output } => m.key == "worker-patch-written"@ && m.arguments.len() == 1 && message::shows_text(m, "output"@, output@),
                Outcome::OemInfoInspected { total, active, inactive } => m.key == "worker-oeminfo-summary"@ && m.arguments.len() == 3 && message::shows_number(m, "total"@, total) && message::shows_number(m, "active"@, active) && message::shows_number(m, "inactive"@, inactive),
                Outcome::OemInfoExported { output } => m.key == "worker-oeminfo-exported"@ && m.arguments.len() == 1 && message::shows_text(m, "output"@, output@),
                Outcome::NvmeEdited { source, target, count, generation, backup } => m.key == "worker-nve-edited"@ && m.arguments.len() == 5 && message::shows_number(m, "source"@, source) && message::shows_number(m, "target"@, target) && message::shows_number(m, "count"@, count) && message::shows_number(m, "generation"@, generation) && message::shows_text(m, "backup"@, backup@),
                Outcome::ImageFlashed { image, target } => m.key == "worker-image-flashed"@ && m.arguments.len() == 2 && message::shows_text(m, "image"@, image@) && message::shows_text(m, "target"@, target@),
                Outcome::PartitionExtracted { partition, output, length } => m.key == "worker-partition-extracted"@ && m.arguments.len() == 3 && message::shows_text(m, "partition"@, partition@) && message::shows_text(m, "output"@, output@) && message::shows_number(m, "length"@, length),
                Outcome::MemoryListed { count } => m.key == "fastboot-memory-listed"@ && m.arguments.len() == 1 && message::shows_number(m, "count"@, count),
                Outcome::MemoryDownloaded { name, output, length } => m.key == "fastboot-memory-downloaded"@ && m.arguments.len() == 3 && message::shows_text(m, "name"@, name@) && message::shows_text(m, "output"@, output@) && message::shows_number(m, "length"@, length),
                Outcome::StorageListed { count } => m.key == "fastboot-storage-listed"@ && m.arguments.len() == 1 && message::shows_number(m, "count"@, count),
                Outcome::VcomListed { ports } => m.key == "worker-vcom-status"@ && m.arguments.len() == 1 && message::shows_number(m, "ports"@, ports),
                Outcome::VcomFlashed { file, port, address } => m.key == "worker-vcom-finished"@ && m.arguments.len() == 3 && message::shows_text(m, "file"@, file@) && message::shows_text(m, "port"@, port@) && message::shows_text(m, "address"@, address_text(address)),
                Outcome::ScriptValidated { count } => m.key == "flash-script-steps"@ && m.arguments.len() == 1 && message::shows_number(m, "count"@, count),
                Outcome::ScriptFinished { done, total } => m.key == "flash-script-finished"@ && m.arguments.len() == 2 && message::shows_number(m, "done"@, done) && message::shows_number(m, "total"@, total),
                _ => true,
            }
        }),
{
    let m = message_of(outcome);
    if m.arguments.len() > 0 {
        assert(m.arguments[0] == m.arguments[0]);
    }
    if m.arguments.len() > 1 {
        assert(m.arguments[1] == m.arguments[1]);
    }
    if m.arguments.len() > 2 {
        assert(m.arguments[2] == m.arguments[2]);
    }
    if m.arguments.len() > 3 {
        assert(m.arguments[3] == m.arguments[3]);
    }
    if m.arguments.len() > 4 {
        assert(m.arguments[4] == m.arguments[4]);
    }
}

/// What is said of a package tells its format, how many images it has and, of an
/// `update.bin`, its layout; of a ramdisk whether it is patched, and if not whether
/// it can be; of an NVME image how many entries are damaged, or that this was not
/// checked.
pub proof fn law_findings_are_told(
    count: u64,
    layout: UpdateLayout,
    layout_known: bool,
    copies: u64,
    entries: u64,
    errors: u64,
)
    ensures
        ({
            let m = message_of(
                Outcome::Inspected { format: PackageFormat::UpdateApp, count, layout },
            );
            m.key == "worker-app-inspected"@ && message::shows_number(m, "count"@, count)
        }),
        ({
            let m = message_of(
                Outcome::Inspected { format: PackageFormat::UpdateBin, count, layout },
            );
            &&& m.key == "worker-package-inspected"@
            &&& message::shows_number(m, "count"@, count)
            &&& layout == UpdateLayout::Auto ==> message::shows_text(m, "layout"@, "auto"@)
            &&& layout == UpdateLayout::L1 ==> message::shows_text(m, "layout"@, "L1"@)
            &&& layout == UpdateLayout::L2 ==> message::shows_text(m, "layout"@, "L2"@)
        }),
        message_of(Outcome::RamdiskProbed { patched: true, layout_known }) == said(
            "worker-image-patched"@,
        ),
        message_of(Outcome::RamdiskProbed { patched: false, layout_known: true }) == said(
            "stock-image-patchable"@,
        ),
        message_of(Outcome::RamdiskProbed { patched: false, layout_known: false }) == said(
            "worker-ramdisk-layout-unknown"@,
        ),
        message_of(Outcome::Rebooted) == said("worker-reboot-sent"@),
        ({
            let m = message_of(Outcome::NvmeInspected { copies, entries, crc_errors: None });
            &&& m.key == "worker-nve-summary"@
            &&& message::shows_number(m, "copies"@, copies)
            &&& message::shows_number(m, "entries"@, entries)
            &&& m.arguments.last().value == (ValueModel::Phrase {
                key: "worker-crc-disabled"@,
                count: None,
            })
        }),
        ({
            let m = message_of(Outcome::NvmeInspected { copies, entries, crc_errors: Some(errors) });
            &&& message::shows_number(m, "copies"@, copies)
            &&& message::shows_number(m, "entries"@, entries)
            &&& m.arguments.last().value == (ValueModel::Phrase {
                key: "worker-crc-errors"@,
                count: Some(errors),
            })
        }),
{
    let a = message_of(Outcome::Inspected { format: PackageFormat::UpdateApp, count, layout });
    assert(a.arguments[0].name == "count"@);
    let b = message_of(Outcome::Inspected { format: PackageFormat::UpdateBin, count, layout });
    assert(b.arguments[0].name == "count"@ && b.arguments[1].name == "layout"@);
    let c = message_of(Outcome::NvmeInspected { copies, entries, crc_errors: None });
    assert(c.arguments[0].name == "copies"@ && c.arguments[1].name == "entries"@);
    let d = message_of(Outcome::NvmeInspected { copies, entries, crc_errors: Some(errors) });
    assert(d.arguments[0].name == "copies"@ && d.arguments[1].name == "entries"@);
}

/// A partition image is called after what it was found to be, with what is known of
/// it.
pub proof fn law_partition_images_are_named(kind: PartitionKind)
    ensures
        ({
            let m = label_of(kind);
            match kind {
                PartitionKind::Harmony { partition } => m.key == "worker-harmony-partition"@
                    && message::shows_text(m, "partition"@, partition@),
                PartitionKind::Rvt { descriptors } => m.key == "worker-rvt-image"@
                    && message::shows_number(m, "count"@, descriptors),
                PartitionKind::Gpt { tables, partitions } => m.key == "worker-gpt-image"@
                    && message::shows_number(m, "tables"@, tables) && message::shows_number(
                    m,
                    "partitions"@,
                    partitions,
                ),
                PartitionKind::SecImage { image, partition } => m.key == "worker-sec-image"@
                    && message::shows_text(m, "image"@, image@) && message::shows_text(
                    m,
                    "partition"@,
                    partition@,
                ),
                PartitionKind::HvbWrapped => m == said("hvb-wrapped-partition-image"@),
                PartitionKind::Unknown => m == said("worker-partition-unknown"@),
            }
        }),
{
    let m = label_of(kind);
    if m.arguments.len() > 0 {
        assert(m.arguments[0] == m.arguments[0]);
    }
    if m.arguments.len() > 1 {
        assert(m.arguments[1] == m.arguments[1]);
    }
}

/// A job is refused where it names no partition or port, where the argument of a
/// command is none that the command takes, or where a memory region is none; for
/// these reasons only.
pub proof fn law_refused_jobs(op: JobOp)
    ensures
        match op {
            JobOp::FastbootFlash { image, target } => problem_with(op) == (if text::trimmed(
                target@,
            ).len() == 0 {
                Some(JobProblem::EmptyPartitionName)
            } else {
                None
            }),
            JobOp::FastbootExtract { partition, output } => problem_with(op) == (if text::trimmed(
                partition@,
            ).len() == 0 {
                Some(JobProblem::EmptyPartitionName)
            } else {
                None
            }),
            JobOp::VcomFlash { port, address, file } => problem_with(op) == (if text::trimmed(
                port@,
            ).len() == 0 {
                Some(JobProblem::EmptyPort)
            } else {
                None
            }),
            JobOp::FastbootCommand { command: asked, argument } => problem_with(op) == (
            if command::argument_of(asked, argument@) is None {
                Some(JobProblem::InvalidArgument)
            } else {
                None
            }),
            JobOp::FastbootUploadMemory { .. } => problem_with(op) is None || problem_with(op)
                == Some(JobProblem::InvalidRegion),
            _ => problem_with(op) is None,
        },
{
    match op {
        JobOp::FastbootFlash { image, target } => {
            script::lemma_blank(target@);
        },
        JobOp::FastbootExtract { partition, output } => {
            script::lemma_blank(partition@);
        },
        JobOp::VcomFlash { port, address, file } => {
            script::lemma_blank(port@);
        },
        _ => {},
    }
}

/// A job is called after what it does, and a command also by its name.
pub proof fn law_jobs_have_their_names(op: JobOp)
    ensures
        match op {
            JobOp::FastbootCommand { command: asked, .. } => {
                &&& job_name(op).key == "job-fastboot-command"@
                &&& message::shows_text(job_name(op), "command"@, command::command_name(asked))
            },
            JobOp::NvmeInspect { .. } => job_name(op) == said("job-nvme-inspect"@),
            JobOp::NvmeEdit { .. } => job_name(op) == said("job-nvme-edit"@),
            JobOp::OemInfoInspect { .. } => job_name(op) == said("job-oeminfo-inspect"@),
            JobOp::OemInfoExportImage { .. } => job_name(op) == said("job-oeminfo-export"@),
            JobOp::PackageInspect { .. } => job_name(op) == said("job-package-inspect"@),
            JobOp::OnlineFetch { .. } => job_name(op) == said("online-fetch"@),
            JobOp::PackageUnpack { .. } => job_name(op) == said("job-package-unpack"@),
            JobOp::ErofsUnpack { .. } => job_name(op) == said("job-erofs-unpack"@),
            JobOp::ErofsRepack { .. } => job_name(op) == said("job-erofs-repack"@),
            JobOp::Ext4Unpack { .. } => job_name(op) == said("job-ext4-unpack"@),
            JobOp::RamdiskUnpack { .. } => job_name(op) == said("job-ramdisk-unpack"@),
            JobOp::RamdiskRepack { .. } => job_name(op) == said("job-ramdisk-repack"@),
            JobOp::RamdiskPatch { .. } => job_name(op) == said("job-ramdisk-patch"@),
            JobOp::RamdiskProbe { .. } => job_name(op) == said("job-ramdisk-probe"@),
            JobOp::PartitionInfo { .. } => job_name(op) == said("job-partition-info"@),
            JobOp::FastbootStatus => job_name(op) == said("job-fastboot-status"@),
            JobOp::FastbootReboot => job_name(op) == said("job-fastboot-reboot"@),
            JobOp::FastbootFlash { .. } => job_name(op) == said("job-fastboot-flash"@),
            JobOp::FastbootExtract { .. } => job_name(op) == said("job-fastboot-extract"@),
            JobOp::FastbootMemoryList => job_name(op) == said("job-fastboot-memory-list"@),
            JobOp::FastbootUploadMemory { .. } => job_name(op) == said("job-fastboot-upload-memory"@),
            JobOp::FastbootStorageAnalyse => job_name(op) == said("job-fastboot-storage-analyse"@),
            JobOp::VcomStatus => job_name(op) == said("job-vcom-status"@),
            JobOp::VcomFlash { .. } => job_name(op) == said("job-vcom-flash"@),
            JobOp::FlashScriptValidate { .. } => job_name(op) == said("job-flash-script-validate"@),
            JobOp::FlashScriptRun { .. } => job_name(op) == said("job-flash-script-run"@),
        },
{
    if job_name(op).arguments.len() > 0 {
        assert(job_name(op).arguments[0] == job_name(op).arguments[0]);
    }
}

/// A load address is shown as `0x` and eight capital hexadecimal digits.
pub proof fn law_addresses_have_eight_digits(address: u32)
    ensures
        address_text(address).len() == 10,
        address_text(address)[0] == '0' && address_text(address)[1] == 'x',
        text::digits_value(address_text(address).skip(2), 16) == address,
        forall|i: int|
            2 <= i < 10 ==> !('a' <= #[trigger] address_text(address)[i] <= 'f'),
{
    reveal_strlit("0x");
    let s = text::hexadecimal(address as nat);
    let t = capitals(s);
    text::law_written_numbers_read_back(address as nat);
    reveal_with_fuel(text::hexadecimal, 9);
    assert(s.len() <= 8);
    lemma_capitals(s);
    text::law_zeros_before_a_number(t, 8);
    let all = address_text(address);
    assert(all.skip(2) =~= text::zero_padded(t, 8));
    assert forall|i: int| 2 <= i < 10 implies !('a' <= #[trigger] all[i] <= 'f') by {
        let padded = text::zero_padded(t, 8);
        assert(all[i] == padded[i - 2]);
        if i - 2 >= 8 - t.len() {
            assert(padded[i - 2] == t[i - 2 - (8 - t.len())]);
        }
    }
}

proof fn lemma_capitals(s: Seq<char>)
    requires
        forall|i: int| 0 <= i < s.len() ==> text::is_digit_in(#[trigger] s[i], 16),
    ensures
        forall|i: int| 0 <= i < s.len() ==> text::is_digit_in(#[trigger] capitals(s)[i], 16),
        text::digits_value(capitals(s), 16) == text::digits_value(s, 16),
    decreases s.len(),
{
    assert forall|i: int| 0 <= i < s.len() implies text::is_digit_in(
        #[trigger] capitals(s)[i],
        16,
    ) && text::digit_value(capitals(s)[i]) == text::digit_value(s[i]) by {
        assert(capitals(s)[i] == capital(s[i]));
        assert(text::is_digit_in(s[i], 16));
    }
    if s.len() > 0 {
        assert(capitals(s).drop_last() =~= capitals(s.drop_last()));
        lemma_capitals(s.drop_last());
        assert(capitals(s)[s.len() - 1] == capitals(s).last());
    } else {
        assert(capitals(s) =~= s);
    }
}

/// An upload is reported at its end, and before that at whole steps of a tenth and a
/// byte; an upload of nothing is not.
pub proof fn law_uploads_are_reported(sent: u64, total: u64, report: bool)
    requires
        call_ensures(reports_upload, (sent, total), report),
    ensures
        total == 0 ==> !report,
        total > 0 && sent == total ==> report,
        total > 0 && sent != total ==> (report <==> sent as int % (total as int / 10 + 1) == 0),
{
}

} // verus!
