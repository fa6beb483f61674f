//! What the user interface says of the steps of a flash script.

use vstd::prelude::*;

use crate::flash::run;
use crate::flash::script::{FlashStep, StepModel};
use crate::jobs::message;
use crate::jobs::message::{said, Message, MessageModel};
use crate::text;

verus! {

/// The message that announces a step.
pub open spec fn announced(step: StepModel) -> MessageModel {
    match step {
        StepModel::WaitVcom { timeout_secs } => said("flash-step-wait-vcom"@).with_number(
            "secs"@,
            timeout_secs,
        ),
        StepModel::VcomUpload { port, address, file } => said("flash-step-vcom-upload"@).with_text(
            "file"@,
            file,
        ).with_text("port"@, port),
        StepModel::WaitFastboot { timeout_secs } => said("flash-step-wait-fastboot"@).with_number(
            "secs"@,
            timeout_secs,
        ),
        StepModel::FastbootAssert { variable, value } => said("flash-step-assert"@).with_text(
            "variable"@,
            variable,
        ).with_text("value"@, value),
        StepModel::FastbootFlash { partition, file } => said("flash-step-flash"@).with_text(
            "file"@,
            file,
        ).with_text("partition"@, partition),
        StepModel::FastbootErase { partition } => said("flash-step-erase"@).with_text(
            "partition"@,
            partition,
        ),
        StepModel::FastbootOem { command } => said("flash-step-oem"@).with_text(
            "command"@,
            command,
        ),
        StepModel::FastbootReboot { mode } => said("flash-step-reboot"@).with_text(
            "mode"@,
            run::mode_text(mode),
        ),
        StepModel::Alert { message } => said("flash-step-alert"@),
        StepModel::Sleep { millis } => said("flash-step-sleep"@).with_number("millis"@, millis),
    }
}

/// The message that announces a step.
pub fn describe_tr(step: &FlashStep) -> (message: Message)
    ensures
        message@ == announced(step@),
{
    match step {
        FlashStep::WaitVcom { timeout_secs } => Message::new("flash-step-wait-vcom").number(
            "secs",
            *timeout_secs,
        ),
        FlashStep::VcomUpload { port, address: _, file } => Message::new(
            "flash-step-vcom-upload",
        ).text("file", file).text("port", port),
        FlashStep::WaitFastboot { timeout_secs } => Message::new(
            "flash-step-wait-fastboot",
        ).number("secs", *timeout_secs),
        FlashStep::FastbootAssert { variable, value } => Message::new("flash-step-assert").text(
            "variable",
            variable,
        ).text("value", value),
        FlashStep::FastbootFlash { partition, file } => Message::new("flash-step-flash").text(
            "file",
            file,
        ).text("partition", partition),
        FlashStep::FastbootErase { partition } => Message::new("flash-step-erase").text(
            "partition",
            partition,
        ),
        FlashStep::FastbootOem { command } => Message::new("flash-step-oem").text(
            "command",
            command,
        ),
        FlashStep::FastbootReboot { mode } => {
            let name = text::string_of(text::chars_of(run::mode_name(*mode)).as_slice());
            Message::new("flash-step-reboot").text("mode", &name)
        },
        FlashStep::Alert { message: _ } => Message::new("flash-step-alert"),
        FlashStep::Sleep { millis } => Message::new("flash-step-sleep").number("millis", *millis),
    }
}

/// What announces a step is named after its kind and shows what the step states.
pub proof fn law_steps_are_announced(step: StepModel)
    ensures
        ({
            let m = announced(step);
            match step {
                StepModel::WaitVcom { timeout_secs } => m.key == "flash-step-wait-vcom"@
                    && message::shows_number(m, "secs"@, timeout_secs),
                StepModel::VcomUpload { port, address, file } => m.key
                    == "flash-step-vcom-upload"@ && message::shows_text(m, "file"@, file)
                    && message::shows_text(m, "port"@, port),
                StepModel::WaitFastboot { timeout_secs } => m.key == "flash-step-wait-fastboot"@
                    && message::shows_number(m, "secs"@, timeout_secs),
                StepModel::FastbootAssert { variable, value } => m.key == "flash-step-assert"@
                    && message::shows_text(m, "variable"@, variable) && message::shows_text(
                    m,
                    "value"@,
                    value,
                ),
                StepModel::FastbootFlash { partition, file } => m.key == "flash-step-flash"@
                    && message::shows_text(m, "file"@, file) && message::shows_text(
                    m,
                    "partition"@,
                    partition,
                ),
                StepModel::FastbootErase { partition } => m.key == "flash-step-erase"@
                    && message::shows_text(m, "partition"@, partition),
                StepModel::FastbootOem { command } => m.key == "flash-step-oem"@
                    && message::shows_text(m, "command"@, command),
                StepModel::FastbootReboot { mode } => m.key == "flash-step-reboot"@
                    && message::shows_text(m, "mode"@, run::mode_text(mode)),
                StepModel::Alert { message: _ } => m == said("flash-step-alert"@),
                StepModel::Sleep { millis } => m.key == "flash-step-sleep"@
                    && message::shows_number(m, "millis"@, millis),
            }
        }),
{
    let m = announced(step);
    match step {
        StepModel::WaitVcom { .. } => {
            assert(m.arguments[0].name == "secs"@);
        },
        StepModel::WaitFastboot { .. } => {
            assert(m.arguments[0].name == "secs"@);
        },
        StepModel::VcomUpload { .. } => {
            assert(m.arguments[0].name == "file"@ && m.arguments[1].name == "port"@);
        },
        StepModel::FastbootAssert { .. } => {
            assert(m.arguments[0].name == "variable"@ && m.arguments[1].name == "value"@);
        },
        StepModel::FastbootFlash { .. } => {
            assert(m.arguments[0].name == "file"@ && m.arguments[1].name == "partition"@);
        },
        StepModel::Alert { .. } => {},
        _ => {
            assert(m.arguments[0].name == m.arguments[0].name);
        },
    }
}

} // verus!
