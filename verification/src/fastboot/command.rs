//! Fastboot commands, and the state of the connected devices.

use vstd::prelude::*;

use crate::flash::script;
use crate::formats::gpt::GptInfo;
use crate::oeminfo::payload::text_of;
use crate::text;

verus! {

#[derive(Debug, Clone, Copy, PartialEq, Eq, Structural)]
pub enum FastbootCommand {
    Getvar,
    Oem,
    Erase,
    Continue,
}

/// The argument of a command is not what the command takes.
#[derive(Debug, Clone, Copy, PartialEq, Eq, Structural)]
pub struct InvalidArgument;

/// There is not exactly one device.
#[derive(Debug, Clone, Copy, PartialEq, Eq, Structural)]
pub enum DeviceSelectionError {
    NotFound,
    Multiple,
}

/// The storage of a device holds no partition table.
#[derive(Debug, Clone, Copy, PartialEq, Eq, Structural)]
pub struct NoTable;

impl Default for FastbootCommand {
    fn default() -> (command: FastbootCommand)
        ensures
            command == FastbootCommand::Getvar,
    {
        FastbootCommand::Getvar
    }
}

pub open spec fn command_name(command: FastbootCommand) -> Seq<char> {
    match command {
        FastbootCommand::Getvar => "getvar"@,
        FastbootCommand::Oem => "oem"@,
        FastbootCommand::Erase => "erase"@,
        FastbootCommand::Continue => "continue"@,
    }
}

/// The argument that a command is given: nothing where it takes none, else what
/// was typed, which has to be a word, or for OEM commands a line.
pub open spec fn argument_of(command: FastbootCommand, input: Seq<char>) -> Option<Seq<char>> {
    let argument = text::trimmed(input);
    if command == FastbootCommand::Continue {
        Some(seq![])
    } else if argument.len() > 0 && !script::has_control(argument) && (command
        == FastbootCommand::Oem || !script::has_white(argument)) {
        Some(argument)
    } else {
        None
    }
}

impl FastbootCommand {
    pub fn name(self) -> (name: &'static str)
        ensures
            name@ == command_name(self),
    {
        match self {
            FastbootCommand::Getvar => "getvar",
            FastbootCommand::Oem => "oem",
            FastbootCommand::Erase => "erase",
            FastbootCommand::Continue => "continue",
        }
    }

    pub fn takes_argument(self) -> (takes: bool)
        ensures
            takes == (self != FastbootCommand::Continue),
    {
        self != FastbootCommand::Continue
    }

    pub fn argument(self, input: &str) -> (argument: Result<String, InvalidArgument>)
        ensures
            match argument {
                Ok(found) => argument_of(self, input@) == Some(found@),
                Err(_) => argument_of(self, input@) is None,
            },
    {
        if !self.takes_argument() {
            let none: Vec<char> = Vec::new();
            return Ok(text::string_of(none.as_slice()));
        }
        let chars = text::chars_of(input);
        let argument = text::trim(chars.as_slice());
        if argument.len() == 0 || script::holds_control(argument) || (self
            != FastbootCommand::Oem && script::holds_white(argument)) {
            return Err(InvalidArgument);
        }
        Ok(text::string_of(argument))
    }
}

/// A command with its argument, as it is shown.
pub open spec fn label_of(command: FastbootCommand, argument: Seq<char>) -> Seq<char> {
    if argument.len() == 0 {
        command_name(command)
    } else {
        command_name(command) + " "@ + argument
    }
}

pub fn command_label(command: FastbootCommand, argument: &str) -> (label: String)
    ensures
        label@ == label_of(command, argument@),
{
    let chars = text::chars_of(argument);
    let mut out: Vec<char> = Vec::new();
    text::append_text(&mut out, command.name());
    if chars.len() > 0 {
        text::append_text(&mut out, " ");
        text::append_chars(&mut out, chars.as_slice());
    }
    assert(out@ =~= label_of(command, argument@));
    text::string_of(out.as_slice())
}

/// What a device replies to a command.
#[derive(Debug)]
pub enum CommandReply {
    Value { value: String },
    Lines { lines: Vec<String> },
    Done,
}

/// Texts, with a line break between each two.
pub open spec fn joined_lines(lines: Seq<Seq<char>>, n: int) -> Seq<char>
    decreases n,
{
    if n <= 0 {
        seq![]
    } else if n == 1 {
        lines[0]
    } else {
        joined_lines(lines, n - 1) + "\n"@ + lines[n - 1]
    }
}

/// What is shown of a reply.
pub open spec fn output_of(argument: Seq<char>, reply: CommandReply) -> Seq<char> {
    match reply {
        CommandReply::Value { value } => argument + ": "@ + value@,
        CommandReply::Lines { lines } => joined_lines(text::texts(lines@), lines@.len() as int),
        CommandReply::Done => seq![],
    }
}

fn join_lines(lines: &Vec<String>) -> (out: Vec<char>)
    ensures
        out@ == joined_lines(text::texts(lines@), lines@.len() as int),
{
    let ghost all = text::texts(lines@);
    let mut out: Vec<char> = Vec::new();
    let mut n: usize = 0;
    while n < lines.len()
        invariant
            n <= lines@.len(),
            all == text::texts(lines@),
            out@ == joined_lines(all, n as int),
        decreases lines@.len() - n,
    {
        assert(all[n as int] == lines@[n as int]@);
        if n > 0 {
            text::append_text(&mut out, "\n");
        }
        text::append_text(&mut out, lines[n].as_str());
        n += 1;
        assert(out@ =~= joined_lines(all, n as int));
    }
    out
}

/// The summary of a command: that it is done, and the reply behind that.
pub open spec fn summary_of(done: Seq<char>, output: Seq<char>) -> Seq<char> {
    if output.len() == 0 {
        done
    } else {
        done + "\n"@ + output
    }
}

pub fn command_summary(done: &str, argument: &str, reply: &CommandReply) -> (summary: String)
    ensures
        summary@ == summary_of(done@, output_of(argument@, *reply)),
{
    let mut output: Vec<char> = Vec::new();
    match reply {
        CommandReply::Value { value } => {
            text::append_text(&mut output, argument);
            text::append_text(&mut output, ": ");
            text::append_text(&mut output, value.as_str());
        },
        CommandReply::Lines { lines } => {
            output = join_lines(lines);
        },
        CommandReply::Done => {},
    }
    assert(output@ =~= output_of(argument@, *reply));
    let mut out: Vec<char> = text::chars_of(done);
    if output.len() > 0 {
        text::append_text(&mut out, "\n");
        text::append_chars(&mut out, output.as_slice());
    }
    text::string_of(out.as_slice())
}

/// Tells whether there is exactly one device.
pub fn single_device(count: usize) -> (single: Result<(), DeviceSelectionError>)
    ensures
        match single {
            Ok(()) => count == 1,
            Err(DeviceSelectionError::NotFound) => count == 0,
            Err(DeviceSelectionError::Multiple) => count > 1,
        },
{
    if count == 0 {
        Err(DeviceSelectionError::NotFound)
    } else if count > 1 {
        Err(DeviceSelectionError::Multiple)
    } else {
        Ok(())
    }
}

// ---------------------------------------------------------------------------
// The state of the devices
// ---------------------------------------------------------------------------

/// What is shown of a device.
#[derive(Debug)]
pub struct FastbootDeviceInfo {
    pub bus: String,
    pub addr: u8,
    pub vid: String,
    pub pid: String,
    pub product: String,
    pub serial: String,
}

/// The state of the devices. `vars` holds names and values.
#[derive(Debug)]
pub struct FastbootStatusPayload {
    pub connected: bool,
    pub devices: Vec<FastbootDeviceInfo>,
    pub vars: Vec<(String, String)>,
}

/// A number in four hexadecimal digits.
pub open spec fn four_digits(n: u16) -> Seq<char> {
    text::zero_padded(text::hexadecimal(n as nat), 4)
}

/// What a text is, or nothing where there is none.
pub open spec fn or_empty(value: Option<String>) -> Seq<char> {
    match text_of(value) {
        Some(chars) => chars,
        None => seq![],
    }
}

fn number_text(n: u16) -> (out: String)
    ensures
        out@ == four_digits(n),
{
    let mut digits: Vec<char> = Vec::new();
    text::push_hexadecimal(&mut digits, n as u64);
    assert(digits@ =~= text::hexadecimal(n as nat));
    let mut out: Vec<char> = Vec::new();
    text::push_padded(&mut out, digits.as_slice(), 4);
    assert(out@ =~= four_digits(n));
    text::string_of(out.as_slice())
}

fn text_or_empty(value: Option<String>) -> (out: String)
    ensures
        out@ == or_empty(value),
{
    match value {
        Some(text) => text,
        None => {
            let none: Vec<char> = Vec::new();
            text::string_of(none.as_slice())
        },
    }
}

impl FastbootDeviceInfo {
    /// What is shown of a device.
    pub fn new(
        bus: String,
        addr: u8,
        vendor: u16,
        product_id: u16,
        product: Option<String>,
        serial: Option<String>,
    ) -> (info: FastbootDeviceInfo)
        ensures
            info.bus@ == bus@,
            info.addr == addr,
            info.vid@ == four_digits(vendor),
            info.pid@ == four_digits(product_id),
            info.product@ == or_empty(product),
            info.serial@ == or_empty(serial),
    {
        FastbootDeviceInfo {
            bus,
            addr,
            vid: number_text(vendor),
            pid: number_text(product_id),
            product: text_or_empty(product),
            serial: text_or_empty(serial),
        }
    }
}

/// What is said of the devices.
#[derive(Debug)]
pub enum StatusSummary {
    NotFound,
    Multiple,
    CannotOpen,
    /// A device is open. Where it does not say what it is, `product` is `None`.
    Connected { product: Option<String> },
}

/// The first value of a variable.
pub open spec fn variable_in(vars: Seq<(String, String)>, name: Seq<char>, from: int) -> Option<
    Seq<char>,
>
    decreases vars.len() - from,
{
    if from < 0 || from >= vars.len() {
        None
    } else if vars[from].0@ == name {
        Some(vars[from].1@)
    } else {
        variable_in(vars, name, from + 1)
    }
}

fn find_variable(vars: &Vec<(String, String)>, name: &str) -> (value: Option<String>)
    ensures
        text_of(value) == variable_in(vars@, name@, 0),
{
    let mut n: usize = 0;
    while n < vars.len()
        invariant
            n <= vars@.len(),
            variable_in(vars@, name@, 0) == variable_in(vars@, name@, n as int),
        decreases vars@.len() - n,
    {
        if text::same_text(vars[n].0.as_str(), name) {
            return Some(vars[n].1.clone());
        }
        n += 1;
    }
    None
}

/// The state of the devices that were found. With exactly one, `vars` holds what
/// was read from it, unless it could not be opened.
pub fn status(devices: Vec<FastbootDeviceInfo>, vars: Option<Vec<(String, String)>>) -> (state: (
    StatusSummary,
    FastbootStatusPayload,
))
    ensures
        state.1.devices@ == devices@,
        state.1.connected == (devices@.len() == 1 && vars is Some),
        state.1.connected ==> state.1.vars@ == vars->0@,
        !state.1.connected ==> state.1.vars@.len() == 0,
        match state.0 {
            StatusSummary::NotFound => devices@.len() == 0,
            StatusSummary::Multiple => devices@.len() > 1,
            StatusSummary::CannotOpen => devices@.len() == 1 && vars is None,
            StatusSummary::Connected { product } => {
                &&& devices@.len() == 1
                &&& vars is Some
                &&& text_of(product) == variable_in(vars->0@, "product"@, 0)
            },
        },
{
    if let Err(error) = single_device(devices.len()) {
        let summary = match error {
            DeviceSelectionError::NotFound => StatusSummary::NotFound,
            DeviceSelectionError::Multiple => StatusSummary::Multiple,
        };
        return (summary, FastbootStatusPayload { connected: false, devices, vars: Vec::new() });
    }
    match vars {
        Some(vars) => {
            let product = find_variable(&vars, "product");
            (
                StatusSummary::Connected { product },
                FastbootStatusPayload { connected: true, devices, vars },
            )
        },
        None => (
            StatusSummary::CannotOpen,
            FastbootStatusPayload { connected: false, devices, vars: Vec::new() },
        ),
    }
}

/// Tells whether the storage of a device holds a partition table, and where the
/// first one is and how large its blocks are.
pub fn check_storage(gpt: &GptInfo) -> (first: Result<(u64, u64), NoTable>)
    ensures
        match first {
            Ok((offset, block_size)) => {
                &&& gpt.tables@.len() > 0
                &&& offset == gpt.tables@[0].image_offset
                &&& block_size == gpt.tables@[0].block_size
            },
            Err(_) => gpt.tables@.len() == 0,
        },
{
    if gpt.tables.len() == 0 {
        return Err(NoTable);
    }
    Ok((gpt.tables[0].image_offset, gpt.tables[0].block_size))
}

/// Commands have the names that devices know them by, and all but the last one take
/// an argument: what was typed, without the white space around it. It is not empty
/// and has no control character, and only that of an OEM command may be more than
/// one word.
pub proof fn law_arguments_are_what_was_typed(command: FastbootCommand, input: Seq<char>)
    ensures
        command_name(FastbootCommand::Getvar) == "getvar"@,
        command_name(FastbootCommand::Oem) == "oem"@,
        command_name(FastbootCommand::Erase) == "erase"@,
        command_name(FastbootCommand::Continue) == "continue"@,
        command == FastbootCommand::Continue ==> argument_of(command, input) == Some(
            Seq::<char>::empty(),
        ),
        command != FastbootCommand::Continue ==> {
            let typed = text::trimmed(input);
            let plain = forall|i: int|
                0 <= i < typed.len() ==> !text::is_control(#[trigger] typed[i]);
            let one_word = forall|i: int|
                0 <= i < typed.len() ==> !text::is_white(#[trigger] typed[i]);
            argument_of(command, input) == if typed.len() > 0 && plain && (one_word || command
                == FastbootCommand::Oem) {
                Some(typed)
            } else {
                None
            }
        },
{
    let typed = text::trimmed(input);
    if script::has_control(typed) {
        let i = choose|i: int| 0 <= i < typed.len() && text::is_control(#[trigger] typed[i]);
        assert(text::is_control(typed[i]));
    }
    if script::has_white(typed) {
        let i = choose|i: int| 0 <= i < typed.len() && text::is_white(#[trigger] typed[i]);
        assert(text::is_white(typed[i]));
    }
}

/// A command is shown by its name, with its argument behind a blank where it has
/// one.
pub proof fn law_labels_show_commands(command: FastbootCommand, argument: Seq<char>)
    ensures
        argument.len() == 0 ==> label_of(command, argument) == command_name(command),
        argument.len() > 0 ==> label_of(command, argument) == command_name(command) + seq![' ']
            + argument,
{
    reveal_strlit(" ");
}

/// The lines of a reply are shown in their order, each one behind a line break but
/// the first.
pub proof fn law_lines_are_shown_in_order(lines: Seq<Seq<char>>, line: Seq<char>)
    ensures
        joined_lines(seq![line], 1) == line,
        lines.len() > 0 ==> joined_lines(lines.push(line), lines.len() as int + 1) == joined_lines(
            lines,
            lines.len() as int,
        ) + seq!['\n'] + line,
{
    reveal_strlit("\n");
    lemma_joined_prefix(lines, line, lines.len() as int);
}

proof fn lemma_joined_prefix(lines: Seq<Seq<char>>, line: Seq<char>, n: int)
    requires
        n <= lines.len(),
    ensures
        joined_lines(lines.push(line), n) == joined_lines(lines, n),
    decreases n,
{
    if n > 1 {
        lemma_joined_prefix(lines, line, n - 1);
    }
}

/// A variable has the first value that is listed under its name.
pub proof fn law_first_values_count(vars: Seq<(String, String)>, name: Seq<char>, from: int)
    requires
        from >= 0,
    ensures
        match variable_in(vars, name, from) {
            Some(value) => exists|i: int|
                {
                    &&& from <= i < vars.len()
                    &&& (#[trigger] vars[i]).0@ == name && vars[i].1@ == value
                    &&& forall|k: int| from <= k < i ==> (#[trigger] vars[k]).0@ != name
                },
            None => forall|k: int| from <= k < vars.len() ==> (#[trigger] vars[k]).0@ != name,
        },
    decreases vars.len() - from,
{
    if from < vars.len() {
        if vars[from].0@ != name {
            law_first_values_count(vars, name, from + 1);
        }
    }
}

/// The number of a vendor or product is shown in four hexadecimal digits or more,
/// with zeros before it.
pub proof fn law_device_numbers_have_four_digits(n: u16)
    ensures
        four_digits(n).len() == 4,
        text::digits_value(four_digits(n), 16) == n,
        text::all_digits(four_digits(n), 16),
{
    text::law_written_numbers_read_back(n as nat);
    reveal_with_fuel(text::hexadecimal, 5);
    text::law_zeros_before_a_number(text::hexadecimal(n as nat), 4);
}

/// What is shown of a reply is a value behind the name of its variable, or its
/// lines, or nothing; it stands in a line of its own behind what says that the
/// command is done.
pub proof fn law_replies_are_shown(
    argument: Seq<char>,
    value: String,
    lines: Vec<String>,
    done: Seq<char>,
    output: Seq<char>,
)
    ensures
        output_of(argument, CommandReply::Value { value }) == argument + seq![':', ' '] + value@,
        output_of(argument, CommandReply::Lines { lines }) == joined_lines(
            text::texts(lines@),
            lines@.len() as int,
        ),
        output_of(argument, CommandReply::Done).len() == 0,
        output.len() == 0 ==> summary_of(done, output) == done,
        output.len() > 0 ==> summary_of(done, output) == done + seq!['\n'] + output,
{
    reveal_strlit(": ");
    reveal_strlit("\n");
    assert(": "@ =~= seq![':', ' ']);
    assert("\n"@ =~= seq!['\n']);
}

/// A device that does not state its product or serial number has an empty one.
pub proof fn law_unknown_texts_are_empty(value: String)
    ensures
        or_empty(Some(value)) == value@,
        or_empty(None).len() == 0,
{
}

/// There is a single device exactly where one is counted; none and several are told
/// apart.
pub proof fn law_single_devices(count: usize, single: Result<(), DeviceSelectionError>)
    requires
        call_ensures(single_device, (count,), single),
    ensures
        single is Ok <==> count == 1,
        single == Err::<(), DeviceSelectionError>(DeviceSelectionError::NotFound) <==> count == 0,
        single == Err::<(), DeviceSelectionError>(DeviceSelectionError::Multiple) <==> count > 1,
{
}

/// A device is connected where it is the only one and could be opened; what was read
/// from it is then known, and nothing else is.
pub proof fn law_states_of_devices(
    devices: Vec<FastbootDeviceInfo>,
    vars: Option<Vec<(String, String)>>,
    state: (StatusSummary, FastbootStatusPayload),
)
    requires
        call_ensures(status, (devices, vars), state),
    ensures
        state.1.connected <==> devices@.len() == 1 && vars is Some,
        state.1.connected <==> state.0 is Connected,
        state.0 is NotFound <==> devices@.len() == 0,
        state.0 is Multiple <==> devices@.len() > 1,
        state.0 is CannotOpen <==> devices@.len() == 1 && vars is None,
        state.1.devices@ == devices@,
        state.1.connected ==> state.1.vars@ == vars->0@,
        !state.1.connected ==> state.1.vars@.len() == 0,
{
}

/// The storage of a device is read from its first table, where there is one.
pub proof fn law_storages_have_a_table(gpt: GptInfo, first: Result<(u64, u64), NoTable>)
    requires
        call_ensures(check_storage, (&gpt,), first),
    ensures
        first is Ok <==> gpt.tables@.len() > 0,
        first matches Ok((offset, block_size)) ==> offset == gpt.tables@[0].image_offset
            && block_size == gpt.tables@[0].block_size,
{
}

/// All commands take an argument but the one that goes on with starting.
pub proof fn law_commands_take_arguments(command: FastbootCommand, takes: bool)
    requires
        call_ensures(FastbootCommand::takes_argument, (command,), takes),
    ensures
        takes <==> command is Getvar || command is Oem || command is Erase,
{
}

} // verus!
