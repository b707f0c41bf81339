//! The debugger: a state machine that turns events into requests.

use std::collections::HashMap;

use vstd::prelude::*;

use crate::inferior::{kill_text, trap, Inferior, Signal, Status, StatusView};
use crate::numerals::{
    address_value, decimal, get_addr_str, hexadecimal, numeral_value, parse_address, parse_numeral,
    to_decimal, to_hexadecimal, to_signed_decimal,
};
use crate::protocol::{
    CommandView, DebuggerCommand, Event, EventView, Line, LineView, Reply, Request, RequestView,
};
use crate::text::{blank, chars_of, debug_text, is_blank, split_words, to_debug_text, words};

verus! {

/// The instruction that traps.
pub const TRAP_INSTRUCTION: u8 = 0xcc;

/// A breakpoint: its address, and the byte that stood there before the trap.
#[derive(Clone, Copy, Debug)]
pub struct Breakpoint {
    pub addr: usize,
    pub orig_byte: u8,
}

/// What the debugger waits for.
#[derive(Debug)]
pub enum Phase {
    /// A line from the user.
    Prompting,
    /// A command from a line.
    Parsing,
    /// The start of the target.
    Launching,
    /// The write of the prepared breakpoint with this index.
    Installing(usize),
    /// The display of the breakpoints.
    Showing,
    /// The end of a run of the inferior.
    Resuming,
    /// The place of a stop at this instruction pointer.
    Reporting(usize),
    /// The write that takes away the trap at this address.
    Restoring(usize),
    /// The reset of the instruction pointer.
    Rewinding,
    /// The instruction pointer to go on from.
    Inspecting,
    /// The end of the single step off the breakpoint at this address.
    Stepping(usize),
    /// The write that puts the trap back at this address.
    Rearming(usize),
    /// A frame of the call stack.
    Unwinding,
    /// The place of a frame with this frame pointer.
    Naming(usize),
    /// The address of the breakpoint that the user asked for in these words.
    Resolving(String),
    /// The write of the trap for a new breakpoint at this address.
    Adding(usize),
    /// Nothing: the user has left.
    Finished,
}

/// A phase, with its text as a sequence of characters.
pub ghost enum PhaseView {
    Prompting,
    Parsing,
    Launching,
    Installing(int),
    Showing,
    Resuming,
    Reporting(usize),
    Restoring(usize),
    Rewinding,
    Inspecting,
    Stepping(usize),
    Rearming(usize),
    Unwinding,
    Naming(usize),
    Resolving(Seq<char>),
    Adding(usize),
    Finished,
}

impl View for Phase {
    type V = PhaseView;

    open spec fn view(&self) -> PhaseView {
        match self {
            Phase::Prompting => PhaseView::Prompting,
            Phase::Parsing => PhaseView::Parsing,
            Phase::Launching => PhaseView::Launching,
            Phase::Installing(index) => PhaseView::Installing(*index as int),
            Phase::Showing => PhaseView::Showing,
            Phase::Resuming => PhaseView::Resuming,
            Phase::Reporting(rip) => PhaseView::Reporting(*rip),
            Phase::Restoring(addr) => PhaseView::Restoring(*addr),
            Phase::Rewinding => PhaseView::Rewinding,
            Phase::Inspecting => PhaseView::Inspecting,
            Phase::Stepping(addr) => PhaseView::Stepping(*addr),
            Phase::Rearming(addr) => PhaseView::Rearming(*addr),
            Phase::Unwinding => PhaseView::Unwinding,
            Phase::Naming(rbp) => PhaseView::Naming(*rbp),
            Phase::Resolving(text) => PhaseView::Resolving(text@),
            Phase::Adding(addr) => PhaseView::Adding(*addr),
            Phase::Finished => PhaseView::Finished,
        }
    }
}

/// A debugger for one target program.
pub struct Debugger {
    /// The program to debug.
    pub target: String,
    /// Where the history of lines is kept.
    pub history_path: String,
    /// The process that was started last.
    pub inferior: Option<Inferior>,
    /// The breakpoints to install whenever the target is started.
    pub pre_installed_break_points: Vec<usize>,
    /// The breakpoints that were installed, by address.
    pub break_points: HashMap<usize, Breakpoint>,
    /// What the debugger waits for.
    pub phase: Phase,
}

/// The state of a debugger.
#[verifier::ext_equal]
pub ghost struct DebuggerView {
    pub target: Seq<char>,
    pub history_path: Seq<char>,
    pub inferior: Option<Inferior>,
    pub pre_installed: Seq<usize>,
    pub break_points: Map<usize, Breakpoint>,
    pub phase: PhaseView,
}

impl View for Debugger {
    type V = DebuggerView;

    open spec fn view(&self) -> DebuggerView {
        DebuggerView {
            target: self.target@,
            history_path: self.history_path@,
            inferior: self.inferior,
            pre_installed: self.pre_installed_break_points@,
            break_points: self.break_points@,
            phase: self.phase@,
        }
    }
}

/// A step of a debugger: the state it leads to, what it says, and what it asks
/// for.
pub ghost struct StepView {
    pub state: DebuggerView,
    pub output: Seq<char>,
    pub request: RequestView,
}

impl DebuggerView {
    /// The phases that have an inferior to work on.
    pub open spec fn needs_inferior(self) -> bool {
        match self.phase {
            PhaseView::Prompting
            | PhaseView::Parsing
            | PhaseView::Launching
            | PhaseView::Resolving(_)
            | PhaseView::Finished => false,
            _ => true,
        }
    }

    /// The invariant: every breakpoint is filed under its own address, and the
    /// phase has what it speaks of.
    pub open spec fn wf(self) -> bool {
        &&& forall|addr: usize| #[trigger]
            self.break_points.contains_key(addr) ==> self.break_points[addr].addr == addr
        &&& self.needs_inferior() ==> self.inferior is Some
        &&& self.phase matches PhaseView::Installing(index) ==> {
            0 <= index < self.pre_installed.len()
        }
        &&& self.phase matches PhaseView::Reporting(rip) ==> rip > 0
    }

    /// The events that answer what the debugger asked for. A stop at address
    /// zero, a backtrace without an inferior or with an unknown frame, and a
    /// frame at the end of the address space are not among them.
    pub open spec fn accepts(self, event: EventView) -> bool {
        match (self.phase, event) {
            (PhaseView::Prompting, EventView::Interrupted) => true,
            (PhaseView::Prompting, EventView::EndOfInput) => true,
            (PhaseView::Prompting, EventView::Entered(_)) => true,
            (PhaseView::Parsing, EventView::Parsed(_, command)) => command == Some(
                CommandView::BackTrace,
            ) ==> self.inferior is Some,
            (PhaseView::Launching, EventView::Launched(_)) => true,
            (PhaseView::Installing(_), EventView::ByteWritten(_)) => true,
            (PhaseView::Showing, EventView::Shown) => true,
            (PhaseView::Resuming, EventView::Resumed(status)) => status matches Some(
                StatusView::Stopped(_, rip),
            ) ==> rip > 0,
            (PhaseView::Reporting(_), EventView::Located(_, _)) => true,
            (PhaseView::Restoring(_), EventView::ByteWritten(_)) => true,
            (PhaseView::Rewinding, EventView::RipSet) => true,
            (PhaseView::Inspecting, EventView::Rip(_)) => true,
            (PhaseView::Stepping(_), EventView::Stepped(_)) => true,
            (PhaseView::Rearming(_), EventView::ByteWritten(_)) => true,
            (PhaseView::Unwinding, EventView::Frame(_, _)) => true,
            (PhaseView::Naming(rbp), EventView::Located(line, function)) => {
                &&& line is Some
                &&& function is Some
                &&& function->0 != "main"@ ==> rbp + 8 <= usize::MAX
            },
            (PhaseView::Resolving(_), EventView::Address(_)) => true,
            (PhaseView::Adding(_), EventView::ByteWritten(_)) => true,
            _ => false,
        }
    }

    /// A step to a phase, with everything else unchanged.
    pub open spec fn to(
        self,
        phase: PhaseView,
        output: Seq<char>,
        request: RequestView,
    ) -> StepView {
        StepView { state: DebuggerView { phase, ..self }, output, request }
    }

    /// A step back to the prompt.
    pub open spec fn prompt(self, output: Seq<char>) -> StepView {
        self.to(PhaseView::Prompting, output, RequestView::ReadLine)
    }

    /// A step out of the debugger.
    pub open spec fn leave(self, output: Seq<char>, kill: bool) -> StepView {
        self.to(PhaseView::Finished, output, RequestView::Exit(kill))
    }

    /// A step that lets the inferior go on.
    pub open spec fn resume(self, output: Seq<char>) -> StepView {
        self.to(PhaseView::Resuming, output, RequestView::Resume)
    }

    /// A step that installs the prepared breakpoint with an index, or shows
    /// the breakpoints after the last.
    pub open spec fn install(self, index: int) -> StepView {
        if index < self.pre_installed.len() {
            self.to(
                PhaseView::Installing(index),
                Seq::empty(),
                RequestView::WriteByte(self.pre_installed[index], TRAP_INSTRUCTION),
            )
        } else {
            self.to(PhaseView::Showing, Seq::empty(), RequestView::ShowBreakPoints)
        }
    }

    /// The state with a breakpoint recorded.
    pub open spec fn with_break_point(self, addr: usize, orig_byte: u8) -> DebuggerView {
        DebuggerView {
            break_points: self.break_points.insert(addr, Breakpoint { addr, orig_byte }),
            ..self
        }
    }

    /// The step that follows a line of the user: a blank line is skipped, any
    /// other is recorded and read as a command.
    pub open spec fn entered(self, line: Seq<char>) -> StepView {
        if blank(line) {
            self.prompt(Seq::empty())
        } else {
            self.to(PhaseView::Parsing, Seq::empty(), RequestView::Parse(line, words(line)))
        }
    }

    /// What is said when the inferior is killed, where there is one.
    pub open spec fn farewell(self) -> Seq<char> {
        match self.inferior {
            Some(inferior) => kill_text(inferior.child_id),
            None => Seq::empty(),
        }
    }

    /// The step that follows a command.
    pub open spec fn commanded(self, command: CommandView) -> StepView {
        match command {
            CommandView::Run(args) => self.to(
                PhaseView::Launching,
                self.farewell(),
                RequestView::Launch(self.inferior is Some, args),
            ),
            CommandView::Quit => self.leave(self.farewell(), self.inferior is Some),
            CommandView::Continue => if self.inferior is None {
                self.leave("you have to run before continue"@, false)
            } else {
                self.to(PhaseView::Inspecting, Seq::empty(), RequestView::ReadRip)
            },
            CommandView::BackTrace => self.to(
                PhaseView::Unwinding,
                Seq::empty(),
                RequestView::ReadRegisters,
            ),
            CommandView::Break(text) => match break_target(text) {
                TargetView::Address(addr) => self.resolved(text, addr),
                TargetView::Line(number) => self.to(
                    PhaseView::Resolving(text),
                    Seq::empty(),
                    RequestView::FindLine(number),
                ),
                TargetView::Function => self.to(
                    PhaseView::Resolving(text),
                    Seq::empty(),
                    RequestView::FindFunction(text),
                ),
            },
        }
    }

    /// The step that follows when the address of a wanted breakpoint is known,
    /// or is known not to exist. Without an inferior the breakpoint is
    /// prepared. With one it is installed, unless it already was.
    pub open spec fn resolved(self, text: Seq<char>, addr: Option<usize>) -> StepView {
        match addr {
            None => self.prompt("invalid breakpoint "@ + text + "\n"@),
            Some(a) => {
                let output = set_text(self.pre_installed.len(), a);
                if self.inferior is None {
                    DebuggerView { pre_installed: self.pre_installed.push(a), ..self }.prompt(
                        output,
                    )
                } else if self.break_points.contains_key(a) {
                    self.prompt(output)
                } else {
                    self.to(
                        PhaseView::Adding(a),
                        output,
                        RequestView::WriteByte(a, TRAP_INSTRUCTION),
                    )
                }
            },
        }
    }

    /// The step that follows the end of a run of the inferior.
    pub open spec fn ran(self, status: Option<StatusView>) -> StepView {
        match status {
            None => self.prompt(Seq::empty()),
            Some(StatusView::Exited(code)) => self.prompt(exit_text(code)),
            Some(StatusView::Signaled(_)) => self.prompt(Seq::empty()),
            Some(StatusView::Stopped(signal, rip)) => self.to(
                PhaseView::Reporting(rip),
                stop_text(signal),
                RequestView::Locate(rip),
            ),
        }
    }

    /// The step that follows a report of a stop. A stop right behind a
    /// breakpoint takes the trap away.
    pub open spec fn reported(
        self,
        rip: usize,
        line: Option<LineView>,
        function: Option<Seq<char>>,
    ) -> StepView {
        let output = match (line, function) {
            (Some(l), Some(f)) => frame_text(f, l) + rip_text(rip),
            _ => Seq::empty(),
        };
        let addr = (rip - 1) as usize;
        if self.break_points.contains_key(addr) {
            self.to(
                PhaseView::Restoring(addr),
                output,
                RequestView::WriteByte(addr, self.break_points[addr].orig_byte),
            )
        } else {
            self.prompt(output)
        }
    }

    /// The step that follows a single step off the breakpoint at an address.
    pub open spec fn stepped(self, addr: usize, status: StatusView) -> StepView {
        match status {
            StatusView::Stopped(signal, _) => if signal == trap() {
                self.to(
                    PhaseView::Rearming(addr),
                    Seq::empty(),
                    RequestView::WriteByte(addr, TRAP_INSTRUCTION),
                )
            } else {
                self.resume(signal + "\n"@)
            },
            StatusView::Exited(code) => self.leave(exit_text(code), false),
            StatusView::Signaled(_) => self.resume("111\n"@),
        }
    }

    /// The step that follows the place of a frame: the stack is shown up to
    /// `main`.
    pub open spec fn named(self, rbp: usize, line: LineView, function: Seq<char>) -> StepView {
        if function == "main"@ {
            self.prompt(frame_text(function, line))
        } else {
            self.to(
                PhaseView::Unwinding,
                frame_text(function, line),
                RequestView::ReadFrame((rbp + 8) as usize, rbp),
            )
        }
    }

    /// The step that an event leads to.
    pub open spec fn next(self, event: EventView) -> StepView {
        match (self.phase, event) {
            (PhaseView::Prompting, EventView::Interrupted) => self.prompt(
                "Type \"quit\" to exit\n"@,
            ),
            (PhaseView::Prompting, EventView::EndOfInput) => self.commanded(CommandView::Quit),
            (PhaseView::Prompting, EventView::Entered(line)) => self.entered(line),
            (PhaseView::Parsing, EventView::Parsed(failure, command)) => {
                let warning = match failure {
                    Some(reason) => warning_text(self.history_path, reason),
                    None => Seq::empty(),
                };
                match command {
                    Some(c) => {
                        let step = self.commanded(c);
                        StepView { output: warning + step.output, ..step }
                    },
                    None => self.prompt(warning + "Unrecognized command.\n"@),
                }
            },
            (PhaseView::Launching, EventView::Launched(child_id)) => match child_id {
                Some(id) => DebuggerView {
                    inferior: Some(Inferior { child_id: id }),
                    ..self
                }.install(0),
                None => self.prompt("Error starting subprocess\n"@),
            },
            (PhaseView::Installing(index), EventView::ByteWritten(orig_byte)) =>
                self.with_break_point(self.pre_installed[index], orig_byte).install(
                    index + 1,
                ),
            (PhaseView::Showing, EventView::Shown) => self.resume(Seq::empty()),
            (PhaseView::Resuming, EventView::Resumed(status)) => self.ran(status),
            (PhaseView::Reporting(rip), EventView::Located(line, function)) => self.reported(
                rip,
                line,
                function,
            ),
            (PhaseView::Restoring(addr), EventView::ByteWritten(_)) => self.to(
                PhaseView::Rewinding,
                Seq::empty(),
                RequestView::SetRip(addr),
            ),
            (PhaseView::Rewinding, EventView::RipSet) => self.prompt(Seq::empty()),
            (PhaseView::Inspecting, EventView::Rip(rip)) => if self.break_points.contains_key(rip) {
                self.to(PhaseView::Stepping(rip), Seq::empty(), RequestView::Step)
            } else {
                self.resume(Seq::empty())
            },
            (PhaseView::Stepping(addr), EventView::Stepped(status)) => self.stepped(addr, status),
            (PhaseView::Rearming(_), EventView::ByteWritten(_)) => self.resume(Seq::empty()),
            (PhaseView::Unwinding, EventView::Frame(rip, rbp)) => self.to(
                PhaseView::Naming(rbp),
                Seq::empty(),
                RequestView::Locate(rip),
            ),
            (PhaseView::Naming(rbp), EventView::Located(line, function)) => self.named(
                rbp,
                line->0,
                function->0,
            ),
            (PhaseView::Resolving(text), EventView::Address(addr)) => self.resolved(text, addr),
            (PhaseView::Adding(addr), EventView::ByteWritten(orig_byte)) => self.with_break_point(
                addr,
                orig_byte,
            ).prompt(Seq::empty()),
            _ => self.prompt(Seq::empty()),
        }
    }
}

/// Where a breakpoint is wanted.
pub ghost enum TargetView {
    /// At an address, where the text behind the asterisk is one.
    Address(Option<usize>),
    /// At a line.
    Line(usize),
    /// At a function, by the whole text.
    Function,
}

/// Where a text asks for a breakpoint: at an address behind an asterisk, at a
/// line by its number, or at a function by its name.
pub open spec fn break_target(text: Seq<char>) -> TargetView {
    if text.len() > 0 && text[0] == '*' {
        TargetView::Address(
            match address_value(text.skip(1)) {
                Some(n) => Some(n as usize),
                None => None,
            },
        )
    } else {
        match numeral_value(text, 10, usize::MAX as nat) {
            Some(n) => TargetView::Line(n as usize),
            None => TargetView::Function,
        }
    }
}

/// What is said when a breakpoint is set.
pub open spec fn set_text(index: nat, addr: usize) -> Seq<char> {
    "Set breakpoint "@ + decimal(index as int) + " at "@ + hexadecimal(addr as nat) + "\n"@
}

/// What is said when the history could not be saved.
pub open spec fn warning_text(path: Seq<char>, reason: Seq<char>) -> Seq<char> {
    "Warning: failed to save history file at "@ + path + ": "@ + reason + "\n"@
}

/// What is said when the inferior exits.
pub open spec fn exit_text(code: i32) -> Seq<char> {
    "Child exited (status "@ + decimal(code as int) + ")\n"@
}

/// What is said when the inferior stops.
pub open spec fn stop_text(signal: Seq<char>) -> Seq<char> {
    "Child stopped (status "@ + signal + ")\n"@
}

/// A function, a file and a line number, as they are shown together.
pub open spec fn place_text(function: Seq<char>, file: Seq<char>, number: usize) -> Seq<char> {
    function + "("@ + file + ":"@ + decimal(number as int) + ")\n"@
}

/// What is said of a place in the program: its names are quoted.
pub open spec fn frame_text(function: Seq<char>, line: LineView) -> Seq<char> {
    place_text(debug_text(function), debug_text(line.file), line.number)
}

/// What is said of an instruction pointer.
pub open spec fn rip_text(rip: usize) -> Seq<char> {
    "rip:"@ + hexadecimal(rip as nat) + "\n"@
}

/// The state of a new debugger for a target, given the user's home.
pub open spec fn first_state(target: Seq<char>, home: Seq<char>) -> DebuggerView {
    DebuggerView {
        target,
        history_path: home + "/.deet_history"@,
        inferior: None,
        pre_installed: Seq::empty(),
        break_points: Map::empty(),
        phase: PhaseView::Prompting,
    }
}

/// Why the symbols of a target could not be read.
#[derive(Debug)]
pub enum SymbolError {
    /// The target could not be opened.
    ErrorOpeningFile,
    /// The target's symbols are not well-formed, for this reason.
    DwarfFormatError(String),
}

impl SymbolError {
    /// What is said when the symbols of a target could not be read.
    pub open spec fn text(self, target: Seq<char>) -> Seq<char> {
        match self {
            SymbolError::ErrorOpeningFile => "Could not open file "@ + target + "\n"@,
            SymbolError::DwarfFormatError(reason) => "Could not debugging symbols from "@ + target
                + ": "@ + reason@ + "\n"@,
        }
    }
}

/// Writes what is said when a breakpoint is set.
fn write_set(index: usize, addr: usize) -> (r: String)
    ensures
        r@ == set_text(index as nat, addr),
{
    let mut text = "Set breakpoint ".to_owned();
    text.append(to_decimal(index as u64).as_str());
    text.append(" at ");
    text.append(to_hexadecimal(addr as u64).as_str());
    text.append("\n");
    text
}

/// Writes what is said when the history could not be saved.
fn write_warning(path: &String, reason: &String) -> (r: String)
    ensures
        r@ == warning_text(path@, reason@),
{
    let mut text = "Warning: failed to save history file at ".to_owned();
    text.append(path.as_str());
    text.append(": ");
    text.append(reason.as_str());
    text.append("\n");
    text
}

/// Writes what is said when the inferior exits.
fn write_exit(code: i32) -> (r: String)
    ensures
        r@ == exit_text(code),
{
    let mut text = "Child exited (status ".to_owned();
    text.append(to_signed_decimal(code).as_str());
    text.append(")\n");
    text
}

/// Writes what is said when the inferior stops.
fn write_stop(signal: &Signal) -> (r: String)
    ensures
        r@ == stop_text(signal.name@),
{
    let mut text = "Child stopped (status ".to_owned();
    text.append(signal.name.as_str());
    text.append(")\n");
    text
}

/// Writes what is said of a place in the program.
fn write_frame(function: &String, line: &Line) -> (r: String)
    ensures
        r@ == frame_text(function@, line@),
{
    let quoted_function = to_debug_text(function.as_str());
    let quoted_file = to_debug_text(line.file.as_str());
    write_place(&quoted_function, &quoted_file, line.number)
}

/// Writes a function, a file and a line number together.
pub fn write_place(function: &String, file: &String, number: usize) -> (r: String)
    ensures
        r@ == place_text(function@, file@, number),
{
    let mut text = function.clone();
    text.append("(");
    text.append(file.as_str());
    text.append(":");
    text.append(to_decimal(number as u64).as_str());
    text.append(")\n");
    text
}

/// Writes what is said of an instruction pointer.
fn write_rip(rip: usize) -> (r: String)
    ensures
        r@ == rip_text(rip),
{
    let mut text = "rip:".to_owned();
    text.append(to_hexadecimal(rip as u64).as_str());
    text.append("\n");
    text
}

/// Where a breakpoint is wanted.
pub enum BreakTarget {
    /// At an address, where the text behind the asterisk is one.
    Address(Option<usize>),
    /// At a line.
    Line(usize),
    /// At a function, by the whole text.
    Function,
}

impl View for BreakTarget {
    type V = TargetView;

    open spec fn view(&self) -> TargetView {
        match self {
            BreakTarget::Address(addr) => TargetView::Address(*addr),
            BreakTarget::Line(number) => TargetView::Line(*number),
            BreakTarget::Function => TargetView::Function,
        }
    }
}

/// Where a text asks for a breakpoint.
pub fn find_target(text: &String) -> (r: BreakTarget)
    ensures
        r@ == break_target(text@),
{
    let chars = chars_of(text.as_str());
    if chars.len() > 0 && chars[0] == '*' {
        BreakTarget::Address(parse_address(get_addr_str(text).as_str()))
    } else {
        match parse_numeral(text.as_str(), 10, usize::MAX as u64) {
            Some(number) => BreakTarget::Line(number as usize),
            None => BreakTarget::Function,
        }
    }
}

/// Whether a debugger has taken a step: it is in the state that the step leads
/// to, and its reply says and asks what the step does.
pub open spec fn took(state: DebuggerView, reply: Reply, step: StepView) -> bool {
    &&& state == step.state
    &&& reply.output@ == step.output
    &&& reply.request@ == step.request
}

impl Debugger {
    /// The invariant of a debugger.
    pub open spec fn wf(self) -> bool {
        self@.wf()
    }

    /// A debugger for a target whose symbols were read. It keeps its history
    /// in the user's home, and starts at the prompt, with no inferior and no
    /// breakpoints. Where the symbols could not be read, what is to be said of
    /// it.
    pub fn new(target: &str, home: &str, symbols: Result<(), SymbolError>) -> (r: Result<
        Debugger,
        String,
    >)
        ensures
            match symbols {
                Ok(_) => r matches Ok(debugger) && debugger.wf() && debugger@
                    == first_state(target@, home@),
                Err(error) => r matches Err(text) && text@ == error.text(target@),
            },
    {
        match symbols {
            Ok(_) => {
                let mut history_path = home.to_owned();
                history_path.append("/.deet_history");
                Ok(
                    Debugger {
                        target: target.to_owned(),
                        history_path,
                        inferior: None,
                        pre_installed_break_points: Vec::new(),
                        break_points: HashMap::new(),
                        phase: Phase::Prompting,
                    },
                )
            },
            Err(SymbolError::ErrorOpeningFile) => {
                let mut text = "Could not open file ".to_owned();
                text.append(target);
                text.append("\n");
                Err(text)
            },
            Err(SymbolError::DwarfFormatError(reason)) => {
                let mut text = "Could not debugging symbols from ".to_owned();
                text.append(target);
                text.append(": ");
                text.append(reason.as_str());
                text.append("\n");
                Err(text)
            },
        }
    }

    /// Whether an event answers what the debugger asked for.
    pub fn accepts(&self, event: &Event) -> (r: bool)
        ensures
            r == self@.accepts(event@),
    {
        match (&self.phase, event) {
            (Phase::Prompting, Event::Interrupted) => true,
            (Phase::Prompting, Event::EndOfInput) => true,
            (Phase::Prompting, Event::Entered(_)) => true,
            (Phase::Parsing, Event::Parsed(_, Some(DebuggerCommand::BackTrace))) =>
                self.inferior.is_some(),
            (Phase::Parsing, Event::Parsed(_, _)) => true,
            (Phase::Launching, Event::Launched(_)) => true,
            (Phase::Installing(_), Event::ByteWritten(_)) => true,
            (Phase::Showing, Event::Shown) => true,
            (Phase::Resuming, Event::Resumed(Some(Status::Stopped(_, rip)))) => *rip > 0,
            (Phase::Resuming, Event::Resumed(_)) => true,
            (Phase::Reporting(_), Event::Located(_, _)) => true,
            (Phase::Restoring(_), Event::ByteWritten(_)) => true,
            (Phase::Rewinding, Event::RipSet) => true,
            (Phase::Inspecting, Event::Rip(_)) => true,
            (Phase::Stepping(_), Event::Stepped(_)) => true,
            (Phase::Rearming(_), Event::ByteWritten(_)) => true,
            (Phase::Unwinding, Event::Frame(_, _)) => true,
            (Phase::Naming(rbp), Event::Located(Some(_), Some(function))) => {
                *function == "main".to_owned() || *rbp <= usize::MAX - 8
            },
            (Phase::Resolving(_), Event::Address(_)) => true,
            (Phase::Adding(_), Event::ByteWritten(_)) => true,
            _ => false,
        }
    }

    /// Goes to a phase.
    fn to(&mut self, phase: Phase, output: String, request: Request) -> (r: Reply)
        ensures
            took(final(self)@, r, old(self)@.to(phase@, output@, request@)),
    {
        self.phase = phase;
        Reply { output, request }
    }

    /// Goes back to the prompt.
    fn prompt(&mut self, output: String) -> (r: Reply)
        ensures
            took(final(self)@, r, old(self)@.prompt(output@)),
    {
        self.to(Phase::Prompting, output, Request::ReadLine)
    }

    /// Leaves.
    fn leave(&mut self, output: String, kill: bool) -> (r: Reply)
        ensures
            took(final(self)@, r, old(self)@.leave(output@, kill)),
    {
        self.to(Phase::Finished, output, Request::Exit(kill))
    }

    /// Lets the inferior go on.
    fn resume(&mut self, output: String) -> (r: Reply)
        ensures
            took(final(self)@, r, old(self)@.resume(output@)),
    {
        self.to(Phase::Resuming, output, Request::Resume)
    }

    /// What is said when the inferior is killed, where there is one.
    fn farewell(&self) -> (r: String)
        ensures
            r@ == self@.farewell(),
    {
        match &self.inferior {
            Some(inferior) => inferior.kill_notice(),
            None => String::new(),
        }
    }

    /// Records a breakpoint.
    fn record(&mut self, addr: usize, orig_byte: u8)
        ensures
            final(self)@ == old(self)@.with_break_point(addr, orig_byte),
    {
        self.break_points.insert(addr, Breakpoint { addr, orig_byte });
    }

    /// Installs the prepared breakpoint with an index, or shows the
    /// breakpoints after the last.
    fn install(&mut self, index: usize) -> (r: Reply)
        ensures
            took(final(self)@, r, old(self)@.install(index as int)),
    {
        if index < self.pre_installed_break_points.len() {
            let addr: usize = self.pre_installed_break_points[index];
            self.to(
                Phase::Installing(index),
                String::new(),
                Request::WriteByte(addr, TRAP_INSTRUCTION),
            )
        } else {
            self.to(Phase::Showing, String::new(), Request::ShowBreakPoints)
        }
    }

    /// Handles a line of the user.
    fn entered(&mut self, line: String) -> (r: Reply)
        ensures
            took(final(self)@, r, old(self)@.entered(line@)),
    {
        if is_blank(line.as_str()) {
            self.prompt(String::new())
        } else {
            let tokens = split_words(line.as_str());
            self.to(Phase::Parsing, String::new(), Request::Parse(line, tokens))
        }
    }

    /// Sets a breakpoint, now or when the target is started.
    fn add_break_points(&mut self, text: String, addr: Option<usize>) -> (r: Reply)
        ensures
            took(final(self)@, r, old(self)@.resolved(text@, addr)),
    {
        match addr {
            None => {
                let mut output = "invalid breakpoint ".to_owned();
                output.append(text.as_str());
                output.append("\n");
                self.prompt(output)
            },
            Some(break_point) => {
                let output = write_set(self.pre_installed_break_points.len(), break_point);
                if self.inferior.is_none() {
                    self.pre_installed_break_points.push(break_point);
                    self.prompt(output)
                } else if self.break_points.contains_key(&break_point) {
                    self.prompt(output)
                } else {
                    self.to(
                        Phase::Adding(break_point),
                        output,
                        Request::WriteByte(break_point, TRAP_INSTRUCTION),
                    )
                }
            },
        }
    }

    /// Handles a command.
    fn commanded(&mut self, command: DebuggerCommand) -> (r: Reply)
        ensures
            took(final(self)@, r, old(self)@.commanded(command@)),
    {
        match command {
            DebuggerCommand::Run(args) => {
                let output = self.farewell();
                let kill = self.inferior.is_some();
                self.to(Phase::Launching, output, Request::Launch(kill, args))
            },
            DebuggerCommand::Quit => {
                let output = self.farewell();
                let kill = self.inferior.is_some();
                self.leave(output, kill)
            },
            DebuggerCommand::Continue => if self.inferior.is_none() {
                self.leave("you have to run before continue".to_owned(), false)
            } else {
                self.to(Phase::Inspecting, String::new(), Request::ReadRip)
            },
            DebuggerCommand::BackTrace => self.to(
                Phase::Unwinding,
                String::new(),
                Request::ReadRegisters,
            ),
            DebuggerCommand::Break(text) => match find_target(&text) {
                BreakTarget::Address(addr) => self.add_break_points(text, addr),
                BreakTarget::Line(number) => self.to(
                    Phase::Resolving(text),
                    String::new(),
                    Request::FindLine(number),
                ),
                BreakTarget::Function => {
                    let name = text.clone();
                    self.to(Phase::Resolving(text), String::new(), Request::FindFunction(name))
                },
            },
        }
    }

    /// Handles the end of a run of the inferior.
    fn ran(&mut self, status: Option<Status>) -> (r: Reply)
        ensures
            took(
                final(self)@,
                r,
                old(self)@.ran(
                    match status {
                        Some(s) => Some(s@),
                        None => None,
                    },
                ),
            ),
    {
        match status {
            None => self.prompt(String::new()),
            Some(Status::Exited(code)) => self.prompt(write_exit(code)),
            Some(Status::Signaled(_)) => self.prompt(String::new()),
            Some(Status::Stopped(signal, rip)) => {
                let output = write_stop(&signal);
                self.to(Phase::Reporting(rip), output, Request::Locate(rip))
            },
        }
    }

    /// Handles the place of a stop.
    fn reported(&mut self, rip: usize, line: Option<Line>, function: Option<String>) -> (r: Reply)
        requires
            rip > 0,
        ensures
            took(
                final(self)@,
                r,
                old(self)@.reported(
                    rip,
                    match line {
                        Some(l) => Some(l@),
                        None => None,
                    },
                    crate::protocol::text_view(function),
                ),
            ),
    {
        let mut output = String::new();
        if let (Some(l), Some(f)) = (&line, &function) {
            output = write_frame(f, l);
            output.append(write_rip(rip).as_str());
        }
        let addr: usize = rip - 1;
        match self.break_points.get(&addr) {
            Some(break_point) => {
                let orig_byte: u8 = break_point.orig_byte;
                self.to(
                    Phase::Restoring(addr),
                    output,
                    Request::WriteByte(addr, orig_byte),
                )
            },
            None => self.prompt(output),
        }
    }

    /// Handles the end of a single step off the breakpoint at an address.
    fn stepped(&mut self, addr: usize, status: Status) -> (r: Reply)
        ensures
            took(final(self)@, r, old(self)@.stepped(addr, status@)),
    {
        match status {
            Status::Stopped(signal, _) => if signal.is_trap() {
                self.to(
                    Phase::Rearming(addr),
                    String::new(),
                    Request::WriteByte(addr, TRAP_INSTRUCTION),
                )
            } else {
                let mut output = signal.name;
                output.append("\n");
                self.resume(output)
            },
            Status::Exited(code) => self.leave(write_exit(code), false),
            Status::Signaled(_) => self.resume("111\n".to_owned()),
        }
    }

    /// Handles the place of a frame.
    fn named(&mut self, rbp: usize, line: Line, function: String) -> (r: Reply)
        requires
            function@ != "main"@ ==> rbp + 8 <= usize::MAX,
        ensures
            took(final(self)@, r, old(self)@.named(rbp, line@, function@)),
    {
        let output = write_frame(&function, &line);
        if function == "main".to_owned() {
            self.prompt(output)
        } else {
            self.to(Phase::Unwinding, output, Request::ReadFrame(rbp + 8, rbp))
        }
    }

    /// Takes the step that an event leads to.
    pub fn run(&mut self, event: Event) -> (r: Reply)
        requires
            old(self).wf(),
            old(self)@.accepts(event@),
        ensures
            final(self).wf(),
            took(final(self)@, r, old(self)@.next(event@)),
            final(self)@ == old(self)@.next(event@).state,
            r.output@ == old(self)@.next(event@).output,
            r.request@ == old(self)@.next(event@).request,
            old(self).phase is Resuming ==> (event matches Event::Resumed(
                Some(Status::Stopped(_, rip)),
            ) ==> r.request == Request::Locate(rip)),
            old(self).phase is Unwinding ==> (event matches Event::Frame(rip, _) ==> r.request
                == Request::Locate(rip)),
            old(self).phase matches Phase::Restoring(addr) ==> r.request == Request::SetRip(addr),
    {
        let ghost before = self@;
        let mut phase = Phase::Finished;
        core::mem::swap(&mut phase, &mut self.phase);
        let reply = match (phase, event) {
            (Phase::Prompting, Event::Interrupted) => self.prompt(
                "Type \"quit\" to exit\n".to_owned(),
            ),
            (Phase::Prompting, Event::EndOfInput) => self.commanded(DebuggerCommand::Quit),
            (Phase::Prompting, Event::Entered(line)) => self.entered(line),
            (Phase::Parsing, Event::Parsed(failure, command)) => {
                let mut output = match failure {
                    Some(reason) => write_warning(&self.history_path, &reason),
                    None => String::new(),
                };
                match command {
                    Some(c) => {
                        let reply = self.commanded(c);
                        output.append(reply.output.as_str());
                        Reply { output, request: reply.request }
                    },
                    None => {
                        output.append("Unrecognized command.\n");
                        self.prompt(output)
                    },
                }
            },
            (Phase::Launching, Event::Launched(Some(child_id))) => {
                self.inferior = Some(Inferior { child_id });
                self.install(0)
            },
            (Phase::Launching, Event::Launched(None)) => self.prompt(
                "Error starting subprocess\n".to_owned(),
            ),
            (Phase::Installing(index), Event::ByteWritten(orig_byte)) => {
                let addr: usize = self.pre_installed_break_points[index];
                self.record(addr, orig_byte);
                assert(index < self.pre_installed_break_points.len());
                self.install(index + 1)
            },
            (Phase::Showing, Event::Shown) => self.resume(String::new()),
            (Phase::Resuming, Event::Resumed(status)) => self.ran(status),
            (Phase::Reporting(rip), Event::Located(line, function)) => self.reported(
                rip,
                line,
                function,
            ),
            (Phase::Restoring(addr), Event::ByteWritten(_)) => self.to(
                Phase::Rewinding,
                String::new(),
                Request::SetRip(addr),
            ),
            (Phase::Rewinding, Event::RipSet) => self.prompt(String::new()),
            (Phase::Inspecting, Event::Rip(rip)) => if self.break_points.contains_key(&rip) {
                self.to(Phase::Stepping(rip), String::new(), Request::Step)
            } else {
                self.resume(String::new())
            },
            (Phase::Stepping(addr), Event::Stepped(status)) => self.stepped(addr, status),
            (Phase::Rearming(_), Event::ByteWritten(_)) => self.resume(String::new()),
            (Phase::Unwinding, Event::Frame(rip, rbp)) => self.to(
                Phase::Naming(rbp),
                String::new(),
                Request::Locate(rip),
            ),
            (Phase::Naming(rbp), Event::Located(Some(line), Some(function))) => self.named(
                rbp,
                line,
                function,
            ),
            (Phase::Resolving(text), Event::Address(addr)) => self.add_break_points(text, addr),
            (Phase::Adding(addr), Event::ByteWritten(orig_byte)) => {
                self.record(addr, orig_byte);
                self.prompt(String::new())
            },
            _ => self.prompt(String::new()),
        };
        reply
    }
}

/// A line that is handed on to be read as a command has at least one word.
pub proof fn lemma_commands_have_words(state: DebuggerView, event: EventView)
    ensures
        state.next(event).request matches RequestView::Parse(line, tokens) ==> {
            &&& tokens == words(line)
            &&& tokens.len() > 0
        },
{
    if let EventView::Entered(line) = event {
        crate::text::lemma_blank_lines_have_no_words(line);
    }
}

/// A debugger shows its fields as they are, and its texts by their characters.
pub proof fn lemma_debugger_view(debugger: Debugger)
    ensures
        debugger@.target == debugger.target@,
        debugger@.history_path == debugger.history_path@,
        debugger@.inferior == debugger.inferior,
        debugger@.pre_installed == debugger.pre_installed_break_points@,
        debugger@.break_points == debugger.break_points@,
        match debugger.phase {
            Phase::Installing(index) => debugger@.phase == PhaseView::Installing(index as int),
            Phase::Reporting(rip) => debugger@.phase == PhaseView::Reporting(rip),
            Phase::Restoring(addr) => debugger@.phase == PhaseView::Restoring(addr),
            Phase::Stepping(addr) => debugger@.phase == PhaseView::Stepping(addr),
            Phase::Rearming(addr) => debugger@.phase == PhaseView::Rearming(addr),
            Phase::Naming(rbp) => debugger@.phase == PhaseView::Naming(rbp),
            Phase::Resolving(text) => debugger@.phase == PhaseView::Resolving(text@),
            Phase::Adding(addr) => debugger@.phase == PhaseView::Adding(addr),
            Phase::Prompting => debugger@.phase is Prompting,
            Phase::Parsing => debugger@.phase is Parsing,
            Phase::Launching => debugger@.phase is Launching,
            Phase::Showing => debugger@.phase is Showing,
            Phase::Resuming => debugger@.phase is Resuming,
            Phase::Rewinding => debugger@.phase is Rewinding,
            Phase::Inspecting => debugger@.phase is Inspecting,
            Phase::Unwinding => debugger@.phase is Unwinding,
            Phase::Finished => debugger@.phase is Finished,
        },
{
}

/// A debugger for a target whose symbols were read keeps its history in the
/// user's home and starts at the prompt, with nothing prepared, recorded or
/// running.
pub proof fn lemma_debugger_at_the_start(
    target: &str,
    home: &str,
    symbols: Result<(), SymbolError>,
    r: Result<Debugger, String>,
)
    requires
        call_ensures(Debugger::new, (target, home, symbols), r),
    ensures
        r is Ok <==> symbols is Ok,
        r matches Ok(debugger) ==> {
            &&& debugger.target@ == target@
            &&& debugger.history_path@ == home@ + "/.deet_history"@
            &&& debugger.inferior is None
            &&& debugger.pre_installed_break_points@.len() == 0
            &&& forall|addr: usize| !#[trigger] debugger.break_points@.contains_key(addr)
            &&& debugger.phase is Prompting
        },
        r matches Err(said) ==> match symbols->Err_0 {
            SymbolError::ErrorOpeningFile => said@ == "Could not open file "@ + target@ + "\n"@,
            SymbolError::DwarfFormatError(reason) => said@ == "Could not debugging symbols from "@
                + target@ + ": "@ + reason@ + "\n"@,
        },
{
}

/// What `find_target` finds in a text: behind an asterisk the address that
/// `parse_address` reads in the rest, otherwise the line of the number that
/// `parse_numeral` reads in the text, and a function where it reads none.
pub proof fn lemma_find_target(
    text: String,
    found: BreakTarget,
    whole: &str,
    rest: &str,
    address: Option<usize>,
    number: Option<u64>,
)
    requires
        call_ensures(find_target, (&text,), found),
        whole@ == text@,
        text@.len() > 0 ==> rest@ == text@.skip(1),
        call_ensures(parse_address, (rest,), address),
        call_ensures(parse_numeral, (whole, 10u64, usize::MAX as u64), number),
    ensures
        text@.len() > 0 && text@[0] == '*' ==> found == BreakTarget::Address(address),
        !(text@.len() > 0 && text@[0] == '*') ==> match number {
            Some(n) => found == BreakTarget::Line(n as usize),
            None => found == BreakTarget::Function,
        },
{
}

/// A place is written as the function, then the file and the line number in
/// brackets.
pub proof fn lemma_write_place(function: String, file: String, number: usize, r: String)
    requires
        call_ensures(write_place, (&function, &file, number), r),
    ensures
        r@ == function@ + "("@ + file@ + ":"@ + decimal(number as int) + ")\n"@,
{
}

/// Whether a debugger has taken a step is seen in all of its state and in all
/// of its reply.
pub proof fn lemma_a_step_is_taken_in_full(state: DebuggerView, reply: Reply, step: StepView)
    requires
        took(state, reply, step),
    ensures
        state.target == step.state.target,
        state.history_path == step.state.history_path,
        state.inferior == step.state.inferior,
        state.pre_installed == step.state.pre_installed,
        state.break_points == step.state.break_points,
        state.phase == step.state.phase,
        reply.output@ == step.output,
        reply.request@ == step.request,
{
}

} // verus!
