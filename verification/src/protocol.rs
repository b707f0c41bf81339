//! What the debugger and the world around it say to each other.
//!
//! The debugger hands out one request at a time. Whoever performs the request
//! hands back the event that tells how it went.

use vstd::prelude::*;

use crate::inferior::{Status, StatusView};
use crate::text::views;

verus! {

/// A command of the user.
#[derive(Debug)]
pub enum DebuggerCommand {
    /// Start the target with these arguments.
    Run(Vec<String>),
    /// Leave the debugger.
    Quit,
    /// Let the inferior go on.
    Continue,
    /// Show the call stack.
    BackTrace,
    /// Set a breakpoint at an address (`*0x1000`), a line or a function.
    Break(String),
}

/// A command, with its texts as sequences of characters.
pub ghost enum CommandView {
    Run(Seq<Seq<char>>),
    Quit,
    Continue,
    BackTrace,
    Break(Seq<char>),
}

impl View for DebuggerCommand {
    type V = CommandView;

    open spec fn view(&self) -> CommandView {
        match self {
            DebuggerCommand::Run(args) => CommandView::Run(views(args@)),
            DebuggerCommand::Quit => CommandView::Quit,
            DebuggerCommand::Continue => CommandView::Continue,
            DebuggerCommand::BackTrace => CommandView::BackTrace,
            DebuggerCommand::Break(text) => CommandView::Break(text@),
        }
    }
}

/// A line of the program's source.
#[derive(Debug)]
pub struct Line {
    pub file: String,
    pub number: usize,
}

/// A line of the program's source, with its file's name as a sequence.
pub ghost struct LineView {
    pub file: Seq<char>,
    pub number: usize,
}

impl View for Line {
    type V = LineView;

    open spec fn view(&self) -> LineView {
        LineView { file: self.file@, number: self.number }
    }
}

/// How a request went.
#[derive(Debug)]
pub enum Event {
    /// The user interrupted the prompt.
    Interrupted,
    /// The user closed the input.
    EndOfInput,
    /// The user entered a line.
    Entered(String),
    /// The words of a line were read as a command, or as none. Where the
    /// history could not be saved, the reason is given.
    Parsed(Option<String>, Option<DebuggerCommand>),
    /// The target was started under this process identifier, or was not.
    Launched(Option<u32>),
    /// A byte was written in place of this one.
    ByteWritten(u8),
    /// The breakpoints were shown.
    Shown,
    /// The inferior went on until this happened. There is nothing where it
    /// could not be resumed.
    Resumed(Option<Status>),
    /// The inferior went on for one instruction, until this happened.
    Stepped(Status),
    /// The source line and the function of an address.
    Located(Option<Line>, Option<String>),
    /// The instruction pointer was set.
    RipSet,
    /// The instruction pointer was read.
    Rip(usize),
    /// The instruction pointer and the frame pointer were read.
    Frame(usize, usize),
    /// The address of a line or a function was looked up.
    Address(Option<usize>),
}

/// An event, with its texts as sequences of characters.
pub ghost enum EventView {
    Interrupted,
    EndOfInput,
    Entered(Seq<char>),
    Parsed(Option<Seq<char>>, Option<CommandView>),
    Launched(Option<u32>),
    ByteWritten(u8),
    Shown,
    Resumed(Option<StatusView>),
    Stepped(StatusView),
    Located(Option<LineView>, Option<Seq<char>>),
    RipSet,
    Rip(usize),
    Frame(usize, usize),
    Address(Option<usize>),
}

/// The view of an optional text.
pub open spec fn text_view(text: Option<String>) -> Option<Seq<char>> {
    match text {
        Some(s) => Some(s@),
        None => None,
    }
}

impl View for Event {
    type V = EventView;

    open spec fn view(&self) -> EventView {
        match self {
            Event::Interrupted => EventView::Interrupted,
            Event::EndOfInput => EventView::EndOfInput,
            Event::Entered(line) => EventView::Entered(line@),
            Event::Parsed(failure, command) => EventView::Parsed(
                text_view(*failure),
                match command {
                    Some(c) => Some(c@),
                    None => None,
                },
            ),
            Event::Launched(child_id) => EventView::Launched(*child_id),
            Event::ByteWritten(byte) => EventView::ByteWritten(*byte),
            Event::Shown => EventView::Shown,
            Event::Resumed(status) => EventView::Resumed(
                match status {
                    Some(s) => Some(s@),
                    None => None,
                },
            ),
            Event::Stepped(status) => EventView::Stepped(status@),
            Event::Located(line, function) => EventView::Located(
                match line {
                    Some(l) => Some(l@),
                    None => None,
                },
                text_view(*function),
            ),
            Event::RipSet => EventView::RipSet,
            Event::Rip(rip) => EventView::Rip(*rip),
            Event::Frame(rip, rbp) => EventView::Frame(*rip, *rbp),
            Event::Address(addr) => EventView::Address(*addr),
        }
    }
}

/// What the debugger asks for.
#[derive(Debug)]
pub enum Request {
    /// Prompt for a line. Answered by `Interrupted`, `EndOfInput` or
    /// `Entered`.
    ReadLine,
    /// Add a line to the history, save the history, and read the words of the
    /// line as a command. Answered by `Parsed`.
    Parse(String, Vec<String>),
    /// Kill the running inferior where there is one to kill, then start the
    /// target with these arguments. Answered by `Launched`.
    Launch(bool, Vec<String>),
    /// Write a byte at an address. Answered by `ByteWritten`.
    WriteByte(usize, u8),
    /// Show the breakpoints. Answered by `Shown`.
    ShowBreakPoints,
    /// Let the inferior go on, and wait for it. Answered by `Resumed`.
    Resume,
    /// Let the inferior go on for one instruction, and wait for it. Answered
    /// by `Stepped`.
    Step,
    /// Look up the source line and the function of an address. Answered by
    /// `Located`.
    Locate(usize),
    /// Set the instruction pointer. Answered by `RipSet`.
    SetRip(usize),
    /// Read the instruction pointer. Answered by `Rip`.
    ReadRip,
    /// Read the instruction pointer and the frame pointer from the registers.
    /// Answered by `Frame`.
    ReadRegisters,
    /// Read an instruction pointer and a frame pointer from these addresses,
    /// in this order. Answered by `Frame`.
    ReadFrame(usize, usize),
    /// Look up the address of a line. Answered by `Address`.
    FindLine(usize),
    /// Look up the address of a function. Answered by `Address`.
    FindFunction(String),
    /// Kill the running inferior where there is one to kill, then leave.
    Exit(bool),
}

/// A request, with its texts as sequences of characters.
pub ghost enum RequestView {
    ReadLine,
    Parse(Seq<char>, Seq<Seq<char>>),
    Launch(bool, Seq<Seq<char>>),
    WriteByte(usize, u8),
    ShowBreakPoints,
    Resume,
    Step,
    Locate(usize),
    SetRip(usize),
    ReadRip,
    ReadRegisters,
    ReadFrame(usize, usize),
    FindLine(usize),
    FindFunction(Seq<char>),
    Exit(bool),
}

impl View for Request {
    type V = RequestView;

    open spec fn view(&self) -> RequestView {
        match self {
            Request::ReadLine => RequestView::ReadLine,
            Request::Parse(line, tokens) => RequestView::Parse(line@, views(tokens@)),
            Request::Launch(kill, args) => RequestView::Launch(*kill, views(args@)),
            Request::WriteByte(addr, val) => RequestView::WriteByte(*addr, *val),
            Request::ShowBreakPoints => RequestView::ShowBreakPoints,
            Request::Resume => RequestView::Resume,
            Request::Step => RequestView::Step,
            Request::Locate(rip) => RequestView::Locate(*rip),
            Request::SetRip(rip) => RequestView::SetRip(*rip),
            Request::ReadRip => RequestView::ReadRip,
            Request::ReadRegisters => RequestView::ReadRegisters,
            Request::ReadFrame(rip_at, rbp_at) => RequestView::ReadFrame(*rip_at, *rbp_at),
            Request::FindLine(number) => RequestView::FindLine(*number),
            Request::FindFunction(name) => RequestView::FindFunction(name@),
            Request::Exit(kill) => RequestView::Exit(*kill),
        }
    }
}

/// What the debugger does in answer to an event: it says something, then asks
/// for something.
#[derive(Debug)]
pub struct Reply {
    pub output: String,
    pub request: Request,
}

/// A command shows its texts, and nothing else of it is changed.
pub proof fn lemma_command_view(command: DebuggerCommand)
    ensures
        match command {
            DebuggerCommand::Run(args) => {
                &&& command@ matches CommandView::Run(shown)
                &&& shown.len() == args@.len()
                &&& forall|i: int| 0 <= i < args@.len() ==> #[trigger] shown[i] == args@[i]@
            },
            DebuggerCommand::Quit => command@ == CommandView::Quit,
            DebuggerCommand::Continue => command@ == CommandView::Continue,
            DebuggerCommand::BackTrace => command@ == CommandView::BackTrace,
            DebuggerCommand::Break(text) => command@ == CommandView::Break(text@),
        },
{
}

/// A line shows its file's name and its own number.
pub proof fn lemma_line_view(line: Line)
    ensures
        line@.file == line.file@,
        line@.number == line.number,
{
}

/// An event shows its numbers as they are, and its texts by their characters.
pub proof fn lemma_event_view(event: Event)
    ensures
        match event {
            Event::Interrupted => event@ == EventView::Interrupted,
            Event::EndOfInput => event@ == EventView::EndOfInput,
            Event::Entered(line) => event@ == EventView::Entered(line@),
            Event::Parsed(failure, command) => {
                &&& event@ matches EventView::Parsed(reason, shown)
                &&& reason is Some <==> failure is Some
                &&& reason matches Some(text) ==> text == failure->0@
                &&& shown is Some <==> command is Some
                &&& shown matches Some(c) ==> c == command->0@
            },
            Event::Launched(child_id) => event@ == EventView::Launched(child_id),
            Event::ByteWritten(byte) => event@ == EventView::ByteWritten(byte),
            Event::Shown => event@ == EventView::Shown,
            Event::Resumed(status) => {
                &&& event@ matches EventView::Resumed(shown)
                &&& shown is Some <==> status is Some
                &&& shown matches Some(s) ==> s == status->0@
            },
            Event::Stepped(status) => event@ == EventView::Stepped(status@),
            Event::Located(line, function) => {
                &&& event@ matches EventView::Located(at, name)
                &&& at is Some <==> line is Some
                &&& at matches Some(l) ==> l == line->0@
                &&& name is Some <==> function is Some
                &&& name matches Some(text) ==> text == function->0@
            },
            Event::RipSet => event@ == EventView::RipSet,
            Event::Rip(rip) => event@ == EventView::Rip(rip),
            Event::Frame(rip, rbp) => event@ == EventView::Frame(rip, rbp),
            Event::Address(addr) => event@ == EventView::Address(addr),
        },
{
}

/// A request shows its numbers as they are, and its texts by their characters.
pub proof fn lemma_request_view(request: Request)
    ensures
        match request {
            Request::ReadLine => request@ == RequestView::ReadLine,
            Request::Parse(line, tokens) => {
                &&& request@ matches RequestView::Parse(text, shown)
                &&& text == line@
                &&& shown.len() == tokens@.len()
                &&& forall|i: int| 0 <= i < tokens@.len() ==> #[trigger] shown[i] == tokens@[i]@
            },
            Request::Launch(kill, args) => {
                &&& request@ matches RequestView::Launch(first, shown)
                &&& first == kill
                &&& shown.len() == args@.len()
                &&& forall|i: int| 0 <= i < args@.len() ==> #[trigger] shown[i] == args@[i]@
            },
            Request::WriteByte(addr, val) => request@ == RequestView::WriteByte(addr, val),
            Request::ShowBreakPoints => request@ == RequestView::ShowBreakPoints,
            Request::Resume => request@ == RequestView::Resume,
            Request::Step => request@ == RequestView::Step,
            Request::Locate(rip) => request@ == RequestView::Locate(rip),
            Request::SetRip(rip) => request@ == RequestView::SetRip(rip),
            Request::ReadRip => request@ == RequestView::ReadRip,
            Request::ReadRegisters => request@ == RequestView::ReadRegisters,
            Request::ReadFrame(rip_at, rbp_at) => request@ == RequestView::ReadFrame(
                rip_at,
                rbp_at,
            ),
            Request::FindLine(number) => request@ == RequestView::FindLine(number),
            Request::FindFunction(name) => request@ == RequestView::FindFunction(name@),
            Request::Exit(kill) => request@ == RequestView::Exit(kill),
        },
{
}

} // verus!
