//! What the debugger does for its user: the laws of its commands, from what
//! the user enters to what is asked for, kept and said.

use vstd::prelude::*;

use crate::breakpoints::{has_asked, wanted_at, World};
use crate::debugger::{
    break_target, first_state, Breakpoint, DebuggerView, PhaseView, StepView, SymbolError,
    TargetView,
};
use crate::inferior::{Inferior, StatusView};
use crate::numerals::{address_value, decimal, hexadecimal, numeral_value};
use crate::protocol::{CommandView, EventView, LineView, RequestView};
use crate::text::{debug_text, words};

verus! {

/// Whether two states differ in nothing but what they wait for.
pub open spec fn same_but_phase(one: DebuggerView, other: DebuggerView) -> bool {
    &&& one.target == other.target
    &&& one.history_path == other.history_path
    &&& one.inferior == other.inferior
    &&& one.pre_installed == other.pre_installed
    &&& one.break_points == other.break_points
}

/// Whether a step goes back to the prompt, says this, and changes nothing.
pub open spec fn back_to_prompt(state: DebuggerView, step: StepView, said: Seq<char>) -> bool {
    &&& same_but_phase(state, step.state)
    &&& step.state.phase == PhaseView::Prompting
    &&& step.request == RequestView::ReadLine
    &&& step.output == said
}

/// A new debugger has a target and a history in the user's home, and nothing
/// else.
pub proof fn lemma_new_debugger(target: Seq<char>, home: Seq<char>, addr: usize)
    ensures
        first_state(target, home).target == target,
        first_state(target, home).history_path == home + "/.deet_history"@,
        first_state(target, home).inferior is None,
        first_state(target, home).pre_installed.len() == 0,
        !first_state(target, home).break_points.contains_key(addr),
        first_state(target, home).phase == PhaseView::Prompting,
{
}

/// A target whose symbols cannot be read is named, with the reason where there
/// is one.
pub proof fn lemma_unreadable_target(error: SymbolError, target: Seq<char>)
    ensures
        error is ErrorOpeningFile ==> error.text(target) == "Could not open file "@ + target
            + "\n"@,
        error matches SymbolError::DwarfFormatError(reason) ==> error.text(target)
            == "Could not debugging symbols from "@ + target + ": "@ + reason@ + "\n"@,
{
}

/// A line is handed on as it was entered, together with its words. One without
/// words is passed over.
pub proof fn lemma_entered_line(state: DebuggerView, line: Seq<char>)
    requires
        state.phase == PhaseView::Prompting,
    ensures
        ({
            let step = state.next(EventView::Entered(line));
            if words(line).len() == 0 {
                back_to_prompt(state, step, Seq::empty())
            } else {
                &&& same_but_phase(state, step.state)
                &&& step.state.phase == PhaseView::Parsing
                &&& step.request == RequestView::Parse(line, words(line))
                &&& step.output.len() == 0
            }
        }),
{
    crate::text::lemma_blank_lines_have_no_words(line);
}

/// An interrupt is answered by a hint. The end of the input is as good as the
/// command to quit.
pub proof fn lemma_interrupt_and_end_of_input(state: DebuggerView, parsing: DebuggerView)
    requires
        state.phase == PhaseView::Prompting,
        parsing.phase == PhaseView::Parsing,
        same_but_phase(state, parsing),
    ensures
        back_to_prompt(
            state,
            state.next(EventView::Interrupted),
            "Type \"quit\" to exit\n"@,
        ),
        state.next(EventView::EndOfInput) == parsing.next(
            EventView::Parsed(None, Some(CommandView::Quit)),
        ),
{
}

/// A history that could not be saved is warned of, before anything else is
/// said. It makes no other difference.
pub proof fn lemma_unsaved_history(
    state: DebuggerView,
    reason: Seq<char>,
    command: Option<CommandView>,
)
    requires
        state.phase == PhaseView::Parsing,
    ensures
        ({
            let step = state.next(EventView::Parsed(Some(reason), command));
            let saved = state.next(EventView::Parsed(None, command));
            &&& step.state == saved.state
            &&& step.request == saved.request
            &&& step.output == "Warning: failed to save history file at "@ + state.history_path
                + ": "@ + reason + "\n"@ + saved.output
        }),
{
    let step = state.next(EventView::Parsed(Some(reason), command));
    let saved = state.next(EventView::Parsed(None, command));
    assert(step.output =~= "Warning: failed to save history file at "@ + state.history_path + ": "@
        + reason + "\n"@ + saved.output);
}

/// A line that is no command is answered so.
pub proof fn lemma_unrecognized(state: DebuggerView)
    requires
        state.phase == PhaseView::Parsing,
    ensures
        back_to_prompt(
            state,
            state.next(EventView::Parsed(None, None)),
            "Unrecognized command.\n"@,
        ),
{
    assert(state.next(EventView::Parsed(None, None)).output =~= "Unrecognized command.\n"@);
}

/// To run is to start the target with the user's arguments, and to quit is to
/// leave. Both first kill the inferior where there is one, and say which.
pub proof fn lemma_run_and_quit(state: DebuggerView, args: Seq<Seq<char>>)
    requires
        state.phase == PhaseView::Parsing,
    ensures
        ({
            let run = state.next(EventView::Parsed(None, Some(CommandView::Run(args))));
            let quit = state.next(EventView::Parsed(None, Some(CommandView::Quit)));
            &&& same_but_phase(state, run.state)
            &&& same_but_phase(state, quit.state)
            &&& run.state.phase == PhaseView::Launching
            &&& quit.state.phase == PhaseView::Finished
            &&& run.request == RequestView::Launch(state.inferior is Some, args)
            &&& quit.request == RequestView::Exit(state.inferior is Some)
            &&& run.output == quit.output
            &&& state.inferior is None ==> run.output.len() == 0
            &&& state.inferior matches Some(inferior) ==> run.output
                == "Killing running inferior (pid "@ + decimal(inferior.child_id as int) + ")\n"@
        }),
{
    let run = state.next(EventView::Parsed(None, Some(CommandView::Run(args))));
    let quit = state.next(EventView::Parsed(None, Some(CommandView::Quit)));
    if let Some(inferior) = state.inferior {
        assert(run.output =~= "Killing running inferior (pid "@ + decimal(
            inferior.child_id as int,
        ) + ")\n"@);
        assert(quit.output =~= run.output);
    }
}

/// A target that did not start is reported, and nothing changes.
pub proof fn lemma_failed_start(state: DebuggerView)
    requires
        state.phase == PhaseView::Launching,
    ensures
        back_to_prompt(
            state,
            state.next(EventView::Launched(None)),
            "Error starting subprocess\n"@,
        ),
{
}

/// Whether an event leads from one step to another.
#[verifier::opaque]
pub open spec fn leads_to(step: StepView, event: EventView, after: StepView) -> bool {
    &&& step.state.accepts(event)
    &&& after == step.state.next(event)
}

/// Whether events lead through these steps.
pub open spec fn course(steps: Seq<StepView>, events: Seq<EventView>) -> bool {
    &&& steps.len() == events.len() + 1
    &&& forall|i: int|
        0 <= i < events.len() ==> #[trigger] leads_to(steps[i], events[i], steps[i + 1])
}

/// Records of breakpoints, with one more for each of the first so many
/// addresses, by the byte that the next event reports.
pub open spec fn with_records(
    records: Map<usize, Breakpoint>,
    addresses: Seq<usize>,
    events: Seq<EventView>,
    count: int,
) -> Map<usize, Breakpoint>
    decreases count,
{
    if count <= 0 {
        records
    } else {
        let addr = addresses[count - 1];
        with_records(records, addresses, events, count - 1).insert(
            addr,
            Breakpoint { addr, orig_byte: events[count]->ByteWritten_0 },
        )
    }
}

/// A target that has started is the inferior from then on. A trap is written
/// at each prepared breakpoint in turn, and each is recorded with the byte that
/// was reported for it. Then the breakpoints are shown.
pub proof fn lemma_start_installs_all(
    steps: Seq<StepView>,
    events: Seq<EventView>,
    child_id: u32,
    count: int,
)
    requires
        course(steps, events),
        steps[0].state.phase == PhaseView::Launching,
        events.len() > 0,
        events[0] == EventView::Launched(Some(child_id)),
        0 <= count <= steps[0].state.pre_installed.len(),
        count < events.len(),
    ensures
        count > 0 ==> events[count] is ByteWritten,
        steps[count + 1].output.len() == 0,
        steps[count + 1].state == (DebuggerView {
            inferior: Some(Inferior { child_id }),
            break_points: with_records(
                steps[0].state.break_points,
                steps[0].state.pre_installed,
                events,
                count,
            ),
            phase: if count < steps[0].state.pre_installed.len() {
                PhaseView::Installing(count)
            } else {
                PhaseView::Showing
            },
            ..steps[0].state
        }),
        steps[count + 1].request == if count < steps[0].state.pre_installed.len() {
            RequestView::WriteByte(steps[0].state.pre_installed[count], 0xcc)
        } else {
            RequestView::ShowBreakPoints
        },
    decreases count,
{
    if count > 0 {
        lemma_start_installs_all(steps, events, child_id, count - 1);
    }
    assert(leads_to(steps[count], events[count], steps[count + 1]));
    reveal(leads_to);
}

/// Once the breakpoints were shown, the inferior is let run.
pub proof fn lemma_shown_then_run(state: DebuggerView)
    requires
        state.phase == PhaseView::Showing,
    ensures
        same_but_phase(state, state.next(EventView::Shown).state),
        state.next(EventView::Shown).state.phase == PhaseView::Resuming,
        state.next(EventView::Shown).request == RequestView::Resume,
        state.next(EventView::Shown).output.len() == 0,
{
}

/// A breakpoint is wanted where the text says: at the address behind an
/// asterisk, else at the line of that number, else at the function of that
/// name. Lines and functions are looked up.
pub proof fn lemma_break_command(state: DebuggerView, text: Seq<char>)
    requires
        state.phase == PhaseView::Parsing,
    ensures
        ({
            let event = EventView::Parsed(None, Some(CommandView::Break(text)));
            let step = state.next(event);
            if text.len() > 0 && text[0] == '*' {
                match address_value(text.skip(1)) {
                    Some(addr) => wanted_at(state, event, addr as usize),
                    None => back_to_prompt(state, step, "invalid breakpoint "@ + text + "\n"@),
                }
            } else {
                &&& same_but_phase(state, step.state)
                &&& step.state.phase == PhaseView::Resolving(text)
                &&& step.output.len() == 0
                &&& step.request == match numeral_value(text, 10, usize::MAX as nat) {
                    Some(number) => RequestView::FindLine(number as usize),
                    None => RequestView::FindFunction(text),
                }
            }
        }),
{
    let step = state.next(EventView::Parsed(None, Some(CommandView::Break(text))));
    if text.len() > 0 && text[0] == '*' && address_value(text.skip(1)) is None {
        assert(step.output =~= "invalid breakpoint "@ + text + "\n"@);
    }
}

/// Where a line or a function is not found, the user is told so by the words
/// the user has used.
pub proof fn lemma_nothing_found(state: DebuggerView, text: Seq<char>)
    requires
        state.phase == PhaseView::Resolving(text),
    ensures
        back_to_prompt(
            state,
            state.next(EventView::Address(None)),
            "invalid breakpoint "@ + text + "\n"@,
        ),
{
}

/// The target of a breakpoint, read back from how its parts are written: an
/// asterisk and an address, or a line number.
pub proof fn lemma_written_targets(addr: usize, number: usize)
    ensures
        break_target("*"@ + hexadecimal(addr as nat)) == TargetView::Address(Some(addr)),
        break_target(decimal(number as int)) == TargetView::Line(number),
{
    reveal_strlit("*");
    let text = "*"@ + hexadecimal(addr as nat);
    assert(text.skip(1) =~= hexadecimal(addr as nat));
    crate::numerals::lemma_address_round_trip(addr);
    crate::numerals::lemma_how_numbers_are_written(number as nat, 10);
    crate::numerals::lemma_numeral_round_trip(number as nat, 10, usize::MAX as nat);
    let digits = decimal(number as int);
    reveal_strlit("0123456789abcdefghijklmnopqrstuvwxyz");
    let table = "0123456789abcdefghijklmnopqrstuvwxyz"@.take(10);
    assert(table.contains(digits[0]));
    let k = choose|k: int| 0 <= k < table.len() && table[k] == digits[0];
    assert(table[k] != '*');
}

/// What is said of a wanted breakpoint: how many were prepared before it, and
/// its address.
pub open spec fn set_notice(state: DebuggerView, addr: usize) -> Seq<char> {
    "Set breakpoint "@ + decimal(state.pre_installed.len() as int) + " at "@ + hexadecimal(
        addr as nat,
    ) + "\n"@
}

/// Whether an event comes with no warning of an unsaved history.
pub open spec fn without_warning(event: EventView) -> bool {
    event matches EventView::Parsed(failure, _) ==> failure is None
}

/// A breakpoint that is wanted before there is an inferior is prepared, behind
/// all that were prepared before. Nothing else changes.
pub proof fn lemma_wanted_break_point_is_prepared(
    state: DebuggerView,
    event: EventView,
    addr: usize,
)
    requires
        state.inferior is None,
        wanted_at(state, event, addr),
    ensures
        ({
            let step = state.next(event);
            &&& step.state.pre_installed == state.pre_installed.push(addr)
            &&& step.state.pre_installed.contains(addr)
            &&& step.state.break_points == state.break_points
            &&& step.state.inferior is None
            &&& step.state.target == state.target
            &&& step.state.history_path == state.history_path
            &&& step.state.phase == PhaseView::Prompting
            &&& step.request == RequestView::ReadLine
            &&& without_warning(event) ==> step.output == set_notice(state, addr)
        }),
{
    let step = state.next(event);
    assert(step.state.pre_installed[state.pre_installed.len() as int] == addr);
    if without_warning(event) {
        assert(step.output =~= set_notice(state, addr));
    }
}

/// A breakpoint that is wanted while there is an inferior is not prepared. It
/// is written and then recorded with the reported byte, unless there is a
/// record of it already.
pub proof fn lemma_wanted_break_point_is_added(
    state: DebuggerView,
    event: EventView,
    addr: usize,
    byte: u8,
)
    requires
        state.inferior is Some,
        wanted_at(state, event, addr),
    ensures
        ({
            let step = state.next(event);
            let added = step.state.next(EventView::ByteWritten(byte));
            &&& same_but_phase(state, step.state)
            &&& without_warning(event) ==> step.output == set_notice(state, addr)
            &&& state.break_points.contains_key(addr) ==> {
                &&& step.state.phase == PhaseView::Prompting
                &&& step.request == RequestView::ReadLine
            }
            &&& !state.break_points.contains_key(addr) ==> {
                &&& step.state.phase == PhaseView::Adding(addr)
                &&& step.request == RequestView::WriteByte(addr, 0xcc)
                &&& added.output.len() == 0
                &&& added.request == RequestView::ReadLine
                &&& added.state == (DebuggerView {
                    break_points: state.break_points.insert(
                        addr,
                        Breakpoint { addr, orig_byte: byte },
                    ),
                    phase: PhaseView::Prompting,
                    ..state
                })
            }
        }),
{
    if without_warning(event) {
        assert(state.next(event).output =~= set_notice(state, addr));
    }
}

/// What is said of a place in the program: the function, the file and the
/// line, the two names in quotes.
pub open spec fn place_notice(line: LineView, function: Seq<char>) -> Seq<char> {
    debug_text(function) + "("@ + debug_text(line.file) + ":"@ + decimal(line.number as int)
        + ")\n"@
}

/// A stop is looked up where it happened, at its own instruction pointer.
pub proof fn lemma_stop_is_looked_up(state: DebuggerView, signal: Seq<char>, rip: usize)
    requires
        state.phase == PhaseView::Resuming,
    ensures
        ({
            let step = state.next(EventView::Resumed(Some(StatusView::Stopped(signal, rip))));
            &&& same_but_phase(state, step.state)
            &&& step.state.phase == PhaseView::Reporting(rip)
            &&& step.request == RequestView::Locate(rip)
            &&& step.output == "Child stopped (status "@ + signal + ")\n"@
        }),
{
}

/// The place of a stop is shown with its instruction pointer, if the line and
/// the function are known. Right behind a breakpoint the kept byte is put back
/// and then the instruction pointer is set to it. Elsewhere that is all.
pub proof fn lemma_stop_is_shown(
    state: DebuggerView,
    signal: Seq<char>,
    rip: usize,
    line: Option<LineView>,
    function: Option<Seq<char>>,
    byte: u8,
)
    requires
        state.phase == PhaseView::Resuming,
        rip > 0,
    ensures
        ({
            let reporting = state.next(EventView::Resumed(Some(StatusView::Stopped(signal, rip))));
            let shown = reporting.state.next(EventView::Located(line, function));
            let restored = shown.state.next(EventView::ByteWritten(byte));
            let behind = (rip - 1) as usize;
            &&& shown.output == if line is Some && function is Some {
                place_notice(line->0, function->0) + "rip:"@ + hexadecimal(rip as nat) + "\n"@
            } else {
                Seq::empty()
            }
            &&& !state.break_points.contains_key(behind) ==> back_to_prompt(
                state,
                shown,
                shown.output,
            )
            &&& state.break_points.contains_key(behind) ==> {
                &&& same_but_phase(state, shown.state)
                &&& shown.request == RequestView::WriteByte(
                    behind,
                    state.break_points[behind].orig_byte,
                )
                &&& same_but_phase(state, restored.state)
                &&& restored.request == RequestView::SetRip(behind)
                &&& restored.output.len() == 0
                &&& back_to_prompt(state, restored.state.next(EventView::RipSet), Seq::empty())
            }
        }),
{
    let reporting = state.next(EventView::Resumed(Some(StatusView::Stopped(signal, rip))));
    let shown = reporting.state.next(EventView::Located(line, function));
    if line is Some && function is Some {
        assert(shown.output =~= place_notice(line->0, function->0) + "rip:"@ + hexadecimal(
            rip as nat,
        ) + "\n"@);
    }
}

/// An exit is told with its status. Of an end by a signal, and of a run that
/// could not be begun, nothing is said.
pub proof fn lemma_end_of_a_run(state: DebuggerView, code: i32, signal: Seq<char>)
    requires
        state.phase == PhaseView::Resuming,
    ensures
        back_to_prompt(
            state,
            state.next(EventView::Resumed(Some(StatusView::Exited(code)))),
            "Child exited (status "@ + decimal(code as int) + ")\n"@,
        ),
        back_to_prompt(
            state,
            state.next(EventView::Resumed(Some(StatusView::Signaled(signal)))),
            Seq::empty(),
        ),
        back_to_prompt(state, state.next(EventView::Resumed(None)), Seq::empty()),
{
}

/// To go on without an inferior is to leave. With one, the instruction pointer
/// is asked for. Away from all breakpoints the inferior then just runs. At a
/// breakpoint it first takes one step.
pub proof fn lemma_continue_command(state: DebuggerView, rip: usize)
    requires
        state.phase == PhaseView::Parsing,
    ensures
        ({
            let step = state.next(EventView::Parsed(None, Some(CommandView::Continue)));
            let on = step.state.next(EventView::Rip(rip));
            &&& same_but_phase(state, step.state)
            &&& state.inferior is None ==> {
                &&& step.state.phase == PhaseView::Finished
                &&& step.request == RequestView::Exit(false)
                &&& step.output == "you have to run before continue"@
            }
            &&& state.inferior is Some ==> {
                &&& step.state.phase == PhaseView::Inspecting
                &&& step.request == RequestView::ReadRip
                &&& step.output.len() == 0
                &&& same_but_phase(state, on.state)
                &&& on.output.len() == 0
                &&& !state.break_points.contains_key(rip) ==> {
                    &&& on.state.phase == PhaseView::Resuming
                    &&& on.request == RequestView::Resume
                }
                &&& state.break_points.contains_key(rip) ==> {
                    &&& on.state.phase == PhaseView::Stepping(rip)
                    &&& on.request == RequestView::Step
                }
            }
        }),
{
    let step = state.next(EventView::Parsed(None, Some(CommandView::Continue)));
    assert(state.inferior is None ==> step.output =~= "you have to run before continue"@);
}

/// After the step off a breakpoint its trap is written again and the inferior
/// runs, if the step ended as steps do. Another signal is told, and the
/// inferior runs. An exit is told, and the debugger is left.
pub proof fn lemma_step_off_a_break_point(
    state: DebuggerView,
    addr: usize,
    signal: Seq<char>,
    rip: usize,
    code: i32,
    byte: u8,
)
    requires
        state.phase == PhaseView::Stepping(addr),
    ensures
        ({
            let stopped = state.next(EventView::Stepped(StatusView::Stopped(signal, rip)));
            let rearmed = stopped.state.next(EventView::ByteWritten(byte));
            let exited = state.next(EventView::Stepped(StatusView::Exited(code)));
            let ended = state.next(EventView::Stepped(StatusView::Signaled(signal)));
            &&& same_but_phase(state, stopped.state)
            &&& same_but_phase(state, exited.state)
            &&& same_but_phase(state, ended.state)
            &&& signal == "SIGTRAP"@ ==> {
                &&& stopped.output.len() == 0
                &&& stopped.state.phase == PhaseView::Rearming(addr)
                &&& stopped.request == RequestView::WriteByte(addr, 0xcc)
                &&& same_but_phase(state, rearmed.state)
                &&& rearmed.output.len() == 0
                &&& rearmed.state.phase == PhaseView::Resuming
                &&& rearmed.request == RequestView::Resume
            }
            &&& signal != "SIGTRAP"@ ==> {
                &&& stopped.output == signal + "\n"@
                &&& stopped.state.phase == PhaseView::Resuming
                &&& stopped.request == RequestView::Resume
            }
            &&& exited.output == "Child exited (status "@ + decimal(code as int) + ")\n"@
            &&& exited.state.phase == PhaseView::Finished
            &&& exited.request == RequestView::Exit(false)
            &&& ended.output == "111\n"@
            &&& ended.state.phase == PhaseView::Resuming
            &&& ended.request == RequestView::Resume
        }),
{
}

/// The frames of a call stack, from the innermost on: the saved instruction
/// pointer of the next lies one word behind its saved frame pointer.
pub open spec fn frame(
    stack: spec_fn(usize) -> usize,
    rip: usize,
    rbp: usize,
    depth: int,
) -> (usize, usize)
    decreases depth,
{
    if depth <= 0 {
        (rip, rbp)
    } else {
        let inner = frame(stack, rip, rbp, depth - 1);
        (stack((inner.1 + 8) as usize), stack(inner.1))
    }
}

/// Whether a frame that was asked for was read from the registers or from the
/// stack, as it was asked for.
pub open spec fn read_truly(
    request: RequestView,
    event: EventView,
    stack: spec_fn(usize) -> usize,
    rip: usize,
    rbp: usize,
) -> bool {
    match request {
        RequestView::ReadRegisters => event == EventView::Frame(rip, rbp),
        RequestView::ReadFrame(rip_at, rbp_at) => event == EventView::Frame(
            stack(rip_at),
            stack(rbp_at),
        ),
        _ => true,
    }
}

/// Whether an event names the function that a backtrace ends with.
pub open spec fn names_main(event: EventView) -> bool {
    event matches EventView::Located(_, Some(function)) && function == "main"@
}

/// The law of the backtrace: from the command on, the frames of the call stack
/// are looked up one by one, each at its own instruction pointer. Each is shown
/// by its place, up to the first in `main`. Then the prompt is back, and
/// nothing has changed.
pub proof fn lemma_backtrace(
    state: DebuggerView,
    steps: Seq<StepView>,
    events: Seq<EventView>,
    stack: spec_fn(usize) -> usize,
    rip: usize,
    rbp: usize,
    depth: int,
)
    requires
        depth >= 0,
        state.phase == PhaseView::Parsing,
        course(steps, events),
        steps[0] == state.next(EventView::Parsed(None, Some(CommandView::BackTrace))),
        forall|i: int|
            0 <= i < events.len() ==> read_truly(
                (#[trigger] steps[i]).request,
                events[i],
                stack,
                rip,
                rbp,
            ),
        forall|i: int| 0 <= i < 2 * depth ==> !names_main(#[trigger] events[i]),
        2 * depth < events.len(),
    ensures
        steps[0].output.len() == 0,
        same_but_phase(state, steps[2 * depth + 1].state),
        steps[2 * depth + 1].state.phase == PhaseView::Naming(frame(stack, rip, rbp, depth).1),
        steps[2 * depth + 1].request == RequestView::Locate(frame(stack, rip, rbp, depth).0),
        steps[2 * depth + 1].output.len() == 0,
        2 * depth + 1 < events.len() ==> {
            let shown = steps[2 * depth + 2];
            &&& events[2 * depth + 1] matches EventView::Located(Some(line), Some(function))
            &&& shown.output == place_notice(line, function)
            &&& function == "main"@ ==> back_to_prompt(state, shown, shown.output)
            &&& function != "main"@ ==> {
                &&& same_but_phase(state, shown.state)
                &&& shown.state.phase == PhaseView::Unwinding
                &&& shown.request == RequestView::ReadFrame(
                    (frame(stack, rip, rbp, depth).1 + 8) as usize,
                    frame(stack, rip, rbp, depth).1,
                )
            }
        },
    decreases depth,
{
    let at = 2 * depth;
    lemma_backtrace_command(state);
    if depth > 0 {
        assert(!names_main(events[at - 1]));
        lemma_backtrace(state, steps, events, stack, rip, rbp, depth - 1);
    }
    assert(leads_to(steps[at], events[at], steps[at + 1]));
    assert(read_truly(steps[at].request, events[at], stack, rip, rbp));
    let (frame_rip, frame_rbp) = frame(stack, rip, rbp, depth);
    assert(events[at] == EventView::Frame(frame_rip, frame_rbp));
    lemma_frame_is_looked_up(steps[at].state, frame_rip, frame_rbp);
    assert(steps[at + 1] == steps[at].state.next(events[at])) by {
        reveal(leads_to);
    }
    if at + 1 < events.len() {
        assert(leads_to(steps[at + 1], events[at + 1], steps[at + 1 + 1]));
        lemma_frame_is_shown(steps[at + 1], frame_rbp, events[at + 1], steps[at + 2]);
    }
}

/// The backtrace starts from the registers.
pub proof fn lemma_backtrace_command(state: DebuggerView)
    requires
        state.phase == PhaseView::Parsing,
    ensures
        ({
            let step = state.next(EventView::Parsed(None, Some(CommandView::BackTrace)));
            &&& same_but_phase(state, step.state)
            &&& step.state.phase == PhaseView::Unwinding
            &&& step.request == RequestView::ReadRegisters
            &&& step.output.len() == 0
        }),
{
}

/// A frame is shown by its place. One in `main` is the last. Of any other the
/// saved instruction pointer and the saved frame pointer are asked for, which
/// lie where its frame pointer points.
pub proof fn lemma_frame_is_shown(
    naming: StepView,
    rbp: usize,
    event: EventView,
    shown: StepView,
)
    requires
        naming.state.phase == PhaseView::Naming(rbp),
        leads_to(naming, event, shown),
    ensures
        event matches EventView::Located(Some(line), Some(function)) && {
            &&& shown.output == place_notice(line, function)
            &&& function == "main"@ ==> back_to_prompt(naming.state, shown, shown.output)
            &&& function != "main"@ ==> {
                &&& same_but_phase(naming.state, shown.state)
                &&& shown.state.phase == PhaseView::Unwinding
                &&& shown.request == RequestView::ReadFrame((rbp + 8) as usize, rbp)
            }
        },
{
    reveal(leads_to);
    if let EventView::Located(Some(line), Some(function)) = event {
        assert(shown.output =~= place_notice(line, function));
    }
}

/// A frame is looked up at its own instruction pointer, and its frame pointer
/// is kept for the next.
pub proof fn lemma_frame_is_looked_up(state: DebuggerView, rip: usize, rbp: usize)
    requires
        state.phase == PhaseView::Unwinding,
    ensures
        same_but_phase(state, state.next(EventView::Frame(rip, rbp)).state),
        state.next(EventView::Frame(rip, rbp)).state.phase == PhaseView::Naming(rbp),
        state.next(EventView::Frame(rip, rbp)).request == RequestView::Locate(rip),
        state.next(EventView::Frame(rip, rbp)).output.len() == 0,
{
}

/// The target and the place of the history never change. The inferior changes
/// only when a target has started, the prepared breakpoints only by one that is
/// wanted before there is an inferior, and the records only when a trap was
/// written.
pub proof fn lemma_what_changes(state: DebuggerView, event: EventView)
    requires
        state.accepts(event),
    ensures
        state.next(event).state.target == state.target,
        state.next(event).state.history_path == state.history_path,
        state.next(event).state.inferior == match event {
            EventView::Launched(Some(child_id)) => Some(Inferior { child_id }),
            _ => state.inferior,
        },
        state.inferior is Some || (forall|addr: usize| !#[trigger] wanted_at(state, event, addr))
            ==> state.next(event).state.pre_installed == state.pre_installed,
        !(state.phase is Installing || state.phase is Adding) ==> state.next(
            event,
        ).state.break_points == state.break_points,
{
    if state.next(event).state.pre_installed != state.pre_installed {
        let addr = state.next(event).state.pre_installed.last();
        assert(wanted_at(state, event, addr));
    }
}

/// Whether an event is of the kind that answers a request.
pub open spec fn answers(request: RequestView, event: EventView) -> bool {
    match request {
        RequestView::ReadLine => event is Interrupted || event is EndOfInput || event is Entered,
        RequestView::Parse(_, _) => event is Parsed,
        RequestView::Launch(_, _) => event is Launched,
        RequestView::WriteByte(_, _) => event is ByteWritten,
        RequestView::ShowBreakPoints => event is Shown,
        RequestView::Resume => event is Resumed,
        RequestView::Step => event is Stepped,
        RequestView::Locate(_) => event is Located,
        RequestView::SetRip(_) => event is RipSet,
        RequestView::ReadRip => event is Rip,
        RequestView::ReadRegisters => event is Frame,
        RequestView::ReadFrame(_, _) => event is Frame,
        RequestView::FindLine(_) => event is Address,
        RequestView::FindFunction(_) => event is Address,
        RequestView::Exit(_) => false,
    }
}

/// Whether an event tells of something that the debugger cannot go on from: a
/// stop at address zero, a backtrace without an inferior, a frame without a
/// line or a function, or one at the end of the address space.
pub open spec fn hopeless(state: DebuggerView, event: EventView) -> bool {
    match event {
        EventView::Resumed(Some(StatusView::Stopped(_, rip))) => rip == 0,
        EventView::Parsed(_, Some(CommandView::BackTrace)) => state.inferior is None,
        EventView::Located(line, function) => state.phase matches PhaseView::Naming(rbp) && (line
            is None || function is None || function != Some("main"@) && rbp + 8 > usize::MAX),
        _ => false,
    }
}

/// What the debugger accepts is what answers its request, unless it cannot go
/// on from it.
pub proof fn lemma_answers_are_accepted(world: World, event: EventView)
    requires
        has_asked(world),
    ensures
        world.state.accepts(event) <==> answers(world.request, event) && !hopeless(
            world.state,
            event,
        ),
{
}

} // verus!
