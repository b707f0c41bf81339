use cs110l::debugger::{find_target, write_place, BreakTarget, Debugger, SymbolError};
use cs110l::inferior::{Inferior, Signal, Status};
use cs110l::protocol::{DebuggerCommand, Event, Line, Reply, Request};

fn debugger() -> Debugger {
    Debugger::new("prog", "/home/me", Ok(())).unwrap()
}

fn signal(name: &str) -> Signal {
    Signal { name: name.to_string() }
}

/// Takes a step, and shows what was said and asked for.
fn step(d: &mut Debugger, event: Event) -> (String, String) {
    assert!(d.accepts(&event), "{:?} in {:?}", event, d.phase);
    let Reply { output, request } = d.run(event);
    (output, format!("{:?}", request))
}

fn asks(d: &mut Debugger, event: Event, request: &str) {
    assert_eq!(step(d, event), (String::new(), request.to_string()));
}

fn says(d: &mut Debugger, event: Event, output: &str, request: &str) {
    assert_eq!(step(d, event), (output.to_string(), request.to_string()));
}

fn command(c: DebuggerCommand) -> Event {
    Event::Parsed(None, Some(c))
}

/// Enters a line that stands for a command.
fn enter(d: &mut Debugger) {
    step(d, Event::Entered("x".to_string()));
}

fn set_break(d: &mut Debugger, text: &str, output: &str, request: &str) {
    enter(d);
    says(d, command(DebuggerCommand::Break(text.to_string())), output, request);
}

/// A debugger whose inferior has stopped, with a breakpoint at 0x1000.
fn stopped() -> Debugger {
    let mut d = debugger();
    set_break(&mut d, "*0x1000", "Set breakpoint 0 at 0x1000\n", "ReadLine");
    enter(&mut d);
    asks(&mut d, command(DebuggerCommand::Run(vec![])), "Launch(false, [])");
    asks(&mut d, Event::Launched(Some(7)), "WriteByte(4096, 204)");
    asks(&mut d, Event::ByteWritten(0x55), "ShowBreakPoints");
    asks(&mut d, Event::Shown, "Resume");
    says(
        &mut d,
        Event::Resumed(Some(Status::Stopped(signal("SIGTRAP"), 0x1001))),
        "Child stopped (status SIGTRAP)\n",
        "Locate(4097)",
    );
    d
}

fn location() -> Event {
    Event::Located(
        Some(Line { file: "a\"b.c".to_string(), number: 12 }),
        Some("f".to_string()),
    )
}

/// A debugger at the prompt, behind a stop at the breakpoint at 0x1000.
fn at_break_point() -> Debugger {
    let mut d = stopped();
    says(
        &mut d,
        location(),
        "\"f\"(\"a\\\"b.c\":12)\nrip:0x1001\n",
        "WriteByte(4096, 85)",
    );
    asks(&mut d, Event::ByteWritten(0xcc), "SetRip(4096)");
    asks(&mut d, Event::RipSet, "ReadLine");
    d
}

#[test]
fn a_debugger_starts_at_the_prompt() {
    let d = debugger();
    assert_eq!(d.target, "prog");
    assert_eq!(d.history_path, "/home/me/.deet_history");
    assert!(d.inferior.is_none());
    assert!(d.pre_installed_break_points.is_empty());
    assert!(d.break_points.is_empty());
    assert_eq!(format!("{:?}", d.phase), "Prompting");
}

#[test]
fn a_target_without_symbols_is_refused() {
    let refused = Debugger::new("prog", "/", Err(SymbolError::ErrorOpeningFile));
    assert_eq!(refused.err().unwrap(), "Could not open file prog\n");
    let error = SymbolError::DwarfFormatError("Bad".to_string());
    let refused = Debugger::new("prog", "/", Err(error));
    assert_eq!(refused.err().unwrap(), "Could not debugging symbols from prog: Bad\n");
}

#[test]
fn lines_are_read_until_one_is_a_command() {
    let mut d = debugger();
    says(&mut d, Event::Interrupted, "Type \"quit\" to exit\n", "ReadLine");
    asks(&mut d, Event::Entered(" \t".to_string()), "ReadLine");
    asks(
        &mut d,
        Event::Entered(" run  a b ".to_string()),
        "Parse(\" run  a b \", [\"run\", \"a\", \"b\"])",
    );
    says(
        &mut d,
        Event::Parsed(Some("disk full".to_string()), None),
        "Warning: failed to save history file at /home/me/.deet_history: disk full\n\
         Unrecognized command.\n",
        "ReadLine",
    );
    enter(&mut d);
    says(&mut d, Event::Parsed(None, None), "Unrecognized command.\n", "ReadLine");
}

#[test]
fn leaving_kills_the_inferior() {
    asks(&mut debugger(), Event::EndOfInput, "Exit(false)");
    let notice = "Killing running inferior (pid 7)\n";
    says(&mut at_break_point(), Event::EndOfInput, notice, "Exit(true)");
    let mut d = at_break_point();
    enter(&mut d);
    says(&mut d, command(DebuggerCommand::Quit), notice, "Exit(true)");
}

#[test]
fn running_again_kills_the_inferior_and_installs_the_breakpoints() {
    let mut d = at_break_point();
    enter(&mut d);
    says(
        &mut d,
        command(DebuggerCommand::Run(vec!["x".to_string()])),
        "Killing running inferior (pid 7)\n",
        "Launch(true, [\"x\"])",
    );
    asks(&mut d, Event::Launched(Some(8)), "WriteByte(4096, 204)");
    assert_eq!(d.inferior.map(|inferior: Inferior| inferior.child_id), Some(8));
    asks(&mut d, Event::ByteWritten(0x55), "ShowBreakPoints");
}

#[test]
fn a_target_that_does_not_start_is_reported() {
    let mut d = debugger();
    enter(&mut d);
    asks(&mut d, command(DebuggerCommand::Run(vec![])), "Launch(false, [])");
    says(&mut d, Event::Launched(None), "Error starting subprocess\n", "ReadLine");
}

#[test]
fn all_prepared_breakpoints_are_installed() {
    let mut d = debugger();
    set_break(&mut d, "*10", "Set breakpoint 0 at 0x10\n", "ReadLine");
    set_break(&mut d, "*20", "Set breakpoint 1 at 0x20\n", "ReadLine");
    enter(&mut d);
    asks(&mut d, command(DebuggerCommand::Run(vec![])), "Launch(false, [])");
    asks(&mut d, Event::Launched(Some(1)), "WriteByte(16, 204)");
    asks(&mut d, Event::ByteWritten(1), "WriteByte(32, 204)");
    asks(&mut d, Event::ByteWritten(2), "ShowBreakPoints");
    assert_eq!((d.break_points[&16].addr, d.break_points[&16].orig_byte), (16, 1));
    assert_eq!((d.break_points[&32].addr, d.break_points[&32].orig_byte), (32, 2));
}

#[test]
fn a_breakpoint_that_is_prepared_twice_records_the_trap() {
    let mut d = debugger();
    set_break(&mut d, "*10", "Set breakpoint 0 at 0x10\n", "ReadLine");
    set_break(&mut d, "*10", "Set breakpoint 1 at 0x10\n", "ReadLine");
    enter(&mut d);
    asks(&mut d, command(DebuggerCommand::Run(vec![])), "Launch(false, [])");
    asks(&mut d, Event::Launched(Some(1)), "WriteByte(16, 204)");
    asks(&mut d, Event::ByteWritten(1), "WriteByte(16, 204)");
    asks(&mut d, Event::ByteWritten(0xcc), "ShowBreakPoints");
    assert_eq!(d.break_points[&16].orig_byte, 0xcc);
}

#[test]
fn breakpoints_are_found_by_address_line_and_function() {
    let at = |text: &str| find_target(&text.to_string());
    assert!(matches!(at("*0x1F"), BreakTarget::Address(Some(31))));
    assert!(matches!(at("*main"), BreakTarget::Address(None)));
    assert!(matches!(at("*"), BreakTarget::Address(None)));
    assert!(matches!(at("15"), BreakTarget::Line(15)));
    assert!(matches!(at("main"), BreakTarget::Function));
    assert!(matches!(at(""), BreakTarget::Function));
}

#[test]
fn breakpoints_are_looked_up() {
    let mut d = debugger();
    set_break(&mut d, "15", "", "FindLine(15)");
    says(&mut d, Event::Address(Some(256)), "Set breakpoint 0 at 0x100\n", "ReadLine");
    set_break(&mut d, "func", "", "FindFunction(\"func\")");
    says(&mut d, Event::Address(None), "invalid breakpoint func\n", "ReadLine");
    set_break(&mut d, "*zz", "invalid breakpoint *zz\n", "ReadLine");
    assert_eq!(d.pre_installed_break_points, vec![256]);
}

#[test]
fn a_running_inferior_gets_a_breakpoint_at_once() {
    let mut d = at_break_point();
    set_break(&mut d, "*0x2000", "Set breakpoint 1 at 0x2000\n", "WriteByte(8192, 204)");
    asks(&mut d, Event::ByteWritten(0x90), "ReadLine");
    assert_eq!(d.break_points[&0x2000].orig_byte, 0x90);
    assert_eq!(d.pre_installed_break_points, vec![0x1000]);
    set_break(&mut d, "*0x2000", "Set breakpoint 1 at 0x2000\n", "ReadLine");
}

#[test]
fn a_stop_at_a_breakpoint_takes_the_trap_away() {
    let d = at_break_point();
    assert_eq!(d.break_points[&0x1000].orig_byte, 0x55);
}

#[test]
fn a_stop_elsewhere_leaves_memory_alone() {
    let mut d = at_break_point();
    enter(&mut d);
    asks(&mut d, command(DebuggerCommand::Continue), "ReadRip");
    asks(&mut d, Event::Rip(0x3000), "Resume");
    says(
        &mut d,
        Event::Resumed(Some(Status::Stopped(signal("SIGSEGV"), 0x4000))),
        "Child stopped (status SIGSEGV)\n",
        "Locate(16384)",
    );
    asks(&mut d, Event::Located(None, Some("f".to_string())), "ReadLine");
}

#[test]
fn going_on_from_a_breakpoint_puts_the_trap_back() {
    let mut d = at_break_point();
    enter(&mut d);
    asks(&mut d, command(DebuggerCommand::Continue), "ReadRip");
    asks(&mut d, Event::Rip(0x1000), "Step");
    asks(
        &mut d,
        Event::Stepped(Status::Stopped(signal("SIGTRAP"), 0x1003)),
        "WriteByte(4096, 204)",
    );
    asks(&mut d, Event::ByteWritten(0x55), "Resume");
    says(
        &mut d,
        Event::Resumed(Some(Status::Exited(-3))),
        "Child exited (status -3)\n",
        "ReadLine",
    );
}

#[test]
fn a_step_can_end_otherwise() {
    let at_step = || {
        let mut d = at_break_point();
        enter(&mut d);
        asks(&mut d, command(DebuggerCommand::Continue), "ReadRip");
        asks(&mut d, Event::Rip(0x1000), "Step");
        d
    };
    let status = Status::Stopped(signal("SIGSEGV"), 0x1000);
    says(&mut at_step(), Event::Stepped(status), "SIGSEGV\n", "Resume");
    let status = Status::Signaled(signal("SIGKILL"));
    says(&mut at_step(), Event::Stepped(status), "111\n", "Resume");
    let status = Status::Exited(0);
    says(&mut at_step(), Event::Stepped(status), "Child exited (status 0)\n", "Exit(false)");
}

#[test]
fn a_run_can_end_without_a_word() {
    let running = || {
        let mut d = at_break_point();
        enter(&mut d);
        asks(&mut d, command(DebuggerCommand::Continue), "ReadRip");
        asks(&mut d, Event::Rip(0), "Resume");
        d
    };
    asks(&mut running(), Event::Resumed(None), "ReadLine");
    let status = Status::Signaled(signal("SIGKILL"));
    asks(&mut running(), Event::Resumed(Some(status)), "ReadLine");
}

#[test]
fn going_on_needs_an_inferior() {
    let mut d = debugger();
    enter(&mut d);
    says(
        &mut d,
        command(DebuggerCommand::Continue),
        "you have to run before continue",
        "Exit(false)",
    );
}

#[test]
fn the_stack_is_shown_up_to_main() {
    let mut d = at_break_point();
    enter(&mut d);
    asks(&mut d, command(DebuggerCommand::BackTrace), "ReadRegisters");
    asks(&mut d, Event::Frame(0x1000, 0x7000), "Locate(4096)");
    says(&mut d, location(), "\"f\"(\"a\\\"b.c\":12)\n", "ReadFrame(28680, 28672)");
    asks(&mut d, Event::Frame(0x1500, 0x7100), "Locate(5376)");
    says(
        &mut d,
        Event::Located(
            Some(Line { file: "a.c".to_string(), number: 3 }),
            Some("main".to_string()),
        ),
        "\"main\"(\"a.c\":3)\n",
        "ReadLine",
    );
}

#[test]
fn what_cannot_be_answered_is_not_accepted() {
    let mut d = debugger();
    assert!(!d.accepts(&Event::RipSet));
    enter(&mut d);
    assert!(!d.accepts(&command(DebuggerCommand::BackTrace)));

    let mut d = at_break_point();
    enter(&mut d);
    asks(&mut d, command(DebuggerCommand::BackTrace), "ReadRegisters");
    asks(&mut d, Event::Frame(0x1000, usize::MAX), "Locate(4096)");
    assert!(!d.accepts(&Event::Located(None, Some("f".to_string()))));
    assert!(!d.accepts(&location()));

    let mut d = at_break_point();
    enter(&mut d);
    asks(&mut d, command(DebuggerCommand::Continue), "ReadRip");
    asks(&mut d, Event::Rip(0), "Resume");
    assert!(!d.accepts(&Event::Resumed(Some(Status::Stopped(signal("SIGTRAP"), 0)))));
}

#[test]
fn a_place_is_shown_with_its_line() {
    let shown = write_place(&"f".to_string(), &"a.c".to_string(), 12);
    assert_eq!(shown, "f(a.c:12)\n");
}

/// Takes a step. Writes that it leads to are made in a memory, up to the first
/// other request, which is shown.
fn run_in(d: &mut Debugger, memory: &mut [u8], event: Event) -> String {
    assert!(d.accepts(&event));
    let mut reply = d.run(event);
    while let Request::WriteByte(addr, val) = reply.request {
        let orig_byte = memory[addr];
        memory[addr] = val;
        reply = d.run(Event::ByteWritten(orig_byte));
    }
    format!("{:?}", reply.request)
}

#[test]
fn all_traps_are_in_memory_when_the_target_is_first_let_run() {
    let mut d = debugger();
    let mut memory = [1, 2, 3, 4, 5];
    set_break(&mut d, "*1", "Set breakpoint 0 at 0x1\n", "ReadLine");
    set_break(&mut d, "*3", "Set breakpoint 1 at 0x3\n", "ReadLine");
    enter(&mut d);
    step(&mut d, command(DebuggerCommand::Run(vec![])));
    assert_eq!(run_in(&mut d, &mut memory, Event::Launched(Some(1))), "ShowBreakPoints");
    assert_eq!(memory, [1, 0xcc, 3, 0xcc, 5]);
    assert_eq!(run_in(&mut d, &mut memory, Event::Shown), "Resume");
    assert_eq!(memory, [1, 0xcc, 3, 0xcc, 5]);
    assert_eq!((d.break_points[&1].orig_byte, d.break_points[&3].orig_byte), (2, 4));
}

#[test]
fn adding_a_breakpoint_again_changes_nothing() {
    let mut d = at_break_point();
    let mut memory = [1, 2, 3, 4, 5];
    for _ in 0..2 {
        enter(&mut d);
        let add = command(DebuggerCommand::Break("*3".to_string()));
        assert_eq!(run_in(&mut d, &mut memory, add), "ReadLine");
        assert_eq!(memory, [1, 2, 3, 0xcc, 5]);
        assert_eq!(d.break_points[&3].orig_byte, 4);
        assert_eq!(d.break_points[&0x1000].orig_byte, 0x55);
        assert_eq!(d.break_points.len(), 2);
        assert_eq!(d.pre_installed_break_points, vec![0x1000]);
    }
    enter(&mut d);
    step(&mut d, command(DebuggerCommand::Break("f".to_string())));
    assert_eq!(run_in(&mut d, &mut memory, Event::Address(Some(3))), "ReadLine");
    assert_eq!(memory, [1, 2, 3, 0xcc, 5]);
    assert_eq!(d.break_points[&3].orig_byte, 4);
}

#[test]
fn the_code_is_restored_while_the_program_writes_elsewhere() {
    let mut d = debugger();
    let mut memory = [1, 2, 3, 4, 5];
    set_break(&mut d, "*1", "Set breakpoint 0 at 0x1\n", "ReadLine");
    enter(&mut d);
    step(&mut d, command(DebuggerCommand::Run(vec![])));
    run_in(&mut d, &mut memory, Event::Launched(Some(1)));
    run_in(&mut d, &mut memory, Event::Shown);
    memory[4] = 9;
    step(&mut d, Event::Resumed(Some(Status::Stopped(signal("SIGTRAP"), 2))));
    assert_eq!(run_in(&mut d, &mut memory, location()), "SetRip(1)");
    assert_eq!(memory, [1, 2, 3, 4, 9]);
}
