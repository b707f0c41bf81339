//! What breakpoints do to the memory of the inferior.

use vstd::prelude::*;

use crate::debugger::{
    break_target, first_state, Breakpoint, DebuggerView, PhaseView, TargetView, TRAP_INSTRUCTION,
};
use crate::inferior::{trap, with_byte, Memory, StatusView};
use crate::protocol::{CommandView, EventView, RequestView};

verus! {

/// A debugger, what it has asked for, and the memory of its inferior.
pub ghost struct World {
    pub state: DebuggerView,
    pub request: RequestView,
    pub memory: Memory,
}

/// A program: the memory that it starts with, and the addresses that it never
/// writes itself, such as those of its code.
pub ghost struct Program {
    pub image: Memory,
    pub code: Set<int>,
}

/// Whether two memories are the same at some addresses.
pub open spec fn agree(addresses: Set<int>, one: Memory, other: Memory) -> bool {
    forall|a: int| addresses.contains(a) ==> #[trigger] one(a) == other(a)
}

/// How memory can change while a request is answered by an event. A started
/// target has its image at the addresses that it does not write. A byte that
/// the debugger writes is reported as it stood before, and no other changes.
/// While the inferior runs, it can write all but its code. Nothing else
/// changes memory.
pub open spec fn answered(
    request: RequestView,
    memory: Memory,
    event: EventView,
    after: Memory,
    program: Program,
) -> bool {
    match (request, event) {
        (RequestView::WriteByte(addr, val), EventView::ByteWritten(byte)) => {
            &&& byte == memory(addr as int)
            &&& after == with_byte(memory, addr as int, val)
        },
        (RequestView::Launch(_, _), EventView::Launched(Some(_))) => agree(
            program.code,
            after,
            program.image,
        ),
        (RequestView::Resume, _) => agree(program.code, after, memory),
        (RequestView::Step, _) => agree(program.code, after, memory),
        _ => after == memory,
    }
}

/// Whether an event leads from one world to another.
pub open spec fn happens(world: World, event: EventView, after: World, program: Program) -> bool {
    &&& world.state.accepts(event)
    &&& after.state == world.state.next(event).state
    &&& after.request == world.state.next(event).request
    &&& answered(world.request, world.memory, event, after.memory, program)
}

/// Whether what was asked for is what the phase waits for.
pub open spec fn has_asked(world: World) -> bool {
    let state = world.state;
    match state.phase {
        PhaseView::Prompting => world.request == RequestView::ReadLine,
        PhaseView::Parsing => world.request is Parse,
        PhaseView::Launching => world.request is Launch,
        PhaseView::Installing(index) => world.request == RequestView::WriteByte(
            state.pre_installed[index],
            TRAP_INSTRUCTION,
        ),
        PhaseView::Showing => world.request == RequestView::ShowBreakPoints,
        PhaseView::Resuming => world.request == RequestView::Resume,
        PhaseView::Reporting(rip) => world.request == RequestView::Locate(rip),
        PhaseView::Restoring(addr) => {
            &&& state.break_points.contains_key(addr)
            &&& world.request == RequestView::WriteByte(addr, state.break_points[addr].orig_byte)
        },
        PhaseView::Rewinding => world.request is SetRip,
        PhaseView::Inspecting => world.request == RequestView::ReadRip,
        PhaseView::Stepping(addr) => {
            &&& state.break_points.contains_key(addr)
            &&& world.request == RequestView::Step
        },
        PhaseView::Rearming(addr) => {
            &&& state.break_points.contains_key(addr)
            &&& world.request == RequestView::WriteByte(addr, TRAP_INSTRUCTION)
        },
        PhaseView::Unwinding => world.request is ReadRegisters || world.request is ReadFrame,
        PhaseView::Naming(_) => world.request is Locate,
        PhaseView::Resolving(_) => world.request is FindLine || world.request is FindFunction,
        PhaseView::Adding(addr) => {
            &&& !state.break_points.contains_key(addr)
            &&& world.request == RequestView::WriteByte(addr, TRAP_INSTRUCTION)
        },
        PhaseView::Finished => world.request is Exit,
    }
}

/// Whether every breakpoint in the program's code has kept the byte of the
/// program's image.
pub open spec fn keeps_bytes(state: DebuggerView, program: Program) -> bool {
    forall|addr: usize| #[trigger]
        state.break_points.contains_key(addr) && program.code.contains(addr as int)
            ==> state.break_points[addr].orig_byte == (program.image)(addr as int)
}

/// Whether a byte of the program's code is the image's, or a trap at a
/// breakpoint.
pub open spec fn byte_accounted_for(world: World, program: Program, addr: usize) -> bool {
    program.code.contains(addr as int) ==> {
        ||| (world.memory)(addr as int) == (program.image)(addr as int)
        ||| (world.memory)(addr as int) == TRAP_INSTRUCTION
            && world.state.break_points.contains_key(addr)
    }
}

/// The invariant of breakpoints in the program's code: each has kept the byte
/// of the program's image, and memory differs from the image only by traps at
/// breakpoints.
pub open spec fn code_is_safe(world: World, program: Program) -> bool {
    &&& world.state.wf()
    &&& has_asked(world)
    &&& world.state.pre_installed.no_duplicates()
    &&& keeps_bytes(world.state, program)
    &&& world.state.inferior is Some ==> forall|addr: usize| #[trigger]
        byte_accounted_for(world, program, addr)
    &&& world.state.phase matches PhaseView::Installing(index) ==> forall|i: int|
        index <= i < world.state.pre_installed.len() && program.code.contains(
            #[trigger] world.state.pre_installed[i] as int,
        ) ==> (world.memory)(world.state.pre_installed[i] as int) == (program.image)(
            world.state.pre_installed[i] as int,
        )
}

/// Whether all prepared breakpoints below an index have their traps in memory.
pub open spec fn traps_below(world: World, index: int) -> bool {
    forall|i: int|
        0 <= i < index ==> (world.memory)(#[trigger] world.state.pre_installed[i] as int)
            == TRAP_INSTRUCTION
}

/// Whether the prepared breakpoints have their traps in memory, as far as the
/// start of the target has come.
pub open spec fn prepared_are_trapped(world: World) -> bool {
    match world.state.phase {
        PhaseView::Installing(index) => traps_below(world, index),
        PhaseView::Showing => traps_below(world, world.state.pre_installed.len() as int),
        _ => true,
    }
}

/// Whether the prepared breakpoints are on record, as far as the start of the
/// target has come.
pub open spec fn prepared_are_recorded(state: DebuggerView) -> bool {
    match state.phase {
        PhaseView::Installing(index) => forall|i: int|
            0 <= i < index ==> state.break_points.contains_key(#[trigger] state.pre_installed[i]),
        _ => state.inferior is Some ==> forall|i: int|
            0 <= i < state.pre_installed.len() ==> state.break_points.contains_key(
                #[trigger] state.pre_installed[i],
            ),
    }
}

/// A new debugger has asked for nothing but a line. The code is safe from it,
/// and all its prepared breakpoints are recorded and trapped, for it has none.
pub proof fn lemma_first_state_is_safe(
    target: Seq<char>,
    home: Seq<char>,
    world: World,
    program: Program,
)
    requires
        world.state == first_state(target, home),
        world.request == RequestView::ReadLine,
    ensures
        code_is_safe(world, program),
        prepared_are_trapped(world),
        prepared_are_recorded(world.state),
{
}

/// Every step asks for what the phase it leads to waits for.
pub proof fn lemma_steps_ask(world: World, event: EventView, after: World, program: Program)
    requires
        world.state.wf(),
        has_asked(world),
        happens(world, event, after, program),
    ensures
        after.state.wf(),
        has_asked(after),
{
}

/// Every step keeps the code safe, unless it prepares a breakpoint twice.
pub proof fn lemma_code_stays_safe(world: World, event: EventView, after: World, program: Program)
    requires
        code_is_safe(world, program),
        happens(world, event, after, program),
        after.state.pre_installed.no_duplicates(),
    ensures
        code_is_safe(after, program),
{
    let image = program.image;
    let old_points = world.state.break_points;
    let new_points = after.state.break_points;
    let pre = world.state.pre_installed;
    lemma_steps_ask(world, event, after, program);
    if world.state.inferior is Some {
        assert forall|addr: usize| #[trigger] byte_accounted_for(after, program, addr) by {
            assert(byte_accounted_for(world, program, addr));
        }
    }
    match world.state.phase {
        PhaseView::Installing(index) => {
            let at = pre[index];
            assert(new_points =~= old_points.insert(
                at,
                Breakpoint { addr: at, orig_byte: (world.memory)(at as int) },
            ));
            assert forall|i: int|
                index < i < pre.len() && program.code.contains(
                    #[trigger] pre[i] as int,
                ) implies (after.memory)(pre[i] as int) == image(pre[i] as int) by {
                assert(pre[i] != pre[index]);
            }
        },
        PhaseView::Adding(at) => {
            assert(byte_accounted_for(world, program, at));
            assert(new_points =~= old_points.insert(
                at,
                Breakpoint { addr: at, orig_byte: (world.memory)(at as int) },
            ));
        },
        _ => {},
    }
}

/// Every step keeps the traps of the prepared breakpoints, as far as the start
/// of the target has come. When the target is first let run, all of them are
/// in memory.
pub proof fn lemma_prepared_stay_trapped(
    world: World,
    event: EventView,
    after: World,
    program: Program,
)
    requires
        world.state.wf(),
        has_asked(world),
        prepared_are_trapped(world),
        happens(world, event, after, program),
    ensures
        prepared_are_trapped(after),
        world.state.phase is Showing ==> {
            &&& after.state.phase is Resuming
            &&& after.request == RequestView::Resume
            &&& traps_below(after, after.state.pre_installed.len() as int)
        },
{
}

/// Every step keeps the prepared breakpoints on record. So there is a record
/// of each of them whenever the inferior runs.
pub proof fn lemma_prepared_stay_recorded(state: DebuggerView, event: EventView)
    requires
        state.wf(),
        state.accepts(event),
        prepared_are_recorded(state),
    ensures
        prepared_are_recorded(state.next(event).state),
{
    let after = state.next(event).state;
    match state.phase {
        PhaseView::Installing(index) => {
            assert forall|i: int| 0 <= i < index + 1 implies after.break_points.contains_key(
                #[trigger] state.pre_installed[i],
            ) by {
            }
        },
        _ => {},
    }
}

/// No step forgets a prepared breakpoint: they are only ever added, behind the
/// ones that there are.
pub proof fn lemma_prepared_only_grow(state: DebuggerView, event: EventView)
    ensures
        state.pre_installed.is_prefix_of(state.next(event).state.pre_installed),
{
    let before = state.pre_installed;
    let after = state.next(event).state.pre_installed;
    assert(after == before || after == before.push(after.last()));
    assert(before =~= after.subrange(0, before.len() as int));
}

/// No step forgets a breakpoint.
pub proof fn lemma_break_points_are_kept(state: DebuggerView, event: EventView, addr: usize)
    requires
        state.wf(),
        state.accepts(event),
        state.break_points.contains_key(addr),
    ensures
        state.next(event).state.break_points.contains_key(addr),
{
}

/// Whether events lead from the start of a debugger through these worlds.
pub open spec fn session(
    target: Seq<char>,
    home: Seq<char>,
    worlds: Seq<World>,
    events: Seq<EventView>,
    program: Program,
) -> bool {
    &&& worlds.len() == events.len() + 1
    &&& worlds[0].state == first_state(target, home)
    &&& worlds[0].request == RequestView::ReadLine
    &&& forall|i: int|
        0 <= i < events.len() ==> #[trigger] happens(worlds[i], events[i], worlds[i + 1], program)
}

/// A session without its last event is a session.
proof fn lemma_shorter_session(
    target: Seq<char>,
    home: Seq<char>,
    worlds: Seq<World>,
    events: Seq<EventView>,
    program: Program,
)
    requires
        session(target, home, worlds, events, program),
        events.len() > 0,
    ensures
        session(target, home, worlds.drop_last(), events.drop_last(), program),
        worlds.drop_last().last() == worlds[worlds.len() - 2],
        happens(worlds[worlds.len() - 2], events.last(), worlds.last(), program),
{
    let before = worlds.drop_last();
    let earlier = events.drop_last();
    assert forall|i: int| 0 <= i < earlier.len() implies #[trigger] happens(
        before[i],
        earlier[i],
        before[i + 1],
        program,
    ) by {
        assert(happens(worlds[i], events[i], worlds[i + 1], program));
    }
    let last = events.len() - 1;
    assert(happens(worlds[last], events[last], worlds[last + 1], program));
}

/// Whatever the user does, each prepared breakpoint is on record when the
/// inferior runs, and the trap of each is in memory when the target is first
/// let run.
pub proof fn lemma_prepared_are_installed_in_time(
    target: Seq<char>,
    home: Seq<char>,
    worlds: Seq<World>,
    events: Seq<EventView>,
    program: Program,
)
    requires
        session(target, home, worlds, events, program),
    ensures
        worlds.last().state.wf(),
        has_asked(worlds.last()),
        prepared_are_recorded(worlds.last().state),
        prepared_are_trapped(worlds.last()),
        events.len() > 0 && worlds[worlds.len() - 2].state.phase is Showing ==> {
            &&& worlds.last().request == RequestView::Resume
            &&& traps_below(worlds.last(), worlds.last().state.pre_installed.len() as int)
        },
    decreases events.len(),
{
    if events.len() == 0 {
        lemma_first_state_is_safe(target, home, worlds[0], program);
    } else {
        let before = worlds[worlds.len() - 2];
        lemma_shorter_session(target, home, worlds, events, program);
        lemma_prepared_are_installed_in_time(
            target,
            home,
            worlds.drop_last(),
            events.drop_last(),
            program,
        );
        lemma_steps_ask(before, events.last(), worlds.last(), program);
        lemma_prepared_stay_recorded(before.state, events.last());
        lemma_prepared_stay_trapped(before, events.last(), worlds.last(), program);
    }
}

/// The law of the debugger: whatever the user and the program do, as long as
/// no breakpoint is prepared twice, each breakpoint in the program's code
/// keeps the byte of the image, and the code in memory differs from the image
/// only by traps at breakpoints.
pub proof fn lemma_code_is_always_safe(
    target: Seq<char>,
    home: Seq<char>,
    worlds: Seq<World>,
    events: Seq<EventView>,
    program: Program,
)
    requires
        session(target, home, worlds, events, program),
        worlds.last().state.pre_installed.no_duplicates(),
    ensures
        code_is_safe(worlds.last(), program),
    decreases events.len(),
{
    if events.len() == 0 {
        lemma_first_state_is_safe(target, home, worlds[0], program);
    } else {
        let before = worlds[worlds.len() - 2];
        lemma_shorter_session(target, home, worlds, events, program);
        lemma_prepared_only_grow(before.state, events.last());
        let pre = before.state.pre_installed;
        let grown = worlds.last().state.pre_installed;
        assert(pre.no_duplicates()) by {
            assert forall|i: int, j: int|
                0 <= i < pre.len() && 0 <= j < pre.len() && i != j implies pre[i] != pre[j] by {
                assert(pre[i] == grown[i] && pre[j] == grown[j]);
            }
        }
        lemma_code_is_always_safe(
            target,
            home,
            worlds.drop_last(),
            events.drop_last(),
            program,
        );
        lemma_code_stays_safe(before, events.last(), worlds.last(), program);
    }
}

/// A stop right behind a breakpoint puts the byte that the breakpoint has kept
/// back into memory, and sets the instruction pointer to it before the next
/// prompt. In the program's code that is the byte of the image.
pub proof fn lemma_stop_at_break_point(
    world: World,
    rip: usize,
    location: EventView,
    restoring: World,
    written: EventView,
    rewinding: World,
    program: Program,
)
    requires
        world.state.phase == PhaseView::Reporting(rip),
        world.state.wf(),
        world.state.break_points.contains_key((rip - 1) as usize),
        happens(world, location, restoring, program),
        happens(restoring, written, rewinding, program),
    ensures
        (rewinding.memory)(rip - 1) == world.state.break_points[(rip - 1) as usize].orig_byte,
        keeps_bytes(world.state, program) && program.code.contains(rip - 1) ==> (rewinding.memory)(
            rip - 1,
        ) == (program.image)(rip - 1),
        rewinding.request == RequestView::SetRip((rip - 1) as usize),
        rewinding.state.next(EventView::RipSet).state.phase == PhaseView::Prompting,
        rewinding.state.next(EventView::RipSet).request == RequestView::ReadLine,
{
}

/// Going on from a breakpoint steps off it and puts its trap back before the
/// inferior runs on.
pub proof fn lemma_continue_from_break_point(
    world: World,
    addr: usize,
    stepping: World,
    rip: usize,
    rearming: World,
    written: EventView,
    resuming: World,
    program: Program,
)
    requires
        world.state.phase == PhaseView::Inspecting,
        world.state.break_points.contains_key(addr),
        happens(world, EventView::Rip(addr), stepping, program),
        happens(
            stepping,
            EventView::Stepped(StatusView::Stopped(trap(), rip)),
            rearming,
            program,
        ),
        happens(rearming, written, resuming, program),
    ensures
        stepping.request == RequestView::Step,
        (resuming.memory)(addr as int) == TRAP_INSTRUCTION,
        resuming.request == RequestView::Resume,
{
}

/// Adding a breakpoint to a running inferior records the byte that was
/// reported. Adding it again changes nothing and asks for no write. Neither
/// prepares a breakpoint.
pub proof fn lemma_adding_twice(
    state: DebuggerView,
    text: Seq<char>,
    addr: usize,
    byte: u8,
    second_text: Seq<char>,
)
    requires
        state.wf(),
        state.inferior is Some,
        !state.break_points.contains_key(addr),
    ensures
        ({
            let adding = state.resolved(text, Some(addr));
            let added = adding.state.next(EventView::ByteWritten(byte)).state;
            let again = added.resolved(second_text, Some(addr));
            &&& adding.request == RequestView::WriteByte(addr, TRAP_INSTRUCTION)
            &&& added.break_points == state.break_points.insert(
                addr,
                Breakpoint { addr, orig_byte: byte },
            )
            &&& added.pre_installed == state.pre_installed
            &&& again.state == added
            &&& again.request == RequestView::ReadLine
        }),
{
}

/// Whether an event settles that a breakpoint is wanted at an address.
pub open spec fn wanted_at(state: DebuggerView, event: EventView, addr: usize) -> bool {
    match (state.phase, event) {
        (PhaseView::Resolving(_), EventView::Address(found)) => found == Some(addr),
        (PhaseView::Parsing, EventView::Parsed(_, Some(CommandView::Break(text)))) => break_target(
            text,
        ) == TargetView::Address(Some(addr)),
        _ => false,
    }
}

/// Adding a breakpoint to a running inferior puts a trap at its address, keeps
/// the byte that stood there, and changes no other byte and no other
/// breakpoint. Adding it once more, at any later prompt before the inferior
/// runs, changes nothing at all: the kept byte is still the one that stood
/// there first, not the trap.
pub proof fn lemma_adding_twice_leaves_memory(
    world: World,
    first: EventView,
    adding: World,
    written: EventView,
    added: World,
    later: World,
    second: EventView,
    again: World,
    addr: usize,
    program: Program,
)
    requires
        world.state.inferior is Some,
        !world.state.break_points.contains_key(addr),
        has_asked(world),
        wanted_at(world.state, first, addr),
        happens(world, first, adding, program),
        happens(adding, written, added, program),
        later.state == (DebuggerView { phase: later.state.phase, ..added.state }),
        later.memory == added.memory,
        has_asked(later),
        wanted_at(later.state, second, addr),
        happens(later, second, again, program),
    ensures
        added.memory == with_byte(world.memory, addr as int, TRAP_INSTRUCTION),
        added.state.break_points == world.state.break_points.insert(
            addr,
            Breakpoint { addr, orig_byte: (world.memory)(addr as int) },
        ),
        added.state.pre_installed == world.state.pre_installed,
        again.state == added.state,
        again.request == RequestView::ReadLine,
        again.memory == added.memory,
{
}

/// Quitting kills the inferior where there is one, so that it is not left
/// behind, and so does closing the input. Running again kills it first.
pub proof fn lemma_no_orphans(state: DebuggerView, failure: Option<Seq<char>>, args: Seq<Seq<char>>)
    ensures
        state.phase == PhaseView::Parsing ==> {
            &&& state.next(EventView::Parsed(failure, Some(CommandView::Quit))).request
                == RequestView::Exit(state.inferior is Some)
            &&& state.next(EventView::Parsed(failure, Some(CommandView::Run(args)))).request
                == RequestView::Launch(state.inferior is Some, args)
        },
        state.phase == PhaseView::Prompting ==> state.next(EventView::EndOfInput).request
            == RequestView::Exit(state.inferior is Some),
{
}

/// A stop that is reported right behind a breakpoint is looked up at its own
/// instruction pointer. Then the byte that the breakpoint has kept is put back
/// into memory, and no other byte is changed. Then the instruction pointer is
/// set to that byte.
pub proof fn lemma_stop_takes_the_trap_away(
    world: World,
    signal: Seq<char>,
    rip: usize,
    reporting: World,
    location: EventView,
    restoring: World,
    written: EventView,
    rewinding: World,
    program: Program,
)
    requires
        world.state.phase == PhaseView::Resuming,
        world.state.wf(),
        rip > 0,
        world.state.break_points.contains_key((rip - 1) as usize),
        happens(
            world,
            EventView::Resumed(Some(StatusView::Stopped(signal, rip))),
            reporting,
            program,
        ),
        happens(reporting, location, restoring, program),
        happens(restoring, written, rewinding, program),
    ensures
        reporting.request == RequestView::Locate(rip),
        rewinding.memory == with_byte(
            reporting.memory,
            rip - 1,
            world.state.break_points[(rip - 1) as usize].orig_byte,
        ),
        keeps_bytes(world.state, program) && program.code.contains(rip - 1) ==> (rewinding.memory)(
            rip - 1,
        ) == (program.image)(rip - 1),
        rewinding.request == RequestView::SetRip((rip - 1) as usize),
{
    assert(rewinding.memory =~= with_byte(
        reporting.memory,
        rip - 1,
        world.state.break_points[(rip - 1) as usize].orig_byte,
    ));
}

/// A stop that is reported anywhere else is shown, and changes no byte of
/// memory.
pub proof fn lemma_stop_elsewhere(
    world: World,
    signal: Seq<char>,
    rip: usize,
    reporting: World,
    location: EventView,
    prompting: World,
    program: Program,
)
    requires
        world.state.phase == PhaseView::Resuming,
        rip > 0,
        !world.state.break_points.contains_key((rip - 1) as usize),
        happens(
            world,
            EventView::Resumed(Some(StatusView::Stopped(signal, rip))),
            reporting,
            program,
        ),
        happens(reporting, location, prompting, program),
    ensures
        reporting.request == RequestView::Locate(rip),
        prompting.memory == reporting.memory,
        prompting.request == RequestView::ReadLine,
{
}

/// What was prepared at some time in a session stays prepared.
proof fn lemma_prepared_stay_prepared(
    target: Seq<char>,
    home: Seq<char>,
    worlds: Seq<World>,
    events: Seq<EventView>,
    program: Program,
    early: int,
    late: int,
    addr: usize,
)
    requires
        session(target, home, worlds, events, program),
        0 <= early <= late < worlds.len(),
        worlds[early].state.pre_installed.contains(addr),
    ensures
        worlds[late].state.pre_installed.contains(addr),
    decreases late - early,
{
    if early < late {
        let before = worlds[late - 1].state;
        lemma_prepared_stay_prepared(
            target,
            home,
            worlds,
            events,
            program,
            early,
            late - 1,
            addr,
        );
        assert(happens(worlds[late - 1], events[late - 1], worlds[late - 1 + 1], program));
        lemma_prepared_only_grow(before, events[late - 1]);
        let k = choose|k: int| 0 <= k < before.pre_installed.len() && before.pre_installed[k] == addr;
        assert(worlds[late].state.pre_installed[k] == addr);
    }
}

/// The law of prepared breakpoints: whatever the user does in between, each
/// address that the user has asked for before there was an inferior has a
/// trap in memory, and a record, whenever a started target is first let run.
pub proof fn lemma_asked_for_is_trapped(
    target: Seq<char>,
    home: Seq<char>,
    worlds: Seq<World>,
    events: Seq<EventView>,
    program: Program,
    asked: int,
    addr: usize,
)
    requires
        session(target, home, worlds, events, program),
        0 <= asked < events.len(),
        worlds[asked].state.inferior is None,
        wanted_at(worlds[asked].state, events[asked], addr),
        worlds[worlds.len() - 2].state.phase is Showing,
    ensures
        worlds.last().request == RequestView::Resume,
        (worlds.last().memory)(addr as int) == TRAP_INSTRUCTION,
        worlds.last().state.break_points.contains_key(addr),
{
    lemma_prepared_are_installed_in_time(target, home, worlds, events, program);
    assert(happens(worlds[asked], events[asked], worlds[asked + 1], program));
    let next = worlds[asked + 1].state.pre_installed;
    assert(next[next.len() - 1] == addr);
    assert(next.contains(addr));
    lemma_prepared_stay_prepared(
        target,
        home,
        worlds,
        events,
        program,
        asked + 1,
        worlds.len() - 1,
        addr,
    );
    let all = worlds.last().state.pre_installed;
    let k = choose|k: int| 0 <= k < all.len() && all[k] == addr;
    assert((worlds.last().memory)(all[k] as int) == TRAP_INSTRUCTION);
    lemma_shorter_session(target, home, worlds, events, program);
    lemma_prepared_are_installed_in_time(
        target,
        home,
        worlds.drop_last(),
        events.drop_last(),
        program,
    );
    assert(worlds.last().state.inferior is Some);
    assert(worlds.last().state.break_points.contains_key(all[k]));
}

} // verus!
