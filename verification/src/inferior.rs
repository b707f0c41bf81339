//! The process under the debugger: how it stopped, and how one byte of its
//! memory is changed through whole words.

use vstd::prelude::*;

use crate::numerals::{decimal, to_decimal};

verus! {

/// A signal, by the name that the system has for it (`SIGTRAP`, `SIGSEGV`).
#[derive(Debug)]
pub struct Signal {
    pub name: String,
}

/// The trap that a breakpoint or a single step raises.
pub open spec fn trap() -> Seq<char> {
    "SIGTRAP"@
}

impl Signal {
    /// Whether this is the trap that a breakpoint or a single step raises.
    pub fn is_trap(&self) -> (r: bool)
        ensures
            r == (self.name@ == trap()),
    {
        self.name == "SIGTRAP".to_owned()
    }
}

/// What became of the inferior.
#[derive(Debug)]
pub enum Status {
    /// It stopped: the signal, and the instruction pointer it stopped at.
    Stopped(Signal, usize),
    /// It exited with a status code.
    Exited(i32),
    /// A signal ended it.
    Signaled(Signal),
}

/// A status, with the signal by its name.
pub ghost enum StatusView {
    Stopped(Seq<char>, usize),
    Exited(i32),
    Signaled(Seq<char>),
}

impl View for Status {
    type V = StatusView;

    open spec fn view(&self) -> StatusView {
        match self {
            Status::Stopped(signal, rip) => StatusView::Stopped(signal.name@, *rip),
            Status::Exited(code) => StatusView::Exited(*code),
            Status::Signaled(signal) => StatusView::Signaled(signal.name@),
        }
    }
}

/// The process under the debugger.
#[derive(Clone, Copy, Debug)]
pub struct Inferior {
    /// The identifier that the system gave the child process.
    pub child_id: u32,
}

/// The number of bytes of a word of the inferior's memory.
pub open spec fn word_size() -> nat {
    vstd::layout::size_of::<usize>()
}

/// The byte of a word at an index, the lowest first.
pub open spec fn byte_of(word: u64, index: u64) -> u8 {
    ((word >> ((8 * index) as u64)) & 0xff) as u8
}

/// The bytes of a word, the lowest first.
pub open spec fn word_bytes(word: u64) -> Seq<u8> {
    Seq::new(8, |i: int| byte_of(word, i as u64))
}

/// The address of the word that an address lies in.
pub open spec fn word_address(addr: usize) -> int {
    addr - addr % (word_size() as usize)
}

/// The index, within its word, of the byte at an address.
pub open spec fn byte_index(addr: usize) -> int {
    (addr % (word_size() as usize)) as int
}

/// The address of the word that an address lies in.
pub fn align_addr_to_word(addr: usize) -> (r: usize)
    ensures
        r == word_address(addr),
        r % (word_size() as usize) == 0,
{
    broadcast use vstd::layout::layout_of_primitives;

    let size: usize = core::mem::size_of::<usize>();
    let rest: usize = addr % size;
    assert(rest <= addr && (addr - rest) % (size as int) == 0) by (nonlinear_arith)
        requires
            size > 0,
            rest == addr % size,
    ;
    addr - rest
}

/// One byte of a word read, and the word with that byte replaced.
proof fn lemma_replaced_byte(word: u64, index: u64, val: u8, mask: u64, updated: u64)
    requires
        index < 8,
        mask == !(0xffu64 << ((8 * index) as u64)),
        updated == (word & mask) | ((val as u64) << ((8 * index) as u64)),
    ensures
        word_bytes(updated) == word_bytes(word).update(index as int, val),
{
    assert forall|i: int| 0 <= i < 8 implies word_bytes(updated)[i] == word_bytes(word).update(
        index as int,
        val,
    )[i] by {
        let k = i as u64;
        if k == index {
            assert(((updated >> ((8 * index) as u64)) & 0xff) as u8 == val) by (bit_vector)
                requires
                    index < 8,
                    mask == !(0xffu64 << ((8 * index) as u64)),
                    updated == (word & mask) | ((val as u64) << ((8 * index) as u64)),
            ;
        } else {
            assert(((updated >> ((8 * k) as u64)) & 0xff) == ((word >> ((8 * k) as u64)) & 0xff))
                by (bit_vector)
                requires
                    index < 8,
                    k < 8,
                    k != index,
                    mask == !(0xffu64 << ((8 * index) as u64)),
                    updated == (word & mask) | ((val as u64) << ((8 * index) as u64)),
            ;
        }
    }
    assert(word_bytes(updated) =~= word_bytes(word).update(index as int, val));
}

/// What is said when the inferior is killed.
pub open spec fn kill_text(child_id: u32) -> Seq<char> {
    "Killing running inferior (pid "@ + decimal(child_id as int) + ")\n"@
}

/// The contents of the inferior's memory.
pub type Memory = spec_fn(int) -> u8;

/// Whether a word stands in memory at an address.
pub open spec fn holds_word(memory: Memory, at: int, word: u64) -> bool {
    forall|i: int| 0 <= i < word_size() ==> memory(at + i) == #[trigger] word_bytes(word)[i]
}

/// Memory after a word was written at an address.
pub open spec fn with_word(memory: Memory, at: int, word: u64) -> Memory {
    |a: int|
        if at <= a < at + word_size() {
            word_bytes(word)[a - at]
        } else {
            memory(a)
        }
}

/// Memory after a byte was written at an address.
pub open spec fn with_byte(memory: Memory, at: int, byte: u8) -> Memory {
    |a: int|
        if a == at {
            byte
        } else {
            memory(a)
        }
}

/// Whether a pair is what `write_byte` plans for a word: the byte that stood
/// in it, and the word with that byte replaced.
pub open spec fn byte_write(addr: usize, word: u64, val: u8, plan: (u8, u64)) -> bool {
    &&& plan.0 == word_bytes(word)[byte_index(addr)]
    &&& word_bytes(plan.1) == word_bytes(word).update(byte_index(addr), val)
}

impl Inferior {
    /// The process identifier of the inferior.
    pub fn pid(&self) -> (r: i32)
        ensures
            r == self.child_id as i32,
    {
        #[verifier::truncate]
        let pid: i32 = self.child_id as i32;
        pid
    }

    /// What is said when the inferior is killed.
    pub fn kill_notice(&self) -> (r: String)
        ensures
            r@ == kill_text(self.child_id),
    {
        let mut text = "Killing running inferior (pid ".to_owned();
        text.append(to_decimal(self.child_id as u64).as_str());
        text.append(")\n");
        text
    }

    /// Plans the write of one byte, given the word that holds its address:
    /// the byte that stood there, and the word to write back.
    pub fn write_byte(&self, addr: usize, word: u64, val: u8) -> (r: (u8, u64))
        ensures
            byte_write(addr, word, val, r),
    {
        broadcast use vstd::layout::layout_of_primitives;

        let index: u64 = (addr - align_addr_to_word(addr)) as u64;
        assert(index == byte_index(addr));
        assert(index < 8) by {
            assert(addr % (word_size() as usize) < word_size()) by (nonlinear_arith)
                requires
                    word_size() > 0,
                    word_size() <= 8,
            ;
        }
        let shift: u64 = 8 * index;
        let orig: u64 = (word >> shift) & 0xff;
        let mask: u64 = !(0xffu64 << shift);
        let updated: u64 = (word & mask) | ((val as u64) << shift);
        proof {
            lemma_replaced_byte(word, index, val, mask, updated);
        }
        (orig as u8, updated)
    }
}

/// Writing back the word that `write_byte` plans changes the byte at the
/// address, and no other byte of memory. The byte it reports is the one that
/// stood there.
pub proof fn lemma_write_byte_changes_one_byte(
    memory: Memory,
    addr: usize,
    word: u64,
    val: u8,
    plan: (u8, u64),
)
    requires
        holds_word(memory, word_address(addr), word),
        byte_write(addr, word, val, plan),
    ensures
        plan.0 == memory(addr as int),
        with_word(memory, word_address(addr), plan.1) == with_byte(memory, addr as int, val),
{
    broadcast use vstd::layout::layout_of_primitives;

    let at = word_address(addr);
    let index = byte_index(addr);
    assert(0 <= index < word_size()) by (nonlinear_arith)
        requires
            index == addr % (word_size() as usize),
            0 < word_size() <= 8,
    ;
    assert(memory(at + index) == word_bytes(word)[index]);
    let written = with_word(memory, at, plan.1);
    let wanted = with_byte(memory, addr as int, val);
    assert forall|a: int| #[trigger] written(a) == wanted(a) by {
        if at <= a < at + word_size() {
            assert(memory(at + (a - at)) == word_bytes(word)[a - at]);
        }
    }
    assert(written =~= wanted);
}

/// A write of the byte that an earlier write at the same address reported
/// undoes that write.
pub proof fn lemma_write_byte_undone(
    memory: Memory,
    addr: usize,
    word: u64,
    val: u8,
    plan: (u8, u64),
    second_word: u64,
    second_plan: (u8, u64),
)
    requires
        holds_word(memory, word_address(addr), word),
        byte_write(addr, word, val, plan),
        holds_word(
            with_word(memory, word_address(addr), plan.1),
            word_address(addr),
            second_word,
        ),
        byte_write(addr, second_word, plan.0, second_plan),
    ensures
        second_plan.0 == val,
        with_word(
            with_word(memory, word_address(addr), plan.1),
            word_address(addr),
            second_plan.1,
        ) == memory,
{
    let between = with_word(memory, word_address(addr), plan.1);
    lemma_write_byte_changes_one_byte(memory, addr, word, val, plan);
    lemma_write_byte_changes_one_byte(between, addr, second_word, plan.0, second_plan);
    assert(with_byte(between, addr as int, plan.0) =~= memory);
}

/// The bytes of a word are its digits in base two hundred and fifty-six, the
/// lowest first.
pub proof fn lemma_words_are_little_endian(word: u64)
    ensures
        word_bytes(word).len() == 8,
        word == word_bytes(word)[0] + 0x100 * word_bytes(word)[1] + 0x1_0000 * word_bytes(word)[2]
            + 0x100_0000 * word_bytes(word)[3] + 0x1_0000_0000 * word_bytes(word)[4]
            + 0x100_0000_0000 * word_bytes(word)[5] + 0x1_0000_0000_0000 * word_bytes(word)[6]
            + 0x100_0000_0000_0000 * word_bytes(word)[7],
{
    assert(word == (word & 0xff) + 0x100 * ((word >> 8) & 0xff) + 0x1_0000 * ((word >> 16) & 0xff)
        + 0x100_0000 * ((word >> 24) & 0xff) + 0x1_0000_0000 * ((word >> 32) & 0xff)
        + 0x100_0000_0000 * ((word >> 40) & 0xff) + 0x1_0000_0000_0000 * ((word >> 48) & 0xff)
        + 0x100_0000_0000_0000 * ((word >> 56) & 0xff)) by (bit_vector);
    assert(word >> 0 == word) by (bit_vector);
    assert forall|v: u64| (#[trigger] (v & 0xff)) as u8 == v & 0xff by {
        assert(v & 0xff <= 0xff) by (bit_vector);
    }
}

/// Every address lies in the word that starts at the multiple of a word's size
/// below it. A word is as wide as an address.
pub proof fn lemma_addresses_lie_in_words(addr: usize)
    ensures
        8 * word_size() == usize::BITS,
        word_address(addr) % (word_size() as int) == 0,
        word_address(addr) <= addr < word_address(addr) + word_size(),
        word_address(addr) + byte_index(addr) == addr,
{
    broadcast use vstd::layout::layout_of_primitives;

    let size = word_size() as int;
    let rest = addr as int % size;
    assert(0 <= rest < size && (addr - rest) % size == 0) by (nonlinear_arith)
        requires
            size > 0,
            rest == addr as int % size,
    ;
}

/// What `align_addr_to_word` gives is the start of the word that an address
/// lies in. With the word that stands there, `write_byte` gives the byte at
/// the address, and a word that changes this byte alone.
pub proof fn lemma_write_byte(
    inferior: Inferior,
    memory: Memory,
    addr: usize,
    at: usize,
    word: u64,
    val: u8,
    plan: (u8, u64),
)
    requires
        call_ensures(align_addr_to_word, (addr,), at),
        holds_word(memory, at as int, word),
        call_ensures(Inferior::write_byte, (&inferior, addr, word, val), plan),
    ensures
        at <= addr < at + word_size(),
        at as int % (word_size() as int) == 0,
        plan.0 == memory(addr as int),
        forall|a: int| #[trigger]
            with_word(memory, at as int, plan.1)(a) == if a == addr {
                val
            } else {
                memory(a)
            },
{
    lemma_addresses_lie_in_words(addr);
    lemma_write_byte_changes_one_byte(memory, addr, word, val, plan);
}

/// A word in memory is the bytes that it is made of, and writing a word puts
/// it there and changes nothing else.
pub proof fn lemma_written_word_stands_there(memory: Memory, at: int, word: u64, a: int)
    ensures
        holds_word(with_word(memory, at, word), at, word),
        !(at <= a < at + word_size()) ==> with_word(memory, at, word)(a) == memory(a),
{
}

/// The trap goes by its name, and no other signal does.
pub proof fn lemma_is_trap(signal: Signal, r: bool)
    requires
        call_ensures(Signal::is_trap, (&signal,), r),
    ensures
        r <==> signal.name@ == "SIGTRAP"@,
{
}

/// When the inferior is killed, its identifier is told.
pub proof fn lemma_kill_notice(inferior: Inferior, said: String)
    requires
        call_ensures(Inferior::kill_notice, (&inferior,), said),
    ensures
        said@ == "Killing running inferior (pid "@ + decimal(inferior.child_id as int) + ")\n"@,
{
}

/// A status shows the signal by its name, and numbers as they are.
pub proof fn lemma_status_view(status: Status)
    ensures
        match status {
            Status::Stopped(signal, rip) => status@ == StatusView::Stopped(signal.name@, rip),
            Status::Exited(code) => status@ == StatusView::Exited(code),
            Status::Signaled(signal) => status@ == StatusView::Signaled(signal.name@),
        },
{
}

} // verus!
