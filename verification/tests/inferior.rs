use cs110l::inferior::{align_addr_to_word, Inferior, Signal};

#[test]
fn addresses_are_aligned_down() {
    for (addr, aligned) in [(0, 0), (7, 0), (8, 8), (0x1003, 0x1000), (usize::MAX, usize::MAX - 7)] {
        assert_eq!(align_addr_to_word(addr), aligned);
        let mask = -(std::mem::size_of::<usize>() as isize) as usize;
        assert_eq!(align_addr_to_word(addr), addr & mask);
    }
}

#[test]
fn one_byte_of_a_word_is_replaced() {
    let inferior = Inferior { child_id: 1 };
    let word = 0x8877_6655_4433_2211;
    assert_eq!(inferior.write_byte(0x1000, word, 0xcc), (0x11, 0x8877_6655_4433_22cc));
    assert_eq!(inferior.write_byte(0x1003, word, 0xcc), (0x44, 0x8877_6655_cc33_2211));
    assert_eq!(inferior.write_byte(0x1007, word, 0xcc), (0x88, 0xcc77_6655_4433_2211));
}

#[test]
fn a_write_of_the_old_byte_undoes_a_write() {
    let inferior = Inferior { child_id: 1 };
    let word = 0x0123_4567_89ab_cdef;
    for addr in 0..8 {
        let (orig, patched) = inferior.write_byte(addr, word, 0xcc);
        assert_eq!(inferior.write_byte(addr, patched, orig), (0xcc, word));
    }
}

#[test]
fn a_process_has_its_identifier() {
    assert_eq!(Inferior { child_id: 4711 }.pid(), 4711);
    assert_eq!(Inferior { child_id: u32::MAX }.pid(), -1);
    assert_eq!(
        Inferior { child_id: 4711 }.kill_notice(),
        "Killing running inferior (pid 4711)\n"
    );
}

#[test]
fn the_trap_has_the_name_that_the_system_gives_it() {
    let name = format!("{:?}", nix::sys::signal::Signal::SIGTRAP);
    assert!(Signal { name }.is_trap());
    let name = format!("{:?}", nix::sys::signal::Signal::SIGSEGV);
    assert!(!Signal { name }.is_trap());
}
