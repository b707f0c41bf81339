use cs110l::numerals::{
    get_addr_str, parse_address, parse_numeral, to_decimal, to_hexadecimal, to_signed_decimal,
};

/// What std makes of an address.
fn std_address(addr: &str) -> Option<usize> {
    let digits = if addr.to_lowercase().starts_with("0x") { &addr[2..] } else { addr };
    usize::from_str_radix(digits, 16).ok()
}

#[test]
fn addresses_read_as_in_std() {
    let texts = [
        "", "0", "0x", "0X", "x", "0x10", "0X10", "10", "dEaDbEeF", "0xdeadbeef", "+10", "0x+10",
        "+0x10", "+", "++1", "-1", "0x-1", "g", "0xg", "1_0", " 1", "1 ", "00000000000000000000001",
        "ffffffffffffffff", "0xFFFFFFFFFFFFFFFF", "10000000000000000", "0x10000000000000000",
        "fffffffffffffffg", "\u{661}", "0\u{212a}1", "0xé", "é",
    ];
    for text in texts {
        assert_eq!(parse_address(text), std_address(text), "{:?}", text);
    }
}

#[test]
fn only_x_follows_the_zero_of_a_prefix() {
    for c in '\0'..=char::MAX {
        let text = format!("0{}1", c);
        let prefixed = text.to_lowercase().starts_with("0x");
        assert_eq!(prefixed, c == 'x' || c == 'X');
    }
}

#[test]
fn numerals_read_as_in_std() {
    for text in ["", "0", "007", "4294967295", "4294967296", "+5", "-5", "1a", "99999999999999999999"] {
        assert_eq!(
            parse_numeral(text, 10, u32::MAX as u64),
            text.parse::<u32>().ok().map(|n| n as u64),
            "{:?}",
            text
        );
    }
}

#[test]
fn numbers_are_written_as_in_std() {
    for n in [0, 1, 9, 10, 15, 16, 255, 256, 4096, 123456789, u64::MAX] {
        assert_eq!(to_decimal(n), n.to_string());
        assert_eq!(to_hexadecimal(n), format!("{:#x}", n));
    }
    for n in [0, 1, -1, 10, -10, i32::MAX, i32::MIN] {
        assert_eq!(to_signed_decimal(n), n.to_string());
    }
}

#[test]
fn a_written_address_reads_back() {
    for n in [0usize, 1, 0x1000, 0xdead_beef, usize::MAX] {
        assert_eq!(parse_address(&to_hexadecimal(n as u64)), Some(n));
        assert_eq!(parse_numeral(&to_decimal(n as u64), 10, usize::MAX as u64), Some(n as u64));
    }
}

#[test]
fn the_first_character_is_dropped() {
    assert_eq!(get_addr_str(&"*0x1000".to_string()), "0x1000");
    assert_eq!(get_addr_str(&"é".to_string()), "");
    assert_eq!(get_addr_str(&"éa".to_string()), "a");
}
