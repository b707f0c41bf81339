use cs110l::text::{chars_of, is_blank, is_white_space, split_words};

#[test]
fn white_space_is_what_std_says() {
    for c in '\0'..=char::MAX {
        assert_eq!(is_white_space(c), c.is_whitespace(), "{:?}", c);
    }
}

#[test]
fn lines_split_as_in_std() {
    let lines = [
        "", " ", "\t \n", "run", "  run", "run  ", "break *0x10", " a\u{a0}b\u{3000}\tc ", "é ü",
        "a  b   c", "\u{200b}",
    ];
    for line in lines {
        let expected: Vec<&str> = line.split_whitespace().collect();
        assert_eq!(split_words(line), expected, "{:?}", line);
        assert_eq!(is_blank(line), line.trim().len() == 0, "{:?}", line);
        assert_eq!(is_blank(line), split_words(line).is_empty());
    }
}

#[test]
fn words_make_up_a_line() {
    let line = " one  two\tthree ";
    let kept: String = line.chars().filter(|c| !c.is_whitespace()).collect();
    assert_eq!(split_words(line).concat(), kept);
}

#[test]
fn characters_come_in_order() {
    assert_eq!(chars_of("aé\u{1f600}"), vec!['a', 'é', '\u{1f600}']);
}
