//! Characters, lines and the words of a line.

use vstd::prelude::*;

verus! {

/// `String::push` appends one character to the end of a string.
pub assume_specification[ String::push ](s: &mut String, c: char)
    ensures
        final(s)@ == old(s)@.push(c),
;

/// A text as `{:?}` shows it: in double quotes, with escapes.
pub uninterp spec fn debug_text(s: Seq<char>) -> Seq<char>;

/// `format!` with `{:?}` on a string. What it gives is a function of the
/// string alone, and nothing more is claimed of it.
#[verifier::external_body]
pub(crate) fn to_debug_text(s: &str) -> (r: String)
    ensures
        r@ == debug_text(s@),
{
    format!("{:?}", s)
}

/// The views of a list of strings.
pub open spec fn views(strings: Seq<String>) -> Seq<Seq<char>> {
    Seq::new(strings.len(), |i: int| strings[i]@)
}

/// The characters with the Unicode property `White_Space`.
pub open spec fn white_space(c: char) -> bool {
    let n = c as u32;
    ||| 0x09 <= n <= 0x0d
    ||| n == 0x20
    ||| n == 0x85
    ||| n == 0xa0
    ||| n == 0x1680
    ||| 0x2000 <= n <= 0x200a
    ||| n == 0x2028
    ||| n == 0x2029
    ||| n == 0x202f
    ||| n == 0x205f
    ||| n == 0x3000
}

/// Whether a line holds nothing but white space.
pub open spec fn blank(line: Seq<char>) -> bool {
    forall|i: int| 0 <= i < line.len() ==> white_space(#[trigger] line[i])
}

/// The words of a line: its maximal runs of characters that are not white
/// space, in order.
pub open spec fn words(line: Seq<char>) -> Seq<Seq<char>>
    decreases line.len(),
{
    if line.len() == 0 {
        Seq::empty()
    } else {
        let before = words(line.drop_last());
        let c = line.last();
        if white_space(c) {
            before
        } else if line.len() >= 2 && !white_space(line[line.len() - 2]) {
            before.update(before.len() - 1, before.last().push(c))
        } else {
            before.push(seq![c])
        }
    }
}

/// The concatenation of a list of character sequences.
pub open spec fn joined(parts: Seq<Seq<char>>) -> Seq<char>
    decreases parts.len(),
{
    if parts.len() == 0 {
        Seq::empty()
    } else {
        joined(parts.drop_last()) + parts.last()
    }
}

/// Whether a character is white space.
pub fn is_white_space(c: char) -> (r: bool)
    ensures
        r == white_space(c),
{
    let n: u32 = c as u32;
    (0x09 <= n && n <= 0x0d) || n == 0x20 || n == 0x85 || n == 0xa0 || n == 0x1680 || (0x2000 <= n
        && n <= 0x200a) || n == 0x2028 || n == 0x2029 || n == 0x202f || n == 0x205f || n == 0x3000
}

/// The characters of a string, in order.
pub fn chars_of(s: &str) -> (r: Vec<char>)
    ensures
        r@ == s@,
{
    let mut chars: Vec<char> = Vec::new();
    for c in it: s.chars()
        invariant
            chars@ == it.seq().take(it.index()),
            it.seq() == s@,
    {
        chars.push(c);
    }
    proof {
        assert(s@.take(s@.len() as int) =~= s@);
    }
    chars
}

/// Whether a line holds nothing but white space.
pub fn is_blank(line: &str) -> (r: bool)
    ensures
        r == blank(line@),
{
    let chars = chars_of(line);
    for i in 0..chars.len()
        invariant
            chars@ == line@,
            forall|j: int| 0 <= j < i ==> white_space(#[trigger] line@[j]),
    {
        if !is_white_space(chars[i]) {
            assert(!white_space(line@[i as int]));
            return false;
        }
    }
    true
}

/// The words of a line, in order.
pub fn split_words(line: &str) -> (r: Vec<String>)
    ensures
        views(r@) == words(line@),
{
    let chars = chars_of(line);
    let mut found: Vec<String> = Vec::new();
    let mut current = String::new();
    for i in 0..chars.len()
        invariant
            chars@ == line@,
            i > 0 && !white_space(line@[i - 1]) ==> {
                &&& current@.len() > 0
                &&& words(line@.take(i as int)) == views(found@).push(current@)
            },
            i == 0 || white_space(line@[i - 1]) ==> {
                &&& current@.len() == 0
                &&& words(line@.take(i as int)) == views(found@)
            },
    {
        let c = chars[i];
        let ghost before = found@;
        let ghost upto = line@.take(i + 1);
        proof {
            assert(upto.drop_last() =~= line@.take(i as int));
            assert(upto.last() == c);
            if i > 0 {
                assert(upto[upto.len() - 2] == line@[i - 1]);
            }
        }
        if is_white_space(c) {
            if !current.as_str().is_empty() {
                found.push(current);
                assert(views(found@) =~= views(before).push(found@.last()@));
                current = String::new();
            }
        } else {
            let ghost word = current@;
            current.push(c);
            proof {
                if i > 0 && !white_space(line@[i - 1]) {
                    let earlier = words(line@.take(i as int));
                    assert(earlier.last() =~= word);
                    assert(earlier.update(earlier.len() - 1, word.push(c)) =~= views(found@).push(
                        current@,
                    ));
                } else {
                    assert(seq![c] =~= current@);
                }
            }
        }
    }
    proof {
        assert(line@.take(line@.len() as int) =~= line@);
    }
    if !current.as_str().is_empty() {
        let ghost before = found@;
        found.push(current);
        assert(views(found@) =~= views(before).push(found@.last()@));
    }
    found
}

/// A line has a word exactly if it is not blank.
pub proof fn lemma_blank_lines_have_no_words(line: Seq<char>)
    ensures
        blank(line) <==> words(line).len() == 0,
    decreases line.len(),
{
    if line.len() > 0 {
        let shorter = line.drop_last();
        lemma_blank_lines_have_no_words(shorter);
        if blank(line) {
            assert forall|i: int| 0 <= i < shorter.len() implies white_space(
                #[trigger] shorter[i],
            ) by {
                assert(shorter[i] == line[i]);
            }
            assert(white_space(line[line.len() - 1]));
        } else if white_space(line.last()) {
            let k = choose|k: int| 0 <= k < line.len() && !white_space(#[trigger] line[k]);
            assert(shorter[k] == line[k]);
        } else if line.len() >= 2 && !white_space(line[line.len() - 2]) {
            assert(!white_space(shorter[shorter.len() - 1]));
        }
    }
}

/// No word is empty and no word holds white space. Run together, the words
/// are the line without its white space.
pub proof fn lemma_words_make_up_the_line(line: Seq<char>)
    ensures
        forall|i: int| 0 <= i < words(line).len() ==> (#[trigger] words(line)[i]).len() > 0,
        forall|i: int, j: int|
            0 <= i < words(line).len() && 0 <= j < words(line)[i].len() ==> !white_space(
                #[trigger] words(line)[i][j],
            ),
        joined(words(line)) == line.filter(|c: char| !white_space(c)),
    decreases line.len(),
{
    let keep = |c: char| !white_space(c);
    reveal(Seq::filter);
    if line.len() > 0 {
        let shorter = line.drop_last();
        let before = words(shorter);
        let c = line.last();
        lemma_words_make_up_the_line(shorter);
        if white_space(c) {
        } else if line.len() >= 2 && !white_space(line[line.len() - 2]) {
            lemma_blank_lines_have_no_words(shorter);
            assert(!white_space(shorter[shorter.len() - 1]));
            assert(words(line).drop_last() =~= before.drop_last());
            assert(words(line).last() == before.last().push(c));
            assert(joined(words(line)) =~= joined(before).push(c));
            assert forall|i: int, j: int|
                0 <= i < words(line).len() && 0 <= j < words(line)[i].len() implies !white_space(
                #[trigger] words(line)[i][j],
            ) by {
                if i < before.len() - 1 || j < before[i].len() {
                    assert(words(line)[i][j] == before[i][j]);
                }
            }
            assert forall|i: int| 0 <= i < words(line).len() implies (#[trigger] words(
                line,
            )[i]).len() > 0 by {
                assert(before[i].len() > 0);
            }
        } else {
            assert(words(line) == before.push(seq![c]));
            assert(words(line).drop_last() =~= before);
            assert(joined(words(line)) =~= joined(before).push(c));
            assert forall|i: int, j: int|
                0 <= i < words(line).len() && 0 <= j < words(line)[i].len() implies !white_space(
                #[trigger] words(line)[i][j],
            ) by {
                if i < before.len() {
                    assert(words(line)[i][j] == before[i][j]);
                }
            }
            assert forall|i: int| 0 <= i < words(line).len() implies (#[trigger] words(
                line,
            )[i]).len() > 0 by {
                if i < before.len() {
                    assert(before[i].len() > 0);
                }
            }
        }
    } else {
        assert(joined(words(line)) =~= line.filter(keep));
    }
}

/// White space is these characters: the tabs and line ends of ASCII, the space,
/// the next line, the no-break space, and the spaces and separators that
/// Unicode has beyond them.
pub proof fn lemma_white_space(c: char)
    ensures
        white_space(c) <==> seq![
            '\t', '\n', '\u{b}', '\u{c}', '\r', ' ', '\u{85}', '\u{a0}', '\u{1680}', '\u{2000}',
            '\u{2001}', '\u{2002}', '\u{2003}', '\u{2004}', '\u{2005}', '\u{2006}', '\u{2007}',
            '\u{2008}', '\u{2009}', '\u{200a}', '\u{2028}', '\u{2029}', '\u{202f}', '\u{205f}',
            '\u{3000}',
        ].contains(c),
{
    let all = seq![
        '\t', '\n', '\u{b}', '\u{c}', '\r', ' ', '\u{85}', '\u{a0}', '\u{1680}', '\u{2000}',
        '\u{2001}', '\u{2002}', '\u{2003}', '\u{2004}', '\u{2005}', '\u{2006}', '\u{2007}',
        '\u{2008}', '\u{2009}', '\u{200a}', '\u{2028}', '\u{2029}', '\u{202f}', '\u{205f}',
        '\u{3000}',
    ];
    if white_space(c) {
        let n = c as u32;
        let i: int = if 0x09 <= n <= 0x0d {
            n - 0x09
        } else if n == 0x20 {
            5
        } else if n == 0x85 {
            6
        } else if n == 0xa0 {
            7
        } else if n == 0x1680 {
            8
        } else if 0x2000 <= n <= 0x200a {
            n - 0x2000 + 9
        } else if n == 0x2028 {
            20
        } else if n == 0x2029 {
            21
        } else if n == 0x202f {
            22
        } else if n == 0x205f {
            23
        } else {
            24
        };
        assert(all[i] == c);
    }
}

/// Characters without white space among them are one word.
pub proof fn lemma_a_run_is_one_word(line: Seq<char>)
    requires
        line.len() > 0,
        forall|i: int| 0 <= i < line.len() ==> !white_space(#[trigger] line[i]),
    ensures
        words(line) == seq![line],
    decreases line.len(),
{
    let shorter = line.drop_last();
    assert(!white_space(line[line.len() - 1]));
    if line.len() >= 2 {
        assert forall|i: int| 0 <= i < shorter.len() implies !white_space(#[trigger] shorter[i]) by {
            assert(shorter[i] == line[i]);
        }
        lemma_a_run_is_one_word(shorter);
        assert(!white_space(line[line.len() - 2]));
        assert(shorter.push(line.last()) =~= line);
        assert(words(line) =~= seq![line]);
    } else {
        assert(words(shorter) =~= Seq::empty());
        assert(seq![line.last()] =~= line);
        assert(words(line) =~= seq![line]);
    }
}

/// White space parts words: the words of a line are those before it, then
/// those behind it.
pub proof fn lemma_white_space_parts_words(before: Seq<char>, space: char, behind: Seq<char>)
    requires
        white_space(space),
    ensures
        words(before.push(space) + behind) == words(before) + words(behind),
    decreases behind.len(),
{
    let line = before.push(space) + behind;
    if behind.len() == 0 {
        assert(line.drop_last() =~= before);
        assert(line.last() == space);
        assert(words(line) =~= words(before) + words(behind));
    } else {
        let shorter = behind.drop_last();
        let c = behind.last();
        lemma_white_space_parts_words(before, space, shorter);
        assert(line.drop_last() =~= before.push(space) + shorter);
        assert(line.last() == c);
        if white_space(c) {
            assert(words(line) =~= words(before) + words(behind));
        } else if behind.len() >= 2 && !white_space(behind[behind.len() - 2]) {
            assert(line[line.len() - 2] == behind[behind.len() - 2]);
            lemma_blank_lines_have_no_words(shorter);
            assert(!white_space(shorter[shorter.len() - 1]));
            assert(words(shorter).len() > 0);
            assert(words(line) =~= words(before) + words(behind));
        } else {
            if behind.len() == 1 {
                assert(line[line.len() - 2] == space);
            } else {
                assert(line[line.len() - 2] == behind[behind.len() - 2]);
            }
            assert(words(line) =~= words(before) + words(behind));
        }
    }
}

/// The views of strings are as many as the strings, and in their order.
pub proof fn lemma_views(strings: Seq<String>)
    ensures
        views(strings).len() == strings.len(),
        forall|i: int| 0 <= i < strings.len() ==> #[trigger] views(strings)[i] == strings[i]@,
{
}

/// What `split_words` gives for a line is what it gives for the part before
/// some white space, then what it gives for the part behind it.
pub proof fn lemma_split_words_around_white_space(
    line: &str,
    before: &str,
    behind: &str,
    space: char,
    all: Vec<String>,
    first: Vec<String>,
    rest: Vec<String>,
)
    requires
        white_space(space),
        line@ == before@.push(space) + behind@,
        call_ensures(split_words, (line,), all),
        call_ensures(split_words, (before,), first),
        call_ensures(split_words, (behind,), rest),
    ensures
        views(all@) == views(first@) + views(rest@),
{
    lemma_white_space_parts_words(before@, space, behind@);
}

/// `split_words` gives a line without white space back as one word, and finds
/// nothing in a line exactly if `is_blank` says that it is blank.
pub proof fn lemma_split_words_of_a_run(line: &str, found: Vec<String>, nothing: bool)
    requires
        call_ensures(split_words, (line,), found),
        call_ensures(is_blank, (line,), nothing),
    ensures
        nothing <==> found@.len() == 0,
        line@.len() > 0 && (forall|i: int|
            0 <= i < line@.len() ==> !white_space(#[trigger] line@[i])) ==> found@.len() == 1
            && found@[0]@ == line@,
{
    lemma_blank_lines_have_no_words(line@);
    assert(views(found@).len() == found@.len());
    if line@.len() > 0 && (forall|i: int|
        0 <= i < line@.len() ==> !white_space(#[trigger] line@[i])) {
        lemma_a_run_is_one_word(line@);
        assert(views(found@)[0] == found@[0]@);
    }
}

/// The characters of a string, one by one.
pub proof fn lemma_chars_of(s: &str, chars: Vec<char>)
    requires
        call_ensures(chars_of, (s,), chars),
    ensures
        chars@.len() == s@.len(),
        forall|i: int| 0 <= i < s@.len() ==> #[trigger] chars@[i] == s@[i],
{
}

} // verus!
