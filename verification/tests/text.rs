use nilla::text::{
    chars_of, find_in, is_whitespace, line_ranges, replace_range, split_on, trim_range, word_end,
};

fn lines_of(s: &str) -> Vec<String> {
    let cs = chars_of(s);
    line_ranges(&cs, 0, cs.len()).iter().map(|&(a, b)| cs[a..b].iter().collect()).collect()
}

#[test]
fn whitespace_is_unicode_white_space() {
    for c in ['\t', '\n', '\u{b}', '\u{c}', '\r', ' ', '\u{85}', '\u{a0}', '\u{2003}', '\u{3000}'] {
        assert!(is_whitespace(c));
        assert!(c.is_whitespace());
    }
    for c in ['a', '\u{200b}', '_'] {
        assert!(!is_whitespace(c));
        assert_eq!(is_whitespace(c), c.is_whitespace());
    }
}

#[test]
fn lines_as_str_lines_gives_them() {
    for s in ["", "a", "a\n", "a\nb", "a\r\nb\r\n", "\n\n", "foo\r\nbar\n\nbaz\r", "x\ry"] {
        let expected: Vec<String> = s.lines().map(|l| l.to_string()).collect();
        assert_eq!(lines_of(s), expected, "{s:?}");
    }
}

#[test]
fn trimming_a_range() {
    let cs = chars_of("  \u{a0}mid dle\t\n");
    let (a, b) = trim_range(&cs, 0, cs.len());
    assert_eq!(cs[a..b].iter().collect::<String>(), "mid dle");
    let blank = chars_of(" \t ");
    let (a, b) = trim_range(&blank, 0, blank.len());
    assert_eq!(a, b);
}

#[test]
fn finding_a_pattern() {
    let cs = chars_of("abcabc");
    let p = chars_of("ca");
    assert_eq!(find_in(&cs, 0, cs.len(), &p), Some(2));
    assert_eq!(find_in(&cs, 3, cs.len(), &p), None);
    assert_eq!(find_in(&cs, 1, cs.len(), &chars_of("")), Some(1));
}

#[test]
fn first_word_of_a_range() {
    let cs = chars_of("word  rest");
    assert_eq!(word_end(&cs, 0, cs.len()), 4);
}

#[test]
fn replacing_as_str_replace_does() {
    for (s, from, to) in [("aaa", "aa", "b"), ("xyz", "q", "r"), ("abab", "ab", ""), ("", "a", "b")] {
        let cs = chars_of(s);
        let p = chars_of(from);
        assert_eq!(replace_range(s, &cs, 0, cs.len(), &p, to), s.replace(from, to));
    }
}

#[test]
fn splitting_as_str_split_does() {
    for s in ["a,b,,c", "", ",", "abc"] {
        let expected: Vec<String> = s.split(',').map(|x| x.to_string()).collect();
        assert_eq!(split_on(s, ','), expected);
    }
}
