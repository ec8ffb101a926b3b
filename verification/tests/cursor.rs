use yarte_text::chars::{is_ws, utf8_width};
use yarte_text::strnom::{
    byte_len, do_parse, find_char, has_prefix, map_fail, opt, same_text, skip_ws, tag, take_while,
    ws, Cursor, LexError, PResult,
};

fn cursor(rest: &str) -> Cursor<'_> {
    Cursor { rest, off: 0 }
}

#[test]
fn adv_moves_rest_and_offset() {
    let c = Cursor { rest: "hello world", off: 7 };
    let d = c.adv(6);
    assert_eq!(d.rest, "world");
    assert_eq!(d.off, 13);
    assert_eq!(d.len(), c.len() - 6);
    assert_eq!(d.len() + d.off as usize, c.len() + c.off as usize);
}

#[test]
fn adv_by_nothing_and_by_everything() {
    let c = cursor("héllo");
    assert_eq!(c.adv(0), c);
    let end = c.adv(c.len());
    assert!(end.is_empty());
    assert_eq!(end.off, 6);
    assert_eq!(end.len(), 0);
}

#[test]
fn adv_over_multibyte_characters() {
    let c = cursor("é€😀x");
    let d = c.adv(2);
    assert_eq!(d.rest, "€😀x");
    let e = d.adv(3);
    assert_eq!(e.rest, "😀x");
    let f = e.adv(4);
    assert_eq!(f.rest, "x");
    assert_eq!(f.off, 9);
}

#[test]
fn find_gives_byte_offset_of_first_occurrence() {
    let c = cursor("a€b€c");
    assert_eq!(c.find('a'), Some(0));
    assert_eq!(c.find('€'), Some(1));
    assert_eq!(c.find('b'), Some(4));
    assert_eq!(c.find('c'), Some(8));
    assert_eq!(c.find('z'), None);
    assert_eq!(cursor("").find('a'), None);
}

#[test]
fn find_agrees_with_std() {
    for text in ["", "abc", "{{ x }}", "ñandú ñ", "a\u{200e}b\u{a0}c"] {
        for p in ['a', 'c', '}', 'ñ', '\u{a0}', '\u{200e}', 'q'] {
            assert_eq!(find_char(text, p), text.find(p));
        }
    }
}

#[test]
fn adv_find_is_relative_to_the_new_start() {
    let c = cursor("ab€ab");
    assert_eq!(c.adv_find(1, 'a'), Some(4));
    assert_eq!(c.adv_find(1, 'b'), Some(0));
    assert_eq!(c.adv_find(2, 'b'), Some(4));
    assert_eq!(c.adv_find(5, 'a'), Some(0));
    assert_eq!(c.adv_find(7, 'a'), None);
    assert_eq!(c.adv_find(7, 'b'), None);
}

#[test]
fn starts_with_tests_a_literal_prefix() {
    let c = cursor("{{# if }}");
    assert!(c.starts_with(""));
    assert!(c.starts_with("{{"));
    assert!(c.starts_with("{{# if }}"));
    assert!(!c.starts_with("{{# if }}}"));
    assert!(!c.starts_with("{#"));
    assert!(!cursor("").starts_with("a"));
    assert!(cursor("").starts_with(""));
}

#[test]
fn adv_starts_with_tests_after_the_offset() {
    let c = cursor("€{{x");
    assert!(c.adv_starts_with(3, "{{"));
    assert!(!c.adv_starts_with(0, "{{"));
    assert!(c.adv_starts_with(6, ""));
    assert!(!c.adv_starts_with(6, "x"));
    assert!(c.adv_starts_with(5, "x"));
}

#[test]
fn len_counts_bytes_and_chars_gives_characters() {
    let c = cursor("a€");
    assert_eq!(c.len(), 4);
    assert!(!c.is_empty());
    assert_eq!(c.chars().collect::<Vec<char>>(), vec!['a', '€']);
    assert_eq!(cursor("").len(), 0);
    assert!(cursor("").is_empty());
}

#[test]
fn helpers_on_string_slices() {
    assert_eq!(byte_len("a€😀"), 8);
    assert_eq!(byte_len(""), 0);
    assert!(has_prefix("abc", "ab"));
    assert!(!has_prefix("ab", "abc"));
    assert!(same_text("img", "img"));
    assert!(!same_text("img", "im"));
    assert!(!same_text("im", "img"));
    assert!(!same_text("img", "imh"));
    assert!(same_text("", ""));
}

#[test]
fn width_of_each_encoding_length() {
    assert_eq!(utf8_width('a'), 1);
    assert_eq!(utf8_width('\u{7f}'), 1);
    assert_eq!(utf8_width('\u{80}'), 2);
    assert_eq!(utf8_width('\u{7ff}'), 2);
    assert_eq!(utf8_width('\u{800}'), 3);
    assert_eq!(utf8_width('\u{ffff}'), 3);
    assert_eq!(utf8_width('\u{10000}'), 4);
    assert_eq!(utf8_width('\u{10ffff}'), 4);
    for c in ['a', 'é', '€', '😀', '\u{200e}'] {
        assert_eq!(utf8_width(c), c.len_utf8());
    }
}

#[test]
fn white_space_is_unicode_white_space_and_the_two_marks() {
    for c in [' ', '\t', '\n', '\r', '\u{0b}', '\u{0c}', '\u{85}', '\u{a0}', '\u{2003}', '\u{3000}'] {
        assert!(is_ws(c));
    }
    assert!(is_ws('\u{200e}'));
    assert!(is_ws('\u{200f}'));
    for c in ['a', '0', '<', '\u{200b}', '\u{200d}', '\u{feff}', '越'] {
        assert!(!is_ws(c));
    }
}

#[test]
fn take_while_takes_the_longest_leading_run() {
    let c = Cursor { rest: "aaab", off: 2 };
    let (next, span) = take_while(c, |ch| ch == 'a').unwrap();
    assert_eq!(span, "aaa");
    assert_eq!(next.rest, "b");
    assert_eq!(next.off, 5);
}

#[test]
fn take_while_matches_nothing_without_failing() {
    let c = Cursor { rest: "xyz", off: 4 };
    let (next, span) = take_while(c, |ch| ch == 'a').unwrap();
    assert_eq!(span, "");
    assert_eq!(next, c);
    let (next, span) = take_while(cursor(""), |_| true).unwrap();
    assert_eq!(span, "");
    assert_eq!(next, cursor(""));
}

#[test]
fn take_while_can_take_everything() {
    let c = cursor("€€€");
    let (next, span) = take_while(c, |ch| ch == '€').unwrap();
    assert_eq!(span, "€€€");
    assert!(next.is_empty());
    assert_eq!(next.off, 9);
}

#[test]
fn take_while_counts_bytes_of_wide_characters() {
    let c = cursor("\u{200e}\u{a0} x y");
    let (next, span) = take_while(c, is_ws).unwrap();
    assert_eq!(span, "\u{200e}\u{a0} ");
    assert_eq!(next.rest, "x y");
    assert_eq!(next.off, 6);
}

#[test]
fn take_while_twice_matches_nothing_the_second_time() {
    for text in ["", "   x  ", "\t\n", "abc", " \u{200f}é "] {
        let (first, _) = take_while(cursor(text), is_ws).unwrap();
        let (second, span) = take_while(first, is_ws).unwrap();
        assert_eq!(span, "");
        assert_eq!(second, first);
    }
}

#[test]
fn ws_and_skip_ws() {
    let c = cursor(" \t\r\n{{ x }}");
    let (next, span) = ws(c).unwrap();
    assert_eq!(span, " \t\r\n");
    assert_eq!(next.rest, "{{ x }}");
    assert_eq!(next.off, 4);
    assert_eq!(skip_ws(c), next);
    assert_eq!(skip_ws(next), next);
    assert_eq!(skip_ws(cursor("   ")).rest, "");
    assert_eq!(skip_ws(cursor("   ")).off, 3);
}

#[test]
fn tag_consumes_the_literal_or_nothing() {
    let c = Cursor { rest: "{{> partial }}", off: 10 };
    let (next, span) = tag(c, "{{>").unwrap();
    assert_eq!(span, "{{>");
    assert_eq!(next.rest, " partial }}");
    assert_eq!(next.off, 13);
    assert_eq!(next.len(), c.len() - 3);
    assert!(matches!(tag(c, "{{#"), Err(LexError::Next)));
    assert!(matches!(tag(c, "{{> partial }}}"), Err(LexError::Next)));
    assert!(matches!(tag(cursor(""), "a"), Err(LexError::Next)));
    let (next, span) = tag(c, "").unwrap();
    assert_eq!(span, "");
    assert_eq!(next, c);
}

#[test]
fn tag_with_wide_characters() {
    let c = cursor("€uro");
    let (next, span) = tag(c, "€u").unwrap();
    assert_eq!(span, "€u");
    assert_eq!(next.rest, "ro");
    assert_eq!(next.off, 4);
}

fn always_next<'a>(_: Cursor<'a>) -> PResult<'a, u8> {
    Err(LexError::Next)
}

fn always_fail<'a>(_: Cursor<'a>) -> PResult<'a, u8> {
    Err(LexError::Fail)
}

fn open_brace<'a>(i: Cursor<'a>) -> PResult<'a, &'a str> {
    tag(i, "{")
}

fn digits<'a>(i: Cursor<'a>) -> PResult<'a, &'a str> {
    take_while(i, |c| c.is_ascii_digit())
}

#[test]
fn opt_never_returns_an_error() {
    let c = Cursor { rest: "{1", off: 3 };
    let (next, value) = opt(c, open_brace).unwrap();
    assert_eq!(value, Some("{"));
    assert_eq!(next.rest, "1");
    assert_eq!(next.off, 4);
    let (next, value) = opt(c, always_next).unwrap();
    assert_eq!(value, None);
    assert_eq!(next, c);
    let (next, value) = opt(c, always_fail).unwrap();
    assert_eq!(value, None);
    assert_eq!(next, c);
}

#[test]
fn do_parse_threads_the_cursor() {
    let c = cursor("{42}");
    let (next, (brace, number)) = do_parse(c, open_brace, digits).unwrap();
    assert_eq!(brace, "{");
    assert_eq!(number, "42");
    assert_eq!(next.rest, "}");
    assert_eq!(next.off, 3);
}

#[test]
fn do_parse_stops_at_the_first_error() {
    let c = cursor("42}");
    assert!(matches!(do_parse(c, open_brace, digits), Err(LexError::Next)));
    assert!(matches!(do_parse(c, digits, open_brace), Err(LexError::Next)));
    assert!(matches!(do_parse(c, always_fail, digits), Err(LexError::Fail)));
    assert!(matches!(do_parse(c, digits, always_fail), Err(LexError::Fail)));
    assert!(matches!(do_parse(c, always_next, always_fail), Err(LexError::Next)));
}

#[test]
fn map_fail_makes_every_error_fatal() {
    let ok: Result<u8, &str> = Ok(3);
    assert!(matches!(map_fail(ok), Ok(3)));
    let err: Result<u8, &str> = Err("no");
    assert!(matches!(map_fail(err), Err(LexError::Fail)));
    let next: Result<u8, LexError> = Err(LexError::Next);
    assert!(matches!(map_fail(next), Err(LexError::Fail)));
}
