use yarte_text::escape::write_escaped;
use yarte_text::trim::trim;

#[test]
fn trim_splits_into_three_parts() {
    assert_eq!(trim("  a b \n"), ("  ", "a b", " \n"));
    assert_eq!(trim("a"), ("", "a", ""));
    assert_eq!(trim("a \n"), ("", "a", " \n"));
    assert_eq!(trim("  b"), ("  ", "b", ""));
    assert_eq!(trim("\tfoo  bar\r\n"), ("\t", "foo  bar", "\r\n"));
}

#[test]
fn trim_of_white_space_is_all_leading() {
    assert_eq!(trim(""), ("", "", ""));
    assert_eq!(trim(" "), (" ", "", ""));
    assert_eq!(trim(" \n\t "), (" \n\t ", "", ""));
}

#[test]
fn trim_knows_the_wide_white_space() {
    assert_eq!(trim("\u{200e}é\u{200f}"), ("\u{200e}", "é", "\u{200f}"));
    assert_eq!(trim("\u{a0}€ €\u{3000} "), ("\u{a0}", "€ €", "\u{3000} "));
    assert_eq!(trim("\u{200b}"), ("", "\u{200b}", ""));
}

#[test]
fn trim_parts_join_to_the_text() {
    for text in ["", " ", "x", " x", "x ", " x y ", "\n\u{200e}ab\u{a0}\n", "😀 😀"] {
        let (lead, core, trail) = trim(text);
        assert_eq!(format!("{}{}{}", lead, core, trail), text);
        assert_eq!(core, text.trim_matches(|c: char| c.is_whitespace() || c == '\u{200e}' || c == '\u{200f}'));
    }
}

fn escaped(text: &str, attr_mode: bool) -> String {
    let mut out = String::new();
    write_escaped(&mut out, text, attr_mode);
    out
}

fn unescaped(text: &str) -> String {
    let mut out = String::new();
    let mut rest = text;
    while let Some(c) = rest.chars().next() {
        let mut read = None;
        for (entity, ch) in
            [("&amp;", '&'), ("&nbsp;", '\u{a0}'), ("&quot;", '"'), ("&lt;", '<'), ("&gt;", '>')]
        {
            if rest.starts_with(entity) {
                read = Some((entity.len(), ch));
            }
        }
        let (len, ch) = read.unwrap_or((c.len_utf8(), c));
        out.push(ch);
        rest = &rest[len..];
    }
    out
}

#[test]
fn escape_outside_attributes() {
    assert_eq!(escaped("a & b", false), "a &amp; b");
    assert_eq!(escaped("<p>", false), "&lt;p&gt;");
    assert_eq!(escaped("x\u{a0}y", false), "x&nbsp;y");
    assert_eq!(escaped("say \"hi\"", false), "say \"hi\"");
    assert_eq!(escaped("", false), "");
    assert_eq!(escaped("plain é€😀", false), "plain é€😀");
}

#[test]
fn escape_inside_attributes() {
    assert_eq!(escaped("a & b", true), "a &amp; b");
    assert_eq!(escaped("<p>", true), "<p>");
    assert_eq!(escaped("x\u{a0}y", true), "x&nbsp;y");
    assert_eq!(escaped("say \"hi\"", true), "say &quot;hi&quot;");
}

#[test]
fn escape_appends_to_what_is_there() {
    let mut out = String::from("<b>");
    write_escaped(&mut out, "1 < 2", false);
    assert_eq!(out, "<b>1 &lt; 2");
}

#[test]
fn escaping_can_be_read_back() {
    for text in ["", "&", "&amp;", "<>&\u{a0}\"", "a&lt;b", "&&&", "&quot", "x\u{a0}\u{a0}y", "&nbsp;&"] {
        for attr_mode in [false, true] {
            assert_eq!(unescaped(&escaped(text, attr_mode)), text);
        }
    }
}
