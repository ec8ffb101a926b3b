//! Escaping of text and attribute values, and the reading that undoes it.

use vstd::prelude::*;
use vstd::std_specs::iter::IteratorSpec;
use vstd::string::*;

verus! {

broadcast use vstd::string::group_string_axioms;

/// What is written for one character. `&` and the non-breaking space are
/// always replaced; the double quote only inside an attribute value; `<` and
/// `>` only outside one.
pub open spec fn escape_char(c: char, attr_mode: bool) -> Seq<char> {
    if c == '&' {
        "&amp;"@
    } else if c == '\u{a0}' {
        "&nbsp;"@
    } else if c == '"' && attr_mode {
        "&quot;"@
    } else if c == '<' && !attr_mode {
        "&lt;"@
    } else if c == '>' && !attr_mode {
        "&gt;"@
    } else {
        seq![c]
    }
}

/// What is written for a text: what is written for each of its characters,
/// in order.
pub open spec fn escape(s: Seq<char>, attr_mode: bool) -> Seq<char>
    decreases s.len(),
{
    if s.len() == 0 {
        Seq::<char>::empty()
    } else {
        escape_char(s[0], attr_mode) + escape(s.drop_first(), attr_mode)
    }
}

/// Reads escaped text back: each of the five references stands for its
/// character, and every other character for itself.
pub open spec fn unescape(s: Seq<char>) -> Seq<char>
    decreases s.len(),
{
    if s.len() == 0 {
        Seq::<char>::empty()
    } else if s.len() >= 5 && s.take(5) == "&amp;"@ {
        seq!['&'] + unescape(s.skip(5))
    } else if s.len() >= 6 && s.take(6) == "&nbsp;"@ {
        seq!['\u{a0}'] + unescape(s.skip(6))
    } else if s.len() >= 6 && s.take(6) == "&quot;"@ {
        seq!['"'] + unescape(s.skip(6))
    } else if s.len() >= 4 && s.take(4) == "&lt;"@ {
        seq!['<'] + unescape(s.skip(4))
    } else if s.len() >= 4 && s.take(4) == "&gt;"@ {
        seq!['>'] + unescape(s.skip(4))
    } else {
        seq![s[0]] + unescape(s.drop_first())
    }
}

/// Escaping distributes over concatenation.
pub proof fn lemma_escape_concat(a: Seq<char>, b: Seq<char>, attr_mode: bool)
    ensures
        escape(a + b, attr_mode) == escape(a, attr_mode) + escape(b, attr_mode),
    decreases a.len(),
{
    if a.len() == 0 {
        assert(a + b =~= b);
        assert(escape(a, attr_mode) + escape(b, attr_mode) =~= escape(b, attr_mode));
    } else {
        lemma_escape_concat(a.drop_first(), b, attr_mode);
        assert((a + b).drop_first() =~= a.drop_first() + b);
        assert(escape(a + b, attr_mode) =~= escape(a, attr_mode) + escape(b, attr_mode));
    }
}

/// One more character adds what is written for it.
pub proof fn lemma_escape_step(s: Seq<char>, k: int, attr_mode: bool)
    requires
        0 <= k < s.len(),
    ensures
        escape(s.take(k + 1), attr_mode) == escape(s.take(k), attr_mode) + escape_char(
            s[k],
            attr_mode,
        ),
{
    let one = seq![s[k]];
    assert(s.take(k + 1) =~= s.take(k) + one);
    lemma_escape_concat(s.take(k), one, attr_mode);
    assert(one.drop_first() =~= Seq::<char>::empty());
    assert(escape(one, attr_mode) =~= escape_char(s[k], attr_mode)) by {
        reveal_with_fuel(escape, 2);
    }
}

/// Reading back what was written for a text gives the text, in attribute
/// values and outside them.
pub proof fn lemma_unescape_escape(s: Seq<char>, attr_mode: bool)
    ensures
        unescape(escape(s, attr_mode)) == s,
    decreases s.len(),
{
    reveal_strlit("&amp;");
    reveal_strlit("&nbsp;");
    reveal_strlit("&quot;");
    reveal_strlit("&lt;");
    reveal_strlit("&gt;");
    if s.len() > 0 {
        let c = s[0];
        let head = escape_char(c, attr_mode);
        let tail = escape(s.drop_first(), attr_mode);
        let whole = head + tail;
        lemma_unescape_escape(s.drop_first(), attr_mode);
        assert(whole.skip(head.len() as int) =~= tail);
        assert(whole.take(head.len() as int) =~= head);
        assert(whole[0] == head[0]);
        if whole.len() >= 2 && head.len() >= 2 {
            assert(whole[1] == head[1]);
        }
        if head.len() == 1 {
            assert(whole.drop_first() =~= tail);
            assert(c != '&');
            if whole.len() >= 4 {
                assert(whole.take(4)[0] == c);
            }
            if whole.len() >= 5 {
                assert(whole.take(5)[0] == c);
            }
            if whole.len() >= 6 {
                assert(whole.take(6)[0] == c);
            }
        } else {
            if whole.len() >= 4 {
                assert(whole.take(4)[1] == head[1]);
            }
            if whole.len() >= 5 {
                assert(whole.take(5)[1] == head[1]);
            }
            if whole.len() >= 6 {
                assert(whole.take(6)[1] == head[1]);
            }
        }
        assert(unescape(whole) =~= seq![c] + unescape(tail));
        assert(s =~= seq![c] + s.drop_first());
    }
}

/// Calls `String::push`, which appends one character to the string.
#[verifier::external_body]
fn push_char(out: &mut String, c: char)
    ensures
        final(out)@ == old(out)@.push(c),
{
    out.push(c);
}

/// Appends to `out` what is written for `text`.
pub fn write_escaped(out: &mut String, text: &str, attr_mode: bool)
    ensures
        final(out)@ == old(out)@ + escape(text@, attr_mode),
{
    let ghost before = out@;
    let mut it = text.chars();
    let ghost mut k: int = 0;
    proof {
        assert(text@.skip(0) =~= text@);
        assert(text@.take(0) =~= Seq::<char>::empty());
        assert(before + escape(text@.take(0), attr_mode) =~= before);
    }
    loop
        invariant_except_break
            it.remaining() == text@.skip(k),
        invariant
            0 <= k <= text@.len(),
            out@ == before + escape(text@.take(k), attr_mode),
        ensures
            k == text@.len(),
        decreases text@.len() - k,
    {
        match it.next() {
            Some(c) => {
                proof {
                    lemma_escape_step(text@, k, attr_mode);
                    assert(text@.skip(k).drop_first() =~= text@.skip(k + 1));
                }
                let ghost so_far = out@;
                if c == '&' {
                    out.append("&amp;");
                } else if c == '\u{a0}' {
                    out.append("&nbsp;");
                } else if c == '"' && attr_mode {
                    out.append("&quot;");
                } else if c == '<' && !attr_mode {
                    out.append("&lt;");
                } else if c == '>' && !attr_mode {
                    out.append("&gt;");
                } else {
                    push_char(out, c);
                }
                proof {
                    assert(out@ =~= so_far + escape_char(c, attr_mode));
                    assert(out@ =~= before + escape(text@.take(k + 1), attr_mode));
                    k = k + 1;
                }
            },
            None => {
                break ;
            },
        }
    }
    proof {
        assert(text@.take(k) =~= text@);
    }
}

} // verus!
