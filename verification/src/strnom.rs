//! The source cursor: an immutable view of what is left of the source text,
//! with the absolute byte offset at which it starts.

use std::str::Chars;
use vstd::prelude::*;
use vstd::std_specs::iter::IteratorSpec;
use vstd::string::*;
use vstd::utf8::*;
pub use crate::chars::is_ws;
use crate::chars::{is_ws_spec, utf8_len, utf8_width};
use crate::utf8_lemmas::{
    lemma_encode_split, lemma_prefix_is_boundary, lemma_utf8_len_ends, lemma_utf8_len_step,
    split_at_chars,
};

verus! {

broadcast use vstd::string::group_string_axioms;

/// `k` is the index of the first occurrence of `p` in `s`.
pub open spec fn is_first_match(s: Seq<char>, p: char, k: int) -> bool {
    &&& 0 <= k < s.len()
    &&& s[k] == p
    &&& forall|j: int| 0 <= j < k ==> s[j] != p
}

/// `r` is the byte offset in `s` of the first occurrence of `p`, or `None`
/// where `p` does not occur.
pub open spec fn is_find_result(s: Seq<char>, p: char, r: Option<usize>) -> bool {
    match r {
        Some(b) => exists|k: int| #[trigger] is_first_match(s, p, k) && b == utf8_len(s.take(k)),
        None => forall|j: int| 0 <= j < s.len() ==> s[j] != p,
    }
}

/// Number of bytes of a string slice.
pub fn byte_len(s: &str) -> (n: usize)
    ensures
        n == utf8_len(s@),
{
    s.as_bytes().len()
}

/// Byte offset of the first occurrence of `p` in `s`.
pub fn find_char(s: &str, p: char) -> (r: Option<usize>)
    ensures
        is_find_result(s@, p, r),
{
    let total = byte_len(s);
    let mut it = s.chars();
    let mut pos: usize = 0;
    let ghost mut k: int = 0;
    proof {
        lemma_utf8_len_ends(s@);
        assert(s@.skip(0) =~= s@);
    }
    loop
        invariant
            0 <= k <= s@.len(),
            it.remaining() == s@.skip(k),
            pos == utf8_len(s@.take(k)),
            total == utf8_len(s@),
            forall|j: int| 0 <= j < k ==> s@[j] != p,
        decreases s@.len() - k,
    {
        match it.next() {
            Some(c) => {
                proof {
                    lemma_utf8_len_step(s@, k);
                    assert(s@.skip(k).drop_first() =~= s@.skip(k + 1));
                }
                if c == p {
                    assert(is_first_match(s@, p, k));
                    return Some(pos);
                }
                pos = pos + utf8_width(c);
                proof {
                    k = k + 1;
                }
            },
            None => {
                return None;
            },
        }
    }
}

/// Whether `s` begins with `prefix`.
pub fn has_prefix(s: &str, prefix: &str) -> (r: bool)
    ensures
        r == prefix@.is_prefix_of(s@),
{
    let mut it = s.chars();
    let mut pt = prefix.chars();
    let ghost mut k: int = 0;
    proof {
        assert(s@.skip(0) =~= s@);
        assert(prefix@.skip(0) =~= prefix@);
    }
    loop
        invariant
            0 <= k <= s@.len(),
            k <= prefix@.len(),
            it.remaining() == s@.skip(k),
            pt.remaining() == prefix@.skip(k),
            forall|j: int| 0 <= j < k ==> s@[j] == prefix@[j],
        decreases prefix@.len() - k,
    {
        match pt.next() {
            None => {
                assert(prefix@ =~= s@.subrange(0, prefix@.len() as int));
                return true;
            },
            Some(c) => {
                proof {
                    assert(prefix@.skip(k).drop_first() =~= prefix@.skip(k + 1));
                }
                match it.next() {
                    None => {
                        return false;
                    },
                    Some(d) => {
                        proof {
                            assert(s@.skip(k).drop_first() =~= s@.skip(k + 1));
                        }
                        if c != d {
                            proof {
                                assert(prefix@[k] != s@[k]);
                                if prefix@.is_prefix_of(s@) {
                                    assert(s@.subrange(0, prefix@.len() as int)[k] == s@[k]);
                                }
                            }
                            return false;
                        }
                        proof {
                            k = k + 1;
                        }
                    },
                }
            },
        }
    }
}

/// Whether two string slices hold the same text.
pub fn same_text(a: &str, b: &str) -> (r: bool)
    ensures
        r == (a@ == b@),
{
    let mut it = a.chars();
    let mut jt = b.chars();
    let ghost mut k: int = 0;
    proof {
        assert(a@.skip(0) =~= a@);
        assert(b@.skip(0) =~= b@);
    }
    loop
        invariant
            0 <= k <= a@.len(),
            k <= b@.len(),
            it.remaining() == a@.skip(k),
            jt.remaining() == b@.skip(k),
            forall|j: int| 0 <= j < k ==> a@[j] == b@[j],
        decreases a@.len() - k,
    {
        let x = it.next();
        let y = jt.next();
        match (x, y) {
            (None, None) => {
                assert(a@ =~= b@);
                return true;
            },
            (Some(c), Some(d)) => {
                if c != d {
                    assert(a@[k] != b@[k]);
                    return false;
                }
                proof {
                    assert(a@.skip(k).drop_first() =~= a@.skip(k + 1));
                    assert(b@.skip(k).drop_first() =~= b@.skip(k + 1));
                    k = k + 1;
                }
            },
            _ => {
                assert(a@.len() != b@.len());
                return false;
            },
        }
    }
}

/// What is left of a source text, and where it starts.
#[derive(Copy, Clone, Eq, PartialEq, Debug)]
pub struct Cursor<'a> {
    /// The text that is left.
    pub rest: &'a str,
    /// Byte offset of `rest` in the source.
    pub off: u32,
}

impl<'a> Cursor<'a> {
    /// The bytes that are left.
    pub open spec fn bytes(&self) -> Seq<u8> {
        self.rest.spec_bytes()
    }

    /// Length of the whole source: the offset plus what is left. It is the
    /// same for every cursor derived from one source.
    pub open spec fn source_len(&self) -> int {
        self.off + self.bytes().len()
    }

    /// The source fits the offset's 32 bits.
    pub open spec fn wf(&self) -> bool {
        self.source_len() <= u32::MAX
    }

    /// `amt` is an offset at which the rest may be cut: the start of a
    /// character, or the end.
    pub open spec fn is_boundary(&self, amt: int) -> bool {
        is_char_boundary(self.bytes(), amt)
    }

    /// The text that is left after the first `amt` bytes.
    pub open spec fn tail(&self, amt: int) -> Seq<char> {
        decode_utf8(self.bytes().skip(amt))
    }

    /// The cursor `amt` bytes further in.
    pub fn adv(&self, amt: usize) -> (r: Cursor<'a>)
        requires
            self.is_boundary(amt as int),
            self.off + amt <= u32::MAX,
        ensures
            r.bytes() == self.bytes().skip(amt as int),
            r.bytes().len() == self.bytes().len() - amt,
            r.rest@ == self.tail(amt as int),
            r.off == self.off + amt,
            r.source_len() == self.source_len(),
            r.wf() == self.wf(),
    {
        proof {
            encode_utf8_valid_utf8(self.rest@);
            lemma_boundary_in_range(self.bytes(), amt as int);
        }
        let parts = self.rest.split_at(amt);
        proof {
            encode_utf8_decode_utf8(parts.1@);
        }
        Cursor { rest: parts.1, off: self.off + (amt as u32) }
    }

    /// Byte offset of the next occurrence of `p`.
    pub fn find(&self, p: char) -> (r: Option<usize>)
        ensures
            is_find_result(self.rest@, p, r),
    {
        find_char(self.rest, p)
    }

    /// Byte offset, counted from `amt`, of the next occurrence of `p` at or
    /// after `amt`.
    pub fn adv_find(&self, amt: usize, p: char) -> (r: Option<usize>)
        requires
            self.is_boundary(amt as int),
        ensures
            is_find_result(self.tail(amt as int), p, r),
    {
        let parts = self.rest.split_at(amt);
        proof {
            encode_utf8_decode_utf8(parts.1@);
        }
        find_char(parts.1, p)
    }

    /// Whether what is left after `amt` bytes begins with `s`.
    pub fn adv_starts_with(&self, amt: usize, s: &str) -> (r: bool)
        requires
            self.is_boundary(amt as int),
        ensures
            r == s@.is_prefix_of(self.tail(amt as int)),
    {
        let parts = self.rest.split_at(amt);
        proof {
            encode_utf8_decode_utf8(parts.1@);
        }
        has_prefix(parts.1, s)
    }

    /// Whether what is left begins with `s`.
    pub fn starts_with(&self, s: &str) -> (r: bool)
        ensures
            r == s@.is_prefix_of(self.rest@),
    {
        has_prefix(self.rest, s)
    }

    /// Whether nothing is left.
    pub fn is_empty(&self) -> (r: bool)
        ensures
            r == (self.rest@.len() == 0),
            r == (self.bytes().len() == 0),
    {
        proof {
            lemma_empty_iff_no_bytes(self.rest@);
        }
        self.rest.is_empty()
    }

    /// Number of bytes that are left.
    pub fn len(&self) -> (n: usize)
        ensures
            n == self.bytes().len(),
    {
        byte_len(self.rest)
    }

    /// The characters that are left, in order.
    pub fn chars(&self) -> (it: Chars<'a>)
        ensures
            it.remaining() == self.rest@,
    {
        self.rest.chars()
    }
}

/// The two ways in which a parser does not match.
#[derive(Debug, Copy, Clone)]
pub enum LexError {
    /// The whole parse attempt must be given up.
    Fail,
    /// This alternative did not match; nothing was consumed.
    Next,
}

/// What a parser gives: the cursor after what it consumed and its value, or
/// one of the two errors.
pub type PResult<'a, O> = Result<(Cursor<'a>, O), LexError>;

/// `next` and `span` are what is left of `i` and what was taken from it when
/// its first `n` characters are consumed.
pub open spec fn is_cut(i: Cursor, n: int, next: Cursor, span: Seq<char>) -> bool {
    &&& 0 <= n <= i.rest@.len()
    &&& span == i.rest@.take(n)
    &&& next.rest@ == i.rest@.skip(n)
    &&& next.off == i.off + utf8_len(span)
    &&& next.bytes().len() == i.bytes().len() - utf8_len(span)
    &&& next.source_len() == i.source_len()
}

/// The first `n` characters of `s` satisfy `pred`, and the one after them,
/// if there is one, does not: `n` is the length of the leading run.
pub open spec fn is_leading_run(s: Seq<char>, pred: spec_fn(char) -> bool, n: int) -> bool {
    &&& 0 <= n <= s.len()
    &&& forall|j: int| 0 <= j < n ==> pred(#[trigger] s[j])
    &&& n < s.len() ==> !pred(s[n])
}

/// The same, in terms of what the calls of an executable predicate gave:
/// `true` on each of the first `n` characters, `false` on the next.
pub open spec fn is_observed_run<F: Fn(char) -> bool>(s: Seq<char>, f: F, n: int) -> bool {
    &&& 0 <= n <= s.len()
    &&& forall|j: int| 0 <= j < n ==> call_ensures(f, (#[trigger] s[j],), true)
    &&& n < s.len() ==> call_ensures(f, (s[n],), false)
}

/// `f` gives one answer for each character.
pub open spec fn decides<F: Fn(char) -> bool>(f: F) -> bool {
    forall|c: char| !(call_ensures(f, (c,), true) && call_ensures(f, (c,), false))
}

/// Consumes the first `k` characters of `i`, which take `mid` bytes.
fn cut<'a>(i: Cursor<'a>, mid: usize, Ghost(k): Ghost<int>) -> (r: (Cursor<'a>, &'a str))
    requires
        i.wf(),
        0 <= k <= i.rest@.len(),
        mid == utf8_len(i.rest@.take(k)),
    ensures
        is_cut(i, k, r.0, r.1@),
        r.0.wf(),
{
    proof {
        lemma_tail_is_skip(i, k);
        lemma_encode_split(i.rest@, k);
    }
    let parts = split_at_chars(i.rest, mid, Ghost(k));
    (i.adv(mid), parts.0)
}

/// Consumes the longest leading run of characters on which `f` answers
/// `true`. It never fails: an empty run is a match.
pub fn take_while<'a, F: Fn(char) -> bool>(i: Cursor<'a>, f: F) -> (r: PResult<'a, &'a str>)
    requires
        i.wf(),
        forall|c: char| call_requires(f, (c,)),
    ensures
        r matches Ok((next, span)) && is_cut(i, span@.len() as int, next, span@) && is_observed_run(
            i.rest@,
            f,
            span@.len() as int,
        ) && next.wf(),
{
    let s = i.rest;
    let total = byte_len(s);
    let mut it = s.chars();
    let mut pos: usize = 0;
    let ghost mut k: int = 0;
    proof {
        lemma_utf8_len_ends(s@);
        assert(s@.skip(0) =~= s@);
    }
    loop
        invariant_except_break
            it.remaining() == s@.skip(k),
        invariant
            0 <= k <= s@.len(),
            pos == utf8_len(s@.take(k)),
            total == utf8_len(s@),
            forall|c: char| call_requires(f, (c,)),
            forall|j: int| 0 <= j < k ==> call_ensures(f, (#[trigger] s@[j],), true),
        ensures
            k < s@.len() ==> call_ensures(f, (s@[k],), false),
        decreases s@.len() - k,
    {
        match it.next() {
            Some(c) => {
                proof {
                    lemma_utf8_len_step(s@, k);
                    assert(s@.skip(k).drop_first() =~= s@.skip(k + 1));
                }
                if !f(c) {
                    break ;
                }
                pos = pos + utf8_width(c);
                proof {
                    k = k + 1;
                }
            },
            None => {
                break ;
            },
        }
    }
    let parts = cut(i, pos, Ghost(k));
    Ok(parts)
}

/// Consumes `lit` where the input begins with it; otherwise `Next`, with
/// nothing consumed.
pub fn tag<'a>(i: Cursor<'a>, lit: &str) -> (r: PResult<'a, &'a str>)
    requires
        i.wf(),
    ensures
        match r {
            Ok((next, span)) => lit@.is_prefix_of(i.rest@) && span@ == lit@ && is_cut(
                i,
                lit@.len() as int,
                next,
                span@,
            ) && next.wf(),
            Err(e) => !lit@.is_prefix_of(i.rest@) && e == LexError::Next,
        },
{
    if i.starts_with(lit) {
        let n = byte_len(lit);
        proof {
            assert(i.rest@.take(lit@.len() as int) =~= lit@);
        }
        Ok(cut(i, n, Ghost(lit@.len() as int)))
    } else {
        Err(LexError::Next)
    }
}

/// Runs `p`; where it fails, in either way, gives `None` and the cursor it
/// was handed. It never returns an error.
pub fn opt<'a, O, P: Fn(Cursor<'a>) -> PResult<'a, O>>(i: Cursor<'a>, p: P) -> (r: PResult<
    'a,
    Option<O>,
>)
    requires
        call_requires(p, (i,)),
    ensures
        match r {
            Ok((next, Some(o))) => call_ensures(p, (i,), Ok((next, o))),
            Ok((next, None)) => next == i && exists|e: LexError| call_ensures(p, (i,), Err(e)),
            Err(_) => false,
        },
{
    let res = p(i);
    match res {
        Ok((next, o)) => {
            assert(res == Ok::<(Cursor<'a>, O), LexError>((next, o)));
            Ok((next, Some(o)))
        },
        Err(e) => {
            assert(res == Err::<(Cursor<'a>, O), LexError>(e));
            Ok((i, None))
        },
    }
}

/// Runs `p`, then `q` on what `p` left, and gives both values. The first
/// error, of either kind, ends the sequence and is returned as it is.
pub fn do_parse<
    'a,
    A,
    B,
    P: Fn(Cursor<'a>) -> PResult<'a, A>,
    Q: Fn(Cursor<'a>) -> PResult<'a, B>,
>(i: Cursor<'a>, p: P, q: Q) -> (r: PResult<'a, (A, B)>)
    requires
        call_requires(p, (i,)),
        forall|mid: Cursor<'a>, a: A| call_ensures(p, (i,), Ok((mid, a))) ==> call_requires(q, (mid,)),
    ensures
        match r {
            Ok((next, (a, b))) => exists|mid: Cursor<'a>|
                call_ensures(p, (i,), Ok((mid, a))) && #[trigger] call_ensures(
                    q,
                    (mid,),
                    Ok((next, b)),
                ),
            Err(e) => call_ensures(p, (i,), Err(e)) || exists|mid: Cursor<'a>, a: A|
                #[trigger] call_ensures(p, (i,), Ok((mid, a))) && call_ensures(q, (mid,), Err(e)),
        },
{
    let first = p(i);
    match first {
        Err(e) => Err(e),
        Ok((mid, a)) => {
            assert(first == Ok::<(Cursor<'a>, A), LexError>((mid, a)));
            let second = q(mid);
            match second {
                Err(e) => {
                    assert(call_ensures(p, (i,), Ok::<(Cursor<'a>, A), LexError>((mid, a)))
                        && call_ensures(q, (mid,), Err::<(Cursor<'a>, B), LexError>(e)));
                    Err(e)
                },
                Ok((next, b)) => {
                    assert(second == Ok::<(Cursor<'a>, B), LexError>((next, b)));
                    assert(exists|m: Cursor<'a>|
                        call_ensures(p, (i,), Ok::<(Cursor<'a>, A), LexError>((m, a)))
                            && #[trigger] call_ensures(
                            q,
                            (m,),
                            Ok::<(Cursor<'a>, B), LexError>((next, b)),
                        ));
                    let out = Ok((next, (a, b)));
                    assert(out matches Ok((n2, (a2, b2))) && n2 == next && a2 == a && b2 == b);
                    out
                },
            }
        },
    }
}

/// Turns any error into `Fail`.
pub fn map_fail<T, E>(r: Result<T, E>) -> (out: Result<T, LexError>)
    ensures
        match r {
            Ok(v) => out == Ok::<T, LexError>(v),
            Err(_) => out == Err::<T, LexError>(LexError::Fail),
        },
{
    match r {
        Ok(v) => Ok(v),
        Err(_) => Err(LexError::Fail),
    }
}

/// Consumes the leading white space.
pub fn ws<'a>(i: Cursor<'a>) -> (r: PResult<'a, &'a str>)
    requires
        i.wf(),
    ensures
        r matches Ok((next, span)) && is_cut(i, span@.len() as int, next, span@) && is_leading_run(
            i.rest@,
            |c: char| is_ws_spec(c),
            span@.len() as int,
        ) && next.wf(),
{
    take_while(i, is_ws)
}

/// The cursor after the leading white space.
pub fn skip_ws<'a>(input: Cursor<'a>) -> (r: Cursor<'a>)
    requires
        input.wf(),
    ensures
        ({
            let n = input.rest@.len() - r.rest@.len();
            &&& is_leading_run(input.rest@, |c: char| is_ws_spec(c), n)
            &&& is_cut(input, n, r, input.rest@.take(n))
        }),
        r.wf(),
{
    match ws(input) {
        Ok((rest, _)) => rest,
        Err(_) => input,
    }
}

/// A text has one leading run.
pub proof fn lemma_leading_run_unique(s: Seq<char>, pred: spec_fn(char) -> bool, n: int, m: int)
    requires
        is_leading_run(s, pred, n),
        is_leading_run(s, pred, m),
    ensures
        n == m,
{
    if n < m {
        assert(pred(s[n]));
    } else if m < n {
        assert(pred(s[m]));
    }
}

/// After a leading run has been taken, the leading run of what is left is
/// empty: scanning twice at one position matches nothing the second time.
pub proof fn lemma_leading_run_exhausted(s: Seq<char>, pred: spec_fn(char) -> bool, n: int, m: int)
    requires
        is_leading_run(s, pred, n),
        is_leading_run(s.skip(n), pred, m),
    ensures
        m == 0,
{
    if m > 0 {
        assert(s.skip(n)[0] == s[n]);
        assert(pred(s.skip(n)[0]));
    }
}

/// The same of an executable predicate that gives one answer for each
/// character: what `take_while` consumes at the position where an earlier
/// `take_while` stopped is empty.
pub proof fn lemma_take_while_exhausted<F: Fn(char) -> bool>(s: Seq<char>, f: F, n: int, m: int)
    requires
        decides(f),
        is_observed_run(s, f, n),
        is_observed_run(s.skip(n), f, m),
    ensures
        m == 0,
{
    if m > 0 {
        assert(s.skip(n)[0] == s[n]);
        assert(call_ensures(f, (s.skip(n)[0],), true));
    }
}

/// The end of the first `k` characters is an offset at which the rest may be
/// cut, and what is left after it are the other characters.
pub proof fn lemma_tail_is_skip(c: Cursor, k: int)
    requires
        0 <= k <= c.rest@.len(),
    ensures
        c.is_boundary(utf8_len(c.rest@.take(k)) as int),
        c.tail(utf8_len(c.rest@.take(k)) as int) == c.rest@.skip(k),
{
    lemma_prefix_is_boundary(c.rest@, k);
    lemma_encode_split(c.rest@, k);
    encode_utf8_decode_utf8(c.rest@.skip(k));
}

/// A character boundary lies within the bytes.
pub proof fn lemma_boundary_in_range(bytes: Seq<u8>, amt: int)
    requires
        valid_utf8(bytes),
        is_char_boundary(bytes, amt),
    ensures
        0 <= amt <= bytes.len(),
{
}

/// A text is empty exactly when its encoding is.
pub proof fn lemma_empty_iff_no_bytes(s: Seq<char>)
    ensures
        (s.len() == 0) == (encode_utf8(s).len() == 0),
{
    if s.len() > 0 {
        lemma_utf8_len_step(s, 0);
        lemma_utf8_len_ends(s);
    }
}

} // verus!
