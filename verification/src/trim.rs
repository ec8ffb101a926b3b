//! Splitting a text into its leading white space, its core and its trailing
//! white space.

use vstd::prelude::*;
use vstd::std_specs::iter::IteratorSpec;
use vstd::string::*;
use vstd::utf8::*;
use crate::chars::{is_ws, is_ws_spec, utf8_len, utf8_width};
use crate::strnom::{byte_len, is_leading_run};
use crate::utf8_lemmas::{
    lemma_encode_split, lemma_utf8_len_ends, lemma_utf8_len_monotonic, lemma_utf8_len_step,
    split_at_chars,
};

verus! {

broadcast use vstd::string::group_string_axioms;

/// Every character of `s` is white space.
pub open spec fn all_ws(s: Seq<char>) -> bool {
    forall|j: int| 0 <= j < s.len() ==> is_ws_spec(#[trigger] s[j])
}

/// `lead`, `core` and `trail` are the three parts of `t`: the white space
/// before the first character that is none, the text from that character to
/// the last that is none, and the white space after it. A text that is all
/// white space is all `lead`.
pub open spec fn is_trim(t: Seq<char>, lead: Seq<char>, core: Seq<char>, trail: Seq<char>) -> bool {
    &&& t == lead + core + trail
    &&& all_ws(lead)
    &&& all_ws(trail)
    &&& core.len() > 0 ==> !is_ws_spec(core.first()) && !is_ws_spec(core.last())
    &&& core.len() == 0 ==> trail.len() == 0
}

/// The three parts of `t`.
pub open spec fn trim_spec(t: Seq<char>) -> (Seq<char>, Seq<char>, Seq<char>) {
    choose|p: (Seq<char>, Seq<char>, Seq<char>)| is_trim(t, p.0, p.1, p.2)
}

/// The white space that `t` begins with.
pub open spec fn trim_lead(t: Seq<char>) -> Seq<char> {
    trim_spec(t).0
}

/// `t` without the white space at its ends.
pub open spec fn trim_core(t: Seq<char>) -> Seq<char> {
    trim_spec(t).1
}

/// The white space that `t` ends with, after its core.
pub open spec fn trim_trail(t: Seq<char>) -> Seq<char> {
    trim_spec(t).2
}

/// A text has at most one split into the three parts.
pub proof fn lemma_trim_unique(
    t: Seq<char>,
    l1: Seq<char>,
    c1: Seq<char>,
    r1: Seq<char>,
    l2: Seq<char>,
    c2: Seq<char>,
    r2: Seq<char>,
)
    requires
        is_trim(t, l1, c1, r1),
        is_trim(t, l2, c2, r2),
    ensures
        l1 == l2,
        c1 == c2,
        r1 == r2,
{
    let n = t.len() as int;
    assert(n == l1.len() + c1.len() + r1.len());
    assert(n == l2.len() + c2.len() + r2.len());
    // what stands at an index of `t`, in each of the two splits
    assert forall|j: int| 0 <= j < l1.len() implies is_ws_spec(t[j]) by {
        assert(t[j] == l1[j]);
    }
    assert forall|j: int| 0 <= j < l2.len() implies is_ws_spec(t[j]) by {
        assert(t[j] == l2[j]);
    }
    assert forall|j: int| l1.len() + c1.len() <= j < n implies is_ws_spec(t[j]) by {
        assert(t[j] == r1[j - l1.len() - c1.len()]);
    }
    assert forall|j: int| l2.len() + c2.len() <= j < n implies is_ws_spec(t[j]) by {
        assert(t[j] == r2[j - l2.len() - c2.len()]);
    }
    if c1.len() > 0 {
        assert(t[l1.len() as int] == c1.first());
        assert(t[l1.len() + c1.len() - 1] == c1.last());
    }
    if c2.len() > 0 {
        assert(t[l2.len() as int] == c2.first());
        assert(t[l2.len() + c2.len() - 1] == c2.last());
    }
    assert(l1.len() == l2.len());
    assert(c1.len() == c2.len());
    assert(l1 =~= t.subrange(0, l1.len() as int));
    assert(l2 =~= t.subrange(0, l2.len() as int));
    assert(c1 =~= t.subrange(l1.len() as int, (l1.len() + c1.len()) as int));
    assert(c2 =~= t.subrange(l2.len() as int, (l2.len() + c2.len()) as int));
    assert(r1 =~= t.subrange((l1.len() + c1.len()) as int, n));
    assert(r2 =~= t.subrange((l2.len() + c2.len()) as int, n));
}

/// Every text has a split into the three parts.
pub proof fn lemma_trim_exists(t: Seq<char>)
    ensures
        is_trim(t, trim_lead(t), trim_core(t), trim_trail(t)),
    decreases t.len(),
{
    let empty = Seq::<char>::empty();
    if t.len() == 0 {
        assert(t =~= t + empty + empty);
        assert(is_trim(t, (t, empty, empty).0, (t, empty, empty).1, (t, empty, empty).2));
    } else {
        let init = t.drop_last();
        let c = t.last();
        lemma_trim_exists(init);
        let l = trim_lead(init);
        let v = trim_core(init);
        let r = trim_trail(init);
        assert(t =~= init.push(c));
        if !is_ws_spec(c) {
            let core = v + r.push(c);
            assert(t =~= l + core + empty);
            assert(core.last() == c);
            if v.len() > 0 {
                assert(core.first() == v.first());
            }
            assert(is_trim(t, (l, core, empty).0, (l, core, empty).1, (l, core, empty).2));
        } else if v.len() > 0 {
            let trail = r.push(c);
            assert(t =~= l + v + trail);
            assert(is_trim(t, (l, v, trail).0, (l, v, trail).1, (l, v, trail).2));
        } else {
            let lead = l.push(c);
            assert(t =~= lead + empty + empty);
            assert(is_trim(t, (lead, empty, empty).0, (lead, empty, empty).1, (lead, empty, empty).2));
        }
    }
}

/// The three parts of a text, as the three parts are defined.
pub proof fn lemma_trim_is(t: Seq<char>, lead: Seq<char>, core: Seq<char>, trail: Seq<char>)
    requires
        is_trim(t, lead, core, trail),
    ensures
        trim_spec(t) == (lead, core, trail),
{
    lemma_trim_exists(t);
    lemma_trim_unique(t, lead, core, trail, trim_lead(t), trim_core(t), trim_trail(t));
}

/// The scanner and the trimming agree on white space: the leading run that
/// the scanner skips at the start of a text is the leading part of the text.
pub proof fn lemma_leading_run_is_trim_lead(t: Seq<char>, n: int)
    requires
        is_leading_run(t, |c: char| is_ws_spec(c), n),
    ensures
        trim_lead(t) == t.take(n),
{
    lemma_trim_exists(t);
    let lead = trim_lead(t);
    let core = trim_core(t);
    let m = lead.len() as int;
    assert forall|j: int| 0 <= j < m implies is_ws_spec(t[j]) by {
        assert(t[j] == lead[j]);
    }
    if core.len() > 0 {
        assert(t[m] == core.first());
    }
    if n < m {
        assert(is_ws_spec(t[n]));
    } else if m < n {
        assert(is_ws_spec(t[m]));
    }
    assert(lead =~= t.take(n));
}

/// Splits `i` into its leading white space, its core and its trailing white
/// space. The three are slices of `i`.
pub fn trim<'a>(i: &'a str) -> (r: (&'a str, &'a str, &'a str))
    ensures
        is_trim(i@, r.0@, r.1@, r.2@),
        (r.0@, r.1@, r.2@) == trim_spec(i@),
{
    let total = byte_len(i);
    let mut it = i.chars();
    let mut pos: usize = 0;
    let mut start: usize = 0;
    let mut end: usize = 0;
    let mut found = false;
    let ghost mut k: int = 0;
    let ghost mut ks: int = 0;
    let ghost mut ke: int = 0;
    proof {
        lemma_utf8_len_ends(i@);
        assert(i@.skip(0) =~= i@);
    }
    loop
        invariant_except_break
            it.remaining() == i@.skip(k),
        invariant
            0 <= k <= i@.len(),
            pos == utf8_len(i@.take(k)),
            total == utf8_len(i@),
            !found ==> forall|j: int| 0 <= j < k ==> is_ws_spec(#[trigger] i@[j]),
            found ==> {
                &&& 0 <= ks < ke <= k
                &&& start == utf8_len(i@.take(ks))
                &&& end == utf8_len(i@.take(ke))
                &&& forall|j: int| 0 <= j < ks ==> is_ws_spec(#[trigger] i@[j])
                &&& !is_ws_spec(i@[ks])
                &&& !is_ws_spec(i@[ke - 1])
                &&& forall|j: int| ke <= j < k ==> is_ws_spec(#[trigger] i@[j])
            },
        ensures
            k == i@.len(),
        decreases i@.len() - k,
    {
        match it.next() {
            Some(c) => {
                proof {
                    lemma_utf8_len_step(i@, k);
                    assert(i@.skip(k).drop_first() =~= i@.skip(k + 1));
                }
                let next = pos + utf8_width(c);
                if !is_ws(c) {
                    if !found {
                        found = true;
                        start = pos;
                        proof {
                            ks = k;
                        }
                    }
                    end = next;
                    proof {
                        ke = k + 1;
                    }
                }
                pos = next;
                proof {
                    k = k + 1;
                }
            },
            None => {
                break ;
            },
        }
    }
    if !found {
        start = pos;
        end = pos;
        proof {
            ks = k;
            ke = k;
        }
    }
    proof {
        lemma_utf8_len_monotonic(i@, ks, ke);
        lemma_encode_split(i@.take(ke), ks);
        assert(i@.take(ke).take(ks) =~= i@.take(ks));
        assert(i@.take(ke).skip(ks) =~= i@.skip(ks).take(ke - ks));
    }
    let (lead, rest) = split_at_chars(i, start, Ghost(ks));
    let (core, trail) = split_at_chars(rest, end - start, Ghost(ke - ks));
    proof {
        assert(i@ =~= lead@ + core@ + trail@);
        assert forall|j: int| 0 <= j < lead@.len() implies is_ws_spec(#[trigger] lead@[j]) by {
            assert(lead@[j] == i@[j]);
        }
        assert forall|j: int| 0 <= j < trail@.len() implies is_ws_spec(#[trigger] trail@[j]) by {
            assert(trail@[j] == i@[ke + j]);
        }
        if core@.len() > 0 {
            assert(core@.first() == i@[ks]);
            assert(core@.last() == i@[ke - 1]);
        }
        lemma_trim_is(i@, lead@, core@, trail@);
    }
    (lead, core, trail)
}

} // verus!
