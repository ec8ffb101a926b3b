//! The events of a document as values, what a run of them writes, and what
//! holds of the runs that stand inside an element that ignores its children.

use vstd::prelude::*;
use crate::serializer::{
    after_comment, after_end, after_finish, after_start, after_text, comment_output,
    doctype_output, end_output, is_void_name, start_output, text_output, Name, Namespace, State,
};

verus! {

/// One event of a document.
pub enum Event {
    StartElement { element: Name, attrs: Seq<(Name, Seq<char>)> },
    EndElement { element: Name },
    Text { content: Seq<char> },
    Comment { content: Seq<char> },
    Doctype { name: Seq<char> },
    End,
}

impl Event {
    /// The start or the end of an element.
    pub open spec fn is_element(self) -> bool {
        self is StartElement || self is EndElement
    }
}

/// The event may come in this state: an element ends only where one is
/// open, and the document only where none is.
pub open spec fn accepts(s: State, e: Event) -> bool {
    &&& s.wf()
    &&& e is EndElement ==> s.depth() >= 1
    &&& e is End ==> s.depth() == 0
}

/// The state after an event.
pub open spec fn step_state(s: State, e: Event) -> State {
    match e {
        Event::StartElement { element, attrs } => after_start(s, element),
        Event::EndElement { element } => after_end(s),
        Event::Text { content } => after_text(s, content),
        Event::Comment { content } => after_comment(s),
        Event::Doctype { name } => s,
        Event::End => after_finish(s),
    }
}

/// What an event writes.
pub open spec fn step_output(s: State, e: Event) -> Seq<char> {
    match e {
        Event::StartElement { element, attrs } => start_output(s, element, attrs),
        Event::EndElement { element } => end_output(s, element),
        Event::Text { content } => text_output(s, content),
        Event::Comment { content } => comment_output(s, content),
        Event::Doctype { name } => doctype_output(name),
        Event::End => s.pending(),
    }
}

/// The state after a run of events.
pub open spec fn run_state(s: State, events: Seq<Event>) -> State
    decreases events.len(),
{
    if events.len() == 0 {
        s
    } else {
        run_state(step_state(s, events[0]), events.drop_first())
    }
}

/// What a run of events writes: what each writes, in order.
pub open spec fn run_output(s: State, events: Seq<Event>) -> Seq<char>
    decreases events.len(),
{
    if events.len() == 0 {
        Seq::<char>::empty()
    } else {
        step_output(s, events[0]) + run_output(step_state(s, events[0]), events.drop_first())
    }
}

/// The run holds starts and ends of elements only, and ends none but those
/// that it started itself or the `open` that were open before it.
pub open spec fn is_nested(events: Seq<Event>, open: nat) -> bool
    decreases events.len(),
{
    if events.len() == 0 {
        true
    } else {
        match events[0] {
            Event::StartElement { .. } => is_nested(events.drop_first(), open + 1),
            Event::EndElement { .. } => open > 0 && is_nested(
                events.drop_first(),
                (open - 1) as nat,
            ),
            _ => false,
        }
    }
}

/// Number of elements that are open after a nested run, of those that it
/// started and the `open` before it.
pub open spec fn open_after(events: Seq<Event>, open: nat) -> nat
    decreases events.len(),
{
    if events.len() == 0 {
        open
    } else {
        match events[0] {
            Event::StartElement { .. } => open_after(events.drop_first(), open + 1),
            Event::EndElement { .. } => open_after(events.drop_first(), (open - 1) as nat),
            _ => open,
        }
    }
}

/// The frame at `base - 1` and all above it ignore their children.
pub open spec fn ignores_from(s: State, base: int) -> bool {
    forall|i: int| base - 1 <= i < s.stack.len() ==> (#[trigger] s.stack[i]).ignore_children
}

/// The root frame stays: after an event that may come, the stack of frames
/// is not empty.
pub proof fn lemma_step_keeps_root(s: State, e: Event)
    requires
        accepts(s, e),
    ensures
        step_state(s, e).wf(),
{
}

/// A run is the run of its first part followed by the run of its second.
pub proof fn lemma_run_concat(s: State, a: Seq<Event>, b: Seq<Event>)
    ensures
        run_state(s, a + b) == run_state(run_state(s, a), b),
        run_output(s, a + b) == run_output(s, a) + run_output(run_state(s, a), b),
    decreases a.len(),
{
    if a.len() == 0 {
        assert(a + b =~= b);
        assert(run_output(s, a) + run_output(s, b) =~= run_output(s, b));
    } else {
        let next = step_state(s, a[0]);
        lemma_run_concat(next, a.drop_first(), b);
        assert((a + b).drop_first() =~= a.drop_first() + b);
        assert((a + b)[0] == a[0]);
        assert(run_output(s, a + b) =~= run_output(s, a) + run_output(run_state(s, a), b));
    }
}

/// Below an element that ignores its children, with no white space
/// pending, a nested run of element events writes nothing. It leaves the
/// frames that were there as they were, those that it adds ignore their
/// children too, and every event of it may come where it comes.
pub proof fn lemma_ignored_run(s: State, events: Seq<Event>, base: int, open: nat)
    requires
        base >= 1,
        s.stack.len() == base + open,
        ignores_from(s, base),
        s.pending().len() == 0,
        is_nested(events, open),
    ensures
        run_output(s, events) == Seq::<char>::empty(),
        run_state(s, events).stack.len() == base + open_after(events, open),
        run_state(s, events).stack.take(base) == s.stack.take(base),
        ignores_from(run_state(s, events), base),
        run_state(s, events).pending().len() == 0,
        run_state(s, events).skip_ws == s.skip_ws,
        forall|k: int|
            0 <= k < events.len() ==> accepts(
                run_state(s, events.take(k)),
                #[trigger] events[k],
            ),
    decreases events.len(),
{
    if events.len() == 0 {
        assert(events.take(0) =~= events);
    } else {
        let e = events[0];
        let rest = events.drop_first();
        let next = step_state(s, e);
        let top = s.top();
        assert(top == s.stack[s.stack.len() - 1]);
        assert(top.ignore_children);
        assert(step_output(s, e) =~= Seq::<char>::empty());
        let open_next: nat = if e is StartElement {
            open + 1
        } else {
            (open - 1) as nat
        };
        if e is StartElement {
            assert(s.stack.drop_last().push(top) =~= s.stack);
            assert(next.stack.take(base) =~= s.stack.take(base));
        } else {
            assert(next.stack.take(base) =~= s.stack.take(base));
        }
        assert(ignores_from(next, base));
        lemma_ignored_run(next, rest, base, open_next);
        assert(run_output(s, events) =~= Seq::<char>::empty());
        assert forall|k: int| 0 <= k < events.len() implies accepts(
            run_state(s, events.take(k)),
            #[trigger] events[k],
        ) by {
            if k == 0 {
                assert(events.take(0) =~= Seq::<Event>::empty());
            } else {
                assert(events.take(k) =~= seq![e] + rest.take(k - 1));
                lemma_run_concat(s, seq![e], rest.take(k - 1));
                assert(seq![e].drop_first() =~= Seq::<Event>::empty());
                assert(run_state(s, seq![e]) == next) by {
                    reveal_with_fuel(run_state, 2);
                }
                assert(events[k] == rest[k - 1]);
            }
        }
    }
}

/// Suppression propagates. Where the innermost open element ignores its
/// children and no white space is pending, the starts and ends of the
/// elements nested in it write nothing, however deep.
pub proof fn lemma_suppression_propagates(s: State, events: Seq<Event>)
    requires
        s.wf(),
        s.top().ignore_children,
        s.pending().len() == 0,
        is_nested(events, 0),
    ensures
        run_output(s, events) == Seq::<char>::empty(),
        run_state(s, events).stack.take(s.stack.len() as int) == s.stack,
        run_state(s, events).depth() == s.depth() + open_after(events, 0),
        run_state(s, events).top().ignore_children,
{
    let base = s.stack.len() as int;
    lemma_ignored_run(s, events, base, 0);
    assert(s.stack.take(base) =~= s.stack);
}

/// A void element of HTML, whatever its attributes, writes its start tag
/// and nothing else: nothing for the starts and ends of elements nested in
/// it, and no end tag. When it has ended the serializer stands where it
/// stood after the start of an element, one level up.
pub proof fn lemma_void_element(
    s: State,
    name: Name,
    attrs: Seq<(Name, Seq<char>)>,
    inner: Seq<Event>,
    end_name: Name,
)
    requires
        s.wf(),
        name.ns == Namespace::Html,
        is_void_name(name.local),
        is_nested(inner, 0),
        open_after(inner, 0) == 0,
    ensures
        ({
            let started = after_start(s, name);
            let inside = run_state(started, inner);
            &&& run_output(started, inner) == Seq::<char>::empty()
            &&& accepts(inside, Event::EndElement { element: end_name })
            &&& end_output(inside, end_name) == Seq::<char>::empty()
            &&& after_end(inside).stack == started.stack.drop_last()
        }),
        run_output(
            s,
            seq![Event::StartElement { element: name, attrs }] + inner + seq![
                Event::EndElement { element: end_name },
            ],
        ) == start_output(s, name, attrs),
{
    let started = after_start(s, name);
    let inside = run_state(started, inner);
    let base = started.stack.len() as int;
    lemma_ignored_run(started, inner, base, 0);
    assert(started.stack.take(base) =~= started.stack);
    assert(inside.stack.take(base) =~= inside.stack);
    assert(inside.top() == inside.stack[base - 1]);
    assert(end_output(inside, end_name) =~= Seq::<char>::empty());

    let first = seq![Event::StartElement { element: name, attrs }];
    let last = seq![Event::EndElement { element: end_name }];
    assert(first.drop_first() =~= Seq::<Event>::empty());
    assert(last.drop_first() =~= Seq::<Event>::empty());
    assert(run_state(s, first) == started && run_output(s, first) =~= start_output(s, name, attrs))
        by {
        reveal_with_fuel(run_state, 2);
        reveal_with_fuel(run_output, 2);
    }
    assert(run_output(inside, last) =~= end_output(inside, end_name)) by {
        reveal_with_fuel(run_output, 2);
    }
    lemma_run_concat(s, first, inner);
    lemma_run_concat(s, first + inner, last);
    assert(run_output(s, first + inner + last) =~= start_output(s, name, attrs));
}

} // verus!
