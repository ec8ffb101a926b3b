//! The streaming serializer: it takes the events of a document in order and
//! gives, for each, the text to send to the output.

use vstd::prelude::*;
use vstd::string::*;
use crate::escape::{escape, lemma_escape_concat, write_escaped};
use crate::strnom::same_text;
use crate::trim::{trim, trim_core, trim_lead, trim_trail};

verus! {

/// The namespace of an element or attribute name.
#[derive(Clone, Copy, Debug, PartialEq, Eq, Structural)]
pub enum Namespace {
    /// No namespace: what an ordinary attribute has.
    Empty,
    Html,
    MathMl,
    Svg,
    Xml,
    Xmlns,
    XLink,
    /// Any other namespace.
    Other,
}

/// A name with its namespace.
#[derive(Debug)]
pub struct QualName {
    pub ns: Namespace,
    pub local: String,
}

impl Clone for QualName {
    fn clone(&self) -> (r: Self)
        ensures
            r@ == self@,
    {
        QualName { ns: self.ns, local: self.local.clone() }
    }
}

/// An attribute: its name and its value.
pub type AttrRef<'a> = (&'a QualName, &'a str);

/// A name, as contracts speak of it.
pub struct Name {
    pub ns: Namespace,
    pub local: Seq<char>,
}

impl View for QualName {
    type V = Name;

    open spec fn view(&self) -> Name {
        Name { ns: self.ns, local: self.local@ }
    }
}

/// The attributes of an element, as contracts speak of them.
pub open spec fn attr_views(attrs: Seq<AttrRef>) -> Seq<(Name, Seq<char>)> {
    Seq::new(attrs.len(), |i: int| (attrs[i].0@, attrs[i].1@))
}

/// What is known of an open element.
pub struct Frame {
    /// The element's name, where it is in the HTML namespace.
    pub html_name: Option<Seq<char>>,
    /// Nothing is written for the element's end, nor for the elements in it.
    pub ignore_children: bool,
    /// An element was started in it.
    pub processed_first_child: bool,
}

/// The state of a serializer between two events.
pub struct State {
    /// The open elements, the innermost last, above a root frame that stands
    /// for the document.
    pub stack: Seq<Frame>,
    /// Leading white space of a text is dropped.
    pub skip_ws: bool,
    /// The trailing white space of the last text, not written yet.
    pub next_ws: Option<Seq<char>>,
}

impl State {
    /// The root frame is there.
    pub open spec fn wf(self) -> bool {
        self.stack.len() >= 1
    }

    /// The frame of the innermost open element.
    pub open spec fn top(self) -> Frame {
        self.stack.last()
    }

    /// Number of open elements.
    pub open spec fn depth(self) -> int {
        self.stack.len() - 1
    }

    /// The white space that waits to be written.
    pub open spec fn pending(self) -> Seq<char> {
        match self.next_ws {
            Some(w) => w,
            None => Seq::<char>::empty(),
        }
    }

    /// The state of a new serializer.
    pub open spec fn initial() -> State {
        State {
            stack: seq![
                Frame { html_name: None, ignore_children: false, processed_first_child: false },
            ],
            skip_ws: false,
            next_ws: None,
        }
    }
}

/// The HTML elements that have no content and no end tag.
pub open spec fn is_void_name(n: Seq<char>) -> bool {
    ||| n == "area"@
    ||| n == "base"@
    ||| n == "basefont"@
    ||| n == "bgsound"@
    ||| n == "br"@
    ||| n == "col"@
    ||| n == "embed"@
    ||| n == "frame"@
    ||| n == "hr"@
    ||| n == "img"@
    ||| n == "input"@
    ||| n == "keygen"@
    ||| n == "link"@
    ||| n == "meta"@
    ||| n == "param"@
    ||| n == "source"@
    ||| n == "track"@
    ||| n == "wbr"@
}

/// The HTML elements whose text is written as it is.
pub open spec fn is_raw_text_name(n: Seq<char>) -> bool {
    ||| n == "style"@
    ||| n == "script"@
    ||| n == "xmp"@
    ||| n == "iframe"@
    ||| n == "noembed"@
    ||| n == "noframes"@
    ||| n == "plaintext"@
}

/// Text in this frame is escaped.
pub open spec fn escapes_text(f: Frame) -> bool {
    match f.html_name {
        Some(n) => !is_raw_text_name(n),
        None => true,
    }
}

/// The prefix that an attribute's namespace gives its name.
pub open spec fn attr_prefix(name: Name) -> Seq<char> {
    match name.ns {
        Namespace::Empty => Seq::<char>::empty(),
        Namespace::Xml => "xml:"@,
        Namespace::Xmlns => if name.local == "xmlns"@ {
            Seq::<char>::empty()
        } else {
            "xmlns:"@
        },
        Namespace::XLink => "xlink:"@,
        _ => "unknown_namespace:"@,
    }
}

/// What is written for one attribute: a space, the name, and the value,
/// unless it is empty, escaped and in double quotes after `=`.
pub open spec fn attr_text(name: Name, value: Seq<char>) -> Seq<char> {
    " "@ + attr_prefix(name) + name.local + if value.len() == 0 {
        Seq::<char>::empty()
    } else {
        "=\""@ + escape(value, true) + "\""@
    }
}

/// What is written for the attributes, in order.
pub open spec fn attrs_text(attrs: Seq<(Name, Seq<char>)>) -> Seq<char>
    decreases attrs.len(),
{
    if attrs.len() == 0 {
        Seq::<char>::empty()
    } else {
        attrs_text(attrs.drop_last()) + attr_text(attrs.last().0, attrs.last().1)
    }
}

/// The start tag of an element.
pub open spec fn start_tag(name: Name, attrs: Seq<(Name, Seq<char>)>) -> Seq<char> {
    "<"@ + name.local + attrs_text(attrs) + ">"@
}

/// The end tag of an element.
pub open spec fn end_tag(name: Name) -> Seq<char> {
    "</"@ + name.local + ">"@
}

/// The frame of an element started in `parent`. It ignores its children
/// where the parent does, or where it is a void element of HTML.
pub open spec fn child_frame(parent: Frame, name: Name) -> Frame {
    Frame {
        html_name: if name.ns == Namespace::Html {
            Some(name.local)
        } else {
            None
        },
        ignore_children: parent.ignore_children || (name.ns == Namespace::Html && is_void_name(
            name.local,
        )),
        processed_first_child: false,
    }
}

/// What the start of an element writes: the pending white space, and the
/// start tag unless the element it stands in ignores its children.
pub open spec fn start_output(s: State, name: Name, attrs: Seq<(Name, Seq<char>)>) -> Seq<char> {
    s.pending() + if s.top().ignore_children {
        Seq::<char>::empty()
    } else {
        start_tag(name, attrs)
    }
}

/// The state after the start of an element: nothing is pending, the new
/// frame is on top, and the one below it has seen its first child unless it
/// ignores its children.
pub open spec fn after_start(s: State, name: Name) -> State {
    let top = s.top();
    let parent = Frame {
        processed_first_child: top.processed_first_child || !top.ignore_children,
        ..top
    };
    State {
        stack: s.stack.drop_last().push(parent).push(child_frame(top, name)),
        skip_ws: s.skip_ws,
        next_ws: None,
    }
}

/// What the end of an element writes: the pending white space, and the end
/// tag unless the element ignores its children.
pub open spec fn end_output(s: State, name: Name) -> Seq<char> {
    s.pending() + if s.top().ignore_children {
        Seq::<char>::empty()
    } else {
        end_tag(name)
    }
}

/// The state after the end of an element: nothing is pending and the top
/// frame is gone.
pub open spec fn after_end(s: State) -> State {
    State { stack: s.stack.drop_last(), skip_ws: s.skip_ws, next_ws: None }
}

/// The part of a text that is written at once: its core, after its leading
/// white space unless that is dropped.
pub open spec fn text_body(s: State, text: Seq<char>) -> Seq<char> {
    if s.skip_ws {
        trim_core(text)
    } else {
        trim_lead(text) + trim_core(text)
    }
}

/// What a text writes: the pending white space, then its body, escaped
/// unless it stands in a raw-text element.
pub open spec fn text_output(s: State, text: Seq<char>) -> Seq<char> {
    s.pending() + if escapes_text(s.top()) {
        escape(text_body(s, text), false)
    } else {
        text_body(s, text)
    }
}

/// The state after a text: its trailing white space is pending.
pub open spec fn after_text(s: State, text: Seq<char>) -> State {
    State { stack: s.stack, skip_ws: s.skip_ws, next_ws: Some(trim_trail(text)) }
}

/// What a comment writes: the pending white space and the comment.
pub open spec fn comment_output(s: State, text: Seq<char>) -> Seq<char> {
    s.pending() + "<!--"@ + text + "-->"@
}

/// The state after a comment: nothing is pending, and leading white space is
/// kept again.
pub open spec fn after_comment(s: State) -> State {
    State { stack: s.stack, skip_ws: false, next_ws: None }
}

/// What a document type declaration writes.
pub open spec fn doctype_output(name: Seq<char>) -> Seq<char> {
    "<!DOCTYPE "@ + name + ">"@
}

/// The state after the end of the document: nothing is pending.
pub open spec fn after_finish(s: State) -> State {
    State { stack: s.stack, skip_ws: s.skip_ws, next_ws: None }
}

/// The frame of one open element.
struct ElemInfo {
    html_name: Option<String>,
    ignore_children: bool,
    processed_first_child: bool,
}

impl View for ElemInfo {
    type V = Frame;

    closed spec fn view(&self) -> Frame {
        Frame {
            html_name: match self.html_name {
                Some(n) => Some(n@),
                None => None,
            },
            ignore_children: self.ignore_children,
            processed_first_child: self.processed_first_child,
        }
    }
}

/// The serializer. It holds the frames of the open elements above a root
/// frame, the white-space mode, and the one white-space run that waits for
/// the next event.
pub struct HtmlSerializer {
    stack: Vec<ElemInfo>,
    skip_ws: bool,
    next_ws: Option<String>,
}

impl View for HtmlSerializer {
    type V = State;

    closed spec fn view(&self) -> State {
        State {
            stack: self.stack@.map_values(|e: ElemInfo| e@),
            skip_ws: self.skip_ws,
            next_ws: match self.next_ws {
                Some(w) => Some(w@),
                None => None,
            },
        }
    }
}

/// Whether `name` is the name of a void element.
fn is_void(name: &str) -> (r: bool)
    ensures
        r == is_void_name(name@),
{
    same_text(name, "area") || same_text(name, "base") || same_text(name, "basefont") || same_text(
        name,
        "bgsound",
    ) || same_text(name, "br") || same_text(name, "col") || same_text(name, "embed") || same_text(
        name,
        "frame",
    ) || same_text(name, "hr") || same_text(name, "img") || same_text(name, "input") || same_text(
        name,
        "keygen",
    ) || same_text(name, "link") || same_text(name, "meta") || same_text(name, "param")
        || same_text(name, "source") || same_text(name, "track") || same_text(name, "wbr")
}

/// Whether `name` is the name of a raw-text element.
fn is_raw_text(name: &str) -> (r: bool)
    ensures
        r == is_raw_text_name(name@),
{
    same_text(name, "style") || same_text(name, "script") || same_text(name, "xmp") || same_text(
        name,
        "iframe",
    ) || same_text(name, "noembed") || same_text(name, "noframes") || same_text(name, "plaintext")
}

/// The name that is written in an element's tags.
fn tagname(name: &QualName) -> (r: &str)
    ensures
        r@ == name@.local,
{
    name.local.as_str()
}

/// Appends to `out` what is written for one attribute.
fn write_attr(out: &mut String, name: &QualName, value: &str)
    ensures
        final(out)@ == old(out)@ + attr_text(name@, value@),
{
    let ghost before = out@;
    out.append(" ");
    match name.ns {
        Namespace::Empty => {},
        Namespace::Xml => {
            out.append("xml:");
        },
        Namespace::Xmlns => {
            if !same_text(name.local.as_str(), "xmlns") {
                out.append("xmlns:");
            }
        },
        Namespace::XLink => {
            out.append("xlink:");
        },
        _ => {
            out.append("unknown_namespace:");
        },
    }
    out.append(name.local.as_str());
    assert(out@ =~= before + (" "@ + attr_prefix(name@) + name@.local));
    if !value.is_empty() {
        out.append("=\"");
        let ghost opened = out@;
        write_escaped(out, value, true);
        out.append("\"");
        assert(out@ =~= opened + escape(value@, true) + "\""@);
    }
    assert(out@ =~= before + attr_text(name@, value@));
}

impl HtmlSerializer {
    /// A serializer at the start of a document.
    pub fn new() -> (r: Self)
        ensures
            r@ == State::initial(),
    {
        let mut stack = Vec::new();
        stack.push(ElemInfo { html_name: None, ignore_children: false, processed_first_child: false });
        let r = HtmlSerializer { stack, next_ws: None, skip_ws: false };
        assert(r@.stack =~= State::initial().stack);
        r
    }

    /// Turns the dropping of leading white space on or off.
    pub fn set_skip_ws(&mut self, on: bool)
        ensures
            final(self)@ == (State { skip_ws: on, ..old(self)@ }),
    {
        self.skip_ws = on;
    }

    /// Number of open elements.
    pub fn depth(&self) -> (n: usize)
        requires
            self@.wf(),
        ensures
            n == self@.depth(),
    {
        self.stack.len() - 1
    }

    /// Whether the innermost open element ignores its children.
    pub fn ignores_children(&self) -> (r: bool)
        requires
            self@.wf(),
        ensures
            r == self@.top().ignore_children,
    {
        let n = self.stack.len();
        self.stack[n - 1].ignore_children
    }

    /// Appends the pending white space to `out`; nothing is pending after it.
    fn flush(&mut self, out: &mut String)
        ensures
            final(out)@ == old(out)@ + old(self)@.pending(),
            final(self)@ == (State { next_ws: None, ..old(self)@ }),
            final(self).stack == old(self).stack,
    {
        let ghost before = out@;
        let pending = self.next_ws.take();
        if let Some(text) = pending {
            out.append(text.as_str());
        }
        assert(out@ =~= before + old(self)@.pending());
    }

    /// The frame of the innermost open element.
    fn parent(&mut self) -> (r: &mut ElemInfo)
        requires
            old(self)@.wf(),
        ensures
            *r == old(self).stack@.last(),
            final(self).stack@ == old(self).stack@.update(
                old(self).stack@.len() - 1,
                *final(r),
            ),
            final(self).skip_ws == old(self).skip_ws,
            final(self).next_ws == old(self).next_ws,
    {
        let n = self.stack.len();
        &mut self.stack[n - 1]
    }

    /// Whether text is escaped where the serializer stands.
    fn escapes_here(&self) -> (r: bool)
        requires
            self@.wf(),
        ensures
            r == escapes_text(self@.top()),
    {
        let n = self.stack.len();
        match &self.stack[n - 1].html_name {
            Some(name) => !is_raw_text(name.as_str()),
            None => true,
        }
    }

    /// The start of an element. Gives the text to send to the output.
    pub fn start_elem<'a>(&mut self, name: QualName, attrs: &[AttrRef<'a>]) -> (out: String)
        requires
            old(self)@.wf(),
        ensures
            out@ == start_output(old(self)@, name@, attr_views(attrs@)),
            final(self)@ == after_start(old(self)@, name@),
            final(self)@.wf(),
    {
        let mut out = String::new();
        self.flush(&mut out);
        let html = name.ns == Namespace::Html;
        let html_name = if html {
            Some(name.local.clone())
        } else {
            None
        };
        let n = self.stack.len();
        if self.stack[n - 1].ignore_children {
            self.stack.push(ElemInfo { html_name, ignore_children: true, processed_first_child: false });
            proof {
                assert(out@ =~= start_output(old(self)@, name@, attr_views(attrs@)));
                let top = old(self)@.top();
                assert(old(self)@.stack.drop_last().push(top) =~= old(self)@.stack);
                assert(self@.stack =~= after_start(old(self)@, name@).stack);
            }
            return out;
        }
        let ghost views = attr_views(attrs@);
        out.append("<");
        out.append(tagname(&name));
        let ghost opened = out@;
        let mut idx: usize = 0;
        proof {
            assert(views.take(0) =~= Seq::<(Name, Seq<char>)>::empty());
            assert(opened + attrs_text(views.take(0)) =~= opened);
        }
        while idx < attrs.len()
            invariant
                0 <= idx <= attrs.len(),
                views == attr_views(attrs@),
                out@ == opened + attrs_text(views.take(idx as int)),
            decreases attrs.len() - idx,
        {
            let (attr_name, value) = attrs[idx];
            proof {
                let upto = views.take(idx + 1);
                assert(upto.drop_last() =~= views.take(idx as int));
                assert(upto.last() == (attr_name@, value@));
            }
            write_attr(&mut out, attr_name, value);
            assert(out@ =~= opened + attrs_text(views.take(idx + 1)));
            idx = idx + 1;
        }
        out.append(">");
        let ignore_children = html && is_void(name.local.as_str());
        self.parent().processed_first_child = true;
        self.stack.push(ElemInfo { html_name, ignore_children, processed_first_child: false });
        proof {
            assert(views.take(attrs@.len() as int) =~= views);
            assert(out@ =~= start_output(old(self)@, name@, views));
            assert(self@.stack =~= after_start(old(self)@, name@).stack);
        }
        out
    }

    /// The end of the innermost open element. Gives the text to send to the
    /// output.
    pub fn end_elem(&mut self, name: QualName) -> (out: String)
        requires
            old(self)@.wf(),
            old(self)@.depth() >= 1,
        ensures
            out@ == end_output(old(self)@, name@),
            final(self)@ == after_end(old(self)@),
            final(self)@.wf(),
    {
        let mut out = String::new();
        self.flush(&mut out);
        let info = self.stack.pop().unwrap();
        proof {
            assert(self@.stack =~= after_end(old(self)@).stack);
            assert(info@ == old(self)@.top());
        }
        if info.ignore_children {
            assert(out@ =~= end_output(old(self)@, name@));
            return out;
        }
        out.append("</");
        out.append(tagname(&name));
        out.append(">");
        assert(out@ =~= end_output(old(self)@, name@));
        out
    }

    /// A text. Gives the text to send to the output; the trailing white
    /// space waits for the next event.
    pub fn write_text(&mut self, text: &str) -> (out: String)
        requires
            old(self)@.wf(),
        ensures
            out@ == text_output(old(self)@, text@),
            final(self)@ == after_text(old(self)@, text@),
            final(self)@.wf(),
    {
        let escape = self.escapes_here();
        let (lead, core, trail) = trim(text);
        let mut out = String::new();
        self.flush(&mut out);
        self.next_ws = Some(trail.to_owned());
        let ghost flushed = out@;
        if escape {
            if !self.skip_ws {
                write_escaped(&mut out, lead, false);
            }
            write_escaped(&mut out, core, false);
            proof {
                lemma_escape_concat(lead@, core@, false);
            }
        } else {
            if !self.skip_ws {
                out.append(lead);
            }
            out.append(core);
        }
        proof {
            assert(out@ =~= text_output(old(self)@, text@));
            assert(self@.stack =~= old(self)@.stack);
        }
        out
    }

    /// A comment. Gives the text to send to the output.
    pub fn write_comment(&mut self, text: &str) -> (out: String)
        ensures
            out@ == comment_output(old(self)@, text@),
            final(self)@ == after_comment(old(self)@),
    {
        let mut out = String::new();
        self.flush(&mut out);
        self.skip_ws = false;
        out.append("<!--");
        out.append(text);
        out.append("-->");
        proof {
            assert(out@ =~= comment_output(old(self)@, text@));
            assert(self@.stack =~= old(self)@.stack);
        }
        out
    }

    /// A document type declaration. Gives the text to send to the output.
    /// White space that is pending stays so.
    pub fn write_doctype(&mut self, name: &str) -> (out: String)
        ensures
            out@ == doctype_output(name@),
            final(self)@ == old(self)@,
    {
        let mut out = String::new();
        out.append("<!DOCTYPE ");
        out.append(name);
        out.append(">");
        assert(out@ =~= doctype_output(name@));
        out
    }

    /// The end of the document, when every element has been closed. Gives
    /// the white space that was still pending.
    pub fn end(&mut self) -> (out: String)
        requires
            old(self)@.wf(),
            old(self)@.depth() == 0,
        ensures
            out@ == old(self)@.pending(),
            final(self)@ == after_finish(old(self)@),
    {
        let mut out = String::new();
        self.flush(&mut out);
        proof {
            assert(out@ =~= old(self)@.pending());
            assert(self@.stack =~= old(self)@.stack);
        }
        out
    }
}

} // verus!
