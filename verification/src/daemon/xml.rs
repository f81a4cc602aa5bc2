//! The XML reader and writer: the events of a document, as plain values.
use quick_xml::events::Event::{CData, Comment, Decl, DocType, Empty, End, Eof, Start, Text, PI};
use quick_xml::events::{BytesDecl, BytesEnd, BytesStart, BytesText};
use crate::daemon::xml::XmlEvent::{
    CharData, Declaration, DocumentEnd, DocumentType, Instruction,
};
#[allow(unused_imports)]
use crate::text;
use vstd::prelude::*;
#[allow(unused_imports)]
use vstd::utf8::*;

verus! {

/// `quick_xml::Reader`, a reader of XML events.
#[verifier::external_type_specification]
#[verifier::external_body]
#[verifier::reject_recursive_types(R)]
pub struct ExReader<R>(quick_xml::Reader<R>);

/// `quick_xml::Writer`, a writer of XML events.
#[verifier::external_type_specification]
#[verifier::external_body]
#[verifier::reject_recursive_types(W)]
pub struct ExWriter<W>(quick_xml::Writer<W>);

/// One event of a document that is being read. Beside what it holds, an event
/// that can stand where it is not expected carries its rendering for a message.
pub enum XmlEvent {
    /// An opening tag: its name and its rendering.
    Start(Vec<u8>, String),
    /// A closing tag: its name and its rendering.
    End(Vec<u8>, String),
    /// A tag that closes itself: its name and its rendering.
    Empty(Vec<u8>, String),
    /// Text, with its escapes resolved, and its rendering.
    Text(String, String),
    Comment,
    Declaration,
    /// A processing instruction.
    Instruction,
    /// A CDATA section: its rendering.
    CharData(String),
    /// A document type: its rendering.
    DocumentType(String),
    /// The end of the document: its rendering.
    DocumentEnd(String),
    /// The document cannot be read from here on: the reason.
    Failed(String),
}

/// What an event holds.
#[verifier::ext_equal]
pub enum XmlView {
    Start(Seq<u8>, Seq<char>),
    End(Seq<u8>, Seq<char>),
    Empty(Seq<u8>, Seq<char>),
    Text(Seq<char>, Seq<char>),
    Comment,
    Declaration,
    Instruction,
    CharData(Seq<char>),
    DocumentType(Seq<char>),
    DocumentEnd(Seq<char>),
    Failed(Seq<char>),
}

impl View for XmlEvent {
    type V = XmlView;

    open spec fn view(&self) -> XmlView {
        match self {
            XmlEvent::Start(name, shown) => XmlView::Start(name@, shown@),
            XmlEvent::End(name, shown) => XmlView::End(name@, shown@),
            XmlEvent::Empty(name, shown) => XmlView::Empty(name@, shown@),
            XmlEvent::Text(text, shown) => XmlView::Text(text@, shown@),
            XmlEvent::Comment => XmlView::Comment,
            XmlEvent::Declaration => XmlView::Declaration,
            XmlEvent::Instruction => XmlView::Instruction,
            XmlEvent::CharData(shown) => XmlView::CharData(shown@),
            XmlEvent::DocumentType(shown) => XmlView::DocumentType(shown@),
            XmlEvent::DocumentEnd(shown) => XmlView::DocumentEnd(shown@),
            XmlEvent::Failed(reason) => XmlView::Failed(reason@),
        }
    }
}

/// What a list of events holds.
pub open spec fn events_view(s: Seq<XmlEvent>) -> Seq<XmlView> {
    Seq::new(s.len(), |i: int| s[i]@)
}

/// Whether an event is passed over wherever it stands: a comment, a declaration or a
/// processing instruction.
pub open spec fn skipped(e: XmlView) -> bool {
    e is Comment || e is Declaration || e is Instruction
}

/// Whether nothing after this event is ever looked at.
pub open spec fn ends(e: XmlView) -> bool {
    e is CharData || e is DocumentType || e is DocumentEnd || e is Failed
}

/// Whether a list of events has an end.
pub open spec fn ended(ev: Seq<XmlView>) -> bool {
    ev.len() > 0 && ends(ev.last())
}

/// The events up to and with the first that ends them.
pub open spec fn until_end(ev: Seq<XmlView>) -> Seq<XmlView>
    decreases ev.len(),
{
    if ev.len() == 0 {
        ev
    } else if ends(ev[0]) {
        seq![ev[0]]
    } else {
        seq![ev[0]] + until_end(ev.drop_first())
    }
}

/// The events that `quick_xml::Reader` finds in a document, to the end of the
/// document or the first failure to read or to unescape.
pub uninterp spec fn xml_events(data: Seq<u8>) -> Seq<XmlView>;

/// The events that a reader has not handed out yet.
pub uninterp spec fn unread_events(reader: quick_xml::Reader<&[u8]>) -> Seq<XmlView>;

/// `quick_xml::Reader::from_reader`: a reader at the start of a document. The
/// events of a document come to an end: each takes at least one byte of it, and
/// behind the last byte stands the event of the document's end.
#[verifier::external_body]
fn open_document(data: &[u8]) -> (r: quick_xml::Reader<&[u8]>)
    ensures
        unread_events(r) == xml_events(data@),
        ended(unread_events(r)),
{
    quick_xml::Reader::from_reader(data)
}

/// `quick_xml::Reader::read_event`: takes the next event off the document. The text
/// of a text event is what `BytesText::unescape` makes of it; where that fails, or
/// where no event can be read, the reason comes instead.
#[verifier::external_body]
fn next_event(reader: &mut quick_xml::Reader<&[u8]>) -> (r: Result<XmlEvent, String>)
    requires
        unread_events(*old(reader)).len() > 0,
    ensures
        r is Ok ==> unread_events(*final(reader)) == unread_events(*old(reader)).drop_first(),
        match r {
            Ok(e) => e@ == unread_events(*old(reader))[0] && !(e is Failed),
            Err(reason) => unread_events(*old(reader))[0] == XmlView::Failed(reason@),
        },
{
    let event = reader.read_event().map_err(|e| e.to_string())?;
    let shown = format!("{:?}", event);
    Ok(match event {
        Start(e) => XmlEvent::Start(e.name().0.to_vec(), shown),
        End(e) => XmlEvent::End(e.name().0.to_vec(), shown),
        Empty(e) => XmlEvent::Empty(e.name().0.to_vec(), shown),
        Text(t) => XmlEvent::Text(t.unescape().map_err(|e| e.to_string())?.into_owned(), shown),
        Comment(_) => XmlEvent::Comment,
        Decl(_) => Declaration,
        PI(_) => Instruction,
        CData(_) => CharData(shown),
        DocType(_) => DocumentType(shown),
        Eof => DocumentEnd(shown),
    })
}

/// Whether nothing after this event is ever looked at.
fn event_ends(e: &XmlEvent) -> (r: bool)
    ensures
        r == ends(e@),
{
    match e {
        XmlEvent::CharData(_) => true,
        XmlEvent::DocumentType(_) => true,
        XmlEvent::DocumentEnd(_) => true,
        XmlEvent::Failed(_) => true,
        _ => false,
    }
}

/// The events of a document, up to and with the first that ends them.
pub fn read_events(data: &[u8]) -> (r: Vec<XmlEvent>)
    ensures
        events_view(r@) == until_end(xml_events(data@)),
        ended(events_view(r@)),
{
    let mut reader = open_document(data);
    let mut out: Vec<XmlEvent> = Vec::new();
    let ghost whole = until_end(xml_events(data@));
    proof {
        assert(events_view(out@) + until_end(unread_events(reader)) =~= whole);
    }
    loop
        invariant
            ended(unread_events(reader)),
            events_view(out@) + until_end(unread_events(reader)) == whole,
            whole == until_end(xml_events(data@)),
        decreases unread_events(reader).len(),
    {
        let ghost before = unread_events(reader);
        let ghost had = events_view(out@);
        let e = match next_event(&mut reader) {
            Ok(e) => e,
            Err(reason) => XmlEvent::Failed(reason),
        };
        let last = event_ends(&e);
        out.push(e);
        proof {
            assert(events_view(out@) =~= had.push(before[0]));
            assert(had.push(before[0]) =~= had + seq![before[0]]);
        }
        if last {
            return out;
        }
        proof {
            assert(before.len() > 1);
            assert(before.drop_first().last() == before.last());
            assert(events_view(out@) + until_end(unread_events(reader)) =~= had + until_end(before));
        }
    }
}

/// One event of a document that is being written.
pub enum XmlOut<'a> {
    /// The declaration: version and encoding.
    Decl(&'a str, &'a str),
    /// An opening tag.
    Start(&'a str),
    /// Text, still to be escaped.
    Text(&'a str),
    /// A closing tag.
    End(&'a str),
}

/// What a written event holds.
#[verifier::ext_equal]
pub enum XmlOutView {
    Decl(Seq<char>, Seq<char>),
    Start(Seq<char>),
    Text(Seq<char>),
    End(Seq<char>),
}

impl<'a> View for XmlOut<'a> {
    type V = XmlOutView;

    open spec fn view(&self) -> XmlOutView {
        match self {
            XmlOut::Decl(version, encoding) => XmlOutView::Decl(version@, encoding@),
            XmlOut::Start(name) => XmlOutView::Start(name@),
            XmlOut::Text(text) => XmlOutView::Text(text@),
            XmlOut::End(name) => XmlOutView::End(name@),
        }
    }
}

/// Whether a reader passes an event over between two tags: it is skipped, or blank text.
pub open spec fn ignorable(e: XmlView) -> bool {
    skipped(e) || (e matches XmlView::Text(t, _) && text::trimmed(t).len() == 0)
}

/// Whether an event that is read is one that was written.
pub open spec fn same_event(out: XmlOutView, e: XmlView) -> bool {
    match out {
        XmlOutView::Decl(_, _) => e is Declaration,
        XmlOutView::Start(name) => e matches XmlView::Start(n, _) && n == encode_utf8(name),
        XmlOutView::Text(text) => e matches XmlView::Text(t, _) && t == text,
        XmlOutView::End(name) => e matches XmlView::End(n, _) && n == encode_utf8(name),
    }
}

/// Whether there is nothing but what is passed over from one place up to another.
#[verifier::opaque]
pub open spec fn gap(ev: Seq<XmlView>, from: int, to: int) -> bool {
    from <= to && forall|k: int| from <= k < to ==> ignorable(#[trigger] ev[k])
}

/// Whether written events stand, in their order, at these places of a document that is
/// read, with nothing between them but what is passed over, and nothing at all around
/// text.
#[verifier::opaque]
pub open spec fn laid_out(outs: Seq<XmlOutView>, ev: Seq<XmlView>, pos: Seq<int>) -> bool {
    &&& pos.len() == outs.len()
    &&& forall|i: int|
        0 <= i < outs.len() ==> 0 <= #[trigger] pos[i] < ev.len() && same_event(
            outs[i],
            ev[pos[i]],
        )
    &&& forall|i: int|
        #![trigger outs[i]]
        0 <= i < outs.len() - 1 ==> gap(ev, pos[i] + 1, pos[i + 1]) && (outs[i] is Text || outs[i
            + 1] is Text ==> pos[i + 1] == pos[i] + 1)
}

/// Whether a name is made of letters only.
pub open spec fn plain_name(name: Seq<char>) -> bool {
    name.len() > 0 && forall|i: int|
        0 <= i < name.len() ==> 'a' <= #[trigger] name[i] <= 'z' || 'A' <= name[i] <= 'Z'
}

/// Whether the next event is text.
pub open spec fn text_next(outs: Seq<XmlOutView>) -> bool {
    outs.len() > 0 && outs[0] is Text
}

/// Whether events close the elements that are open, and all that they open; have only
/// plain names; and have text only as the whole content of an element, where it is not
/// empty.
pub open spec fn closes_all(outs: Seq<XmlOutView>, open: Seq<Seq<char>>) -> bool
    decreases outs.len(),
{
    if outs.len() == 0 {
        open.len() == 0
    } else {
        let rest = outs.drop_first();
        match outs[0] {
            XmlOutView::Decl(_, _) => false,
            XmlOutView::Start(name) => plain_name(name) && closes_all(rest, open.push(name)),
            XmlOutView::Text(text) => text.len() > 0 && rest.len() > 0 && rest[0] is End
                && closes_all(rest, open),
            XmlOutView::End(name) => open.len() > 0 && open.last() == name && !text_next(rest)
                && closes_all(rest, open.drop_last()),
        }
    }
}

/// Whether events make a document: a declaration, and elements that are all closed.
pub open spec fn makes_document(outs: Seq<XmlOutView>) -> bool {
    &&& outs.len() > 1
    &&& outs[0] == XmlOutView::Decl("1.0"@, "utf-8"@)
    &&& !text_next(outs.drop_first())
    &&& closes_all(outs.drop_first(), Seq::empty())
}

/// Whether written events are found again in a document, the first at its start.
pub open spec fn comes_back(outs: Seq<XmlOutView>, ev: Seq<XmlView>) -> bool {
    exists|pos: Seq<int>| #[trigger] laid_out(outs, ev, pos) && pos[0] == 0
}

/// The bytes of the document that `quick_xml::Writer` makes of these events, with
/// each level indented by two spaces.
pub uninterp spec fn xml_document(events: Seq<XmlOutView>) -> Seq<u8>;

/// The events that a writer has taken since it was opened.
pub uninterp spec fn written_events(writer: quick_xml::Writer<Vec<u8>>) -> Seq<XmlOutView>;

/// `quick_xml::Writer::new_with_indent` into a fresh vector, by spaces.
#[verifier::external_body]
pub(crate) fn new_document() -> (r: quick_xml::Writer<Vec<u8>>)
    ensures
        written_events(r) == Seq::<XmlOutView>::empty(),
{
    quick_xml::Writer::new_with_indent(Vec::new(), b' ', 2)
}

/// `quick_xml::Writer::write_event`: writes one event. It fails only where the sink
/// does, and a vector takes every byte.
#[verifier::external_body]
pub(crate) fn write_event(writer: &mut quick_xml::Writer<Vec<u8>>, out: XmlOut<'_>) -> (r: Result<
    (),
    String,
>)
    ensures
        r is Ok,
        written_events(*final(writer)) == written_events(*old(writer)).push(out@),
{
    let event = match out {
        XmlOut::Decl(version, encoding) => Decl(BytesDecl::new(version, Some(encoding), None)),
        XmlOut::Start(name) => Start(BytesStart::new(name)),
        XmlOut::Text(text) => Text(BytesText::new(text)),
        XmlOut::End(name) => End(BytesEnd::new(name)),
    };
    writer.write_event(event).map_err(|e| e.to_string())
}

/// `quick_xml::Writer::into_inner`: the bytes that a writer has written. Where the events
/// make a document, `quick_xml::Reader` finds them in it again, the first at its start:
/// `BytesText::unescape` undoes what `BytesText::new` escaped, and the writer puts line
/// breaks and spaces only between two tags.
#[verifier::external_body]
pub(crate) fn document_bytes(writer: quick_xml::Writer<Vec<u8>>) -> (r: Vec<u8>)
    ensures
        r@ == xml_document(written_events(writer)),
        makes_document(written_events(writer)) ==> comes_back(
            written_events(writer),
            xml_events(r@),
        ),
{
    writer.into_inner()
}

/// Events are cut behind the first that is character data, a document type, the end of
/// the document or a fault: what is left is a beginning of the events, nothing but its
/// last ends them, and where none does they are left whole.
pub proof fn law_cut_behind_the_first_end(ev: Seq<XmlView>)
    ensures
        until_end(ev).is_prefix_of(ev),
        forall|k: int|
            #![trigger ev[k]]
            0 <= k < until_end(ev).len() - 1 ==> !(ev[k] is CharData) && !(ev[k] is DocumentType)
                && !(ev[k] is DocumentEnd) && !(ev[k] is Failed),
        until_end(ev).len() < ev.len() ==> until_end(ev).len() > 0 && ({
            let e = ev[until_end(ev).len() - 1];
            e is CharData || e is DocumentType || e is DocumentEnd || e is Failed
        }),
    decreases ev.len(),
{
    if ev.len() > 0 {
        let rest = ev.drop_first();
        law_cut_behind_the_first_end(rest);
        if !ends(ev[0]) {
            assert(until_end(ev) =~= seq![ev[0]] + until_end(rest));
            assert forall|k: int|
                #![trigger ev[k]]
                0 <= k < until_end(ev).len() - 1 implies !(ev[k] is CharData)
                && !(ev[k] is DocumentType) && !(ev[k] is DocumentEnd) && !(ev[k] is Failed) by {
                if k > 0 {
                    assert(until_end(rest)[k - 1] == until_end(ev)[k]);
                    assert(rest[k - 1] == ev[k]);
                } else {
                    assert(!ends(ev[k]));
                }
            }
            assert(until_end(ev) =~= ev.subrange(0, until_end(ev).len() as int));
            if until_end(ev).len() < ev.len() {
                assert(rest[until_end(rest).len() - 1] == ev[until_end(ev).len() - 1]);
            }
        } else {
            assert(until_end(ev) =~= ev.subrange(0, 1));
        }
    }
}

/// An event is passed over between two tags exactly if it is a comment, a declaration, an
/// instruction, or text in which nothing is left once it is trimmed.
pub proof fn law_passed_over_exactly(e: XmlView)
    ensures
        e is Comment || e is Declaration || e is Instruction ==> ignorable(e),
        e is Start || e is End || e is Empty || e is CharData || e is Failed ==> !ignorable(e),
        e matches XmlView::Text(t, _) ==> (ignorable(e) <==> text::trimmed(t).len() == 0),
{
}

} // verus!
