//! How the daemon answers the command line tools: one XML-RPC call in an HTTP
//! request, one document in an HTTP response.
use vstd::prelude::*;
use vstd::slice::slice_subrange;
use vstd::utf8::*;

use crate::bytes::append_slice;
#[allow(unused_imports)]
use crate::daemon::handler;
use crate::daemon::handler::handle_call;
use crate::daemon::peer_merge;
use crate::daemon::peer_merge::zero_at;
#[allow(unused_imports)]
use crate::daemon::rpc;
use crate::daemon::rpc::{parse_request, serialize_fault};
#[allow(unused_imports)]
use crate::daemon::xml;
use crate::session::{Session, SessionView};
#[allow(unused_imports)]
use crate::text;
use crate::text::push_decimal;

verus! {

/// Whether an empty line, two line ends in a row, starts `data`.
pub open spec fn starts_blank(data: Seq<u8>) -> bool {
    data.len() >= 4 && data[0] == 13 && data[1] == 10 && data[2] == 13 && data[3] == 10
}

/// Where the body of a request starts: behind the first empty line.
pub open spec fn body_start(data: Seq<u8>) -> Option<int>
    decreases data.len(),
{
    if data.len() < 4 {
        None
    } else if starts_blank(data) {
        Some(4)
    } else {
        match body_start(data.subrange(1, data.len() as int)) {
            Some(i) => Some(i + 1),
            None => None,
        }
    }
}

/// The body of a request: what follows the first empty line, up to the first zero.
pub open spec fn body_of(data: Seq<u8>) -> Option<Seq<u8>> {
    match body_start(data) {
        Some(i) => Some(peer_merge::until_zero(data.subrange(i, data.len() as int))),
        None => None,
    }
}

/// Finds the body of a request.
pub fn request_body(data: &[u8]) -> (r: Option<&[u8]>)
    ensures
        match r {
            Some(b) => body_of(data@) == Some(b@),
            None => body_of(data@) is None,
        },
{
    let n: usize = data.len();
    let mut i: usize = 0;
    proof {
        assert(data@.subrange(0, n as int) =~= data@);
    }
    while n - i >= 4
        invariant
            i <= n == data@.len(),
            match body_start(data@.subrange(i as int, n as int)) {
                Some(k) => body_start(data@) == Some(i + k),
                None => body_start(data@) is None,
            },
        decreases n - i,
    {
        let ghost rest = data@.subrange(i as int, n as int);
        if data[i] == 13 && data[i + 1] == 10 && data[i + 2] == 13 && data[i + 3] == 10 {
            assert(starts_blank(rest));
            let from: usize = i + 4;
            let behind = slice_subrange(data, from, n);
            let len: usize = zero_at(behind);
            return Some(slice_subrange(behind, 0, len));
        }
        proof {
            assert(rest.subrange(1, rest.len() as int) =~= data@.subrange(i + 1, n as int));
        }
        i += 1;
    }
    None
}

/// The document that reports a fault.
fn fault_xml(code: i32, msg: &str) -> (r: Vec<u8>)
    ensures
        r@ == xml::xml_document(rpc::fault_events(code as int, msg@)),
{
    match serialize_fault(code, msg) {
        Ok(doc) => doc,
        Err(_) => Vec::new(),
    }
}

/// The document that answers the call in the body of a request.
pub open spec fn reply(s: SessionView, body: Seq<u8>) -> Seq<u8> {
    match rpc::parsed_call(xml::until_end(xml::xml_events(body))) {
        Ok(c) => match handler::answer(s, c) {
            Ok(v) => xml::xml_document(rpc::response_events(v)),
            Err(m) => xml::xml_document(rpc::fault_events(-1, m)),
        },
        Err(e) => xml::xml_document(rpc::fault_events(-1, "parse error: "@ + e.text())),
    }
}

/// Answers the call in the body of a request. A call that cannot be read or answered
/// is answered with a fault.
pub fn answer_body(session: &Session, body: &[u8]) -> (r: Vec<u8>)
    ensures
        r@ == reply(session@, body@),
{
    match parse_request(body) {
        Ok(call) => match handle_call(session, &call) {
            Ok(doc) => doc,
            Err(e) => fault_xml(-1, e.as_str()),
        },
        Err(e) => {
            let mut m = "parse error: ".to_owned();
            m.append(e.to_text().as_str());
            fault_xml(-1, m.as_str())
        },
    }
}

/// A document as an HTTP response.
pub open spec fn http_response(doc: Seq<u8>) -> Seq<u8> {
    encode_utf8(
        "HTTP/1.1 200 OK\r\nContent-Type: text/xml\r\nContent-Length: "@ + text::decimal(doc.len())
            + "\r\nConnection: close\r\n\r\n"@,
    ) + doc
}

/// Puts the header of an HTTP response before a document.
pub fn frame_response(doc: &[u8]) -> (r: Vec<u8>)
    ensures
        r@ == http_response(doc@),
{
    let mut header = "HTTP/1.1 200 OK\r\nContent-Type: text/xml\r\nContent-Length: ".to_owned();
    push_decimal(&mut header, doc.len() as u64);
    header.append("\r\nConnection: close\r\n\r\n");
    let mut out: Vec<u8> = Vec::new();
    append_slice(&mut out, header.as_str().as_bytes());
    append_slice(&mut out, doc);
    proof {
        assert(out@ =~= http_response(doc@));
    }
    out
}

/// Answers what a client sent. Nothing is answered where it holds no empty line.
pub fn handle_client(session: &Session, data: &[u8]) -> (r: Option<Vec<u8>>)
    ensures
        match r {
            Some(out) => body_of(data@) is Some && out@ == http_response(
                reply(session@, body_of(data@)->0),
            ),
            None => body_of(data@) is None,
        },
{
    match request_body(data) {
        Some(body) => Some(frame_response(&answer_body(session, body))),
        None => None,
    }
}

/// Whether an empty line stands at a place: a line end right behind another.
pub open spec fn blank_at(data: Seq<u8>, k: int) -> bool {
    0 <= k && k + 4 <= data.len() && data[k] == 13 && data[k + 1] == 10 && data[k + 2] == 13
        && data[k + 3] == 10
}

/// The body of a request starts right behind the first empty line, and there is none
/// without one.
pub proof fn law_body_starts_behind_the_empty_line(data: Seq<u8>)
    ensures
        body_start(data) matches Some(i) ==> 4 <= i <= data.len() && blank_at(data, i - 4)
            && forall|k: int| 0 <= k < i - 4 ==> !#[trigger] blank_at(data, k),
        body_start(data) is None ==> forall|k: int| !#[trigger] blank_at(data, k),
    decreases data.len(),
{
    if data.len() >= 4 && !starts_blank(data) {
        let rest = data.subrange(1, data.len() as int);
        law_body_starts_behind_the_empty_line(rest);
        assert forall|k: int| k >= 1 implies blank_at(rest, k - 1) == #[trigger] blank_at(
            data,
            k,
        ) by {}
        assert(!blank_at(data, 0));
        if let Some(j) = body_start(rest) {
            assert(blank_at(rest, j - 4));
            assert(blank_at(data, j - 3));
        }
    }
}

/// The body of a request is what stands behind the first empty line, up to the first
/// zero.
pub proof fn law_body_ends_at_the_first_zero(data: Seq<u8>)
    ensures
        body_of(data) is Some <==> body_start(data) is Some,
        body_of(data) matches Some(b) ==> ({
            let i = body_start(data)->0;
            &&& i + b.len() <= data.len()
            &&& b == data.subrange(i, i + b.len())
            &&& forall|k: int| 0 <= k < b.len() ==> #[trigger] b[k] != 0
            &&& i + b.len() < data.len() ==> data[i + b.len()] == 0
        }),
{
    law_body_starts_behind_the_empty_line(data);
    if let Some(i) = body_start(data) {
        let rest = data.subrange(i, data.len() as int);
        peer_merge::law_field_ends_at_the_first_zero(rest);
        let b = peer_merge::until_zero(rest);
        assert(b =~= data.subrange(i, i + b.len()));
        assert forall|k: int| 0 <= k < b.len() implies #[trigger] b[k] != 0 by {
            assert(rest[k] != 0);
        }
        if i + b.len() < data.len() {
            assert(rest[b.len() as int] == data[i + b.len()]);
        }
    }
}

/// A response ends with the document that it carries.
pub proof fn law_response_carries_the_document(doc: Seq<u8>)
    ensures
        http_response(doc).len() >= doc.len(),
        http_response(doc).subrange(
            http_response(doc).len() - doc.len(),
            http_response(doc).len() as int,
        ) == doc,
{
    assert(http_response(doc).subrange(
        http_response(doc).len() - doc.len(),
        http_response(doc).len() as int,
    ) =~= doc);
}

} // verus!
