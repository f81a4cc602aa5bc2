//! Keys, their identifiers, and the messages in which two daemons agree on one.
#[allow(unused_imports)]
use crate::bytes;
use crate::bytes::{append_slice, push_be, read_be};
#[allow(unused_imports)]
use crate::text;
use crate::text::{push_decimal, push_wide_decimal, text_equal, text_of_bytes, utf8_text};
use base64::engine::general_purpose::STANDARD;
use base64::Engine;
use vstd::prelude::*;
#[allow(unused_imports)]
use vstd::utf8::*;
use zeroize::Zeroize;

verus! {

/// The length of a key.
pub const QKD_KEY_BYTES: usize = 32;

/// One more than the length that the identifier of an application entity can have.
pub const MAX_SAE_ID_LEN: usize = 128;

/// One more than the length that the identifier of a key can have.
pub const MAX_KEY_ID_LEN: usize = 192;

pub const MSG_QKD_KEY_ANNOUNCE: u8 = 0x51;

pub const MSG_QKD_KEY_ACK: u8 = 0x52;

pub const MSG_QKD_KEY_ERROR: u8 = 0x53;

/// Whether a byte is an ASCII control character.
pub open spec fn is_control(b: u8) -> bool {
    b < 0x20 || b == 0x7f
}

/// What is wrong with an identifier: it must not be empty, must be shorter than
/// `max_len` bytes, and must hold no control character.
pub open spec fn identifier_fault(name: Seq<char>, value: Seq<char>, max_len: nat) -> Option<
    Seq<char>,
> {
    let b = encode_utf8(value);
    if b.len() == 0 || b.len() >= max_len {
        Some(name + " must contain 1.."@ + text::decimal((max_len - 1) as nat) + " bytes"@)
    } else if exists|i: int| 0 <= i < b.len() && is_control(#[trigger] b[i]) {
        Some(name + " contains an invalid character"@)
    } else {
        None
    }
}

/// Whether a text can serve as an identifier of fewer than `max_len` bytes.
pub open spec fn identifier_ok(value: Seq<char>, max_len: nat) -> bool {
    let b = encode_utf8(value);
    &&& 0 < b.len() < max_len
    &&& forall|i: int| 0 <= i < b.len() ==> !is_control(#[trigger] b[i])
}

/// Tests an identifier.
pub fn validate_identifier(name: &str, value: &str, max_len: usize) -> (r: Result<(), String>)
    requires
        max_len > 0,
    ensures
        match r {
            Ok(()) => identifier_fault(name@, value@, max_len as nat) is None,
            Err(e) => identifier_fault(name@, value@, max_len as nat) == Some(e@),
        },
        r is Ok <==> identifier_ok(value@, max_len as nat),
{
    let b = value.as_bytes();
    if b.len() == 0 || b.len() >= max_len {
        let mut s = name.to_owned();
        s.append(" must contain 1..");
        push_decimal(&mut s, (max_len - 1) as u64);
        s.append(" bytes");
        return Err(s);
    }
    let mut i: usize = 0;
    while i < b.len()
        invariant
            i <= b@.len(),
            b@ == encode_utf8(value@),
            0 < b@.len() < max_len,
            forall|k: int| 0 <= k < i ==> !is_control(#[trigger] b@[k]),
        decreases b.len() - i,
    {
        if b[i] < 0x20 || b[i] == 0x7f {
            let mut s = name.to_owned();
            s.append(" contains an invalid character");
            proof {
                assert(is_control(b@[i as int]));
            }
            return Err(s);
        }
        i += 1;
    }
    Ok(())
}

/// `zeroize::Zeroize` for `[u8; 32]`: overwrites a key with zeros.
#[verifier::external_body]
pub(crate) fn wipe_key(key: &mut [u8; 32])
    ensures
        forall|i: int| 0 <= i < 32 ==> final(key)@[i] == 0,
    opens_invariants none
    no_unwind
{
    key.zeroize()
}

/// `zeroize::Zeroize` for `Vec<u8>`: overwrites the bytes with zeros and drops them
/// from the vector.
#[verifier::external_body]
fn wipe_bytes(bytes: &mut Vec<u8>)
    ensures
        final(bytes)@.len() == 0,
{
    bytes.zeroize()
}

/// A key and its identifier.
#[derive(Debug)]
pub struct QkdKeyMaterial {
    pub key_id: String,
    pub key: [u8; 32],
}

/// What key material holds.
#[verifier::ext_equal]
pub struct KeyView {
    pub key_id: Seq<char>,
    pub key: Seq<u8>,
}

impl View for QkdKeyMaterial {
    type V = KeyView;

    open spec fn view(&self) -> KeyView {
        KeyView { key_id: self.key_id@, key: self.key@ }
    }
}

impl Clone for QkdKeyMaterial {
    fn clone(&self) -> (r: QkdKeyMaterial)
        ensures
            r@ == self@,
    {
        QkdKeyMaterial { key_id: self.key_id.clone(), key: self.key }
    }
}

impl Drop for QkdKeyMaterial {
    fn drop(&mut self)
        ensures
            forall|i: int| 0 <= i < 32 ==> final(self).key@[i] == 0,
        opens_invariants none
        no_unwind
    {
        wipe_key(&mut self.key);
    }
}

/// One key as a key management entity delivers it, in base 64.
#[derive(Debug)]
pub struct KeyRecord {
    pub key_id: String,
    pub key: String,
}

/// The answer of a key management entity.
#[derive(Debug)]
pub struct KeyResponse {
    pub keys: Vec<KeyRecord>,
}

/// The bytes that a text in base 64 stands for, or what is wrong with it.
pub uninterp spec fn base64_decoded(s: Seq<char>) -> Result<Seq<u8>, Seq<char>>;

/// `base64::Engine::decode` of the standard alphabet with padding: the bytes that
/// `s` stands for, or the message of its error.
#[verifier::external_body]
fn decode_base64(s: &str) -> (r: Result<Vec<u8>, String>)
    ensures
        match r {
            Ok(b) => base64_decoded(s@) == Ok::<_, Seq<char>>(b@),
            Err(e) => base64_decoded(s@) == Err::<Seq<u8>, _>(e@),
        },
{
    STANDARD.decode(s).map_err(|e| e.to_string())
}

/// The key that a decoded text makes: it must be 32 bytes long.
pub open spec fn decoded_key(key_id: Seq<char>, decoded: Result<Seq<u8>, Seq<char>>) -> Result<
    KeyView,
    Seq<char>,
> {
    match decoded {
        Err(e) => Err("invalid base64 QKD key: "@ + e),
        Ok(key) => if key.len() != QKD_KEY_BYTES {
            Err("QKD key must be 256 bits, received "@ + text::decimal(8 * key.len()) + " bits"@)
        } else {
            Ok(KeyView { key_id, key })
        },
    }
}

/// The key in an answer that is to hold the key `expected`, or any key.
pub open spec fn response_key(
    keys: Seq<KeyRecord>,
    expected: Option<Seq<char>>,
) -> Result<KeyView, Seq<char>> {
    if keys.len() == 0 {
        Err("QKD response contained no keys"@)
    } else {
        let id = keys[0].key_id@;
        match identifier_fault("QKD key_ID"@, id, MAX_KEY_ID_LEN as nat) {
            Some(e) => Err(e),
            None => if expected is Some && expected != Some(id) {
                Err("QKD response key_ID does not match the requested key"@)
            } else {
                decoded_key(id, base64_decoded(keys[0].key@))
            },
        }
    }
}

/// What a result about a key says.
pub open spec fn key_result(r: Result<QkdKeyMaterial, String>) -> Result<KeyView, Seq<char>> {
    match r {
        Ok(k) => Ok(k@),
        Err(e) => Err(e@),
    }
}

/// The key that a decoded text makes.
pub fn key_of_bytes(key_id: &str, decoded: Result<Vec<u8>, String>) -> (r: Result<
    QkdKeyMaterial,
    String,
>)
    ensures
        key_result(r) == decoded_key(
            key_id@,
            match decoded {
                Ok(b) => Ok(b@),
                Err(e) => Err(e@),
            },
        ),
{
    match decoded {
        Err(e) => {
            let mut s = "invalid base64 QKD key: ".to_owned();
            s.append(e.as_str());
            Err(s)
        },
        Ok(decoded) => {
            let mut decoded = decoded;
            if decoded.len() != QKD_KEY_BYTES {
                let bits: u128 = decoded.len() as u128 * 8;
                wipe_bytes(&mut decoded);
                let mut s = "QKD key must be 256 bits, received ".to_owned();
                push_wide_decimal(&mut s, bits);
                s.append(" bits");
                return Err(s);
            }
            let ghost whole = decoded@;
            let mut key: [u8; 32] = [0u8;32];
            let mut i: usize = 0;
            while i < QKD_KEY_BYTES
                invariant
                    i <= QKD_KEY_BYTES,
                    decoded@ == whole,
                    whole.len() == QKD_KEY_BYTES,
                    forall|k: int| 0 <= k < i ==> key@[k] == whole[k],
                decreases QKD_KEY_BYTES - i,
            {
                key[i] = decoded[i];
                i += 1;
            }
            wipe_bytes(&mut decoded);
            proof {
                assert(key@ =~= whole);
            }
            Ok(QkdKeyMaterial { key_id: key_id.to_owned(), key })
        },
    }
}

/// The key in an answer that is to hold one key: the key `expected_key_id`, or any.
pub fn decode_single_key(response: &KeyResponse, expected_key_id: Option<&str>) -> (r: Result<
    QkdKeyMaterial,
    String,
>)
    ensures
        key_result(r) == response_key(
            response.keys@,
            match expected_key_id {
                Some(id) => Some(id@),
                None => None,
            },
        ),
{
    if response.keys.len() == 0 {
        return Err("QKD response contained no keys".to_owned());
    }
    let record = &response.keys[0];
    validate_identifier("QKD key_ID", record.key_id.as_str(), MAX_KEY_ID_LEN)?;
    if let Some(expected) = expected_key_id {
        if !text_equal(expected, record.key_id.as_str()) {
            return Err("QKD response key_ID does not match the requested key".to_owned());
        }
    }
    key_of_bytes(record.key_id.as_str(), decode_base64(record.key.as_str()))
}

/// What a daemon announces: which key it took for its peer.
#[derive(Debug, Clone, PartialEq, Eq)]
pub struct QkdKeyAnnouncement {
    pub daemon_id: u64,
    pub sae_id: String,
    pub key_id: String,
}

/// What an announcement holds.
#[verifier::ext_equal]
pub struct AnnouncementView {
    pub daemon_id: u64,
    pub sae_id: Seq<char>,
    pub key_id: Seq<char>,
}

impl View for QkdKeyAnnouncement {
    type V = AnnouncementView;

    open spec fn view(&self) -> AnnouncementView {
        AnnouncementView {
            daemon_id: self.daemon_id,
            sae_id: self.sae_id@,
            key_id: self.key_id@,
        }
    }
}

/// The message that announces a key.
pub open spec fn announcement_wire(a: AnnouncementView) -> Seq<u8> {
    let sae = encode_utf8(a.sae_id);
    let key = encode_utf8(a.key_id);
    seq![MSG_QKD_KEY_ANNOUNCE] + bytes::be_bytes(a.daemon_id as nat, 8) + bytes::be_bytes(
        sae.len(),
        2,
    ) + bytes::be_bytes(key.len(), 2) + sae + key
}

/// What is wrong with an announcement that is to be sent.
pub open spec fn announcement_fault(a: AnnouncementView) -> Option<Seq<char>> {
    match identifier_fault("QKD SAE ID"@, a.sae_id, MAX_SAE_ID_LEN as nat) {
        Some(e) => Some(e),
        None => identifier_fault("QKD key_ID"@, a.key_id, MAX_KEY_ID_LEN as nat),
    }
}

/// The message that announces a key.
pub fn encode_key_announcement(announcement: &QkdKeyAnnouncement) -> (r: Result<Vec<u8>, String>)
    ensures
        match r {
            Ok(b) => announcement_fault(announcement@) is None && b@ == announcement_wire(
                announcement@,
            ),
            Err(e) => announcement_fault(announcement@) == Some(e@),
        },
{
    validate_identifier("QKD SAE ID", announcement.sae_id.as_str(), MAX_SAE_ID_LEN)?;
    validate_identifier("QKD key_ID", announcement.key_id.as_str(), MAX_KEY_ID_LEN)?;
    let sae = announcement.sae_id.as_str().as_bytes();
    let key = announcement.key_id.as_str().as_bytes();
    let mut out: Vec<u8> = Vec::new();
    out.push(MSG_QKD_KEY_ANNOUNCE);
    push_be(&mut out, announcement.daemon_id, 8);
    push_be(&mut out, sae.len() as u64, 2);
    push_be(&mut out, key.len() as u64, 2);
    append_slice(&mut out, sae);
    append_slice(&mut out, key);
    proof {
        assert(out@ =~= announcement_wire(announcement@));
    }
    Ok(out)
}

/// The announcement that a message holds, or what is wrong with it.
pub open spec fn announcement_value(data: Seq<u8>) -> Result<AnnouncementView, Seq<char>> {
    if data.len() < 13 || data[0] != MSG_QKD_KEY_ANNOUNCE {
        Err("invalid QKD key announcement"@)
    } else {
        let daemon_id = bytes::be_value(data.subrange(1, 9));
        let sae_len = bytes::be_value(data.subrange(9, 11)) as int;
        let key_len = bytes::be_value(data.subrange(11, 13)) as int;
        if sae_len == 0 || sae_len >= MAX_SAE_ID_LEN || key_len == 0 || key_len >= MAX_KEY_ID_LEN
            || data.len() != 13 + sae_len + key_len {
            Err("invalid QKD key announcement lengths"@)
        } else {
            let sae = data.subrange(13, 13 + sae_len);
            let key = data.subrange(13 + sae_len, data.len() as int);
            if !valid_utf8(sae) {
                Err("QKD SAE ID is not UTF-8"@)
            } else if !valid_utf8(key) {
                Err("QKD key_ID is not UTF-8"@)
            } else {
                Ok(
                    AnnouncementView {
                        daemon_id: daemon_id as u64,
                        sae_id: decode_utf8(sae),
                        key_id: decode_utf8(key),
                    },
                )
            }
        }
    }
}

/// The announcement that a message holds.
pub fn decode_key_announcement(data: &[u8]) -> (r: Result<QkdKeyAnnouncement, String>)
    ensures
        match r {
            Ok(a) => announcement_value(data@) == Ok::<_, Seq<char>>(a@),
            Err(e) => announcement_value(data@) == Err::<AnnouncementView, _>(e@),
        },
{
    if data.len() < 13 || data[0] != MSG_QKD_KEY_ANNOUNCE {
        return Err("invalid QKD key announcement".to_owned());
    }
    let daemon_id: u64 = read_be(data, 1, 8);
    let sae_len: usize = read_be(data, 9, 2) as usize;
    let key_len: usize = read_be(data, 11, 2) as usize;
    proof {
        bytes::lemma_be_value_bound(data@.subrange(9, 11));
        bytes::lemma_be_value_bound(data@.subrange(11, 13));
        bytes::lemma_byte_range_values();
    }
    if sae_len == 0 || sae_len >= MAX_SAE_ID_LEN || key_len == 0 || key_len >= MAX_KEY_ID_LEN
        || data.len() != 13 + sae_len + key_len {
        return Err("invalid QKD key announcement lengths".to_owned());
    }
    let sae = match utf8_text(vstd::slice::slice_subrange(data, 13, 13 + sae_len)) {
        Some(s) => s,
        None => {
            return Err("QKD SAE ID is not UTF-8".to_owned());
        },
    };
    let key = match utf8_text(vstd::slice::slice_subrange(data, 13 + sae_len, data.len())) {
        Some(s) => s,
        None => {
            return Err("QKD key_ID is not UTF-8".to_owned());
        },
    };
    Ok(QkdKeyAnnouncement { daemon_id, sae_id: sae.to_owned(), key_id: key.to_owned() })
}

/// Announcing a key and reading the announcement gives the announcement back.
pub proof fn law_announcement_round_trip(a: AnnouncementView)
    requires
        announcement_fault(a) is None,
    ensures
        announcement_value(announcement_wire(a)) == Ok::<_, Seq<char>>(a),
{
    broadcast use {
        bytes::lemma_be_bytes_len,
        encode_utf8_valid_utf8,
        encode_utf8_decode_utf8,
    };

    bytes::lemma_byte_range_values();
    let sae = encode_utf8(a.sae_id);
    let key = encode_utf8(a.key_id);
    let d = announcement_wire(a);
    let id = bytes::be_bytes(a.daemon_id as nat, 8);
    let sl = bytes::be_bytes(sae.len(), 2);
    let kl = bytes::be_bytes(key.len(), 2);
    bytes::lemma_be_round_trip(a.daemon_id as nat, 8);
    bytes::lemma_be_round_trip(sae.len(), 2);
    bytes::lemma_be_round_trip(key.len(), 2);
    assert(d.subrange(1, 9) =~= id);
    assert(d.subrange(9, 11) =~= sl);
    assert(d.subrange(11, 13) =~= kl);
    assert(d.subrange(13, 13 + sae.len() as int) =~= sae);
    assert(d.subrange(13 + sae.len() as int, d.len() as int) =~= key);
}

/// A message of one text: its kind, the length of the text, the text.
pub open spec fn text_wire(kind: u8, b: Seq<u8>) -> Seq<u8> {
    seq![kind] + bytes::be_bytes(b.len(), 2) + b
}

/// The message that accepts a key.
pub fn encode_key_ack(key_id: &str) -> (r: Result<Vec<u8>, String>)
    ensures
        match r {
            Ok(b) => identifier_ok(key_id@, MAX_KEY_ID_LEN as nat) && b@ == text_wire(
                MSG_QKD_KEY_ACK,
                encode_utf8(key_id@),
            ),
            Err(e) => identifier_fault("QKD key_ID"@, key_id@, MAX_KEY_ID_LEN as nat) == Some(e@),
        },
{
    validate_identifier("QKD key_ID", key_id, MAX_KEY_ID_LEN)?;
    let key = key_id.as_bytes();
    let mut out: Vec<u8> = Vec::new();
    out.push(MSG_QKD_KEY_ACK);
    push_be(&mut out, key.len() as u64, 2);
    append_slice(&mut out, key);
    proof {
        assert(out@ =~= text_wire(MSG_QKD_KEY_ACK, key@));
    }
    Ok(out)
}

/// What a message of failure says, where `data` is one.
pub open spec fn key_error_value(data: Seq<u8>) -> Option<Seq<char>> {
    if data.len() < 3 || data[0] != MSG_QKD_KEY_ERROR {
        None
    } else if data.len() != 3 + bytes::be_value(data.subrange(1, 3)) {
        Some("malformed QKD peer error"@)
    } else {
        Some("remote QKD setup failed: "@ + text::lossy_text(data.subrange(3, data.len() as int)))
    }
}

/// The key that a message accepts, or what is wrong: a message of failure says it
/// itself.
pub open spec fn ack_value(data: Seq<u8>) -> Result<Seq<char>, Seq<char>> {
    if data.len() < 3 || data[0] != MSG_QKD_KEY_ACK {
        match key_error_value(data) {
            Some(e) => Err(e),
            None => Err("invalid QKD key ACK"@),
        }
    } else {
        let len = bytes::be_value(data.subrange(1, 3));
        let key = data.subrange(3, data.len() as int);
        if len == 0 || len >= MAX_KEY_ID_LEN || data.len() != 3 + len {
            Err("invalid QKD key ACK length"@)
        } else if !valid_utf8(key) {
            Err("QKD ACK key_ID is not UTF-8"@)
        } else {
            Ok(decode_utf8(key))
        }
    }
}

/// What a message of failure says, where `data` is one.
fn decode_key_error(data: &[u8]) -> (r: Option<String>)
    ensures
        match r {
            Some(e) => key_error_value(data@) == Some(e@),
            None => key_error_value(data@) is None,
        },
{
    if data.len() < 3 || data[0] != MSG_QKD_KEY_ERROR {
        return None;
    }
    let len: usize = read_be(data, 1, 2) as usize;
    proof {
        bytes::lemma_be_value_bound(data@.subrange(1, 3));
        bytes::lemma_byte_range_values();
    }
    if data.len() != 3 + len {
        return Some("malformed QKD peer error".to_owned());
    }
    let mut s = "remote QKD setup failed: ".to_owned();
    s.append(text_of_bytes(vstd::slice::slice_subrange(data, 3, data.len())).as_str());
    Some(s)
}

/// The key that a message accepts.
pub fn decode_key_ack(data: &[u8]) -> (r: Result<String, String>)
    ensures
        match r {
            Ok(key) => ack_value(data@) == Ok::<_, Seq<char>>(key@),
            Err(e) => ack_value(data@) == Err::<Seq<char>, _>(e@),
        },
{
    if data.len() < 3 || data[0] != MSG_QKD_KEY_ACK {
        return Err(
            match decode_key_error(data) {
                Some(e) => e,
                None => "invalid QKD key ACK".to_owned(),
            },
        );
    }
    let len: usize = read_be(data, 1, 2) as usize;
    proof {
        bytes::lemma_be_value_bound(data@.subrange(1, 3));
        bytes::lemma_byte_range_values();
    }
    if len == 0 || len >= MAX_KEY_ID_LEN || data.len() != 3 + len {
        return Err("invalid QKD key ACK length".to_owned());
    }
    match utf8_text(vstd::slice::slice_subrange(data, 3, data.len())) {
        Some(s) => Ok(s.to_owned()),
        None => Err("QKD ACK key_ID is not UTF-8".to_owned()),
    }
}

/// The first 1024 bytes of a message, or all of it.
pub open spec fn clipped(b: Seq<u8>) -> Seq<u8> {
    if b.len() > 1024 {
        b.subrange(0, 1024)
    } else {
        b
    }
}

/// The message of a failure.
pub fn encode_key_error(message: &str) -> (r: Vec<u8>)
    ensures
        r@ == text_wire(MSG_QKD_KEY_ERROR, clipped(encode_utf8(message@))),
{
    let b = message.as_bytes();
    let len: usize = if b.len() > 1024 {
        1024
    } else {
        b.len()
    };
    let mut out: Vec<u8> = Vec::new();
    out.push(MSG_QKD_KEY_ERROR);
    push_be(&mut out, len as u64, 2);
    append_slice(&mut out, vstd::slice::slice_subrange(b, 0, len));
    proof {
        assert(b@.subrange(0, len as int) =~= clipped(b@));
        assert(out@ =~= text_wire(MSG_QKD_KEY_ERROR, clipped(b@)));
    }
    out
}

/// Accepting a key and reading the message gives the key's identifier back.
pub proof fn law_ack_round_trip(key_id: Seq<char>)
    requires
        identifier_ok(key_id, MAX_KEY_ID_LEN as nat),
    ensures
        ack_value(text_wire(MSG_QKD_KEY_ACK, encode_utf8(key_id))) == Ok::<_, Seq<char>>(key_id),
{
    broadcast use {
        bytes::lemma_be_bytes_len,
        encode_utf8_valid_utf8,
        encode_utf8_decode_utf8,
    };

    bytes::lemma_byte_range_values();
    let key = encode_utf8(key_id);
    let d = text_wire(MSG_QKD_KEY_ACK, key);
    bytes::lemma_be_round_trip(key.len(), 2);
    assert(d.subrange(1, 3) =~= bytes::be_bytes(key.len(), 2));
    assert(d.subrange(3, d.len() as int) =~= key);
}

/// Whoever waits for a key to be accepted and gets the message of a failure learns
/// what failed.
pub proof fn law_failure_is_reported(message: Seq<char>)
    ensures
        ack_value(text_wire(MSG_QKD_KEY_ERROR, clipped(encode_utf8(message)))) == Err::<
            Seq<char>,
            _,
        >("remote QKD setup failed: "@ + text::lossy_text(clipped(encode_utf8(message)))),
{
    broadcast use bytes::lemma_be_bytes_len;

    bytes::lemma_byte_range_values();
    let b = clipped(encode_utf8(message));
    let d = text_wire(MSG_QKD_KEY_ERROR, b);
    bytes::lemma_be_round_trip(b.len(), 2);
    assert(d.subrange(1, 3) =~= bytes::be_bytes(b.len(), 2));
    assert(d.subrange(3, d.len() as int) =~= b);
}

/// An identifier is accepted exactly if it has at least one byte, fewer than the limit,
/// and none that is below a blank or the delete character; the same goes for what is
/// found wrong with it.
pub proof fn law_identifier_is_accepted_exactly(name: Seq<char>, value: Seq<char>, max_len: nat)
    ensures
        ({
            let b = encode_utf8(value);
            let good = 1 <= b.len() < max_len && forall|i: int|
                0 <= i < b.len() ==> #[trigger] b[i] >= 32 && b[i] != 127;
            &&& identifier_ok(value, max_len) <==> good
            &&& identifier_fault(name, value, max_len) is None <==> good
        }),
{
    let b = encode_utf8(value);
    if exists|i: int| 0 <= i < b.len() && is_control(#[trigger] b[i]) {
        let i = choose|i: int| 0 <= i < b.len() && is_control(#[trigger] b[i]);
        assert(!(b[i] >= 32 && b[i] != 127));
    }
}

/// An announcement is sent exactly if the entity's identifier has one to 127 bytes and the
/// key's one to 191, all of them printable or beyond ASCII.
pub proof fn law_announcement_is_sent_exactly(a: AnnouncementView)
    ensures
        announcement_fault(a) is None <==> identifier_ok(a.sae_id, 128) && identifier_ok(
            a.key_id,
            192,
        ),
{
    law_identifier_is_accepted_exactly("QKD SAE ID"@, a.sae_id, 128);
    law_identifier_is_accepted_exactly("QKD key_ID"@, a.key_id, 192);
}

/// Each part of an announcement has a place of its own: the kind, the daemon in eight
/// bytes, the lengths of the two identifiers in two bytes each, the entity's identifier
/// and the key's, the byte that weighs most first.
pub proof fn law_announcement_layout(a: AnnouncementView)
    requires
        announcement_fault(a) is None,
    ensures
        ({
            let d = announcement_wire(a);
            let sae = encode_utf8(a.sae_id);
            let key = encode_utf8(a.key_id);
            &&& d.len() == 13 + sae.len() + key.len()
            &&& d[0] == 0x51
            &&& bytes::be_value(d.subrange(1, 9)) == a.daemon_id
            &&& bytes::be_value(d.subrange(9, 11)) == sae.len()
            &&& bytes::be_value(d.subrange(11, 13)) == key.len()
            &&& d.subrange(13, 13 + sae.len() as int) == sae
            &&& d.subrange(13 + sae.len() as int, d.len() as int) == key
        }),
{
    broadcast use bytes::lemma_be_bytes_len;

    bytes::lemma_byte_range_values();
    let sae = encode_utf8(a.sae_id);
    let key = encode_utf8(a.key_id);
    let d = announcement_wire(a);
    bytes::lemma_be_round_trip(a.daemon_id as nat, 8);
    bytes::lemma_be_round_trip(sae.len(), 2);
    bytes::lemma_be_round_trip(key.len(), 2);
    assert(d.subrange(1, 9) =~= bytes::be_bytes(a.daemon_id as nat, 8));
    assert(d.subrange(9, 11) =~= bytes::be_bytes(sae.len(), 2));
    assert(d.subrange(11, 13) =~= bytes::be_bytes(key.len(), 2));
    assert(d.subrange(13, 13 + sae.len() as int) =~= sae);
    assert(d.subrange(13 + sae.len() as int, d.len() as int) =~= key);
}

/// An announcement is read exactly from a message of its kind whose length is what its two
/// identifiers take, where those have one to 127 and one to 191 bytes and are texts.
pub proof fn law_announcement_is_read_exactly(data: Seq<u8>)
    ensures
        announcement_value(data) is Ok <==> ({
            let sae_len = bytes::be_value(data.subrange(9, 11)) as int;
            let key_len = bytes::be_value(data.subrange(11, 13)) as int;
            &&& data.len() >= 13
            &&& data[0] == 0x51
            &&& 1 <= sae_len <= 127
            &&& 1 <= key_len <= 191
            &&& data.len() == 13 + sae_len + key_len
            &&& valid_utf8(data.subrange(13, 13 + sae_len))
            &&& valid_utf8(data.subrange(13 + sae_len, data.len() as int))
        }),
{
}

/// A message of one text is its kind, the number of the text's bytes with the byte that
/// weighs most first, and those bytes.
pub proof fn law_text_message_layout(kind: u8, b: Seq<u8>)
    requires
        b.len() < 0x1_0000,
    ensures
        ({
            let d = text_wire(kind, b);
            &&& d.len() == 3 + b.len()
            &&& d[0] == kind
            &&& 256 * d[1] + d[2] == b.len()
            &&& d.subrange(3, d.len() as int) == b
        }),
{
    broadcast use bytes::lemma_be_bytes_len;

    bytes::lemma_byte_range_values();
    let d = text_wire(kind, b);
    let l = bytes::be_bytes(b.len(), 2);
    bytes::lemma_be_round_trip(b.len(), 2);
    assert(d.subrange(3, d.len() as int) =~= b);
    assert(d[1] == l[0] && d[2] == l[1]);
    reveal_with_fuel(bytes::be_value, 3);
    assert(l.drop_last()[0] == l[0]);
    assert(l.drop_last().drop_last().len() == 0);
}

/// A key is accepted exactly by a message of that kind which names a key of one to 191
/// bytes and holds nothing else. A message of failure never accepts one.
pub proof fn law_key_is_accepted_exactly(data: Seq<u8>)
    ensures
        ack_value(data) is Ok <==> data.len() >= 3 && data[0] == 0x52 && 1 <= bytes::be_value(
            data.subrange(1, 3),
        ) <= 191 && data.len() == 3 + bytes::be_value(data.subrange(1, 3)) && valid_utf8(
            data.subrange(3, data.len() as int),
        ),
        ack_value(data) matches Ok(key) ==> key == decode_utf8(
            data.subrange(3, data.len() as int),
        ),
        key_error_value(data) is Some <==> data.len() >= 3 && data[0] == 0x53,
{
}

/// What is told of a failure is the beginning of its message, all of it where that has no
/// more than 1024 bytes.
pub proof fn law_failure_is_clipped(b: Seq<u8>)
    ensures
        clipped(b).is_prefix_of(b),
        b.len() <= 1024 ==> clipped(b) == b,
        b.len() > 1024 ==> clipped(b).len() == 1024,
{
}

/// A key comes of an answer exactly if the first key in it can be named, is the one that
/// was asked for where one was, and its text stands for 32 bytes. It is then that key
/// under its own name.
pub proof fn law_answered_key_exactly(keys: Seq<KeyRecord>, expected: Option<Seq<char>>)
    ensures
        response_key(keys, expected) is Ok <==> keys.len() > 0 && identifier_ok(
            keys[0].key_id@,
            192,
        ) && (expected matches Some(id) ==> id == keys[0].key_id@) && (base64_decoded(
            keys[0].key@,
        ) matches Ok(k) && k.len() == 32),
        response_key(keys, expected) matches Ok(k) ==> k.key_id == keys[0].key_id@
            && base64_decoded(keys[0].key@) == Ok::<_, Seq<char>>(k.key) && k.key.len() == 32,
{
    if keys.len() > 0 {
        law_identifier_is_accepted_exactly("QKD key_ID"@, keys[0].key_id@, 192);
    }
}

} // verus!
