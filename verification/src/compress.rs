//! Compression of large messages. A compressed message starts with a one and its
//! length, any other with a zero.
#[allow(unused_imports)]
use crate::bytes;
use crate::bytes::{append_slice, push_be, read_be};
#[allow(unused_imports)]
use crate::text;
use crate::text::{parse_signed_32, text_equal};
use vstd::prelude::*;

verus! {

/// Up to this length a message is never compressed.
pub const COMPRESSION_THRESHOLD: usize = 1024;

/// What `zstd` makes of some bytes at a level, where it can compress them.
pub uninterp spec fn zstd_compressed(data: Seq<u8>, level: int) -> Option<Seq<u8>>;

/// The bytes that compressed bytes stand for, where they are compressed bytes.
pub uninterp spec fn zstd_content(data: Seq<u8>) -> Option<Seq<u8>>;

/// `zstd::bulk::compress`: the bytes in compressed form. They stand for what was
/// compressed; that was a slice, and no slice has more than `isize::MAX` bytes.
#[verifier::external_body]
fn zstd_compress(data: &[u8], level: i32) -> (r: Option<Vec<u8>>)
    ensures
        match r {
            Some(c) => zstd_compressed(data@, level as int) == Some(c@),
            None => zstd_compressed(data@, level as int) is None,
        },
        r matches Some(c) ==> zstd_content(c@) == Some(data@) && data@.len() <= isize::MAX,
{
    zstd::bulk::compress(data, level).ok()
}

/// `zstd::bulk::decompress`: the bytes that `data` stands for, where they take at most
/// `capacity` bytes. Where they take more, whether they come all the same depends on
/// how much memory the allocator hands out, and nothing is said.
#[verifier::external_body]
fn zstd_decompress(data: &[u8], capacity: usize) -> (r: Option<Vec<u8>>)
    requires
        capacity <= isize::MAX,
    ensures
        r matches Some(d) ==> zstd_content(data@) == Some(d@),
        zstd_content(data@) matches Some(d) && d.len() <= capacity ==> r is Some,
{
    zstd::bulk::decompress(data, capacity).ok()
}

/// `zstd::bulk::decompress_to_buffer` into the first `n` bytes of a buffer: how many
/// bytes `data` stands for, which then are at its start, where they fit. Of the rest of
/// those `n` bytes, and of all of them where it fails, nothing is said: the decoder may
/// use them.
#[verifier::external_body]
fn zstd_decompress_to(data: &[u8], out: &mut Vec<u8>, n: usize) -> (r: Option<usize>)
    requires
        n <= old(out)@.len(),
    ensures
        match zstd_content(data@) {
            Some(d) => if d.len() <= n {
                r == Some(d.len() as usize) && final(out)@.subrange(0, d.len() as int) == d
            } else {
                r is None
            },
            None => r is None,
        },
        final(out)@.len() == old(out)@.len(),
        final(out)@.subrange(n as int, old(out)@.len() as int) == old(out)@.subrange(
            n as int,
            old(out)@.len() as int,
        ),
{
    zstd::bulk::decompress_to_buffer(data, &mut out[..n]).ok()
}

/// The level of compression, as the variable for it says.
pub open spec fn level_setting(value: Option<Seq<char>>) -> int {
    match value {
        Some(v) => match text::signed_value_32(v) {
            Some(n) => n,
            None => 1,
        },
        None => 1,
    }
}

/// The level of compression: one, or what the variable for it says.
pub fn compression_level(value: Option<&str>) -> (r: i32)
    ensures
        r == level_setting(text::opt_str(value)),
{
    match value {
        Some(v) => match parse_signed_32(v) {
            Some(n) => n,
            None => 1,
        },
        None => 1,
    }
}

/// Whether the variable for it switches compression off.
pub open spec fn switched_off(value: Option<Seq<char>>) -> bool {
    value == Some("0"@) || value == Some("false"@) || value == Some("no"@) || value == Some("off"@)
}

/// Whether messages are compressed: yes, unless the variable for it says no.
pub fn compression_enabled(value: Option<&str>) -> (r: bool)
    ensures
        r == !switched_off(text::opt_str(value)),
{
    match value {
        Some(v) => !(text_equal(v, "0") || text_equal(v, "false") || text_equal(v, "no")
            || text_equal(v, "off")),
        None => true,
    }
}

/// A message that is not compressed.
pub open spec fn plain(data: Seq<u8>) -> Seq<u8> {
    seq![0u8] + data
}

/// A message that is compressed.
pub open spec fn squeezed(len: nat, c: Seq<u8>) -> Seq<u8> {
    seq![1u8] + bytes::be_bytes(len, 4) + c
}

/// A message, given what compression makes of it: it is sent compressed only where
/// that is shorter.
pub open spec fn packed(data: Seq<u8>, enabled: bool, c: Option<Seq<u8>>) -> Seq<u8> {
    if data.len() <= COMPRESSION_THRESHOLD || !enabled {
        plain(data)
    } else {
        match c {
            Some(z) => if z.len() + 5 < data.len() + 1 {
                squeezed(data.len(), z)
            } else {
                plain(data)
            },
            None => plain(data),
        }
    }
}

fn plain_message(data: &[u8]) -> (r: Vec<u8>)
    ensures
        r@ == plain(data@),
{
    let mut out: Vec<u8> = Vec::new();
    out.push(0);
    append_slice(&mut out, data);
    proof {
        assert(out@ =~= plain(data@));
    }
    out
}

/// A message that is long enough to be compressed, given what compression makes of it.
pub fn choose_shorter(data: &[u8], compressed: Option<Vec<u8>>) -> (r: Vec<u8>)
    requires
        data@.len() > COMPRESSION_THRESHOLD,
    ensures
        r@ == packed(
            data@,
            true,
            match compressed {
                Some(c) => Some(c@),
                None => None,
            },
        ),
{
    match compressed {
        Some(c) => if c.len() < data.len() - 4 {
            let mut out: Vec<u8> = Vec::new();
            out.push(1);
            push_be(&mut out, data.len() as u64, 4);
            append_slice(&mut out, c.as_slice());
            proof {
                assert(out@ =~= squeezed(data@.len(), c@));
            }
            out
        } else {
            plain_message(data)
        },
        None => plain_message(data),
    }
}

/// A message as it is sent: compressed where it is long, that is enabled, and it gets
/// shorter by it. Unpacking it gives the message back, at every level, as long as its
/// length can be written down in 32 bits.
pub fn compress(data: &[u8], enabled: bool, level: i32) -> (r: Vec<u8>)
    ensures
        r@ == packed(data@, enabled, zstd_compressed(data@, level as int)),
        data@.len() <= u32::MAX ==> unpacked(r@) == Some(data@) && !understated(r@),
{
    if data.len() <= COMPRESSION_THRESHOLD || !enabled {
        let out = plain_message(data);
        proof {
            lemma_plain_unpacks(data@);
        }
        return out;
    }
    let c = zstd_compress(data, level);
    proof {
        lemma_plain_unpacks(data@);
        if data@.len() <= u32::MAX && c is Some {
            lemma_squeezed_unpacks(data@, c->0@);
        }
    }
    choose_shorter(data, c)
}

/// The message that was packed, where this is a packed message. Of one that was
/// compressed, what its bytes stand for, if that is no longer than it says, and no
/// vector is too short for that.
pub open spec fn unpacked(data: Seq<u8>) -> Option<Seq<u8>> {
    if data.len() == 0 {
        None
    } else if data[0] == 0 {
        Some(data.subrange(1, data.len() as int))
    } else if data.len() < 5 {
        None
    } else {
        match zstd_content(data.subrange(5, data.len() as int)) {
            Some(d) => if d.len() <= bytes::be_value(data.subrange(1, 5)) <= isize::MAX {
                Some(d)
            } else {
                None
            },
            None => None,
        }
    }
}

/// Whether a packed message claims to be shorter than what its bytes stand for.
pub open spec fn understated(data: Seq<u8>) -> bool {
    &&& data.len() >= 5
    &&& data[0] != 0
    &&& zstd_content(data.subrange(5, data.len() as int)) matches Some(d) && d.len()
        > bytes::be_value(data.subrange(1, 5))
}

proof fn lemma_plain_unpacks(data: Seq<u8>)
    ensures
        unpacked(plain(data)) == Some(data),
{
    assert(plain(data).subrange(1, plain(data).len() as int) =~= data);
}

proof fn lemma_squeezed_unpacks(data: Seq<u8>, c: Seq<u8>)
    requires
        data.len() <= u32::MAX,
        data.len() <= isize::MAX,
        zstd_content(c) == Some(data),
    ensures
        unpacked(squeezed(data.len(), c)) == Some(data),
        !understated(squeezed(data.len(), c)),
{
    broadcast use bytes::lemma_be_bytes_len;

    bytes::lemma_byte_range_values();
    bytes::lemma_be_round_trip(data.len(), 4);
    let s = squeezed(data.len(), c);
    assert(s.subrange(1, 5) =~= bytes::be_bytes(data.len(), 4));
    assert(s.subrange(5, s.len() as int) =~= c);
}

/// The message that was packed. Of bytes that stand for more than they say, whether
/// anything comes depends on the allocator; if it does, it is what they stand for.
pub fn decompress(data: &[u8]) -> (r: Option<Vec<u8>>)
    ensures
        !understated(data@) ==> (match r {
            Some(d) => unpacked(data@) == Some(d@),
            None => unpacked(data@) is None,
        }),
        understated(data@) ==> (r matches Some(d) ==> zstd_content(
            data@.subrange(5, data@.len() as int),
        ) == Some(d@)),
{
    if data.len() == 0 {
        return None;
    }
    if data[0] == 0 {
        let mut out: Vec<u8> = Vec::new();
        append_slice(&mut out, vstd::slice::slice_subrange(data, 1, data.len()));
        proof {
            assert(out@ =~= data@.subrange(1, data@.len() as int));
        }
        return Some(out);
    }
    if data.len() < 5 {
        return None;
    }
    let original_len: u64 = read_be(data, 1, 4);
    proof {
        bytes::lemma_be_value_bound(data@.subrange(1, 5));
        bytes::lemma_byte_range_values();
    }
    if original_len > isize::MAX as u64 {
        return None;
    }
    zstd_decompress(
        vstd::slice::slice_subrange(data, 5, data.len()),
        original_len as usize,
    )
}

/// How many bytes unpacking a message takes, as the message says.
pub open spec fn claimed_size(data: Seq<u8>) -> Option<nat> {
    if data.len() == 0 {
        None
    } else if data[0] == 0 {
        Some((data.len() - 1) as nat)
    } else if data.len() < 5 {
        None
    } else {
        Some(bytes::be_value(data.subrange(1, 5)))
    }
}

/// How many bytes unpacking a message takes, as the message says.
pub fn decompressed_size(data: &[u8]) -> (r: Option<usize>)
    ensures
        match r {
            Some(n) => claimed_size(data@) == Some(n as nat),
            None => claimed_size(data@) is None,
        },
{
    if data.len() == 0 {
        return None;
    }
    if data[0] == 0 {
        return Some(data.len() - 1);
    }
    if data.len() < 5 {
        return None;
    }
    proof {
        bytes::lemma_be_value_bound(data@.subrange(1, 5));
        bytes::lemma_byte_range_values();
    }
    Some(read_be(data, 1, 4) as usize)
}

/// Copies bytes to the start of a buffer.
fn copy_to_front(out: &mut Vec<u8>, d: &[u8])
    requires
        d@.len() <= old(out)@.len(),
    ensures
        final(out)@ == d@ + old(out)@.subrange(d@.len() as int, old(out)@.len() as int),
{
    let ghost had = out@;
    let mut i: usize = 0;
    while i < d.len()
        invariant
            i <= d@.len() <= had.len(),
            out@.len() == had.len(),
            forall|k: int| 0 <= k < i ==> (#[trigger] out@[k]) == d@[k],
            forall|k: int| i <= k < had.len() ==> (#[trigger] out@[k]) == had[k],
        decreases d.len() - i,
    {
        out[i] = d[i];
        i += 1;
    }
    proof {
        assert(out@ =~= d@ + had.subrange(d@.len() as int, had.len() as int));
    }
}

/// The bytes that unpacking a message into a buffer of `room` bytes gives: as many of
/// a plain message as fit, all of a compressed one, or nothing.
pub open spec fn unpacked_into(data: Seq<u8>, room: nat) -> Option<Seq<u8>> {
    if data.len() == 0 || room == 0 {
        None
    } else if data[0] == 0 {
        let n = if data.len() - 1 < room {
            data.len() - 1
        } else {
            room as int
        };
        Some(data.subrange(1, 1 + n))
    } else if data.len() < 5 || bytes::be_value(data.subrange(1, 5)) > room {
        None
    } else {
        match zstd_content(data.subrange(5, data.len() as int)) {
            Some(d) => if d.len() <= bytes::be_value(data.subrange(1, 5)) {
                Some(d)
            } else {
                None
            },
            None => None,
        }
    }
}

/// How many bytes at the start of a buffer unpacking a message into it may change: those
/// that a plain message fills, or that a compressed one says it needs.
pub open spec fn touched(data: Seq<u8>, room: nat) -> nat {
    if data.len() == 0 {
        0
    } else if data[0] == 0 {
        match unpacked_into(data, room) {
            Some(d) => d.len(),
            None => 0,
        }
    } else if data.len() < 5 || bytes::be_value(data.subrange(1, 5)) > room {
        0
    } else {
        bytes::be_value(data.subrange(1, 5))
    }
}

/// Unpacks a message into a buffer. How many bytes it took.
pub fn decompress_into(data: &[u8], out: &mut Vec<u8>) -> (r: Option<usize>)
    ensures
        match unpacked_into(data@, old(out)@.len()) {
            Some(d) => r == Some(d.len() as usize) && final(out)@.subrange(0, d.len() as int) == d,
            None => r is None,
        },
        final(out)@.len() == old(out)@.len(),
        forall|k: int|
            touched(data@, old(out)@.len()) <= k < old(out)@.len() ==> (#[trigger] final(out)@[k])
                == old(out)@[k],
{
    if data.len() == 0 || out.len() == 0 {
        return None;
    }
    if data[0] == 0 {
        let n: usize = if data.len() - 1 < out.len() {
            data.len() - 1
        } else {
            out.len()
        };
        copy_to_front(out, vstd::slice::slice_subrange(data, 1, 1 + n));
        proof {
            assert(out@.subrange(0, n as int) =~= data@.subrange(1, 1 + n));
        }
        return Some(n);
    }
    if data.len() < 5 {
        return None;
    }
    proof {
        bytes::lemma_be_value_bound(data@.subrange(1, 5));
        bytes::lemma_byte_range_values();
    }
    let original_len: u64 = read_be(data, 1, 4);
    if original_len > out.len() as u64 {
        return None;
    }
    let n: usize = original_len as usize;
    let ghost had = out@;
    let r = zstd_decompress_to(vstd::slice::slice_subrange(data, 5, data.len()), out, n);
    proof {
        assert forall|k: int| n <= k < had.len() implies (#[trigger] out@[k]) == had[k] by {
            assert(out@.subrange(n as int, had.len() as int)[k - n] == had.subrange(
                n as int,
                had.len() as int,
            )[k - n]);
        }
    }
    r
}

/// A packed message starts with a zero and the message itself, or with a one, the length
/// of the message, the highest byte first, and its compressed form. It is compressed
/// exactly where that is enabled, it has more than 1024 bytes and it gets shorter by it:
/// so packing never costs more than one byte.
pub proof fn law_packed_exactly(data: Seq<u8>, enabled: bool, z: Seq<u8>)
    ensures
        packed(data, enabled, None) == seq![0u8] + data,
        data.len() <= 1024 || !enabled ==> packed(data, enabled, Some(z)) == seq![0u8] + data,
        z.len() + 4 >= data.len() ==> packed(data, enabled, Some(z)) == seq![0u8] + data,
        data.len() > 1024 && enabled && z.len() + 4 < data.len() ==> packed(
            data,
            enabled,
            Some(z),
        ) == seq![1u8] + bytes::be_bytes(data.len(), 4) + z,
        packed(data, enabled, Some(z)).len() <= data.len() + 1,
        packed(data, enabled, None).len() <= data.len() + 1,
{
    broadcast use bytes::lemma_be_bytes_len;

}

/// The size that a packed message tells is the length of the message that was packed.
pub proof fn law_packed_message_tells_its_size(
    data: Seq<u8>,
    enabled: bool,
    z: Option<Seq<u8>>,
)
    requires
        data.len() <= u32::MAX,
    ensures
        claimed_size(packed(data, enabled, z)) == Some(data.len()),
{
    broadcast use bytes::lemma_be_bytes_len;

    bytes::lemma_byte_range_values();
    bytes::lemma_be_round_trip(data.len(), 4);
    if let Some(c) = z {
        let s = squeezed(data.len(), c);
        assert(s.subrange(1, 5) =~= bytes::be_bytes(data.len(), 4));
    }
}

/// What a plain message holds is unpacked as it is, and what has no first byte, or says
/// that it is compressed and has no length, is no packed message.
pub proof fn law_unpacked_plain_message(data: Seq<u8>, s: Seq<u8>)
    ensures
        unpacked(seq![0u8] + data) == Some(data),
        s.len() == 0 ==> unpacked(s) is None && claimed_size(s) is None,
        0 < s.len() < 5 && s[0] != 0 ==> unpacked(s) is None && claimed_size(s) is None,
        unpacked(s) matches Some(d) ==> claimed_size(s) is Some && d.len() <= claimed_size(s)->0,
{
    assert((seq![0u8] + data).subrange(1, data.len() as int + 1) =~= data);
}

/// A buffer with room for what a message says it holds gets all of it, and one without
/// gets nothing of a compressed message and the first bytes of a plain one.
pub proof fn law_unpacked_into_a_buffer(s: Seq<u8>, room: nat)
    requires
        0 < room <= isize::MAX,
    ensures
        claimed_size(s) matches Some(n) && n <= room ==> unpacked_into(s, room) == unpacked(s),
        claimed_size(s) is None ==> unpacked_into(s, room) is None,
        claimed_size(s) matches Some(n) && n > room && s[0] != 0 ==> unpacked_into(s, room) is None,
        claimed_size(s) matches Some(n) && n > room && s[0] == 0 ==> unpacked_into(s, room) == Some(
            s.subrange(1, room as int + 1),
        ),
        unpacked_into(s, room) matches Some(d) ==> d.len() <= room,
        touched(s, room) <= room,
        unpacked_into(s, 0) is None,
{
}

/// Messages are compressed unless the variable for it holds a zero or says false, no or
/// off.
pub proof fn law_compression_is_on_by_default(v: Seq<char>)
    ensures
        !switched_off(None),
        switched_off(Some(v)) <==> v == seq!['0'] || v == seq!['f', 'a', 'l', 's', 'e'] || v
            == seq!['n', 'o'] || v == seq!['o', 'f', 'f'],
{
    reveal_strlit("0");
    reveal_strlit("false");
    reveal_strlit("no");
    reveal_strlit("off");
    assert("0"@ =~= seq!['0']);
    assert("false"@ =~= seq!['f', 'a', 'l', 's', 'e']);
    assert("no"@ =~= seq!['n', 'o']);
    assert("off"@ =~= seq!['o', 'f', 'f']);
}

/// The level is the number that the variable for it spells, and one where it spells
/// none.
pub proof fn law_level_is_the_setting(n: i32, v: Seq<char>)
    ensures
        level_setting(Some(text::signed_decimal(n as int))) == n,
        level_setting(None) == 1,
        text::signed_value_32(v) is None ==> level_setting(Some(v)) == 1,
{
    text::law_signed_decimal_round_trip(n);
}

} // verus!
