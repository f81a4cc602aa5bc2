//! Fixed-width integers on the wire, little and big endian.
use vstd::prelude::*;

verus! {

/// `256` to the power `n`: one more than the largest value of `n` bytes.
pub open spec fn byte_range(n: nat) -> nat
    decreases n,
{
    if n == 0 {
        1
    } else {
        256 * byte_range((n - 1) as nat)
    }
}

/// The `n` low bytes of `x`, least significant first.
pub open spec fn le_bytes(x: nat, n: nat) -> Seq<u8>
    decreases n,
{
    if n == 0 {
        Seq::empty()
    } else {
        seq![(x % 256) as u8] + le_bytes(x / 256, (n - 1) as nat)
    }
}

/// The number that `s` spells, least significant byte first.
pub open spec fn le_value(s: Seq<u8>) -> nat
    decreases s.len(),
{
    if s.len() == 0 {
        0
    } else {
        s[0] as nat + 256 * le_value(s.subrange(1, s.len() as int))
    }
}

/// The `n` low bytes of `x`, most significant first.
pub open spec fn be_bytes(x: nat, n: nat) -> Seq<u8>
    decreases n,
{
    if n == 0 {
        Seq::empty()
    } else {
        be_bytes(x / 256, (n - 1) as nat).push((x % 256) as u8)
    }
}

/// The number that `s` spells, most significant byte first.
pub open spec fn be_value(s: Seq<u8>) -> nat
    decreases s.len(),
{
    if s.len() == 0 {
        0
    } else {
        256 * be_value(s.drop_last()) + s.last() as nat
    }
}

/// The unsigned number that shares its 32 bits with `x`.
pub open spec fn two_complement_32(x: i32) -> nat {
    if x >= 0 {
        x as nat
    } else {
        (x + 0x1_0000_0000) as nat
    }
}

/// The signed number that shares its 32 bits with `x`.
pub open spec fn signed_32(x: nat) -> int {
    if x < 0x8000_0000 {
        x as int
    } else {
        x - 0x1_0000_0000
    }
}

pub proof fn lemma_byte_range_values()
    ensures
        byte_range(0) == 1,
        byte_range(1) == 0x100,
        byte_range(2) == 0x1_0000,
        byte_range(4) == 0x1_0000_0000,
        byte_range(8) == 0x1_0000_0000_0000_0000,
{
    reveal_with_fuel(byte_range, 9);
}

pub broadcast proof fn lemma_le_bytes_len(x: nat, n: nat)
    ensures
        (#[trigger] le_bytes(x, n)).len() == n,
    decreases n,
{
    if n > 0 {
        lemma_le_bytes_len(x / 256, (n - 1) as nat);
    }
}

pub broadcast proof fn lemma_be_bytes_len(x: nat, n: nat)
    ensures
        (#[trigger] be_bytes(x, n)).len() == n,
    decreases n,
{
    if n > 0 {
        lemma_be_bytes_len(x / 256, (n - 1) as nat);
    }
}

/// What `n` bytes spell fits in `n` bytes.
pub proof fn lemma_le_value_bound(s: Seq<u8>)
    ensures
        le_value(s) < byte_range(s.len()),
    decreases s.len(),
{
    if s.len() > 0 {
        lemma_le_value_bound(s.subrange(1, s.len() as int));
    }
}

/// What `n` bytes spell fits in `n` bytes.
pub proof fn lemma_be_value_bound(s: Seq<u8>)
    ensures
        be_value(s) < byte_range(s.len()),
    decreases s.len(),
{
    if s.len() > 0 {
        lemma_be_value_bound(s.drop_last());
    }
}

/// Reading little endian undoes writing little endian.
pub proof fn lemma_le_round_trip(x: nat, n: nat)
    requires
        x < byte_range(n),
    ensures
        le_value(le_bytes(x, n)) == x,
    decreases n,
{
    if n > 0 {
        let rest = le_bytes(x / 256, (n - 1) as nat);
        lemma_le_bytes_len(x, n);
        lemma_le_bytes_len(x / 256, (n - 1) as nat);
        assert(le_bytes(x, n).subrange(1, n as int) =~= rest);
        lemma_le_round_trip(x / 256, (n - 1) as nat);
    }
}

/// Reading big endian undoes writing big endian.
pub proof fn lemma_be_round_trip(x: nat, n: nat)
    requires
        x < byte_range(n),
    ensures
        be_value(be_bytes(x, n)) == x,
    decreases n,
{
    if n > 0 {
        lemma_be_bytes_len(x, n);
        assert(be_bytes(x, n).drop_last() =~= be_bytes(x / 256, (n - 1) as nat));
        lemma_be_round_trip(x / 256, (n - 1) as nat);
    }
}

/// Appends the `n` low bytes of `x`, least significant first.
pub fn push_le(buf: &mut Vec<u8>, x: u64, n: usize)
    requires
        n <= 8,
    ensures
        final(buf)@ == old(buf)@ + le_bytes(x as nat, n as nat),
    decreases n,
{
    if n > 0 {
        buf.push((x % 256) as u8);
        push_le(buf, x / 256, n - 1);
    }
    proof {
        assert(buf@ =~= old(buf)@ + le_bytes(x as nat, n as nat));
    }
}

/// Appends the `n` low bytes of `x`, most significant first.
pub fn push_be(buf: &mut Vec<u8>, x: u64, n: usize)
    requires
        n <= 8,
    ensures
        final(buf)@ == old(buf)@ + be_bytes(x as nat, n as nat),
    decreases n,
{
    if n > 0 {
        push_be(buf, x / 256, n - 1);
        buf.push((x % 256) as u8);
    }
    proof {
        assert(buf@ =~= old(buf)@ + be_bytes(x as nat, n as nat));
    }
}

/// Reads `n` bytes at `off`, least significant first.
pub fn read_le(buf: &[u8], off: usize, n: usize) -> (r: u64)
    requires
        n <= 8,
        off + n <= buf@.len(),
    ensures
        r == le_value(buf@.subrange(off as int, off + n)),
        r < byte_range(n as nat),
    decreases n,
{
    let ghost s = buf@.subrange(off as int, off + n);
    proof {
        lemma_le_value_bound(s);
    }
    if n == 0 {
        0
    } else {
        assert(buf.len() == buf@.len());
        let rest = read_le(buf, off + 1, n - 1);
        proof {
            assert(s.subrange(1, n as int) =~= buf@.subrange(off + 1, off + n));
            lemma_byte_range_monotone(n as nat, 8);
            lemma_byte_range_values();
        }
        buf[off] as u64 + 256 * rest
    }
}

/// Reads `n` bytes at `off`, most significant first.
pub fn read_be(buf: &[u8], off: usize, n: usize) -> (r: u64)
    requires
        n <= 8,
        off + n <= buf@.len(),
    ensures
        r == be_value(buf@.subrange(off as int, off + n)),
        r < byte_range(n as nat),
    decreases n,
{
    let ghost s = buf@.subrange(off as int, off + n);
    proof {
        lemma_be_value_bound(s);
    }
    if n == 0 {
        0
    } else {
        assert(buf.len() == buf@.len());
        let high = read_be(buf, off, n - 1);
        proof {
            assert(s.drop_last() =~= buf@.subrange(off as int, off + n - 1));
            lemma_byte_range_monotone(n as nat, 8);
            lemma_byte_range_values();
        }
        256 * high + buf[off + n - 1] as u64
    }
}

proof fn lemma_byte_range_monotone(m: nat, n: nat)
    requires
        m <= n,
    ensures
        byte_range(m) <= byte_range(n),
        byte_range(m) >= 1,
    decreases n,
{
    if m < n {
        lemma_byte_range_monotone(m, (n - 1) as nat);
    } else if m > 0 {
        lemma_byte_range_monotone((m - 1) as nat, (n - 1) as nat);
    }
}

/// The 32 bits of `x` as an unsigned number.
pub fn to_two_complement(x: i32) -> (r: u32)
    ensures
        r == two_complement_32(x),
{
    if x >= 0 {
        x as u32
    } else {
        (x as i64 + 0x1_0000_0000) as u32
    }
}

/// The 32 bits of `x` as a signed number.
pub fn from_two_complement(x: u32) -> (r: i32)
    ensures
        r == signed_32(x as nat),
{
    if x < 0x8000_0000 {
        x as i32
    } else {
        (x as i64 - 0x1_0000_0000) as i32
    }
}

/// Appends `src` to `buf`.
pub fn append_slice(buf: &mut Vec<u8>, src: &[u8])
    ensures
        final(buf)@ == old(buf)@ + src@,
{
    buf.extend_from_slice(src);
    proof {
        assert(buf@ =~= old(buf)@ + src@);
    }
}

/// Whether two byte strings are equal.
pub fn bytes_equal(a: &[u8], b: &[u8]) -> (r: bool)
    ensures
        r == (a@ == b@),
{
    if a.len() != b.len() {
        return false;
    }
    let mut i: usize = 0;
    while i < a.len()
        invariant
            i <= a@.len(),
            a@.len() == b@.len(),
            forall|k: int| 0 <= k < i ==> a@[k] == b@[k],
        decreases a@.len() - i,
    {
        if a[i] != b[i] {
            return false;
        }
        i += 1;
    }
    proof {
        assert(a@ =~= b@);
    }
    true
}

/// On the wire a little-endian number starts with its lowest byte and a big-endian one
/// with its highest, each byte one of 256 steps above the one below it.
pub proof fn law_byte_order(x: u32)
    ensures
        le_bytes(x as nat, 4) == seq![
            (x % 256) as u8,
            (x / 256 % 256) as u8,
            (x / 65_536 % 256) as u8,
            (x / 16_777_216) as u8,
        ],
        be_bytes(x as nat, 4) == seq![
            (x / 16_777_216) as u8,
            (x / 65_536 % 256) as u8,
            (x / 256 % 256) as u8,
            (x % 256) as u8,
        ],
{
    reveal_with_fuel(le_bytes, 5);
    reveal_with_fuel(be_bytes, 5);
    let n = x as nat;
    assert(n / 256 / 256 == n / 65_536);
    assert(n / 65_536 / 256 == n / 16_777_216);
    assert(le_bytes(n, 4) =~= seq![
        (x % 256) as u8,
        (x / 256 % 256) as u8,
        (x / 65_536 % 256) as u8,
        (x / 16_777_216) as u8,
    ]);
    assert(be_bytes(n, 4) =~= seq![
        (x / 16_777_216) as u8,
        (x / 65_536 % 256) as u8,
        (x / 256 % 256) as u8,
        (x % 256) as u8,
    ]);
}

/// One more byte in front weighs one, and the others 256 times as much as before; one
/// more behind weighs one where the highest stands first.
pub proof fn law_bytes_weigh_by_place(s: Seq<u8>, b: u8)
    ensures
        le_value(seq![b] + s) == b + 256 * le_value(s),
        be_value(s.push(b)) == 256 * be_value(s) + b,
        le_value(Seq::empty()) == 0,
        be_value(Seq::empty()) == 0,
{
    assert((seq![b] + s).subrange(1, s.len() as int + 1) =~= s);
    assert(s.push(b).drop_last() =~= s);
}

/// A signed number and the unsigned one with the same bits are told apart by the highest
/// bit, and each is the other again.
pub proof fn law_signs_share_their_bits(x: i32)
    ensures
        signed_32(two_complement_32(x)) == x,
        x >= 0 ==> two_complement_32(x) == x,
        x < 0 ==> two_complement_32(x) == x + 4_294_967_296,
        two_complement_32(x) < 4_294_967_296,
{
}

} // verus!
