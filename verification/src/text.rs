//! Text: the few string operations that the rest of the library builds on.
use vstd::prelude::*;
use vstd::utf8::*;

verus! {

/// `std::str::from_utf8`: the text that `bytes` encode, where they are valid
/// UTF-8, and nothing otherwise.
#[verifier::external_body]
pub(crate) fn utf8_text(bytes: &[u8]) -> (r: Option<&str>)
    ensures
        r is Some <==> valid_utf8(bytes@),
        r matches Some(s) ==> s@ == decode_utf8(bytes@),
{
    std::str::from_utf8(bytes).ok()
}

/// The text of bytes that need not be valid UTF-8, as `String::from_utf8_lossy`
/// gives it.
pub uninterp spec fn lossy_text(bytes: Seq<u8>) -> Seq<char>;

/// The text of bytes: what they encode, where they are valid UTF-8.
pub open spec fn text_from_bytes(bytes: Seq<u8>) -> Seq<char> {
    if valid_utf8(bytes) {
        decode_utf8(bytes)
    } else {
        lossy_text(bytes)
    }
}

/// `String::from_utf8_lossy`: the text of `bytes`, with a replacement character for
/// what is not valid UTF-8.
#[verifier::external_body]
pub(crate) fn text_of_bytes(bytes: &[u8]) -> (r: String)
    ensures
        r@ == lossy_text(bytes@),
        valid_utf8(bytes@) ==> r@ == decode_utf8(bytes@),
{
    String::from_utf8_lossy(bytes).into_owned()
}

/// `String::push`: appends one character.
#[verifier::external_body]
pub(crate) fn push_char(s: &mut String, c: char)
    ensures
        final(s)@ == old(s)@.push(c),
{
    s.push(c)
}

/// The characters of `s`.
pub fn chars_of(s: &str) -> (v: Vec<char>)
    ensures
        v@ == s@,
{
    let mut v: Vec<char> = Vec::new();
    for c in it: s.chars()
        invariant
            v@ == it.seq().subrange(0, it.index() as int),
            it.seq() == s@,
    {
        v.push(c);
        proof {
            assert(v@ =~= it.seq().subrange(0, it.index() + 1));
        }
    }
    proof {
        assert(v@ =~= s@);
    }
    v
}

/// The text made of the characters `from..to` of `chars`.
pub fn text_of(chars: &[char], from: usize, to: usize) -> (s: String)
    requires
        from <= to <= chars@.len(),
    ensures
        s@ == chars@.subrange(from as int, to as int),
{
    let mut s = String::new();
    let mut i: usize = from;
    while i < to
        invariant
            from <= i <= to <= chars@.len(),
            s@ == chars@.subrange(from as int, i as int),
        decreases to - i,
    {
        push_char(&mut s, chars[i]);
        i += 1;
        proof {
            assert(s@ =~= chars@.subrange(from as int, i as int));
        }
    }
    s
}

/// Whether two texts are equal.
pub fn text_equal(a: &str, b: &str) -> (r: bool)
    ensures
        r == (a@ == b@),
{
    let r = crate::bytes::bytes_equal(a.as_bytes(), b.as_bytes());
    proof {
        broadcast use encode_utf8_decode_utf8;

        assert(decode_utf8(encode_utf8(a@)) == a@);
        assert(decode_utf8(encode_utf8(b@)) == b@);
    }
    r
}

/// Whether a character is white space in the sense of Unicode.
pub open spec fn is_white(c: char) -> bool {
    let u = c as u32;
    ||| 0x9 <= u <= 0xd
    ||| u == 0x20
    ||| u == 0x85
    ||| u == 0xa0
    ||| u == 0x1680
    ||| 0x2000 <= u <= 0x200a
    ||| u == 0x2028
    ||| u == 0x2029
    ||| u == 0x202f
    ||| u == 0x205f
    ||| u == 0x3000
}

/// Whether a character is white space in the sense of Unicode.
pub fn char_is_white(c: char) -> (r: bool)
    ensures
        r == is_white(c),
{
    let u: u32 = c as u32;
    (0x9 <= u && u <= 0xd) || u == 0x20 || u == 0x85 || u == 0xa0 || u == 0x1680 || (0x2000 <= u
        && u <= 0x200a) || u == 0x2028 || u == 0x2029 || u == 0x202f || u == 0x205f || u == 0x3000
}

/// `s` without its leading white space.
pub open spec fn trim_start(s: Seq<char>) -> Seq<char>
    decreases s.len(),
{
    if s.len() > 0 && is_white(s[0]) {
        trim_start(s.subrange(1, s.len() as int))
    } else {
        s
    }
}

/// `s` without its trailing white space.
pub open spec fn trim_end(s: Seq<char>) -> Seq<char>
    decreases s.len(),
{
    if s.len() > 0 && is_white(s.last()) {
        trim_end(s.drop_last())
    } else {
        s
    }
}

/// `s` without the white space around it.
pub open spec fn trimmed(s: Seq<char>) -> Seq<char> {
    trim_end(trim_start(s))
}

/// Where the text `from..to` starts once its leading white space is dropped.
pub fn skip_white(chars: &[char], from: usize, to: usize) -> (r: usize)
    requires
        from <= to <= chars@.len(),
    ensures
        from <= r <= to,
        chars@.subrange(r as int, to as int) == trim_start(chars@.subrange(from as int, to as int)),
{
    let mut i: usize = from;
    while i < to && char_is_white(chars[i])
        invariant
            from <= i <= to <= chars@.len(),
            trim_start(chars@.subrange(i as int, to as int)) == trim_start(
                chars@.subrange(from as int, to as int),
            ),
        decreases to - i,
    {
        proof {
            let s = chars@.subrange(i as int, to as int);
            assert(s.subrange(1, s.len() as int) =~= chars@.subrange(i + 1, to as int));
        }
        i += 1;
    }
    i
}

/// Where the text `from..to` ends once its trailing white space is dropped.
pub fn skip_white_back(chars: &[char], from: usize, to: usize) -> (r: usize)
    requires
        from <= to <= chars@.len(),
    ensures
        from <= r <= to,
        chars@.subrange(from as int, r as int) == trim_end(chars@.subrange(from as int, to as int)),
{
    let mut i: usize = to;
    while from < i && char_is_white(chars[i - 1])
        invariant
            from <= i <= to <= chars@.len(),
            trim_end(chars@.subrange(from as int, i as int)) == trim_end(
                chars@.subrange(from as int, to as int),
            ),
        decreases i,
    {
        proof {
            let s = chars@.subrange(from as int, i as int);
            assert(s.drop_last() =~= chars@.subrange(from as int, i - 1));
        }
        i -= 1;
    }
    i
}

/// The text without the white space around it.
pub fn trim_text(s: &str) -> (r: String)
    ensures
        r@ == trimmed(s@),
{
    let chars = chars_of(s);
    let from: usize = skip_white(&chars, 0, chars.len());
    let to: usize = skip_white_back(&chars, from, chars.len());
    proof {
        assert(chars@.subrange(0, chars@.len() as int) =~= chars@);
    }
    text_of(&chars, from, to)
}

/// Whether every character of `s` is a decimal digit.
pub open spec fn all_digits(s: Seq<char>) -> bool {
    forall|i: int| 0 <= i < s.len() ==> '0' <= #[trigger] s[i] <= '9'
}

/// The number that decimal digits spell.
pub open spec fn digits_value(s: Seq<char>) -> nat
    decreases s.len(),
{
    if s.len() == 0 {
        0
    } else {
        10 * digits_value(s.drop_last()) + (s.last() as nat - '0' as nat) as nat
    }
}

/// The unsigned number that `s` spells: an optional plus sign and at least one
/// digit, and a value of at most `max`.
pub open spec fn unsigned_value(s: Seq<char>, max: nat) -> Option<nat> {
    let digits = if s.len() > 0 && s[0] == '+' {
        s.subrange(1, s.len() as int)
    } else {
        s
    };
    if digits.len() > 0 && all_digits(digits) && digits_value(digits) <= max {
        Some(digits_value(digits))
    } else {
        None
    }
}

/// The signed 32-bit number that `s` spells: an optional sign and at least one digit.
pub open spec fn signed_value_32(s: Seq<char>) -> Option<int> {
    if s.len() > 0 && s[0] == '-' {
        let digits = s.subrange(1, s.len() as int);
        if digits.len() > 0 && all_digits(digits) && digits_value(digits) <= 0x8000_0000 {
            Some(-(digits_value(digits) as int))
        } else {
            None
        }
    } else {
        match unsigned_value(s, 0x7fff_ffff) {
            Some(v) => Some(v as int),
            None => None,
        }
    }
}

/// More digits never spell a smaller number.
proof fn lemma_digits_value_grows(s: Seq<char>, k: int)
    requires
        0 <= k <= s.len(),
    ensures
        digits_value(s.subrange(0, k)) <= digits_value(s),
    decreases s.len(),
{
    if k == s.len() {
        assert(s.subrange(0, k) =~= s);
    } else {
        lemma_digits_value_grows(s.drop_last(), k);
        assert(s.drop_last().subrange(0, k) =~= s.subrange(0, k));
    }
}

/// The value of the digits `from..to`, where there is at least one, all are digits
/// and the value is at most `max`.
fn parse_digits(chars: &[char], from: usize, to: usize, max: u64) -> (r: Option<u64>)
    requires
        from <= to <= chars@.len(),
    ensures
        ({
            let s = chars@.subrange(from as int, to as int);
            match r {
                Some(v) => s.len() > 0 && all_digits(s) && digits_value(s) == v && v <= max,
                None => !(s.len() > 0 && all_digits(s) && digits_value(s) <= max),
            }
        }),
{
    let ghost s = chars@.subrange(from as int, to as int);
    if from == to {
        return None;
    }
    let mut i: usize = from;
    let mut v: u64 = 0;
    while i < to
        invariant
            from <= i <= to <= chars@.len(),
            s == chars@.subrange(from as int, to as int),
            v == digits_value(s.subrange(0, i - from)),
            v <= max,
            forall|k: int| 0 <= k < i - from ==> '0' <= #[trigger] s[k] <= '9',
        decreases to - i,
    {
        let c: char = chars[i];
        proof {
            assert(s[i - from] == c);
            assert(s.subrange(0, i + 1 - from).drop_last() =~= s.subrange(0, i - from));
        }
        if !(c >= '0' && c <= '9') {
            return None;
        }
        let d: u64 = (c as u32 - '0' as u32) as u64;
        let wide: u128 = v as u128 * 10 + d as u128;
        if wide > max as u128 {
            proof {
                lemma_digits_value_grows(s, i + 1 - from);
            }
            return None;
        }
        v = wide as u64;
        i += 1;
    }
    proof {
        assert(s.subrange(0, i - from) =~= s);
    }
    Some(v)
}

/// The unsigned number that `s` spells, if it is at most `max`.
pub fn parse_unsigned(s: &str, max: u64) -> (r: Option<u64>)
    ensures
        match r {
            Some(v) => unsigned_value(s@, max as nat) == Some(v as nat),
            None => unsigned_value(s@, max as nat) is None,
        },
{
    let chars = chars_of(s);
    let n: usize = chars.len();
    proof {
        assert(chars@.subrange(0, n as int) =~= chars@);
    }
    if n > 0 && chars[0] == '+' {
        parse_digits(&chars, 1, n, max)
    } else {
        parse_digits(&chars, 0, n, max)
    }
}

/// The signed 32-bit number that `s` spells.
pub fn parse_signed_32(s: &str) -> (r: Option<i32>)
    ensures
        match r {
            Some(v) => signed_value_32(s@) == Some(v as int),
            None => signed_value_32(s@) is None,
        },
{
    let chars = chars_of(s);
    let n: usize = chars.len();
    if n > 0 && chars[0] == '-' {
        match parse_digits(&chars, 1, n, 0x8000_0000) {
            Some(v) => Some((-(v as i64)) as i32),
            None => None,
        }
    } else {
        match parse_unsigned(s, 0x7fff_ffff) {
            Some(v) => Some(v as i32),
            None => None,
        }
    }
}

/// The decimal digits of `n`.
pub open spec fn decimal(n: nat) -> Seq<char>
    decreases n,
{
    if n < 10 {
        seq![digit_char(n)]
    } else {
        decimal(n / 10).push(digit_char(n % 10))
    }
}

/// The character of one decimal digit.
pub open spec fn digit_char(d: nat) -> char {
    ('0' as nat + d) as char
}

/// The decimal form of a signed number.
pub open spec fn signed_decimal(n: int) -> Seq<char> {
    if n < 0 {
        seq!['-'] + decimal((-n) as nat)
    } else {
        decimal(n as nat)
    }
}

/// Reading a decimal form gives the number back.
pub proof fn lemma_decimal_round_trip(n: nat)
    ensures
        decimal(n).len() > 0,
        all_digits(decimal(n)),
        digits_value(decimal(n)) == n,
    decreases n,
{
    if n < 10 {
        assert(decimal(n).drop_last() =~= Seq::<char>::empty());
        assert(digits_value(decimal(n).drop_last()) == 0);
    } else {
        lemma_decimal_round_trip(n / 10);
        let d = decimal(n / 10);
        assert(decimal(n).drop_last() =~= d);
        assert forall|i: int| 0 <= i < decimal(n).len() implies '0' <= #[trigger] decimal(n)[i]
            <= '9' by {
            if i < d.len() {
                assert(decimal(n)[i] == d[i]);
            }
        }
    }
}

/// Reading the decimal form of a 32-bit number gives the number back.
pub proof fn law_signed_decimal_round_trip(n: i32)
    ensures
        signed_value_32(signed_decimal(n as int)) == Some(n as int),
{
    if n < 0 {
        let m = (-n) as nat;
        lemma_decimal_round_trip(m);
        let s = signed_decimal(n as int);
        assert(s.subrange(1, s.len() as int) =~= decimal(m));
    } else {
        lemma_decimal_round_trip(n as nat);
        let s = decimal(n as nat);
        assert('0' <= s[0] <= '9');
    }
}

/// Reading the decimal form of an unsigned number gives the number back.
pub proof fn law_decimal_round_trip(n: nat, max: nat)
    requires
        n <= max,
    ensures
        unsigned_value(decimal(n), max) == Some(n),
{
    lemma_decimal_round_trip(n);
    let s = decimal(n);
    assert('0' <= s[0] <= '9');
}

/// The character of one decimal digit.
fn digit_to_char(d: u64) -> (c: char)
    requires
        d < 10,
    ensures
        c == digit_char(d as nat),
{
    match d {
        0 => '0',
        1 => '1',
        2 => '2',
        3 => '3',
        4 => '4',
        5 => '5',
        6 => '6',
        7 => '7',
        8 => '8',
        _ => '9',
    }
}

/// Appends the decimal digits of `n`.
pub fn push_decimal(s: &mut String, n: u64)
    ensures
        final(s)@ == old(s)@ + decimal(n as nat),
    decreases n,
{
    if n < 10 {
        push_char(s, digit_to_char(n));
    } else {
        push_decimal(s, n / 10);
        push_char(s, digit_to_char(n % 10));
    }
    proof {
        assert(s@ =~= old(s)@ + decimal(n as nat));
    }
}

/// Appends the decimal digits of a number that may take more than 64 bits.
pub fn push_wide_decimal(s: &mut String, n: u128)
    ensures
        final(s)@ == old(s)@ + decimal(n as nat),
    decreases n,
{
    if n <= u64::MAX as u128 {
        push_decimal(s, n as u64);
    } else {
        push_wide_decimal(s, n / 10);
        push_char(s, digit_to_char((n % 10) as u64));
    }
    proof {
        assert(s@ =~= old(s)@ + decimal(n as nat));
    }
}

/// Appends the decimal form of a signed number.
pub fn push_signed_decimal(s: &mut String, n: i64)
    requires
        n > i64::MIN,
    ensures
        final(s)@ == old(s)@ + signed_decimal(n as int),
{
    if n < 0 {
        push_char(s, '-');
        push_decimal(s, (-n) as u64);
    } else {
        push_decimal(s, n as u64);
    }
    proof {
        assert(s@ =~= old(s)@ + signed_decimal(n as int));
    }
}

/// How many leading characters of `s` are not white space.
pub open spec fn word_len(s: Seq<char>) -> nat
    decreases s.len(),
{
    if s.len() > 0 && !is_white(s[0]) {
        1 + word_len(s.subrange(1, s.len() as int))
    } else {
        0
    }
}

/// The word number `n` of `s`, words being parted by white space.
pub open spec fn nth_word(s: Seq<char>, n: nat) -> Option<Seq<char>>
    decreases n,
{
    let t = trim_start(s);
    let len = word_len(t) as int;
    if t.len() == 0 {
        None
    } else if n == 0 {
        Some(t.subrange(0, len))
    } else {
        nth_word(t.subrange(len, t.len() as int), (n - 1) as nat)
    }
}

/// Where the word that starts at `from` ends.
pub fn word_end(chars: &[char], from: usize, to: usize) -> (r: usize)
    requires
        from <= to <= chars@.len(),
    ensures
        from <= r <= to,
        r - from == word_len(chars@.subrange(from as int, to as int)),
{
    let ghost s = chars@.subrange(from as int, to as int);
    let mut i: usize = from;
    while i < to && !char_is_white(chars[i])
        invariant
            from <= i <= to <= chars@.len(),
            s == chars@.subrange(from as int, to as int),
            word_len(s) == i - from + word_len(chars@.subrange(i as int, to as int)),
        decreases to - i,
    {
        proof {
            let t = chars@.subrange(i as int, to as int);
            assert(t.subrange(1, t.len() as int) =~= chars@.subrange(i + 1, to as int));
        }
        i += 1;
    }
    i
}

/// The word number `n` of the text `from..to`.
pub fn nth_word_of(chars: &[char], from: usize, to: usize, n: usize) -> (r: Option<String>)
    requires
        from <= to <= chars@.len(),
    ensures
        match r {
            Some(w) => nth_word(chars@.subrange(from as int, to as int), n as nat) == Some(w@),
            None => nth_word(chars@.subrange(from as int, to as int), n as nat) is None,
        },
    decreases n,
{
    let start: usize = skip_white(chars, from, to);
    if start == to {
        return None;
    }
    let end: usize = word_end(chars, start, to);
    let ghost t = chars@.subrange(start as int, to as int);
    proof {
        assert(t.subrange(0, end - start) =~= chars@.subrange(start as int, end as int));
        assert(t.subrange(end - start, t.len() as int) =~= chars@.subrange(end as int, to as int));
    }
    if n == 0 {
        Some(text_of(chars, start, end))
    } else {
        nth_word_of(chars, end, to, n - 1)
    }
}

/// The last index at which `s` holds `c`.
pub open spec fn last_index(s: Seq<char>, c: char) -> Option<int>
    decreases s.len(),
{
    if s.len() == 0 {
        None
    } else if s.last() == c {
        Some(s.len() - 1)
    } else {
        last_index(s.drop_last(), c)
    }
}

/// The first index at which `s` holds `c`.
pub open spec fn first_index(s: Seq<char>, c: char) -> Option<int>
    decreases s.len(),
{
    if s.len() == 0 {
        None
    } else if s[0] == c {
        Some(0)
    } else {
        match first_index(s.subrange(1, s.len() as int), c) {
            Some(i) => Some(i + 1),
            None => None,
        }
    }
}

/// The last index at which the text holds `c`.
pub fn find_last(chars: &[char], c: char) -> (r: Option<usize>)
    ensures
        match r {
            Some(i) => last_index(chars@, c) == Some(i as int) && i < chars@.len(),
            None => last_index(chars@, c) is None,
        },
{
    let mut i: usize = chars.len();
    proof {
        assert(chars@.subrange(0, i as int) =~= chars@);
    }
    while i > 0
        invariant
            i <= chars@.len(),
            last_index(chars@, c) == last_index(chars@.subrange(0, i as int), c),
        decreases i,
    {
        if chars[i - 1] == c {
            return Some(i - 1);
        }
        proof {
            assert(chars@.subrange(0, i as int).drop_last() =~= chars@.subrange(0, i - 1));
        }
        i -= 1;
    }
    None
}

/// The first index at which the text holds `c`.
pub fn find_first(chars: &[char], c: char) -> (r: Option<usize>)
    ensures
        match r {
            Some(i) => first_index(chars@, c) == Some(i as int) && i < chars@.len(),
            None => first_index(chars@, c) is None,
        },
{
    let n: usize = chars.len();
    let mut i: usize = 0;
    proof {
        assert(chars@.subrange(0, n as int) =~= chars@);
    }
    while i < n
        invariant
            i <= n == chars@.len(),
            match first_index(chars@.subrange(i as int, n as int), c) {
                Some(k) => first_index(chars@, c) == Some(i + k),
                None => first_index(chars@, c) is None,
            },
        decreases n - i,
    {
        if chars[i] == c {
            return Some(i);
        }
        proof {
            let t = chars@.subrange(i as int, n as int);
            assert(t.subrange(1, t.len() as int) =~= chars@.subrange(i + 1, n as int));
        }
        i += 1;
    }
    None
}

/// What a list of texts holds.
pub open spec fn texts(s: Seq<String>) -> Seq<Seq<char>> {
    Seq::new(s.len(), |i: int| s[i]@)
}

/// What an optional text holds.
pub open spec fn opt_str(s: Option<&str>) -> Option<Seq<char>> {
    match s {
        Some(t) => Some(t@),
        None => None,
    }
}

/// One more digit makes a number ten times as large, and adds itself.
pub proof fn law_digits_weigh_by_place(s: Seq<char>, d: nat)
    requires
        d < 10,
    ensures
        digits_value(s.push(digit_char(d))) == 10 * digits_value(s) + d,
        digits_value(Seq::empty()) == 0,
        '0' <= digit_char(d) <= '9',
        digit_char(0) == '0',
        decimal(d) == seq![digit_char(d)],
        forall|n: nat| n > 0 ==> #[trigger] decimal(10 * n + d) == decimal(n).push(digit_char(d)),
{
    assert(s.push(digit_char(d)).drop_last() =~= s);
    assert forall|n: nat| n > 0 implies #[trigger] decimal(10 * n + d) == decimal(n).push(
        digit_char(d),
    ) by {
        assert((10 * n + d) / 10 == n && (10 * n + d) % 10 == d);
    }
}

/// A text with anything but digits behind an optional plus sign spells no unsigned
/// number, nor does an empty one, nor one beyond the largest.
pub proof fn law_no_number_without_digits(s: Seq<char>, max: nat, i: int)
    ensures
        unsigned_value(Seq::empty(), max) is None,
        unsigned_value(seq!['+'], max) is None,
        0 <= i < s.len() && !('0' <= s[i] <= '9') && (i > 0 || s[i] != '+') ==> unsigned_value(
            s,
            max,
        ) is None,
        unsigned_value(s, max) matches Some(v) ==> v <= max,
        s.len() > 0 && s[0] != '+' ==> unsigned_value(seq!['+'] + s, max) == unsigned_value(
            s,
            max,
        ),
{
    if 0 <= i < s.len() && !('0' <= s[i] <= '9') && (i > 0 || s[i] != '+') && s[0] == '+' {
        assert(s.subrange(1, s.len() as int)[i - 1] == s[i]);
    }
    assert((seq!['+'] + s).subrange(1, s.len() as int + 1) =~= s);
    assert(seq!['+'].subrange(1, 1) =~= Seq::empty());
}

/// A trimmed text is the part of the text between white space: it neither starts nor
/// ends with any, and nothing but white space was dropped around it.
pub proof fn law_trimmed_exactly(s: Seq<char>)
    ensures
        trimmed(s).len() > 0 ==> !is_white(trimmed(s)[0]) && !is_white(trimmed(s).last()),
        exists|a: int, b: int|
            0 <= a <= b <= s.len() && trimmed(s) == #[trigger] s.subrange(a, b) && (forall|i: int|
                0 <= i < a ==> is_white(#[trigger] s[i])) && (forall|i: int|
                b <= i < s.len() ==> is_white(#[trigger] s[i])),
{
    let t = trim_start(s);
    let a = lemma_trim_start_at(s);
    let n = lemma_trim_end_at(t);
    let b = a + n;
    assert(trimmed(s) =~= s.subrange(a, b));
    assert forall|i: int| b <= i < s.len() implies is_white(#[trigger] s[i]) by {
        assert(t[i - a] == s[i]);
    }
    if trimmed(s).len() > 0 {
        assert(trimmed(s)[0] == t[0]);
    }
}

/// Where a text starts once the white space in front of it is dropped.
proof fn lemma_trim_start_at(s: Seq<char>) -> (a: int)
    ensures
        0 <= a <= s.len(),
        trim_start(s) == s.subrange(a, s.len() as int),
        forall|i: int| 0 <= i < a ==> is_white(#[trigger] s[i]),
        a < s.len() ==> !is_white(s[a]),
    decreases s.len(),
{
    if s.len() > 0 && is_white(s[0]) {
        let rest = s.subrange(1, s.len() as int);
        let a = lemma_trim_start_at(rest);
        assert(rest.subrange(a, rest.len() as int) =~= s.subrange(a + 1, s.len() as int));
        assert forall|i: int| 0 <= i < a + 1 implies is_white(#[trigger] s[i]) by {
            if i > 0 {
                assert(rest[i - 1] == s[i]);
            }
        }
        a + 1
    } else {
        assert(s.subrange(0, s.len() as int) =~= s);
        0
    }
}

/// Where a text ends once the white space behind it is dropped.
proof fn lemma_trim_end_at(s: Seq<char>) -> (b: int)
    ensures
        0 <= b <= s.len(),
        trim_end(s) == s.subrange(0, b),
        forall|i: int| b <= i < s.len() ==> is_white(#[trigger] s[i]),
        b > 0 ==> !is_white(s[b - 1]),
    decreases s.len(),
{
    if s.len() > 0 && is_white(s.last()) {
        let init = s.drop_last();
        let b = lemma_trim_end_at(init);
        assert(init.subrange(0, b) =~= s.subrange(0, b));
        assert forall|i: int| b <= i < s.len() implies is_white(#[trigger] s[i]) by {
            if i < s.len() - 1 {
                assert(init[i] == s[i]);
            }
        }
        b
    } else {
        assert(s.subrange(0, s.len() as int) =~= s);
        s.len() as int
    }
}

/// Blank, tab and the ends of lines are white space; letters, digits and marks are not.
pub proof fn law_plain_characters_are_no_white_space(c: char)
    ensures
        is_white(' ') && is_white('\t') && is_white('\n') && is_white('\r'),
        0x21 <= c as u32 <= 0x7e ==> !is_white(c),
        c as u32 <= 8 ==> !is_white(c),
{
}

/// The last place of a character is one where it stands, with none of it behind; and
/// the first one with none of it before.
pub proof fn law_places_of_a_character(s: Seq<char>, c: char)
    ensures
        last_index(s, c) is Some <==> s.contains(c),
        last_index(s, c) matches Some(i) ==> 0 <= i < s.len() && s[i] == c && forall|k: int|
            i < k < s.len() ==> #[trigger] s[k] != c,
        first_index(s, c) is Some <==> s.contains(c),
        first_index(s, c) matches Some(i) ==> 0 <= i < s.len() && s[i] == c && forall|k: int|
            0 <= k < i ==> #[trigger] s[k] != c,
    decreases s.len(),
{
    if s.len() > 0 {
        let init = s.drop_last();
        let rest = s.subrange(1, s.len() as int);
        law_places_of_a_character(init, c);
        law_places_of_a_character(rest, c);
        if s.contains(c) {
            let k = choose|k: int| 0 <= k < s.len() && s[k] == c;
            if k < s.len() - 1 {
                assert(init[k] == c);
            }
            if k > 0 {
                assert(rest[k - 1] == c);
            }
        }
        if let Some(i) = last_index(s, c) {
            assert(s[i] == c);
            assert forall|k: int| i < k < s.len() implies #[trigger] s[k] != c by {
                if k < s.len() - 1 {
                    assert(init[k] == s[k]);
                }
            }
        }
        if let Some(i) = first_index(s, c) {
            if i > 0 {
                assert(rest[i - 1] == c);
            }
            assert(s[i] == c);
            assert forall|k: int| 0 <= k < i implies #[trigger] s[k] != c by {
                if k > 0 {
                    assert(rest[k - 1] == s[k]);
                }
            }
        }
    }
}

/// The first word of a text is its part from the first character that is no white space
/// up to the next that is, and each later word is the first of what follows.
pub proof fn law_words_are_parted_by_white_space(s: Seq<char>, n: nat)
    ensures
        nth_word(s, n) matches Some(w) ==> w.len() > 0 && forall|i: int|
            0 <= i < w.len() ==> !is_white(#[trigger] w[i]),
        nth_word(s, 0) is None <==> forall|i: int| 0 <= i < s.len() ==> is_white(#[trigger] s[i]),
        nth_word(s, n) is None ==> nth_word(s, n + 1) is None,
    decreases n,
{
    let a = lemma_trim_start_at(s);
    let t = trim_start(s);
    lemma_word_len(t);
    let len = word_len(t) as int;
    if t.len() > 0 {
        assert(s[a] == t[0]);
    }
    let rest = t.subrange(len, t.len() as int);
    if t.len() > 0 && n > 0 {
        law_words_are_parted_by_white_space(rest, (n - 1) as nat);
    }
}

proof fn lemma_word_len(s: Seq<char>)
    ensures
        word_len(s) <= s.len(),
        forall|i: int| 0 <= i < word_len(s) ==> !is_white(#[trigger] s[i]),
        word_len(s) < s.len() ==> is_white(s[word_len(s) as int]),
        s.len() > 0 && !is_white(s[0]) ==> word_len(s) > 0,
    decreases s.len(),
{
    if s.len() > 0 && !is_white(s[0]) {
        let rest = s.subrange(1, s.len() as int);
        lemma_word_len(rest);
        assert forall|i: int| 0 <= i < word_len(s) implies !is_white(#[trigger] s[i]) by {
            if i > 0 {
                assert(rest[i - 1] == s[i]);
            }
        }
        if word_len(s) < s.len() {
            assert(rest[word_len(rest) as int] == s[word_len(s) as int]);
        }
    }
}

/// Words count from the front: a word with white space behind it is the first, and the
/// words behind it follow. White space in front of a text does not count.
pub proof fn law_words_count_from_the_front(
    word: Seq<char>,
    c: char,
    rest: Seq<char>,
    n: nat,
)
    requires
        word.len() > 0,
        forall|i: int| 0 <= i < word.len() ==> !is_white(#[trigger] word[i]),
        is_white(c),
    ensures
        nth_word(word.push(c) + rest, 0) == Some(word),
        nth_word(word.push(c) + rest, n + 1) == nth_word(rest, n),
        nth_word(seq![c] + rest, n) == nth_word(rest, n),
        nth_word(word, 0) == Some(word),
        nth_word(word, n + 1) is None,
{
    let s = word.push(c) + rest;
    lemma_word_ends(word, seq![c] + rest);
    lemma_word_ends(word, Seq::empty());
    assert(word + (seq![c] + rest) =~= s);
    assert(word + Seq::<char>::empty() =~= word);
    assert(s[0] == word[0]);
    assert(trim_start(s) == s);
    assert(trim_start(word) == word);
    assert(s.subrange(0, word.len() as int) =~= word);
    assert(word.subrange(0, word.len() as int) =~= word);
    assert(s.subrange(word.len() as int, s.len() as int) =~= seq![c] + rest);
    let blank = seq![c] + rest;
    assert(blank.subrange(1, blank.len() as int) =~= rest);
    assert(trim_start(blank) == trim_start(rest));
    assert(nth_word(blank, n) == nth_word(rest, n));
    let none = word.subrange(word.len() as int, word.len() as int);
    assert(none.len() == 0);
    assert(trim_start(none).len() == 0);
    assert(nth_word(none, n) is None);
}

proof fn lemma_word_ends(word: Seq<char>, tail: Seq<char>)
    requires
        forall|i: int| 0 <= i < word.len() ==> !is_white(#[trigger] word[i]),
        tail.len() == 0 || is_white(tail[0]),
    ensures
        word_len(word + tail) == word.len(),
    decreases word.len(),
{
    let s = word + tail;
    if word.len() > 0 {
        let less = word.subrange(1, word.len() as int);
        assert(s[0] == word[0]);
        assert(s.subrange(1, s.len() as int) =~= less + tail);
        lemma_word_ends(less, tail);
    } else {
        assert(s =~= tail);
    }
}

/// A number that is greater than allowed is none, and one of 32 bits with a sign lies
/// between the least and the greatest of those.
pub proof fn law_numbers_stay_within_bounds(n: nat, max: nat, s: Seq<char>)
    ensures
        n > max ==> unsigned_value(decimal(n), max) is None,
        signed_value_32(s) matches Some(v) ==> -2_147_483_648 <= v <= 2_147_483_647,
        n > 2_147_483_647 ==> signed_value_32(decimal(n)) is None,
        0 < n <= 2_147_483_648 ==> signed_value_32(seq!['-'] + decimal(n)) == Some(-(n as int)),
        n > 2_147_483_648 ==> signed_value_32(seq!['-'] + decimal(n)) is None,
{
    lemma_decimal_round_trip(n);
    let d = decimal(n);
    assert('0' <= d[0] <= '9');
    assert((seq!['-'] + d).subrange(1, d.len() as int + 1) =~= d);
}

} // verus!
