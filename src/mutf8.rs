use vstd::prelude::*;
use crate::error::Error;

verus! {

broadcast use vstd::utf8::char_is_scalar;

/// The two-byte form of a value below `0x800`.
pub open spec fn two_bytes(v: int) -> Seq<u8> {
    seq![(0xC0 + v / 64) as u8, (0x80 + v % 64) as u8]
}

/// The three-byte form of a value below `0x10000`.
pub open spec fn three_bytes(v: int) -> Seq<u8> {
    seq![(0xE0 + v / 4096) as u8, (0x80 + (v / 64) % 64) as u8, (0x80 + v % 64) as u8]
}

/// The modified UTF-8 form of one character: `U+0000` takes two bytes, and a
/// character above `U+FFFF` takes the three-byte forms of its two surrogates.
pub open spec fn encode_char(c: char) -> Seq<u8> {
    let v = c as u32 as int;
    if v == 0 {
        seq![0xC0u8, 0x80u8]
    } else if v <= 0x7F {
        seq![v as u8]
    } else if v <= 0x7FF {
        two_bytes(v)
    } else if v <= 0xFFFF {
        three_bytes(v)
    } else {
        three_bytes(0xD800 + (v - 0x10000) / 1024) + three_bytes(0xDC00 + (v - 0x10000) % 1024)
    }
}

/// The modified UTF-8 form of a string.
pub open spec fn encode(s: Seq<char>) -> Seq<u8>
    decreases s.len(),
{
    if s.len() == 0 {
        Seq::empty()
    } else {
        encode_char(s[0]) + encode(s.drop_first())
    }
}

pub open spec fn is_continuation(b: u8) -> bool {
    0x80 <= b <= 0xBF
}

/// The value held by a three-byte form starting at `b[i]`, if one is there.
pub open spec fn three_value(b: Seq<u8>, i: int) -> Option<int> {
    if i + 3 <= b.len() && 0xE0 <= b[i] <= 0xEF && is_continuation(b[i + 1])
        && is_continuation(b[i + 2]) {
        Some((b[i] - 0xE0) * 4096 + (b[i + 1] - 0x80) * 64 + (b[i + 2] - 0x80))
    } else {
        None
    }
}

/// The code point at the front of `b` and how many bytes it takes, or `None`
/// where `b` does not start with a well-formed modified UTF-8 sequence.
pub open spec fn decode_one(b: Seq<u8>) -> Option<(u32, nat)> {
    if b.len() == 0 {
        None
    } else if 0x01 <= b[0] <= 0x7F {
        Some((b[0] as u32, 1))
    } else if 0xC0 <= b[0] <= 0xDF {
        if b.len() >= 2 && is_continuation(b[1]) {
            Some((((b[0] - 0xC0) * 64 + (b[1] - 0x80)) as u32, 2))
        } else {
            None
        }
    } else {
        match three_value(b, 0) {
            None => None,
            Some(w) => if 0xD800 <= w <= 0xDBFF {
                match three_value(b, 3) {
                    Some(lo) => if 0xDC00 <= lo <= 0xDFFF {
                        Some(((0x10000 + (w - 0xD800) * 1024 + (lo - 0xDC00)) as u32, 6))
                    } else {
                        None
                    },
                    None => None,
                }
            } else if 0xDC00 <= w <= 0xDFFF {
                None
            } else {
                Some((w as u32, 3))
            },
        }
    }
}

/// The code points that `b` encodes in modified UTF-8, or `None` if it is malformed.
pub open spec fn decode(b: Seq<u8>) -> Option<Seq<u32>>
    decreases b.len(),
{
    if b.len() == 0 {
        Some(Seq::empty())
    } else {
        match decode_one(b) {
            None => None,
            Some((v, n)) => if 0 < n <= b.len() {
                match decode(b.skip(n as int)) {
                    Some(rest) => Some(seq![v] + rest),
                    None => None,
                }
            } else {
                None
            },
        }
    }
}

/// The characters that `b` encodes in modified UTF-8, or `None` if it is malformed.
pub open spec fn decode_string(b: Seq<u8>) -> Option<Seq<char>> {
    match decode(b) {
        Some(p) => Some(chars_of(p)),
        None => None,
    }
}

/// The characters of a sequence of code points.
pub open spec fn chars_of(p: Seq<u32>) -> Seq<char> {
    p.map_values(|v: u32| v as char)
}

/// The code points of a string.
pub open spec fn points(s: Seq<char>) -> Seq<u32> {
    s.map_values(|c: char| c as u32)
}

proof fn lemma_decode_one_in_range(b: Seq<u8>)
    ensures
        decode_one(b) matches Some((v, n)) ==> 0 < n <= b.len() && vstd::utf8::is_scalar(v),
{
}

proof fn lemma_three(v: int, rest: Seq<u8>)
    requires
        0 <= v < 0x10000,
    ensures
        three_value(three_bytes(v) + rest, 0) == Some(v),
{
    let b = three_bytes(v) + rest;
    assert(0 <= v / 4096 < 16 && 0 <= (v / 64) % 64 < 64 && 0 <= v % 64 < 64) by (nonlinear_arith)
        requires 0 <= v < 0x10000;
    assert((v / 4096) * 4096 + ((v / 64) % 64) * 64 + v % 64 == v) by (nonlinear_arith)
        requires 0 <= v < 0x10000;
    assert(b[0] == (0xE0 + v / 4096) as u8);
    assert(b[1] == (0x80 + (v / 64) % 64) as u8);
    assert(b[2] == (0x80 + v % 64) as u8);
}

proof fn lemma_two(v: int, rest: Seq<u8>)
    requires
        0x80 <= v < 0x800,
    ensures
        decode_one(two_bytes(v) + rest) == Some((v as u32, 2nat)),
{
    let b = two_bytes(v) + rest;
    assert(2 <= v / 64 < 32 && 0 <= v % 64 < 64) by (nonlinear_arith)
        requires 0x80 <= v < 0x800;
    assert((v / 64) * 64 + v % 64 == v) by (nonlinear_arith);
    assert(b[0] == (0xC0 + v / 64) as u8);
    assert(b[1] == (0x80 + v % 64) as u8);
}

proof fn lemma_decode_one_char(c: char, rest: Seq<u8>)
    ensures
        decode_one(encode_char(c) + rest) == Some((c as u32, encode_char(c).len())),
{
    let v = c as u32 as int;
    let b = encode_char(c) + rest;
    if v == 0 {
    } else if v <= 0x7F {
    } else if v <= 0x7FF {
        lemma_two(v, rest);
    } else if v <= 0xFFFF {
        lemma_three(v, rest);
        assert(b[0] >= 0xE0);
    } else {
        let u = v - 0x10000;
        let hi = 0xD800 + u / 1024;
        let lo = 0xDC00 + u % 1024;
        assert(0 <= u / 1024 < 1024 && 0 <= u % 1024 < 1024 && (u / 1024) * 1024 + u % 1024 == u)
            by (nonlinear_arith)
            requires 0 <= u < 0x100000;
        let tail = three_bytes(lo) + rest;
        assert(b =~= three_bytes(hi) + tail);
        lemma_three(hi, tail);
        lemma_three(lo, rest);
        assert(b.skip(3) =~= tail);
        assert(three_value(b, 3) == three_value(tail, 0));
        assert(b[0] >= 0xE0);
    }
}

/// Decoding the modified UTF-8 form of a string gives back its characters.
pub proof fn lemma_round_trip(s: Seq<char>)
    ensures
        decode(encode(s)) == Some(points(s)),
    decreases s.len(),
{
    if s.len() == 0 {
        assert(points(s) =~= Seq::<u32>::empty());
    } else {
        let head = encode_char(s[0]);
        let tail = encode(s.drop_first());
        lemma_decode_one_char(s[0], tail);
        lemma_round_trip(s.drop_first());
        assert((head + tail).skip(head.len() as int) =~= tail);
        assert(points(s) =~= seq![s[0] as u32] + points(s.drop_first()));
    }
}

proof fn lemma_chars_of_points(s: Seq<char>)
    ensures
        chars_of(points(s)) == s,
{
    assert forall|i: int| 0 <= i < s.len() implies #[trigger] chars_of(points(s))[i] == s[i] by {
        vstd::utf8::char_u32_cast(s[i], s[i] as u32);
    }
    assert(chars_of(points(s)) =~= s);
}

/// Decoding the modified UTF-8 form of a string gives back the string.
pub proof fn lemma_decode_encode(s: Seq<char>)
    ensures
        decode_string(encode(s)) == Some(s),
{
    broadcast use vstd::utf8::char_u32_cast;

    lemma_round_trip(s);
    lemma_chars_of_points(s);
}

/// Null takes the two bytes `C0 80`, and each character in
/// `U+10000..=U+10FFFF` takes two three-byte surrogate forms.
pub proof fn lemma_modified_utf8_law(c: char)
    ensures
        c as u32 == 0 ==> encode_char(c) == seq![0xC0u8, 0x80u8],
        c as u32 >= 0x10000 ==> encode_char(c).len() == 6 && encode_char(c)[0] == 0xED
            && 0xA0 <= encode_char(c)[1] <= 0xAF && encode_char(c)[3] == 0xED
            && 0xB0 <= encode_char(c)[4] <= 0xBF && three_value(encode_char(c), 0) == Some(
            0xD800 + (c as u32 - 0x10000) / 1024) && three_value(encode_char(c), 3) == Some(
            0xDC00 + (c as u32 - 0x10000) % 1024),
        encode_char(c).len() <= 6,
        !encode_char(c).contains(0u8),
{
    let v = c as u32 as int;
    if v >= 0x10000 {
        let hi = 0xD800 + (v - 0x10000) / 1024;
        let lo = 0xDC00 + (v - 0x10000) % 1024;
        assert(three_value(encode_char(c), 0) == Some(hi));
        assert(three_value(encode_char(c), 3) == Some(lo));
    }
    assert forall|i: int| 0 <= i < encode_char(c).len() implies encode_char(c)[i] != 0u8 by {}
}

proof fn lemma_encode_push(s: Seq<char>, c: char)
    ensures
        encode(s.push(c)) == encode(s) + encode_char(c),
    decreases s.len(),
{
    if s.len() == 0 {
        assert(s.push(c).drop_first() =~= Seq::<char>::empty());
        assert(encode(s.push(c)) =~= encode_char(c) + encode(Seq::<char>::empty()));
    } else {
        lemma_encode_push(s.drop_first(), c);
        assert(s.push(c).drop_first() =~= s.drop_first().push(c));
    }
}

/// Relies on `String::push`: the character is appended.
#[verifier::external_body]
fn push_char(s: &mut String, c: char)
    ensures
        final(s)@ == old(s)@.push(c),
{
    s.push(c)
}

/// Relies on `char::from_u32`: it gives the character exactly for the values
/// that are Unicode scalars.
#[verifier::external_body]
fn char_from_u32(v: u32) -> (r: Option<char>)
    ensures
        r is Some <==> vstd::utf8::is_scalar(v),
        r matches Some(c) ==> c as u32 == v,
{
    char::from_u32(v)
}

/// Appends the modified UTF-8 form of one character.
fn encode_char_into(c: char, out: &mut Vec<u8>)
    ensures
        final(out)@ == old(out)@ + encode_char(c),
{
    let v = c as u32;
    if v == 0 {
        out.push(0xC0);
        out.push(0x80);
    } else if v <= 0x7F {
        out.push(v as u8);
    } else if v <= 0x7FF {
        out.push((0xC0 + v / 64) as u8);
        out.push((0x80 + v % 64) as u8);
    } else if v <= 0xFFFF {
        out.push((0xE0 + v / 4096) as u8);
        out.push((0x80 + (v / 64) % 64) as u8);
        out.push((0x80 + v % 64) as u8);
    } else {
        let hi = 0xD800 + (v - 0x10000) / 1024;
        let lo = 0xDC00 + (v - 0x10000) % 1024;
        out.push((0xE0 + hi / 4096) as u8);
        out.push((0x80 + (hi / 64) % 64) as u8);
        out.push((0x80 + hi % 64) as u8);
        out.push((0xE0 + lo / 4096) as u8);
        out.push((0x80 + (lo / 64) % 64) as u8);
        out.push((0x80 + lo % 64) as u8);
    }
    assert(out@ =~= old(out)@ + encode_char(c));
}

/// The modified UTF-8 form of `s`.
pub fn encode_modified_utf8(s: &str) -> (r: Vec<u8>)
    ensures
        r@ == encode(s@),
{
    let n = s.unicode_len();
    let mut out: Vec<u8> = Vec::new();
    let mut i: usize = 0;
    while i < n
        invariant
            n == s@.len(),
            i <= n,
            out@ == encode(s@.take(i as int)),
        decreases n - i,
    {
        let c = s.get_char(i);
        proof {
            lemma_encode_push(s@.take(i as int), c);
            assert(s@.take(i as int).push(c) =~= s@.take(i + 1));
        }
        encode_char_into(c, &mut out);
        i = i + 1;
    }
    assert(s@.take(n as int) =~= s@);
    out
}

/// The code point at `b[i..]` and its length, as `decode_one` gives them.
fn decode_one_at(b: &[u8], i: usize) -> (r: Option<(u32, usize)>)
    requires
        i <= b@.len(),
    ensures
        match decode_one(b@.skip(i as int)) {
            Some((v, n)) => r == Some((v, n as usize)),
            None => r is None,
        },
{
    let ghost s = b@.skip(i as int);
    let len = b.len() - i;
    if len == 0 {
        return None;
    }
    let b0 = b[i];
    if 0x01 <= b0 && b0 <= 0x7F {
        return Some((b0 as u32, 1));
    }
    if 0xC0 <= b0 && b0 <= 0xDF {
        if len >= 2 && 0x80 <= b[i + 1] && b[i + 1] <= 0xBF {
            return Some((((b0 - 0xC0) as u32) * 64 + (b[i + 1] - 0x80) as u32, 2));
        }
        return None;
    }
    let w = match three_at(b, i) {
        None => return None,
        Some(w) => w,
    };
    if 0xD800 <= w && w <= 0xDBFF {
        if len < 3 {
            return None;
        }
        match three_at(b, i + 3) {
            Some(lo) => {
                assert(three_value(s, 3) == three_value(b@.skip(i + 3), 0));
                if 0xDC00 <= lo && lo <= 0xDFFF {
                    Some((0x10000 + (w - 0xD800) * 1024 + (lo - 0xDC00), 6))
                } else {
                    None
                }
            },
            None => {
                assert(three_value(s, 3) == three_value(b@.skip(i + 3), 0));
                None
            },
        }
    } else if 0xDC00 <= w && w <= 0xDFFF {
        None
    } else {
        Some((w, 3))
    }
}

/// The value of a three-byte form at `b[i..]`, as `three_value` gives it.
fn three_at(b: &[u8], i: usize) -> (r: Option<u32>)
    requires
        i <= b@.len(),
    ensures
        match three_value(b@.skip(i as int), 0) {
            Some(w) => r == Some(w as u32) && 0 <= w < 0x10000,
            None => r is None,
        },
{
    if b.len() - i >= 3 && 0xE0 <= b[i] && b[i] <= 0xEF && 0x80 <= b[i + 1] && b[i + 1] <= 0xBF
        && 0x80 <= b[i + 2] && b[i + 2] <= 0xBF {
        Some(((b[i] - 0xE0) as u32) * 4096 + ((b[i + 1] - 0x80) as u32) * 64 + (b[i + 2]
            - 0x80) as u32)
    } else {
        None
    }
}

/// Decodes modified UTF-8. Fails with `BadUtf8` exactly where `decode` gives `None`.
pub fn decode_modified_utf8(b: &[u8]) -> (r: Result<String, Error>)
    ensures
        match decode_string(b@) {
            Some(p) => r matches Ok(s) && s@ == p,
            None => r == Err::<String, Error>(Error::BadUtf8),
        },
{
    broadcast use vstd::utf8::char_u32_cast;

    let mut out = String::new();
    let mut i: usize = 0;
    proof {
        assert(b@.skip(0) =~= b@);
        match decode(b@) {
            Some(p) => assert(points(out@) + p =~= p),
            None => {},
        }
    }
    while i < b.len()
        invariant
            i <= b@.len(),
            decode(b@) == match decode(b@.skip(i as int)) {
                Some(rest) => Some(points(out@) + rest),
                None => None::<Seq<u32>>,
            },
        decreases b@.len() - i,
    {
        let ghost s = b@.skip(i as int);
        proof {
            lemma_decode_one_in_range(s);
        }
        match decode_one_at(b, i) {
            None => {
                return Err(Error::BadUtf8);
            },
            Some((v, n)) => {
                let c = match char_from_u32(v) {
                    Some(c) => c,
                    None => return Err(Error::BadUtf8),
                };
                proof {
                    assert(s.skip(n as int) =~= b@.skip(i + n));
                    assert(points(out@.push(c)) =~= points(out@) + seq![v]);
                    match decode(b@.skip(i + n)) {
                        Some(rest) => {
                            assert(points(out@) + (seq![v] + rest) =~= points(out@.push(c)) + rest);
                        },
                        None => {},
                    }
                }
                push_char(&mut out, c);
                i = i + n;
            },
        }
    }
    proof {
        assert(b@.skip(i as int) =~= Seq::<u8>::empty());
        assert(points(out@) + Seq::<u32>::empty() =~= points(out@));
        lemma_chars_of_points(out@);
    }
    Ok(out)
}

} // verus!
