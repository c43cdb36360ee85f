//! Base64 encoding and decoding over the standard 64-character alphabet.

use vstd::prelude::*;

verus! {

/// The character standing at position `i` of the Base64 alphabet
/// (`A-Z`, `a-z`, `0-9`, `+`, `/`), for `0 <= i < 64`.
pub open spec fn alphabet_char(i: int) -> char
    recommends
        0 <= i < 64,
{
    if i < 26 {
        (65 + i) as char
    } else if i < 52 {
        (97 + (i - 26)) as char
    } else if i < 62 {
        (48 + (i - 52)) as char
    } else if i == 62 {
        '+'
    } else {
        '/'
    }
}

/// The position of `c` in the Base64 alphabet, or 64 when `c` is not an
/// alphabet character (the padding character `=` included).
pub open spec fn char_index(c: char) -> int {
    let u = c as int;
    if 65 <= u <= 90 {
        u - 65
    } else if 97 <= u <= 122 {
        26 + (u - 97)
    } else if 48 <= u <= 57 {
        52 + (u - 48)
    } else if u == 43 {
        62
    } else if u == 47 {
        63
    } else {
        64
    }
}

/// The alphabet is a bijection between positions and characters: looking a
/// character up by its position and taking the position of that character
/// round-trips, and no alphabet character is the padding character.
pub proof fn lemma_alphabet_bijective(i: int)
    requires
        0 <= i < 64,
    ensures
        char_index(alphabet_char(i)) == i,
        alphabet_char(i) != '=',
{
}

/// Position of `c` in the Base64 alphabet, with 64 reported for any
/// character outside it.
fn sextet_of(c: char) -> (v: u8)
    ensures
        v as int == char_index(c),
{
    let u = c as u32;
    if 65 <= u && u <= 90 {
        (u - 65) as u8
    } else if 97 <= u && u <= 122 {
        (26 + (u - 97)) as u8
    } else if 48 <= u && u <= 57 {
        (52 + (u - 48)) as u8
    } else if u == 43 {
        62
    } else if u == 47 {
        63
    } else {
        64
    }
}

/// The alphabet character standing at position `i`.
fn alphabet_char_of(i: u8) -> (c: char)
    requires
        i < 64,
    ensures
        c == alphabet_char(i as int),
{
    let b: u8 = if i < 26 {
        65 + i
    } else if i < 52 {
        97 + (i - 26)
    } else if i < 62 {
        48 + (i - 52)
    } else if i == 62 {
        43
    } else {
        47
    };
    b as char
}

/// The four alphabet characters that encode one full group of three bytes:
/// the 24 bits of the group, big-endian, read as four 6-bit fields from the
/// most significant down.
pub open spec fn encode_group(b0: u8, b1: u8, b2: u8) -> Seq<char> {
    seq![
        alphabet_char(b0 as int / 4),
        alphabet_char((b0 as int % 4) * 16 + b1 as int / 16),
        alphabet_char((b1 as int % 16) * 4 + b2 as int / 64),
        alphabet_char(b2 as int % 64),
    ]
}

/// The Base64 encoding of a byte sequence: full groups of three bytes become
/// four alphabet characters each; a trailing byte becomes two characters and
/// two padding characters; two trailing bytes become three characters and one
/// padding character.
pub open spec fn encode64(bs: Seq<u8>) -> Seq<char>
    decreases bs.len(),
{
    if bs.len() == 0 {
        Seq::empty()
    } else if bs.len() == 1 {
        seq![
            alphabet_char(bs[0] as int / 4),
            alphabet_char((bs[0] as int % 4) * 16),
            '=',
            '=',
        ]
    } else if bs.len() == 2 {
        seq![
            alphabet_char(bs[0] as int / 4),
            alphabet_char((bs[0] as int % 4) * 16 + bs[1] as int / 16),
            alphabet_char((bs[1] as int % 16) * 4),
            '=',
        ]
    } else {
        encode_group(bs[0], bs[1], bs[2]) + encode64(bs.skip(3))
    }
}

/// Relies on std's `String::push`: appends the given character to the end of
/// the string.
#[verifier::external_body]
fn push_char(s: &mut String, c: char)
    ensures
        final(s)@ == old(s)@.push(c),
{
    s.push(c);
}

/// Encodes `bytes` as Base64 text over the standard alphabet, padded with
/// `=` to a length that is a multiple of four.
pub fn base64_encode(bytes: &[u8]) -> (s: String)
    ensures
        s@ == encode64(bytes@),
{
    let n = bytes.len();
    let mut s = String::new();
    let mut i: usize = 0;
    proof {
        assert(bytes@.skip(0) =~= bytes@);
        assert(s@ + encode64(bytes@) =~= encode64(bytes@));
    }
    while n - i >= 3
        invariant
            i <= n,
            n == bytes@.len(),
            s@ + encode64(bytes@.skip(i as int)) == encode64(bytes@),
        decreases n - i,
    {
        let b0 = bytes[i];
        let b1 = bytes[i + 1];
        let b2 = bytes[i + 2];
        let ghost s_entry = s@;
        push_char(&mut s, alphabet_char_of(b0 / 4));
        push_char(&mut s, alphabet_char_of((b0 % 4) * 16 + b1 / 16));
        push_char(&mut s, alphabet_char_of((b1 % 16) * 4 + b2 / 64));
        push_char(&mut s, alphabet_char_of(b2 % 64));
        proof {
            let tail = bytes@.skip(i as int);
            assert(tail[0] == b0 && tail[1] == b1 && tail[2] == b2);
            assert(tail.skip(3) =~= bytes@.skip(i as int + 3));
            assert(s@ =~= s_entry + encode_group(b0, b1, b2));
            assert(s@ + encode64(bytes@.skip(i as int + 3)) =~= s_entry + encode64(tail));
        }
        i = i + 3;
    }
    let ghost s_entry = s@;
    let ghost tail = bytes@.skip(i as int);
    if n - i == 1 {
        let b0 = bytes[i];
        push_char(&mut s, alphabet_char_of(b0 / 4));
        push_char(&mut s, alphabet_char_of((b0 % 4) * 16));
        push_char(&mut s, '=');
        push_char(&mut s, '=');
        proof {
            assert(tail[0] == b0);
            assert(s@ =~= s_entry + encode64(tail));
        }
    } else if n - i == 2 {
        let b0 = bytes[i];
        let b1 = bytes[i + 1];
        push_char(&mut s, alphabet_char_of(b0 / 4));
        push_char(&mut s, alphabet_char_of((b0 % 4) * 16 + b1 / 16));
        push_char(&mut s, alphabet_char_of((b1 % 16) * 4));
        push_char(&mut s, '=');
        proof {
            assert(tail[0] == b0 && tail[1] == b1);
            assert(s@ =~= s_entry + encode64(tail));
        }
    } else {
        proof {
            assert(tail =~= Seq::<u8>::empty());
            assert(s@ =~= s_entry + encode64(tail));
        }
    }
    s
}

/// The ways a decode can fail. Every malformed input is rejected with
/// exactly one of these; the first failing group of the input decides which.
#[derive(Clone, Copy, Debug, PartialEq, Eq, Structural)]
pub enum DecodeError {
    /// The input length is not a multiple of four.
    InvalidLength,
    /// A padding character stands in the first or second position of a group.
    UnexpectedPadding,
    /// The carried character stands outside the alphabet where an alphabet
    /// character was required.
    InvalidCharacter(char),
    /// The third character of a group is padding but the fourth is not.
    InvalidPadding,
}

impl DecodeError {
    /// The text describing this error, character by character.
    pub open spec fn message_spec(self) -> Seq<char> {
        match self {
            DecodeError::InvalidLength => "Invalid base64 string length"@,
            DecodeError::UnexpectedPadding => "Unexpected padding character"@,
            DecodeError::InvalidCharacter(c) => "Invalid base64 character found: '"@.push(c)
                + "'"@,
            DecodeError::InvalidPadding => "Invalid padding"@,
        }
    }

    /// A description of the error a caller may show, naming the offending
    /// character for `InvalidCharacter`.
    pub fn message(&self) -> (m: String)
        ensures
            m@ == self.message_spec(),
    {
        match self {
            DecodeError::InvalidLength => String::from_str("Invalid base64 string length"),
            DecodeError::UnexpectedPadding => String::from_str("Unexpected padding character"),
            DecodeError::InvalidCharacter(c) => {
                let mut m = String::from_str("Invalid base64 character found: '");
                push_char(&mut m, *c);
                m.append("'");
                m
            },
            DecodeError::InvalidPadding => String::from_str("Invalid padding"),
        }
    }
}

/// What one four-character group contributes to a decode: the bytes its
/// 6-bit fields stand for, or the first error that validating the group in
/// order finds.
pub open spec fn decode_group(a: char, b: char, c: char, d: char) -> Result<Seq<u8>, DecodeError> {
    let va = char_index(a);
    let vb = char_index(b);
    let vc = char_index(c);
    let vd = char_index(d);
    if a == '=' || b == '=' {
        Err(DecodeError::UnexpectedPadding)
    } else if va >= 64 {
        Err(DecodeError::InvalidCharacter(a))
    } else if vb >= 64 {
        Err(DecodeError::InvalidCharacter(b))
    } else if c == '=' {
        if d == '=' {
            Ok(seq![(va * 4 + vb / 16) as u8])
        } else {
            Err(DecodeError::InvalidPadding)
        }
    } else if vc >= 64 {
        Err(DecodeError::InvalidCharacter(c))
    } else if d == '=' {
        Ok(seq![(va * 4 + vb / 16) as u8, ((vb % 16) * 16 + vc / 4) as u8])
    } else if vd >= 64 {
        Err(DecodeError::InvalidCharacter(d))
    } else {
        Ok(
            seq![
                (va * 4 + vb / 16) as u8,
                ((vb % 16) * 16 + vc / 4) as u8,
                ((vc % 4) * 64 + vd) as u8,
            ],
        )
    }
}

/// True when a group ends the decoded output: its third or fourth character
/// is padding, so it stands for a final one- or two-byte tail.
pub open spec fn group_ends_output(c: char, d: char) -> bool {
    c == '=' || d == '='
}

/// Decodes a sequence of four-character groups. Every group is validated and
/// the first invalid one decides the error; bytes of groups after the first
/// padding-terminated group are discarded (`emitting` false from then on).
pub open spec fn decode_groups(s: Seq<char>, emitting: bool) -> Result<Seq<u8>, DecodeError>
    recommends
        s.len() % 4 == 0,
    decreases s.len(),
{
    if s.len() < 4 {
        Ok(Seq::empty())
    } else {
        match decode_group(s[0], s[1], s[2], s[3]) {
            Err(e) => Err(e),
            Ok(bytes) => match decode_groups(
                s.skip(4),
                emitting && !group_ends_output(s[2], s[3]),
            ) {
                Err(e) => Err(e),
                Ok(rest) => Ok(if emitting { bytes + rest } else { rest }),
            },
        }
    }
}

/// The decode of Base64 text: empty input gives empty output; an input whose
/// length is not a multiple of four is rejected; otherwise the groups decide.
pub open spec fn decode64(s: Seq<char>) -> Result<Seq<u8>, DecodeError> {
    if s.len() == 0 {
        Ok(Seq::empty())
    } else if s.len() % 4 != 0 {
        Err(DecodeError::InvalidLength)
    } else {
        decode_groups(s, true)
    }
}

/// The decode of the whole input, seen from the middle of a pass: the groups
/// before position `i` have produced `acc`, and `emitting` is the emission
/// flag the pass carries at `i`.
spec fn decode_continuation(s: Seq<char>, i: int, acc: Seq<u8>, emitting: bool) -> Result<
    Seq<u8>,
    DecodeError,
> {
    match decode_groups(s.skip(i), emitting) {
        Err(e) => Err(e),
        Ok(rest) => Ok(acc + rest),
    }
}

/// Validates one group and, when `emitting` holds, appends its bytes to
/// `out`. Returns whether the group ends the decoded output.
fn decode_quartet(a: char, b: char, c: char, d: char, out: &mut Vec<u8>, emitting: bool) -> (r:
    Result<bool, DecodeError>)
    ensures
        match r {
            Ok(ends) => {
                &&& decode_group(a, b, c, d) is Ok
                &&& final(out)@ == if emitting {
                    old(out)@ + decode_group(a, b, c, d)->Ok_0
                } else {
                    old(out)@
                }
                &&& ends == group_ends_output(c, d)
            },
            Err(e) => {
                &&& decode_group(a, b, c, d) == Err::<Seq<u8>, DecodeError>(e)
                &&& final(out)@ == old(out)@
            },
        },
{
    if a == '=' || b == '=' {
        return Err(DecodeError::UnexpectedPadding);
    }
    let va = sextet_of(a);
    if va >= 64 {
        return Err(DecodeError::InvalidCharacter(a));
    }
    let vb = sextet_of(b);
    if vb >= 64 {
        return Err(DecodeError::InvalidCharacter(b));
    }
    let byte0 = va * 4 + vb / 16;
    if c == '=' {
        if d == '=' {
            if emitting {
                out.push(byte0);
            }
            Ok(true)
        } else {
            Err(DecodeError::InvalidPadding)
        }
    } else {
        let vc = sextet_of(c);
        if vc >= 64 {
            return Err(DecodeError::InvalidCharacter(c));
        }
        let byte1 = (vb % 16) * 16 + vc / 4;
        if d == '=' {
            if emitting {
                out.push(byte0);
                out.push(byte1);
            }
            Ok(true)
        } else {
            let vd = sextet_of(d);
            if vd >= 64 {
                return Err(DecodeError::InvalidCharacter(d));
            }
            let byte2 = (vc % 4) * 64 + vd;
            if emitting {
                out.push(byte0);
                out.push(byte1);
                out.push(byte2);
            }
            Ok(false)
        }
    }
}

/// Decodes Base64 text back into the bytes it stands for, validating the
/// input strictly: the result is exactly what [`decode64`] says, bytes on
/// success and the error of the first failing check otherwise.
pub fn base64_decode(s: &str) -> (r: Result<Vec<u8>, DecodeError>)
    ensures
        match r {
            Ok(bytes) => decode64(s@) == Ok::<Seq<u8>, DecodeError>(bytes@),
            Err(e) => decode64(s@) == Err::<Seq<u8>, DecodeError>(e),
        },
{
    let n = s.unicode_len();
    if n == 0 {
        return Ok(Vec::new());
    }
    if n % 4 != 0 {
        return Err(DecodeError::InvalidLength);
    }
    let mut out: Vec<u8> = Vec::new();
    let mut emitting: bool = true;
    let mut i: usize = 0;
    proof {
        assert(s@.skip(0) =~= s@);
        assert(out@ + decode_groups(s@, true)->Ok_0 =~= decode_groups(s@, true)->Ok_0);
    }
    while i < n
        invariant
            n == s@.len(),
            0 < n,
            n % 4 == 0,
            i <= n,
            i % 4 == 0,
            decode_groups(s@, true) == decode_continuation(s@, i as int, out@, emitting),
        decreases n - i,
    {
        proof {
            assert(n - i >= 4);
        }
        let a = s.get_char(i);
        let b = s.get_char(i + 1);
        let c = s.get_char(i + 2);
        let d = s.get_char(i + 3);
        let ghost out_entry = out@;
        let ghost tail = s@.skip(i as int);
        match decode_quartet(a, b, c, d, &mut out, emitting) {
            Err(e) => {
                proof {
                    assert(tail[0] == a && tail[1] == b && tail[2] == c && tail[3] == d);
                }
                return Err(e);
            },
            Ok(ends) => {
                proof {
                    assert(tail[0] == a && tail[1] == b && tail[2] == c && tail[3] == d);
                    assert(tail.skip(4) =~= s@.skip(i as int + 4));
                    if decode_group(a, b, c, d) is Ok && emitting {
                        assert(out@ =~= out_entry + decode_group(a, b, c, d)->Ok_0);
                        if decode_groups(s@.skip(i as int + 4), emitting && !ends) is Ok {
                            assert(out_entry + (decode_group(a, b, c, d)->Ok_0 + decode_groups(
                                s@.skip(i as int + 4),
                                emitting && !ends,
                            )->Ok_0) =~= out@ + decode_groups(
                                s@.skip(i as int + 4),
                                emitting && !ends,
                            )->Ok_0);
                        }
                    }
                }
                emitting = emitting && !ends;
                i = i + 4;
            },
        }
    }
    proof {
        assert(s@.skip(n as int) =~= Seq::<char>::empty());
        assert(out@ + Seq::<u8>::empty() =~= out@);
    }
    Ok(out)
}

/// Packing a part `a` and a remainder `r < k` as `a * k + r` and then
/// dividing or reducing by `k` gives the parts back.
proof fn lemma_pack_unpack(a: int, r: int, k: int)
    by (nonlinear_arith)
    requires
        0 < k,
        0 <= a,
        0 <= r < k,
    ensures
        (a * k + r) / k == a,
        (a * k + r) % k == r,
{
}

/// The four 6-bit fields of a packed three-byte group are alphabet positions,
/// and decoding them gives the three bytes back.
proof fn lemma_group_fields(b0: u8, b1: u8, b2: u8)
    ensures
        ({
            let v0 = b0 as int / 4;
            let v1 = (b0 as int % 4) * 16 + b1 as int / 16;
            let v2 = (b1 as int % 16) * 4 + b2 as int / 64;
            let v3 = b2 as int % 64;
            &&& 0 <= v0 < 64
            &&& 0 <= v1 < 64
            &&& 0 <= v2 < 64
            &&& 0 <= v3 < 64
            &&& v0 * 4 + v1 / 16 == b0 as int
            &&& (v1 % 16) * 16 + v2 / 4 == b1 as int
            &&& (v2 % 4) * 64 + v3 == b2 as int
        }),
{
    lemma_pack_unpack(b0 as int % 4, b1 as int / 16, 16);
    lemma_pack_unpack(b1 as int % 16, b2 as int / 64, 4);
    vstd::arithmetic::div_mod::lemma_fundamental_div_mod(b0 as int, 4);
    vstd::arithmetic::div_mod::lemma_fundamental_div_mod(b1 as int, 16);
    vstd::arithmetic::div_mod::lemma_fundamental_div_mod(b2 as int, 64);
}

/// Length invariant: encoded text holds four characters for every started
/// group of three bytes, so its length is always a multiple of four.
pub proof fn lemma_encode64_len(bs: Seq<u8>)
    ensures
        encode64(bs).len() == 4 * ((bs.len() + 2) / 3),
        encode64(bs).len() % 4 == 0,
    decreases bs.len(),
{
    if bs.len() >= 3 {
        lemma_encode64_len(bs.skip(3));
        assert((bs.len() + 2) / 3 == (bs.skip(3).len() + 2) / 3 + 1) by (nonlinear_arith)
            requires
                bs.len() >= 3,
                bs.skip(3).len() == bs.len() - 3,
        ;
    }
}

/// Group decoding inverts the encoder: decoding the groups the encoder
/// produced, with emission on, gives the original bytes back.
#[verifier::rlimit(100)]
proof fn lemma_groups_round_trip(bs: Seq<u8>)
    ensures
        decode_groups(encode64(bs), true) == Ok::<Seq<u8>, DecodeError>(bs),
    decreases bs.len(),
{
    let e = encode64(bs);
    if bs.len() == 0 {
        assert(bs =~= Seq::<u8>::empty());
    } else if bs.len() == 1 {
        let b0 = bs[0];
        lemma_group_fields(b0, 0, 0);
        lemma_alphabet_bijective(b0 as int / 4);
        lemma_alphabet_bijective((b0 as int % 4) * 16);
        assert(decode_group(e[0], e[1], e[2], e[3]) == Ok::<Seq<u8>, DecodeError>(seq![b0]));
        assert(e.skip(4) =~= Seq::<char>::empty());
        assert(decode_groups(e.skip(4), false) == Ok::<Seq<u8>, DecodeError>(Seq::<u8>::empty()));
        assert(seq![b0] + Seq::<u8>::empty() =~= bs);
    } else if bs.len() == 2 {
        let b0 = bs[0];
        let b1 = bs[1];
        lemma_group_fields(b0, b1, 0);
        lemma_alphabet_bijective(b0 as int / 4);
        lemma_alphabet_bijective((b0 as int % 4) * 16 + b1 as int / 16);
        lemma_alphabet_bijective((b1 as int % 16) * 4);
        assert(decode_group(e[0], e[1], e[2], e[3]) == Ok::<Seq<u8>, DecodeError>(seq![b0, b1]));
        assert(e.skip(4) =~= Seq::<char>::empty());
        assert(decode_groups(e.skip(4), false) == Ok::<Seq<u8>, DecodeError>(Seq::<u8>::empty()));
        assert(seq![b0, b1] + Seq::<u8>::empty() =~= bs);
    } else {
        let b0 = bs[0];
        let b1 = bs[1];
        let b2 = bs[2];
        let g = encode_group(b0, b1, b2);
        lemma_group_fields(b0, b1, b2);
        lemma_alphabet_bijective(b0 as int / 4);
        lemma_alphabet_bijective((b0 as int % 4) * 16 + b1 as int / 16);
        lemma_alphabet_bijective((b1 as int % 16) * 4 + b2 as int / 64);
        lemma_alphabet_bijective(b2 as int % 64);
        lemma_groups_round_trip(bs.skip(3));
        assert(e == g + encode64(bs.skip(3)));
        assert(e[0] == g[0] && e[1] == g[1] && e[2] == g[2] && e[3] == g[3]);
        assert(decode_group(e[0], e[1], e[2], e[3]) == Ok::<Seq<u8>, DecodeError>(
            seq![b0, b1, b2],
        ));
        assert(!group_ends_output(e[2], e[3]));
        assert(e.skip(4) =~= encode64(bs.skip(3)));
        assert(decode_groups(e.skip(4), true) == Ok::<Seq<u8>, DecodeError>(bs.skip(3)));
        assert(seq![b0, b1, b2] + bs.skip(3) =~= bs);
    }
}

/// Round trip: decoding what the encoder produced succeeds and gives the
/// original bytes back, for every byte sequence.
pub proof fn lemma_encode_decode_round_trip(bs: Seq<u8>)
    ensures
        decode64(encode64(bs)) == Ok::<Seq<u8>, DecodeError>(bs),
{
    lemma_encode64_len(bs);
    lemma_groups_round_trip(bs);
    if bs.len() == 0 {
        assert(bs =~= Seq::<u8>::empty());
    }
}

/// Length rejection: every non-empty input whose length is not a multiple of
/// four is rejected with `InvalidLength`.
pub proof fn lemma_invalid_length(s: Seq<char>)
    requires
        s.len() > 0,
        s.len() % 4 != 0,
    ensures
        decode64(s) == Err::<Seq<u8>, DecodeError>(DecodeError::InvalidLength),
{
}

/// The result of validating group `j` of `s`, the group standing at
/// characters `4j` to `4j + 3`.
pub open spec fn group_at(s: Seq<char>, j: int) -> Result<Seq<u8>, DecodeError>
    recommends
        0 <= j,
        4 * j + 4 <= s.len(),
{
    decode_group(s[4 * j], s[4 * j + 1], s[4 * j + 2], s[4 * j + 3])
}

/// Group decoding reports the error of the first failing group, whatever the
/// emission flag.
proof fn lemma_groups_first_error(s: Seq<char>, g: int, emitting: bool)
    requires
        s.len() % 4 == 0,
        0 <= g,
        4 * g + 4 <= s.len(),
        forall|j: int| 0 <= j < g ==> (#[trigger] group_at(s, j)) is Ok,
        group_at(s, g) is Err,
    ensures
        decode_groups(s, emitting) == Err::<Seq<u8>, DecodeError>(group_at(s, g)->Err_0),
    decreases g,
{
    if g == 0 {
        assert(decode_group(s[0], s[1], s[2], s[3]) == group_at(s, 0));
    } else {
        assert(group_at(s, 0) is Ok);
        assert(decode_group(s[0], s[1], s[2], s[3]) == group_at(s, 0));
        let rest = s.skip(4);
        assert forall|j: int| 0 <= j < g - 1 implies (#[trigger] group_at(rest, j)) is Ok by {
            assert(group_at(s, j + 1) is Ok);
            assert(rest[4 * j] == s[4 * (j + 1)]);
            assert(rest[4 * j + 1] == s[4 * (j + 1) + 1]);
            assert(rest[4 * j + 2] == s[4 * (j + 1) + 2]);
            assert(rest[4 * j + 3] == s[4 * (j + 1) + 3]);
        }
        assert(rest[4 * (g - 1)] == s[4 * g]);
        assert(rest[4 * (g - 1) + 1] == s[4 * g + 1]);
        assert(rest[4 * (g - 1) + 2] == s[4 * g + 2]);
        assert(rest[4 * (g - 1) + 3] == s[4 * g + 3]);
        assert(group_at(rest, g - 1) == group_at(s, g));
        lemma_groups_first_error(rest, g - 1, emitting && !group_ends_output(s[2], s[3]));
    }
}

/// The first failing group decides the decode: when every group before group
/// `g` validates and group `g` does not, the whole decode fails with group
/// `g`'s error.
pub proof fn lemma_first_failing_group(s: Seq<char>, g: int)
    requires
        s.len() % 4 == 0,
        0 <= g,
        4 * g + 4 <= s.len(),
        forall|j: int| 0 <= j < g ==> (#[trigger] group_at(s, j)) is Ok,
        group_at(s, g) is Err,
    ensures
        decode64(s) == Err::<Seq<u8>, DecodeError>(group_at(s, g)->Err_0),
{
    lemma_groups_first_error(s, g, true);
}

/// Padding-position rejection: when every group before group `g` validates
/// and group `g` carries the padding character in its first or second
/// position, the decode fails with `UnexpectedPadding`.
pub proof fn lemma_unexpected_padding(s: Seq<char>, g: int)
    requires
        s.len() % 4 == 0,
        0 <= g,
        4 * g + 4 <= s.len(),
        forall|j: int| 0 <= j < g ==> (#[trigger] group_at(s, j)) is Ok,
        s[4 * g] == '=' || s[4 * g + 1] == '=',
    ensures
        decode64(s) == Err::<Seq<u8>, DecodeError>(DecodeError::UnexpectedPadding),
{
    lemma_first_failing_group(s, g);
}

/// Invalid-character rejection: when every group before group `g` validates,
/// no padding character stands in group `g` before the offending position,
/// and a character of group `g` is outside the alphabet where an alphabet
/// character was required, the decode fails with `InvalidCharacter` carrying
/// the first such character in validation order.
pub proof fn lemma_invalid_character(s: Seq<char>, g: int)
    requires
        s.len() % 4 == 0,
        0 <= g,
        4 * g + 4 <= s.len(),
        forall|j: int| 0 <= j < g ==> (#[trigger] group_at(s, j)) is Ok,
        s[4 * g] != '=',
        s[4 * g + 1] != '=',
        char_index(s[4 * g]) >= 64 || char_index(s[4 * g + 1]) >= 64 || (s[4 * g + 2] != '='
            && char_index(s[4 * g + 2]) >= 64) || (s[4 * g + 2] != '=' && s[4 * g + 3] != '='
            && char_index(s[4 * g + 3]) >= 64),
    ensures
        decode64(s) == Err::<Seq<u8>, DecodeError>(
            DecodeError::InvalidCharacter(
                if char_index(s[4 * g]) >= 64 {
                    s[4 * g]
                } else if char_index(s[4 * g + 1]) >= 64 {
                    s[4 * g + 1]
                } else if s[4 * g + 2] != '=' && char_index(s[4 * g + 2]) >= 64 {
                    s[4 * g + 2]
                } else {
                    s[4 * g + 3]
                },
            ),
        ),
{
    lemma_first_failing_group(s, g);
}

/// Malformed-padding rejection: when every group before group `g` validates,
/// group `g` opens with two alphabet characters, and its third character is
/// padding while its fourth is not, the decode fails with `InvalidPadding`.
pub proof fn lemma_invalid_padding(s: Seq<char>, g: int)
    requires
        s.len() % 4 == 0,
        0 <= g,
        4 * g + 4 <= s.len(),
        forall|j: int| 0 <= j < g ==> (#[trigger] group_at(s, j)) is Ok,
        s[4 * g] != '=',
        s[4 * g + 1] != '=',
        char_index(s[4 * g]) < 64,
        char_index(s[4 * g + 1]) < 64,
        s[4 * g + 2] == '=',
        s[4 * g + 3] != '=',
    ensures
        decode64(s) == Err::<Seq<u8>, DecodeError>(DecodeError::InvalidPadding),
{
    lemma_first_failing_group(s, g);
}

} // verus!
