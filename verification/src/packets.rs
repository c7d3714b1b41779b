//! Decoding of the legacy "server list ping" reply.
//!
//! A reply starts with the marker byte `0xFF` and a big-endian length,
//! counted in UTF-16 code units. The payload is UTF-16 (big-endian) text
//! holding NUL-separated fields: a packet identifier that is discarded,
//! then protocol version, game version, message of the day, online player
//! count and player capacity. Fields missing from a short frame default to
//! an empty string or zero; a numeric field that is present but malformed
//! is an error.

use vstd::prelude::*;

verus! {

/// First byte of every server list ping reply.
pub const RESPONSE_MARKER: u8 = 0xFF;

/// Why a ping reply buffer failed to decode.
#[derive(Debug, Clone, Copy, PartialEq, Eq, Structural)]
pub enum DecodeError {
    /// The buffer held no bytes at all.
    EmptyBuffer,
    /// The buffer did not start with the expected marker and length, or was
    /// shorter than the length it announced.
    NotAServerResponse,
    /// The payload was not valid UTF-16: a surrogate code unit stood alone.
    EncodingError,
    /// A numeric field held something other than an unsigned decimal number
    /// that fits in 32 bits.
    NumericFieldError,
}

/// Metadata carried by a well-formed ping reply.
#[derive(Debug)]
pub struct ServerQueryResponse {
    pub protocol_version: u32,
    pub minecraft_version: String,
    pub motd: String,
    pub online_players: u32,
    pub max_players: u32,
}

/// Mathematical image of a `ServerQueryResponse`: strings as character
/// sequences.
#[verifier::ext_equal]
pub ghost struct ServerQueryView {
    pub protocol_version: u32,
    pub minecraft_version: Seq<char>,
    pub motd: Seq<char>,
    pub online_players: u32,
    pub max_players: u32,
}

impl View for ServerQueryResponse {
    type V = ServerQueryView;

    open spec fn view(&self) -> ServerQueryView {
        ServerQueryView {
            protocol_version: self.protocol_version,
            minecraft_version: self.minecraft_version@,
            motd: self.motd@,
            online_players: self.online_players,
            max_players: self.max_players,
        }
    }
}

// ---------------------------------------------------------------------
// Unsigned decimal parsing
// ---------------------------------------------------------------------

pub open spec fn is_ascii_digit(c: char) -> bool {
    '0' <= c && c <= '9'
}

pub open spec fn all_digits(s: Seq<char>) -> bool {
    forall|i: int| 0 <= i < s.len() ==> is_ascii_digit(#[trigger] s[i])
}

/// The number written by a digit string, most significant digit first.
pub open spec fn digits_value(s: Seq<char>) -> int
    decreases s.len(),
{
    if s.len() == 0 {
        0
    } else {
        digits_value(s.drop_last()) * 10 + (s.last() as int - '0' as int)
    }
}

/// What parsing a field as an unsigned 32-bit number yields: the digits'
/// value for a non-empty all-digit string whose value fits, nothing else.
pub open spec fn parse_u32(s: Seq<char>) -> Option<u32> {
    if s.len() > 0 && all_digits(s) && digits_value(s) <= u32::MAX {
        Some(digits_value(s) as u32)
    } else {
        None
    }
}

proof fn lemma_digits_value_nonneg(s: Seq<char>)
    requires
        all_digits(s),
    ensures
        digits_value(s) >= 0,
    decreases s.len(),
{
    if s.len() > 0 {
        assert(is_ascii_digit(s[s.len() - 1]));
        lemma_digits_value_nonneg(s.drop_last());
    }
}

/// A digit string is worth at least as much as any of its prefixes.
proof fn lemma_digits_value_prefix(s: Seq<char>, i: int)
    requires
        all_digits(s),
        0 <= i <= s.len(),
    ensures
        digits_value(s.take(i)) <= digits_value(s),
    decreases s.len() - i,
{
    if i < s.len() {
        let t = s.take(i + 1);
        assert(t.drop_last() =~= s.take(i));
        assert(all_digits(t)) by {
            assert(forall|j: int| 0 <= j < t.len() ==> t[j] == s[j]);
        }
        lemma_digits_value_nonneg(s.take(i));
        assert(is_ascii_digit(t.last()));
        assert(digits_value(s.take(i)) <= digits_value(t));
        lemma_digits_value_prefix(s, i + 1);
        assert(s.take(s.len() as int) =~= s);
    } else {
        assert(s.take(i) =~= s);
    }
}

/// Parse a segment as an unsigned decimal number.
pub fn parse_u32_digits(digits: &[char]) -> (r: Option<u32>)
    ensures
        r == parse_u32(digits@),
{
    if digits.len() == 0 {
        return None;
    }
    let mut acc: u32 = 0;
    let mut i: usize = 0;
    while i < digits.len()
        invariant
            0 < digits@.len(),
            i <= digits@.len(),
            all_digits(digits@.take(i as int)),
            acc == digits_value(digits@.take(i as int)),
        decreases digits@.len() - i,
    {
        let c = digits[i];
        if c < '0' || c > '9' {
            assert(!is_ascii_digit(digits@[i as int]));
            assert(!all_digits(digits@));
            return None;
        }
        let d: u32 = (c as u32) - 48;
        proof {
            assert(digits@.take(i + 1).drop_last() =~= digits@.take(i as int));
            assert(digits@.take(i + 1).last() == digits@[i as int]);
            assert(all_digits(digits@.take(i + 1)));
        }
        let scaled = match acc.checked_mul(10) {
            Some(v) => v,
            None => {
                proof {
                    lemma_digits_value_nonneg(digits@.take(i + 1));
                    if all_digits(digits@) {
                        lemma_digits_value_prefix(digits@, i + 1);
                    }
                }
                return None;
            },
        };
        let next = match scaled.checked_add(d) {
            Some(v) => v,
            None => {
                proof {
                    if all_digits(digits@) {
                        lemma_digits_value_prefix(digits@, i + 1);
                    }
                }
                return None;
            },
        };
        acc = next;
        i = i + 1;
    }
    proof {
        assert(digits@.take(digits@.len() as int) =~= digits@);
    }
    Some(acc)
}

// ---------------------------------------------------------------------
// UTF-16 decoding
// ---------------------------------------------------------------------

pub open spec fn is_high_surrogate(u: u16) -> bool {
    0xD800 <= u && u < 0xDC00
}

pub open spec fn is_low_surrogate(u: u16) -> bool {
    0xDC00 <= u && u < 0xE000
}

/// The scalar value written by a surrogate pair.
pub open spec fn surrogate_scalar(hi: u16, lo: u16) -> int {
    0x10000 + (hi - 0xD800) * 0x400 + (lo - 0xDC00)
}

/// The characters encoded by a sequence of UTF-16 code units, or nothing
/// if a surrogate code unit stands alone or a pair is incomplete.
pub open spec fn utf16_chars(units: Seq<u16>) -> Option<Seq<char>>
    decreases units.len(),
{
    if units.len() == 0 {
        Some(Seq::<char>::empty())
    } else if !is_high_surrogate(units[0]) && !is_low_surrogate(units[0]) {
        match utf16_chars(units.drop_first()) {
            Some(rest) => Some(seq![units[0] as char] + rest),
            None => None,
        }
    } else if is_high_surrogate(units[0]) && units.len() >= 2 && is_low_surrogate(units[1]) {
        match utf16_chars(units.skip(2)) {
            Some(rest) => Some(seq![surrogate_scalar(units[0], units[1]) as char] + rest),
            None => None,
        }
    } else {
        None
    }
}

/// Relies on `char::from_u32` of std: it returns a character exactly for
/// unicode scalar values (below the surrogate range, or between it and
/// 0x10FFFF), and the character returned carries that value.
pub assume_specification[ char::from_u32 ](i: u32) -> (r: Option<char>)
    ensures
        r is Some <==> (i < 0xD800 || (0xE000 <= i && i <= 0x10FFFF)),
        r is Some ==> r->0 == i as char,
;

/// Decode UTF-16 code units into characters, pairing surrogates.
pub fn utf16_to_chars(units: &[u16]) -> (r: Option<Vec<char>>)
    ensures
        match r {
            Some(cs) => utf16_chars(units@) == Some(cs@),
            None => utf16_chars(units@) is None,
        },
{
    let mut out: Vec<char> = Vec::new();
    let mut i: usize = 0;
    proof {
        assert(units@.skip(0) =~= units@);
        match utf16_chars(units@) {
            Some(rest) => {
                assert(Seq::<char>::empty() + rest =~= rest);
            },
            None => {},
        }
    }
    while i < units.len()
        invariant
            i <= units@.len(),
            ({
                let tail = utf16_chars(units@.skip(i as int));
                utf16_chars(units@) == match tail {
                    Some(rest) => Some(out@ + rest),
                    None => None::<Seq<char>>,
                }
            }),
        decreases units@.len() - i,
    {
        let u = units[i];
        proof {
            assert(units@.skip(i as int)[0] == units@[i as int]);
        }
        if u < 0xD800 || u >= 0xE000 {
            let c = match char::from_u32(u as u32) {
                Some(c) => c,
                None => {
                    // unreachable: u is no surrogate, so it is a scalar
                    return None;
                },
            };
            let ghost out_prev = out@;
            out.push(c);
            proof {
                assert(units@.skip(i as int).drop_first() =~= units@.skip(i + 1));
                let tail = utf16_chars(units@.skip(i as int));
                let tail2 = utf16_chars(units@.skip(i + 1));
                if tail2 is Some {
                    assert(tail == Some(seq![units@[i as int] as char] + tail2->0));
                    assert(out_prev + tail->0 =~= out@ + tail2->0);
                }
            }
            i = i + 1;
        } else if u < 0xDC00 && i + 1 < units.len() && units[i + 1] >= 0xDC00 && units[i + 1]
            < 0xE000 {
            let lo = units[i + 1];
            proof {
                assert(units@.skip(i as int)[1] == units@[i + 1]);
            }
            let scalar: u32 = 0x10000 + ((u as u32) - 0xD800) * 0x400 + ((lo as u32) - 0xDC00);
            let c = match char::from_u32(scalar) {
                Some(c) => c,
                None => {
                    // unreachable: a paired surrogate value always lies
                    // between 0x10000 and 0x10FFFF
                    return None;
                },
            };
            let ghost out_prev = out@;
            out.push(c);
            proof {
                assert(units@.skip(i as int).skip(2) =~= units@.skip(i + 2));
                let tail = utf16_chars(units@.skip(i as int));
                let tail2 = utf16_chars(units@.skip(i + 2));
                if tail2 is Some {
                    assert(tail == Some(
                        seq![surrogate_scalar(units@[i as int], units@[i + 1]) as char]
                            + tail2->0,
                    ));
                    assert(out_prev + tail->0 =~= out@ + tail2->0);
                }
            }
            i = i + 2;
        } else {
            // a lone surrogate, or a high surrogate without a low one
            proof {
                assert(utf16_chars(units@.skip(i as int)) is None);
            }
            return None;
        }
    }
    proof {
        assert(units@.skip(units@.len() as int) =~= Seq::<u16>::empty());
        assert(out@ + Seq::<char>::empty() =~= out@);
    }
    Some(out)
}

// ---------------------------------------------------------------------
// Splitting the payload text on NUL characters
// ---------------------------------------------------------------------

/// The segments of `text` between NUL characters, in order. Like Rust's
/// `split`, a text without NUL is one segment, and a trailing NUL yields a
/// trailing empty segment; there is always at least one segment.
pub open spec fn split_at_nuls(text: Seq<char>) -> Seq<Seq<char>>
    decreases text.len(),
{
    if text.len() == 0 {
        seq![Seq::<char>::empty()]
    } else if text[0] == '\u{0}' {
        seq![Seq::<char>::empty()] + split_at_nuls(text.drop_first())
    } else {
        let rest = split_at_nuls(text.drop_first());
        seq![seq![text[0]] + rest[0]] + rest.skip(1)
    }
}

pub proof fn lemma_split_at_nuls_len(text: Seq<char>)
    ensures
        split_at_nuls(text).len() >= 1,
    decreases text.len(),
{
    if text.len() > 0 {
        lemma_split_at_nuls_len(text.drop_first());
    }
}

/// `segs` with `pre` glued onto the front of its first segment.
spec fn prepend_first(pre: Seq<char>, segs: Seq<Seq<char>>) -> Seq<Seq<char>> {
    seq![pre + segs[0]] + segs.skip(1)
}

/// Split the payload text on NUL characters.
pub fn split_nul_segments(text: &Vec<char>) -> (segs: Vec<Vec<char>>)
    ensures
        segs@.map_values(|s: Vec<char>| s@) == split_at_nuls(text@),
{
    let mut done: Vec<Vec<char>> = Vec::new();
    let mut cur: Vec<char> = Vec::new();
    let mut i: usize = 0;
    proof {
        assert(text@.skip(0) =~= text@);
        lemma_split_at_nuls_len(text@);
        assert(Seq::<char>::empty() + split_at_nuls(text@)[0] =~= split_at_nuls(text@)[0]);
        assert(prepend_first(cur@, split_at_nuls(text@)) =~= split_at_nuls(text@));
        assert(done@.map_values(|s: Vec<char>| s@) =~= Seq::<Seq<char>>::empty());
    }
    while i < text.len()
        invariant
            i <= text@.len(),
            split_at_nuls(text@) == done@.map_values(|s: Vec<char>| s@) + prepend_first(
                cur@,
                split_at_nuls(text@.skip(i as int)),
            ),
        decreases text@.len() - i,
    {
        let c = text[i];
        proof {
            assert(text@.skip(i as int)[0] == text@[i as int]);
            assert(text@.skip(i as int).drop_first() =~= text@.skip(i + 1));
            lemma_split_at_nuls_len(text@.skip(i + 1));
        }
        let ghost here = split_at_nuls(text@.skip(i as int));
        let ghost later = split_at_nuls(text@.skip(i + 1));
        if c == '\u{0}' {
            let ghost done_prev = done@;
            let ghost cur_prev = cur@;
            let finished = cur;
            cur = Vec::new();
            done.push(finished);
            proof {
                assert(here == seq![Seq::<char>::empty()] + later);
                assert(done@.map_values(|s: Vec<char>| s@) =~= done_prev.map_values(
                    |s: Vec<char>| s@,
                ).push(cur_prev));
                assert(prepend_first(cur_prev, here)[0] =~= cur_prev);
                assert(prepend_first(cur_prev, here).skip(1) =~= later);
                assert(Seq::<char>::empty() + later[0] =~= later[0]);
                assert(prepend_first(cur@, later) =~= later);
                assert(done_prev.map_values(|s: Vec<char>| s@) + prepend_first(cur_prev, here)
                    =~= done@.map_values(|s: Vec<char>| s@) + prepend_first(cur@, later));
            }
        } else {
            let ghost cur_prev = cur@;
            cur.push(c);
            proof {
                assert(here == seq![seq![text@[i as int]] + later[0]] + later.skip(1));
                assert(prepend_first(cur_prev, here).skip(1) =~= later.skip(1));
                assert(cur_prev + here[0] =~= cur@ + later[0]);
                assert(prepend_first(cur_prev, here) =~= prepend_first(cur@, later));
            }
        }
        i = i + 1;
    }
    let ghost done_prev = done@;
    let ghost cur_last = cur@;
    done.push(cur);
    proof {
        assert(text@.skip(text@.len() as int) =~= Seq::<char>::empty());
        let fin = split_at_nuls(text@.skip(text@.len() as int));
        assert(fin == seq![Seq::<char>::empty()]);
        assert(prepend_first(cur_last, fin) =~= seq![cur_last]);
        assert(done@.map_values(|s: Vec<char>| s@) =~= done_prev.map_values(|s: Vec<char>| s@)
            + seq![cur_last]);
    }
    done
}

// ---------------------------------------------------------------------
// Building strings from decoded characters
// ---------------------------------------------------------------------

/// Relies on `String::push` of std: it appends the given character to the
/// end of the string.
pub assume_specification[ String::push ](s: &mut String, ch: char)
    ensures
        final(s)@ == old(s)@.push(ch),
;

/// Collect characters into an owned string.
pub fn chars_to_string(chars: &[char]) -> (s: String)
    ensures
        s@ == chars@,
{
    let mut s = String::new();
    let mut i: usize = 0;
    while i < chars.len()
        invariant
            i <= chars@.len(),
            s@ == chars@.take(i as int),
        decreases chars@.len() - i,
    {
        s.push(chars[i]);
        proof {
            assert(chars@.take(i as int).push(chars@[i as int]) =~= chars@.take(i + 1));
        }
        i = i + 1;
    }
    proof {
        assert(chars@.take(chars@.len() as int) =~= chars@);
    }
    s
}

// ---------------------------------------------------------------------
// The frame and the whole decode
// ---------------------------------------------------------------------

/// The payload length a frame announces, in UTF-16 code units.
pub open spec fn frame_len(bytes: Seq<u8>) -> int
    recommends
        bytes.len() >= 3,
{
    bytes[1] * 256 + bytes[2]
}

/// The payload code units of a frame, read big-endian.
pub open spec fn frame_units(bytes: Seq<u8>) -> Seq<u16>
    recommends
        bytes.len() >= 3 + 2 * frame_len(bytes),
{
    Seq::new(frame_len(bytes) as nat, |i: int| (bytes[3 + 2 * i] * 256 + bytes[4 + 2 * i]) as u16)
}

/// The `i`th segment, or the empty string where the frame had none.
pub open spec fn segment_or_empty(segs: Seq<Seq<char>>, i: int) -> Seq<char> {
    if i < segs.len() {
        segs[i]
    } else {
        Seq::<char>::empty()
    }
}

/// The `i`th segment parsed as a number, or zero where the frame had none.
pub open spec fn numeric_segment(segs: Seq<Seq<char>>, i: int) -> Option<u32> {
    if i < segs.len() {
        parse_u32(segs[i])
    } else {
        Some(0u32)
    }
}

/// The response assembled from the payload's segments. The first segment
/// is the packet identifier and is discarded; the next five map to the
/// fields in order.
pub open spec fn response_of_segments(segs: Seq<Seq<char>>) -> Result<
    ServerQueryView,
    DecodeError,
> {
    if numeric_segment(segs, 1) is None || numeric_segment(segs, 4) is None || numeric_segment(
        segs,
        5,
    ) is None {
        Err(DecodeError::NumericFieldError)
    } else {
        Ok(
            (ServerQueryView {
                protocol_version: numeric_segment(segs, 1)->0,
                minecraft_version: segment_or_empty(segs, 2),
                motd: segment_or_empty(segs, 3),
                online_players: numeric_segment(segs, 4)->0,
                max_players: numeric_segment(segs, 5)->0,
            }),
        )
    }
}

/// What decoding a reply buffer yields, field for field.
pub open spec fn decode_spec(bytes: Seq<u8>) -> Result<ServerQueryView, DecodeError> {
    if bytes.len() == 0 {
        Err(DecodeError::EmptyBuffer)
    } else if bytes[0] != RESPONSE_MARKER {
        Err(DecodeError::NotAServerResponse)
    } else if bytes.len() < 3 {
        Err(DecodeError::NotAServerResponse)
    } else if bytes.len() < 3 + 2 * frame_len(bytes) {
        Err(DecodeError::NotAServerResponse)
    } else {
        match utf16_chars(frame_units(bytes)) {
            None => Err(DecodeError::EncodingError),
            Some(text) => response_of_segments(split_at_nuls(text)),
        }
    }
}

/// The `i`th segment parsed as a number, zero for a missing segment.
fn numeric_field(segs: &Vec<Vec<char>>, i: usize) -> (r: Option<u32>)
    ensures
        r == numeric_segment(segs@.map_values(|s: Vec<char>| s@), i as int),
{
    if i < segs.len() {
        parse_u32_digits(segs[i].as_slice())
    } else {
        Some(0)
    }
}

/// The `i`th segment as an owned string, empty for a missing segment.
fn string_field(segs: &Vec<Vec<char>>, i: usize) -> (r: String)
    ensures
        r@ == segment_or_empty(segs@.map_values(|s: Vec<char>| s@), i as int),
{
    if i < segs.len() {
        chars_to_string(segs[i].as_slice())
    } else {
        String::new()
    }
}

impl ServerQueryResponse {
    /// Decode a reply buffer into server metadata, or say why it is not
    /// one. The result is `decode_spec` of the buffer, error for error.
    pub fn read(buf: &[u8]) -> (r: Result<ServerQueryResponse, DecodeError>)
        ensures
            match r {
                Ok(resp) => decode_spec(buf@) == Ok::<ServerQueryView, DecodeError>(resp@),
                Err(e) => decode_spec(buf@) == Err::<ServerQueryView, DecodeError>(e),
            },
    {
        if buf.len() == 0 {
            return Err(DecodeError::EmptyBuffer);
        }
        if buf[0] != RESPONSE_MARKER {
            return Err(DecodeError::NotAServerResponse);
        }
        if buf.len() < 3 {
            return Err(DecodeError::NotAServerResponse);
        }
        let n: usize = (buf[1] as usize) * 256 + (buf[2] as usize);
        if buf.len() < 3 + 2 * n {
            return Err(DecodeError::NotAServerResponse);
        }
        let mut units: Vec<u16> = Vec::new();
        let mut i: usize = 0;
        while i < n
            invariant
                i <= n,
                n == frame_len(buf@),
                buf@.len() >= 3 + 2 * n,
                units@.len() == i,
                forall|j: int| 0 <= j < i ==> units@[j] == frame_units(buf@)[j],
            decreases n - i,
        {
            let hi = buf[3 + 2 * i];
            let lo = buf[4 + 2 * i];
            units.push((hi as u16) * 256 + (lo as u16));
            i = i + 1;
        }
        proof {
            assert(units@ =~= frame_units(buf@));
        }
        let text = match utf16_to_chars(units.as_slice()) {
            Some(text) => text,
            None => {
                return Err(DecodeError::EncodingError);
            },
        };
        let segs = split_nul_segments(&text);
        let ghost seg_views = segs@.map_values(|s: Vec<char>| s@);
        let protocol_version = match numeric_field(&segs, 1) {
            Some(v) => v,
            None => {
                return Err(DecodeError::NumericFieldError);
            },
        };
        let online_players = match numeric_field(&segs, 4) {
            Some(v) => v,
            None => {
                return Err(DecodeError::NumericFieldError);
            },
        };
        let max_players = match numeric_field(&segs, 5) {
            Some(v) => v,
            None => {
                return Err(DecodeError::NumericFieldError);
            },
        };
        let resp = ServerQueryResponse {
            protocol_version,
            minecraft_version: string_field(&segs, 2),
            motd: string_field(&segs, 3),
            online_players,
            max_players,
        };
        proof {
            assert(response_of_segments(seg_views) == Ok::<ServerQueryView, DecodeError>(resp@))
                by {
                assert(resp@ =~= response_of_segments(seg_views)->Ok_0);
            }
        }
        Ok(resp)
    }
}

// ---------------------------------------------------------------------
// Decoding laws
// ---------------------------------------------------------------------

/// A buffer too short to carry the marker and announced length never
/// decodes: it is rejected as empty or as no server response at all.
pub proof fn lemma_short_buffer_rejected(bytes: Seq<u8>)
    requires
        bytes.len() < 3,
    ensures
        decode_spec(bytes) == Err::<ServerQueryView, DecodeError>(DecodeError::EmptyBuffer)
            || decode_spec(bytes) == Err::<ServerQueryView, DecodeError>(
            DecodeError::NotAServerResponse,
        ),
        bytes.len() == 0 <==> decode_spec(bytes) == Err::<ServerQueryView, DecodeError>(
            DecodeError::EmptyBuffer,
        ),
{
}

/// A well-formed frame whose payload has at least five fields after the
/// discarded packet identifier decodes with every field taken from its
/// segment, the numeric ones parsed.
pub proof fn lemma_full_frame_fields(bytes: Seq<u8>, text: Seq<char>)
    requires
        bytes.len() >= 3,
        bytes[0] == RESPONSE_MARKER,
        bytes.len() >= 3 + 2 * frame_len(bytes),
        utf16_chars(frame_units(bytes)) == Some(text),
        split_at_nuls(text).len() >= 6,
        parse_u32(split_at_nuls(text)[1]) is Some,
        parse_u32(split_at_nuls(text)[4]) is Some,
        parse_u32(split_at_nuls(text)[5]) is Some,
    ensures
        decode_spec(bytes) == Ok::<ServerQueryView, DecodeError>(
            (ServerQueryView {
                protocol_version: parse_u32(split_at_nuls(text)[1])->0,
                minecraft_version: split_at_nuls(text)[2],
                motd: split_at_nuls(text)[3],
                online_players: parse_u32(split_at_nuls(text)[4])->0,
                max_players: parse_u32(split_at_nuls(text)[5])->0,
            }),
        ),
{
}

/// A well-formed frame with fewer than five fields after the packet
/// identifier still decodes; the missing fields are empty or zero.
pub proof fn lemma_partial_frame_defaults(bytes: Seq<u8>, text: Seq<char>)
    requires
        bytes.len() >= 3,
        bytes[0] == RESPONSE_MARKER,
        bytes.len() >= 3 + 2 * frame_len(bytes),
        utf16_chars(frame_units(bytes)) == Some(text),
        split_at_nuls(text).len() <= 5,
        split_at_nuls(text).len() > 1 ==> parse_u32(split_at_nuls(text)[1]) is Some,
        split_at_nuls(text).len() > 4 ==> parse_u32(split_at_nuls(text)[4]) is Some,
    ensures
        decode_spec(bytes) is Ok,
        decode_spec(bytes)->Ok_0.max_players == 0,
        split_at_nuls(text).len() <= 4 ==> decode_spec(bytes)->Ok_0.online_players == 0,
        split_at_nuls(text).len() <= 3 ==> decode_spec(bytes)->Ok_0.motd
            == Seq::<char>::empty(),
        split_at_nuls(text).len() <= 2 ==> decode_spec(bytes)->Ok_0.minecraft_version
            == Seq::<char>::empty(),
        split_at_nuls(text).len() <= 1 ==> decode_spec(bytes)->Ok_0.protocol_version == 0,
{
}

} // verus!
