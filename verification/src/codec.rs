//! Byte encoding of the protocol messages.
//!
//! Every message is framed as an 8-byte little-endian payload length followed
//! by the payload itself. A payload starts with a one-byte variant tag; a
//! string field is an 8-byte character count followed by one 4-byte
//! little-endian Unicode scalar per character; a byte field is an 8-byte
//! length followed by the bytes. The format is self-delimiting, so messages
//! can be cut out of a stream of concatenated encodings, and it loses
//! nothing: decoding an encoding yields the original message
//! ([`lemma_decode_of_encoding`]).

use vstd::bytes::*;
use vstd::prelude::*;
use vstd::utf8::is_scalar;

use crate::MsgView;
use crate::NetworkError;
use crate::NetworkMessage;

verus! {

/// The bytes of one character on the wire: its scalar value, little-endian.
pub open spec fn encoded_char(c: char) -> Seq<u8> {
    spec_u32_to_le_bytes(c as u32)
}

/// The bytes of a string's characters, in order.
pub open spec fn encoded_chars(s: Seq<char>) -> Seq<u8>
    decreases s.len(),
{
    if s.len() == 0 {
        Seq::empty()
    } else {
        encoded_char(s[0]) + encoded_chars(s.drop_first())
    }
}

/// The bytes of a string field: character count, then the characters.
pub open spec fn encoded_string(s: Seq<char>) -> Seq<u8> {
    spec_u64_to_le_bytes(s.len() as u64) + encoded_chars(s)
}

/// The bytes of a byte field: length, then the bytes.
pub open spec fn encoded_bytes(b: Seq<u8>) -> Seq<u8> {
    spec_u64_to_le_bytes(b.len() as u64) + b
}

/// The payload of a message: a variant tag followed by the variant's field,
/// if it has one.
pub open spec fn payload_of(m: MsgView) -> Seq<u8> {
    match m {
        MsgView::Null => seq![0u8],
        MsgView::Success => seq![1u8],
        MsgView::Shutdown => seq![2u8],
        MsgView::Error(NetworkError::ClientAlreadyConnected) => seq![3u8, 0u8],
        MsgView::Error(NetworkError::Unknown) => seq![3u8, 1u8],
        MsgView::NewSession(s) => seq![4u8] + encoded_string(s),
        MsgView::ClientConnected => seq![5u8],
        MsgView::EndSession => seq![6u8],
        MsgView::Data(s) => seq![7u8] + encoded_string(s),
        MsgView::RawData(b) => seq![8u8] + encoded_bytes(b),
    }
}

/// A message whose payload is small enough for the length-prefixed frame.
/// Every message that exists at run time is well formed; the bound matters
/// only for the spec-level statements, which range over arbitrary sequences.
pub open spec fn wf_msg(m: MsgView) -> bool {
    payload_of(m).len() <= u64::MAX
}

/// The full wire encoding of a message: payload length, then payload.
pub open spec fn encoding_of(m: MsgView) -> Seq<u8> {
    spec_u64_to_le_bytes(payload_of(m).len() as u64) + payload_of(m)
}

/// Result of trying to cut one message out of the front of a byte buffer.
pub enum Decoded {
    /// A whole message was present; the `usize` is how many bytes of the
    /// buffer its encoding occupied.
    Message(NetworkMessage, usize),
    /// The buffer holds a prefix of an encoding; more bytes are needed.
    NeedMore,
    /// The buffer cannot be the start of any encoding.
    Malformed,
}

/// Spec-level counterpart of [`Decoded`].
pub enum SpecDecoded {
    Message(MsgView, int),
    NeedMore,
    Malformed,
}

/// Spec-level parse of `n` characters from `b`; succeeds only if `b` is
/// exactly the character bytes.
pub open spec fn parse_chars(b: Seq<u8>, n: nat) -> Option<Seq<char>>
    decreases n,
{
    if n == 0 {
        if b.len() == 0 {
            Some(Seq::empty())
        } else {
            None
        }
    } else if b.len() < 4 {
        None
    } else {
        let u = spec_u32_from_le_bytes(b.take(4));
        if is_scalar(u) {
            match parse_chars(b.skip(4), (n - 1) as nat) {
                Some(rest) => Some(seq![u as char] + rest),
                None => None,
            }
        } else {
            None
        }
    }
}

/// Spec-level parse of a whole string field; succeeds only if `b` is exactly
/// one encoded string.
pub open spec fn parse_string_exact(b: Seq<u8>) -> Option<Seq<char>> {
    if b.len() < 8 {
        None
    } else {
        let n = spec_u64_from_le_bytes(b.take(8));
        parse_chars(b.skip(8), n as nat)
    }
}

/// Spec-level parse of a whole byte field; succeeds only if `b` is exactly
/// one encoded byte string.
pub open spec fn parse_bytes_exact(b: Seq<u8>) -> Option<Seq<u8>> {
    if b.len() < 8 {
        None
    } else {
        let n = spec_u64_from_le_bytes(b.take(8));
        if b.len() - 8 == n {
            Some(b.skip(8))
        } else {
            None
        }
    }
}

/// Spec-level parse of a whole payload; succeeds only if `p` is exactly one
/// message payload.
pub open spec fn parse_payload(p: Seq<u8>) -> Option<MsgView> {
    if p.len() < 1 {
        None
    } else {
        let tag = p[0];
        let rest = p.skip(1);
        if tag == 0 {
            if rest.len() == 0 {
                Some(MsgView::Null)
            } else {
                None
            }
        } else if tag == 1 {
            if rest.len() == 0 {
                Some(MsgView::Success)
            } else {
                None
            }
        } else if tag == 2 {
            if rest.len() == 0 {
                Some(MsgView::Shutdown)
            } else {
                None
            }
        } else if tag == 3 {
            if rest.len() == 1 && rest[0] == 0 {
                Some(MsgView::Error(NetworkError::ClientAlreadyConnected))
            } else if rest.len() == 1 && rest[0] == 1 {
                Some(MsgView::Error(NetworkError::Unknown))
            } else {
                None
            }
        } else if tag == 4 {
            match parse_string_exact(rest) {
                Some(s) => Some(MsgView::NewSession(s)),
                None => None,
            }
        } else if tag == 5 {
            if rest.len() == 0 {
                Some(MsgView::ClientConnected)
            } else {
                None
            }
        } else if tag == 6 {
            if rest.len() == 0 {
                Some(MsgView::EndSession)
            } else {
                None
            }
        } else if tag == 7 {
            match parse_string_exact(rest) {
                Some(s) => Some(MsgView::Data(s)),
                None => None,
            }
        } else if tag == 8 {
            match parse_bytes_exact(rest) {
                Some(b) => Some(MsgView::RawData(b)),
                None => None,
            }
        } else {
            None
        }
    }
}

/// Spec-level decoding of the front of a buffer: the frame length decides how
/// many bytes belong to the message; the payload must parse exactly.
pub open spec fn spec_decode(b: Seq<u8>) -> SpecDecoded {
    if b.len() < 8 {
        SpecDecoded::NeedMore
    } else {
        let n = spec_u64_from_le_bytes(b.take(8));
        if b.len() - 8 < n {
            SpecDecoded::NeedMore
        } else {
            match parse_payload(b.subrange(8, 8 + n)) {
                Some(m) => SpecDecoded::Message(m, 8 + n),
                None => SpecDecoded::Malformed,
            }
        }
    }
}

/// Splitting a character sequence splits its encoding.
pub proof fn lemma_encoded_chars_concat(a: Seq<char>, b: Seq<char>)
    ensures
        encoded_chars(a + b) == encoded_chars(a) + encoded_chars(b),
    decreases a.len(),
{
    if a.len() == 0 {
        assert(a + b =~= b);
        assert(encoded_chars(a) + encoded_chars(b) =~= encoded_chars(b));
    } else {
        assert((a + b).drop_first() =~= a.drop_first() + b);
        lemma_encoded_chars_concat(a.drop_first(), b);
        assert(encoded_chars(a + b) =~= encoded_chars(a) + encoded_chars(b));
    }
}

/// A single character's encoding is that character's four bytes.
pub proof fn lemma_encoded_chars_singleton(c: char)
    ensures
        encoded_chars(seq![c]) == encoded_char(c),
{
    assert(seq![c].drop_first() =~= Seq::<char>::empty());
    assert(encoded_chars(Seq::<char>::empty()) == Seq::<u8>::empty());
    assert(encoded_chars(seq![c]) =~= encoded_char(c));
}

/// Each character occupies exactly four bytes on the wire.
pub proof fn lemma_encoded_chars_len(s: Seq<char>)
    ensures
        encoded_chars(s).len() == 4 * s.len(),
    decreases s.len(),
{
    vstd::bytes::lemma_auto_spec_u32_to_from_le_bytes();
    if s.len() > 0 {
        lemma_encoded_chars_len(s.drop_first());
    }
}

/// Appends the bytes of `src` to `dst`.
pub(crate) fn push_bytes(dst: &mut Vec<u8>, src: &[u8])
    ensures
        final(dst)@ == old(dst)@ + src@,
{
    let ghost dst0 = dst@;
    let mut i: usize = 0;
    while i < src.len()
        invariant
            i <= src@.len(),
            dst@ == dst0 + src@.take(i as int),
        decreases src@.len() - i,
    {
        dst.push(src[i]);
        proof {
            assert(dst0 + src@.take(i as int) + seq![src@[i as int]] =~= dst0 + src@.take(
                i as int + 1,
            ));
        }
        i = i + 1;
    }
    proof {
        assert(src@.take(src@.len() as int) =~= src@);
    }
}

/// Appends the wire form of the string `s` to `dst`.
fn encode_string_into(dst: &mut Vec<u8>, s: &str)
    ensures
        final(dst)@ == old(dst)@ + encoded_string(s@),
{
    let n = s.unicode_len();
    let ghost dst0 = dst@;
    let mut lenb = u64_to_le_bytes(n as u64);
    dst.append(&mut lenb);
    let mut i: usize = 0;
    while i < n
        invariant
            n == s@.len(),
            i <= n,
            dst@ == dst0 + spec_u64_to_le_bytes(n as u64) + encoded_chars(s@.take(i as int)),
        decreases n - i,
    {
        let c = s.get_char(i);
        let mut cb = u32_to_le_bytes(c as u32);
        dst.append(&mut cb);
        proof {
            assert(s@.take(i as int + 1) =~= s@.take(i as int) + seq![s@[i as int]]);
            lemma_encoded_chars_concat(s@.take(i as int), seq![s@[i as int]]);
            lemma_encoded_chars_singleton(s@[i as int]);
        }
        i = i + 1;
    }
    proof {
        assert(s@.take(n as int) =~= s@);
        assert(dst0 + spec_u64_to_le_bytes(n as u64) + encoded_chars(s@) =~= dst0 + encoded_string(
            s@,
        ));
    }
}

/// The payload bytes of a message.
fn encode_payload(m: &NetworkMessage) -> (p: Vec<u8>)
    ensures
        p@ == payload_of(m@),
{
    let mut p: Vec<u8> = Vec::new();
    match m {
        NetworkMessage::Null => {
            p.push(0u8);
            proof {
                assert(p@ =~= payload_of(m@));
            }
        },
        NetworkMessage::Success => {
            p.push(1u8);
            proof {
                assert(p@ =~= payload_of(m@));
            }
        },
        NetworkMessage::Shutdown => {
            p.push(2u8);
            proof {
                assert(p@ =~= payload_of(m@));
            }
        },
        NetworkMessage::Error(e) => {
            p.push(3u8);
            match e {
                NetworkError::ClientAlreadyConnected => p.push(0u8),
                NetworkError::Unknown => p.push(1u8),
            }
            proof {
                assert(p@ =~= payload_of(m@));
            }
        },
        NetworkMessage::NewSession(s) => {
            p.push(4u8);
            encode_string_into(&mut p, s.as_str());
            proof {
                assert(p@ =~= payload_of(m@));
            }
        },
        NetworkMessage::ClientConnected => {
            p.push(5u8);
            proof {
                assert(p@ =~= payload_of(m@));
            }
        },
        NetworkMessage::EndSession => {
            p.push(6u8);
            proof {
                assert(p@ =~= payload_of(m@));
            }
        },
        NetworkMessage::Data(s) => {
            p.push(7u8);
            encode_string_into(&mut p, s.as_str());
            proof {
                assert(p@ =~= payload_of(m@));
            }
        },
        NetworkMessage::RawData(b) => {
            p.push(8u8);
            let mut lenb = u64_to_le_bytes(b.len() as u64);
            p.append(&mut lenb);
            push_bytes(&mut p, b.as_slice());
            proof {
                assert(p@ =~= payload_of(m@));
            }
        },
    }
    p
}

/// Relies on `char::from_u32` of std: it returns `Some` exactly for Unicode
/// scalar values, and the returned character has the argument as its scalar
/// value.
#[verifier::external_body]
fn char_from_u32(v: u32) -> (r: Option<char>)
    ensures
        r is Some <==> is_scalar(v),
        r matches Some(c) ==> c as u32 == v,
{
    char::from_u32(v)
}

/// Relies on `String::push` of std: it appends the given character.
#[verifier::external_body]
fn push_char(s: &mut String, c: char)
    ensures
        final(s)@ == old(s)@.push(c),
{
    s.push(c);
}

/// The full wire encoding of a message.
pub fn encode(m: &NetworkMessage) -> (r: Vec<u8>)
    ensures
        r@ == encoding_of(m@),
        wf_msg(m@),
{
    let mut p = encode_payload(m);
    let mut r = u64_to_le_bytes(p.len() as u64);
    r.append(&mut p);
    r
}

/// A successful character parse consumes exactly four bytes per character.
proof fn lemma_parse_chars_some_len(b: Seq<u8>, n: nat)
    requires
        parse_chars(b, n) is Some,
    ensures
        b.len() == 4 * n,
    decreases n,
{
    if n > 0 {
        lemma_parse_chars_some_len(b.skip(4), (n - 1) as nat);
    }
}

/// Reads one encoded string that must span the whole of `b`.
fn parse_string_exec(b: &[u8]) -> (r: Option<String>)
    ensures
        match r {
            Some(s) => parse_string_exact(b@) == Some(s@),
            None => parse_string_exact(b@) is None,
        },
{
    if b.len() < 8 {
        return None;
    }
    let n64 = u64_from_le_bytes(vstd::slice::slice_subrange(b, 0, 8));
    proof {
        assert(b@.take(8) =~= b@.subrange(0, 8));
    }
    let rest_len = b.len() - 8;
    if rest_len % 4 != 0 || (rest_len / 4) as u64 != n64 {
        proof {
            if parse_chars(b@.skip(8), n64 as nat) is Some {
                lemma_parse_chars_some_len(b@.skip(8), n64 as nat);
                vstd::arithmetic::div_mod::lemma_fundamental_div_mod(rest_len as int, 4);
            }
        }
        return None;
    }
    let n = rest_len / 4;
    proof {
        vstd::arithmetic::div_mod::lemma_fundamental_div_mod(rest_len as int, 4);
    }
    let ghost cb = b@.skip(8);
    let mut s = String::new();
    let mut i: usize = 0;
    proof {
        assert(cb.skip(0) =~= cb);
        match parse_chars(cb, n as nat) {
            Some(t) => {
                assert(Seq::<char>::empty() + t =~= t);
            },
            None => {},
        }
    }
    while i < n
        invariant
            i <= n,
            b@.len() == 8 + 4 * n,
            b@.len() <= usize::MAX,
            cb == b@.skip(8),
            n as u64 == spec_u64_from_le_bytes(b@.take(8)),
            match parse_chars(cb.skip(4 * (i as int)), (n - i) as nat) {
                Some(t) => parse_chars(cb, n as nat) == Some(s@ + t),
                None => parse_chars(cb, n as nat) is None,
            },
        decreases n - i,
    {
        let u = u32_from_le_bytes(vstd::slice::slice_subrange(b, 8 + 4 * i, 8 + 4 * i + 4));
        proof {
            assert(cb.skip(4 * (i as int)).take(4) =~= b@.subrange(
                8 + 4 * (i as int),
                8 + 4 * (i as int) + 4,
            ));
        }
        match char_from_u32(u) {
            None => {
                return None;
            },
            Some(c) => {
                push_char(&mut s, c);
                proof {
                    vstd::utf8::char_u32_cast(c, u);
                    assert(cb.skip(4 * (i as int + 1)) =~= cb.skip(4 * (i as int)).skip(4));
                    match parse_chars(cb.skip(4 * (i as int + 1)), (n - i - 1) as nat) {
                        Some(t2) => {
                            assert(parse_chars(cb.skip(4 * (i as int)), (n - i) as nat) == Some(
                                seq![c] + t2,
                            ));
                            assert((s@ + (seq![c] + t2)).drop_last() + seq![(s@ + (seq![c]
                                + t2)).last()] =~= s@ + (seq![c] + t2));
                            assert(s@ + (seq![c] + t2) =~= s@.push(c) + t2);
                        },
                        None => {},
                    }
                }
                i = i + 1;
            },
        }
    }
    proof {
        assert(cb.skip(4 * (n as int)).len() == 0);
        assert(s@ + Seq::<char>::empty() =~= s@);
    }
    Some(s)
}

/// Reads one encoded byte string that must span the whole of `b`.
fn parse_bytes_exec(b: &[u8]) -> (r: Option<Vec<u8>>)
    ensures
        match r {
            Some(v) => parse_bytes_exact(b@) == Some(v@),
            None => parse_bytes_exact(b@) is None,
        },
{
    if b.len() < 8 {
        return None;
    }
    let n64 = u64_from_le_bytes(vstd::slice::slice_subrange(b, 0, 8));
    proof {
        assert(b@.take(8) =~= b@.subrange(0, 8));
    }
    let rest_len = b.len() - 8;
    if rest_len as u64 != n64 {
        return None;
    }
    let v = vstd::slice::slice_to_vec(vstd::slice::slice_subrange(b, 8, b.len()));
    proof {
        assert(b@.subrange(8, b@.len() as int) =~= b@.skip(8));
    }
    Some(v)
}

/// Reads one message payload that must span the whole of `p`.
fn parse_payload_exec(p: &[u8]) -> (r: Option<NetworkMessage>)
    ensures
        match r {
            Some(m) => parse_payload(p@) == Some(m@),
            None => parse_payload(p@) is None,
        },
{
    if p.len() < 1 {
        return None;
    }
    let tag = p[0];
    proof {
        assert(p@.skip(1).len() == p@.len() - 1);
    }
    if tag == 0 {
        if p.len() == 1 {
            Some(NetworkMessage::Null)
        } else {
            None
        }
    } else if tag == 1 {
        if p.len() == 1 {
            Some(NetworkMessage::Success)
        } else {
            None
        }
    } else if tag == 2 {
        if p.len() == 1 {
            Some(NetworkMessage::Shutdown)
        } else {
            None
        }
    } else if tag == 3 {
        if p.len() == 2 && p[1] == 0 {
            proof {
                assert(p@.skip(1)[0] == p@[1]);
            }
            Some(NetworkMessage::Error(NetworkError::ClientAlreadyConnected))
        } else if p.len() == 2 && p[1] == 1 {
            proof {
                assert(p@.skip(1)[0] == p@[1]);
            }
            Some(NetworkMessage::Error(NetworkError::Unknown))
        } else {
            proof {
                if p@.len() == 2 {
                    assert(p@.skip(1)[0] == p@[1]);
                }
            }
            None
        }
    } else if tag == 4 {
        let rest = vstd::slice::slice_subrange(p, 1, p.len());
        proof {
            assert(rest@ =~= p@.skip(1));
        }
        match parse_string_exec(rest) {
            Some(s) => Some(NetworkMessage::NewSession(s)),
            None => None,
        }
    } else if tag == 5 {
        if p.len() == 1 {
            Some(NetworkMessage::ClientConnected)
        } else {
            None
        }
    } else if tag == 6 {
        if p.len() == 1 {
            Some(NetworkMessage::EndSession)
        } else {
            None
        }
    } else if tag == 7 {
        let rest = vstd::slice::slice_subrange(p, 1, p.len());
        proof {
            assert(rest@ =~= p@.skip(1));
        }
        match parse_string_exec(rest) {
            Some(s) => Some(NetworkMessage::Data(s)),
            None => None,
        }
    } else if tag == 8 {
        let rest = vstd::slice::slice_subrange(p, 1, p.len());
        proof {
            assert(rest@ =~= p@.skip(1));
        }
        match parse_bytes_exec(rest) {
            Some(v) => Some(NetworkMessage::RawData(v)),
            None => None,
        }
    } else {
        None
    }
}

/// Tries to cut one message out of the front of `buf`; behaves exactly as
/// [`spec_decode`] on the buffer's bytes.
pub fn decode_prefix(buf: &[u8]) -> (r: Decoded)
    ensures
        r is NeedMore <==> spec_decode(buf@) is NeedMore,
        r is Malformed <==> spec_decode(buf@) is Malformed,
        r matches Decoded::Message(m, n) ==> spec_decode(buf@) == SpecDecoded::Message(
            m@,
            n as int,
        ),
{
    if buf.len() < 8 {
        return Decoded::NeedMore;
    }
    let n64 = u64_from_le_bytes(vstd::slice::slice_subrange(buf, 0, 8));
    proof {
        assert(buf@.take(8) =~= buf@.subrange(0, 8));
    }
    let avail = buf.len() - 8;
    if (avail as u64) < n64 {
        return Decoded::NeedMore;
    }
    let n = n64 as usize;
    let payload = vstd::slice::slice_subrange(buf, 8, 8 + n);
    match parse_payload_exec(payload) {
        Some(m) => Decoded::Message(m, 8 + n),
        None => Decoded::Malformed,
    }
}

/// The concatenated encodings of a run of messages, in order.
pub open spec fn encodings_of(ms: Seq<MsgView>) -> Seq<u8>
    decreases ms.len(),
{
    if ms.len() == 0 {
        Seq::empty()
    } else {
        encoding_of(ms[0]) + encodings_of(ms.drop_first())
    }
}

/// Splitting a run of messages splits the concatenation of their encodings.
pub proof fn lemma_encodings_concat(a: Seq<MsgView>, b: Seq<MsgView>)
    ensures
        encodings_of(a + b) == encodings_of(a) + encodings_of(b),
    decreases a.len(),
{
    if a.len() == 0 {
        assert(a + b =~= b);
        assert(encodings_of(a) + encodings_of(b) =~= encodings_of(b));
    } else {
        assert((a + b).drop_first() =~= a.drop_first() + b);
        lemma_encodings_concat(a.drop_first(), b);
        assert(encodings_of(a + b) =~= encodings_of(a) + encodings_of(b));
    }
}

/// The concatenation for a single message is its encoding.
pub proof fn lemma_encodings_singleton(m: MsgView)
    ensures
        encodings_of(seq![m]) == encoding_of(m),
{
    assert(seq![m].drop_first() =~= Seq::<MsgView>::empty());
    assert(encodings_of(Seq::<MsgView>::empty()) == Seq::<u8>::empty());
    assert(encodings_of(seq![m]) =~= encoding_of(m));
}

/// A decoded frame never extends past the buffer.
pub proof fn lemma_spec_decode_len(b: Seq<u8>)
    ensures
        spec_decode(b) matches SpecDecoded::Message(_mv, n) ==> 8 <= n <= b.len(),
{
}

/// Parsing characters inverts encoding them.
pub proof fn lemma_parse_chars_of_encoded(s: Seq<char>)
    ensures
        parse_chars(encoded_chars(s), s.len()) == Some(s),
    decreases s.len(),
{
    vstd::bytes::lemma_auto_spec_u32_to_from_le_bytes();
    if s.len() > 0 {
        let c = s[0];
        lemma_encoded_chars_len(s.drop_first());
        assert(encoded_chars(s).take(4) =~= encoded_char(c));
        vstd::utf8::char_is_scalar(c);
        vstd::utf8::char_u32_cast(c, c as u32);
        assert(encoded_chars(s).skip(4) =~= encoded_chars(s.drop_first()));
        lemma_parse_chars_of_encoded(s.drop_first());
        assert(seq![c] + s.drop_first() =~= s);
    }
}

/// Parsing a string field inverts encoding it.
pub proof fn lemma_parse_string_of_encoded(s: Seq<char>)
    requires
        s.len() <= u64::MAX,
    ensures
        parse_string_exact(encoded_string(s)) == Some(s),
{
    vstd::bytes::lemma_auto_spec_u64_to_from_le_bytes();
    lemma_encoded_chars_len(s);
    let b = encoded_string(s);
    assert(b.take(8) =~= spec_u64_to_le_bytes(s.len() as u64));
    assert(b.skip(8) =~= encoded_chars(s));
    lemma_parse_chars_of_encoded(s);
}

/// Parsing a payload inverts building it.
pub proof fn lemma_parse_payload_of_payload(m: MsgView)
    requires
        wf_msg(m),
    ensures
        parse_payload(payload_of(m)) == Some(m),
{
    let p = payload_of(m);
    match m {
        MsgView::Null => {
            assert(p.skip(1) =~= Seq::<u8>::empty());
        },
        MsgView::Success => {
            assert(p.skip(1) =~= Seq::<u8>::empty());
        },
        MsgView::Shutdown => {
            assert(p.skip(1) =~= Seq::<u8>::empty());
        },
        MsgView::Error(NetworkError::ClientAlreadyConnected) => {
            assert(p.skip(1) =~= seq![0u8]);
        },
        MsgView::Error(NetworkError::Unknown) => {
            assert(p.skip(1) =~= seq![1u8]);
        },
        MsgView::NewSession(s) => {
            lemma_encoded_chars_len(s);
            assert(p.skip(1) =~= encoded_string(s));
            lemma_parse_string_of_encoded(s);
        },
        MsgView::ClientConnected => {
            assert(p.skip(1) =~= Seq::<u8>::empty());
        },
        MsgView::EndSession => {
            assert(p.skip(1) =~= Seq::<u8>::empty());
        },
        MsgView::Data(s) => {
            lemma_encoded_chars_len(s);
            assert(p.skip(1) =~= encoded_string(s));
            lemma_parse_string_of_encoded(s);
        },
        MsgView::RawData(b) => {
            vstd::bytes::lemma_auto_spec_u64_to_from_le_bytes();
            assert(p.skip(1) =~= encoded_bytes(b));
            assert(encoded_bytes(b).take(8) =~= spec_u64_to_le_bytes(b.len() as u64));
            assert(encoded_bytes(b).skip(8) =~= b);
        },
    }
}

/// The codec loses nothing: decoding the front of a buffer that starts with
/// the encoding of a message yields that message, whatever bytes follow it.
pub proof fn lemma_decode_of_encoding(m: MsgView, tail: Seq<u8>)
    requires
        wf_msg(m),
    ensures
        spec_decode(encoding_of(m) + tail) == SpecDecoded::Message(
            m,
            encoding_of(m).len() as int,
        ),
{
    vstd::bytes::lemma_auto_spec_u64_to_from_le_bytes();
    let p = payload_of(m);
    let b = encoding_of(m) + tail;
    assert(b.take(8) =~= spec_u64_to_le_bytes(p.len() as u64));
    assert(b.subrange(8, 8 + p.len() as int) =~= p);
    lemma_parse_payload_of_payload(m);
}

/// Round trip: decoding an encoding yields exactly the encoded message and
/// consumes exactly its encoding.
pub proof fn lemma_round_trip(m: MsgView)
    requires
        wf_msg(m),
    ensures
        spec_decode(encoding_of(m)) == SpecDecoded::Message(m, encoding_of(m).len() as int),
{
    lemma_decode_of_encoding(m, Seq::empty());
    assert(encoding_of(m) + Seq::<u8>::empty() =~= encoding_of(m));
}

} // verus!
