//! Announcements of the tracks that a publisher has, and requests for them.
//!
//! On the wire an announcement is a status byte (`1` when the track became
//! available, `0` when it ended) followed by the suffix string; a request is
//! the prefix string alone.

use crate::buffer::buffer_contents;
use crate::coding::{
    decode_string, decode_u8, encode_string, encode_u8, lemma_string_roundtrip,
    lemma_string_any_length_field, lemma_string_canonical, lemma_string_truncated, parse_varint,
    parse_string, parse_u8, string_bytes, string_failure_taken, DecodeError, VARINT_LIMIT,
};
use bytes::BytesMut;
use vstd::prelude::*;
use vstd::utf8::encode_utf8;

verus! {

/// Sent by the publisher to announce the availability of a track.
/// The payload contains the contents of the wildcard.
#[derive(Clone, Debug, PartialEq, Eq)]
pub enum Announce {
    Active { suffix: String },
    Ended { suffix: String },
}

/// What an [`Announce`] says: whether the track is active, and its suffix.
pub enum AnnounceView {
    Active { suffix: Seq<char> },
    Ended { suffix: Seq<char> },
}

impl AnnounceView {
    /// The suffix that the announcement is about.
    pub open spec fn suffix(self) -> Seq<char> {
        match self {
            AnnounceView::Active { suffix } => suffix,
            AnnounceView::Ended { suffix } => suffix,
        }
    }

    /// The status that leads the announcement on the wire.
    pub open spec fn status(self) -> AnnounceStatus {
        match self {
            AnnounceView::Active { .. } => AnnounceStatus::Active,
            AnnounceView::Ended { .. } => AnnounceStatus::Ended,
        }
    }
}

impl View for Announce {
    type V = AnnounceView;

    open spec fn view(&self) -> AnnounceView {
        match self {
            Announce::Active { suffix } => AnnounceView::Active { suffix: suffix@ },
            Announce::Ended { suffix } => AnnounceView::Ended { suffix: suffix@ },
        }
    }
}

/// Sent by the publisher, used to determine the message that follows.
#[derive(Clone, Copy, Debug, PartialEq, Eq)]
pub enum AnnounceStatus {
    Ended,
    Active,
}

/// The byte that stands for a status on the wire.
pub open spec fn status_byte(status: AnnounceStatus) -> u8 {
    match status {
        AnnounceStatus::Ended => 0,
        AnnounceStatus::Active => 1,
    }
}

/// Decoding a status from the front of `s`.
pub open spec fn parse_status(s: Seq<u8>) -> Result<(AnnounceStatus, nat), DecodeError> {
    match parse_u8(s) {
        Err(e) => Err(e),
        Ok((b, k)) => if b == 0 {
            Ok((AnnounceStatus::Ended, k))
        } else if b == 1 {
            Ok((AnnounceStatus::Active, k))
        } else {
            Err(DecodeError::InvalidValue)
        },
    }
}

/// How many bytes a failing decode of a status takes from the front of `s`:
/// none when `s` is empty, else the one byte that was not a status.
pub open spec fn status_failure_taken(s: Seq<u8>) -> nat {
    if s.len() == 0 {
        0
    } else {
        1
    }
}

/// How many bytes a failing decode of an announcement takes from the front of
/// `s`: what the failing status took, or the status and what the failing
/// suffix took.
pub open spec fn announce_failure_taken(s: Seq<u8>) -> nat {
    match parse_status(s) {
        Err(_) => status_failure_taken(s),
        Ok((_, k)) => k + string_failure_taken(s.skip(k as int)),
    }
}

/// The bytes of an announcement.
pub open spec fn announce_bytes(a: AnnounceView) -> Seq<u8> {
    seq![status_byte(a.status())] + string_bytes(a.suffix())
}

/// Decoding an announcement from the front of `s`: what it says and the
/// number of bytes it took, or why it failed.
pub open spec fn parse_announce(s: Seq<u8>) -> Result<(AnnounceView, nat), DecodeError> {
    match parse_status(s) {
        Err(e) => Err(e),
        Ok((status, k)) => match parse_string(s.skip(k as int)) {
            Err(e) => Err(e),
            Ok((suffix, m)) => Ok(
                (
                    match status {
                        AnnounceStatus::Active => AnnounceView::Active { suffix },
                        AnnounceStatus::Ended => AnnounceView::Ended { suffix },
                    },
                    k + m,
                ),
            ),
        },
    }
}

/// Whether the suffix of an announcement can be written: its UTF-8 bytes are
/// fewer than 2^62 (and, as for any string in memory, fit in `usize`).
pub open spec fn encodable(suffix: Seq<char>) -> bool {
    encode_utf8(suffix).len() < VARINT_LIMIT && encode_utf8(suffix).len() <= usize::MAX
}

/// Decoding the bytes of an announcement, with anything after them, gives
/// back the same announcement and consumes exactly its bytes.
pub proof fn lemma_announce_roundtrip(a: AnnounceView, rest: Seq<u8>)
    requires
        encodable(a.suffix()),
    ensures
        parse_announce(announce_bytes(a) + rest) == Ok::<(AnnounceView, nat), DecodeError>(
            (a, announce_bytes(a).len()),
        ),
{
    let s = announce_bytes(a) + rest;
    lemma_string_roundtrip(a.suffix(), rest);
    assert(s.skip(1) =~= string_bytes(a.suffix()) + rest);
    match a {
        AnnounceView::Active { suffix } => {},
        AnnounceView::Ended { suffix } => {},
    }
}

/// Every proper prefix of the bytes of an announcement decodes as too short:
/// a reader that has not yet received a whole announcement is told to wait for
/// more, never handed a wrong one.
pub proof fn lemma_announce_truncated(a: AnnounceView, i: int)
    requires
        encodable(a.suffix()),
        0 <= i < announce_bytes(a).len(),
    ensures
        parse_announce(announce_bytes(a).take(i)) == Err::<(AnnounceView, nat), DecodeError>(
            DecodeError::Short,
        ),
{
    let t = announce_bytes(a).take(i);
    if i > 0 {
        assert(t[0] == status_byte(a.status()));
        assert(t.skip(1) =~= string_bytes(a.suffix()).take(i - 1));
        lemma_string_truncated(a.suffix(), i - 1);
    }
}

/// When an announcement was read in as many bytes as writing it takes (its
/// length field had the narrowest width), those bytes are exactly what
/// writing it produces.
pub proof fn lemma_announce_canonical(s: Seq<u8>)
    requires
        parse_announce(s) is Ok,
        parse_announce(s)->Ok_0.1 == announce_bytes(parse_announce(s)->Ok_0.0).len(),
    ensures
        s.take(parse_announce(s)->Ok_0.1 as int) == announce_bytes(parse_announce(s)->Ok_0.0),
{
    let a = parse_announce(s)->Ok_0.0;
    let k = parse_announce(s)->Ok_0.1;
    let rest = s.skip(1);
    lemma_string_canonical(rest);
    assert(s.take(k as int) =~= seq![s[0]] + rest.take(k - 1));
}

/// An announcement is read whatever width its length field has: a status
/// byte `b` (0 or 1), then bytes `t` that decode, as a whole, to the length of
/// the UTF-8 bytes of `c`, then those bytes (and anything) decode to the
/// announcement that `b` names (1 active, 0 ended) about `c`.
pub proof fn lemma_announce_any_length_field(b: u8, t: Seq<u8>, c: Seq<char>, rest: Seq<u8>)
    requires
        b <= 1,
        parse_varint(t) is Ok,
        parse_varint(t)->Ok_0.0 == encode_utf8(c).len(),
        parse_varint(t)->Ok_0.1 == t.len(),
        encode_utf8(c).len() <= usize::MAX,
    ensures
        parse_announce(seq![b] + t + encode_utf8(c) + rest) == Ok::<(AnnounceView, nat), DecodeError>(
            (
                if b == 1 {
                    AnnounceView::Active { suffix: c }
                } else {
                    AnnounceView::Ended { suffix: c }
                },
                1 + t.len() + encode_utf8(c).len(),
            ),
        ),
{
    let s = seq![b] + t + encode_utf8(c) + rest;
    lemma_string_any_length_field(t, c, rest);
    assert(s.skip(1) =~= t + encode_utf8(c) + rest);
    assert(s[0] == b);
}

/// The status byte alone decides what a decoded announcement says: byte 1 an
/// active track, byte 0 an ended one, and the suffix is the string that
/// follows the byte.
pub proof fn lemma_announce_status_decides(s: Seq<u8>)
    requires
        parse_announce(s) is Ok,
    ensures
        s.len() >= 1,
        s[0] == 1 ==> parse_announce(s)->Ok_0.0 is Active,
        s[0] == 0 ==> parse_announce(s)->Ok_0.0 is Ended,
        parse_string(s.skip(1)) is Ok,
        parse_announce(s)->Ok_0.0.suffix() == parse_string(s.skip(1))->Ok_0.0,
{
}

impl AnnounceStatus {
    /// Reads a status: the byte `0` is `Ended`, `1` is `Active`, any other
    /// byte is refused.
    pub fn decode(buf: &mut BytesMut) -> (res: Result<AnnounceStatus, DecodeError>)
        ensures
            match parse_status(buffer_contents(*old(buf))) {
                Ok((status, n)) => res == Ok::<AnnounceStatus, DecodeError>(status)
                    && buffer_contents(*final(buf)) == buffer_contents(*old(buf)).skip(n as int),
                Err(e) => res == Err::<AnnounceStatus, DecodeError>(e) && buffer_contents(
                    *final(buf),
                ) == buffer_contents(*old(buf)).skip(
                    status_failure_taken(buffer_contents(*old(buf))) as int,
                ),
            },
    {
        let ghost s = buffer_contents(*buf);
        let status = match decode_u8(buf) {
            Ok(b) => b,
            Err(e) => {
                proof {
                    assert(s.skip(0) =~= s);
                }
                return Err(e);
            },
        };
        match status {
            0 => Ok(AnnounceStatus::Ended),
            1 => Ok(AnnounceStatus::Active),
            _ => {
                proof {
                    assert(s.skip(1) =~= s.skip(s.len() - (s.len() - 1)));
                }
                Err(DecodeError::InvalidValue)
            },
        }
    }

    /// Writes a status as its byte.
    pub fn encode(&self, buf: &mut BytesMut)
        requires
            buffer_contents(*old(buf)).len() + 1 <= isize::MAX,
        ensures
            buffer_contents(*final(buf)) == buffer_contents(*old(buf)).push(status_byte(*self)),
    {
        let b: u8 = match self {
            AnnounceStatus::Ended => 0,
            AnnounceStatus::Active => 1,
        };
        encode_u8(b, buf)
    }
}

impl Announce {
    /// The suffix that the announcement is about, whichever its status.
    pub fn suffix(&self) -> (s: &str)
        ensures
            s@ == self@.suffix(),
    {
        match self {
            Announce::Active { suffix } => suffix.as_str(),
            Announce::Ended { suffix } => suffix.as_str(),
        }
    }

    /// Reads an announcement: its status, then its suffix.
    pub fn decode(buf: &mut BytesMut) -> (res: Result<Announce, DecodeError>)
        ensures
            match parse_announce(buffer_contents(*old(buf))) {
                Ok((a, n)) => res matches Ok(m) && m@ == a && buffer_contents(*final(buf))
                    == buffer_contents(*old(buf)).skip(n as int),
                Err(e) => res == Err::<Announce, DecodeError>(e) && buffer_contents(*final(buf))
                    == buffer_contents(*old(buf)).skip(
                    announce_failure_taken(buffer_contents(*old(buf))) as int,
                ),
            },
    {
        let ghost s = buffer_contents(*buf);
        let status = match AnnounceStatus::decode(buf) {
            Ok(status) => status,
            Err(e) => {
                return Err(e);
            },
        };
        let ghost mid = buffer_contents(*buf);
        let suffix = match decode_string(buf) {
            Ok(suffix) => suffix,
            Err(e) => {
                proof {
                    assert(s.skip(1).skip(mid.len() - buffer_contents(*buf).len())
                        =~= s.skip(s.len() - buffer_contents(*buf).len()));
                }
                return Err(e);
            },
        };
        proof {
            assert(s.skip(1).skip((s.len() - 1 - buffer_contents(*buf).len()))
                =~= s.skip(s.len() - buffer_contents(*buf).len()));
        }
        match status {
            AnnounceStatus::Active => Ok(Announce::Active { suffix }),
            AnnounceStatus::Ended => Ok(Announce::Ended { suffix }),
        }
    }

    /// Writes an announcement: its status, then its suffix. A suffix of 2^62
    /// bytes or more cannot be written, which `requires` leaves out.
    pub fn encode(&self, buf: &mut BytesMut)
        requires
            encode_utf8(self@.suffix()).len() < VARINT_LIMIT,
            buffer_contents(*old(buf)).len() + announce_bytes(self@).len() <= isize::MAX,
        ensures
            buffer_contents(*final(buf)) == buffer_contents(*old(buf)) + announce_bytes(self@),
    {
        match self {
            Announce::Active { suffix } => {
                AnnounceStatus::Active.encode(buf);
                encode_string(suffix.as_str(), buf);
            },
            Announce::Ended { suffix } => {
                AnnounceStatus::Ended.encode(buf);
                encode_string(suffix.as_str(), buf);
            },
        }
        proof {
            assert(buffer_contents(*final(buf)) =~= buffer_contents(*old(buf)) + announce_bytes(
                self@,
            ));
        }
    }
}

/// Sent by the subscriber to request ANNOUNCE messages.
#[derive(Clone, Debug)]
pub struct AnnounceRequest {
    // Request tracks with this prefix.
    pub prefix: String,
}

/// Decoding a request from the front of `s`: its prefix and the number of
/// bytes it took, or why it failed.
pub open spec fn parse_announce_request(s: Seq<u8>) -> Result<(Seq<char>, nat), DecodeError> {
    parse_string(s)
}

/// The bytes of a request for the prefix `prefix`.
pub open spec fn announce_request_bytes(prefix: Seq<char>) -> Seq<u8> {
    string_bytes(prefix)
}

/// Decoding the bytes of a request, with anything after them, gives back the
/// same prefix and consumes exactly its bytes.
pub proof fn lemma_announce_request_roundtrip(prefix: Seq<char>, rest: Seq<u8>)
    requires
        encodable(prefix),
    ensures
        parse_announce_request(announce_request_bytes(prefix) + rest) == Ok::<
            (Seq<char>, nat),
            DecodeError,
        >((prefix, announce_request_bytes(prefix).len())),
{
    lemma_string_roundtrip(prefix, rest);
}

/// Every proper prefix of the bytes of a request decodes as too short.
pub proof fn lemma_announce_request_truncated(prefix: Seq<char>, i: int)
    requires
        encodable(prefix),
        0 <= i < announce_request_bytes(prefix).len(),
    ensures
        parse_announce_request(announce_request_bytes(prefix).take(i)) == Err::<
            (Seq<char>, nat),
            DecodeError,
        >(DecodeError::Short),
{
    lemma_string_truncated(prefix, i);
}

/// When a request was read in as many bytes as writing it takes, those bytes
/// are exactly what writing it produces.
pub proof fn lemma_announce_request_canonical(s: Seq<u8>)
    requires
        parse_announce_request(s) is Ok,
        parse_announce_request(s)->Ok_0.1 == announce_request_bytes(
            parse_announce_request(s)->Ok_0.0,
        ).len(),
    ensures
        s.take(parse_announce_request(s)->Ok_0.1 as int) == announce_request_bytes(
            parse_announce_request(s)->Ok_0.0,
        ),
{
    lemma_string_canonical(s);
}

/// A request is read whatever width its length field has: bytes `t` that
/// decode, as a whole, to the length of the UTF-8 bytes of `prefix`, then those
/// bytes (and anything) decode to the request for `prefix`.
pub proof fn lemma_announce_request_any_length_field(t: Seq<u8>, prefix: Seq<char>, rest: Seq<u8>)
    requires
        parse_varint(t) is Ok,
        parse_varint(t)->Ok_0.0 == encode_utf8(prefix).len(),
        parse_varint(t)->Ok_0.1 == t.len(),
        encode_utf8(prefix).len() <= usize::MAX,
    ensures
        parse_announce_request(t + encode_utf8(prefix) + rest) == Ok::<
            (Seq<char>, nat),
            DecodeError,
        >((prefix, t.len() + encode_utf8(prefix).len())),
{
    lemma_string_any_length_field(t, prefix, rest);
}

impl AnnounceRequest {
    /// Reads a request: its prefix.
    pub fn decode(buf: &mut BytesMut) -> (res: Result<AnnounceRequest, DecodeError>)
        ensures
            match parse_announce_request(buffer_contents(*old(buf))) {
                Ok((prefix, n)) => res matches Ok(r) && r.prefix@ == prefix && buffer_contents(
                    *final(buf),
                ) == buffer_contents(*old(buf)).skip(n as int),
                Err(e) => res is Err && res->Err_0 == e && buffer_contents(*final(buf))
                    == buffer_contents(*old(buf)).skip(
                    string_failure_taken(buffer_contents(*old(buf))) as int,
                ),
            },
    {
        match decode_string(buf) {
            Ok(prefix) => Ok(AnnounceRequest { prefix }),
            Err(e) => Err(e),
        }
    }

    /// Writes a request: its prefix. A prefix of 2^62 bytes or more cannot be
    /// written, which `requires` leaves out.
    pub fn encode(&self, buf: &mut BytesMut)
        requires
            encode_utf8(self.prefix@).len() < VARINT_LIMIT,
            buffer_contents(*old(buf)).len() + announce_request_bytes(self.prefix@).len()
                <= isize::MAX,
        ensures
            buffer_contents(*final(buf)) == buffer_contents(*old(buf)) + announce_request_bytes(
                self.prefix@,
            ),
    {
        encode_string(self.prefix.as_str(), buf)
    }
}

} // verus!
