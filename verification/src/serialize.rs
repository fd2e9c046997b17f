//! The wire codec: a six-byte header followed by a payload whose shape
//! depends on the message kind. All integers are little-endian.

use crate::error::Error;
use crate::pattern::Pattern;
use crate::text::str_from_utf8;
use bytes::{ByteOrder, LittleEndian};
use vstd::prelude::*;
use vstd::utf8::*;

pub mod create;

verus! {

/// The four bytes of `n`, least significant first.
pub open spec fn u32_le(n: u32) -> Seq<u8> {
    seq![
        (n % 0x100) as u8,
        ((n / 0x100) % 0x100) as u8,
        ((n / 0x1_0000) % 0x100) as u8,
        ((n / 0x100_0000) % 0x100) as u8,
    ]
}

/// The number whose least significant byte is `b[0]`; only `b[0..4]` is read.
pub open spec fn u32_from_le(b: Seq<u8>) -> u32 {
    (b[0] as int + 0x100 * (b[1] as int) + 0x1_0000 * (b[2] as int) + 0x100_0000 * (b[3] as int)) as u32
}

/// The eight bytes of `n`, least significant first.
pub open spec fn u64_le(n: u64) -> Seq<u8> {
    seq![
        (n % 0x100) as u8,
        ((n / 0x100) % 0x100) as u8,
        ((n / 0x1_0000) % 0x100) as u8,
        ((n / 0x100_0000) % 0x100) as u8,
        ((n / 0x1_0000_0000) % 0x100) as u8,
        ((n / 0x100_0000_0000) % 0x100) as u8,
        ((n / 0x1_0000_0000_0000) % 0x100) as u8,
        ((n / 0x100_0000_0000_0000) % 0x100) as u8,
    ]
}

/// The number whose least significant byte is `b[0]`; only `b[0..8]` is read.
pub open spec fn u64_from_le(b: Seq<u8>) -> u64 {
    (b[0] as int + 0x100 * (b[1] as int) + 0x1_0000 * (b[2] as int) + 0x100_0000 * (b[3] as int)
        + 0x1_0000_0000 * (b[4] as int) + 0x100_0000_0000 * (b[5] as int) + 0x1_0000_0000_0000 * (
    b[6] as int) + 0x100_0000_0000_0000 * (b[7] as int)) as u64
}

/// Reading back what was written gives the number again.
pub proof fn lemma_u32_le_inverse(n: u32)
    ensures
        u32_le(n).len() == 4,
        u32_from_le(u32_le(n)) == n,
{
}

/// Reading back what was written gives the number again.
pub proof fn lemma_u64_le_inverse(n: u64)
    ensures
        u64_le(n).len() == 8,
        u64_from_le(u64_le(n)) == n,
{
    let q1 = n / 0x100;
    let q2 = q1 / 0x100;
    let q3 = q2 / 0x100;
    let q4 = q3 / 0x100;
    let q5 = q4 / 0x100;
    let q6 = q5 / 0x100;
    let q7 = q6 / 0x100;
    assert(n / 0x1_0000 == (n / 0x100) / 0x100) by (bit_vector);
    assert(n / 0x100_0000 == ((n / 0x100) / 0x100) / 0x100) by (bit_vector);
    assert(n / 0x1_0000_0000 == (((n / 0x100) / 0x100) / 0x100) / 0x100) by (bit_vector);
    assert(n / 0x100_0000_0000 == ((((n / 0x100) / 0x100) / 0x100) / 0x100) / 0x100)
        by (bit_vector);
    assert(n / 0x1_0000_0000_0000 == (((((n / 0x100) / 0x100) / 0x100) / 0x100) / 0x100) / 0x100)
        by (bit_vector);
    assert(n / 0x100_0000_0000_0000 == ((((((n / 0x100) / 0x100) / 0x100) / 0x100) / 0x100)
        / 0x100) / 0x100) by (bit_vector);
    assert(q7 < 0x100);
    let b = u64_le(n);
    assert(b[0] == n % 0x100);
    assert(b[1] == q1 % 0x100);
    assert(b[2] == q2 % 0x100);
    assert(b[3] == q3 % 0x100);
    assert(b[4] == q4 % 0x100);
    assert(b[5] == q5 % 0x100);
    assert(b[6] == q6 % 0x100);
    assert(b[7] == q7);
}

/// Calls `bytes::LittleEndian::write_u32`, which overwrites the first four
/// bytes of `buf` with `num`, least significant byte first, and leaves the
/// rest of `buf` alone. It panics on a shorter buffer, hence the `requires`.
#[verifier::external_body]
pub(crate) fn u32_to_u8s(buf: &mut [u8], num: u32)
    requires
        old(buf)@.len() >= 4,
    ensures
        final(buf)@ == u32_le(num) + old(buf)@.skip(4),
{
    LittleEndian::write_u32(buf, num);
}

/// Calls `bytes::LittleEndian::write_u64`, which overwrites the first eight
/// bytes of `buf` with `num`, least significant byte first, and leaves the
/// rest of `buf` alone. It panics on a shorter buffer, hence the `requires`.
#[verifier::external_body]
pub(crate) fn u64_to_u8s(buf: &mut [u8], num: u64)
    requires
        old(buf)@.len() >= 8,
    ensures
        final(buf)@ == u64_le(num) + old(buf)@.skip(8),
{
    LittleEndian::write_u64(buf, num);
}

/// Calls `bytes::LittleEndian::read_u32`, which reads the first four bytes
/// of `buf` as a number, least significant byte first. It panics on a
/// shorter buffer, hence the `requires`.
#[verifier::external_body]
pub(crate) fn u32_from_u8s(buf: &[u8]) -> (num: u32)
    requires
        buf@.len() >= 4,
    ensures
        num == u32_from_le(buf@),
{
    LittleEndian::read_u32(buf)
}

/// Calls `bytes::LittleEndian::read_u64`, which reads the first eight bytes
/// of `buf` as a number, least significant byte first. It panics on a
/// shorter buffer, hence the `requires`.
#[verifier::external_body]
pub(crate) fn u64_from_u8s(buf: &[u8]) -> (num: u64)
    requires
        buf@.len() >= 8,
    ensures
        num == u64_from_le(buf@),
{
    LittleEndian::read_u64(buf)
}

/// Every message starts with this many bytes: tag, length, session id.
pub const HDR_LENGTH: u8 = 6;

/// The header of a message of kind `typ` that is `len` bytes long in all.
pub open spec fn header_bytes(typ: u8, len: u8, sid: u32) -> Seq<u8> {
    seq![typ, len] + u32_le(sid)
}

/// Writes a header: the tag, the length of the whole message, and the
/// session id in little-endian order.
pub fn serialize_header(typ: u8, len: u8, sid: u32) -> (hdr: Vec<u8>)
    ensures
        hdr@ == header_bytes(typ, len, sid),
{
    let mut hdr = Vec::new();
    hdr.push(typ);
    hdr.push(len);
    let mut buf = [0u8; 4];
    u32_to_u8s(&mut buf, sid);
    hdr.extend_from_slice(&buf);
    hdr
}

/// Reads the header of `buf`: tag, total length and session id.
/// A buffer of fewer than six bytes has no header.
pub fn deserialize_header(buf: &[u8]) -> (r: Result<(u8, u8, u32), Error>)
    ensures
        buf@.len() < 6 ==> r == Err::<(u8, u8, u32), Error>(Error::Malformed),
        buf@.len() >= 6 ==> r == Ok::<(u8, u8, u32), Error>(
            (buf@[0], buf@[1], u32_from_le(buf@.subrange(2, 6))),
        ),
{
    if buf.len() < 6 {
        return Err(Error::Malformed);
    }
    let typ = buf[0];
    let len = buf[1];
    let sid = u32_from_u8s(&buf[2..6]);
    Ok((typ, len, sid))
}

/// A message cut into header fields and payload, before the payload is
/// read as one kind of message.
pub struct RawMsg<'a> {
    /// The tag: which kind of message this is.
    pub typ: u8,
    /// The length of the whole message, as its header gives it.
    pub len: u8,
    /// The session that the message belongs to.
    pub sid: u32,
    /// The payload: what follows the header.
    pub bytes: &'a [u8],
}

/// The tag of a message that announces a new flow.
pub const CREATE: u8 = 0;

/// The tag of a message that carries measurements.
pub const MEASURE: u8 = 1;

/// The tag of a message that reports a loss event.
pub const DROP: u8 = 2;

/// The tag of a message that carries a control program.
pub const CWND: u8 = 3;

/// The payload that the length byte `len` counts: the first `len - 6` of
/// the bytes that follow the header. There is none if `len` is less than
/// the header's own length, or counts more bytes than there are.
pub open spec fn counted(len: u8, bytes: Seq<u8>) -> Option<Seq<u8>> {
    if len >= 6 && bytes.len() >= len - 6 {
        Some(bytes.take(len - 6))
    } else {
        None
    }
}

/// The 32-bit fields at the start of the payload of a message of kind
/// `typ`, whose length byte is `len` and whose header is followed by `bytes`.
pub open spec fn payload_u32s(typ: u8, len: u8, bytes: Seq<u8>) -> Result<Seq<u32>, Error> {
    match counted(len, bytes) {
        None => Err(Error::Malformed),
        Some(payload) => if typ == CREATE {
            if payload.len() >= 4 {
                Ok(seq![u32_from_le(payload)])
            } else {
                Err(Error::Malformed)
            }
        } else if typ == MEASURE {
            if payload.len() >= 8 {
                Ok(seq![u32_from_le(payload), u32_from_le(payload.skip(4))])
            } else {
                Err(Error::Malformed)
            }
        } else if typ == DROP || typ == CWND {
            Ok(Seq::empty())
        } else {
            Err(Error::Malformed)
        },
    }
}

/// The 64-bit fields of the payload of a message of kind `typ`; they
/// follow the 32-bit ones.
pub open spec fn payload_u64s(typ: u8, len: u8, bytes: Seq<u8>) -> Result<Seq<u64>, Error> {
    match counted(len, bytes) {
        None => Err(Error::Malformed),
        Some(payload) => if typ == MEASURE {
            if payload.len() >= 24 {
                Ok(seq![u64_from_le(payload.skip(8)), u64_from_le(payload.skip(16))])
            } else {
                Err(Error::Malformed)
            }
        } else if typ == CREATE || typ == DROP || typ == CWND {
            Ok(Seq::empty())
        } else {
            Err(Error::Malformed)
        },
    }
}

/// The trailing byte string of the payload of a message of kind `typ`;
/// it follows the fixed-width fields and ends where the length byte says.
pub open spec fn payload_bytes(typ: u8, len: u8, bytes: Seq<u8>) -> Result<Seq<u8>, Error> {
    match counted(len, bytes) {
        None => Err(Error::Malformed),
        Some(payload) => if typ == CREATE {
            if payload.len() >= 4 {
                Ok(payload.skip(4))
            } else {
                Err(Error::Malformed)
            }
        } else if typ == MEASURE {
            Ok(Seq::empty())
        } else if typ == DROP || typ == CWND {
            Ok(payload)
        } else {
            Err(Error::Malformed)
        },
    }
}

impl<'a> RawMsg<'a> {
    /// The payload that the length field counts: the first `len - 6` of
    /// the bytes at hand. A length below the header's own, or beyond the
    /// bytes at hand, is malformed.
    pub fn payload(&self) -> (r: Result<&'a [u8], Error>)
        ensures
            match r {
                Ok(b) => counted(self.len, self.bytes@) == Some(b@),
                Err(e) => counted(self.len, self.bytes@) is None && e == Error::Malformed,
            },
    {
        if self.len < HDR_LENGTH {
            return Err(Error::Malformed);
        }
        let n = (self.len - HDR_LENGTH) as usize;
        if self.bytes.len() < n {
            return Err(Error::Malformed);
        }
        let b = &self.bytes[0..n];
        assert(b@ == self.bytes@.take(n as int));
        Ok(b)
    }

    /// The 32-bit fields of the payload, in the order of the wire. A
    /// payload that is too short for them, a length field that does not
    /// fit, or a tag that names no kind of message, is malformed.
    pub fn get_u32s(&self) -> (r: Result<Vec<u32>, Error>)
        ensures
            match r {
                Ok(v) => payload_u32s(self.typ, self.len, self.bytes@) == Ok::<Seq<u32>, Error>(
                    v@,
                ),
                Err(e) => payload_u32s(self.typ, self.len, self.bytes@) == Err::<
                    Seq<u32>,
                    Error,
                >(e),
            },
    {
        let bytes = match self.payload() {
            Ok(b) => b,
            Err(e) => {
                return Err(e);
            },
        };
        let mut v: Vec<u32> = Vec::new();
        if self.typ == CREATE {
            if bytes.len() < 4 {
                return Err(Error::Malformed);
            }
            v.push(u32_from_u8s(bytes));
            assert(v@ =~= seq![u32_from_le(bytes@)]);
        } else if self.typ == MEASURE {
            if bytes.len() < 8 {
                return Err(Error::Malformed);
            }
            v.push(u32_from_u8s(bytes));
            let n = bytes.len();
            let rest = &bytes[4..n];
            assert(rest@ == bytes@.skip(4));
            v.push(u32_from_u8s(rest));
            assert(v@ =~= seq![u32_from_le(bytes@), u32_from_le(bytes@.skip(4))]);
        } else if self.typ == DROP || self.typ == CWND {
            assert(v@ =~= Seq::<u32>::empty());
        } else {
            return Err(Error::Malformed);
        }
        Ok(v)
    }

    /// The 64-bit fields of the payload, in the order of the wire. A
    /// payload that is too short for them, a length field that does not
    /// fit, or a tag that names no kind of message, is malformed.
    pub fn get_u64s(&self) -> (r: Result<Vec<u64>, Error>)
        ensures
            match r {
                Ok(v) => payload_u64s(self.typ, self.len, self.bytes@) == Ok::<Seq<u64>, Error>(
                    v@,
                ),
                Err(e) => payload_u64s(self.typ, self.len, self.bytes@) == Err::<
                    Seq<u64>,
                    Error,
                >(e),
            },
    {
        let bytes = match self.payload() {
            Ok(b) => b,
            Err(e) => {
                return Err(e);
            },
        };
        let mut v: Vec<u64> = Vec::new();
        if self.typ == MEASURE {
            if bytes.len() < 24 {
                return Err(Error::Malformed);
            }
            let n = bytes.len();
            let first = &bytes[8..n];
            assert(first@ == bytes@.skip(8));
            v.push(u64_from_u8s(first));
            let second = &bytes[16..n];
            assert(second@ == bytes@.skip(16));
            v.push(u64_from_u8s(second));
            assert(v@ =~= seq![u64_from_le(bytes@.skip(8)), u64_from_le(bytes@.skip(16))]);
        } else if self.typ == CREATE || self.typ == DROP || self.typ == CWND {
            assert(v@ =~= Seq::<u64>::empty());
        } else {
            return Err(Error::Malformed);
        }
        Ok(v)
    }

    /// The byte string at the end of the payload: it ends where the
    /// length field says, whatever follows in the buffer. A payload that
    /// is too short for the fields before it, a length field that does
    /// not fit, or a tag that names no kind of message, is malformed.
    pub fn get_bytes(&self) -> (r: Result<&'a [u8], Error>)
        ensures
            match r {
                Ok(b) => payload_bytes(self.typ, self.len, self.bytes@) == Ok::<Seq<u8>, Error>(
                    b@,
                ),
                Err(e) => payload_bytes(self.typ, self.len, self.bytes@) == Err::<
                    Seq<u8>,
                    Error,
                >(e),
            },
    {
        let bytes = match self.payload() {
            Ok(b) => b,
            Err(e) => {
                return Err(e);
            },
        };
        let n = bytes.len();
        if self.typ == CREATE {
            if n < 4 {
                return Err(Error::Malformed);
            }
            let b = &bytes[4..n];
            assert(b@ == bytes@.skip(4));
            Ok(b)
        } else if self.typ == MEASURE {
            let b = &bytes[0..0];
            assert(b@ == Seq::<u8>::empty());
            Ok(b)
        } else if self.typ == DROP || self.typ == CWND {
            Ok(bytes)
        } else {
            Err(Error::Malformed)
        }
    }
}

/// A kind of message that the codec can write and read back.
///
/// A message is written as its header, then its 32-bit fields, its 64-bit
/// fields and its byte string, in this order.
pub trait AsRawMsg: Sized + View {
    /// The tag that stands for this kind of message on the wire.
    spec fn spec_typ(&self) -> u8;

    /// The session that the message belongs to.
    spec fn spec_sid(&self) -> u32;

    /// The 32-bit fields as they stand on the wire.
    spec fn wire_u32s(&self) -> Seq<u8>;

    /// The 64-bit fields as they stand on the wire.
    spec fn wire_u64s(&self) -> Seq<u8>;

    /// The trailing byte string as it stands on the wire.
    spec fn wire_bytes(&self) -> Seq<u8>;

    /// What a message with the given header fields is read as, where
    /// `bytes` follows the header. The payload is the first `len - 6` of
    /// these bytes.
    spec fn spec_from_raw(typ: u8, len: u8, sid: u32, bytes: Seq<u8>) -> Result<Self::V, Error>;

    /// Tag, total length and session id. A message of more than 255 bytes
    /// has no header: its length does not fit the length byte.
    fn get_hdr(&self) -> (r: Result<(u8, u8, u32), Error>)
        ensures
            6 + self.wire_u32s().len() + self.wire_u64s().len() + self.wire_bytes().len() <= 255
                ==> r == Ok::<(u8, u8, u32), Error>(
                (
                    self.spec_typ(),
                    (6 + self.wire_u32s().len() + self.wire_u64s().len()
                        + self.wire_bytes().len()) as u8,
                    self.spec_sid(),
                ),
            ),
            6 + self.wire_u32s().len() + self.wire_u64s().len() + self.wire_bytes().len() > 255
                ==> r == Err::<(u8, u8, u32), Error>(Error::Malformed),
    ;

    /// Appends the 32-bit fields to `w`.
    fn get_u32s(&self, w: &mut Vec<u8>) -> (r: Result<(), Error>)
        ensures
            r is Ok,
            final(w)@ == old(w)@ + self.wire_u32s(),
    ;

    /// Appends the 64-bit fields to `w`.
    fn get_u64s(&self, w: &mut Vec<u8>) -> (r: Result<(), Error>)
        ensures
            r is Ok,
            final(w)@ == old(w)@ + self.wire_u64s(),
    ;

    /// Appends the trailing byte string to `w`.
    fn get_bytes(&self, w: &mut Vec<u8>) -> (r: Result<(), Error>)
        ensures
            r is Ok,
            final(w)@ == old(w)@ + self.wire_bytes(),
    ;

    /// Reads the payload of `msg` as this kind of message.
    fn from_raw_msg(msg: RawMsg) -> (r: Result<Self, Error>)
        ensures
            match r {
                Ok(m) => Self::spec_from_raw(msg.typ, msg.len, msg.sid, msg.bytes@) == Ok::<
                    Self::V,
                    Error,
                >(m@),
                Err(e) => Self::spec_from_raw(msg.typ, msg.len, msg.sid, msg.bytes@) == Err::<
                    Self::V,
                    Error,
                >(e),
            },
    ;

    /// What a message writes is read back as the same message, whatever
    /// follows it in the buffer.
    proof fn lemma_from_raw_inverse(&self, after: Seq<u8>)
        requires
            6 + self.wire_u32s().len() + self.wire_u64s().len() + self.wire_bytes().len() <= 255,
        ensures
            Self::spec_from_raw(
                self.spec_typ(),
                (6 + self.wire_u32s().len() + self.wire_u64s().len()
                    + self.wire_bytes().len()) as u8,
                self.spec_sid(),
                self.wire_u32s() + self.wire_u64s() + self.wire_bytes() + after,
            ) == Ok::<Self::V, Error>(self@),
    ;
}

/// The payload of `m`: everything after the header.
pub open spec fn payload<T: AsRawMsg>(m: &T) -> Seq<u8> {
    m.wire_u32s() + m.wire_u64s() + m.wire_bytes()
}

/// Whether `m` fits a message: a message is at most 255 bytes long.
pub open spec fn encodable<T: AsRawMsg>(m: &T) -> bool {
    6 + payload(m).len() <= 255
}

/// The bytes that stand for `m` on the wire.
pub open spec fn encoding<T: AsRawMsg>(m: &T) -> Seq<u8> {
    header_bytes(m.spec_typ(), (6 + payload(m).len()) as u8, m.spec_sid()) + payload(m)
}

/// A message on its way out.
pub struct RMsg<T: AsRawMsg>(pub T);

impl<T: AsRawMsg> RMsg<T> {
    /// Encodes the message. One that would be longer than 255 bytes is
    /// refused, and nothing is produced.
    pub fn serialize(&self) -> (r: Result<Vec<u8>, Error>)
        ensures
            encodable(&self.0) ==> (r matches Ok(v) && v@ == encoding(&self.0)),
            !encodable(&self.0) ==> r == Err::<Vec<u8>, Error>(Error::Malformed),
            r matches Ok(v) ==> (v@.len() <= 255 && v@[1] == v@.len()),
    {
        let (a, b, c) = match self.0.get_hdr() {
            Ok(hdr) => hdr,
            Err(e) => {
                return Err(e);
            },
        };
        let mut msg = serialize_header(a, b, c);
        match self.0.get_u32s(&mut msg) {
            Ok(_) => {},
            Err(e) => {
                return Err(e);
            },
        }
        match self.0.get_u64s(&mut msg) {
            Ok(_) => {},
            Err(e) => {
                return Err(e);
            },
        }
        match self.0.get_bytes(&mut msg) {
            Ok(_) => {},
            Err(e) => {
                return Err(e);
            },
        }
        assert(msg@ =~= encoding(&self.0));
        Ok(msg)
    }
}

/// Sent by the datapath when a flow starts.
#[derive(Debug, PartialEq)]
pub struct CreateMsg {
    pub sid: u32,
    pub start_seq: u32,
    pub cong_alg: String,
}

/// A `CreateMsg` with its text as a sequence of characters.
pub struct CreateMsgView {
    pub sid: u32,
    pub start_seq: u32,
    pub cong_alg: Seq<char>,
}

impl View for CreateMsg {
    type V = CreateMsgView;

    open spec fn view(&self) -> CreateMsgView {
        CreateMsgView { sid: self.sid, start_seq: self.start_seq, cong_alg: self.cong_alg@ }
    }
}

impl Clone for CreateMsg {
    fn clone(&self) -> (r: Self)
        ensures
            r@ == self@,
    {
        CreateMsg { sid: self.sid, start_seq: self.start_seq, cong_alg: self.cong_alg.clone() }
    }
}

impl AsRawMsg for CreateMsg {
    open spec fn spec_typ(&self) -> u8 {
        CREATE
    }

    open spec fn spec_sid(&self) -> u32 {
        self.sid
    }

    open spec fn wire_u32s(&self) -> Seq<u8> {
        u32_le(self.start_seq)
    }

    open spec fn wire_u64s(&self) -> Seq<u8> {
        Seq::empty()
    }

    open spec fn wire_bytes(&self) -> Seq<u8> {
        encode_utf8(self.cong_alg@)
    }

    open spec fn spec_from_raw(typ: u8, len: u8, sid: u32, bytes: Seq<u8>) -> Result<
        CreateMsgView,
        Error,
    > {
        match counted(len, bytes) {
            None => Err(Error::Malformed),
            Some(payload) => if typ != CREATE || payload.len() < 4 {
                Err(Error::Malformed)
            } else if !valid_utf8(payload.skip(4)) {
                Err(Error::Utf8)
            } else {
                Ok(
                    CreateMsgView {
                        sid,
                        start_seq: u32_from_le(payload),
                        cong_alg: decode_utf8(payload.skip(4)),
                    },
                )
            },
        }
    }

    fn get_hdr(&self) -> (r: Result<(u8, u8, u32), Error>) {
        let n = self.cong_alg.as_str().as_bytes().len();
        if n > 245 {
            return Err(Error::Malformed);
        }
        Ok((CREATE, HDR_LENGTH + 4 + n as u8, self.sid))
    }

    fn get_u32s(&self, w: &mut Vec<u8>) -> (r: Result<(), Error>) {
        let mut buf = [0u8; 4];
        u32_to_u8s(&mut buf, self.start_seq);
        w.extend_from_slice(&buf);
        Ok(())
    }

    fn get_u64s(&self, w: &mut Vec<u8>) -> (r: Result<(), Error>) {
        Ok(())
    }

    fn get_bytes(&self, w: &mut Vec<u8>) -> (r: Result<(), Error>) {
        w.extend_from_slice(self.cong_alg.as_str().as_bytes());
        Ok(())
    }

    fn from_raw_msg(msg: RawMsg) -> (r: Result<Self, Error>) {
        if msg.typ != CREATE {
            return Err(Error::Malformed);
        }
        let b = match msg.get_bytes() {
            Ok(b) => b,
            Err(e) => {
                return Err(e);
            },
        };
        let s = match str_from_utf8(b) {
            Some(s) => s,
            None => {
                return Err(Error::Utf8);
            },
        };
        proof {
            encode_utf8_decode_utf8(s@);
        }
        let alg = s.to_owned();
        let u32s = match msg.get_u32s() {
            Ok(v) => v,
            Err(e) => {
                return Err(e);
            },
        };
        Ok(CreateMsg { sid: msg.sid, start_seq: u32s[0], cong_alg: alg })
    }

    proof fn lemma_from_raw_inverse(&self, after: Seq<u8>) {
        let p = self.wire_u32s() + self.wire_u64s() + self.wire_bytes();
        lemma_u32_le_inverse(self.start_seq);
        assert((p + after).take(p.len() as int) =~= p);
        assert(p.skip(4) =~= encode_utf8(self.cong_alg@));
        encode_utf8_valid_utf8(self.cong_alg@);
        encode_utf8_decode_utf8(self.cong_alg@);
        assert(u32_from_le(p) == u32_from_le(u32_le(self.start_seq)));
    }
}

/// Sent by the datapath with what it measured on a flow.
#[derive(Copy, Clone, Debug, PartialEq, Eq, Structural)]
pub struct MeasureMsg {
    pub sid: u32,
    pub ack: u32,
    pub rtt_us: u32,
    pub rin: u64,
    pub rout: u64,
}

impl View for MeasureMsg {
    type V = MeasureMsg;

    open spec fn view(&self) -> MeasureMsg {
        *self
    }
}

impl AsRawMsg for MeasureMsg {
    open spec fn spec_typ(&self) -> u8 {
        MEASURE
    }

    open spec fn spec_sid(&self) -> u32 {
        self.sid
    }

    open spec fn wire_u32s(&self) -> Seq<u8> {
        u32_le(self.ack) + u32_le(self.rtt_us)
    }

    open spec fn wire_u64s(&self) -> Seq<u8> {
        u64_le(self.rin) + u64_le(self.rout)
    }

    open spec fn wire_bytes(&self) -> Seq<u8> {
        Seq::empty()
    }

    open spec fn spec_from_raw(typ: u8, len: u8, sid: u32, bytes: Seq<u8>) -> Result<
        MeasureMsg,
        Error,
    > {
        match counted(len, bytes) {
            None => Err(Error::Malformed),
            Some(payload) => if typ != MEASURE || len != 30 {
                Err(Error::Malformed)
            } else {
                Ok(
                    MeasureMsg {
                        sid,
                        ack: u32_from_le(payload),
                        rtt_us: u32_from_le(payload.skip(4)),
                        rin: u64_from_le(payload.skip(8)),
                        rout: u64_from_le(payload.skip(16)),
                    },
                )
            },
        }
    }

    fn get_hdr(&self) -> (r: Result<(u8, u8, u32), Error>) {
        Ok((MEASURE, HDR_LENGTH + 8 + 16, self.sid))
    }

    fn get_u32s(&self, w: &mut Vec<u8>) -> (r: Result<(), Error>) {
        let mut buf = [0u8; 4];
        u32_to_u8s(&mut buf, self.ack);
        w.extend_from_slice(&buf);
        u32_to_u8s(&mut buf, self.rtt_us);
        w.extend_from_slice(&buf);
        assert(w@ =~= old(w)@ + self.wire_u32s());
        Ok(())
    }

    fn get_u64s(&self, w: &mut Vec<u8>) -> (r: Result<(), Error>) {
        let mut buf = [0u8; 8];
        u64_to_u8s(&mut buf, self.rin);
        w.extend_from_slice(&buf);
        u64_to_u8s(&mut buf, self.rout);
        w.extend_from_slice(&buf);
        assert(w@ =~= old(w)@ + self.wire_u64s());
        Ok(())
    }

    fn get_bytes(&self, w: &mut Vec<u8>) -> (r: Result<(), Error>) {
        Ok(())
    }

    fn from_raw_msg(msg: RawMsg) -> (r: Result<Self, Error>) {
        if msg.typ != MEASURE || msg.len != HDR_LENGTH + 8 + 16 {
            return Err(Error::Malformed);
        }
        let u32s = match msg.get_u32s() {
            Ok(v) => v,
            Err(e) => {
                return Err(e);
            },
        };
        let u64s = match msg.get_u64s() {
            Ok(v) => v,
            Err(e) => {
                return Err(e);
            },
        };
        Ok(MeasureMsg { sid: msg.sid, ack: u32s[0], rtt_us: u32s[1], rin: u64s[0], rout: u64s[1] })
    }

    proof fn lemma_from_raw_inverse(&self, after: Seq<u8>) {
        let p = self.wire_u32s() + self.wire_u64s() + self.wire_bytes();
        assert((p + after).take(p.len() as int) =~= p);
        lemma_u32_le_inverse(self.ack);
        lemma_u32_le_inverse(self.rtt_us);
        lemma_u64_le_inverse(self.rin);
        lemma_u64_le_inverse(self.rout);
        assert(u32_from_le(p) == u32_from_le(u32_le(self.ack)));
        assert(u32_from_le(p.skip(4)) == u32_from_le(u32_le(self.rtt_us)));
        assert(u64_from_le(p.skip(8)) == u64_from_le(u64_le(self.rin)));
        assert(u64_from_le(p.skip(16)) == u64_from_le(u64_le(self.rout)));
    }
}

/// Sent by the datapath when a flow saw a loss event.
#[derive(Debug, PartialEq)]
pub struct DropMsg {
    pub sid: u32,
    pub event: String,
}

/// A `DropMsg` with its text as a sequence of characters.
pub struct DropMsgView {
    pub sid: u32,
    pub event: Seq<char>,
}

impl View for DropMsg {
    type V = DropMsgView;

    open spec fn view(&self) -> DropMsgView {
        DropMsgView { sid: self.sid, event: self.event@ }
    }
}

impl Clone for DropMsg {
    fn clone(&self) -> (r: Self)
        ensures
            r@ == self@,
    {
        DropMsg { sid: self.sid, event: self.event.clone() }
    }
}

impl AsRawMsg for DropMsg {
    open spec fn spec_typ(&self) -> u8 {
        DROP
    }

    open spec fn spec_sid(&self) -> u32 {
        self.sid
    }

    open spec fn wire_u32s(&self) -> Seq<u8> {
        Seq::empty()
    }

    open spec fn wire_u64s(&self) -> Seq<u8> {
        Seq::empty()
    }

    open spec fn wire_bytes(&self) -> Seq<u8> {
        encode_utf8(self.event@)
    }

    open spec fn spec_from_raw(typ: u8, len: u8, sid: u32, bytes: Seq<u8>) -> Result<
        DropMsgView,
        Error,
    > {
        match counted(len, bytes) {
            None => Err(Error::Malformed),
            Some(payload) => if typ != DROP {
                Err(Error::Malformed)
            } else if !valid_utf8(payload) {
                Err(Error::Utf8)
            } else {
                Ok(DropMsgView { sid, event: decode_utf8(payload) })
            },
        }
    }

    fn get_hdr(&self) -> (r: Result<(u8, u8, u32), Error>) {
        let n = self.event.as_str().as_bytes().len();
        if n > 249 {
            return Err(Error::Malformed);
        }
        Ok((DROP, HDR_LENGTH + n as u8, self.sid))
    }

    fn get_u32s(&self, w: &mut Vec<u8>) -> (r: Result<(), Error>) {
        Ok(())
    }

    fn get_u64s(&self, w: &mut Vec<u8>) -> (r: Result<(), Error>) {
        Ok(())
    }

    fn get_bytes(&self, w: &mut Vec<u8>) -> (r: Result<(), Error>) {
        w.extend_from_slice(self.event.as_str().as_bytes());
        Ok(())
    }

    fn from_raw_msg(msg: RawMsg) -> (r: Result<Self, Error>) {
        if msg.typ != DROP {
            return Err(Error::Malformed);
        }
        let b = match msg.get_bytes() {
            Ok(b) => b,
            Err(e) => {
                return Err(e);
            },
        };
        let s = match str_from_utf8(b) {
            Some(s) => s,
            None => {
                return Err(Error::Utf8);
            },
        };
        proof {
            encode_utf8_decode_utf8(s@);
        }
        let ev = s.to_owned();
        Ok(DropMsg { sid: msg.sid, event: ev })
    }

    proof fn lemma_from_raw_inverse(&self, after: Seq<u8>) {
        let p = self.wire_u32s() + self.wire_u64s() + self.wire_bytes();
        assert((p + after).take(p.len() as int) =~= p);
        assert(p =~= encode_utf8(self.event@));
        encode_utf8_valid_utf8(self.event@);
        encode_utf8_decode_utf8(self.event@);
    }
}

/// Sent by the agent: the control program that the datapath is to run.
#[derive(Debug, PartialEq)]
pub struct PatternMsg {
    pub sid: u32,
    pub pattern: Pattern,
}

/// A `PatternMsg` with its program as a sequence of bytes.
pub struct PatternMsgView {
    pub sid: u32,
    pub pattern: Seq<u8>,
}

impl View for PatternMsg {
    type V = PatternMsgView;

    open spec fn view(&self) -> PatternMsgView {
        PatternMsgView { sid: self.sid, pattern: self.pattern@ }
    }
}

impl Clone for PatternMsg {
    fn clone(&self) -> (r: Self)
        ensures
            r@ == self@,
    {
        PatternMsg { sid: self.sid, pattern: self.pattern.clone() }
    }
}

impl AsRawMsg for PatternMsg {
    open spec fn spec_typ(&self) -> u8 {
        CWND
    }

    open spec fn spec_sid(&self) -> u32 {
        self.sid
    }

    open spec fn wire_u32s(&self) -> Seq<u8> {
        Seq::empty()
    }

    open spec fn wire_u64s(&self) -> Seq<u8> {
        Seq::empty()
    }

    open spec fn wire_bytes(&self) -> Seq<u8> {
        self.pattern@
    }

    open spec fn spec_from_raw(typ: u8, len: u8, sid: u32, bytes: Seq<u8>) -> Result<
        PatternMsgView,
        Error,
    > {
        match counted(len, bytes) {
            None => Err(Error::Malformed),
            Some(payload) => if typ != CWND {
                Err(Error::Malformed)
            } else {
                Ok(PatternMsgView { sid, pattern: payload })
            },
        }
    }

    fn get_hdr(&self) -> (r: Result<(u8, u8, u32), Error>) {
        let n = self.pattern.len_bytes();
        if n > 249 {
            return Err(Error::Malformed);
        }
        Ok((CWND, HDR_LENGTH + n as u8, self.sid))
    }

    fn get_u32s(&self, w: &mut Vec<u8>) -> (r: Result<(), Error>) {
        Ok(())
    }

    fn get_u64s(&self, w: &mut Vec<u8>) -> (r: Result<(), Error>) {
        Ok(())
    }

    fn get_bytes(&self, w: &mut Vec<u8>) -> (r: Result<(), Error>) {
        self.pattern.serialize(w)
    }

    fn from_raw_msg(msg: RawMsg) -> (r: Result<Self, Error>) {
        if msg.typ != CWND {
            return Err(Error::Malformed);
        }
        let b = match msg.get_bytes() {
            Ok(b) => b,
            Err(e) => {
                return Err(e);
            },
        };
        let pattern = match Pattern::deserialize(b) {
            Ok(p) => p,
            Err(e) => {
                return Err(e);
            },
        };
        Ok(PatternMsg { sid: msg.sid, pattern })
    }

    proof fn lemma_from_raw_inverse(&self, after: Seq<u8>) {
        let p = self.wire_u32s() + self.wire_u64s() + self.wire_bytes();
        assert(p =~= self.pattern@);
        assert((p + after).take(p.len() as int) =~= p);
    }
}

/// Cuts `buf` into header fields and payload. The length byte says where
/// the message ends; what follows it in `buf` is not handed on.
pub fn deserialize(buf: &[u8]) -> (r: Result<RawMsg, Error>)
    ensures
        framed(buf@) ==> (r matches Ok(m) && m.typ == buf@[0] && m.len == buf@[1] && m.sid
            == u32_from_le(buf@.subrange(2, 6)) && m.bytes@ == buf@.subrange(6, buf@[1] as int)),
        !framed(buf@) ==> r is Err && r->Err_0 == Error::Malformed,
{
    let (typ, len, sid) = match deserialize_header(buf) {
        Ok(hdr) => hdr,
        Err(e) => {
            return Err(e);
        },
    };
    if len < HDR_LENGTH || len as usize > buf.len() {
        return Err(Error::Malformed);
    }
    Ok(RawMsg { typ, len, sid, bytes: &buf[6..len as usize] })
}

/// Whether `buf` starts with a header whose length byte is at least the
/// header's own length and at most the length of `buf`.
pub open spec fn framed(buf: Seq<u8>) -> bool {
    buf.len() >= 6 && 6 <= buf[1] <= buf.len()
}

/// A message as it comes out of the decoder.
#[derive(Debug, PartialEq)]
pub enum Msg {
    Cr(CreateMsg),
    Dr(DropMsg),
    Ms(MeasureMsg),
    Pt(PatternMsg),
}

/// A `Msg` with the view of the message inside.
pub enum MsgView {
    Cr(CreateMsgView),
    Dr(DropMsgView),
    Ms(MeasureMsg),
    Pt(PatternMsgView),
}

impl View for Msg {
    type V = MsgView;

    open spec fn view(&self) -> MsgView {
        match self {
            Msg::Cr(m) => MsgView::Cr(m@),
            Msg::Dr(m) => MsgView::Dr(m@),
            Msg::Ms(m) => MsgView::Ms(m@),
            Msg::Pt(m) => MsgView::Pt(m@),
        }
    }
}

/// What a message with the given header fields decodes to, where `bytes`
/// follows the header.
pub open spec fn decode_payload(typ: u8, len: u8, sid: u32, bytes: Seq<u8>) -> Result<
    MsgView,
    Error,
> {
    if typ == CREATE {
        match CreateMsg::spec_from_raw(typ, len, sid, bytes) {
            Ok(m) => Ok(MsgView::Cr(m)),
            Err(e) => Err(e),
        }
    } else if typ == DROP {
        match DropMsg::spec_from_raw(typ, len, sid, bytes) {
            Ok(m) => Ok(MsgView::Dr(m)),
            Err(e) => Err(e),
        }
    } else if typ == MEASURE {
        match MeasureMsg::spec_from_raw(typ, len, sid, bytes) {
            Ok(m) => Ok(MsgView::Ms(m)),
            Err(e) => Err(e),
        }
    } else if typ == CWND {
        match PatternMsg::spec_from_raw(typ, len, sid, bytes) {
            Ok(m) => Ok(MsgView::Pt(m)),
            Err(e) => Err(e),
        }
    } else {
        Err(Error::Malformed)
    }
}

/// What a buffer decodes to.
pub open spec fn decode(buf: Seq<u8>) -> Result<MsgView, Error> {
    if framed(buf) {
        decode_payload(
            buf[0],
            buf[1],
            u32_from_le(buf.subrange(2, 6)),
            buf.subrange(6, buf[1] as int),
        )
    } else {
        Err(Error::Malformed)
    }
}

impl Msg {
    /// Reads the payload of `m` as the kind of message that its tag
    /// names. A tag that names none is malformed.
    pub fn from_raw_msg(m: RawMsg) -> (r: Result<Msg, Error>)
        ensures
            match r {
                Ok(msg) => decode_payload(m.typ, m.len, m.sid, m.bytes@) == Ok::<MsgView, Error>(
                    msg@,
                ),
                Err(e) => decode_payload(m.typ, m.len, m.sid, m.bytes@) == Err::<MsgView, Error>(
                    e,
                ),
            },
    {
        if m.typ == CREATE {
            match CreateMsg::from_raw_msg(m) {
                Ok(c) => Ok(Msg::Cr(c)),
                Err(e) => Err(e),
            }
        } else if m.typ == DROP {
            match DropMsg::from_raw_msg(m) {
                Ok(d) => Ok(Msg::Dr(d)),
                Err(e) => Err(e),
            }
        } else if m.typ == MEASURE {
            match MeasureMsg::from_raw_msg(m) {
                Ok(ms) => Ok(Msg::Ms(ms)),
                Err(e) => Err(e),
            }
        } else if m.typ == CWND {
            match PatternMsg::from_raw_msg(m) {
                Ok(p) => Ok(Msg::Pt(p)),
                Err(e) => Err(e),
            }
        } else {
            Err(Error::Malformed)
        }
    }

    /// Decodes one message from the start of `buf`. The buffer is
    /// malformed if it is shorter than a header, if its length byte says
    /// less than a header or more than the buffer holds, if its tag is
    /// unknown, or if the payload does not fit the kind of message; a
    /// byte string that has to be text is checked to be UTF-8.
    pub fn from_buf(buf: &[u8]) -> (r: Result<Msg, Error>)
        ensures
            match r {
                Ok(msg) => decode(buf@) == Ok::<MsgView, Error>(msg@),
                Err(e) => decode(buf@) == Err::<MsgView, Error>(e),
            },
    {
        match deserialize(buf) {
            Ok(raw) => Msg::from_raw_msg(raw),
            Err(e) => Err(e),
        }
    }
}

impl Msg {
    /// Whether the message fits the 255 bytes that a length byte can count.
    pub open spec fn encodable(&self) -> bool {
        match self {
            Msg::Cr(m) => encodable(m),
            Msg::Dr(m) => encodable(m),
            Msg::Ms(m) => encodable(m),
            Msg::Pt(m) => encodable(m),
        }
    }

    /// The bytes that `RMsg(m).serialize()` gives for the message inside.
    pub open spec fn encoding(&self) -> Seq<u8> {
        match self {
            Msg::Cr(m) => encoding(m),
            Msg::Dr(m) => encoding(m),
            Msg::Ms(m) => encoding(m),
            Msg::Pt(m) => encoding(m),
        }
    }
}

/// The encoding of a message that fits is a frame: its second byte is its
/// own length, which is at most 255, and its first six bytes are the
/// header. Cut at the header, it reads back as the same message.
pub proof fn lemma_encoding_reads_back<T: AsRawMsg>(m: &T)
    requires
        encodable(m),
    ensures
        encoding(m).len() <= 255,
        encoding(m)[0] == m.spec_typ(),
        encoding(m)[1] == encoding(m).len(),
        u32_from_le(encoding(m).subrange(2, 6)) == m.spec_sid(),
        encoding(m).subrange(6, encoding(m).len() as int) == payload(m),
        framed(encoding(m)),
        T::spec_from_raw(m.spec_typ(), encoding(m)[1], m.spec_sid(), payload(m)) == Ok::<
            T::V,
            Error,
        >(m@),
{
    let e = encoding(m);
    lemma_u32_le_inverse(m.spec_sid());
    assert(e.subrange(2, 6) =~= u32_le(m.spec_sid()));
    assert(e.subrange(6, e.len() as int) =~= payload(m));
    m.lemma_from_raw_inverse(Seq::empty());
    assert(payload(m) + Seq::<u8>::empty() =~= payload(m));
}

/// What follows a message in the buffer does not matter: the length
/// byte says where the message ends.
pub proof fn lemma_decode_ignores_what_follows(m: Msg, after: Seq<u8>)
    requires
        m.encodable(),
    ensures
        decode(m.encoding() + after) == Ok::<MsgView, Error>(m@),
{
    let e = m.encoding();
    let buf = e + after;
    lemma_decode_encode(m);
    lemma_encoding_length(m);
    assert(buf.subrange(2, 6) =~= e.subrange(2, 6));
    assert(buf.subrange(6, buf[1] as int) =~= e.subrange(6, e[1] as int));
}

/// Decoding what was encoded gives the message back.
pub proof fn lemma_decode_encode(m: Msg)
    requires
        m.encodable(),
    ensures
        decode(m.encoding()) == Ok::<MsgView, Error>(m@),
{
    match m {
        Msg::Cr(c) => lemma_encoding_reads_back(&c),
        Msg::Dr(d) => lemma_encoding_reads_back(&d),
        Msg::Ms(ms) => lemma_encoding_reads_back(&ms),
        Msg::Pt(p) => lemma_encoding_reads_back(&p),
    }
}

/// An encoding says how long it is, and is at most 255 bytes long.
pub proof fn lemma_encoding_length(m: Msg)
    requires
        m.encodable(),
    ensures
        m.encoding().len() <= 255,
        m.encoding()[1] == m.encoding().len(),
{
    match m {
        Msg::Cr(c) => lemma_encoding_reads_back(&c),
        Msg::Dr(d) => lemma_encoding_reads_back(&d),
        Msg::Ms(ms) => lemma_encoding_reads_back(&ms),
        Msg::Pt(p) => lemma_encoding_reads_back(&p),
    }
}

/// A buffer whose first byte is none of the four tags does not decode.
pub proof fn lemma_unknown_tag(buf: Seq<u8>)
    requires
        buf.len() > 0,
        buf[0] > 3,
    ensures
        decode(buf) == Err::<MsgView, Error>(Error::Malformed),
{
}

/// An encoding that lost its last byte does not decode.
pub proof fn lemma_truncated(m: Msg)
    requires
        m.encodable(),
    ensures
        decode(m.encoding().drop_last()) == Err::<MsgView, Error>(Error::Malformed),
{
    lemma_encoding_length(m);
}

} // verus!
