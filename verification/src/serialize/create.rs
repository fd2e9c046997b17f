//! The other shape of the message that announces a new flow: the flow's
//! addresses and its initial window, six 32-bit numbers in all.
//!
//! It uses the same tag as `CreateMsg`, so the two cannot be told apart on
//! the wire. A deployment speaks one of them; the decoder `Msg::from_buf`
//! reads the tag as a `CreateMsg`.

use super::{
    counted, u32_from_le, u32_from_u8s, u32_le, u32_to_u8s, AsRawMsg, RawMsg, CREATE, HDR_LENGTH,
};
use crate::error::Error;
use vstd::prelude::*;

verus! {

/// Sent by the datapath when a flow starts: who speaks to whom, and the
/// window that the flow starts with.
#[derive(Copy, Clone, Debug, PartialEq, Eq, Structural)]
pub struct Msg {
    pub sid: u32,
    pub init_cwnd: u32,
    pub mss: u32,
    pub src_ip: u32,
    pub src_port: u32,
    pub dst_ip: u32,
    pub dst_port: u32,
}

impl View for Msg {
    type V = Msg;

    open spec fn view(&self) -> Msg {
        *self
    }
}

/// Appends the four bytes of `num` to `w`.
fn push_u32(w: &mut Vec<u8>, num: u32)
    ensures
        final(w)@ == old(w)@ + u32_le(num),
{
    let mut buf = [0u8; 4];
    u32_to_u8s(&mut buf, num);
    w.extend_from_slice(&buf);
}

/// The number that stands at offset `at` of `bytes`.
fn u32_at(bytes: &[u8], at: usize) -> (num: u32)
    requires
        at + 4 <= bytes@.len(),
    ensures
        num == u32_from_le(bytes@.skip(at as int)),
{
    let n = bytes.len();
    let rest = &bytes[at..n];
    assert(rest@ == bytes@.skip(at as int));
    u32_from_u8s(rest)
}

impl AsRawMsg for Msg {
    open spec fn spec_typ(&self) -> u8 {
        CREATE
    }

    open spec fn spec_sid(&self) -> u32 {
        self.sid
    }

    open spec fn wire_u32s(&self) -> Seq<u8> {
        u32_le(self.init_cwnd) + u32_le(self.mss) + u32_le(self.src_ip) + u32_le(self.src_port)
            + u32_le(self.dst_ip) + u32_le(self.dst_port)
    }

    open spec fn wire_u64s(&self) -> Seq<u8> {
        Seq::empty()
    }

    open spec fn wire_bytes(&self) -> Seq<u8> {
        Seq::empty()
    }

    open spec fn spec_from_raw(typ: u8, len: u8, sid: u32, bytes: Seq<u8>) -> Result<Msg, Error> {
        match counted(len, bytes) {
            None => Err(Error::Malformed),
            Some(payload) => if typ != CREATE || len != 30 {
                Err(Error::Malformed)
            } else {
                Ok(
                    Msg {
                        sid,
                        init_cwnd: u32_from_le(payload.skip(0)),
                        mss: u32_from_le(payload.skip(4)),
                        src_ip: u32_from_le(payload.skip(8)),
                        src_port: u32_from_le(payload.skip(12)),
                        dst_ip: u32_from_le(payload.skip(16)),
                        dst_port: u32_from_le(payload.skip(20)),
                    },
                )
            },
        }
    }

    fn get_hdr(&self) -> (r: Result<(u8, u8, u32), Error>) {
        Ok((CREATE, HDR_LENGTH + 6 * 4, self.sid))
    }

    fn get_u32s(&self, w: &mut Vec<u8>) -> (r: Result<(), Error>) {
        push_u32(w, self.init_cwnd);
        push_u32(w, self.mss);
        push_u32(w, self.src_ip);
        push_u32(w, self.src_port);
        push_u32(w, self.dst_ip);
        push_u32(w, self.dst_port);
        assert(w@ =~= old(w)@ + self.wire_u32s());
        Ok(())
    }

    fn get_u64s(&self, w: &mut Vec<u8>) -> (r: Result<(), Error>) {
        Ok(())
    }

    fn get_bytes(&self, w: &mut Vec<u8>) -> (r: Result<(), Error>) {
        Ok(())
    }

    fn from_raw_msg(msg: RawMsg) -> (r: Result<Self, Error>) {
        let bytes = match msg.payload() {
            Ok(b) => b,
            Err(e) => {
                return Err(e);
            },
        };
        if msg.typ != CREATE || msg.len != HDR_LENGTH + 6 * 4 {
            return Err(Error::Malformed);
        }
        Ok(
            Msg {
                sid: msg.sid,
                init_cwnd: u32_at(bytes, 0),
                mss: u32_at(bytes, 4),
                src_ip: u32_at(bytes, 8),
                src_port: u32_at(bytes, 12),
                dst_ip: u32_at(bytes, 16),
                dst_port: u32_at(bytes, 20),
            },
        )
    }

    proof fn lemma_from_raw_inverse(&self, after: Seq<u8>) {
        let p = self.wire_u32s() + self.wire_u64s() + self.wire_bytes();
        assert((p + after).take(p.len() as int) =~= p);
        super::lemma_u32_le_inverse(self.init_cwnd);
        super::lemma_u32_le_inverse(self.mss);
        super::lemma_u32_le_inverse(self.src_ip);
        super::lemma_u32_le_inverse(self.src_port);
        super::lemma_u32_le_inverse(self.dst_ip);
        super::lemma_u32_le_inverse(self.dst_port);
        assert(u32_from_le(p.skip(0)) == u32_from_le(u32_le(self.init_cwnd)));
        assert(u32_from_le(p.skip(4)) == u32_from_le(u32_le(self.mss)));
        assert(u32_from_le(p.skip(8)) == u32_from_le(u32_le(self.src_ip)));
        assert(u32_from_le(p.skip(12)) == u32_from_le(u32_le(self.src_port)));
        assert(u32_from_le(p.skip(16)) == u32_from_le(u32_le(self.dst_ip)));
        assert(u32_from_le(p.skip(20)) == u32_from_le(u32_le(self.dst_port)));
    }
}

} // verus!
