use ccp_agent::error::Error;
use ccp_agent::pattern::Pattern;
use ccp_agent::serialize::create;
use ccp_agent::serialize::{
    deserialize, deserialize_header, serialize_header, AsRawMsg, CreateMsg, DropMsg, MeasureMsg,
    Msg, PatternMsg, RMsg, RawMsg,
};

#[test]
fn measure_round_trip() {
    let m = MeasureMsg { sid: 7, ack: 1000, rtt_us: 25_000, rin: 1_000_000, rout: 900_000 };
    let buf = RMsg(m).serialize().unwrap();
    assert_eq!(buf.len(), 30);
    assert_eq!(
        buf,
        vec![
            0x01, 0x1e, 0x07, 0x00, 0x00, 0x00, // header
            0xe8, 0x03, 0x00, 0x00, // ack
            0xa8, 0x61, 0x00, 0x00, // rtt_us
            0x40, 0x42, 0x0f, 0x00, 0x00, 0x00, 0x00, 0x00, // rin
            0xa0, 0xbb, 0x0d, 0x00, 0x00, 0x00, 0x00, 0x00, // rout
        ]
    );
    assert_eq!(Msg::from_buf(&buf), Ok(Msg::Ms(m)));
}

#[test]
fn create_round_trip() {
    let m = CreateMsg { sid: 15, start_seq: 0x0102_0304, cong_alg: String::from("reno") };
    let buf = RMsg(m.clone()).serialize().unwrap();
    assert_eq!(
        buf,
        vec![0x00, 14, 15, 0, 0, 0, 0x04, 0x03, 0x02, 0x01, b'r', b'e', b'n', b'o']
    );
    assert_eq!(Msg::from_buf(&buf), Ok(Msg::Cr(m)));
}

#[test]
fn create_with_text_beyond_ascii() {
    let m = CreateMsg { sid: 1, start_seq: 2, cong_alg: String::from("c\u{00fc}bic\u{2713}") };
    let buf = RMsg(m.clone()).serialize().unwrap();
    assert_eq!(buf.len(), 6 + 4 + 9);
    assert_eq!(buf[1], 19);
    assert_eq!(Msg::from_buf(&buf), Ok(Msg::Cr(m)));
}

#[test]
fn drop_round_trip() {
    let m = DropMsg { sid: 0xdead_beef, event: String::from("timeout") };
    let buf = RMsg(m.clone()).serialize().unwrap();
    assert_eq!(
        buf,
        vec![0x02, 13, 0xef, 0xbe, 0xad, 0xde, b't', b'i', b'm', b'e', b'o', b'u', b't']
    );
    assert_eq!(Msg::from_buf(&buf), Ok(Msg::Dr(m)));
}

#[test]
fn pattern_round_trip() {
    let m = PatternMsg { sid: 3, pattern: Pattern { bytes: vec![9, 8, 7, 0, 255] } };
    let buf = RMsg(m.clone()).serialize().unwrap();
    assert_eq!(buf, vec![0x03, 11, 3, 0, 0, 0, 9, 8, 7, 0, 255]);
    assert_eq!(Msg::from_buf(&buf), Ok(Msg::Pt(m)));
}

#[test]
fn empty_payloads_round_trip() {
    let d = DropMsg { sid: 1, event: String::new() };
    let buf = RMsg(d.clone()).serialize().unwrap();
    assert_eq!(buf, vec![2, 6, 1, 0, 0, 0]);
    assert_eq!(Msg::from_buf(&buf), Ok(Msg::Dr(d)));
    let p = PatternMsg { sid: 1, pattern: Pattern { bytes: vec![] } };
    let buf = RMsg(p.clone()).serialize().unwrap();
    assert_eq!(buf, vec![3, 6, 1, 0, 0, 0]);
    assert_eq!(Msg::from_buf(&buf), Ok(Msg::Pt(p)));
}

#[test]
fn flow_tuple_create_round_trip() {
    let m = create::Msg {
        sid: 15,
        init_cwnd: 1448 * 10,
        mss: 1448,
        src_ip: 0,
        src_port: 4242,
        dst_ip: 0,
        dst_port: 4242,
    };
    let buf = RMsg(m).serialize().unwrap();
    assert_eq!(buf.len(), 30);
    assert_eq!(&buf[..6], &[0u8, 30, 15, 0, 0, 0]);
    assert_eq!(&buf[6..10], &[0x90u8, 0x38, 0, 0]);
    assert_eq!(&buf[10..14], &[0xa8u8, 0x05, 0, 0]);
    let raw = deserialize(&buf).unwrap();
    assert_eq!(create::Msg::from_raw_msg(raw), Ok(m));
}

#[test]
fn second_byte_is_the_length() {
    for n in [0usize, 1, 17, 100, 249] {
        let m = DropMsg { sid: 5, event: "e".repeat(n) };
        let buf = RMsg(m).serialize().unwrap();
        assert_eq!(buf.len(), 6 + n);
        assert_eq!(buf[1] as usize, buf.len());
        assert!(buf.len() <= 255);
    }
}

#[test]
fn longest_messages() {
    let d = DropMsg { sid: 5, event: "e".repeat(249) };
    let buf = RMsg(d.clone()).serialize().unwrap();
    assert_eq!(buf.len(), 255);
    assert_eq!(Msg::from_buf(&buf), Ok(Msg::Dr(d)));
    let c = CreateMsg { sid: 5, start_seq: 1, cong_alg: "c".repeat(245) };
    let buf = RMsg(c.clone()).serialize().unwrap();
    assert_eq!(buf.len(), 255);
    assert_eq!(Msg::from_buf(&buf), Ok(Msg::Cr(c)));
    let p = PatternMsg { sid: 5, pattern: Pattern { bytes: vec![1; 249] } };
    let buf = RMsg(p.clone()).serialize().unwrap();
    assert_eq!(buf.len(), 255);
    assert_eq!(Msg::from_buf(&buf), Ok(Msg::Pt(p)));
}

#[test]
fn message_that_is_too_long_is_refused() {
    let d = DropMsg { sid: 5, event: "e".repeat(250) };
    assert_eq!(RMsg(d).serialize(), Err(Error::Malformed));
    let c = CreateMsg { sid: 5, start_seq: 1, cong_alg: "c".repeat(246) };
    assert_eq!(RMsg(c).serialize(), Err(Error::Malformed));
    let p = PatternMsg { sid: 5, pattern: Pattern { bytes: vec![1; 250] } };
    assert_eq!(RMsg(p).serialize(), Err(Error::Malformed));
    let p = PatternMsg { sid: 5, pattern: Pattern { bytes: vec![1; 70_000] } };
    assert_eq!(RMsg(p).serialize(), Err(Error::Malformed));
}

#[test]
fn unknown_tag_is_malformed() {
    for tag in [4u8, 5, 17, 128, 255] {
        let buf = vec![tag, 6, 0, 0, 0, 0];
        assert_eq!(Msg::from_buf(&buf), Err(Error::Malformed));
        let buf = vec![tag, 10, 1, 2, 3, 4, 5, 6, 7, 8];
        assert_eq!(Msg::from_buf(&buf), Err(Error::Malformed));
        let buf = vec![tag];
        assert_eq!(Msg::from_buf(&buf), Err(Error::Malformed));
    }
}

#[test]
fn truncated_message_is_malformed() {
    let m = MeasureMsg { sid: 7, ack: 1000, rtt_us: 25_000, rin: 1_000_000, rout: 900_000 };
    let mut buf = RMsg(m).serialize().unwrap();
    buf.pop();
    assert_eq!(Msg::from_buf(&buf), Err(Error::Malformed));
    let d = DropMsg { sid: 1, event: String::from("loss") };
    let mut buf = RMsg(d).serialize().unwrap();
    buf.pop();
    assert_eq!(Msg::from_buf(&buf), Err(Error::Malformed));
    let d = DropMsg { sid: 1, event: String::new() };
    let mut buf = RMsg(d).serialize().unwrap();
    buf.pop();
    assert_eq!(Msg::from_buf(&buf), Err(Error::Malformed));
}

#[test]
fn short_buffers_are_malformed() {
    assert_eq!(Msg::from_buf(&[]), Err(Error::Malformed));
    assert_eq!(Msg::from_buf(&[1]), Err(Error::Malformed));
    assert_eq!(Msg::from_buf(&[1, 30, 0, 0, 0]), Err(Error::Malformed));
    assert_eq!(deserialize_header(&[1, 30, 0, 0, 0]), Err(Error::Malformed));
}

#[test]
fn length_byte_must_fit_the_kind() {
    // a length below the header's own
    assert_eq!(Msg::from_buf(&[2, 5, 0, 0, 0, 0]), Err(Error::Malformed));
    assert_eq!(Msg::from_buf(&[2, 0, 0, 0, 0, 0]), Err(Error::Malformed));
    // a create message without room for its number
    assert_eq!(Msg::from_buf(&[0, 9, 0, 0, 0, 0, 1, 2, 3]), Err(Error::Malformed));
    // a measure message of another length than 30
    let mut buf = vec![1, 31];
    buf.extend_from_slice(&[0; 29]);
    assert_eq!(Msg::from_buf(&buf), Err(Error::Malformed));
    let mut buf = vec![1, 29];
    buf.extend_from_slice(&[0; 27]);
    assert_eq!(Msg::from_buf(&buf), Err(Error::Malformed));
}

#[test]
fn text_must_be_utf8() {
    assert_eq!(Msg::from_buf(&[2, 8, 1, 0, 0, 0, 0xff, 0xfe]), Err(Error::Utf8));
    assert_eq!(Msg::from_buf(&[0, 11, 1, 0, 0, 0, 9, 9, 9, 9, 0xc0]), Err(Error::Utf8));
    // the same bytes are fine as a pattern
    assert_eq!(
        Msg::from_buf(&[3, 8, 1, 0, 0, 0, 0xff, 0xfe]),
        Ok(Msg::Pt(PatternMsg { sid: 1, pattern: Pattern { bytes: vec![0xff, 0xfe] } }))
    );
}

#[test]
fn bytes_after_the_message_are_ignored() {
    let d = DropMsg { sid: 1, event: String::from("loss") };
    let mut buf = RMsg(d.clone()).serialize().unwrap();
    buf.extend_from_slice(&[0xff; 100]);
    assert_eq!(Msg::from_buf(&buf), Ok(Msg::Dr(d)));
}

#[test]
fn header_is_little_endian() {
    assert_eq!(serialize_header(3, 200, 0x0a0b_0c0d), vec![3, 200, 0x0d, 0x0c, 0x0b, 0x0a]);
    assert_eq!(
        deserialize_header(&[3, 200, 0x0d, 0x0c, 0x0b, 0x0a, 1, 2]),
        Ok((3, 200, 0x0a0b_0c0d))
    );
    assert_eq!(serialize_header(0, 6, u32::MAX), vec![0, 6, 255, 255, 255, 255]);
}

#[test]
fn sixty_four_bit_fields_are_little_endian() {
    let m = MeasureMsg {
        sid: 0,
        ack: u32::MAX,
        rtt_us: 0,
        rin: 0x0102_0304_0506_0708,
        rout: u64::MAX,
    };
    let buf = RMsg(m).serialize().unwrap();
    assert_eq!(&buf[6..10], &[255u8, 255, 255, 255]);
    assert_eq!(&buf[14..22], &[8u8, 7, 6, 5, 4, 3, 2, 1]);
    assert_eq!(&buf[22..30], &[255u8; 8]);
    assert_eq!(Msg::from_buf(&buf), Ok(Msg::Ms(m)));
}

#[test]
fn raw_message_fields() {
    let buf = [1u8, 30, 7, 0, 0, 0, 1, 0, 0, 0, 2, 0, 0, 0, 3, 0, 0, 0, 0, 0, 0, 0, 4, 0, 0, 0, 0, 0, 0, 0];
    let raw = deserialize(&buf).unwrap();
    assert_eq!(raw.typ, 1);
    assert_eq!(raw.len, 30);
    assert_eq!(raw.sid, 7);
    assert_eq!(raw.bytes.len(), 24);
    assert_eq!(raw.get_u32s(), Ok(vec![1, 2]));
    assert_eq!(raw.get_u64s(), Ok(vec![3, 4]));
    assert_eq!(raw.get_bytes(), Ok(&[][..]));
    let raw = RawMsg { typ: 0, len: 12, sid: 1, bytes: &[5, 0, 0, 0, b'a', b'b'] };
    assert_eq!(raw.get_u32s(), Ok(vec![5]));
    assert_eq!(raw.get_u64s(), Ok(vec![]));
    assert_eq!(raw.get_bytes(), Ok(&b"ab"[..]));
    let raw = RawMsg { typ: 9, len: 6, sid: 1, bytes: &[] };
    assert_eq!(raw.get_u32s(), Err(Error::Malformed));
    assert_eq!(raw.get_u64s(), Err(Error::Malformed));
    assert_eq!(raw.get_bytes(), Err(Error::Malformed));
    let raw = RawMsg { typ: 1, len: 13, sid: 1, bytes: &[0; 7] };
    assert_eq!(raw.get_u32s(), Err(Error::Malformed));
    assert_eq!(raw.get_u64s(), Err(Error::Malformed));
}

#[test]
fn payload_ends_where_the_length_field_says() {
    // more bytes at hand than the length field counts
    let raw = RawMsg { typ: 2, len: 8, sid: 0x0a0b_0c0d, bytes: &[0x6f, 0x6b, 0x21] };
    assert_eq!(raw.payload(), Ok(&b"ok"[..]));
    assert_eq!(raw.get_bytes(), Ok(&b"ok"[..]));
    let raw = RawMsg { typ: 2, len: 8, sid: 0x0a0b_0c0d, bytes: &[0x6f, 0x6b, 0x21] };
    assert_eq!(
        DropMsg::from_raw_msg(raw),
        Ok(DropMsg { sid: 0x0a0b_0c0d, event: String::from("ok") })
    );
    let raw = RawMsg { typ: 0, len: 12, sid: 1, bytes: &[5, 0, 0, 0, b'a', b'b', b'c', 0xff] };
    assert_eq!(raw.get_bytes(), Ok(&b"ab"[..]));
    assert_eq!(raw.get_u32s(), Ok(vec![5]));
    let raw = RawMsg { typ: 0, len: 12, sid: 1, bytes: &[5, 0, 0, 0, b'a', b'b', b'c', 0xff] };
    assert_eq!(
        CreateMsg::from_raw_msg(raw),
        Ok(CreateMsg { sid: 1, start_seq: 5, cong_alg: String::from("ab") })
    );
    let raw = RawMsg { typ: 3, len: 7, sid: 1, bytes: &[9, 8, 7] };
    assert_eq!(
        PatternMsg::from_raw_msg(raw),
        Ok(PatternMsg { sid: 1, pattern: Pattern { bytes: vec![9] } })
    );
    // bytes beyond the text need not be UTF-8
    let raw = RawMsg { typ: 2, len: 7, sid: 1, bytes: &[b'x', 0xff, 0xfe] };
    assert_eq!(DropMsg::from_raw_msg(raw), Ok(DropMsg { sid: 1, event: String::from("x") }));
}

#[test]
fn length_field_that_does_not_fit_is_malformed() {
    for typ in [0u8, 1, 2, 3] {
        // a length below the header's own
        let raw = RawMsg { typ, len: 5, sid: 1, bytes: &[0; 40] };
        assert_eq!(raw.payload(), Err(Error::Malformed));
        assert_eq!(raw.get_bytes(), Err(Error::Malformed));
        assert_eq!(raw.get_u32s(), Err(Error::Malformed));
        assert_eq!(raw.get_u64s(), Err(Error::Malformed));
        let raw = RawMsg { typ, len: 0, sid: 1, bytes: &[0; 40] };
        assert_eq!(Msg::from_raw_msg(raw), Err(Error::Malformed));
        // a length beyond the bytes at hand
        let raw = RawMsg { typ, len: 40, sid: 1, bytes: &[0; 33] };
        assert_eq!(raw.payload(), Err(Error::Malformed));
        assert_eq!(raw.get_bytes(), Err(Error::Malformed));
        assert_eq!(raw.get_u32s(), Err(Error::Malformed));
        assert_eq!(raw.get_u64s(), Err(Error::Malformed));
        let raw = RawMsg { typ, len: 40, sid: 1, bytes: &[0; 33] };
        assert_eq!(Msg::from_raw_msg(raw), Err(Error::Malformed));
    }
    // a create message whose length leaves no room for its number
    let raw = RawMsg { typ: 0, len: 9, sid: 1, bytes: &[1, 2, 3, 4, 5] };
    assert_eq!(raw.get_bytes(), Err(Error::Malformed));
    assert_eq!(raw.get_u32s(), Err(Error::Malformed));
    let raw = RawMsg { typ: 0, len: 9, sid: 1, bytes: &[1, 2, 3, 4, 5] };
    assert_eq!(CreateMsg::from_raw_msg(raw), Err(Error::Malformed));
}

#[test]
fn measure_is_thirty_bytes_whatever_follows() {
    let mut bytes = vec![1u8, 0, 0, 0, 2, 0, 0, 0, 3, 0, 0, 0, 0, 0, 0, 0, 4, 0, 0, 0, 0, 0, 0, 0];
    let want = MeasureMsg { sid: 7, ack: 1, rtt_us: 2, rin: 3, rout: 4 };
    let raw = RawMsg { typ: 1, len: 30, sid: 7, bytes: &bytes };
    assert_eq!(MeasureMsg::from_raw_msg(raw), Ok(want));
    // a length field other than 30, with 24 bytes at hand
    let raw = RawMsg { typ: 1, len: 29, sid: 7, bytes: &bytes };
    assert_eq!(MeasureMsg::from_raw_msg(raw), Err(Error::Malformed));
    let raw = RawMsg { typ: 1, len: 6, sid: 7, bytes: &bytes };
    assert_eq!(MeasureMsg::from_raw_msg(raw), Err(Error::Malformed));
    // more than 24 bytes at hand
    bytes.extend_from_slice(&[0xaa; 10]);
    let raw = RawMsg { typ: 1, len: 30, sid: 7, bytes: &bytes };
    assert_eq!(MeasureMsg::from_raw_msg(raw), Ok(want));
    let raw = RawMsg { typ: 1, len: 30, sid: 7, bytes: &bytes };
    assert_eq!(raw.get_u32s(), Ok(vec![1, 2]));
    assert_eq!(raw.get_u64s(), Ok(vec![3, 4]));
    let raw = RawMsg { typ: 1, len: 31, sid: 7, bytes: &bytes };
    assert_eq!(MeasureMsg::from_raw_msg(raw), Err(Error::Malformed));
    // fewer than 24 bytes at hand
    let raw = RawMsg { typ: 1, len: 30, sid: 7, bytes: &bytes[..23] };
    assert_eq!(MeasureMsg::from_raw_msg(raw), Err(Error::Malformed));
}

#[test]
fn flow_tuple_create_is_thirty_bytes_whatever_follows() {
    let mut bytes = vec![0u8; 24];
    bytes[0] = 10;
    bytes[20] = 0x92;
    bytes[21] = 0x10;
    let want = create::Msg {
        sid: 3,
        init_cwnd: 10,
        mss: 0,
        src_ip: 0,
        src_port: 0,
        dst_ip: 0,
        dst_port: 4242,
    };
    let raw = RawMsg { typ: 0, len: 30, sid: 3, bytes: &bytes };
    assert_eq!(create::Msg::from_raw_msg(raw), Ok(want));
    let raw = RawMsg { typ: 0, len: 29, sid: 3, bytes: &bytes };
    assert_eq!(create::Msg::from_raw_msg(raw), Err(Error::Malformed));
    bytes.push(0xff);
    let raw = RawMsg { typ: 0, len: 30, sid: 3, bytes: &bytes };
    assert_eq!(create::Msg::from_raw_msg(raw), Ok(want));
    let raw = RawMsg { typ: 0, len: 30, sid: 3, bytes: &bytes[..20] };
    assert_eq!(create::Msg::from_raw_msg(raw), Err(Error::Malformed));
    let raw = RawMsg { typ: 1, len: 30, sid: 3, bytes: &bytes };
    assert_eq!(create::Msg::from_raw_msg(raw), Err(Error::Malformed));
}

#[test]
fn payload_is_read_as_the_kind_that_the_tag_names() {
    let raw = RawMsg { typ: 2, len: 8, sid: 1, bytes: b"ab" };
    assert_eq!(CreateMsg::from_raw_msg(raw), Err(Error::Malformed));
    let raw = RawMsg { typ: 2, len: 8, sid: 1, bytes: b"ab" };
    assert_eq!(
        DropMsg::from_raw_msg(raw),
        Ok(DropMsg { sid: 1, event: String::from("ab") })
    );
    let raw = RawMsg { typ: 2, len: 8, sid: 1, bytes: b"ab" };
    assert_eq!(
        Msg::from_raw_msg(raw),
        Ok(Msg::Dr(DropMsg { sid: 1, event: String::from("ab") }))
    );
}

#[test]
fn pattern_bytes() {
    let p = Pattern { bytes: vec![1, 2, 3] };
    assert_eq!(p.len_bytes(), 3);
    let mut w = vec![0u8];
    assert_eq!(p.serialize(&mut w), Ok(()));
    assert_eq!(w, vec![0, 1, 2, 3]);
    assert_eq!(Pattern::deserialize(&w[1..]), Ok(p));
}
