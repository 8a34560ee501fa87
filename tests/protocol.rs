use dns_proxy::protocol::{
    Flags, Message, Name, OpCode, ParseError, Rdata, Record, RecordClass, RecordType,
    ResponseCode, Ttl, TYPE_A, TYPE_CNAME, TYPE_OPT,
};

const XKCD_MESSAGE: [u8; 49] = [
    0x41, 0xde, 0x01, 0x20, 0x00, 0x01, 0x00, 0x00, 0x00, 0x00, 0x00, 0x01, 0x04, 0x78, 0x6b,
    0x63, 0x64, 0x03, 0x63, 0x6f, 0x6d, 0x00, 0x00, 0x01, 0x00, 0x01, 0x00, 0x00, 0x29, 0x10,
    0x00, 0x00, 0x00, 0x00, 0x00, 0x00, 0x0c, 0x00, 0x0a, 0x00, 0x08, 0x8f, 0x2d, 0xe3, 0x7b,
    0x74, 0x5d, 0x6b, 0x4d,
];

fn header(id: u16, flags: u16, counts: [u16; 4]) -> Vec<u8> {
    let mut out = vec![(id >> 8) as u8, id as u8, (flags >> 8) as u8, flags as u8];
    for c in counts {
        out.push((c >> 8) as u8);
        out.push(c as u8);
    }
    out
}

#[test]
fn test_message_parse() {
    let message = Message::parse(&XKCD_MESSAGE).unwrap();

    assert_eq!(message.id(), 0x41de);
    assert_eq!(message.flags(), Flags::new(0x0120));
    assert_eq!(message.questions().len(), 1);
    let q = &message.questions()[0];
    assert_eq!(q.name(), &Name::from_str("xkcd.com").unwrap());
    assert_eq!(q.type_(), RecordType::new(TYPE_A));
    assert_eq!(q.class(), RecordClass::new(0x01));
    assert!(message.answers().is_empty());
    assert!(message.authority_records().is_empty());
    assert_eq!(message.additional_records().len(), 1);
    let r = &message.additional_records()[0];
    assert_eq!(r.name(), &Name::from_str("").unwrap());
    assert_eq!(r.type_(), RecordType::new(TYPE_OPT));
    assert_eq!(r.class(), RecordClass::new(0x1000));
    assert_eq!(r.ttl(), Ttl::new(0));
    // The record's length field reads 12: its data is the EDNS cookie option that follows.
    assert_eq!(
        r.rdata(),
        &Rdata::Other {
            data: vec![0x00, 0x0a, 0x00, 0x08, 0x8f, 0x2d, 0xe3, 0x7b, 0x74, 0x5d, 0x6b, 0x4d]
        }
    );
}

#[test]
fn sample_query_round_trips_through_encode() {
    let message = Message::parse(&XKCD_MESSAGE).unwrap();
    let bytes = message.encode().unwrap();
    assert_eq!(bytes, XKCD_MESSAGE.to_vec());
    assert_eq!(Message::parse(&bytes).unwrap(), message);
}

#[test]
fn trailing_byte_is_extra() {
    let mut bytes = XKCD_MESSAGE.to_vec();
    bytes.push(0);
    assert!(matches!(Message::parse(&bytes), Err(ParseError::Extra)));
}

#[test]
fn short_buffers_are_truncated() {
    assert!(matches!(Message::parse(&[]), Err(ParseError::Truncated)));
    assert!(matches!(Message::parse(&XKCD_MESSAGE[..11]), Err(ParseError::Truncated)));
    // Every cut of the sample inside the body is truncated somewhere.
    for cut in 12..XKCD_MESSAGE.len() {
        assert!(
            matches!(Message::parse(&XKCD_MESSAGE[..cut]), Err(ParseError::Truncated)),
            "cut at {}",
            cut
        );
    }
}

#[test]
fn truncated_name_question_record_and_rdata() {
    let mut cursor = 0;
    assert_eq!(Name::parse(&[], &mut cursor), Err(ParseError::Truncated));
    let mut cursor = 0;
    assert_eq!(Name::parse(&[3, b'a', b'b'], &mut cursor), Err(ParseError::Truncated));
    let mut cursor = 0;
    assert_eq!(Name::parse(&[0xc0], &mut cursor), Err(ParseError::Truncated));
    let mut cursor = 0;
    assert!(matches!(
        dns_proxy::protocol::Question::parse(&[0, 0, 1, 0], &mut cursor),
        Err(ParseError::Truncated)
    ));
    let mut cursor = 0;
    assert!(matches!(
        Record::parse(&[0, 0, 1, 0, 1, 0, 0, 0], &mut cursor),
        Err(ParseError::Truncated)
    ));
    let mut cursor = 0;
    assert!(matches!(
        Rdata::parse(RecordType::new(TYPE_A), &[0], &mut cursor),
        Err(ParseError::Truncated)
    ));
    let mut cursor = 0;
    assert!(matches!(
        Rdata::parse(RecordType::new(TYPE_A), &[0, 4, 1, 2], &mut cursor),
        Err(ParseError::Truncated)
    ));
}

#[test]
fn pointer_to_itself_or_forward_is_invalid() {
    // A question whose name is a pointer to its own offset.
    let mut bytes = header(1, 0, [1, 0, 0, 0]);
    bytes.extend_from_slice(&[0xc0, 12, 0, 1, 0, 1]);
    assert!(matches!(Message::parse(&bytes), Err(ParseError::Invalid)));

    let mut cursor = 0;
    assert_eq!(Name::parse(&[0xc0, 0x05, 0, 0, 0, 0], &mut cursor), Err(ParseError::Invalid));
    let mut cursor = 0;
    assert_eq!(Name::parse(&[1, b'a', 0xc0, 0x02], &mut cursor), Err(ParseError::Invalid));
}

#[test]
fn pointer_cycle_through_earlier_offsets_is_invalid() {
    // Offset 0 holds a label of 19 bytes whose byte at offset 10 is a pointer back to 0; the
    // pointer at 20 leads to 10. Each pointer leads backwards, yet the chain never ends.
    let mut bytes = vec![0u8; 22];
    bytes[0] = 19;
    for b in bytes.iter_mut().take(20).skip(1) {
        *b = b'a';
    }
    bytes[10] = 0xc0;
    bytes[11] = 0;
    bytes[20] = 0xc0;
    bytes[21] = 10;
    let mut cursor = 0;
    assert_eq!(Name::parse(&bytes, &mut cursor), Err(ParseError::Invalid));
}

#[test]
fn bad_label_tag_is_invalid() {
    let mut cursor = 0;
    assert_eq!(Name::parse(&[0x40, 0], &mut cursor), Err(ParseError::Invalid));
    let mut cursor = 0;
    assert_eq!(Name::parse(&[0x80, 0], &mut cursor), Err(ParseError::Invalid));
}

#[test]
fn compressed_name_expands_backwards() {
    // "a" at 0, then "b" followed by a pointer to 0.
    let bytes = [1, b'a', 0, 1, b'b', 0xc0, 0x00, 0xff];
    let mut cursor = 3;
    let name = Name::parse(&bytes, &mut cursor).unwrap();
    assert_eq!(cursor, 7);
    assert_eq!(name.to_text(), b"b.a".to_vec());
    assert_eq!(name, Name::from_str("b.a").unwrap());
}

#[test]
fn rdata_length_checks() {
    let mut cursor = 0;
    assert!(matches!(
        Rdata::parse(RecordType::new(TYPE_A), &[0, 3, 1, 2, 3], &mut cursor),
        Err(ParseError::Invalid)
    ));
    let mut cursor = 0;
    assert!(matches!(
        Rdata::parse(RecordType::new(28), &[0, 4, 1, 2, 3, 4], &mut cursor),
        Err(ParseError::Invalid)
    ));
    let mut cursor = 0;
    assert_eq!(
        Rdata::parse(RecordType::new(TYPE_A), &[0, 4, 10, 0, 0, 1], &mut cursor),
        Ok(Rdata::A { ip: [10, 0, 0, 1] })
    );
    assert_eq!(cursor, 6);
}

#[test]
fn cname_must_fill_its_rdata() {
    // A CNAME whose data holds the name "a" and one spare byte.
    let bytes = [0, 4, 1, b'a', 0, 7];
    let mut cursor = 0;
    assert!(matches!(
        Rdata::parse(RecordType::new(TYPE_CNAME), &bytes, &mut cursor),
        Err(ParseError::Extra)
    ));
    // A CNAME that points back into the message.
    let bytes = [1, b'x', 0, 0, 2, 0xc0, 0x00];
    let mut cursor = 3;
    let rdata = Rdata::parse(RecordType::new(TYPE_CNAME), &bytes, &mut cursor).unwrap();
    assert_eq!(cursor, 7);
    assert_eq!(rdata, Rdata::Cname { name: Name::from_str("x").unwrap() });
}

#[test]
fn name_text_conversions() {
    let n = Name::from_str("www.example.com").unwrap();
    assert_eq!(n.to_text(), b"www.example.com".to_vec());
    assert_eq!(Name::from_str("").unwrap().to_text(), Vec::<u8>::new());
    assert!(Name::from_str("a..b").is_err());
    assert!(Name::from_str(".a").is_err());
    assert!(Name::from_str("a.").is_err());
    assert!(Name::from_str(".").is_err());
    assert!(Name::from_str("a").is_ok());
    assert!(Name::from_str(&"x".repeat(64)).is_err());
    assert!(Name::from_str(&"x".repeat(63)).is_ok());
    assert!(Name::from_labels(&[3, b'c', b'o', b'm']).is_some());
    assert!(Name::from_labels(&[4, b'c', b'o', b'm']).is_none());
}

#[test]
fn flags_parts_round_trip() {
    let f = Flags::from_parts(
        true,
        OpCode::new(5),
        false,
        true,
        true,
        false,
        ResponseCode::new(3),
    );
    assert_eq!(f.value, 0x8000 | (5 << 11) | 0x0200 | 0x0100 | 3);
    assert!(f.is_reply());
    assert_eq!(f.opcode(), OpCode::new(5));
    assert!(!f.is_authoritative_answer());
    assert!(f.is_truncated());
    assert!(f.recursion_desired());
    assert!(!f.recursion_available());
    assert_eq!(f.response_code(), ResponseCode::new(3));

    let sample = Flags::new(0x0120);
    assert!(!sample.is_reply());
    assert_eq!(sample.opcode(), OpCode::new(0));
    assert!(sample.recursion_desired());
    assert!(!sample.recursion_available());
    assert_eq!(sample.response_code(), ResponseCode::new(0));
}

#[test]
fn record_new_checks_type_and_data() {
    let name = Name::from_str("a.example").unwrap();
    let ok = Record::new(
        name.clone(),
        RecordType::new(TYPE_A),
        RecordClass::new(1),
        Ttl::new(60),
        Rdata::A { ip: [1, 2, 3, 4] },
    );
    assert!(ok.is_some());
    let wrong_type = Record::new(
        name.clone(),
        RecordType::new(TYPE_CNAME),
        RecordClass::new(1),
        Ttl::new(60),
        Rdata::A { ip: [1, 2, 3, 4] },
    );
    assert!(wrong_type.is_none());
    let other_as_a = Record::new(
        name,
        RecordType::new(TYPE_A),
        RecordClass::new(1),
        Ttl::new(60),
        Rdata::Other { data: vec![1, 2, 3, 4] },
    );
    assert!(other_as_a.is_none());
}

#[test]
fn local_reply_encodes_and_decodes() {
    let query = Message::parse(&XKCD_MESSAGE).unwrap();
    let record = Record::new(
        Name::from_str("xkcd.com").unwrap(),
        RecordType::new(TYPE_A),
        RecordClass::new(1),
        Ttl::new(300),
        Rdata::A { ip: [127, 0, 0, 1] },
    )
    .unwrap();
    let reply = Message::local_reply(&query, &vec![record.clone()]);
    let bytes = reply.encode().unwrap();
    let decoded = Message::parse(&bytes).unwrap();
    assert_eq!(decoded, reply);
    assert_eq!(decoded.id(), 0x41de);
    assert!(decoded.flags().is_reply());
    assert_eq!(decoded.questions(), query.questions());
    assert_eq!(decoded.answers(), &vec![record]);
    assert!(decoded.additional_records().is_empty());
}
