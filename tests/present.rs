use dns_proxy::protocol::{
    Flags, Message, Name, OpCode, Rdata, RecordClass, RecordType, ResponseCode, Ttl,
};

const XKCD_MESSAGE: [u8; 49] = [
    0x41, 0xde, 0x01, 0x20, 0x00, 0x01, 0x00, 0x00, 0x00, 0x00, 0x00, 0x01, 0x04, 0x78, 0x6b,
    0x63, 0x64, 0x03, 0x63, 0x6f, 0x6d, 0x00, 0x00, 0x01, 0x00, 0x01, 0x00, 0x00, 0x29, 0x10,
    0x00, 0x00, 0x00, 0x00, 0x00, 0x00, 0x0c, 0x00, 0x0a, 0x00, 0x08, 0x8f, 0x2d, 0xe3, 0x7b,
    0x74, 0x5d, 0x6b, 0x4d,
];

#[test]
fn ttl_breakdown() {
    assert_eq!(Ttl::new(0).to_string(), "0s");
    assert_eq!(Ttl::new(59).to_string(), "59s");
    assert_eq!(Ttl::new(3600).to_string(), "1h");
    assert_eq!(Ttl::new(90061).to_string(), "1d1h1m1s");
    assert_eq!(Ttl::new(86400 * 3 + 120).to_string(), "3d2m");
    assert_eq!(Ttl::new(u32::MAX).to_string(), "49710d6h28m15s");
}

#[test]
fn record_type_names() {
    assert_eq!(RecordType::new(1).to_string(), "A (1)");
    assert_eq!(RecordType::new(28).to_string(), "AAAA (28)");
    assert_eq!(RecordType::new(41).to_string(), "OPT (41)");
    assert_eq!(RecordType::new(54).to_string(), "Unassigned (54)");
    assert_eq!(RecordType::new(70).to_string(), "Unassigned (70)");
    assert_eq!(RecordType::new(255).name(), "*");
    assert_eq!(RecordType::new(32769).name(), "DLV");
    assert_eq!(RecordType::new(65300).name(), "Private use");
    assert_eq!(RecordType::new(65535).name(), "Reserved");
    assert_eq!(RecordType::new(0).name(), "Reserved");
}

#[test]
fn class_opcode_and_status_names() {
    assert_eq!(RecordClass::new(1).to_string(), "Internet (IN) (1)");
    assert_eq!(RecordClass::new(255).name(), "QCLASS * (ANY)");
    assert_eq!(RecordClass::new(4096).name(), "Unassigned");
    assert_eq!(OpCode::new(3).to_string(), "Unassigned (3)");
    assert_eq!(OpCode::new(6).name(), "DNS Stateful Operations");
    assert_eq!(ResponseCode::new(3).to_string(), "NXDomain (3)");
    assert_eq!(ResponseCode::new(11).name(), "DSOTYPENI");
    assert_eq!(ResponseCode::new(12).name(), "Unassigned");
}

#[test]
fn flags_text() {
    assert_eq!(
        Flags::new(0x0120).to_string(),
        "Type: Query  Opcode: Query (0)  Status: NoError (0)  RD  (288)"
    );
    assert_eq!(
        Flags::new(0x8583).to_string(),
        "Type: Reply  Opcode: Query (0)  Status: NXDomain (3)  AA  RD  RA  (34179)"
    );
}

#[test]
fn name_and_rdata_text() {
    assert_eq!(Name::from_str("xkcd.com").unwrap().to_string(), "xkcd.com");
    assert_eq!(Name::from_labels(&[2, 0x01, b'a']).unwrap().to_string(), "\\x01a");
    assert_eq!(Rdata::A { ip: [10, 0, 0, 1] }.to_string(), "10.0.0.1");
    let mut ip = [0u8; 16];
    ip[0] = 0x20;
    ip[1] = 0x01;
    ip[2] = 0x0d;
    ip[3] = 0xb8;
    ip[15] = 1;
    assert_eq!(Rdata::Aaaa { ip }.to_string(), "2001:db8::1");
    assert_eq!(Rdata::Other { data: vec![b'h', b'i', 0x7f] }.to_string(), "hi\\x7f");
}

#[test]
fn message_text() {
    let message = Message::parse(&XKCD_MESSAGE).unwrap();
    assert_eq!(
        message.to_string(),
        "ID: 16862\nFlags:\n  Type: Query  Opcode: Query (0)  Status: NoError (0)  RD  (288)\n\
         Questions:\n  Name: xkcd.com  Type: A (1)  Class:  Internet (IN) (1)\n\
         Additional records:\n  Name:   Type: OPT (41)  Class:  Unassigned (4096)  TTL: 0s  \
         Record data: \\x00\\x0a\\x00\\x08\\x8f-\\xe3{t]kM\n"
    );
}

fn v6(groups: [u16; 8]) -> String {
    let mut ip = [0u8; 16];
    for (k, g) in groups.iter().enumerate() {
        ip[2 * k] = (g >> 8) as u8;
        ip[2 * k + 1] = *g as u8;
    }
    Rdata::Aaaa { ip }.to_string()
}

#[test]
fn ipv6_shortest_form() {
    assert_eq!(v6([0; 8]), "::");
    assert_eq!(v6([0, 0, 0, 0, 0, 0, 0, 1]), "::1");
    assert_eq!(v6([1, 0, 0, 0, 0, 0, 0, 0]), "1::");
    assert_eq!(v6([0, 0, 0, 0, 0, 0xffff, 0x0102, 0x0304]), "::ffff:1.2.3.4");
    assert_eq!(v6([1, 0, 0, 2, 0, 0, 0, 3]), "1:0:0:2::3");
    assert_eq!(v6([1, 0, 0, 2, 0, 0, 3, 4]), "1::2:0:0:3:4");
    assert_eq!(v6([1, 0, 2, 0, 3, 0, 4, 0]), "1:0:2:0:3:0:4:0");
    assert_eq!(v6([0xfe80, 0, 0, 0, 0x1ff, 0xfe23, 0x4567, 0x890a]), "fe80::1ff:fe23:4567:890a");
}
