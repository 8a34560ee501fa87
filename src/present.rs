use vstd::prelude::*;

use crate::protocol::{
    flag_bit, question_views, record_views, text_of, Flags, Message, MessageView, Name, OpCode,
    Question, QuestionView, Rdata, RdataView, Record, RecordClass, RecordType, RecordView,
    ResponseCode, Ttl,
};

verus! {

/// Relies on String::push: it appends the character at the end.
#[verifier::external_body]
fn push_char(s: &mut String, c: char)
    ensures
        final(s)@ == old(s)@.push(c),
{
    s.push(c)
}

/// The lower-case digit for `d`, below 16.
pub open spec fn digit(d: nat) -> char {
    (if d < 10 {
        48 + d
    } else {
        87 + d
    }) as u8 as char
}

/// `n` in decimal.
pub open spec fn decimal(n: nat) -> Seq<char>
    decreases n,
{
    if n < 10 {
        seq![digit(n)]
    } else {
        decimal(n / 10).push(digit(n % 10))
    }
}

/// `n` in lower-case hexadecimal, without leading zeros.
pub open spec fn hex(n: nat) -> Seq<char>
    decreases n,
{
    if n < 16 {
        seq![digit(n)]
    } else {
        hex(n / 16).push(digit(n % 16))
    }
}

fn push_digit(s: &mut String, d: u64)
    requires
        d < 16,
    ensures
        final(s)@ == old(s)@.push(digit(d as nat)),
{
    let c: u8 = if d < 10 {
        48 + d as u8
    } else {
        87 + d as u8
    };
    push_char(s, c as char);
}

/// Appends `n` in decimal.
pub fn push_decimal(s: &mut String, n: u64)
    ensures
        final(s)@ == old(s)@ + decimal(n as nat),
    decreases n,
{
    if n >= 10 {
        push_decimal(s, n / 10);
    }
    push_digit(s, n % 10);
    assert(final(s)@ =~= old(s)@ + decimal(n as nat));
}

/// Appends `n` in hexadecimal.
pub fn push_hex(s: &mut String, n: u64)
    ensures
        final(s)@ == old(s)@ + hex(n as nat),
    decreases n,
{
    if n >= 16 {
        push_hex(s, n / 16);
    }
    push_digit(s, n % 16);
    assert(final(s)@ =~= old(s)@ + hex(n as nat));
}

/// A byte as text: itself where it is printable ASCII, `\xNN` otherwise.
pub open spec fn byte_text(b: u8) -> Seq<char> {
    if 32 <= b < 127 {
        seq![b as char]
    } else {
        seq!['\\', 'x', digit(b as nat / 16), digit(b as nat % 16)]
    }
}

pub open spec fn escaped(t: Seq<u8>) -> Seq<char>
    decreases t.len(),
{
    if t.len() == 0 {
        Seq::empty()
    } else {
        escaped(t.drop_last()) + byte_text(t.last())
    }
}

/// Appends the bytes of `t`, escaping those that are not printable ASCII.
pub fn push_escaped(s: &mut String, t: &[u8])
    ensures
        final(s)@ == old(s)@ + escaped(t@),
{
    let ghost start = s@;
    let mut i: usize = 0;
    assert(t@.take(0) =~= Seq::<u8>::empty());
    while i < t.len()
        invariant
            i <= t@.len(),
            s@ == start + escaped(t@.take(i as int)),
        decreases t@.len() - i,
    {
        let b = t[i];
        if 32 <= b && b < 127 {
            push_char(s, b as char);
        } else {
            push_char(s, '\\');
            push_char(s, 'x');
            push_digit(s, (b / 16) as u64);
            push_digit(s, (b % 16) as u64);
        }
        proof {
            assert(t@.take(i + 1).drop_last() =~= t@.take(i as int));
            assert(t@.take(i + 1).last() == b);
        }
        i = i + 1;
        assert(s@ =~= start + escaped(t@.take(i as int)));
    }
    assert(t@.take(i as int) =~= t@);
}

/// A code as text: its name, then its value in parentheses.
pub open spec fn coded(name: Seq<char>, v: u16) -> Seq<char> {
    name + " ("@ + decimal(v as nat) + ")"@
}

fn push_coded(s: &mut String, name: &str, v: u16)
    ensures
        final(s)@ == old(s)@ + coded(name@, v),
{
    s.append(name);
    s.append(" (");
    push_decimal(s, v as u64);
    s.append(")");
    assert(final(s)@ =~= old(s)@ + coded(name@, v));
}

pub open spec fn record_type_name(v: u16) -> Seq<char> {
    if v == 0 {
        "Reserved"@
    } else if v == 1 {
        "A"@
    } else if v == 2 {
        "NS"@
    } else if v == 3 {
        "MD"@
    } else if v == 4 {
        "MF"@
    } else if v == 5 {
        "CNAME"@
    } else if v == 6 {
        "SOA"@
    } else if v == 7 {
        "MB"@
    } else if v == 8 {
        "MG"@
    } else if v == 9 {
        "MR"@
    } else if v == 10 {
        "NULL"@
    } else if v == 11 {
        "WKS"@
    } else if v == 12 {
        "PTR"@
    } else if v == 13 {
        "HINFO"@
    } else if v == 14 {
        "MINFO"@
    } else if v == 15 {
        "MX"@
    } else if v == 16 {
        "TXT"@
    } else if v == 17 {
        "RP"@
    } else if v == 18 {
        "AFSDB"@
    } else if v == 19 {
        "X25"@
    } else if v == 20 {
        "ISDN"@
    } else if v == 21 {
        "RT"@
    } else if v == 22 {
        "NSAP"@
    } else if v == 23 {
        "NSAP-PTR"@
    } else if v == 24 {
        "SIG"@
    } else if v == 25 {
        "KEY"@
    } else if v == 26 {
        "PX"@
    } else if v == 27 {
        "GPOS"@
    } else if v == 28 {
        "AAAA"@
    } else if v == 29 {
        "LOC"@
    } else if v == 30 {
        "NXT"@
    } else if v == 31 {
        "EID"@
    } else if v == 32 {
        "NIMLOC"@
    } else if v == 33 {
        "SRV"@
    } else if v == 34 {
        "ATMA"@
    } else if v == 35 {
        "NAPTR"@
    } else if v == 36 {
        "KX"@
    } else if v == 37 {
        "CERT"@
    } else if v == 38 {
        "A6"@
    } else if v == 39 {
        "DNAME"@
    } else if v == 40 {
        "SINK"@
    } else if v == 41 {
        "OPT"@
    } else if v == 42 {
        "APL"@
    } else if v == 43 {
        "DS"@
    } else if v == 44 {
        "SSHFP"@
    } else if v == 45 {
        "IPSECKEY"@
    } else if v == 46 {
        "RRSIG"@
    } else if v == 47 {
        "NSEC"@
    } else if v == 48 {
        "DNSKEY"@
    } else if v == 49 {
        "DHCID"@
    } else if v == 50 {
        "NSEC3"@
    } else if v == 51 {
        "NSEC3PARAM"@
    } else if v == 52 {
        "TLSA"@
    } else if v == 53 {
        "SMIMEA"@
    } else if v == 54 {
        "Unassigned"@
    } else if v == 55 {
        "HIP"@
    } else if v == 56 {
        "NINFO"@
    } else if v == 57 {
        "RKEY"@
    } else if v == 58 {
        "TALINK"@
    } else if v == 59 {
        "CDS"@
    } else if v == 60 {
        "CDNSKEY"@
    } else if v == 61 {
        "OPENPGPKEY"@
    } else if v == 62 {
        "CSYNC"@
    } else if v == 63 {
        "ZONEMD"@
    } else if v == 64 {
        "SVCB"@
    } else if v == 65 {
        "HTTPS"@
    } else if 66 <= v && v <= 98 {
        "Unassigned"@
    } else if v == 99 {
        "SPF"@
    } else if v == 100 {
        "UINFO"@
    } else if v == 101 {
        "UID"@
    } else if v == 102 {
        "GID"@
    } else if v == 103 {
        "UNSPEC"@
    } else if v == 104 {
        "NID"@
    } else if v == 105 {
        "L32"@
    } else if v == 106 {
        "L64"@
    } else if v == 107 {
        "LP"@
    } else if v == 108 {
        "EUI48"@
    } else if v == 109 {
        "EUI64"@
    } else if 110 <= v && v <= 248 {
        "Unassigned"@
    } else if v == 249 {
        "TKEY"@
    } else if v == 250 {
        "TSIG"@
    } else if v == 251 {
        "IXFR"@
    } else if v == 252 {
        "AXFR"@
    } else if v == 253 {
        "MAILB"@
    } else if v == 254 {
        "MAILA"@
    } else if v == 255 {
        "*"@
    } else if v == 256 {
        "URI"@
    } else if v == 257 {
        "CAA"@
    } else if v == 258 {
        "AVC"@
    } else if v == 259 {
        "DOA"@
    } else if v == 260 {
        "AMTRELAY"@
    } else if 261 <= v && v <= 32767 {
        "Unassigned"@
    } else if v == 32768 {
        "TA"@
    } else if v == 32769 {
        "DLV"@
    } else if 32770 <= v && v <= 65279 {
        "Unassigned"@
    } else if 65280 <= v && v <= 65534 {
        "Private use"@
    } else {
        "Reserved"@
    }
}

pub open spec fn record_class_name(v: u16) -> Seq<char> {
    if v == 0 {
        "Reserved"@
    } else if v == 1 {
        "Internet (IN)"@
    } else if v == 2 {
        "Unassigned"@
    } else if v == 3 {
        "Chaos (CH)"@
    } else if v == 4 {
        "Hesiod (HS)"@
    } else if 5 <= v && v <= 253 {
        "Unassigned"@
    } else if v == 254 {
        "QCLASS NONE"@
    } else if v == 255 {
        "QCLASS * (ANY)"@
    } else if 256 <= v && v <= 65279 {
        "Unassigned"@
    } else if 65280 <= v && v <= 65534 {
        "Reserved for Private Use"@
    } else {
        "Reserved"@
    }
}

pub open spec fn opcode_name(v: u16) -> Seq<char> {
    if v == 0 {
        "Query"@
    } else if v == 1 {
        "IQuery"@
    } else if v == 2 {
        "Status"@
    } else if v == 4 {
        "Notify"@
    } else if v == 5 {
        "Update"@
    } else if v == 6 {
        "DNS Stateful Operations"@
    } else {
        "Unassigned"@
    }
}

pub open spec fn response_code_name(v: u16) -> Seq<char> {
    if v == 0 {
        "NoError"@
    } else if v == 1 {
        "FormErr"@
    } else if v == 2 {
        "ServFail"@
    } else if v == 3 {
        "NXDomain"@
    } else if v == 4 {
        "NotImp"@
    } else if v == 5 {
        "Refused"@
    } else if v == 6 {
        "YXDomain"@
    } else if v == 7 {
        "YXRRSet"@
    } else if v == 8 {
        "NXRRSet"@
    } else if v == 9 {
        "NotAuth"@
    } else if v == 10 {
        "NotZone"@
    } else if v == 11 {
        "DSOTYPENI"@
    } else {
        "Unassigned"@
    }
}

impl RecordType {
    /// The mnemonic of the type (`A`, `NS`, `CNAME`, ...), or the range it falls in.
    pub fn name(&self) -> (r: &'static str)
        ensures
            r@ == record_type_name(self.value),
    {
        let v = self.value;
        if v == 0 {
            "Reserved"
        } else if v == 1 {
            "A"
        } else if v == 2 {
            "NS"
        } else if v == 3 {
            "MD"
        } else if v == 4 {
            "MF"
        } else if v == 5 {
            "CNAME"
        } else if v == 6 {
            "SOA"
        } else if v == 7 {
            "MB"
        } else if v == 8 {
            "MG"
        } else if v == 9 {
            "MR"
        } else if v == 10 {
            "NULL"
        } else if v == 11 {
            "WKS"
        } else if v == 12 {
            "PTR"
        } else if v == 13 {
            "HINFO"
        } else if v == 14 {
            "MINFO"
        } else if v == 15 {
            "MX"
        } else if v == 16 {
            "TXT"
        } else if v == 17 {
            "RP"
        } else if v == 18 {
            "AFSDB"
        } else if v == 19 {
            "X25"
        } else if v == 20 {
            "ISDN"
        } else if v == 21 {
            "RT"
        } else if v == 22 {
            "NSAP"
        } else if v == 23 {
            "NSAP-PTR"
        } else if v == 24 {
            "SIG"
        } else if v == 25 {
            "KEY"
        } else if v == 26 {
            "PX"
        } else if v == 27 {
            "GPOS"
        } else if v == 28 {
            "AAAA"
        } else if v == 29 {
            "LOC"
        } else if v == 30 {
            "NXT"
        } else if v == 31 {
            "EID"
        } else if v == 32 {
            "NIMLOC"
        } else if v == 33 {
            "SRV"
        } else if v == 34 {
            "ATMA"
        } else if v == 35 {
            "NAPTR"
        } else if v == 36 {
            "KX"
        } else if v == 37 {
            "CERT"
        } else if v == 38 {
            "A6"
        } else if v == 39 {
            "DNAME"
        } else if v == 40 {
            "SINK"
        } else if v == 41 {
            "OPT"
        } else if v == 42 {
            "APL"
        } else if v == 43 {
            "DS"
        } else if v == 44 {
            "SSHFP"
        } else if v == 45 {
            "IPSECKEY"
        } else if v == 46 {
            "RRSIG"
        } else if v == 47 {
            "NSEC"
        } else if v == 48 {
            "DNSKEY"
        } else if v == 49 {
            "DHCID"
        } else if v == 50 {
            "NSEC3"
        } else if v == 51 {
            "NSEC3PARAM"
        } else if v == 52 {
            "TLSA"
        } else if v == 53 {
            "SMIMEA"
        } else if v == 54 {
            "Unassigned"
        } else if v == 55 {
            "HIP"
        } else if v == 56 {
            "NINFO"
        } else if v == 57 {
            "RKEY"
        } else if v == 58 {
            "TALINK"
        } else if v == 59 {
            "CDS"
        } else if v == 60 {
            "CDNSKEY"
        } else if v == 61 {
            "OPENPGPKEY"
        } else if v == 62 {
            "CSYNC"
        } else if v == 63 {
            "ZONEMD"
        } else if v == 64 {
            "SVCB"
        } else if v == 65 {
            "HTTPS"
        } else if 66 <= v && v <= 98 {
            "Unassigned"
        } else if v == 99 {
            "SPF"
        } else if v == 100 {
            "UINFO"
        } else if v == 101 {
            "UID"
        } else if v == 102 {
            "GID"
        } else if v == 103 {
            "UNSPEC"
        } else if v == 104 {
            "NID"
        } else if v == 105 {
            "L32"
        } else if v == 106 {
            "L64"
        } else if v == 107 {
            "LP"
        } else if v == 108 {
            "EUI48"
        } else if v == 109 {
            "EUI64"
        } else if 110 <= v && v <= 248 {
            "Unassigned"
        } else if v == 249 {
            "TKEY"
        } else if v == 250 {
            "TSIG"
        } else if v == 251 {
            "IXFR"
        } else if v == 252 {
            "AXFR"
        } else if v == 253 {
            "MAILB"
        } else if v == 254 {
            "MAILA"
        } else if v == 255 {
            "*"
        } else if v == 256 {
            "URI"
        } else if v == 257 {
            "CAA"
        } else if v == 258 {
            "AVC"
        } else if v == 259 {
            "DOA"
        } else if v == 260 {
            "AMTRELAY"
        } else if 261 <= v && v <= 32767 {
            "Unassigned"
        } else if v == 32768 {
            "TA"
        } else if v == 32769 {
            "DLV"
        } else if 32770 <= v && v <= 65279 {
            "Unassigned"
        } else if 65280 <= v && v <= 65534 {
            "Private use"
        } else {
            "Reserved"
        }
    }

    pub fn to_string(&self) -> (r: String)
        ensures
            r@ == coded(record_type_name(self.value), self.value),
    {
        let mut s = String::new();
        push_coded(&mut s, self.name(), self.value);
        s
    }
}

impl RecordClass {
    /// The name of the class, or the range it falls in.
    pub fn name(&self) -> (r: &'static str)
        ensures
            r@ == record_class_name(self.value),
    {
        let v = self.value;
        if v == 0 {
            "Reserved"
        } else if v == 1 {
            "Internet (IN)"
        } else if v == 2 {
            "Unassigned"
        } else if v == 3 {
            "Chaos (CH)"
        } else if v == 4 {
            "Hesiod (HS)"
        } else if 5 <= v && v <= 253 {
            "Unassigned"
        } else if v == 254 {
            "QCLASS NONE"
        } else if v == 255 {
            "QCLASS * (ANY)"
        } else if 256 <= v && v <= 65279 {
            "Unassigned"
        } else if 65280 <= v && v <= 65534 {
            "Reserved for Private Use"
        } else {
            "Reserved"
        }
    }

    pub fn to_string(&self) -> (r: String)
        ensures
            r@ == coded(record_class_name(self.value), self.value),
    {
        let mut s = String::new();
        push_coded(&mut s, self.name(), self.value);
        s
    }
}

impl OpCode {
    pub fn name(&self) -> (r: &'static str)
        ensures
            r@ == opcode_name(self.value),
    {
        let v = self.value;
        if v == 0 {
            "Query"
        } else if v == 1 {
            "IQuery"
        } else if v == 2 {
            "Status"
        } else if v == 4 {
            "Notify"
        } else if v == 5 {
            "Update"
        } else if v == 6 {
            "DNS Stateful Operations"
        } else {
            "Unassigned"
        }
    }

    pub fn to_string(&self) -> (r: String)
        ensures
            r@ == coded(opcode_name(self.value), self.value),
    {
        let mut s = String::new();
        push_coded(&mut s, self.name(), self.value);
        s
    }
}

impl ResponseCode {
    pub fn name(&self) -> (r: &'static str)
        ensures
            r@ == response_code_name(self.value),
    {
        let v = self.value;
        if v == 0 {
            "NoError"
        } else if v == 1 {
            "FormErr"
        } else if v == 2 {
            "ServFail"
        } else if v == 3 {
            "NXDomain"
        } else if v == 4 {
            "NotImp"
        } else if v == 5 {
            "Refused"
        } else if v == 6 {
            "YXDomain"
        } else if v == 7 {
            "YXRRSet"
        } else if v == 8 {
            "NXRRSet"
        } else if v == 9 {
            "NotAuth"
        } else if v == 10 {
            "NotZone"
        } else if v == 11 {
            "DSOTYPENI"
        } else {
            "Unassigned"
        }
    }

    pub fn to_string(&self) -> (r: String)
        ensures
            r@ == coded(response_code_name(self.value), self.value),
    {
        let mut s = String::new();
        push_coded(&mut s, self.name(), self.value);
        s
    }
}

/// A time to live as days, hours, minutes and seconds (`1d2h3m4s`), leaving out each part
/// that is zero; zero seconds is `0s`.
pub open spec fn ttl_text(t: u32) -> Seq<char> {
    let days = t / 86400;
    let hours = (t % 86400) / 3600;
    let minutes = (t % 3600) / 60;
    let seconds = t % 60;
    (if days != 0 {
        decimal(days as nat) + "d"@
    } else {
        Seq::empty()
    }) + (if hours != 0 {
        decimal(hours as nat) + "h"@
    } else {
        Seq::empty()
    }) + (if minutes != 0 {
        decimal(minutes as nat) + "m"@
    } else {
        Seq::empty()
    }) + (if seconds != 0 || days + hours + minutes == 0 {
        decimal(seconds as nat) + "s"@
    } else {
        Seq::empty()
    })
}

impl Ttl {
    pub fn to_string(&self) -> (r: String)
        ensures
            r@ == ttl_text(self.seconds),
    {
        let t = self.seconds;
        let days = t / 86400;
        let hours = (t % 86400) / 3600;
        let minutes = (t % 3600) / 60;
        let seconds = t % 60;
        let mut s = String::new();
        let ghost s0 = s@;
        if days != 0 {
            push_decimal(&mut s, days as u64);
            s.append("d");
        }
        let ghost s1 = s@;
        if hours != 0 {
            push_decimal(&mut s, hours as u64);
            s.append("h");
        }
        let ghost s2 = s@;
        if minutes != 0 {
            push_decimal(&mut s, minutes as u64);
            s.append("m");
        }
        let ghost s3 = s@;
        if seconds != 0 || days + hours + minutes == 0 {
            push_decimal(&mut s, seconds as u64);
            s.append("s");
        }
        assert(s@ =~= ttl_text(t));
        s
    }
}

pub open spec fn flags_text(v: u16) -> Seq<char> {
    "Type: "@ + (if flag_bit(v, 15) {
        "Reply"@
    } else {
        "Query"@
    }) + "  Opcode: "@ + coded(opcode_name((v >> 11) & 15), (v >> 11) & 15) + "  Status: "@
        + coded(response_code_name(v & 15), v & 15) + "  "@ + (if flag_bit(v, 10) {
        "AA  "@
    } else {
        Seq::empty()
    }) + (if flag_bit(v, 9) {
        "TC  "@
    } else {
        Seq::empty()
    }) + (if flag_bit(v, 8) {
        "RD  "@
    } else {
        Seq::empty()
    }) + (if flag_bit(v, 7) {
        "RA  "@
    } else {
        Seq::empty()
    }) + "("@ + decimal(v as nat) + ")"@
}

impl Flags {
    /// The flags as text: reply or query, opcode, status, the bits that are set, and the
    /// whole value.
    pub fn to_string(&self) -> (r: String)
        ensures
            r@ == flags_text(self.value),
    {
        let mut s = String::new();
        s.append("Type: ");
        if self.is_reply() {
            s.append("Reply");
        } else {
            s.append("Query");
        }
        s.append("  Opcode: ");
        let op = self.opcode();
        push_coded(&mut s, op.name(), op.value);
        s.append("  Status: ");
        let rc = self.response_code();
        push_coded(&mut s, rc.name(), rc.value);
        s.append("  ");
        if self.is_authoritative_answer() {
            s.append("AA  ");
        }
        if self.is_truncated() {
            s.append("TC  ");
        }
        if self.recursion_desired() {
            s.append("RD  ");
        }
        if self.recursion_available() {
            s.append("RA  ");
        }
        s.append("(");
        push_decimal(&mut s, self.value as u64);
        s.append(")");
        assert(s@ =~= flags_text(self.value));
        s
    }
}

/// A name as text, with bytes that are not printable ASCII escaped.
pub open spec fn name_text(n: Seq<u8>) -> Seq<char> {
    escaped(text_of(n))
}

impl Name {
    pub fn to_string(&self) -> (r: String)
        ensures
            r@ == name_text(self@),
    {
        let mut s = String::new();
        let t = self.to_text();
        push_escaped(&mut s, t.as_slice());
        assert(s@ =~= name_text(self@));
        s
    }
}

/// The first `k` bytes of an IPv4 address in dotted decimal.
pub open spec fn ipv4_upto(ip: Seq<u8>, k: nat) -> Seq<char>
    decreases k,
{
    if k == 0 {
        Seq::empty()
    } else {
        ipv4_upto(ip, (k - 1) as nat) + (if k > 1 {
            "."@
        } else {
            Seq::empty()
        }) + decimal(ip[k - 1] as nat)
    }
}

/// Appends an IPv4 address in dotted decimal.
fn push_ipv4(s: &mut String, ip: &[u8])
    requires
        ip@.len() == 4,
    ensures
        final(s)@ == old(s)@ + ipv4_upto(ip@, 4),
{
    let ghost start = s@;
    let mut k: usize = 0;
    assert(start + Seq::<char>::empty() =~= start);
    while k < 4
        invariant
            k <= 4,
            ip@.len() == 4,
            s@ == start + ipv4_upto(ip@, k as nat),
        decreases 4 - k,
    {
        if k > 0 {
            s.append(".");
        }
        push_decimal(s, ip[k] as u64);
        k = k + 1;
        assert(s@ =~= start + ipv4_upto(ip@, k as nat));
    }
}

/// Group `k` of an IPv6 address: bytes `2k` and `2k + 1`, high byte first.
pub open spec fn group(ip: Seq<u8>, k: int) -> nat {
    ip[2 * k] as nat * 256 + ip[2 * k + 1] as nat
}

/// Groups `from` up to `to` in hexadecimal, separated by colons.
pub open spec fn groups_text(ip: Seq<u8>, from: int, to: int) -> Seq<char>
    decreases to - from,
{
    if to <= from {
        Seq::empty()
    } else {
        groups_text(ip, from, to - 1) + (if to - 1 > from {
            ":"@
        } else {
            Seq::empty()
        }) + hex(group(ip, to - 1))
    }
}

/// Groups `s` up to `s + l` are all zero.
pub open spec fn zero_run(ip: Seq<u8>, s: int, l: int) -> bool {
    0 <= s && 0 <= l && s + l <= 8 && forall|k: int| s <= k < s + l ==> group(ip, k) == 0
}

/// The first of the longest runs of zero groups starts at `s` and has `l` groups.
pub open spec fn best_run(ip: Seq<u8>, s: int, l: int) -> bool {
    &&& zero_run(ip, s, l)
    &&& forall|s2: int, l2: int| #[trigger] zero_run(ip, s2, l2) ==> l2 <= l
    &&& forall|s2: int| 0 <= s2 < s ==> !#[trigger] zero_run(ip, s2, l)
}

/// An IPv6 address as text, in its shortest form: an IPv4-mapped address as `::ffff:` and the
/// IPv4 address; any other with the first longest run of two or more zero groups written as
/// `::`.
pub open spec fn ipv6_text(ip: Seq<u8>) -> Seq<char> {
    if group(ip, 0) == 0 && group(ip, 1) == 0 && group(ip, 2) == 0 && group(ip, 3) == 0 && group(
        ip,
        4,
    ) == 0 && group(ip, 5) == 65535 {
        "::ffff:"@ + ipv4_upto(ip.subrange(12, 16), 4)
    } else {
        let (s, l) = choose|s: int, l: int| best_run(ip, s, l);
        if l > 1 {
            groups_text(ip, 0, s) + "::"@ + groups_text(ip, s + l, 8)
        } else {
            groups_text(ip, 0, 8)
        }
    }
}

proof fn lemma_best_run_unique(ip: Seq<u8>, s: int, l: int, s2: int, l2: int)
    requires
        best_run(ip, s, l),
        best_run(ip, s2, l2),
    ensures
        s == s2 && l == l2,
{
    assert(zero_run(ip, s2, l2));
    assert(zero_run(ip, s, l));
    assert(l == l2);
    if s < s2 {
        assert(!zero_run(ip, s, l2));
    }
    if s2 < s {
        assert(!zero_run(ip, s2, l));
    }
}

/// Appends groups `from` up to `to`.
fn push_groups(s: &mut String, ip: &[u8; 16], from: usize, to: usize)
    requires
        from <= to <= 8,
    ensures
        final(s)@ == old(s)@ + groups_text(ip@, from as int, to as int),
{
    let ghost start = s@;
    let mut k: usize = from;
    assert(groups_text(ip@, from as int, from as int) == Seq::<char>::empty());
    assert(start + Seq::<char>::empty() =~= start);
    while k < to
        invariant
            from <= k <= to <= 8,
            ip@.len() == 16,
            s@ == start + groups_text(ip@, from as int, k as int),
        decreases to - k,
    {
        if k > from {
            s.append(":");
        }
        push_hex(s, (ip[2 * k] as u64) * 256 + (ip[2 * k + 1] as u64));
        k = k + 1;
        assert(s@ =~= start + groups_text(ip@, from as int, k as int));
    }
}

/// The first of the longest runs of zero groups.
fn longest_zero_run(ip: &[u8; 16]) -> (r: (usize, usize))
    ensures
        best_run(ip@, r.0 as int, r.1 as int),
{
    let mut ls: usize = 0;
    let mut ll: usize = 0;
    let mut cs: usize = 0;
    let mut cl: usize = 0;
    let mut i: usize = 0;
    while i < 8
        invariant
            i <= 8,
            ip@.len() == 16,
            zero_run(ip@, ls as int, ll as int),
            ls + ll <= i,
            forall|s2: int, l2: int|
                #[trigger] zero_run(ip@, s2, l2) && s2 + l2 <= i ==> l2 <= ll,
            forall|s2: int| 0 <= s2 < ls ==> !#[trigger] zero_run(ip@, s2, ll as int),
            cs + cl == i,
            zero_run(ip@, cs as int, cl as int),
            forall|s2: int| 0 <= s2 <= i && #[trigger] zero_run(ip@, s2, i - s2) ==> i - s2 <= cl,
            cl <= ll || i == 0,
        decreases 8 - i,
    {
        let g = (ip[2 * i] as u64) * 256 + (ip[2 * i + 1] as u64);
        assert(g == group(ip@, i as int));
        if g == 0 {
            if cl == 0 {
                cs = i;
            }
            cl = cl + 1;
            assert(zero_run(ip@, cs as int, cl as int));
            if cl > ll {
                ls = cs;
                ll = cl;
            }
        } else {
            cs = i + 1;
            cl = 0;
        }
        proof {
            let n = (i + 1) as int;
            assert forall|s2: int| 0 <= s2 <= n && #[trigger] zero_run(ip@, s2, n - s2) implies n
                - s2 <= cl by {
                if s2 < n {
                    assert(group(ip@, n - 1) == 0);
                    assert(zero_run(ip@, s2, i - s2));
                }
            }
            assert forall|s2: int, l2: int| #[trigger] zero_run(ip@, s2, l2) && s2 + l2 <= n implies l2
                <= ll by {
                if s2 + l2 == n && l2 > 0 {
                    assert(zero_run(ip@, s2, n - s2));
                } else if l2 > 0 {
                    assert(s2 + l2 <= i);
                }
            }
            assert forall|s2: int| 0 <= s2 < ls implies !#[trigger] zero_run(ip@, s2, ll as int) by {
                if zero_run(ip@, s2, ll as int) && s2 + ll > i && ll > 0 {
                    assert(zero_run(ip@, s2, n - s2));
                }
            }
        }
        i = i + 1;
    }
    (ls, ll)
}

pub open spec fn rdata_text(d: RdataView) -> Seq<char> {
    match d {
        RdataView::A { ip } => ipv4_upto(ip, 4),
        RdataView::Aaaa { ip } => ipv6_text(ip),
        RdataView::Cname { name } => name_text(name),
        RdataView::Other { data } => escaped(data),
    }
}

impl Rdata {
    /// The data as text: an address, a name, or the bytes with the unprintable ones escaped.
    pub fn to_string(&self) -> (r: String)
        ensures
            r@ == rdata_text(self@),
    {
        let mut s = String::new();
        match self {
            Rdata::A { ip } => push_ipv4(&mut s, ip.as_slice()),
            Rdata::Aaaa { ip } => {
                let mapped = ip[0] == 0 && ip[1] == 0 && ip[2] == 0 && ip[3] == 0 && ip[4] == 0
                    && ip[5] == 0 && ip[6] == 0 && ip[7] == 0 && ip[8] == 0 && ip[9] == 0 && ip[10]
                    == 255 && ip[11] == 255;
                if mapped {
                    s.append("::ffff:");
                    let v4: [u8; 4] = [ip[12], ip[13], ip[14], ip[15]];
                    assert(v4@ =~= ip@.subrange(12, 16));
                    push_ipv4(&mut s, v4.as_slice());
                } else {
                    let (start, len) = longest_zero_run(ip);
                    proof {
                        let (cs, cl) = choose|a: int, b: int| best_run(ip@, a, b);
                        lemma_best_run_unique(ip@, start as int, len as int, cs, cl);
                    }
                    if len > 1 {
                        push_groups(&mut s, ip, 0, start);
                        s.append("::");
                        push_groups(&mut s, ip, start + len, 8);
                    } else {
                        push_groups(&mut s, ip, 0, 8);
                    }
                }
            },
            Rdata::Cname { name } => {
                let t = name.to_string();
                s.append(t.as_str());
            },
            Rdata::Other { data } => {
                push_escaped(&mut s, data.as_slice());
            },
        }
        assert(s@ =~= rdata_text(self@));
        s
    }
}

pub open spec fn question_text(q: QuestionView) -> Seq<char> {
    "Name: "@ + name_text(q.name) + "  Type: "@ + coded(record_type_name(q.type_), q.type_)
        + "  Class:  "@ + coded(record_class_name(q.class), q.class)
}

impl Question {
    pub fn to_string(&self) -> (r: String)
        ensures
            r@ == question_text(self@),
    {
        let mut s = String::new();
        s.append("Name: ");
        let n = self.name().to_string();
        s.append(n.as_str());
        s.append("  Type: ");
        let t = self.type_().to_string();
        s.append(t.as_str());
        s.append("  Class:  ");
        let c = self.class().to_string();
        s.append(c.as_str());
        assert(s@ =~= question_text(self@));
        s
    }
}

pub open spec fn record_text(r: RecordView) -> Seq<char> {
    "Name: "@ + name_text(r.name) + "  Type: "@ + coded(record_type_name(r.type_), r.type_)
        + "  Class:  "@ + coded(record_class_name(r.class), r.class) + "  TTL: "@ + ttl_text(
        r.ttl,
    ) + "  Record data: "@ + rdata_text(r.rdata)
}

impl Record {
    pub fn to_string(&self) -> (r: String)
        ensures
            r@ == record_text(self@),
    {
        let mut s = String::new();
        s.append("Name: ");
        let n = self.name().to_string();
        s.append(n.as_str());
        s.append("  Type: ");
        let t = self.type_().to_string();
        s.append(t.as_str());
        s.append("  Class:  ");
        let c = self.class().to_string();
        s.append(c.as_str());
        s.append("  TTL: ");
        let l = self.ttl().to_string();
        s.append(l.as_str());
        s.append("  Record data: ");
        let d = self.rdata().to_string();
        s.append(d.as_str());
        assert(s@ =~= record_text(self@));
        s
    }
}

/// One line for each question, indented by two spaces.
pub open spec fn question_lines(qs: Seq<QuestionView>) -> Seq<char>
    decreases qs.len(),
{
    if qs.len() == 0 {
        Seq::empty()
    } else {
        question_lines(qs.drop_last()) + "  "@ + question_text(qs.last()) + "\n"@
    }
}

/// One line for each record, indented by two spaces.
pub open spec fn record_lines(rs: Seq<RecordView>) -> Seq<char>
    decreases rs.len(),
{
    if rs.len() == 0 {
        Seq::empty()
    } else {
        record_lines(rs.drop_last()) + "  "@ + record_text(rs.last()) + "\n"@
    }
}

/// A section under its title, or nothing when it is empty.
pub open spec fn section(title: Seq<char>, len: nat, lines: Seq<char>) -> Seq<char> {
    if len == 0 {
        Seq::empty()
    } else {
        title + ":\n"@ + lines
    }
}

pub open spec fn message_text(m: MessageView) -> Seq<char> {
    "ID: "@ + decimal(m.id as nat) + "\nFlags:\n  "@ + flags_text(m.flags) + "\n"@ + section(
        "Questions"@,
        m.questions.len(),
        question_lines(m.questions),
    ) + section("Answers"@, m.answers.len(), record_lines(m.answers)) + section(
        "Authority records"@,
        m.authority.len(),
        record_lines(m.authority),
    ) + section("Additional records"@, m.additional.len(), record_lines(m.additional))
}

fn push_question_lines(s: &mut String, qs: &Vec<Question>)
    ensures
        final(s)@ == old(s)@ + question_lines(question_views(qs@)),
{
    let ghost start = s@;
    let mut i: usize = 0;
    assert(question_views(qs@).take(0) =~= Seq::<QuestionView>::empty());
    while i < qs.len()
        invariant
            i <= qs@.len(),
            s@ == start + question_lines(question_views(qs@).take(i as int)),
        decreases qs@.len() - i,
    {
        s.append("  ");
        let line = qs[i].to_string();
        s.append(line.as_str());
        s.append("\n");
        proof {
            let v = question_views(qs@);
            assert(v.take(i + 1).drop_last() =~= v.take(i as int));
            assert(v.take(i + 1).last() == qs@[i as int]@);
        }
        i = i + 1;
        assert(s@ =~= start + question_lines(question_views(qs@).take(i as int)));
    }
    assert(question_views(qs@).take(i as int) =~= question_views(qs@));
}

fn push_record_lines(s: &mut String, rs: &Vec<Record>)
    ensures
        final(s)@ == old(s)@ + record_lines(record_views(rs@)),
{
    let ghost start = s@;
    let mut i: usize = 0;
    assert(record_views(rs@).take(0) =~= Seq::<RecordView>::empty());
    while i < rs.len()
        invariant
            i <= rs@.len(),
            s@ == start + record_lines(record_views(rs@).take(i as int)),
        decreases rs@.len() - i,
    {
        s.append("  ");
        let line = rs[i].to_string();
        s.append(line.as_str());
        s.append("\n");
        proof {
            let v = record_views(rs@);
            assert(v.take(i + 1).drop_last() =~= v.take(i as int));
            assert(v.take(i + 1).last() == rs@[i as int]@);
        }
        i = i + 1;
        assert(s@ =~= start + record_lines(record_views(rs@).take(i as int)));
    }
    assert(record_views(rs@).take(i as int) =~= record_views(rs@));
}

fn push_record_section(s: &mut String, title: &str, rs: &Vec<Record>)
    ensures
        final(s)@ == old(s)@ + section(title@, rs@.len(), record_lines(record_views(rs@))),
{
    if rs.len() != 0 {
        s.append(title);
        s.append(":\n");
        push_record_lines(s, rs);
    }
    assert(final(s)@ =~= old(s)@ + section(title@, rs@.len(), record_lines(record_views(rs@))));
}

impl Message {
    /// The message as text, for reading: the id, the flags, and each section that is not
    /// empty, one line for each entry.
    pub fn to_string(&self) -> (r: String)
        ensures
            r@ == message_text(self@),
    {
        let mut s = String::new();
        s.append("ID: ");
        push_decimal(&mut s, self.id() as u64);
        s.append("\nFlags:\n  ");
        let f = self.flags().to_string();
        s.append(f.as_str());
        s.append("\n");
        let ghost s1 = s@;
        let qs = self.questions();
        if qs.len() != 0 {
            s.append("Questions");
            s.append(":\n");
            push_question_lines(&mut s, qs);
        }
        assert(s@ =~= s1 + section("Questions"@, self@.questions.len(), question_lines(self@.questions)));
        push_record_section(&mut s, "Answers", self.answers());
        push_record_section(&mut s, "Authority records", self.authority_records());
        push_record_section(&mut s, "Additional records", self.additional_records());
        assert(s@ =~= message_text(self@));
        s
    }
}

} // verus!
