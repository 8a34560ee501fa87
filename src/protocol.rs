use vstd::prelude::*;
use vstd::string::StringSliceAdditionalSpecFns;

verus! {

/// Why a byte buffer is not a DNS message.
#[derive(Clone, Copy, Debug, PartialEq, Eq, Structural)]
pub enum ParseError {
    /// The buffer ends before a field that the message needs.
    Truncated,
    /// Bytes are left over after a complete structure.
    Extra,
    /// A field holds a value that its structure forbids.
    Invalid,
}

/// Big-endian 16-bit word at `i`.
pub open spec fn be16(b: Seq<u8>, i: int) -> u16 {
    (b[i] as int * 256 + b[i + 1] as int) as u16
}

/// Big-endian 32-bit word at `i`.
pub open spec fn be32(b: Seq<u8>, i: int) -> u32 {
    (b[i] as int * 16777216 + b[i + 1] as int * 65536 + b[i + 2] as int * 256
        + b[i + 3] as int) as u32
}

pub fn read_u16(bytes: &[u8], i: usize) -> (r: u16)
    requires
        i + 2 <= bytes@.len(),
    ensures
        r == be16(bytes@, i as int),
{
    (bytes[i] as u16) * 256 + (bytes[i + 1] as u16)
}

pub fn read_u32(bytes: &[u8], i: usize) -> (r: u32)
    requires
        i + 4 <= bytes@.len(),
    ensures
        r == be32(bytes@, i as int),
{
    (bytes[i] as u32) * 16777216 + (bytes[i + 1] as u32) * 65536 + (bytes[i + 2] as u32) * 256
        + (bytes[i + 3] as u32)
}

/// The type code of a resource record; two types are equal when their codes are.
#[derive(Clone, Copy, Debug, PartialEq, Eq, Structural)]
pub struct RecordType {
    pub value: u16,
}

pub const TYPE_A: u16 = 1;

pub const TYPE_CNAME: u16 = 5;

pub const TYPE_AAAA: u16 = 28;

pub const TYPE_OPT: u16 = 41;

impl RecordType {
    pub fn new(value: u16) -> (r: Self)
        ensures
            r.value == value,
    {
        RecordType { value }
    }
}

/// The class code of a resource record.
#[derive(Clone, Copy, Debug, PartialEq, Eq, Structural)]
pub struct RecordClass {
    pub value: u16,
}

impl RecordClass {
    pub fn new(value: u16) -> (r: Self)
        ensures
            r.value == value,
    {
        RecordClass { value }
    }
}

/// A time to live, in seconds.
#[derive(Clone, Copy, Debug, PartialEq, Eq, Structural)]
pub struct Ttl {
    pub seconds: u32,
}

impl Ttl {
    pub fn new(seconds: u32) -> (r: Self)
        ensures
            r.seconds == seconds,
    {
        Ttl { seconds }
    }
}

/// A sequence of labels in wire form: each is a length byte from 1 to 63 followed by that
/// many bytes. The root label that ends a name on the wire is not part of it.
pub open spec fn labels_wf(s: Seq<u8>) -> bool
    decreases s.len(),
{
    if s.len() == 0 {
        true
    } else {
        let n = s[0] as int;
        1 <= n <= 63 && 1 + n <= s.len() && labels_wf(s.subrange(1 + n, s.len() as int))
    }
}

/// The name that starts at offset `c` of message `b`, in wire form without compression, and
/// the offset just after it where it stands (after the first pointer, if it has one).
///
/// A pointer must lead to an offset before its own. `jumps` is how many pointers may still be
/// followed: a name that follows more pointers than its buffer has bytes has visited one
/// pointer twice, so it would never end, and it is `Invalid`.
pub open spec fn name_at(b: Seq<u8>, c: int, jumps: nat) -> Result<(Seq<u8>, int), ParseError>
    decreases jumps, b.len() - c,
{
    if c < 0 || c >= b.len() {
        Err(ParseError::Truncated)
    } else {
        let byte = b[c] as int;
        if byte == 0 {
            Ok((Seq::empty(), c + 1))
        } else if byte < 64 {
            if c + 1 + byte > b.len() {
                Err(ParseError::Truncated)
            } else {
                match name_at(b, c + 1 + byte, jumps) {
                    Ok((rest, e)) => Ok((b.subrange(c, c + 1 + byte) + rest, e)),
                    Err(x) => Err(x),
                }
            }
        } else if byte >= 192 {
            if c + 2 > b.len() {
                Err(ParseError::Truncated)
            } else {
                let target = (byte - 192) * 256 + b[c + 1] as int;
                if target >= c || jumps == 0 {
                    Err(ParseError::Invalid)
                } else {
                    match name_at(b, target, (jumps - 1) as nat) {
                        Ok((rest, _)) => Ok((rest, c + 2)),
                        Err(x) => Err(x),
                    }
                }
            }
        } else {
            Err(ParseError::Invalid)
        }
    }
}

/// The name at `c` in the first `limit` bytes of `b`.
pub open spec fn name_in(b: Seq<u8>, limit: int, c: int) -> Result<(Seq<u8>, int), ParseError> {
    let w = b.subrange(0, limit);
    name_at(w, c, w.len())
}

/// What a parse that has gathered `acc`, and stands after its first pointer at `end` if it
/// followed one, returns once the rest of the name gives `r`.
pub open spec fn resume(acc: Seq<u8>, end: Option<int>, r: Result<(Seq<u8>, int), ParseError>) -> Result<
    (Seq<u8>, int),
    ParseError,
> {
    match r {
        Ok((rest, e)) => Ok(
            (
                acc + rest,
                match end {
                    Some(x) => x,
                    None => e,
                },
            ),
        ),
        Err(x) => Err(x),
    }
}

/// A domain name, held as its labels in wire form (see `labels_wf`), without compression.
#[derive(Clone, Debug, PartialEq, Eq)]
pub struct Name {
    labels: Vec<u8>,
}

impl View for Name {
    type V = Seq<u8>;

    closed spec fn view(&self) -> Seq<u8> {
        self.labels@
    }
}

impl Name {
    /// The name in the first `limit` bytes of `bytes` that starts at `*cursor`, with
    /// compression pointers expanded; on success `*cursor` is moved past it.
    pub fn parse_within(bytes: &[u8], limit: usize, cursor: &mut usize) -> (r: Result<
        Self,
        ParseError,
    >)
        requires
            limit <= bytes@.len(),
        ensures
            match name_in(bytes@, limit as int, *old(cursor) as int) {
                Ok((n, e)) => r is Ok && r->Ok_0@ == n && *final(cursor) == e,
                Err(x) => r == Err::<Name, ParseError>(x),
            },
    {
        let ghost w = bytes@.subrange(0, limit as int);
        let ghost c0 = *cursor as int;
        let mut pos: usize = *cursor;
        let mut jumps: usize = limit;
        let mut end: Option<usize> = None;
        let mut labels: Vec<u8> = Vec::new();
        let ghost gend: Option<int> = None;
        loop
            invariant
                limit <= bytes@.len(),
                w == bytes@.subrange(0, limit as int),
                gend == (match end {
                    Some(x) => Some(x as int),
                    None => None::<int>,
                }),
                name_at(w, c0, limit as nat) == resume(
                    labels@,
                    gend,
                    name_at(w, pos as int, jumps as nat),
                ),
                c0 == *old(cursor) as int,
                match end {
                    Some(x) => x <= limit,
                    None => true,
                },
            decreases jumps, limit - pos,
        {
            if pos >= limit {
                return Err(ParseError::Truncated);
            }
            let byte = bytes[pos];
            if byte == 0 {
                *cursor = match end {
                    Some(x) => x,
                    None => pos + 1,
                };
                assert(labels@ + Seq::<u8>::empty() =~= labels@);
                return Ok(Name { labels });
            } else if byte < 64 {
                let n = byte as usize;
                if n + 1 > limit - pos {
                    return Err(ParseError::Truncated);
                }
                let ghost before = labels@;
                let mut i: usize = pos;
                while i < pos + 1 + n
                    invariant
                        pos <= i <= pos + 1 + n,
                        pos + 1 + n <= limit,
                        limit <= bytes@.len(),
                        labels@ == before + bytes@.subrange(pos as int, i as int),
                    decreases pos + 1 + n - i,
                {
                    labels.push(bytes[i]);
                    i = i + 1;
                    assert(labels@ =~= before + bytes@.subrange(pos as int, i as int));
                }
                proof {
                    assert(w.subrange(pos as int, pos + 1 + n) =~= bytes@.subrange(
                        pos as int,
                        pos + 1 + n,
                    ));
                    let r = name_at(w, pos + 1 + n, jumps as nat);
                    match r {
                        Ok((rest, e)) => {
                            assert(before + (w.subrange(pos as int, pos + 1 + n) + rest) =~= labels@
                                + rest);
                        },
                        Err(_) => {},
                    }
                }
                pos = pos + 1 + n;
            } else if byte >= 192 {
                if limit - pos < 2 {
                    return Err(ParseError::Truncated);
                }
                let target = ((byte - 192) as usize) * 256 + (bytes[pos + 1] as usize);
                if target >= pos || jumps == 0 {
                    return Err(ParseError::Invalid);
                }
                if end.is_none() {
                    end = Some(pos + 2);
                    proof {
                        gend = Some(pos + 2);
                    }
                }
                jumps = jumps - 1;
                pos = target;
            } else {
                return Err(ParseError::Invalid);
            }
        }
    }

    /// The name at `*cursor` in `bytes`, with compression pointers expanded; on success
    /// `*cursor` is moved past it.
    pub fn parse(bytes: &[u8], cursor: &mut usize) -> (r: Result<Self, ParseError>)
        ensures
            match name_in(bytes@, bytes@.len() as int, *old(cursor) as int) {
                Ok((n, e)) => r is Ok && r->Ok_0@ == n && *final(cursor) == e,
                Err(x) => r == Err::<Name, ParseError>(x),
            },
    {
        Name::parse_within(bytes, bytes.len(), cursor)
    }
}

/// What a record carries, read according to its type.
pub enum RdataView {
    A { ip: Seq<u8> },
    Aaaa { ip: Seq<u8> },
    Cname { name: Seq<u8> },
    Other { data: Seq<u8> },
}

/// The data of a record: an IPv4 address for type A, an IPv6 address for AAAA, a name for
/// CNAME, and the bytes as they stand for every other type.
#[derive(Clone, Debug, PartialEq, Eq)]
#[allow(inconsistent_fields)]
pub enum Rdata {
    A { ip: [u8; 4] },
    Aaaa { ip: [u8; 16] },
    Cname { name: Name },
    Other { data: Vec<u8> },
}

impl View for Rdata {
    type V = RdataView;

    open spec fn view(&self) -> RdataView {
        match self {
            Rdata::A { ip } => RdataView::A { ip: ip@ },
            Rdata::Aaaa { ip } => RdataView::Aaaa { ip: ip@ },
            Rdata::Cname { name } => RdataView::Cname { name: name@ },
            Rdata::Other { data } => RdataView::Other { data: data@ },
        }
    }
}

/// The data of a record of type `t` whose length field stands at `c`, and the offset after it.
pub open spec fn rdata_at(t: u16, b: Seq<u8>, c: int) -> Result<(RdataView, int), ParseError> {
    if c + 2 > b.len() {
        Err(ParseError::Truncated)
    } else {
        let len = be16(b, c) as int;
        let s = c + 2;
        if s + len > b.len() {
            Err(ParseError::Truncated)
        } else if t == TYPE_A {
            if len != 4 {
                Err(ParseError::Invalid)
            } else {
                Ok((RdataView::A { ip: b.subrange(s, s + 4) }, s + 4))
            }
        } else if t == TYPE_AAAA {
            if len != 16 {
                Err(ParseError::Invalid)
            } else {
                Ok((RdataView::Aaaa { ip: b.subrange(s, s + 16) }, s + 16))
            }
        } else if t == TYPE_CNAME {
            match name_in(b, s + len, s) {
                Ok((n, e)) => if e < s + len {
                    Err(ParseError::Extra)
                } else {
                    Ok((RdataView::Cname { name: n }, s + len))
                },
                Err(x) => Err(x),
            }
        } else {
            Ok((RdataView::Other { data: b.subrange(s, s + len) }, s + len))
        }
    }
}

impl Rdata {
    /// The data of a record of type `type_` whose length field stands at `*cursor`; on success
    /// `*cursor` is moved past it.
    pub fn parse(type_: RecordType, bytes: &[u8], cursor: &mut usize) -> (r: Result<
        Self,
        ParseError,
    >)
        ensures
            match rdata_at(type_.value, bytes@, *old(cursor) as int) {
                Ok((d, e)) => r is Ok && r->Ok_0@ == d && *final(cursor) == e,
                Err(x) => r == Err::<Rdata, ParseError>(x),
            },
    {
        let c = *cursor;
        if c >= bytes.len() || bytes.len() - c < 2 {
            return Err(ParseError::Truncated);
        }
        let len = read_u16(bytes, c) as usize;
        let s = c + 2;
        if len > bytes.len() - s {
            return Err(ParseError::Truncated);
        }
        if type_.value == TYPE_A {
            if len != 4 {
                return Err(ParseError::Invalid);
            }
            let ip: [u8; 4] = [bytes[s], bytes[s + 1], bytes[s + 2], bytes[s + 3]];
            assert(ip@ =~= bytes@.subrange(s as int, s + 4));
            *cursor = s + 4;
            Ok(Rdata::A { ip })
        } else if type_.value == TYPE_AAAA {
            if len != 16 {
                return Err(ParseError::Invalid);
            }
            let ip: [u8; 16] = [
                bytes[s],
                bytes[s + 1],
                bytes[s + 2],
                bytes[s + 3],
                bytes[s + 4],
                bytes[s + 5],
                bytes[s + 6],
                bytes[s + 7],
                bytes[s + 8],
                bytes[s + 9],
                bytes[s + 10],
                bytes[s + 11],
                bytes[s + 12],
                bytes[s + 13],
                bytes[s + 14],
                bytes[s + 15],
            ];
            assert(ip@ =~= bytes@.subrange(s as int, s + 16));
            *cursor = s + 16;
            Ok(Rdata::Aaaa { ip })
        } else if type_.value == TYPE_CNAME {
            let mut name_cursor: usize = s;
            let name = Name::parse_within(bytes, s + len, &mut name_cursor)?;
            if name_cursor < s + len {
                return Err(ParseError::Extra);
            }
            *cursor = s + len;
            Ok(Rdata::Cname { name })
        } else {
            let mut data: Vec<u8> = Vec::new();
            let mut i: usize = s;
            let end = s + len;
            while i < end
                invariant
                    s <= i <= end,
                    end == s + len,
                    end <= bytes@.len(),
                    data@ == bytes@.subrange(s as int, i as int),
                decreases s + len - i,
            {
                data.push(bytes[i]);
                i = i + 1;
                assert(data@ =~= bytes@.subrange(s as int, i as int));
            }
            *cursor = s + len;
            Ok(Rdata::Other { data })
        }
    }
}

pub struct QuestionView {
    pub name: Seq<u8>,
    pub type_: u16,
    pub class: u16,
}

/// A question: a name, a type and a class.
#[derive(Clone, Debug, PartialEq, Eq)]
pub struct Question {
    name: Name,
    type_: RecordType,
    class: RecordClass,
}

impl View for Question {
    type V = QuestionView;

    closed spec fn view(&self) -> QuestionView {
        QuestionView { name: self.name@, type_: self.type_.value, class: self.class.value }
    }
}

/// The question at `c`, and the offset after it.
pub open spec fn question_at(b: Seq<u8>, c: int) -> Result<(QuestionView, int), ParseError> {
    match name_in(b, b.len() as int, c) {
        Ok((n, e)) => if e + 4 > b.len() {
            Err(ParseError::Truncated)
        } else {
            Ok((QuestionView { name: n, type_: be16(b, e), class: be16(b, e + 2) }, e + 4))
        },
        Err(x) => Err(x),
    }
}

impl Question {
    pub fn new(name: Name, type_: RecordType, class: RecordClass) -> (r: Self)
        ensures
            r@ == (QuestionView { name: name@, type_: type_.value, class: class.value }),
    {
        Question { name, type_, class }
    }

    pub fn name(&self) -> (r: &Name)
        ensures
            r@ == self@.name,
    {
        &self.name
    }

    pub fn type_(&self) -> (r: RecordType)
        ensures
            r.value == self@.type_,
    {
        self.type_
    }

    pub fn class(&self) -> (r: RecordClass)
        ensures
            r.value == self@.class,
    {
        self.class
    }

    /// The question at `*cursor`; on success `*cursor` is moved past it.
    pub fn parse(bytes: &[u8], cursor: &mut usize) -> (r: Result<Self, ParseError>)
        ensures
            match question_at(bytes@, *old(cursor) as int) {
                Ok((q, e)) => r is Ok && r->Ok_0@ == q && *final(cursor) == e,
                Err(x) => r == Err::<Question, ParseError>(x),
            },
    {
        let name = Name::parse(bytes, cursor)?;
        let c = *cursor;
        if c > bytes.len() || bytes.len() - c < 4 {
            return Err(ParseError::Truncated);
        }
        let type_ = RecordType::new(read_u16(bytes, c));
        let class = RecordClass::new(read_u16(bytes, c + 2));
        *cursor = c + 4;
        Ok(Question { name, type_, class })
    }
}

pub struct RecordView {
    pub name: Seq<u8>,
    pub type_: u16,
    pub class: u16,
    pub ttl: u32,
    pub rdata: RdataView,
}

/// A resource record: name, type, class, time to live and data.
#[derive(Clone, Debug, PartialEq, Eq)]
pub struct Record {
    name: Name,
    type_: RecordType,
    class: RecordClass,
    ttl: Ttl,
    rdata: Rdata,
}

impl View for Record {
    type V = RecordView;

    closed spec fn view(&self) -> RecordView {
        RecordView {
            name: self.name@,
            type_: self.type_.value,
            class: self.class.value,
            ttl: self.ttl.seconds,
            rdata: self.rdata@,
        }
    }
}

/// The record at `c`, and the offset after it.
pub open spec fn record_at(b: Seq<u8>, c: int) -> Result<(RecordView, int), ParseError> {
    match name_in(b, b.len() as int, c) {
        Ok((n, e)) => if e + 8 > b.len() {
            Err(ParseError::Truncated)
        } else {
            match rdata_at(be16(b, e), b, e + 8) {
                Ok((d, e2)) => Ok(
                    (
                        RecordView {
                            name: n,
                            type_: be16(b, e),
                            class: be16(b, e + 2),
                            ttl: be32(b, e + 4),
                            rdata: d,
                        },
                        e2,
                    ),
                ),
                Err(x) => Err(x),
            }
        },
        Err(x) => Err(x),
    }
}

impl Record {
    pub fn name(&self) -> (r: &Name)
        ensures
            r@ == self@.name,
    {
        &self.name
    }

    pub fn type_(&self) -> (r: RecordType)
        ensures
            r.value == self@.type_,
    {
        self.type_
    }

    pub fn class(&self) -> (r: RecordClass)
        ensures
            r.value == self@.class,
    {
        self.class
    }

    pub fn ttl(&self) -> (r: Ttl)
        ensures
            r.seconds == self@.ttl,
    {
        self.ttl
    }

    pub fn rdata(&self) -> (r: &Rdata)
        ensures
            r@ == self@.rdata,
    {
        &self.rdata
    }

    /// The record at `*cursor`; on success `*cursor` is moved past it.
    pub fn parse(bytes: &[u8], cursor: &mut usize) -> (r: Result<Self, ParseError>)
        ensures
            match record_at(bytes@, *old(cursor) as int) {
                Ok((rec, e)) => r is Ok && r->Ok_0@ == rec && *final(cursor) == e,
                Err(x) => r == Err::<Record, ParseError>(x),
            },
    {
        let name = Name::parse(bytes, cursor)?;
        let c = *cursor;
        if c > bytes.len() || bytes.len() - c < 8 {
            return Err(ParseError::Truncated);
        }
        let type_ = RecordType::new(read_u16(bytes, c));
        let class = RecordClass::new(read_u16(bytes, c + 2));
        let ttl = Ttl::new(read_u32(bytes, c + 4));
        *cursor = c + 8;
        let rdata = Rdata::parse(type_, bytes, cursor)?;
        Ok(Record { name, type_, class, ttl, rdata })
    }
}

/// The four-bit kind of a query.
#[derive(Clone, Copy, Debug, PartialEq, Eq, Structural)]
pub struct OpCode {
    pub value: u16,
}

impl OpCode {
    pub fn new(value: u16) -> (r: Self)
        ensures
            r.value == value,
    {
        OpCode { value }
    }
}

/// The four-bit status of a reply.
#[derive(Clone, Copy, Debug, PartialEq, Eq, Structural)]
pub struct ResponseCode {
    pub value: u16,
}

impl ResponseCode {
    pub fn new(value: u16) -> (r: Self)
        ensures
            r.value == value,
    {
        ResponseCode { value }
    }
}

/// The flags word of a header. Bit 15 marks a reply, bits 14 to 11 hold the opcode, bits 10,
/// 9, 8 and 7 mark an authoritative answer, truncation, recursion desired and recursion
/// available, and bits 3 to 0 hold the response code.
#[derive(Clone, Copy, Debug, PartialEq, Eq, Structural)]
pub struct Flags {
    pub value: u16,
}

pub open spec fn flag_bit(v: u16, bit: u16) -> bool {
    (v >> bit) & 1 == 1
}

impl Flags {
    pub fn new(value: u16) -> (r: Self)
        ensures
            r.value == value,
    {
        Flags { value }
    }

    /// The flags made of these parts; the opcode and the response code give their low four
    /// bits, and the bits that no part names are clear.
    pub fn from_parts(
        is_reply: bool,
        opcode: OpCode,
        is_authoritative_answer: bool,
        is_truncated: bool,
        recursion_desired: bool,
        recursion_available: bool,
        response_code: ResponseCode,
    ) -> (r: Self)
        ensures
            flag_bit(r.value, 15) == is_reply,
            (r.value >> 11) & 15 == opcode.value & 15,
            flag_bit(r.value, 10) == is_authoritative_answer,
            flag_bit(r.value, 9) == is_truncated,
            flag_bit(r.value, 8) == recursion_desired,
            flag_bit(r.value, 7) == recursion_available,
            r.value & 0x70 == 0,
            r.value & 15 == response_code.value & 15,
    {
        let a: u16 = if is_reply { 0x8000 } else { 0 };
        let ov: u16 = opcode.value;
        let rv: u16 = response_code.value;
        let o: u16 = ov & 15;
        let b: u16 = if is_authoritative_answer { 0x400 } else { 0 };
        let c: u16 = if is_truncated { 0x200 } else { 0 };
        let d: u16 = if recursion_desired { 0x100 } else { 0 };
        let e: u16 = if recursion_available { 0x80 } else { 0 };
        let rc: u16 = rv & 15;
        assert(o <= 15 && rc <= 15) by (bit_vector)
            requires
                o == ov & 15,
                rc == rv & 15,
        ;
        let value: u16 = a | (o << 11) | b | c | d | e | rc;
        assert(((value >> 15) & 1 == 1) == (a == 0x8000) && (value >> 11) & 15 == o && ((value
            >> 10) & 1 == 1) == (b == 0x400) && ((value >> 9) & 1 == 1) == (c == 0x200) && ((value
            >> 8) & 1 == 1) == (d == 0x100) && ((value >> 7) & 1 == 1) == (e == 0x80) && value
            & 0x70 == 0 && value & 15 == rc) by (bit_vector)
            requires
                a == 0 || a == 0x8000,
                b == 0 || b == 0x400,
                c == 0 || c == 0x200,
                d == 0 || d == 0x100,
                e == 0 || e == 0x80,
                o <= 15,
                rc <= 15,
                value == a | (o << 11) | b | c | d | e | rc,
        ;
        Flags { value }
    }

    pub fn is_reply(&self) -> (r: bool)
        ensures
            r == flag_bit(self.value, 15),
    {
        let v = self.value;
        assert((v >> 15 == 1) == ((v >> 15) & 1 == 1)) by (bit_vector);
        v >> 15 == 1
    }

    pub fn opcode(&self) -> (r: OpCode)
        ensures
            r.value == (self.value >> 11) & 15,
    {
        OpCode::new((self.value >> 11) & 15)
    }

    pub fn is_authoritative_answer(&self) -> (r: bool)
        ensures
            r == flag_bit(self.value, 10),
    {
        (self.value >> 10) & 1 == 1
    }

    pub fn is_truncated(&self) -> (r: bool)
        ensures
            r == flag_bit(self.value, 9),
    {
        (self.value >> 9) & 1 == 1
    }

    pub fn recursion_desired(&self) -> (r: bool)
        ensures
            r == flag_bit(self.value, 8),
    {
        (self.value >> 8) & 1 == 1
    }

    pub fn recursion_available(&self) -> (r: bool)
        ensures
            r == flag_bit(self.value, 7),
    {
        (self.value >> 7) & 1 == 1
    }

    pub fn response_code(&self) -> (r: ResponseCode)
        ensures
            r.value == self.value & 15,
    {
        ResponseCode::new(self.value & 15)
    }
}

pub open spec fn question_views(s: Seq<Question>) -> Seq<QuestionView> {
    s.map_values(|q: Question| q@)
}

pub open spec fn record_views(s: Seq<Record>) -> Seq<RecordView> {
    s.map_values(|r: Record| r@)
}

/// `acc` followed by what `r` gathered.
pub open spec fn prepend<T>(acc: Seq<T>, r: Result<(Seq<T>, int), ParseError>) -> Result<
    (Seq<T>, int),
    ParseError,
> {
    match r {
        Ok((s, e)) => Ok((acc + s, e)),
        Err(x) => Err(x),
    }
}

/// `n` questions one after another from `c`, and the offset after them.
pub open spec fn questions_at(b: Seq<u8>, c: int, n: nat) -> Result<
    (Seq<QuestionView>, int),
    ParseError,
>
    decreases n,
{
    if n == 0 {
        Ok((Seq::empty(), c))
    } else {
        match question_at(b, c) {
            Ok((q, e)) => prepend(seq![q], questions_at(b, e, (n - 1) as nat)),
            Err(x) => Err(x),
        }
    }
}

/// `n` records one after another from `c`, and the offset after them.
pub open spec fn records_at(b: Seq<u8>, c: int, n: nat) -> Result<(Seq<RecordView>, int), ParseError>
    decreases n,
{
    if n == 0 {
        Ok((Seq::empty(), c))
    } else {
        match record_at(b, c) {
            Ok((r, e)) => prepend(seq![r], records_at(b, e, (n - 1) as nat)),
            Err(x) => Err(x),
        }
    }
}

proof fn lemma_prepend_step<T>(acc: Seq<T>, x: T, r: Result<(Seq<T>, int), ParseError>)
    ensures
        prepend(acc, prepend(seq![x], r)) == prepend(acc.push(x), r),
{
    match r {
        Ok((s, e)) => {
            assert(acc + (seq![x] + s) =~= acc.push(x) + s);
        },
        Err(_) => {},
    }
}

/// Reads `count` questions from `*cursor`; on success `*cursor` is moved past them.
pub fn parse_questions(bytes: &[u8], count: u16, cursor: &mut usize) -> (r: Result<
    Vec<Question>,
    ParseError,
>)
    ensures
        match questions_at(bytes@, *old(cursor) as int, count as nat) {
            Ok((qs, e)) => r is Ok && question_views(r->Ok_0@) == qs && *final(cursor) == e,
            Err(x) => r == Err::<Vec<Question>, ParseError>(x),
        },
{
    let ghost c0 = *cursor as int;
    let mut out: Vec<Question> = Vec::new();
    let mut i: u16 = 0;
    while i < count
        invariant
            i <= count,
            c0 == *old(cursor) as int,
            questions_at(bytes@, c0, count as nat) == prepend(
                question_views(out@),
                questions_at(bytes@, *cursor as int, (count - i) as nat),
            ),
        decreases count - i,
    {
        let ghost before = *cursor as int;
        let q = Question::parse(bytes, cursor)?;
        proof {
            lemma_prepend_step(
                question_views(out@),
                q@,
                questions_at(bytes@, *cursor as int, (count - i - 1) as nat),
            );
            assert(question_views(out@.push(q)) =~= question_views(out@).push(q@));
        }
        out.push(q);
        i = i + 1;
    }
    assert(question_views(out@) + Seq::empty() =~= question_views(out@));
    Ok(out)
}

/// Reads `count` records from `*cursor`; on success `*cursor` is moved past them.
pub fn parse_records(bytes: &[u8], count: u16, cursor: &mut usize) -> (r: Result<
    Vec<Record>,
    ParseError,
>)
    ensures
        match records_at(bytes@, *old(cursor) as int, count as nat) {
            Ok((rs, e)) => r is Ok && record_views(r->Ok_0@) == rs && *final(cursor) == e,
            Err(x) => r == Err::<Vec<Record>, ParseError>(x),
        },
{
    let ghost c0 = *cursor as int;
    let mut out: Vec<Record> = Vec::new();
    let mut i: u16 = 0;
    while i < count
        invariant
            i <= count,
            c0 == *old(cursor) as int,
            records_at(bytes@, c0, count as nat) == prepend(
                record_views(out@),
                records_at(bytes@, *cursor as int, (count - i) as nat),
            ),
        decreases count - i,
    {
        let rec = Record::parse(bytes, cursor)?;
        proof {
            lemma_prepend_step(
                record_views(out@),
                rec@,
                records_at(bytes@, *cursor as int, (count - i - 1) as nat),
            );
            assert(record_views(out@.push(rec)) =~= record_views(out@).push(rec@));
        }
        out.push(rec);
        i = i + 1;
    }
    assert(record_views(out@) + Seq::empty() =~= record_views(out@));
    Ok(out)
}

pub struct MessageView {
    pub id: u16,
    pub flags: u16,
    pub questions: Seq<QuestionView>,
    pub answers: Seq<RecordView>,
    pub authority: Seq<RecordView>,
    pub additional: Seq<RecordView>,
}

/// The message that `b` holds: a twelve-byte header (id, flags and the four section counts),
/// then the questions, answers, authority and additional records, and nothing after them.
pub open spec fn message_at(b: Seq<u8>) -> Result<MessageView, ParseError> {
    if b.len() < 12 {
        Err(ParseError::Truncated)
    } else {
        match questions_at(b, 12, be16(b, 4) as nat) {
            Ok((qs, c1)) => match records_at(b, c1, be16(b, 6) as nat) {
                Ok((an, c2)) => match records_at(b, c2, be16(b, 8) as nat) {
                    Ok((au, c3)) => match records_at(b, c3, be16(b, 10) as nat) {
                        Ok((ad, c4)) => if c4 < b.len() {
                            Err(ParseError::Extra)
                        } else {
                            Ok(
                                MessageView {
                                    id: be16(b, 0),
                                    flags: be16(b, 2),
                                    questions: qs,
                                    answers: an,
                                    authority: au,
                                    additional: ad,
                                },
                            )
                        },
                        Err(x) => Err(x),
                    },
                    Err(x) => Err(x),
                },
                Err(x) => Err(x),
            },
            Err(x) => Err(x),
        }
    }
}

/// One DNS message. The section counts of the header are not stored: they are the lengths of
/// the four sections.
#[derive(Debug, PartialEq, Eq)]
pub struct Message {
    id: u16,
    flags: Flags,
    questions: Vec<Question>,
    answers: Vec<Record>,
    authority_rrs: Vec<Record>,
    additional_rrs: Vec<Record>,
}

impl View for Message {
    type V = MessageView;

    closed spec fn view(&self) -> MessageView {
        MessageView {
            id: self.id,
            flags: self.flags.value,
            questions: question_views(self.questions@),
            answers: record_views(self.answers@),
            authority: record_views(self.authority_rrs@),
            additional: record_views(self.additional_rrs@),
        }
    }
}

impl Message {
    pub fn id(&self) -> (r: u16)
        ensures
            r == self@.id,
    {
        self.id
    }

    pub fn flags(&self) -> (r: Flags)
        ensures
            r.value == self@.flags,
    {
        self.flags
    }

    pub fn questions(&self) -> (r: &Vec<Question>)
        ensures
            question_views(r@) == self@.questions,
    {
        &self.questions
    }

    pub fn answers(&self) -> (r: &Vec<Record>)
        ensures
            record_views(r@) == self@.answers,
    {
        &self.answers
    }

    pub fn authority_records(&self) -> (r: &Vec<Record>)
        ensures
            record_views(r@) == self@.authority,
    {
        &self.authority_rrs
    }

    pub fn additional_records(&self) -> (r: &Vec<Record>)
        ensures
            record_views(r@) == self@.additional,
    {
        &self.additional_rrs
    }

    /// Decodes one message; every byte of `bytes` must belong to it.
    pub fn parse(bytes: &[u8]) -> (r: Result<Self, ParseError>)
        ensures
            match message_at(bytes@) {
                Ok(m) => r is Ok && r->Ok_0@ == m,
                Err(x) => r == Err::<Message, ParseError>(x),
            },
    {
        if bytes.len() < 12 {
            return Err(ParseError::Truncated);
        }
        let id = read_u16(bytes, 0);
        let flags = read_u16(bytes, 2);
        let num_questions = read_u16(bytes, 4);
        let num_answers = read_u16(bytes, 6);
        let num_authority_rrs = read_u16(bytes, 8);
        let num_additional_rrs = read_u16(bytes, 10);
        let mut cursor: usize = 12;
        let questions = parse_questions(bytes, num_questions, &mut cursor)?;
        let answers = parse_records(bytes, num_answers, &mut cursor)?;
        let authority_rrs = parse_records(bytes, num_authority_rrs, &mut cursor)?;
        let additional_rrs = parse_records(bytes, num_additional_rrs, &mut cursor)?;
        if cursor < bytes.len() {
            return Err(ParseError::Extra);
        }
        Ok(
            Message {
                id,
                flags: Flags::new(flags),
                questions,
                answers,
                authority_rrs,
                additional_rrs,
            },
        )
    }
}

/// A 16-bit value as two bytes, high byte first.
pub open spec fn enc16(v: u16) -> Seq<u8> {
    seq![(v / 256) as u8, (v % 256) as u8]
}

/// A 32-bit value as four bytes, high byte first.
pub open spec fn enc32(v: u32) -> Seq<u8> {
    seq![(v / 16777216) as u8, ((v / 65536) % 256) as u8, ((v / 256) % 256) as u8, (v % 256) as u8]
}

/// A name on the wire without compression: its labels, then the root label.
pub open spec fn name_bytes(n: Seq<u8>) -> Seq<u8> {
    n.push(0)
}

pub open spec fn rdata_bytes(d: RdataView) -> Seq<u8> {
    match d {
        RdataView::A { ip } => ip,
        RdataView::Aaaa { ip } => ip,
        RdataView::Cname { name } => name_bytes(name),
        RdataView::Other { data } => data,
    }
}

pub open spec fn question_bytes(q: QuestionView) -> Seq<u8> {
    name_bytes(q.name) + enc16(q.type_) + enc16(q.class)
}

pub open spec fn record_bytes(r: RecordView) -> Seq<u8> {
    name_bytes(r.name) + enc16(r.type_) + enc16(r.class) + enc32(r.ttl) + enc16(
        rdata_bytes(r.rdata).len() as u16,
    ) + rdata_bytes(r.rdata)
}

pub open spec fn questions_bytes(s: Seq<QuestionView>) -> Seq<u8>
    decreases s.len(),
{
    if s.len() == 0 {
        Seq::empty()
    } else {
        question_bytes(s[0]) + questions_bytes(s.drop_first())
    }
}

pub open spec fn records_bytes(s: Seq<RecordView>) -> Seq<u8>
    decreases s.len(),
{
    if s.len() == 0 {
        Seq::empty()
    } else {
        record_bytes(s[0]) + records_bytes(s.drop_first())
    }
}

/// A message on the wire: the header with the section counts, then the four sections, with
/// every name written out in full.
pub open spec fn message_bytes(m: MessageView) -> Seq<u8> {
    header_bytes(m) + questions_bytes(m.questions) + records_bytes(m.answers) + records_bytes(
        m.authority,
    ) + records_bytes(m.additional)
}

/// The twelve header bytes: id, flags and the four section counts.
pub open spec fn header_bytes(m: MessageView) -> Seq<u8> {
    enc16(m.id) + enc16(m.flags) + enc16(m.questions.len() as u16) + enc16(
        m.answers.len() as u16,
    ) + enc16(m.authority.len() as u16) + enc16(m.additional.len() as u16)
}

/// Each record's data fits in its 16-bit length field.
pub open spec fn data_fits(s: Seq<RecordView>) -> bool {
    forall|i: int| 0 <= i < s.len() ==> rdata_bytes(#[trigger] s[i].rdata).len() <= 65535
}

pub open spec fn section_encodable(s: Seq<RecordView>) -> bool {
    s.len() <= 65535 && data_fits(s)
}

/// Every count and every data length of `m` fits in its 16-bit field.
pub open spec fn encodable(m: MessageView) -> bool {
    m.questions.len() <= 65535 && section_encodable(m.answers) && section_encodable(m.authority)
        && section_encodable(m.additional)
}

/// The data agrees with the record's type, as a decoder reads it.
pub open spec fn rdata_wf(t: u16, d: RdataView) -> bool {
    match d {
        RdataView::A { ip } => t == TYPE_A && ip.len() == 4,
        RdataView::Aaaa { ip } => t == TYPE_AAAA && ip.len() == 16,
        RdataView::Cname { name } => t == TYPE_CNAME && labels_wf(name) && name.len() < 65535,
        RdataView::Other { data } => t != TYPE_A && t != TYPE_AAAA && t != TYPE_CNAME && data.len()
            <= 65535,
    }
}

pub open spec fn record_wf(r: RecordView) -> bool {
    labels_wf(r.name) && rdata_wf(r.type_, r.rdata)
}

pub open spec fn records_wf(s: Seq<RecordView>) -> bool {
    s.len() <= 65535 && forall|i: int| 0 <= i < s.len() ==> record_wf(#[trigger] s[i])
}

/// A message that a decoder reads back as it is: names in wire form, data that agrees with each
/// record's type, and counts that fit in the header.
pub open spec fn message_wf(m: MessageView) -> bool {
    m.questions.len() <= 65535 && (forall|i: int|
        0 <= i < m.questions.len() ==> labels_wf(#[trigger] m.questions[i].name)) && records_wf(
        m.answers,
    ) && records_wf(m.authority) && records_wf(m.additional)
}

proof fn lemma_split(b: Seq<u8>, c: int, x: Seq<u8>, y: Seq<u8>)
    requires
        0 <= c,
        c + x.len() + y.len() <= b.len(),
        b.subrange(c, c + x.len() + y.len()) == x + y,
    ensures
        b.subrange(c, c + x.len()) == x,
        b.subrange(c + x.len(), c + x.len() + y.len()) == y,
{
    assert forall|i: int| 0 <= i < x.len() implies b.subrange(c, c + x.len())[i] == x[i] by {
        assert(b.subrange(c, c + x.len() + y.len())[i] == (x + y)[i]);
    }
    assert forall|i: int| 0 <= i < y.len() implies b.subrange(
        c + x.len(),
        c + x.len() + y.len(),
    )[i] == y[i] by {
        let j: int = x.len() + i;
        assert(b.subrange(c, c + x.len() + y.len())[j] == (x + y)[j]);
        assert((x + y)[j] == y[i]);
        assert(b.subrange(c, c + x.len() + y.len())[j] == b[c + j]);
    }
    assert(b.subrange(c, c + x.len()) =~= x);
    assert(b.subrange(c + x.len(), c + x.len() + y.len()) =~= y);
}

proof fn lemma_be16(b: Seq<u8>, c: int, v: u16)
    requires
        0 <= c,
        c + 2 <= b.len(),
        b.subrange(c, c + 2) == enc16(v),
    ensures
        be16(b, c) == v,
{
    assert(b.subrange(c, c + 2)[0] == b[c]);
    assert(b.subrange(c, c + 2)[1] == b[c + 1]);
}

proof fn lemma_be32(b: Seq<u8>, c: int, v: u32)
    requires
        0 <= c,
        c + 4 <= b.len(),
        b.subrange(c, c + 4) == enc32(v),
    ensures
        be32(b, c) == v,
{
    assert(b.subrange(c, c + 4)[0] == b[c]);
    assert(b.subrange(c, c + 4)[1] == b[c + 1]);
    assert(b.subrange(c, c + 4)[2] == b[c + 2]);
    assert(b.subrange(c, c + 4)[3] == b[c + 3]);
    let x = v as int;
    assert((x / 16777216) * 16777216 + ((x / 65536) % 256) * 65536 + ((x / 256) % 256) * 256 + x
        % 256 == x) by (nonlinear_arith)
        requires
            0 <= x < 4294967296,
    ;
}

/// A name written out in full is read back as it is, whatever the pointer budget.
proof fn lemma_name_round_trip(b: Seq<u8>, c: int, n: Seq<u8>, jumps: nat)
    requires
        labels_wf(n),
        0 <= c,
        c + n.len() + 1 <= b.len(),
        b.subrange(c, c + n.len() + 1) == name_bytes(n),
    ensures
        name_at(b, c, jumps) == Ok::<(Seq<u8>, int), ParseError>((n, c + n.len() + 1)),
    decreases n.len(),
{
    assert(b.subrange(c, c + n.len() + 1)[0] == b[c]);
    if n.len() == 0 {
        assert(b[c] == 0);
        assert(n =~= Seq::<u8>::empty());
    } else {
        let k = n[0] as int;
        let rest = n.subrange(1 + k, n.len() as int);
        assert(1 <= k <= 63 && 1 + k <= n.len() && labels_wf(rest));
        assert(name_bytes(n)[0] == n[0]);
        assert(b[c] == n[0]);
        assert(n =~= n.subrange(0, 1 + k) + rest);
        assert(name_bytes(n) =~= n.subrange(0, 1 + k) + name_bytes(rest));
        lemma_split(b, c, n.subrange(0, 1 + k), name_bytes(rest));
        lemma_name_round_trip(b, c + 1 + k, rest, jumps);
        assert(b.subrange(c, c + 1 + k) + rest == n);
        assert(c + 1 + k + rest.len() + 1 == c + n.len() + 1);
    }
}

proof fn lemma_question_round_trip(b: Seq<u8>, c: int, q: QuestionView)
    requires
        labels_wf(q.name),
        0 <= c,
        c + question_bytes(q).len() <= b.len(),
        b.subrange(c, c + question_bytes(q).len()) == question_bytes(q),
    ensures
        question_at(b, c) == Ok::<(QuestionView, int), ParseError>(
            (q, c + question_bytes(q).len()),
        ),
{
    let nb = name_bytes(q.name);
    lemma_split(b, c, nb + enc16(q.type_), enc16(q.class));
    lemma_split(b, c, nb, enc16(q.type_));
    assert(b.subrange(0, b.len() as int) =~= b);
    lemma_name_round_trip(b, c, q.name, b.len());
    lemma_be16(b, c + nb.len(), q.type_);
    lemma_be16(b, c + nb.len() + 2, q.class);
}

proof fn lemma_rdata_round_trip(b: Seq<u8>, c: int, t: u16, d: RdataView)
    requires
        rdata_wf(t, d),
        0 <= c,
        c + 2 + rdata_bytes(d).len() <= b.len(),
        b.subrange(c, c + 2 + rdata_bytes(d).len()) == enc16(rdata_bytes(d).len() as u16)
            + rdata_bytes(d),
    ensures
        rdata_at(t, b, c) == Ok::<(RdataView, int), ParseError>(
            (d, c + 2 + rdata_bytes(d).len()),
        ),
{
    let rb = rdata_bytes(d);
    lemma_split(b, c, enc16(rb.len() as u16), rb);
    lemma_be16(b, c, rb.len() as u16);
    let s = c + 2;
    match d {
        RdataView::Cname { name } => {
            let w = b.subrange(0, s + rb.len());
            assert(w.subrange(s, s + rb.len()) =~= b.subrange(s, s + rb.len()));
            lemma_name_round_trip(w, s, name, w.len());
        },
        _ => {},
    }
}

proof fn lemma_record_round_trip(b: Seq<u8>, c: int, r: RecordView)
    requires
        record_wf(r),
        0 <= c,
        c + record_bytes(r).len() <= b.len(),
        b.subrange(c, c + record_bytes(r).len()) == record_bytes(r),
    ensures
        record_at(b, c) == Ok::<(RecordView, int), ParseError>((r, c + record_bytes(r).len())),
{
    let nb = name_bytes(r.name);
    let rb = rdata_bytes(r.rdata);
    let l16 = enc16(rb.len() as u16);
    let with_type = nb + enc16(r.type_);
    let with_class = with_type + enc16(r.class);
    let with_ttl = with_class + enc32(r.ttl);
    assert(record_bytes(r) == with_ttl + (l16 + rb)) by {
        assert(record_bytes(r) =~= with_ttl + (l16 + rb));
    }
    lemma_split(b, c, with_ttl, l16 + rb);
    lemma_split(b, c, with_class, enc32(r.ttl));
    lemma_split(b, c, with_type, enc16(r.class));
    lemma_split(b, c, nb, enc16(r.type_));
    assert(b.subrange(0, b.len() as int) =~= b);
    lemma_name_round_trip(b, c, r.name, b.len());
    lemma_be16(b, c + nb.len(), r.type_);
    lemma_be16(b, c + nb.len() + 2, r.class);
    lemma_be32(b, c + nb.len() + 4, r.ttl);
    lemma_rdata_round_trip(b, c + nb.len() + 8, r.type_, r.rdata);
}

proof fn lemma_questions_round_trip(b: Seq<u8>, c: int, s: Seq<QuestionView>)
    requires
        forall|i: int| 0 <= i < s.len() ==> labels_wf(#[trigger] s[i].name),
        0 <= c,
        c + questions_bytes(s).len() <= b.len(),
        b.subrange(c, c + questions_bytes(s).len()) == questions_bytes(s),
    ensures
        questions_at(b, c, s.len()) == Ok::<(Seq<QuestionView>, int), ParseError>(
            (s, c + questions_bytes(s).len()),
        ),
    decreases s.len(),
{
    if s.len() == 0 {
        assert(s =~= Seq::<QuestionView>::empty());
    } else {
        let rest = s.drop_first();
        assert(questions_bytes(s) == question_bytes(s[0]) + questions_bytes(rest));
        lemma_split(b, c, question_bytes(s[0]), questions_bytes(rest));
        assert(labels_wf(s[0].name));
        lemma_question_round_trip(b, c, s[0]);
        assert forall|i: int| 0 <= i < rest.len() implies labels_wf(#[trigger] rest[i].name) by {
            assert(rest[i] == s[i + 1]);
        }
        let e: int = c + question_bytes(s[0]).len();
        lemma_questions_round_trip(b, e, rest);
        assert(seq![s[0]] + rest =~= s);
        assert(rest.len() == (s.len() - 1) as nat);
        assert(questions_at(b, c, s.len()) == prepend(seq![s[0]], questions_at(b, e, rest.len())));
    }
}

proof fn lemma_records_round_trip(b: Seq<u8>, c: int, s: Seq<RecordView>)
    requires
        forall|i: int| 0 <= i < s.len() ==> record_wf(#[trigger] s[i]),
        0 <= c,
        c + records_bytes(s).len() <= b.len(),
        b.subrange(c, c + records_bytes(s).len()) == records_bytes(s),
    ensures
        records_at(b, c, s.len()) == Ok::<(Seq<RecordView>, int), ParseError>(
            (s, c + records_bytes(s).len()),
        ),
    decreases s.len(),
{
    if s.len() == 0 {
        assert(s =~= Seq::<RecordView>::empty());
    } else {
        let rest = s.drop_first();
        assert(records_bytes(s) == record_bytes(s[0]) + records_bytes(rest));
        lemma_split(b, c, record_bytes(s[0]), records_bytes(rest));
        assert(record_wf(s[0]));
        lemma_record_round_trip(b, c, s[0]);
        assert forall|i: int| 0 <= i < rest.len() implies record_wf(#[trigger] rest[i]) by {
            assert(rest[i] == s[i + 1]);
        }
        let e: int = c + record_bytes(s[0]).len();
        lemma_records_round_trip(b, e, rest);
        assert(seq![s[0]] + rest =~= s);
        assert(rest.len() == (s.len() - 1) as nat);
        assert(records_at(b, c, s.len()) == prepend(seq![s[0]], records_at(b, e, rest.len())));
    }
}

/// Decoding what encoding wrote gives back the same message, for every message whose names
/// are in wire form, whose record data agrees with the record types, and whose counts fit.
#[verifier::rlimit(80)]
#[verifier::spinoff_prover]
pub proof fn lemma_round_trip(m: MessageView)
    requires
        message_wf(m),
    ensures
        message_at(message_bytes(m)) == Ok::<MessageView, ParseError>(m),
{
    let b = message_bytes(m);
    let h = header_bytes(m);
    let qb = questions_bytes(m.questions);
    let anb = records_bytes(m.answers);
    let aub = records_bytes(m.authority);
    let adb = records_bytes(m.additional);
    assert(h.len() == 12);
    assert(b.subrange(0, b.len() as int) =~= b);
    let c1: int = 12 + qb.len() as int;
    let c2: int = c1 + anb.len();
    let c3: int = c2 + aub.len();
    lemma_split(b, 0, h + qb + anb + aub, adb);
    lemma_split(b, 0, h + qb + anb, aub);
    lemma_split(b, 0, h + qb, anb);
    lemma_split(b, 0, h, qb);
    lemma_header(b, m);
    lemma_questions_round_trip(b, 12, m.questions);
    lemma_records_round_trip(b, c1, m.answers);
    lemma_records_round_trip(b, c2, m.authority);
    lemma_records_round_trip(b, c3, m.additional);
    let c4: int = c3 + adb.len();
    assert(c4 == b.len());
    assert(questions_at(b, 12, be16(b, 4) as nat) == Ok::<(Seq<QuestionView>, int), ParseError>(
        (m.questions, c1),
    ));
    assert(records_at(b, c1, be16(b, 6) as nat) == Ok::<(Seq<RecordView>, int), ParseError>(
        (m.answers, c2),
    ));
    assert(records_at(b, c2, be16(b, 8) as nat) == Ok::<(Seq<RecordView>, int), ParseError>(
        (m.authority, c3),
    ));
    assert(records_at(b, c3, be16(b, 10) as nat) == Ok::<(Seq<RecordView>, int), ParseError>(
        (m.additional, c4),
    ));
}

proof fn lemma_header(b: Seq<u8>, m: MessageView)
    requires
        m.questions.len() <= 65535,
        m.answers.len() <= 65535,
        m.authority.len() <= 65535,
        m.additional.len() <= 65535,
        b.len() >= 12,
        b.subrange(0, 12) == header_bytes(m),
    ensures
        be16(b, 0) == m.id,
        be16(b, 2) == m.flags,
        be16(b, 4) == m.questions.len(),
        be16(b, 6) == m.answers.len(),
        be16(b, 8) == m.authority.len(),
        be16(b, 10) == m.additional.len(),
{
    let h = header_bytes(m);
    let h1 = enc16(m.id) + enc16(m.flags);
    let h2 = h1 + enc16(m.questions.len() as u16);
    let h3 = h2 + enc16(m.answers.len() as u16);
    let h4 = h3 + enc16(m.authority.len() as u16);
    lemma_split(b, 0, h4, enc16(m.additional.len() as u16));
    lemma_split(b, 0, h3, enc16(m.authority.len() as u16));
    lemma_split(b, 0, h2, enc16(m.answers.len() as u16));
    lemma_split(b, 0, h1, enc16(m.questions.len() as u16));
    lemma_split(b, 0, enc16(m.id), enc16(m.flags));
    lemma_be16(b, 0, m.id);
    lemma_be16(b, 2, m.flags);
    lemma_be16(b, 4, m.questions.len() as u16);
    lemma_be16(b, 6, m.answers.len() as u16);
    lemma_be16(b, 8, m.authority.len() as u16);
    lemma_be16(b, 10, m.additional.len() as u16);
}

pub fn push_u16(out: &mut Vec<u8>, v: u16)
    ensures
        final(out)@ == old(out)@ + enc16(v),
{
    out.push((v / 256) as u8);
    out.push((v % 256) as u8);
    assert(final(out)@ =~= old(out)@ + enc16(v));
}

pub fn push_u32(out: &mut Vec<u8>, v: u32)
    ensures
        final(out)@ == old(out)@ + enc32(v),
{
    out.push((v / 16777216) as u8);
    out.push(((v / 65536) % 256) as u8);
    out.push(((v / 256) % 256) as u8);
    out.push((v % 256) as u8);
    assert(final(out)@ =~= old(out)@ + enc32(v));
}

pub fn push_bytes(out: &mut Vec<u8>, src: &[u8])
    ensures
        final(out)@ == old(out)@ + src@,
{
    let ghost start = out@;
    let mut i: usize = 0;
    while i < src.len()
        invariant
            i <= src@.len(),
            out@ == start + src@.subrange(0, i as int),
        decreases src@.len() - i,
    {
        out.push(src[i]);
        i = i + 1;
        assert(out@ =~= start + src@.subrange(0, i as int));
    }
    assert(src@.subrange(0, i as int) =~= src@);
}

proof fn lemma_questions_bytes_push(s: Seq<QuestionView>, x: QuestionView)
    ensures
        questions_bytes(s.push(x)) == questions_bytes(s) + question_bytes(x),
    decreases s.len(),
{
    assert(s.push(x)[0] == if s.len() == 0 { x } else { s[0] });
    if s.len() == 0 {
        let t = s.push(x).drop_first();
        assert(t =~= Seq::<QuestionView>::empty());
        assert(questions_bytes(t) == Seq::<u8>::empty());
        assert(questions_bytes(s) == Seq::<u8>::empty());
        assert(questions_bytes(s.push(x)) == question_bytes(x) + questions_bytes(t));
        assert(questions_bytes(s.push(x)) =~= questions_bytes(s) + question_bytes(x));
    } else {
        assert(s.push(x).drop_first() =~= s.drop_first().push(x));
        lemma_questions_bytes_push(s.drop_first(), x);
        assert(questions_bytes(s.push(x)) == question_bytes(s[0]) + questions_bytes(s.drop_first().push(x)));
        assert(questions_bytes(s) == question_bytes(s[0]) + questions_bytes(s.drop_first()));
        assert(questions_bytes(s.push(x)) =~= questions_bytes(s) + question_bytes(x));
    }
}

proof fn lemma_records_bytes_push(s: Seq<RecordView>, x: RecordView)
    ensures
        records_bytes(s.push(x)) == records_bytes(s) + record_bytes(x),
    decreases s.len(),
{
    assert(s.push(x)[0] == if s.len() == 0 { x } else { s[0] });
    if s.len() == 0 {
        let t = s.push(x).drop_first();
        assert(t =~= Seq::<RecordView>::empty());
        assert(records_bytes(t) == Seq::<u8>::empty());
        assert(records_bytes(s) == Seq::<u8>::empty());
        assert(records_bytes(s.push(x)) == record_bytes(x) + records_bytes(t));
        assert(records_bytes(s.push(x)) =~= records_bytes(s) + record_bytes(x));
    } else {
        assert(s.push(x).drop_first() =~= s.drop_first().push(x));
        lemma_records_bytes_push(s.drop_first(), x);
        assert(records_bytes(s.push(x)) == record_bytes(s[0]) + records_bytes(s.drop_first().push(x)));
        assert(records_bytes(s) == record_bytes(s[0]) + records_bytes(s.drop_first()));
        assert(records_bytes(s.push(x)) =~= records_bytes(s) + record_bytes(x));
    }
}

impl Name {
    /// Appends the name in wire form, without compression.
    pub fn encode(&self, out: &mut Vec<u8>)
        ensures
            final(out)@ == old(out)@ + name_bytes(self@),
    {
        push_bytes(out, self.labels.as_slice());
        out.push(0);
        assert(final(out)@ =~= old(out)@ + name_bytes(self@));
    }
}

impl Rdata {
    /// The data in wire form, without its length field.
    pub fn encode(&self) -> (r: Vec<u8>)
        ensures
            r@ == rdata_bytes(self@),
    {
        let mut out: Vec<u8> = Vec::new();
        match self {
            Rdata::A { ip } => push_bytes(&mut out, ip.as_slice()),
            Rdata::Aaaa { ip } => push_bytes(&mut out, ip.as_slice()),
            Rdata::Cname { name } => name.encode(&mut out),
            Rdata::Other { data } => push_bytes(&mut out, data.as_slice()),
        }
        assert(out@ =~= rdata_bytes(self@));
        out
    }
}

impl Question {
    /// Appends the question in wire form.
    pub fn encode(&self, out: &mut Vec<u8>)
        ensures
            final(out)@ == old(out)@ + question_bytes(self@),
    {
        self.name.encode(out);
        push_u16(out, self.type_.value);
        push_u16(out, self.class.value);
        assert(final(out)@ =~= old(out)@ + question_bytes(self@));
    }
}

impl Record {
    /// Appends the record in wire form, unless its data is too long for the 16-bit length
    /// field; the result says whether it did.
    pub fn encode(&self, out: &mut Vec<u8>) -> (r: bool)
        ensures
            r == (rdata_bytes(self@.rdata).len() <= 65535),
            r ==> final(out)@ == old(out)@ + record_bytes(self@),
            !r ==> final(out)@ == old(out)@,
    {
        let data = self.rdata.encode();
        if data.len() > 65535 {
            return false;
        }
        self.name.encode(out);
        push_u16(out, self.type_.value);
        push_u16(out, self.class.value);
        push_u32(out, self.ttl.seconds);
        push_u16(out, data.len() as u16);
        push_bytes(out, data.as_slice());
        assert(final(out)@ =~= old(out)@ + record_bytes(self@));
        true
    }
}

/// Appends the questions in wire form.
pub fn encode_questions(qs: &Vec<Question>, out: &mut Vec<u8>)
    ensures
        final(out)@ == old(out)@ + questions_bytes(question_views(qs@)),
{
    let ghost start = out@;
    let mut i: usize = 0;
    while i < qs.len()
        invariant
            i <= qs@.len(),
            out@ == start + questions_bytes(question_views(qs@).take(i as int)),
        decreases qs@.len() - i,
    {
        proof {
            assert(question_views(qs@).take(i + 1) =~= question_views(qs@).take(i as int).push(
                qs@[i as int]@,
            ));
            lemma_questions_bytes_push(question_views(qs@).take(i as int), qs@[i as int]@);
        }
        qs[i].encode(out);
        i = i + 1;
        assert(out@ =~= start + questions_bytes(question_views(qs@).take(i as int)));
    }
    assert(question_views(qs@).take(i as int) =~= question_views(qs@));
}

/// Appends the records in wire form, unless one has data too long for its length field; the
/// result says whether it did.
pub fn encode_records(rs: &Vec<Record>, out: &mut Vec<u8>) -> (r: bool)
    ensures
        r == data_fits(record_views(rs@)),
        r ==> final(out)@ == old(out)@ + records_bytes(record_views(rs@)),
{
    let ghost start = out@;
    let mut i: usize = 0;
    while i < rs.len()
        invariant
            i <= rs@.len(),
            out@ == start + records_bytes(record_views(rs@).take(i as int)),
            forall|j: int| 0 <= j < i ==> rdata_bytes(#[trigger] record_views(rs@)[j].rdata).len() <= 65535,
        decreases rs@.len() - i,
    {
        proof {
            assert(record_views(rs@).take(i + 1) =~= record_views(rs@).take(i as int).push(
                rs@[i as int]@,
            ));
            lemma_records_bytes_push(record_views(rs@).take(i as int), rs@[i as int]@);
        }
        if !rs[i].encode(out) {
            assert(record_views(rs@)[i as int] == rs@[i as int]@);
            return false;
        }
        i = i + 1;
        assert(out@ =~= start + records_bytes(record_views(rs@).take(i as int)));
    }
    assert(record_views(rs@).take(i as int) =~= record_views(rs@));
    true
}

impl Message {
    /// Encodes the message, with every name written out in full. It is `None` exactly when a
    /// count or a record's data length does not fit in its 16-bit field.
    pub fn encode(&self) -> (r: Option<Vec<u8>>)
        ensures
            r is Some <==> encodable(self@),
            r is Some ==> r->Some_0@ == message_bytes(self@),
    {
        if self.questions.len() > 65535 || self.answers.len() > 65535 || self.authority_rrs.len()
            > 65535 || self.additional_rrs.len() > 65535 {
            return None;
        }
        let mut out: Vec<u8> = Vec::new();
        push_u16(&mut out, self.id);
        push_u16(&mut out, self.flags.value);
        push_u16(&mut out, self.questions.len() as u16);
        push_u16(&mut out, self.answers.len() as u16);
        push_u16(&mut out, self.authority_rrs.len() as u16);
        push_u16(&mut out, self.additional_rrs.len() as u16);
        assert(out@ =~= header_bytes(self@));
        encode_questions(&self.questions, &mut out);
        if !encode_records(&self.answers, &mut out) {
            return None;
        }
        if !encode_records(&self.authority_rrs, &mut out) {
            return None;
        }
        if !encode_records(&self.additional_rrs, &mut out) {
            return None;
        }
        Some(out)
    }
}

/// A decoded name is a sequence of labels in wire form.
pub proof fn lemma_name_at_wf(b: Seq<u8>, c: int, jumps: nat)
    ensures
        name_at(b, c, jumps) is Ok ==> labels_wf(name_at(b, c, jumps)->Ok_0.0),
    decreases jumps, b.len() - c,
{
    if 0 <= c < b.len() {
        let byte = b[c] as int;
        if 0 < byte < 64 && c + 1 + byte <= b.len() {
            lemma_name_at_wf(b, c + 1 + byte, jumps);
            match name_at(b, c + 1 + byte, jumps) {
                Ok((rest, e)) => {
                    let n = b.subrange(c, c + 1 + byte) + rest;
                    assert(n[0] == byte);
                    assert(n.subrange(1 + byte, n.len() as int) =~= rest);
                },
                Err(_) => {},
            }
        } else if byte >= 192 && c + 2 <= b.len() {
            let target = (byte - 192) * 256 + b[c + 1] as int;
            if target < c && jumps > 0 {
                lemma_name_at_wf(b, target, (jumps - 1) as nat);
            }
        }
    }
}

/// Decoded questions have names in wire form, and there are as many as were asked for.
pub proof fn lemma_questions_at_wf(b: Seq<u8>, c: int, n: nat)
    ensures
        questions_at(b, c, n) is Ok ==> ({
            let qs = questions_at(b, c, n)->Ok_0.0;
            qs.len() == n && forall|i: int| 0 <= i < qs.len() ==> labels_wf(#[trigger] qs[i].name)
        }),
    decreases n,
{
    if n > 0 {
        let w = b.subrange(0, b.len() as int);
        lemma_name_at_wf(w, c, w.len());
        match question_at(b, c) {
            Ok((q, e)) => {
                lemma_questions_at_wf(b, e, (n - 1) as nat);
                match questions_at(b, e, (n - 1) as nat) {
                    Ok((rest, e2)) => {
                        let qs = seq![q] + rest;
                        assert forall|i: int| 0 <= i < qs.len() implies labels_wf(
                            #[trigger] qs[i].name,
                        ) by {
                            if i > 0 {
                                assert(qs[i] == rest[i - 1]);
                            }
                        }
                    },
                    Err(_) => {},
                }
            },
            Err(_) => {},
        }
    }
}

/// Whether `s` is a sequence of labels in wire form.
pub fn labels_valid(s: &[u8]) -> (r: bool)
    ensures
        r == labels_wf(s@),
{
    let mut pos: usize = 0;
    assert(s@.subrange(0, s@.len() as int) =~= s@);
    while pos < s.len()
        invariant
            pos <= s@.len(),
            labels_wf(s@) == labels_wf(s@.subrange(pos as int, s@.len() as int)),
        decreases s@.len() - pos,
    {
        let k = s[pos] as usize;
        if k == 0 || k > 63 || k + 1 > s.len() - pos {
            return false;
        }
        proof {
            let t = s@.subrange(pos as int, s@.len() as int);
            assert(t[0] == s@[pos as int]);
            assert(t.subrange(1 + k, t.len() as int) =~= s@.subrange(pos + 1 + k, s@.len() as int));
        }
        pos = pos + 1 + k;
    }
    assert(s@.subrange(pos as int, s@.len() as int) =~= Seq::<u8>::empty());
    true
}

/// The labels of `n` from the first, with a dot before each label but the first when
/// `first` holds, and before every label otherwise. Decoding stops at a zero or overlong
/// length byte, which a name in wire form does not have.
pub open spec fn text_from(n: Seq<u8>, first: bool) -> Seq<u8>
    decreases n.len(),
{
    if n.len() == 0 {
        Seq::empty()
    } else {
        let k = n[0] as int;
        if k == 0 || 1 + k > n.len() {
            Seq::empty()
        } else {
            (if first {
                Seq::empty()
            } else {
                seq![46u8]
            }) + n.subrange(1, 1 + k) + text_from(n.subrange(1 + k, n.len() as int), false)
        }
    }
}

/// The name as text: its labels joined by dots (`xkcd.com`); the root name is empty.
pub open spec fn text_of(n: Seq<u8>) -> Seq<u8> {
    text_from(n, true)
}

impl Name {
    /// The name as text, its labels joined by dots.
    pub fn to_text(&self) -> (r: Vec<u8>)
        ensures
            r@ == text_of(self@),
    {
        let s = self.labels.as_slice();
        let mut out: Vec<u8> = Vec::new();
        let mut pos: usize = 0;
        assert(s@.subrange(0, s@.len() as int) =~= s@);
        assert(out@ + text_of(self@) =~= text_of(self@));
        while pos < s.len()
            invariant
                pos <= s@.len(),
                s@ == self@,
                text_of(self@) == out@ + text_from(s@.subrange(pos as int, s@.len() as int), pos == 0),
            decreases s@.len() - pos,
        {
            let k = s[pos] as usize;
            let ghost t = s@.subrange(pos as int, s@.len() as int);
            assert(t[0] == s@[pos as int]);
            if k == 0 || k + 1 > s.len() - pos {
                assert(text_from(t, pos == 0) == Seq::<u8>::empty());
                assert(out@ + Seq::<u8>::empty() =~= out@);
                return out;
            }
            let ghost before = out@;
            if pos > 0 {
                out.push(46u8);
            }
            let mut i: usize = pos + 1;
            let end = pos + 1 + k;
            while i < end
                invariant
                    end == pos + 1 + k,
                    pos + 1 <= i <= pos + 1 + k,
                    pos + 1 + k <= s@.len(),
                    out@ == before + (if pos == 0 {
                        Seq::<u8>::empty()
                    } else {
                        seq![46u8]
                    }) + s@.subrange(pos + 1, i as int),
                decreases pos + 1 + k - i,
            {
                out.push(s[i]);
                i = i + 1;
                assert(out@ =~= before + (if pos == 0 {
                    Seq::<u8>::empty()
                } else {
                    seq![46u8]
                }) + s@.subrange(pos + 1, i as int));
            }
            proof {
                assert(t.subrange(1, 1 + k) =~= s@.subrange(pos + 1, pos + 1 + k));
                assert(t.subrange(1 + k, t.len() as int) =~= s@.subrange(
                    pos + 1 + k,
                    s@.len() as int,
                ));
                let sep = if pos == 0 {
                    Seq::<u8>::empty()
                } else {
                    seq![46u8]
                };
                assert(before + (sep + t.subrange(1, 1 + k) + text_from(
                    t.subrange(1 + k, t.len() as int),
                    false,
                )) =~= out@ + text_from(t.subrange(1 + k, t.len() as int), false));
            }
            pos = pos + 1 + k;
        }
        assert(s@.subrange(pos as int, s@.len() as int) =~= Seq::<u8>::empty());
        assert(out@ + Seq::<u8>::empty() =~= out@);
        out
    }

    /// A copy of the name.
    pub fn duplicate(&self) -> (r: Name)
        ensures
            r@ == self@,
    {
        let mut labels: Vec<u8> = Vec::new();
        push_bytes(&mut labels, self.labels.as_slice());
        assert(labels@ =~= self@);
        Name { labels }
    }

    /// The name whose labels in wire form are `labels`, if they are well formed.
    pub fn from_labels(labels: &[u8]) -> (r: Option<Name>)
        ensures
            r is Some <==> labels_wf(labels@),
            r is Some ==> r->Some_0@ == labels@,
    {
        if !labels_valid(labels) {
            return None;
        }
        let mut out: Vec<u8> = Vec::new();
        push_bytes(&mut out, labels);
        assert(out@ =~= labels@);
        Some(Name { labels: out })
    }
}

impl Rdata {
    /// A copy of the data.
    pub fn duplicate(&self) -> (r: Rdata)
        ensures
            r@ == self@,
    {
        match self {
            Rdata::A { ip } => Rdata::A { ip: *ip },
            Rdata::Aaaa { ip } => Rdata::Aaaa { ip: *ip },
            Rdata::Cname { name } => Rdata::Cname { name: name.duplicate() },
            Rdata::Other { data } => {
                let mut out: Vec<u8> = Vec::new();
                push_bytes(&mut out, data.as_slice());
                assert(out@ =~= data@);
                Rdata::Other { data: out }
            },
        }
    }
}

impl Question {
    /// A copy of the question.
    pub fn duplicate(&self) -> (r: Question)
        ensures
            r@ == self@,
    {
        Question { name: self.name.duplicate(), type_: self.type_, class: self.class }
    }
}

impl Record {
    /// A copy of the record.
    pub fn duplicate(&self) -> (r: Record)
        ensures
            r@ == self@,
    {
        Record {
            name: self.name.duplicate(),
            type_: self.type_,
            class: self.class,
            ttl: self.ttl,
            rdata: self.rdata.duplicate(),
        }
    }

    /// Whether the record reads back as it is once encoded: its name is in wire form and its
    /// data agrees with its type and fits its length field.
    pub fn is_well_formed(&self) -> (r: bool)
        ensures
            r == record_wf(self@),
    {
        if !labels_valid(self.name.labels.as_slice()) {
            return false;
        }
        let t = self.type_.value;
        match &self.rdata {
            Rdata::A { .. } => t == TYPE_A,
            Rdata::Aaaa { .. } => t == TYPE_AAAA,
            Rdata::Cname { name } => t == TYPE_CNAME && labels_valid(name.labels.as_slice())
                && name.labels.len() < 65535,
            Rdata::Other { data } => t != TYPE_A && t != TYPE_AAAA && t != TYPE_CNAME
                && data.len() <= 65535,
        }
    }

    /// A record of these parts, if it is well formed (see `is_well_formed`).
    pub fn new(name: Name, type_: RecordType, class: RecordClass, ttl: Ttl, rdata: Rdata) -> (r:
        Option<Record>)
        ensures
            r is Some <==> record_wf(
                RecordView {
                    name: name@,
                    type_: type_.value,
                    class: class.value,
                    ttl: ttl.seconds,
                    rdata: rdata@,
                },
            ),
            r is Some ==> r->Some_0@ == (RecordView {
                name: name@,
                type_: type_.value,
                class: class.value,
                ttl: ttl.seconds,
                rdata: rdata@,
            }),
    {
        let rec = Record { name, type_, class, ttl, rdata };
        if rec.is_well_formed() {
            Some(rec)
        } else {
            None
        }
    }
}

/// The reply that answers `q` locally with `answers`: the same id, the reply bit set, the
/// questions kept, and `answers` as the answer section.
pub open spec fn reply_of(q: MessageView, answers: Seq<RecordView>) -> MessageView {
    MessageView {
        id: q.id,
        flags: q.flags | 0x8000,
        questions: q.questions,
        answers: answers,
        authority: Seq::empty(),
        additional: Seq::empty(),
    }
}

pub proof fn lemma_wf_encodable(m: MessageView)
    requires
        message_wf(m),
    ensures
        encodable(m),
{
    assert forall|i: int| 0 <= i < m.answers.len() implies rdata_bytes(
        #[trigger] m.answers[i].rdata,
    ).len() <= 65535 by {
        assert(record_wf(m.answers[i]));
    }
    assert forall|i: int| 0 <= i < m.authority.len() implies rdata_bytes(
        #[trigger] m.authority[i].rdata,
    ).len() <= 65535 by {
        assert(record_wf(m.authority[i]));
    }
    assert forall|i: int| 0 <= i < m.additional.len() implies rdata_bytes(
        #[trigger] m.additional[i].rdata,
    ).len() <= 65535 by {
        assert(record_wf(m.additional[i]));
    }
}

/// A reply made locally to a query that decoded, from well-formed records, is well formed.
pub proof fn lemma_reply_wf(q: MessageView, b: Seq<u8>, answers: Seq<RecordView>)
    requires
        message_at(b) == Ok::<MessageView, ParseError>(q),
        records_wf(answers),
    ensures
        message_wf(reply_of(q, answers)),
        encodable(reply_of(q, answers)),
{
    lemma_questions_at_wf(b, 12, be16(b, 4) as nat);
    let r = reply_of(q, answers);
    assert(records_wf(r.authority));
    assert(records_wf(r.additional));
    lemma_wf_encodable(r);
}

/// A reply made locally to a query that decoded, from well-formed records, can be encoded, and
/// decoding what was encoded gives back that reply.
pub proof fn lemma_reply_round_trip(q: MessageView, b: Seq<u8>, answers: Seq<RecordView>)
    requires
        message_at(b) == Ok::<MessageView, ParseError>(q),
        records_wf(answers),
    ensures
        encodable(reply_of(q, answers)),
        message_at(message_bytes(reply_of(q, answers))) == Ok::<MessageView, ParseError>(
            reply_of(q, answers),
        ),
{
    lemma_reply_wf(q, b, answers);
    lemma_round_trip(reply_of(q, answers));
}

impl Message {
    /// The reply that answers `query` locally with `answers` (see `reply_of`).
    pub fn local_reply(query: &Message, answers: &Vec<Record>) -> (r: Message)
        ensures
            r@ == reply_of(query@, record_views(answers@)),
    {
        let mut questions: Vec<Question> = Vec::new();
        let mut i: usize = 0;
        while i < query.questions.len()
            invariant
                i <= query.questions@.len(),
                question_views(questions@) == question_views(query.questions@).take(i as int),
            decreases query.questions@.len() - i,
        {
            let ghost prev = questions@;
            let q = query.questions[i].duplicate();
            questions.push(q);
            assert(question_views(questions@) =~= question_views(prev).push(q@));
            assert(question_views(query.questions@).take(i + 1) =~= question_views(
                query.questions@,
            ).take(i as int).push(q@));
            i = i + 1;
        }
        let mut copied: Vec<Record> = Vec::new();
        let mut j: usize = 0;
        while j < answers.len()
            invariant
                j <= answers@.len(),
                record_views(copied@) == record_views(answers@).take(j as int),
            decreases answers@.len() - j,
        {
            let ghost prev = copied@;
            let rec = answers[j].duplicate();
            copied.push(rec);
            assert(record_views(copied@) =~= record_views(prev).push(rec@));
            assert(record_views(answers@).take(j + 1) =~= record_views(answers@).take(
                j as int,
            ).push(rec@));
            j = j + 1;
        }
        assert(question_views(questions@) =~= question_views(query.questions@));
        assert(record_views(copied@) =~= record_views(answers@));
        let authority_rrs: Vec<Record> = Vec::new();
        let additional_rrs: Vec<Record> = Vec::new();
        assert(record_views(authority_rrs@) =~= Seq::<RecordView>::empty());
        assert(record_views(additional_rrs@) =~= Seq::<RecordView>::empty());
        Message {
            id: query.id,
            flags: Flags::new(query.flags.value | 0x8000),
            questions,
            answers: copied,
            authority_rrs,
            additional_rrs,
        }
    }
}

/// One more label at the end of a name adds a dot and that label to its text.
proof fn lemma_text_push_label(n: Seq<u8>, label: Seq<u8>, first: bool)
    requires
        labels_wf(n),
        1 <= label.len() <= 63,
    ensures
        labels_wf(n + seq![label.len() as u8] + label),
        text_from(n + seq![label.len() as u8] + label, first) == text_from(n, first) + (if n.len()
            == 0 && first {
            Seq::<u8>::empty()
        } else {
            seq![46u8]
        }) + label,
    decreases n.len(),
{
    let m = n + seq![label.len() as u8] + label;
    if n.len() == 0 {
        assert(m =~= seq![label.len() as u8] + label);
        assert(m[0] == label.len() as u8);
        assert(m.subrange(1, 1 + label.len() as int) =~= label);
        assert(m.subrange(1 + label.len() as int, m.len() as int) =~= Seq::<u8>::empty());
        assert(labels_wf(m.subrange(1 + label.len() as int, m.len() as int)));
        assert(text_from(n, first) == Seq::<u8>::empty());
        assert(m[0] as int == label.len());
        assert(text_from(Seq::<u8>::empty(), false) == Seq::<u8>::empty());
        assert(text_from(m, first) == (if first {
            Seq::<u8>::empty()
        } else {
            seq![46u8]
        }) + m.subrange(1, 1 + label.len() as int) + text_from(
            m.subrange(1 + label.len() as int, m.len() as int),
            false,
        ));
        assert(text_from(m, first) =~= text_from(n, first) + (if first {
            Seq::<u8>::empty()
        } else {
            seq![46u8]
        }) + label);
    } else {
        let k = n[0] as int;
        let rest = n.subrange(1 + k, n.len() as int);
        lemma_text_push_label(rest, label, false);
        assert(m[0] == n[0]);
        assert(m.subrange(1 + k, m.len() as int) =~= rest + seq![label.len() as u8] + label);
        assert(m.subrange(1, 1 + k) =~= n.subrange(1, 1 + k));
        let sep = if first {
            Seq::<u8>::empty()
        } else {
            seq![46u8]
        };
        assert(text_from(m, first) =~= text_from(n, first) + seq![46u8] + label);
    }
}

/// `t[i..j]` lies between two dots, or a dot and an end of `t`, with no dot inside.
pub open spec fn piece(t: Seq<u8>, i: int, j: int) -> bool {
    &&& 0 <= i <= j <= t.len()
    &&& (i == 0 || t[i - 1] == 46u8)
    &&& (j == t.len() || t[j] == 46u8)
    &&& forall|k: int| i <= k < j ==> t[k] != 46u8
}

/// `t` writes a name: it is empty (the root), or each piece between dots has 1 to 63 bytes.
pub open spec fn is_dotted_name(t: Seq<u8>) -> bool {
    t.len() == 0 || forall|i: int, j: int| #[trigger] piece(t, i, j) ==> 1 <= j - i <= 63
}

/// The piece that a scan is in, from `st` to the next dot at `i` or the end, is the only piece
/// that ends between `st` and `i`.
proof fn lemma_piece_at(t: Seq<u8>, st: int, i: int, a: int, b: int)
    requires
        0 <= st <= i <= t.len(),
        st == 0 || t[st - 1] == 46u8,
        forall|k: int| st <= k < i ==> t[k] != 46u8,
        i == t.len() || t[i] == 46u8,
        piece(t, a, b),
        st <= b <= i,
    ensures
        a == st && b == i,
{
    if a < st {
        assert(t[st - 1] != 46u8);
    }
    if a > st {
        assert(t[a - 1] != 46u8);
    }
    if b < i {
        assert(t[b] != 46u8);
    }
}

impl Name {
    /// The name that the text `s` writes, its labels joined by dots (`xkcd.com`); the empty
    /// text is the root name. It is `Err` where a label is empty or longer than 63 bytes.
    pub fn from_str(s: &str) -> (r: Result<Name, ()>)
        ensures
            r is Ok <==> is_dotted_name(s.spec_bytes()),
            r is Ok ==> labels_wf(r->Ok_0@) && text_of(r->Ok_0@) == s.spec_bytes(),
    {
        let t = s.as_bytes();
        let mut out: Vec<u8> = Vec::new();
        if t.len() == 0 {
            return Ok(Name { labels: out });
        }
        let mut st: usize = 0;
        let mut i: usize = 0;
        while i <= t.len()
            invariant
                st <= i <= t@.len(),
                st <= t@.len(),
                t@ == s.spec_bytes(),
                labels_wf(out@),
                st == 0 ==> out@.len() == 0,
                st > 0 ==> out@.len() > 0 && text_of(out@) + seq![46u8] == t@.subrange(0, st as int),
                t@.len() > 0,
                st <= t@.len(),
                st == 0 || t@[st - 1] == 46u8,
                forall|k: int| st <= k < i && k < t@.len() ==> t@[k] != 46u8,
                forall|a: int, b: int| #[trigger] piece(t@, a, b) && b < st ==> 1 <= b - a <= 63,
            decreases t@.len() + 1 - i,
        {
            if i == t.len() || t[i] == 46u8 {
                let n = i - st;
                assert(piece(t@, st as int, i as int));
                if n == 0 || n > 63 {
                    return Err(());
                }
                assert forall|a: int, b: int| #[trigger] piece(t@, a, b) && b <= i implies 1 <= b
                    - a <= 63 by {
                    if b >= st {
                        lemma_piece_at(t@, st as int, i as int, a, b);
                    }
                }
                let ghost before = out@;
                out.push(n as u8);
                let mut j: usize = st;
                while j < i
                    invariant
                        st <= j <= i,
                        i <= t@.len(),
                        n == i - st,
                        1 <= n <= 63,
                        out@ == before + seq![n as u8] + t@.subrange(st as int, j as int),
                    decreases i - j,
                {
                    out.push(t[j]);
                    j = j + 1;
                    assert(out@ =~= before + seq![n as u8] + t@.subrange(st as int, j as int));
                }
                proof {
                    let label = t@.subrange(st as int, i as int);
                    lemma_text_push_label(before, label, true);
                    if st == 0 {
                        assert(text_of(out@) =~= t@.subrange(0, i as int));
                    } else {
                        assert(t@.subrange(0, i as int) =~= t@.subrange(0, st as int) + label);
                        assert(text_of(out@) =~= t@.subrange(0, i as int));
                    }
                }
                if i == t.len() {
                    assert(t@.subrange(0, i as int) =~= t@);
                    assert(labels_wf(out@));
                    assert(text_of(out@) == t@);
                    assert(is_dotted_name(t@));
                    return Ok(Name { labels: out });
                }
                assert(t@.subrange(0, i + 1) =~= t@.subrange(0, i as int) + seq![46u8]);
                st = i + 1;
            }
            i = i + 1;
        }
        Err(())
    }
}

/// Where the labels that start at `c` in `b` lead a parse to a pointer at an offset equal to
/// or after its own, the name is `Invalid`; a name can only point backwards.
pub proof fn lemma_forward_pointer_invalid(b: Seq<u8>, c: int, p: int, jumps: nat)
    requires
        0 <= c <= p,
        p + 2 <= b.len(),
        labels_wf(b.subrange(c, p)),
        b[p] >= 192,
        (b[p] - 192) * 256 + b[p + 1] >= p,
    ensures
        name_at(b, c, jumps) == Err::<(Seq<u8>, int), ParseError>(ParseError::Invalid),
    decreases p - c,
{
    if c < p {
        let l = b.subrange(c, p);
        let k = l[0] as int;
        assert(b[c] == l[0]);
        assert(b.subrange(c + 1 + k, p) =~= l.subrange(1 + k, l.len() as int));
        lemma_forward_pointer_invalid(b, c + 1 + k, p, jumps);
    }
}

/// A buffer that ends before the next field yields `Truncated`, at every stage: the header,
/// a name's length byte or label, a question's or a record's fixed fields, and record data.
pub proof fn lemma_truncation(b: Seq<u8>, c: int, jumps: nat, t: u16)
    ensures
        b.len() < 12 ==> message_at(b) == Err::<MessageView, ParseError>(ParseError::Truncated),
        c >= b.len() ==> name_at(b, c, jumps) == Err::<(Seq<u8>, int), ParseError>(
            ParseError::Truncated,
        ),
        0 <= c < b.len() && 0 < b[c] < 64 && c + 1 + b[c] > b.len() ==> name_at(b, c, jumps)
            == Err::<(Seq<u8>, int), ParseError>(ParseError::Truncated),
        0 <= c < b.len() && b[c] >= 192 && c + 2 > b.len() ==> name_at(b, c, jumps) == Err::<
            (Seq<u8>, int),
            ParseError,
        >(ParseError::Truncated),
        name_in(b, b.len() as int, c) matches Ok((_, e)) && e + 4 > b.len() ==> question_at(b, c)
            == Err::<(QuestionView, int), ParseError>(ParseError::Truncated),
        name_in(b, b.len() as int, c) matches Ok((_, e)) && e + 8 > b.len() ==> record_at(b, c)
            == Err::<(RecordView, int), ParseError>(ParseError::Truncated),
        c + 2 > b.len() ==> rdata_at(t, b, c) == Err::<(RdataView, int), ParseError>(
            ParseError::Truncated,
        ),
        c + 2 <= b.len() && c + 2 + be16(b, c) > b.len() ==> rdata_at(t, b, c) == Err::<
            (RdataView, int),
            ParseError,
        >(ParseError::Truncated),
{
}

/// `b2` begins with all of `b`.
pub open spec fn extends(b2: Seq<u8>, b: Seq<u8>) -> bool {
    b2.len() >= b.len() && b2.subrange(0, b.len() as int) == b
}

proof fn lemma_extends_index(b2: Seq<u8>, b: Seq<u8>, i: int)
    requires
        extends(b2, b),
        0 <= i < b.len(),
    ensures
        b2[i] == b[i],
{
    assert(b2.subrange(0, b.len() as int)[i] == b2[i]);
}

proof fn lemma_extends_subrange(b2: Seq<u8>, b: Seq<u8>, i: int, j: int)
    requires
        extends(b2, b),
        0 <= i <= j <= b.len(),
    ensures
        b2.subrange(i, j) == b.subrange(i, j),
{
    assert forall|k: int| 0 <= k < j - i implies b2.subrange(i, j)[k] == b.subrange(i, j)[k] by {
        lemma_extends_index(b2, b, i + k);
    }
    assert(b2.subrange(i, j) =~= b.subrange(i, j));
}

/// A name that decodes reads only bytes of its buffer, and more pointer budget does not change
/// it: in a longer buffer that begins with the same bytes it decodes the same.
proof fn lemma_name_extends(b: Seq<u8>, b2: Seq<u8>, c: int, j: nat, j2: nat)
    requires
        extends(b2, b),
        j <= j2,
        name_at(b, c, j) is Ok,
    ensures
        name_at(b2, c, j2) == name_at(b, c, j),
    decreases j, b.len() - c,
{
    lemma_extends_index(b2, b, c);
    let byte = b[c] as int;
    if byte == 0 {
    } else if byte < 64 {
        lemma_name_extends(b, b2, c + 1 + byte, j, j2);
        lemma_extends_subrange(b2, b, c, c + 1 + byte);
    } else {
        lemma_extends_index(b2, b, c + 1);
        let target = (byte - 192) * 256 + b[c + 1] as int;
        lemma_name_extends(b, b2, target, (j - 1) as nat, (j2 - 1) as nat);
    }
}

proof fn lemma_name_in_extends(b: Seq<u8>, b2: Seq<u8>, c: int)
    requires
        extends(b2, b),
        name_in(b, b.len() as int, c) is Ok,
    ensures
        name_in(b2, b2.len() as int, c) == name_in(b, b.len() as int, c),
{
    assert(b.subrange(0, b.len() as int) =~= b);
    assert(b2.subrange(0, b2.len() as int) =~= b2);
    lemma_name_extends(b, b2, c, b.len(), b2.len());
}

proof fn lemma_name_end(b: Seq<u8>, c: int, j: nat)
    ensures
        name_at(b, c, j) matches Ok((_, e)) ==> 0 <= c < e <= b.len(),
    decreases j, b.len() - c,
{
    if 0 <= c < b.len() {
        let byte = b[c] as int;
        if 0 < byte < 64 && c + 1 + byte <= b.len() {
            lemma_name_end(b, c + 1 + byte, j);
        }
    }
}

proof fn lemma_question_extends(b: Seq<u8>, b2: Seq<u8>, c: int)
    requires
        extends(b2, b),
        question_at(b, c) is Ok,
    ensures
        question_at(b2, c) == question_at(b, c),
{
    lemma_name_in_extends(b, b2, c);
    assert(b.subrange(0, b.len() as int) =~= b);
    lemma_name_end(b, c, b.len());
    let e = name_in(b, b.len() as int, c)->Ok_0.1;
    lemma_extends_index(b2, b, e);
    lemma_extends_index(b2, b, e + 1);
    lemma_extends_index(b2, b, e + 2);
    lemma_extends_index(b2, b, e + 3);
}

proof fn lemma_rdata_extends(b: Seq<u8>, b2: Seq<u8>, t: u16, c: int)
    requires
        0 <= c,
        extends(b2, b),
        rdata_at(t, b, c) is Ok,
    ensures
        rdata_at(t, b2, c) == rdata_at(t, b, c),
{
    lemma_extends_index(b2, b, c);
    lemma_extends_index(b2, b, c + 1);
    let len = be16(b, c) as int;
    let s = c + 2;
    lemma_extends_subrange(b2, b, s, s + len);
    lemma_extends_subrange(b2, b, 0, s + len);
}

proof fn lemma_record_extends(b: Seq<u8>, b2: Seq<u8>, c: int)
    requires
        extends(b2, b),
        record_at(b, c) is Ok,
    ensures
        record_at(b2, c) == record_at(b, c),
{
    lemma_name_in_extends(b, b2, c);
    assert(b.subrange(0, b.len() as int) =~= b);
    lemma_name_end(b, c, b.len());
    let e = name_in(b, b.len() as int, c)->Ok_0.1;
    lemma_extends_index(b2, b, e);
    lemma_extends_index(b2, b, e + 1);
    lemma_extends_index(b2, b, e + 2);
    lemma_extends_index(b2, b, e + 3);
    lemma_extends_index(b2, b, e + 4);
    lemma_extends_index(b2, b, e + 5);
    lemma_extends_index(b2, b, e + 6);
    lemma_extends_index(b2, b, e + 7);
    lemma_rdata_extends(b, b2, be16(b, e), e + 8);
}

proof fn lemma_questions_extends(b: Seq<u8>, b2: Seq<u8>, c: int, n: nat)
    requires
        extends(b2, b),
        questions_at(b, c, n) is Ok,
    ensures
        questions_at(b2, c, n) == questions_at(b, c, n),
    decreases n,
{
    if n > 0 {
        lemma_question_extends(b, b2, c);
        let e = question_at(b, c)->Ok_0.1;
        lemma_questions_extends(b, b2, e, (n - 1) as nat);
    }
}

proof fn lemma_records_extends(b: Seq<u8>, b2: Seq<u8>, c: int, n: nat)
    requires
        extends(b2, b),
        records_at(b, c, n) is Ok,
    ensures
        records_at(b2, c, n) == records_at(b, c, n),
    decreases n,
{
    if n > 0 {
        lemma_record_extends(b, b2, c);
        let e = record_at(b, c)->Ok_0.1;
        lemma_records_extends(b, b2, e, (n - 1) as nat);
    }
}

proof fn lemma_questions_end(b: Seq<u8>, c: int, n: nat)
    requires
        c <= b.len(),
    ensures
        questions_at(b, c, n) matches Ok((_, e)) ==> e <= b.len(),
    decreases n,
{
    if n > 0 {
        match question_at(b, c) {
            Ok((q, e)) => {
                lemma_questions_end(b, e, (n - 1) as nat);
            },
            Err(_) => {},
        }
    }
}

proof fn lemma_records_end(b: Seq<u8>, c: int, n: nat)
    requires
        c <= b.len(),
    ensures
        records_at(b, c, n) matches Ok((_, e)) ==> e <= b.len(),
    decreases n,
{
    if n > 0 {
        match record_at(b, c) {
            Ok((r, e)) => {
                lemma_records_end(b, e, (n - 1) as nat);
            },
            Err(_) => {},
        }
    }
}

/// A message that decodes, followed by one more byte, is `Extra`.
pub proof fn lemma_trailing_byte(b: Seq<u8>, x: u8)
    requires
        message_at(b) is Ok,
    ensures
        message_at(b.push(x)) == Err::<MessageView, ParseError>(ParseError::Extra),
{
    let b2 = b.push(x);
    assert(b2.subrange(0, b.len() as int) =~= b);
    assert forall|i: int| 0 <= i < 12 implies b2[i] == b[i] by {
        lemma_extends_index(b2, b, i);
    }
    assert(be16(b2, 0) == be16(b, 0) && be16(b2, 2) == be16(b, 2) && be16(b2, 4) == be16(b, 4)
        && be16(b2, 6) == be16(b, 6) && be16(b2, 8) == be16(b, 8) && be16(b2, 10) == be16(b, 10));
    let (qs, c1) = questions_at(b, 12, be16(b, 4) as nat)->Ok_0;
    lemma_questions_end(b, 12, be16(b, 4) as nat);
    lemma_questions_extends(b, b2, 12, be16(b, 4) as nat);
    let (an, c2) = records_at(b, c1, be16(b, 6) as nat)->Ok_0;
    lemma_records_end(b, c1, be16(b, 6) as nat);
    lemma_records_extends(b, b2, c1, be16(b, 6) as nat);
    let (au, c3) = records_at(b, c2, be16(b, 8) as nat)->Ok_0;
    lemma_records_end(b, c2, be16(b, 8) as nat);
    lemma_records_extends(b, b2, c2, be16(b, 8) as nat);
    let (ad, c4) = records_at(b, c3, be16(b, 10) as nat)->Ok_0;
    lemma_records_end(b, c3, be16(b, 10) as nat);
    lemma_records_extends(b, b2, c3, be16(b, 10) as nat);
    assert(c4 >= b.len());
    assert(c4 < b2.len());
}

} // verus!
