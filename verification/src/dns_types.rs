//! The parts of a DNS message: query types, result codes and the header,
//! each with its form on the wire.

use vstd::prelude::*;
use crate::buffer::{
    emitted, lemma_put_within_split, u16_bytes, BytePacketBuffer, Cursor, Emit, Step,
};
use crate::error::DnsError;

verus! {

/// The type of a query or of a record, by its number on the wire.
#[derive(Clone, Copy, Debug, PartialEq, Eq, Hash, Structural)]
pub enum QueryType {
    /// Any number that has no variant of its own.
    UNKNOWN(u16),
    A,
    NS,
    CNAME,
    MX,
    TXT,
    AAAA,
    SRV,
    /// A query for records of every type.
    ALL,
}

impl QueryType {
    /// The number of this type on the wire.
    pub open spec fn code(self) -> u16 {
        match self {
            QueryType::UNKNOWN(n) => n,
            QueryType::A => 1,
            QueryType::NS => 2,
            QueryType::CNAME => 5,
            QueryType::MX => 15,
            QueryType::TXT => 16,
            QueryType::AAAA => 28,
            QueryType::SRV => 33,
            QueryType::ALL => 255,
        }
    }

    /// The type with the number `n`.
    pub open spec fn of_code(n: u16) -> QueryType {
        if n == 1 {
            QueryType::A
        } else if n == 2 {
            QueryType::NS
        } else if n == 5 {
            QueryType::CNAME
        } else if n == 15 {
            QueryType::MX
        } else if n == 16 {
            QueryType::TXT
        } else if n == 28 {
            QueryType::AAAA
        } else if n == 33 {
            QueryType::SRV
        } else if n == 255 {
            QueryType::ALL
        } else {
            QueryType::UNKNOWN(n)
        }
    }

    /// Whether this is the one value that stands for its number: every
    /// variant but an `UNKNOWN` that carries the number of another variant.
    pub open spec fn is_canonical(self) -> bool {
        QueryType::of_code(self.code()) == self
    }

    /// The number of this type on the wire.
    pub fn to_num(&self) -> (r: u16)
        ensures
            r == self.code(),
    {
        match *self {
            QueryType::UNKNOWN(n) => n,
            QueryType::A => 1,
            QueryType::NS => 2,
            QueryType::CNAME => 5,
            QueryType::MX => 15,
            QueryType::TXT => 16,
            QueryType::AAAA => 28,
            QueryType::SRV => 33,
            QueryType::ALL => 255,
        }
    }

    /// The type with the number `num`; `UNKNOWN(num)` if no other variant has
    /// that number.
    pub fn from_num(num: u16) -> (r: QueryType)
        ensures
            r == QueryType::of_code(num),
            r.code() == num,
    {
        match num {
            1 => QueryType::A,
            2 => QueryType::NS,
            5 => QueryType::CNAME,
            15 => QueryType::MX,
            16 => QueryType::TXT,
            28 => QueryType::AAAA,
            33 => QueryType::SRV,
            255 => QueryType::ALL,
            _ => QueryType::UNKNOWN(num),
        }
    }
}

/// The outcome that a reply reports in its header.
#[derive(Clone, Copy, Debug, PartialEq, Eq, Structural)]
pub enum ResultCode {
    NOERROR,
    FORMERR,
    SERVFAIL,
    NXDOMAIN,
    NOTIMP,
    REFUSED,
}

impl ResultCode {
    /// The number of this code on the wire.
    pub open spec fn code(self) -> u8 {
        match self {
            ResultCode::NOERROR => 0,
            ResultCode::FORMERR => 1,
            ResultCode::SERVFAIL => 2,
            ResultCode::NXDOMAIN => 3,
            ResultCode::NOTIMP => 4,
            ResultCode::REFUSED => 5,
        }
    }

    /// The code with the number `n`. A number that no code has is taken as
    /// `NOERROR`.
    pub open spec fn of_code(n: u8) -> ResultCode {
        if n == 1 {
            ResultCode::FORMERR
        } else if n == 2 {
            ResultCode::SERVFAIL
        } else if n == 3 {
            ResultCode::NXDOMAIN
        } else if n == 4 {
            ResultCode::NOTIMP
        } else if n == 5 {
            ResultCode::REFUSED
        } else {
            ResultCode::NOERROR
        }
    }

    /// The number of this code on the wire.
    pub fn to_num(&self) -> (r: u8)
        ensures
            r == self.code(),
    {
        match *self {
            ResultCode::NOERROR => 0,
            ResultCode::FORMERR => 1,
            ResultCode::SERVFAIL => 2,
            ResultCode::NXDOMAIN => 3,
            ResultCode::NOTIMP => 4,
            ResultCode::REFUSED => 5,
        }
    }

    /// The code with the number `num`; `NOERROR` for a number that no code
    /// has.
    pub fn from_num(num: u8) -> (r: ResultCode)
        ensures
            r == ResultCode::of_code(num),
    {
        match num {
            1 => ResultCode::FORMERR,
            2 => ResultCode::SERVFAIL,
            3 => ResultCode::NXDOMAIN,
            4 => ResultCode::NOTIMP,
            5 => ResultCode::REFUSED,
            _ => ResultCode::NOERROR,
        }
    }
}

/// The twelve-byte header of a message.
#[derive(Clone, Copy, Debug, PartialEq, Eq, Structural)]
pub struct DnsHeader {
    /// Transaction id.
    pub id: u16,
    pub recursion_desired: bool,
    pub truncated_message: bool,
    pub authoritative_answer: bool,
    /// Kind of query; only its low four bits are written.
    pub opcode: u8,
    /// Set in a reply, clear in a query.
    pub response: bool,
    pub rescode: ResultCode,
    pub recursion_available: bool,
    /// Number of entries in the question section.
    pub questions: u16,
    /// Number of entries in the answer section.
    pub answers: u16,
    /// Number of entries in the authority section.
    pub authoritative_entries: u16,
    /// Number of entries in the additional section.
    pub resource_entries: u16,
}

/// A flag as a bit.
pub open spec fn bit(flag: bool) -> int {
    if flag {
        1
    } else {
        0
    }
}

impl DnsHeader {
    /// The first flag byte: response, four bits of opcode, authoritative
    /// answer, truncated, recursion desired, from the high bit down.
    pub open spec fn flags_hi(self) -> u8 {
        (bit(self.recursion_desired) + 2 * bit(self.truncated_message) + 4 * bit(
            self.authoritative_answer,
        ) + 8 * (self.opcode % 16) + 128 * bit(self.response)) as u8
    }

    /// The second flag byte: recursion available, three bits that are left
    /// zero, and the result code, from the high bit down.
    pub open spec fn flags_lo(self) -> u8 {
        (self.rescode.code() + 128 * bit(self.recursion_available)) as u8
    }

    /// The header on the wire.
    #[verifier::opaque]
    pub open spec fn wire(self) -> Seq<u8> {
        u16_bytes(self.id) + seq![self.flags_hi(), self.flags_lo()] + u16_bytes(self.questions)
            + u16_bytes(self.answers) + u16_bytes(self.authoritative_entries) + u16_bytes(
            self.resource_entries,
        )
    }

    /// The header that six 16-bit values, read in order from the wire, make.
    /// The three bits beside the result code are not kept.
    #[verifier::opaque]
    pub open spec fn of_wire(
        id: u16,
        flags: u16,
        questions: u16,
        answers: u16,
        authoritative_entries: u16,
        resource_entries: u16,
    ) -> DnsHeader {
        let a = flags / 0x100;
        let b = flags % 0x100;
        DnsHeader {
            id,
            recursion_desired: a % 2 == 1,
            truncated_message: (a / 2) % 2 == 1,
            authoritative_answer: (a / 4) % 2 == 1,
            opcode: ((a / 8) % 16) as u8,
            response: a / 128 == 1,
            rescode: ResultCode::of_code((b % 16) as u8),
            recursion_available: b / 128 == 1,
            questions,
            answers,
            authoritative_entries,
            resource_entries,
        }
    }

    /// Reading a header: six 16-bit values. A failing read leaves the
    /// position where it failed.
    #[verifier::opaque]
    pub open spec fn parse(c: Cursor) -> Step<DnsHeader> {
        let id = c.read_u16();
        let flags = id.cursor.read_u16();
        let qd = flags.cursor.read_u16();
        let an = qd.cursor.read_u16();
        let ns = an.cursor.read_u16();
        let ar = ns.cursor.read_u16();
        if id.value is Err {
            id.fail()
        } else if flags.value is Err {
            flags.fail()
        } else if qd.value is Err {
            qd.fail()
        } else if an.value is Err {
            an.fail()
        } else if ns.value is Err {
            ns.fail()
        } else if ar.value is Err {
            ar.fail()
        } else {
            Step {
                cursor: ar.cursor,
                value: Ok(
                    DnsHeader::of_wire(
                        id.value->Ok_0,
                        flags.value->Ok_0,
                        qd.value->Ok_0,
                        an.value->Ok_0,
                        ns.value->Ok_0,
                        ar.value->Ok_0,
                    ),
                ),
            }
        }
    }

    /// The header of a fresh message: id 0, no flag set, no entries.
    pub open spec fn new_header() -> DnsHeader {
        DnsHeader {
            id: 0,
            recursion_desired: false,
            truncated_message: false,
            authoritative_answer: false,
            opcode: 0,
            response: false,
            rescode: ResultCode::NOERROR,
            recursion_available: false,
            questions: 0,
            answers: 0,
            authoritative_entries: 0,
            resource_entries: 0,
        }
    }

    /// A query header with id 0, no flag set and no entries.
    pub fn new() -> (r: DnsHeader)
        ensures
            r == DnsHeader::new_header(),
    {
        DnsHeader {
            id: 0,
            recursion_desired: false,
            truncated_message: false,
            authoritative_answer: false,
            opcode: 0,
            response: false,
            rescode: ResultCode::NOERROR,
            recursion_available: false,
            questions: 0,
            answers: 0,
            authoritative_entries: 0,
            resource_entries: 0,
        }
    }

    /// Reads a header at the position of `buffer`.
    pub fn read(buffer: &mut BytePacketBuffer) -> (r: Result<DnsHeader, DnsError>)
        ensures
            (Step { cursor: final(buffer)@, value: r }) == DnsHeader::parse(old(buffer)@),
    {
        proof {
            reveal(DnsHeader::parse);
        }
        let id: u16 = buffer.read_u16()?;
        let flags: u16 = buffer.read_u16()?;
        let questions: u16 = buffer.read_u16()?;
        let answers: u16 = buffer.read_u16()?;
        let authoritative_entries: u16 = buffer.read_u16()?;
        let resource_entries: u16 = buffer.read_u16()?;
        let a: u8 = #[verifier::truncate] ((flags >> 8) as u8);
        let b: u8 = #[verifier::truncate] ((flags & 0xFF) as u8);
        let opcode: u8 = (a >> 3) & 0x0F;
        let code: u8 = b & 0x0F;
        proof {
            reveal(DnsHeader::parse);
            reveal(DnsHeader::of_wire);
            assert(a == flags / 0x100 && b == flags % 0x100) by (bit_vector)
                requires
                    a == (flags >> 8) as u8,
                    b == (flags & 0xFF) as u8,
            ;
            assert(((a & 1) > 0) == (a % 2 == 1)) by (bit_vector);
            assert(((a & 2) > 0) == ((a / 2) % 2 == 1)) by (bit_vector);
            assert(((a & 4) > 0) == ((a / 4) % 2 == 1)) by (bit_vector);
            assert((a >> 3) & 0x0F == (a / 8) % 16) by (bit_vector);
            assert(((a & 0x80) > 0) == (a / 128 == 1)) by (bit_vector);
            assert(b & 0x0F == b % 16) by (bit_vector);
            assert(((b & 0x80) > 0) == (b / 128 == 1)) by (bit_vector);
        }
        Ok(
            DnsHeader {
                id,
                recursion_desired: (a & 1) > 0,
                truncated_message: (a & 2) > 0,
                authoritative_answer: (a & 4) > 0,
                opcode,
                response: (a & 0x80) > 0,
                rescode: ResultCode::from_num(code),
                recursion_available: (b & 0x80) > 0,
                questions,
                answers,
                authoritative_entries,
                resource_entries,
            },
        )
    }

    /// Writes the header at the position of `buffer`.
    pub fn write(&self, buffer: &mut BytePacketBuffer) -> (r: Result<(), DnsError>)
        ensures
            (Step { cursor: final(buffer)@, value: r }) == old(buffer)@.put_within(self.wire()),
            emitted(old(buffer)@, Emit::done(self.wire()), final(buffer)@, r),
    {
        let rd: u8 = if self.recursion_desired { 1 } else { 0 };
        let tc: u8 = if self.truncated_message { 1 } else { 0 };
        let aa: u8 = if self.authoritative_answer { 1 } else { 0 };
        let qr: u8 = if self.response { 1 } else { 0 };
        let ra: u8 = if self.recursion_available { 1 } else { 0 };
        let op: u8 = self.opcode & 0x0F;
        let code: u8 = self.rescode.to_num();
        let hi: u8 = rd | (tc << 1) | (aa << 2) | (op << 3) | (qr << 7);
        let lo: u8 = code | (ra << 7);
        proof {
            reveal(DnsHeader::wire);
            let opcode = self.opcode;
            assert(op == opcode % 16) by (bit_vector)
                requires
                    op == opcode & 0x0F,
            ;
            assert(hi == rd + 2 * tc + 4 * aa + 8 * op + 128 * qr) by (bit_vector)
                requires
                    rd <= 1,
                    tc <= 1,
                    aa <= 1,
                    qr <= 1,
                    op <= 15,
                    hi == rd | (tc << 1) | (aa << 2) | (op << 3) | (qr << 7),
            ;
            assert(lo == code + 128 * ra) by (bit_vector)
                requires
                    ra <= 1,
                    code <= 5,
                    lo == code | (ra << 7),
            ;
            assert(hi == self.flags_hi() && lo == self.flags_lo());
            let c0 = old(buffer)@;
            let w = self.wire();
            assert(u16_bytes(self.id) =~= w.subrange(0, 2));
            assert(seq![hi] =~= w.subrange(2, 3));
            assert(seq![lo] =~= w.subrange(3, 4));
            assert(u16_bytes(self.questions) =~= w.subrange(4, 6));
            assert(u16_bytes(self.answers) =~= w.subrange(6, 8));
            assert(u16_bytes(self.authoritative_entries) =~= w.subrange(8, 10));
            assert(u16_bytes(self.resource_entries) =~= w.subrange(10, 12));
            lemma_put_within_split(c0, w, 2, 3);
            lemma_put_within_split(c0, w, 3, 4);
            lemma_put_within_split(c0, w, 4, 6);
            lemma_put_within_split(c0, w, 6, 8);
            lemma_put_within_split(c0, w, 8, 10);
            lemma_put_within_split(c0, w, 10, 12);
            assert(w.subrange(0, 12) =~= w);
        }
        buffer.write_u16(self.id)?;
        buffer.write_u8(hi)?;
        buffer.write_u8(lo)?;
        buffer.write_u16(self.questions)?;
        buffer.write_u16(self.answers)?;
        buffer.write_u16(self.authoritative_entries)?;
        buffer.write_u16(self.resource_entries)?;
        Ok(())
    }
}

} // verus!
