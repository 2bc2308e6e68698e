//! Questions and resource records, each with its form on the wire.

use vstd::prelude::*;
use vstd::string::*;
use vstd::utf8::*;
use crate::buffer::{
    emitted, lemma_emitted_chain, lemma_put_content, lemma_put_len, u16_bytes, u32_bytes, zeros,
    BytePacketBuffer, Cursor, Emit, Step,
};
use crate::dns_types::QueryType;
use crate::error::DnsError;
use crate::qname::{bytes_to_text, name_text, qname_wire, scan_name, text_of};

verus! {

/// A result whose value is taken by its view.
pub open spec fn by_view<T: View>(r: Result<T, DnsError>) -> Result<T::V, DnsError> {
    match r {
        Ok(v) => Ok(v@),
        Err(e) => Err(e),
    }
}

/// Reading the name at the position, as text.
pub open spec fn parse_name(c: Cursor) -> Step<Seq<char>> {
    let scan = scan_name(c, c.pos, 0);
    Step {
        cursor: scan.cursor,
        value: match scan.fault {
            Some(e) => Err(e),
            None => Ok(name_text(scan.labels)),
        },
    }
}

/// A payload behind its 16-bit length. The length is written as two zero
/// bytes first and set when the payload has been written, so a payload that
/// fails leaves the zeros, and so does one that is too long for the field.
pub open spec fn sized(payload: Emit) -> Emit {
    if payload.fault is None && payload.bytes.len() <= 0xFFFF {
        Emit::done(u16_bytes(payload.bytes.len() as u16) + payload.bytes)
    } else {
        Emit {
            bytes: seq![0u8, 0u8] + payload.bytes,
            fault: Some(
                if payload.fault is Some {
                    payload.fault->0
                } else {
                    DnsError::Malformed
                },
            ),
        }
    }
}

/// What every record begins with: the name of its owner, its type, the class
/// (always 1, the Internet) and its time to live.
pub open spec fn record_head(domain: Seq<char>, code: u16, ttl: u32) -> Emit {
    qname_wire(encode_utf8(domain)).chain(Emit::done(u16_bytes(code))).chain(
        Emit::done(u16_bytes(1)),
    ).chain(Emit::done(u32_bytes(ttl)))
}

/// One entry of the question section.
#[derive(Debug, PartialEq, Eq)]
pub struct DnsQuestion {
    pub name: String,
    pub qtype: QueryType,
}

/// The mathematical content of a `DnsQuestion`.
pub struct QuestionView {
    pub name: Seq<char>,
    pub qtype: QueryType,
}

impl View for DnsQuestion {
    type V = QuestionView;

    open spec fn view(&self) -> QuestionView {
        QuestionView { name: self.name@, qtype: self.qtype }
    }
}

impl Clone for DnsQuestion {
    fn clone(&self) -> (r: Self)
        ensures
            r@ == self@,
    {
        DnsQuestion { name: self.name.clone(), qtype: self.qtype }
    }
}

impl QuestionView {
    /// The question on the wire: name, type, class 1.
    pub open spec fn wire(self) -> Emit {
        qname_wire(encode_utf8(self.name)).chain(Emit::done(u16_bytes(self.qtype.code()))).chain(
            Emit::done(u16_bytes(1)),
        )
    }

    /// Reading a question: a name, a type, and a class that is not kept.
    pub open spec fn parse(c: Cursor) -> Step<QuestionView> {
        let name = parse_name(c);
        let qtype = name.cursor.read_u16();
        let class = qtype.cursor.read_u16();
        if name.value is Err {
            name.fail()
        } else if qtype.value is Err {
            qtype.fail()
        } else if class.value is Err {
            class.fail()
        } else {
            Step {
                cursor: class.cursor,
                value: Ok(
                    QuestionView {
                        name: name.value->Ok_0,
                        qtype: QueryType::of_code(qtype.value->Ok_0),
                    },
                ),
            }
        }
    }
}

/// Reads the name at the position of `buffer`.
pub fn read_name(buffer: &mut BytePacketBuffer) -> (r: Result<String, DnsError>)
    ensures
        (Step { cursor: final(buffer)@, value: by_view(r) }) == parse_name(old(buffer)@),
{
    let mut name = String::new();
    buffer.read_qname(&mut name)?;
    assert(name@ =~= name_text(scan_name(old(buffer)@, old(buffer)@.pos, 0).labels));
    Ok(name)
}

impl DnsQuestion {
    /// A question for the records of type `qtype` that `name` owns.
    pub fn new(name: String, qtype: QueryType) -> (r: DnsQuestion)
        ensures
            r.name == name,
            r.qtype == qtype,
    {
        DnsQuestion { name, qtype }
    }

    /// Reads a question at the position of `buffer`.
    pub fn read(buffer: &mut BytePacketBuffer) -> (r: Result<DnsQuestion, DnsError>)
        ensures
            (Step { cursor: final(buffer)@, value: by_view(r) }) == QuestionView::parse(
                old(buffer)@,
            ),
    {
        let name = read_name(buffer)?;
        let qtype = QueryType::from_num(buffer.read_u16()?);
        let _ = buffer.read_u16()?;
        Ok(DnsQuestion { name, qtype })
    }

    /// Writes the question at the position of `buffer`.
    pub fn write(&self, buffer: &mut BytePacketBuffer) -> (r: Result<(), DnsError>)
        ensures
            emitted(old(buffer)@, self@.wire(), final(buffer)@, r),
    {
        proof {
            let name = qname_wire(encode_utf8(self.name@));
            let code = Emit::done(u16_bytes(self.qtype.code()));
            lemma_emitted_chain(old(buffer)@, name, code);
            lemma_emitted_chain(old(buffer)@, name.chain(code), Emit::done(u16_bytes(1)));
        }
        buffer.write_qname(self.name.as_str())?;
        buffer.write_u16(self.qtype.to_num())?;
        buffer.write_u16(1)?;
        Ok(())
    }
}

/// A resource record. Every variant has the name of its owner and a time to
/// live in seconds.
#[allow(inconsistent_fields)]
#[derive(Debug, PartialEq, Eq)]
pub enum DnsRecord {
    /// A record of a type that has no variant of its own: the type's number
    /// and the length of the data, which are not kept.
    UNKNOWN { domain: String, qtype: u16, data_len: u16, ttl: u32 },
    /// An IPv4 address, as a number whose highest byte is the first octet.
    A { domain: String, addr: u32, ttl: u32 },
    /// A name server for the owner.
    NS { domain: String, host: String, ttl: u32 },
    /// The name that the owner is an alias of.
    CNAME { domain: String, host: String, ttl: u32 },
    /// A mail exchange for the owner.
    MX { domain: String, priority: u16, host: String, ttl: u32 },
    /// Text.
    TXT { domain: String, text: String, ttl: u32 },
    /// An IPv6 address, as its eight groups.
    AAAA { domain: String, addr: [u16; 8], ttl: u32 },
    /// Where a service is offered.
    SRV { domain: String, priority: u16, weight: u16, port: u16, target: String, ttl: u32 },
}

/// The mathematical content of a `DnsRecord`.
#[allow(inconsistent_fields)]
pub enum RecordView {
    UNKNOWN { domain: Seq<char>, qtype: u16, data_len: u16, ttl: u32 },
    A { domain: Seq<char>, addr: u32, ttl: u32 },
    NS { domain: Seq<char>, host: Seq<char>, ttl: u32 },
    CNAME { domain: Seq<char>, host: Seq<char>, ttl: u32 },
    MX { domain: Seq<char>, priority: u16, host: Seq<char>, ttl: u32 },
    TXT { domain: Seq<char>, text: Seq<char>, ttl: u32 },
    AAAA { domain: Seq<char>, addr: Seq<u16>, ttl: u32 },
    SRV { domain: Seq<char>, priority: u16, weight: u16, port: u16, target: Seq<char>, ttl: u32 },
}

impl View for DnsRecord {
    type V = RecordView;

    open spec fn view(&self) -> RecordView {
        match *self {
            DnsRecord::UNKNOWN { domain, qtype, data_len, ttl } => RecordView::UNKNOWN {
                domain: domain@,
                qtype,
                data_len,
                ttl,
            },
            DnsRecord::A { domain, addr, ttl } => RecordView::A { domain: domain@, addr, ttl },
            DnsRecord::NS { domain, host, ttl } => RecordView::NS {
                domain: domain@,
                host: host@,
                ttl,
            },
            DnsRecord::CNAME { domain, host, ttl } => RecordView::CNAME {
                domain: domain@,
                host: host@,
                ttl,
            },
            DnsRecord::MX { domain, priority, host, ttl } => RecordView::MX {
                domain: domain@,
                priority,
                host: host@,
                ttl,
            },
            DnsRecord::TXT { domain, text, ttl } => RecordView::TXT {
                domain: domain@,
                text: text@,
                ttl,
            },
            DnsRecord::AAAA { domain, addr, ttl } => RecordView::AAAA {
                domain: domain@,
                addr: addr@,
                ttl,
            },
            DnsRecord::SRV { domain, priority, weight, port, target, ttl } => RecordView::SRV {
                domain: domain@,
                priority,
                weight,
                port,
                target: target@,
                ttl,
            },
        }
    }
}

impl Clone for DnsRecord {
    fn clone(&self) -> (r: Self)
        ensures
            r@ == self@,
    {
        match self {
            DnsRecord::UNKNOWN { domain, qtype, data_len, ttl } => DnsRecord::UNKNOWN {
                domain: domain.clone(),
                qtype: *qtype,
                data_len: *data_len,
                ttl: *ttl,
            },
            DnsRecord::A { domain, addr, ttl } => DnsRecord::A {
                domain: domain.clone(),
                addr: *addr,
                ttl: *ttl,
            },
            DnsRecord::NS { domain, host, ttl } => DnsRecord::NS {
                domain: domain.clone(),
                host: host.clone(),
                ttl: *ttl,
            },
            DnsRecord::CNAME { domain, host, ttl } => DnsRecord::CNAME {
                domain: domain.clone(),
                host: host.clone(),
                ttl: *ttl,
            },
            DnsRecord::MX { domain, priority, host, ttl } => DnsRecord::MX {
                domain: domain.clone(),
                priority: *priority,
                host: host.clone(),
                ttl: *ttl,
            },
            DnsRecord::TXT { domain, text, ttl } => DnsRecord::TXT {
                domain: domain.clone(),
                text: text.clone(),
                ttl: *ttl,
            },
            DnsRecord::AAAA { domain, addr, ttl } => DnsRecord::AAAA {
                domain: domain.clone(),
                addr: *addr,
                ttl: *ttl,
            },
            DnsRecord::SRV { domain, priority, weight, port, target, ttl } => DnsRecord::SRV {
                domain: domain.clone(),
                priority: *priority,
                weight: *weight,
                port: *port,
                target: target.clone(),
                ttl: *ttl,
            },
        }
    }
}

impl RecordView {
    /// The name of the record's owner.
    pub open spec fn domain(self) -> Seq<char> {
        match self {
            RecordView::UNKNOWN { domain, .. } => domain,
            RecordView::A { domain, .. } => domain,
            RecordView::NS { domain, .. } => domain,
            RecordView::CNAME { domain, .. } => domain,
            RecordView::MX { domain, .. } => domain,
            RecordView::TXT { domain, .. } => domain,
            RecordView::AAAA { domain, .. } => domain,
            RecordView::SRV { domain, .. } => domain,
        }
    }

    /// The record on the wire: its head, and its data behind their length.
    /// Names are written in full. Of an `UNKNOWN` record, whose data were not
    /// kept, as many zero bytes are written as the data were long.
    #[verifier::opaque]
    pub open spec fn wire(self) -> Emit {
        match self {
            RecordView::UNKNOWN { domain, qtype, data_len, ttl } => record_head(
                domain,
                qtype,
                ttl,
            ).chain(sized(Emit::done(zeros(data_len as int)))),
            RecordView::A { domain, addr, ttl } => record_head(domain, 1, ttl).chain(
                Emit::done(u16_bytes(4)),
            ).chain(Emit::done(u32_bytes(addr))),
            RecordView::NS { domain, host, ttl } => record_head(domain, 2, ttl).chain(
                sized(qname_wire(encode_utf8(host))),
            ),
            RecordView::CNAME { domain, host, ttl } => record_head(domain, 5, ttl).chain(
                sized(qname_wire(encode_utf8(host))),
            ),
            RecordView::MX { domain, priority, host, ttl } => record_head(domain, 15, ttl).chain(
                sized(Emit::done(u16_bytes(priority)).chain(qname_wire(encode_utf8(host)))),
            ),
            RecordView::TXT { domain, text, ttl } => record_head(domain, 16, ttl).chain(
                sized(Emit::done(encode_utf8(text))),
            ),
            RecordView::AAAA { domain, addr, ttl } => record_head(domain, 28, ttl).chain(
                Emit::done(u16_bytes(16)),
            ).chain(groups_wire(addr)),
            RecordView::SRV { domain, priority, weight, port, target, ttl } => record_head(
                domain,
                33,
                ttl,
            ).chain(
                sized(
                    Emit::done(u16_bytes(priority)).chain(Emit::done(u16_bytes(weight))).chain(
                        Emit::done(u16_bytes(port)),
                    ).chain(qname_wire(encode_utf8(target))),
                ),
            ),
        }
    }

    /// Reading a record: the name of its owner, its type, a class that is not
    /// kept, its time to live and the length of its data, then the data as
    /// the type asks.
    #[verifier::opaque]
    pub open spec fn parse(c: Cursor) -> Step<RecordView> {
        let domain = parse_name(c);
        let qtype = domain.cursor.read_u16();
        let class = qtype.cursor.read_u16();
        let ttl = class.cursor.read_u32();
        let data_len = ttl.cursor.read_u16();
        if domain.value is Err {
            domain.fail()
        } else if qtype.value is Err {
            qtype.fail()
        } else if class.value is Err {
            class.fail()
        } else if ttl.value is Err {
            ttl.fail()
        } else if data_len.value is Err {
            data_len.fail()
        } else {
            RecordView::parse_data(
                data_len.cursor,
                domain.value->Ok_0,
                qtype.value->Ok_0,
                ttl.value->Ok_0,
                data_len.value->Ok_0,
            )
        }
    }

    /// Reading the data of a record whose head has been read.
    ///
    /// An address is four bytes, or eight groups of two; a name server, an
    /// alias, a mail exchange and a service end in a name; text is `data_len`
    /// bytes. Data of any other type are skipped, `data_len` bytes of them,
    /// whether the store has them or not.
    #[verifier::opaque]
    pub open spec fn parse_data(
        c: Cursor,
        domain: Seq<char>,
        qtype: u16,
        ttl: u32,
        data_len: u16,
    ) -> Step<RecordView> {
        match QueryType::of_code(qtype) {
            QueryType::A => {
                let addr = c.read_u32();
                match addr.value {
                    Ok(a) => Step {
                        cursor: addr.cursor,
                        value: Ok(RecordView::A { domain, addr: a, ttl }),
                    },
                    Err(_) => addr.fail(),
                }
            },
            QueryType::AAAA => {
                let groups = parse_groups(c, 8);
                match groups.value {
                    Ok(g) => Step {
                        cursor: groups.cursor,
                        value: Ok(RecordView::AAAA { domain, addr: g, ttl }),
                    },
                    Err(_) => groups.fail(),
                }
            },
            QueryType::NS => {
                let host = parse_name(c);
                match host.value {
                    Ok(h) => Step {
                        cursor: host.cursor,
                        value: Ok(RecordView::NS { domain, host: h, ttl }),
                    },
                    Err(_) => host.fail(),
                }
            },
            QueryType::CNAME => {
                let host = parse_name(c);
                match host.value {
                    Ok(h) => Step {
                        cursor: host.cursor,
                        value: Ok(RecordView::CNAME { domain, host: h, ttl }),
                    },
                    Err(_) => host.fail(),
                }
            },
            QueryType::MX => {
                let priority = c.read_u16();
                let host = parse_name(priority.cursor);
                match (priority.value, host.value) {
                    (Ok(p), Ok(h)) => Step {
                        cursor: host.cursor,
                        value: Ok(RecordView::MX { domain, priority: p, host: h, ttl }),
                    },
                    (Ok(_), Err(_)) => host.fail(),
                    (Err(_), _) => priority.fail(),
                }
            },
            QueryType::SRV => {
                let priority = c.read_u16();
                let weight = priority.cursor.read_u16();
                let port = weight.cursor.read_u16();
                let target = parse_name(port.cursor);
                if priority.value is Err {
                    priority.fail()
                } else if weight.value is Err {
                    weight.fail()
                } else if port.value is Err {
                    port.fail()
                } else if target.value is Err {
                    target.fail()
                } else {
                    Step {
                        cursor: target.cursor,
                        value: Ok(
                            RecordView::SRV {
                                domain,
                                priority: priority.value->Ok_0,
                                weight: weight.value->Ok_0,
                                port: port.value->Ok_0,
                                target: target.value->Ok_0,
                                ttl,
                            },
                        ),
                    }
                }
            },
            QueryType::TXT => {
                let moved = c.step(data_len as int);
                match c.get_range(c.pos, data_len as int) {
                    Ok(bytes) => if moved.value is Ok {
                        Step {
                            cursor: moved.cursor,
                            value: Ok(RecordView::TXT { domain, text: text_of(bytes), ttl }),
                        }
                    } else {
                        moved.fail()
                    },
                    Err(e) => Step { cursor: c, value: Err(e) },
                }
            },
            _ => {
                let moved = c.step(data_len as int);
                if moved.value is Ok {
                    Step {
                        cursor: moved.cursor,
                        value: Ok(RecordView::UNKNOWN { domain, qtype, data_len, ttl }),
                    }
                } else {
                    moved.fail()
                }
            },
        }
    }
}

/// 16-bit groups on the wire, one after the other.
pub open spec fn groups_wire(groups: Seq<u16>) -> Emit
    decreases groups.len(),
{
    if groups.len() == 0 {
        Emit::done(Seq::empty())
    } else {
        groups_wire(groups.drop_last()).chain(Emit::done(u16_bytes(groups.last())))
    }
}

/// Reading `n` 16-bit groups.
pub open spec fn parse_groups(c: Cursor, n: nat) -> Step<Seq<u16>>
    decreases n,
{
    if n == 0 {
        Step { cursor: c, value: Ok(Seq::empty()) }
    } else {
        let before = parse_groups(c, (n - 1) as nat);
        let group = before.cursor.read_u16();
        match (before.value, group.value) {
            (Ok(groups), Ok(g)) => Step { cursor: group.cursor, value: Ok(groups.push(g)) },
            (Ok(_), Err(_)) => group.fail(),
            (Err(_), _) => before,
        }
    }
}

/// Sets the length that was left open at `mark` to the number of bytes
/// written behind it, if that number fits the field.
fn patch_length(
    buffer: &mut BytePacketBuffer,
    mark: usize,
    Ghost(before): Ghost<Cursor>,
    Ghost(payload): Ghost<Emit>,
) -> (r: Result<(), DnsError>)
    requires
        before.pos == mark,
        emitted(
            before,
            Emit::done(u16_bytes(0)).chain(payload),
            old(buffer)@,
            Ok::<(), DnsError>(()),
        ),
    ensures
        emitted(before, sized(payload), final(buffer)@, r),
{
    let ghost open = u16_bytes(0) + payload.bytes;
    proof {
        lemma_put_content(before, open);
        assert(u16_bytes(0) =~= seq![0u8, 0u8]);
    }
    let size: usize = buffer.pos() - (mark + 2);
    if size > 0xFFFF {
        return Err(DnsError::Malformed);
    }
    let ghost closed = u16_bytes(size as u16) + payload.bytes;
    proof {
        lemma_put_content(before, closed);
        lemma_put_len(before, open, closed);
    }
    buffer.set_u16(mark, size as u16)?;
    assert(buffer@.bytes =~= before.put(closed).bytes);
    Ok(())
}

/// A payload that fails behind its open length has failed with it.
proof fn lemma_sized_fails(c: Cursor, payload: Emit)
    ensures
        forall|c1: Cursor, r: Result<(), DnsError>|
            #[trigger] emitted(c, Emit::done(u16_bytes(0)).chain(payload), c1, r) && r is Err
                ==> emitted(c, sized(payload), c1, r),
{
    assert(u16_bytes(0) =~= seq![0u8, 0u8]);
}

/// Writes the head of a record.
fn write_head(buffer: &mut BytePacketBuffer, domain: &str, code: u16, ttl: u32) -> (r: Result<
    (),
    DnsError,
>)
    ensures
        emitted(old(buffer)@, record_head(domain@, code, ttl), final(buffer)@, r),
{
    proof {
        let name = qname_wire(encode_utf8(domain@));
        let kind = Emit::done(u16_bytes(code));
        let class = Emit::done(u16_bytes(1));
        lemma_emitted_chain(old(buffer)@, name, kind);
        lemma_emitted_chain(old(buffer)@, name.chain(kind), class);
        lemma_emitted_chain(old(buffer)@, name.chain(kind).chain(class), Emit::done(u32_bytes(ttl)));
    }
    buffer.write_qname(domain)?;
    buffer.write_u16(code)?;
    buffer.write_u16(1)?;
    buffer.write_u32(ttl)?;
    Ok(())
}

/// Writes a name behind its length.
fn write_sized_name(buffer: &mut BytePacketBuffer, name: &str) -> (r: Result<(), DnsError>)
    ensures
        emitted(old(buffer)@, sized(qname_wire(encode_utf8(name@))), final(buffer)@, r),
{
    let ghost payload = qname_wire(encode_utf8(name@));
    proof {
        lemma_emitted_chain(old(buffer)@, Emit::done(u16_bytes(0)), payload);
        lemma_sized_fails(old(buffer)@, payload);
    }
    let mark: usize = buffer.pos();
    buffer.write_u16(0)?;
    buffer.write_qname(name)?;
    patch_length(buffer, mark, Ghost(old(buffer)@), Ghost(payload))
}

/// Reads the eight groups of an IPv6 address.
fn read_groups(buffer: &mut BytePacketBuffer) -> (r: Result<[u16; 8], DnsError>)
    ensures
        (Step { cursor: final(buffer)@, value: by_view(r) }) == parse_groups(old(buffer)@, 8),
{
    proof {
        reveal_with_fuel(parse_groups, 9);
    }
    let g0: u16 = buffer.read_u16()?;
    let g1: u16 = buffer.read_u16()?;
    let g2: u16 = buffer.read_u16()?;
    let g3: u16 = buffer.read_u16()?;
    let g4: u16 = buffer.read_u16()?;
    let g5: u16 = buffer.read_u16()?;
    let g6: u16 = buffer.read_u16()?;
    let g7: u16 = buffer.read_u16()?;
    let addr: [u16; 8] = [g0, g1, g2, g3, g4, g5, g6, g7];
    assert(addr@ =~= Seq::<u16>::empty().push(g0).push(g1).push(g2).push(g3).push(g4).push(
        g5,
    ).push(g6).push(g7));
    Ok(addr)
}

impl DnsRecord {
    /// Reads a record at the position of `buffer`.
    pub fn read(buffer: &mut BytePacketBuffer) -> (r: Result<DnsRecord, DnsError>)
        ensures
            (Step { cursor: final(buffer)@, value: by_view(r) }) == RecordView::parse(old(buffer)@),
    {
        proof {
            reveal(RecordView::parse);
        }
        let domain = read_name(buffer)?;
        let qtype_num: u16 = buffer.read_u16()?;
        let _ = buffer.read_u16()?;
        let ttl: u32 = buffer.read_u32()?;
        let data_len: u16 = buffer.read_u16()?;
        DnsRecord::read_data(buffer, domain, qtype_num, ttl, data_len)
    }

    /// Reads the data of a record whose head has been read.
    fn read_data(
        buffer: &mut BytePacketBuffer,
        domain: String,
        qtype_num: u16,
        ttl: u32,
        data_len: u16,
    ) -> (r: Result<DnsRecord, DnsError>)
        ensures
            (Step { cursor: final(buffer)@, value: by_view(r) }) == RecordView::parse_data(
                old(buffer)@,
                domain@,
                qtype_num,
                ttl,
                data_len,
            ),
    {
        proof {
            reveal(RecordView::parse_data);
        }
        match QueryType::from_num(qtype_num) {
            QueryType::A => {
                let addr: u32 = buffer.read_u32()?;
                Ok(DnsRecord::A { domain, addr, ttl })
            },
            QueryType::AAAA => {
                let addr: [u16; 8] = read_groups(buffer)?;
                Ok(DnsRecord::AAAA { domain, addr, ttl })
            },
            QueryType::NS => {
                let host = read_name(buffer)?;
                Ok(DnsRecord::NS { domain, host, ttl })
            },
            QueryType::CNAME => {
                let host = read_name(buffer)?;
                Ok(DnsRecord::CNAME { domain, host, ttl })
            },
            QueryType::MX => {
                let priority: u16 = buffer.read_u16()?;
                let host = read_name(buffer)?;
                Ok(DnsRecord::MX { domain, priority, host, ttl })
            },
            QueryType::SRV => {
                let priority: u16 = buffer.read_u16()?;
                let weight: u16 = buffer.read_u16()?;
                let port: u16 = buffer.read_u16()?;
                let target = read_name(buffer)?;
                Ok(DnsRecord::SRV { domain, priority, weight, port, target, ttl })
            },
            QueryType::TXT => {
                let start: usize = buffer.pos();
                let text = bytes_to_text(buffer.get_range(start, data_len as usize)?);
                buffer.step(data_len as usize)?;
                Ok(DnsRecord::TXT { domain, text, ttl })
            },
            QueryType::UNKNOWN(_) | QueryType::ALL => {
                buffer.step(data_len as usize)?;
                Ok(DnsRecord::UNKNOWN { domain, qtype: qtype_num, data_len, ttl })
            },
        }
    }

    /// Writes the record at the position of `buffer`.
    pub fn write(&self, buffer: &mut BytePacketBuffer) -> (r: Result<(), DnsError>)
        ensures
            emitted(old(buffer)@, self@.wire(), final(buffer)@, r),
    {
        let ghost c0 = old(buffer)@;
        proof {
            reveal(RecordView::wire);
        }
        match self {
            DnsRecord::UNKNOWN { domain, qtype, data_len, ttl } => {
                let ghost head = record_head(domain@, *qtype, *ttl);
                let ghost payload = Emit::done(zeros(*data_len as int));
                proof {
                    lemma_emitted_chain(c0, head, sized(payload));
                }
                write_head(buffer, domain.as_str(), *qtype, *ttl)?;
                let ghost c1 = buffer@;
                proof {
                    lemma_emitted_chain(c1, Emit::done(u16_bytes(0)), payload);
                    lemma_sized_fails(c1, payload);
                }
                let mark: usize = buffer.pos();
                buffer.write_u16(0)?;
                let filler: Vec<u8> = vec![0u8; *data_len as usize];
                assert(filler@ =~= zeros(*data_len as int));
                buffer.write_bytes(filler.as_slice())?;
                patch_length(buffer, mark, Ghost(c1), Ghost(payload))
            },
            DnsRecord::A { domain, addr, ttl } => {
                let ghost head = record_head(domain@, 1, *ttl);
                proof {
                    lemma_emitted_chain(c0, head, Emit::done(u16_bytes(4)));
                    lemma_emitted_chain(
                        c0,
                        head.chain(Emit::done(u16_bytes(4))),
                        Emit::done(u32_bytes(*addr)),
                    );
                }
                write_head(buffer, domain.as_str(), 1, *ttl)?;
                buffer.write_u16(4)?;
                buffer.write_u32(*addr)?;
                Ok(())
            },
            DnsRecord::NS { domain, host, ttl } => {
                proof {
                    lemma_emitted_chain(
                        c0,
                        record_head(domain@, 2, *ttl),
                        sized(qname_wire(encode_utf8(host@))),
                    );
                }
                write_head(buffer, domain.as_str(), 2, *ttl)?;
                write_sized_name(buffer, host.as_str())
            },
            DnsRecord::CNAME { domain, host, ttl } => {
                proof {
                    lemma_emitted_chain(
                        c0,
                        record_head(domain@, 5, *ttl),
                        sized(qname_wire(encode_utf8(host@))),
                    );
                }
                write_head(buffer, domain.as_str(), 5, *ttl)?;
                write_sized_name(buffer, host.as_str())
            },
            DnsRecord::MX { domain, priority, host, ttl } => {
                let ghost first = Emit::done(u16_bytes(*priority));
                let ghost payload = first.chain(qname_wire(encode_utf8(host@)));
                proof {
                    lemma_emitted_chain(c0, record_head(domain@, 15, *ttl), sized(payload));
                }
                write_head(buffer, domain.as_str(), 15, *ttl)?;
                let ghost c1 = buffer@;
                proof {
                    lemma_emitted_chain(c1, Emit::done(u16_bytes(0)), payload);
                    lemma_sized_fails(c1, payload);
                }
                let mark: usize = buffer.pos();
                buffer.write_u16(0)?;
                proof {
                    lemma_emitted_chain(buffer@, first, qname_wire(encode_utf8(host@)));
                }
                buffer.write_u16(*priority)?;
                buffer.write_qname(host.as_str())?;
                patch_length(buffer, mark, Ghost(c1), Ghost(payload))
            },
            DnsRecord::TXT { domain, text, ttl } => {
                let ghost payload = Emit::done(encode_utf8(text@));
                proof {
                    lemma_emitted_chain(c0, record_head(domain@, 16, *ttl), sized(payload));
                }
                write_head(buffer, domain.as_str(), 16, *ttl)?;
                let ghost c1 = buffer@;
                proof {
                    lemma_emitted_chain(c1, Emit::done(u16_bytes(0)), payload);
                    lemma_sized_fails(c1, payload);
                }
                let mark: usize = buffer.pos();
                buffer.write_u16(0)?;
                buffer.write_bytes(text.as_str().as_bytes())?;
                patch_length(buffer, mark, Ghost(c1), Ghost(payload))
            },
            DnsRecord::AAAA { domain, addr, ttl } => {
                let ghost head = record_head(domain@, 28, *ttl).chain(Emit::done(u16_bytes(16)));
                proof {
                    lemma_emitted_chain(c0, record_head(domain@, 28, *ttl), Emit::done(u16_bytes(16)));
                    lemma_emitted_chain(c0, head, groups_wire(addr@));
                }
                write_head(buffer, domain.as_str(), 28, *ttl)?;
                buffer.write_u16(16)?;
                let ghost c1 = buffer@;
                let mut i: usize = 0;
                while i < 8
                    invariant
                        i <= 8,
                        c1.pos <= usize::MAX,
                        emitted(
                            c1,
                            groups_wire(addr@.take(i as int)),
                            buffer@,
                            Ok::<(), DnsError>(()),
                        ),
                        forall|c2: Cursor, r: Result<(), DnsError>|
                            #[trigger] emitted(c1, groups_wire(addr@), c2, r) ==> emitted(
                                old(buffer)@,
                                self@.wire(),
                                c2,
                                r,
                            ),
                    decreases 8 - i,
                {
                    proof {
                        let sofar = groups_wire(addr@.take(i as int));
                        let next = Emit::done(u16_bytes(addr@[i as int]));
                        assert(addr@.take(i + 1).drop_last() =~= addr@.take(i as int));
                        assert(groups_wire(addr@.take(i + 1)) == sofar.chain(next));
                        lemma_emitted_chain(c1, sofar, next);
                        lemma_groups_fail(c1, addr@, i + 1);
                    }
                    buffer.write_u16(addr[i])?;
                    i += 1;
                }
                assert(addr@.take(8) =~= addr@);
                Ok(())
            },
            DnsRecord::SRV { domain, priority, weight, port, target, ttl } => {
                let ghost part1 = Emit::done(u16_bytes(*priority));
                let ghost part2 = part1.chain(Emit::done(u16_bytes(*weight)));
                let ghost part3 = part2.chain(Emit::done(u16_bytes(*port)));
                let ghost payload = part3.chain(qname_wire(encode_utf8(target@)));
                proof {
                    lemma_emitted_chain(c0, record_head(domain@, 33, *ttl), sized(payload));
                }
                write_head(buffer, domain.as_str(), 33, *ttl)?;
                let ghost c1 = buffer@;
                proof {
                    lemma_emitted_chain(c1, Emit::done(u16_bytes(0)), payload);
                    lemma_sized_fails(c1, payload);
                }
                let mark: usize = buffer.pos();
                buffer.write_u16(0)?;
                proof {
                    lemma_emitted_chain(buffer@, part1, Emit::done(u16_bytes(*weight)));
                    lemma_emitted_chain(buffer@, part2, Emit::done(u16_bytes(*port)));
                    lemma_emitted_chain(buffer@, part3, qname_wire(encode_utf8(target@)));
                }
                buffer.write_u16(*priority)?;
                buffer.write_u16(*weight)?;
                buffer.write_u16(*port)?;
                buffer.write_qname(target.as_str())?;
                patch_length(buffer, mark, Ghost(c1), Ghost(payload))
            },
        }
    }
}

/// Groups that fail to be written in part have failed in whole.
proof fn lemma_groups_fail(c: Cursor, groups: Seq<u16>, k: int)
    requires
        0 <= k <= groups.len(),
    ensures
        forall|c1: Cursor, r: Result<(), DnsError>|
            #[trigger] emitted(c, groups_wire(groups.take(k)), c1, r) && r is Err ==> emitted(
                c,
                groups_wire(groups),
                c1,
                r,
            ),
    decreases groups.len() - k,
{
    lemma_groups_len(groups.take(k));
    lemma_groups_len(groups);
}

/// Groups are written without a failure of their own, two bytes each.
pub proof fn lemma_groups_len(groups: Seq<u16>)
    ensures
        groups_wire(groups).fault is None,
        groups_wire(groups).bytes.len() == 2 * groups.len(),
    decreases groups.len(),
{
    if groups.len() > 0 {
        lemma_groups_len(groups.drop_last());
    }
}

} // verus!
