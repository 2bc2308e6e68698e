//! A whole DNS message: reading it from a store, writing it to one, and the
//! look-ups in it that following a referral needs.

use vstd::prelude::*;
use vstd::string::*;
use vstd::utf8::*;
use crate::buffer::{emitted, lemma_emitted_chain, BytePacketBuffer, Cursor, Emit, Step};
use crate::dns_record::{by_view, DnsQuestion, DnsRecord, QuestionView, RecordView};
use crate::dns_types::DnsHeader;
use crate::error::DnsError;

verus! {

/// A message: its header and its four sections.
#[derive(Debug, PartialEq, Eq)]
pub struct DnsPacket {
    pub header: DnsHeader,
    pub questions: Vec<DnsQuestion>,
    pub answers: Vec<DnsRecord>,
    pub authorities: Vec<DnsRecord>,
    pub resources: Vec<DnsRecord>,
}

/// The mathematical content of a `DnsPacket`.
pub struct PacketView {
    pub header: DnsHeader,
    pub questions: Seq<QuestionView>,
    pub answers: Seq<RecordView>,
    pub authorities: Seq<RecordView>,
    pub resources: Seq<RecordView>,
}

/// Questions, each taken by its view.
pub open spec fn questions_view(questions: Seq<DnsQuestion>) -> Seq<QuestionView> {
    Seq::new(questions.len(), |i: int| questions[i]@)
}

/// Records, each taken by its view.
pub open spec fn records_view(records: Seq<DnsRecord>) -> Seq<RecordView> {
    Seq::new(records.len(), |i: int| records[i]@)
}

impl View for DnsPacket {
    type V = PacketView;

    open spec fn view(&self) -> PacketView {
        PacketView {
            header: self.header,
            questions: questions_view(self.questions@),
            answers: records_view(self.answers@),
            authorities: records_view(self.authorities@),
            resources: records_view(self.resources@),
        }
    }
}

/// Questions on the wire, one after the other.
pub open spec fn questions_wire(questions: Seq<QuestionView>) -> Emit
    decreases questions.len(),
{
    if questions.len() == 0 {
        Emit::done(Seq::empty())
    } else {
        questions_wire(questions.drop_last()).chain(questions.last().wire())
    }
}

/// Records on the wire, one after the other.
pub open spec fn records_wire(records: Seq<RecordView>) -> Emit
    decreases records.len(),
{
    if records.len() == 0 {
        Emit::done(Seq::empty())
    } else {
        records_wire(records.drop_last()).chain(records.last().wire())
    }
}

/// Reading `n` questions. The first that fails ends the reading.
pub open spec fn parse_questions(c: Cursor, n: nat) -> Step<Seq<QuestionView>>
    decreases n,
{
    if n == 0 {
        Step { cursor: c, value: Ok(Seq::empty()) }
    } else {
        let before = parse_questions(c, (n - 1) as nat);
        let next = QuestionView::parse(before.cursor);
        match (before.value, next.value) {
            (Ok(questions), Ok(q)) => Step { cursor: next.cursor, value: Ok(questions.push(q)) },
            (Ok(_), Err(_)) => next.fail(),
            (Err(_), _) => before,
        }
    }
}

/// Reading `n` records. The first that fails ends the reading.
pub open spec fn parse_records(c: Cursor, n: nat) -> Step<Seq<RecordView>>
    decreases n,
{
    if n == 0 {
        Step { cursor: c, value: Ok(Seq::empty()) }
    } else {
        let before = parse_records(c, (n - 1) as nat);
        let next = RecordView::parse(before.cursor);
        match (before.value, next.value) {
            (Ok(records), Ok(r)) => Step { cursor: next.cursor, value: Ok(records.push(r)) },
            (Ok(_), Err(_)) => next.fail(),
            (Err(_), _) => before,
        }
    }
}

impl PacketView {
    /// Whether each section has few enough entries for its 16-bit count.
    pub open spec fn countable(self) -> bool {
        &&& self.questions.len() <= 0xFFFF
        &&& self.answers.len() <= 0xFFFF
        &&& self.authorities.len() <= 0xFFFF
        &&& self.resources.len() <= 0xFFFF
    }

    /// The header with its four counts set to the sizes of the sections.
    pub open spec fn counted(self) -> DnsHeader {
        DnsHeader {
            questions: self.questions.len() as u16,
            answers: self.answers.len() as u16,
            authoritative_entries: self.authorities.len() as u16,
            resource_entries: self.resources.len() as u16,
            ..self.header
        }
    }

    /// The message on the wire: the header, with the counts that the sections
    /// have, and the four sections in order. A section with more entries than
    /// its count can say fails before anything is written.
    pub open spec fn wire(self) -> Emit {
        if self.countable() {
            Emit::done(self.counted().wire()).chain(questions_wire(self.questions)).chain(
                records_wire(self.answers),
            ).chain(records_wire(self.authorities)).chain(records_wire(self.resources))
        } else {
            Emit::failed(DnsError::Malformed)
        }
    }

    /// Reading a message: the header, then as many entries of each section
    /// as the header counts.
    pub open spec fn parse(c: Cursor) -> Step<PacketView> {
        let header = DnsHeader::parse(c);
        match header.value {
            Err(_) => header.fail(),
            Ok(h) => {
                let questions = parse_questions(header.cursor, h.questions as nat);
                let answers = parse_records(questions.cursor, h.answers as nat);
                let authorities = parse_records(answers.cursor, h.authoritative_entries as nat);
                let resources = parse_records(authorities.cursor, h.resource_entries as nat);
                if questions.value is Err {
                    questions.fail()
                } else if answers.value is Err {
                    answers.fail()
                } else if authorities.value is Err {
                    authorities.fail()
                } else if resources.value is Err {
                    resources.fail()
                } else {
                    Step {
                        cursor: resources.cursor,
                        value: Ok(
                            PacketView {
                                header: h,
                                questions: questions.value->Ok_0,
                                answers: answers.value->Ok_0,
                                authorities: authorities.value->Ok_0,
                                resources: resources.value->Ok_0,
                            },
                        ),
                    }
                }
            },
        }
    }
}

/// Reading `n` questions gives `n` questions, if it gives any.
pub proof fn lemma_parse_questions_len(c: Cursor, n: nat)
    ensures
        parse_questions(c, n).value is Ok ==> parse_questions(c, n).value->Ok_0.len() == n,
    decreases n,
{
    if n > 0 {
        lemma_parse_questions_len(c, (n - 1) as nat);
    }
}

/// Reading `n` records gives `n` records, if it gives any.
pub proof fn lemma_parse_records_len(c: Cursor, n: nat)
    ensures
        parse_records(c, n).value is Ok ==> parse_records(c, n).value->Ok_0.len() == n,
    decreases n,
{
    if n > 0 {
        lemma_parse_records_len(c, (n - 1) as nat);
    }
}

/// The counts of a message that was read are the sizes of its sections.
pub proof fn lemma_parsed_counts(c: Cursor)
    ensures
        PacketView::parse(c).value is Ok ==> PacketView::parse(c).value->Ok_0.header
            == PacketView::parse(c).value->Ok_0.counted(),
{
    let header = DnsHeader::parse(c);
    if header.value is Ok {
        let h = header.value->Ok_0;
        let questions = parse_questions(header.cursor, h.questions as nat);
        let answers = parse_records(questions.cursor, h.answers as nat);
        let authorities = parse_records(answers.cursor, h.authoritative_entries as nat);
        lemma_parse_questions_len(header.cursor, h.questions as nat);
        lemma_parse_records_len(questions.cursor, h.answers as nat);
        lemma_parse_records_len(answers.cursor, h.authoritative_entries as nat);
        lemma_parse_records_len(authorities.cursor, h.resource_entries as nat);
    }
}

/// Reading that has failed after `k` questions has failed for any more.
pub proof fn lemma_parse_questions_fails(c: Cursor, k: nat, n: nat)
    requires
        k <= n,
        parse_questions(c, k).value is Err,
    ensures
        parse_questions(c, n) == parse_questions(c, k),
    decreases n,
{
    if k < n {
        lemma_parse_questions_fails(c, k, (n - 1) as nat);
    }
}

/// Reading that has failed after `k` records has failed for any more.
pub proof fn lemma_parse_records_fails(c: Cursor, k: nat, n: nat)
    requires
        k <= n,
        parse_records(c, k).value is Err,
    ensures
        parse_records(c, n) == parse_records(c, k),
    decreases n,
{
    if k < n {
        lemma_parse_records_fails(c, k, (n - 1) as nat);
    }
}

/// Questions that fail to be written in part have failed in whole.
proof fn lemma_questions_fail(c: Cursor, questions: Seq<QuestionView>, k: int)
    requires
        0 <= k <= questions.len(),
        c.pos <= usize::MAX,
    ensures
        forall|c1: Cursor, r: Result<(), DnsError>|
            #[trigger] emitted(c, questions_wire(questions.take(k)), c1, r) && r is Err
                ==> emitted(c, questions_wire(questions), c1, r),
    decreases questions.len() - k,
{
    if k == questions.len() {
        assert(questions.take(k) =~= questions);
    } else {
        lemma_questions_fail(c, questions, k + 1);
        assert(questions.take(k + 1).drop_last() =~= questions.take(k));
        lemma_emitted_chain(c, questions_wire(questions.take(k)), questions[k].wire());
    }
}

/// Records that fail to be written in part have failed in whole.
proof fn lemma_records_fail(c: Cursor, records: Seq<RecordView>, k: int)
    requires
        0 <= k <= records.len(),
        c.pos <= usize::MAX,
    ensures
        forall|c1: Cursor, r: Result<(), DnsError>|
            #[trigger] emitted(c, records_wire(records.take(k)), c1, r) && r is Err ==> emitted(
                c,
                records_wire(records),
                c1,
                r,
            ),
    decreases records.len() - k,
{
    if k == records.len() {
        assert(records.take(k) =~= records);
    } else {
        lemma_records_fail(c, records, k + 1);
        assert(records.take(k + 1).drop_last() =~= records.take(k));
        lemma_emitted_chain(c, records_wire(records.take(k)), records[k].wire());
    }
}

/// Reads `count` questions.
fn read_questions(buffer: &mut BytePacketBuffer, count: u16) -> (r: Result<
    Vec<DnsQuestion>,
    DnsError,
>)
    ensures
        (Step {
            cursor: final(buffer)@,
            value: match r {
                Ok(v) => Ok(questions_view(v@)),
                Err(e) => Err(e),
            },
        }) == parse_questions(old(buffer)@, count as nat),
{
    let mut questions: Vec<DnsQuestion> = Vec::new();
    let mut i: u16 = 0;
    assert(questions_view(questions@) =~= Seq::<QuestionView>::empty());
    while i < count
        invariant
            i <= count,
            parse_questions(old(buffer)@, i as nat) == (Step {
                cursor: buffer@,
                value: Ok::<Seq<QuestionView>, DnsError>(questions_view(questions@)),
            }),
        decreases count - i,
    {
        proof {
            if QuestionView::parse(buffer@).value is Err {
                lemma_parse_questions_fails(old(buffer)@, (i + 1) as nat, count as nat);
            }
        }
        let ghost before = questions_view(questions@);
        let question = DnsQuestion::read(buffer)?;
        questions.push(question);
        assert(questions_view(questions@) =~= before.push(question@));
        i += 1;
    }
    Ok(questions)
}

/// Reads `count` records.
fn read_records(buffer: &mut BytePacketBuffer, count: u16) -> (r: Result<Vec<DnsRecord>, DnsError>)
    ensures
        (Step {
            cursor: final(buffer)@,
            value: match r {
                Ok(v) => Ok(records_view(v@)),
                Err(e) => Err(e),
            },
        }) == parse_records(old(buffer)@, count as nat),
{
    let mut records: Vec<DnsRecord> = Vec::new();
    let mut i: u16 = 0;
    assert(records_view(records@) =~= Seq::<RecordView>::empty());
    while i < count
        invariant
            i <= count,
            parse_records(old(buffer)@, i as nat) == (Step {
                cursor: buffer@,
                value: Ok::<Seq<RecordView>, DnsError>(records_view(records@)),
            }),
        decreases count - i,
    {
        proof {
            if RecordView::parse(buffer@).value is Err {
                lemma_parse_records_fails(old(buffer)@, (i + 1) as nat, count as nat);
            }
        }
        let ghost before = records_view(records@);
        let record = DnsRecord::read(buffer)?;
        records.push(record);
        assert(records_view(records@) =~= before.push(record@));
        i += 1;
    }
    Ok(records)
}

/// Writes `questions` in order.
fn write_questions(buffer: &mut BytePacketBuffer, questions: &Vec<DnsQuestion>) -> (r: Result<
    (),
    DnsError,
>)
    ensures
        emitted(old(buffer)@, questions_wire(questions_view(questions@)), final(buffer)@, r),
{
    let ghost all = questions_view(questions@);
    let n: usize = questions.len();
    let mut i: usize = 0;
    while i < n
        invariant
            i <= n,
            n == questions@.len(),
            all == questions_view(questions@),
            emitted(
                old(buffer)@,
                questions_wire(all.take(i as int)),
                buffer@,
                Ok::<(), DnsError>(()),
            ),
        decreases n - i,
    {
        proof {
            assert(all.take(i + 1).drop_last() =~= all.take(i as int));
            lemma_emitted_chain(
                old(buffer)@,
                questions_wire(all.take(i as int)),
                all[i as int].wire(),
            );
            lemma_questions_fail(old(buffer)@, all, i + 1);
        }
        questions[i].write(buffer)?;
        i += 1;
    }
    assert(all.take(n as int) =~= all);
    Ok(())
}

/// Writes `records` in order.
fn write_records(buffer: &mut BytePacketBuffer, records: &Vec<DnsRecord>) -> (r: Result<
    (),
    DnsError,
>)
    ensures
        emitted(old(buffer)@, records_wire(records_view(records@)), final(buffer)@, r),
{
    let ghost all = records_view(records@);
    let n: usize = records.len();
    let mut i: usize = 0;
    while i < n
        invariant
            i <= n,
            n == records@.len(),
            all == records_view(records@),
            emitted(old(buffer)@, records_wire(all.take(i as int)), buffer@, Ok::<(), DnsError>(())),
        decreases n - i,
    {
        proof {
            assert(all.take(i + 1).drop_last() =~= all.take(i as int));
            lemma_emitted_chain(old(buffer)@, records_wire(all.take(i as int)), all[i as int].wire());
            lemma_records_fail(old(buffer)@, all, i + 1);
        }
        records[i].write(buffer)?;
        i += 1;
    }
    assert(all.take(n as int) =~= all);
    Ok(())
}

impl DnsPacket {
    /// A message with a fresh header and empty sections.
    pub fn new() -> (r: DnsPacket)
        ensures
            r.header == DnsHeader::new_header(),
            r@.questions.len() == 0,
            r@.answers.len() == 0,
            r@.authorities.len() == 0,
            r@.resources.len() == 0,
    {
        DnsPacket {
            header: DnsHeader::new(),
            questions: Vec::new(),
            answers: Vec::new(),
            authorities: Vec::new(),
            resources: Vec::new(),
        }
    }

    /// Reads a message at the position of `buffer`.
    ///
    /// The counts in the header say how many entries of each section are
    /// read. A count that promises more than the store holds ends in
    /// `BufferBounds`, as does any other read outside the store.
    pub fn from_buffer(buffer: &mut BytePacketBuffer) -> (r: Result<DnsPacket, DnsError>)
        ensures
            (Step { cursor: final(buffer)@, value: by_view(r) }) == PacketView::parse(old(buffer)@),
            r matches Ok(packet) ==> packet@.header == packet@.counted(),
    {
        proof {
            lemma_parsed_counts(old(buffer)@);
        }
        let header = DnsHeader::read(buffer)?;
        let questions = read_questions(buffer, header.questions)?;
        let answers = read_records(buffer, header.answers)?;
        let authorities = read_records(buffer, header.authoritative_entries)?;
        let resources = read_records(buffer, header.resource_entries)?;
        Ok(DnsPacket { header, questions, answers, authorities, resources })
    }

    /// Writes the message at the position of `buffer`, after setting the
    /// four counts of its header to the sizes of its sections.
    pub fn write(&mut self, buffer: &mut BytePacketBuffer) -> (r: Result<(), DnsError>)
        ensures
            final(self)@ == if old(self)@.countable() {
                PacketView { header: old(self)@.counted(), ..old(self)@ }
            } else {
                old(self)@
            },
            emitted(old(buffer)@, old(self)@.wire(), final(buffer)@, r),
    {
        let questions: usize = self.questions.len();
        let answers: usize = self.answers.len();
        let authorities: usize = self.authorities.len();
        let resources: usize = self.resources.len();
        if questions > 0xFFFF || answers > 0xFFFF || authorities > 0xFFFF || resources > 0xFFFF {
            return Err(DnsError::Malformed);
        }
        self.header.questions = questions as u16;
        self.header.answers = answers as u16;
        self.header.authoritative_entries = authorities as u16;
        self.header.resource_entries = resources as u16;
        proof {
            let c = old(buffer)@;
            let part1 = Emit::done(self@.counted().wire());
            let part2 = part1.chain(questions_wire(self@.questions));
            let part3 = part2.chain(records_wire(self@.answers));
            let part4 = part3.chain(records_wire(self@.authorities));
            lemma_emitted_chain(c, part1, questions_wire(self@.questions));
            lemma_emitted_chain(c, part2, records_wire(self@.answers));
            lemma_emitted_chain(c, part3, records_wire(self@.authorities));
            lemma_emitted_chain(c, part4, records_wire(self@.resources));
        }
        self.header.write(buffer)?;
        write_questions(buffer, &self.questions)?;
        write_records(buffer, &self.answers)?;
        write_records(buffer, &self.authorities)?;
        write_records(buffer, &self.resources)?;
        Ok(())
    }
}

/// Whether `text` ends with `suffix`.
pub open spec fn ends_with(text: Seq<u8>, suffix: Seq<u8>) -> bool {
    suffix.len() <= text.len() && text.subrange(text.len() - suffix.len(), text.len() as int)
        == suffix
}

/// The address of the first `A` record among `records`.
pub open spec fn first_a(records: Seq<RecordView>) -> Option<u32>
    decreases records.len(),
{
    if records.len() == 0 {
        None
    } else {
        match records[0] {
            RecordView::A { addr, .. } => Some(addr),
            _ => first_a(records.drop_first()),
        }
    }
}

/// The address of the first `A` record among `records` that `host` owns.
pub open spec fn address_of(records: Seq<RecordView>, host: Seq<char>) -> Option<u32>
    decreases records.len(),
{
    if records.len() == 0 {
        None
    } else {
        match records[0] {
            RecordView::A { domain, addr, .. } if domain == host => Some(addr),
            _ => address_of(records.drop_first(), host),
        }
    }
}

/// Whether `record` names a server for a zone that `qname` lies in: an `NS`
/// record whose owner's name, in UTF-8, ends that of `qname`.
pub open spec fn serves(record: RecordView, qname: Seq<char>) -> bool {
    match record {
        RecordView::NS { domain, .. } => ends_with(encode_utf8(qname), encode_utf8(domain)),
        _ => false,
    }
}

/// The host that an `NS` record names.
pub open spec fn ns_host(record: RecordView) -> Seq<char> {
    match record {
        RecordView::NS { host, .. } => host,
        _ => Seq::empty(),
    }
}

/// The address of a name server for `qname`: of the first record among
/// `authorities` that serves `qname` and whose host has an `A` record among
/// `resources`, the address in the first such `A` record.
pub open spec fn resolved_ns(
    authorities: Seq<RecordView>,
    resources: Seq<RecordView>,
    qname: Seq<char>,
) -> Option<u32>
    decreases authorities.len(),
{
    if authorities.len() == 0 {
        None
    } else if serves(authorities[0], qname) && address_of(resources, ns_host(authorities[0]))
        is Some {
        address_of(resources, ns_host(authorities[0]))
    } else {
        resolved_ns(authorities.drop_first(), resources, qname)
    }
}

/// The name of a name server for `qname` whose address is not in the
/// message: the host of the first record among `authorities` that serves
/// `qname` and whose host has no `A` record among `resources`.
pub open spec fn unresolved_ns(
    authorities: Seq<RecordView>,
    resources: Seq<RecordView>,
    qname: Seq<char>,
) -> Option<Seq<char>>
    decreases authorities.len(),
{
    if authorities.len() == 0 {
        None
    } else if serves(authorities[0], qname) && address_of(resources, ns_host(authorities[0]))
        is None {
        Some(ns_host(authorities[0]))
    } else {
        unresolved_ns(authorities.drop_first(), resources, qname)
    }
}

/// Whether the bytes of `text` end with those of `suffix`.
pub fn bytes_end_with(text: &[u8], suffix: &[u8]) -> (r: bool)
    ensures
        r == ends_with(text@, suffix@),
{
    let n: usize = text.len();
    let m: usize = suffix.len();
    if m > n {
        return false;
    }
    let off: usize = n - m;
    let mut i: usize = 0;
    while i < m
        invariant
            i <= m,
            m <= n,
            off == n - m,
            n == text@.len(),
            m == suffix@.len(),
            forall|j: int| 0 <= j < i ==> text@[off + j] == suffix@[j],
        decreases m - i,
    {
        if text[off + i] != suffix[i] {
            assert(text@.subrange(off as int, n as int)[i as int] == text@[off + i]);
            return false;
        }
        i += 1;
    }
    assert(text@.subrange(off as int, n as int) =~= suffix@);
    true
}

/// The address of the first `A` record among `records` that `host` owns.
fn find_address(records: &Vec<DnsRecord>, host: &String) -> (r: Option<u32>)
    ensures
        r == address_of(records_view(records@), host@),
{
    let ghost all = records_view(records@);
    let n: usize = records.len();
    let mut i: usize = 0;
    assert(all.subrange(0, n as int) =~= all);
    while i < n
        invariant
            i <= n,
            n == records@.len(),
            all == records_view(records@),
            address_of(all, host@) == address_of(all.subrange(i as int, n as int), host@),
        decreases n - i,
    {
        proof {
            let rest = all.subrange(i as int, n as int);
            assert(rest[0] == records@[i as int]@);
            assert(rest.drop_first() =~= all.subrange(i + 1, n as int));
        }
        match &records[i] {
            DnsRecord::A { domain, addr, .. } => {
                if *domain == *host {
                    return Some(*addr);
                }
            },
            _ => {},
        }
        i += 1;
    }
    None
}

impl DnsPacket {
    /// The address in the first `A` record of the answer section.
    pub fn get_random_a(&self) -> (r: Option<u32>)
        ensures
            r == first_a(self@.answers),
    {
        let ghost all = self@.answers;
        let n: usize = self.answers.len();
        let mut i: usize = 0;
        assert(all.subrange(0, n as int) =~= all);
        while i < n
            invariant
                i <= n,
                n == self.answers@.len(),
                all == records_view(self.answers@),
                first_a(all) == first_a(all.subrange(i as int, n as int)),
            decreases n - i,
        {
            proof {
                let rest = all.subrange(i as int, n as int);
                assert(rest[0] == self.answers@[i as int]@);
                assert(rest.drop_first() =~= all.subrange(i + 1, n as int));
            }
            match &self.answers[i] {
                DnsRecord::A { addr, .. } => {
                    return Some(*addr);
                },
                _ => {},
            }
            i += 1;
        }
        None
    }

    /// The address of a name server for `qname` that the message itself
    /// gives: see `resolved_ns`.
    pub fn get_resolved_ns(&self, qname: &str) -> (r: Option<u32>)
        ensures
            r == resolved_ns(self@.authorities, self@.resources, qname@),
    {
        let ghost all = self@.authorities;
        let ghost known = self@.resources;
        let n: usize = self.authorities.len();
        let mut i: usize = 0;
        assert(all.subrange(0, n as int) =~= all);
        while i < n
            invariant
                i <= n,
                n == self.authorities@.len(),
                all == records_view(self.authorities@),
                known == records_view(self.resources@),
                resolved_ns(all, known, qname@) == resolved_ns(
                    all.subrange(i as int, n as int),
                    known,
                    qname@,
                ),
            decreases n - i,
        {
            proof {
                let rest = all.subrange(i as int, n as int);
                assert(rest[0] == self.authorities@[i as int]@);
                assert(rest.drop_first() =~= all.subrange(i + 1, n as int));
            }
            match &self.authorities[i] {
                DnsRecord::NS { domain, host, .. } => {
                    if bytes_end_with(qname.as_bytes(), domain.as_str().as_bytes()) {
                        let found = find_address(&self.resources, host);
                        if found.is_some() {
                            return found;
                        }
                    }
                },
                _ => {},
            }
            i += 1;
        }
        None
    }

    /// The name of a name server for `qname` whose address the message does
    /// not give: see `unresolved_ns`.
    pub fn get_unresolved_ns(&self, qname: &str) -> (r: Option<String>)
        ensures
            match r {
                Some(host) => Some(host@),
                None => None,
            } == unresolved_ns(self@.authorities, self@.resources, qname@),
    {
        let ghost all = self@.authorities;
        let ghost known = self@.resources;
        let n: usize = self.authorities.len();
        let mut i: usize = 0;
        assert(all.subrange(0, n as int) =~= all);
        while i < n
            invariant
                i <= n,
                n == self.authorities@.len(),
                all == records_view(self.authorities@),
                known == records_view(self.resources@),
                unresolved_ns(all, known, qname@) == unresolved_ns(
                    all.subrange(i as int, n as int),
                    known,
                    qname@,
                ),
            decreases n - i,
        {
            proof {
                let rest = all.subrange(i as int, n as int);
                assert(rest[0] == self.authorities@[i as int]@);
                assert(rest.drop_first() =~= all.subrange(i + 1, n as int));
            }
            match &self.authorities[i] {
                DnsRecord::NS { domain, host, .. } => {
                    if bytes_end_with(qname.as_bytes(), domain.as_str().as_bytes()) {
                        let found = find_address(&self.resources, host);
                        if found.is_none() {
                            return Some(host.clone());
                        }
                    }
                },
                _ => {},
            }
            i += 1;
        }
        None
    }
}

impl Clone for DnsPacket {
    fn clone(&self) -> (r: Self)
        ensures
            r@ == self@,
    {
        let mut questions: Vec<DnsQuestion> = Vec::new();
        let mut i: usize = 0;
        while i < self.questions.len()
            invariant
                i <= self.questions@.len(),
                questions@.len() == i,
                forall|j: int| 0 <= j < i ==> questions@[j]@ == self.questions@[j]@,
            decreases self.questions@.len() - i,
        {
            questions.push(self.questions[i].clone());
            i += 1;
        }
        let answers = clone_records(&self.answers);
        let authorities = clone_records(&self.authorities);
        let resources = clone_records(&self.resources);
        assert(questions_view(questions@) =~= questions_view(self.questions@));
        DnsPacket { header: self.header, questions, answers, authorities, resources }
    }
}

/// A copy of `records`.
pub fn clone_records(records: &Vec<DnsRecord>) -> (r: Vec<DnsRecord>)
    ensures
        records_view(r@) == records_view(records@),
{
    let mut copy: Vec<DnsRecord> = Vec::new();
    let mut i: usize = 0;
    while i < records.len()
        invariant
            i <= records@.len(),
            copy@.len() == i,
            forall|j: int| 0 <= j < i ==> copy@[j]@ == records@[j]@,
        decreases records@.len() - i,
    {
        copy.push(records[i].clone());
        i += 1;
    }
    assert(records_view(copy@) =~= records_view(records@));
    copy
}

/// Whether `record` is an `A` record that `host` owns.
pub open spec fn gives_address(record: RecordView, host: Seq<char>) -> bool {
    match record {
        RecordView::A { domain, .. } => domain == host,
        _ => false,
    }
}

/// The address in an `A` record.
pub open spec fn a_addr(record: RecordView) -> u32 {
    match record {
        RecordView::A { addr, .. } => addr,
        _ => 0,
    }
}

/// What `address_of` finds: the address in the first `A` record that `host`
/// owns, and nothing only where there is no such record.
pub proof fn lemma_address_of(records: Seq<RecordView>, host: Seq<char>)
    ensures
        match address_of(records, host) {
            Some(addr) => exists|j: int|
                0 <= j < records.len() && gives_address(#[trigger] records[j], host) && a_addr(
                    records[j],
                ) == addr && forall|k: int| 0 <= k < j ==> !gives_address(records[k], host),
            None => forall|j: int| 0 <= j < records.len() ==> !gives_address(records[j], host),
        },
    decreases records.len(),
{
    if records.len() > 0 {
        let rest = records.drop_first();
        lemma_address_of(rest, host);
        if gives_address(records[0], host) {
            assert(gives_address(records[0], host) && a_addr(records[0]) == address_of(
                records,
                host,
            )->0);
        } else {
            match address_of(rest, host) {
                Some(addr) => {
                    let j = choose|j: int|
                        0 <= j < rest.len() && gives_address(#[trigger] rest[j], host) && a_addr(
                            rest[j],
                        ) == addr && forall|k: int| 0 <= k < j ==> !gives_address(rest[k], host);
                    assert(records[j + 1] == rest[j]);
                    assert forall|k: int| 0 <= k < j + 1 implies !gives_address(
                        records[k],
                        host,
                    ) by {
                        if k > 0 {
                            assert(records[k] == rest[k - 1]);
                        }
                    }
                },
                None => {
                    assert forall|j: int| 0 <= j < records.len() implies !gives_address(
                        records[j],
                        host,
                    ) by {
                        if j > 0 {
                            assert(records[j] == rest[j - 1]);
                        }
                    }
                },
            }
        }
    }
}

/// Whether `record` names a server for `qname` whose address `resources`
/// give.
pub open spec fn resolves(record: RecordView, resources: Seq<RecordView>, qname: Seq<char>) -> bool {
    serves(record, qname) && address_of(resources, ns_host(record)) is Some
}

/// Whether `record` names a server for `qname` whose address `resources`
/// do not give.
pub open spec fn refers(record: RecordView, resources: Seq<RecordView>, qname: Seq<char>) -> bool {
    serves(record, qname) && address_of(resources, ns_host(record)) is None
}

/// What `resolved_ns` finds: the address of the host of the first record
/// that names a server for `qname` with a known address, and nothing only
/// where no record does.
pub proof fn lemma_resolved_ns(
    authorities: Seq<RecordView>,
    resources: Seq<RecordView>,
    qname: Seq<char>,
)
    ensures
        match resolved_ns(authorities, resources, qname) {
            Some(addr) => exists|i: int|
                0 <= i < authorities.len() && resolves(#[trigger] authorities[i], resources, qname)
                    && address_of(resources, ns_host(authorities[i])) == Some(addr) && forall|
                    k: int,
                | 0 <= k < i ==> !resolves(authorities[k], resources, qname),
            None => forall|i: int|
                0 <= i < authorities.len() ==> !resolves(authorities[i], resources, qname),
        },
    decreases authorities.len(),
{
    if authorities.len() > 0 {
        let rest = authorities.drop_first();
        lemma_resolved_ns(rest, resources, qname);
        if resolves(authorities[0], resources, qname) {
            assert(resolves(authorities[0], resources, qname));
        } else {
            match resolved_ns(rest, resources, qname) {
                Some(addr) => {
                    let i = choose|i: int|
                        0 <= i < rest.len() && resolves(#[trigger] rest[i], resources, qname)
                            && address_of(resources, ns_host(rest[i])) == Some(addr) && forall|
                            k: int,
                        | 0 <= k < i ==> !resolves(rest[k], resources, qname);
                    assert(authorities[i + 1] == rest[i]);
                    assert forall|k: int| 0 <= k < i + 1 implies !resolves(
                        authorities[k],
                        resources,
                        qname,
                    ) by {
                        if k > 0 {
                            assert(authorities[k] == rest[k - 1]);
                        }
                    }
                },
                None => {
                    assert forall|i: int| 0 <= i < authorities.len() implies !resolves(
                        authorities[i],
                        resources,
                        qname,
                    ) by {
                        if i > 0 {
                            assert(authorities[i] == rest[i - 1]);
                        }
                    }
                },
            }
        }
    }
}

/// What `unresolved_ns` finds: the host of the first record that names a
/// server for `qname` without a known address, and nothing only where no
/// record does.
pub proof fn lemma_unresolved_ns(
    authorities: Seq<RecordView>,
    resources: Seq<RecordView>,
    qname: Seq<char>,
)
    ensures
        match unresolved_ns(authorities, resources, qname) {
            Some(host) => exists|i: int|
                0 <= i < authorities.len() && refers(#[trigger] authorities[i], resources, qname)
                    && ns_host(authorities[i]) == host && forall|k: int|
                    0 <= k < i ==> !refers(authorities[k], resources, qname),
            None => forall|i: int|
                0 <= i < authorities.len() ==> !refers(authorities[i], resources, qname),
        },
    decreases authorities.len(),
{
    if authorities.len() > 0 {
        let rest = authorities.drop_first();
        lemma_unresolved_ns(rest, resources, qname);
        if refers(authorities[0], resources, qname) {
            assert(refers(authorities[0], resources, qname));
        } else {
            match unresolved_ns(rest, resources, qname) {
                Some(host) => {
                    let i = choose|i: int|
                        0 <= i < rest.len() && refers(#[trigger] rest[i], resources, qname)
                            && ns_host(rest[i]) == host && forall|k: int|
                            0 <= k < i ==> !refers(rest[k], resources, qname);
                    assert(authorities[i + 1] == rest[i]);
                    assert forall|k: int| 0 <= k < i + 1 implies !refers(
                        authorities[k],
                        resources,
                        qname,
                    ) by {
                        if k > 0 {
                            assert(authorities[k] == rest[k - 1]);
                        }
                    }
                },
                None => {
                    assert forall|i: int| 0 <= i < authorities.len() implies !refers(
                        authorities[i],
                        resources,
                        qname,
                    ) by {
                        if i > 0 {
                            assert(authorities[i] == rest[i - 1]);
                        }
                    }
                },
            }
        }
    }
}

/// A message gives the address of a name server for `qname`, or names one,
/// or has no record in its authority section that serves `qname`.
pub proof fn lemma_referral_or_none(
    authorities: Seq<RecordView>,
    resources: Seq<RecordView>,
    qname: Seq<char>,
)
    ensures
        (resolved_ns(authorities, resources, qname) is None && unresolved_ns(
            authorities,
            resources,
            qname,
        ) is None) <==> forall|i: int| 0 <= i < authorities.len() ==> !serves(authorities[i], qname),
{
    lemma_resolved_ns(authorities, resources, qname);
    lemma_unresolved_ns(authorities, resources, qname);
    if resolved_ns(authorities, resources, qname) is None && unresolved_ns(
        authorities,
        resources,
        qname,
    ) is None {
        assert forall|i: int| 0 <= i < authorities.len() implies !serves(authorities[i], qname) by {
            assert(!resolves(authorities[i], resources, qname));
            assert(!refers(authorities[i], resources, qname));
        }
    }
}

} // verus!
