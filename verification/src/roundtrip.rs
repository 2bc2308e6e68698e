//! What is written can be read back.
//!
//! The lemmas of this module show, part by part, that reading the bytes that
//! writing a value produced gives the value again, wherever they stand in a
//! store. They end in `lemma_message_round_trip`.

use vstd::prelude::*;
use vstd::utf8::*;
use crate::buffer::{
    be16, lemma_grown, lemma_put_bounded, lemma_put_content, u16_bytes, u32_bytes, zeros, Cursor,
    Emit, Step,
};
use crate::dns_packet::{
    parse_questions, parse_records, questions_wire, records_wire, PacketView,
};
use crate::dns_record::{
    groups_wire, parse_groups, parse_name, record_head, sized, QuestionView, RecordView,
};
use crate::dns_types::{DnsHeader, QueryType, ResultCode};
use crate::error::DnsError;
use crate::qname::{
    ascii_text, first_dot, is_ascii_bytes, label_text, labels_wire, lemma_ascii_is_utf8,
    lemma_first_dot, name_text, qname_wire, scan_name, split_dots, NameScan, MAX_JUMPS,
    MAX_LABEL_LEN,
};

verus! {

impl Cursor {
    /// Whether `bytes` stand in the store at the position. (The store is
    /// one that a machine can hold.)
    pub open spec fn holds(self, bytes: Seq<u8>) -> bool {
        &&& 0 <= self.pos
        &&& self.pos + bytes.len() <= self.bytes.len()
        &&& self.bytes.len() <= usize::MAX
        &&& self.bytes.subrange(self.pos, self.pos + bytes.len()) == bytes
    }

    /// The same store with the position `n` further on.
    pub open spec fn advance(self, n: nat) -> Cursor {
        Cursor { pos: self.pos + n, ..self }
    }
}

/// Where two runs of bytes stand one behind the other, the first stands at
/// the position and the second behind it.
pub proof fn lemma_holds_split(c: Cursor, a: Seq<u8>, b: Seq<u8>)
    requires
        c.holds(a + b),
    ensures
        c.holds(a),
        c.advance(a.len()).holds(b),
{
    let whole = c.bytes.subrange(c.pos, c.pos + (a + b).len());
    assert(whole == a + b);
    assert forall|i: int| 0 <= i < a.len() implies c.bytes[c.pos + i] == a[i] by {
        assert(whole[i] == a[i]);
    }
    assert forall|i: int| 0 <= i < b.len() implies c.bytes[c.pos + a.len() + i] == b[i] by {
        assert(whole[a.len() + i] == b[i]);
    }
    assert(c.bytes.subrange(c.pos, c.pos + a.len()) =~= a);
    assert(c.bytes.subrange(c.pos + a.len(), c.pos + a.len() + b.len()) =~= b);
}

/// Joining is associative.
pub proof fn lemma_concat_assoc(a: Seq<u8>, b: Seq<u8>, c: Seq<u8>)
    ensures
        (a + b) + c == a + (b + c),
{
    assert((a + b) + c =~= a + (b + c));
}

/// Moving the position within the store changes nothing else.
pub proof fn lemma_seek_within(c: Cursor, pos: int)
    requires
        pos <= c.bytes.len(),
    ensures
        c.seek(pos) == (Cursor { pos, ..c }),
{
    lemma_grown(c.bytes, pos);
}

/// A 16-bit value is read back from its two bytes.
pub proof fn lemma_read_u16_back(c: Cursor, v: u16)
    requires
        c.holds(u16_bytes(v)),
    ensures
        c.read_u16() == (Step { cursor: c.advance(2), value: Ok::<u16, DnsError>(v) }),
{
    let w = c.bytes.subrange(c.pos, c.pos + 2);
    assert(w[0] == (v / 0x100) as u8 && w[1] == (v % 0x100) as u8);
    assert(c.bytes[c.pos] == w[0] && c.bytes[c.pos + 1] == w[1]);
}

/// A 32-bit value is read back from its four bytes.
pub proof fn lemma_read_u32_back(c: Cursor, v: u32)
    requires
        c.holds(u32_bytes(v)),
    ensures
        c.read_u32() == (Step { cursor: c.advance(4), value: Ok::<u32, DnsError>(v) }),
{
    let w = c.bytes.subrange(c.pos, c.pos + 4);
    assert(c.bytes[c.pos] == w[0] && c.bytes[c.pos + 1] == w[1] && c.bytes[c.pos + 2] == w[2]
        && c.bytes[c.pos + 3] == w[3]);
    let x0: u32 = v / 0x100_0000;
    let x1: u32 = (v / 0x1_0000) % 0x100;
    let x2: u32 = (v / 0x100) % 0x100;
    let x3: u32 = v % 0x100;
    assert(x0 < 0x100 && x1 < 0x100 && x2 < 0x100 && x3 < 0x100 && x0 * 0x100_0000 + x1 * 0x1_0000
        + x2 * 0x100 + x3 == v) by (bit_vector)
        requires
            x0 == v / 0x100_0000,
            x1 == (v / 0x1_0000) % 0x100,
            x2 == (v / 0x100) % 0x100,
            x3 == v % 0x100,
    ;
    assert(w[0] == x0 as u8 && w[1] == x1 as u8 && w[2] == x2 as u8 && w[3] == x3 as u8);
    assert(be16(w[0], w[1]) == x0 * 0x100 + x1);
    assert(be16(w[2], w[3]) == x2 * 0x100 + x3);
}

/// The flags of a header are read back from its two flag bytes, if its
/// opcode has no more than the four bits that are written.
pub proof fn lemma_header_fields(h: DnsHeader)
    requires
        h.opcode < 16,
    ensures
        u16_bytes(be16(h.flags_hi(), h.flags_lo())) == seq![h.flags_hi(), h.flags_lo()],
        DnsHeader::of_wire(
            h.id,
            be16(h.flags_hi(), h.flags_lo()),
            h.questions,
            h.answers,
            h.authoritative_entries,
            h.resource_entries,
        ) == h,
{
    reveal(DnsHeader::of_wire);
    let hi = h.flags_hi();
    let lo = h.flags_lo();
    let flags = be16(hi, lo);
    assert(flags == hi * 0x100 + lo);
    assert(flags / 0x100 == hi && flags % 0x100 == lo);
    assert(u16_bytes(flags) =~= seq![hi, lo]);
    assert(ResultCode::of_code(h.rescode.code()) == h.rescode);
    assert(lo % 16 == h.rescode.code());
    assert((lo / 128 == 1) == h.recursion_available);
    assert((hi % 2 == 1) == h.recursion_desired);
    assert(((hi / 2) % 2 == 1) == h.truncated_message);
    assert(((hi / 4) % 2 == 1) == h.authoritative_answer);
    assert((hi / 8) % 16 == h.opcode);
    assert((hi / 128 == 1) == h.response);
}

/// A header is read back from its twelve bytes, if its opcode has no more
/// than the four bits that are written.
pub proof fn lemma_header_round_trip(c: Cursor, h: DnsHeader)
    requires
        h.opcode < 16,
        c.holds(h.wire()),
    ensures
        h.wire().len() == 12,
        DnsHeader::parse(c) == (Step {
            cursor: c.advance(12),
            value: Ok::<DnsHeader, DnsError>(h),
        }),
{
    let flags = be16(h.flags_hi(), h.flags_lo());
    let part1 = u16_bytes(h.id);
    let part2 = seq![h.flags_hi(), h.flags_lo()];
    let part3 = u16_bytes(h.questions);
    let part4 = u16_bytes(h.answers);
    let part5 = u16_bytes(h.authoritative_entries);
    let part6 = u16_bytes(h.resource_entries);
    lemma_header_fields(h);
    reveal(DnsHeader::wire);
    reveal(DnsHeader::parse);
    assert(part1.len() == 2 && part2.len() == 2 && part3.len() == 2 && part4.len() == 2 && part5.len() == 2
        && part6.len() == 2);
    assert(h.wire() == part1 + part2 + part3 + part4 + part5 + part6);
    lemma_holds_split(c, part1 + part2 + part3 + part4 + part5, part6);
    lemma_holds_split(c, part1 + part2 + part3 + part4, part5);
    lemma_holds_split(c, part1 + part2 + part3, part4);
    lemma_holds_split(c, part1 + part2, part3);
    lemma_holds_split(c, part1, part2);
    let c1 = c.advance(2);
    let c2 = c.advance(4);
    let c3 = c.advance(6);
    let c4 = c.advance(8);
    let c5 = c.advance(10);
    assert(c1.advance(2) == c2 && c2.advance(2) == c3 && c3.advance(2) == c4 && c4.advance(2)
        == c5 && c5.advance(2) == c.advance(12));
    lemma_read_u16_back(c, h.id);
    lemma_read_u16_back(c1, flags);
    lemma_read_u16_back(c2, h.questions);
    lemma_read_u16_back(c3, h.answers);
    lemma_read_u16_back(c4, h.authoritative_entries);
    lemma_read_u16_back(c5, h.resource_entries);
}

/// Every label has at least one byte and no more than may be written.
pub open spec fn sound_labels(labels: Seq<Seq<u8>>) -> bool {
    forall|k: int| 0 <= k < labels.len() ==> 1 <= #[trigger] labels[k].len() <= MAX_LABEL_LEN
}

/// Every byte is ASCII and none is a capital letter.
pub open spec fn plain_bytes(bytes: Seq<u8>) -> bool {
    forall|i: int| 0 <= i < bytes.len() ==> #[trigger] bytes[i] < 0x80 && !(0x41 <= bytes[i] <= 0x5A)
}

/// A name that is read back as it was written: its UTF-8 form has only
/// ASCII bytes, none of them a capital letter, and each of its labels has at
/// least one byte and no more than may be written.
pub open spec fn plain_name(name: Seq<char>) -> bool {
    plain_bytes(encode_utf8(name)) && sound_labels(split_dots(encode_utf8(name)))
}

/// Labels joined by dots.
pub open spec fn dotted(labels: Seq<Seq<u8>>) -> Seq<u8>
    decreases labels.len(),
{
    if labels.len() == 0 {
        Seq::empty()
    } else if labels.len() == 1 {
        labels[0]
    } else {
        dotted(labels.drop_last()) + seq![0x2Eu8] + labels.last()
    }
}

/// Sound labels are written without a failure, each behind its length.
pub proof fn lemma_labels_wire(labels: Seq<Seq<u8>>)
    requires
        sound_labels(labels),
    ensures
        labels_wire(labels).fault is None,
        labels.len() > 0 ==> labels_wire(labels).bytes == seq![labels[0].len() as u8] + labels[0]
            + labels_wire(labels.drop_first()).bytes,
        labels.len() == 0 ==> labels_wire(labels).bytes == Seq::<u8>::empty(),
    decreases labels.len(),
{
    if labels.len() > 0 {
        assert(1 <= labels[0].len() <= MAX_LABEL_LEN);
        assert forall|k: int| 0 <= k < labels.drop_first().len() implies 1
            <= #[trigger] labels.drop_first()[k].len() <= MAX_LABEL_LEN by {
            assert(labels.drop_first()[k] == labels[k + 1]);
        }
        lemma_labels_wire(labels.drop_first());
    }
}

/// Reading the written form of sound labels, with the zero byte behind it,
/// meets the labels and ends without a failure.
pub proof fn lemma_scan_labels(c: Cursor, at: int, hops: int, labels: Seq<Seq<u8>>)
    requires
        sound_labels(labels),
        0 <= hops <= MAX_JUMPS,
        0 <= at,
        at + labels_wire(labels).bytes.len() + 1 <= c.bytes.len(),
        c.bytes.subrange(at, at + labels_wire(labels).bytes.len() + 1) == labels_wire(
            labels,
        ).bytes + seq![0u8],
    ensures
        scan_name(c, at, hops) == (NameScan {
            cursor: if hops == 0 {
                c.seek(at + labels_wire(labels).bytes.len() + 1)
            } else {
                c
            },
            labels,
            fault: None,
        }),
    decreases labels.len(),
{
    lemma_labels_wire(labels);
    let w = labels_wire(labels).bytes;
    let whole = w + seq![0u8];
    let window = c.bytes.subrange(at, at + w.len() + 1);
    assert(c.bytes[at] == window[0]);
    if labels.len() == 0 {
        assert(window[0] == 0u8);
        assert(labels =~= Seq::<Seq<u8>>::empty());
    } else {
        let l = labels[0];
        let rest = labels.drop_first();
        assert forall|k: int| 0 <= k < rest.len() implies 1 <= #[trigger] rest[k].len()
            <= MAX_LABEL_LEN by {
            assert(rest[k] == labels[k + 1]);
        }
        lemma_labels_wire(rest);
        let wr = labels_wire(rest).bytes;
        let end = at + 1 + l.len();
        assert(1 <= l.len() <= MAX_LABEL_LEN);
        assert(whole[0] == l.len() as u8);
        assert forall|i: int| 0 <= i < l.len() implies c.bytes[at + 1 + i] == l[i] by {
            assert(window[1 + i] == l[i]);
        }
        assert(c.bytes.subrange(at + 1, end) =~= l);
        assert forall|i: int| 0 <= i < wr.len() + 1 implies c.bytes[end + i] == (wr + seq![0u8])[i] by {
            assert(window[1 + l.len() + i] == (wr + seq![0u8])[i]);
        }
        assert(c.bytes.subrange(end, end + wr.len() + 1) =~= wr + seq![0u8]);
        lemma_scan_labels(c, end, hops, rest);
        assert(seq![l] + rest =~= labels);
    }
}

/// Labels behind a first one are joined to it by a dot.
pub proof fn lemma_dotted_front(first: Seq<u8>, rest: Seq<Seq<u8>>)
    requires
        rest.len() > 0,
    ensures
        dotted(seq![first] + rest) == first + seq![0x2Eu8] + dotted(rest),
    decreases rest.len(),
{
    let all = seq![first] + rest;
    if rest.len() == 1 {
        assert(all.drop_last() =~= seq![first]);
        assert(dotted(all.drop_last()) == first);
    } else {
        assert(all.drop_last() =~= seq![first] + rest.drop_last());
        lemma_dotted_front(first, rest.drop_last());
        assert(first + seq![0x2Eu8] + dotted(rest.drop_last()) + seq![0x2Eu8] + rest.last()
            =~= first + seq![0x2Eu8] + (dotted(rest.drop_last()) + seq![0x2Eu8] + rest.last()));
    }
}

/// The labels of a name, joined by dots, are the name. A name has at least
/// one label, and every label is a part of the name.
pub proof fn lemma_split_joins(name: Seq<u8>)
    ensures
        split_dots(name).len() >= 1,
        dotted(split_dots(name)) == name,
        plain_bytes(name) ==> forall|k: int|
            0 <= k < split_dots(name).len() ==> plain_bytes(#[trigger] split_dots(name)[k]),
    decreases name.len(),
{
    lemma_first_dot(name);
    let k = first_dot(name);
    if k < name.len() {
        let head = name.subrange(0, k);
        let tail = name.subrange(k + 1, name.len() as int);
        lemma_split_joins(tail);
        lemma_dotted_front(head, split_dots(tail));
        assert(head + seq![0x2Eu8] + tail =~= name);
        if plain_bytes(name) {
            assert(plain_bytes(head)) by {
                assert forall|i: int| 0 <= i < head.len() implies #[trigger] head[i] < 0x80 && !(
                0x41 <= head[i] <= 0x5A) by {
                    assert(head[i] == name[i]);
                }
            }
            assert(plain_bytes(tail)) by {
                assert forall|i: int| 0 <= i < tail.len() implies #[trigger] tail[i] < 0x80 && !(
                0x41 <= tail[i] <= 0x5A) by {
                    assert(tail[i] == name[k + 1 + i]);
                }
            }
            assert forall|j: int| 0 <= j < split_dots(name).len() implies plain_bytes(
                #[trigger] split_dots(name)[j],
            ) by {
                if j > 0 {
                    assert(split_dots(name)[j] == split_dots(tail)[j - 1]);
                }
            }
        }
    }
}

/// The text of plain labels is their bytes, joined by dots, as characters.
pub proof fn lemma_name_text_plain(labels: Seq<Seq<u8>>)
    requires
        forall|k: int| 0 <= k < labels.len() ==> plain_bytes(#[trigger] labels[k]),
    ensures
        name_text(labels) == ascii_text(dotted(labels)),
    decreases labels.len(),
{
    if labels.len() == 0 {
        assert(name_text(labels) =~= ascii_text(dotted(labels)));
    } else {
        let last = labels.last();
        assert(plain_bytes(last));
        assert(is_ascii_bytes(last));
        assert(label_text(last) =~= ascii_text(last));
        if labels.len() > 1 {
            let init = labels.drop_last();
            assert forall|k: int| 0 <= k < init.len() implies plain_bytes(#[trigger] init[k]) by {
                assert(init[k] == labels[k]);
            }
            lemma_name_text_plain(init);
            assert(ascii_text(dotted(init) + seq![0x2Eu8] + last) =~= ascii_text(dotted(init))
                + seq!['.'] + ascii_text(last));
        }
    }
}

/// A plain name is read back from its written form.
pub proof fn lemma_name_round_trip(c: Cursor, name: Seq<char>)
    requires
        plain_name(name),
        c.holds(qname_wire(encode_utf8(name)).bytes),
    ensures
        qname_wire(encode_utf8(name)).fault is None,
        parse_name(c) == (Step {
            cursor: c.advance(qname_wire(encode_utf8(name)).bytes.len()),
            value: Ok::<Seq<char>, DnsError>(name),
        }),
{
    let bytes = encode_utf8(name);
    let labels = split_dots(bytes);
    lemma_labels_wire(labels);
    lemma_scan_labels(c, c.pos, 0, labels);
    lemma_seek_within(c, c.pos + labels_wire(labels).bytes.len() + 1);
    lemma_split_joins(bytes);
    lemma_name_text_plain(labels);
    assert(is_ascii_bytes(bytes));
    lemma_ascii_is_utf8(bytes);
    encode_utf8_decode_utf8(name);
}

/// The written form of a name with sound labels is two bytes longer than
/// the name.
pub proof fn lemma_qname_len(name: Seq<u8>)
    requires
        sound_labels(split_dots(name)),
    ensures
        qname_wire(name).fault is None,
        qname_wire(name).bytes.len() == name.len() + 2,
    decreases name.len(),
{
    lemma_first_dot(name);
    lemma_labels_wire(split_dots(name));
    let k = first_dot(name);
    if k < name.len() {
        let tail = name.subrange(k + 1, name.len() as int);
        let labels = split_dots(name);
        assert(labels.drop_first() =~= split_dots(tail));
        assert forall|j: int| 0 <= j < split_dots(tail).len() implies 1 <= #[trigger] split_dots(
            tail,
        )[j].len() <= MAX_LABEL_LEN by {
            assert(split_dots(tail)[j] == labels[j + 1]);
        }
        lemma_qname_len(tail);
        lemma_labels_wire(split_dots(tail));
    } else {
        assert(split_dots(name).drop_first() =~= Seq::<Seq<u8>>::empty());
    }
}

impl QuestionView {
    /// A question that is read back as it was written: its name is plain
    /// and its type is the one value for its number.
    pub open spec fn plain(self) -> bool {
        plain_name(self.name) && self.qtype.is_canonical()
    }
}

/// A plain question is read back from its written form.
pub proof fn lemma_question_round_trip(c: Cursor, q: QuestionView)
    requires
        q.plain(),
        c.holds(q.wire().bytes),
    ensures
        q.wire().fault is None,
        QuestionView::parse(c) == (Step {
            cursor: c.advance(q.wire().bytes.len()),
            value: Ok::<QuestionView, DnsError>(q),
        }),
{
    let n = qname_wire(encode_utf8(q.name));
    let t = u16_bytes(q.qtype.code());
    let cl = u16_bytes(1);
    lemma_labels_wire(split_dots(encode_utf8(q.name)));
    assert(q.wire().bytes =~= n.bytes + (t + cl));
    lemma_holds_split(c, n.bytes, t + cl);
    let c1 = c.advance(n.bytes.len());
    lemma_holds_split(c1, t, cl);
    lemma_name_round_trip(c, q.name);
    lemma_read_u16_back(c1, q.qtype.code());
    lemma_read_u16_back(c1.advance(2), 1);
    assert(c1.advance(2).advance(2) == c.advance(q.wire().bytes.len()));
}

impl RecordView {
    /// A record that is read back as it was written: its names are plain,
    /// its data are no longer than a 16-bit length can say, an address of
    /// eight groups has eight, and the number of a type without a variant is
    /// not that of a type that has one.
    pub open spec fn plain(self) -> bool {
        match self {
            RecordView::UNKNOWN { domain, qtype, .. } => plain_name(domain) && (QueryType::of_code(
                qtype,
            ) is UNKNOWN || QueryType::of_code(qtype) is ALL),
            RecordView::A { domain, .. } => plain_name(domain),
            RecordView::NS { domain, host, .. } => plain_name(domain) && plain_name(host)
                && encode_utf8(host).len() + 2 <= 0xFFFF,
            RecordView::CNAME { domain, host, .. } => plain_name(domain) && plain_name(host)
                && encode_utf8(host).len() + 2 <= 0xFFFF,
            RecordView::MX { domain, host, .. } => plain_name(domain) && plain_name(host)
                && encode_utf8(host).len() + 4 <= 0xFFFF,
            RecordView::TXT { domain, text, .. } => plain_name(domain) && encode_utf8(text).len()
                <= 0xFFFF,
            RecordView::AAAA { domain, addr, .. } => plain_name(domain) && addr.len() == 8,
            RecordView::SRV { domain, target, .. } => plain_name(domain) && plain_name(target)
                && encode_utf8(target).len() + 8 <= 0xFFFF,
        }
    }
}

/// Reading a record whose head was written for a plain owner comes, with
/// the head's values, to the record's data.
proof fn lemma_record_head(
    c: Cursor,
    domain: Seq<char>,
    code: u16,
    ttl: u32,
    data_len: u16,
    data: Seq<u8>,
)
    requires
        plain_name(domain),
        c.holds(record_head(domain, code, ttl).bytes + (u16_bytes(data_len) + data)),
    ensures
        record_head(domain, code, ttl).fault is None,
        RecordView::parse(c) == RecordView::parse_data(
            c.advance(record_head(domain, code, ttl).bytes.len() + 2),
            domain,
            code,
            ttl,
            data_len,
        ),
        c.advance(record_head(domain, code, ttl).bytes.len() + 2).holds(data),
{
    reveal(RecordView::parse);
    let n = qname_wire(encode_utf8(domain));
    let t = u16_bytes(code);
    let cl = u16_bytes(1);
    let tt = u32_bytes(ttl);
    let dl = u16_bytes(data_len);
    let h = record_head(domain, code, ttl);
    lemma_labels_wire(split_dots(encode_utf8(domain)));
    assert(h.bytes =~= n.bytes + (t + (cl + tt)));
    assert(h.bytes + (dl + data) =~= n.bytes + (t + (cl + (tt + (dl + data)))));
    lemma_holds_split(c, n.bytes, t + (cl + (tt + (dl + data))));
    let c1 = c.advance(n.bytes.len());
    lemma_holds_split(c1, t, cl + (tt + (dl + data)));
    let c2 = c1.advance(2);
    lemma_holds_split(c2, cl, tt + (dl + data));
    let c3 = c2.advance(2);
    lemma_holds_split(c3, tt, dl + data);
    let c4 = c3.advance(4);
    lemma_holds_split(c4, dl, data);
    lemma_name_round_trip(c, domain);
    lemma_read_u16_back(c1, code);
    lemma_read_u16_back(c2, 1);
    lemma_read_u32_back(c3, ttl);
    lemma_read_u16_back(c4, data_len);
    assert(c4.advance(2) == c.advance(h.bytes.len() + 2));
}

/// 16-bit groups are read back from their written form.
pub proof fn lemma_groups_round_trip(c: Cursor, groups: Seq<u16>)
    requires
        c.holds(groups_wire(groups).bytes),
    ensures
        groups_wire(groups).fault is None,
        groups_wire(groups).bytes.len() == 2 * groups.len(),
        parse_groups(c, groups.len()) == (Step {
            cursor: c.advance(2 * groups.len()),
            value: Ok::<Seq<u16>, DnsError>(groups),
        }),
    decreases groups.len(),
{
    crate::dns_record::lemma_groups_len(groups);
    if groups.len() == 0 {
        assert(c.advance(0) == c);
        assert(groups =~= Seq::<u16>::empty());
    } else {
        let init = groups.drop_last();
        crate::dns_record::lemma_groups_len(init);
        lemma_holds_split(c, groups_wire(init).bytes, u16_bytes(groups.last()));
        lemma_groups_round_trip(c, init);
        lemma_read_u16_back(c.advance(2 * init.len()), groups.last());
        assert(c.advance(2 * init.len()).advance(2) == c.advance(2 * groups.len()));
        assert(init.push(groups.last()) =~= groups);
    }
}

/// Stepping over bytes that the store holds moves the position and changes
/// nothing else.
pub proof fn lemma_step_within(c: Cursor, n: nat)
    requires
        0 <= c.pos,
        c.pos + n <= c.bytes.len(),
        c.bytes.len() <= usize::MAX,
    ensures
        c.step(n as int) == (Step { cursor: c.advance(n), value: Ok::<(), DnsError>(()) }),
{
    lemma_seek_within(c, c.pos + n);
}

/// Data of a type without a variant are skipped.
proof fn lemma_skipped_data(c: Cursor, domain: Seq<char>, qtype: u16, ttl: u32, data_len: u16)
    requires
        QueryType::of_code(qtype) is UNKNOWN || QueryType::of_code(qtype) is ALL,
        0 <= c.pos,
        c.pos + data_len <= c.bytes.len(),
        c.bytes.len() <= usize::MAX,
    ensures
        RecordView::parse_data(c, domain, qtype, ttl, data_len) == (Step {
            cursor: c.advance(data_len as nat),
            value: Ok::<RecordView, DnsError>(
                RecordView::UNKNOWN { domain, qtype, data_len, ttl },
            ),
        }),
{
    reveal(RecordView::parse_data);
    lemma_step_within(c, data_len as nat);
}

/// Text is read back from its UTF-8 form.
proof fn lemma_text_data(c: Cursor, domain: Seq<char>, ttl: u32, text: Seq<char>)
    requires
        encode_utf8(text).len() <= 0xFFFF,
        c.holds(encode_utf8(text)),
    ensures
        RecordView::parse_data(c, domain, 16, ttl, encode_utf8(text).len() as u16) == (Step {
            cursor: c.advance(encode_utf8(text).len()),
            value: Ok::<RecordView, DnsError>(RecordView::TXT { domain, text, ttl }),
        }),
{
    reveal(RecordView::parse_data);
    lemma_step_within(c, encode_utf8(text).len());
    encode_utf8_valid_utf8(text);
    encode_utf8_decode_utf8(text);
    assert(QueryType::of_code(16) == QueryType::TXT);
}

/// A plain `UNKNOWN` record is read back from its written form.
proof fn lemma_unknown_round_trip(
    c: Cursor,
    r: RecordView,
    domain: Seq<char>,
    qtype: u16,
    data_len: u16,
    ttl: u32,
)
    requires
        r == (RecordView::UNKNOWN { domain, qtype, data_len, ttl }),
        r.plain(),
        c.holds(r.wire().bytes),
    ensures
        r.wire().fault is None,
        RecordView::parse(c) == (Step {
            cursor: c.advance(r.wire().bytes.len()),
            value: Ok::<RecordView, DnsError>(r),
        }),
{
    let h = record_head(domain, qtype, ttl);
    let data = zeros(data_len as int);
    let payload = Emit::done(data);
    let len = u16_bytes(data_len);
    lemma_labels_wire(split_dots(encode_utf8(domain)));
    assert(r.wire() == h.chain(sized(payload))) by {
        reveal(RecordView::wire);
    }
    assert(data.len() == data_len);
    assert(len.len() == 2);
    assert(sized(payload) == Emit::done(len + data));
    assert(h.fault is None);
    assert(r.wire().bytes == h.bytes + (len + data));
    lemma_record_head(c, domain, qtype, ttl, data_len, data);
    let c1 = c.advance(h.bytes.len() + 2);
    lemma_skipped_data(c1, domain, qtype, ttl, data_len);
    assert(c1.advance(data_len as nat) == c.advance(r.wire().bytes.len()));
}

/// A plain `A` record is read back from its written form.
proof fn lemma_a_round_trip(c: Cursor, r: RecordView, domain: Seq<char>, addr: u32, ttl: u32)
    requires
        r == (RecordView::A { domain, addr, ttl }),
        r.plain(),
        c.holds(r.wire().bytes),
    ensures
        r.wire().fault is None,
        RecordView::parse(c) == (Step {
            cursor: c.advance(r.wire().bytes.len()),
            value: Ok::<RecordView, DnsError>(r),
        }),
{
    let h = record_head(domain, 1, ttl);
    let len = u16_bytes(4);
    let data = u32_bytes(addr);
    lemma_labels_wire(split_dots(encode_utf8(domain)));
    assert(r.wire() == h.chain(Emit::done(len)).chain(Emit::done(data))) by {
        reveal(RecordView::wire);
    }
    assert(h.fault is None);
    assert(r.wire().bytes == (h.bytes + len) + data);
    lemma_concat_assoc(h.bytes, len, data);
    lemma_record_head(c, domain, 1, ttl, 4, data);
    let c1 = c.advance(h.bytes.len() + 2);
    lemma_read_u32_back(c1, addr);
    assert(data.len() == 4);
    assert(len.len() == 2);
    assert(c1.advance(4) == c.advance(r.wire().bytes.len()));
    assert(QueryType::of_code(1) == QueryType::A);
    reveal(RecordView::parse_data);
}

/// A plain `NS` record is read back from its written form.
proof fn lemma_ns_round_trip(c: Cursor, r: RecordView, domain: Seq<char>, host: Seq<char>, ttl: u32)
    requires
        r == (RecordView::NS { domain, host, ttl }),
        r.plain(),
        c.holds(r.wire().bytes),
    ensures
        r.wire().fault is None,
        RecordView::parse(c) == (Step {
            cursor: c.advance(r.wire().bytes.len()),
            value: Ok::<RecordView, DnsError>(r),
        }),
{
    let payload = qname_wire(encode_utf8(host));
    let first = Seq::<u8>::empty();
    assert(r.wire() == record_head(domain, 2, ttl).chain(sized(payload))) by {
        reveal(RecordView::wire);
    }
    assert(first + payload.bytes =~= payload.bytes);
    lemma_named_round_trip(c, domain, 2, ttl, payload, first, host);
    let c1 = c.advance(record_head(domain, 2, ttl).bytes.len() + 2);
    assert(c1.advance(0) == c1);
    assert(QueryType::of_code(2) == QueryType::NS);
    reveal(RecordView::parse_data);
}

/// A plain `CNAME` record is read back from its written form.
proof fn lemma_cname_round_trip(c: Cursor, r: RecordView, domain: Seq<char>, host: Seq<char>, ttl: u32)
    requires
        r == (RecordView::CNAME { domain, host, ttl }),
        r.plain(),
        c.holds(r.wire().bytes),
    ensures
        r.wire().fault is None,
        RecordView::parse(c) == (Step {
            cursor: c.advance(r.wire().bytes.len()),
            value: Ok::<RecordView, DnsError>(r),
        }),
{
    let payload = qname_wire(encode_utf8(host));
    let first = Seq::<u8>::empty();
    assert(r.wire() == record_head(domain, 5, ttl).chain(sized(payload))) by {
        reveal(RecordView::wire);
    }
    assert(first + payload.bytes =~= payload.bytes);
    lemma_named_round_trip(c, domain, 5, ttl, payload, first, host);
    let c1 = c.advance(record_head(domain, 5, ttl).bytes.len() + 2);
    assert(c1.advance(0) == c1);
    assert(QueryType::of_code(5) == QueryType::CNAME);
    reveal(RecordView::parse_data);
}

/// A plain `MX` record is read back from its written form.
proof fn lemma_mx_round_trip(
    c: Cursor,
    r: RecordView,
    domain: Seq<char>,
    priority: u16,
    host: Seq<char>,
    ttl: u32,
)
    requires
        r == (RecordView::MX { domain, priority, host, ttl }),
        r.plain(),
        c.holds(r.wire().bytes),
    ensures
        r.wire().fault is None,
        RecordView::parse(c) == (Step {
            cursor: c.advance(r.wire().bytes.len()),
            value: Ok::<RecordView, DnsError>(r),
        }),
{
    let first = u16_bytes(priority);
    let name = qname_wire(encode_utf8(host));
    let payload = Emit::done(first).chain(name);
    assert(r.wire() == record_head(domain, 15, ttl).chain(sized(payload))) by {
        reveal(RecordView::wire);
    }
    assert(payload.bytes == first + name.bytes);
    assert(first.len() == 2);
    lemma_named_round_trip(c, domain, 15, ttl, payload, first, host);
    let c1 = c.advance(record_head(domain, 15, ttl).bytes.len() + 2);
    lemma_holds_split(c1, first, name.bytes);
    lemma_read_u16_back(c1, priority);
    assert(c1.advance(2) == c.advance(record_head(domain, 15, ttl).bytes.len() + 2 + first.len()));
    assert(QueryType::of_code(15) == QueryType::MX);
    reveal(RecordView::parse_data);
}

/// A plain `TXT` record is read back from its written form.
proof fn lemma_txt_round_trip(
    c: Cursor,
    r: RecordView,
    domain: Seq<char>,
    text: Seq<char>,
    ttl: u32,
)
    requires
        r == (RecordView::TXT { domain, text, ttl }),
        r.plain(),
        c.holds(r.wire().bytes),
    ensures
        r.wire().fault is None,
        RecordView::parse(c) == (Step {
            cursor: c.advance(r.wire().bytes.len()),
            value: Ok::<RecordView, DnsError>(r),
        }),
{
    let h = record_head(domain, 16, ttl);
    let data = encode_utf8(text);
    let payload = Emit::done(data);
    let len = u16_bytes(data.len() as u16);
    lemma_labels_wire(split_dots(encode_utf8(domain)));
    assert(r.wire() == h.chain(sized(payload))) by {
        reveal(RecordView::wire);
    }
    assert(len.len() == 2);
    assert(sized(payload) == Emit::done(len + data));
    assert(h.fault is None);
    assert(r.wire().bytes == h.bytes + (len + data));
    lemma_record_head(c, domain, 16, ttl, data.len() as u16, data);
    let c1 = c.advance(h.bytes.len() + 2);
    lemma_text_data(c1, domain, ttl, text);
    assert(c1.advance(data.len()) == c.advance(r.wire().bytes.len()));
}

/// A plain `AAAA` record is read back from its written form.
proof fn lemma_aaaa_round_trip(
    c: Cursor,
    r: RecordView,
    domain: Seq<char>,
    addr: Seq<u16>,
    ttl: u32,
)
    requires
        r == (RecordView::AAAA { domain, addr, ttl }),
        r.plain(),
        c.holds(r.wire().bytes),
    ensures
        r.wire().fault is None,
        RecordView::parse(c) == (Step {
            cursor: c.advance(r.wire().bytes.len()),
            value: Ok::<RecordView, DnsError>(r),
        }),
{
    let h = record_head(domain, 28, ttl);
    let len = u16_bytes(16);
    let data = groups_wire(addr).bytes;
    lemma_labels_wire(split_dots(encode_utf8(domain)));
    crate::dns_record::lemma_groups_len(addr);
    assert(r.wire() == h.chain(Emit::done(len)).chain(groups_wire(addr))) by {
        reveal(RecordView::wire);
    }
    assert(len.len() == 2);
    assert(h.fault is None);
    assert(r.wire().bytes == (h.bytes + len) + data);
    lemma_concat_assoc(h.bytes, len, data);
    lemma_record_head(c, domain, 28, ttl, 16, data);
    let c1 = c.advance(h.bytes.len() + 2);
    lemma_groups_round_trip(c1, addr);
    assert(c1.advance(16) == c.advance(r.wire().bytes.len()));
    assert(QueryType::of_code(28) == QueryType::AAAA);
    reveal(RecordView::parse_data);
}

/// A plain `SRV` record is read back from its written form.
proof fn lemma_srv_round_trip(
    c: Cursor,
    r: RecordView,
    domain: Seq<char>,
    priority: u16,
    weight: u16,
    port: u16,
    target: Seq<char>,
    ttl: u32,
)
    requires
        r == (RecordView::SRV { domain, priority, weight, port, target, ttl }),
        r.plain(),
        c.holds(r.wire().bytes),
    ensures
        r.wire().fault is None,
        RecordView::parse(c) == (Step {
            cursor: c.advance(r.wire().bytes.len()),
            value: Ok::<RecordView, DnsError>(r),
        }),
{
    let part1 = u16_bytes(priority);
    let part2 = u16_bytes(weight);
    let part3 = u16_bytes(port);
    let first = (part1 + part2) + part3;
    let name = qname_wire(encode_utf8(target));
    let payload = Emit::done(part1).chain(Emit::done(part2)).chain(Emit::done(part3)).chain(name);
    assert(r.wire() == record_head(domain, 33, ttl).chain(sized(payload))) by {
        reveal(RecordView::wire);
    }
    assert(payload.bytes == first + name.bytes);
    assert(part1.len() == 2 && part2.len() == 2 && part3.len() == 2);
    assert(first.len() == 6);
    lemma_named_round_trip(c, domain, 33, ttl, payload, first, target);
    let c1 = c.advance(record_head(domain, 33, ttl).bytes.len() + 2);
    lemma_holds_split(c1, first, name.bytes);
    lemma_holds_split(c1, part1 + part2, part3);
    lemma_holds_split(c1, part1, part2);
    assert(c1.advance(2).advance(2) == c1.advance(4));
    assert(c1.advance(4).advance(2) == c1.advance(6));
    lemma_read_u16_back(c1, priority);
    lemma_read_u16_back(c1.advance(2), weight);
    lemma_read_u16_back(c1.advance(4), port);
    assert(c1.advance(6) == c.advance(record_head(domain, 33, ttl).bytes.len() + 2 + first.len()));
    assert(QueryType::of_code(33) == QueryType::SRV);
    reveal(RecordView::parse_data);
}

/// A plain record is read back from its written form.
pub proof fn lemma_record_round_trip(c: Cursor, r: RecordView)
    requires
        r.plain(),
        c.holds(r.wire().bytes),
    ensures
        r.wire().fault is None,
        RecordView::parse(c) == (Step {
            cursor: c.advance(r.wire().bytes.len()),
            value: Ok::<RecordView, DnsError>(r),
        }),
{
    match r {
        RecordView::UNKNOWN { domain, qtype, data_len, ttl } => {
            lemma_unknown_round_trip(c, r, domain, qtype, data_len, ttl);
        },
        RecordView::A { domain, addr, ttl } => {
            lemma_a_round_trip(c, r, domain, addr, ttl);
        },
        RecordView::NS { domain, host, ttl } => {
            lemma_ns_round_trip(c, r, domain, host, ttl);
        },
        RecordView::CNAME { domain, host, ttl } => {
            lemma_cname_round_trip(c, r, domain, host, ttl);
        },
        RecordView::MX { domain, priority, host, ttl } => {
            lemma_mx_round_trip(c, r, domain, priority, host, ttl);
        },
        RecordView::TXT { domain, text, ttl } => {
            lemma_txt_round_trip(c, r, domain, text, ttl);
        },
        RecordView::AAAA { domain, addr, ttl } => {
            lemma_aaaa_round_trip(c, r, domain, addr, ttl);
        },
        RecordView::SRV { domain, priority, weight, port, target, ttl } => {
            lemma_srv_round_trip(c, r, domain, priority, weight, port, target, ttl);
        },
    }
}

/// Of a record whose data are some bytes and then a plain name: reading
/// comes to the data, and behind the bytes the name is read back, to the end
/// of the record.
proof fn lemma_named_round_trip(
    c: Cursor,
    domain: Seq<char>,
    code: u16,
    ttl: u32,
    payload: Emit,
    first: Seq<u8>,
    host: Seq<char>,
)
    requires
        plain_name(domain),
        plain_name(host),
        first.len() + encode_utf8(host).len() + 2 <= 0xFFFF,
        payload.fault == qname_wire(encode_utf8(host)).fault,
        payload.bytes == first + qname_wire(encode_utf8(host)).bytes,
        c.holds(record_head(domain, code, ttl).chain(sized(payload)).bytes),
    ensures
        record_head(domain, code, ttl).chain(sized(payload)).fault is None,
        RecordView::parse(c) == RecordView::parse_data(
            c.advance(record_head(domain, code, ttl).bytes.len() + 2),
            domain,
            code,
            ttl,
            (first.len() + encode_utf8(host).len() + 2) as u16,
        ),
        c.advance(record_head(domain, code, ttl).bytes.len() + 2).holds(payload.bytes),
        parse_name(c.advance(record_head(domain, code, ttl).bytes.len() + 2 + first.len()))
            == (Step {
            cursor: c.advance(record_head(domain, code, ttl).chain(sized(payload)).bytes.len()),
            value: Ok::<Seq<char>, DnsError>(host),
        }),
{
    let h = record_head(domain, code, ttl);
    let n = qname_wire(encode_utf8(host));
    let data = payload.bytes;
    lemma_labels_wire(split_dots(encode_utf8(domain)));
    lemma_qname_len(encode_utf8(host));
    let len = u16_bytes(data.len() as u16);
    assert(len.len() == 2);
    assert(sized(payload) == Emit::done(len + data));
    let whole = h.chain(sized(payload));
    assert(h.fault is None);
    assert(whole.bytes == h.bytes + (len + data));
    lemma_record_head(c, domain, code, ttl, data.len() as u16, data);
    let c1 = c.advance(h.bytes.len() + 2);
    lemma_holds_split(c1, first, n.bytes);
    lemma_name_round_trip(c1.advance(first.len()), host);
    assert(c1.advance(first.len()).advance(n.bytes.len()) == c.advance(whole.bytes.len()));
    assert(c1.advance(first.len()) == c.advance(h.bytes.len() + 2 + first.len()));
}

/// A plain question is written without a failure.
pub proof fn lemma_question_wire_ok(q: QuestionView)
    requires
        q.plain(),
    ensures
        q.wire().fault is None,
{
    lemma_labels_wire(split_dots(encode_utf8(q.name)));
}

/// A plain record is written without a failure.
pub proof fn lemma_record_wire_ok(r: RecordView)
    requires
        r.plain(),
    ensures
        r.wire().fault is None,
{
    reveal(RecordView::wire);
    lemma_labels_wire(split_dots(encode_utf8(r.domain())));
    match r {
        RecordView::UNKNOWN { .. } => {},
        RecordView::A { .. } => {},
        RecordView::NS { host, .. } => {
            lemma_qname_len(encode_utf8(host));
        },
        RecordView::CNAME { host, .. } => {
            lemma_qname_len(encode_utf8(host));
        },
        RecordView::MX { host, .. } => {
            lemma_qname_len(encode_utf8(host));
        },
        RecordView::TXT { .. } => {},
        RecordView::AAAA { addr, .. } => {
            crate::dns_record::lemma_groups_len(addr);
        },
        RecordView::SRV { target, .. } => {
            lemma_qname_len(encode_utf8(target));
        },
    }
}

/// Every question is plain.
pub open spec fn plain_questions(questions: Seq<QuestionView>) -> bool {
    forall|i: int| 0 <= i < questions.len() ==> (#[trigger] questions[i]).plain()
}

/// Every record is plain.
pub open spec fn plain_records(records: Seq<RecordView>) -> bool {
    forall|i: int| 0 <= i < records.len() ==> (#[trigger] records[i]).plain()
}

/// Plain questions are written without a failure.
pub proof fn lemma_questions_wire_ok(questions: Seq<QuestionView>)
    requires
        plain_questions(questions),
    ensures
        questions_wire(questions).fault is None,
    decreases questions.len(),
{
    if questions.len() > 0 {
        let init = questions.drop_last();
        assert forall|i: int| 0 <= i < init.len() implies (#[trigger] init[i]).plain() by {
            assert(init[i] == questions[i]);
        }
        lemma_questions_wire_ok(init);
        assert(questions.last() == questions[questions.len() - 1]);
        lemma_question_wire_ok(questions.last());
    }
}

/// Plain records are written without a failure.
pub proof fn lemma_records_wire_ok(records: Seq<RecordView>)
    requires
        plain_records(records),
    ensures
        records_wire(records).fault is None,
    decreases records.len(),
{
    if records.len() > 0 {
        let init = records.drop_last();
        assert forall|i: int| 0 <= i < init.len() implies (#[trigger] init[i]).plain() by {
            assert(init[i] == records[i]);
        }
        lemma_records_wire_ok(init);
        assert(records.last() == records[records.len() - 1]);
        lemma_record_wire_ok(records.last());
    }
}

/// Plain questions are read back from their written form.
pub proof fn lemma_questions_round_trip(c: Cursor, questions: Seq<QuestionView>)
    requires
        plain_questions(questions),
        c.holds(questions_wire(questions).bytes),
    ensures
        parse_questions(c, questions.len()) == (Step {
            cursor: c.advance(questions_wire(questions).bytes.len()),
            value: Ok::<Seq<QuestionView>, DnsError>(questions),
        }),
    decreases questions.len(),
{
    if questions.len() == 0 {
        assert(c.advance(0) == c);
        assert(questions =~= Seq::<QuestionView>::empty());
    } else {
        let init = questions.drop_last();
        let last = questions.last();
        assert forall|i: int| 0 <= i < init.len() implies (#[trigger] init[i]).plain() by {
            assert(init[i] == questions[i]);
        }
        assert(last == questions[questions.len() - 1]);
        lemma_questions_wire_ok(init);
        lemma_question_wire_ok(last);
        let a = questions_wire(init).bytes;
        let b = last.wire().bytes;
        assert(questions_wire(questions).bytes == a + b);
        lemma_holds_split(c, a, b);
        lemma_questions_round_trip(c, init);
        lemma_question_round_trip(c.advance(a.len()), last);
        assert(c.advance(a.len()).advance(b.len()) == c.advance((a + b).len()));
        assert(init.push(last) =~= questions);
    }
}

/// Plain records are read back from their written form.
pub proof fn lemma_records_round_trip(c: Cursor, records: Seq<RecordView>)
    requires
        plain_records(records),
        c.holds(records_wire(records).bytes),
    ensures
        parse_records(c, records.len()) == (Step {
            cursor: c.advance(records_wire(records).bytes.len()),
            value: Ok::<Seq<RecordView>, DnsError>(records),
        }),
    decreases records.len(),
{
    if records.len() == 0 {
        assert(c.advance(0) == c);
        assert(records =~= Seq::<RecordView>::empty());
    } else {
        let init = records.drop_last();
        let last = records.last();
        assert forall|i: int| 0 <= i < init.len() implies (#[trigger] init[i]).plain() by {
            assert(init[i] == records[i]);
        }
        assert(last == records[records.len() - 1]);
        lemma_records_wire_ok(init);
        lemma_record_wire_ok(last);
        let a = records_wire(init).bytes;
        let b = last.wire().bytes;
        assert(records_wire(records).bytes == a + b);
        lemma_holds_split(c, a, b);
        lemma_records_round_trip(c, init);
        lemma_record_round_trip(c.advance(a.len()), last);
        assert(c.advance(a.len()).advance(b.len()) == c.advance((a + b).len()));
        assert(init.push(last) =~= records);
    }
}

impl PacketView {
    /// A message that is read back as it was written, but for the counts
    /// of its header, which writing sets: no section has more entries than a
    /// count can say, the opcode has no more than four bits, and the
    /// questions and records are plain.
    pub open spec fn plain(self) -> bool {
        &&& self.countable()
        &&& self.header.opcode < 16
        &&& plain_questions(self.questions)
        &&& plain_records(self.answers)
        &&& plain_records(self.authorities)
        &&& plain_records(self.resources)
    }
}

/// A plain message is written without a failure, header first.
pub proof fn lemma_packet_wire_ok(m: PacketView)
    requires
        m.plain(),
    ensures
        m.wire().fault is None,
        m.wire().bytes == m.counted().wire() + questions_wire(m.questions).bytes + records_wire(
            m.answers,
        ).bytes + records_wire(m.authorities).bytes + records_wire(m.resources).bytes,
        m.counted().wire().len() == 12,
{
    assert(m.counted().wire().len() == 12) by {
        reveal(DnsHeader::wire);
    }
    lemma_questions_wire_ok(m.questions);
    lemma_records_wire_ok(m.answers);
    lemma_records_wire_ok(m.authorities);
    lemma_records_wire_ok(m.resources);
}

/// A plain message is read back from its written form, wherever in a store
/// that form stands, with the counts that writing gave its header.
pub proof fn lemma_packet_round_trip(c: Cursor, m: PacketView)
    requires
        m.plain(),
        c.holds(m.wire().bytes),
    ensures
        PacketView::parse(c) == (Step {
            cursor: c.advance(m.wire().bytes.len()),
            value: Ok::<PacketView, DnsError>(PacketView { header: m.counted(), ..m }),
        }),
{
    lemma_packet_wire_ok(m);
    let hd = m.counted().wire();
    let qd = questions_wire(m.questions).bytes;
    let an = records_wire(m.answers).bytes;
    let ns = records_wire(m.authorities).bytes;
    let ar = records_wire(m.resources).bytes;
    lemma_holds_split(c, hd + qd + an + ns, ar);
    lemma_holds_split(c, hd + qd + an, ns);
    lemma_holds_split(c, hd + qd, an);
    lemma_holds_split(c, hd, qd);
    let c1 = c.advance(12);
    let c2 = c1.advance(qd.len());
    let c3 = c2.advance(an.len());
    let c4 = c3.advance(ns.len());
    assert(c2 == c.advance((hd + qd).len()));
    assert(c3 == c.advance((hd + qd + an).len()));
    assert(c4 == c.advance((hd + qd + an + ns).len()));
    assert(c4.advance(ar.len()) == c.advance(m.wire().bytes.len()));
    lemma_header_round_trip(c, m.counted());
    lemma_questions_round_trip(c1, m.questions);
    lemma_records_round_trip(c2, m.answers);
    lemma_records_round_trip(c3, m.authorities);
    lemma_records_round_trip(c4, m.resources);
}

/// Writing a message and reading it again gives the message: if a plain
/// message is written to a store that has room for it, and the position is
/// set back to where the writing began, then reading a message there ends
/// where the writing ended and returns a message equal to the one written,
/// in every entry of every section and every value of every record, and in
/// its header, whose counts are those that writing set: the sizes of the
/// sections.
pub proof fn lemma_message_round_trip(start: Cursor, m: PacketView)
    requires
        m.plain(),
        0 <= start.pos,
        start.bytes.len() <= usize::MAX,
        m.wire().bytes.len() <= start.room(),
    ensures
        start.emit(m.wire()).value is Ok,
        PacketView::parse(start.emit(m.wire()).cursor.seek(start.pos)) == (Step {
            cursor: start.emit(m.wire()).cursor,
            value: Ok::<PacketView, DnsError>(PacketView { header: m.counted(), ..m }),
        }),
{
    lemma_packet_wire_ok(m);
    let bytes = m.wire().bytes;
    let after = start.put(bytes);
    lemma_put_content(start, bytes);
    lemma_put_bounded(start, bytes);
    lemma_seek_within(after, start.pos);
    let back = after.seek(start.pos);
    assert(back.bytes.subrange(back.pos, back.pos + bytes.len()) =~= bytes);
    lemma_packet_round_trip(back, m);
    assert(back.advance(bytes.len()) == after);
}

} // verus!
