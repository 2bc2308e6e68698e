//! Names that end in a jump.
//!
//! A name may be cut short on the wire by two bytes that point to where its
//! remaining labels stand. The lemmas here show that such a name reads as
//! the name written in full, and that a chain of jumps longer than the limit
//! is refused.

use vstd::prelude::*;
use crate::buffer::Cursor;
use crate::dns_record::parse_name;
use crate::error::DnsError;
use crate::qname::{
    is_pointer, labels_wire, pointer_target, scan_name, NameScan, MAX_JUMPS, MAX_LABEL_LEN,
};
use crate::roundtrip::{lemma_labels_wire, lemma_scan_labels, lemma_seek_within, sound_labels};

verus! {

/// Reading the written form of sound labels meets the labels and goes on
/// behind them.
pub proof fn lemma_scan_prefix(c: Cursor, at: int, hops: int, labels: Seq<Seq<u8>>)
    requires
        sound_labels(labels),
        0 <= hops <= MAX_JUMPS,
        0 <= at,
        at + labels_wire(labels).bytes.len() <= c.bytes.len(),
        c.bytes.subrange(at, at + labels_wire(labels).bytes.len()) == labels_wire(labels).bytes,
    ensures
        scan_name(c, at, hops) == scan_name(
            c,
            at + labels_wire(labels).bytes.len(),
            hops,
        ).after(labels),
    decreases labels.len(),
{
    lemma_labels_wire(labels);
    let w = labels_wire(labels).bytes;
    let window = c.bytes.subrange(at, at + w.len());
    if labels.len() == 0 {
        let here = scan_name(c, at, hops);
        assert(here.after(labels).labels =~= here.labels);
    } else {
        let l = labels[0];
        let rest = labels.drop_first();
        assert forall|k: int| 0 <= k < rest.len() implies 1 <= #[trigger] rest[k].len()
            <= MAX_LABEL_LEN by {
            assert(rest[k] == labels[k + 1]);
        }
        lemma_labels_wire(rest);
        let wr = labels_wire(rest).bytes;
        let end = at + 1 + l.len();
        assert(1 <= l.len() <= MAX_LABEL_LEN);
        assert(c.bytes[at] == window[0]);
        assert(window[0] == l.len() as u8);
        assert forall|i: int| 0 <= i < l.len() implies c.bytes[at + 1 + i] == l[i] by {
            assert(window[1 + i] == l[i]);
        }
        assert(c.bytes.subrange(at + 1, end) =~= l);
        assert forall|i: int| 0 <= i < wr.len() implies c.bytes[end + i] == wr[i] by {
            assert(window[1 + l.len() + i] == wr[i]);
        }
        assert(c.bytes.subrange(end, end + wr.len()) =~= wr);
        lemma_scan_prefix(c, end, hops, rest);
        let behind = scan_name(c, end + wr.len(), hops);
        assert(seq![l] + (rest + behind.labels) =~= labels + behind.labels);
    }
}

/// The labels of two runs of sound labels are sound.
pub proof fn lemma_sound_concat(a: Seq<Seq<u8>>, b: Seq<Seq<u8>>)
    requires
        sound_labels(a),
        sound_labels(b),
    ensures
        sound_labels(a + b),
{
    assert forall|k: int| 0 <= k < (a + b).len() implies 1 <= #[trigger] (a + b)[k].len()
        <= MAX_LABEL_LEN by {
        if k < a.len() {
            assert((a + b)[k] == a[k]);
        } else {
            assert((a + b)[k] == b[k - a.len()]);
        }
    }
}

/// A name that ends in a jump reads as the name written in full.
///
/// At the position of `c` stand the labels of `prefix` and then a jump to
/// `target`, where the store holds the labels of `suffix` and a zero byte; at
/// the position of `full` stand the labels of both and a zero byte. Reading
/// the name at `c` meets the labels of both, moves the position to just
/// behind the jump, and gives the text that reading at `full` gives.
pub proof fn lemma_compressed_name(
    c: Cursor,
    prefix: Seq<Seq<u8>>,
    target: int,
    suffix: Seq<Seq<u8>>,
    full: Cursor,
)
    requires
        sound_labels(prefix),
        sound_labels(suffix),
        0 <= target < 0x4000,
        c.holds(
            labels_wire(prefix).bytes + seq![
                (0xC0 + target / 0x100) as u8,
                (target % 0x100) as u8,
            ],
        ),
        target + labels_wire(suffix).bytes.len() + 1 <= c.bytes.len(),
        c.bytes.subrange(target, target + labels_wire(suffix).bytes.len() + 1) == labels_wire(
            suffix,
        ).bytes + seq![0u8],
        full.holds(labels_wire(prefix + suffix).bytes + seq![0u8]),
    ensures
        scan_name(c, c.pos, 0) == (NameScan {
            cursor: c.advance(labels_wire(prefix).bytes.len() + 2),
            labels: prefix + suffix,
            fault: None,
        }),
        parse_name(c).value is Ok,
        parse_name(c).value == parse_name(full).value,
{
    let p = labels_wire(prefix).bytes;
    let jump = seq![(0xC0 + target / 0x100) as u8, (target % 0x100) as u8];
    let window = c.bytes.subrange(c.pos, c.pos + (p + jump).len());
    assert forall|i: int| 0 <= i < p.len() implies c.bytes[c.pos + i] == p[i] by {
        assert(window[i] == p[i]);
    }
    assert(c.bytes.subrange(c.pos, c.pos + p.len()) =~= p);
    lemma_scan_prefix(c, c.pos, 0, prefix);
    let at = c.pos + p.len();
    assert(c.bytes[at] == window[p.len() as int]);
    assert(c.bytes[at + 1] == window[(p.len() + 1) as int]);
    assert(is_pointer(c.bytes[at]));
    assert(pointer_target(c.bytes[at], c.bytes[at + 1]) == target);
    lemma_seek_within(c, at + 2);
    let moved = c.seek(at + 2);
    lemma_scan_labels(moved, target, 1, suffix);
    assert(scan_name(c, at, 0) == (NameScan { cursor: moved, labels: suffix, fault: None }));
    lemma_sound_concat(prefix, suffix);
    lemma_scan_labels(full, full.pos, 0, prefix + suffix);
}

/// After at least one jump, a chain of jumps that reaches the limit fails.
proof fn lemma_chain_from(c: Cursor, chain: Seq<int>, k: int)
    requires
        chain.len() == MAX_JUMPS + 2,
        1 <= k <= MAX_JUMPS + 1,
        forall|i: int|
            0 <= i <= MAX_JUMPS ==> {
                &&& 0 <= #[trigger] chain[i]
                &&& chain[i] + 1 < c.bytes.len()
                &&& is_pointer(c.bytes[chain[i]])
                &&& pointer_target(c.bytes[chain[i]], c.bytes[chain[i] + 1]) == chain[i + 1]
            },
    ensures
        scan_name(c, chain[k], k) == NameScan::stop(c, Some(DnsError::CompressionLoopLimit)),
    decreases MAX_JUMPS + 1 - k,
{
    if k <= MAX_JUMPS {
        assert(0 <= chain[k]);
        lemma_chain_from(c, chain, k + 1);
    }
}

/// More jumps than the limit are refused: where each of six places in a
/// store holds a jump to the next, reading a name at the first fails with
/// `CompressionLoopLimit`, with the position just behind the first jump.
pub proof fn lemma_long_chain_fails(c: Cursor, chain: Seq<int>)
    requires
        chain.len() == MAX_JUMPS + 2,
        c.bytes.len() <= usize::MAX,
        forall|i: int|
            0 <= i <= MAX_JUMPS ==> {
                &&& 0 <= #[trigger] chain[i]
                &&& chain[i] + 1 < c.bytes.len()
                &&& is_pointer(c.bytes[chain[i]])
                &&& pointer_target(c.bytes[chain[i]], c.bytes[chain[i] + 1]) == chain[i + 1]
            },
    ensures
        scan_name(c, chain[0], 0) == NameScan::stop(
            Cursor { pos: chain[0] + 2, ..c },
            Some(DnsError::CompressionLoopLimit),
        ),
{
    assert(0 <= chain[0]);
    lemma_seek_within(c, chain[0] + 2);
    let moved = c.seek(chain[0] + 2);
    lemma_chain_from(moved, chain, 1);
}

} // verus!
