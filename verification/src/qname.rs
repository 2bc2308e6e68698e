//! Domain names on the wire.
//!
//! A name is written as its labels, each a length byte followed by that many
//! bytes, and a zero byte at the end. When read, a length byte with both high
//! bits set is instead the first of two bytes that point to where the name
//! goes on; the number of such jumps in one name is limited.

use vstd::prelude::*;
use vstd::string::*;
use vstd::utf8::*;
use crate::buffer::{
    emitted, lemma_chain_assoc, lemma_put_concat, lemma_put_pos, BytePacketBuffer, Cursor, Emit,
};
use crate::error::DnsError;

verus! {

/// The most jumps that reading one name may take.
pub const MAX_JUMPS: usize = 5;

/// The most bytes that a label may have when a name is written. This is
/// stricter than the 63 that a length byte could carry.
pub const MAX_LABEL_LEN: usize = 0x34;

/// The text that `String::from_utf8_lossy` makes of `bytes`.
pub uninterp spec fn utf8_lossy(bytes: Seq<u8>) -> Seq<char>;

/// The text that `str::to_lowercase` makes of `text`.
pub uninterp spec fn lowercase(text: Seq<char>) -> Seq<char>;

/// Bytes read as text: what they encode where they are valid UTF-8, else
/// what a lossy conversion makes of them.
pub open spec fn text_of(bytes: Seq<u8>) -> Seq<char> {
    if valid_utf8(bytes) {
        decode_utf8(bytes)
    } else {
        utf8_lossy(bytes)
    }
}

/// All bytes are below 0x80.
pub open spec fn is_ascii_bytes(bytes: Seq<u8>) -> bool {
    forall|i: int| 0 <= i < bytes.len() ==> #[trigger] bytes[i] < 0x80
}

/// An ASCII capital as its small letter, any other byte as it is.
pub open spec fn ascii_lower(b: u8) -> u8 {
    if 0x41 <= b <= 0x5A {
        (b + 0x20) as u8
    } else {
        b
    }
}

/// Each byte taken as the character with that code.
pub open spec fn ascii_text(bytes: Seq<u8>) -> Seq<char> {
    Seq::new(bytes.len(), |i: int| bytes[i] as char)
}

/// The text of one label, in lower case. An ASCII label is lowered byte by
/// byte; any other is read as text and lowered as text.
pub open spec fn label_text(label: Seq<u8>) -> Seq<char> {
    if is_ascii_bytes(label) {
        Seq::new(label.len(), |i: int| ascii_lower(label[i]) as char)
    } else {
        lowercase(text_of(label))
    }
}

/// The text of a name: the texts of its labels with a dot between each two.
pub open spec fn name_text(labels: Seq<Seq<u8>>) -> Seq<char>
    decreases labels.len(),
{
    if labels.len() == 0 {
        Seq::empty()
    } else if labels.len() == 1 {
        label_text(labels[0])
    } else {
        name_text(labels.drop_last()) + seq!['.'] + label_text(labels.last())
    }
}

/// What reading a name does: the store and position it leaves, the labels it
/// met before it ended or failed, and the failure if there was one.
pub struct NameScan {
    pub cursor: Cursor,
    pub labels: Seq<Seq<u8>>,
    pub fault: Option<DnsError>,
}

impl NameScan {
    /// A scan that stops at once with `fault`.
    pub open spec fn stop(cursor: Cursor, fault: Option<DnsError>) -> NameScan {
        NameScan { cursor, labels: Seq::empty(), fault }
    }

    /// This scan with `labels` met before it.
    pub open spec fn after(self, labels: Seq<Seq<u8>>) -> NameScan {
        NameScan { labels: labels + self.labels, ..self }
    }
}

/// A length byte that stands for a jump.
pub open spec fn is_pointer(len: u8) -> bool {
    len >= 0xC0
}

/// Where the jump made of the bytes `len`, `next` leads: the low 14 bits of
/// the two, big end first.
pub open spec fn pointer_target(len: u8, next: u8) -> int {
    (len - 0xC0) * 0x100 + next
}

/// Reads a name whose next length byte is at `at`, after `hops` jumps.
///
/// The position of `c` is moved once: by the first jump to just behind its
/// two bytes, or, in a name without a jump, at its end to just behind the
/// zero byte. Moving it behind a jump that ends the store grows the store, and
/// the jump's second byte is then read from the new, zero bytes. Every other
/// byte must lie in the store. More than `MAX_JUMPS` jumps fail.
pub open spec fn scan_name(c: Cursor, at: int, hops: int) -> NameScan
    decreases MAX_JUMPS + 1 - hops, c.bytes.len() - at,
{
    if hops > MAX_JUMPS {
        NameScan::stop(c, Some(DnsError::CompressionLoopLimit))
    } else if !(0 <= at < c.bytes.len()) {
        NameScan::stop(c, Some(DnsError::BufferBounds))
    } else if is_pointer(c.bytes[at]) {
        if hops == 0 && at + 2 > usize::MAX {
            NameScan::stop(c, Some(DnsError::BufferBounds))
        } else {
            let moved = if hops == 0 {
                c.seek(at + 2)
            } else {
                c
            };
            if at + 1 < moved.bytes.len() {
                scan_name(moved, pointer_target(c.bytes[at], moved.bytes[at + 1]), hops + 1)
            } else {
                NameScan::stop(moved, Some(DnsError::BufferBounds))
            }
        }
    } else if c.bytes[at] == 0 {
        NameScan::stop(
            if hops == 0 {
                c.seek(at + 1)
            } else {
                c
            },
            None,
        )
    } else {
        let end = at + 1 + c.bytes[at];
        if end <= c.bytes.len() {
            scan_name(c, end, hops).after(seq![c.bytes.subrange(at + 1, end)])
        } else {
            NameScan::stop(c, Some(DnsError::BufferBounds))
        }
    }
}

/// Index of the first dot in `name`, or its length if it has none.
pub open spec fn first_dot(name: Seq<u8>) -> int
    decreases name.len(),
{
    if name.len() == 0 || name[0] == 0x2E {
        0
    } else {
        1 + first_dot(name.drop_first())
    }
}

/// The labels of `name`: its parts between the dots. A name without a dot is
/// one label, and so is the empty name.
pub open spec fn split_dots(name: Seq<u8>) -> Seq<Seq<u8>>
    decreases name.len(),
{
    let k = first_dot(name);
    if 0 <= k < name.len() {
        seq![name.subrange(0, k)] + split_dots(name.subrange(k + 1, name.len() as int))
    } else {
        seq![name]
    }
}

/// One label on the wire: its length, then its bytes.
pub open spec fn label_wire(label: Seq<u8>) -> Emit {
    if label.len() > MAX_LABEL_LEN {
        Emit::failed(DnsError::LabelTooLong)
    } else {
        Emit::done(seq![label.len() as u8] + label)
    }
}

/// Labels on the wire, one after the other, up to the first that is too long.
pub open spec fn labels_wire(labels: Seq<Seq<u8>>) -> Emit
    decreases labels.len(),
{
    if labels.len() == 0 {
        Emit::done(Seq::empty())
    } else {
        label_wire(labels[0]).chain(labels_wire(labels.drop_first()))
    }
}

/// A name on the wire: its labels and a zero byte. `name` is the UTF-8 form
/// of the name's text. Nothing is compressed.
pub open spec fn qname_wire(name: Seq<u8>) -> Emit {
    labels_wire(split_dots(name)).chain(Emit::done(seq![0u8]))
}

/// Where the first dot is.
pub proof fn lemma_first_dot(name: Seq<u8>)
    ensures
        0 <= first_dot(name) <= name.len(),
        forall|i: int| 0 <= i < first_dot(name) ==> name[i] != 0x2E,
        first_dot(name) < name.len() ==> name[first_dot(name)] == 0x2E,
    decreases name.len(),
{
    if name.len() == 0 || name[0] == 0x2E {
    } else {
        lemma_first_dot(name.drop_first());
        assert forall|i: int| 0 <= i < first_dot(name) implies name[i] != 0x2E by {
            if i > 0 {
                assert(name[i] == name.drop_first()[i - 1]);
            }
        }
    }
}

/// An index with no dot before it, and a dot or the end at it, is where the
/// first dot is.
pub proof fn lemma_first_dot_at(name: Seq<u8>, k: int)
    requires
        0 <= k <= name.len(),
        forall|i: int| 0 <= i < k ==> name[i] != 0x2E,
        k < name.len() ==> name[k] == 0x2E,
    ensures
        first_dot(name) == k,
    decreases name.len(),
{
    if k > 0 {
        let rest = name.drop_first();
        assert forall|i: int| 0 <= i < k - 1 implies rest[i] != 0x2E by {
            assert(rest[i] == name[i + 1]);
        }
        lemma_first_dot_at(rest, k - 1);
    }
}

/// ASCII bytes are valid UTF-8 and encode the characters with their codes.
pub proof fn lemma_ascii_is_utf8(bytes: Seq<u8>)
    requires
        is_ascii_bytes(bytes),
    ensures
        valid_utf8(bytes),
        decode_utf8(bytes) == ascii_text(bytes),
        encode_utf8(ascii_text(bytes)) == bytes,
{
    let chars = ascii_text(bytes);
    assert(is_ascii_chars(chars)) by {
        assert forall|i: int| 0 <= i < chars.len() implies '\0' <= #[trigger] chars[i]
            <= '\u{7f}' by {
            assert(bytes[i] < 0x80);
        }
    }
    is_ascii_chars_encode_utf8(chars);
    assert(encode_utf8(chars) =~= bytes) by {
        assert forall|i: int| 0 <= i < bytes.len() implies encode_utf8(chars)[i] == bytes[i] by {
            assert(bytes[i] < 0x80);
            assert(chars[i] as u8 == encode_utf8(chars)[i]);
        }
    }
    encode_utf8_valid_utf8(chars);
    encode_utf8_decode_utf8(chars);
}

/// Calls `String::from_utf8_lossy`. The result is named by `utf8_lossy`;
/// for valid UTF-8, which that function hands back as it is, it is the text
/// that the bytes encode.
#[verifier::external_body]
fn lossy_text(bytes: &[u8]) -> (r: String)
    ensures
        r@ == utf8_lossy(bytes@),
        valid_utf8(bytes@) ==> r@ == decode_utf8(bytes@),
{
    String::from_utf8_lossy(bytes).into_owned()
}

/// Calls `str::to_lowercase`. The result is named by `lowercase`.
#[verifier::external_body]
fn lower_text(text: &str) -> (r: String)
    ensures
        r@ == lowercase(text@),
{
    text.to_lowercase()
}

/// Bytes as text; bytes that are not valid UTF-8 are converted lossily.
pub fn bytes_to_text(bytes: &[u8]) -> (r: String)
    ensures
        r@ == text_of(bytes@),
{
    lossy_text(bytes)
}

/// The text of one label, in lower case.
pub fn label_to_text(label: &[u8]) -> (r: String)
    ensures
        r@ == label_text(label@),
{
    let n: usize = label.len();
    let mut lowered: Vec<u8> = Vec::new();
    let mut i: usize = 0;
    while i < n
        invariant
            i <= n,
            n == label@.len(),
            lowered@.len() == i,
            forall|j: int| 0 <= j < i ==> #[trigger] label@[j] < 0x80,
            forall|j: int| 0 <= j < i ==> #[trigger] lowered@[j] == ascii_lower(label@[j]),
        decreases n - i,
    {
        let b: u8 = label[i];
        if b >= 0x80 {
            assert(!is_ascii_bytes(label@)) by {
                assert(label@[i as int] >= 0x80);
            }
            let text = bytes_to_text(label);
            return lower_text(text.as_str());
        }
        let low: u8 = if 0x41 <= b && b <= 0x5A {
            b + 0x20
        } else {
            b
        };
        lowered.push(low);
        i += 1;
    }
    proof {
        assert(is_ascii_bytes(label@));
        assert(is_ascii_bytes(lowered@));
        lemma_ascii_is_utf8(lowered@);
        assert(ascii_text(lowered@) =~= label_text(label@));
    }
    lossy_text(lowered.as_slice())
}

impl BytePacketBuffer {
    /// Reads the name at the position and appends its text to `outstr`.
    ///
    /// The name is read as `scan_name` says. `outstr` gets the text of the
    /// labels that were met, also where the reading fails.
    pub fn read_qname(&mut self, outstr: &mut String) -> (r: Result<(), DnsError>)
        ensures
            final(self)@ == scan_name(old(self)@, old(self)@.pos, 0).cursor,
            final(outstr)@ == old(outstr)@ + name_text(
                scan_name(old(self)@, old(self)@.pos, 0).labels,
            ),
            r == match scan_name(old(self)@, old(self)@.pos, 0).fault {
                Some(e) => Err::<(), DnsError>(e),
                None => Ok(()),
            },
    {
        let mut pos: usize = self.pos;
        let mut jumped: bool = false;
        let mut first: bool = true;
        let mut jumps_performed: usize = 0;
        let ghost whole = scan_name(old(self)@, old(self)@.pos, 0);
        let ghost mut labels: Seq<Seq<u8>> = Seq::empty();
        proof {
            assert(whole.after(labels).labels =~= whole.labels);
            assert(old(outstr)@ + name_text(labels) =~= old(outstr)@);
        }
        loop
            invariant_except_break
                jumps_performed <= MAX_JUMPS + 1,
                jumped == (jumps_performed > 0),
                whole == scan_name(self@, pos as int, jumps_performed as int).after(labels),
            invariant
                whole == scan_name(old(self)@, old(self)@.pos, 0),
                first == (labels.len() == 0),
                outstr@ == old(outstr)@ + name_text(labels),
            ensures
                whole.fault is None,
                whole.labels == labels,
                whole.cursor == self@,
            decreases MAX_JUMPS + 1 - jumps_performed, self.buf@.len() - pos,
        {
            let ghost here = scan_name(self@, pos as int, jumps_performed as int);
            proof {
                assert(here.after(labels).labels =~= labels + here.labels);
                if here.labels.len() == 0 {
                    assert(labels + here.labels =~= labels);
                }
            }
            if jumps_performed > MAX_JUMPS {
                return Err(DnsError::CompressionLoopLimit);
            }
            let len: u8 = self.get(pos)?;
            assert(pos < self.buf.len());
            assert(((len & 0xC0) == 0xC0) == is_pointer(len)) by (bit_vector);
            if (len & 0xC0) == 0xC0 {
                if !jumped {
                    match pos.checked_add(2) {
                        Some(behind) => {
                            self.seek(behind)?;
                        },
                        None => {
                            return Err(DnsError::BufferBounds);
                        },
                    }
                }
                let b2: u8 = self.get(pos + 1)?;
                let offset: u16 = (((len as u16) ^ 0xC0) << 8) | (b2 as u16);
                assert(offset == pointer_target(len, b2)) by (bit_vector)
                    requires
                        len >= 0xC0,
                        offset == (((len as u16) ^ 0xC0) << 8) | (b2 as u16),
                ;
                pos = offset as usize;
                jumped = true;
                jumps_performed += 1;
                continue ;
            }
            pos += 1;
            if len == 0 {
                if !jumped {
                    self.seek(pos)?;
                }
                break ;
            }
            let label = self.get_range(pos, len as usize)?;
            let text = label_to_text(label);
            proof {
                let next = scan_name(self@, pos + len, jumps_performed as int);
                assert(here == next.after(seq![label@]));
                assert(next.after(seq![label@]).after(labels).labels =~= next.after(
                    labels.push(label@),
                ).labels);
                assert(labels.push(label@).drop_last() =~= labels);
                reveal_strlit(".");
                assert("."@ =~= seq!['.']);
                if labels.len() == 0 {
                    assert(old(outstr)@ + name_text(labels) + label_text(label@) =~= old(outstr)@
                        + name_text(labels.push(label@)));
                } else {
                    assert(old(outstr)@ + name_text(labels) + seq!['.'] + label_text(label@)
                        =~= old(outstr)@ + name_text(labels.push(label@)));
                }
                labels = labels.push(label@);
            }
            if !first {
                outstr.append(".");
            }
            outstr.append(text.as_str());
            first = false;
            pos += len as usize;
        }
        Ok(())
    }

    /// Writes `qname` as `qname_wire` says: label by label, uncompressed. A
    /// label of more than `MAX_LABEL_LEN` bytes fails; the labels before it
    /// have been written then.
    pub fn write_qname(&mut self, qname: &str) -> (r: Result<(), DnsError>)
        ensures
            emitted(old(self)@, qname_wire(qname.spec_bytes()), final(self)@, r),
    {
        let bytes = qname.as_bytes();
        let n: usize = bytes.len();
        let ghost name = bytes@;
        let ghost whole = qname_wire(name);
        let ghost end_mark = Emit::done(seq![0u8]);
        let ghost mut written: Seq<u8> = Seq::empty();
        let mut start: usize = 0;
        proof {
            assert(name.subrange(0, n as int) =~= name);
            assert(Emit::done(written).chain(whole).bytes =~= whole.bytes);
        }
        loop
            invariant_except_break
                start <= n,
                whole == Emit::done(written).chain(
                    labels_wire(split_dots(name.subrange(start as int, n as int))).chain(end_mark),
                ),
            invariant
                n == bytes@.len(),
                name == bytes@,
                name == qname.spec_bytes(),
                whole == qname_wire(name),
                end_mark == Emit::done(seq![0u8]),
                self@ == old(self)@.put(written),
                written.len() <= old(self)@.room(),
            ensures
                whole == Emit::done(written).chain(end_mark),
            decreases n - start,
        {
            let mut end: usize = start;
            while end < n && bytes[end] != 0x2E
                invariant
                    start <= end <= n,
                    n == bytes@.len(),
                    forall|i: int| start <= i < end ==> bytes@[i] != 0x2E,
                decreases n - end,
            {
                end += 1;
            }
            let ghost rest = name.subrange(start as int, n as int);
            let ghost label = name.subrange(start as int, end as int);
            let ghost tail = if end < n {
                split_dots(name.subrange(end + 1, n as int))
            } else {
                Seq::<Seq<u8>>::empty()
            };
            let ghost after = labels_wire(tail).chain(end_mark);
            proof {
                lemma_first_dot_at(rest, end - start);
                assert(rest.subrange(0, end - start) =~= label);
                if end < n {
                    assert(rest.subrange(end - start + 1, rest.len() as int) =~= name.subrange(
                        end + 1,
                        n as int,
                    ));
                } else {
                    assert(rest =~= label);
                }
                assert(split_dots(rest) == seq![label] + tail);
                assert((seq![label] + tail).drop_first() =~= tail);
                assert(labels_wire(split_dots(rest)) == label_wire(label).chain(labels_wire(tail)));
                lemma_chain_assoc(label_wire(label), labels_wire(tail), end_mark);
                lemma_put_pos(old(self)@, written);
            }
            let len: usize = end - start;
            if len > MAX_LABEL_LEN {
                proof {
                    assert(whole.bytes =~= written);
                }
                return Err(DnsError::LabelTooLong);
            }
            let ghost piece = seq![len as u8] + label;
            proof {
                lemma_chain_assoc(Emit::done(written), Emit::done(piece), after);
                assert(Emit::done(written).chain(Emit::done(piece)) == Emit::done(written + piece));
                assert(whole == Emit::done(written + piece).chain(after));
                assert(whole.bytes.len() >= written.len() + piece.len());
                lemma_put_concat(old(self)@, written, seq![len as u8]);
                lemma_put_concat(old(self)@, written + seq![len as u8], label);
                assert((written + seq![len as u8]) + label =~= written + piece);
                lemma_put_pos(old(self)@, written + seq![len as u8]);
            }
            self.write_u8(len as u8)?;
            self.write_bytes(vstd::slice::slice_subrange(bytes, start, end))?;
            proof {
                written = written + piece;
            }
            if end == n {
                proof {
                    assert(after.bytes =~= end_mark.bytes);
                }
                break ;
            }
            start = end + 1;
        }
        proof {
            assert(whole.bytes =~= written + seq![0u8]);
            lemma_put_concat(old(self)@, written, seq![0u8]);
            lemma_put_pos(old(self)@, written);
        }
        self.write_u8(0)?;
        Ok(())
    }
}

} // verus!
