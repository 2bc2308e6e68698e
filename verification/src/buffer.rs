//! A growable byte store with a read/write position.
//!
//! All access to the wire format goes through `BytePacketBuffer`. Reads and
//! in-place overwrites are bounds-checked and never grow the store; writes and
//! cursor moves grow it on demand, filling new room with zero bytes.

use vstd::prelude::*;
use crate::error::DnsError;

verus! {

/// Length of a fresh or cleared store.
pub const DEFAULT_SIZE: usize = 512;

/// A byte store and a zero-based position in it.
#[derive(Debug)]
pub struct BytePacketBuffer {
    pub buf: Vec<u8>,
    pub pos: usize,
}

/// The mathematical content of a `BytePacketBuffer`.
pub struct Cursor {
    pub bytes: Seq<u8>,
    pub pos: int,
}

/// A cursor after an operation, together with what the operation returned.
pub struct Step<T> {
    pub cursor: Cursor,
    pub value: Result<T, DnsError>,
}

/// What writing a value sends to a store: the bytes, in order, and the
/// failure, if any, that ends the writing after them.
pub struct Emit {
    pub bytes: Seq<u8>,
    pub fault: Option<DnsError>,
}

impl Emit {
    /// Bytes that are written without a failure.
    pub open spec fn done(bytes: Seq<u8>) -> Emit {
        Emit { bytes, fault: None }
    }

    /// A failure before any byte.
    pub open spec fn failed(e: DnsError) -> Emit {
        Emit { bytes: Seq::empty(), fault: Some(e) }
    }

    /// What the writing returns in the end.
    pub open spec fn result(self) -> Result<(), DnsError> {
        match self.fault {
            Some(e) => Err(e),
            None => Ok(()),
        }
    }

    /// This emission, and `next` after it unless this one failed.
    pub open spec fn chain(self, next: Emit) -> Emit {
        if self.fault is Some {
            self
        } else {
            Emit { bytes: self.bytes + next.bytes, fault: next.fault }
        }
    }
}

impl<T> Step<T> {
    /// The failure of this step, as the failure of a step that would have
    /// returned something else.
    pub open spec fn fail<U>(self) -> Step<U> {
        Step { cursor: self.cursor, value: Err(self.value->Err_0) }
    }
}

/// How a store that was `before` stands after `e` was written to it, with
/// `r` returned: as `emit` says, if there was room for the bytes of `e`. If
/// there was not, the writing failed at the last position that a machine
/// word can hold; what was written on the way there is not said.
pub open spec fn emitted(before: Cursor, e: Emit, after: Cursor, r: Result<(), DnsError>) -> bool {
    if e.bytes.len() <= before.room() {
        (Step { cursor: after, value: r }) == before.emit(e)
    } else {
        r == Err::<(), DnsError>(DnsError::BufferBounds) && after.pos == usize::MAX
    }
}

impl View for BytePacketBuffer {
    type V = Cursor;

    open spec fn view(&self) -> Cursor {
        Cursor { bytes: self.buf@, pos: self.pos as int }
    }
}

/// `n` zero bytes.
pub open spec fn zeros(n: int) -> Seq<u8> {
    Seq::new(if n < 0 { 0nat } else { n as nat }, |i: int| 0u8)
}

/// Length of a store of `len` bytes after room for `need` bytes was asked for:
/// unchanged if it is long enough, else twice the length (as far as a length
/// can be represented), or `need` if that is more.
pub open spec fn grown_len(len: int, need: int) -> int {
    if need <= len {
        len
    } else {
        let doubled = if 2 * len > usize::MAX { usize::MAX as int } else { 2 * len };
        if need > doubled { need } else { doubled }
    }
}

/// A store after room for `need` bytes was asked for: the old bytes, followed
/// by zeros up to the new length.
pub open spec fn grown(bytes: Seq<u8>, need: int) -> Seq<u8> {
    bytes + zeros(grown_len(bytes.len() as int, need) - bytes.len())
}

/// The 16-bit value whose big-endian bytes are `hi`, `lo`.
pub open spec fn be16(hi: u8, lo: u8) -> u16 {
    (hi as int * 0x100 + lo as int) as u16
}

/// The two big-endian bytes of `v`.
pub open spec fn u16_bytes(v: u16) -> Seq<u8> {
    seq![(v / 0x100) as u8, (v % 0x100) as u8]
}

/// The four big-endian bytes of `v`.
pub open spec fn u32_bytes(v: u32) -> Seq<u8> {
    seq![
        (v / 0x100_0000) as u8,
        ((v / 0x1_0000) % 0x100) as u8,
        ((v / 0x100) % 0x100) as u8,
        (v % 0x100) as u8,
    ]
}

impl Cursor {
    /// A fresh store: `DEFAULT_SIZE` zero bytes, position 0.
    pub open spec fn fresh() -> Cursor {
        Cursor { bytes: zeros(DEFAULT_SIZE as int), pos: 0 }
    }

    /// Moves the position to `pos`, growing the store to reach it.
    pub open spec fn seek(self, pos: int) -> Cursor {
        Cursor { bytes: grown(self.bytes, pos), pos }
    }

    /// Advances the position by `steps`, growing the store to reach it;
    /// fails, changing nothing, if no position that far on can be represented.
    pub open spec fn step(self, steps: int) -> Step<()> {
        if self.pos + steps <= usize::MAX {
            Step { cursor: self.seek(self.pos + steps), value: Ok(()) }
        } else {
            Step { cursor: self, value: Err(DnsError::BufferBounds) }
        }
    }

    /// The byte at `pos`, if the store has one there.
    pub open spec fn get(self, pos: int) -> Result<u8, DnsError> {
        if 0 <= pos < self.bytes.len() {
            Ok(self.bytes[pos])
        } else {
            Err(DnsError::BufferBounds)
        }
    }

    /// The `len` bytes from `start`, if the store has them all.
    pub open spec fn get_range(self, start: int, len: int) -> Result<Seq<u8>, DnsError> {
        if 0 <= start && 0 <= len && start + len <= self.bytes.len() {
            Ok(self.bytes.subrange(start, start + len))
        } else {
            Err(DnsError::BufferBounds)
        }
    }

    /// Reads the byte at the position and moves past it; fails, leaving the
    /// position, if the position is at or beyond the end of the store.
    pub open spec fn read(self) -> Step<u8> {
        if 0 <= self.pos < self.bytes.len() {
            Step { cursor: Cursor { pos: self.pos + 1, ..self }, value: Ok(self.bytes[self.pos]) }
        } else {
            Step { cursor: self, value: Err(DnsError::BufferBounds) }
        }
    }

    /// Reads two bytes as a big-endian value. A failing read leaves the
    /// position after the bytes that were read before it.
    pub open spec fn read_u16(self) -> Step<u16> {
        let hi = self.read();
        let lo = hi.cursor.read();
        match (hi.value, lo.value) {
            (Ok(h), Ok(l)) => Step { cursor: lo.cursor, value: Ok(be16(h, l)) },
            (Ok(_), Err(e)) => Step { cursor: lo.cursor, value: Err(e) },
            (Err(e), _) => Step { cursor: hi.cursor, value: Err(e) },
        }
    }

    /// Reads four bytes as a big-endian value. A failing read leaves the
    /// position after the bytes that were read before it.
    pub open spec fn read_u32(self) -> Step<u32> {
        let hi = self.read_u16();
        let lo = hi.cursor.read_u16();
        match (hi.value, lo.value) {
            (Ok(h), Ok(l)) => Step {
                cursor: lo.cursor,
                value: Ok((h as int * 0x1_0000 + l as int) as u32),
            },
            (Ok(_), Err(e)) => Step { cursor: lo.cursor, value: Err(e) },
            (Err(e), _) => Step { cursor: hi.cursor, value: Err(e) },
        }
    }

    /// Writes `val` at the position, growing the store to hold it, and moves
    /// past it.
    pub open spec fn write(self, val: u8) -> Cursor {
        Cursor { bytes: grown(self.bytes, self.pos + 1).update(self.pos, val), pos: self.pos + 1 }
    }

    /// Writes the bytes of `data` one after the other.
    pub open spec fn put(self, data: Seq<u8>) -> Cursor
        decreases data.len(),
    {
        if data.len() == 0 {
            self
        } else {
            self.put(data.drop_last()).write(data.last())
        }
    }

    /// How many bytes can be written before the position would pass the last
    /// one that a machine word can hold.
    pub open spec fn room(self) -> int {
        usize::MAX - self.pos
    }

    /// Writes the bytes of `data` as far as there is room for them; fails if
    /// there is not room for all.
    pub open spec fn put_within(self, data: Seq<u8>) -> Step<()> {
        if data.len() <= self.room() {
            Step { cursor: self.put(data), value: Ok(()) }
        } else {
            Step { cursor: self.put(data.take(self.room())), value: Err(DnsError::BufferBounds) }
        }
    }

    /// Writes the bytes of `e` and returns what `e` ends in.
    pub open spec fn emit(self, e: Emit) -> Step<()> {
        Step { cursor: self.put(e.bytes), value: e.result() }
    }

    /// Overwrites the byte at `pos`; fails, changing nothing, if the store has
    /// no byte there.
    pub open spec fn set(self, pos: int, val: u8) -> Step<()> {
        if 0 <= pos < self.bytes.len() {
            Step { cursor: Cursor { bytes: self.bytes.update(pos, val), ..self }, value: Ok(()) }
        } else {
            Step { cursor: self, value: Err(DnsError::BufferBounds) }
        }
    }

    /// Overwrites the two bytes at `pos` with the big-endian bytes of `val`.
    /// If only the first byte lies in the store, it is overwritten before the
    /// failure is reported.
    pub open spec fn set_u16(self, pos: int, val: u16) -> Step<()> {
        let hi = self.set(pos, u16_bytes(val)[0]);
        if hi.value is Ok {
            hi.cursor.set(pos + 1, u16_bytes(val)[1])
        } else {
            hi
        }
    }
}

impl BytePacketBuffer {
    /// Makes the store `DEFAULT_SIZE` zero bytes again and the position 0.
    pub fn reset(&mut self) -> (r: Result<(), DnsError>)
        ensures
            r is Ok,
            final(self)@ == Cursor::fresh(),
    {
        self.clear();
        Ok(())
    }

    /// A store of `DEFAULT_SIZE` zero bytes, at position 0.
    pub fn new() -> (r: BytePacketBuffer)
        ensures
            r@ == Cursor::fresh(),
    {
        let buf: Vec<u8> = vec![0u8; 512];
        assert(buf@ =~= zeros(DEFAULT_SIZE as int));
        BytePacketBuffer { buf, pos: 0 }
    }

    /// The position.
    pub fn pos(&self) -> (r: usize)
        ensures
            r == self@.pos,
    {
        self.pos
    }

    /// Advances the position by `steps`, growing the store to reach it.
    pub fn step(&mut self, steps: usize) -> (r: Result<(), DnsError>)
        ensures
            (Step { cursor: final(self)@, value: r }) == old(self)@.step(steps as int),
    {
        match self.pos.checked_add(steps) {
            Some(pos) => {
                self.pos = pos;
                self.ensure_capacity(self.pos);
                Ok(())
            },
            None => Err(DnsError::BufferBounds),
        }
    }

    /// Moves the position to `pos`, growing the store to reach it.
    pub fn seek(&mut self, pos: usize) -> (r: Result<(), DnsError>)
        ensures
            r is Ok,
            final(self)@ == old(self)@.seek(pos as int),
    {
        self.pos = pos;
        self.ensure_capacity(self.pos);
        Ok(())
    }

    /// Grows the store, if it is shorter than `capacity`, to twice its length
    /// or to `capacity`, whichever is more. New bytes are zero.
    fn ensure_capacity(&mut self, capacity: usize)
        ensures
            final(self).buf@ == grown(old(self).buf@, capacity as int),
            final(self).pos == old(self).pos,
    {
        if capacity > self.buf.len() {
            let len: usize = self.buf.len();
            let doubled: usize = len.saturating_add(len);
            let new_capacity: usize = if capacity > doubled { capacity } else { doubled };
            self.buf.resize(new_capacity, 0u8);
            assert(self.buf@ =~= grown(old(self).buf@, capacity as int));
        } else {
            assert(self.buf@ =~= grown(old(self).buf@, capacity as int));
        }
    }

    /// Reads the byte at the position and moves past it.
    pub fn read(&mut self) -> (r: Result<u8, DnsError>)
        ensures
            (Step { cursor: final(self)@, value: r }) == old(self)@.read(),
    {
        if self.pos >= self.buf.len() {
            return Err(DnsError::BufferBounds);
        }
        let res: u8 = self.buf[self.pos];
        self.pos += 1;
        Ok(res)
    }

    /// The byte at `pos`. The position is not moved.
    pub fn get(&self, pos: usize) -> (r: Result<u8, DnsError>)
        ensures
            r == self@.get(pos as int),
    {
        if pos >= self.buf.len() {
            return Err(DnsError::BufferBounds);
        }
        Ok(self.buf[pos])
    }

    /// The `len` bytes from `start`. The position is not moved.
    pub fn get_range(&self, start: usize, len: usize) -> (r: Result<&[u8], DnsError>)
        ensures
            match r {
                Ok(s) => Ok::<Seq<u8>, DnsError>(s@),
                Err(e) => Err(e),
            } == self@.get_range(start as int, len as int),
    {
        let size: usize = self.buf.len();
        let end: usize = match start.checked_add(len) {
            Some(end) => end,
            None => { return Err(DnsError::BufferBounds); },
        };
        if end > size {
            return Err(DnsError::BufferBounds);
        }
        Ok(vstd::slice::slice_subrange(self.buf.as_slice(), start, end))
    }

    /// Reads two bytes as a big-endian value.
    pub fn read_u16(&mut self) -> (r: Result<u16, DnsError>)
        ensures
            (Step { cursor: final(self)@, value: r }) == old(self)@.read_u16(),
    {
        let hi: u8 = self.read()?;
        let lo: u8 = self.read()?;
        let res: u16 = ((hi as u16) << 8) | (lo as u16);
        assert(res == be16(hi, lo)) by (bit_vector)
            requires
                res == ((hi as u16) << 8) | (lo as u16),
        ;
        Ok(res)
    }

    /// Reads four bytes as a big-endian value.
    pub fn read_u32(&mut self) -> (r: Result<u32, DnsError>)
        ensures
            (Step { cursor: final(self)@, value: r }) == old(self)@.read_u32(),
    {
        let hi: u16 = self.read_u16()?;
        let lo: u16 = self.read_u16()?;
        let res: u32 = ((hi as u32) << 16) | (lo as u32);
        assert(res == (hi as int * 0x1_0000 + lo as int) as u32) by (bit_vector)
            requires
                res == ((hi as u32) << 16) | (lo as u32),
        ;
        Ok(res)
    }

    /// Writes `val` at the position, growing the store to hold it, and moves
    /// past it.
    pub fn write(&mut self, val: u8) -> (r: Result<(), DnsError>)
        ensures
            (Step { cursor: final(self)@, value: r }) == old(self)@.put_within(seq![val]),
            emitted(old(self)@, Emit::done(seq![val]), final(self)@, r),
    {
        proof {
            lemma_put_one(old(self)@, val);
            assert(seq![val].take(0) =~= Seq::<u8>::empty());
        }
        if self.pos == usize::MAX {
            return Err(DnsError::BufferBounds);
        }
        self.ensure_capacity(self.pos + 1);
        self.buf.set(self.pos, val);
        self.pos += 1;
        Ok(())
    }

    /// Writes one byte; the same as `write`.
    pub fn write_u8(&mut self, val: u8) -> (r: Result<(), DnsError>)
        ensures
            (Step { cursor: final(self)@, value: r }) == old(self)@.put_within(seq![val]),
            emitted(old(self)@, Emit::done(seq![val]), final(self)@, r),
    {
        self.write(val)?;
        Ok(())
    }

    /// Writes the two big-endian bytes of `val`.
    pub fn write_u16(&mut self, val: u16) -> (r: Result<(), DnsError>)
        ensures
            (Step { cursor: final(self)@, value: r }) == old(self)@.put_within(u16_bytes(val)),
            emitted(old(self)@, Emit::done(u16_bytes(val)), final(self)@, r),
    {
        let hi: u8 = #[verifier::truncate] ((val >> 8) as u8);
        let lo: u8 = #[verifier::truncate] ((val & 0xFF) as u8);
        proof {
            assert(hi == (val / 0x100) as u8 && lo == (val % 0x100) as u8) by (bit_vector)
                requires
                    hi == (val >> 8) as u8,
                    lo == (val & 0xFF) as u8,
            ;
            lemma_put_within_push(old(self)@, seq![hi], lo);
            assert(seq![hi].push(lo) =~= u16_bytes(val));
        }
        self.write(hi)?;
        self.write(lo)?;
        Ok(())
    }

    /// Writes the four big-endian bytes of `val`.
    pub fn write_u32(&mut self, val: u32) -> (r: Result<(), DnsError>)
        ensures
            (Step { cursor: final(self)@, value: r }) == old(self)@.put_within(u32_bytes(val)),
            emitted(old(self)@, Emit::done(u32_bytes(val)), final(self)@, r),
    {
        let b0: u8 = #[verifier::truncate] (((val >> 24) & 0xFF) as u8);
        let b1: u8 = #[verifier::truncate] (((val >> 16) & 0xFF) as u8);
        let b2: u8 = #[verifier::truncate] (((val >> 8) & 0xFF) as u8);
        let b3: u8 = #[verifier::truncate] ((val & 0xFF) as u8);
        proof {
            assert(b0 == (val / 0x100_0000) as u8 && b1 == ((val / 0x1_0000) % 0x100) as u8 && b2 == ((
            val / 0x100) % 0x100) as u8 && b3 == (val % 0x100) as u8) by (bit_vector)
                requires
                    b0 == ((val >> 24) & 0xFF) as u8,
                    b1 == ((val >> 16) & 0xFF) as u8,
                    b2 == ((val >> 8) & 0xFF) as u8,
                    b3 == (val & 0xFF) as u8,
            ;
            lemma_put_within_push(old(self)@, seq![b0], b1);
            lemma_put_within_push(old(self)@, seq![b0, b1], b2);
            lemma_put_within_push(old(self)@, seq![b0, b1, b2], b3);
            assert(seq![b0].push(b1) =~= seq![b0, b1]);
            assert(seq![b0, b1].push(b2) =~= seq![b0, b1, b2]);
            assert(seq![b0, b1, b2].push(b3) =~= u32_bytes(val));
        }
        self.write(b0)?;
        self.write(b1)?;
        self.write(b2)?;
        self.write(b3)?;
        Ok(())
    }

    /// Writes the bytes of `data` one after the other.
    pub fn write_bytes(&mut self, data: &[u8]) -> (r: Result<(), DnsError>)
        ensures
            (Step { cursor: final(self)@, value: r }) == old(self)@.put_within(data@),
            emitted(old(self)@, Emit::done(data@), final(self)@, r),
    {
        let n: usize = data.len();
        let mut i: usize = 0;
        while i < n
            invariant
                i <= n,
                n == data@.len(),
                i <= old(self)@.room(),
                self@ == old(self)@.put(data@.subrange(0, i as int)),
            decreases n - i,
        {
            proof {
                lemma_put_push(old(self)@, data@.subrange(0, i as int), data@[i as int]);
                lemma_put_pos(old(self)@, data@.subrange(0, i as int));
                lemma_put_one(self@, data@[i as int]);
                assert(seq![data@[i as int]].take(0) =~= Seq::<u8>::empty());
                assert(data@.subrange(0, i as int).push(data@[i as int]) =~= data@.subrange(
                    0,
                    i + 1,
                ));
                assert(data@.take(i as int) =~= data@.subrange(0, i as int));
            }
            self.write(data[i])?;
            i += 1;
        }
        assert(data@.subrange(0, n as int) =~= data@);
        Ok(())
    }

    /// Overwrites the byte at `pos`. The store is not grown and the position
    /// is not moved.
    pub fn set(&mut self, pos: usize, val: u8) -> (r: Result<(), DnsError>)
        ensures
            (Step { cursor: final(self)@, value: r }) == old(self)@.set(pos as int, val),
    {
        if pos >= self.buf.len() {
            return Err(DnsError::BufferBounds);
        }
        self.buf.set(pos, val);
        Ok(())
    }

    /// Overwrites the two bytes at `pos` with the big-endian bytes of `val`.
    /// The store is not grown and the position is not moved.
    pub fn set_u16(&mut self, pos: usize, val: u16) -> (r: Result<(), DnsError>)
        ensures
            (Step { cursor: final(self)@, value: r }) == old(self)@.set_u16(pos as int, val),
    {
        let hi: u8 = #[verifier::truncate] ((val >> 8) as u8);
        let lo: u8 = #[verifier::truncate] ((val & 0xFF) as u8);
        assert(hi == (val / 0x100) as u8 && lo == (val % 0x100) as u8) by (bit_vector)
            requires
                hi == (val >> 8) as u8,
                lo == (val & 0xFF) as u8,
        ;
        self.set(pos, hi)?;
        assert(pos < self.buf.len());
        self.set(pos + 1, lo)?;
        Ok(())
    }

    /// Makes the store `DEFAULT_SIZE` zero bytes again and the position 0.
    pub fn clear(&mut self)
        ensures
            final(self)@ == Cursor::fresh(),
    {
        self.buf.clear();
        self.buf.resize(512, 0u8);
        self.pos = 0;
        assert(self.buf@ =~= zeros(DEFAULT_SIZE as int));
    }
}

/// What growing does: the store becomes at least as long as it was and as
/// was asked for, keeps its bytes, and has zeros behind them.
pub proof fn lemma_grown(bytes: Seq<u8>, need: int)
    ensures
        grown(bytes, need).len() == grown_len(bytes.len() as int, need),
        grown(bytes, need).len() >= bytes.len(),
        grown(bytes, need).len() >= need,
        need <= bytes.len() ==> grown(bytes, need) == bytes,
        forall|i: int| 0 <= i < bytes.len() ==> #[trigger] grown(bytes, need)[i] == bytes[i],
        forall|i: int|
            bytes.len() <= i < grown(bytes, need).len() ==> #[trigger] grown(bytes, need)[i] == 0u8,
{
    if need <= bytes.len() {
        assert(grown(bytes, need) =~= bytes);
    }
}

/// Writing one byte through `put` is `write`.
pub proof fn lemma_put_one(c: Cursor, b: u8)
    ensures
        c.put(seq![b]) == c.write(b),
{
    let data = seq![b];
    assert(data.drop_last() =~= Seq::<u8>::empty());
    assert(c.put(data.drop_last()) == c);
}

/// `put` of a sequence and one more byte is `put` of the sequence and then
/// `write` of the byte.
pub proof fn lemma_put_push(c: Cursor, data: Seq<u8>, b: u8)
    ensures
        c.put(data.push(b)) == c.put(data).write(b),
{
    assert(data.push(b).drop_last() =~= data);
}

/// `put` moves the position by the number of bytes.
pub proof fn lemma_put_pos(c: Cursor, data: Seq<u8>)
    ensures
        c.put(data).pos == c.pos + data.len(),
    decreases data.len(),
{
    if data.len() > 0 {
        lemma_put_pos(c, data.drop_last());
    }
}

/// `put` of two sequences joined is `put` of the first and then `put` of the
/// second.
pub proof fn lemma_put_concat(c: Cursor, a: Seq<u8>, b: Seq<u8>)
    ensures
        c.put(a + b) == c.put(a).put(b),
    decreases b.len(),
{
    if b.len() == 0 {
        assert(a + b =~= a);
    } else {
        lemma_put_concat(c, a, b.drop_last());
        assert((a + b).drop_last() =~= a + b.drop_last());
        assert((a + b).last() == b.last());
    }
}

/// Writing within the room byte by byte: a sequence and one more byte are
/// written as the sequence is and then, if that went well, the byte.
pub proof fn lemma_put_within_push(c: Cursor, data: Seq<u8>, b: u8)
    requires
        c.pos <= usize::MAX,
    ensures
        c.put_within(data.push(b)) == if c.put_within(data).value is Ok {
            c.put_within(data).cursor.put_within(seq![b])
        } else {
            c.put_within(data)
        },
{
    lemma_put_pos(c, data);
    lemma_put_push(c, data, b);
    lemma_put_one(c.put(data), b);
    let room = c.room();
    if data.len() < room {
    } else if data.len() == room {
        assert(data.push(b).take(room) =~= data);
        assert(seq![b].take(0) =~= Seq::<u8>::empty());
    } else {
        assert(data.push(b).take(room) =~= data.take(room));
    }
}

/// Writing within the room piece by piece: the first `k` bytes of `data` are
/// written as the first `j` are and then, if that went well, the bytes from
/// `j` to `k`.
pub proof fn lemma_put_within_split(c: Cursor, data: Seq<u8>, j: int, k: int)
    requires
        0 <= c.pos <= usize::MAX,
        0 <= j <= k <= data.len(),
    ensures
        c.put_within(data.subrange(0, k)) == if c.put_within(data.subrange(0, j)).value is Ok {
            c.put_within(data.subrange(0, j)).cursor.put_within(data.subrange(j, k))
        } else {
            c.put_within(data.subrange(0, j))
        },
{
    let room = c.room();
    let a = data.subrange(0, j);
    let b = data.subrange(j, k);
    let ab = data.subrange(0, k);
    assert(ab =~= a + b);
    lemma_put_pos(c, a);
    if j <= room {
        if k <= room {
            lemma_put_concat(c, a, b);
        } else {
            assert(ab.take(room) =~= a + b.take(room - j));
            lemma_put_concat(c, a, b.take(room - j));
        }
    } else {
        assert(ab.take(room) =~= a.take(room));
    }
}

/// Writing in two calls is writing the chain: if the first call fails, the
/// chain has failed in the same way, and if it does not, the second call ends
/// the chain.
pub proof fn lemma_emitted_chain(c: Cursor, a: Emit, b: Emit)
    requires
        c.pos <= usize::MAX,
    ensures
        forall|c1: Cursor, r: Result<(), DnsError>|
            #[trigger] emitted(c, a, c1, r) && r is Err ==> emitted(c, a.chain(b), c1, r),
        forall|c1: Cursor, c2: Cursor, r: Result<(), DnsError>|
            #![trigger emitted(c, a, c1, Ok(())), emitted(c1, b, c2, r)]
            emitted(c, a, c1, Ok(())) && emitted(c1, b, c2, r) ==> emitted(c, a.chain(b), c2, r),
{
    assert forall|c1: Cursor, c2: Cursor, r: Result<(), DnsError>|
        emitted(c, a, c1, Ok(())) && emitted(c1, b, c2, r) implies emitted(
        c,
        a.chain(b),
        c2,
        r,
    ) by {
        lemma_put_pos(c, a.bytes);
        lemma_put_concat(c, a.bytes, b.bytes);
    }
}

/// `chain` is associative.
pub proof fn lemma_chain_assoc(a: Emit, b: Emit, c: Emit)
    ensures
        a.chain(b).chain(c) == a.chain(b.chain(c)),
{
    if a.fault is None && b.fault is None {
        assert((a.bytes + b.bytes) + c.bytes =~= a.bytes + (b.bytes + c.bytes));
    }
}

/// What `put` leaves: the position has moved past the data, the data stands
/// where the position was, every other byte that the store had is unchanged,
/// and every other new byte is zero.
pub proof fn lemma_put_content(c: Cursor, data: Seq<u8>)
    requires
        0 <= c.pos,
    ensures
        c.put(data).pos == c.pos + data.len(),
        c.put(data).bytes.len() >= c.bytes.len(),
        data.len() > 0 ==> c.put(data).bytes.len() >= c.pos + data.len(),
        data.len() == 0 ==> c.put(data) == c,
        forall|i: int|
            c.pos <= i < c.pos + data.len() ==> #[trigger] c.put(data).bytes[i] == data[i - c.pos],
        forall|i: int|
            0 <= i < c.put(data).bytes.len() && !(c.pos <= i < c.pos + data.len())
                ==> #[trigger] c.put(data).bytes[i] == if i < c.bytes.len() {
                c.bytes[i]
            } else {
                0u8
            },
    decreases data.len(),
{
    if data.len() > 0 {
        let before = c.put(data.drop_last());
        lemma_put_content(c, data.drop_last());
        lemma_grown(before.bytes, before.pos + 1);
    }
}

/// `put` keeps the store within what a machine can hold, if the position
/// stays within it.
pub proof fn lemma_put_bounded(c: Cursor, data: Seq<u8>)
    requires
        0 <= c.pos,
        c.bytes.len() <= usize::MAX,
        c.pos + data.len() <= usize::MAX,
    ensures
        c.put(data).bytes.len() <= usize::MAX,
    decreases data.len(),
{
    if data.len() > 0 {
        let before = c.put(data.drop_last());
        lemma_put_bounded(c, data.drop_last());
        lemma_put_pos(c, data.drop_last());
        lemma_grown(before.bytes, before.pos + 1);
    }
}

/// How long the store is after `put` depends on how many bytes were written,
/// not on what they were.
pub proof fn lemma_put_len(c: Cursor, a: Seq<u8>, b: Seq<u8>)
    requires
        0 <= c.pos,
        a.len() == b.len(),
    ensures
        c.put(a).bytes.len() == c.put(b).bytes.len(),
        c.put(a).pos == c.put(b).pos,
    decreases a.len(),
{
    if a.len() > 0 {
        let before_a = c.put(a.drop_last());
        let before_b = c.put(b.drop_last());
        lemma_put_len(c, a.drop_last(), b.drop_last());
        lemma_put_pos(c, a.drop_last());
        lemma_grown(before_a.bytes, before_a.pos + 1);
        lemma_grown(before_b.bytes, before_b.pos + 1);
        assert(c.put(a) == before_a.write(a.last()));
        assert(c.put(b) == before_b.write(b.last()));
        let grown_a = grown(before_a.bytes, before_a.pos + 1);
        let grown_b = grown(before_b.bytes, before_b.pos + 1);
        assert(grown_a.len() == grown_b.len());
        assert(grown_a.update(before_a.pos, a.last()).len() == grown_a.len());
        assert(grown_b.update(before_b.pos, b.last()).len() == grown_b.len());
    }
}

/// Growth keeps what was written: after a first run of bytes is written,
/// and a second run right behind it, however often the store had to grow,
/// both runs can be read back from where the first began.
pub proof fn lemma_growth_preserves_data(c: Cursor, first: Seq<u8>, more: Seq<u8>)
    requires
        0 <= c.pos <= c.bytes.len(),
    ensures
        c.put(first).put(more) == c.put(first + more),
        c.put(first).get_range(c.pos, first.len() as int) == Ok::<Seq<u8>, DnsError>(first),
        c.put(first).put(more).get_range(c.pos, first.len() as int) == Ok::<Seq<u8>, DnsError>(
            first,
        ),
        c.put(first).put(more).get_range(c.pos, (first.len() + more.len()) as int) == Ok::<
            Seq<u8>,
            DnsError,
        >(first + more),
{
    lemma_put_content(c, first);
    lemma_put_content(c.put(first), more);
    lemma_put_content(c, first + more);
    lemma_put_concat(c, first, more);
    let one = c.put(first);
    let two = one.put(more);
    assert(one.bytes.subrange(c.pos, c.pos + first.len()) =~= first);
    assert(two.bytes.subrange(c.pos, c.pos + first.len()) =~= first);
    assert(two.bytes.subrange(c.pos, c.pos + first.len() + more.len()) =~= first + more);
}

} // verus!
