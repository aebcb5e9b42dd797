//! Record log.
//!
//! A log is a sequence of blocks of 32768 bytes. A record that does not fit in
//! what is left of a block is split into fragments. Each fragment has a header
//! of seven bytes: checksum, length and kind.

use vstd::prelude::*;

use crate::coding;
use crate::crc32c;
use crate::env;
use crate::env::SequentialFile;
use crate::env::WritableFile;
use crate::status;
use crate::status::Status;
use crate::text;

pub mod log_record_header;

pub use log_record_header::LogRecordHeader;

verus! {

pub const BLOCK_SIZE: usize = 32768;

pub const HEADER_SIZE: usize = 7;

/// The given number of zero bytes.
pub open spec fn zero_bytes(count: int) -> Seq<u8> {
    Seq::new(count as nat, |i: int| 0u8)
}

/// The checksum of a fragment: it covers the kind and the payload.
pub open spec fn fragment_crc(kind: u8, payload: Seq<u8>) -> u32 {
    crc32c::extended(crc32c::checksum(seq![kind]), payload)
}

/// A fragment in bytes.
pub open spec fn fragment(kind: u8, payload: Seq<u8>) -> Seq<u8> {
    LogRecordHeader {
        crc: fragment_crc(kind, payload),
        length: payload.len() as u16,
        kind,
    }.encoded() + payload
}

/// The kind of a fragment.
pub open spec fn fragment_kind(begin: bool, end: bool) -> u8 {
    if begin && end {
        LogRecordHeader::KIND_FULL
    } else if begin {
        LogRecordHeader::KIND_FIRST
    } else if end {
        LogRecordHeader::KIND_LAST
    } else {
        LogRecordHeader::KIND_MIDDLE
    }
}

/// The bytes that fill up a block in which no header fits any more.
pub open spec fn padding(offset: int) -> Seq<u8> {
    if BLOCK_SIZE - offset < HEADER_SIZE {
        zero_bytes(BLOCK_SIZE - offset)
    } else {
        Seq::empty()
    }
}

/// Where the next header goes.
pub open spec fn header_offset(offset: int) -> int {
    if BLOCK_SIZE - offset < HEADER_SIZE {
        0
    } else {
        offset
    }
}

/// How much of `length` bytes goes into the next fragment.
pub open spec fn fragment_len(offset: int, length: int) -> int {
    let room = BLOCK_SIZE - header_offset(offset) - HEADER_SIZE;
    if length < room {
        length
    } else {
        room
    }
}

/// What a record adds to a log whose last block holds `offset` bytes.
pub open spec fn framed(offset: int, data: Seq<u8>, begin: bool) -> Seq<u8>
    decreases data.len(), BLOCK_SIZE - offset,
    when 0 <= offset <= BLOCK_SIZE
{
    let taken = fragment_len(offset, data.len() as int);
    let end = taken == data.len();
    let piece = padding(offset) + fragment(fragment_kind(begin, end), data.take(taken));
    if end {
        piece
    } else {
        piece + framed(header_offset(offset) + HEADER_SIZE + taken, data.skip(taken), false)
    }
}

/// How much the last block holds after a record of `length` bytes.
pub open spec fn offset_after(offset: int, length: int) -> int
    decreases length, BLOCK_SIZE - offset,
    when 0 <= offset <= BLOCK_SIZE && 0 <= length
{
    let taken = fragment_len(offset, length);
    let next = header_offset(offset) + HEADER_SIZE + taken;
    if taken == length {
        next
    } else {
        offset_after(next, length - taken)
    }
}

/// The last block never holds more than fits.
pub proof fn lemma_offset_after(offset: int, length: int)
    requires
        0 <= offset <= BLOCK_SIZE,
        0 <= length,
    ensures
        HEADER_SIZE <= offset_after(offset, length) <= BLOCK_SIZE,
    decreases length, BLOCK_SIZE - offset,
{
    let taken = fragment_len(offset, length);
    if taken != length {
        lemma_offset_after(header_offset(offset) + HEADER_SIZE + taken, length - taken);
    }
}

/// One fragment and what follows it.
proof fn lemma_framed_step(sink: Seq<u8>, offset: int, left: Seq<u8>, begin: bool)
    requires
        0 <= offset <= BLOCK_SIZE,
    ensures
        ({
            let taken = fragment_len(offset, left.len() as int);
            let end = taken == left.len();
            let next = header_offset(offset) + HEADER_SIZE + taken;
            let after = (sink + padding(offset)) + fragment(
                fragment_kind(begin, end),
                left.take(taken),
            );
            &&& end ==> sink + framed(offset, left, begin) == after
            &&& end ==> offset_after(offset, left.len() as int) == next
            &&& !end ==> sink + framed(offset, left, begin) == after + framed(
                next,
                left.skip(taken),
                false,
            )
            &&& !end ==> offset_after(offset, left.len() as int) == offset_after(
                next,
                left.len() - taken,
            )
        }),
{
    let taken = fragment_len(offset, left.len() as int);
    let end = taken == left.len();
    let next = header_offset(offset) + HEADER_SIZE + taken;
    let pad = padding(offset);
    let piece = fragment(fragment_kind(begin, end), left.take(taken));
    if end {
        assert(sink + (pad + piece) =~= (sink + pad) + piece);
    } else {
        let more = framed(next, left.skip(taken), false);
        assert(sink + ((pad + piece) + more) =~= ((sink + pad) + piece) + more);
    }
}

// ---------------------------------------------------------------------------
// Writer
// ---------------------------------------------------------------------------

/// Frames records. It keeps a log of its own in memory, or writes to a file.
#[derive(Debug)]
pub struct LogWriter {
    sink: Vec<u8>,
    block_offset: usize,
}

/// A place in a log in memory to which the writer can go back.
#[derive(Debug, Copy, Clone, PartialEq, Eq, Structural)]
pub struct LogWriterMark {
    sink_len: usize,
    block_offset: usize,
}

impl LogWriterMark {
    /// The length of the log at the mark.
    pub closed spec fn length(&self) -> nat {
        self.sink_len as nat
    }

    /// How much the last block held at the mark.
    pub closed spec fn offset(&self) -> int {
        self.block_offset as int
    }
}

impl Default for LogWriter {
    fn default() -> (writer: Self)
        ensures
            writer.wf(),
            writer.log() == Seq::<u8>::empty(),
            writer.offset() == 0,
    {
        LogWriter::new()
    }
}

impl LogWriter {
    /// The log in memory.
    pub closed spec fn log(&self) -> Seq<u8> {
        self.sink@
    }

    /// How much the last block holds.
    pub closed spec fn offset(&self) -> int {
        self.block_offset as int
    }

    /// The last block holds no more than fits.
    pub closed spec fn wf(&self) -> bool {
        self.block_offset <= BLOCK_SIZE
    }

    pub fn new() -> (writer: Self)
        ensures
            writer.wf(),
            writer.log() == Seq::<u8>::empty(),
            writer.offset() == 0,
    {
        LogWriter { sink: Vec::new(), block_offset: 0 }
    }

    pub fn mark(&self) -> (mark: LogWriterMark)
        ensures
            mark.length() == self.log().len(),
            mark.offset() == self.offset(),
    {
        LogWriterMark { sink_len: self.sink.len(), block_offset: self.block_offset }
    }

    /// Drops what was added since the mark.
    pub fn rewind_to(&mut self, mark: LogWriterMark)
        requires
            mark.length() <= old(self).log().len(),
        ensures
            final(self).log() == old(self).log().take(mark.length() as int),
            final(self).offset() == mark.offset(),
            mark.offset() <= BLOCK_SIZE ==> final(self).wf(),
    {
        self.sink.truncate(mark.sink_len);
        self.block_offset = mark.block_offset;
        assert(self.sink@ =~= old(self).sink@.take(mark.sink_len as int));
    }

    /// Adds a record and hands out what it added.
    pub fn add_record_and_get_fragment(&mut self, data: &[u8]) -> (added: &[u8])
        requires
            old(self).wf(),
        ensures
            added@ == framed(old(self).offset(), data@, true),
            final(self).wf(),
            final(self).log() == old(self).log() + added@,
            final(self).offset() == offset_after(old(self).offset(), data@.len() as int),
    {
        let start: usize = self.sink.len();
        self.add_record(data);
        let sink = self.sink.as_slice();
        let added = &sink[start..sink.len()];
        assert(added@ =~= framed(old(self).offset(), data@, true));
        added
    }

    pub fn add_record(&mut self, data: &[u8])
        requires
            old(self).wf(),
        ensures
            final(self).wf(),
            final(self).log() == old(self).log() + framed(old(self).offset(), data@, true),
            final(self).offset() == offset_after(old(self).offset(), data@.len() as int),
    {
        let ghost start = self.sink@;
        let ghost whole = framed(self.offset(), data@, true);
        let ghost last = offset_after(self.offset(), data@.len() as int);
        let mut left: &[u8] = data;
        let mut begin = true;
        let mut done = false;
        while !done
            invariant
                self.wf(),
                !done ==> start + whole == self.sink@ + framed(self.offset(), left@, begin),
                !done ==> last == offset_after(self.offset(), left@.len() as int),
                done ==> start + whole == self.sink@ && last == self.offset(),
            decreases
                left@.len() + if done {
                    0int
                } else {
                    1int
                },
                BLOCK_SIZE - self.block_offset,
        {
            let ghost before = self.sink@;
            let ghost offset = self.offset();
            let leftover: usize = BLOCK_SIZE - self.block_offset;
            if leftover < HEADER_SIZE {
                let mut count: usize = 0;
                while count < leftover
                    invariant
                        count <= leftover,
                        leftover < HEADER_SIZE,
                        self.sink@ == before + zero_bytes(count as int),
                    decreases leftover - count,
                {
                    self.sink.push(0);
                    count = count + 1;
                    assert(self.sink@ =~= before + zero_bytes(count as int));
                }
                self.block_offset = 0;
            }
            assert(self.sink@ =~= before + padding(offset));
            let room: usize = BLOCK_SIZE - self.block_offset - HEADER_SIZE;
            let length: usize = if left.len() < room {
                left.len()
            } else {
                room
            };
            let end = left.len() == length;
            let kind = Self::kind_of(begin, end);
            let (piece, rest) = left.split_at(length);
            assert(piece@ =~= left@.take(length as int));
            self.emit_physical_record(kind, piece);
            proof {
                lemma_framed_step(before, offset, left@, begin);
                assert(rest@ =~= left@.skip(length as int));
            }
            left = rest;
            begin = false;
            done = end;
        }
    }

    fn kind_of(begin: bool, end: bool) -> (kind: u8)
        ensures
            kind == fragment_kind(begin, end),
    {
        if begin && end {
            LogRecordHeader::KIND_FULL
        } else if begin {
            LogRecordHeader::KIND_FIRST
        } else if end {
            LogRecordHeader::KIND_LAST
        } else {
            LogRecordHeader::KIND_MIDDLE
        }
    }

    /// Writes a record to a file.
    pub fn add_record_to<W: WritableFile>(&mut self, dest: &mut W, data: &[u8]) -> (outcome:
        status::Result<()>)
        requires
            old(self).wf(),
        ensures
            final(self).wf(),
            final(self).log() == old(self).log(),
            outcome is Ok ==> final(dest).written() == old(dest).written() + framed(
                old(self).offset(),
                data@,
                true,
            ) && final(self).offset() == offset_after(old(self).offset(), data@.len() as int),
            outcome is Ok ==> final(dest).reliable() == old(dest).reliable(),
            old(dest).reliable() ==> outcome is Ok,
            final(dest).failed_syncs() == old(dest).failed_syncs(),
    {
        let nothing: &[u8] = &data[data.len()..data.len()];
        assert(data@ + nothing@ =~= data@);
        self.add_record_pair_to(dest, data, nothing)
    }

    /// Writes one record of two parts to a file.
    pub fn add_record_pair_to<W: WritableFile>(
        &mut self,
        dest: &mut W,
        first: &[u8],
        second: &[u8],
    ) -> (outcome: status::Result<()>)
        requires
            old(self).wf(),
            first@.len() + second@.len() <= usize::MAX,
        ensures
            final(self).wf(),
            final(self).log() == old(self).log(),
            outcome is Ok ==> final(dest).written() == old(dest).written() + framed(
                old(self).offset(),
                first@ + second@,
                true,
            ) && final(self).offset() == offset_after(
                old(self).offset(),
                (first@.len() + second@.len()) as int,
            ),
            outcome is Ok ==> final(dest).reliable() == old(dest).reliable(),
            old(dest).reliable() ==> outcome is Ok,
            final(dest).failed_syncs() == old(dest).failed_syncs(),
    {
        let ghost data = first@ + second@;
        let ghost start = dest.written();
        let ghost whole = framed(self.offset(), data, true);
        let ghost last = offset_after(self.offset(), data.len() as int);
        let total: usize = first.len() + second.len();
        let mut offset: usize = 0;
        let mut begin = true;
        let mut done = false;
        assert(data.skip(0) =~= data);
        while !done
            invariant
                dest.failed_syncs() == old(dest).failed_syncs(),
                self.wf(),
                self.sink == old(self).sink,
                data == first@ + second@,
                total == data.len(),
                offset <= total,
                !done ==> start + whole == dest.written() + framed(
                    self.offset(),
                    data.skip(offset as int),
                    begin,
                ),
                !done ==> last == offset_after(self.offset(), total - offset),
                done ==> start + whole == dest.written() && last == self.offset(),
                dest.reliable() == old(dest).reliable(),
            decreases
                total - offset + if done {
                    0int
                } else {
                    1int
                },
                BLOCK_SIZE - self.block_offset,
        {
            let ghost before = dest.written();
            let ghost at = self.offset();
            let ghost left = data.skip(offset as int);
            let leftover: usize = BLOCK_SIZE - self.block_offset;
            if leftover < HEADER_SIZE {
                if leftover > 0 {
                    let zeros: [u8; 6] = [0, 0, 0, 0, 0, 0];
                    let pad: &[u8] = &zeros.as_slice()[0..leftover];
                    assert(pad@ =~= zero_bytes(leftover as int));
                    match dest.append(pad) {
                        Err(error) => {
                            return Err(error);
                        },
                        Ok(_) => {},
                    }
                }
                self.block_offset = 0;
            }
            assert(dest.written() =~= before + padding(at));
            let room: usize = BLOCK_SIZE - self.block_offset - HEADER_SIZE;
            let length: usize = if total - offset < room {
                total - offset
            } else {
                room
            };
            let end = total - offset == length;
            let kind = Self::kind_of(begin, end);
            let (head, tail) = Self::pair_fragment(first, second, offset, length);
            assert(head@ + tail@ =~= left.take(length as int));
            assert((head@ + tail@).len() == length);
            match self.emit_physical_record_pair_to(dest, kind, head, tail) {
                Err(error) => {
                    return Err(error);
                },
                Ok(_) => {},
            }
            proof {
                lemma_framed_step(before, at, left, begin);
                assert(left.skip(length as int) =~= data.skip(offset + length));
            }
            offset = offset + length;
            begin = false;
            done = end;
        }
        Ok(())
    }

    fn emit_physical_record(&mut self, kind: u8, data: &[u8])
        requires
            old(self).block_offset + HEADER_SIZE + data@.len() <= BLOCK_SIZE,
        ensures
            final(self).sink@ == old(self).sink@ + fragment(kind, data@),
            final(self).block_offset == old(self).block_offset + HEADER_SIZE + data@.len(),
    {
        let one: [u8; 1] = [kind];
        assert(one@ =~= seq![kind]);
        let crc = crc32c::extend(crc32c::value(one.as_slice()), data);
        let header = LogRecordHeader { crc, length: data.len() as u16, kind };
        header.encode(&mut self.sink);
        self.sink.extend_from_slice(data);
        self.block_offset = self.block_offset + HEADER_SIZE + data.len();
        assert(self.sink@ =~= old(self).sink@ + fragment(kind, data@));
    }

    /// The stretch of two parts, taken as one, that starts at `offset`.
    fn pair_fragment<'a>(
        first: &'a [u8],
        second: &'a [u8],
        offset: usize,
        length: usize,
    ) -> (parts: (&'a [u8], &'a [u8]))
        requires
            offset + length <= first@.len() + second@.len(),
            first@.len() + second@.len() <= usize::MAX,
        ensures
            parts.0@ + parts.1@ == (first@ + second@).subrange(offset as int, offset + length),
    {
        if offset < first.len() {
            let in_first: usize = if first.len() - offset < length {
                first.len() - offset
            } else {
                length
            };
            let head: &[u8] = &first[offset..offset + in_first];
            let tail: &[u8] = &second[0..length - in_first];
            assert(head@ + tail@ =~= (first@ + second@).subrange(offset as int, offset + length));
            (head, tail)
        } else {
            let start: usize = offset - first.len();
            let head: &[u8] = &first[0..0];
            let tail: &[u8] = &second[start..start + length];
            assert(head@ + tail@ =~= (first@ + second@).subrange(offset as int, offset + length));
            (head, tail)
        }
    }

    fn emit_physical_record_pair_to<W: WritableFile>(
        &mut self,
        dest: &mut W,
        kind: u8,
        first: &[u8],
        second: &[u8],
    ) -> (outcome: status::Result<()>)
        requires
            old(self).block_offset + HEADER_SIZE + first@.len() + second@.len() <= BLOCK_SIZE,
        ensures
            final(self).wf(),
            final(self).sink == old(self).sink,
            outcome is Ok ==> final(dest).written() == old(dest).written() + fragment(
                kind,
                first@ + second@,
            ) && final(self).block_offset == old(self).block_offset + HEADER_SIZE + first@.len()
                + second@.len(),
            outcome is Ok ==> final(dest).reliable() == old(dest).reliable(),
            old(dest).reliable() ==> outcome is Ok,
            final(dest).failed_syncs() == old(dest).failed_syncs(),
    {
        let ghost payload = first@ + second@;
        let ghost before = dest.written();
        let one: [u8; 1] = [kind];
        assert(one@ =~= seq![kind]);
        let crc = crc32c::extend(crc32c::extend(crc32c::value(one.as_slice()), first), second);
        proof {
            crc32c::law_extend_concat(crc32c::checksum(seq![kind]), first@, second@);
        }
        let length: usize = first.len() + second.len();
        let header = LogRecordHeader { crc, length: length as u16, kind };
        let mut scratch: Vec<u8> = Vec::new();
        header.encode(&mut scratch);
        assert(scratch@ =~= header.encoded());
        match dest.append(scratch.as_slice()) {
            Err(error) => {
                return Err(error);
            },
            Ok(_) => {},
        }
        if first.len() > 0 {
            match dest.append(first) {
                Err(error) => {
                    return Err(error);
                },
                Ok(_) => {},
            }
        }
        if second.len() > 0 {
            match dest.append(second) {
                Err(error) => {
                    return Err(error);
                },
                Ok(_) => {},
            }
        }
        match dest.flush() {
            Err(error) => {
                return Err(error);
            },
            Ok(_) => {},
        }
        assert(dest.written() =~= before + fragment(kind, payload));
        self.block_offset = self.block_offset + HEADER_SIZE + length;
        Ok(())
    }

    pub fn bytes(&self) -> (bytes: &[u8])
        ensures
            bytes@ == self.log(),
    {
        self.sink.as_slice()
    }

    pub fn into_bytes(self) -> (bytes: Vec<u8>)
        ensures
            bytes@ == self.log(),
    {
        self.sink
    }
}

// ---------------------------------------------------------------------------
// Reading
// ---------------------------------------------------------------------------

/// What the next fragment of a log is.
pub enum Physical {
    /// The log ends.
    End,
    /// Something is wrong with the fragment at `at`.
    Fault { text: Seq<char>, at: int },
    /// A fragment; the next one starts at `next`.
    Fragment { kind: u8, payload: Seq<u8>, next: int },
}

/// The fragment at or behind `cursor`. What fills up a block is passed over, and
/// so are the empty fragments of a file that was set up in advance.
#[verifier::opaque]
pub open spec fn next_physical(bytes: Seq<u8>, cursor: int) -> Physical
    decreases bytes.len() - cursor,
    when 0 <= cursor
{
    let within = cursor % BLOCK_SIZE as int;
    if cursor + HEADER_SIZE > bytes.len() {
        Physical::End
    } else if BLOCK_SIZE - within < HEADER_SIZE {
        next_physical(bytes, cursor + (BLOCK_SIZE - within))
    } else {
        let header = log_record_header::header_of(bytes.skip(cursor));
        let end = cursor + HEADER_SIZE + header.length;
        if header.length > BLOCK_SIZE - within - HEADER_SIZE {
            Physical::Fault { text: "LogReader: record extends past block end"@, at: cursor }
        } else if end > bytes.len() {
            Physical::Fault { text: "LogReader: truncated payload"@, at: cursor }
        } else {
            let payload = bytes.subrange(cursor + HEADER_SIZE, end);
            if fragment_crc(header.kind, payload) != header.crc {
                Physical::Fault { text: "LogReader: bad record CRC"@, at: cursor }
            } else if header.kind == LogRecordHeader::KIND_ZERO && header.length == 0 {
                next_physical(bytes, end)
            } else {
                Physical::Fragment { kind: header.kind, payload, next: end }
            }
        }
    }
}

/// What the next record of a log is.
pub enum Logical {
    /// The log ends.
    End,
    /// Something is wrong before `at`.
    Fault { text: Seq<char>, at: int },
    /// A record; the next one starts at `next`.
    Record { data: Seq<u8>, next: int },
}

/// What a fragment makes of a record.
pub enum Absorbed {
    /// More is to come.
    More(Seq<u8>),
    /// The record is whole.
    Done(Seq<u8>),
    /// The fragment does not belong there.
    Wrong(Seq<char>),
}

/// What a fragment makes of a record of which `partial` was read.
pub open spec fn absorbed(kind: u8, payload: Seq<u8>, partial: Option<Seq<u8>>) -> Absorbed {
    if kind == LogRecordHeader::KIND_FULL {
        match partial {
            None => Absorbed::Done(payload),
            Some(_) => Absorbed::Wrong("LogReader: full inside fragmented record"@),
        }
    } else if kind == LogRecordHeader::KIND_FIRST {
        match partial {
            None => Absorbed::More(payload),
            Some(_) => Absorbed::Wrong("LogReader: first inside fragmented record"@),
        }
    } else if kind == LogRecordHeader::KIND_MIDDLE {
        match partial {
            None => Absorbed::Wrong("LogReader: middle outside fragmented record"@),
            Some(data) => Absorbed::More(data + payload),
        }
    } else if kind == LogRecordHeader::KIND_LAST {
        match partial {
            None => Absorbed::Wrong("LogReader: last outside fragmented record"@),
            Some(data) => Absorbed::Done(data + payload),
        }
    } else {
        Absorbed::Wrong("LogReader: unknown record kind "@ + text::decimal(kind as nat))
    }
}

/// The record at `cursor`, where `partial` holds the fragments so far of a record
/// that has begun.
pub open spec fn next_record(bytes: Seq<u8>, cursor: int, partial: Option<Seq<u8>>) -> Logical
    decreases bytes.len() - cursor,
    when 0 <= cursor
    via next_record_shrinks
{
    match next_physical(bytes, cursor) {
        Physical::End => match partial {
            None => Logical::End,
            Some(_) => Logical::Fault {
                text: "LogReader: truncated fragmented record"@,
                at: cursor,
            },
        },
        Physical::Fault { text, at } => Logical::Fault { text, at },
        Physical::Fragment { kind, payload, next } => match absorbed(kind, payload, partial) {
            Absorbed::More(data) => next_record(bytes, next, Some(data)),
            Absorbed::Done(data) => Logical::Record { data, next },
            Absorbed::Wrong(text) => Logical::Fault { text, at: next },
        },
    }
}

#[via_fn]
proof fn next_record_shrinks(bytes: Seq<u8>, cursor: int, partial: Option<Seq<u8>>) {
    lemma_physical_bounds(bytes, cursor);
}

/// A fragment lies behind the cursor and within the log.
pub proof fn lemma_physical_bounds(bytes: Seq<u8>, cursor: int)
    requires
        0 <= cursor,
    ensures
        match next_physical(bytes, cursor) {
            Physical::End => true,
            Physical::Fault { text, at } => cursor <= at && at + HEADER_SIZE <= bytes.len(),
            Physical::Fragment { kind, payload, next } => cursor + HEADER_SIZE <= next
                <= bytes.len(),
        },
    decreases bytes.len() - cursor,
{
    reveal(next_physical);
    let within = cursor % BLOCK_SIZE as int;
    if cursor + HEADER_SIZE <= bytes.len() {
        if BLOCK_SIZE - within < HEADER_SIZE {
            lemma_physical_bounds(bytes, cursor + (BLOCK_SIZE - within));
        } else {
            let header = log_record_header::header_of(bytes.skip(cursor));
            let end = cursor + HEADER_SIZE + header.length;
            if end <= bytes.len() {
                lemma_physical_bounds(bytes, end);
            }
        }
    }
}

/// Behind the end there is nothing more.
proof fn lemma_physical_end(bytes: Seq<u8>, cursor: int, later: int)
    requires
        0 <= cursor <= later,
        cursor + HEADER_SIZE > bytes.len(),
    ensures
        next_physical(bytes, later) is End,
        next_record(bytes, later, None) is End,
{
    reveal(next_physical);
}

/// A fragment that something is wrong with stays so: to read on from its place is to meet
/// the fault again.
pub proof fn law_fault_stays(bytes: Seq<u8>, cursor: int)
    requires
        0 <= cursor,
    ensures
        next_physical(bytes, cursor) matches Physical::Fault { text, at } ==> next_physical(
            bytes,
            at,
        ) == (Physical::Fault { text, at }) && next_record(bytes, at, None) == (Logical::Fault {
            text,
            at,
        }),
    decreases bytes.len() - cursor,
{
    reveal(next_physical);
    let within = cursor % BLOCK_SIZE as int;
    if cursor + HEADER_SIZE <= bytes.len() {
        if BLOCK_SIZE - within < HEADER_SIZE {
            law_fault_stays(bytes, cursor + (BLOCK_SIZE - within));
        } else {
            let header = log_record_header::header_of(bytes.skip(cursor));
            let end = cursor + HEADER_SIZE + header.length;
            if end <= bytes.len() {
                law_fault_stays(bytes, end);
            }
        }
    }
}

/// What a reader hands out, and where it stands afterwards: at `cursor`. Behind a fault
/// it goes on as from the place of the fault.
pub open spec fn reads_as(
    expected: Logical,
    read: status::Result<Option<Vec<u8>>>,
    bytes: Seq<u8>,
    cursor: int,
) -> bool {
    match expected {
        Logical::End => {
            &&& read matches Ok(found)
            &&& found is None
            &&& next_record(bytes, cursor, None) is End
        },
        Logical::Fault { text, at } => {
            &&& read matches Err(error)
            &&& error.says(status::Code::Corruption, text)
            &&& next_record(bytes, cursor, None) == next_record(bytes, at, None)
        },
        Logical::Record { data, next } => {
            &&& read matches Ok(found)
            &&& found matches Some(record)
            &&& record@ == data
            &&& cursor == next
        },
    }
}

/// Checks the fragment at the front of `bytes`, which is `room` bytes before the
/// end of its block.
fn check_fragment(bytes: &[u8], room: usize) -> (checked: status::Result<LogRecordHeader>)
    requires
        bytes@.len() >= HEADER_SIZE,
        HEADER_SIZE <= room <= BLOCK_SIZE,
    ensures
        ({
            let header = log_record_header::header_of(bytes@);
            let end = HEADER_SIZE + header.length;
            match checked {
                Ok(h) => h == header && end <= room && end <= bytes@.len() && fragment_crc(
                    header.kind,
                    bytes@.subrange(HEADER_SIZE as int, end),
                ) == header.crc,
                Err(error) => if end > room {
                    error.says(
                        status::Code::Corruption,
                        "LogReader: record extends past block end"@,
                    )
                } else if end > bytes@.len() {
                    error.says(status::Code::Corruption, "LogReader: truncated payload"@)
                } else {
                    &&& error.says(status::Code::Corruption, "LogReader: bad record CRC"@)
                    &&& fragment_crc(header.kind, bytes@.subrange(HEADER_SIZE as int, end))
                        != header.crc
                },
            }
        }),
{
    let total: usize = bytes.len();
    let mut input: &[u8] = bytes;
    let header = match LogRecordHeader::decode_from(&mut input) {
        Ok(header) => header,
        Err(error) => {
            return Err(error);
        },
    };
    let length: usize = header.length as usize;
    if length > room - HEADER_SIZE {
        return Err(Status::corruption("LogReader: record extends past block end"));
    }
    if length > total - HEADER_SIZE {
        return Err(Status::corruption("LogReader: truncated payload"));
    }
    let payload: &[u8] = &bytes[HEADER_SIZE..HEADER_SIZE + length];
    let one: [u8; 1] = [header.kind];
    assert(one@ =~= seq![header.kind]);
    let crc = crc32c::extend(crc32c::value(one.as_slice()), payload);
    if crc != header.crc {
        return Err(Status::corruption("LogReader: bad record CRC"));
    }
    Ok(header)
}

/// A fragment that was read, or none at the end of the log.
type Fragment = Option<(u8, Vec<u8>)>;

/// What a reader that passes over fragments hands out, and where it stands
/// afterwards.
spec fn fragment_reads_as(
    expected: Physical,
    read: status::Result<Fragment>,
    bytes: Seq<u8>,
    cursor: int,
) -> bool {
    match expected {
        Physical::End => {
            &&& read matches Ok(found)
            &&& found is None
            &&& next_record(bytes, cursor, None) is End
        },
        Physical::Fault { text, at } => {
            &&& read matches Err(error)
            &&& error.says(status::Code::Corruption, text)
            &&& cursor == at
        },
        Physical::Fragment { kind, payload, next } => {
            &&& read matches Ok(found)
            &&& found matches Some(fragment)
            &&& fragment.0 == kind
            &&& fragment.1@ == payload
            &&& cursor == next
        },
    }
}

/// What a fragment does to the record that is being put together.
enum Assembled {
    /// More is to come.
    More(Vec<u8>),
    /// The record is whole.
    Done(Vec<u8>),
    /// The fragment does not belong there.
    Wrong(Status),
}

/// Adds a fragment to a record.
fn assemble(kind: u8, payload: Vec<u8>, partial: Option<Vec<u8>>) -> (assembled: Assembled)
    ensures
        match absorbed(
            kind,
            payload@,
            match partial {
                None => None,
                Some(data) => Some(data@),
            },
        ) {
            Absorbed::More(expected) => assembled matches Assembled::More(data) && data@
                == expected,
            Absorbed::Done(expected) => assembled matches Assembled::Done(data) && data@
                == expected,
            Absorbed::Wrong(text) => assembled matches Assembled::Wrong(error) && error.says(
                status::Code::Corruption,
                text,
            ),
        },
{
    if kind == LogRecordHeader::KIND_FULL {
        match partial {
            None => Assembled::Done(payload),
            Some(_) => Assembled::Wrong(
                Status::corruption("LogReader: full inside fragmented record"),
            ),
        }
    } else if kind == LogRecordHeader::KIND_FIRST {
        match partial {
            None => Assembled::More(payload),
            Some(_) => Assembled::Wrong(
                Status::corruption("LogReader: first inside fragmented record"),
            ),
        }
    } else if kind == LogRecordHeader::KIND_MIDDLE {
        match partial {
            None => Assembled::Wrong(
                Status::corruption("LogReader: middle outside fragmented record"),
            ),
            Some(mut data) => {
                let ghost before = data@;
                data.extend_from_slice(payload.as_slice());
                assert(data@ =~= before + payload@);
                Assembled::More(data)
            },
        }
    } else if kind == LogRecordHeader::KIND_LAST {
        match partial {
            None => Assembled::Wrong(
                Status::corruption("LogReader: last outside fragmented record"),
            ),
            Some(mut data) => {
                let ghost before = data@;
                data.extend_from_slice(payload.as_slice());
                assert(data@ =~= before + payload@);
                Assembled::Done(data)
            },
        }
    } else {
        let number = text::decimal_text(kind as u64);
        let message = text::joined("LogReader: unknown record kind ", number.as_str());
        Assembled::Wrong(Status::corruption(message.as_str()))
    }
}

/// Reads the records of a log in memory.
pub struct LogReader<'a> {
    bytes: &'a [u8],
    cursor: usize,
}

impl<'a> LogReader<'a> {
    /// The log.
    pub closed spec fn log(&self) -> Seq<u8> {
        self.bytes@
    }

    /// Where the next record is looked for.
    pub closed spec fn place(&self) -> int {
        self.cursor as int
    }

    pub fn new(bytes: &'a [u8]) -> (reader: Self)
        ensures
            reader.log() == bytes@,
            reader.place() == 0,
    {
        LogReader { bytes, cursor: 0 }
    }

    /// Reads the next record. `None` at the end of the log.
    pub fn read_record(&mut self) -> (record: status::Result<Option<Vec<u8>>>)
        ensures
            final(self).log() == old(self).log(),
            reads_as(
                next_record(old(self).log(), old(self).place(), None),
                record,
                old(self).log(),
                final(self).place(),
            ),
    {
        let ghost whole = self.log();
        let ghost expected = next_record(whole, self.place(), None);
        let mut partial: Option<Vec<u8>> = None;
        loop
            invariant
                self.log() == whole,
                whole == old(self).log(),
                expected == next_record(old(self).log(), old(self).place(), None),
                expected == next_record(
                    whole,
                    self.place(),
                    match partial {
                        None => None,
                        Some(data) => Some(data@),
                    },
                ),
            decreases whole.len() - self.place(),
        {
            let ghost from = self.place();
            proof {
                lemma_physical_bounds(whole, from);
            }
            let (kind, payload) = match self.read_physical() {
                Err(error) => {
                    return Err(error);
                },
                Ok(None) => {
                    if partial.is_some() {
                        return Err(Status::corruption("LogReader: truncated fragmented record"));
                    }
                    return Ok(None);
                },
                Ok(Some(fragment)) => fragment,
            };
            match assemble(kind, payload, partial) {
                Assembled::More(data) => {
                    partial = Some(data);
                },
                Assembled::Done(data) => {
                    return Ok(Some(data));
                },
                Assembled::Wrong(error) => {
                    return Err(error);
                },
            }
        }
    }

    fn read_physical(&mut self) -> (read: status::Result<Fragment>)
        ensures
            final(self).log() == old(self).log(),
            fragment_reads_as(
                next_physical(old(self).log(), old(self).place()),
                read,
                old(self).log(),
                final(self).place(),
            ),
    {
        let ghost whole = self.log();
        let total: usize = self.bytes.len();
        loop
            invariant
                self.bytes == old(self).bytes,
                whole == self.bytes@,
                total == whole.len(),
                next_physical(whole, self.place()) == next_physical(
                    old(self).log(),
                    old(self).place(),
                ),
            decreases whole.len() - self.place(),
        {
            proof {
                reveal(next_physical);
            }
            if total < HEADER_SIZE || self.cursor > total - HEADER_SIZE {
                proof {
                    lemma_physical_end(whole, self.place(), self.place());
                }
                return Ok(None);
            }
            let room: usize = BLOCK_SIZE - self.cursor % BLOCK_SIZE;
            if room < HEADER_SIZE {
                self.cursor = self.cursor + room;
                continue;
            }
            let rest: &[u8] = &self.bytes[self.cursor..total];
            assert(rest@ =~= whole.skip(self.place()));
            let header = match check_fragment(rest, room) {
                Err(error) => {
                    proof {
                        let length = log_record_header::header_of(rest@).length;
                        if HEADER_SIZE + length <= rest@.len() {
                            assert(rest@.subrange(HEADER_SIZE as int, HEADER_SIZE + length)
                                =~= whole.subrange(
                                self.place() + HEADER_SIZE,
                                self.place() + HEADER_SIZE + length,
                            ));
                        }
                    }
                    return Err(error);
                },
                Ok(header) => header,
            };
            let end: usize = HEADER_SIZE + header.length as usize;
            let payload: &[u8] = &rest[HEADER_SIZE..end];
            assert(payload@ =~= whole.subrange(self.place() + HEADER_SIZE, self.place() + end));
            self.cursor = self.cursor + end;
            if header.kind == LogRecordHeader::KIND_ZERO && header.length == 0 {
                continue;
            }
            return Ok(Some((header.kind, vstd::slice::slice_to_vec(payload))));
        }
    }
}

/// Reads the records of a log in a file, block by block.
pub struct LogSequentialReader<F: SequentialFile> {
    file: F,
    block: Vec<u8>,
    block_offset: usize,
    eof: bool,
    passed: Ghost<Seq<u8>>,
}

impl<F: SequentialFile> LogSequentialReader<F> {
    /// The whole log, what was read of it and what is still to come.
    pub closed spec fn log(&self) -> Seq<u8> {
        self.passed@ + self.block@ + self.file.rest()
    }

    /// Where the next record is looked for.
    pub closed spec fn place(&self) -> int {
        self.passed@.len() + self.block_offset
    }

    /// Whether reads of the file succeed.
    pub closed spec fn reliable(&self) -> bool {
        self.file.reliable()
    }

    /// The block in hand is one of the log's.
    pub closed spec fn wf(&self) -> bool {
        &&& self.block_offset <= self.block@.len() <= BLOCK_SIZE
        &&& self.block@.len() < BLOCK_SIZE && self.place() > 0 ==> self.file.rest().len() == 0
        &&& self.eof ==> self.file.rest().len() == 0 && self.block@.len() - self.block_offset
            < HEADER_SIZE
        &&& !self.eof ==> self.passed@.len() % BLOCK_SIZE as nat == 0
        &&& self.place() == 0 && self.block@.len() < BLOCK_SIZE && self.block@.len() > 0
            ==> self.file.rest().len() == 0
    }

    pub fn new(file: F) -> (reader: Self)
        ensures
            reader.wf(),
            reader.log() == file.rest(),
            reader.place() == 0,
            reader.reliable() == file.reliable(),
    {
        let reader = LogSequentialReader {
            file,
            block: Vec::new(),
            block_offset: 0,
            eof: false,
            passed: Ghost(Seq::empty()),
        };
        assert(reader.log() =~= file.rest());
        reader
    }

    /// Reads the next record. `None` at the end of the log. Only where reads of
    /// the file fail does the outcome depend on anything but the log.
    pub fn read_record(&mut self) -> (record: status::Result<Option<Vec<u8>>>)
        requires
            old(self).wf(),
        ensures
            final(self).reliable() == old(self).reliable(),
            ({
                ||| final(self).wf() && final(self).log() == old(self).log() && reads_as(
                    next_record(old(self).log(), old(self).place(), None),
                    record,
                    old(self).log(),
                    final(self).place(),
                )
                ||| !old(self).reliable() && record is Err
            }),
    {
        let ghost whole = self.log();
        let ghost expected = next_record(whole, self.place(), None);
        let mut partial: Option<Vec<u8>> = None;
        loop
            invariant
                self.wf(),
                self.log() == whole,
                self.reliable() == old(self).reliable(),
                whole == old(self).log(),
                expected == next_record(old(self).log(), old(self).place(), None),
                expected == next_record(
                    whole,
                    self.place(),
                    match partial {
                        None => None,
                        Some(data) => Some(data@),
                    },
                ),
            decreases whole.len() - self.place(),
        {
            let ghost from = self.place();
            proof {
                lemma_physical_bounds(whole, from);
            }
            let (kind, payload) = match self.read_physical() {
                Err(error) => {
                    return Err(error);
                },
                Ok(None) => {
                    if partial.is_some() {
                        return Err(Status::corruption("LogReader: truncated fragmented record"));
                    }
                    return Ok(None);
                },
                Ok(Some(fragment)) => fragment,
            };
            match assemble(kind, payload, partial) {
                Assembled::More(data) => {
                    partial = Some(data);
                },
                Assembled::Done(data) => {
                    return Ok(Some(data));
                },
                Assembled::Wrong(error) => {
                    return Err(error);
                },
            }
        }
    }

    /// Takes the next block in hand.
    fn fill_block(&mut self) -> (outcome: status::Result<()>)
        requires
            old(self).wf(),
            old(self).block_offset == old(self).block@.len(),
        ensures
            final(self).reliable() == old(self).reliable(),
            outcome is Err ==> !old(self).reliable(),
            outcome is Ok ==> {
                &&& final(self).wf()
                &&& final(self).log() == old(self).log()
                &&& final(self).place() == old(self).place()
                &&& final(self).block_offset <= final(self).block@.len()
                &&& !final(self).eof ==> final(self).block_offset == 0 && final(self).block@.len()
                    > 0 && (final(self).block@.len() < BLOCK_SIZE ==> final(self).file.rest().len()
                    == 0)
                &&& final(self).eof ==> final(self).log().len() == final(self).place()
            },
    {
        if self.eof {
            assert(self.log().len() == self.place());
            return Ok(());
        }
        let ghost rest = self.file.rest();
        let read = match self.file.read(BLOCK_SIZE) {
            Err(error) => {
                return Err(error);
            },
            Ok(read) => read,
        };
        proof {
            self.passed@ = self.passed@ + self.block@;
        }
        self.block = read;
        self.block_offset = 0;
        if self.block.len() == 0 {
            self.eof = true;
        }
        proof {
            assert(self.block@ + self.file.rest() =~= rest);
            assert(self.log() =~= old(self).log());
        }
        Ok(())
    }

    #[verifier::spinoff_prover]
    #[verifier::rlimit(60)]
    fn read_physical(&mut self) -> (read: status::Result<Fragment>)
        requires
            old(self).wf(),
        ensures
            final(self).reliable() == old(self).reliable(),
            ({
                ||| final(self).wf() && final(self).log() == old(self).log() && fragment_reads_as(
                    next_physical(old(self).log(), old(self).place()),
                    read,
                    old(self).log(),
                    final(self).place(),
                )
                ||| !old(self).reliable() && read is Err
            }),
    {
        let ghost whole = self.log();
        let ghost expected = next_physical(whole, self.place());
        loop
            invariant
                self.wf(),
                self.log() == whole,
                whole == old(self).log(),
                self.reliable() == old(self).reliable(),
                expected == next_physical(old(self).log(), old(self).place()),
                expected == next_physical(whole, self.place()) || (expected is End
                    && self.place() + HEADER_SIZE > whole.len()),
            decreases whole.len() - self.place() + BLOCK_SIZE,
        {
            if self.block_offset >= self.block.len() {
                match self.fill_block() {
                    Err(error) => {
                        return Err(error);
                    },
                    Ok(_) => {},
                }
                if self.eof {
                    proof {
                        lemma_physical_end(whole, self.place(), self.place());
                    }
                    return Ok(None);
                }
            }
            let leftover: usize = self.block.len() - self.block_offset;
            if leftover < HEADER_SIZE {
                if self.block.len() < BLOCK_SIZE {
                    self.eof = true;
                    proof {
                        lemma_physical_end(whole, self.place(), self.place());
                    }
                    return Ok(None);
                }
                proof {
                    reveal(next_physical);
                }
                self.block_offset = self.block.len();
                continue;
            }
            match self.read_in_block() {
                Err(error) => {
                    return Err(error);
                },
                Ok(None) => {},
                Ok(Some(fragment)) => {
                    return Ok(Some(fragment));
                },
            }
        }
    }

    /// Reads the fragment in the block in hand. `None` where it is an empty one
    /// to be passed over.
    fn read_in_block(&mut self) -> (read: status::Result<Fragment>)
        requires
            old(self).wf(),
            !old(self).eof,
            old(self).block@.len() - old(self).block_offset >= HEADER_SIZE,
            old(self).block@.len() < BLOCK_SIZE ==> old(self).file.rest().len() == 0,
        ensures
            final(self).wf(),
            final(self).log() == old(self).log(),
            final(self).reliable() == old(self).reliable(),
            match read {
                Err(error) => next_physical(old(self).log(), old(self).place()) matches
                    Physical::Fault { text, at } && error.says(status::Code::Corruption, text)
                    && final(self).place() == at,
                Ok(None) => next_physical(old(self).log(), old(self).place()) == next_physical(
                    old(self).log(),
                    final(self).place(),
                ) && final(self).place() > old(self).place(),
                Ok(Some(fragment)) => next_physical(old(self).log(), old(self).place()) == (
                Physical::Fragment {
                    kind: fragment.0,
                    payload: fragment.1@,
                    next: final(self).place(),
                }),
            },
    {
        let ghost whole = self.log();
        let ghost place = self.place();
        let room: usize = BLOCK_SIZE - self.block_offset;
        let rest: &[u8] = &self.block.as_slice()[self.block_offset..self.block.len()];
        proof {
            reveal(next_physical);
            assert(rest@ =~= whole.skip(place).take(rest@.len() as int));
            lemma_same_header(rest@, whole.skip(place));
            assert(place % BLOCK_SIZE as int == self.block_offset);
            let length = log_record_header::header_of(rest@).length;
            if HEADER_SIZE + length <= rest@.len() {
                assert(rest@.subrange(HEADER_SIZE as int, HEADER_SIZE + length) =~= whole.subrange(
                    place + HEADER_SIZE,
                    place + HEADER_SIZE + length,
                ));
            }
        }
        let header = match check_fragment(rest, room) {
            Err(error) => {
                return Err(error);
            },
            Ok(header) => header,
        };
        let end: usize = HEADER_SIZE + header.length as usize;
        let payload = vstd::slice::slice_to_vec(&rest[HEADER_SIZE..end]);
        self.block_offset = self.block_offset + end;
        if header.kind == LogRecordHeader::KIND_ZERO && header.length == 0 {
            return Ok(None);
        }
        Ok(Some((header.kind, payload)))
    }
}

/// A header depends on the first bytes only.
proof fn lemma_same_header(front: Seq<u8>, bytes: Seq<u8>)
    requires
        HEADER_SIZE <= front.len() <= bytes.len(),
        front == bytes.take(front.len() as int),
    ensures
        log_record_header::header_of(front) == log_record_header::header_of(bytes),
{
    assert(front.take(4) =~= bytes.take(4));
    assert(front.subrange(4, 6) =~= bytes.subrange(4, 6));
}

// ---------------------------------------------------------------------------
// What is read from a log is what was written to it
// ---------------------------------------------------------------------------

/// The log of some records.
pub open spec fn log_image(records: Seq<Seq<u8>>) -> Seq<u8>
    decreases records.len(),
{
    if records.len() == 0 {
        Seq::empty()
    } else {
        log_image(records.drop_last()) + framed(
            log_offset(records.drop_last()),
            records.last(),
            true,
        )
    }
}

/// How much the last block of the log of some records holds.
pub open spec fn log_offset(records: Seq<Seq<u8>>) -> int
    decreases records.len(),
{
    if records.len() == 0 {
        0
    } else {
        offset_after(log_offset(records.drop_last()), records.last().len() as int)
    }
}

/// A fragment that was written is read at its place.
proof fn lemma_read_fragment(bytes: Seq<u8>, at: int, kind: u8, payload: Seq<u8>)
    requires
        0 <= at,
        kind != LogRecordHeader::KIND_ZERO,
        at % BLOCK_SIZE as int + HEADER_SIZE + payload.len() <= BLOCK_SIZE,
        at + HEADER_SIZE + payload.len() <= bytes.len(),
        bytes.subrange(at, at + HEADER_SIZE + payload.len()) == fragment(kind, payload),
    ensures
        next_physical(bytes, at) == (Physical::Fragment {
            kind,
            payload,
            next: at + HEADER_SIZE + payload.len(),
        }),
{
    reveal(next_physical);
    let header = LogRecordHeader {
        crc: fragment_crc(kind, payload),
        length: payload.len() as u16,
        kind,
    };
    let end = at + HEADER_SIZE + payload.len();
    let tail = payload + bytes.skip(end);
    log_record_header::law_header_round_trip(header, tail);
    assert(bytes.skip(at) =~= bytes.subrange(at, end) + bytes.skip(end));
    assert(bytes.skip(at) =~= header.encoded() + tail);
    assert(bytes.subrange(at + HEADER_SIZE, end) =~= fragment(kind, payload).skip(
        HEADER_SIZE as int,
    ));
    assert(fragment(kind, payload).skip(HEADER_SIZE as int) =~= payload);
}

/// What fills up a block is passed over.
proof fn lemma_skip_padding(bytes: Seq<u8>, cursor: int, offset: int)
    requires
        0 <= cursor,
        0 <= offset <= BLOCK_SIZE,
        cursor % BLOCK_SIZE as int == offset % BLOCK_SIZE as int,
        cursor + padding(offset).len() + HEADER_SIZE <= bytes.len(),
    ensures
        next_physical(bytes, cursor) == next_physical(bytes, cursor + padding(offset).len()),
        (cursor + padding(offset).len()) % BLOCK_SIZE as int == header_offset(offset),
{
    reveal(next_physical);
    if offset == BLOCK_SIZE {
        assert(padding(offset).len() == 0);
    } else if BLOCK_SIZE - offset < HEADER_SIZE {
        assert(cursor % BLOCK_SIZE as int == offset);
    }
}

/// The first fragment of a record is read at its place, and what follows it
/// starts at the next place.
proof fn lemma_first_fragment(
    front: Seq<u8>,
    offset: int,
    data: Seq<u8>,
    begin: bool,
    rest: Seq<u8>,
) -> (one: Seq<u8>)
    requires
        0 <= offset <= BLOCK_SIZE,
        front.len() % BLOCK_SIZE as nat == offset % BLOCK_SIZE as int,
    ensures
        ({
            let frame = framed(offset, data, begin);
            let bytes = front + frame + rest;
            let taken = fragment_len(offset, data.len() as int);
            let end = taken == data.len();
            let next_offset = header_offset(offset) + HEADER_SIZE + taken;
            &&& next_physical(bytes, front.len() as int) == (Physical::Fragment {
                kind: fragment_kind(begin, end),
                payload: data.take(taken),
                next: (front.len() + one.len()) as int,
            })
            &&& (front.len() + one.len()) % BLOCK_SIZE as nat == next_offset % BLOCK_SIZE as int
            &&& end ==> frame == one && offset_after(offset, data.len() as int) == next_offset
            &&& !end ==> frame == one + framed(next_offset, data.skip(taken), false)
                && offset_after(offset, data.len() as int) == offset_after(
                next_offset,
                data.len() - taken,
            )
        }),
{
    let frame = framed(offset, data, begin);
    let bytes = front + frame + rest;
    let taken = fragment_len(offset, data.len() as int);
    let end = taken == data.len();
    let kind = fragment_kind(begin, end);
    let piece = data.take(taken);
    let pad = padding(offset);
    let next_offset = header_offset(offset) + HEADER_SIZE + taken;
    let header = LogRecordHeader {
        crc: fragment_crc(kind, piece),
        length: piece.len() as u16,
        kind,
    };
    log_record_header::law_header_round_trip(header, Seq::empty());
    lemma_framed_step(Seq::empty(), offset, data, begin);
    let one = pad + fragment(kind, piece);
    let more = if end {
        Seq::<u8>::empty()
    } else {
        framed(next_offset, data.skip(taken), false)
    };
    assert(Seq::<u8>::empty() + pad =~= pad);
    assert(Seq::<u8>::empty() + frame =~= frame);
    assert(frame =~= one + more);
    let at = (front.len() + pad.len()) as int;
    let next = at + HEADER_SIZE + taken;
    lemma_skip_padding(bytes, front.len() as int, offset);
    assert(bytes.subrange(at, next) =~= fragment(kind, piece));
    lemma_read_fragment(bytes, at, kind, piece);
    one
}

/// A record is read at its place, whatever follows, and the next one starts where
/// its last block ends.
proof fn lemma_read_framed(
    front: Seq<u8>,
    offset: int,
    data: Seq<u8>,
    partial: Option<Seq<u8>>,
    rest: Seq<u8>,
)
    requires
        0 <= offset <= BLOCK_SIZE,
        front.len() % BLOCK_SIZE as nat == offset % BLOCK_SIZE as int,
    ensures
        ({
            let frame = framed(offset, data, partial is None);
            let bytes = front + frame + rest;
            let end = front.len() + frame.len();
            &&& next_record(bytes, front.len() as int, partial) == (Logical::Record {
                data: match partial {
                    None => data,
                    Some(so_far) => so_far + data,
                },
                next: end as int,
            })
            &&& end % BLOCK_SIZE as nat == offset_after(offset, data.len() as int)
                % BLOCK_SIZE as int
        }),
    decreases data.len(), BLOCK_SIZE - offset,
{
    let begin = partial is None;
    let frame = framed(offset, data, begin);
    let bytes = front + frame + rest;
    let taken = fragment_len(offset, data.len() as int);
    let piece = data.take(taken);
    let next_offset = header_offset(offset) + HEADER_SIZE + taken;
    let one = lemma_first_fragment(front, offset, data, begin, rest);
    if taken == data.len() {
        assert(piece =~= data);
    } else {
        let more = framed(next_offset, data.skip(taken), false);
        let so_far = match partial {
            None => piece,
            Some(so_far) => so_far + piece,
        };
        lemma_read_framed(front + one, next_offset, data.skip(taken), Some(so_far), rest);
        assert(front + one + more + rest =~= bytes);
        match partial {
            None => {
                assert(piece + data.skip(taken) =~= data);
            },
            Some(before) => {
                assert((before + piece) + data.skip(taken) =~= before + data);
            },
        }
    }
}

/// The log of some records and its last block agree on where that block ends.
proof fn lemma_log_offset(records: Seq<Seq<u8>>)
    ensures
        0 <= log_offset(records) <= BLOCK_SIZE,
        log_image(records).len() % BLOCK_SIZE as nat == log_offset(records) % BLOCK_SIZE as int,
    decreases records.len(),
{
    if records.len() > 0 {
        let before = records.drop_last();
        lemma_log_offset(before);
        lemma_offset_after(log_offset(before), records.last().len() as int);
        lemma_read_framed(
            log_image(before),
            log_offset(before),
            records.last(),
            None,
            Seq::empty(),
        );
    }
}

/// The log of the first records is the front of the log of all.
proof fn lemma_log_prefix(records: Seq<Seq<u8>>, count: int) -> (rest: Seq<u8>)
    requires
        0 <= count <= records.len(),
    ensures
        log_image(records) == log_image(records.take(count)) + rest,
        count == records.len() ==> rest.len() == 0,
    decreases records.len() - count,
{
    if count == records.len() {
        assert(records.take(count) =~= records);
        assert(log_image(records) + Seq::<u8>::empty() =~= log_image(records));
        Seq::empty()
    } else {
        let later = lemma_log_prefix(records, count + 1);
        let head = records.take(count + 1);
        assert(head.drop_last() =~= records.take(count));
        let frame = framed(log_offset(head.drop_last()), head.last(), true);
        assert(log_image(records.take(count)) + (frame + later) =~= log_image(head) + later);
        frame + later
    }
}

/// Whether some bytes are a log of some records. Behind them there may be what is left of a
/// record that was not written to its end; a strict reader takes that for a fault.
pub open spec fn is_log_of(bytes: Seq<u8>, records: Seq<Seq<u8>>, strict: bool) -> bool {
    &&& log_image(records).is_prefix_of(bytes)
    &&& match next_record(bytes, log_image(records).len() as int, None) {
        Logical::End => true,
        Logical::Fault { text: _, at: _ } => !strict,
        Logical::Record { data: _, next: _ } => false,
    }
}

/// Whatever comes behind them, the records of a log are read back.
pub proof fn law_records_stay(bytes: Seq<u8>, records: Seq<Seq<u8>>, count: int)
    requires
        log_image(records).is_prefix_of(bytes),
        0 <= count < records.len(),
    ensures
        next_record(bytes, log_image(records.take(count)).len() as int, None) == (
        Logical::Record {
            data: records[count],
            next: log_image(records.take(count + 1)).len() as int,
        }),
{
    let head = records.take(count + 1);
    let before = records.take(count);
    let rest = lemma_log_prefix(records, count + 1);
    let tail = bytes.skip(log_image(records).len() as int);
    assert(head.drop_last() =~= before);
    let image = log_image(records);
    assert(image == log_image(head) + rest);
    assert(bytes =~= image + tail) by {
        assert(bytes.take(image.len() as int) =~= image);
    }
    assert((log_image(head) + rest) + tail =~= log_image(head) + (rest + tail));
    lemma_log_offset(before);
    lemma_read_framed(log_image(before), log_offset(before), head.last(), None, rest + tail);
    assert(log_image(head) == log_image(before) + framed(log_offset(before), head.last(), true));
}

/// A log that was written to its end is one of its records, for a strict reader too.
pub proof fn law_whole_log(records: Seq<Seq<u8>>, strict: bool)
    ensures
        is_log_of(log_image(records), records, strict),
{
    law_log_round_trip(records, records.len() as int);
    assert(records.take(records.len() as int) =~= records);
}

/// A log reads as what was written to it: behind the first records comes the
/// next one, and behind the last the end.
pub proof fn law_log_round_trip(records: Seq<Seq<u8>>, count: int)
    requires
        0 <= count <= records.len(),
    ensures
        count < records.len() ==> next_record(
            log_image(records),
            log_image(records.take(count)).len() as int,
            None,
        ) == (Logical::Record {
            data: records[count],
            next: log_image(records.take(count + 1)).len() as int,
        }),
        count == records.len() ==> next_record(
            log_image(records),
            log_image(records.take(count)).len() as int,
            None,
        ) is End,
{
    if count < records.len() {
        let head = records.take(count + 1);
        let before = records.take(count);
        let rest = lemma_log_prefix(records, count + 1);
        assert(head.drop_last() =~= before);
        lemma_log_offset(before);
        lemma_read_framed(log_image(before), log_offset(before), head.last(), None, rest);
    } else {
        assert(records.take(count) =~= records);
        let length = log_image(records).len() as int;
        lemma_physical_end(log_image(records), length, length);
    }
}

/// A writer that starts afresh writes the log of its records.
pub proof fn law_log_grows(records: Seq<Seq<u8>>, record: Seq<u8>)
    ensures
        log_image(records.push(record)) == log_image(records) + framed(
            log_offset(records),
            record,
            true,
        ),
        log_offset(records.push(record)) == offset_after(
            log_offset(records),
            record.len() as int,
        ),
        log_image(Seq::empty()) == Seq::<u8>::empty(),
        log_offset(Seq::empty()) == 0,
{
    assert(records.push(record).drop_last() =~= records);
}

/// Where the header of the first fragment of a record is.
pub open spec fn record_place(records: Seq<Seq<u8>>, index: int) -> int {
    let before = records.take(index);
    (log_image(before).len() + padding(log_offset(before)).len()) as int
}

/// Whether the log of some records has a byte changed that the checksum of the first fragment
/// of a record covers, or one of the checksum itself: any byte of the fragment but those of
/// its length.
pub open spec fn has_changed_byte(
    bytes: Seq<u8>,
    records: Seq<Seq<u8>>,
    index: int,
    at: int,
) -> bool {
    let image = log_image(records);
    let place = record_place(records, index);
    let taken = fragment_len(log_offset(records.take(index)), records[index].len() as int);
    &&& 0 <= index < records.len()
    &&& place <= at < place + HEADER_SIZE + taken
    &&& at != place + 4
    &&& at != place + 5
    &&& bytes.len() == image.len()
    &&& bytes[at] != image[at]
    &&& forall|i: int| 0 <= i < image.len() && i != at ==> bytes[i] == image[i]
}

/// A fragment with a byte changed, other than one of its length, is found to be faulty.
proof fn lemma_changed_fragment(bytes: Seq<u8>, place: int, kind: u8, payload: Seq<u8>, at: int)
    requires
        0 <= place,
        place % BLOCK_SIZE as int + HEADER_SIZE + payload.len() <= BLOCK_SIZE,
        place + HEADER_SIZE + payload.len() <= bytes.len(),
        place <= at < place + HEADER_SIZE + payload.len(),
        at != place + 4,
        at != place + 5,
        bytes[at] != fragment(kind, payload)[at - place],
        forall|i: int|
            place <= i < place + HEADER_SIZE + payload.len() && i != at ==> bytes[i]
                == #[trigger] fragment(kind, payload)[i - place],
    ensures
        next_physical(bytes, place) == (Physical::Fault {
            text: "LogReader: bad record CRC"@,
            at: place,
        }),
{
    reveal(next_physical);
    let one = fragment(kind, payload);
    let header = LogRecordHeader {
        crc: fragment_crc(kind, payload),
        length: payload.len() as u16,
        kind,
    };
    let end = place + HEADER_SIZE + payload.len();
    log_record_header::law_header_round_trip(header, payload);
    let found = log_record_header::header_of(bytes.skip(place));
    let tail = bytes.skip(place);
    assert forall|i: int| 0 <= i < one.len() && i != at - place implies tail[i] == one[i] by {
        assert(bytes[i + place] == one[i + place - place]);
    }
    assert(tail.subrange(4, 6) =~= one.subrange(4, 6));
    let read = bytes.subrange(place + HEADER_SIZE, end);
    let said = one.skip(HEADER_SIZE as int);
    assert(said =~= payload);
    if at < place + 4 {
        let (a, b) = (tail.take(4), one.take(4));
        assert(a[at - place] != b[at - place]);
        assert(read =~= payload);
        coding::law_fixed_read_write(a);
        coding::law_fixed_read_write(b);
        coding::lemma_pow256_values();
        let (x, y) = (coding::le_value(a) as u32, coding::le_value(b) as u32);
        crc32c::law_mask_round_trip(x);
        crc32c::law_mask_round_trip(y);
    } else if at == place + 6 {
        assert(read =~= payload);
        let (a, b) = (seq![found.kind], seq![kind]);
        crc32c::law_changed_byte_is_noticed(0, a, b, 0);
        crc32c::law_extension_keeps_apart(crc32c::checksum(a), crc32c::checksum(b), payload);
        assert(tail.take(4) =~= one.take(4));
    } else {
        let moved = at - place - HEADER_SIZE;
        assert(tail.take(4) =~= one.take(4));
        assert forall|i: int| 0 <= i < read.len() && i != moved implies read[i] == payload[i] by {
            assert(tail[i + HEADER_SIZE] == one[i + HEADER_SIZE]);
        }
        assert(read[moved] != payload[moved]) by {
            assert(one[at - place] == said[moved]);
        }
        crc32c::law_changed_byte_is_noticed(
            crc32c::checksum(seq![kind]),
            read,
            payload,
            moved,
        );
    }
}

/// Where one byte of a log is changed, the records ahead of it are read back, and then the
/// fault is met, again and again.
pub proof fn law_changed_byte_is_met(
    bytes: Seq<u8>,
    records: Seq<Seq<u8>>,
    index: int,
    at: int,
)
    requires
        has_changed_byte(bytes, records, index, at),
    ensures
        forall|k: int|
            0 <= k < index ==> #[trigger] next_record(
                bytes,
                log_image(records.take(k)).len() as int,
                None,
            ) == (Logical::Record {
                data: records[k],
                next: log_image(records.take(k + 1)).len() as int,
            }),
        next_record(bytes, log_image(records.take(index)).len() as int, None) == (Logical::Fault {
            text: "LogReader: bad record CRC"@,
            at: record_place(records, index),
        }),
        next_record(bytes, record_place(records, index), None) == (Logical::Fault {
            text: "LogReader: bad record CRC"@,
            at: record_place(records, index),
        }),
{
    let before = records.take(index);
    let head = records.take(index + 1);
    let front = log_image(before);
    let image = log_image(records);
    let offset = log_offset(before);
    let data = records[index];
    let taken = fragment_len(offset, data.len() as int);
    let kind = fragment_kind(true, taken == data.len());
    let payload = data.take(taken);
    let place = record_place(records, index);
    let rest = lemma_log_prefix(records, index + 1);
    assert(head.drop_last() =~= before);
    lemma_log_offset(before);
    let one = lemma_first_fragment(front, offset, data, true, rest);
    let frame = framed(offset, data, true);
    assert(image =~= front + frame + rest);
    lemma_framed_step(Seq::empty(), offset, data, true);
    assert(Seq::<u8>::empty() + padding(offset) =~= padding(offset));
    assert(Seq::<u8>::empty() + frame =~= frame);
    let header = LogRecordHeader {
        crc: fragment_crc(kind, payload),
        length: payload.len() as u16,
        kind,
    };
    log_record_header::law_header_round_trip(header, Seq::empty());
    let end = place + HEADER_SIZE + taken;
    assert(image.subrange(place, end) =~= fragment(kind, payload));
    lemma_skip_padding(bytes, front.len() as int, offset);
    assert forall|i: int|
        place <= i < place + HEADER_SIZE + payload.len() && i != at implies bytes[i]
        == #[trigger] fragment(kind, payload)[i - place] by {
        assert(image[i] == image.subrange(place, end)[i - place]);
    }
    assert(image[at] == image.subrange(place, end)[at - place]);
    lemma_changed_fragment(bytes, place, kind, payload, at);
    law_fault_stays(bytes, front.len() as int);
    assert(front.is_prefix_of(bytes)) by {
        assert forall|i: int| 0 <= i < front.len() implies front[i] == bytes[i] by {
            assert(image[i] == front[i]);
        }
    }
    assert forall|k: int| 0 <= k < index implies #[trigger] next_record(
        bytes,
        log_image(records.take(k)).len() as int,
        None,
    ) == (Logical::Record {
        data: records[k],
        next: log_image(records.take(k + 1)).len() as int,
    }) by {
        law_records_stay(bytes, before, k);
        assert(before.take(k) =~= records.take(k));
        assert(before.take(k + 1) =~= records.take(k + 1));
    }
}

/// What a reader hands out of a log, read after read, where it stands at the given places.
pub open spec fn are_reads(
    bytes: Seq<u8>,
    places: Seq<int>,
    reads: Seq<status::Result<Option<Vec<u8>>>>,
) -> bool {
    &&& places.len() == reads.len() + 1
    &&& places[0] == 0
    &&& forall|k: int| 0 <= k < reads.len() ==> #[trigger] is_read(bytes, places, reads, k)
}

/// One read of a log.
pub open spec fn is_read(
    bytes: Seq<u8>,
    places: Seq<int>,
    reads: Seq<status::Result<Option<Vec<u8>>>>,
    k: int,
) -> bool {
    reads_as(next_record(bytes, places[k], None), reads[k], bytes, places[k + 1])
}

/// Where one byte of a log is changed, a reader hands out the records ahead of it, and from
/// then on each read fails as corrupted.
pub proof fn law_reads_end_at_changed_byte(
    bytes: Seq<u8>,
    records: Seq<Seq<u8>>,
    index: int,
    at: int,
    places: Seq<int>,
    reads: Seq<status::Result<Option<Vec<u8>>>>,
    k: int,
)
    requires
        has_changed_byte(bytes, records, index, at),
        are_reads(bytes, places, reads),
        0 <= k < reads.len(),
    ensures
        k < index ==> (reads[k] matches Ok(found) && found matches Some(record) && record@
            == records[k]),
        k >= index ==> (reads[k] matches Err(error) && error.says(
            status::Code::Corruption,
            "LogReader: bad record CRC"@,
        )),
{
    law_changed_byte_is_met(bytes, records, index, at);
    lemma_reads_reach(bytes, records, index, at, places, reads, k);
    assert(is_read(bytes, places, reads, k));
}

/// Where a reader stands ahead of each read.
proof fn lemma_reads_reach(
    bytes: Seq<u8>,
    records: Seq<Seq<u8>>,
    index: int,
    at: int,
    places: Seq<int>,
    reads: Seq<status::Result<Option<Vec<u8>>>>,
    k: int,
)
    requires
        has_changed_byte(bytes, records, index, at),
        are_reads(bytes, places, reads),
        0 <= k < reads.len(),
    ensures
        k <= index ==> places[k] == log_image(records.take(k)).len(),
        k > index ==> next_record(bytes, places[k], None) == next_record(
            bytes,
            record_place(records, index),
            None,
        ),
    decreases k,
{
    if k == 0 {
        assert(records.take(0) =~= Seq::empty());
    } else {
        law_changed_byte_is_met(bytes, records, index, at);
        lemma_reads_reach(bytes, records, index, at, places, reads, k - 1);
        assert(is_read(bytes, places, reads, k - 1));
        if k - 1 < index {
            assert(next_record(bytes, log_image(records.take(k - 1)).len() as int, None) is Record);
        }
    }
}

} // verus!
