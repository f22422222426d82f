//! The two readers, without the byte source: they keep the window, decide
//! what has to be read next, and cut the bytes that come in into records.
//! Whoever holds the source does the reading and the seeking.

use vstd::prelude::*;
use crate::error::MarcError;
use crate::marcrecord::{
    declared_length, MarcHeader, MarcRecord, MarcRecordBatch, MARCHEADER_SIZE,
};

verus! {

/// What an advance of the buffered reader has come to.
#[derive(Debug, PartialEq, Eq, Clone, Copy, Structural)]
pub enum AdvanceStep {
    /// The source has to be read once, for up to this many bytes, and what
    /// it delivers handed to `fill`.
    Read(usize),
    /// The advance is over; `true` where the source had not run dry when it
    /// was last read.
    Done(bool),
}

/// What the buffered reader has asked the source for and not yet received.
#[derive(Debug, PartialEq, Eq, Clone, Copy, Structural)]
pub enum Stage {
    /// Nothing.
    Idle,
    /// The rest of a leader.
    Leader,
    /// The rest of a record whose leader is in the window.
    Body,
}

/// What a buffered reader stands for: the bytes that it holds and has not
/// consumed, whether the source ran dry at the last read, and the read
/// that it waits for with the window size that this read is to reach.
pub struct ReaderState {
    pub window: Seq<u8>,
    pub eof: bool,
    pub stage: Stage,
    pub wanted: nat,
}

/// The record at the start of a window: the bytes that its leader declares,
/// where the window holds a leader and all of these bytes. A leader that
/// declares less than its own length names no record.
pub open spec fn current_record(window: Seq<u8>) -> Option<Seq<u8>> {
    if window.len() >= 24 && 24 <= declared_length(window.subrange(0, 24)) <= window.len() {
        Some(window.subrange(0, declared_length(window.subrange(0, 24)) as int))
    } else {
        None
    }
}

/// The window without the record at its start, if there is one.
pub open spec fn consumed(window: Seq<u8>) -> Seq<u8> {
    match current_record(window) {
        Some(r) => window.subrange(r.len() as int, window.len() as int),
        None => window,
    }
}

/// The reader at rest with a window and an end-of-stream flag.
pub open spec fn at_rest(window: Seq<u8>, eof: bool) -> ReaderState {
    ReaderState { window, eof, stage: Stage::Idle, wanted: 0 }
}

/// The second half of an advance, with nothing pending. Without a whole
/// leader in the window the advance is over and has failed. With one, a
/// declared length below 24 is malformed; a record that is in the window
/// ends the advance; and for any other the rest of it is asked for.
pub open spec fn seek_body_spec(window: Seq<u8>, eof: bool) -> (
    ReaderState,
    Result<AdvanceStep, MarcError>,
) {
    if window.len() < 24 {
        (at_rest(window, eof), Ok(AdvanceStep::Done(false)))
    } else {
        let l = declared_length(window.subrange(0, 24));
        if l < 24 {
            (at_rest(window, eof), Err(MarcError::Malformed))
        } else if window.len() >= l {
            (at_rest(window, eof), Ok(AdvanceStep::Done(!eof)))
        } else {
            (
                ReaderState { window, eof, stage: Stage::Body, wanted: l },
                Ok(AdvanceStep::Read((l - window.len()) as usize)),
            )
        }
    }
}

/// An advance: the record at the start of the window is consumed; then the
/// bytes that a leader lacks are asked for, or, with a leader in the window,
/// the advance goes on with its second half.
pub open spec fn advance_spec(s: ReaderState) -> (ReaderState, Result<AdvanceStep, MarcError>) {
    let window = consumed(s.window);
    if window.len() >= 24 {
        seek_body_spec(window, s.eof)
    } else {
        (
            ReaderState { window, eof: s.eof, stage: Stage::Leader, wanted: 24 },
            Ok(AdvanceStep::Read((24 - window.len()) as usize)),
        )
    }
}

/// The answer to a read: the bytes join the window, and the source has run
/// dry where the window is still smaller than wanted. After a read for a
/// leader the advance fails where the source has run dry and goes on with
/// its second half where not; after a read for a record it is over.
pub open spec fn fill_spec(s: ReaderState, bytes: Seq<u8>) -> (
    ReaderState,
    Result<AdvanceStep, MarcError>,
) {
    let window = s.window + bytes;
    let eof = window.len() < s.wanted;
    if s.stage == Stage::Leader && !eof {
        seek_body_spec(window, eof)
    } else {
        (at_rest(window, eof), Ok(AdvanceStep::Done(s.stage == Stage::Body && !eof)))
    }
}

/// The window logic of a reader that hands out one record after the other
/// from a stream of records.
pub struct BufferedMarcReader {
    buffer: Vec<u8>,
    offset: usize,
    eof: bool,
    stage: Stage,
    wanted: usize,
}

impl View for BufferedMarcReader {
    type V = ReaderState;

    closed spec fn view(&self) -> ReaderState {
        ReaderState {
            window: self.buffer@.subrange(self.offset as int, self.buffer@.len() as int),
            eof: self.eof,
            stage: self.stage,
            wanted: self.wanted as nat,
        }
    }
}

impl BufferedMarcReader {
    /// Whether the cursor lies in the buffer, and a pending read is one for
    /// more than the window holds.
    pub closed spec fn wf(&self) -> bool {
        &&& self.offset <= self.buffer@.len()
        &&& self.stage == Stage::Idle ==> self.wanted == 0
        &&& self.stage != Stage::Idle ==> self.offset == 0 && self.buffer@.len() < self.wanted
    }

    /// The number of bytes that the buffer holds: the window, and before
    /// it what has been consumed and not yet dropped.
    pub closed spec fn buffered(&self) -> nat {
        self.buffer@.len()
    }

    /// A reader with an empty window that waits for nothing.
    pub fn new() -> (r: BufferedMarcReader)
        ensures
            r.wf(),
            r@ == at_rest(Seq::empty(), false),
            r.buffered() == 0,
    {
        let r = BufferedMarcReader {
            buffer: Vec::new(),
            offset: 0,
            eof: false,
            stage: Stage::Idle,
            wanted: 0,
        };
        assert(r@.window =~= Seq::<u8>::empty());
        r
    }

    /// Whether the source had run dry when it was last read.
    pub fn is_eof(&self) -> (r: bool)
        ensures
            r == self@.eof,
    {
        self.eof
    }

    /// The leader at the start of the window, once the window holds one.
    pub fn get_header(&self) -> (r: Option<MarcHeader<'_>>)
        requires
            self.wf(),
        ensures
            match r {
                Some(h) => self@.window.len() >= 24 && h@ == self@.window.subrange(0, 24),
                None => self@.window.len() < 24,
            },
    {
        if self.buffer.len() - self.offset < MARCHEADER_SIZE {
            return None;
        }
        let header: &[u8] = &self.buffer.as_slice()[self.offset..self.offset + MARCHEADER_SIZE];
        proof {
            assert(header@ =~= self@.window.subrange(0, 24));
        }
        Some(MarcHeader::new(header))
    }

    /// The record at the start of the window, once the window holds all of it.
    pub fn get(&self) -> (r: Option<MarcRecord<'_>>)
        requires
            self.wf(),
        ensures
            match r {
                Some(record) => current_record(self@.window) == Some(record@) && record.leader()
                    == self@.window.subrange(0, 24),
                None => current_record(self@.window) is None,
            },
    {
        let header = match self.get_header() {
            Some(header) => header,
            None => {
                return None;
            },
        };
        let record_length: usize = header.record_length();
        if record_length < MARCHEADER_SIZE || self.buffer.len() - self.offset < record_length {
            return None;
        }
        let data: &[u8] = &self.buffer.as_slice()[self.offset + MARCHEADER_SIZE..self.offset
            + record_length];
        let record = MarcRecord::new(header, data);
        proof {
            record.lemma_view();
            assert(record@ =~= self@.window.subrange(0, record_length as int));
        }
        Some(record)
    }

    /// Makes room for a read that is to bring the window to `read_size`
    /// bytes, and tells how many bytes are missing. Where the window holds
    /// that many, nothing happens. Where not, the window is moved to the
    /// start of the buffer.
    fn refill_buffer(&mut self, read_size: usize) -> (missing: usize)
        requires
            old(self).wf(),
            old(self).stage == Stage::Idle,
        ensures
            final(self).wf(),
            final(self)@ == old(self)@,
            missing == if old(self)@.window.len() >= read_size {
                0
            } else {
                read_size - old(self)@.window.len()
            },
            missing > 0 ==> final(self).offset == 0,
            final(self).buffered() <= old(self).buffered(),
    {
        let live: usize = self.buffer.len() - self.offset;
        if live >= read_size {
            return 0;
        }
        if self.offset != 0 {
            // copy the end to the beginning
            let ghost window = self@.window;
            let mut i: usize = 0;
            let mut j: usize = self.offset;
            while j < self.buffer.len()
                invariant
                    self.offset == old(self).offset,
                    self.eof == old(self).eof,
                    self.stage == old(self).stage,
                    self.wanted == old(self).wanted,
                    self.buffer@.len() == old(self).buffer@.len(),
                    0 < self.offset <= j <= self.buffer@.len(),
                    i == j - self.offset,
                    forall|k: int| 0 <= k < i ==> self.buffer@[k] == window[k],
                    forall|k: int| j <= k < self.buffer@.len() ==> self.buffer@[k] == window[k
                        - self.offset],
                    window.len() == self.buffer@.len() - self.offset,
                decreases self.buffer@.len() - j,
            {
                let b: u8 = self.buffer[j];
                self.buffer[i] = b;
                i += 1;
                j += 1;
            }
            self.buffer.truncate(live);
            self.offset = 0;
            assert(self@.window =~= window);
        }
        read_size - live
    }

    /// The second half of an advance.
    fn seek_body(&mut self) -> (r: Result<AdvanceStep, MarcError>)
        requires
            old(self).wf(),
            old(self).stage == Stage::Idle,
        ensures
            final(self).wf(),
            (final(self)@, r) == seek_body_spec(old(self)@.window, old(self)@.eof),
            final(self).buffered() <= old(self).buffered(),
            final(self)@.stage != Stage::Idle ==> final(self).buffered() == final(self)@.window.len(),
    {
        let next_record_length: usize = match self.get_header() {
            Some(header) => header.record_length(),
            None => {
                return Ok(AdvanceStep::Done(false));
            },
        };
        if next_record_length < MARCHEADER_SIZE {
            return Err(MarcError::Malformed);
        }
        let missing: usize = self.refill_buffer(next_record_length);
        if missing == 0 {
            return Ok(AdvanceStep::Done(!self.eof));
        }
        self.stage = Stage::Body;
        self.wanted = next_record_length;
        Ok(AdvanceStep::Read(missing))
    }

    /// Moves past the record at the start of the window, if there is one,
    /// and sets out for the next: the result says what the source has to
    /// be read for, or that the advance is over. Before the source is
    /// asked for bytes, what has been consumed is dropped from the buffer.
    pub fn advance(&mut self) -> (r: Result<AdvanceStep, MarcError>)
        requires
            old(self).wf(),
        ensures
            final(self).wf(),
            (final(self)@, r) == advance_spec(old(self)@),
            final(self).buffered() <= old(self).buffered(),
            final(self)@.stage != Stage::Idle ==> final(self).buffered() == final(self)@.window.len(),
    {
        // move past the record that is in the window
        let record_length: usize = match self.get() {
            Some(record) => {
                proof {
                    record.lemma_view();
                    assert(record@.len() == record.leader().len() + record.body().len());
                }
                record.record_length()
            },
            None => 0,
        };
        let ghost before = self@.window;
        assert(record_length == before.len() - consumed(before).len());
        assert(self.offset + record_length <= self.buffer.len());
        self.stage = Stage::Idle;
        self.wanted = 0;
        self.offset += record_length;
        proof {
            assert(self@.window =~= consumed(before));
        }
        let missing: usize = self.refill_buffer(MARCHEADER_SIZE);
        if missing > 0 {
            self.stage = Stage::Leader;
            self.wanted = MARCHEADER_SIZE;
            return Ok(AdvanceStep::Read(missing));
        }
        self.seek_body()
    }

    /// Takes what the source delivered for the read that the last step
    /// asked for, and goes on with the advance. `bytes` is empty where the
    /// source has nothing left. Where no read was asked for, the bytes
    /// join the window all the same, and the result is `Done(false)`.
    pub fn fill(&mut self, bytes: &[u8]) -> (r: Result<AdvanceStep, MarcError>)
        requires
            old(self).wf(),
        ensures
            final(self).wf(),
            (final(self)@, r) == fill_spec(old(self)@, bytes@),
            final(self).buffered() <= old(self).buffered() + bytes@.len(),
            final(self)@.stage != Stage::Idle ==> final(self).buffered() == final(self)@.window.len(),
    {
        let stage: Stage = self.stage;
        self.buffer.extend_from_slice(bytes);
        self.eof = self.buffer.len() < self.wanted;
        self.stage = Stage::Idle;
        self.wanted = 0;
        proof {
            assert(self@.window =~= old(self)@.window + bytes@);
        }
        match stage {
            Stage::Leader => {
                if self.eof {
                    Ok(AdvanceStep::Done(false))
                } else {
                    self.seek_body()
                }
            },
            Stage::Body => Ok(AdvanceStep::Done(!self.eof)),
            Stage::Idle => Ok(AdvanceStep::Done(false)),
        }
    }
}

/// Where the scan of a block that has come to `i` stops: at the end of the
/// last record that lies in the block as a whole. A leader that declares
/// less than its own length is malformed.
pub open spec fn scan_end(block: Seq<u8>, i: int) -> Result<int, MarcError>
    decreases block.len() - i,
{
    if i < 0 || i + 24 > block.len() {
        Ok(i)
    } else {
        let l = declared_length(block.subrange(i, i + 24));
        if l < 24 {
            Err(MarcError::Malformed)
        } else if i + l > block.len() {
            Ok(i)
        } else {
            scan_end(block, i + l)
        }
    }
}

/// The records that the scan of a block finds from `i` on, each with the
/// length that its leader declares.
pub open spec fn scan_records(block: Seq<u8>, i: int) -> Seq<Seq<u8>>
    decreases block.len() - i,
{
    if i < 0 || i + 24 > block.len() {
        Seq::empty()
    } else {
        let l = declared_length(block.subrange(i, i + 24));
        if l < 24 || i + l > block.len() {
            Seq::empty()
        } else {
            seq![block.subrange(i, i + l)] + scan_records(block, i + l)
        }
    }
}

/// The bytes of each record of a list.
pub open spec fn record_views(records: Seq<MarcRecord>) -> Seq<Seq<u8>> {
    Seq::new(records.len(), |k: int| records[k]@)
}

/// The record logic of a reader that takes a stream of records block by
/// block. It keeps the position in the stream at which the next block has
/// to start.
#[derive(Debug)]
pub struct MarcReader {
    position: u64,
}

impl MarcReader {
    /// The position in the stream at which the next block has to start.
    pub closed spec fn spec_position(&self) -> u64 {
        self.position
    }

    /// A reader whose first block starts at `position`.
    pub fn new(position: u64) -> (r: MarcReader)
        ensures
            r.spec_position() == position,
    {
        MarcReader { position }
    }

    /// The position in the stream at which the next block has to start:
    /// the source is to be set there before it is read again.
    #[verifier::when_used_as_spec(spec_position)]
    pub fn position(&self) -> (r: u64)
        ensures
            r == self.spec_position(),
    {
        self.position
    }

    /// Cuts a block into records. `mem` holds in its first `read` bytes
    /// what the source delivered at the reader's position. An empty block
    /// is the end of the stream. The records that lie in the block as a
    /// whole are handed out, and the position moves behind the last of
    /// them; a block that holds no whole record is an error, and so is a
    /// leader that declares less than its own length.
    pub fn read_batch<'s>(&mut self, mem: &'s [u8], read: usize) -> (r: Result<
        Option<MarcRecordBatch<'s>>,
        MarcError,
    >)
        requires
            read <= mem@.len(),
            old(self).position() + read <= u64::MAX,
        ensures
            read == 0 ==> (r matches Ok(None)) && final(self).position() == old(self).position(),
            read > 0 ==> match scan_end(mem@.take(read as int), 0) {
                Err(e) => (r matches Err(x) && x == e) && final(self).position() == old(self).position(),
                Ok(end) => if end == 0 {
                    (r matches Err(x) && x == MarcError::NoProgress) && final(self).position()
                        == old(self).position()
                } else {
                    (r matches Ok(Some(batch)) && record_views(batch.records@) == scan_records(
                        mem@.take(read as int),
                        0,
                    )) && final(self).position() == old(self).position() + end
                },
            },
    {
        let mut records: Vec<MarcRecord<'s>> = Vec::with_capacity(mem.len() / 10000);
        let mut i: usize = 0;
        if read == 0 {
            return Ok(None);
        }
        let ghost block = mem@.take(read as int);
        proof {
            assert(record_views(records@) =~= Seq::<Seq<u8>>::empty());
        }
        while read - i >= MARCHEADER_SIZE
            invariant_except_break
                0 <= i <= read <= mem@.len(),
                block == mem@.take(read as int),
                scan_end(block, i as int) == scan_end(block, 0),
                record_views(records@) + scan_records(block, i as int) == scan_records(block, 0),
            ensures
                0 <= i <= read <= mem@.len(),
                scan_end(block, 0) == Ok::<int, MarcError>(i as int),
                record_views(records@) == scan_records(block, 0),
            decreases read - i,
        {
            let header = MarcHeader::new(&mem[i..i + MARCHEADER_SIZE]);
            proof {
                assert(mem@.subrange(i as int, i + 24) =~= block.subrange(i as int, i + 24));
            }
            let record_length: usize = header.record_length();
            if record_length < MARCHEADER_SIZE {
                return Err(MarcError::Malformed);
            }
            if record_length <= read - i {
                // still fits in the block
                let record = MarcRecord::new(header, &mem[i + MARCHEADER_SIZE..i + record_length]);
                proof {
                    record.lemma_view();
                    assert(record@ =~= block.subrange(i as int, i + record_length));
                    assert(record_views(records@.push(record)) =~= record_views(records@).push(
                        record@,
                    ));
                    assert(record_views(records@).push(record@) + scan_records(
                        block,
                        i + record_length,
                    ) =~= record_views(records@) + scan_records(block, i as int));
                }
                records.push(record);
                i += record_length;
            } else {
                proof {
                    assert(record_views(records@) + scan_records(block, i as int)
                        =~= record_views(records@));
                }
                break ;
            }
        }
        if i == 0 {
            return Err(MarcError::NoProgress);
        }
        // the next block starts behind the last whole record
        self.position = self.position + i as u64;
        Ok(Some(MarcRecordBatch { records }))
    }
}

} // verus!
