use vstd::prelude::*;
use vstd::slice::slice_subrange;

use crate::event::{
    Event, EVENT_SIZE, spec_event_bytes, spec_encode_events, spec_decode_events,
    spec_event_from_bytes, lemma_event_bytes_len,
};

verus! {

/// Size a segment may reach before rotation: 64 MiB (1_677_721 events).
pub const SEGMENT_MAX_BYTES: u64 = 67108864;

/// Error of a segment writer.
#[derive(Clone, Copy, Debug, PartialEq, Eq, Structural)]
pub enum SegmentError {
    /// The segment has been sealed and takes no more writes.
    Sealed,
}

/// A sealed segment: immutable, synced to disk.
#[derive(Debug)]
pub struct SealedSegment {
    /// Path of the segment file.
    pub path: String,
    /// Number of events in it.
    pub event_count: u64,
}

impl Clone for SealedSegment {
    fn clone(&self) -> (r: SealedSegment)
        ensures
            r == *self,
    {
        SealedSegment { path: self.path.clone(), event_count: self.event_count }
    }
}

/// State of an append-only segment being written.
///
/// Writes are sequential, one 40-byte record per event: `write_event` hands
/// back the record, which the caller appends to the segment file. The
/// writer counts the bytes of the file, those it already had when opened
/// included.
pub struct SegmentWriter {
    path: String,
    bytes_written: u64,
    sealed: bool,
    start_bytes: Ghost<u64>,
    written: Ghost<Seq<Event>>,
}

impl SegmentWriter {
    /// Path of the segment file.
    pub closed spec fn spec_path(&self) -> Seq<char> {
        self.path@
    }

    /// Bytes in the segment file.
    pub closed spec fn spec_bytes_written(&self) -> u64 {
        self.bytes_written
    }

    /// Whether the segment has been sealed.
    pub closed spec fn spec_sealed(&self) -> bool {
        self.sealed
    }

    /// Bytes the file held when the writer was opened.
    pub closed spec fn start_bytes(&self) -> u64 {
        self.start_bytes@
    }

    /// Events written through this writer, in order.
    pub closed spec fn written(&self) -> Seq<Event> {
        self.written@
    }

    /// The byte count is the opening size plus 40 bytes per event written.
    pub closed spec fn wf(&self) -> bool {
        self.bytes_written == self.start_bytes@ + 40 * self.written@.len()
    }

    /// Opens a segment whose file (created if missing) holds `existing_len`
    /// bytes; writing resumes after them.
    pub fn open(path: String, existing_len: u64) -> (r: SegmentWriter)
        ensures
            r.wf(),
            r.spec_path() == path@,
            r.spec_bytes_written() == existing_len,
            !r.spec_sealed(),
            r.start_bytes() == existing_len,
            r.written() == Seq::<Event>::empty(),
    {
        SegmentWriter {
            path,
            bytes_written: existing_len,
            sealed: false,
            start_bytes: Ghost(existing_len),
            written: Ghost(Seq::empty()),
        }
    }

    /// Path of the segment file.
    pub fn path(&self) -> (r: &String)
        ensures
            r@ == self.spec_path(),
    {
        &self.path
    }

    /// Writes `event`: returns the 40-byte record to append to the file,
    /// or `SegmentError::Sealed` if the segment is sealed.
    pub fn write_event(&mut self, event: &Event) -> (r: Result<Vec<u8>, SegmentError>)
        requires
            old(self).wf(),
            old(self).spec_bytes_written() + 40 <= u64::MAX,
        ensures
            final(self).wf(),
            final(self).spec_path() == old(self).spec_path(),
            final(self).spec_sealed() == old(self).spec_sealed(),
            final(self).start_bytes() == old(self).start_bytes(),
            old(self).spec_sealed() ==> r == Err::<Vec<u8>, SegmentError>(SegmentError::Sealed)
                && final(self).spec_bytes_written() == old(self).spec_bytes_written()
                && final(self).written() == old(self).written(),
            !old(self).spec_sealed() ==> (r matches Ok(bytes) && bytes@ == spec_event_bytes(*event)
                && final(self).spec_bytes_written() == old(self).spec_bytes_written() + 40
                && final(self).written() == old(self).written().push(*event)),
    {
        if self.sealed {
            return Err(SegmentError::Sealed);
        }
        let bytes = event.to_bytes();
        self.bytes_written = self.bytes_written + EVENT_SIZE as u64;
        self.written = Ghost(self.written@.push(*event));
        Ok(bytes)
    }

    /// Bytes in the segment file.
    pub fn bytes_written(&self) -> (r: u64)
        ensures
            r == self.spec_bytes_written(),
    {
        self.bytes_written
    }

    /// Number of whole events in the segment file.
    pub fn event_count(&self) -> (r: u64)
        ensures
            r == self.spec_bytes_written() / 40,
    {
        self.bytes_written / EVENT_SIZE as u64
    }

    /// Whether the segment has reached its maximum size.
    pub fn is_full(&self) -> (r: bool)
        ensures
            r == (self.spec_bytes_written() >= SEGMENT_MAX_BYTES),
    {
        self.bytes_written >= SEGMENT_MAX_BYTES
    }

    /// Seals the segment: after the caller has flushed and synced the file,
    /// it is immutable. Returns its path and event count.
    pub fn seal(self) -> (r: SealedSegment)
        ensures
            r.path@ == self.spec_path(),
            r.event_count == self.spec_bytes_written() / 40,
    {
        SealedSegment { path: self.path, event_count: self.bytes_written / EVENT_SIZE as u64 }
    }
}

/// Sequential reader of the events of a segment, from the segment's bytes.
pub struct SegmentReader {
    data: Vec<u8>,
    cursor: usize,
}

impl SegmentReader {
    /// The segment's bytes.
    pub closed spec fn data(&self) -> Seq<u8> {
        self.data@
    }

    /// Events still to be returned.
    pub closed spec fn remaining(&self) -> Seq<Event> {
        spec_decode_events(self.data@.skip(self.cursor as int))
    }

    pub closed spec fn wf(&self) -> bool {
        self.cursor <= self.data@.len()
    }

    /// A reader at the start of the segment whose bytes are `data`.
    pub fn new(data: Vec<u8>) -> (r: SegmentReader)
        ensures
            r.wf(),
            r.data() == data@,
            r.remaining() == spec_decode_events(data@),
    {
        let r = SegmentReader { data, cursor: 0 };
        assert(r.data@.skip(0) =~= r.data@);
        r
    }

    /// Number of whole 40-byte records in the segment.
    pub fn event_count(&self) -> (r: usize)
        ensures
            r == self.data().len() / 40,
    {
        self.data.len() / EVENT_SIZE
    }

    /// The next event, or `None` at the end of the segment.
    pub fn next(&mut self) -> (r: Option<Event>)
        requires
            old(self).wf(),
        ensures
            final(self).wf(),
            final(self).data() == old(self).data(),
            old(self).remaining().len() == 0 ==> r is None && final(self).remaining() == old(
                self,
            ).remaining(),
            old(self).remaining().len() > 0 ==> r == Some(old(self).remaining()[0])
                && final(self).remaining() == old(self).remaining().drop_first(),
    {
        let ghost rest = self.data@.skip(self.cursor as int);
        if self.data.len() - self.cursor < EVENT_SIZE {
            return None;
        }
        let chunk = slice_subrange(self.data.as_slice(), self.cursor, self.cursor + EVENT_SIZE);
        assert(chunk@ =~= rest.take(40));
        match Event::from_bytes(chunk) {
            Some(e) => {
                self.cursor = self.cursor + EVENT_SIZE;
                assert(self.data@.skip(self.cursor as int) =~= rest.skip(40));
                assert(spec_decode_events(rest) =~= seq![e] + spec_decode_events(rest.skip(40)));
                Some(e)
            },
            None => None,
        }
    }

    /// All remaining events, in order.
    pub fn collect(self) -> (r: Vec<Event>)
        requires
            self.wf(),
        ensures
            r@ == self.remaining(),
    {
        let mut reader = self;
        let ghost all = reader.remaining();
        let mut out: Vec<Event> = Vec::new();
        loop
            invariant
                reader.wf(),
                out@ + reader.remaining() == all,
                all == self.remaining(),
            decreases reader.remaining().len(),
        {
            let ghost before = reader.remaining();
            match reader.next() {
                Some(e) => {
                    assert(out@.push(e) + reader.remaining() =~= out@ + before);
                    out.push(e);
                },
                None => {
                    assert(before =~= Seq::<Event>::empty());
                    assert(out@ + before =~= out@);
                    return out;
                },
            }
        }
    }
}

/// The events of a segment written in full by a `SegmentWriter` opened on an
/// empty file are read back in order by a `SegmentReader`.
pub proof fn lemma_segment_read_back(events: Seq<Event>)
    ensures
        spec_decode_events(spec_encode_events(events)) == events,
{
    crate::event::lemma_decode_encode_events(events);
}

} // verus!
