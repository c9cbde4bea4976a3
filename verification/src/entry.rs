use vstd::prelude::*;
use vstd::bytes::*;
use vstd::slice::slice_subrange;

use crate::symbol::SymbolId;

verus! {

/// Size in bytes of one encoded index entry.
pub const ENTRY_SIZE: usize = 40;

/// Zone-map entry for one (symbol, segment) pair: the timestamps seen for
/// the symbol in the segment span `[min_ts, max_ts]`.
///
/// Layout (40 bytes, little-endian):
/// `[symbol: 8][segment_id: 4][pad: 4][min_ts: 8][max_ts: 8][event_count: 8]`.
#[derive(Clone, Copy, Debug)]
pub struct IndexEntry {
    /// Symbol the entry is about.
    pub symbol: SymbolId,
    /// Segment number (`segment_0042.alog` has id 42).
    pub segment_id: u32,
    /// Explicit padding.
    pub _pad: [u8; 4],
    /// Smallest timestamp seen for the symbol in the segment.
    pub min_ts: u64,
    /// Largest timestamp seen for the symbol in the segment.
    pub max_ts: u64,
    /// Number of events of the symbol in the segment.
    pub event_count: u64,
}

/// Whether `[min_ts, max_ts]` meets `[t_start, t_end]`.
pub open spec fn spec_overlaps(e: IndexEntry, t_start: u64, t_end: u64) -> bool {
    e.min_ts <= t_end && e.max_ts >= t_start
}

/// The entry after one more timestamp `ts` has been seen.
pub open spec fn spec_observed(e: IndexEntry, ts: u64) -> IndexEntry {
    IndexEntry {
        min_ts: if ts < e.min_ts { ts } else { e.min_ts },
        max_ts: if ts > e.max_ts { ts } else { e.max_ts },
        event_count: (e.event_count + 1) as u64,
        ..e
    }
}

/// The 40 bytes that encode an entry.
pub open spec fn spec_entry_bytes(e: IndexEntry) -> Seq<u8> {
    e.symbol.0@ + spec_u32_to_le_bytes(e.segment_id) + e._pad@ + spec_u64_to_le_bytes(e.min_ts)
        + spec_u64_to_le_bytes(e.max_ts) + spec_u64_to_le_bytes(e.event_count)
}

/// The index-file layout, field by field: bytes 0..8 hold the symbol's
/// bytes, 8..12 the segment id, 12..16 the padding, 16..24 the smallest
/// timestamp, 24..32 the largest and 32..40 the event count (each number
/// little-endian).
pub proof fn lemma_entry_layout(e: IndexEntry)
    ensures
        spec_entry_bytes(e).len() == 40,
        spec_entry_bytes(e).subrange(0, 8) == e.symbol.0@,
        spec_entry_bytes(e).subrange(8, 12) == spec_u32_to_le_bytes(e.segment_id),
        spec_entry_bytes(e).subrange(12, 16) == e._pad@,
        spec_entry_bytes(e).subrange(16, 24) == spec_u64_to_le_bytes(e.min_ts),
        spec_entry_bytes(e).subrange(24, 32) == spec_u64_to_le_bytes(e.max_ts),
        spec_entry_bytes(e).subrange(32, 40) == spec_u64_to_le_bytes(e.event_count),
{
    let b = spec_entry_bytes(e);
    lemma_auto_spec_u64_to_from_le_bytes();
    lemma_auto_spec_u32_to_from_le_bytes();
    assert(b.subrange(0, 8) =~= e.symbol.0@);
    assert(b.subrange(8, 12) =~= spec_u32_to_le_bytes(e.segment_id));
    assert(b.subrange(12, 16) =~= e._pad@);
    assert(b.subrange(16, 24) =~= spec_u64_to_le_bytes(e.min_ts));
    assert(b.subrange(24, 32) =~= spec_u64_to_le_bytes(e.max_ts));
    assert(b.subrange(32, 40) =~= spec_u64_to_le_bytes(e.event_count));
}

/// The entry that 40 bytes encode.
pub open spec fn spec_entry_from_bytes(b: Seq<u8>) -> IndexEntry {
    choose|e: IndexEntry| spec_entry_bytes(e) == b
}

pub proof fn lemma_entry_bytes_len(e: IndexEntry)
    ensures
        spec_entry_bytes(e).len() == 40,
{
    lemma_auto_spec_u64_to_from_le_bytes();
    lemma_auto_spec_u32_to_from_le_bytes();
}

/// Distinct entries have distinct encodings.
pub proof fn lemma_entry_bytes_injective(a: IndexEntry, b: IndexEntry)
    requires
        spec_entry_bytes(a) == spec_entry_bytes(b),
    ensures
        a == b,
{
    lemma_auto_spec_u64_to_from_le_bytes();
    lemma_auto_spec_u32_to_from_le_bytes();
    let x = spec_entry_bytes(a);
    let y = spec_entry_bytes(b);
    assert(x.subrange(0, 8) =~= a.symbol.0@);
    assert(y.subrange(0, 8) =~= b.symbol.0@);
    assert(x.subrange(8, 12) =~= spec_u32_to_le_bytes(a.segment_id));
    assert(y.subrange(8, 12) =~= spec_u32_to_le_bytes(b.segment_id));
    assert(x.subrange(12, 16) =~= a._pad@);
    assert(y.subrange(12, 16) =~= b._pad@);
    assert(x.subrange(16, 24) =~= spec_u64_to_le_bytes(a.min_ts));
    assert(y.subrange(16, 24) =~= spec_u64_to_le_bytes(b.min_ts));
    assert(x.subrange(24, 32) =~= spec_u64_to_le_bytes(a.max_ts));
    assert(y.subrange(24, 32) =~= spec_u64_to_le_bytes(b.max_ts));
    assert(x.subrange(32, 40) =~= spec_u64_to_le_bytes(a.event_count));
    assert(y.subrange(32, 40) =~= spec_u64_to_le_bytes(b.event_count));
    assert(a.segment_id == spec_u32_from_le_bytes(spec_u32_to_le_bytes(a.segment_id)));
    assert(a.min_ts == spec_u64_from_le_bytes(spec_u64_to_le_bytes(a.min_ts)));
    assert(a.max_ts == spec_u64_from_le_bytes(spec_u64_to_le_bytes(a.max_ts)));
    assert(a.event_count == spec_u64_from_le_bytes(spec_u64_to_le_bytes(a.event_count)));
    assert(a.symbol.0 =~= b.symbol.0);
    assert(a._pad =~= b._pad);
}

/// Decoding an entry's encoding gives the entry back.
pub proof fn lemma_entry_roundtrip(e: IndexEntry)
    ensures
        spec_entry_from_bytes(spec_entry_bytes(e)) == e,
{
    let d = spec_entry_from_bytes(spec_entry_bytes(e));
    assert(spec_entry_bytes(d) == spec_entry_bytes(e));
    lemma_entry_bytes_injective(d, e);
}

/// Appends the little-endian bytes of `x` to `out`.
fn push_u64_le(out: &mut Vec<u8>, x: u64)
    ensures
        final(out)@ == old(out)@ + spec_u64_to_le_bytes(x),
{
    let mut b = u64_to_le_bytes(x);
    out.append(&mut b);
}

impl IndexEntry {
    /// A first entry for `symbol` in `segment_id`, with one timestamp seen.
    pub fn new(symbol: SymbolId, segment_id: u32, first_ts: u64) -> (r: IndexEntry)
        ensures
            r.symbol == symbol,
            r.segment_id == segment_id,
            r._pad@ == seq![0u8, 0u8, 0u8, 0u8],
            r.min_ts == first_ts,
            r.max_ts == first_ts,
            r.event_count == 1,
    {
        IndexEntry { symbol, segment_id, _pad: [0u8; 4], min_ts: first_ts, max_ts: first_ts, event_count: 1 }
    }

    /// Records one more timestamp for this (symbol, segment).
    pub fn observe(&mut self, ts: u64)
        requires
            old(self).event_count < u64::MAX,
        ensures
            *final(self) == spec_observed(*old(self), ts),
    {
        if ts < self.min_ts {
            self.min_ts = ts;
        }
        if ts > self.max_ts {
            self.max_ts = ts;
        }
        self.event_count = self.event_count + 1;
    }

    /// Whether the segment may hold events of the symbol in `[t_start, t_end]`:
    /// `false` means it certainly holds none.
    pub fn overlaps(&self, t_start: u64, t_end: u64) -> (r: bool)
        ensures
            r == spec_overlaps(*self, t_start, t_end),
    {
        self.min_ts <= t_end && self.max_ts >= t_start
    }

    /// The 40-byte encoding of this entry.
    pub fn to_bytes(&self) -> (r: Vec<u8>)
        ensures
            r@ == spec_entry_bytes(*self),
    {
        let mut out: Vec<u8> = Vec::new();
        let mut i: usize = 0;
        while i < 8
            invariant
                i <= 8,
                out@ == self.symbol.0@.take(i as int),
            decreases 8 - i,
        {
            out.push(self.symbol.0[i]);
            assert(self.symbol.0@.take(i as int + 1) =~= self.symbol.0@.take(i as int).push(
                self.symbol.0@[i as int],
            ));
            i = i + 1;
        }
        assert(self.symbol.0@.take(8) =~= self.symbol.0@);
        let mut seg = u32_to_le_bytes(self.segment_id);
        out.append(&mut seg);
        let ghost start = out@;
        let mut j: usize = 0;
        while j < 4
            invariant
                j <= 4,
                out@ == start + self._pad@.take(j as int),
            decreases 4 - j,
        {
            out.push(self._pad[j]);
            assert(self._pad@.take(j as int + 1) =~= self._pad@.take(j as int).push(
                self._pad@[j as int],
            ));
            j = j + 1;
        }
        assert(self._pad@.take(4) =~= self._pad@);
        push_u64_le(&mut out, self.min_ts);
        push_u64_le(&mut out, self.max_ts);
        push_u64_le(&mut out, self.event_count);
        assert(out@ =~= spec_entry_bytes(*self));
        out
    }

    /// Decodes one 40-byte record.
    pub fn from_bytes(chunk: &[u8]) -> (r: IndexEntry)
        requires
            chunk@.len() == 40,
        ensures
            r == spec_entry_from_bytes(chunk@),
    {
        let mut sym = [0u8; 8];
        let mut i: usize = 0;
        while i < 8
            invariant
                i <= 8,
                chunk@.len() == 40,
                forall|j: int| 0 <= j < i ==> sym@[j] == chunk@[j],
            decreases 8 - i,
        {
            sym[i] = chunk[i];
            i = i + 1;
        }
        let mut pad = [0u8; 4];
        let mut k: usize = 0;
        while k < 4
            invariant
                k <= 4,
                chunk@.len() == 40,
                forall|j: int| 0 <= j < k ==> pad@[j] == chunk@[12 + j],
            decreases 4 - k,
        {
            pad[k] = chunk[12 + k];
            k = k + 1;
        }
        let segment_id = u32_from_le_bytes(slice_subrange(chunk, 8, 12));
        let min_ts = u64_from_le_bytes(slice_subrange(chunk, 16, 24));
        let max_ts = u64_from_le_bytes(slice_subrange(chunk, 24, 32));
        let event_count = u64_from_le_bytes(slice_subrange(chunk, 32, 40));
        let e = IndexEntry { symbol: SymbolId::from_raw(sym), segment_id, _pad: pad, min_ts, max_ts, event_count };
        proof {
            lemma_auto_spec_u64_to_from_le_bytes();
            lemma_auto_spec_u32_to_from_le_bytes();
            let b = chunk@;
            assert(spec_u32_to_le_bytes(segment_id) =~= b.subrange(8, 12));
            assert(spec_u64_to_le_bytes(min_ts) =~= b.subrange(16, 24));
            assert(spec_u64_to_le_bytes(max_ts) =~= b.subrange(24, 32));
            assert(spec_u64_to_le_bytes(event_count) =~= b.subrange(32, 40));
            assert(spec_entry_bytes(e) =~= b);
            lemma_entry_roundtrip(e);
        }
        e
    }
}

/// The entry `first` after the further timestamps `rest` have been seen, in order.
pub open spec fn spec_entry_after(first: IndexEntry, rest: Seq<u64>) -> IndexEntry
    decreases rest.len(),
{
    if rest.len() == 0 {
        first
    } else {
        spec_observed(spec_entry_after(first, rest.drop_last()), rest.last())
    }
}

/// No false negatives at entry level. Take the entry that
/// `IndexEntry::new(symbol, segment_id, ts[0])` builds (its span is
/// `[ts[0], ts[0]]`, its count 1) and let it `observe` `ts[1]`, `ts[2]`, ...
/// in turn. Its span is then exactly `[min(ts), max(ts)]` (both bounds are
/// observed timestamps, and every observed timestamp lies between them) and
/// it counts `ts.len()` events; so `overlaps(t_start, t_end)` holds exactly
/// when `min(ts) <= t_end && max(ts) >= t_start`, and it holds whenever one of
/// the observed timestamps lies in `[t_start, t_end]`.
pub proof fn lemma_overlaps_after_observing(first: IndexEntry, ts: Seq<u64>, t_start: u64, t_end: u64)
    requires
        ts.len() >= 1,
        ts.len() <= u64::MAX,
        first.min_ts == ts[0],
        first.max_ts == ts[0],
        first.event_count == 1,
    ensures
        ({
            let e = spec_entry_after(first, ts.drop_first());
            &&& forall|i: int| 0 <= i < ts.len() ==> e.min_ts <= #[trigger] ts[i] <= e.max_ts
            &&& exists|i: int| 0 <= i < ts.len() && ts[i] == e.min_ts
            &&& exists|i: int| 0 <= i < ts.len() && ts[i] == e.max_ts
            &&& e.event_count == ts.len()
            &&& e.symbol == first.symbol && e.segment_id == first.segment_id
            &&& spec_overlaps(e, t_start, t_end) == (e.min_ts <= t_end && e.max_ts >= t_start)
            &&& (exists|i: int| 0 <= i < ts.len() && t_start <= #[trigger] ts[i] <= t_end) ==> spec_overlaps(
                e,
                t_start,
                t_end,
            )
        }),
    decreases ts.len(),
{
    let e = spec_entry_after(first, ts.drop_first());
    if ts.len() == 1 {
        assert(ts.drop_first() =~= Seq::<u64>::empty());
        assert(ts[0] == e.min_ts);
    } else {
        let t = ts.drop_last();
        lemma_overlaps_after_observing(first, t, t_start, t_end);
        assert(ts.drop_first().drop_last() =~= t.drop_first());
        assert(ts.drop_first().last() == ts.last());
        let p = spec_entry_after(first, t.drop_first());
        assert(e == spec_observed(p, ts.last()));
        assert forall|i: int| 0 <= i < ts.len() implies e.min_ts <= #[trigger] ts[i] <= e.max_ts by {
            if i < ts.len() - 1 {
                assert(ts[i] == t[i]);
            }
        }
        if ts.last() < p.min_ts {
            assert(ts[ts.len() - 1] == e.min_ts);
        } else {
            let i = choose|i: int| 0 <= i < t.len() && t[i] == p.min_ts;
            assert(ts[i] == e.min_ts);
        }
        if ts.last() > p.max_ts {
            assert(ts[ts.len() - 1] == e.max_ts);
        } else {
            let i = choose|i: int| 0 <= i < t.len() && t[i] == p.max_ts;
            assert(ts[i] == e.max_ts);
        }
    }
}

} // verus!
