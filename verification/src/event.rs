use vstd::prelude::*;
use vstd::bytes::*;
use vstd::slice::slice_subrange;

use crate::symbol::SymbolId;

verus! {

/// Size in bytes of one encoded event.
pub const EVENT_SIZE: usize = 40;

/// Kind of market event; stored as one byte (0, 1 or 2).
#[derive(Clone, Copy, Debug, PartialEq, Eq, Structural)]
pub enum EventKind {
    Trade,
    BidUpdate,
    AskUpdate,
}

/// The byte that encodes a kind.
pub open spec fn spec_kind_byte(k: EventKind) -> u8 {
    match k {
        EventKind::Trade => 0u8,
        EventKind::BidUpdate => 1u8,
        EventKind::AskUpdate => 2u8,
    }
}

/// The kind that a byte encodes, if any.
pub open spec fn spec_kind_from_byte(b: u8) -> Option<EventKind> {
    if b == 0 {
        Some(EventKind::Trade)
    } else if b == 1 {
        Some(EventKind::BidUpdate)
    } else if b == 2 {
        Some(EventKind::AskUpdate)
    } else {
        None
    }
}

impl EventKind {
    /// The byte that encodes this kind.
    pub fn to_byte(&self) -> (r: u8)
        ensures
            r == spec_kind_byte(*self),
    {
        match self {
            EventKind::Trade => 0,
            EventKind::BidUpdate => 1,
            EventKind::AskUpdate => 2,
        }
    }

    /// The kind that `b` encodes; `None` for a byte other than 0, 1, 2.
    pub fn from_byte(b: u8) -> (r: Option<EventKind>)
        ensures
            r == spec_kind_from_byte(b),
    {
        if b == 0 {
            Some(EventKind::Trade)
        } else if b == 1 {
            Some(EventKind::BidUpdate)
        } else if b == 2 {
            Some(EventKind::AskUpdate)
        } else {
            None
        }
    }
}

/// Fundamental unit of the store: one market event, 40 bytes on disk.
///
/// Layout (little-endian):
/// `[timestamp_ns: 8][symbol: 8][price: 8][volume: 8][kind: 1][pad: 7]`.
/// Price and volume are IEEE-754 doubles; the library carries them as their
/// bit patterns (`f64::to_bits`), which is exactly what the layout stores.
#[derive(Clone, Copy, Debug)]
pub struct Event {
    /// Nanoseconds since the Unix epoch (UTC).
    pub timestamp_ns: u64,
    /// Instrument identifier.
    pub symbol: SymbolId,
    /// Bit pattern of the price (`f64`).
    pub price_bits: u64,
    /// Bit pattern of the traded volume or order size (`f64`).
    pub volume_bits: u64,
    /// Event kind.
    pub kind: EventKind,
    /// Explicit padding to 40 bytes.
    pub _pad: [u8; 7],
}

/// The 40 bytes that encode an event.
pub open spec fn spec_event_bytes(e: Event) -> Seq<u8> {
    spec_u64_to_le_bytes(e.timestamp_ns) + e.symbol.0@ + spec_u64_to_le_bytes(e.price_bits)
        + spec_u64_to_le_bytes(e.volume_bits) + seq![spec_kind_byte(e.kind)] + e._pad@
}

/// The record layout, field by field: bytes 0..8 hold the timestamp, 8..16
/// the symbol's bytes, 16..24 the price bits, 24..32 the volume bits (each
/// number little-endian), byte 32 the kind (0 trade, 1 bid update, 2 ask
/// update) and 33..40 the padding.
pub proof fn lemma_event_layout(e: Event)
    ensures
        spec_event_bytes(e).len() == 40,
        spec_event_bytes(e).subrange(0, 8) == spec_u64_to_le_bytes(e.timestamp_ns),
        spec_event_bytes(e).subrange(8, 16) == e.symbol.0@,
        spec_event_bytes(e).subrange(16, 24) == spec_u64_to_le_bytes(e.price_bits),
        spec_event_bytes(e).subrange(24, 32) == spec_u64_to_le_bytes(e.volume_bits),
        e.kind is Trade ==> spec_event_bytes(e)[32] == 0u8,
        e.kind is BidUpdate ==> spec_event_bytes(e)[32] == 1u8,
        e.kind is AskUpdate ==> spec_event_bytes(e)[32] == 2u8,
        spec_event_bytes(e).subrange(33, 40) == e._pad@,
{
    let b = spec_event_bytes(e);
    lemma_auto_spec_u64_to_from_le_bytes();
    assert(spec_u64_to_le_bytes(e.timestamp_ns).len() == 8);
    assert(b.subrange(0, 8) =~= spec_u64_to_le_bytes(e.timestamp_ns));
    assert(b.subrange(8, 16) =~= e.symbol.0@);
    assert(b.subrange(16, 24) =~= spec_u64_to_le_bytes(e.price_bits));
    assert(b.subrange(24, 32) =~= spec_u64_to_le_bytes(e.volume_bits));
    assert(b.subrange(33, 40) =~= e._pad@);
}

/// The event that 40 bytes encode: `None` when the length is not 40 or the
/// kind byte (offset 32) is not 0, 1 or 2.
pub open spec fn spec_event_from_bytes(b: Seq<u8>) -> Option<Event> {
    if b.len() == 40 && spec_kind_from_byte(b[32]) is Some {
        Some(choose|e: Event| spec_event_bytes(e) == b)
    } else {
        None
    }
}

/// Concatenated encodings of a sequence of events.
pub open spec fn spec_encode_events(es: Seq<Event>) -> Seq<u8>
    decreases es.len(),
{
    if es.len() == 0 {
        Seq::empty()
    } else {
        spec_encode_events(es.drop_last()) + spec_event_bytes(es.last())
    }
}

/// The events that a segment's bytes hold: the 40-byte records read from
/// the front, up to the first record that does not decode or the first
/// incomplete trailing record.
pub open spec fn spec_decode_events(data: Seq<u8>) -> Seq<Event>
    decreases data.len(),
{
    if data.len() < 40 {
        Seq::empty()
    } else {
        match spec_event_from_bytes(data.take(40)) {
            Some(e) => seq![e] + spec_decode_events(data.skip(40)),
            None => Seq::empty(),
        }
    }
}

pub proof fn lemma_event_bytes_len(e: Event)
    ensures
        spec_event_bytes(e).len() == 40,
        spec_event_bytes(e)[32] == spec_kind_byte(e.kind),
{
    lemma_auto_spec_u64_to_from_le_bytes();
}

/// Distinct events have distinct encodings.
pub proof fn lemma_event_bytes_injective(a: Event, b: Event)
    requires
        spec_event_bytes(a) == spec_event_bytes(b),
    ensures
        a == b,
{
    lemma_auto_spec_u64_to_from_le_bytes();
    let x = spec_event_bytes(a);
    let y = spec_event_bytes(b);
    assert(x.subrange(0, 8) =~= spec_u64_to_le_bytes(a.timestamp_ns));
    assert(y.subrange(0, 8) =~= spec_u64_to_le_bytes(b.timestamp_ns));
    assert(x.subrange(8, 16) =~= a.symbol.0@);
    assert(y.subrange(8, 16) =~= b.symbol.0@);
    assert(x.subrange(16, 24) =~= spec_u64_to_le_bytes(a.price_bits));
    assert(y.subrange(16, 24) =~= spec_u64_to_le_bytes(b.price_bits));
    assert(x.subrange(24, 32) =~= spec_u64_to_le_bytes(a.volume_bits));
    assert(y.subrange(24, 32) =~= spec_u64_to_le_bytes(b.volume_bits));
    assert(x.subrange(33, 40) =~= a._pad@);
    assert(y.subrange(33, 40) =~= b._pad@);
    assert(a.timestamp_ns == spec_u64_from_le_bytes(spec_u64_to_le_bytes(a.timestamp_ns)));
    assert(a.price_bits == spec_u64_from_le_bytes(spec_u64_to_le_bytes(a.price_bits)));
    assert(a.volume_bits == spec_u64_from_le_bytes(spec_u64_to_le_bytes(a.volume_bits)));
    assert(a.symbol.0 =~= b.symbol.0);
    assert(a._pad =~= b._pad);
    assert(x[32] == y[32]);
    assert(a.kind == b.kind);
}

/// Decoding an event's encoding gives the event back.
pub proof fn lemma_event_roundtrip(e: Event)
    ensures
        spec_event_from_bytes(spec_event_bytes(e)) == Some(e),
{
    lemma_event_bytes_len(e);
    let b = spec_event_bytes(e);
    assert(spec_kind_from_byte(b[32]) == Some(e.kind));
    let d = choose|d: Event| spec_event_bytes(d) == b;
    assert(spec_event_bytes(d) == b);
    lemma_event_bytes_injective(d, e);
}

pub proof fn lemma_encode_events_len(es: Seq<Event>)
    ensures
        spec_encode_events(es).len() == 40 * es.len(),
    decreases es.len(),
{
    if es.len() > 0 {
        lemma_encode_events_len(es.drop_last());
        lemma_event_bytes_len(es.last());
    }
}

/// The encoding of `e` prepended to `es` is `e`'s bytes followed by those of `es`.
pub proof fn lemma_encode_events_prepend(e: Event, es: Seq<Event>)
    ensures
        spec_encode_events(seq![e] + es) == spec_event_bytes(e) + spec_encode_events(es),
    decreases es.len(),
{
    let s = seq![e] + es;
    if es.len() == 0 {
        assert(s.drop_last() =~= Seq::<Event>::empty());
        assert(spec_encode_events(s.drop_last()) =~= Seq::<u8>::empty());
        assert(spec_encode_events(s) =~= spec_event_bytes(e));
        assert(spec_encode_events(es) =~= Seq::<u8>::empty());
        assert(spec_event_bytes(e) + spec_encode_events(es) =~= spec_event_bytes(e));
    } else {
        lemma_encode_events_prepend(e, es.drop_last());
        assert(s.drop_last() =~= seq![e] + es.drop_last());
        assert(s.last() == es.last());
        assert(spec_encode_events(s) =~= spec_event_bytes(e) + spec_encode_events(es));
    }
}

/// Reading back the records of a sequence of events gives the sequence:
/// what `SegmentWriter` writes, `SegmentReader` returns.
pub proof fn lemma_decode_encode_events(es: Seq<Event>)
    ensures
        spec_decode_events(spec_encode_events(es)) == es,
    decreases es.len(),
{
    if es.len() > 0 {
        let e = es[0];
        let rest = es.drop_first();
        assert(es =~= seq![e] + rest);
        lemma_encode_events_prepend(e, rest);
        let data = spec_encode_events(es);
        lemma_event_bytes_len(e);
        lemma_encode_events_len(rest);
        assert(data.take(40) =~= spec_event_bytes(e));
        assert(data.skip(40) =~= spec_encode_events(rest));
        lemma_event_roundtrip(e);
        lemma_decode_encode_events(rest);
        assert(spec_decode_events(data) =~= seq![e] + rest);
    } else {
        assert(spec_encode_events(es) =~= Seq::<u8>::empty());
    }
}

/// Appends the little-endian bytes of `x` to `out`.
fn push_u64_le(out: &mut Vec<u8>, x: u64)
    ensures
        final(out)@ == old(out)@ + spec_u64_to_le_bytes(x),
{
    let mut b = u64_to_le_bytes(x);
    out.append(&mut b);
}

impl Event {
    /// The 40-byte encoding of this event.
    pub fn to_bytes(&self) -> (r: Vec<u8>)
        ensures
            r@ == spec_event_bytes(*self),
    {
        let mut out: Vec<u8> = Vec::new();
        push_u64_le(&mut out, self.timestamp_ns);
        let mut i: usize = 0;
        let ghost start = out@;
        while i < 8
            invariant
                i <= 8,
                out@ == start + self.symbol.0@.take(i as int),
            decreases 8 - i,
        {
            out.push(self.symbol.0[i]);
            assert(self.symbol.0@.take(i as int + 1) =~= self.symbol.0@.take(i as int).push(
                self.symbol.0@[i as int],
            ));
            i = i + 1;
        }
        assert(self.symbol.0@.take(8) =~= self.symbol.0@);
        push_u64_le(&mut out, self.price_bits);
        push_u64_le(&mut out, self.volume_bits);
        out.push(self.kind.to_byte());
        let ghost start2 = out@;
        let mut j: usize = 0;
        while j < 7
            invariant
                j <= 7,
                out@ == start2 + self._pad@.take(j as int),
            decreases 7 - j,
        {
            out.push(self._pad[j]);
            assert(self._pad@.take(j as int + 1) =~= self._pad@.take(j as int).push(
                self._pad@[j as int],
            ));
            j = j + 1;
        }
        assert(self._pad@.take(7) =~= self._pad@);
        assert(out@ =~= spec_event_bytes(*self));
        out
    }

    /// Decodes one 40-byte record; `None` when its kind byte is not 0, 1 or 2.
    pub fn from_bytes(chunk: &[u8]) -> (r: Option<Event>)
        requires
            chunk@.len() == 40,
        ensures
            r == spec_event_from_bytes(chunk@),
    {
        let kind = match EventKind::from_byte(chunk[32]) {
            Some(k) => k,
            None => {
                return None;
            },
        };
        let timestamp_ns = u64_from_le_bytes(slice_subrange(chunk, 0, 8));
        let price_bits = u64_from_le_bytes(slice_subrange(chunk, 16, 24));
        let volume_bits = u64_from_le_bytes(slice_subrange(chunk, 24, 32));
        let mut sym = [0u8; 8];
        let mut i: usize = 0;
        while i < 8
            invariant
                i <= 8,
                chunk@.len() == 40,
                forall|j: int| 0 <= j < i ==> sym@[j] == chunk@[8 + j],
            decreases 8 - i,
        {
            sym[i] = chunk[8 + i];
            i = i + 1;
        }
        let mut pad = [0u8; 7];
        let mut k: usize = 0;
        while k < 7
            invariant
                k <= 7,
                chunk@.len() == 40,
                forall|j: int| 0 <= j < k ==> pad@[j] == chunk@[33 + j],
            decreases 7 - k,
        {
            pad[k] = chunk[33 + k];
            k = k + 1;
        }
        let e = Event {
            timestamp_ns,
            symbol: SymbolId::from_raw(sym),
            price_bits,
            volume_bits,
            kind,
            _pad: pad,
        };
        proof {
            lemma_auto_spec_u64_to_from_le_bytes();
            let b = chunk@;
            assert(spec_u64_to_le_bytes(timestamp_ns) =~= b.subrange(0, 8));
            assert(spec_u64_to_le_bytes(price_bits) =~= b.subrange(16, 24));
            assert(spec_u64_to_le_bytes(volume_bits) =~= b.subrange(24, 32));
            assert(spec_kind_byte(kind) == b[32]);
            assert(spec_event_bytes(e) =~= b);
            lemma_event_roundtrip(e);
        }
        Some(e)
    }
}

} // verus!
