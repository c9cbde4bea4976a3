use vstd::prelude::*;
use vstd::slice::slice_subrange;
use std::collections::HashMap;

use crate::entry::{
    IndexEntry, ENTRY_SIZE, spec_overlaps, spec_observed, spec_entry_bytes, spec_entry_from_bytes,
    lemma_entry_bytes_len, lemma_entry_roundtrip,
};
use crate::sorted::{strictly_increasing, insert_sorted, spec_sorted_where, lemma_sorted_where, lemma_sorted_where_exists, lemma_filter_contains_iff};
use crate::symbol::SymbolId;

verus! {

broadcast use vstd::std_specs::hash::group_hash_axioms;

/// Key of an index entry: a symbol in one segment.
pub type IndexKey = (SymbolId, u32);

/// The key an entry is filed under.
pub open spec fn spec_key(e: IndexEntry) -> IndexKey {
    (e.symbol, e.segment_id)
}

/// The 128-bit number that packs eight bytes and a segment id: byte `i` in
/// bits `8 i .. 8 i + 8`, the segment id in bits `64 .. 96`.
pub open spec fn spec_pack_parts(
    b0: u8,
    b1: u8,
    b2: u8,
    b3: u8,
    b4: u8,
    b5: u8,
    b6: u8,
    b7: u8,
    seg: u32,
) -> u128 {
    (b0 as u128) | ((b1 as u128) << 8u128) | ((b2 as u128) << 16u128) | ((b3 as u128) << 24u128)
        | ((b4 as u128) << 32u128) | ((b5 as u128) << 40u128) | ((b6 as u128) << 48u128) | ((
    b7 as u128) << 56u128) | ((seg as u128) << 64u128)
}

/// The hash-map key under which the entry of `k` is stored.
pub open spec fn spec_pack(k: IndexKey) -> u128 {
    let b = k.0.0@;
    spec_pack_parts(b[0], b[1], b[2], b[3], b[4], b[5], b[6], b[7], k.1)
}

/// Each part can be read back from the packed number.
proof fn lemma_unpack_parts(
    b0: u8,
    b1: u8,
    b2: u8,
    b3: u8,
    b4: u8,
    b5: u8,
    b6: u8,
    b7: u8,
    seg: u32,
    p: u128,
)
    requires
        p == spec_pack_parts(b0, b1, b2, b3, b4, b5, b6, b7, seg),
    ensures
        p & 0xffu128 == b0 as u128,
        (p >> 8u128) & 0xffu128 == b1 as u128,
        (p >> 16u128) & 0xffu128 == b2 as u128,
        (p >> 24u128) & 0xffu128 == b3 as u128,
        (p >> 32u128) & 0xffu128 == b4 as u128,
        (p >> 40u128) & 0xffu128 == b5 as u128,
        (p >> 48u128) & 0xffu128 == b6 as u128,
        (p >> 56u128) & 0xffu128 == b7 as u128,
        p >> 64u128 == seg as u128,
{
    assert(p & 0xffu128 == b0 as u128 && (p >> 8u128) & 0xffu128 == b1 as u128 && (p >> 16u128)
        & 0xffu128 == b2 as u128 && (p >> 24u128) & 0xffu128 == b3 as u128 && (p >> 32u128)
        & 0xffu128 == b4 as u128 && (p >> 40u128) & 0xffu128 == b5 as u128 && (p >> 48u128)
        & 0xffu128 == b6 as u128 && (p >> 56u128) & 0xffu128 == b7 as u128 && p >> 64u128
        == seg as u128) by (bit_vector)
        requires
            p == (b0 as u128) | ((b1 as u128) << 8u128) | ((b2 as u128) << 16u128) | ((
            b3 as u128) << 24u128) | ((b4 as u128) << 32u128) | ((b5 as u128) << 40u128) | ((
            b6 as u128) << 48u128) | ((b7 as u128) << 56u128) | ((seg as u128) << 64u128),
    ;
}

/// Distinct keys pack to distinct numbers.
proof fn lemma_pack_injective(k1: IndexKey, k2: IndexKey)
    requires
        spec_pack(k1) == spec_pack(k2),
    ensures
        k1 == k2,
{
    let a = k1.0.0@;
    let c = k2.0.0@;
    let p = spec_pack(k1);
    lemma_unpack_parts(a[0], a[1], a[2], a[3], a[4], a[5], a[6], a[7], k1.1, p);
    lemma_unpack_parts(c[0], c[1], c[2], c[3], c[4], c[5], c[6], c[7], k2.1, p);
    assert(a.len() == 8 && c.len() == 8);
    assert(a =~= c);
    crate::symbol::lemma_symbol_eq(k1.0, k2.0);
}

/// The hash-map key of `(symbol, segment_id)`.
fn pack_key(symbol: SymbolId, segment_id: u32) -> (r: u128)
    ensures
        r == spec_pack((symbol, segment_id)),
{
    let b = symbol.0;
    (b[0] as u128) | ((b[1] as u128) << 8u128) | ((b[2] as u128) << 16u128) | ((b[3] as u128)
        << 24u128) | ((b[4] as u128) << 32u128) | ((b[5] as u128) << 40u128) | ((b[6] as u128)
        << 48u128) | ((b[7] as u128) << 56u128) | ((segment_id as u128) << 64u128)
}

/// The map that a sequence of entries builds when inserted in order (a later
/// entry replaces an earlier one with the same key).
pub open spec fn spec_entries_map(s: Seq<IndexEntry>) -> Map<IndexKey, IndexEntry>
    decreases s.len(),
{
    if s.len() == 0 {
        Map::empty()
    } else {
        spec_entries_map(s.drop_last()).insert(spec_key(s.last()), s.last())
    }
}

/// No two entries share a key.
pub open spec fn keys_unique(s: Seq<IndexEntry>) -> bool {
    forall|i: int, j: int| 0 <= i < j < s.len() ==> spec_key(s[i]) != spec_key(s[j])
}

/// The entries that the bytes of an index file hold, one per 40-byte record.
pub open spec fn spec_entry_records(b: Seq<u8>) -> Seq<IndexEntry> {
    Seq::new(b.len() / 40, |i: int| spec_entry_from_bytes(b.subrange(40 * i, 40 * i + 40)))
}

/// Concatenated encodings of a sequence of entries.
pub open spec fn spec_encode_entries(s: Seq<IndexEntry>) -> Seq<u8>
    decreases s.len(),
{
    if s.len() == 0 {
        Seq::empty()
    } else {
        spec_encode_entries(s.drop_last()) + spec_entry_bytes(s.last())
    }
}

/// `e` is the entry that `observe` creates for a first timestamp `ts`.
pub open spec fn is_first_entry(e: IndexEntry, symbol: SymbolId, segment_id: u32, ts: u64) -> bool {
    &&& e.symbol == symbol
    &&& e.segment_id == segment_id
    &&& e._pad@ == seq![0u8, 0u8, 0u8, 0u8]
    &&& e.min_ts == ts
    &&& e.max_ts == ts
    &&& e.event_count == 1
}

/// `after` is `before` once an event of `symbol` at `ts` in `segment_id` has
/// been observed: that key's entry is widened and counted, or created for
/// the event alone, and every other entry is unchanged.
pub open spec fn spec_observe_step(
    before: Map<IndexKey, IndexEntry>,
    after: Map<IndexKey, IndexEntry>,
    symbol: SymbolId,
    segment_id: u32,
    ts: u64,
) -> bool {
    &&& after.dom() == before.dom().insert((symbol, segment_id))
    &&& forall|k: IndexKey|
        k != (symbol, segment_id) && before.contains_key(k) ==> #[trigger] after[k] == before[k]
    &&& before.contains_key((symbol, segment_id)) ==> after[(symbol, segment_id)] == spec_observed(
        before[(symbol, segment_id)],
        ts,
    )
    &&& !before.contains_key((symbol, segment_id)) ==> is_first_entry(
        after[(symbol, segment_id)],
        symbol,
        segment_id,
        ts,
    )
}

/// Segment `seg` is a candidate for `symbol` in `[t_start, t_end]`.
pub open spec fn spec_query_hit(
    m: Map<IndexKey, IndexEntry>,
    symbol: SymbolId,
    seg: u32,
    t_start: u64,
    t_end: u64,
) -> bool {
    m.contains_key((symbol, seg)) && spec_overlaps(m[(symbol, seg)], t_start, t_end)
}

/// Segment `seg` has some symbol whose span meets `[t_start, t_end]`.
pub open spec fn spec_query_all_hit(m: Map<IndexKey, IndexEntry>, seg: u32, t_start: u64, t_end: u64) -> bool {
    exists|sym: SymbolId| #[trigger] spec_query_hit(m, sym, seg, t_start, t_end)
}

/// Whether segment `seg` is a candidate for `symbol` in `[t_start, t_end]`.
pub open spec fn candidate_pred(
    m: Map<IndexKey, IndexEntry>,
    symbol: SymbolId,
    t_start: u64,
    t_end: u64,
) -> spec_fn(u32) -> bool {
    |seg: u32| spec_query_hit(m, symbol, seg, t_start, t_end)
}

/// The candidate segments for `symbol` in `[t_start, t_end]`, in increasing order.
pub open spec fn spec_candidates(
    m: Map<IndexKey, IndexEntry>,
    symbol: SymbolId,
    t_start: u64,
    t_end: u64,
) -> Seq<u32> {
    spec_sorted_where(candidate_pred(m, symbol, t_start, t_end))
}

/// Whether segment `seg` has some symbol whose span meets `[t_start, t_end]`.
pub open spec fn any_candidate_pred(m: Map<IndexKey, IndexEntry>, t_start: u64, t_end: u64) -> spec_fn(
    u32,
) -> bool {
    |seg: u32| spec_query_all_hit(m, seg, t_start, t_end)
}

/// The segments whose span for some symbol meets `[t_start, t_end]`, in increasing order.
pub open spec fn spec_all_candidates(m: Map<IndexKey, IndexEntry>, t_start: u64, t_end: u64) -> Seq<u32> {
    spec_sorted_where(any_candidate_pred(m, t_start, t_end))
}

/// The index knows that `symbol` has an event at time `ts` in segment `seg`:
/// the entry's span contains `ts`.
pub open spec fn spec_covers(m: Map<IndexKey, IndexEntry>, symbol: SymbolId, seg: u32, ts: u64) -> bool {
    m.contains_key((symbol, seg)) && m[(symbol, seg)].min_ts <= ts && ts <= m[(symbol, seg)].max_ts
}

/// The index has an entry of `symbol` whose span ends after `ts`: an event
/// of `symbol` later than `ts` has been logged.
pub open spec fn spec_logged_after(m: Map<IndexKey, IndexEntry>, symbol: SymbolId, ts: u64) -> bool {
    exists|seg: u32| #[trigger] m.contains_key((symbol, seg)) && m[(symbol, seg)].max_ts > ts
}

/// An index that starts empty and then observes the pairs `ks` in turn
/// (each step adding its pair to the keys, as `observe` does; `ms[i]` is
/// the map before step `i`) holds exactly the distinct pairs of `ks`: its
/// `len()` is their number.
pub proof fn lemma_observed_keys(ms: Seq<Map<IndexKey, IndexEntry>>, ks: Seq<IndexKey>)
    requires
        ms.len() == ks.len() + 1,
        ms[0].dom() == Set::<IndexKey>::empty(),
        forall|i: int| 0 <= i < ks.len() ==> #[trigger] ms[i + 1].dom() == ms[i].dom().insert(ks[i]),
    ensures
        ms.last().dom() == ks.to_set(),
        ms.last().dom().finite(),
        ms.last().len() == ks.to_set().len(),
    decreases ks.len(),
{
    if ks.len() == 0 {
        assert(ks.to_set() =~= Set::<IndexKey>::empty());
    } else {
        let n = ks.len() - 1;
        let ms2 = ms.drop_last();
        let ks2 = ks.drop_last();
        assert forall|i: int| 0 <= i < ks2.len() implies #[trigger] ms2[i + 1].dom() == ms2[i].dom().insert(ks2[i]) by {
            assert(ms2[i + 1] == ms[i + 1] && ms2[i] == ms[i] && ks2[i] == ks[i]);
        }
        lemma_observed_keys(ms2, ks2);
        assert(ms[n + 1].dom() == ms[n].dom().insert(ks[n]));
        assert(ms2.last() == ms[n]);
        assert(ks.to_set() =~= ks2.to_set().insert(ks[n])) by {
            assert forall|k: IndexKey| ks.to_set().contains(k) <==> ks2.to_set().contains(k) || k == ks[n] by {
                if ks.contains(k) {
                    let i = choose|i: int| 0 <= i < ks.len() && ks[i] == k;
                    if i < n {
                        assert(ks2[i] == k);
                    }
                }
                if ks2.contains(k) {
                    let i = choose|i: int| 0 <= i < ks2.len() && ks2[i] == k;
                    assert(ks[i] == k);
                }
                if k == ks[n] {
                    assert(ks.contains(k));
                }
            }
        }
    }
}

/// The candidate listing of a finite index is sorted and holds exactly the hits.
pub proof fn lemma_candidates(m: Map<IndexKey, IndexEntry>, symbol: SymbolId, t_start: u64, t_end: u64)
    requires
        m.dom().finite(),
    ensures
        strictly_increasing(spec_candidates(m, symbol, t_start, t_end)),
        forall|x: u32|
            spec_candidates(m, symbol, t_start, t_end).contains(x) <==> spec_query_hit(
                m,
                symbol,
                x,
                t_start,
                t_end,
            ),
{
    let p = candidate_pred(m, symbol, t_start, t_end);
    let ks = m.dom().to_seq();
    m.dom().lemma_to_seq_to_set_id();
    let q = ks.map_values(|k: IndexKey| k.1).filter(p);
    assert forall|x: u32| q.contains(x) <==> p(x) by {
        let img = ks.map_values(|k: IndexKey| k.1);
        lemma_filter_contains_iff(img, p, x);
        if p(x) {
            assert(m.dom().contains((symbol, x)));
            assert(ks.to_set().contains((symbol, x)));
            let i = choose|i: int| 0 <= i < ks.len() && ks[i] == (symbol, x);
            assert(img[i] == x);
            assert(img.contains(x));
        }
    }
    lemma_sorted_where_exists(q, p);
}

/// The listing of all segments of a finite index meeting a time window is
/// sorted and holds exactly those segments.
pub proof fn lemma_all_candidates(m: Map<IndexKey, IndexEntry>, t_start: u64, t_end: u64)
    requires
        m.dom().finite(),
    ensures
        strictly_increasing(spec_all_candidates(m, t_start, t_end)),
        forall|x: u32| spec_all_candidates(m, t_start, t_end).contains(x) <==> spec_query_all_hit(m, x, t_start, t_end),
{
    let p = any_candidate_pred(m, t_start, t_end);
    let ks = m.dom().to_seq();
    m.dom().lemma_to_seq_to_set_id();
    let img = ks.map_values(|k: IndexKey| k.1);
    let q = img.filter(p);
    assert forall|x: u32| q.contains(x) <==> p(x) by {
        lemma_filter_contains_iff(img, p, x);
        if p(x) {
            let sym = choose|sym: SymbolId| #[trigger] spec_query_hit(m, sym, x, t_start, t_end);
            assert(m.dom().contains((sym, x)));
            assert(ks.to_set().contains((sym, x)));
            let i = choose|i: int| 0 <= i < ks.len() && ks[i] == (sym, x);
            assert(img[i] == x);
            assert(img.contains(x));
        }
    }
    lemma_sorted_where_exists(q, p);
}

/// Error of loading an index file.
#[derive(Clone, Copy, Debug, PartialEq, Eq, Structural)]
pub enum IndexError {
    /// The file's size is not a multiple of the entry size.
    InvalidSize { len: usize, entry_size: usize },
}

/// In-memory zone map of the segments: one `IndexEntry` per (symbol, segment).
///
/// Answers "which segments must be opened to read `symbol` in
/// `[t_start, t_end]`?" with no false negatives. Persisted as a plain array
/// of 40-byte entries (`index.bin`).
pub struct SegmentIndex {
    entries: HashMap<u128, IndexEntry>,
}

/// The index map that a hash map keyed by packed keys stands for.
pub closed spec fn spec_unpacked(m: Map<u128, IndexEntry>) -> Map<IndexKey, IndexEntry> {
    Map::new(|k: IndexKey| m.contains_key(spec_pack(k)), |k: IndexKey| m[spec_pack(k)])
}

/// Every entry of `m` is stored under the packed form of its own key.
pub closed spec fn packed_consistent(m: Map<u128, IndexEntry>) -> bool {
    forall|p: u128| #[trigger] m.contains_key(p) ==> spec_pack(spec_key(m[p])) == p
}

impl View for SegmentIndex {
    type V = Map<IndexKey, IndexEntry>;

    closed spec fn view(&self) -> Map<IndexKey, IndexEntry> {
        spec_unpacked(self.entries@)
    }
}

/// Storing `e` under the packed form of its key adds `e` under its key.
proof fn lemma_unpacked_insert(m: Map<u128, IndexEntry>, e: IndexEntry)
    requires
        packed_consistent(m),
        m.dom().finite(),
        spec_unpacked(m).dom().finite(),
        spec_unpacked(m).dom().len() == m.dom().len(),
    ensures
        packed_consistent(m.insert(spec_pack(spec_key(e)), e)),
        spec_unpacked(m.insert(spec_pack(spec_key(e)), e)) == spec_unpacked(m).insert(spec_key(e), e),
        spec_unpacked(m.insert(spec_pack(spec_key(e)), e)).dom().finite(),
        spec_unpacked(m.insert(spec_pack(spec_key(e)), e)).dom().len() == m.insert(
            spec_pack(spec_key(e)),
            e,
        ).dom().len(),
{
    let k = spec_key(e);
    let p = spec_pack(k);
    let m1 = m.insert(p, e);
    let v0 = spec_unpacked(m);
    let v1 = spec_unpacked(m1);
    assert forall|k2: IndexKey| #[trigger] v1.contains_key(k2) <==> v0.insert(k, e).contains_key(k2) by {
        if spec_pack(k2) == p {
            lemma_pack_injective(k2, k);
        }
    }
    assert forall|k2: IndexKey| v1.contains_key(k2) implies #[trigger] v1[k2] == v0.insert(k, e)[k2] by {
        if spec_pack(k2) == p {
            lemma_pack_injective(k2, k);
        }
    }
    assert(v1 =~= v0.insert(k, e));
    if m.contains_key(p) {
        assert(v0.contains_key(k));
        assert(m1.dom() =~= m.dom());
        assert(v0.insert(k, e).dom() =~= v0.dom());
    } else {
        assert(!v0.contains_key(k));
    }
}

/// Lookup in a map built from entries with distinct keys.
proof fn lemma_entries_map(s: Seq<IndexEntry>)
    requires
        keys_unique(s),
    ensures
        forall|k: IndexKey|
            spec_entries_map(s).contains_key(k) <==> exists|i: int|
                0 <= i < s.len() && #[trigger] spec_key(s[i]) == k,
        forall|i: int| 0 <= i < s.len() ==> #[trigger] spec_entries_map(s)[spec_key(s[i])] == s[i],
        spec_entries_map(s).dom().finite(),
        spec_entries_map(s).dom().len() == s.len(),
    decreases s.len(),
{
    if s.len() > 0 {
        let t = s.drop_last();
        assert(keys_unique(t));
        lemma_entries_map(t);
        let k = spec_key(s.last());
        assert(!spec_entries_map(t).contains_key(k)) by {
            if spec_entries_map(t).contains_key(k) {
                let i = choose|i: int| 0 <= i < t.len() && spec_key(t[i]) == k;
                assert(spec_key(s[i]) == spec_key(s[s.len() - 1]));
            }
        }
        assert forall|k2: IndexKey|
            spec_entries_map(s).contains_key(k2) <==> exists|i: int|
                0 <= i < s.len() && #[trigger] spec_key(s[i]) == k2 by {
            if spec_entries_map(s).contains_key(k2) && k2 != k {
                let i = choose|i: int| 0 <= i < t.len() && spec_key(t[i]) == k2;
                assert(spec_key(s[i]) == k2);
            }
            if k2 == k {
                assert(spec_key(s[s.len() - 1]) == k2);
            }
            if exists|i: int| 0 <= i < s.len() && #[trigger] spec_key(s[i]) == k2 {
                let i = choose|i: int| 0 <= i < s.len() && #[trigger] spec_key(s[i]) == k2;
                if i < s.len() - 1 {
                    assert(spec_key(t[i]) == k2);
                }
            }
        }
        assert forall|i: int| 0 <= i < s.len() implies #[trigger] spec_entries_map(s)[spec_key(s[i])]
            == s[i] by {
            if i < s.len() - 1 {
                assert(t[i] == s[i]);
                assert(spec_key(s[i]) != k);
            }
        }
    }
}

/// Inserting an entry whose key is new, or replacing the entry at the key's
/// position, keeps keys distinct and inserts into the map.
proof fn lemma_encode_entries_len(s: Seq<IndexEntry>)
    ensures
        spec_encode_entries(s).len() == 40 * s.len(),
    decreases s.len(),
{
    if s.len() > 0 {
        lemma_encode_entries_len(s.drop_last());
        lemma_entry_bytes_len(s.last());
    }
}

/// The records of the encoding of `s` are `s`.
proof fn lemma_entry_records_encode(s: Seq<IndexEntry>)
    ensures
        spec_entry_records(spec_encode_entries(s)) == s,
    decreases s.len(),
{
    lemma_encode_entries_len(s);
    if s.len() > 0 {
        let t = s.drop_last();
        lemma_entry_records_encode(t);
        lemma_encode_entries_len(t);
        lemma_entry_bytes_len(s.last());
        let b = spec_encode_entries(s);
        let bt = spec_encode_entries(t);
        assert(b == bt + spec_entry_bytes(s.last()));
        let r = spec_entry_records(b);
        assert forall|i: int| 0 <= i < s.len() implies r[i] == s[i] by {
            if i < t.len() {
                assert(b.subrange(40 * i, 40 * i + 40) =~= bt.subrange(40 * i, 40 * i + 40));
                assert(spec_entry_records(bt)[i] == t[i]);
            } else {
                assert(b.subrange(40 * i, 40 * i + 40) =~= spec_entry_bytes(s.last()));
                lemma_entry_roundtrip(s.last());
            }
        }
        assert(r =~= s);
    } else {
        assert(spec_entry_records(spec_encode_entries(s)) =~= s);
    }
}

impl SegmentIndex {
    /// Well-formedness: each entry is stored under the packed form of its key.
    pub closed spec fn wf(&self) -> bool {
        &&& packed_consistent(self.entries@)
        &&& self@.dom().finite()
        &&& self@.dom().len() == self.entries@.dom().len()
    }

    /// The map of a well-formed index is finite.
    pub proof fn lemma_finite(&self)
        requires
            self.wf(),
        ensures
            self@.dom().finite(),
    {
    }

    /// Each entry of a well-formed index is filed under its own key.
    proof fn lemma_view_keys(&self)
        requires
            self.wf(),
        ensures
            forall|k: IndexKey| #[trigger] self@.contains_key(k) ==> spec_key(self@[k]) == k,
    {
        assert forall|k: IndexKey| #[trigger] self@.contains_key(k) implies spec_key(self@[k]) == k by {
            let q = spec_pack(k);
            assert(self.entries@.contains_key(q));
            lemma_pack_injective(spec_key(self.entries@[q]), k);
        }
    }

    /// An empty index.
    pub fn new() -> (r: SegmentIndex)
        ensures
            r.wf(),
            r@ == Map::<IndexKey, IndexEntry>::empty(),
    {
        let r = SegmentIndex { entries: HashMap::new() };
        assert(r@ =~= Map::<IndexKey, IndexEntry>::empty());
        assert(r.entries@.dom() =~= Set::<u128>::empty());
        r
    }

    /// Stores `e` under its key, replacing any entry with the same key.
    fn insert(&mut self, e: IndexEntry)
        requires
            old(self).wf(),
        ensures
            final(self).wf(),
            final(self)@ == old(self)@.insert(spec_key(e), e),
    {
        let p = pack_key(e.symbol, e.segment_id);
        proof {
            lemma_unpacked_insert(self.entries@, e);
        }
        self.entries.insert(p, e);
    }

    /// The entries of the index, each once, in the map's iteration order.
    fn entry_list(&self) -> (r: Vec<IndexEntry>)
        requires
            self.wf(),
        ensures
            keys_unique(r@),
            spec_entries_map(r@) == self@,
    {
        let ghost m = self.entries@;
        let ghost pairs = vstd::std_specs::iter::IteratorSpec::remaining(
            &vstd::std_specs::hash::spec_hash_map_iter(&self.entries),
        );
        proof {
            vstd::std_specs::hash::axiom_spec_hash_map_iter(&self.entries);
        }
        let mut out: Vec<IndexEntry> = Vec::new();
        for kv in it: self.entries.iter()
            invariant
                it.seq() == pairs,
                pairs.no_duplicates(),
                out@ == pairs.take(it.index()).map_values(|q: (&u128, &IndexEntry)| *q.1),
        {
            let (_, e) = kv;
            out.push(*e);
            assert(pairs.take(it.index() + 1).map_values(|q: (&u128, &IndexEntry)| *q.1) =~= pairs.take(
                it.index(),
            ).map_values(|q: (&u128, &IndexEntry)| *q.1).push(*e));
        }
        assert(out@ =~= pairs.map_values(|q: (&u128, &IndexEntry)| *q.1));
        proof {
            assert forall|i: int, j: int| 0 <= i < j < out@.len() implies spec_key(out@[i]) != spec_key(
                out@[j],
            ) by {
                assert(m.contains_key(*pairs[i].0) && m[*pairs[i].0] == *pairs[i].1);
                assert(m.contains_key(*pairs[j].0) && m[*pairs[j].0] == *pairs[j].1);
                if spec_key(out@[i]) == spec_key(out@[j]) {
                    assert(*pairs[i].0 == *pairs[j].0);
                    assert(pairs[i] == pairs[j]);
                }
            }
            lemma_entries_map(out@);
            let em = spec_entries_map(out@);
            assert forall|k: IndexKey| #[trigger] em.contains_key(k) <==> self@.contains_key(k) by {
                if em.contains_key(k) {
                    let i = choose|i: int| 0 <= i < out@.len() && #[trigger] spec_key(out@[i]) == k;
                    assert(m.contains_key(*pairs[i].0) && m[*pairs[i].0] == *pairs[i].1);
                }
                if self@.contains_key(k) {
                    let q = spec_pack(k);
                    assert(m.contains_key(q));
                    assert(pairs.contains((&q, &m[q])));
                    let i = choose|i: int| 0 <= i < pairs.len() && pairs[i] == (&q, &m[q]);
                    lemma_pack_injective(spec_key(m[q]), k);
                    assert(spec_key(out@[i]) == k);
                }
            }
            assert forall|k: IndexKey| em.contains_key(k) implies #[trigger] em[k] == self@[k] by {
                let i = choose|i: int| 0 <= i < out@.len() && #[trigger] spec_key(out@[i]) == k;
                assert(m.contains_key(*pairs[i].0) && m[*pairs[i].0] == *pairs[i].1);
                assert(em[spec_key(out@[i])] == out@[i]);
            }
            assert(em =~= self@);
        }
        out
    }

    /// Opens an index from the contents of its file: `None` when the file does
    /// not exist (empty index), else the bytes, read as an array of entries.
    pub fn open(contents: Option<&[u8]>) -> (r: Result<SegmentIndex, IndexError>)
        ensures
            match contents {
                None => r matches Ok(idx) && idx.wf() && idx@ == Map::<IndexKey, IndexEntry>::empty(),
                Some(b) => if b@.len() % 40 != 0 {
                    r == Err::<SegmentIndex, IndexError>(
                        IndexError::InvalidSize { len: b@.len() as usize, entry_size: 40 },
                    )
                } else {
                    r matches Ok(idx) && idx.wf() && idx@ == spec_entries_map(spec_entry_records(b@))
                },
            },
    {
        match contents {
            None => Ok(SegmentIndex::new()),
            Some(b) => {
                if b.len() % ENTRY_SIZE != 0 {
                    return Err(IndexError::InvalidSize { len: b.len(), entry_size: ENTRY_SIZE });
                }
                let n = b.len() / ENTRY_SIZE;
                assert(40 * n == b@.len()) by (nonlinear_arith)
                    requires
                        n == b@.len() / 40,
                        b@.len() % 40 == 0,
                ;
                let ghost recs = spec_entry_records(b@);
                let mut idx = SegmentIndex::new();
                let mut k: usize = 0;
                let mut off: usize = 0;
                while k < n
                    invariant
                        n == b@.len() / 40,
                        40 * n == b@.len(),
                        b@.len() == b.len(),
                        off == 40 * k,
                        recs == spec_entry_records(b@),
                        k <= n,
                        idx.wf(),
                        idx@ == spec_entries_map(recs.take(k as int)),
                    decreases n - k,
                {
                    assert(off + 40 <= 40 * n) by (nonlinear_arith)
                        requires
                            k < n,
                            off == 40 * k,
                    ;
                    let chunk = slice_subrange(b, off, off + ENTRY_SIZE);
                    let e = IndexEntry::from_bytes(chunk);
                    idx.insert(e);
                    proof {
                        assert(chunk@ =~= b@.subrange(40 * k, 40 * k + 40));
                        assert(recs[k as int] == e);
                        assert(recs.take(k as int + 1).drop_last() =~= recs.take(k as int));
                    }
                    k = k + 1;
                    off = off + ENTRY_SIZE;
                }
                assert(recs.take(n as int) =~= recs);
                Ok(idx)
            },
        }
    }

    /// The entry of `(symbol, segment_id)`, if the index has one.
    pub fn get(&self, symbol: SymbolId, segment_id: u32) -> (r: Option<IndexEntry>)
        requires
            self.wf(),
        ensures
            match r {
                Some(e) => self@.contains_key((symbol, segment_id)) && self@[(symbol, segment_id)] == e,
                None => !self@.contains_key((symbol, segment_id)),
            },
    {
        let p = pack_key(symbol, segment_id);
        match self.entries.get(&p) {
            Some(e) => Some(*e),
            None => None,
        }
    }

    /// Records an event of `symbol` at `timestamp_ns` in `segment_id`:
    /// widens the entry's span and counts the event, or creates the entry.
    pub fn observe(&mut self, symbol: SymbolId, segment_id: u32, timestamp_ns: u64)
        requires
            old(self).wf(),
            old(self)@.contains_key((symbol, segment_id)) ==> old(self)@[(
                symbol,
                segment_id,
            )].event_count < u64::MAX,
        ensures
            final(self).wf(),
            final(self)@.dom() == old(self)@.dom().insert((symbol, segment_id)),
            forall|k: IndexKey|
                k != (symbol, segment_id) && old(self)@.contains_key(k) ==> #[trigger] final(self)@[k]
                    == old(self)@[k],
            old(self)@.contains_key((symbol, segment_id)) ==> final(self)@[(symbol, segment_id)]
                == spec_observed(old(self)@[(symbol, segment_id)], timestamp_ns),
            !old(self)@.contains_key((symbol, segment_id)) ==> is_first_entry(
                final(self)@[(symbol, segment_id)],
                symbol,
                segment_id,
                timestamp_ns,
            ),
    {
        proof {
            self.lemma_view_keys();
        }
        match self.get(symbol, segment_id) {
            Some(found) => {
                let mut e = found;
                e.observe(timestamp_ns);
                self.insert(e);
            },
            None => {
                let e = IndexEntry::new(symbol, segment_id, timestamp_ns);
                self.insert(e);
            },
        }
    }


    /// Ids of the segments that may hold events of `symbol` in
    /// `[t_start, t_end]`, in increasing order. A segment left out holds none.
    pub fn query(&self, symbol: SymbolId, t_start: u64, t_end: u64) -> (r: Vec<u32>)
        requires
            self.wf(),
        ensures
            strictly_increasing(r@),
            forall|seg: u32| r@.contains(seg) <==> spec_query_hit(self@, symbol, seg, t_start, t_end),
            r@ == spec_candidates(self@, symbol, t_start, t_end),
    {
        let entries = self.entry_list();
        let mut out: Vec<u32> = Vec::new();
        let mut i: usize = 0;
        while i < entries.len()
            invariant
                i <= entries@.len(),
                strictly_increasing(out@),
                forall|seg: u32|
                    out@.contains(seg) <==> exists|j: int|
                        0 <= j < i && #[trigger] entries@[j].segment_id == seg
                            && entries@[j].symbol == symbol && spec_overlaps(
                            entries@[j],
                            t_start,
                            t_end,
                        ),
            decreases entries@.len() - i,
        {
            let e = entries[i];
            if e.symbol == symbol && e.overlaps(t_start, t_end) {
                insert_sorted(&mut out, e.segment_id);
            }
            proof {
                assert forall|seg: u32|
                    out@.contains(seg) <==> exists|j: int|
                        0 <= j < i + 1 && #[trigger] entries@[j].segment_id == seg
                            && entries@[j].symbol == symbol && spec_overlaps(
                            entries@[j],
                            t_start,
                            t_end,
                        ) by {
                    if exists|j: int|
                        0 <= j < i + 1 && #[trigger] entries@[j].segment_id == seg
                            && entries@[j].symbol == symbol && spec_overlaps(
                            entries@[j],
                            t_start,
                            t_end,
                        ) {
                        let j = choose|j: int|
                            0 <= j < i + 1 && #[trigger] entries@[j].segment_id == seg
                                && entries@[j].symbol == symbol && spec_overlaps(
                                entries@[j],
                                t_start,
                                t_end,
                            );
                        if j < i {
                        }
                    }
                }
            }
            i = i + 1;
        }
        proof {
            lemma_entries_map(entries@);
            assert forall|seg: u32| out@.contains(seg) <==> spec_query_hit(
                self@,
                symbol,
                seg,
                t_start,
                t_end,
            ) by {
                if out@.contains(seg) {
                    let j = choose|j: int|
                        0 <= j < entries@.len() && #[trigger] entries@[j].segment_id
                            == seg && entries@[j].symbol == symbol && spec_overlaps(
                            entries@[j],
                            t_start,
                            t_end,
                        );
                    assert(spec_key(entries@[j]) == (symbol, seg));
                }
                if spec_query_hit(self@, symbol, seg, t_start, t_end) {
                    let j = choose|j: int|
                        0 <= j < entries@.len() && #[trigger] spec_key(entries@[j]) == (
                        symbol,
                        seg,
                        );
                    assert(entries@[j].segment_id == seg);
                }
            }
            lemma_sorted_where(out@, candidate_pred(self@, symbol, t_start, t_end));
        }
        out
    }

    /// Ids of the segments where some symbol's span meets `[t_start, t_end]`,
    /// in increasing order, each once.
    pub fn query_all(&self, t_start: u64, t_end: u64) -> (r: Vec<u32>)
        requires
            self.wf(),
        ensures
            strictly_increasing(r@),
            forall|seg: u32| r@.contains(seg) <==> spec_query_all_hit(self@, seg, t_start, t_end),
            r@ == spec_all_candidates(self@, t_start, t_end),
    {
        let entries = self.entry_list();
        let mut out: Vec<u32> = Vec::new();
        let mut i: usize = 0;
        while i < entries.len()
            invariant
                i <= entries@.len(),
                strictly_increasing(out@),
                forall|seg: u32|
                    out@.contains(seg) <==> exists|j: int|
                        0 <= j < i && #[trigger] entries@[j].segment_id == seg && spec_overlaps(
                            entries@[j],
                            t_start,
                            t_end,
                        ),
            decreases entries@.len() - i,
        {
            let e = entries[i];
            if e.overlaps(t_start, t_end) {
                insert_sorted(&mut out, e.segment_id);
            }
            proof {
                assert forall|seg: u32|
                    out@.contains(seg) <==> exists|j: int|
                        0 <= j < i + 1 && #[trigger] entries@[j].segment_id == seg
                            && spec_overlaps(entries@[j], t_start, t_end) by {
                    if exists|j: int|
                        0 <= j < i + 1 && #[trigger] entries@[j].segment_id == seg
                            && spec_overlaps(entries@[j], t_start, t_end) {
                        let j = choose|j: int|
                            0 <= j < i + 1 && #[trigger] entries@[j].segment_id == seg
                                && spec_overlaps(entries@[j], t_start, t_end);
                        if j < i {
                        }
                    }
                }
            }
            i = i + 1;
        }
        proof {
            lemma_entries_map(entries@);
            assert forall|seg: u32| out@.contains(seg) <==> spec_query_all_hit(
                self@,
                seg,
                t_start,
                t_end,
            ) by {
                if out@.contains(seg) {
                    let j = choose|j: int|
                        0 <= j < entries@.len() && #[trigger] entries@[j].segment_id
                            == seg && spec_overlaps(entries@[j], t_start, t_end);
                    let sym = entries@[j].symbol;
                    assert(spec_key(entries@[j]) == (sym, seg));
                    assert(spec_query_hit(self@, sym, seg, t_start, t_end));
                }
                if spec_query_all_hit(self@, seg, t_start, t_end) {
                    let sym = choose|sym: SymbolId| #[trigger]
                        spec_query_hit(self@, sym, seg, t_start, t_end);
                    let j = choose|j: int|
                        0 <= j < entries@.len() && #[trigger] spec_key(entries@[j]) == (
                        sym,
                        seg,
                        );
                    assert(entries@[j].segment_id == seg);
                }
            }
            lemma_sorted_where(out@, any_candidate_pred(self@, t_start, t_end));
        }
        out
    }

    /// Number of entries.
    pub fn len(&self) -> (r: usize)
        requires
            self.wf(),
        ensures
            r == self@.len(),
    {
        self.entries.len()
    }

    /// Whether some entry of `symbol` ends after `ts`, that is whether an
    /// event of `symbol` later than `ts` has been logged.
    pub fn logged_after(&self, symbol: SymbolId, ts: u64) -> (r: bool)
        requires
            self.wf(),
        ensures
            r == spec_logged_after(self@, symbol, ts),
    {
        let entries = self.entry_list();
        proof {
            lemma_entries_map(entries@);
        }
        let mut i: usize = 0;
        while i < entries.len()
            invariant
                i <= entries@.len(),
                self.wf(),
                keys_unique(entries@),
                spec_entries_map(entries@) == self@,
                forall|k: int| 0 <= k < i ==> !(#[trigger] entries@[k].symbol == symbol
                    && entries@[k].max_ts > ts),
            decreases entries@.len() - i,
        {
            let e = entries[i];
            if e.symbol == symbol && e.max_ts > ts {
                proof {
                    lemma_entries_map(entries@);
                }
                assert(spec_key(entries@[i as int]) == (symbol, e.segment_id));
                assert(self@.contains_key(spec_key(entries@[i as int])));
                assert(self@.contains_key((symbol, e.segment_id)));
                return true;
            }
            i = i + 1;
        }
        assert forall|seg: u32| #[trigger] self@.contains_key((symbol, seg)) implies self@[(symbol, seg)].max_ts <= ts by {
            let k = choose|k: int| 0 <= k < entries@.len() && #[trigger] spec_key(entries@[k]) == (symbol, seg);
            assert(entries@[k].symbol == symbol);
        }
        false
    }

    /// Whether the index has no entry.
    pub fn is_empty(&self) -> (r: bool)
        requires
            self.wf(),
        ensures
            r == (self@.len() == 0),
    {
        self.entries.len() == 0
    }

    /// The bytes of the index file: every entry once, 40 bytes each, in an
    /// unspecified order. Reading them back gives the same map.
    pub fn to_bytes(&self) -> (r: Vec<u8>)
        requires
            self.wf(),
        ensures
            r@.len() == 40 * self@.len(),
            spec_entries_map(spec_entry_records(r@)) == self@,
    {
        let entries = self.entry_list();
        let mut out: Vec<u8> = Vec::new();
        let mut i: usize = 0;
        while i < entries.len()
            invariant
                i <= entries@.len(),
                out@ == spec_encode_entries(entries@.take(i as int)),
            decreases entries@.len() - i,
        {
            let mut b = entries[i].to_bytes();
            out.append(&mut b);
            proof {
                assert(entries@.take(i as int + 1).drop_last() =~= entries@.take(i as int));
            }
            i = i + 1;
        }
        proof {
            assert(entries@.take(entries@.len() as int) =~= entries@);
            lemma_entry_records_encode(entries@);
            lemma_encode_entries_len(entries@);
            lemma_entries_map(entries@);
        }
        out
    }
}

} // verus!
