use vstd::prelude::*;
use vstd::slice::slice_subrange;

use crate::entry::IndexEntry;
use crate::event::{Event, EVENT_SIZE, spec_decode_events, spec_encode_events, lemma_decode_encode_events};
use crate::index::{IndexError, IndexKey, SegmentIndex, spec_candidates, spec_covers, spec_query_hit};
use crate::log_writer::{LogWriter, segment_path, spec_segment_path};
use crate::sorted::{strictly_increasing, spec_collect, lemma_collect_same_nonempty};
use crate::symbol::SymbolId;

verus! {

broadcast use Seq::lemma_filter_push;

// ─── segment contents handed in by the caller ────────────────────────────────

/// Contents of segment files, by segment id, kept in increasing id order.
pub struct SegmentStore {
    segments: Vec<(u32, Vec<u8>)>,
}

/// The ids of a store listing.
pub open spec fn store_ids(s: Seq<(u32, Seq<u8>)>) -> Seq<u32> {
    s.map_values(|p: (u32, Seq<u8>)| p.0)
}

/// The bytes stored for segment `id`, if any.
pub open spec fn store_lookup(s: Seq<(u32, Seq<u8>)>, id: u32) -> Option<Seq<u8>> {
    if exists|i: int| 0 <= i < s.len() && s[i].0 == id {
        Some(s[choose|i: int| 0 <= i < s.len() && s[i].0 == id].1)
    } else {
        None
    }
}

pub proof fn lemma_store_lookup(s: Seq<(u32, Seq<u8>)>, i: int)
    requires
        strictly_increasing(store_ids(s)),
        0 <= i < s.len(),
    ensures
        store_lookup(s, s[i].0) == Some(s[i].1),
{
    let k = choose|k: int| 0 <= k < s.len() && s[k].0 == s[i].0;
    if k != i {
        assert(store_ids(s)[k] == s[k].0);
        assert(store_ids(s)[i] == s[i].0);
        if k < i {
            assert(store_ids(s)[k] < store_ids(s)[i]);
        } else {
            assert(store_ids(s)[i] < store_ids(s)[k]);
        }
    }
}

impl View for SegmentStore {
    type V = Seq<(u32, Seq<u8>)>;

    closed spec fn view(&self) -> Seq<(u32, Seq<u8>)> {
        self.segments@.map_values(|p: (u32, Vec<u8>)| (p.0, p.1@))
    }
}

impl SegmentStore {
    /// Ids are in increasing order, each once.
    pub open spec fn wf(&self) -> bool {
        strictly_increasing(store_ids(self@))
    }

    /// An empty store.
    pub fn new() -> (r: SegmentStore)
        ensures
            r.wf(),
            r@ == Seq::<(u32, Seq<u8>)>::empty(),
    {
        let r = SegmentStore { segments: Vec::new() };
        assert(r@ =~= Seq::<(u32, Seq<u8>)>::empty());
        r
    }

    /// Stores the contents of segment `id`, replacing any earlier ones.
    pub fn insert(&mut self, id: u32, data: Vec<u8>)
        requires
            old(self).wf(),
        ensures
            final(self).wf(),
            store_lookup(final(self)@, id) == Some(data@),
            forall|x: u32| x != id ==> store_lookup(final(self)@, x) == store_lookup(old(self)@, x),
            forall|x: u32| store_ids(final(self)@).contains(x) <==> (store_ids(old(self)@).contains(x) || x == id),
    {
        let ghost old_view = self@;
        let mut p: usize = 0;
        while p < self.segments.len() && self.segments[p].0 < id
            invariant
                p <= self.segments@.len(),
                self@ == old_view,
                strictly_increasing(store_ids(self@)),
                forall|i: int| 0 <= i < p ==> self.segments@[i].0 < id,
            decreases self.segments@.len() - p,
        {
            p = p + 1;
        }
        assert(self@.len() == self.segments@.len());
        assert(p < old_view.len() ==> store_ids(old_view)[p as int] >= id);
        if p < self.segments.len() && self.segments[p].0 == id {
            self.segments.set(p, (id, data));
            proof {
                let nv = self@;
                assert(nv =~= old_view.update(p as int, (id, data@)));
                assert(store_ids(nv) =~= store_ids(old_view));
                lemma_store_lookup(nv, p as int);
                assert forall|x: u32| x != id implies store_lookup(nv, x) == store_lookup(old_view, x) by {
                    if exists|i: int| 0 <= i < nv.len() && nv[i].0 == x {
                        let i = choose|i: int| 0 <= i < nv.len() && nv[i].0 == x;
                        lemma_store_lookup(nv, i);
                        lemma_store_lookup(old_view, i);
                    } else {
                        assert forall|i: int| 0 <= i < old_view.len() implies old_view[i].0 != x by {
                            assert(nv[i].0 == old_view[i].0 || i == p);
                        }
                    }
                }
            }
        } else {
            self.segments.insert(p, (id, data));
            proof {
                let nv = self@;
                assert(nv =~= old_view.insert(p as int, (id, data@)));
                let ids = store_ids(nv);
                let oids = store_ids(old_view);
                assert forall|i: int, j: int| 0 <= i < j < ids.len() implies ids[i] < ids[j] by {
                    if j < p {
                        assert(ids[i] == oids[i] && ids[j] == oids[j]);
                    } else if j == p {
                        assert(ids[i] == oids[i]);
                    } else if i < p {
                        assert(ids[i] == oids[i] && ids[j] == oids[j - 1]);
                        assert(oids[i] < id);
                        assert(oids[p as int] > id);
                        if j - 1 > p {
                            assert(oids[p as int] < oids[j - 1]);
                        }
                    } else if i == p {
                        assert(ids[j] == oids[j - 1]);
                        assert(oids[p as int] > id);
                        if j - 1 > p {
                            assert(oids[p as int] < oids[j - 1]);
                        }
                    } else {
                        assert(ids[i] == oids[i - 1] && ids[j] == oids[j - 1]);
                    }
                }
                lemma_store_lookup(nv, p as int);
                assert forall|x: u32| x != id implies store_lookup(nv, x) == store_lookup(old_view, x) by {
                    if exists|i: int| 0 <= i < nv.len() && nv[i].0 == x {
                        let i = choose|i: int| 0 <= i < nv.len() && nv[i].0 == x;
                        lemma_store_lookup(nv, i);
                        if i < p {
                            lemma_store_lookup(old_view, i);
                        } else {
                            assert(i != p);
                            assert(nv[i] == old_view[i - 1]);
                            lemma_store_lookup(old_view, i - 1);
                        }
                    } else {
                        assert forall|i: int| 0 <= i < old_view.len() implies old_view[i].0 != x by {
                            if i < p {
                                assert(nv[i] == old_view[i]);
                            } else {
                                assert(nv[i + 1] == old_view[i]);
                            }
                        }
                    }
                }
                assert forall|x: u32| ids.contains(x) <==> (oids.contains(x) || x == id) by {
                    if ids.contains(x) {
                        let i = choose|i: int| 0 <= i < ids.len() && ids[i] == x;
                        if i < p {
                            assert(oids[i] == x);
                        } else if i > p {
                            assert(oids[i - 1] == x);
                        }
                    }
                    if oids.contains(x) {
                        let i = choose|i: int| 0 <= i < oids.len() && oids[i] == x;
                        if i < p {
                            assert(ids[i] == x);
                        } else {
                            assert(ids[i + 1] == x);
                        }
                    }
                    if x == id {
                        assert(ids[p as int] == x);
                    }
                }
            }
            return;
        }
        proof {
            let nv = self@;
            assert(store_ids(nv) =~= store_ids(old_view));
            assert(store_ids(old_view)[p as int] == id);
            assert(store_ids(old_view).contains(id));
        }
    }

    /// The contents of segment `id`, if stored.
    pub fn get(&self, id: u32) -> (r: Option<&Vec<u8>>)
        requires
            self.wf(),
        ensures
            match r {
                Some(b) => store_lookup(self@, id) == Some(b@),
                None => store_lookup(self@, id) is None,
            },
    {
        let mut i: usize = 0;
        while i < self.segments.len()
            invariant
                i <= self.segments@.len(),
                self.wf(),
                self@.len() == self.segments@.len(),
                forall|j: int| 0 <= j < i ==> self@[j].0 != id,
            decreases self.segments@.len() - i,
        {
            if self.segments[i].0 == id {
                proof {
                    assert(self@[i as int].0 == id);
                    lemma_store_lookup(self@, i as int);
                }
                return Some(&self.segments[i].1);
            }
            i = i + 1;
        }
        None
    }

    /// Number of stored segments.
    pub fn len(&self) -> (r: usize)
        ensures
            r == self@.len(),
    {
        self.segments.len()
    }
}

// ─── range query ─────────────────────────────────────────────────────────────

/// `e` is an event of `symbol` with a timestamp in `[t_start, t_end]`.
pub open spec fn range_pred(symbol: SymbolId, t_start: u64, t_end: u64) -> spec_fn(Event) -> bool {
    |e: Event| e.symbol == symbol && t_start <= e.timestamp_ns && e.timestamp_ns <= t_end
}

/// What a range query keeps: an event passes exactly when it is of
/// `symbol` and its timestamp lies in `[t_start, t_end]`, both ends included.
/// Nothing else about the event (kind, price, volume, padding) matters.
pub proof fn lemma_range_filter(symbol: SymbolId, t_start: u64, t_end: u64, e: Event, other: Event)
    ensures
        range_pred(symbol, t_start, t_end)(e) <==> (e.symbol == symbol && t_start <= e.timestamp_ns
            && e.timestamp_ns <= t_end),
        other.timestamp_ns == e.timestamp_ns && other.symbol == e.symbol ==> range_pred(
            symbol,
            t_start,
            t_end,
        )(other) == range_pred(symbol, t_start, t_end)(e),
{
}

/// The matching events of segment `id` in the store (none if it is not stored).
pub open spec fn segment_matches(
    store: Seq<(u32, Seq<u8>)>,
    symbol: SymbolId,
    t_start: u64,
    t_end: u64,
) -> spec_fn(u32) -> Seq<Event> {
    |id: u32|
        match store_lookup(store, id) {
            Some(b) => spec_decode_events(b).filter(range_pred(symbol, t_start, t_end)),
            None => Seq::empty(),
        }
}

/// What a range query returns: the matching events of the candidate
/// segments that are stored, segment by segment in increasing id order,
/// each segment's events in file order.
pub open spec fn spec_read_range(
    index: Map<IndexKey, IndexEntry>,
    store: Seq<(u32, Seq<u8>)>,
    symbol: SymbolId,
    t_start: u64,
    t_end: u64,
) -> Seq<Event> {
    spec_collect(spec_candidates(index, symbol, t_start, t_end), segment_matches(store, symbol, t_start, t_end))
}

/// The index covers every event of every stored segment.
pub open spec fn index_covers_store(index: Map<IndexKey, IndexEntry>, store: Seq<(u32, Seq<u8>)>) -> bool {
    forall|k: int, j: int|
        0 <= k < store.len() && 0 <= j < spec_decode_events(store[k].1).len() ==> spec_covers(
            index,
            #[trigger] spec_decode_events(store[k].1)[j].symbol,
            store[k].0,
            spec_decode_events(store[k].1)[j].timestamp_ns,
        )
}

/// Appends to `out` the events of the segment bytes `data` that match.
fn scan_segment(data: &[u8], symbol: SymbolId, t_start: u64, t_end: u64, out: &mut Vec<Event>)
    ensures
        final(out)@ == old(out)@ + spec_decode_events(data@).filter(range_pred(symbol, t_start, t_end)),
{
    let ghost pred = range_pred(symbol, t_start, t_end);
    let ghost all = spec_decode_events(data@);
    let ghost start = out@;
    let mut off: usize = 0;
    let ghost mut done: Seq<Event> = Seq::empty();
    assert(data@.skip(0) =~= data@);
    assert(done + spec_decode_events(data@) =~= spec_decode_events(data@));
    assert(done.filter(pred) =~= Seq::<Event>::empty());
    assert(out@ =~= start + done.filter(pred));
    while data.len() - off >= EVENT_SIZE
        invariant
            off <= data@.len(),
            data@.len() == data.len(),
            all == spec_decode_events(data@),
            all == done + spec_decode_events(data@.skip(off as int)),
            out@ == start + done.filter(pred),
            start == old(out)@,
            pred == range_pred(symbol, t_start, t_end),
        decreases data@.len() - off,
    {
        let ghost rest = data@.skip(off as int);
        let chunk = slice_subrange(data, off, off + EVENT_SIZE);
        assert(chunk@ =~= rest.take(40));
        match crate::event::Event::from_bytes(chunk) {
            Some(e) => {
                assert(spec_decode_events(rest) == seq![e] + spec_decode_events(rest.skip(40)));
                assert(data@.skip(off + 40) =~= rest.skip(40));
                proof {
                    assert(done.push(e) + spec_decode_events(rest.skip(40)) =~= done + spec_decode_events(rest));
                }
                if e.symbol == symbol && t_start <= e.timestamp_ns && e.timestamp_ns <= t_end {
                    out.push(e);
                }
                proof {
                    assert(done.push(e).filter(pred) == if pred(e) { done.filter(pred).push(e) } else { done.filter(pred) });
                    done = done.push(e);
                }
                off = off + EVENT_SIZE;
            },
            None => {
                assert(spec_decode_events(rest) =~= Seq::<Event>::empty());
                assert(all =~= done);
                assert(out@ == start + all.filter(pred));
                return;
            },
        }
    }
    proof {
        assert(spec_decode_events(data@.skip(off as int)) =~= Seq::<Event>::empty());
        assert(all =~= done);
    }
}

/// Read-only query engine over a log directory's index.
///
/// Holds no open file: a range query names the candidate segments; the
/// caller hands in the contents of those that exist.
pub struct QueryEngine {
    dir: String,
    index: SegmentIndex,
}

impl QueryEngine {
    /// The log directory.
    pub closed spec fn spec_dir(&self) -> Seq<char> {
        self.dir@
    }

    /// The loaded index.
    pub closed spec fn spec_index(&self) -> Map<IndexKey, IndexEntry> {
        self.index@
    }

    pub closed spec fn wf(&self) -> bool {
        self.index.wf()
    }

    /// Opens the engine on `dir`, whose `index.bin` holds `index_file`
    /// (`None` when absent).
    pub fn open(dir: String, index_file: Option<&[u8]>) -> (r: Result<QueryEngine, IndexError>)
        ensures
            r matches Err(e) ==> (index_file matches Some(b) && b@.len() % 40 != 0 && e
                == IndexError::InvalidSize { len: b@.len() as usize, entry_size: 40 }),
            (r is Err) == (index_file matches Some(b) && b@.len() % 40 != 0),
            r matches Ok(q) ==> {
                &&& q.wf()
                &&& q.spec_dir() == dir@
                &&& (index_file matches Some(b) ==> q.spec_index() == crate::index::spec_entries_map(
                    crate::index::spec_entry_records(b@),
                ))
                &&& (index_file is None ==> q.spec_index() == Map::<IndexKey, IndexEntry>::empty())
            },
    {
        match SegmentIndex::open(index_file) {
            Ok(index) => Ok(QueryEngine { dir, index }),
            Err(e) => Err(e),
        }
    }

    /// The index, for inspection.
    pub fn index(&self) -> (r: &SegmentIndex)
        requires
            self.wf(),
        ensures
            r.wf(),
            r@ == self.spec_index(),
    {
        &self.index
    }

    /// Path of segment `id` in the log directory.
    pub fn segment_path(&self, id: u32) -> (r: String)
        ensures
            r@ == spec_segment_path(self.spec_dir(), id),
    {
        segment_path(self.dir.as_str(), id)
    }

    /// Ids of the segments to load for `read_range(symbol, t_start, t_end)`.
    pub fn candidate_segments(&self, symbol: SymbolId, t_start: u64, t_end: u64) -> (r: Vec<u32>)
        requires
            self.wf(),
        ensures
            r@ == spec_candidates(self.spec_index(), symbol, t_start, t_end),
    {
        self.index.query(symbol, t_start, t_end)
    }

    /// All events of `symbol` with a timestamp in the closed interval
    /// `[t_start, t_end]`, from the candidate segments found in `store`
    /// (a candidate absent from the store is skipped), segment by segment
    /// in increasing id order, each in write order.
    pub fn read_range(&self, symbol: SymbolId, t_start: u64, t_end: u64, store: &SegmentStore) -> (r: Vec<Event>)
        requires
            self.wf(),
            store.wf(),
        ensures
            r@ == spec_read_range(self.spec_index(), store@, symbol, t_start, t_end),
    {
        let cands = self.index.query(symbol, t_start, t_end);
        let ghost f = segment_matches(store@, symbol, t_start, t_end);
        let mut out: Vec<Event> = Vec::new();
        let mut k: usize = 0;
        while k < cands.len()
            invariant
                k <= cands@.len(),
                store.wf(),
                f == segment_matches(store@, symbol, t_start, t_end),
                out@ == spec_collect(cands@.take(k as int), f),
            decreases cands@.len() - k,
        {
            proof {
                assert(cands@.take(k as int + 1).drop_last() =~= cands@.take(k as int));
            }
            match store.get(cands[k]) {
                Some(data) => {
                    scan_segment(data.as_slice(), symbol, t_start, t_end, &mut out);
                },
                None => {
                    assert(out@ + f(cands@[k as int]) =~= out@);
                },
            }
            k = k + 1;
        }
        assert(cands@.take(cands@.len() as int) =~= cands@);
        out
    }
}

/// Zone-map pruning loses nothing: when the index covers every event of
/// the stored segments, a range query returns exactly the matching events
/// of all stored segments, in increasing segment id order and, within a
/// segment, in write order.
pub proof fn lemma_read_range_complete(
    index: Map<IndexKey, IndexEntry>,
    store: Seq<(u32, Seq<u8>)>,
    symbol: SymbolId,
    t_start: u64,
    t_end: u64,
)
    requires
        index.dom().finite(),
        strictly_increasing(store_ids(store)),
        index_covers_store(index, store),
    ensures
        spec_read_range(index, store, symbol, t_start, t_end) == spec_collect(
            store_ids(store),
            segment_matches(store, symbol, t_start, t_end),
        ),
{
    let f = segment_matches(store, symbol, t_start, t_end);
    let cands = spec_candidates(index, symbol, t_start, t_end);
    let pred = crate::index::candidate_pred(index, symbol, t_start, t_end);
    let ids = store_ids(store);
    crate::index::lemma_candidates(index, symbol, t_start, t_end);
    assert forall|x: u32| f(x).len() > 0 implies (cands.contains(x) <==> ids.contains(x)) by {
        let b = store_lookup(store, x);
        assert(b is Some);
        let i = choose|i: int| 0 <= i < store.len() && store[i].0 == x;
        assert(ids[i] == x);
        lemma_store_lookup(store, i);
        let evs = spec_decode_events(store[i].1);
        let fe = evs.filter(range_pred(symbol, t_start, t_end));
        assert(fe.len() > 0);
        assert(fe.contains(fe[0]));
        evs.lemma_filter_contains_rev(range_pred(symbol, t_start, t_end), fe[0]);
        let e = fe[0];
        assert(evs.contains(e));
        let j = choose|j: int| 0 <= j < evs.len() && evs[j] == e;
        assert(spec_covers(index, evs[j].symbol, store[i].0, evs[j].timestamp_ns));
        crate::sorted::lemma_filter_contains_iff(evs, range_pred(symbol, t_start, t_end), e);
        assert(spec_query_hit(index, symbol, x, t_start, t_end));
        assert(pred(x));
    }
    lemma_collect_same_nonempty(cands, ids, f);
}

/// The index of a writer covers the segments it wrote.
pub proof fn lemma_log_covers_store(w: LogWriter, store: Seq<(u32, Seq<u8>)>)
    requires
        w.wf(),
        forall|k: int|
            #![trigger store[k]]
            0 <= k < store.len() ==> (store[k].0 as int) < w.emitted().len() && store[k].1
                == spec_encode_events(w.emitted()[store[k].0 as int]),
    ensures
        index_covers_store(w.spec_index(), store),
{
    assert forall|k: int, j: int|
        0 <= k < store.len() && 0 <= j < spec_decode_events(store[k].1).len() implies spec_covers(
        w.spec_index(),
        #[trigger] spec_decode_events(store[k].1)[j].symbol,
        store[k].0,
        spec_decode_events(store[k].1)[j].timestamp_ns,
    ) by {
        let id = store[k].0 as int;
        assert(store[k].1 == spec_encode_events(w.emitted()[id]));
        lemma_decode_encode_events(w.emitted()[id]);
        w.lemma_covers(id, j);
    }
}

/// What a log writer has written is read back: let `store` hold, for some
/// segment ids of the writer, exactly the records it emitted for them (as
/// on disk for a log created empty), and let a query engine be opened on
/// the index the writer maintains. A range query then returns the matching
/// events among those written, segment by segment in increasing id order,
/// each in write order.
pub proof fn lemma_log_read_back(
    w: LogWriter,
    store: Seq<(u32, Seq<u8>)>,
    symbol: SymbolId,
    t_start: u64,
    t_end: u64,
)
    requires
        w.wf(),
        strictly_increasing(store_ids(store)),
        forall|k: int|
            0 <= k < store.len() ==> (store[k].0 as int) < w.emitted().len() && #[trigger] store[k].1
                == spec_encode_events(w.emitted()[store[k].0 as int]),
    ensures
        spec_read_range(w.spec_index(), store, symbol, t_start, t_end) == spec_collect(
            store_ids(store),
            |id: u32| w.emitted()[id as int].filter(range_pred(symbol, t_start, t_end)),
        ),
{
    let g = |id: u32| w.emitted()[id as int].filter(range_pred(symbol, t_start, t_end));
    let f = segment_matches(store, symbol, t_start, t_end);
    assert forall|k: int| #![trigger store[k]] 0 <= k < store.len() implies (store[k].0 as int)
        < w.emitted().len() && store[k].1 == spec_encode_events(w.emitted()[store[k].0 as int]) by {
        assert(store[k].1 == spec_encode_events(w.emitted()[store[k].0 as int]));
    }
    lemma_log_covers_store(w, store);
    w.lemma_index_finite();
    lemma_read_range_complete(w.spec_index(), store, symbol, t_start, t_end);
    let ids = store_ids(store);
    assert forall|i: int| 0 <= i < ids.len() implies f(#[trigger] ids[i]) == g(ids[i]) by {
        lemma_store_lookup(store, i);
        assert(ids[i] == store[i].0);
        lemma_decode_encode_events(w.emitted()[store[i].0 as int]);
    }
    lemma_collect_ext(ids, f, g, store);
}

/// Concatenations over the ids of a store agree when the parts agree on those ids.
pub(crate) proof fn lemma_collect_ext(
    ids: Seq<u32>,
    f: spec_fn(u32) -> Seq<Event>,
    g: spec_fn(u32) -> Seq<Event>,
    store: Seq<(u32, Seq<u8>)>,
)
    requires
        forall|i: int| 0 <= i < ids.len() ==> f(#[trigger] ids[i]) == g(ids[i]),
    ensures
        spec_collect(ids, f) == spec_collect(ids, g),
    decreases ids.len(),
{
    if ids.len() > 0 {
        let t = ids.drop_last();
        assert forall|i: int| 0 <= i < t.len() implies f(#[trigger] t[i]) == g(t[i]) by {
            assert(t[i] == ids[i]);
        }
        lemma_collect_ext(t, f, g, store);
        assert(f(ids[ids.len() - 1]) == g(ids[ids.len() - 1]));
    }
}

} // verus!
