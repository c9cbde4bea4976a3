use vstd::prelude::*;
use vstd::slice::slice_to_vec;
use std::collections::VecDeque;
use std::collections::BTreeSet;

use crate::entry::IndexEntry;
use crate::event::{Event, spec_decode_events, spec_encode_events, lemma_decode_encode_events};
use crate::index::{
    IndexError, IndexKey, SegmentIndex, spec_all_candidates, spec_entries_map, spec_entry_records,
    spec_query_hit, spec_covers,
};
use crate::log_writer::{parse_segment_name, spec_parse_segment_name, name_views, LogWriter};
use crate::query::{
    SegmentStore, store_lookup, store_ids, index_covers_store, lemma_store_lookup, lemma_read_range_complete,
    range_pred, segment_matches, spec_read_range,
};
use crate::segment::SegmentReader;
use crate::sorted::{
    strictly_increasing, spec_sorted_where, lemma_sorted_where, spec_collect,
    lemma_collect_same_nonempty, lemma_filter_contains_iff,
};
use crate::symbol::SymbolId;

verus! {

broadcast use vstd::seq_lib::to_multiset_insert, vstd::seq_lib::to_multiset_build;

/// Parameters of a replay: a closed time window and a symbol filter.
pub struct ReplayConfig {
    /// Lower bound (inclusive), in nanoseconds. `0` is the very beginning.
    pub t_start: u64,
    /// Upper bound (inclusive), in nanoseconds. `u64::MAX` is the very end.
    pub t_end: u64,
    /// Symbols to replay; empty means all symbols.
    pub symbols: Vec<SymbolId>,
}

/// Error of opening a replay.
#[derive(Clone, Copy, Debug, PartialEq, Eq, Structural)]
pub enum ReplayError {
    /// The window is empty: `t_start > t_end`.
    InvalidRange { t_start: u64, t_end: u64 },
    /// The index file could not be read.
    Index(IndexError),
}

/// `e` passes the replay filters: its timestamp is in the window and its
/// symbol is one of `symbols` (any symbol when `symbols` is empty).
pub open spec fn replay_pred(t_start: u64, t_end: u64, symbols: Seq<SymbolId>) -> spec_fn(Event) -> bool {
    |e: Event|
        t_start <= e.timestamp_ns && e.timestamp_ns <= t_end && (symbols.len() == 0
            || symbols.contains(e.symbol))
}

/// What the replay filter keeps: an event passes exactly when its timestamp
/// lies in `[t_start, t_end]` and, unless `symbols` is empty, its symbol is one
/// of `symbols`. Nothing else about the event matters: changing its kind,
/// price, volume or padding does not change the answer.
pub proof fn lemma_replay_filter(
    t_start: u64,
    t_end: u64,
    symbols: Seq<SymbolId>,
    e: Event,
    other: Event,
)
    ensures
        replay_pred(t_start, t_end, symbols)(e) <==> (t_start <= e.timestamp_ns && e.timestamp_ns <= t_end
            && (symbols.len() == 0 || exists|i: int| 0 <= i < symbols.len() && symbols[i] == e.symbol)),
        other.timestamp_ns == e.timestamp_ns && other.symbol == e.symbol ==> replay_pred(
            t_start,
            t_end,
            symbols,
        )(other) == replay_pred(t_start, t_end, symbols)(e),
{
    if symbols.len() > 0 && symbols.contains(e.symbol) {
        let i = choose|i: int| 0 <= i < symbols.len() && symbols[i] == e.symbol;
    }
}

/// Segment `seg` is a candidate of the index for one of `symbols`.
pub open spec fn symbols_candidate_pred(
    m: Map<IndexKey, IndexEntry>,
    symbols: Seq<SymbolId>,
    t_start: u64,
    t_end: u64,
) -> spec_fn(u32) -> bool {
    |seg: u32| exists|i: int| 0 <= i < symbols.len() && #[trigger] spec_query_hit(m, symbols[i], seg, t_start, t_end)
}

/// The segments the index selects for a replay: for no symbol filter,
/// those whose span for some symbol meets the window; otherwise those that
/// are candidates for one of the symbols. In increasing order.
pub open spec fn spec_index_candidates(
    m: Map<IndexKey, IndexEntry>,
    symbols: Seq<SymbolId>,
    t_start: u64,
    t_end: u64,
) -> Seq<u32> {
    if symbols.len() == 0 {
        spec_all_candidates(m, t_start, t_end)
    } else {
        spec_sorted_where(symbols_candidate_pred(m, symbols, t_start, t_end))
    }
}

/// The segment ids named by the segment file names among `names`.
pub open spec fn spec_dir_ids(names: Seq<Seq<char>>) -> Seq<u32>
    decreases names.len(),
{
    if names.len() == 0 {
        Seq::empty()
    } else {
        match spec_parse_segment_name(names.last()) {
            Some(id) => spec_dir_ids(names.drop_last()).push(id),
            None => spec_dir_ids(names.drop_last()),
        }
    }
}

/// Non-decreasing order.
pub open spec fn nondecreasing(s: Seq<u32>) -> bool {
    forall|i: int, j: int| 0 <= i < j < s.len() ==> s[i] <= s[j]
}

/// Inserts `x` into the non-decreasing vector `v` (after equal elements).
fn insert_nondecreasing(v: &mut Vec<u32>, x: u32)
    requires
        nondecreasing(old(v)@),
    ensures
        nondecreasing(final(v)@),
        final(v)@.to_multiset() == old(v)@.to_multiset().insert(x),
{
    let mut p: usize = v.len();
    while p > 0 && v[p - 1] > x
        invariant
            p <= v@.len(),
            v@ == old(v)@,
            forall|i: int| p <= i < v@.len() ==> v@[i] > x,
        decreases p,
    {
        p = p - 1;
    }
    let ghost old_v = v@;
    v.insert(p, x);
    assert forall|i: int, j: int| 0 <= i < j < v@.len() implies v@[i] <= v@[j] by {
        if j < p {
        } else if j == p {
            assert(p > 0);
            assert(old_v[p - 1] <= x);
            if i < p - 1 {
                assert(old_v[i] <= old_v[p - 1]);
            }
        } else if i < p {
            assert(v@[j] == old_v[j - 1]);
            if i < j - 1 {
                assert(old_v[i] <= old_v[j - 1]);
            }
        } else if i == p {
            assert(v@[j] == old_v[j - 1]);
        } else {
            assert(v@[j] == old_v[j - 1]);
            assert(v@[i] == old_v[i - 1]);
        }
    }
}

/// The ids of segment files among a directory's file names, in
/// non-decreasing order (an id named by two files appears twice).
pub fn candidates_from_dir(names: &Vec<String>) -> (r: Vec<u32>)
    ensures
        nondecreasing(r@),
        r@.to_multiset() == spec_dir_ids(name_views(names@)).to_multiset(),
{
    let ghost views = name_views(names@);
    let mut ids: Vec<u32> = Vec::new();
    let mut i: usize = 0;
    while i < names.len()
        invariant
            i <= names@.len(),
            views == name_views(names@),
            nondecreasing(ids@),
            ids@.to_multiset() == spec_dir_ids(views.take(i as int)).to_multiset(),
        decreases names@.len() - i,
    {
        proof {
            assert(views.take(i as int + 1).drop_last() =~= views.take(i as int));
            assert(views.take(i as int + 1).last() == names@[i as int]@);
        }
        if let Some(id) = parse_segment_name(names[i].as_str()) {
            insert_nondecreasing(&mut ids, id);
        }
        i = i + 1;
    }
    assert(views.len() == names@.len());
    assert(views.take(names@.len() as int) =~= views);
    ids
}

/// Segments of `index` to replay for the filters of `config`: the index's
/// candidates alone, so none for an empty index (`ReplayConfig::candidate_segments`
/// then falls back to the directory listing).
pub fn candidates_from_index(index: &SegmentIndex, config: &ReplayConfig) -> (r: Vec<u32>)
    requires
        index.wf(),
    ensures
        r@ == spec_index_candidates(index@, config.symbols@, config.t_start, config.t_end),
        strictly_increasing(r@),
{
    if config.symbols.len() == 0 {
        return index.query_all(config.t_start, config.t_end);
    }
    let ghost p = symbols_candidate_pred(index@, config.symbols@, config.t_start, config.t_end);
    let mut ids: BTreeSet<u32> = BTreeSet::new();
    let mut k: usize = 0;
    while k < config.symbols.len()
        invariant
            k <= config.symbols@.len(),
            index.wf(),
            forall|seg: u32|
                ids@.contains(seg) <==> exists|i: int|
                    0 <= i < k && #[trigger] spec_query_hit(
                        index@,
                        config.symbols@[i],
                        seg,
                        config.t_start,
                        config.t_end,
                    ),
        decreases config.symbols@.len() - k,
    {
        let segs = index.query(config.symbols[k], config.t_start, config.t_end);
        let ghost before = ids@;
        let mut j: usize = 0;
        let ghost mut seen: Seq<u32> = Seq::empty();
        while j < segs.len()
            invariant
                j <= segs@.len(),
                seen == segs@.take(j as int),
                forall|seg: u32| ids@.contains(seg) <==> (before.contains(seg) || seen.contains(seg)),
            decreases segs@.len() - j,
        {
            let x = segs[j];
            insert_id(&mut ids, x);
            proof {
                let ns = seen.push(x);
                assert forall|seg: u32| ns.contains(seg) <==> (seen.contains(seg) || seg == x) by {
                    if ns.contains(seg) {
                        let q = choose|q: int| 0 <= q < ns.len() && ns[q] == seg;
                        if q < seen.len() {
                            assert(seen[q] == seg);
                        }
                    }
                    if seen.contains(seg) {
                        let q = choose|q: int| 0 <= q < seen.len() && seen[q] == seg;
                        assert(ns[q] == seg);
                    }
                    if seg == x {
                        assert(ns[seen.len() as int] == seg);
                    }
                }
                assert(segs@.take(j as int + 1) =~= ns);
                seen = ns;
            }
            j = j + 1;
        }
        proof {
            assert(segs@.take(segs@.len() as int) =~= segs@);
            assert(forall|seg: u32| segs@.contains(seg) <==> spec_query_hit(index@, config.symbols@[k as int], seg, config.t_start, config.t_end));
            assert forall|seg: u32|
                ids@.contains(seg) <==> exists|i: int|
                    0 <= i < k + 1 && #[trigger] spec_query_hit(
                        index@,
                        config.symbols@[i],
                        seg,
                        config.t_start,
                        config.t_end,
                    ) by {
                assert(ids@.contains(seg) <==> (before.contains(seg) || segs@.contains(seg)));
                if spec_query_hit(index@, config.symbols@[k as int], seg, config.t_start, config.t_end) {
                    assert(segs@.contains(seg));
                }
                if before.contains(seg) {
                    let i = choose|i: int|
                        0 <= i < k && #[trigger] spec_query_hit(
                            index@,
                            config.symbols@[i],
                            seg,
                            config.t_start,
                            config.t_end,
                        );
                    assert(0 <= i < k + 1);
                }
                if exists|i: int|
                    0 <= i < k + 1 && #[trigger] spec_query_hit(
                        index@,
                        config.symbols@[i],
                        seg,
                        config.t_start,
                        config.t_end,
                    ) {
                    let i = choose|i: int|
                        0 <= i < k + 1 && #[trigger] spec_query_hit(
                            index@,
                            config.symbols@[i],
                            seg,
                            config.t_start,
                            config.t_end,
                        );
                    if i == k {
                        assert(segs@.contains(seg));
                    }
                }
            }
        }
        k = k + 1;
    }
    let out = increasing_ids(&ids);
    proof {
        assert forall|seg: u32| out@.contains(seg) <==> p(seg) by {
        }
        lemma_sorted_where(out@, p);
    }
    out
}

/// `ids` lists the segment files among `dir_names`, in non-decreasing id order.
pub open spec fn is_dir_listing(dir_names: Seq<String>, ids: Seq<u32>) -> bool {
    nondecreasing(ids) && ids.to_multiset() == spec_dir_ids(name_views(dir_names)).to_multiset()
}

/// `ids` lists the segments a replay reads: with an index file holding
/// entries, the index candidates for the filters; with no index file, or
/// one holding no entry, every segment file of the directory (no pruning).
pub open spec fn is_candidate_listing(
    t_start: u64,
    t_end: u64,
    symbols: Seq<SymbolId>,
    index_file: Option<&[u8]>,
    dir_names: Seq<String>,
    ids: Seq<u32>,
) -> bool {
    match index_file {
        Some(b) => {
            let m = spec_entries_map(spec_entry_records(b@));
            if m.len() == 0 {
                is_dir_listing(dir_names, ids)
            } else {
                ids == spec_index_candidates(m, symbols, t_start, t_end)
            }
        },
        None => is_dir_listing(dir_names, ids),
    }
}

impl ReplayConfig {
    /// Replay over the whole history, all symbols.
    pub fn new() -> (r: ReplayConfig)
        ensures
            r.t_start == 0,
            r.t_end == u64::MAX,
            r.symbols@ == Seq::<SymbolId>::empty(),
    {
        ReplayConfig { t_start: 0, t_end: u64::MAX, symbols: Vec::new() }
    }

    /// The same configuration with the window `[t_start, t_end]`.
    pub fn with_range(self, t_start: u64, t_end: u64) -> (r: ReplayConfig)
        ensures
            r.t_start == t_start,
            r.t_end == t_end,
            r.symbols@ == self.symbols@,
    {
        let mut c = self;
        c.t_start = t_start;
        c.t_end = t_end;
        c
    }

    /// The same configuration with `symbol` added to the filter.
    pub fn with_symbol(self, symbol: SymbolId) -> (r: ReplayConfig)
        ensures
            r.t_start == self.t_start,
            r.t_end == self.t_end,
            r.symbols@ == self.symbols@.push(symbol),
    {
        let mut c = self;
        c.symbols.push(symbol);
        c
    }

    /// Segments to replay, for a log directory whose `index.bin` holds
    /// `index_file` (`None` when absent) and whose file names are
    /// `dir_names`: from the index when present, else every segment file.
    pub fn candidate_segments(&self, index_file: Option<&[u8]>, dir_names: &Vec<String>) -> (r: Result<
        Vec<u32>,
        ReplayError,
    >)
        ensures
            self.t_start > self.t_end ==> r == Err::<Vec<u32>, ReplayError>(
                ReplayError::InvalidRange { t_start: self.t_start, t_end: self.t_end },
            ),
            self.t_start <= self.t_end ==> match index_file {
                Some(b) => if b@.len() % 40 != 0 {
                    r == Err::<Vec<u32>, ReplayError>(
                        ReplayError::Index(IndexError::InvalidSize { len: b@.len() as usize, entry_size: 40 }),
                    )
                } else {
                    r matches Ok(ids) && is_candidate_listing(self.t_start, self.t_end, self.symbols@, index_file, dir_names@, ids@)
                },
                None => r matches Ok(ids) && is_candidate_listing(self.t_start, self.t_end, self.symbols@, index_file, dir_names@, ids@),
            },
    {
        if self.t_start > self.t_end {
            return Err(ReplayError::InvalidRange { t_start: self.t_start, t_end: self.t_end });
        }
        match index_file {
            Some(_) => match SegmentIndex::open(index_file) {
                Ok(index) => if index.is_empty() {
                    Ok(candidates_from_dir(dir_names))
                } else {
                    Ok(candidates_from_index(&index, self))
                },
                Err(e) => Err(ReplayError::Index(e)),
            },
            None => Ok(candidates_from_dir(dir_names)),
        }
    }

    /// Opens a replay: the candidate segments (see `candidate_segments`)
    /// are read from `store`, where a segment absent from it is skipped.
    pub fn open(self, index_file: Option<&[u8]>, dir_names: &Vec<String>, store: &SegmentStore) -> (r: Result<
        ReplayIter,
        ReplayError,
    >)
        requires
            store.wf(),
        ensures
            self.t_start > self.t_end ==> r == Err::<ReplayIter, ReplayError>(
                ReplayError::InvalidRange { t_start: self.t_start, t_end: self.t_end },
            ),
            self.t_start <= self.t_end && (index_file matches Some(b) && b@.len() % 40 != 0) ==> r == Err::<
                ReplayIter,
                ReplayError,
            >(ReplayError::Index(IndexError::InvalidSize { len: index_file.unwrap()@.len() as usize, entry_size: 40 })),
            self.t_start <= self.t_end && !(index_file matches Some(b) && b@.len() % 40 != 0) ==> (r matches Ok(it)
                && it.wf() && it.spec_config() == (self.t_start, self.t_end, self.symbols@) && exists|ids: Seq<u32>|
                is_candidate_listing(self.t_start, self.t_end, self.symbols@, index_file, dir_names@, ids)
                    && it.remaining() == spec_replay_events(ids, store@, self.t_start, self.t_end, self.symbols@)),
    {
        match self.candidate_segments(index_file, dir_names) {
            Ok(ids) => Ok(ReplayIter::new(self, &ids, store)),
            Err(e) => Err(e),
        }
    }
}

impl Default for ReplayConfig {
    /// Replay over the whole history, all symbols.
    fn default() -> (r: ReplayConfig)
        ensures
            r.t_start == 0,
            r.t_end == u64::MAX,
            r.symbols@ == Seq::<SymbolId>::empty(),
    {
        ReplayConfig::new()
    }
}

/// The events of segment `id` in the store (none if it is not stored).
pub open spec fn stored_events(store: Seq<(u32, Seq<u8>)>) -> spec_fn(u32) -> Seq<Event> {
    |id: u32|
        match store_lookup(store, id) {
            Some(b) => spec_decode_events(b),
            None => Seq::empty(),
        }
}

/// What a replay over the segments `ids` yields: their events, segment by
/// segment in the order of `ids`, each in file order, that pass the filters.
pub open spec fn spec_replay_events(
    ids: Seq<u32>,
    store: Seq<(u32, Seq<u8>)>,
    t_start: u64,
    t_end: u64,
    symbols: Seq<SymbolId>,
) -> Seq<Event> {
    spec_collect(ids, stored_events(store)).filter(replay_pred(t_start, t_end, symbols))
}

/// Events still to come from queued readers, the next reader first.
pub open spec fn readers_events(rs: Seq<SegmentReader>) -> Seq<Event>
    decreases rs.len(),
{
    if rs.len() == 0 {
        Seq::empty()
    } else {
        rs[0].remaining() + readers_events(rs.drop_first())
    }
}

/// A reader queued last adds its events at the end.
proof fn lemma_readers_push(rs: Seq<SegmentReader>, r: SegmentReader)
    ensures
        readers_events(rs.push(r)) == readers_events(rs) + r.remaining(),
    decreases rs.len(),
{
    if rs.len() == 0 {
        assert(rs.push(r).drop_first() =~= Seq::<SegmentReader>::empty());
        assert(readers_events(Seq::<SegmentReader>::empty()) == Seq::<Event>::empty());
        assert(rs.push(r)[0] == r);
        assert(readers_events(rs.push(r)) =~= r.remaining());
    } else {
        assert(rs.push(r).drop_first() =~= rs.drop_first().push(r));
        lemma_readers_push(rs.drop_first(), r);
        assert(rs.push(r)[0] == rs[0]);
        assert(readers_events(rs.push(r)) =~= readers_events(rs) + r.remaining());
    }
}

/// Iterator over the events of a log in segment order, filtered by a
/// `ReplayConfig`.
///
/// Events come in file order within a segment and segments in the order of
/// the candidates, which is increasing id order: a global timestamp order
/// when the writer kept timestamps increasing.
pub struct ReplayIter {
    segments: VecDeque<SegmentReader>,
    current: Option<SegmentReader>,
    config: ReplayConfig,
}

impl ReplayIter {
    /// The filters.
    pub closed spec fn spec_config(&self) -> (u64, u64, Seq<SymbolId>) {
        (self.config.t_start, self.config.t_end, self.config.symbols@)
    }

    /// Every event not yet read, matching or not.
    pub closed spec fn unread(&self) -> Seq<Event> {
        match self.current {
            Some(r) => r.remaining() + readers_events(self.segments@),
            None => Seq::empty(),
        }
    }

    /// The events the iterator will still return, in order.
    pub closed spec fn remaining(&self) -> Seq<Event> {
        self.unread().filter(replay_pred(self.config.t_start, self.config.t_end, self.config.symbols@))
    }

    pub closed spec fn wf(&self) -> bool {
        &&& (forall|i: int| 0 <= i < self.segments@.len() ==> (#[trigger] self.segments@[i]).wf())
        &&& (self.current matches Some(r) ==> r.wf())
        &&& (self.current is None ==> self.segments@.len() == 0)
    }

    /// A replay of the segments `ids` found in `store`, filtered by `config`.
    pub fn new(config: ReplayConfig, ids: &Vec<u32>, store: &SegmentStore) -> (r: ReplayIter)
        requires
            store.wf(),
        ensures
            r.wf(),
            r.spec_config() == (config.t_start, config.t_end, config.symbols@),
            r.remaining() == spec_replay_events(ids@, store@, config.t_start, config.t_end, config.symbols@),
    {
        let ghost f = stored_events(store@);
        let mut readers: VecDeque<SegmentReader> = VecDeque::new();
        let mut k: usize = 0;
        while k < ids.len()
            invariant
                k <= ids@.len(),
                store.wf(),
                f == stored_events(store@),
                forall|i: int| 0 <= i < readers@.len() ==> (#[trigger] readers@[i]).wf(),
                readers_events(readers@) == spec_collect(ids@.take(k as int), f),
            decreases ids@.len() - k,
        {
            proof {
                assert(ids@.take(k as int + 1).drop_last() =~= ids@.take(k as int));
                assert(ids@.take(k as int + 1).last() == ids@[k as int]);
            }
            match store.get(ids[k]) {
                Some(data) => {
                    let r = SegmentReader::new(slice_to_vec(data.as_slice()));
                    let ghost old_readers = readers@;
                    readers.push_back(r);
                    proof {
                        lemma_readers_push(old_readers, r);
                    }
                },
                None => {
                    assert(f(ids@[k as int]) =~= Seq::<Event>::empty());
                    assert(spec_collect(ids@.take(k as int), f) + Seq::<Event>::empty() =~= spec_collect(
                        ids@.take(k as int),
                        f,
                    ));
                },
            }
            k = k + 1;
        }
        assert(ids@.take(ids@.len() as int) =~= ids@);
        let ghost all_readers = readers@;
        let current = readers.pop_front();
        proof {
            if all_readers.len() == 0 {
                assert(readers_events(all_readers) =~= Seq::<Event>::empty());
            } else {
                assert(readers@ =~= all_readers.drop_first());
            }
        }
        ReplayIter { segments: readers, current, config }
    }

    /// Whether `event` passes the filters.
    pub fn matches(&self, event: &Event) -> (r: bool)
        ensures
            r == replay_pred(self.spec_config().0, self.spec_config().1, self.spec_config().2)(*event),
    {
        if event.timestamp_ns < self.config.t_start || event.timestamp_ns > self.config.t_end {
            return false;
        }
        if self.config.symbols.len() == 0 {
            return true;
        }
        let mut i: usize = 0;
        while i < self.config.symbols.len()
            invariant
                i <= self.config.symbols@.len(),
                self.config.t_start <= event.timestamp_ns <= self.config.t_end,
                forall|j: int| 0 <= j < i ==> self.config.symbols@[j] != event.symbol,
            decreases self.config.symbols@.len() - i,
        {
            if self.config.symbols[i] == event.symbol {
                assert(self.config.symbols@[i as int] == event.symbol);
                assert(self.config.symbols@.contains(event.symbol));
                return true;
            }
            i = i + 1;
        }
        false
    }

    /// The next event that passes the filters, or `None` when the replay is over.
    pub fn next(&mut self) -> (r: Option<Event>)
        requires
            old(self).wf(),
        ensures
            final(self).wf(),
            final(self).spec_config() == old(self).spec_config(),
            old(self).remaining().len() == 0 ==> r is None && final(self).remaining().len() == 0,
            old(self).remaining().len() > 0 ==> r == Some(old(self).remaining()[0])
                && final(self).remaining() == old(self).remaining().drop_first(),
    {
        let ghost pred = replay_pred(self.config.t_start, self.config.t_end, self.config.symbols@);
        let ghost start = self.remaining();
        loop
            invariant
                self.wf(),
                self.spec_config() == old(self).spec_config(),
                pred == replay_pred(self.config.t_start, self.config.t_end, self.config.symbols@),
                self.remaining() == start,
                start == old(self).remaining(),
            decreases self.segments@.len() + if self.current is Some { 1int } else { 0int }, match self.current {
                Some(r) => r.remaining().len(),
                None => 0,
            },
        {
            let mut cur = match self.current.take() {
                Some(r) => r,
                None => {
                    assert(self.unread() =~= Seq::<Event>::empty());
                    return None;
                },
            };
            let ghost rest = readers_events(self.segments@);
            let ghost before = cur.remaining();
            match cur.next() {
                Some(e) => {
                    let m = self.matches(&e);
                    self.current = Some(cur);
                    proof {
                        assert(before == seq![e] + cur.remaining());
                        assert(seq![e] + cur.remaining() + rest =~= seq![e] + (cur.remaining() + rest));
                        (cur.remaining() + rest).lemma_filter_prepend(e, pred);
                    }
                    if m {
                        return Some(e);
                    }
                },
                None => {
                    assert(before.len() == 0);
                    let ghost segs = self.segments@;
                    self.current = self.segments.pop_front();
                    proof {
                        assert(before + rest =~= rest);
                        if segs.len() > 0 {
                            assert(self.segments@ =~= segs.drop_first());
                        } else {
                            assert(rest =~= Seq::<Event>::empty());
                        }
                    }
                },
            }
        }
    }

    /// All the events still to come, in order.
    pub fn collect(self) -> (r: Vec<Event>)
        requires
            self.wf(),
        ensures
            r@ == self.remaining(),
    {
        let mut it = self;
        let mut out: Vec<Event> = Vec::new();
        loop
            invariant
                it.wf(),
                out@ + it.remaining() == self.remaining(),
            decreases it.remaining().len(),
        {
            let ghost before = it.remaining();
            match it.next() {
                Some(e) => {
                    assert(out@.push(e) + it.remaining() =~= out@ + before);
                    out.push(e);
                },
                None => {
                    assert(out@ + before =~= out@);
                    return out;
                },
            }
        }
    }
}

/// Filtering a concatenation filters each part.
pub proof fn lemma_collect_filter(ids: Seq<u32>, f: spec_fn(u32) -> Seq<Event>, p: spec_fn(Event) -> bool)
    ensures
        spec_collect(ids, f).filter(p) == spec_collect(ids, |id: u32| f(id).filter(p)),
    decreases ids.len(),
{
    broadcast use Seq::filter_distributes_over_add;

    if ids.len() > 0 {
        lemma_collect_filter(ids.drop_last(), f, p);
    } else {
        assert(Seq::<Event>::empty().filter(p) =~= Seq::<Event>::empty());
    }
}

/// The listing of the candidates of a finite index for a symbol filter is
/// sorted and holds exactly those candidates.
pub proof fn lemma_symbols_candidates(m: Map<IndexKey, IndexEntry>, symbols: Seq<SymbolId>, t_start: u64, t_end: u64)
    requires
        m.dom().finite(),
    ensures
        strictly_increasing(spec_sorted_where(symbols_candidate_pred(m, symbols, t_start, t_end))),
        forall|x: u32|
            spec_sorted_where(symbols_candidate_pred(m, symbols, t_start, t_end)).contains(x)
                <==> symbols_candidate_pred(m, symbols, t_start, t_end)(x),
{
    let p = symbols_candidate_pred(m, symbols, t_start, t_end);
    let ks = m.dom().to_seq();
    m.dom().lemma_to_seq_to_set_id();
    let img = ks.map_values(|k: IndexKey| k.1);
    let q = img.filter(p);
    assert forall|x: u32| q.contains(x) <==> p(x) by {
        lemma_filter_contains_iff(img, p, x);
        if p(x) {
            let i = choose|i: int| 0 <= i < symbols.len() && #[trigger] spec_query_hit(m, symbols[i], x, t_start, t_end);
            assert(m.dom().contains((symbols[i], x)));
            assert(ks.to_set().contains((symbols[i], x)));
            let j = choose|j: int| 0 <= j < ks.len() && ks[j] == (symbols[i], x);
            assert(img[j] == x);
            assert(img.contains(x));
        }
    }
    crate::sorted::lemma_sorted_where_exists(q, p);
}

/// Replay with the index loses nothing: when the index covers every event of
/// the stored segments, the replay returns exactly the events of all stored
/// segments that pass the filters, in increasing segment id order and, within
/// a segment, in write order.
pub proof fn lemma_replay_complete(
    m: Map<IndexKey, IndexEntry>,
    store: Seq<(u32, Seq<u8>)>,
    t_start: u64,
    t_end: u64,
    symbols: Seq<SymbolId>,
)
    requires
        m.dom().finite(),
        strictly_increasing(store_ids(store)),
        index_covers_store(m, store),
    ensures
        spec_replay_events(spec_index_candidates(m, symbols, t_start, t_end), store, t_start, t_end, symbols)
            == spec_collect(store_ids(store), stored_events(store)).filter(replay_pred(t_start, t_end, symbols)),
{
    let p = replay_pred(t_start, t_end, symbols);
    let f = stored_events(store);
    let g = |id: u32| f(id).filter(p);
    let cands = spec_index_candidates(m, symbols, t_start, t_end);
    let ids = store_ids(store);
    lemma_collect_filter(cands, f, p);
    lemma_collect_filter(ids, f, p);
    crate::index::lemma_all_candidates(m, t_start, t_end);
    lemma_symbols_candidates(m, symbols, t_start, t_end);
    assert(strictly_increasing(cands));
    assert forall|x: u32| g(x).len() > 0 implies (cands.contains(x) <==> ids.contains(x)) by {
        assert(store_lookup(store, x) is Some);
        let i = choose|i: int| 0 <= i < store.len() && store[i].0 == x;
        assert(ids[i] == x);
        lemma_store_lookup(store, i);
        let evs = spec_decode_events(store[i].1);
        let fe = evs.filter(p);
        assert(fe.len() > 0);
        assert(fe.contains(fe[0]));
        let e = fe[0];
        lemma_filter_contains_iff(evs, p, e);
        let j = choose|j: int| 0 <= j < evs.len() && evs[j] == e;
        assert(spec_covers(m, evs[j].symbol, store[i].0, evs[j].timestamp_ns));
        assert(m.dom().contains((e.symbol, x)));
        assert(m.len() > 0) by {
            assert(m.dom().len() > 0) by {
                vstd::set::axiom_set_contains_len(m.dom(), (e.symbol, x));
            }
        }
        if symbols.len() == 0 {
            assert(spec_query_hit(m, e.symbol, x, t_start, t_end));
            assert(crate::index::spec_query_all_hit(m, x, t_start, t_end));
        } else {
            assert(symbols.contains(e.symbol));
            let k = choose|k: int| 0 <= k < symbols.len() && symbols[k] == e.symbol;
            assert(spec_query_hit(m, symbols[k], x, t_start, t_end));
            assert(symbols_candidate_pred(m, symbols, t_start, t_end)(x));
        }
    }
    lemma_collect_same_nonempty(cands, ids, g);
}

/// Timestamps never decrease along `s`.
pub open spec fn time_ordered(s: Seq<Event>) -> bool {
    forall|i: int, j: int| 0 <= i < j < s.len() ==> s[i].timestamp_ns <= s[j].timestamp_ns
}

/// Per symbol, timestamps never decrease along `s`.
pub open spec fn symbol_time_ordered(s: Seq<Event>) -> bool {
    forall|i: int, j: int|
        0 <= i < j < s.len() && s[i].symbol == s[j].symbol ==> s[i].timestamp_ns <= s[j].timestamp_ns
}

/// Keeping some events of a sequence keeps it ordered per symbol.
proof fn lemma_filter_symbol_ordered(s: Seq<Event>, p: spec_fn(Event) -> bool)
    requires
        symbol_time_ordered(s),
    ensures
        symbol_time_ordered(s.filter(p)),
    decreases s.len(),
{
    broadcast use Seq::lemma_filter_push;

    if s.len() > 0 {
        let t = s.drop_last();
        assert(s =~= t.push(s.last()));
        lemma_filter_symbol_ordered(t, p);
        let ft = t.filter(p);
        if p(s.last()) {
            let fs = ft.push(s.last());
            assert(s.filter(p) == fs);
            assert forall|i: int, j: int|
                0 <= i < j < fs.len() && fs[i].symbol == fs[j].symbol implies fs[i].timestamp_ns
                <= fs[j].timestamp_ns by {
                if j == fs.len() - 1 {
                    assert(fs[i] == ft[i]);
                    assert(ft.contains(ft[i]));
                    t.lemma_filter_contains_rev(p, ft[i]);
                    let k = choose|k: int| 0 <= k < t.len() && t[k] == ft[i];
                    assert(s[k] == t[k]);
                }
            }
        } else {
            assert(s.filter(p) == ft);
        }
    } else {
        assert(s.filter(p) =~= s);
    }
}

/// Replay order: when the stored events, taken in increasing segment id
/// order and each segment in write order, are ordered per symbol, so is
/// what the replay yields.
pub proof fn lemma_replay_in_time_order(
    m: Map<IndexKey, IndexEntry>,
    store: Seq<(u32, Seq<u8>)>,
    t_start: u64,
    t_end: u64,
    symbols: Seq<SymbolId>,
)
    requires
        m.dom().finite(),
        strictly_increasing(store_ids(store)),
        index_covers_store(m, store),
        symbol_time_ordered(spec_collect(store_ids(store), stored_events(store))),
    ensures
        symbol_time_ordered(
            spec_replay_events(spec_index_candidates(m, symbols, t_start, t_end), store, t_start, t_end, symbols),
        ),
{
    lemma_replay_complete(m, store, t_start, t_end, symbols);
    lemma_filter_symbol_ordered(
        spec_collect(store_ids(store), stored_events(store)),
        replay_pred(t_start, t_end, symbols),
    );
}

/// Range-query order: when the stored events, taken in increasing segment
/// id order and each segment in write order, are ordered per symbol, a
/// range query (which reads one symbol) returns its events in
/// non-decreasing timestamp order.
pub proof fn lemma_read_range_in_time_order(
    index: Map<IndexKey, IndexEntry>,
    store: Seq<(u32, Seq<u8>)>,
    symbol: SymbolId,
    t_start: u64,
    t_end: u64,
)
    requires
        index.dom().finite(),
        strictly_increasing(store_ids(store)),
        index_covers_store(index, store),
        symbol_time_ordered(spec_collect(store_ids(store), stored_events(store))),
    ensures
        time_ordered(spec_read_range(index, store, symbol, t_start, t_end)),
{
    let p = range_pred(symbol, t_start, t_end);
    let all = spec_collect(store_ids(store), stored_events(store));
    lemma_read_range_complete(index, store, symbol, t_start, t_end);
    assert(segment_matches(store, symbol, t_start, t_end) =~= (|id: u32| stored_events(store)(id).filter(p)));
    lemma_collect_filter(store_ids(store), stored_events(store), p);
    lemma_filter_symbol_ordered(all, p);
    let r = all.filter(p);
    assert forall|i: int, j: int| 0 <= i < j < r.len() implies r[i].timestamp_ns <= r[j].timestamp_ns by {
        all.lemma_filter_pred(p, i);
        all.lemma_filter_pred(p, j);
    }
}

/// The events of segments `ids` of `em`, segment after segment.
pub open spec fn segments_of(em: Seq<Seq<Event>>) -> spec_fn(u32) -> Seq<Event> {
    |id: u32| em[id as int]
}

/// Each event of the concatenation comes from one of the segments.
proof fn lemma_collect_origin(ids: Seq<u32>, em: Seq<Seq<Event>>, k: int)
    requires
        0 <= k < spec_collect(ids, segments_of(em)).len(),
    ensures
        exists|a: int, j: int|
            0 <= a < ids.len() && 0 <= j < em[ids[a] as int].len() && spec_collect(ids, segments_of(em))[k]
                == #[trigger] em[ids[a] as int][j],
    decreases ids.len(),
{
    let p = spec_collect(ids.drop_last(), segments_of(em));
    let last = ids[ids.len() - 1];
    assert(spec_collect(ids, segments_of(em)) == p + em[last as int]);
    if k < p.len() {
        lemma_collect_origin(ids.drop_last(), em, k);
        let (a, j) = choose|a: int, j: int|
            0 <= a < ids.drop_last().len() && 0 <= j < em[ids.drop_last()[a] as int].len() && p[k]
                == #[trigger] em[ids.drop_last()[a] as int][j];
        assert(ids[a] == ids.drop_last()[a]);
    } else {
        let j = k - p.len();
        assert(spec_collect(ids, segments_of(em))[k] == em[ids[ids.len() - 1] as int][j]);
    }
}

/// The segments of a per-symbol ordered log, read in increasing id order,
/// give events ordered per symbol.
proof fn lemma_collect_symbol_ordered(ids: Seq<u32>, em: Seq<Seq<Event>>)
    requires
        strictly_increasing(ids),
        forall|a: int| 0 <= a < ids.len() ==> (#[trigger] ids[a] as int) < em.len(),
        crate::log_writer::symbol_ordered(em),
    ensures
        symbol_time_ordered(spec_collect(ids, segments_of(em))),
    decreases ids.len(),
{
    if ids.len() > 0 {
        let t = ids.drop_last();
        assert forall|a: int| 0 <= a < t.len() implies (#[trigger] t[a] as int) < em.len() by {
            assert(t[a] == ids[a]);
        }
        lemma_collect_symbol_ordered(t, em);
        let p = spec_collect(t, segments_of(em));
        let last = ids[ids.len() - 1];
        let q = em[last as int];
        let c = spec_collect(ids, segments_of(em));
        assert(c == p + q);
        assert forall|x: int, y: int|
            0 <= x < y < c.len() && c[x].symbol == c[y].symbol implies c[x].timestamp_ns <= c[y].timestamp_ns by {
            if y < p.len() {
                assert(c[x] == p[x] && c[y] == p[y]);
            } else if x >= p.len() {
                let j1 = x - p.len();
                let j2 = y - p.len();
                assert(c[x] == em[last as int][j1] && c[y] == em[last as int][j2]);
            } else {
                lemma_collect_origin(t, em, x);
                let (a, j) = choose|a: int, j: int|
                    0 <= a < t.len() && 0 <= j < em[t[a] as int].len() && p[x] == #[trigger] em[t[a] as int][j];
                assert(t[a] == ids[a]);
                assert(ids[a] < last);
                let j2 = y - p.len();
                assert(c[y] == em[last as int][j2]);
                assert(c[x] == em[t[a] as int][j]);
            }
        }
    }
}

/// The log enforces per-symbol order: the segments written through a
/// writer, read in increasing id order, give events whose timestamps never
/// decrease per symbol.
pub proof fn lemma_logged_segments_in_symbol_order(w: LogWriter, store: Seq<(u32, Seq<u8>)>)
    requires
        w.wf(),
        strictly_increasing(store_ids(store)),
        forall|k: int|
            #![trigger store[k]]
            0 <= k < store.len() ==> (store[k].0 as int) < w.emitted().len() && store[k].1
                == spec_encode_events(w.emitted()[store[k].0 as int]),
    ensures
        symbol_time_ordered(spec_collect(store_ids(store), stored_events(store))),
{
    let ids = store_ids(store);
    let em = w.emitted();
    w.lemma_symbol_ordered();
    assert forall|i: int| 0 <= i < ids.len() implies stored_events(store)(#[trigger] ids[i])
        == segments_of(em)(ids[i]) by {
        lemma_store_lookup(store, i);
        assert(ids[i] == store[i].0);
        lemma_decode_encode_events(em[store[i].0 as int]);
    }
    crate::query::lemma_collect_ext(ids, stored_events(store), segments_of(em), store);
    assert forall|a: int| 0 <= a < ids.len() implies (#[trigger] ids[a] as int) < em.len() by {
        lemma_store_lookup(store, a);
        assert(ids[a] == store[a].0);
    }
    lemma_collect_symbol_ordered(ids, em);
}

/// What a writer logged is read back by a range query in non-decreasing
/// timestamp order.
pub proof fn lemma_log_read_range_in_time_order(
    w: LogWriter,
    store: Seq<(u32, Seq<u8>)>,
    symbol: SymbolId,
    t_start: u64,
    t_end: u64,
)
    requires
        w.wf(),
        strictly_increasing(store_ids(store)),
        forall|k: int|
            #![trigger store[k]]
            0 <= k < store.len() ==> (store[k].0 as int) < w.emitted().len() && store[k].1
                == spec_encode_events(w.emitted()[store[k].0 as int]),
    ensures
        time_ordered(spec_read_range(w.spec_index(), store, symbol, t_start, t_end)),
{
    lemma_logged_segments_in_symbol_order(w, store);
    crate::query::lemma_log_covers_store(w, store);
    w.lemma_index_finite();
    lemma_read_range_in_time_order(w.spec_index(), store, symbol, t_start, t_end);
}

/// What a writer logged is replayed, through its index, in per-symbol
/// timestamp order.
pub proof fn lemma_log_replay_in_time_order(
    w: LogWriter,
    store: Seq<(u32, Seq<u8>)>,
    t_start: u64,
    t_end: u64,
    symbols: Seq<SymbolId>,
)
    requires
        w.wf(),
        strictly_increasing(store_ids(store)),
        forall|k: int|
            #![trigger store[k]]
            0 <= k < store.len() ==> (store[k].0 as int) < w.emitted().len() && store[k].1
                == spec_encode_events(w.emitted()[store[k].0 as int]),
    ensures
        symbol_time_ordered(
            spec_replay_events(
                spec_index_candidates(w.spec_index(), symbols, t_start, t_end),
                store,
                t_start,
                t_end,
                symbols,
            ),
        ),
{
    lemma_logged_segments_in_symbol_order(w, store);
    crate::query::lemma_log_covers_store(w, store);
    w.lemma_index_finite();
    lemma_replay_in_time_order(w.spec_index(), store, t_start, t_end, symbols);
}


/// A replay of a log reads back what was written: when the store holds the
/// encoded events of segments written through `w`, in increasing id order,
/// the replay yields exactly those events, segment by segment in increasing
/// id order and each segment in write order, that pass the filters.
pub proof fn lemma_log_replay_complete(
    w: LogWriter,
    store: Seq<(u32, Seq<u8>)>,
    t_start: u64,
    t_end: u64,
    symbols: Seq<SymbolId>,
)
    requires
        w.wf(),
        strictly_increasing(store_ids(store)),
        forall|k: int|
            #![trigger store[k]]
            0 <= k < store.len() ==> (store[k].0 as int) < w.emitted().len() && store[k].1
                == spec_encode_events(w.emitted()[store[k].0 as int]),
    ensures
        spec_replay_events(
            spec_index_candidates(w.spec_index(), symbols, t_start, t_end),
            store,
            t_start,
            t_end,
            symbols,
        ) == spec_collect(store_ids(store), |id: u32| w.emitted()[id as int]).filter(
            replay_pred(t_start, t_end, symbols),
        ),
{
    crate::query::lemma_log_covers_store(w, store);
    w.lemma_index_finite();
    lemma_replay_complete(w.spec_index(), store, t_start, t_end, symbols);
    let ids = store_ids(store);
    let f = stored_events(store);
    let g = |id: u32| w.emitted()[id as int];
    assert forall|i: int| 0 <= i < ids.len() implies f(#[trigger] ids[i]) == g(ids[i]) by {
        lemma_store_lookup(store, i);
        assert(ids[i] == store[i].0);
        assert(store[i].1 == spec_encode_events(w.emitted()[store[i].0 as int]));
        lemma_decode_encode_events(w.emitted()[store[i].0 as int]);
    }
    crate::query::lemma_collect_ext(ids, f, g, store);
}

/// Adds `x` to `set`.
fn insert_id(set: &mut BTreeSet<u32>, x: u32)
    ensures
        final(set)@ == old(set)@.insert(x),
{
    broadcast use vstd::laws_cmp::group_laws_cmp;

    set.insert(x);
}

/// The ids of `set`, in increasing order.
fn increasing_ids(set: &BTreeSet<u32>) -> (r: Vec<u32>)
    ensures
        strictly_increasing(r@),
        forall|x: u32| r@.contains(x) <==> set@.contains(x),
{
    broadcast use vstd::laws_cmp::group_laws_cmp, vstd::std_specs::btree::group_btree_axioms;

    let ghost keys = vstd::std_specs::iter::IteratorSpec::remaining(&vstd::std_specs::btree::spec_btree_keys_iter(set));
    let mut out: Vec<u32> = Vec::new();
    for id in it: set.iter()
        invariant
            it.seq() == keys,
            out@ == keys.take(it.index()).map_values(|x: &u32| *x),
    {
        out.push(*id);
        assert(keys.take(it.index() + 1).map_values(|x: &u32| *x) =~= keys.take(it.index()).map_values(
            |x: &u32| *x,
        ).push(*id));
    }
    assert(out@ =~= keys.map_values(|x: &u32| *x));
    proof {
        vstd::std_specs::btree::axiom_spec_btree_keys_iter(set);
        vstd::std_specs::btree::axiom_increasing_seq_meaning(keys);
        assert(out@ =~= keys.unref());
        assert forall|i: int, j: int| 0 <= i < j < out@.len() implies out@[i] < out@[j] by {
            assert(vstd::std_specs::cmp::OrdSpec::cmp_spec(&keys[i], &keys[j]) is Less);
        }
        assert forall|x: u32| out@.contains(x) <==> set@.contains(x) by {
            assert(out@.to_set().contains(x) <==> out@.contains(x));
        }
    }
    out
}

} // verus!
