use vstd::prelude::*;

use crate::event::{Event, spec_event_bytes};
use crate::index::{IndexError, IndexKey, SegmentIndex, spec_covers, spec_logged_after, spec_observe_step};
use crate::segment::{SealedSegment, SegmentWriter, SEGMENT_MAX_BYTES};
use crate::entry::IndexEntry;
use crate::text::{
    chars_of, string_from_chars, zero_padded, push_all, starts_with, ends_with, slice_chars,
    parse_unsigned, spec_parse_unsigned, spec_decimal, spec_zero_pad, digit_char, all_digits,
    digits_value, is_digit, digit_value,
};

verus! {

// ─── segment file names ──────────────────────────────────────────────────────

/// `"segment_"`.
pub open spec fn segment_prefix() -> Seq<char> {
    seq!['s', 'e', 'g', 'm', 'e', 'n', 't', '_']
}

/// `".alog"`.
pub open spec fn segment_ext() -> Seq<char> {
    seq!['.', 'a', 'l', 'o', 'g']
}

/// `"index.bin"`.
pub open spec fn index_file_name() -> Seq<char> {
    seq!['i', 'n', 'd', 'e', 'x', '.', 'b', 'i', 'n']
}

/// File name of segment `id`: `segment_` + the id on at least 4 digits + `.alog`.
pub open spec fn spec_segment_name(id: u32) -> Seq<char> {
    segment_prefix() + spec_zero_pad(spec_decimal(id as nat), 4) + segment_ext()
}

/// The segment id a file name encodes, if it is a segment file name.
pub open spec fn spec_parse_segment_name(name: Seq<char>) -> Option<u32> {
    if name.len() >= 8 && name.take(8) == segment_prefix() {
        let rest = name.skip(8);
        if rest.len() >= 5 && rest.skip(rest.len() - 5) == segment_ext() {
            match spec_parse_unsigned(rest.take(rest.len() - 5), u32::MAX as int) {
                Some(v) => Some(v as u32),
                None => None,
            }
        } else {
            None
        }
    } else {
        None
    }
}

/// Largest segment id among the file names of `names` that are segment names.
pub open spec fn spec_max_segment_id(names: Seq<Seq<char>>) -> Option<u32>
    decreases names.len(),
{
    if names.len() == 0 {
        None
    } else {
        let prev = spec_max_segment_id(names.drop_last());
        match spec_parse_segment_name(names.last()) {
            Some(id) => match prev {
                Some(m) => Some(if id > m { id } else { m }),
                None => Some(id),
            },
            None => prev,
        }
    }
}

/// Path of the file `name` in the directory `dir` (`Path::join`).
pub uninterp spec fn spec_path_join(dir: Seq<char>, name: Seq<char>) -> Seq<char>;

/// `name` is a single plain file name: not empty, without a path separator
/// of any platform, and not starting with a dot.
pub open spec fn plain_file_name(name: Seq<char>) -> bool {
    &&& name.len() > 0
    &&& name[0] != '.'
    &&& forall|i: int| 0 <= i < name.len() ==> name[i] != '/' && name[i] != '\\'
}

/// The path `r` ends with the text `name`.
pub open spec fn path_ends_with(r: Seq<char>, name: Seq<char>) -> bool {
    r.len() >= name.len() && r.skip(r.len() - name.len()) == name
}

/// `Path::new(dir).join(name)`, as a string.
///
/// Trusted: the result depends on `dir` and `name` alone, and for a plain
/// file name it ends with that name (`join` keeps a relative component as it
/// is, adding a separator before it where one is needed). Which separator,
/// and whether one is added, depends on the platform and is left to the name
/// `spec_path_join`.
#[verifier::external_body]
fn path_join(dir: &str, name: &str) -> (r: String)
    ensures
        r@ == spec_path_join(dir@, name@),
        plain_file_name(name@) ==> path_ends_with(r@, name@),
{
    std::path::Path::new(dir).join(name).to_string_lossy().into_owned()
}

/// Path of segment `id` in `dir`.
pub open spec fn spec_segment_path(dir: Seq<char>, id: u32) -> Seq<char> {
    spec_path_join(dir, spec_segment_name(id))
}

/// File name of segment `id`, e.g. `segment_0042.alog`.
pub fn segment_name(id: u32) -> (r: String)
    ensures
        r@ == spec_segment_name(id),
{
    let mut out: Vec<char> = Vec::new();
    push_all(&mut out, &['s', 'e', 'g', 'm', 'e', 'n', 't', '_']);
    let digits = zero_padded(id as u64, 4);
    push_all(&mut out, digits.as_slice());
    push_all(&mut out, &['.', 'a', 'l', 'o', 'g']);
    assert(out@ =~= spec_segment_name(id));
    string_from_chars(out.as_slice())
}

/// A segment's file name is a plain file name.
proof fn lemma_segment_name_plain(id: u32)
    ensures
        plain_file_name(spec_segment_name(id)),
{
    let d = spec_decimal(id as nat);
    lemma_decimal_digits(id as nat);
    let mid = spec_zero_pad(d, 4);
    if d.len() < 4 {
        lemma_zeros_value((4 - d.len()) as nat, d);
    }
    let name = spec_segment_name(id);
    assert(name =~= segment_prefix() + mid + segment_ext());
    assert forall|i: int| 0 <= i < name.len() implies name[i] != '/' && name[i] != '\\' by {
        if 8 <= i < 8 + mid.len() {
            assert(name[i] == mid[i - 8]);
            assert(is_digit(mid[i - 8]));
        }
    }
}

/// Path of segment `id` in `dir`: the directory joined with the segment's
/// file name, which the path ends with.
pub fn segment_path(dir: &str, id: u32) -> (r: String)
    ensures
        r@ == spec_segment_path(dir@, id),
        path_ends_with(r@, spec_segment_name(id)),
{
    let name = segment_name(id);
    proof {
        lemma_segment_name_plain(id);
    }
    path_join(dir, name.as_str())
}

/// Path of the index file in `dir`, which ends with `index.bin`.
pub fn index_path(dir: &str) -> (r: String)
    ensures
        r@ == spec_path_join(dir@, index_file_name()),
        path_ends_with(r@, index_file_name()),
{
    let name = string_from_chars(&['i', 'n', 'd', 'e', 'x', '.', 'b', 'i', 'n']);
    path_join(dir, name.as_str())
}

/// The segment id that a file name encodes (`segment_0042.alog` gives 42).
pub fn parse_segment_name(name: &str) -> (r: Option<u32>)
    ensures
        r == spec_parse_segment_name(name@),
{
    let s = chars_of(name);
    let prefix = ['s', 'e', 'g', 'm', 'e', 'n', 't', '_'];
    let ext = ['.', 'a', 'l', 'o', 'g'];
    assert(prefix@ =~= segment_prefix());
    assert(ext@ =~= segment_ext());
    if !starts_with(s.as_slice(), &prefix) {
        return None;
    }
    let rest = slice_chars(s.as_slice(), 8, s.len());
    assert(rest@ =~= s@.skip(8));
    if !ends_with(rest.as_slice(), &ext) {
        return None;
    }
    let mid = slice_chars(rest.as_slice(), 0, rest.len() - 5);
    assert(mid@ =~= rest@.take(rest@.len() - 5));
    match parse_unsigned(mid.as_slice(), 4294967295u64) {
        Some(v) => Some(v as u32),
        None => None,
    }
}

proof fn lemma_decimal_digits(n: nat)
    ensures
        all_digits(spec_decimal(n)),
        digits_value(spec_decimal(n)) == n,
        spec_decimal(n).len() > 0,
        spec_decimal(n)[0] != '+',
    decreases n,
{
    lemma_digit_char((n % 10) as nat);
    if n < 10 {
        let s1 = seq![digit_char(n)];
        assert(s1.drop_last() =~= Seq::<char>::empty());
        assert(digits_value(s1.drop_last()) == 0);
        assert(s1.last() == digit_char(n));
        assert(digits_value(s1) == n);
    }
    if n >= 10 {
        lemma_decimal_digits(n / 10);
        let d = spec_decimal(n / 10);
        let e = d.push(digit_char(n % 10));
        assert(e.drop_last() =~= d);
        assert(e.last() == digit_char(n % 10));
        assert(digits_value(e) == digits_value(d) * 10 + digit_value(digit_char(n % 10)));
        assert(spec_decimal(n) == e);
        assert(digits_value(d) == n / 10);
        assert((n / 10) * 10 + n % 10 == n);
        assert(digits_value(e) == n);
        assert(all_digits(e)) by {
            assert forall|i: int| 0 <= i < e.len() implies is_digit(#[trigger] e[i]) by {
                if i < d.len() {
                    assert(e[i] == d[i]);
                }
            }
        }
        assert(e[0] == d[0]);
    }
}

proof fn lemma_digit_char(k: nat)
    requires
        k < 10,
    ensures
        is_digit(digit_char(k)),
        digit_value(digit_char(k)) == k,
        digit_char(k) != '+',
{
    assert((((48 + k) as u8) as char) as u32 == 48 + k);
}

proof fn lemma_zeros_value(z: nat, s: Seq<char>)
    requires
        all_digits(s),
    ensures
        all_digits(Seq::new(z, |i: int| '0') + s),
        digits_value(Seq::new(z, |i: int| '0') + s) == digits_value(s),
    decreases s.len(),
{
    let p = Seq::new(z, |i: int| '0');
    let t = p + s;
    if s.len() == 0 {
        assert(t =~= p);
        lemma_zeros_only(z);
    } else {
        lemma_zeros_value(z, s.drop_last());
        assert(t.drop_last() =~= p + s.drop_last());
    }
}

proof fn lemma_zeros_only(z: nat)
    ensures
        all_digits(Seq::new(z, |i: int| '0')),
        digits_value(Seq::new(z, |i: int| '0')) == 0,
    decreases z,
{
    if z > 0 {
        lemma_zeros_only((z - 1) as nat);
        assert(Seq::new(z, |i: int| '0').drop_last() =~= Seq::new((z - 1) as nat, |i: int| '0'));
    }
}

/// A segment's file name encodes its id: `parse_segment_name` undoes
/// `segment_name`.
pub proof fn lemma_segment_name_roundtrip(id: u32)
    ensures
        spec_parse_segment_name(spec_segment_name(id)) == Some(id),
{
    let d = spec_decimal(id as nat);
    lemma_decimal_digits(id as nat);
    let mid = spec_zero_pad(d, 4);
    if d.len() < 4 {
        lemma_zeros_value((4 - d.len()) as nat, d);
        assert(mid[0] == '0');
    }
    let name = spec_segment_name(id);
    assert(name.take(8) =~= segment_prefix());
    let rest = name.skip(8);
    assert(rest =~= mid + segment_ext());
    assert(rest.skip(rest.len() - 5) =~= segment_ext());
    assert(rest.take(rest.len() - 5) =~= mid);
    assert(spec_parse_unsigned(mid, u32::MAX as int) == Some(id as int));
}

/// Numbers below 10, 100, 1000 and 10000 have at most one, two, three and
/// four decimal digits.
proof fn lemma_decimal_short(n: nat)
    ensures
        n < 10 ==> spec_decimal(n).len() == 1,
        n < 100 ==> spec_decimal(n).len() <= 2,
        n < 1000 ==> spec_decimal(n).len() <= 3,
        n < 10000 ==> spec_decimal(n).len() <= 4,
    decreases n,
{
    if n >= 10 {
        lemma_decimal_short(n / 10);
        assert(spec_decimal(n).len() == spec_decimal(n / 10).len() + 1);
    }
}

/// The file name of segment `id`: `segment_`, then the id in decimal digits,
/// left-padded with zeros to four digits (so exactly four below 10000), then
/// `.alog`; e.g. `segment_0042.alog`.
pub proof fn lemma_segment_name_format(id: u32)
    ensures
        ({
            let name = spec_segment_name(id);
            let digits = name.subrange(8, name.len() - 5);
            &&& name.len() >= 17
            &&& name.take(8) == seq!['s', 'e', 'g', 'm', 'e', 'n', 't', '_']
            &&& name.skip(name.len() - 5) == seq!['.', 'a', 'l', 'o', 'g']
            &&& all_digits(digits)
            &&& digits_value(digits) == id
            &&& id < 10000 ==> name.len() == 17
        }),
{
    let d = spec_decimal(id as nat);
    lemma_decimal_digits(id as nat);
    let mid = spec_zero_pad(d, 4);
    if d.len() < 4 {
        lemma_zeros_value((4 - d.len()) as nat, d);
    }
    if id < 10000 {
        lemma_decimal_short(id as nat);
    }
    let name = spec_segment_name(id);
    assert(name =~= segment_prefix() + mid + segment_ext());
    assert(name.take(8) =~= seq!['s', 'e', 'g', 'm', 'e', 'n', 't', '_']);
    assert(name.skip(name.len() - 5) =~= seq!['.', 'a', 'l', 'o', 'g']);
    assert(name.subrange(8, name.len() - 5) =~= mid);
}

/// The texts of a sequence of strings.
pub open spec fn name_views(names: Seq<String>) -> Seq<Seq<char>> {
    names.map_values(|s: String| s@)
}

/// Largest segment id among `names`, 0 when none is a segment file name.
pub fn find_last_segment_id(names: &Vec<String>) -> (r: u32)
    ensures
        r == match spec_max_segment_id(name_views(names@)) {
            Some(m) => m,
            None => 0u32,
        },
{
    let ghost views = name_views(names@);
    let mut max_id: u32 = 0;
    let mut found = false;
    let mut i: usize = 0;
    while i < names.len()
        invariant
            i <= names@.len(),
            views == name_views(names@),
            spec_max_segment_id(views.take(i as int)) == (if found { Some(max_id) } else { None::<u32> }),
            !found ==> max_id == 0,
        decreases names@.len() - i,
    {
        proof {
            assert(views.take(i as int + 1).drop_last() =~= views.take(i as int));
            assert(views.take(i as int + 1).last() == names@[i as int]@);
        }
        if let Some(id) = parse_segment_name(names[i].as_str()) {
            if !found || id > max_id {
                max_id = id;
                found = true;
            }
        }
        i = i + 1;
    }
    assert(views.len() == names@.len());
    assert(views.take(names@.len() as int) =~= views);
    assert(spec_max_segment_id(views) == (if found { Some(max_id) } else { None::<u32> }));
    max_id
}

// ─── the log writer ──────────────────────────────────────────────────────────

/// What `LogWriter::append` asks of the caller.
pub enum AppendStep {
    /// The event is older than an event of its symbol already in the log:
    /// it is refused, and nothing changes.
    OutOfOrder,
    /// The active segment is full: rotate (`LogWriter::rotate`), then append again.
    Rotate,
    /// Append these 40 bytes (the event's record) to the active segment file.
    Record(Vec<u8>),
}

/// What the caller does after `LogWriter::rotate`.
pub struct Rotation {
    /// The segment that was sealed: flush and sync its file.
    pub sealed: SealedSegment,
    /// New contents of the index file, to write and sync.
    pub index_bytes: Vec<u8>,
}

/// Per symbol, timestamps never decrease along the events of `em`, taken
/// segment by segment and, within a segment, in write order.
pub open spec fn symbol_ordered(em: Seq<Seq<Event>>) -> bool {
    forall|i1: int, j1: int, i2: int, j2: int|
        #![trigger em[i1][j1], em[i2][j2]]
        0 <= i1 < em.len() && 0 <= j1 < em[i1].len() && 0 <= i2 < em.len() && 0 <= j2 < em[i2].len() && (i1
            < i2 || (i1 == i2 && j1 < j2)) && em[i1][j1].symbol == em[i2][j2].symbol ==> em[i1][j1].timestamp_ns
            <= em[i2][j2].timestamp_ns
}

/// Append-only writer over a sequence of numbered segments, coupled to the
/// zone-map index. Per symbol, timestamps never decrease: an event older
/// than one already logged for its symbol is refused.
///
/// Segments are numbered 0, 1, 2, ... without holes; only the highest is
/// active. The writer decides what happens; the caller performs the file
/// work it hands back (appending records, syncing sealed segments,
/// rewriting the index file).
pub struct LogWriter {
    dir: String,
    current: SegmentWriter,
    segment_id: u32,
    index: SegmentIndex,
    sealed: Vec<SealedSegment>,
    emitted: Ghost<Seq<Seq<Event>>>,
}

impl LogWriter {
    /// Directory of the log.
    pub closed spec fn spec_dir(&self) -> Seq<char> {
        self.dir@
    }

    /// Id of the active segment.
    pub closed spec fn spec_segment_id(&self) -> u32 {
        self.segment_id
    }

    /// The index as it stands.
    pub closed spec fn spec_index(&self) -> Map<IndexKey, IndexEntry> {
        self.index@
    }

    /// The active segment writer.
    pub closed spec fn spec_current(&self) -> SegmentWriter {
        self.current
    }

    /// Segments sealed through this writer, in order.
    pub closed spec fn spec_sealed(&self) -> Seq<SealedSegment> {
        self.sealed@
    }

    /// For each segment id up to the active one, the events appended to
    /// that segment through this writer, in order.
    pub closed spec fn emitted(&self) -> Seq<Seq<Event>> {
        self.emitted@
    }

    /// Invariant: the active segment is open for writing at its path; every
    /// event appended through this writer is covered by the index entry of
    /// its symbol in its segment; per symbol, their timestamps never decrease.
    pub closed spec fn wf(&self) -> bool {
        &&& self.index.wf()
        &&& self.current.wf()
        &&& !self.current.spec_sealed()
        &&& self.current.spec_path() == spec_segment_path(self.dir@, self.segment_id)
        &&& self.emitted@.len() == self.segment_id + 1
        &&& self.emitted@[self.segment_id as int] == self.current.written()
        &&& forall|i: int, j: int|
            0 <= i < self.emitted@.len() && 0 <= j < self.emitted@[i].len() ==> spec_covers(
                self.index@,
                #[trigger] self.emitted@[i][j].symbol,
                i as u32,
                self.emitted@[i][j].timestamp_ns,
            )
        &&& symbol_ordered(self.emitted@)
    }

    /// Every event appended through a well-formed writer is covered by the index.
    pub proof fn lemma_covers(&self, i: int, j: int)
        requires
            self.wf(),
            0 <= i < self.emitted().len(),
            0 <= j < self.emitted()[i].len(),
        ensures
            spec_covers(self.spec_index(), self.emitted()[i][j].symbol, i as u32, self.emitted()[i][j].timestamp_ns),
    {
    }

    /// Per symbol, the timestamps of the events appended through a
    /// well-formed writer never decrease.
    pub proof fn lemma_symbol_ordered(&self)
        requires
            self.wf(),
        ensures
            symbol_ordered(self.emitted()),
    {
    }

    /// The index of a well-formed writer is finite.
    pub proof fn lemma_index_finite(&self)
        requires
            self.wf(),
        ensures
            self.spec_index().dom().finite(),
    {
        self.index.lemma_finite();
    }

    /// Opens the log in `dir`: `segment_names` are the names of the files in
    /// the directory, `current_len` the size of the last segment's file
    /// (created if missing) and `index_file` the contents of `index.bin`
    /// (`None` if absent). Resumes on the last segment.
    pub fn open(
        dir: String,
        segment_names: &Vec<String>,
        current_len: u64,
        index_file: Option<&[u8]>,
    ) -> (r: Result<LogWriter, IndexError>)
        ensures
            r matches Err(e) ==> (index_file matches Some(b) && e == IndexError::InvalidSize {
                len: b@.len() as usize,
                entry_size: 40,
            }),
            r matches Ok(w) ==> {
                &&& w.wf()
                &&& w.spec_dir() == dir@
                &&& w.spec_segment_id() == match spec_max_segment_id(
                    name_views(segment_names@),
                ) {
                    Some(m) => m,
                    None => 0u32,
                }
                &&& w.spec_current().spec_bytes_written() == current_len
                &&& w.spec_sealed().len() == 0
                &&& (index_file matches Some(b) ==> w.spec_index() == crate::index::spec_entries_map(
                    crate::index::spec_entry_records(b@),
                ))
                &&& (index_file is None ==> w.spec_index() == Map::<IndexKey, IndexEntry>::empty())
                &&& forall|i: int| 0 <= i < w.emitted().len() ==> w.emitted()[i].len() == 0
            },
            (r is Err) == (index_file matches Some(b) && b@.len() % 40 != 0),
    {
        let segment_id = find_last_segment_id(segment_names);
        let path = segment_path(dir.as_str(), segment_id);
        let current = SegmentWriter::open(path, current_len);
        let index = match SegmentIndex::open(index_file) {
            Ok(i) => i,
            Err(e) => {
                return Err(e);
            },
        };
        let ghost emitted = Seq::new(segment_id as nat + 1, |i: int| Seq::<Event>::empty());
        Ok(LogWriter { dir, current, segment_id, index, sealed: Vec::new(), emitted: Ghost(emitted) })
    }

    /// Appends `event`: when the active segment is full, asks for a rotation
    /// and changes nothing; otherwise records the event in the index and
    /// hands back its record for the active segment file.
    pub fn append(&mut self, event: &Event) -> (r: AppendStep)
        requires
            old(self).wf(),
            old(self).spec_index().contains_key((event.symbol, old(self).spec_segment_id()))
                ==> old(self).spec_index()[(event.symbol, old(self).spec_segment_id())].event_count
                < u64::MAX,
        ensures
            final(self).wf(),
            final(self).spec_dir() == old(self).spec_dir(),
            final(self).spec_segment_id() == old(self).spec_segment_id(),
            final(self).spec_sealed() == old(self).spec_sealed(),
            spec_logged_after(old(self).spec_index(), event.symbol, event.timestamp_ns) ==> {
                &&& r is OutOfOrder
                &&& *final(self) == *old(self)
            },
            !spec_logged_after(old(self).spec_index(), event.symbol, event.timestamp_ns)
                && old(self).spec_current().spec_bytes_written() >= SEGMENT_MAX_BYTES ==> {
                &&& r is Rotate
                &&& *final(self) == *old(self)
            },
            !spec_logged_after(old(self).spec_index(), event.symbol, event.timestamp_ns)
                && old(self).spec_current().spec_bytes_written() < SEGMENT_MAX_BYTES ==> {
                &&& forall|i: int, j: int|
                    0 <= i < old(self).emitted().len() && 0 <= j < old(self).emitted()[i].len() && (
                    #[trigger] old(self).emitted()[i][j]).symbol == event.symbol ==> old(
                        self,
                    ).emitted()[i][j].timestamp_ns <= event.timestamp_ns
                &&& r matches AppendStep::Record(b) && b@ == spec_event_bytes(*event)
                &&& final(self).emitted() == old(self).emitted().update(
                    old(self).spec_segment_id() as int,
                    old(self).emitted()[old(self).spec_segment_id() as int].push(*event),
                )
                &&& final(self).spec_current().spec_bytes_written() == old(
                    self,
                ).spec_current().spec_bytes_written() + 40
                &&& spec_covers(
                    final(self).spec_index(),
                    event.symbol,
                    old(self).spec_segment_id(),
                    event.timestamp_ns,
                )
                &&& spec_observe_step(
                    old(self).spec_index(),
                    final(self).spec_index(),
                    event.symbol,
                    old(self).spec_segment_id(),
                    event.timestamp_ns,
                )
            },
    {
        if self.index.logged_after(event.symbol, event.timestamp_ns) {
            return AppendStep::OutOfOrder;
        }
        if self.current.is_full() {
            return AppendStep::Rotate;
        }
        let ghost old_index = self.index@;
        let ghost old_emitted = self.emitted@;
        proof {
            assert forall|i: int, j: int|
                0 <= i < old_emitted.len() && 0 <= j < old_emitted[i].len() && (
                #[trigger] old_emitted[i][j]).symbol == event.symbol implies old_emitted[i][j].timestamp_ns
                <= event.timestamp_ns by {
                assert(spec_covers(old_index, old_emitted[i][j].symbol, i as u32, old_emitted[i][j].timestamp_ns));
                assert(old_index.contains_key((event.symbol, i as u32)));
            }
        }
        self.index.observe(event.symbol, self.segment_id, event.timestamp_ns);
        let bytes = match self.current.write_event(event) {
            Ok(b) => b,
            Err(_) => {
                return AppendStep::Rotate;
            },
        };
        let ghost seg = self.segment_id as int;
        self.emitted = Ghost(self.emitted@.update(seg, self.emitted@[seg].push(*event)));
        proof {
            let new_index = self.index@;
            assert forall|i: int, j: int|
                0 <= i < self.emitted@.len() && 0 <= j < self.emitted@[i].len() implies spec_covers(
                new_index,
                #[trigger] self.emitted@[i][j].symbol,
                i as u32,
                self.emitted@[i][j].timestamp_ns,
            ) by {
                let e = self.emitted@[i][j];
                if i == seg && j == self.emitted@[i].len() - 1 {
                    assert(e == *event);
                } else {
                    assert(spec_covers(old_index, e.symbol, i as u32, e.timestamp_ns));
                    if (e.symbol, i as u32) == (event.symbol, self.segment_id) {
                    } else {
                        assert(new_index[(e.symbol, i as u32)] == old_index[(e.symbol, i as u32)]);
                    }
                }
            }
            let em = self.emitted@;
            let last = old_emitted[seg].len() as int;
            assert forall|i1: int, j1: int, i2: int, j2: int|
                #![trigger em[i1][j1], em[i2][j2]]
                0 <= i1 < em.len() && 0 <= j1 < em[i1].len() && 0 <= i2 < em.len() && 0 <= j2 < em[i2].len()
                    && (i1 < i2 || (i1 == i2 && j1 < j2)) && em[i1][j1].symbol == em[i2][j2].symbol implies
                em[i1][j1].timestamp_ns <= em[i2][j2].timestamp_ns by {
                if i2 == seg && j2 == last {
                    assert(em[i2][j2] == *event);
                    assert(em[i1][j1] == old_emitted[i1][j1]);
                } else {
                    assert(!(i1 == seg && j1 == last));
                    assert(em[i1][j1] == old_emitted[i1][j1]);
                    assert(em[i2][j2] == old_emitted[i2][j2]);
                }
            }
        }
        AppendStep::Record(bytes)
    }

    /// Path of the segment that a rotation opens next.
    pub fn next_segment_path(&self) -> (r: String)
        requires
            self.spec_segment_id() < u32::MAX,
        ensures
            r@ == spec_segment_path(self.spec_dir(), (self.spec_segment_id() + 1) as u32),
    {
        segment_path(self.dir.as_str(), self.segment_id + 1)
    }

    /// Seals the active segment and opens the next one, whose file holds
    /// `next_len` bytes. Hands back the sealed segment and the index file's
    /// new contents.
    pub fn rotate(&mut self, next_len: u64) -> (r: Rotation)
        requires
            old(self).wf(),
            old(self).spec_segment_id() < u32::MAX,
        ensures
            final(self).wf(),
            final(self).spec_dir() == old(self).spec_dir(),
            final(self).spec_segment_id() == old(self).spec_segment_id() + 1,
            final(self).spec_index() == old(self).spec_index(),
            final(self).spec_current().spec_bytes_written() == next_len,
            final(self).emitted() == old(self).emitted().push(Seq::<Event>::empty()),
            r.sealed.path@ == spec_segment_path(old(self).spec_dir(), old(self).spec_segment_id()),
            r.sealed.event_count == old(self).spec_current().spec_bytes_written() / 40,
            final(self).spec_sealed() == old(self).spec_sealed().push(r.sealed),
            r.index_bytes@.len() == 40 * old(self).spec_index().len(),
            crate::index::spec_entries_map(crate::index::spec_entry_records(r.index_bytes@))
                == old(self).spec_index(),
    {
        let next_id = self.segment_id + 1;
        let next_path = segment_path(self.dir.as_str(), next_id);
        let mut writer = SegmentWriter::open(next_path, next_len);
        std::mem::swap(&mut self.current, &mut writer);
        self.segment_id = next_id;
        let sealed = writer.seal();
        self.sealed.push(sealed.clone());
        let index_bytes = self.index.to_bytes();
        self.emitted = Ghost(self.emitted@.push(Seq::empty()));
        proof {
            assert forall|i: int, j: int|
                0 <= i < self.emitted@.len() && 0 <= j < self.emitted@[i].len() implies spec_covers(
                self.index@,
                #[trigger] self.emitted@[i][j].symbol,
                i as u32,
                self.emitted@[i][j].timestamp_ns,
            ) by {
                assert(i < self.emitted@.len() - 1);
            }
            let em = self.emitted@;
            assert forall|i1: int, j1: int, i2: int, j2: int|
                #![trigger em[i1][j1], em[i2][j2]]
                0 <= i1 < em.len() && 0 <= j1 < em[i1].len() && 0 <= i2 < em.len() && 0 <= j2 < em[i2].len()
                    && (i1 < i2 || (i1 == i2 && j1 < j2)) && em[i1][j1].symbol == em[i2][j2].symbol implies
                em[i1][j1].timestamp_ns <= em[i2][j2].timestamp_ns by {
                assert(i1 < em.len() - 1 && i2 < em.len() - 1);
            }
        }
        Rotation { sealed, index_bytes }
    }

    /// The index, for queries.
    pub fn index(&self) -> (r: &SegmentIndex)
        requires
            self.wf(),
        ensures
            r.wf(),
            r@ == self.spec_index(),
    {
        &self.index
    }

    /// Number of events in the active segment.
    pub fn current_event_count(&self) -> (r: u64)
        ensures
            r == self.spec_current().spec_bytes_written() / 40,
    {
        self.current.event_count()
    }

    /// Id of the active segment.
    pub fn current_segment_id(&self) -> (r: u32)
        ensures
            r == self.spec_segment_id(),
    {
        self.segment_id
    }

    /// Whether the active segment is full (the next append asks for a rotation).
    pub fn is_full(&self) -> (r: bool)
        ensures
            r == (self.spec_current().spec_bytes_written() >= SEGMENT_MAX_BYTES),
    {
        self.current.is_full()
    }

    /// Path of the active segment's file.
    pub fn current_path(&self) -> (r: &String)
        requires
            self.wf(),
        ensures
            r@ == spec_segment_path(self.spec_dir(), self.spec_segment_id()),
    {
        self.current.path()
    }

    /// Segments sealed through this writer, in order.
    pub fn sealed_segments(&self) -> (r: &[SealedSegment])
        ensures
            r@ == self.spec_sealed(),
    {
        self.sealed.as_slice()
    }
}

} // verus!
