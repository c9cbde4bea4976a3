use vstd::prelude::*;
use crate::cpu::spec_cpu_range;
use crate::hugepages::{parse_sysfs_u64, spec_sysfs_u64};
use crate::text::{
    chars_of, decimal, find, lemma_find_some, parse_i32, parse_unsigned, push_all, push_str,
    same_chars, signed_decimal, slice_chars, spec_decimal, spec_find, spec_parse_signed,
    spec_parse_unsigned, spec_signed_decimal, spec_split, spec_trim, spec_words, split,
    string_from_chars, trim, words, lemma_trim_blank, unicode_white_space, lemma_split_nonempty,
    spec_trim_start, spec_trim_end, all_digits, digits_value, is_digit, lemma_digits_value_nonneg,
};

verus! {

// ─── CPU lists ───────────────────────────────────────────────────────────────

/// The CPUs named by one comma-separated part of a CPU list: `a-b` names
/// `a` to `b` inclusive (nothing when `a > b`), `n` names `n`, and anything
/// that does not parse names nothing.
pub open spec fn spec_cpu_list_part(part: Seq<char>) -> Seq<usize> {
    let p = spec_trim(part);
    if p.len() == 0 {
        Seq::empty()
    } else {
        match spec_find(p, '-') {
            Some(i) => match (
                spec_parse_unsigned(p.take(i), usize::MAX as int),
                spec_parse_unsigned(p.skip(i + 1), usize::MAX as int),
            ) {
                (Some(a), Some(b)) => spec_cpu_range(a, b),
                _ => Seq::empty(),
            },
            None => match spec_parse_unsigned(p, usize::MAX as int) {
                Some(n) => seq![n as usize],
                None => Seq::empty(),
            },
        }
    }
}

/// The CPUs named by a sequence of parts, in order.
pub open spec fn spec_cpu_list_parts(parts: Seq<Seq<char>>) -> Seq<usize>
    decreases parts.len(),
{
    if parts.len() == 0 {
        Seq::empty()
    } else {
        spec_cpu_list_parts(parts.drop_last()) + spec_cpu_list_part(parts.last())
    }
}

/// The CPUs named by a list such as `0-3,5,7-8`.
pub open spec fn spec_parse_cpu_list(s: Seq<char>) -> Seq<usize> {
    spec_cpu_list_parts(spec_split(spec_trim(s), ','))
}

/// A nonempty run of decimal digits, with its value.
pub open spec fn is_number(d: Seq<char>) -> bool {
    d.len() > 0 && all_digits(d) && digits_value(d) <= usize::MAX
}

/// Text that starts and ends with a digit is its own trim.
proof fn lemma_trim_digits_edges(s: Seq<char>)
    requires
        s.len() > 0,
        is_digit(s[0]),
        is_digit(s.last()),
    ensures
        spec_trim(s) == s,
{
    assert(!unicode_white_space(s.last()));
    assert(spec_trim_end(s) == s);
    assert(!unicode_white_space(s[0]));
}

/// Text without the separator splits into itself alone.
proof fn lemma_split_without_sep(s: Seq<char>, sep: char)
    requires
        forall|i: int| 0 <= i < s.len() ==> s[i] != sep,
    ensures
        spec_split(s, sep) == seq![s],
    decreases s.len(),
{
    if s.len() == 0 {
        assert(s =~= Seq::<char>::empty());
    } else {
        lemma_split_without_sep(s.drop_last(), sep);
        assert(s.drop_last().push(s.last()) =~= s);
        assert(seq![s.drop_last()].update(0, s) =~= seq![s]);
    }
}

/// A list of one part names what that part names.
proof fn lemma_one_part(s: Seq<char>)
    ensures
        spec_cpu_list_parts(seq![s]) == spec_cpu_list_part(s),
{
    assert(seq![s].drop_last() =~= Seq::<Seq<char>>::empty());
    assert(spec_cpu_list_parts(Seq::<Seq<char>>::empty()) + spec_cpu_list_part(s) =~= spec_cpu_list_part(s));
}

/// What single list items name: a number `n` names CPU `n`, and `a-b`
/// names the CPUs `a` to `b`, both included, in increasing order (none when
/// `a > b`).
pub proof fn lemma_parse_cpu_list_items(a: Seq<char>, b: Seq<char>)
    requires
        is_number(a),
        is_number(b),
    ensures
        spec_parse_cpu_list(a) == seq![digits_value(a) as usize],
        ({
            let r = spec_parse_cpu_list(a + seq!['-'] + b);
            &&& r.len() == (if digits_value(a) <= digits_value(b) {
                digits_value(b) - digits_value(a) + 1
            } else {
                0
            })
            &&& forall|k: int| 0 <= k < r.len() ==> r[k] == digits_value(a) + k
        }),
{
    // a single number
    assert(is_digit(a[0]) && is_digit(a.last()));
    lemma_trim_digits_edges(a);
    assert forall|i: int| 0 <= i < a.len() implies a[i] != ',' && a[i] != '-' by {
        assert(is_digit(a[i]));
    }
    lemma_split_without_sep(a, ',');
    lemma_one_part(a);
    lemma_find_some(a, '-');
    assert(spec_parse_unsigned(a, usize::MAX as int) == Some(digits_value(a)));
    // a range
    let s = a + seq!['-'] + b;
    let i = a.len() as int;
    assert(s[0] == a[0]);
    assert(s.last() == b.last());
    assert(is_digit(b.last()));
    lemma_trim_digits_edges(s);
    assert forall|j: int| 0 <= j < s.len() implies s[j] != ',' by {
        if j < i {
            assert(is_digit(a[j]));
        } else if j > i {
            assert(s[j] == b[j - i - 1]);
            assert(is_digit(b[j - i - 1]));
        }
    }
    lemma_split_without_sep(s, ',');
    lemma_one_part(s);
    lemma_find_some(s, '-');
    assert(s[i] == '-');
    let f = spec_find(s, '-');
    assert(f is Some);
    let k = f->0;
    if k < i {
        assert(s[k] == a[k]);
        assert(is_digit(a[k]));
    }
    assert(k == i);
    assert(s.take(i) =~= a);
    assert(s.skip(i + 1) =~= b);
    assert(is_digit(b[0]));
    assert(spec_parse_unsigned(b, usize::MAX as int) == Some(digits_value(b)));
    lemma_digits_value_nonneg(a);
    lemma_digits_value_nonneg(b);
    let r = spec_parse_cpu_list(s);
    assert(r == spec_cpu_range(digits_value(a), digits_value(b)));
    assert forall|k: int| 0 <= k < r.len() implies r[k] == digits_value(a) + k by {
        assert(digits_value(a) + k <= digits_value(b));
    }
}

/// Empty or whitespace-only text names no CPU.
pub proof fn lemma_parse_cpu_list_blank(s: Seq<char>)
    requires
        forall|j: int| 0 <= j < s.len() ==> unicode_white_space(s[j]),
    ensures
        spec_parse_cpu_list(s).len() == 0,
{
    lemma_trim_blank(s);
    let parts = spec_split(spec_trim(s), ',');
    assert(parts =~= seq![Seq::<char>::empty()]);
    assert(parts.drop_last() =~= Seq::<Seq<char>>::empty());
    lemma_trim_blank(Seq::<char>::empty());
    assert(spec_cpu_list_part(parts.last()) =~= Seq::<usize>::empty());
    assert(spec_cpu_list_parts(parts) =~= spec_cpu_list_parts(parts.drop_last()) + spec_cpu_list_part(
        parts.last(),
    ));
}

// ─── laws of CPU lists ───────────────────────────────────────────────────────

/// The CPUs of the comma-separated parts of `x`, without trimming `x` first.
pub open spec fn spec_cpu_list_untrimmed(x: Seq<char>) -> Seq<usize> {
    spec_cpu_list_parts(spec_split(x, ','))
}

/// Trimming is unaffected by white space added at the end.
proof fn lemma_trim_push_space(z: Seq<char>, c: char)
    requires
        unicode_white_space(c),
    ensures
        spec_trim(z.push(c)) == spec_trim(z),
{
    assert(z.push(c).drop_last() =~= z);
}

/// Trimming is unaffected by white space added at the front.
proof fn lemma_trim_prepend_space(c: char, z: Seq<char>)
    requires
        unicode_white_space(c),
    ensures
        spec_trim(seq![c] + z) == spec_trim(z),
    decreases z.len(),
{
    if z.len() == 0 {
        assert(seq![c] + z =~= seq![c]);
        assert(seq![c].drop_last() =~= Seq::<char>::empty());
        assert(spec_trim_end(Seq::<char>::empty()) == Seq::<char>::empty());
        assert(spec_trim_end(seq![c]) == Seq::<char>::empty());
        assert(spec_trim_start(Seq::<char>::empty()) == Seq::<char>::empty());
        assert(spec_trim(z) == Seq::<char>::empty());
    } else {
        let z2 = z.drop_last();
        let d = z.last();
        assert(seq![c] + z =~= (seq![c] + z2).push(d));
        assert(z =~= z2.push(d));
        if unicode_white_space(d) {
            lemma_trim_prepend_space(c, z2);
            lemma_trim_push_space(seq![c] + z2, d);
            lemma_trim_push_space(z2, d);
        } else {
            assert(spec_trim_end(seq![c] + z) == seq![c] + z);
            assert(spec_trim_end(z) == z);
            assert((seq![c] + z).drop_first() =~= z);
        }
    }
}

/// The parts of `p` with its last part replaced.
proof fn lemma_parts_update_last(p: Seq<Seq<char>>, w: Seq<char>)
    requires
        p.len() > 0,
    ensures
        spec_cpu_list_parts(p.update(p.len() - 1, w)) == spec_cpu_list_parts(p.drop_last()) + spec_cpu_list_part(w),
{
    assert(p.update(p.len() - 1, w).drop_last() =~= p.drop_last());
}

/// Replacing the first part by one naming the same CPUs changes nothing.
proof fn lemma_parts_update_first(p: Seq<Seq<char>>, w: Seq<char>)
    requires
        p.len() > 0,
        spec_cpu_list_part(w) == spec_cpu_list_part(p[0]),
    ensures
        spec_cpu_list_parts(p.update(0, w)) == spec_cpu_list_parts(p),
    decreases p.len(),
{
    if p.len() == 1 {
        assert(p.update(0, w).drop_last() =~= p.drop_last());
    } else {
        let q = p.drop_last();
        lemma_parts_update_first(q, w);
        assert(p.update(0, w).drop_last() =~= q.update(0, w));
        assert(p.update(0, w).last() == p.last());
    }
}

/// The parts of a concatenation of part lists.
proof fn lemma_parts_concat(x: Seq<Seq<char>>, y: Seq<Seq<char>>)
    ensures
        spec_cpu_list_parts(x + y) == spec_cpu_list_parts(x) + spec_cpu_list_parts(y),
    decreases y.len(),
{
    if y.len() == 0 {
        assert(x + y =~= x);
        assert(spec_cpu_list_parts(x) + Seq::<usize>::empty() =~= spec_cpu_list_parts(x));
    } else {
        lemma_parts_concat(x, y.drop_last());
        assert((x + y).drop_last() =~= x + y.drop_last());
        assert((x + y).last() == y.last());
        assert(spec_cpu_list_parts(x + y) =~= spec_cpu_list_parts(x) + spec_cpu_list_parts(y));
    }
}

/// Splitting at a comma joins the pieces of both sides.
proof fn lemma_split_concat(a: Seq<char>, b: Seq<char>)
    ensures
        spec_split(a + seq![','] + b, ',') == spec_split(a, ',') + spec_split(b, ','),
    decreases b.len(),
{
    let x = a + seq![','] + b;
    if b.len() == 0 {
        assert(x.drop_last() =~= a);
        assert(spec_split(x, ',') =~= spec_split(a, ',') + spec_split(b, ','));
    } else {
        let b2 = b.drop_last();
        lemma_split_concat(a, b2);
        lemma_split_nonempty(b2, ',');
        lemma_split_nonempty(a, ',');
        assert(x.drop_last() =~= a + seq![','] + b2);
        assert(x.last() == b.last());
        assert(spec_split(x, ',') =~= spec_split(a, ',') + spec_split(b, ','));
    }
}

/// Splitting text that starts with a character other than a comma puts
/// that character at the front of the first piece.
proof fn lemma_split_prepend(c: char, y: Seq<char>)
    requires
        c != ',',
    ensures
        spec_split(seq![c] + y, ',') == spec_split(y, ',').update(0, seq![c] + spec_split(y, ',')[0]),
    decreases y.len(),
{
    lemma_split_nonempty(y, ',');
    if y.len() == 0 {
        assert(seq![c] + y =~= seq![c]);
        assert(seq![c].drop_last() =~= Seq::<char>::empty());
        assert(spec_split(Seq::<char>::empty(), ',') =~= seq![Seq::<char>::empty()]);
        assert(spec_split(seq![c], ',') =~= seq![seq![c]]);
        assert(spec_split(seq![c] + y, ',') =~= spec_split(y, ',').update(0, seq![c] + spec_split(y, ',')[0]));
    } else {
        let y2 = y.drop_last();
        let d = y.last();
        lemma_split_prepend(c, y2);
        lemma_split_nonempty(y2, ',');
        assert((seq![c] + y).drop_last() =~= seq![c] + y2);
        assert((seq![c] + y).last() == d);
        assert(y.drop_last() == y2);
        if d == ',' {
            assert(spec_split(seq![c] + y, ',') =~= spec_split(y, ',').update(0, seq![c] + spec_split(y, ',')[0]));
        } else {
            let p2 = spec_split(y2, ',');
            if p2.len() == 1 {
                assert(seq![c] + p2[0].push(d) =~= (seq![c] + p2[0]).push(d));
            }
            assert(spec_split(seq![c] + y, ',') =~= spec_split(y, ',').update(0, seq![c] + spec_split(y, ',')[0]));
        }
    }
}

/// White space at the end of a list names no CPU.
proof fn lemma_untrimmed_trim_end(x: Seq<char>)
    ensures
        spec_cpu_list_untrimmed(spec_trim_end(x)) == spec_cpu_list_untrimmed(x),
    decreases x.len(),
{
    if x.len() > 0 && unicode_white_space(x.last()) {
        let y = x.drop_last();
        let c = x.last();
        lemma_untrimmed_trim_end(y);
        assert(x =~= y.push(c));
        lemma_split_nonempty(y, ',');
        let p = spec_split(y, ',');
        assert(spec_split(x, ',') == p.update(p.len() - 1, p.last().push(c)));
        lemma_parts_update_last(p, p.last().push(c));
        lemma_trim_push_space(p.last(), c);
        assert(p =~= p.drop_last().push(p.last()));
    }
}

/// White space at the start of a list names no CPU.
proof fn lemma_untrimmed_trim_start(x: Seq<char>)
    ensures
        spec_cpu_list_untrimmed(spec_trim_start(x)) == spec_cpu_list_untrimmed(x),
    decreases x.len(),
{
    if x.len() > 0 && unicode_white_space(x[0]) {
        let y = x.drop_first();
        let c = x[0];
        lemma_untrimmed_trim_start(y);
        assert(x =~= seq![c] + y);
        lemma_split_prepend(c, y);
        lemma_split_nonempty(y, ',');
        let p = spec_split(y, ',');
        lemma_trim_prepend_space(c, p[0]);
        lemma_parts_update_first(p, seq![c] + p[0]);
    }
}

/// Joining two CPU lists with a comma joins the CPUs they name:
/// `parse_cpu_list("s,t")` is `parse_cpu_list(s)` followed by `parse_cpu_list(t)`.
pub proof fn lemma_parse_cpu_list_concat(s: Seq<char>, t: Seq<char>)
    ensures
        spec_parse_cpu_list(s + seq![','] + t) == spec_parse_cpu_list(s) + spec_parse_cpu_list(t),
{
    let x = s + seq![','] + t;
    lemma_untrimmed_trim_end(x);
    lemma_untrimmed_trim_start(spec_trim_end(x));
    lemma_untrimmed_trim_end(s);
    lemma_untrimmed_trim_start(spec_trim_end(s));
    lemma_untrimmed_trim_end(t);
    lemma_untrimmed_trim_start(spec_trim_end(t));
    lemma_split_concat(s, t);
    lemma_parts_concat(spec_split(s, ','), spec_split(t, ','));
}

/// The indices `a..=b` as a vector.
fn cpu_range_vec(a: usize, b: usize) -> (r: Vec<usize>)
    ensures
        r@ == spec_cpu_range(a as int, b as int),
{
    let mut out: Vec<usize> = Vec::new();
    if a > b {
        return out;
    }
    let mut i: usize = a;
    while i < b
        invariant
            a <= i <= b,
            out@ == spec_cpu_range(a as int, i - 1),
        decreases b - i,
    {
        out.push(i);
        assert(out@ =~= spec_cpu_range(a as int, i as int));
        i = i + 1;
    }
    out.push(b);
    assert(out@ =~= spec_cpu_range(a as int, b as int));
    out
}

/// The CPUs named by one part of a CPU list.
fn cpu_list_part(part: &[char]) -> (r: Vec<usize>)
    ensures
        r@ == spec_cpu_list_part(part@),
{
    let p = trim(part);
    if p.len() == 0 {
        return Vec::new();
    }
    let max: u64 = usize::MAX as u64;
    match find(p.as_slice(), '-') {
        Some(i) => {
            proof {
                lemma_find_some(p@, '-');
            }
            let a_text = slice_chars(p.as_slice(), 0, i);
            let b_text = slice_chars(p.as_slice(), i + 1, p.len());
            assert(a_text@ =~= p@.take(i as int));
            assert(b_text@ =~= p@.skip(i + 1));
            let a = parse_unsigned(a_text.as_slice(), max);
            let b = parse_unsigned(b_text.as_slice(), max);
            match (a, b) {
                (Some(a), Some(b)) => cpu_range_vec(a as usize, b as usize),
                _ => Vec::new(),
            }
        },
        None => match parse_unsigned(p.as_slice(), max) {
            Some(n) => {
                let mut out: Vec<usize> = Vec::new();
                out.push(n as usize);
                out
            },
            None => Vec::new(),
        },
    }
}

/// Parses a CPU list such as `"0-3,5,7-8"` into the CPU indices it names,
/// in order: a range `a-b` gives `a` to `b` inclusive, a number gives
/// itself, and a part that is empty or does not parse is skipped. Empty or
/// whitespace-only input gives an empty list.
pub fn parse_cpu_list(s: &str) -> (r: Vec<usize>)
    ensures
        r@ == spec_parse_cpu_list(s@),
{
    let cs = chars_of(s);
    let t = trim(cs.as_slice());
    let parts = split(t.as_slice(), ',');
    let ghost sp = spec_split(spec_trim(s@), ',');
    let mut out: Vec<usize> = Vec::new();
    let mut k: usize = 0;
    while k < parts.len()
        invariant
            k <= parts@.len(),
            parts@.len() == sp.len(),
            forall|i: int| 0 <= i < parts@.len() ==> #[trigger] parts@[i]@ == sp[i],
            out@ == spec_cpu_list_parts(sp.take(k as int)),
        decreases parts@.len() - k,
    {
        let mut piece = cpu_list_part(parts[k].as_slice());
        assert(sp.take(k as int + 1).drop_last() =~= sp.take(k as int));
        out.append(&mut piece);
        k = k + 1;
    }
    assert(sp.take(parts@.len() as int) =~= sp);
    out
}

// ─── the readiness report ────────────────────────────────────────────────────

/// Snapshot of kernel tuning state relevant for HFT workloads.
#[derive(Debug, Clone)]
pub struct SystemReport {
    /// Number of 2 MB hugepages pre-allocated (`nr_hugepages`).
    pub nr_hugepages_2mb: u64,
    /// Transparent hugepage mode: `"always"`, `"madvise"` or `"never"`.
    pub transparent_hugepages: String,
    /// CPUs listed as isolated (`isolcpus`).
    pub isolated_cpus: Vec<usize>,
    /// CPUs running without the periodic timer tick (`nohz_full`).
    pub nohz_full_cpus: Vec<usize>,
    /// Per-CPU frequency governor, e.g. `(0, "performance")`.
    pub cpu_governors: Vec<(usize, String)>,
    /// Value of `perf_event_paranoid`: -1 is full access, 3 the most restrictive.
    pub perf_paranoid: i32,
}

/// `OK` for a tuned setting, `!!` for a gap.
pub open spec fn spec_mark(ok: bool) -> Seq<char> {
    if ok {
        "OK"@
    } else {
        "!!"@
    }
}

/// One checklist line: `  [OK] <rest>` or `  [!!] <rest>`, ended by a newline.
pub open spec fn spec_check_line(ok: bool, rest: Seq<char>) -> Seq<char> {
    "  ["@ + spec_mark(ok) + "] "@ + rest + "\n"@
}

/// The items of a list of indices separated by `, `.
pub open spec fn spec_list_items(v: Seq<usize>) -> Seq<char>
    decreases v.len(),
{
    if v.len() == 0 {
        Seq::empty()
    } else if v.len() == 1 {
        spec_decimal(v[0] as nat)
    } else {
        spec_list_items(v.drop_last()) + ", "@ + spec_decimal(v.last() as nat)
    }
}

/// A list of indices as `{:?}` prints it: `[2, 3]`, or `[]` when empty.
pub open spec fn spec_debug_list(v: Seq<usize>) -> Seq<char> {
    "["@ + spec_list_items(v) + "]"@
}

/// The checklist line of one CPU frequency governor.
pub open spec fn spec_governor_line(g: (usize, String)) -> Seq<char> {
    spec_check_line(
        g.1@ == "performance"@,
        "CPU "@ + spec_decimal(g.0 as nat) + " governor     : "@ + g.1@,
    )
}

/// The checklist lines of the governors, in order.
pub open spec fn spec_governor_lines(g: Seq<(usize, String)>) -> Seq<char>
    decreases g.len(),
{
    if g.len() == 0 {
        Seq::empty()
    } else {
        spec_governor_lines(g.drop_last()) + spec_governor_line(g.last())
    }
}

/// The report as a checklist: a title, then one line per setting, each
/// marked `OK` when tuned and `!!` when not.
pub open spec fn spec_report_text(r: SystemReport) -> Seq<char> {
    "=== Ashta-Kernel System Report ===\n"@ + spec_check_line(
        r.nr_hugepages_2mb > 0,
        "Hugepages 2MB       : "@ + spec_decimal(r.nr_hugepages_2mb as nat) + " pages ("@
            + spec_decimal((r.nr_hugepages_2mb * 2) as nat) + " MiB)"@,
    ) + spec_check_line(
        r.transparent_hugepages@ == "madvise"@,
        "Transparent HP      : "@ + r.transparent_hugepages@ + " (recommended: madvise)"@,
    ) + spec_check_line(
        r.isolated_cpus@.len() > 0,
        "Isolated CPUs       : "@ + spec_debug_list(r.isolated_cpus@),
    ) + spec_check_line(
        r.nohz_full_cpus@.len() > 0,
        "nohz_full CPUs      : "@ + spec_debug_list(r.nohz_full_cpus@),
    ) + spec_check_line(
        r.perf_paranoid <= 0,
        "perf_event_paranoid : "@ + spec_signed_decimal(r.perf_paranoid as int),
    ) + spec_governor_lines(r.cpu_governors@)
}

/// How a report line opens: `  [OK] ` for a tuned setting, `  [!!] ` for a
/// tuning gap.
pub open spec fn line_opening(tuned: bool) -> Seq<char> {
    if tuned {
        seq![' ', ' ', '[', 'O', 'K', ']', ' ']
    } else {
        seq![' ', ' ', '[', '!', '!', ']', ' ']
    }
}

/// `line` occurs in `t`.
pub open spec fn has_line(t: Seq<char>, line: Seq<char>) -> bool {
    exists|i: int| 0 <= i && i + line.len() <= t.len() && #[trigger] t.subrange(i, i + line.len()) == line
}

/// A text occurs in itself surrounded by anything.
proof fn lemma_has_middle(a: Seq<char>, b: Seq<char>, c: Seq<char>)
    ensures
        has_line(a + b + c, b),
{
    let t = a + b + c;
    assert(t.subrange(a.len() as int, (a.len() + b.len()) as int) =~= b);
}

/// A text that occurs in `t` also occurs in `t` with more text on either side.
proof fn lemma_has_line_extend(a: Seq<char>, t: Seq<char>, c: Seq<char>, line: Seq<char>)
    requires
        has_line(t, line),
    ensures
        has_line(a + t + c, line),
{
    let i = choose|i: int| 0 <= i && i + line.len() <= t.len() && #[trigger] t.subrange(i, i + line.len()) == line;
    let u = a + t + c;
    assert(u.subrange(a.len() + i, a.len() + i + line.len()) =~= t.subrange(i, i + line.len()));
}

/// A checklist line is its opening mark, its text and a newline.
proof fn lemma_check_line(ok: bool, rest: Seq<char>)
    ensures
        spec_check_line(ok, rest) == line_opening(ok) + rest + seq!['\n'],
{
    reveal_strlit("  [");
    reveal_strlit("OK");
    reveal_strlit("!!");
    reveal_strlit("] ");
    reveal_strlit("\n");
    assert(spec_check_line(ok, rest) =~= line_opening(ok) + rest + seq!['\n']);
}

/// Each governor of `g` has its line in the governor lines: marked OK
/// exactly when the governor is `performance`.
proof fn lemma_governor_lines(g: Seq<(usize, String)>, k: int)
    requires
        0 <= k < g.len(),
    ensures
        has_line(
            spec_governor_lines(g),
            line_opening(g[k].1@ == "performance"@) + "CPU "@ + spec_decimal(g[k].0 as nat)
                + " governor     : "@ + g[k].1@ + seq!['\n'],
        ),
    decreases g.len(),
{
    let line = line_opening(g[k].1@ == "performance"@) + "CPU "@ + spec_decimal(g[k].0 as nat)
        + " governor     : "@ + g[k].1@ + seq!['\n'];
    let rest = "CPU "@ + spec_decimal(g[k].0 as nat) + " governor     : "@ + g[k].1@;
    lemma_check_line(g[k].1@ == "performance"@, rest);
    assert(line_opening(g[k].1@ == "performance"@) + rest + seq!['\n'] =~= line);
    let init = spec_governor_lines(g.drop_last());
    if k == g.len() - 1 {
        lemma_has_middle(init, line, Seq::empty());
        assert(init + line + Seq::<char>::empty() =~= spec_governor_lines(g));
    } else {
        assert(g.drop_last()[k] == g[k]);
        lemma_governor_lines(g.drop_last(), k);
        lemma_has_line_extend(Seq::empty(), init, spec_governor_line(g.last()), line);
        assert(Seq::<char>::empty() + init + spec_governor_line(g.last()) =~= spec_governor_lines(g));
    }
}

/// What the report says of each setting: it opens with its title, and holds
/// one line per setting, marked OK exactly when the setting is tuned —
/// hugepages pre-allocated, transparent hugepages in `madvise` mode (and no
/// other), some CPU isolated, some CPU tickless, `perf_event_paranoid` at
/// most 0, and for each CPU the `performance` governor.
pub proof fn lemma_report_checks(r: SystemReport)
    ensures
        ({
            let t = spec_report_text(r);
            &&& t.take(35) == "=== Ashta-Kernel System Report ===\n"@
            &&& has_line(
                t,
                line_opening(r.nr_hugepages_2mb > 0) + "Hugepages 2MB       : "@ + spec_decimal(
                    r.nr_hugepages_2mb as nat,
                ) + " pages ("@ + spec_decimal((r.nr_hugepages_2mb * 2) as nat) + " MiB)"@
                    + seq!['\n'],
            )
            &&& has_line(
                t,
                line_opening(r.transparent_hugepages@ == "madvise"@) + "Transparent HP      : "@
                    + r.transparent_hugepages@ + " (recommended: madvise)"@ + seq!['\n'],
            )
            &&& has_line(
                t,
                line_opening(r.isolated_cpus@.len() > 0) + "Isolated CPUs       : "@
                    + spec_debug_list(r.isolated_cpus@) + seq!['\n'],
            )
            &&& has_line(
                t,
                line_opening(r.nohz_full_cpus@.len() > 0) + "nohz_full CPUs      : "@
                    + spec_debug_list(r.nohz_full_cpus@) + seq!['\n'],
            )
            &&& has_line(
                t,
                line_opening(r.perf_paranoid <= 0) + "perf_event_paranoid : "@ + spec_signed_decimal(
                    r.perf_paranoid as int,
                ) + seq!['\n'],
            )
            &&& forall|k: int|
                0 <= k < r.cpu_governors@.len() ==> has_line(
                    t,
                    line_opening(#[trigger] r.cpu_governors@[k].1@ == "performance"@) + "CPU "@
                        + spec_decimal(r.cpu_governors@[k].0 as nat) + " governor     : "@
                        + r.cpu_governors@[k].1@ + seq!['\n'],
                )
        }),
{
    lemma_report_title(r);
    lemma_report_hugepages(r);
    lemma_report_thp(r);
    lemma_report_lists(r);
    lemma_report_perf(r);
    lemma_report_governors(r);
}

/// The report's parts: the title, five checklist lines and the governor lines.
proof fn lemma_report_parts(r: SystemReport)
    ensures
        spec_report_text(r) == "=== Ashta-Kernel System Report ===\n"@ + spec_check_line(
            r.nr_hugepages_2mb > 0,
            "Hugepages 2MB       : "@ + spec_decimal(r.nr_hugepages_2mb as nat) + " pages ("@
                + spec_decimal((r.nr_hugepages_2mb * 2) as nat) + " MiB)"@,
        ) + spec_check_line(
            r.transparent_hugepages@ == "madvise"@,
            "Transparent HP      : "@ + r.transparent_hugepages@ + " (recommended: madvise)"@,
        ) + spec_check_line(
            r.isolated_cpus@.len() > 0,
            "Isolated CPUs       : "@ + spec_debug_list(r.isolated_cpus@),
        ) + spec_check_line(
            r.nohz_full_cpus@.len() > 0,
            "nohz_full CPUs      : "@ + spec_debug_list(r.nohz_full_cpus@),
        ) + spec_check_line(
            r.perf_paranoid <= 0,
            "perf_event_paranoid : "@ + spec_signed_decimal(r.perf_paranoid as int),
        ) + spec_governor_lines(r.cpu_governors@),
{
}

proof fn lemma_report_title(r: SystemReport)
    ensures
        spec_report_text(r).take(35) == "=== Ashta-Kernel System Report ===\n"@,
{
    lemma_report_parts(r);
    let title = "=== Ashta-Kernel System Report ===\n"@;
    let t = spec_report_text(r);
    lemma_title(title, t.skip(35));
    reveal_strlit("=== Ashta-Kernel System Report ===\n");
    assert(title.len() == 35);
    assert(t.take(35) =~= title) by {
        assert forall|i: int| 0 <= i < 35 implies t[i] == title[i] by {}
    }
}

proof fn lemma_report_hugepages(r: SystemReport)
    ensures
        has_line(
            spec_report_text(r),
            line_opening(r.nr_hugepages_2mb > 0) + "Hugepages 2MB       : "@ + spec_decimal(
                r.nr_hugepages_2mb as nat,
            ) + " pages ("@ + spec_decimal((r.nr_hugepages_2mb * 2) as nat) + " MiB)"@ + seq!['\n'],
        ),
{
    lemma_report_parts(r);
    let t = spec_report_text(r);
    let title = "=== Ashta-Kernel System Report ===\n"@;
    let rest = t.skip(title.len() as int);
    let l1 = spec_check_line(
        r.nr_hugepages_2mb > 0,
        "Hugepages 2MB       : "@ + spec_decimal(r.nr_hugepages_2mb as nat) + " pages ("@
            + spec_decimal((r.nr_hugepages_2mb * 2) as nat) + " MiB)"@,
    );
    let tail = t.skip((title.len() + l1.len()) as int);
    assert(t =~= title + l1 + tail);
    lemma_has_middle(title, l1, tail);
    lemma_report_line5(
        r.nr_hugepages_2mb > 0,
        "Hugepages 2MB       : "@,
        spec_decimal(r.nr_hugepages_2mb as nat),
        " pages ("@,
        spec_decimal((r.nr_hugepages_2mb * 2) as nat),
        " MiB)"@,
        t,
    );
}

proof fn lemma_report_thp(r: SystemReport)
    ensures
        has_line(
            spec_report_text(r),
            line_opening(r.transparent_hugepages@ == "madvise"@) + "Transparent HP      : "@
                + r.transparent_hugepages@ + " (recommended: madvise)"@ + seq!['\n'],
        ),
{
    lemma_report_parts(r);
    let t = spec_report_text(r);
    let title = "=== Ashta-Kernel System Report ===\n"@;
    let l1 = spec_check_line(
        r.nr_hugepages_2mb > 0,
        "Hugepages 2MB       : "@ + spec_decimal(r.nr_hugepages_2mb as nat) + " pages ("@
            + spec_decimal((r.nr_hugepages_2mb * 2) as nat) + " MiB)"@,
    );
    let l2 = spec_check_line(
        r.transparent_hugepages@ == "madvise"@,
        "Transparent HP      : "@ + r.transparent_hugepages@ + " (recommended: madvise)"@,
    );
    let head = title + l1;
    let tail = t.skip((head.len() + l2.len()) as int);
    assert(t =~= head + l2 + tail);
    lemma_has_middle(head, l2, tail);
    lemma_report_line3(
        r.transparent_hugepages@ == "madvise"@,
        "Transparent HP      : "@,
        r.transparent_hugepages@,
        " (recommended: madvise)"@,
        t,
    );
}

proof fn lemma_report_lists(r: SystemReport)
    ensures
        has_line(
            spec_report_text(r),
            line_opening(r.isolated_cpus@.len() > 0) + "Isolated CPUs       : "@ + spec_debug_list(
                r.isolated_cpus@,
            ) + seq!['\n'],
        ),
        has_line(
            spec_report_text(r),
            line_opening(r.nohz_full_cpus@.len() > 0) + "nohz_full CPUs      : "@ + spec_debug_list(
                r.nohz_full_cpus@,
            ) + seq!['\n'],
        ),
{
    lemma_report_parts(r);
    let t = spec_report_text(r);
    let title = "=== Ashta-Kernel System Report ===\n"@;
    let l1 = spec_check_line(
        r.nr_hugepages_2mb > 0,
        "Hugepages 2MB       : "@ + spec_decimal(r.nr_hugepages_2mb as nat) + " pages ("@
            + spec_decimal((r.nr_hugepages_2mb * 2) as nat) + " MiB)"@,
    );
    let l2 = spec_check_line(
        r.transparent_hugepages@ == "madvise"@,
        "Transparent HP      : "@ + r.transparent_hugepages@ + " (recommended: madvise)"@,
    );
    let l3 = spec_check_line(
        r.isolated_cpus@.len() > 0,
        "Isolated CPUs       : "@ + spec_debug_list(r.isolated_cpus@),
    );
    let l4 = spec_check_line(
        r.nohz_full_cpus@.len() > 0,
        "nohz_full CPUs      : "@ + spec_debug_list(r.nohz_full_cpus@),
    );
    let head = title + l1 + l2;
    let tail3 = t.skip((head.len() + l3.len()) as int);
    assert(t =~= head + l3 + tail3);
    lemma_has_middle(head, l3, tail3);
    let head4 = head + l3;
    let tail4 = t.skip((head4.len() + l4.len()) as int);
    assert(t =~= head4 + l4 + tail4);
    lemma_has_middle(head4, l4, tail4);
    lemma_report_line2(r.isolated_cpus@.len() > 0, "Isolated CPUs       : "@, spec_debug_list(r.isolated_cpus@), t);
    lemma_report_line2(r.nohz_full_cpus@.len() > 0, "nohz_full CPUs      : "@, spec_debug_list(r.nohz_full_cpus@), t);
}

proof fn lemma_report_perf(r: SystemReport)
    ensures
        has_line(
            spec_report_text(r),
            line_opening(r.perf_paranoid <= 0) + "perf_event_paranoid : "@ + spec_signed_decimal(
                r.perf_paranoid as int,
            ) + seq!['\n'],
        ),
{
    lemma_report_parts(r);
    let t = spec_report_text(r);
    let gl = spec_governor_lines(r.cpu_governors@);
    let l5 = spec_check_line(
        r.perf_paranoid <= 0,
        "perf_event_paranoid : "@ + spec_signed_decimal(r.perf_paranoid as int),
    );
    let head = t.take(t.len() - gl.len() - l5.len());
    assert(t =~= head + l5 + gl);
    lemma_has_middle(head, l5, gl);
    lemma_report_line2(r.perf_paranoid <= 0, "perf_event_paranoid : "@, spec_signed_decimal(r.perf_paranoid as int), t);
}

proof fn lemma_report_governors(r: SystemReport)
    ensures
        forall|k: int|
            0 <= k < r.cpu_governors@.len() ==> has_line(
                spec_report_text(r),
                line_opening(#[trigger] r.cpu_governors@[k].1@ == "performance"@) + "CPU "@
                    + spec_decimal(r.cpu_governors@[k].0 as nat) + " governor     : "@
                    + r.cpu_governors@[k].1@ + seq!['\n'],
            ),
{
    lemma_report_parts(r);
    let t = spec_report_text(r);
    let gl = spec_governor_lines(r.cpu_governors@);
    let head = t.take(t.len() - gl.len());
    assert(t =~= head + gl);
    assert forall|k: int| 0 <= k < r.cpu_governors@.len() implies has_line(
        t,
        line_opening(#[trigger] r.cpu_governors@[k].1@ == "performance"@) + "CPU "@ + spec_decimal(
            r.cpu_governors@[k].0 as nat,
        ) + " governor     : "@ + r.cpu_governors@[k].1@ + seq!['\n'],
    ) by {
        let line = line_opening(r.cpu_governors@[k].1@ == "performance"@) + "CPU "@ + spec_decimal(
            r.cpu_governors@[k].0 as nat,
        ) + " governor     : "@ + r.cpu_governors@[k].1@ + seq!['\n'];
        lemma_governor_lines(r.cpu_governors@, k);
        lemma_has_line_extend(head, gl, Seq::empty(), line);
        assert(head + gl + Seq::<char>::empty() =~= t);
    }
}

/// The report's title is 35 characters long and opens the text.
proof fn lemma_title(title: Seq<char>, rest: Seq<char>)
    requires
        title == "=== Ashta-Kernel System Report ===\n"@,
    ensures
        (title + rest).take(35) == "=== Ashta-Kernel System Report ===\n"@,
{
    reveal_strlit("=== Ashta-Kernel System Report ===\n");
    assert((title + rest).take(35) =~= title);
}

/// A checklist line of two pieces that occurs in `t` occurs there as its
/// opening mark, its pieces and a newline.
proof fn lemma_report_line2(ok: bool, a: Seq<char>, b: Seq<char>, t: Seq<char>)
    requires
        has_line(t, spec_check_line(ok, a + b)),
    ensures
        has_line(t, line_opening(ok) + a + b + seq!['\n']),
{
    lemma_check_line(ok, a + b);
    assert(line_opening(ok) + (a + b) + seq!['\n'] =~= line_opening(ok) + a + b + seq!['\n']);
}

/// The same for a line of three pieces.
proof fn lemma_report_line3(ok: bool, a: Seq<char>, b: Seq<char>, c: Seq<char>, t: Seq<char>)
    requires
        has_line(t, spec_check_line(ok, a + b + c)),
    ensures
        has_line(t, line_opening(ok) + a + b + c + seq!['\n']),
{
    lemma_check_line(ok, a + b + c);
    assert(line_opening(ok) + (a + b + c) + seq!['\n'] =~= line_opening(ok) + a + b + c + seq!['\n']);
}

/// The same for a line of five pieces.
proof fn lemma_report_line5(
    ok: bool,
    a: Seq<char>,
    b: Seq<char>,
    c: Seq<char>,
    d: Seq<char>,
    e: Seq<char>,
    t: Seq<char>,
)
    requires
        has_line(t, spec_check_line(ok, a + b + c + d + e)),
    ensures
        has_line(t, line_opening(ok) + a + b + c + d + e + seq!['\n']),
{
    lemma_check_line(ok, a + b + c + d + e);
    assert(line_opening(ok) + (a + b + c + d + e) + seq!['\n'] =~= line_opening(ok) + a + b + c + d + e
        + seq!['\n']);
}

fn check_line(ok: bool, rest: &[char]) -> (r: Vec<char>)
    ensures
        r@ == spec_check_line(ok, rest@),
{
    let mut out: Vec<char> = Vec::new();
    push_str(&mut out, "  [");
    if ok {
        push_str(&mut out, "OK");
    } else {
        push_str(&mut out, "!!");
    }
    push_str(&mut out, "] ");
    push_all(&mut out, rest);
    push_str(&mut out, "\n");
    assert(out@ =~= spec_check_line(ok, rest@));
    out
}

fn debug_list(v: &[usize]) -> (r: Vec<char>)
    ensures
        r@ == spec_debug_list(v@),
{
    let mut out: Vec<char> = Vec::new();
    push_str(&mut out, "[");
    let ghost open = out@;
    let mut i: usize = 0;
    while i < v.len()
        invariant
            i <= v@.len(),
            out@ == open + spec_list_items(v@.take(i as int)),
        decreases v@.len() - i,
    {
        assert(v@.take(i as int + 1).drop_last() =~= v@.take(i as int));
        if i > 0 {
            push_str(&mut out, ", ");
        }
        let d = decimal(v[i] as u64);
        push_all(&mut out, d.as_slice());
        proof {
            if i == 0 {
                assert(v@.take(1) =~= seq![v@[0]]);
            }
            assert(out@ =~= open + spec_list_items(v@.take(i as int + 1)));
        }
        i = i + 1;
    }
    push_str(&mut out, "]");
    assert(v@.take(v@.len() as int) =~= v@);
    assert(out@ =~= spec_debug_list(v@));
    out
}

impl SystemReport {
    /// Formats the report as a human-readable checklist, each line prefixed
    /// with `OK` or `!!` to highlight tuning gaps.
    ///
    /// The page count times two (its size in MiB) must fit in a `u64`.
    pub fn display(&self) -> (r: String)
        requires
            self.nr_hugepages_2mb * 2 <= u64::MAX,
        ensures
            r@ == spec_report_text(*self),
    {
        let mut out: Vec<char> = Vec::new();
        push_str(&mut out, "=== Ashta-Kernel System Report ===\n");

        let mut rest: Vec<char> = Vec::new();
        push_str(&mut rest, "Hugepages 2MB       : ");
        push_all(&mut rest, decimal(self.nr_hugepages_2mb).as_slice());
        push_str(&mut rest, " pages (");
        push_all(&mut rest, decimal(self.nr_hugepages_2mb * 2).as_slice());
        push_str(&mut rest, " MiB)");
        push_all(&mut out, check_line(self.nr_hugepages_2mb > 0, rest.as_slice()).as_slice());

        let thp = chars_of(self.transparent_hugepages.as_str());
        let madvise = chars_of("madvise");
        let mut rest: Vec<char> = Vec::new();
        push_str(&mut rest, "Transparent HP      : ");
        push_all(&mut rest, thp.as_slice());
        push_str(&mut rest, " (recommended: madvise)");
        push_all(&mut out, check_line(same_chars(thp.as_slice(), madvise.as_slice()), rest.as_slice()).as_slice());

        let mut rest: Vec<char> = Vec::new();
        push_str(&mut rest, "Isolated CPUs       : ");
        push_all(&mut rest, debug_list(self.isolated_cpus.as_slice()).as_slice());
        push_all(&mut out, check_line(self.isolated_cpus.len() > 0, rest.as_slice()).as_slice());

        let mut rest: Vec<char> = Vec::new();
        push_str(&mut rest, "nohz_full CPUs      : ");
        push_all(&mut rest, debug_list(self.nohz_full_cpus.as_slice()).as_slice());
        push_all(&mut out, check_line(self.nohz_full_cpus.len() > 0, rest.as_slice()).as_slice());

        let mut rest: Vec<char> = Vec::new();
        push_str(&mut rest, "perf_event_paranoid : ");
        push_all(&mut rest, signed_decimal(self.perf_paranoid as i64).as_slice());
        push_all(&mut out, check_line(self.perf_paranoid <= 0, rest.as_slice()).as_slice());

        let ghost head = out@;
        let performance = chars_of("performance");
        let mut i: usize = 0;
        while i < self.cpu_governors.len()
            invariant
                i <= self.cpu_governors@.len(),
                performance@ == "performance"@,
                out@ == head + spec_governor_lines(self.cpu_governors@.take(i as int)),
            decreases self.cpu_governors@.len() - i,
        {
            let entry = &self.cpu_governors[i];
            let gov = chars_of(entry.1.as_str());
            let mut rest: Vec<char> = Vec::new();
            push_str(&mut rest, "CPU ");
            push_all(&mut rest, decimal(entry.0 as u64).as_slice());
            push_str(&mut rest, " governor     : ");
            push_all(&mut rest, gov.as_slice());
            let line = check_line(same_chars(gov.as_slice(), performance.as_slice()), rest.as_slice());
            push_all(&mut out, line.as_slice());
            assert(self.cpu_governors@.take(i as int + 1).drop_last() =~= self.cpu_governors@.take(i as int));
            assert(out@ =~= head + spec_governor_lines(self.cpu_governors@.take(i as int + 1)));
            i = i + 1;
        }
        assert(self.cpu_governors@.take(self.cpu_governors@.len() as int) =~= self.cpu_governors@);
        assert(out@ =~= spec_report_text(*self));
        string_from_chars(out.as_slice())
    }
}

// ─── assembling the report from sysfs and procfs text ────────────────────────

/// The raw text of the files the report is built from; `None` for a file
/// that could not be read.
pub struct KernelReadings {
    /// `/sys/kernel/mm/hugepages/hugepages-2048kB/nr_hugepages`.
    pub nr_hugepages_2mb: Option<String>,
    /// `/sys/kernel/mm/transparent_hugepage/enabled`.
    pub transparent_hugepage_enabled: Option<String>,
    /// `/sys/devices/system/cpu/isolated`.
    pub isolated_cpus: Option<String>,
    /// `/sys/devices/system/cpu/nohz_full`.
    pub nohz_full_cpus: Option<String>,
    /// `(i, text of cpu<i>/cpufreq/scaling_governor)` for each CPU whose file could be read.
    pub scaling_governors: Vec<(usize, String)>,
    /// `/proc/sys/kernel/perf_event_paranoid`.
    pub perf_event_paranoid: Option<String>,
}

/// The hugepage mode of the report: the active choice of the selector
/// file, or `unknown` when the file could not be read.
pub open spec fn spec_thp_reading(t: Option<String>) -> Seq<char> {
    match t {
        Some(s) => spec_selector_mode(s@),
        None => "unknown"@,
    }
}

/// Whether a word is wrapped in square brackets, as the active choice of a
/// sysfs selector is (`[madvise]`).
pub open spec fn spec_is_bracketed(w: Seq<char>) -> bool {
    w.len() > 0 && w[0] == '[' && w.last() == ']'
}

pub open spec fn is_bracket(c: char) -> bool {
    c == '[' || c == ']'
}

/// `w` without its leading brackets.
pub open spec fn spec_strip_front(w: Seq<char>) -> Seq<char>
    decreases w.len(),
{
    if w.len() > 0 && is_bracket(w[0]) {
        spec_strip_front(w.drop_first())
    } else {
        w
    }
}

/// `w` without its trailing brackets.
pub open spec fn spec_strip_back(w: Seq<char>) -> Seq<char>
    decreases w.len(),
{
    if w.len() > 0 && is_bracket(w.last()) {
        spec_strip_back(w.drop_last())
    } else {
        w
    }
}

/// `w` without the brackets at either end (`trim_matches(['[', ']'])`).
pub open spec fn spec_strip_brackets(w: Seq<char>) -> Seq<char> {
    spec_strip_back(spec_strip_front(w))
}

/// The first bracketed word of `ws` from position `i` on.
pub open spec fn spec_first_bracketed(ws: Seq<Seq<char>>, i: int) -> Option<Seq<char>>
    decreases ws.len() - i,
{
    if i < 0 || i >= ws.len() {
        None
    } else if spec_is_bracketed(ws[i]) {
        Some(ws[i])
    } else {
        spec_first_bracketed(ws, i + 1)
    }
}

/// The active mode of a sysfs selector such as `always [madvise] never`:
/// the first bracketed word without its brackets, or the whole text trimmed
/// when no word is bracketed.
pub open spec fn spec_selector_mode(raw: Seq<char>) -> Seq<char> {
    match spec_first_bracketed(spec_words(raw), 0) {
        Some(w) => spec_strip_brackets(w),
        None => spec_trim(raw),
    }
}

fn strip_brackets(w: &[char]) -> (r: Vec<char>)
    ensures
        r@ == spec_strip_brackets(w@),
{
    let mut i: usize = 0;
    assert(w@.skip(0) =~= w@);
    while i < w.len() && (w[i] == '[' || w[i] == ']')
        invariant
            i <= w@.len(),
            spec_strip_front(w@) == spec_strip_front(w@.skip(i as int)),
        decreases w@.len() - i,
    {
        assert(w@.skip(i as int).drop_first() =~= w@.skip(i as int + 1));
        i = i + 1;
    }
    let ghost front = w@.skip(i as int);
    assert(spec_strip_front(front) == front);
    let mut j: usize = w.len();
    while j > i && (w[j - 1] == '[' || w[j - 1] == ']')
        invariant
            i <= j <= w@.len(),
            front == w@.skip(i as int),
            spec_strip_back(front) == spec_strip_back(w@.subrange(i as int, j as int)),
        decreases j - i,
    {
        assert(w@.subrange(i as int, j as int).drop_last() =~= w@.subrange(i as int, j - 1));
        j = j - 1;
    }
    assert(w@.subrange(i as int, w@.len() as int) =~= front);
    assert(spec_strip_back(w@.subrange(i as int, j as int)) == w@.subrange(i as int, j as int));
    slice_chars(w, i, j)
}

/// The active mode of a sysfs selector such as `always [madvise] never`.
pub fn selector_mode(raw: &str) -> (r: String)
    ensures
        r@ == spec_selector_mode(raw@),
{
    let cs = chars_of(raw);
    let ws = words(cs.as_slice());
    let ghost sw = spec_words(raw@);
    let mut k: usize = 0;
    while k < ws.len()
        invariant
            k <= ws@.len(),
            sw == spec_words(raw@),
            ws@.len() == sw.len(),
            cs@ == raw@,
            forall|i: int| 0 <= i < ws@.len() ==> #[trigger] ws@[i]@ == sw[i],
            spec_first_bracketed(sw, 0) == spec_first_bracketed(sw, k as int),
        decreases ws@.len() - k,
    {
        let w = &ws[k];
        assert(w@ == sw[k as int]);
        if w.len() > 0 && w[0] == '[' && w[w.len() - 1] == ']' {
            assert(spec_is_bracketed(sw[k as int]));
            assert(spec_first_bracketed(sw, k as int) == Some(sw[k as int]));
            let stripped = strip_brackets(w.as_slice());
            return string_from_chars(stripped.as_slice());
        }
        k = k + 1;
    }
    string_from_chars(trim(cs.as_slice()).as_slice())
}

/// The largest index of a non-empty list.
pub open spec fn spec_max_cpu(v: Seq<usize>) -> int
    decreases v.len(),
{
    if v.len() <= 1 {
        v[0] as int
    } else if spec_max_cpu(v.drop_last()) >= v.last() {
        spec_max_cpu(v.drop_last())
    } else {
        v.last() as int
    }
}

/// The number of CPUs given by the `online` CPU list: one more than the
/// largest index it names, or 1 when it names none or could not be read.
pub open spec fn spec_online_cpu_count(online: Option<Seq<char>>) -> int {
    match online {
        Some(t) => {
            let l = spec_parse_cpu_list(t);
            if l.len() == 0 {
                1
            } else {
                spec_max_cpu(l) + 1
            }
        },
        None => 1,
    }
}

/// The number of CPUs to look at, from the text of the `online` CPU list:
/// one more than the largest index it names, or 1 when it names none or
/// could not be read. The list may not name `usize::MAX`, whose successor
/// does not exist.
pub fn online_cpu_count(online: Option<&str>) -> (r: usize)
    requires
        online matches Some(t) ==> !spec_parse_cpu_list(t@).contains(usize::MAX),
    ensures
        r == spec_online_cpu_count(
            match online {
                Some(t) => Some(t@),
                None => None,
            },
        ),
{
    match online {
        None => 1,
        Some(t) => {
            let l = parse_cpu_list(t);
            if l.len() == 0 {
                1
            } else {
                let m = max_cpu(l.as_slice());
                m + 1
            }
        },
    }
}

/// The largest index of a non-empty list.
fn max_cpu(l: &[usize]) -> (r: usize)
    requires
        l@.len() > 0,
    ensures
        r == spec_max_cpu(l@),
        l@.contains(r),
{
    let mut m: usize = l[0];
    let mut i: usize = 1;
    while i < l.len()
        invariant
            1 <= i <= l@.len(),
            m == spec_max_cpu(l@.take(i as int)),
        decreases l@.len() - i,
    {
        assert(l@.take(i as int + 1).drop_last() =~= l@.take(i as int));
        if l[i] > m {
            m = l[i];
        }
        i = i + 1;
    }
    assert(l@.take(l@.len() as int) =~= l@);
    proof {
        lemma_max_cpu_member(l@);
    }
    m
}

proof fn lemma_max_cpu_member(v: Seq<usize>)
    requires
        v.len() > 0,
    ensures
        exists|i: int| 0 <= i < v.len() && v[i] as int == spec_max_cpu(v),
    decreases v.len(),
{
    if v.len() > 1 {
        lemma_max_cpu_member(v.drop_last());
        let i = choose|i: int| 0 <= i < v.len() - 1 && v.drop_last()[i] as int == spec_max_cpu(v.drop_last());
        assert(v[i] == v.drop_last()[i]);
        assert(v[v.len() - 1] == v.last());
    } else {
        assert(v[0] as int == spec_max_cpu(v));
    }
}

/// A counter read from sysfs, or `default` when the file is missing or
/// does not hold a `u64`.
pub open spec fn spec_u64_reading(t: Option<String>, default: u64) -> u64 {
    match t {
        Some(s) => match spec_sysfs_u64(s@) {
            Some(v) => v as u64,
            None => default,
        },
        None => default,
    }
}

/// A signed value read from procfs, or `default` when the file is missing
/// or does not hold an `i32`.
pub open spec fn spec_i32_reading(t: Option<String>, default: i32) -> i32 {
    match t {
        Some(s) => match spec_parse_signed(spec_trim(s@), i32::MIN as int, i32::MAX as int) {
            Some(v) => v as i32,
            None => default,
        },
        None => default,
    }
}

/// The CPUs of a CPU-list file, none when it could not be read.
pub open spec fn spec_cpu_list_reading(t: Option<String>) -> Seq<usize> {
    match t {
        Some(s) => spec_parse_cpu_list(s@),
        None => Seq::empty(),
    }
}

fn cpu_list_reading(t: &Option<String>) -> (r: Vec<usize>)
    ensures
        r@ == spec_cpu_list_reading(*t),
{
    match t {
        Some(s) => parse_cpu_list(s.as_str()),
        None => Vec::new(),
    }
}

impl SystemReport {
    /// Builds the report from the text of the kernel files. Every field is
    /// best-effort: a missing or malformed file gives 0 hugepages, no CPUs
    /// and a `perf_event_paranoid` of 3, the most restrictive value; a
    /// missing hugepage-mode file gives the mode `unknown`. Governors are
    /// kept with their text trimmed.
    pub fn from_readings(readings: &KernelReadings) -> (r: SystemReport)
        ensures
            r.nr_hugepages_2mb == spec_u64_reading(readings.nr_hugepages_2mb, 0),
            r.transparent_hugepages@ == spec_thp_reading(readings.transparent_hugepage_enabled),
            r.isolated_cpus@ == spec_cpu_list_reading(readings.isolated_cpus),
            r.nohz_full_cpus@ == spec_cpu_list_reading(readings.nohz_full_cpus),
            r.cpu_governors@.len() == readings.scaling_governors@.len(),
            forall|i: int|
                0 <= i < r.cpu_governors@.len() ==> (#[trigger] r.cpu_governors@[i]).0
                    == readings.scaling_governors@[i].0 && r.cpu_governors@[i].1@ == spec_trim(
                    readings.scaling_governors@[i].1@,
                ),
            r.perf_paranoid == spec_i32_reading(readings.perf_event_paranoid, 3),
    {
        let nr_hugepages_2mb: u64 = match &readings.nr_hugepages_2mb {
            Some(t) => match parse_sysfs_u64(t.as_str()) {
                Some(v) => v,
                None => 0,
            },
            None => 0,
        };
        let transparent_hugepages = match &readings.transparent_hugepage_enabled {
            Some(t) => selector_mode(t.as_str()),
            None => string_from_chars(chars_of("unknown").as_slice()),
        };
        let isolated_cpus = cpu_list_reading(&readings.isolated_cpus);
        let nohz_full_cpus = cpu_list_reading(&readings.nohz_full_cpus);
        let mut cpu_governors: Vec<(usize, String)> = Vec::new();
        let mut i: usize = 0;
        while i < readings.scaling_governors.len()
            invariant
                i <= readings.scaling_governors@.len(),
                cpu_governors@.len() == i,
                forall|k: int|
                    0 <= k < i ==> (#[trigger] cpu_governors@[k]).0
                        == readings.scaling_governors@[k].0 && cpu_governors@[k].1@ == spec_trim(
                        readings.scaling_governors@[k].1@,
                    ),
            decreases readings.scaling_governors@.len() - i,
        {
            let entry = &readings.scaling_governors[i];
            let cs = chars_of(entry.1.as_str());
            let gov = string_from_chars(trim(cs.as_slice()).as_slice());
            cpu_governors.push((entry.0, gov));
            i = i + 1;
        }
        let perf_paranoid: i32 = match &readings.perf_event_paranoid {
            Some(t) => {
                let cs = chars_of(t.as_str());
                match parse_i32(trim(cs.as_slice()).as_slice()) {
                    Some(v) => v,
                    None => 3,
                }
            },
            None => 3,
        };
        SystemReport {
            nr_hugepages_2mb,
            transparent_hugepages,
            isolated_cpus,
            nohz_full_cpus,
            cpu_governors,
            perf_paranoid,
        }
    }
}

} // verus!
