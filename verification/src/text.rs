use vstd::prelude::*;

verus! {

broadcast use vstd::string::group_string_axioms;

// ─── character classes and string building ──────────────────────────────────

/// Whether `c` has the Unicode `White_Space` property (`char::is_whitespace`):
/// tab, line feed, vertical tab, form feed, carriage return, space, NEL,
/// no-break space, ogham space mark, the spaces U+2000 to U+200A, line and
/// paragraph separators, narrow no-break space, medium mathematical space
/// and ideographic space.
pub open spec fn unicode_white_space(c: char) -> bool {
    let u = c as u32;
    ||| 0x09 <= u <= 0x0D
    ||| u == 0x20
    ||| u == 0x85
    ||| u == 0xA0
    ||| u == 0x1680
    ||| 0x2000 <= u <= 0x200A
    ||| u == 0x2028
    ||| u == 0x2029
    ||| u == 0x202F
    ||| u == 0x205F
    ||| u == 0x3000
}

/// Whether `c` has the Unicode `Alphabetic` property (`char::is_alphabetic`).
pub uninterp spec fn unicode_alphabetic(c: char) -> bool;

/// ASCII letters.
pub open spec fn ascii_alphabetic(c: char) -> bool {
    ('a' <= c && c <= 'z') || ('A' <= c && c <= 'Z')
}

/// Whether `c` is white space in the sense of `char::is_whitespace`: the
/// Unicode `White_Space` property, checked against its code points.
pub(crate) fn is_whitespace(c: char) -> (r: bool)
    ensures
        r == unicode_white_space(c),
{
    let u = c as u32;
    (0x09 <= u && u <= 0x0D) || u == 0x20 || u == 0x85 || u == 0xA0 || u == 0x1680 || (0x2000 <= u
        && u <= 0x200A) || u == 0x2028 || u == 0x2029 || u == 0x202F || u == 0x205F || u == 0x3000
}

/// `char::is_alphabetic`.
///
/// Trusted: the result is the Unicode `Alphabetic` property of `c`; for an
/// ASCII character that property holds exactly for the letters `a-z`, `A-Z`.
/// The non-ASCII table is left to the name `unicode_alphabetic`.
#[verifier::external_body]
pub(crate) fn is_alphabetic(c: char) -> (r: bool)
    ensures
        r == unicode_alphabetic(c),
        (c as u32) < 128 ==> (r <==> ascii_alphabetic(c)),
{
    c.is_alphabetic()
}

/// Collects characters into a `String` (`Iterator::collect::<String>`).
///
/// Trusted: the string holds exactly the given characters, in order.
#[verifier::external_body]
pub(crate) fn string_from_chars(chars: &[char]) -> (r: String)
    ensures
        r@ == chars@,
{
    chars.iter().collect()
}

/// The characters of `s`, in order.
pub fn chars_of(s: &str) -> (r: Vec<char>)
    ensures
        r@ == s@,
{
    let mut out: Vec<char> = Vec::new();
    for c in it: s.chars()
        invariant
            out@ == it.seq().take(it.index() as int),
    {
        out.push(c);
    }
    out
}

// ─── trimming ────────────────────────────────────────────────────────────────

/// `s` without its leading white space.
pub open spec fn spec_trim_start(s: Seq<char>) -> Seq<char>
    decreases s.len(),
{
    if s.len() > 0 && unicode_white_space(s[0]) {
        spec_trim_start(s.drop_first())
    } else {
        s
    }
}

/// `s` without its trailing white space.
pub open spec fn spec_trim_end(s: Seq<char>) -> Seq<char>
    decreases s.len(),
{
    if s.len() > 0 && unicode_white_space(s.last()) {
        spec_trim_end(s.drop_last())
    } else {
        s
    }
}

/// `s` without leading and trailing white space (`str::trim`).
pub open spec fn spec_trim(s: Seq<char>) -> Seq<char> {
    spec_trim_start(spec_trim_end(s))
}

proof fn lemma_trim_start_skip(s: Seq<char>, i: int)
    requires
        0 <= i <= s.len(),
        forall|j: int| 0 <= j < i ==> unicode_white_space(s[j]),
    ensures
        spec_trim_start(s) == spec_trim_start(s.skip(i)),
    decreases i,
{
    if i > 0 {
        assert(s.skip(1) =~= s.drop_first());
        lemma_trim_start_skip(s.drop_first(), i - 1);
        assert(s.drop_first().skip(i - 1) =~= s.skip(i));
    } else {
        assert(s.skip(0) =~= s);
    }
}

proof fn lemma_trim_end_take(s: Seq<char>, i: int)
    requires
        0 <= i <= s.len(),
        forall|j: int| i <= j < s.len() ==> unicode_white_space(s[j]),
    ensures
        spec_trim_end(s) == spec_trim_end(s.take(i)),
    decreases s.len() - i,
{
    if i < s.len() {
        lemma_trim_end_take(s.drop_last(), i);
        assert(s.drop_last().take(i) =~= s.take(i));
    } else {
        assert(s.take(i) =~= s);
    }
}

/// Trimming text made only of white space leaves nothing.
pub proof fn lemma_trim_blank(s: Seq<char>)
    requires
        forall|j: int| 0 <= j < s.len() ==> unicode_white_space(s[j]),
    ensures
        spec_trim(s).len() == 0,
{
    lemma_trim_end_take(s, 0);
    assert(s.take(0) =~= Seq::<char>::empty());
}

/// `s` with leading and trailing white space removed.
pub fn trim(s: &[char]) -> (r: Vec<char>)
    ensures
        r@ == spec_trim(s@),
{
    let mut hi: usize = s.len();
    while hi > 0 && is_whitespace(s[hi - 1])
        invariant
            hi <= s@.len(),
            forall|j: int| hi <= j < s@.len() ==> unicode_white_space(s@[j]),
        decreases hi,
    {
        hi = hi - 1;
    }
    proof {
        lemma_trim_end_take(s@, hi as int);
        assert(hi == 0 || !unicode_white_space(s@.take(hi as int).last()));
    }
    let mut lo: usize = 0;
    while lo < hi && is_whitespace(s[lo])
        invariant
            lo <= hi <= s@.len(),
            forall|j: int| 0 <= j < lo ==> unicode_white_space(s@[j]),
        decreases hi - lo,
    {
        lo = lo + 1;
    }
    let ghost t = s@.take(hi as int);
    proof {
        lemma_trim_start_skip(t, lo as int);
        assert(spec_trim_end(s@) == t);
    }
    let mut out: Vec<char> = Vec::new();
    let mut i: usize = lo;
    while i < hi
        invariant
            lo <= i <= hi <= s@.len(),
            out@ == s@.subrange(lo as int, i as int),
        decreases hi - i,
    {
        out.push(s[i]);
        assert(s@.subrange(lo as int, i + 1) =~= s@.subrange(lo as int, i as int).push(s@[i as int]));
        i = i + 1;
    }
    proof {
        let u = t.skip(lo as int);
        assert(out@ =~= u);
        assert(u.len() == 0 || !unicode_white_space(u[0]));
        assert(spec_trim_start(u) == u);
    }
    out
}

// ─── splitting ───────────────────────────────────────────────────────────────

/// The pieces of `s` between occurrences of `sep` (`str::split` on a char):
/// `n` separators give `n + 1` pieces, empty ones included.
pub open spec fn spec_split(s: Seq<char>, sep: char) -> Seq<Seq<char>>
    decreases s.len(),
{
    if s.len() == 0 {
        seq![Seq::<char>::empty()]
    } else {
        let p = spec_split(s.drop_last(), sep);
        if s.last() == sep {
            p.push(Seq::empty())
        } else {
            p.update(p.len() - 1, p.last().push(s.last()))
        }
    }
}

pub proof fn lemma_split_nonempty(s: Seq<char>, sep: char)
    ensures
        spec_split(s, sep).len() >= 1,
    decreases s.len(),
{
    if s.len() > 0 {
        lemma_split_nonempty(s.drop_last(), sep);
    }
}

/// The pieces of `s` between occurrences of `sep`.
pub fn split(s: &[char], sep: char) -> (r: Vec<Vec<char>>)
    ensures
        r@.len() == spec_split(s@, sep).len(),
        forall|i: int| 0 <= i < r@.len() ==> #[trigger] r@[i]@ == spec_split(s@, sep)[i],
{
    let mut out: Vec<Vec<char>> = Vec::new();
    let mut cur: Vec<char> = Vec::new();
    let mut i: usize = 0;
    while i < s.len()
        invariant
            i <= s@.len(),
            out@.len() + 1 == spec_split(s@.take(i as int), sep).len(),
            forall|k: int| 0 <= k < out@.len() ==> #[trigger] out@[k]@ == spec_split(s@.take(i as int), sep)[k],
            cur@ == spec_split(s@.take(i as int), sep).last(),
        decreases s@.len() - i,
    {
        proof {
            lemma_split_nonempty(s@.take(i as int), sep);
            assert(s@.take(i as int + 1).drop_last() =~= s@.take(i as int));
        }
        if s[i] == sep {
            out.push(cur);
            cur = Vec::new();
        } else {
            cur.push(s[i]);
        }
        i = i + 1;
    }
    out.push(cur);
    proof {
        assert(s@.take(s@.len() as int) =~= s@);
        lemma_split_nonempty(s@, sep);
    }
    out
}

/// Position of the first `c` in `s`, if any.
pub open spec fn spec_find(s: Seq<char>, c: char) -> Option<int> {
    if exists|i: int| 0 <= i < s.len() && s[i] == c {
        Some(choose|i: int| 0 <= i < s.len() && s[i] == c && forall|j: int| 0 <= j < i ==> s[j] != c)
    } else {
        None
    }
}

/// What a found position satisfies: it is in bounds, holds `c`, and no
/// earlier position does.
pub proof fn lemma_find_some(s: Seq<char>, c: char)
    ensures
        spec_find(s, c) matches Some(i) ==> (0 <= i < s.len() && s[i] == c && forall|j: int|
            0 <= j < i ==> s[j] != c),
        spec_find(s, c) is None ==> forall|j: int| 0 <= j < s.len() ==> s[j] != c,
{
    if exists|k: int| 0 <= k < s.len() && s[k] == c {
        let k = choose|k: int| 0 <= k < s.len() && s[k] == c;
        lemma_first_occurrence(s, c, k);
    }
}

proof fn lemma_first_occurrence(s: Seq<char>, c: char, k: int)
    requires
        0 <= k < s.len(),
        s[k] == c,
    ensures
        exists|i: int| 0 <= i < s.len() && s[i] == c && forall|j: int| 0 <= j < i ==> s[j] != c,
    decreases k,
{
    if exists|j: int| 0 <= j < k && s[j] == c {
        let j = choose|j: int| 0 <= j < k && s[j] == c;
        lemma_first_occurrence(s, c, j);
    } else {
        assert(forall|j: int| 0 <= j < k ==> s[j] != c);
    }
}

/// Position of the first `c` in `s`, if any.
pub fn find(s: &[char], c: char) -> (r: Option<usize>)
    ensures
        match r {
            Some(i) => spec_find(s@, c) == Some(i as int),
            None => spec_find(s@, c) is None,
        },
{
    let mut i: usize = 0;
    while i < s.len()
        invariant
            i <= s@.len(),
            forall|j: int| 0 <= j < i ==> s@[j] != c,
        decreases s@.len() - i,
    {
        if s[i] == c {
            proof {
                let k = choose|k: int| 0 <= k < s@.len() && s@[k] == c && forall|j: int| 0 <= j < k ==> s@[j] != c;
                assert(k == i) by {
                    if k < i {
                    } else if k > i {
                        assert(s@[i as int] != c);
                    }
                }
            }
            return Some(i);
        }
        i = i + 1;
    }
    None
}

/// `s[lo..hi]` as a vector.
pub fn slice_chars(s: &[char], lo: usize, hi: usize) -> (r: Vec<char>)
    requires
        lo <= hi <= s@.len(),
    ensures
        r@ == s@.subrange(lo as int, hi as int),
{
    let mut out: Vec<char> = Vec::new();
    let mut i: usize = lo;
    while i < hi
        invariant
            lo <= i <= hi <= s@.len(),
            out@ == s@.subrange(lo as int, i as int),
        decreases hi - i,
    {
        out.push(s[i]);
        assert(s@.subrange(lo as int, i + 1) =~= s@.subrange(lo as int, i as int).push(s@[i as int]));
        i = i + 1;
    }
    out
}

/// Whether `s` begins with `p`.
pub fn starts_with(s: &[char], p: &[char]) -> (r: bool)
    ensures
        r == (p@.len() <= s@.len() && s@.take(p@.len() as int) == p@),
{
    if p.len() > s.len() {
        return false;
    }
    let mut i: usize = 0;
    while i < p.len()
        invariant
            p@.len() <= s@.len(),
            i <= p@.len(),
            forall|j: int| 0 <= j < i ==> s@[j] == p@[j],
        decreases p@.len() - i,
    {
        if s[i] != p[i] {
            assert(s@.take(p@.len() as int)[i as int] != p@[i as int]);
            return false;
        }
        i = i + 1;
    }
    assert(s@.take(p@.len() as int) =~= p@);
    true
}

/// Whether `s` ends with `p`.
pub fn ends_with(s: &[char], p: &[char]) -> (r: bool)
    ensures
        r == (p@.len() <= s@.len() && s@.skip(s@.len() - p@.len()) == p@),
{
    if p.len() > s.len() {
        return false;
    }
    let off = s.len() - p.len();
    let mut i: usize = 0;
    while i < p.len()
        invariant
            off + p@.len() == s@.len(),
            s@.len() == s.len(),
            i <= p@.len(),
            forall|j: int| 0 <= j < i ==> s@[off + j] == p@[j],
        decreases p@.len() - i,
    {
        if s[off + i] != p[i] {
            assert(s@.skip(off as int)[i as int] != p@[i as int]);
            return false;
        }
        i = i + 1;
    }
    assert(s@.skip(off as int) =~= p@);
    true
}

// ─── decimal numbers ─────────────────────────────────────────────────────────

pub open spec fn is_digit(c: char) -> bool {
    '0' <= c && c <= '9'
}

pub open spec fn digit_value(c: char) -> int {
    (c as u32) - ('0' as u32)
}

/// Every character is a decimal digit.
pub open spec fn all_digits(s: Seq<char>) -> bool {
    forall|i: int| 0 <= i < s.len() ==> is_digit(#[trigger] s[i])
}

/// The value of a string of decimal digits.
pub open spec fn digits_value(s: Seq<char>) -> int
    decreases s.len(),
{
    if s.len() == 0 {
        0
    } else {
        digits_value(s.drop_last()) * 10 + digit_value(s.last())
    }
}

/// What `str::parse` gives for an unsigned integer type whose largest value
/// is `max`: an optional `+`, then one or more digits whose value is at most `max`.
pub open spec fn spec_parse_unsigned(s: Seq<char>, max: int) -> Option<int> {
    let d = if s.len() > 0 && s[0] == '+' { s.drop_first() } else { s };
    if d.len() > 0 && all_digits(d) && digits_value(d) <= max {
        Some(digits_value(d))
    } else {
        None
    }
}

pub(crate) proof fn lemma_digits_value_nonneg(s: Seq<char>)
    requires
        all_digits(s),
    ensures
        digits_value(s) >= 0,
    decreases s.len(),
{
    if s.len() > 0 {
        lemma_digits_value_nonneg(s.drop_last());
    }
}

/// Once the value of a prefix exceeds `max`, the value of every longer
/// digit string does too.
proof fn lemma_digits_value_grows(s: Seq<char>, i: int)
    requires
        all_digits(s),
        0 <= i <= s.len(),
    ensures
        digits_value(s.take(i)) <= digits_value(s),
    decreases s.len() - i,
{
    if i < s.len() {
        lemma_digits_value_grows(s.drop_last(), i);
        assert(s.drop_last().take(i) =~= s.take(i));
        lemma_digits_value_nonneg(s.drop_last());
    } else {
        assert(s.take(i) =~= s);
    }
}

/// Parses an unsigned decimal integer no larger than `max`, as `str::parse`
/// does for unsigned types.
pub fn parse_unsigned(s: &[char], max: u64) -> (r: Option<u64>)
    ensures
        match r {
            Some(v) => spec_parse_unsigned(s@, max as int) == Some(v as int),
            None => spec_parse_unsigned(s@, max as int) is None,
        },
{
    let start: usize = if s.len() > 0 && s[0] == '+' { 1 } else { 0 };
    let ghost d = if s@.len() > 0 && s@[0] == '+' { s@.drop_first() } else { s@ };
    assert(d =~= s@.skip(start as int));
    if start >= s.len() {
        return None;
    }
    let mut v: u64 = 0;
    let mut i: usize = start;
    while i < s.len()
        invariant
            start <= i <= s@.len(),
            d == s@.skip(start as int),
            d == (if s@.len() > 0 && s@[0] == '+' { s@.drop_first() } else { s@ }),
            all_digits(d.take(i - start)),
            v as int == digits_value(d.take(i - start)),
            v <= max,
        decreases s@.len() - i,
    {
        let c = s[i];
        assert(d.take(i - start + 1).drop_last() =~= d.take(i - start));
        if !('0' <= c && c <= '9') {
            assert(d[i - start] == c);
            assert(!is_digit(d[i - start]));
            return None;
        }
        let dv = (c as u32 - '0' as u32) as u64;
        if dv > max || v > (max - dv) / 10 {
            proof {
                if dv <= max {
                    assert(v * 10 + dv > max) by (nonlinear_arith)
                        requires
                            v > (max - dv) / 10,
                            dv <= max,
                    ;
                }
                assert(d[i - start] == c);
                assert(digits_value(d.take(i - start + 1)) > max);
                assert(all_digits(d.take(i - start + 1)));
                if all_digits(d) {
                    lemma_digits_value_grows(d, i - start + 1);
                }
            }
            return None;
        }
        assert(v * 10 + dv <= max) by (nonlinear_arith)
            requires
                v <= (max - dv) / 10,
                dv <= max,
        ;
        v = v * 10 + dv;
        i = i + 1;
    }
    assert(d.take(i - start) =~= d);
    Some(v)
}

/// The character of the decimal digit `k` (`k < 10`).
pub open spec fn digit_char(k: nat) -> char {
    ((48 + k) as u8) as char
}

/// Digits of `n` in base 10, most significant first, with no leading zero.
pub open spec fn spec_decimal(n: nat) -> Seq<char>
    decreases n,
{
    if n < 10 {
        seq![digit_char(n)]
    } else {
        spec_decimal(n / 10).push(digit_char(n % 10))
    }
}

/// `s` left-padded with `'0'` to at least `width` characters (`{:0width}`).
pub open spec fn spec_zero_pad(s: Seq<char>, width: nat) -> Seq<char> {
    if s.len() >= width {
        s
    } else {
        Seq::new((width - s.len()) as nat, |i: int| '0') + s
    }
}

/// The decimal digits of `n`.
pub fn decimal(n: u64) -> (r: Vec<char>)
    ensures
        r@ == spec_decimal(n as nat),
    decreases n,
{
    let d = (48u8 + (n % 10) as u8) as char;
    if n < 10 {
        let mut v: Vec<char> = Vec::new();
        v.push(d);
        v
    } else {
        let mut v = decimal(n / 10);
        v.push(d);
        v
    }
}

/// The decimal digits of `n`, left-padded with zeros to `width`.
pub fn zero_padded(n: u64, width: usize) -> (r: Vec<char>)
    ensures
        r@ == spec_zero_pad(spec_decimal(n as nat), width as nat),
{
    let digits = decimal(n);
    if digits.len() >= width {
        return digits;
    }
    let mut out: Vec<char> = Vec::new();
    let pad = width - digits.len();
    let mut i: usize = 0;
    while i < pad
        invariant
            i <= pad,
            out@ == Seq::new(i as nat, |k: int| '0'),
        decreases pad - i,
    {
        out.push('0');
        assert(out@ =~= Seq::new((i + 1) as nat, |k: int| '0'));
        i = i + 1;
    }
    let mut j: usize = 0;
    let ghost front = out@;
    while j < digits.len()
        invariant
            j <= digits@.len(),
            out@ == front + digits@.take(j as int),
        decreases digits@.len() - j,
    {
        out.push(digits[j]);
        assert(digits@.take(j as int + 1) =~= digits@.take(j as int).push(digits@[j as int]));
        j = j + 1;
    }
    assert(digits@.take(digits@.len() as int) =~= digits@);
    out
}

/// Appends the characters of `p` to `out`.
pub fn push_all(out: &mut Vec<char>, p: &[char])
    ensures
        final(out)@ == old(out)@ + p@,
{
    let mut i: usize = 0;
    let ghost start = out@;
    while i < p.len()
        invariant
            i <= p@.len(),
            out@ == start + p@.take(i as int),
        decreases p@.len() - i,
    {
        out.push(p[i]);
        assert(p@.take(i as int + 1) =~= p@.take(i as int).push(p@[i as int]));
        i = i + 1;
    }
    assert(p@.take(p@.len() as int) =~= p@);
}

/// Appends the characters of `s` to `out`.
pub fn push_str(out: &mut Vec<char>, s: &str)
    ensures
        final(out)@ == old(out)@ + s@,
{
    let cs = chars_of(s);
    push_all(out, cs.as_slice());
}

/// Whether `a` and `b` hold the same characters.
pub fn same_chars(a: &[char], b: &[char]) -> (r: bool)
    ensures
        r == (a@ == b@),
{
    if a.len() != b.len() {
        return false;
    }
    let mut i: usize = 0;
    while i < a.len()
        invariant
            i <= a@.len(),
            a@.len() == b@.len(),
            forall|j: int| 0 <= j < i ==> a@[j] == b@[j],
        decreases a@.len() - i,
    {
        if a[i] != b[i] {
            return false;
        }
        i = i + 1;
    }
    assert(a@ =~= b@);
    true
}

/// Decimal digits of a signed integer, with a leading `-` when negative.
pub open spec fn spec_signed_decimal(n: int) -> Seq<char> {
    if n < 0 {
        seq!['-'] + spec_decimal((-n) as nat)
    } else {
        spec_decimal(n as nat)
    }
}

/// The decimal text of `n`, as `{}` formats a signed integer.
pub fn signed_decimal(n: i64) -> (r: Vec<char>)
    ensures
        r@ == spec_signed_decimal(n as int),
{
    if n < 0 {
        let magnitude: u64 = if n == i64::MIN { 9223372036854775808u64 } else { (-n) as u64 };
        let mut out: Vec<char> = Vec::new();
        out.push('-');
        let digits = decimal(magnitude);
        push_all(&mut out, digits.as_slice());
        assert(out@ =~= seq!['-'] + spec_decimal((-n) as nat));
        out
    } else {
        decimal(n as u64)
    }
}

// ─── words ───────────────────────────────────────────────────────────────────

/// The maximal runs of non-white-space characters of `s`, in order
/// (`str::split_whitespace`).
pub open spec fn spec_words(s: Seq<char>) -> Seq<Seq<char>>
    decreases s.len(),
{
    if s.len() == 0 {
        Seq::empty()
    } else {
        let w = spec_words(s.drop_last());
        let c = s.last();
        if unicode_white_space(c) {
            w
        } else if s.len() >= 2 && !unicode_white_space(s[s.len() - 2]) {
            w.update(w.len() - 1, w.last().push(c))
        } else {
            w.push(seq![c])
        }
    }
}

/// The white-space separated words of `s`.
pub fn words(s: &[char]) -> (r: Vec<Vec<char>>)
    ensures
        r@.len() == spec_words(s@).len(),
        forall|i: int| 0 <= i < r@.len() ==> #[trigger] r@[i]@ == spec_words(s@)[i],
{
    let mut out: Vec<Vec<char>> = Vec::new();
    let mut cur: Vec<char> = Vec::new();
    let mut in_word = false;
    let mut i: usize = 0;
    while i < s.len()
        invariant
            i <= s@.len(),
            in_word == (i > 0 && !unicode_white_space(s@[i - 1])),
            in_word ==> out@.len() + 1 == spec_words(s@.take(i as int)).len()
                && cur@ == spec_words(s@.take(i as int)).last(),
            !in_word ==> out@.len() == spec_words(s@.take(i as int)).len() && cur@.len() == 0,
            forall|k: int| 0 <= k < out@.len() ==> #[trigger] out@[k]@ == spec_words(s@.take(i as int))[k],
        decreases s@.len() - i,
    {
        let ghost w = spec_words(s@.take(i as int));
        let c = s[i];
        assert(s@.take(i as int + 1).drop_last() =~= s@.take(i as int));
        assert(s@.take(i as int + 1).last() == c);
        if i > 0 {
            assert(s@.take(i as int + 1)[i - 1] == s@[i - 1]);
        }
        if is_whitespace(c) {
            if in_word {
                out.push(cur);
                cur = Vec::new();
            }
            in_word = false;
        } else {
            if in_word {
                cur.push(c);
                assert(cur@ == spec_words(s@.take(i as int + 1)).last());
            } else {
                cur.push(c);
                assert(cur@ =~= seq![c]);
            }
            in_word = true;
        }
        i = i + 1;
    }
    if in_word {
        out.push(cur);
    }
    assert(s@.take(s@.len() as int) =~= s@);
    out
}

// ─── signed numbers ──────────────────────────────────────────────────────────

/// What `str::parse` gives for a signed integer type ranging over
/// `min..=max`: an optional sign, then one or more digits whose value is in range.
pub open spec fn spec_parse_signed(s: Seq<char>, min: int, max: int) -> Option<int> {
    if s.len() > 0 && s[0] == '-' {
        let d = s.drop_first();
        if d.len() > 0 && all_digits(d) && digits_value(d) <= -min {
            Some(-digits_value(d))
        } else {
            None
        }
    } else {
        spec_parse_unsigned(s, max)
    }
}

/// Parses an `i32` as `str::parse::<i32>` does.
pub fn parse_i32(s: &[char]) -> (r: Option<i32>)
    ensures
        match r {
            Some(v) => spec_parse_signed(s@, i32::MIN as int, i32::MAX as int) == Some(v as int),
            None => spec_parse_signed(s@, i32::MIN as int, i32::MAX as int) is None,
        },
{
    if s.len() > 0 && s[0] == '-' {
        let d = slice_chars(s, 1, s.len());
        assert(d@ =~= s@.drop_first());
        if d.len() == 0 || d[0] == '+' {
            assert(d@.len() == 0 || !is_digit(d@[0]));
            return None;
        }
        match parse_unsigned(d.as_slice(), 2147483648u64) {
            Some(v) => Some((-(v as i64)) as i32),
            None => None,
        }
    } else {
        match parse_unsigned(s, 2147483647u64) {
            Some(v) => Some(v as i32),
            None => None,
        }
    }
}

} // verus!
