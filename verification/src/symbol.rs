use vstd::prelude::*;
use vstd::utf8::*;
use vstd::string::*;
use vstd::slice::slice_subrange;

verus! {

/// Width in bytes of an instrument identifier.
pub const SYMBOL_LEN: usize = 8;

/// Compact identifier of a financial instrument: 8 bytes, right-padded with `\0`.
///
/// Encoding rules: the UTF-8 bytes of the name are truncated to 8 bytes
/// (bytes, not characters) and padded on the right with zero bytes.
#[derive(Clone, Copy, Debug, Hash)]
pub struct SymbolId(pub [u8; 8]);

/// The 8 bytes that encode a name whose UTF-8 bytes are `src`.
pub open spec fn spec_encode_symbol(src: Seq<u8>) -> Seq<u8> {
    Seq::new(8, |i: int| if i < src.len() { src[i] } else { 0u8 })
}

/// Index of the first zero byte of `b` at or after `i`, or `b.len()` if none.
pub open spec fn first_zero_from(b: Seq<u8>, i: int) -> int
    decreases b.len() - i,
{
    if i >= b.len() || i < 0 {
        b.len() as int
    } else if b[i] == 0 {
        i
    } else {
        first_zero_from(b, i + 1)
    }
}

/// The bytes of a symbol before its zero padding.
pub open spec fn symbol_text_bytes(b: Seq<u8>) -> Seq<u8> {
    b.take(first_zero_from(b, 0))
}

/// The text of a symbol: its unpadded bytes decoded as UTF-8, or the empty
/// text when they are not valid UTF-8.
pub open spec fn symbol_text(b: Seq<u8>) -> Seq<char> {
    let t = symbol_text_bytes(b);
    if valid_utf8(t) {
        decode_utf8(t)
    } else {
        Seq::empty()
    }
}

pub proof fn lemma_first_zero_from_bounds(b: Seq<u8>, i: int)
    requires
        0 <= i <= b.len(),
    ensures
        i <= first_zero_from(b, i) <= b.len(),
        forall|j: int| i <= j < first_zero_from(b, i) ==> b[j] != 0,
        first_zero_from(b, i) < b.len() ==> b[first_zero_from(b, i)] == 0,
    decreases b.len() - i,
{
    if i < b.len() && b[i] != 0 {
        lemma_first_zero_from_bounds(b, i + 1);
    }
}

/// Decodes `bytes` as UTF-8 with `std::str::from_utf8`.
///
/// Trusted: `from_utf8` succeeds exactly when the bytes are valid UTF-8, and
/// the string it returns is made of the decoded characters.
#[verifier::external_body]
fn utf8_str(bytes: &[u8]) -> (r: Option<&str>)
    ensures
        r is Some <==> valid_utf8(bytes@),
        r matches Some(s) ==> s@ == decode_utf8(bytes@),
{
    match std::str::from_utf8(bytes) {
        Ok(s) => Some(s),
        Err(_) => None,
    }
}

impl SymbolId {
    /// Builds a `SymbolId` directly from its raw bytes.
    pub fn from_raw(bytes: [u8; 8]) -> (r: SymbolId)
        ensures
            r.0 == bytes,
    {
        SymbolId(bytes)
    }

    /// The raw 8 bytes.
    pub fn as_bytes(&self) -> (r: &[u8; 8])
        ensures
            *r == self.0,
    {
        &self.0
    }

    /// The name with its zero padding stripped; `""` when the bytes before the
    /// first zero are not valid UTF-8.
    pub fn as_str(&self) -> (r: &str)
        ensures
            r@ == symbol_text(self.0@),
    {
        let mut end: usize = 0;
        while end < SYMBOL_LEN && self.0[end] != 0
            invariant
                end <= 8,
                forall|j: int| 0 <= j < end ==> self.0@[j] != 0,
            decreases 8 - end,
        {
            end = end + 1;
        }
        proof {
            lemma_first_zero_from_bounds(self.0@, 0);
            assert(first_zero_from(self.0@, 0) == end as int);
        }
        let text = slice_subrange(self.0.as_slice(), 0, end);
        assert(text@ =~= symbol_text_bytes(self.0@));
        match utf8_str(text) {
            Some(s) => s,
            None => {
                proof {
                    reveal_strlit("");
                }
                ""
            },
        }
    }

    /// Encodes the UTF-8 bytes `src` of a name, truncated to 8 bytes and
    /// padded with zeros.
    pub fn from_utf8_bytes(src: &[u8]) -> (r: SymbolId)
        ensures
            r.0@ == spec_encode_symbol(src@),
    {
        let mut bytes = [0u8; 8];
        let len: usize = if src.len() < SYMBOL_LEN { src.len() } else { SYMBOL_LEN };
        let mut i: usize = 0;
        while i < len
            invariant
                len <= 8,
                len <= src@.len(),
                len == src@.len() || len == 8,
                i <= len,
                forall|j: int| 0 <= j < i ==> bytes@[j] == src@[j],
                forall|j: int| i <= j < 8 ==> bytes@[j] == 0u8,
            decreases len - i,
        {
            bytes[i] = src[i];
            i = i + 1;
        }
        assert(bytes@ =~= spec_encode_symbol(src@));
        SymbolId(bytes)
    }
}

impl<'a> From<&'a str> for SymbolId {
    /// Encodes a name: truncated silently to 8 bytes, padded with `\0`.
    fn from(s: &'a str) -> (r: SymbolId)
        ensures
            r.0@ == spec_encode_symbol(s.spec_bytes()),
    {
        let r = SymbolId::from_utf8_bytes(s.as_bytes());
        proof {
            lemma_symbol_eq(r, spec_symbol_from_str(s));
        }
        r
    }
}

impl<'a> vstd::std_specs::convert::FromSpecImpl<&'a str> for SymbolId {
    open spec fn obeys_from_spec() -> bool {
        true
    }

    open spec fn from_spec(v: &'a str) -> SymbolId {
        spec_symbol_from_str(v)
    }
}

/// The identifier that encodes the name `v`.
pub open spec fn spec_symbol_from_str(v: &str) -> SymbolId {
    choose|id: SymbolId| id.0@ == spec_encode_symbol(v.spec_bytes())
}

/// Two identifiers are equal exactly when their bytes are.
pub proof fn lemma_symbol_eq(a: SymbolId, b: SymbolId)
    ensures
        (a.0@ == b.0@) <==> (a == b),
{
    if a.0@ == b.0@ {
        assert(a.0 =~= b.0);
    }
}

impl PartialEq for SymbolId {
    fn eq(&self, other: &SymbolId) -> (r: bool) {
        let mut i: usize = 0;
        while i < SYMBOL_LEN
            invariant
                i <= 8,
                forall|j: int| 0 <= j < i ==> self.0@[j] == other.0@[j],
            decreases 8 - i,
        {
            if self.0[i] != other.0[i] {
                proof {
                    lemma_symbol_eq(*self, *other);
                }
                return false;
            }
            i = i + 1;
        }
        proof {
            assert(self.0@ =~= other.0@);
            lemma_symbol_eq(*self, *other);
        }
        true
    }
}

impl vstd::std_specs::cmp::PartialEqSpecImpl for SymbolId {
    open spec fn obeys_eq_spec() -> bool {
        true
    }

    open spec fn eq_spec(&self, other: &SymbolId) -> bool {
        *self == *other
    }
}

impl Eq for SymbolId {}

proof fn lemma_first_zero_of_encoding(b: Seq<u8>, i: int)
    requires
        b.len() <= SYMBOL_LEN,
        forall|j: int| 0 <= j < b.len() ==> b[j] != 0,
        0 <= i <= b.len(),
    ensures
        first_zero_from(spec_encode_symbol(b), i) == b.len(),
    decreases b.len() - i,
{
    if i < b.len() {
        lemma_first_zero_of_encoding(b, i + 1);
    }
}

/// A name of at most 8 UTF-8 bytes, none of them zero, is given back whole
/// by `as_str` after `from`: the padding is stripped and the bytes decode
/// to the same characters.
pub proof fn lemma_symbol_roundtrip(name: Seq<char>)
    requires
        encode_utf8(name).len() <= SYMBOL_LEN,
        forall|i: int| 0 <= i < encode_utf8(name).len() ==> encode_utf8(name)[i] != 0,
    ensures
        symbol_text(spec_encode_symbol(encode_utf8(name))) == name,
{
    let b = encode_utf8(name);
    let e = spec_encode_symbol(b);
    lemma_first_zero_of_encoding(b, 0);
    assert(symbol_text_bytes(e) =~= b);
    encode_utf8_valid_utf8(name);
    encode_utf8_decode_utf8(name);
}

} // verus!
