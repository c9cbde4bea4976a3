use vstd::prelude::*;
use vstd::utf8::encode_utf8;
use crate::symbol::{spec_encode_symbol, SymbolId};
use crate::text::{
    chars_of, is_alphabetic, lemma_split_nonempty, parse_unsigned, spec_parse_unsigned, spec_split,
    spec_trim, split, string_from_chars, trim, unicode_alphabetic,
};

verus! {

// ─── symbol of a Binance file name ───────────────────────────────────────────

/// What `Path::file_stem` gives for the path `path`: the final component
/// without its extension, or `None` when the path has no file name.
pub uninterp spec fn path_file_stem(path: Seq<char>) -> Option<Seq<char>>;

/// `std::path::Path::file_stem` on a UTF-8 path.
///
/// Trusted: the result is `path_file_stem` of the path's characters. The
/// stem of a UTF-8 path is UTF-8, so the conversion back to a string loses
/// nothing. What the stem is (component parsing, the extension rule) is
/// left to the name.
#[verifier::external_body]
fn file_stem(path: &str) -> (r: Option<String>)
    ensures
        match r {
            Some(s) => path_file_stem(path@) == Some(s@),
            None => path_file_stem(path@) is None,
        },
{
    match std::path::Path::new(path).file_stem() {
        Some(stem) => Some(stem.to_string_lossy().into_owned()),
        None => None,
    }
}

/// The instrument name a Binance stem begins with: the text before the
/// first `-` (`BTCUSDT` for `BTCUSDT-trades-2024-01`).
pub open spec fn spec_stem_symbol_name(stem: Seq<char>) -> Seq<char> {
    spec_split(stem, '-')[0]
}

/// The identifier named by a Binance file stem, `None` when the name
/// before the first `-` is empty.
pub open spec fn spec_symbol_from_stem(stem: Seq<char>) -> Option<Seq<u8>> {
    let name = spec_stem_symbol_name(stem);
    if name.len() == 0 {
        None
    } else {
        Some(spec_encode_symbol(encode_utf8(name)))
    }
}

/// The identifier named by a Binance file stem such as
/// `BTCUSDT-trades-2024-01`: the text before the first `-`, encoded as a
/// `SymbolId` (truncated to 8 bytes); `None` when that text is empty.
pub fn symbol_from_stem(stem: &str) -> (r: Option<SymbolId>)
    ensures
        match r {
            Some(id) => spec_symbol_from_stem(stem@) == Some(id.0@),
            None => spec_symbol_from_stem(stem@) is None,
        },
{
    let cs = chars_of(stem);
    let pieces = split(cs.as_slice(), '-');
    proof {
        lemma_split_nonempty(stem@, '-');
    }
    let name = &pieces[0];
    if name.len() == 0 {
        return None;
    }
    let text = string_from_chars(name.as_slice());
    let id = SymbolId::from(text.as_str());
    Some(id)
}

/// The identifier a Binance trade file is named after:
/// `BTCUSDT-trades-2024-01.csv` gives `BTCUSDT`. `None` when the path has
/// no file name or its stem starts with `-`.
pub fn symbol_from_filename(path: &str) -> (r: Option<SymbolId>)
    ensures
        match path_file_stem(path@) {
            Some(stem) => match r {
                Some(id) => spec_symbol_from_stem(stem) == Some(id.0@),
                None => spec_symbol_from_stem(stem) is None,
            },
            None => r is None,
        },
{
    match file_stem(path) {
        Some(stem) => symbol_from_stem(stem.as_str()),
        None => None,
    }
}

// ─── lines of a trade CSV ────────────────────────────────────────────────────

/// Whether a line of a trade CSV holds data: once trimmed it is not empty
/// and does not start with a letter (which marks the header, or any other
/// text line, as ignored).
pub open spec fn spec_is_data_line(line: Seq<char>) -> bool {
    let t = spec_trim(line);
    t.len() > 0 && !unicode_alphabetic(t[0])
}

/// Whether a line of a trade CSV holds data (see `spec_is_data_line`).
pub fn is_data_line(line: &str) -> (r: bool)
    ensures
        r == spec_is_data_line(line@),
{
    let cs = chars_of(line);
    let t = trim(cs.as_slice());
    t.len() > 0 && !is_alphabetic(t[0])
}

/// The fields of a trade line that the store keeps: price and quantity as
/// trimmed text (read as floating-point numbers by the caller), and the
/// trade time converted to nanoseconds.
pub struct TradeFields {
    pub price: String,
    pub volume: String,
    pub timestamp_ns: u64,
}

/// Nanoseconds per millisecond.
pub const NANOS_PER_MILLI: u64 = 1_000_000;

/// The time of a trade line in nanoseconds: the fifth field, trimmed, read
/// as a number of milliseconds; `None` when it is missing, is not a `u64`,
/// or its value in nanoseconds does not fit a `u64`.
pub open spec fn spec_trade_time_ns(line: Seq<char>) -> Option<int> {
    let f = spec_split(line, ',');
    if f.len() < 5 {
        None
    } else {
        match spec_parse_unsigned(spec_trim(f[4]), u64::MAX as int) {
            Some(ms) => if ms * NANOS_PER_MILLI <= u64::MAX {
                Some(ms * NANOS_PER_MILLI)
            } else {
                None
            },
            None => None,
        }
    }
}

/// Splits a trade line `id,price,qty,quoteQty,time,isBuyerMaker,isBestMatch`
/// into the fields the store keeps. `None` when there are fewer than five
/// fields or the time is not a millisecond count whose nanosecond value
/// fits a `u64`.
pub fn parse_trade_fields(line: &str) -> (r: Option<TradeFields>)
    ensures
        match r {
            Some(t) => {
                let f = spec_split(line@, ',');
                &&& f.len() >= 5
                &&& t.price@ == spec_trim(f[1])
                &&& t.volume@ == spec_trim(f[2])
                &&& spec_trade_time_ns(line@) == Some(t.timestamp_ns as int)
            },
            None => spec_trade_time_ns(line@) is None,
        },
{
    let cs = chars_of(line);
    let fields = split(cs.as_slice(), ',');
    if fields.len() < 5 {
        return None;
    }
    let time_text = trim(fields[4].as_slice());
    let ms = match parse_unsigned(time_text.as_slice(), u64::MAX) {
        Some(v) => v,
        None => {
            return None;
        },
    };
    let timestamp_ns = match ms.checked_mul(NANOS_PER_MILLI) {
        Some(v) => v,
        None => {
            return None;
        },
    };
    let price = string_from_chars(trim(fields[1].as_slice()).as_slice());
    let volume = string_from_chars(trim(fields[2].as_slice()).as_slice());
    Some(TradeFields { price, volume, timestamp_ns })
}

} // verus!
