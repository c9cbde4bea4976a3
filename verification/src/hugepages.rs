use vstd::prelude::*;
use crate::text::{
    chars_of, decimal, parse_unsigned, push_all, push_str, spec_decimal, spec_parse_unsigned,
    spec_trim, string_from_chars, trim,
};

verus! {

/// Hugepage statistics for one page size.
#[derive(Debug, Clone, PartialEq, Eq)]
pub struct HugepageStatus {
    /// Page size in kilobytes (2048 for 2 MB pages).
    pub page_size_kb: u64,
    /// Total number of pre-allocated hugepages.
    pub total: u64,
    /// Number of hugepages not mapped into any process.
    pub free: u64,
    /// `total - free`, or 0 when more pages are free than allocated.
    pub used: u64,
}

/// `total - free`, saturating at 0.
pub open spec fn spec_used_pages(total: u64, free: u64) -> u64 {
    if free <= total {
        (total - free) as u64
    } else {
        0
    }
}

impl HugepageStatus {
    /// Whether `used` is what `total` and `free` give.
    pub open spec fn wf(&self) -> bool {
        self.used == spec_used_pages(self.total, self.free)
    }

    /// The status of `page_size_kb` pages of which `total` are allocated and
    /// `free` are free; `used` is `total - free`, saturating at 0.
    pub fn from_counts(page_size_kb: u64, total: u64, free: u64) -> (r: Self)
        ensures
            r.page_size_kb == page_size_kb,
            r.total == total,
            r.free == free,
            r.used == spec_used_pages(total, free),
            r.wf(),
    {
        HugepageStatus { page_size_kb, total, free, used: total.saturating_sub(free) }
    }
}

/// The sysfs directory describing hugepages of `page_size_kb` kilobytes.
pub open spec fn spec_hugepage_dir(page_size_kb: u64) -> Seq<char> {
    "/sys/kernel/mm/hugepages/hugepages-"@ + spec_decimal(page_size_kb as nat) + "kB"@
}

/// The sysfs directory describing hugepages of `page_size_kb` kilobytes,
/// such as `/sys/kernel/mm/hugepages/hugepages-2048kB`.
pub fn hugepage_dir(page_size_kb: u64) -> (r: String)
    ensures
        r@ == spec_hugepage_dir(page_size_kb),
{
    let mut out: Vec<char> = Vec::new();
    push_str(&mut out, "/sys/kernel/mm/hugepages/hugepages-");
    push_all(&mut out, decimal(page_size_kb).as_slice());
    push_str(&mut out, "kB");
    assert(out@ =~= spec_hugepage_dir(page_size_kb));
    string_from_chars(out.as_slice())
}

/// The value of a sysfs counter file: its text, trimmed, read as a `u64`.
pub open spec fn spec_sysfs_u64(text: Seq<char>) -> Option<int> {
    spec_parse_unsigned(spec_trim(text), u64::MAX as int)
}

/// Reads the text of a sysfs counter file as a `u64`, surrounding white
/// space ignored; `None` when it is not a number.
pub fn parse_sysfs_u64(text: &str) -> (r: Option<u64>)
    ensures
        match r {
            Some(v) => spec_sysfs_u64(text@) == Some(v as int),
            None => spec_sysfs_u64(text@) is None,
        },
{
    let cs = chars_of(text);
    let t = trim(cs.as_slice());
    parse_unsigned(t.as_slice(), u64::MAX)
}

} // verus!
