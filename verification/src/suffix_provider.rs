use vstd::prelude::*;

verus! {

/// Suffix order of the byte sequence `s`: the start positions of all suffixes
/// of `s`, listed so that the suffixes are in ascending lexicographic order.
pub uninterp spec fn suffix_order_of(s: Seq<u8>) -> Seq<u32>;

/// LCP array aligned to `suffix_order_of(s)`: entry `r >= 1` is the length of
/// the longest common prefix of the suffixes ranked `r - 1` and `r`; entry 0
/// is 0 by convention.
pub uninterp spec fn lcp_lens_of(s: Seq<u8>) -> Seq<u32>;

/// Relies on `suffix::SuffixTable`: `table()` is the suffix array of the
/// text's bytes (one start position per byte, each below the text length) and
/// `lcp_lens()` is the LCP array aligned to it, with first entry 0. Relies on
/// `String::from_utf8` succeeding on every all-ASCII input; the provider
/// reports nothing for byte sequences that are not valid UTF-8.
#[verifier::external_body]
pub(crate) fn suffix_and_lcp(bytes: &Vec<u8>) -> (r: Option<(Vec<u32>, Vec<u32>)>)
    requires
        bytes@.len() <= u32::MAX,
    ensures
        (forall|i: int| 0 <= i < bytes@.len() ==> bytes@[i] < 128) ==> r is Some,
        r matches Some(sl) ==> {
            &&& sl.0@ == suffix_order_of(bytes@)
            &&& sl.1@ == lcp_lens_of(bytes@)
            &&& sl.0@.len() == bytes@.len()
            &&& sl.1@.len() == bytes@.len()
            &&& (forall|j: int| 0 <= j < sl.0@.len() ==> (sl.0@[j] as int) < bytes@.len())
            &&& (bytes@.len() > 0 ==> sl.1@[0] == 0)
        },
{
    let text = match String::from_utf8(bytes.clone()) {
        Ok(t) => t,
        Err(_) => return None,
    };
    let table = suffix::SuffixTable::new(text);
    let order = table.table().to_vec();
    let lcp = table.lcp_lens();
    Some((order, lcp))
}

} // verus!
