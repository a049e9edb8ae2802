//! What a lookup means, stated over the plain sequence of stored values.
//!
//! The values that can be found are those of the full blocks: consecutive
//! runs of 128 values, in the order in which they were added.

use vstd::prelude::*;

verus! {

/// No value is smaller than one before it.
pub open spec fn sorted(s: Seq<u32>) -> bool {
    forall|i: int, j: int| 0 <= i <= j < s.len() ==> s[i] <= s[j]
}

/// Every value is greater than the one before it.
pub open spec fn strictly_sorted(s: Seq<u32>) -> bool {
    forall|i: int, j: int| 0 <= i < j < s.len() ==> s[i] < s[j]
}

/// Number of full blocks among `n` values.
pub open spec fn full_blocks(n: nat) -> nat {
    n / 128
}

/// The values of the full blocks: the longest prefix whose length is a
/// multiple of 128.
pub open spec fn full_prefix(s: Seq<u32>) -> Seq<u32> {
    s.take(128 * (full_blocks(s.len()) as int))
}

/// The values that wait for their block to fill: what follows the full
/// blocks, fewer than 128.
pub open spec fn pending_suffix(s: Seq<u32>) -> Seq<u32> {
    s.skip(128 * (full_blocks(s.len()) as int))
}

/// The first value of block `k`.
pub open spec fn block_base(s: Seq<u32>, k: int) -> u32 {
    s[128 * k]
}

/// The 128 values of block `k`.
pub open spec fn block_of(s: Seq<u32>, k: int) -> Seq<u32> {
    s.subrange(128 * k, 128 * k + 128)
}

/// What the search for a block may return: the last block whose base is at
/// most `value`, or nothing where every base is greater.
pub open spec fn block_outcome(s: Seq<u32>, value: u32, found: Option<usize>) -> bool {
    match found {
        Some(k) => {
            &&& k < full_blocks(s.len())
            &&& block_base(s, k as int) <= value
            &&& forall|j: int| k < j < full_blocks(s.len()) ==> block_base(s, j) > value
        },
        None => forall|j: int| 0 <= j < full_blocks(s.len()) ==> block_base(s, j) > value,
    }
}

/// What the scan of block `k` may return: the position, counted over all
/// values, of the first value of the block equal to `value`, or nothing
/// where the block holds no such value.
pub open spec fn scan_outcome(s: Seq<u32>, value: u32, k: int, found: Option<usize>) -> bool {
    match found {
        Some(p) => {
            &&& 128 * k <= p < 128 * k + 128
            &&& s[p as int] == value
            &&& forall|q: int| 128 * k <= q < p ==> s[q] != value
        },
        None => forall|q: int| 128 * k <= q < 128 * k + 128 ==> s[q] != value,
    }
}

/// `p` is where a lookup of `value` lands: the first occurrence of `value`
/// within the last full block that holds it.
pub open spec fn found_at(s: Seq<u32>, value: u32, p: int) -> bool {
    let full = full_prefix(s);
    &&& 0 <= p < full.len()
    &&& full[p] == value
    &&& forall|q: int| p - p % 128 <= q < p ==> full[q] != value
    &&& forall|q: int| p - p % 128 + 128 <= q < full.len() ==> full[q] != value
}

/// What a lookup may return: the position where it lands, or nothing where
/// no full block holds `value`.
pub open spec fn find_outcome(s: Seq<u32>, value: u32, found: Option<usize>) -> bool {
    match found {
        Some(p) => found_at(s, value, p as int),
        None => !full_prefix(s).contains(value),
    }
}

/// In a sorted sequence no value is below the base of its block.
pub proof fn lemma_at_or_above_base(s: Seq<u32>, q: int)
    requires
        sorted(s),
        0 <= q < s.len(),
    ensures
        block_base(s, q / 128) <= s[q],
{
}

/// The full blocks are a prefix: same values at the same positions.
pub proof fn lemma_full_prefix(s: Seq<u32>)
    ensures
        full_prefix(s).len() == 128 * full_blocks(s.len()),
        full_prefix(s).len() <= s.len(),
        forall|q: int| 0 <= q < full_prefix(s).len() ==> #[trigger] full_prefix(s)[q] == s[q],
{
}

/// A value is in no block whose base is greater than it.
proof fn lemma_beyond_candidates(s: Seq<u32>, value: u32, from: int, q: int)
    requires
        sorted(s),
        0 <= from,
        forall|j: int| from <= j < full_blocks(s.len()) ==> block_base(s, j) > value,
        128 * from <= q < 128 * full_blocks(s.len()),
    ensures
        s[q] != value,
{
    lemma_at_or_above_base(s, q);
}

/// In a sorted sequence, searching for the block and then scanning it is a
/// lookup: where no block is a candidate the value is in no full block, and
/// where one is, the scan of that block decides.
pub proof fn lemma_lookup_by_parts(
    s: Seq<u32>,
    value: u32,
    block: Option<usize>,
    found: Option<usize>,
)
    requires
        sorted(s),
        block_outcome(s, value, block),
        match block {
            Some(k) => scan_outcome(s, value, k as int, found),
            None => found is None,
        },
    ensures
        find_outcome(s, value, found),
{
    let full = full_prefix(s);
    match block {
        None => {
            assert forall|q: int| 0 <= q < full.len() implies full[q] != value by {
                lemma_beyond_candidates(s, value, 0, q);
            }
        },
        Some(k) => {
            assert forall|q: int| 128 * k + 128 <= q < full.len() implies full[q] != value by {
                lemma_beyond_candidates(s, value, k + 1, q);
            }
        },
    }
}

/// The search for a block has one outcome.
pub proof fn lemma_block_unique(s: Seq<u32>, value: u32, a: Option<usize>, b: Option<usize>)
    requires
        block_outcome(s, value, a),
        block_outcome(s, value, b),
    ensures
        a == b,
{
}

/// The scan of a block has one outcome.
pub proof fn lemma_scan_unique(s: Seq<u32>, value: u32, k: int, a: Option<usize>, b: Option<usize>)
    requires
        scan_outcome(s, value, k, a),
        scan_outcome(s, value, k, b),
    ensures
        a == b,
{
}

/// A lookup has one outcome: two lookups of one value in the same values
/// give the same answer.
pub proof fn lemma_lookup_unique(s: Seq<u32>, value: u32, a: Option<usize>, b: Option<usize>)
    requires
        find_outcome(s, value, a),
        find_outcome(s, value, b),
    ensures
        a == b,
{
}

/// A lookup finds exactly the values of the full blocks.
pub proof fn lemma_lookup_finds(s: Seq<u32>, value: u32, found: Option<usize>)
    requires
        find_outcome(s, value, found),
    ensures
        found is Some <==> full_prefix(s).contains(value),
        found matches Some(p) ==> p < full_prefix(s).len() && s[p as int] == value,
{
}

/// Where every value is greater than the one before it, a lookup of a value
/// of a full block returns the position at which the value was added.
pub proof fn lemma_lookup_position(s: Seq<u32>, value: u32, p: int, found: Option<usize>)
    requires
        strictly_sorted(s),
        0 <= p < full_prefix(s).len(),
        s[p] == value,
        find_outcome(s, value, found),
    ensures
        found == Some(p as usize),
{
    assert(full_prefix(s)[p] == value);
}

/// A value below the first value of a sorted store is not found.
pub proof fn lemma_lookup_below_first(s: Seq<u32>, value: u32, found: Option<usize>)
    requires
        sorted(s),
        s.len() > 0,
        value < s[0],
        find_outcome(s, value, found),
    ensures
        found is None,
{
}

/// With fewer than 128 values there is no full block, and nothing is found.
pub proof fn lemma_lookup_without_block(s: Seq<u32>, value: u32, found: Option<usize>)
    requires
        s.len() < 128,
        find_outcome(s, value, found),
    ensures
        found is None,
{
}

/// Where every value is greater than the one before it, a value that waits
/// for its block to fill is not found.
pub proof fn lemma_lookup_skips_pending(s: Seq<u32>, value: u32, p: int, found: Option<usize>)
    requires
        strictly_sorted(s),
        full_prefix(s).len() <= p < s.len(),
        s[p] == value,
        find_outcome(s, value, found),
    ensures
        found is None,
{
}

} // verus!
