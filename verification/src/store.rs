//! The block store: an append buffer, the packed bytes of every full block
//! back-to-back, and one metadata entry per block.

use crate::codec::{
    at_or_above, is_least_width, offsets, packed, packed_len, unpacked, BlockCodec, BLOCK_LEN,
};
use crate::index::{
    block_base, block_of, block_outcome, find_outcome, full_blocks, full_prefix,
    lemma_lookup_by_parts, pending_suffix, scan_outcome, sorted,
};
use vstd::prelude::*;

verus! {

/// What is kept of a packed block.
struct StorageBlock {
    /// The first value of the block, from which the others are measured.
    initial: u32,
    /// Where the block's bytes start in the packed region.
    start: usize,
    /// The width at which the block was packed.
    bits: u8,
}

/// A value that was refused because it is smaller than the last value of
/// the store.
#[derive(Clone, Copy, Debug, PartialEq, Eq, Structural)]
pub struct OutOfOrder {
    /// The last value of the store.
    pub last: u32,
    /// The value that was refused.
    pub value: u32,
}

/// Values in the order in which they were added. Full blocks of 128 are
/// held packed; the values after the last full block wait in a buffer.
pub struct CompressedStorage {
    codec: BlockCodec,
    blocks: Vec<StorageBlock>,
    compressed: Vec<u8>,
    buffer: Vec<u32>,
}

/// Total number of packed bytes of the given blocks.
#[verifier::opaque]
spec fn region_len(blocks: Seq<StorageBlock>) -> nat
    decreases blocks.len(),
{
    if blocks.len() == 0 {
        0
    } else {
        region_len(blocks.drop_last()) + packed_len(blocks.last().bits)
    }
}

/// The bytes of block `k` within the packed region.
spec fn block_bytes(blocks: Seq<StorageBlock>, region: Seq<u8>, k: int) -> Seq<u8> {
    region.subrange(blocks[k].start as int, blocks[k].start + packed_len(blocks[k].bits))
}

/// The values that block `k` unpacks to.
spec fn block_values(blocks: Seq<StorageBlock>, region: Seq<u8>, k: int) -> Seq<u32> {
    unpacked(blocks[k].initial, block_bytes(blocks, region, k), blocks[k].bits)
}

/// The values of all packed blocks, in order.
#[verifier::opaque]
spec fn committed(blocks: Seq<StorageBlock>, region: Seq<u8>) -> Seq<u32> {
    Seq::new(128 * blocks.len(), |p: int| block_values(blocks, region, p / 128)[p % 128])
}

/// The region is the packed blocks back-to-back. Each block starts with its
/// base, was packed at the least width that holds the distance of each of
/// its values from that base, and its bytes are those values packed.
spec fn layout_ok(blocks: Seq<StorageBlock>, region: Seq<u8>) -> bool {
    &&& region.len() == region_len(blocks)
    &&& forall|k: int|
        0 <= k < blocks.len() ==> {
            &&& (#[trigger] blocks[k]).bits <= 32
            &&& blocks[k].start == region_len(blocks.take(k))
            &&& blocks[k].start + packed_len(blocks[k].bits) <= region.len()
            &&& block_values(blocks, region, k)[0] == blocks[k].initial
            &&& at_or_above(blocks[k].initial, block_values(blocks, region, k))
            &&& is_least_width(
                offsets(blocks[k].initial, block_values(blocks, region, k)),
                blocks[k].bits as nat,
            )
            &&& block_bytes(blocks, region, k) == packed(
                blocks[k].initial,
                block_values(blocks, region, k),
                blocks[k].bits,
            )
        }
}

/// The packed values are 128 for each block.
proof fn lemma_committed_len(blocks: Seq<StorageBlock>, region: Seq<u8>)
    ensures
        committed(blocks, region).len() == 128 * blocks.len(),
{
    reveal(committed);
}

/// Block `k` of the packed values is what block `k` unpacks to.
proof fn lemma_committed_block(blocks: Seq<StorageBlock>, region: Seq<u8>, k: int)
    requires
        0 <= k < blocks.len(),
    ensures
        committed(blocks, region).len() == 128 * blocks.len(),
        block_of(committed(blocks, region), k) == block_values(blocks, region, k),
        block_base(committed(blocks, region), k) == block_values(blocks, region, k)[0],
{
    reveal(committed);
}

/// Packing one more block after the others keeps the layout, and adds the
/// values that the block unpacks to after those of the earlier blocks.
proof fn lemma_commit(
    blocks: Seq<StorageBlock>,
    region: Seq<u8>,
    block: StorageBlock,
    bytes: Seq<u8>,
    values: Seq<u32>,
)
    requires
        layout_ok(blocks, region),
        block.start == region.len(),
        block.bits <= 32,
        bytes.len() == packed_len(block.bits),
        values.len() == 128,
        values[0] == block.initial,
        at_or_above(block.initial, values),
        is_least_width(offsets(block.initial, values), block.bits as nat),
        bytes == packed(block.initial, values, block.bits),
        unpacked(block.initial, bytes, block.bits) == values,
    ensures
        layout_ok(blocks.push(block), region + bytes),
        committed(blocks.push(block), region + bytes) == committed(blocks, region) + values,
{
    let n = blocks.len() as int;
    let blocks2 = blocks.push(block);
    let region2 = region + bytes;
    assert(blocks2.drop_last() =~= blocks);
    assert(region_len(blocks2) == region_len(blocks) + packed_len(block.bits)) by {
        reveal(region_len);
    }
    assert forall|k: int| 0 <= k < n implies block_bytes(blocks2, region2, k) == block_bytes(
        blocks,
        region,
        k,
    ) && block_values(blocks2, region2, k) == block_values(blocks, region, k) by {}
    assert(block_bytes(blocks2, region2, n) =~= bytes);
    assert forall|k: int| 0 <= k < blocks2.len() implies {
        &&& (#[trigger] blocks2[k]).bits <= 32
        &&& blocks2[k].start == region_len(blocks2.take(k))
        &&& blocks2[k].start + packed_len(blocks2[k].bits) <= region2.len()
        &&& block_values(blocks2, region2, k)[0] == blocks2[k].initial
        &&& at_or_above(blocks2[k].initial, block_values(blocks2, region2, k))
        &&& is_least_width(
            offsets(blocks2[k].initial, block_values(blocks2, region2, k)),
            blocks2[k].bits as nat,
        )
        &&& block_bytes(blocks2, region2, k) == packed(
            blocks2[k].initial,
            block_values(blocks2, region2, k),
            blocks2[k].bits,
        )
    } by {
        if k < n {
            assert(blocks2.take(k) =~= blocks.take(k));
        }
    }
    assert(committed(blocks2, region2) =~= committed(blocks, region) + values) by {
        reveal(committed);
    }
}

impl CompressedStorage {
    /// With fewer than 128 values waiting, the full blocks of the view are
    /// the packed blocks.
    proof fn lemma_view_split(&self)
        requires
            self.buffer@.len() < 128,
        ensures
            self@.len() == 128 * self.blocks@.len() + self.buffer@.len(),
            full_blocks(self@.len()) == self.blocks@.len(),
            full_prefix(self@) == committed(self.blocks@, self.compressed@),
            pending_suffix(self@) == self.buffer@,
    {
        lemma_committed_len(self.blocks@, self.compressed@);
    }

    /// The base kept for block `k` is the first value of that block, and the
    /// bases are in non-decreasing order.
    proof fn lemma_bases(&self)
        requires
            self.wf(),
        ensures
            forall|k: int|
                0 <= k < self.blocks@.len() ==> #[trigger] block_base(self@, k)
                    == self.blocks@[k].initial,
            forall|i: int, j: int|
                0 <= i <= j < self.blocks@.len() ==> block_base(self@, i) <= block_base(self@, j),
    {
        self.lemma_view_split();
        assert forall|k: int| 0 <= k < self.blocks@.len() implies #[trigger] block_base(self@, k)
            == self.blocks@[k].initial by {
            lemma_committed_block(self.blocks@, self.compressed@, k);
        }
    }

    /// Every value added so far, in the order of arrival.
    pub closed spec fn view(&self) -> Seq<u32> {
        committed(self.blocks@, self.compressed@) + self.buffer@
    }

    /// The parts of the store agree: the buffer holds fewer than 128 values,
    /// and the packed region and the metadata describe the same blocks.
    pub closed spec fn inv(&self) -> bool {
        &&& self.buffer@.len() < 128
        &&& layout_ok(self.blocks@, self.compressed@)
    }

    /// The store is well formed: its parts agree, its values are in
    /// non-decreasing order, and their number fits a `usize`.
    pub open spec fn wf(&self) -> bool {
        &&& self.inv()
        &&& sorted(self@)
        &&& self@.len() <= usize::MAX
    }

    /// An empty store.
    pub fn new() -> (store: Self)
        ensures
            store.wf(),
            store@ == Seq::<u32>::empty(),
    {
        let store = CompressedStorage {
            codec: BlockCodec::new(),
            blocks: Vec::new(),
            compressed: Vec::new(),
            buffer: Vec::with_capacity(BLOCK_LEN),
        };
        proof {
            reveal(region_len);
            lemma_committed_len(store.blocks@, store.compressed@);
        }
        store
    }

    /// Packs the full buffer into a new block after the others and empties
    /// the buffer. The values of the store stay what they were.
    fn compress_buffer(&mut self)
        requires
            old(self).buffer@.len() == BLOCK_LEN,
            layout_ok(old(self).blocks@, old(self).compressed@),
            sorted(old(self)@),
            old(self)@.len() <= usize::MAX,
        ensures
            final(self).wf(),
            final(self)@ == old(self)@,
    {
        let ghost values = self.buffer@;
        let ghost packed_before = committed(self.blocks@, self.compressed@);
        proof {
            assert forall|i: int| 0 <= i < 128 implies values[0] <= #[trigger] values[i] by {
                let n = packed_before.len() as int;
                assert(values[0] == self@[n]);
                assert(values[i] == self@[n + i]);
            }
        }
        let initial = self.buffer[0];
        let bits = self.codec.required_bit_width(initial, self.buffer.as_slice());
        let mut bytes = self.codec.pack(initial, self.buffer.as_slice(), bits);
        let block = StorageBlock { initial, start: self.compressed.len(), bits };
        proof {
            lemma_commit(self.blocks@, self.compressed@, block, bytes@, values);
        }
        self.blocks.push(block);
        self.compressed.append(&mut bytes);
        self.buffer.clear();
    }

    /// Appends `value`. With it the 128th value of the buffer, the buffer is
    /// packed into a new block before the call returns.
    pub fn add(&mut self, value: u32)
        requires
            old(self).wf(),
            old(self)@.len() < usize::MAX,
            old(self)@.len() > 0 ==> old(self)@.last() <= value,
        ensures
            final(self).wf(),
            final(self)@ == old(self)@.push(value),
    {
        proof {
        }
        self.buffer.push(value);
        proof {
            assert(self@ =~= old(self)@.push(value));
        }
        if self.buffer.len() == BLOCK_LEN {
            self.compress_buffer();
        }
    }

    /// Appends the values of `values` in order, as `add` would one by one.
    pub fn add_batch(&mut self, values: &[u32])
        requires
            old(self).wf(),
            old(self)@.len() + values@.len() <= usize::MAX,
            sorted(old(self)@ + values@),
        ensures
            final(self).wf(),
            final(self)@ == old(self)@ + values@,
    {
        let ghost before = self@;
        let mut i: usize = 0;
        while i < values.len()
            invariant
                i <= values@.len(),
                self.wf(),
                self@ == before + values@.take(i as int),
                before.len() + values@.len() <= usize::MAX,
                sorted(before + values@),
            decreases values@.len() - i,
        {
            proof {
                let all = before + values@;
                assert(all[before.len() + i] == values@[i as int]);
                if self@.len() > 0 {
                    assert(self@.last() == all[self@.len() - 1]);
                }
            }
            self.add(values[i]);
            i += 1;
        }
    }

    /// Number of values added so far.
    pub fn len(&self) -> (n: usize)
        requires
            self.wf(),
        ensures
            n == self@.len(),
    {
        proof {
            self.lemma_view_split();
        }
        self.blocks.len() * BLOCK_LEN + self.buffer.len()
    }

    /// The value added last, if any. With an empty buffer it is read out of
    /// the last block.
    pub fn last(&self) -> (last: Option<u32>)
        requires
            self.wf(),
        ensures
            last == (if self@.len() == 0 {
                None
            } else {
                Some(self@.last())
            }),
    {
        proof {
            self.lemma_view_split();
        }
        if self.buffer.len() > 0 {
            Some(self.buffer[self.buffer.len() - 1])
        } else if self.blocks.len() > 0 {
            let values = self.decompress_block(self.blocks.len() - 1);
            Some(values[BLOCK_LEN - 1])
        } else {
            None
        }
    }

    /// Appends `value` as `add` does, unless it is smaller than the last
    /// value of the store: then the store stays as it was, and the error
    /// names both values.
    pub fn try_add(&mut self, value: u32) -> (added: Result<(), OutOfOrder>)
        requires
            old(self).wf(),
            old(self)@.len() < usize::MAX,
        ensures
            final(self).wf(),
            match added {
                Ok(_) => {
                    &&& old(self)@.len() > 0 ==> old(self)@.last() <= value
                    &&& final(self)@ == old(self)@.push(value)
                },
                Err(refused) => {
                    &&& old(self)@.len() > 0
                    &&& old(self)@.last() > value
                    &&& refused == (OutOfOrder { last: old(self)@.last(), value })
                    &&& final(self)@ == old(self)@
                },
            },
    {
        if let Some(last) = self.last() {
            if value < last {
                return Err(OutOfOrder { last, value });
            }
        }
        self.add(value);
        Ok(())
    }

    /// Unpacks one full block: its 128 values, in the order of arrival.
    pub fn decompress_block(&self, block: usize) -> (values: Vec<u32>)
        requires
            self.wf(),
            block < full_blocks(self@.len()),
        ensures
            values@ == block_of(self@, block as int),
    {
        proof {
            self.lemma_view_split();
            lemma_committed_block(self.blocks@, self.compressed@, block as int);
        }
        let meta = &self.blocks[block];
        let len: usize = BLOCK_LEN * (meta.bits as usize) / 8;
        assert(meta.start + len <= self.compressed.len());
        let bytes = vstd::slice::slice_subrange(
            self.compressed.as_slice(),
            meta.start,
            meta.start + len,
        );
        let values = self.codec.unpack(meta.initial, bytes, meta.bits);
        values
    }

    /// Searches the block metadata for the last block whose base is at most
    /// `value`: the only block in which a lookup needs to scan. It returns
    /// nothing where every base is greater, or where there is no block.
    pub fn find_block(&self, value: u32) -> (found: Option<usize>)
        requires
            self.wf(),
        ensures
            block_outcome(self@, value, found),
    {
        proof {
            self.lemma_view_split();
            self.lemma_bases();
        }
        let mut left: usize = 0;
        let mut right: usize = self.blocks.len();
        while left < right
            invariant
                left <= right <= self.blocks@.len(),
                forall|k: int|
                    0 <= k < self.blocks@.len() ==> #[trigger] block_base(self@, k)
                        == self.blocks@[k].initial,
                forall|i: int, j: int|
                    0 <= i <= j < self.blocks@.len() ==> block_base(self@, i) <= block_base(
                        self@,
                        j,
                    ),
                forall|j: int| 0 <= j < left ==> block_base(self@, j) <= value,
                forall|j: int| right <= j < self.blocks@.len() ==> block_base(self@, j) > value,
            decreases right - left,
        {
            let mid: usize = left + (right - left) / 2;
            assert(block_base(self@, mid as int) == self.blocks@[mid as int].initial);
            if self.blocks[mid].initial <= value {
                left = mid + 1;
            } else {
                right = mid;
            }
        }
        if left == 0 {
            None
        } else {
            Some(left - 1)
        }
    }

    /// Unpacks block `block` and scans it for `value`. It returns the
    /// position of the first match, counted over all values of the store.
    pub fn find_value(&self, value: u32, block: usize) -> (found: Option<usize>)
        requires
            self.wf(),
            block < full_blocks(self@.len()),
        ensures
            scan_outcome(self@, value, block as int, found),
    {
        let values = self.decompress_block(block);
        let mut i: usize = 0;
        while i < values.len()
            invariant
                i <= values@.len(),
                values@ == block_of(self@, block as int),
                values@.len() == 128,
                self@.len() <= usize::MAX,
                block < full_blocks(self@.len()),
                forall|q: int| 0 <= q < i ==> values@[q] != value,
            decreases values@.len() - i,
        {
            if values[i] == value {
                assert forall|q: int| 128 * block <= q < 128 * block + i implies self@[q]
                    != value by {
                    assert(self@[q] == values@[q - 128 * block]);
                }
                return Some(block * BLOCK_LEN + i);
            }
            i += 1;
        }
        assert forall|q: int| 128 * block <= q < 128 * block + 128 implies self@[q] != value by {
            assert(self@[q] == values@[q - 128 * block]);
        }
        None
    }

    /// Looks `value` up among the full blocks. It returns a position at
    /// which the value was added, counted from 0: the first one within the
    /// last full block that holds the value. It returns nothing where no
    /// full block holds the value. The values that wait in the buffer are
    /// not searched: they are found once their block is full.
    pub fn find(&self, value: u32) -> (found: Option<usize>)
        requires
            self.wf(),
        ensures
            find_outcome(self@, value, found),
    {
        let block = self.find_block(value);
        let found = match block {
            None => None,
            Some(k) => self.find_value(value, k),
        };
        proof {
            lemma_lookup_by_parts(self@, value, block, found);
        }
        found
    }
}

} // verus!
