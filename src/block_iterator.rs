//! A cursor over the entries of one block.
use std::sync::Arc;

use vstd::prelude::*;

use crate::block::{block_entries_ok, layout, layout_offsets, lemma_layout_entries, Block};
use crate::key::{key_less, key_lt};
use crate::storage_iterator::{strictly_sorted, StorageIterator};

verus! {

/// `i` is the first entry of `b` whose key is not below `target`, or the
/// number of entries when every key is below it.
pub open spec fn lands_on(b: Block, target: Seq<u8>, i: int) -> bool {
    &&& 0 <= i <= b.num_entries()
    &&& forall|j: int| 0 <= j < i ==> key_lt(#[trigger] b.entry_key(j), target)
    &&& i < b.num_entries() ==> !key_lt(b.entry_key(i), target)
}

/// Iterates on a block.
pub struct BlockIterator {
    /// The block, shared read-only with other readers.
    block: Arc<Block>,
    /// The current key; empty when the iterator is invalid.
    key: Vec<u8>,
    /// Start and end of the current entry in the block's data.
    value_range: (usize, usize),
    /// Rank of the current entry, equal to the number of entries once the
    /// iterator is invalid.
    idx: usize,
    /// The key of the block's first entry, empty for an empty block.
    first_key: Vec<u8>,
}

/// The end of entry `i`: the start of the next one or the end of the data.
fn entry_end(block: &Block, i: usize) -> (r: usize)
    requires
        i < block.num_entries(),
    ensures
        r == block.entry_end(i as int),
{
    if i < block.offsets.len() - 1 {
        block.offsets[i + 1] as usize
    } else {
        block.data.len()
    }
}

/// Copies `data[start..end]` into a new vector.
fn copy_range(data: &Vec<u8>, start: usize, end: usize) -> (r: Vec<u8>)
    requires
        start <= end <= data@.len(),
    ensures
        r@ == data@.subrange(start as int, end as int),
{
    let mut r: Vec<u8> = Vec::new();
    let mut i: usize = start;
    while i < end
        invariant
            start <= i <= end,
            end <= data@.len(),
            r@ == data@.subrange(start as int, i as int),
        decreases end - i,
    {
        r.push(data[i]);
        i = i + 1;
        assert(r@ =~= data@.subrange(start as int, i as int));
    }
    r
}

/// The key of entry `i`.
fn read_key(block: &Block, i: usize) -> (r: Vec<u8>)
    requires
        block.wf(),
        i < block.num_entries(),
    ensures
        r@ == block.entry_key(i as int),
{
    assert(block.entry_ok(i as int));
    let start = block.offsets[i] as usize;
    let key_len = (block.data[start] as usize) + (block.data[start + 1] as usize) * 256;
    copy_range(&block.data, start + 2, start + 2 + key_len)
}

impl BlockIterator {
    /// The block under the cursor.
    pub closed spec fn block_of(&self) -> Block {
        *self.block
    }

    /// Rank of the current entry; the number of entries when invalid.
    pub closed spec fn index(&self) -> int {
        self.idx as int
    }

    /// The cursor's fields agree with its position in a well-formed block.
    pub closed spec fn inv(&self) -> bool {
        let b = self.block_of();
        &&& b.wf()
        &&& self.idx <= b.num_entries()
        &&& self.idx < b.num_entries() ==> {
            &&& self.key@ == b.entry_key(self.idx as int)
            &&& self.value_range.0 as int == b.entry_start(self.idx as int)
            &&& self.value_range.1 as int == b.entry_end(self.idx as int)
        }
        &&& self.idx == b.num_entries() ==> self.key@ == Seq::<u8>::empty()
        &&& self.first_key@ == if b.num_entries() > 0 {
            b.entry_key(0)
        } else {
            Seq::empty()
        }
    }

    /// A consistent cursor stands on a well-formed block, at a rank between
    /// zero and the number of entries.
    pub proof fn lemma_inv_bounds(&self)
        requires
            self.inv(),
        ensures
            self.block_of().wf(),
            0 <= self.index() <= self.block_of().num_entries(),
    {
    }

    /// The entries from the current one to the end of the block.
    pub open spec fn remaining(&self) -> Seq<(Seq<u8>, Seq<u8>)> {
        self.block_of().entries().subrange(self.index(), self.block_of().num_entries())
    }

    /// A cursor past the last entry, which remembers the block's first key.
    fn new(block: Arc<Block>) -> (r: Self)
        requires
            block.wf(),
        ensures
            r.inv(),
            r.block_of() == *block,
            r.index() == block.num_entries(),
    {
        let first_key = if block.offsets.len() > 0 {
            read_key(&block, 0)
        } else {
            Vec::new()
        };
        let idx = block.offsets.len();
        Self { block, key: Vec::new(), value_range: (0, 0), idx, first_key }
    }

    /// Creates a block iterator and seeks to the first entry.
    pub fn create_and_seek_to_first(block: Arc<Block>) -> (r: Self)
        requires
            block.wf(),
        ensures
            r.inv(),
            r.block_of() == *block,
            r.index() == 0,
    {
        let mut iter = Self::new(block);
        iter.seek_to_first();
        iter
    }

    /// Creates a block iterator and seeks to the first key that is not below `key`.
    pub fn create_and_seek_to_key(block: Arc<Block>, key: &[u8]) -> (r: Self)
        requires
            block.wf(),
        ensures
            r.inv(),
            r.block_of() == *block,
            lands_on(*block, key@, r.index()),
    {
        let mut iter = Self::new(block);
        iter.seek_to_key(key);
        iter
    }

    /// Returns the key of the current entry, empty when invalid.
    pub fn key(&self) -> (r: &[u8])
        requires
            self.inv(),
        ensures
            r@ == if self.index() < self.block_of().num_entries() {
                self.block_of().entry_key(self.index())
            } else {
                Seq::empty()
            },
    {
        self.key.as_slice()
    }

    /// Returns the value of the current entry, empty when invalid.
    pub fn value(&self) -> (r: &[u8])
        requires
            self.inv(),
        ensures
            r@ == if self.index() < self.block_of().num_entries() {
                self.block_of().entry_value(self.index())
            } else {
                Seq::empty()
            },
    {
        if self.is_valid() {
            proof {
                let b = self.block_of();
                assert(b.entry_ok(self.idx as int));
                lemma_key_not_empty(b, self.idx as int);
            }
            let (start, end) = self.value_range;
            let value_start = start + 2 + self.key.len() + 2;
            let data = self.block.data.as_slice();
            &data[value_start..end]
        } else {
            &[]
        }
    }

    /// Returns true if the iterator points at an entry.
    pub fn is_valid(&self) -> (r: bool)
        requires
            self.inv(),
        ensures
            r == (self.index() < self.block_of().num_entries()),
    {
        proof {
            if self.idx < self.block_of().num_entries() {
                lemma_key_not_empty(self.block_of(), self.idx as int);
            }
        }
        self.key.len() != 0
    }

    /// Points the cursor at entry `idx`, or makes it invalid when `idx` is
    /// the number of entries.
    fn seek_to(&mut self, idx: usize)
        requires
            old(self).inv(),
            idx <= old(self).block_of().num_entries(),
        ensures
            final(self).inv(),
            final(self).block_of() == old(self).block_of(),
            final(self).index() == idx,
    {
        self.idx = idx;
        if idx == self.block.offsets.len() {
            self.key = Vec::new();
            self.value_range = (0, 0);
            return;
        }
        let offset = self.block.offsets[idx] as usize;
        let next_offset = entry_end(&self.block, idx);
        self.value_range = (offset, next_offset);
        self.key = read_key(&self.block, idx);
    }

    /// Seeks to the first entry; an empty block leaves the cursor invalid.
    pub fn seek_to_first(&mut self)
        requires
            old(self).inv(),
        ensures
            final(self).inv(),
            final(self).block_of() == old(self).block_of(),
            final(self).index() == 0,
    {
        self.seek_to(0);
    }

    /// Moves to the next entry; does nothing once invalid.
    pub fn next(&mut self)
        requires
            old(self).inv(),
        ensures
            final(self).inv(),
            final(self).block_of() == old(self).block_of(),
            final(self).index() == if old(self).index() < old(self).block_of().num_entries() {
                old(self).index() + 1
            } else {
                old(self).index()
            },
    {
        if self.idx >= self.block.offsets.len() {
            // Past the last entry: the cursor is invalid and stays so.
            return;
        }
        let idx = self.idx + 1;
        self.seek_to(idx);
    }

    /// Seeks to the first key that is not below `key`, or past the end when
    /// every key is below it.
    pub fn seek_to_key(&mut self, key: &[u8])
        requires
            old(self).inv(),
        ensures
            final(self).inv(),
            final(self).block_of() == old(self).block_of(),
            lands_on(old(self).block_of(), key@, final(self).index()),
    {
        self.seek_to_first();
        while self.is_valid() && key_less(self.key(), key)
            invariant
                self.inv(),
                self.block_of() == old(self).block_of(),
                0 <= self.index() <= self.block_of().num_entries(),
                forall|j: int|
                    0 <= j < self.index() ==> key_lt(#[trigger] self.block_of().entry_key(j), key@),
            decreases self.block_of().num_entries() - self.index(),
        {
            self.next();
        }
    }
}

/// Keys in a well-formed block are never empty.
proof fn lemma_key_not_empty(b: Block, i: int)
    requires
        b.wf(),
        0 <= i < b.num_entries(),
    ensures
        b.entry_key(i).len() >= 1,
{
    assert(b.entry_ok(i));
}

} // verus!

verus! {

impl StorageIterator for BlockIterator {
    open spec fn well_formed(&self) -> bool {
        self.inv()
    }

    open spec fn stream(&self) -> Seq<(Seq<u8>, Seq<u8>)> {
        self.remaining()
    }

    open spec fn never_fails(&self) -> bool {
        true
    }

    fn key(&self) -> (r: &[u8]) {
        BlockIterator::key(self)
    }

    fn value(&self) -> (r: &[u8]) {
        BlockIterator::value(self)
    }

    fn is_valid(&self) -> (r: bool) {
        BlockIterator::is_valid(self)
    }

    /// Never fails: `never_fails` holds of every block cursor.
    fn next(&mut self) -> (r: Result<(), anyhow::Error>) {
        BlockIterator::next(self);
        Ok(())
    }
}

/// The stream of a cursor over a well-formed block has strictly ascending keys.
pub proof fn lemma_block_stream_sorted(it: BlockIterator)
    requires
        it.inv(),
    ensures
        strictly_sorted(it.remaining()),
{
    let b = it.block_of();
    assert forall|i: int, j: int| 0 <= i < j < it.remaining().len() implies key_lt(
        #[trigger] it.remaining()[i].0,
        #[trigger] it.remaining()[j].0,
    ) by {
        assert(it.remaining()[i].0 == b.entry_key(it.index() + i));
        assert(it.remaining()[j].0 == b.entry_key(it.index() + j));
    }
}

} // verus!

verus! {

/// A cursor that has just been placed on the first entry of a block laid out
/// from entries that a block can hold has exactly those entries ahead of it,
/// in order.
pub proof fn lemma_cursor_reads_layout(entries: Seq<(Seq<u8>, Seq<u8>)>, it: BlockIterator)
    requires
        block_entries_ok(entries),
        it.block_of().data@ == layout(entries),
        it.block_of().offsets@ == layout_offsets(entries),
        it.index() == 0,
    ensures
        it.remaining() == entries,
{
    lemma_layout_entries(entries, it.block_of());
    assert(it.remaining() =~= entries);
}

} // verus!
