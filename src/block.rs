//! A block: a sorted run of key-value entries and the index of their start
//! offsets, with its byte encoding.
use vstd::prelude::*;

use crate::key::{key_less, key_lt, lemma_key_lt_transitive};

verus! {

#[verifier::external_type_specification]
#[verifier::external_body]
pub struct ExBytes(bytes::Bytes);

/// The bytes that a `bytes::Bytes` buffer holds.
pub uninterp spec fn bytes_content(b: bytes::Bytes) -> Seq<u8>;

/// Relies on `bytes::Bytes::from(Vec<u8>)`: the buffer takes over the vector
/// and holds exactly its bytes, in order.
#[verifier::external_body]
fn bytes_from_vec(v: Vec<u8>) -> (r: bytes::Bytes)
    ensures
        bytes_content(r) == v@,
{
    bytes::Bytes::from(v)
}

/// A 16-bit number read from its low byte and its high byte.
pub open spec fn u16_from(lo: u8, hi: u8) -> nat {
    lo as nat + 256 * hi as nat
}

/// The offsets, each as two little-endian bytes, one after another.
pub open spec fn offsets_le(offsets: Seq<u16>) -> Seq<u8> {
    Seq::new(
        2 * offsets.len(),
        |j: int|
            if j % 2 == 0 {
                (offsets[j / 2] % 256) as u8
            } else {
                (offsets[j / 2] / 256) as u8
            },
    )
}

/// The encoding of a block: the data, the offsets in little-endian order, and
/// the number of offsets as two big-endian bytes.
pub open spec fn encoded(data: Seq<u8>, offsets: Seq<u16>) -> Seq<u8> {
    data + offsets_le(offsets) + seq![(offsets.len() / 256) as u8, (offsets.len() % 256) as u8]
}

/// The number of offsets that the trailing two bytes of `buf` announce.
pub open spec fn encoded_count(buf: Seq<u8>) -> nat {
    u16_from(buf[buf.len() - 1], buf[buf.len() - 2])
}

/// Where the offsets begin in an encoded block.
pub open spec fn offsets_start(buf: Seq<u8>) -> int {
    buf.len() - 2 - 2 * encoded_count(buf)
}

/// `buf` is long enough for its count and for the offsets that the count
/// announces.
pub open spec fn decodable(buf: Seq<u8>) -> bool {
    buf.len() >= 2 && offsets_start(buf) >= 0
}

/// The data region of an encoded block.
pub open spec fn decoded_data(buf: Seq<u8>) -> Seq<u8> {
    buf.subrange(0, offsets_start(buf))
}

/// The offsets of an encoded block.
pub open spec fn decoded_offsets(buf: Seq<u8>) -> Seq<u16> {
    Seq::new(
        encoded_count(buf),
        |i: int|
            u16_from(buf[offsets_start(buf) + 2 * i], buf[offsets_start(buf) + 2 * i + 1]) as u16,
    )
}

/// A block is the smallest unit of read and caching: sorted key-value
/// entries, laid out back to back in `data`, each starting at the offset of
/// the same rank in `offsets`.
pub struct Block {
    pub data: Vec<u8>,
    pub offsets: Vec<u16>,
}

impl Block {
    /// Number of entries.
    pub open spec fn num_entries(&self) -> int {
        self.offsets@.len() as int
    }

    /// First byte of entry `i`.
    pub open spec fn entry_start(&self, i: int) -> int {
        self.offsets@[i] as int
    }

    /// One past the last byte of entry `i`: the next entry's offset, or the
    /// end of the data for the last entry.
    pub open spec fn entry_end(&self, i: int) -> int {
        if i + 1 < self.num_entries() {
            self.offsets@[i + 1] as int
        } else {
            self.data@.len() as int
        }
    }

    /// Length of the key of entry `i`, read from its first two bytes.
    pub open spec fn key_len(&self, i: int) -> int {
        u16_from(self.data@[self.entry_start(i)], self.data@[self.entry_start(i) + 1]) as int
    }

    /// The key of entry `i`.
    pub open spec fn entry_key(&self, i: int) -> Seq<u8> {
        self.data@.subrange(self.entry_start(i) + 2, self.entry_start(i) + 2 + self.key_len(i))
    }

    /// The value of entry `i`: what follows the key and the value length, up
    /// to the end of the entry.
    pub open spec fn entry_value(&self, i: int) -> Seq<u8> {
        self.data@.subrange(self.entry_start(i) + 2 + self.key_len(i) + 2, self.entry_end(i))
    }

    /// Entry `i` holds a non-empty key, a value length and a value within its bounds.
    pub open spec fn entry_ok(&self, i: int) -> bool {
        &&& self.entry_start(i) + 4 <= self.entry_end(i) <= self.data@.len()
        &&& 1 <= self.key_len(i)
        &&& self.entry_start(i) + 2 + self.key_len(i) + 2 <= self.entry_end(i)
    }

    /// The block invariant: every entry is well placed and keys are strictly ascending.
    pub open spec fn wf(&self) -> bool {
        &&& forall|i: int| 0 <= i < self.num_entries() ==> #[trigger] self.entry_ok(i)
        &&& forall|i: int, j: int|
            0 <= i < j < self.num_entries() ==> key_lt(
                #[trigger] self.entry_key(i),
                #[trigger] self.entry_key(j),
            )
    }

    /// The entries of the block, in order, as key-value pairs.
    pub open spec fn entries(&self) -> Seq<(Seq<u8>, Seq<u8>)> {
        Seq::new(self.offsets@.len(), |i: int| (self.entry_key(i), self.entry_value(i)))
    }

    /// The key of entry `i`, as a view into the data.
    fn key_at(&self, i: usize) -> (r: &[u8])
        requires
            0 <= i < self.num_entries(),
            self.entry_ok(i as int),
        ensures
            r@ == self.entry_key(i as int),
    {
        let start = self.offsets[i] as usize;
        let key_len = (self.data[start] as usize) + (self.data[start + 1] as usize) * 256;
        &self.data.as_slice()[start + 2..start + 2 + key_len]
    }

    /// Returns true if the block is well formed: every entry lies within
    /// its bounds with a non-empty key, and keys are strictly ascending.
    pub fn is_well_formed(&self) -> (r: bool)
        ensures
            r == self.wf(),
    {
        let n = self.offsets.len();
        let mut i: usize = 0;
        while i < n
            invariant
                n == self.offsets@.len(),
                i <= n,
                forall|j: int| 0 <= j < i ==> #[trigger] self.entry_ok(j),
            decreases n - i,
        {
            let start = self.offsets[i] as usize;
            let end = if i < n - 1 {
                self.offsets[i + 1] as usize
            } else {
                self.data.len()
            };
            if end > self.data.len() || start + 4 > end {
                assert(!self.entry_ok(i as int));
                return false;
            }
            let key_len = (self.data[start] as usize) + (self.data[start + 1] as usize) * 256;
            if key_len == 0 || start + 2 + key_len + 2 > end {
                assert(!self.entry_ok(i as int));
                return false;
            }
            i = i + 1;
        }
        let mut i: usize = 1;
        while i < n
            invariant
                n == self.offsets@.len(),
                1 <= i,
                forall|j: int| 0 <= j < n ==> #[trigger] self.entry_ok(j),
                forall|a: int, b: int|
                    0 <= a < b < n && b < i ==> key_lt(
                        #[trigger] self.entry_key(a),
                        #[trigger] self.entry_key(b),
                    ),
            decreases n - i,
        {
            let prev = self.key_at(i - 1);
            let cur = self.key_at(i);
            if !key_less(prev, cur) {
                return false;
            }
            proof {
                assert forall|a: int, b: int| 0 <= a < b < n && b < i + 1 implies key_lt(
                    #[trigger] self.entry_key(a),
                    #[trigger] self.entry_key(b),
                ) by {
                    if b == i && a < i - 1 {
                        lemma_key_lt_transitive(
                            self.entry_key(a),
                            self.entry_key(i - 1),
                            self.entry_key(b),
                        );
                    }
                }
            }
            i = i + 1;
        }
        true
    }

    /// Encodes the block: the data, each offset as two little-endian bytes,
    /// then the number of offsets as two big-endian bytes.
    pub fn encode(&self) -> (r: bytes::Bytes)
        requires
            self.offsets@.len() <= u16::MAX,
        ensures
            bytes_content(r) == encoded(self.data@, self.offsets@),
    {
        let mut out: Vec<u8> = Vec::new();
        let mut i: usize = 0;
        while i < self.data.len()
            invariant
                i <= self.data@.len(),
                out@ == self.data@.subrange(0, i as int),
            decreases self.data@.len() - i,
        {
            out.push(self.data[i]);
            i = i + 1;
            assert(out@ == self.data@.subrange(0, i as int));
        }
        assert(out@ == self.data@);
        let n = self.offsets.len();
        let mut j: usize = 0;
        while j < n
            invariant
                n == self.offsets@.len(),
                j <= n,
                out@ == self.data@ + offsets_le(self.offsets@.subrange(0, j as int)),
            decreases n - j,
        {
            let offset = self.offsets[j];
            out.push((offset % 256) as u8);
            out.push((offset / 256) as u8);
            j = j + 1;
            assert(offsets_le(self.offsets@.subrange(0, j as int)) =~= offsets_le(
                self.offsets@.subrange(0, j - 1 as int),
            ).push((offset % 256) as u8).push((offset / 256) as u8));
        }
        assert(self.offsets@.subrange(0, n as int) == self.offsets@);
        let count = n as u16;
        out.push((count / 256) as u8);
        out.push((count % 256) as u8);
        assert(out@ =~= encoded(self.data@, self.offsets@));
        bytes_from_vec(out)
    }

    /// Decodes an encoded block: the trailing two bytes give the number of
    /// offsets in big-endian order, the offsets stand before them, and the
    /// data before those.
    pub fn decode(data: &[u8]) -> (r: Block)
        requires
            decodable(data@),
        ensures
            r.data@ == decoded_data(data@),
            r.offsets@ == decoded_offsets(data@),
    {
        let len = data.len();
        let n = (data[len - 1] as usize) + (data[len - 2] as usize) * 256;
        let offset_start = len - 2 - n * 2;
        let mut offsets: Vec<u16> = Vec::new();
        let mut i: usize = 0;
        while i < n
            invariant
                len == data@.len(),
                n == encoded_count(data@),
                offset_start == offsets_start(data@),
                decodable(data@),
                i <= n,
                offsets@ == decoded_offsets(data@).subrange(0, i as int),
            decreases n - i,
        {
            let lo = data[offset_start + 2 * i];
            let hi = data[offset_start + 2 * i + 1];
            offsets.push((lo as u16) + (hi as u16) * 256);
            i = i + 1;
            assert(offsets@ =~= decoded_offsets(data@).subrange(0, i as int));
        }
        let mut block_data: Vec<u8> = Vec::new();
        let mut k: usize = 0;
        while k < offset_start
            invariant
                offset_start <= data@.len(),
                k <= offset_start,
                block_data@ == data@.subrange(0, k as int),
            decreases offset_start - k,
        {
            block_data.push(data[k]);
            k = k + 1;
            assert(block_data@ =~= data@.subrange(0, k as int));
        }
        assert(offsets@ =~= decoded_offsets(data@));
        Block { data: block_data, offsets }
    }
}

/// A length as two little-endian bytes.
pub open spec fn len_le(n: nat) -> Seq<u8> {
    seq![(n % 256) as u8, (n / 256) as u8]
}

/// The record of one entry: key length, key, value length, value.
pub open spec fn entry_record(key: Seq<u8>, value: Seq<u8>) -> Seq<u8> {
    len_le(key.len()) + key + len_le(value.len()) + value
}

/// The records of `entries`, back to back.
pub open spec fn layout(entries: Seq<(Seq<u8>, Seq<u8>)>) -> Seq<u8>
    decreases entries.len(),
{
    if entries.len() == 0 {
        Seq::empty()
    } else {
        layout(entries.drop_last()) + entry_record(entries.last().0, entries.last().1)
    }
}

/// Where each record of `entries` starts in their layout.
pub open spec fn layout_offsets(entries: Seq<(Seq<u8>, Seq<u8>)>) -> Seq<u16> {
    Seq::new(entries.len(), |i: int| layout(entries.take(i)).len() as u16)
}

/// Entries that a block can hold: non-empty keys in strictly ascending
/// order, lengths that fit the 16-bit fields, and records that start at
/// offsets that fit 16 bits.
pub open spec fn block_entries_ok(entries: Seq<(Seq<u8>, Seq<u8>)>) -> bool {
    &&& forall|i: int|
        0 <= i < entries.len() ==> {
            &&& 1 <= (#[trigger] entries[i]).0.len() <= u16::MAX
            &&& entries[i].1.len() <= u16::MAX
            &&& layout(entries.take(i)).len() <= u16::MAX
        }
    &&& forall|i: int, j: int|
        0 <= i < j < entries.len() ==> key_lt(#[trigger] entries[i].0, #[trigger] entries[j].0)
}

proof fn lemma_layout_prefix(entries: Seq<(Seq<u8>, Seq<u8>)>, i: int, j: int)
    requires
        0 <= i <= j <= entries.len(),
    ensures
        layout(entries.take(i)).len() <= layout(entries.take(j)).len(),
        layout(entries.take(j)).subrange(0, layout(entries.take(i)).len() as int) == layout(
            entries.take(i),
        ),
    decreases j - i,
{
    if i < j {
        lemma_layout_prefix(entries, i, j - 1);
        assert(entries.take(j).drop_last() == entries.take(j - 1));
        let a = layout(entries.take(i));
        let b = layout(entries.take(j - 1));
        let c = layout(entries.take(j));
        assert(c == b + entry_record(entries[j - 1].0, entries[j - 1].1));
        assert(c.subrange(0, a.len() as int) =~= b.subrange(0, a.len() as int));
    } else {
        assert(layout(entries.take(j)).subrange(0, layout(entries.take(i)).len() as int) =~= layout(
            entries.take(i),
        ));
    }
}

proof fn lemma_record_at(entries: Seq<(Seq<u8>, Seq<u8>)>, i: int)
    requires
        0 <= i < entries.len(),
    ensures
        ({
            let d = layout(entries);
            let st = layout(entries.take(i)).len() as int;
            let rec = entry_record(entries[i].0, entries[i].1);
            &&& layout(entries.take(i + 1)).len() == st + rec.len()
            &&& st + rec.len() <= d.len()
            &&& i + 1 == entries.len() ==> d.len() == st + rec.len()
            &&& forall|t: int| 0 <= t < rec.len() ==> d[st + t] == #[trigger] rec[t]
        }),
{
    let n = entries.len() as int;
    assert(entries.take(n) == entries);
    let p = layout(entries.take(i));
    let q = layout(entries.take(i + 1));
    let rec = entry_record(entries[i].0, entries[i].1);
    assert(entries.take(i + 1).drop_last() == entries.take(i));
    assert(q == p + rec);
    lemma_layout_prefix(entries, i + 1, n);
    assert forall|t: int| 0 <= t < rec.len() implies layout(entries)[p.len() + t] == #[trigger] rec[t] by {
        assert(q[p.len() + t] == rec[t]);
        assert(layout(entries).subrange(0, q.len() as int)[p.len() + t] == q[p.len() + t]);
    }
}

proof fn lemma_record_parses(b: Block, i: int, k: Seq<u8>, v: Seq<u8>)
    requires
        0 <= i < b.num_entries(),
        1 <= k.len() <= u16::MAX,
        v.len() <= u16::MAX,
        b.entry_end(i) == b.entry_start(i) + entry_record(k, v).len(),
        b.entry_end(i) <= b.data@.len(),
        forall|t: int|
            0 <= t < entry_record(k, v).len() ==> b.data@[b.entry_start(i) + t]
                == #[trigger] entry_record(k, v)[t],
    ensures
        b.entry_ok(i),
        b.entry_key(i) == k,
        b.entry_value(i) == v,
{
    let rec = entry_record(k, v);
    let s = b.entry_start(i);
    assert(b.data@[s] == rec[0]);
    assert(b.data@[s + 1] == rec[1]);
    assert(b.key_len(i) == k.len());
    assert(b.entry_key(i) =~= k) by {
        assert forall|t: int| 0 <= t < k.len() implies b.entry_key(i)[t] == k[t] by {
            assert(b.data@[s + (2 + t)] == rec[2 + t]);
        }
    }
    assert(b.entry_value(i) =~= v) by {
        assert forall|t: int| 0 <= t < v.len() implies b.entry_value(i)[t] == v[t] by {
            assert(b.data@[s + (2 + k.len() + 2 + t)] == rec[2 + k.len() + 2 + t]);
        }
    }
}

proof fn lemma_layout_entry(entries: Seq<(Seq<u8>, Seq<u8>)>, b: Block, i: int)
    requires
        block_entries_ok(entries),
        b.data@ == layout(entries),
        b.offsets@ == layout_offsets(entries),
        0 <= i < entries.len(),
    ensures
        b.entry_ok(i),
        b.entry_key(i) == entries[i].0,
        b.entry_value(i) == entries[i].1,
{
    let n = entries.len() as int;
    let k = entries[i].0;
    let v = entries[i].1;
    let rec = entry_record(k, v);
    lemma_record_at(entries, i);
    let s = layout(entries.take(i)).len() as int;
    assert(entries[i].0.len() >= 1);
    assert(b.entry_start(i) == s);
    if i + 1 < n {
        assert(entries[i + 1].0.len() >= 1);
        assert(b.entry_end(i) == layout(entries.take(i + 1)).len());
    }
    lemma_record_parses(b, i, k, v);
}

/// A block laid out from entries that a block can hold is well formed, and
/// its entries, read in order, are exactly those entries.
pub proof fn lemma_layout_entries(entries: Seq<(Seq<u8>, Seq<u8>)>, b: Block)
    requires
        block_entries_ok(entries),
        b.data@ == layout(entries),
        b.offsets@ == layout_offsets(entries),
    ensures
        b.wf(),
        b.entries() == entries,
{
    let n = entries.len() as int;
    assert forall|i: int| 0 <= i < n implies #[trigger] b.entry_ok(i) && b.entry_key(i)
        == entries[i].0 && b.entry_value(i) == entries[i].1 by {
        lemma_layout_entry(entries, b, i);
    }
    assert forall|i: int, j: int| 0 <= i < j < n implies key_lt(
        #[trigger] b.entry_key(i),
        #[trigger] b.entry_key(j),
    ) by {
        lemma_layout_entry(entries, b, i);
        lemma_layout_entry(entries, b, j);
    }
    assert forall|i: int| 0 <= i < n implies #[trigger] b.entries()[i] == entries[i] by {
        lemma_layout_entry(entries, b, i);
    }
    assert(b.entries() =~= entries);
}

/// Decoding an encoded block gives back its data and its offsets.
pub proof fn lemma_round_trip(b: Block)
    requires
        b.offsets@.len() <= u16::MAX,
    ensures
        decodable(encoded(b.data@, b.offsets@)),
        decoded_data(encoded(b.data@, b.offsets@)) == b.data@,
        decoded_offsets(encoded(b.data@, b.offsets@)) == b.offsets@,
{
    let buf = encoded(b.data@, b.offsets@);
    let n = b.offsets@.len();
    let d = b.data@.len();
    assert(buf.len() == d + 2 * n + 2);
    assert(buf[buf.len() - 2] == (n / 256) as u8);
    assert(buf[buf.len() - 1] == (n % 256) as u8);
    assert(encoded_count(buf) == n);
    assert(offsets_start(buf) == d);
    assert(decoded_data(buf) =~= b.data@);
    assert forall|i: int| 0 <= i < n implies #[trigger] decoded_offsets(buf)[i] == b.offsets@[i] by {
        assert(buf[d + 2 * i] == offsets_le(b.offsets@)[2 * i]);
        assert(buf[d + 2 * i + 1] == offsets_le(b.offsets@)[2 * i + 1]);
        assert((2 * i) / 2 == i);
        assert((2 * i + 1) / 2 == i);
        assert((2 * i) % 2 == 0);
        assert((2 * i + 1) % 2 == 1);
    }
    assert(decoded_offsets(buf) =~= b.offsets@);
}

} // verus!
