//! The block: an immutable container of serialized key/value entries.
//!
//! A block holds a byte buffer `data` of variable-length entries and an
//! `offsets` index (one 16-bit byte offset per entry, in entry order). Each
//! entry stores its key prefix-compressed against the block's first key:
//!
//! ```text
//! Entry := OverlapLen(u16) SuffixLen(u16) KeySuffix(bytes)
//!          Version(u64) ValueLen(u16) Value(bytes)
//! ```
//!
//! All integers are big-endian. The first entry is stored with overlap 0, so
//! the block's first key can always be decoded from entry 0 alone.

pub mod builder;
pub mod iterator;

use vstd::prelude::*;

use crate::key::KeyModel;
use crate::key::key_lt;

verus! {

/// An immutable, already-built block.
pub struct Block {
    /// The serialized entries.
    pub data: Vec<u8>,
    /// Byte offset of each entry within `data`, in entry order.
    pub offsets: Vec<u16>,
}

/// Mathematical view of one decoded entry.
pub struct EntryModel {
    pub key: KeyModel,
    pub value: Seq<u8>,
}

/// The 16-bit big-endian integer stored at byte offset `i`.
pub open spec fn be16_at(d: Seq<u8>, i: int) -> int {
    d[i] * 0x100 + d[i + 1]
}

/// The 64-bit big-endian integer stored at byte offset `i`.
pub open spec fn be64_at(d: Seq<u8>, i: int) -> int {
    d[i] * 0x100000000000000 + d[i + 1] * 0x1000000000000 + d[i + 2] * 0x10000000000 + d[i + 3]
        * 0x100000000 + d[i + 4] * 0x1000000 + d[i + 5] * 0x10000 + d[i + 6] * 0x100 + d[i + 7]
}

/// Big-endian bytes of a 16-bit value.
pub open spec fn u16_be(x: int) -> Seq<u8> {
    seq![(x / 0x100) as u8, (x % 0x100) as u8]
}

/// Big-endian bytes of a 64-bit value.
pub open spec fn u64_be(x: u64) -> Seq<u8> {
    seq![
        (x / 0x100000000000000) as u8,
        ((x / 0x1000000000000) % 0x100) as u8,
        ((x / 0x10000000000) % 0x100) as u8,
        ((x / 0x100000000) % 0x100) as u8,
        ((x / 0x1000000) % 0x100) as u8,
        ((x / 0x10000) % 0x100) as u8,
        ((x / 0x100) % 0x100) as u8,
        (x % 0x100) as u8,
    ]
}

/// Length of the prefix that the entry at `o` shares with the first key.
pub open spec fn entry_overlap(d: Seq<u8>, o: int) -> int {
    be16_at(d, o)
}

/// Length of the key suffix stored in the entry at `o`.
pub open spec fn entry_suffix_len(d: Seq<u8>, o: int) -> int {
    be16_at(d, o + 2)
}

/// The key suffix bytes stored in the entry at `o`.
pub open spec fn entry_suffix(d: Seq<u8>, o: int) -> Seq<u8> {
    d.subrange(o + 4, o + 4 + entry_suffix_len(d, o))
}

/// The key's version number stored in the entry at `o`.
pub open spec fn entry_version(d: Seq<u8>, o: int) -> u64 {
    be64_at(d, o + 4 + entry_suffix_len(d, o)) as u64
}

/// Length of the value stored in the entry at `o`.
pub open spec fn entry_value_len(d: Seq<u8>, o: int) -> int {
    be16_at(d, o + 12 + entry_suffix_len(d, o))
}

/// First byte of the value stored in the entry at `o`.
pub open spec fn entry_value_begin(d: Seq<u8>, o: int) -> int {
    o + 14 + entry_suffix_len(d, o)
}

/// The value bytes stored in the entry at `o`.
pub open spec fn entry_value(d: Seq<u8>, o: int) -> Seq<u8> {
    d.subrange(entry_value_begin(d, o), entry_value_begin(d, o) + entry_value_len(d, o))
}

/// Total serialized length of the entry at `o`.
pub open spec fn entry_len(d: Seq<u8>, o: int) -> int {
    14 + entry_suffix_len(d, o) + entry_value_len(d, o)
}

/// The entry at `o` lies within `d`, has a non-empty key, and refers to no
/// more of the first key `fb` than exists.
pub open spec fn entry_wf(d: Seq<u8>, o: int, fb: Seq<u8>) -> bool {
    &&& 0 <= o
    &&& o + 4 <= d.len()
    &&& o + entry_len(d, o) <= d.len()
    &&& entry_overlap(d, o) <= fb.len()
    &&& entry_overlap(d, o) + entry_suffix_len(d, o) >= 1
}

/// The full key bytes of the entry at `o`: shared prefix of the first key,
/// then the stored suffix.
pub open spec fn entry_key_bytes(d: Seq<u8>, o: int, fb: Seq<u8>) -> Seq<u8> {
    fb.take(entry_overlap(d, o)) + entry_suffix(d, o)
}

/// The decoded entry at `o`.
pub open spec fn entry_model(d: Seq<u8>, o: int, fb: Seq<u8>) -> EntryModel {
    EntryModel {
        key: KeyModel { bytes: entry_key_bytes(d, o, fb), version: entry_version(d, o) },
        value: entry_value(d, o),
    }
}

/// The block's first key bytes, decoded from entry 0 (stored with overlap 0).
pub open spec fn first_key_bytes(d: Seq<u8>) -> Seq<u8> {
    entry_suffix(d, 0)
}

/// Well-formedness of a block's buffers: at least one entry, entry 0 at
/// offset 0 with no overlap, every entry well formed, and entries contiguous
/// from offset 0 to the end of `data`.
pub open spec fn block_wf(d: Seq<u8>, offs: Seq<u16>) -> bool {
    &&& offs.len() >= 1
    &&& offs[0] == 0
    &&& entry_overlap(d, 0) == 0
    &&& forall|i: int|
        0 <= i < offs.len() ==> entry_wf(d, #[trigger] offs[i] as int, first_key_bytes(d))
    &&& forall|i: int|
        0 <= i < offs.len() - 1 ==> (#[trigger] offs[i] as int) + entry_len(d, offs[i] as int)
            == offs[i + 1]
    &&& offs[offs.len() - 1] as int + entry_len(d, offs[offs.len() - 1] as int) == d.len()
}

/// All entries of a block, in entry order.
pub open spec fn block_entries(d: Seq<u8>, offs: Seq<u16>) -> Seq<EntryModel> {
    Seq::new(offs.len(), |i: int| entry_model(d, offs[i] as int, first_key_bytes(d)))
}

/// The entries are strictly ascending in the key-with-version order.
pub open spec fn entries_sorted(es: Seq<EntryModel>) -> bool {
    forall|i: int, j: int| 0 <= i < j < es.len() ==> key_lt(es[i].key, es[j].key)
}

impl Block {
    pub open spec fn wf(&self) -> bool {
        block_wf(self.data@, self.offsets@)
    }

    pub open spec fn entries(&self) -> Seq<EntryModel> {
        block_entries(self.data@, self.offsets@)
    }

}

/// Extending the buffer beyond an entry leaves the entry's decoding unchanged.
pub proof fn lemma_entry_stable(d1: Seq<u8>, d2: Seq<u8>, o: int, fb: Seq<u8>)
    requires
        d1.len() <= d2.len(),
        d2.take(d1.len() as int) == d1,
        entry_wf(d1, o, fb),
    ensures
        entry_wf(d2, o, fb),
        entry_len(d2, o) == entry_len(d1, o),
        entry_overlap(d2, o) == entry_overlap(d1, o),
        entry_suffix(d2, o) == entry_suffix(d1, o),
        entry_model(d2, o, fb) == entry_model(d1, o, fb),
{
    assert forall|i: int| 0 <= i < d1.len() implies d1[i] == d2[i] by {
        assert(d2.take(d1.len() as int)[i] == d2[i]);
    }
    assert(be16_at(d2, o) == be16_at(d1, o));
    assert(be16_at(d2, o + 2) == be16_at(d1, o + 2));
    let sl = entry_suffix_len(d1, o);
    assert(entry_suffix(d2, o) =~= entry_suffix(d1, o));
    assert(be64_at(d2, o + 4 + sl) == be64_at(d1, o + 4 + sl));
    assert(be16_at(d2, o + 12 + sl) == be16_at(d1, o + 12 + sl));
    assert(entry_value(d2, o) =~= entry_value(d1, o));
}

/// Prefixes compose: if `b` extends `a` and `c` extends `b`, `c` extends `a`.
pub proof fn lemma_prefix_trans(a: Seq<u8>, b: Seq<u8>, c: Seq<u8>)
    requires
        a.len() <= b.len() <= c.len(),
        b.take(a.len() as int) == a,
        c.take(b.len() as int) == b,
    ensures
        c.take(a.len() as int) == a,
{
    assert forall|i: int| 0 <= i < a.len() implies c[i] == a[i] by {
        assert(c.take(b.len() as int)[i] == c[i]);
        assert(b.take(a.len() as int)[i] == b[i]);
    }
    assert(c.take(a.len() as int) =~= a);
}

/// A 16-bit read below the old length is unchanged by appending.
pub proof fn lemma_be16_stable(d1: Seq<u8>, d2: Seq<u8>, i: int)
    requires
        0 <= i,
        i + 2 <= d1.len() <= d2.len(),
        d2.take(d1.len() as int) == d1,
    ensures
        be16_at(d2, i) == be16_at(d1, i),
{
    assert(d2.take(d1.len() as int)[i] == d2[i]);
    assert(d2.take(d1.len() as int)[i + 1] == d2[i + 1]);
}

/// A 64-bit read below the old length is unchanged by appending.
pub proof fn lemma_be64_stable(d1: Seq<u8>, d2: Seq<u8>, i: int)
    requires
        0 <= i,
        i + 8 <= d1.len() <= d2.len(),
        d2.take(d1.len() as int) == d1,
    ensures
        be64_at(d2, i) == be64_at(d1, i),
{
    assert forall|j: int| i <= j < i + 8 implies d2[j] == d1[j] by {
        assert(d2.take(d1.len() as int)[j] == d2[j]);
    }
}

/// A subrange below the old length is unchanged by appending.
pub proof fn lemma_subrange_stable(d1: Seq<u8>, d2: Seq<u8>, a: int, b: int)
    requires
        0 <= a <= b <= d1.len() <= d2.len(),
        d2.take(d1.len() as int) == d1,
    ensures
        d2.subrange(a, b) == d1.subrange(a, b),
{
    assert forall|j: int| a <= j < b implies d2[j] == d1[j] by {
        assert(d2.take(d1.len() as int)[j] == d2[j]);
    }
    assert(d2.subrange(a, b) =~= d1.subrange(a, b));
}

/// Reads the 16-bit big-endian integer at byte offset `i`.
pub(crate) fn read_u16(d: &Vec<u8>, i: usize) -> (r: u16)
    requires
        i + 2 <= d@.len(),
    ensures
        r as int == be16_at(d@, i as int),
{
    // the exec length pins the buffer's size, so the index sums fit usize
    let n = d.len();
    (d[i] as u16) * 0x100 + (d[i + 1] as u16)
}

/// Reads the 64-bit big-endian integer at byte offset `i`.
pub(crate) fn read_u64(d: &Vec<u8>, i: usize) -> (r: u64)
    requires
        i + 8 <= d@.len(),
    ensures
        r as int == be64_at(d@, i as int),
{
    // the exec length pins the buffer's size, so the index sums fit usize
    let n = d.len();
    let mut r: u64 = d[i] as u64;
    r = r * 0x100 + (d[i + 1] as u64);
    r = r * 0x100 + (d[i + 2] as u64);
    r = r * 0x100 + (d[i + 3] as u64);
    r = r * 0x100 + (d[i + 4] as u64);
    r = r * 0x100 + (d[i + 5] as u64);
    r = r * 0x100 + (d[i + 6] as u64);
    r = r * 0x100 + (d[i + 7] as u64);
    r
}

/// Appends the 16-bit big-endian encoding of `x`.
pub(crate) fn push_u16(d: &mut Vec<u8>, x: u16)
    ensures
        final(d)@ == old(d)@ + u16_be(x as int),
        final(d)@.len() == old(d)@.len() + 2,
        final(d)@.take(old(d)@.len() as int) == old(d)@,
        be16_at(final(d)@, old(d)@.len() as int) == x as int,
{
    let hi = (x / 0x100) as u8;
    let lo = (x % 0x100) as u8;
    d.push(hi);
    d.push(lo);
    proof {
        assert(final(d)@ =~= old(d)@ + u16_be(x as int));
        assert(final(d)@.take(old(d)@.len() as int) =~= old(d)@);
    }
}

/// Appends the 64-bit big-endian encoding of `x`.
pub(crate) fn push_u64(d: &mut Vec<u8>, x: u64)
    ensures
        final(d)@ == old(d)@ + u64_be(x),
        final(d)@.len() == old(d)@.len() + 8,
        final(d)@.take(old(d)@.len() as int) == old(d)@,
        be64_at(final(d)@, old(d)@.len() as int) == x as int,
{
    proof {
        vstd::arithmetic::div_mod::lemma_div_denominator(x as int, 0x100, 0x100);
        vstd::arithmetic::div_mod::lemma_div_denominator(x as int, 0x10000, 0x100);
        vstd::arithmetic::div_mod::lemma_div_denominator(x as int, 0x1000000, 0x100);
        vstd::arithmetic::div_mod::lemma_div_denominator(x as int, 0x100000000, 0x100);
        vstd::arithmetic::div_mod::lemma_div_denominator(x as int, 0x10000000000, 0x100);
        vstd::arithmetic::div_mod::lemma_div_denominator(x as int, 0x1000000000000, 0x100);
    }
    let mut q: u64 = x;
    let b7 = (q % 0x100) as u8;
    q = q / 0x100;
    let b6 = (q % 0x100) as u8;
    q = q / 0x100;
    let b5 = (q % 0x100) as u8;
    q = q / 0x100;
    let b4 = (q % 0x100) as u8;
    q = q / 0x100;
    let b3 = (q % 0x100) as u8;
    q = q / 0x100;
    let b2 = (q % 0x100) as u8;
    q = q / 0x100;
    let b1 = (q % 0x100) as u8;
    q = q / 0x100;
    let b0 = (q % 0x100) as u8;
    q = q / 0x100;
    assert(q == 0);
    d.push(b0);
    d.push(b1);
    d.push(b2);
    d.push(b3);
    d.push(b4);
    d.push(b5);
    d.push(b6);
    d.push(b7);
    proof {
        assert(final(d)@ =~= old(d)@ + u64_be(x));
        assert(final(d)@.take(old(d)@.len() as int) =~= old(d)@);
    }
}

/// Appends `src[from..to]`.
pub(crate) fn push_byte_range(d: &mut Vec<u8>, src: &Vec<u8>, from: usize, to: usize)
    requires
        from <= to <= src@.len(),
    ensures
        final(d)@ == old(d)@ + src@.subrange(from as int, to as int),
{
    let mut i: usize = from;
    while i < to
        invariant
            from <= i <= to <= src@.len(),
            d@ == old(d)@ + src@.subrange(from as int, i as int),
        decreases to - i,
    {
        d.push(src[i]);
        proof {
            assert(d@ =~= old(d)@ + src@.subrange(from as int, i + 1));
        }
        i += 1;
    }
}

/// Appends every byte of `src`.
pub(crate) fn push_bytes(d: &mut Vec<u8>, src: &[u8])
    ensures
        final(d)@ == old(d)@ + src@,
{
    let mut i: usize = 0;
    let n = src.len();
    while i < n
        invariant
            n == src@.len(),
            i <= n,
            d@ == old(d)@ + src@.take(i as int),
        decreases n - i,
    {
        d.push(*vstd::slice::slice_index_get(src, i));
        proof {
            assert(d@ =~= old(d)@ + src@.take(i + 1));
        }
        i += 1;
    }
    proof {
        assert(src@.take(src@.len() as int) =~= src@);
    }
}

} // verus!
