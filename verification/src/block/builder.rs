//! Builds a block: packs sorted entries into a growing buffer under a size
//! budget, prefix-compressing each key against the block's first key.

use vstd::prelude::*;

use crate::block::Block;
use crate::block::EntryModel;
use crate::block::be16_at;
use crate::block::be64_at;
use crate::block::block_entries;
use crate::block::block_wf;
use crate::block::entry_key_bytes;
use crate::block::entry_len;
use crate::block::entry_suffix;
use crate::block::entry_model;
use crate::block::entry_overlap;
use crate::block::entry_value;
use crate::block::entry_version;
use crate::block::entry_wf;
use crate::block::first_key_bytes;
use crate::block::u16_be;
use crate::block::u64_be;
use crate::block::lemma_be16_stable;
use crate::block::lemma_be64_stable;
use crate::block::lemma_entry_stable;
use crate::block::lemma_prefix_trans;
use crate::block::lemma_subrange_stable;
use crate::block::push_byte_range;
use crate::block::push_bytes;
use crate::block::push_u16;
use crate::block::push_u64;
use crate::key::KeyModel;
use crate::key::KeyVec;

verus! {

/// Length of the longest shared byte prefix of `a` and `b`.
pub open spec fn common_prefix_len(a: Seq<u8>, b: Seq<u8>) -> int
    decreases a.len(),
{
    if a.len() == 0 || b.len() == 0 || a[0] != b[0] {
        0
    } else {
        1 + common_prefix_len(a.drop_first(), b.drop_first())
    }
}

/// The overlap an entry with key bytes `kb` is stored with: the shared
/// prefix with the first key already in the block, or zero when the block is
/// still empty.
pub open spec fn spec_overlap_with_first(entries: Seq<EntryModel>, kb: Seq<u8>) -> int {
    if entries.len() == 0 {
        0
    } else {
        common_prefix_len(entries[0].key.bytes, kb)
    }
}

/// Serialized form of one entry against the block's first key `first`:
/// overlap length, suffix length, key suffix, version, value length and
/// value bytes, with all integers big-endian.
pub open spec fn encode_entry(first: Seq<u8>, key: KeyModel, value: Seq<u8>) -> Seq<u8> {
    u16_be(common_prefix_len(first, key.bytes)) + u16_be(
        key.bytes.len() - common_prefix_len(first, key.bytes),
    ) + key.bytes.skip(common_prefix_len(first, key.bytes)) + u64_be(key.version) + u16_be(
        value.len() as int,
    ) + value
}

/// The six appended segments together are the serialized entry.
proof fn lemma_assemble_encoding(
    d: Seq<u8>,
    old_data: Seq<u8>,
    d1: Seq<u8>,
    d2: Seq<u8>,
    d3: Seq<u8>,
    d4: Seq<u8>,
    d5: Seq<u8>,
    first: Seq<u8>,
    key: KeyModel,
    value: Seq<u8>,
)
    requires
        d1 == old_data + u16_be(common_prefix_len(first, key.bytes)),
        d2 == d1 + u16_be(key.bytes.len() - common_prefix_len(first, key.bytes)),
        d3 == d2 + key.bytes.skip(common_prefix_len(first, key.bytes)),
        d4 == d3 + u64_be(key.version),
        d5 == d4 + u16_be(value.len() as int),
        d == d5 + value,
    ensures
        d == old_data + encode_entry(first, key, value),
{
    assert(d =~= old_data + encode_entry(first, key, value));
}

/// The shared prefix is a prefix of both sequences, matches elementwise, and
/// is maximal.
pub proof fn lemma_common_prefix(a: Seq<u8>, b: Seq<u8>)
    ensures
        0 <= common_prefix_len(a, b) <= a.len(),
        common_prefix_len(a, b) <= b.len(),
        forall|j: int| 0 <= j < common_prefix_len(a, b) ==> a[j] == b[j],
        common_prefix_len(a, b) < a.len() && common_prefix_len(a, b) < b.len()
            ==> a[common_prefix_len(a, b)] != b[common_prefix_len(a, b)],
    decreases a.len(),
{
    if a.len() > 0 && b.len() > 0 && a[0] == b[0] {
        lemma_common_prefix(a.drop_first(), b.drop_first());
        let c = common_prefix_len(a, b);
        assert forall|j: int| 0 <= j < c implies a[j] == b[j] by {
            if j > 0 {
                assert(a.drop_first()[j - 1] == b.drop_first()[j - 1]);
            }
        }
        if c < a.len() && c < b.len() {
            assert(a.drop_first()[c - 1] != b.drop_first()[c - 1]);
        }
    }
}

/// Prefix compression round-trips: cutting a key at its overlap with the
/// first key and re-concatenating the first key's prefix with the suffix
/// reproduces the key exactly, and the overlap is at least as long as any
/// shared prefix of the two keys.
pub proof fn lemma_prefix_compression(first: Seq<u8>, key: Seq<u8>)
    ensures
        first.take(common_prefix_len(first, key)) + key.skip(common_prefix_len(first, key))
            == key,
        forall|l: int|
            0 <= l <= first.len() && l <= key.len() && first.take(l) == key.take(l)
                ==> l <= common_prefix_len(first, key),
{
    lemma_common_prefix(first, key);
    let c = common_prefix_len(first, key);
    assert(first.take(c) + key.skip(c) =~= key);
    assert forall|l: int|
        0 <= l <= first.len() && l <= key.len() && first.take(l) == key.take(l) implies l
        <= c by {
        if l > c {
            assert(first.take(l)[c] == key.take(l)[c]);
        }
    }
}

proof fn lemma_common_prefix_scan(a: Seq<u8>, b: Seq<u8>, i: int)
    requires
        0 <= i <= a.len(),
        i <= b.len(),
        forall|j: int| 0 <= j < i ==> a[j] == b[j],
        i == a.len() || i == b.len() || a[i] != b[i],
    ensures
        common_prefix_len(a, b) == i,
    decreases i,
{
    if i == 0 {
    } else {
        assert(a[0] == b[0]);
        lemma_common_prefix_scan(a.drop_first(), b.drop_first(), i - 1);
    }
}

/// Length of the shared byte prefix of `first_key` and `key`.
pub fn compute_overlap(first_key: &KeyVec, key: &KeyVec) -> (r: usize)
    ensures
        r == common_prefix_len(first_key@.bytes, key@.bytes),
{
    let a_len = first_key.bytes.len();
    let b_len = key.bytes.len();
    let n = if a_len < b_len { a_len } else { b_len };
    let mut i: usize = 0;
    loop
        invariant
            n <= a_len == first_key.bytes@.len(),
            n <= b_len == key.bytes@.len(),
            n == if a_len < b_len { a_len as int } else { b_len as int },
            i <= n,
            forall|j: int| 0 <= j < i ==> first_key.bytes@[j] == key.bytes@[j],
        decreases n - i,
    {
        if i >= n {
            proof {
                lemma_common_prefix_scan(first_key@.bytes, key@.bytes, i as int);
            }
            return i;
        }
        if first_key.bytes[i] != key.bytes[i] {
            proof {
                lemma_common_prefix_scan(first_key@.bytes, key@.bytes, i as int);
            }
            return i;
        }
        i += 1;
    }
}

/// Builds a block.
pub struct BlockBuilder {
    /// Offsets of the entries appended so far.
    offsets: Vec<u16>,
    /// Serialized entries appended so far.
    data: Vec<u8>,
    /// The soft maximum serialized block size in bytes.
    block_size: usize,
    /// The first key in the block; empty until the first entry is accepted.
    first_key: KeyVec,
}

impl BlockBuilder {
    /// No entry has been accepted yet.
    pub closed spec fn spec_is_empty(&self) -> bool {
        self.offsets@.len() == 0
    }

    /// The entries accepted so far, in order.
    pub closed spec fn entries(&self) -> Seq<EntryModel> {
        block_entries(self.data@, self.offsets@)
    }

    pub closed spec fn spec_block_size(&self) -> int {
        self.block_size as int
    }

    /// The serialized entry data accumulated so far.
    pub closed spec fn spec_data(&self) -> Seq<u8> {
        self.data@
    }

    /// The entry offsets accumulated so far.
    pub closed spec fn spec_offsets(&self) -> Seq<u16> {
        self.offsets@
    }

    /// Bytes of serialized entry data held so far. Entry offsets are 16-bit,
    /// so the data region can never grow past 0xFFFF bytes.
    pub closed spec fn spec_data_size(&self) -> int {
        self.data@.len() as int
    }

    /// Serialized size of the block built from the current state: data, two
    /// bytes per offset, and a two-byte entry count footer.
    pub closed spec fn spec_estimated_size(&self) -> int {
        self.data@.len() as int + self.offsets@.len() * 2 + 2
    }

    pub closed spec fn wf(&self) -> bool {
        &&& self.data@.len() <= 0xFFFF
        &&& self.offsets@.len() * 14 <= self.data@.len()
        &&& if self.offsets@.len() == 0 {
            self.data@.len() == 0 && self.first_key@.bytes.len() == 0
        } else {
            &&& block_wf(self.data@, self.offsets@)
            &&& self.first_key@.bytes == first_key_bytes(self.data@)
            &&& self.first_key@.version == entry_version(self.data@, 0)
        }
    }

    /// Creates a new block builder targeting `block_size` bytes.
    pub fn new(block_size: usize) -> (r: BlockBuilder)
        ensures
            r.wf(),
            r.spec_is_empty(),
            r.entries() == Seq::<EntryModel>::empty(),
            r.spec_block_size() == block_size,
            r.spec_data() == Seq::<u8>::empty(),
            r.spec_offsets() == Seq::<u16>::empty(),
            r.spec_data_size() == 0,
            r.spec_estimated_size() == 2,
    {
        let r = BlockBuilder {
            offsets: Vec::new(),
            data: Vec::new(),
            block_size,
            first_key: KeyVec::new(),
        };
        proof {
            assert(r.entries() =~= Seq::<EntryModel>::empty());
            assert(r.spec_data() =~= Seq::<u8>::empty());
            assert(r.spec_offsets() =~= Seq::<u16>::empty());
        }
        r
    }

    /// Serialized size of the block built from the current state.
    fn estimated_size(&self) -> (r: usize)
        requires
            self.wf(),
        ensures
            r == self.spec_estimated_size(),
    {
        self.data.len() + self.offsets.len() * 2 + 2
    }

    /// True if no key-value pair is in the block yet.
    pub fn is_empty(&self) -> (r: bool)
        ensures
            r == self.spec_is_empty(),
    {
        self.offsets.len() == 0
    }

    /// Adds a key-value pair to the block. Returns false when the block is
    /// full: the entry would push the estimated size past the budget and the
    /// builder already holds an entry. The very first entry is always
    /// accepted, even if it alone exceeds the budget.
    ///
    /// The data-region bound is stated over the key's full length rather
    /// than its stored, prefix-compressed length, so a caller need not
    /// compute the overlap to meet it; it keeps every entry offset within
    /// the format's 16-bit range with room to spare.
    #[verifier::rlimit(100)]
    #[verifier::spinoff_prover]
    pub fn add(&mut self, key: &KeyVec, value: &[u8]) -> (r: bool)
        requires
            old(self).wf(),
            key@.bytes.len() >= 1,
            old(self).spec_data_size() + 14 + key@.bytes.len() + value@.len() <= 0xFFFF,
        ensures
            final(self).wf(),
            final(self).spec_block_size() == old(self).spec_block_size(),
            r ==> final(self).spec_data_size() == old(self).spec_data_size() + 14
                + key@.bytes.len() + value@.len() - spec_overlap_with_first(
                old(self).entries(),
                key@.bytes,
            ),
            r ==> final(self).spec_estimated_size() == old(self).spec_estimated_size() + 16
                + key@.bytes.len() + value@.len() - spec_overlap_with_first(
                old(self).entries(),
                key@.bytes,
            ),
            r == (old(self).spec_is_empty() || old(self).spec_estimated_size() + key@.bytes.len()
                + 8 + value@.len() + 6 <= old(self).spec_block_size()),
            !r ==> *final(self) == *old(self),
            r ==> final(self).entries() == old(self).entries().push(
                EntryModel { key: key@, value: value@ },
            ),
            r ==> final(self).spec_data() == old(self).spec_data() + encode_entry(
                if old(self).spec_is_empty() {
                    Seq::<u8>::empty()
                } else {
                    old(self).entries()[0].key.bytes
                },
                key@,
                value@,
            ),
            r ==> final(self).spec_offsets() == old(self).spec_offsets().push(
                old(self).spec_data_size() as u16,
            ),
            !r ==> final(self).spec_data() == old(self).spec_data() && final(self).spec_offsets()
                == old(self).spec_offsets(),
            r ==> !final(self).spec_is_empty(),
    {
        if !self.is_empty() {
            let est = self.estimated_size();
            if est + (key.key_len() + 8) + value.len() + 2 * 3 > self.block_size {
                return false;
            }
        }
        let ghost old_data = self.data@;
        let ghost old_offs = self.offsets@;
        let ghost fb = first_key_bytes(old_data);
        let off = self.data.len() as u16;
        let overlap = compute_overlap(&self.first_key, key);
        proof {
            lemma_common_prefix(self.first_key@.bytes, key@.bytes);
        }
        self.offsets.push(off);
        push_u16(&mut self.data, overlap as u16);
        let ghost d1 = self.data@;
        push_u16(&mut self.data, (key.key_len() - overlap) as u16);
        let ghost d2 = self.data@;
        push_byte_range(&mut self.data, &key.bytes, overlap, key.bytes.len());
        let ghost d3 = self.data@;
        push_u64(&mut self.data, key.version);
        let ghost d4 = self.data@;
        push_u16(&mut self.data, value.len() as u16);
        let ghost d5 = self.data@;
        push_bytes(&mut self.data, value);
        let was_empty = self.first_key.is_empty();
        if was_empty {
            self.first_key = key.to_key_vec();
        }
        proof {
            let d = self.data@;
            let o = old_data.len() as int;
            let sl = key@.bytes.len() - overlap;
            assert(d3.take(d2.len() as int) =~= d2);
            assert(d.take(d5.len() as int) =~= d5);
            lemma_prefix_trans(d4, d5, d);
            lemma_prefix_trans(d3, d4, d);
            lemma_prefix_trans(d2, d3, d);
            lemma_prefix_trans(d1, d2, d);
            lemma_prefix_trans(old_data, d1, d);
            lemma_be16_stable(d1, d, o);
            lemma_be16_stable(d2, d, o + 2);
            lemma_subrange_stable(d3, d, o + 4, o + 4 + sl);
            assert(d3.subrange(o + 4, o + 4 + sl) =~= key@.bytes.skip(overlap as int));
            lemma_be64_stable(d4, d, o + 4 + sl);
            lemma_be16_stable(d5, d, o + 12 + sl);
            assert(d.subrange(o + 14 + sl, d.len() as int) =~= value@);
            if old_offs.len() > 0 {
                assert(fb.take(overlap as int) =~= key@.bytes.take(overlap as int));
            }
            let first = if old_offs.len() == 0 {
                Seq::<u8>::empty()
            } else {
                block_entries(old_data, old_offs)[0].key.bytes
            };
            assert(overlap == common_prefix_len(first, key@.bytes)) by {
                if old_offs.len() == 0 {
                    assert(old(self).first_key@.bytes =~= Seq::<u8>::empty());
                } else {
                    assert(block_entries(old_data, old_offs)[0].key.bytes =~= fb) by {
                        assert(fb.take(0) =~= Seq::<u8>::empty());
                        assert(Seq::<u8>::empty() + entry_suffix(old_data, 0) =~= entry_suffix(
                            old_data,
                            0,
                        ));
                    }
                }
            }
            assert(d3 == d2 + key@.bytes.skip(overlap as int)) by {
                assert(key@.bytes.subrange(overlap as int, key@.bytes.len() as int)
                    =~= key@.bytes.skip(overlap as int));
            }
            lemma_assemble_encoding(
                d,
                old_data,
                d1,
                d2,
                d3,
                d4,
                d5,
                first,
                key@,
                value@,
            );
            self.lemma_add_restores(old_data, old_offs, key@, value@, overlap as int);
        }
        true
    }

    /// The state after a successful append is well formed and its entries are
    /// the old entries plus the new one.
    #[verifier::rlimit(100)]
    proof fn lemma_add_restores(
        &self,
        old_data: Seq<u8>,
        old_offs: Seq<u16>,
        key: KeyModel,
        value: Seq<u8>,
        overlap: int,
    )
        requires
            key.bytes.len() >= 1,
            old_data.len() + 14 + key.bytes.len() + value.len() <= 0xFFFF,
            old_offs.len() * 14 <= old_data.len(),
            old_offs.len() == 0 ==> old_data.len() == 0,
            old_offs.len() > 0 ==> block_wf(old_data, old_offs),
            overlap == if old_offs.len() == 0 {
                0
            } else {
                common_prefix_len(first_key_bytes(old_data), key.bytes)
            },
            0 <= overlap <= key.bytes.len(),
            old_offs.len() > 0 ==> overlap <= first_key_bytes(old_data).len(),
            old_offs.len() > 0 ==> first_key_bytes(old_data).take(overlap) == key.bytes.take(
                overlap,
            ),
            self.offsets@ == old_offs.push(old_data.len() as u16),
            self.data@.len() == old_data.len() + 14 + (key.bytes.len() - overlap) + value.len(),
            self.data@.take(old_data.len() as int) == old_data,
            be16_at(self.data@, old_data.len() as int) == overlap,
            be16_at(self.data@, old_data.len() as int + 2) == key.bytes.len() - overlap,
            self.data@.subrange(
                old_data.len() as int + 4,
                old_data.len() as int + 4 + (key.bytes.len() - overlap),
            ) == key.bytes.skip(overlap),
            be64_at(self.data@, old_data.len() as int + 4 + (key.bytes.len() - overlap))
                == key.version,
            be16_at(self.data@, old_data.len() as int + 12 + (key.bytes.len() - overlap))
                == value.len(),
            self.data@.subrange(
                old_data.len() as int + 14 + (key.bytes.len() - overlap),
                self.data@.len() as int,
            ) == value,
            self.first_key@.bytes == if old_offs.len() == 0 {
                key.bytes
            } else {
                first_key_bytes(old_data)
            },
            self.first_key@.version == if old_offs.len() == 0 {
                key.version
            } else {
                entry_version(old_data, 0)
            },
        ensures
            self.wf(),
            self.entries() == block_entries(old_data, old_offs).push(
                EntryModel { key, value },
            ),
    {
        let d = self.data@;
        let offs = self.offsets@;
        let o = old_data.len() as int;
        if old_offs.len() == 0 {
            lemma_block_first_entry(d, offs, key, value);
            assert(block_entries(old_data, old_offs).push(EntryModel { key, value })
                =~= block_entries(d, offs));
        } else {
            lemma_block_push_entry(d, offs, old_data, old_offs, key, value, overlap);
        }
    }

    /// An empty builder holds no decoded entries, and a non-empty one holds
    /// at least one.
    pub proof fn lemma_empty_iff_no_entries(&self)
        ensures
            self.spec_is_empty() <==> self.entries().len() == 0,
    {
    }

    /// Finalizes the builder into an immutable block. The builder must hold
    /// at least one entry.
    pub fn build(self) -> (b: Block)
        requires
            self.wf(),
            !self.spec_is_empty(),
        ensures
            b.wf(),
            b.entries() == self.entries(),
            b.data@ == self.spec_data(),
            b.offsets@ == self.spec_offsets(),
    {
        Block { data: self.data, offsets: self.offsets }
    }
}

/// Appending bytes to a well-formed block's buffer leaves every existing
/// entry, and the first key, decoding as before.
proof fn lemma_append_keeps_old_entries(d: Seq<u8>, old_data: Seq<u8>, old_offs: Seq<u16>)
    requires
        block_wf(old_data, old_offs),
        old_data.len() <= d.len(),
        d.take(old_data.len() as int) == old_data,
    ensures
        first_key_bytes(d) == first_key_bytes(old_data),
        entry_overlap(d, 0) == entry_overlap(old_data, 0),
        forall|i: int|
            0 <= i < old_offs.len() ==> entry_wf(
                d,
                #[trigger] old_offs[i] as int,
                first_key_bytes(old_data),
            ),
        forall|i: int|
            0 <= i < old_offs.len() ==> entry_model(
                d,
                #[trigger] old_offs[i] as int,
                first_key_bytes(old_data),
            ) == entry_model(old_data, old_offs[i] as int, first_key_bytes(old_data)),
        forall|i: int|
            0 <= i < old_offs.len() ==> entry_len(d, #[trigger] old_offs[i] as int) == entry_len(
                old_data,
                old_offs[i] as int,
            ),
{
    let fb = first_key_bytes(old_data);
    assert(entry_wf(old_data, 0, fb));
    lemma_entry_stable(old_data, d, 0, fb);
    assert forall|i: int| 0 <= i < old_offs.len() implies entry_wf(
        d,
        #[trigger] old_offs[i] as int,
        fb,
    ) && entry_model(d, old_offs[i] as int, fb) == entry_model(
        old_data,
        old_offs[i] as int,
        fb,
    ) && entry_len(d, old_offs[i] as int) == entry_len(old_data, old_offs[i] as int) by {
        lemma_entry_stable(old_data, d, old_offs[i] as int, fb);
    }
}

/// A buffer holding exactly one entry, stored with overlap 0, is a
/// well-formed block whose single entry is the given one.
proof fn lemma_block_first_entry(d: Seq<u8>, offs: Seq<u16>, key: KeyModel, value: Seq<u8>)
    requires
        offs.len() == 1,
        offs[0] == 0,
        key.bytes.len() >= 1,
        d.len() == 14 + key.bytes.len() + value.len(),
        be16_at(d, 0) == 0,
        be16_at(d, 2) == key.bytes.len(),
        d.subrange(4, 4 + key.bytes.len() as int) == key.bytes.skip(0),
        be64_at(d, 4 + key.bytes.len() as int) == key.version,
        be16_at(d, 12 + key.bytes.len() as int) == value.len(),
        d.subrange(14 + key.bytes.len() as int, d.len() as int) == value,
    ensures
        block_wf(d, offs),
        first_key_bytes(d) == key.bytes,
        entry_version(d, 0) == key.version,
        block_entries(d, offs) == Seq::empty().push(EntryModel { key, value }),
{
    assert(first_key_bytes(d) == key.bytes) by {
        assert(key.bytes.skip(0) =~= key.bytes);
    }
    let fb = first_key_bytes(d);
    assert(fb.take(0) =~= key.bytes.take(0));
    lemma_new_entry_parses(d, 0, fb, key, value, 0);
    assert forall|i: int| 0 <= i < offs.len() implies entry_wf(
        d,
        #[trigger] offs[i] as int,
        fb,
    ) by {
        assert(i == 0 && offs[i] == 0);
    }
    assert(block_entries(d, offs) =~= Seq::empty().push(EntryModel { key, value }));
}

/// Appending one more entry to a well-formed block's buffers yields a
/// well-formed block whose entries are the old ones plus the new one.
#[verifier::rlimit(100)]
proof fn lemma_block_push_entry(
    d: Seq<u8>,
    offs: Seq<u16>,
    old_data: Seq<u8>,
    old_offs: Seq<u16>,
    key: KeyModel,
    value: Seq<u8>,
    overlap: int,
)
    requires
        block_wf(old_data, old_offs),
        offs == old_offs.push(old_data.len() as u16),
        old_data.len() + 14 + key.bytes.len() + value.len() <= 0xFFFF,
        key.bytes.len() >= 1,
        0 <= overlap <= key.bytes.len(),
        overlap <= first_key_bytes(old_data).len(),
        first_key_bytes(old_data).take(overlap) == key.bytes.take(overlap),
        d.len() == old_data.len() + 14 + (key.bytes.len() - overlap) + value.len(),
        d.take(old_data.len() as int) == old_data,
        be16_at(d, old_data.len() as int) == overlap,
        be16_at(d, old_data.len() as int + 2) == key.bytes.len() - overlap,
        d.subrange(
            old_data.len() as int + 4,
            old_data.len() as int + 4 + (key.bytes.len() - overlap),
        ) == key.bytes.skip(overlap),
        be64_at(d, old_data.len() as int + 4 + (key.bytes.len() - overlap)) == key.version,
        be16_at(d, old_data.len() as int + 12 + (key.bytes.len() - overlap)) == value.len(),
        d.subrange(
            old_data.len() as int + 14 + (key.bytes.len() - overlap),
            d.len() as int,
        ) == value,
    ensures
        block_wf(d, offs),
        first_key_bytes(d) == first_key_bytes(old_data),
        entry_version(d, 0) == entry_version(old_data, 0),
        block_entries(d, offs) == block_entries(old_data, old_offs).push(
            EntryModel { key, value },
        ),
{
    let o = old_data.len() as int;
    let fb = first_key_bytes(old_data);
    assert(entry_wf(old_data, 0, fb));
    lemma_append_keeps_old_entries(d, old_data, old_offs);
    assert(entry_version(d, 0) == entry_version(old_data, 0)) by {
        lemma_entry_stable(old_data, d, 0, fb);
    }
    lemma_new_entry_parses(d, o, fb, key, value, overlap);
    lemma_assemble_wf(d, offs, old_data, old_offs);
    lemma_assemble_entries(d, offs, old_data, old_offs, EntryModel { key, value });
}

/// Assembles well-formedness of the grown block from per-entry facts.
proof fn lemma_assemble_wf(d: Seq<u8>, offs: Seq<u16>, old_data: Seq<u8>, old_offs: Seq<u16>)
    requires
        block_wf(old_data, old_offs),
        offs == old_offs.push(old_data.len() as u16),
        old_data.len() <= 0xFFFF,
        first_key_bytes(d) == first_key_bytes(old_data),
        entry_overlap(d, 0) == entry_overlap(old_data, 0),
        forall|i: int|
            0 <= i < old_offs.len() ==> entry_wf(
                d,
                #[trigger] old_offs[i] as int,
                first_key_bytes(old_data),
            ),
        forall|i: int|
            0 <= i < old_offs.len() ==> entry_len(d, #[trigger] old_offs[i] as int) == entry_len(
                old_data,
                old_offs[i] as int,
            ),
        entry_wf(d, old_data.len() as int, first_key_bytes(old_data)),
        old_data.len() + entry_len(d, old_data.len() as int) == d.len(),
    ensures
        block_wf(d, offs),
{
    let o = old_data.len() as int;
    let n = offs.len() as int;
    let fb = first_key_bytes(old_data);
    assert(offs[0] == old_offs[0]);
    assert forall|i: int| 0 <= i < n implies entry_wf(d, #[trigger] offs[i] as int, fb) by {
        if i < n - 1 {
            assert(offs[i] == old_offs[i]);
        } else {
            assert(offs[i] as int == o);
        }
    }
    assert forall|i: int| 0 <= i < n - 1 implies (#[trigger] offs[i] as int) + entry_len(
        d,
        offs[i] as int,
    ) == offs[i + 1] by {
        if i < n - 2 {
            assert(offs[i] == old_offs[i] && offs[i + 1] == old_offs[i + 1]);
        } else {
            assert(offs[i] == old_offs[old_offs.len() - 1]);
        }
    }
    assert(offs[n - 1] as int + entry_len(d, offs[n - 1] as int) == d.len());
}

/// Assembles the grown block's entry sequence from per-entry facts.
proof fn lemma_assemble_entries(
    d: Seq<u8>,
    offs: Seq<u16>,
    old_data: Seq<u8>,
    old_offs: Seq<u16>,
    e: EntryModel,
)
    requires
        offs == old_offs.push(old_data.len() as u16),
        old_data.len() <= 0xFFFF,
        first_key_bytes(d) == first_key_bytes(old_data),
        forall|i: int|
            0 <= i < old_offs.len() ==> entry_model(
                d,
                #[trigger] old_offs[i] as int,
                first_key_bytes(old_data),
            ) == entry_model(old_data, old_offs[i] as int, first_key_bytes(old_data)),
        entry_model(d, old_data.len() as int, first_key_bytes(old_data)) == e,
    ensures
        block_entries(d, offs) == block_entries(old_data, old_offs).push(e),
{
    let o = old_data.len() as int;
    let n = offs.len() as int;
    assert(block_entries(d, offs) =~= block_entries(old_data, old_offs).push(e)) by {
        assert forall|i: int| 0 <= i < n - 1 implies block_entries(d, offs)[i] == block_entries(
            old_data,
            old_offs,
        )[i] by {
            assert(offs[i] == old_offs[i]);
        }
        assert(offs[n - 1] as int == o);
        assert(block_entries(d, offs)[n - 1] == e);
    }
}

/// The freshly appended bytes at `o` decode to exactly the given entry.
proof fn lemma_new_entry_parses(
    d: Seq<u8>,
    o: int,
    fb: Seq<u8>,
    key: KeyModel,
    value: Seq<u8>,
    overlap: int,
)
    requires
        0 <= o,
        key.bytes.len() >= 1,
        0 <= overlap <= key.bytes.len(),
        overlap <= fb.len(),
        fb.take(overlap) == key.bytes.take(overlap),
        d.len() == o + 14 + (key.bytes.len() - overlap) + value.len(),
        be16_at(d, o) == overlap,
        be16_at(d, o + 2) == key.bytes.len() - overlap,
        d.subrange(o + 4, o + 4 + (key.bytes.len() - overlap)) == key.bytes.skip(overlap),
        be64_at(d, o + 4 + (key.bytes.len() - overlap)) == key.version,
        be16_at(d, o + 12 + (key.bytes.len() - overlap)) == value.len(),
        d.subrange(o + 14 + (key.bytes.len() - overlap), d.len() as int) == value,
    ensures
        entry_wf(d, o, fb),
        entry_len(d, o) == 14 + (key.bytes.len() - overlap) + value.len(),
        entry_model(d, o, fb) == (EntryModel { key, value }),
{
    let sl = key.bytes.len() - overlap;
    assert(entry_suffix(d, o) == key.bytes.skip(overlap));
    assert(entry_key_bytes(d, o, fb) == key.bytes) by {
        assert(key.bytes.take(overlap) + key.bytes.skip(overlap) =~= key.bytes);
    }
    assert(entry_value(d, o) == value);
}

} // verus!
