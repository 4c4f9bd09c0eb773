//! Keys with an embedded version number, and their total order.
//!
//! A key is a byte sequence paired with an unsigned 64-bit version. Keys are
//! ordered by byte content ascending; ties on the bytes are broken by version
//! descending, so the newest version of a user key sorts first.

use vstd::prelude::*;

verus! {

/// Mathematical view of a key-with-version.
pub struct KeyModel {
    pub bytes: Seq<u8>,
    pub version: u64,
}

/// Strict lexicographic order on byte sequences.
pub open spec fn bytes_lt(a: Seq<u8>, b: Seq<u8>) -> bool
    decreases a.len(),
{
    if b.len() == 0 {
        false
    } else if a.len() == 0 {
        true
    } else if a[0] != b[0] {
        a[0] < b[0]
    } else {
        bytes_lt(a.drop_first(), b.drop_first())
    }
}

/// The key-with-version order: bytes ascending, then version descending.
pub open spec fn key_lt(a: KeyModel, b: KeyModel) -> bool {
    bytes_lt(a.bytes, b.bytes) || (a.bytes == b.bytes && a.version > b.version)
}

pub open spec fn key_le(a: KeyModel, b: KeyModel) -> bool {
    key_lt(a, b) || a == b
}

/// Exactly one of `a < b`, `a == b`, `b < a` holds for the byte order.
pub proof fn lemma_bytes_trichotomy(a: Seq<u8>, b: Seq<u8>)
    ensures
        bytes_lt(a, b) ==> !(a == b) && !bytes_lt(b, a),
        a == b ==> !bytes_lt(a, b) && !bytes_lt(b, a),
        bytes_lt(a, b) || a == b || bytes_lt(b, a),
    decreases a.len() + b.len(),
{
    if a.len() == 0 && b.len() == 0 {
        assert(a =~= b);
    } else if a.len() > 0 && b.len() > 0 {
        if a[0] == b[0] {
            lemma_bytes_trichotomy(a.drop_first(), b.drop_first());
            if a.drop_first() == b.drop_first() {
                assert forall|i: int| 0 <= i < a.len() implies a[i] == b[i] by {
                    if i >= 1 {
                        assert(a.drop_first()[i - 1] == b.drop_first()[i - 1]);
                    }
                }
                assert(a =~= b);
            }
            if a == b {
                assert(a.drop_first() =~= b.drop_first());
            }
        } else {
            assert(a != b) by {
                if a == b {
                    assert(a[0] == b[0]);
                }
            }
        }
    }
}

/// The byte order is transitive.
pub proof fn lemma_bytes_lt_trans(a: Seq<u8>, b: Seq<u8>, c: Seq<u8>)
    requires
        bytes_lt(a, b),
        bytes_lt(b, c),
    ensures
        bytes_lt(a, c),
    decreases a.len() + b.len() + c.len(),
{
    if a.len() > 0 && b.len() > 0 && c.len() > 0 {
        if a[0] == b[0] && b[0] == c[0] {
            lemma_bytes_lt_trans(a.drop_first(), b.drop_first(), c.drop_first());
        }
    }
}

/// Exactly one of `a < b`, `a == b`, `b < a` holds for the key order.
pub proof fn lemma_key_trichotomy(a: KeyModel, b: KeyModel)
    ensures
        key_lt(a, b) ==> !(a == b) && !key_lt(b, a),
        a == b ==> !key_lt(a, b) && !key_lt(b, a),
        key_lt(a, b) || a == b || key_lt(b, a),
{
    lemma_bytes_trichotomy(a.bytes, b.bytes);
}

/// The key order is transitive.
pub proof fn lemma_key_lt_trans(a: KeyModel, b: KeyModel, c: KeyModel)
    requires
        key_lt(a, b),
        key_lt(b, c),
    ensures
        key_lt(a, c),
{
    if bytes_lt(a.bytes, b.bytes) && bytes_lt(b.bytes, c.bytes) {
        lemma_bytes_lt_trans(a.bytes, b.bytes, c.bytes);
    }
}

pub proof fn lemma_key_le_trans(a: KeyModel, b: KeyModel, c: KeyModel)
    requires
        key_le(a, b),
        key_le(b, c),
    ensures
        key_le(a, c),
{
    if key_lt(a, b) && key_lt(b, c) {
        lemma_key_lt_trans(a, b, c);
    }
}

/// Result of a three-way comparison of two keys.
pub enum KeyOrdering {
    Less,
    Equal,
    Greater,
}

/// An owned key-with-version.
pub struct KeyVec {
    pub bytes: Vec<u8>,
    pub version: u64,
}

impl View for KeyVec {
    type V = KeyModel;

    open spec fn view(&self) -> KeyModel {
        KeyModel { bytes: self.bytes@, version: self.version }
    }
}

proof fn lemma_bytes_lt_at(a: Seq<u8>, b: Seq<u8>, i: int)
    requires
        0 <= i < a.len(),
        i < b.len(),
        forall|j: int| 0 <= j < i ==> a[j] == b[j],
        a[i] < b[i],
    ensures
        bytes_lt(a, b),
    decreases i,
{
    if i > 0 {
        lemma_bytes_lt_at(a.drop_first(), b.drop_first(), i - 1);
    }
}

proof fn lemma_bytes_lt_prefix(a: Seq<u8>, b: Seq<u8>)
    requires
        a.len() < b.len(),
        forall|j: int| 0 <= j < a.len() ==> a[j] == b[j],
    ensures
        bytes_lt(a, b),
    decreases a.len(),
{
    if a.len() > 0 {
        lemma_bytes_lt_prefix(a.drop_first(), b.drop_first());
    }
}

impl KeyVec {
    /// An empty key: no bytes, version zero.
    pub fn new() -> (r: KeyVec)
        ensures
            r@.bytes.len() == 0,
            r@.version == 0,
    {
        KeyVec { bytes: Vec::new(), version: 0 }
    }

    /// A key owning the given bytes, carrying the given version.
    pub fn from_vec_with_version(bytes: Vec<u8>, version: u64) -> (r: KeyVec)
        ensures
            r@ == (KeyModel { bytes: bytes@, version }),
    {
        KeyVec { bytes, version }
    }

    pub fn is_empty(&self) -> (r: bool)
        ensures
            r == (self@.bytes.len() == 0),
    {
        self.bytes.len() == 0
    }

    pub fn key_len(&self) -> (r: usize)
        ensures
            r == self@.bytes.len(),
    {
        self.bytes.len()
    }

    /// A fresh copy of this key.
    pub fn to_key_vec(&self) -> (r: KeyVec)
        ensures
            r@ == self@,
    {
        let mut bytes: Vec<u8> = Vec::new();
        let mut i: usize = 0;
        while i < self.bytes.len()
            invariant
                i <= self.bytes.len(),
                bytes@ =~= self.bytes@.take(i as int),
            decreases self.bytes.len() - i,
        {
            bytes.push(self.bytes[i]);
            i += 1;
        }
        proof {
            assert(bytes@ =~= self.bytes@);
        }
        KeyVec { bytes, version: self.version }
    }

    /// Three-way comparison by the key-with-version order.
    pub fn compare(&self, other: &KeyVec) -> (r: KeyOrdering)
        ensures
            r is Less <==> key_lt(self@, other@),
            r is Equal <==> self@ == other@,
            r is Greater <==> key_lt(other@, self@),
    {
        proof {
            lemma_key_trichotomy(self@, other@);
        }
        let a_len = self.bytes.len();
        let b_len = other.bytes.len();
        let n = if a_len < b_len { a_len } else { b_len };
        let mut i: usize = 0;
        while i < n
            invariant
                n <= a_len,
                n <= b_len,
                a_len == self.bytes@.len(),
                b_len == other.bytes@.len(),
                n == if a_len < b_len { a_len as int } else { b_len as int },
                i <= n,
                forall|j: int| 0 <= j < i ==> self.bytes@[j] == other.bytes@[j],
            decreases n - i,
        {
            let x = self.bytes[i];
            let y = other.bytes[i];
            if x < y {
                proof {
                    lemma_bytes_lt_at(self@.bytes, other@.bytes, i as int);
                    lemma_key_trichotomy(self@, other@);
                }
                return KeyOrdering::Less;
            }
            if y < x {
                proof {
                    lemma_bytes_lt_at(other@.bytes, self@.bytes, i as int);
                    lemma_key_trichotomy(self@, other@);
                }
                return KeyOrdering::Greater;
            }
            i += 1;
        }
        if a_len < b_len {
            proof {
                lemma_bytes_lt_prefix(self@.bytes, other@.bytes);
            }
            return KeyOrdering::Less;
        }
        if b_len < a_len {
            proof {
                lemma_bytes_lt_prefix(other@.bytes, self@.bytes);
            }
            return KeyOrdering::Greater;
        }
        proof {
            assert(self@.bytes =~= other@.bytes);
        }
        if self.version == other.version {
            KeyOrdering::Equal
        } else if self.version > other.version {
            KeyOrdering::Less
        } else {
            KeyOrdering::Greater
        }
    }
}

} // verus!
