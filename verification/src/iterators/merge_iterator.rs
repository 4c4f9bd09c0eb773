//! Merges multiple sorted sources into one duplicate-resolved stream.
//!
//! The merge iterator holds one distinguished `current` source — the one
//! whose entry is exposed — and a set of other still-valid sources. The
//! current source's key is never greater than any held source's key, ties
//! across sources are won by the lower input index, and advancing drains
//! every held source sitting on the exact same key before the current source
//! moves, so a duplicate entry is never emitted twice. The held set is a
//! plain vector with a linear minimum scan; the cost per advance is linear
//! in the number of live sources rather than logarithmic, with the same
//! observable behavior as a priority queue.

use vstd::prelude::*;

use crate::iterators::IterError;
use crate::iterators::StorageIterator;
use crate::key::KeyModel;
use crate::key::KeyOrdering;
use crate::key::KeyVec;
use crate::key::key_le;
use crate::key::key_lt;
use crate::key::lemma_key_lt_trans;
use crate::key::lemma_key_trichotomy;

verus! {

/// Order of two index-tagged sources: by current key, ties broken by the
/// lower input index.
pub open spec fn source_le<I: StorageIterator>(a: (usize, Box<I>), b: (usize, Box<I>)) -> bool {
    key_lt((*a.1).sp_key(), (*b.1).sp_key()) || ((*a.1).sp_key() == (*b.1).sp_key() && a.0
        <= b.0)
}

/// Combined active-source count of a sequence of tagged sources.
pub open spec fn sum_active<I: StorageIterator>(s: Seq<(usize, Box<I>)>) -> nat
    decreases s.len(),
{
    if s.len() == 0 {
        0
    } else {
        (*s[0].1).sp_active() + sum_active(s.drop_first())
    }
}

/// Combined active-source count of a sequence of sources.
pub open spec fn sum_active_boxes<I: StorageIterator>(s: Seq<Box<I>>) -> nat
    decreases s.len(),
{
    if s.len() == 0 {
        0
    } else {
        (*s[0]).sp_active() + sum_active_boxes(s.drop_first())
    }
}

proof fn lemma_sum_active_push<I: StorageIterator>(s: Seq<(usize, Box<I>)>, x: (usize, Box<I>))
    ensures
        sum_active(s.push(x)) == sum_active(s) + (*x.1).sp_active(),
    decreases s.len(),
{
    if s.len() == 0 {
        assert(s.push(x).drop_first() =~= s);
    } else {
        assert(s.push(x).drop_first() =~= s.drop_first().push(x));
        lemma_sum_active_push(s.drop_first(), x);
    }
}

proof fn lemma_sum_active_remove<I: StorageIterator>(s: Seq<(usize, Box<I>)>, i: int)
    requires
        0 <= i < s.len(),
    ensures
        sum_active(s.remove(i)) + (*s[i].1).sp_active() == sum_active(s),
    decreases s.len(),
{
    if i == 0 {
        assert(s.remove(0) =~= s.drop_first());
    } else {
        assert(s.remove(i).drop_first() =~= s.drop_first().remove(i - 1));
        lemma_sum_active_remove(s.drop_first(), i - 1);
    }
}

proof fn lemma_sum_active_insert<I: StorageIterator>(
    s: Seq<(usize, Box<I>)>,
    i: int,
    x: (usize, Box<I>),
)
    requires
        0 <= i <= s.len(),
    ensures
        sum_active(s.insert(i, x)) == sum_active(s) + (*x.1).sp_active(),
    decreases s.len(),
{
    if i == 0 {
        assert(s.insert(0, x).drop_first() =~= s);
        assert(s.insert(0, x)[0] == x);
    } else {
        assert(s.insert(i, x)[0] == s[0]);
        assert(s.insert(i, x).drop_first() =~= s.drop_first().insert(i - 1, x));
        lemma_sum_active_insert(s.drop_first(), i - 1, x);
    }
}

proof fn lemma_sum_active_take_push<I: StorageIterator>(s: Seq<(usize, Box<I>)>, i: int)
    requires
        0 <= i < s.len(),
    ensures
        sum_active(s.take(i + 1)) == sum_active(s.take(i)) + (*s[i].1).sp_active(),
{
    assert(s.take(i + 1) =~= s.take(i).push(s[i]));
    lemma_sum_active_push(s.take(i), s[i]);
}

proof fn lemma_sum_active_take_le<I: StorageIterator>(s: Seq<(usize, Box<I>)>, i: int)
    requires
        0 <= i <= s.len(),
    ensures
        sum_active(s.take(i)) <= sum_active(s),
    decreases s.len() - i,
{
    if i == s.len() {
        assert(s.take(i) =~= s);
    } else {
        lemma_sum_active_take_push(s, i);
        lemma_sum_active_take_le(s, i + 1);
    }
}

/// Combined active-source count of the sources that are still valid.
pub open spec fn sum_active_valid_boxes<I: StorageIterator>(s: Seq<Box<I>>) -> nat
    decreases s.len(),
{
    if s.len() == 0 {
        0
    } else {
        (if (*s[0]).sp_valid() {
            (*s[0]).sp_active()
        } else {
            0
        }) + sum_active_valid_boxes(s.drop_first())
    }
}

proof fn lemma_sum_valid_push<I: StorageIterator>(s: Seq<Box<I>>, x: Box<I>)
    ensures
        sum_active_valid_boxes(s.push(x)) == sum_active_valid_boxes(s) + (if (*x).sp_valid() {
            (*x).sp_active()
        } else {
            0
        }),
    decreases s.len(),
{
    if s.len() == 0 {
        assert(s.push(x).drop_first() =~= s);
    } else {
        assert(s.push(x).drop_first() =~= s.drop_first().push(x));
        lemma_sum_valid_push(s.drop_first(), x);
    }
}

/// The valid sources' combined count never exceeds the whole collection's.
pub proof fn lemma_sum_valid_le_sum<I: StorageIterator>(s: Seq<Box<I>>)
    ensures
        sum_active_valid_boxes(s) <= sum_active_boxes(s),
    decreases s.len(),
{
    if s.len() > 0 {
        lemma_sum_valid_le_sum(s.drop_first());
    }
}

proof fn lemma_sum_valid_all_invalid<I: StorageIterator>(s: Seq<Box<I>>)
    requires
        forall|i: int| 0 <= i < s.len() ==> !(*#[trigger] s[i]).sp_valid(),
    ensures
        sum_active_valid_boxes(s) == 0,
    decreases s.len(),
{
    if s.len() > 0 {
        assert(!(*s[0]).sp_valid());
        lemma_sum_valid_all_invalid(s.drop_first());
    }
}

/// Tag-indexed view of a collection of tagged sources.
pub open spec fn sources_map<I: StorageIterator>(s: Seq<(usize, Box<I>)>) -> Map<int, I>
    decreases s.len(),
{
    if s.len() == 0 {
        Map::empty()
    } else {
        sources_map(s.drop_last()).insert(s.last().0 as int, *s.last().1)
    }
}

/// With pairwise-distinct tags, the tag-indexed view holds exactly the
/// tagged sources.
pub proof fn lemma_sources_map_char<I: StorageIterator>(s: Seq<(usize, Box<I>)>)
    requires
        forall|p: int, q: int|
            0 <= p < q < s.len() ==> (#[trigger] s[p]).0 != (#[trigger] s[q]).0,
    ensures
        forall|t: int|
            #[trigger] sources_map(s).dom().contains(t) <==> (exists|p: int|
                0 <= p < s.len() && (#[trigger] s[p]).0 == t),
        forall|p: int|
            0 <= p < s.len() ==> sources_map(s)[(#[trigger] s[p]).0 as int] == *s[p].1,
    decreases s.len(),
{
    if s.len() > 0 {
        let d = s.drop_last();
        assert(forall|p: int| 0 <= p < d.len() ==> d[p] == s[p]);
        lemma_sources_map_char(d);
        assert forall|t: int| #[trigger] sources_map(s).dom().contains(t) implies (exists|p: int|
            0 <= p < s.len() && (#[trigger] s[p]).0 == t) by {
            if t == s.last().0 as int {
                assert(s[s.len() - 1].0 as int == t);
            } else {
                assert(sources_map(d).dom().contains(t));
                let p = choose|p: int| 0 <= p < d.len() && (#[trigger] d[p]).0 == t;
                assert(s[p].0 == t);
            }
        }
        assert forall|t: int| (exists|p: int| 0 <= p < s.len() && (#[trigger] s[p]).0 == t)
            implies #[trigger] sources_map(s).dom().contains(t) by {
        }
        assert forall|p: int| 0 <= p < s.len() implies sources_map(s)[(#[trigger] s[p]).0 as int]
            == *s[p].1 by {
            if p < s.len() - 1 {
                assert(s[p].0 != s[s.len() - 1].0);
            }
        }
    }
}

/// Merges multiple sources of the same type. If the same entry occurs in
/// several sources, the one with the smaller input index wins.
pub struct MergeIterator<I: StorageIterator> {
    /// The other still-valid sources, each tagged with its input index.
    iters: Vec<(usize, Box<I>)>,
    /// The source whose entry is currently exposed.
    current: Option<(usize, Box<I>)>,
}

impl<I: StorageIterator> MergeIterator<I> {
    /// Every held source is well formed and valid; the current source, when
    /// valid, carries the smallest key among all live sources; a current
    /// source that is invalid (or absent) means nothing is held; and the
    /// combined active count fits a machine word.
    pub closed spec fn inv(&self) -> bool {
        &&& (match self.current {
            Some(c) => {
                &&& (*c.1).sp_inv()
                &&& (!(*c.1).sp_valid() ==> self.iters@.len() == 0)
                &&& (forall|p: int|
                    0 <= p < self.iters@.len() ==> (*(#[trigger] self.iters@[p]).1).sp_inv()
                        && (*self.iters@[p].1).sp_valid() && (key_lt(
                        (*c.1).sp_key(),
                        (*self.iters@[p].1).sp_key(),
                    ) || ((*c.1).sp_key() == (*self.iters@[p].1).sp_key() && c.0
                        < self.iters@[p].0)))
                &&& (forall|p: int|
                    0 <= p < self.iters@.len() ==> (#[trigger] self.iters@[p]).0 != c.0)
            },
            None => self.iters@.len() == 0,
        })
        &&& (forall|p: int, q: int|
            0 <= p < q < self.iters@.len() ==> (#[trigger] self.iters@[p]).0 != (
            #[trigger] self.iters@[q]).0)
        &&& self.spec_total_active() <= usize::MAX
    }

    /// Active count of the merge: every held source plus the current one.
    pub closed spec fn spec_total_active(&self) -> nat {
        sum_active(self.iters@) + (match self.current {
            Some(c) => if (*c.1).sp_valid() {
                (*c.1).sp_active()
            } else {
                0
            },
            None => 0,
        })
    }

    pub closed spec fn spec_merge_valid(&self) -> bool {
        match self.current {
            Some(c) => (*c.1).sp_valid(),
            None => false,
        }
    }

    pub closed spec fn spec_current_key(&self) -> KeyModel {
        (*(self.current->0).1).sp_key()
    }

    pub closed spec fn spec_current_value(&self) -> Seq<u8> {
        (*(self.current->0).1).sp_value()
    }

    /// The live sources by input index: the current source, when valid, and
    /// every held source.
    pub closed spec fn spec_live(&self) -> Map<int, I> {
        match self.current {
            Some(c) => if (*c.1).sp_valid() {
                sources_map(self.iters@).insert(c.0 as int, *c.1)
            } else {
                sources_map(self.iters@)
            },
            None => sources_map(self.iters@),
        }
    }

    /// Input index of the current source, meaningful while the merge is
    /// valid.
    pub closed spec fn spec_current_tag(&self) -> int {
        (self.current->0).0 as int
    }

    /// Creates a merge iterator over an ordered collection of sources.
    /// Priority is the input index: on equal keys the lower index wins.
    /// Sources that are already invalid are discarded, but if every source
    /// is invalid one of them is kept so the merge iterator is constructed
    /// (and reports itself invalid).
    pub fn create(iters: Vec<Box<I>>) -> (r: MergeIterator<I>)
        requires
            forall|i: int| 0 <= i < iters@.len() ==> (*#[trigger] iters@[i]).sp_inv(),
            sum_active_boxes(iters@) <= usize::MAX,
        ensures
            r.inv(),
            r.spec_merge_valid() <==> (exists|i: int|
                0 <= i < iters@.len() && (*#[trigger] iters@[i]).sp_valid()),
            r.spec_total_active() == sum_active_valid_boxes(iters@),
            forall|i: int|
                0 <= i < iters@.len() ==> ((*#[trigger] iters@[i]).sp_valid()
                    <==> r.spec_live().dom().contains(i)),
            forall|t: int|
                (#[trigger] r.spec_live().dom().contains(t)) ==> 0 <= t < iters@.len()
                    && r.spec_live()[t] == *iters@[t as int],
            r.spec_merge_valid() ==> r.spec_live().dom().contains(r.spec_current_tag()),
            r.spec_merge_valid() ==> (forall|j: int|
                0 <= j < iters@.len() && (*#[trigger] iters@[j]).sp_valid() ==> key_le(
                    r.spec_current_key(),
                    (*iters@[j]).sp_key(),
                )),
            r.spec_merge_valid() ==> (exists|i: int|
                {
                    &&& 0 <= i < iters@.len()
                    &&& (*#[trigger] iters@[i]).sp_valid()
                    &&& r.spec_current_key() == (*iters@[i]).sp_key()
                    &&& r.spec_current_value() == (*iters@[i]).sp_value()
                    &&& (forall|j: int|
                        0 <= j < iters@.len() && (*#[trigger] iters@[j]).sp_valid() && (
                        *iters@[j]).sp_key() == r.spec_current_key() ==> i <= j)
                }),
    {
        let ghost orig = iters@;
        let mut iters = iters;
        if iters.len() == 0 {
            let r = MergeIterator { iters: Vec::new(), current: None };
            proof {
                assert(r.spec_live().dom() =~= Set::<int>::empty());
            }
            return r;
        }
        let n = iters.len();
        let mut any_valid = false;
        let mut k: usize = 0;
        while k < n
            invariant
                n == iters@.len(),
                iters@ == orig,
                k <= n,
                forall|i: int| 0 <= i < orig.len() ==> (*#[trigger] orig[i]).sp_inv(),
                any_valid == (exists|j: int| 0 <= j < k && (*#[trigger] orig[j]).sp_valid()),
            decreases n - k,
        {
            if iters[k].is_valid() {
                any_valid = true;
            }
            k += 1;
        }
        if !any_valid {
            proof {
                lemma_sum_valid_all_invalid(orig);
            }
            let last = iters.pop().unwrap();
            let r = MergeIterator { iters: Vec::new(), current: Some((0, last)) };
            proof {
                assert(r.spec_live().dom() =~= Set::<int>::empty());
            }
            return r;
        }
        let mut heap: Vec<(usize, Box<I>)> = Vec::new();
        while iters.len() > 0
            invariant
                iters@ == orig.take(iters@.len() as int),
                iters@.len() <= orig.len(),
                forall|i: int| 0 <= i < orig.len() ==> (*#[trigger] orig[i]).sp_inv(),
                forall|p: int|
                    0 <= p < heap@.len() ==> (*(#[trigger] heap@[p]).1).sp_inv() && (
                    *heap@[p].1).sp_valid(),
                sum_active(heap@) + sum_active_valid_boxes(iters@) == sum_active_valid_boxes(
                    orig,
                ),
                (exists|j: int|
                    iters@.len() <= j < orig.len() && (*#[trigger] orig[j]).sp_valid())
                    <==> heap@.len() > 0,
                forall|p: int|
                    0 <= p < heap@.len() ==> iters@.len() <= (#[trigger] heap@[p]).0
                        < orig.len() && heap@[p].1 == orig[heap@[p].0 as int],
                forall|j: int|
                    iters@.len() <= j < orig.len() && (*#[trigger] orig[j]).sp_valid()
                        ==> (exists|p: int| 0 <= p < heap@.len() && (#[trigger] heap@[p]).0 == j),
                forall|p: int, q: int|
                    0 <= p < q < heap@.len() ==> (#[trigger] heap@[p]).0 != (
                    #[trigger] heap@[q]).0,
            decreases iters.len(),
        {
            let m = iters.len();
            let ghost pre = iters@;
            let idx = m - 1;
            let it = iters.pop().unwrap();
            proof {
                assert(pre[m - 1] == orig[m - 1]);
                assert(iters@ =~= orig.take(m - 1));
                assert(pre =~= iters@.push(orig[m - 1]));
                lemma_sum_valid_push(iters@, orig[m - 1]);
            }
            let valid = it.is_valid();
            if valid {
                let ghost pre_heap = heap@;
                heap.push((idx, it));
                proof {
                    lemma_sum_active_push(pre_heap, (idx, it));
                    assert forall|j: int|
                        iters@.len() <= j < orig.len() && (*#[trigger] orig[j]).sp_valid() implies (
                    exists|p: int| 0 <= p < heap@.len() && (#[trigger] heap@[p]).0 == j) by {
                        if j == m - 1 {
                            assert(heap@[heap@.len() - 1].0 == j);
                        } else {
                            let p = choose|p: int|
                                0 <= p < pre_heap.len() && (#[trigger] pre_heap[p]).0 == j;
                            assert(heap@[p].0 == j);
                        }
                    }
                }
            } else {
                proof {
                    assert forall|j: int|
                        iters@.len() <= j < orig.len() && (*#[trigger] orig[j]).sp_valid() implies (
                    exists|p: int| 0 <= p < heap@.len() && (#[trigger] heap@[p]).0 == j) by {
                        let p = choose|p: int|
                            0 <= p < heap@.len() && (#[trigger] heap@[p]).0 == j;
                    }
                }
            }
        }
        proof {
            assert(sum_active_valid_boxes(iters@) == 0) by {
                assert(iters@ =~= orig.take(0));
            }
            assert(heap@.len() > 0);
            lemma_sum_valid_le_sum(orig);
        }
        let mut min_j: usize = 0;
        let mut k2: usize = 1;
        while k2 < heap.len()
            invariant
                heap@.len() > 0,
                min_j < k2 <= heap@.len(),
                forall|p: int|
                    0 <= p < heap@.len() ==> (*(#[trigger] heap@[p]).1).sp_inv() && (
                    *heap@[p].1).sp_valid(),
                forall|p: int| 0 <= p < k2 ==> source_le(heap@[min_j as int], #[trigger] heap@[p]),
                forall|p: int, q: int|
                    0 <= p < q < heap@.len() ==> (#[trigger] heap@[p]).0 != (
                    #[trigger] heap@[q]).0,
            decreases heap@.len() - k2,
        {
            let take_new = match heap[k2].1.key().compare(heap[min_j].1.key()) {
                KeyOrdering::Less => true,
                KeyOrdering::Equal => heap[k2].0 < heap[min_j].0,
                KeyOrdering::Greater => false,
            };
            if take_new {
                proof {
                    let hk = heap@;
                    assert forall|p: int| 0 <= p < k2 + 1 implies source_le(
                        hk[k2 as int],
                        #[trigger] hk[p],
                    ) by {
                        if p < k2 {
                            if key_lt((*hk[k2 as int].1).sp_key(), (*hk[min_j as int].1).sp_key()) {
                                if key_lt((*hk[min_j as int].1).sp_key(), (*hk[p].1).sp_key()) {
                                    lemma_key_lt_trans(
                                        (*hk[k2 as int].1).sp_key(),
                                        (*hk[min_j as int].1).sp_key(),
                                        (*hk[p].1).sp_key(),
                                    );
                                }
                            }
                        }
                    }
                }
                min_j = k2;
            }
            k2 += 1;
        }
        let ghost pre_heap = heap@;
        let cur = heap.remove(min_j);
        proof {
            lemma_sum_active_remove(pre_heap, min_j as int);
            assert(cur == pre_heap[min_j as int]);
            assert forall|j: int|
                0 <= j < orig.len() && (*#[trigger] orig[j]).sp_valid() implies key_le(
                (*cur.1).sp_key(),
                (*orig[j]).sp_key(),
            ) && ((*orig[j]).sp_key() == (*cur.1).sp_key() ==> cur.0 <= j) by {
                let p = choose|p: int| 0 <= p < pre_heap.len() && (#[trigger] pre_heap[p]).0 == j;
                assert(source_le(pre_heap[min_j as int], pre_heap[p]));
                assert(pre_heap[p].1 == orig[j]);
                lemma_key_trichotomy((*cur.1).sp_key(), (*orig[j]).sp_key());
            }
            assert(cur.1 == orig[cur.0 as int]);
            assert forall|p: int| 0 <= p < heap@.len() implies (*(#[trigger] heap@[p]).1).sp_inv()
                && (*heap@[p].1).sp_valid() && (key_lt(
                (*cur.1).sp_key(),
                (*heap@[p].1).sp_key(),
            ) || ((*cur.1).sp_key() == (*heap@[p].1).sp_key() && cur.0 < heap@[p].0))
                && heap@[p].0 != cur.0 by {
                if p < min_j {
                    assert(heap@[p] == pre_heap[p]);
                    assert(source_le(pre_heap[min_j as int], pre_heap[p]));
                } else {
                    assert(heap@[p] == pre_heap[p + 1]);
                    assert(source_le(pre_heap[min_j as int], pre_heap[p + 1]));
                }
            }
            assert forall|p: int, q: int| 0 <= p < q < heap@.len() implies (
            #[trigger] heap@[p]).0 != (#[trigger] heap@[q]).0 by {
                if q < min_j {
                    assert(heap@[p] == pre_heap[p] && heap@[q] == pre_heap[q]);
                } else if p < min_j {
                    assert(heap@[p] == pre_heap[p] && heap@[q] == pre_heap[q + 1]);
                } else {
                    assert(heap@[p] == pre_heap[p + 1] && heap@[q] == pre_heap[q + 1]);
                }
            }
        }
        let r = MergeIterator { iters: heap, current: Some(cur) };
        proof {
            lemma_sources_map_char(r.iters@);
            assert(r.spec_live() == sources_map(r.iters@).insert(cur.0 as int, *cur.1));
            assert forall|t: int| (#[trigger] r.spec_live().dom().contains(t)) implies 0 <= t
                < orig.len() && r.spec_live()[t] == *orig[t as int] by {
                if t == cur.0 as int {
                    assert(r.spec_live()[t] == *cur.1);
                } else {
                    assert(sources_map(r.iters@).dom().contains(t));
                    let p = choose|p: int|
                        0 <= p < r.iters@.len() && (#[trigger] r.iters@[p]).0 as int == t;
                    assert(sources_map(r.iters@)[r.iters@[p].0 as int] == *r.iters@[p].1);
                    assert(r.iters@[p].1 == orig[t as int]);
                }
            }
            assert forall|i: int| 0 <= i < orig.len() && (*#[trigger] orig[i]).sp_valid() implies
                r.spec_live().dom().contains(i) by {
                if i == cur.0 as int {
                } else {
                    let p = choose|p: int|
                        0 <= p < pre_heap.len() && (#[trigger] pre_heap[p]).0 == i;
                    if p < min_j {
                        assert(r.iters@[p].0 == i);
                    } else if p > min_j {
                        assert(r.iters@[p - 1].0 == i);
                    }
                    assert(sources_map(r.iters@).dom().contains(i));
                }
            }
            assert forall|i: int| 0 <= i < orig.len() && !(*#[trigger] orig[i]).sp_valid() implies
                !r.spec_live().dom().contains(i) by {
                if r.spec_live().dom().contains(i) {
                    assert(r.spec_live()[i] == *orig[i as int]);
                }
            }
        }
        r
    }

    /// Position of the smallest held source by (key, input index).
    fn min_index(&self) -> (j: usize)
        requires
            self.iters@.len() > 0,
            forall|p: int|
                0 <= p < self.iters@.len() ==> (*(#[trigger] self.iters@[p]).1).sp_inv() && (
                *self.iters@[p].1).sp_valid(),
        ensures
            j < self.iters@.len(),
            forall|p: int|
                0 <= p < self.iters@.len() ==> source_le(
                    self.iters@[j as int],
                    #[trigger] self.iters@[p],
                ),
    {
        let mut min_j: usize = 0;
        let mut k: usize = 1;
        while k < self.iters.len()
            invariant
                self.iters@.len() > 0,
                min_j < k <= self.iters@.len(),
                forall|p: int|
                    0 <= p < self.iters@.len() ==> (*(#[trigger] self.iters@[p]).1).sp_inv() && (
                    *self.iters@[p].1).sp_valid(),
                forall|p: int|
                    0 <= p < k ==> source_le(self.iters@[min_j as int], #[trigger] self.iters@[p]),
            decreases self.iters@.len() - k,
        {
            let take_new = match self.iters[k].1.key().compare(self.iters[min_j].1.key()) {
                KeyOrdering::Less => true,
                KeyOrdering::Equal => self.iters[k].0 < self.iters[min_j].0,
                KeyOrdering::Greater => false,
            };
            if take_new {
                proof {
                    let hk = self.iters@;
                    assert forall|p: int| 0 <= p < k + 1 implies source_le(
                        hk[k as int],
                        #[trigger] hk[p],
                    ) by {
                        if p < k {
                            if key_lt((*hk[k as int].1).sp_key(), (*hk[min_j as int].1).sp_key()) {
                                if key_lt((*hk[min_j as int].1).sp_key(), (*hk[p].1).sp_key()) {
                                    lemma_key_lt_trans(
                                        (*hk[k as int].1).sp_key(),
                                        (*hk[min_j as int].1).sp_key(),
                                        (*hk[p].1).sp_key(),
                                    );
                                }
                            }
                        }
                    }
                }
                min_j = k;
            }
            k += 1;
        }
        min_j
    }

    /// Advances the merged stream one entry: drains every held source
    /// sitting on the current entry's exact key, advances the current
    /// source, then restores the smallest live source as current. An error
    /// from a held source drops that source and is propagated at once; an
    /// error from the current source is propagated with the merge iterator
    /// left not further usable.
    ///
    /// On success, the live sources relate to the ones before the call
    /// entry by entry: every live source whose key differed from the
    /// emitted key is kept untouched; every remaining live source moved
    /// strictly past the emitted key; no source appears from nowhere; the
    /// merge is valid exactly while some live source remains; and the
    /// exposed entry is the remaining minimum by (key, input index).
    pub fn next(&mut self) -> (r: Result<(), IterError>)
        requires
            old(self).inv(),
            old(self).spec_merge_valid(),
        ensures
            r is Ok ==> final(self).inv() && (final(self).spec_merge_valid() ==> key_lt(
                old(self).spec_current_key(),
                final(self).spec_current_key(),
            )) && final(self).spec_total_active() <= old(self).spec_total_active(),
            r is Ok ==> (forall|t: int|
                (#[trigger] old(self).spec_live().dom().contains(t)) && old(self).spec_live()[t].sp_key()
                    != old(self).spec_current_key() ==> final(self).spec_live().dom().contains(t)
                    && final(self).spec_live()[t] == old(self).spec_live()[t]),
            r is Ok ==> (forall|t: int|
                (#[trigger] final(self).spec_live().dom().contains(t)) ==> old(
                self).spec_live().dom().contains(t) && key_lt(
                    old(self).spec_current_key(),
                    final(self).spec_live()[t].sp_key(),
                ) && final(self).spec_live()[t].sp_valid() && final(self).spec_live()[t].sp_inv()
                    && final(self).spec_live()[t].sp_active() <= old(self).spec_live()[t].sp_active()),
            r is Ok ==> (final(self).spec_merge_valid() <==> (exists|t: int|
                (#[trigger] final(self).spec_live().dom().contains(t)))),
            r is Ok && final(self).spec_merge_valid() ==> final(self).spec_live().dom().contains(
                final(self).spec_current_tag(),
            ) && final(self).spec_live()[final(self).spec_current_tag()].sp_key()
                == final(self).spec_current_key()
                && final(self).spec_live()[final(self).spec_current_tag()].sp_value()
                == final(self).spec_current_value(),
            r is Ok && final(self).spec_merge_valid() ==> (forall|t: int|
                (#[trigger] final(self).spec_live().dom().contains(t)) ==> (key_lt(
                    final(self).spec_current_key(),
                    final(self).spec_live()[t].sp_key(),
                ) || (final(self).spec_current_key() == final(self).spec_live()[t].sp_key()
                    && final(self).spec_current_tag() <= t))),
            r is Err ==> final(self).spec_current_tag() == old(self).spec_current_tag(),
    {
        let ghost live0 = self.spec_live();
        let ghost k0 = self.spec_current_key();
        let ghost total0 = self.spec_total_active();
        let (cidx, mut cbox) = self.current.take().unwrap();
        proof {
            lemma_sources_map_char(self.iters@);
            assert(live0 == sources_map(self.iters@).insert(cidx as int, *cbox));
            assert forall|p: int| 0 <= p < self.iters@.len() implies live0.dom().contains(
                (#[trigger] self.iters@[p]).0 as int,
            ) && live0[self.iters@[p].0 as int] == *self.iters@[p].1 by {
                assert(sources_map(self.iters@)[self.iters@[p].0 as int] == *self.iters@[p].1);
                assert(sources_map(self.iters@).dom().contains(self.iters@[p].0 as int));
            }
            assert forall|t: int|
                (#[trigger] live0.dom().contains(t)) && live0[t].sp_key() != k0 implies (exists|
                p: int|
                0 <= p < self.iters@.len() && (#[trigger] self.iters@[p]).0 as int == t && (
                *self.iters@[p].1) == live0[t]) by {
                assert(t != cidx as int);
                assert(sources_map(self.iters@).dom().contains(t));
                let p = choose|p: int|
                    0 <= p < self.iters@.len() && (#[trigger] self.iters@[p]).0 as int == t;
                assert(sources_map(self.iters@)[self.iters@[p].0 as int] == *self.iters@[p].1);
            }
        }
        let mut k: usize = 0;
        while k < self.iters.len()
            invariant
                (*cbox).sp_inv(),
                (*cbox).sp_valid(),
                (*cbox).sp_key() == k0,
                (*cbox) == live0[cidx as int],
                live0.dom().contains(cidx as int),
                cidx as int == old(self).spec_current_tag(),
                k <= self.iters@.len(),
                (self.current is None),
                forall|p: int|
                    0 <= p < self.iters@.len() ==> (*(#[trigger] self.iters@[p]).1).sp_inv() && (
                    *self.iters@[p].1).sp_valid() && key_le(k0, (*self.iters@[p].1).sp_key()),
                forall|p: int|
                    0 <= p < k ==> key_lt(k0, (*(#[trigger] self.iters@[p]).1).sp_key()),
                forall|p: int, q: int|
                    0 <= p < q < self.iters@.len() ==> (#[trigger] self.iters@[p]).0 != (
                    #[trigger] self.iters@[q]).0,
                forall|p: int| 0 <= p < self.iters@.len() ==> (#[trigger] self.iters@[p]).0 != cidx,
                forall|p: int|
                    0 <= p < self.iters@.len() ==> live0.dom().contains(
                        (#[trigger] self.iters@[p]).0 as int,
                    ),
                forall|p: int|
                    0 <= p < self.iters@.len() ==> ((*(#[trigger] self.iters@[p]).1) == live0[
                        self.iters@[p].0 as int
                    ] || ((*self.iters@[p].1).sp_active() <= live0[
                        self.iters@[p].0 as int
                    ].sp_active() && key_lt(k0, (*self.iters@[p].1).sp_key()))),
                forall|t: int|
                    (#[trigger] live0.dom().contains(t)) && live0[t].sp_key() != k0 ==> (exists|
                        p: int,
                    |
                        0 <= p < self.iters@.len() && (#[trigger] self.iters@[p]).0 as int == t
                            && (*self.iters@[p].1) == live0[t]),
                sum_active(self.iters@) + (*cbox).sp_active() <= total0,
            decreases self.iters@.len() - k,
        {
            let c = cbox.key().compare(self.iters[k].1.key());
            match c {
                KeyOrdering::Equal => {
                    let ghost pre = self.iters@;
                    let (hidx, mut hbox) = self.iters.remove(k);
                    proof {
                        lemma_sum_active_remove(pre, k as int);
                        lemma_key_trichotomy(k0, (*hbox).sp_key());
                        assert((*hbox) == live0[hidx as int]);
                        assert forall|t: int|
                            (#[trigger] live0.dom().contains(t)) && live0[t].sp_key() != k0
                                implies (exists|p: int|
                            0 <= p < self.iters@.len() && (#[trigger] self.iters@[p]).0 as int
                                == t && (*self.iters@[p].1) == live0[t]) by {
                            let p = choose|p: int|
                                0 <= p < pre.len() && (#[trigger] pre[p]).0 as int == t && (
                                *pre[p].1) == live0[t];
                            assert(p != k);
                            if p < k {
                                assert(self.iters@[p].0 as int == t);
                            } else {
                                assert(self.iters@[p - 1].0 as int == t);
                            }
                        }
                    }
                    let res = hbox.next();
                    match res {
                        Err(e) => {
                            self.current = Some((cidx, cbox));
                            return Err(e);
                        },
                        Ok(()) => {
                            if hbox.is_valid() {
                                let ghost mid = self.iters@;
                                self.iters.insert(k, (hidx, hbox));
                                proof {
                                    lemma_sum_active_insert(mid, k as int, (hidx, hbox));
                                    assert forall|t: int|
                                        (#[trigger] live0.dom().contains(t)) && live0[t].sp_key()
                                            != k0 implies (exists|p: int|
                                        0 <= p < self.iters@.len() && (
                                        #[trigger] self.iters@[p]).0 as int == t && (
                                        *self.iters@[p].1) == live0[t]) by {
                                        let p = choose|p: int|
                                            0 <= p < mid.len() && (#[trigger] mid[p]).0 as int
                                                == t && (*mid[p].1) == live0[t];
                                        if p < k {
                                            assert(self.iters@[p].0 as int == t);
                                        } else {
                                            assert(self.iters@[p + 1].0 as int == t);
                                        }
                                    }
                                }
                                k += 1;
                            }
                        },
                    }
                },
                KeyOrdering::Less => {
                    k += 1;
                },
                KeyOrdering::Greater => {
                    proof {
                        lemma_key_trichotomy(k0, (*self.iters@[k as int].1).sp_key());
                    }
                    k += 1;
                },
            }
        }
        let res = cbox.next();
        if let Err(e) = res {
            self.current = Some((cidx, cbox));
            return Err(e);
        }
        if !cbox.is_valid() {
            if self.iters.len() > 0 {
                let j = self.min_index();
                let ghost pre = self.iters@;
                let nc = self.iters.remove(j);
                self.current = Some(nc);
                proof {
                    lemma_sum_active_remove(pre, j as int);
                    assert(nc == pre[j as int]);
                    assert forall|p: int| 0 <= p < self.iters@.len() implies (key_lt(
                        (*nc.1).sp_key(),
                        (*(#[trigger] self.iters@[p]).1).sp_key(),
                    ) || ((*nc.1).sp_key() == (*self.iters@[p].1).sp_key() && nc.0
                        < self.iters@[p].0)) && self.iters@[p].0 != nc.0 by {
                        if p < j {
                            assert(self.iters@[p] == pre[p]);
                            assert(source_le(pre[j as int], pre[p]));
                        } else {
                            assert(self.iters@[p] == pre[p + 1]);
                            assert(source_le(pre[j as int], pre[p + 1]));
                        }
                    }
                    assert forall|p: int, q: int| 0 <= p < q < self.iters@.len() implies (
                    #[trigger] self.iters@[p]).0 != (#[trigger] self.iters@[q]).0 by {
                        if q < j {
                            assert(self.iters@[p] == pre[p] && self.iters@[q] == pre[q]);
                        } else if p < j {
                            assert(self.iters@[p] == pre[p] && self.iters@[q] == pre[q + 1]);
                        } else {
                            assert(self.iters@[p] == pre[p + 1] && self.iters@[q] == pre[q + 1]);
                        }
                    }
                    assert forall|t: int|
                        (#[trigger] live0.dom().contains(t)) && live0[t].sp_key() != k0 implies ((
                    exists|p: int|
                        0 <= p < self.iters@.len() && (#[trigger] self.iters@[p]).0 as int == t
                            && (*self.iters@[p].1) == live0[t]) || ((self.current->0).0 as int
                        == t && (*(self.current->0).1) == live0[t])) by {
                        let p = choose|p: int|
                            0 <= p < pre.len() && (#[trigger] pre[p]).0 as int == t && (*pre[p].1)
                                == live0[t];
                        if p < j {
                            assert(self.iters@[p].0 as int == t);
                        } else if p > j {
                            assert(self.iters@[p - 1].0 as int == t);
                        }
                    }
                    self.lemma_next_finish(live0, k0, total0);
                }
            } else {
                self.current = Some((cidx, cbox));
                proof {
                    assert(self.spec_live() =~= Map::<int, I>::empty());
                    assert forall|t: int|
                        (#[trigger] live0.dom().contains(t)) && live0[t].sp_key() != k0 implies
                        false by {
                        let p = choose|p: int|
                            0 <= p < self.iters@.len() && (#[trigger] self.iters@[p]).0 as int
                                == t && (*self.iters@[p].1) == live0[t];
                    }
                }
            }
            return Ok(());
        }
        if self.iters.len() > 0 {
            let j = self.min_index();
            let swap_in = match self.iters[j].1.key().compare(cbox.key()) {
                KeyOrdering::Less => true,
                KeyOrdering::Equal => self.iters[j].0 < cidx,
                KeyOrdering::Greater => false,
            };
            if swap_in {
                let ghost pre = self.iters@;
                let nc = self.iters.remove(j);
                proof {
                    lemma_sum_active_remove(pre, j as int);
                }
                let ghost mid = self.iters@;
                self.iters.push((cidx, cbox));
                self.current = Some(nc);
                proof {
                    lemma_sum_active_push(mid, (cidx, cbox));
                    assert(nc == pre[j as int]);
                    let n2 = self.iters@.len() as int;
                    assert(self.iters@[n2 - 1] == (cidx, cbox));
                    assert forall|p: int| 0 <= p < n2 implies (key_lt(
                        (*nc.1).sp_key(),
                        (*(#[trigger] self.iters@[p]).1).sp_key(),
                    ) || ((*nc.1).sp_key() == (*self.iters@[p].1).sp_key() && nc.0
                        < self.iters@[p].0)) && self.iters@[p].0 != nc.0 by {
                        if p < j {
                            assert(self.iters@[p] == pre[p]);
                            assert(source_le(pre[j as int], pre[p]));
                        } else if p < n2 - 1 {
                            assert(self.iters@[p] == pre[p + 1]);
                            assert(source_le(pre[j as int], pre[p + 1]));
                        }
                    }
                    assert forall|p: int, q: int| 0 <= p < q < n2 implies (
                    #[trigger] self.iters@[p]).0 != (#[trigger] self.iters@[q]).0 by {
                        if q < n2 - 1 {
                            if q < j {
                                assert(self.iters@[p] == pre[p] && self.iters@[q] == pre[q]);
                            } else if p < j {
                                assert(self.iters@[p] == pre[p] && self.iters@[q] == pre[q + 1]);
                            } else {
                                assert(self.iters@[p] == pre[p + 1] && self.iters@[q] == pre[q
                                    + 1]);
                            }
                        } else {
                            if p < j {
                                assert(self.iters@[p] == pre[p]);
                            } else {
                                assert(self.iters@[p] == pre[p + 1]);
                            }
                        }
                    }
                    assert forall|t: int|
                        (#[trigger] live0.dom().contains(t)) && live0[t].sp_key() != k0 implies ((
                    exists|p: int|
                        0 <= p < self.iters@.len() && (#[trigger] self.iters@[p]).0 as int == t
                            && (*self.iters@[p].1) == live0[t]) || ((self.current->0).0 as int
                        == t && (*(self.current->0).1) == live0[t])) by {
                        let p = choose|p: int|
                            0 <= p < pre.len() && (#[trigger] pre[p]).0 as int == t && (*pre[p].1)
                                == live0[t];
                        if p < j {
                            assert(self.iters@[p].0 as int == t);
                        } else if p > j {
                            assert(self.iters@[p - 1].0 as int == t);
                        }
                    }
                    self.lemma_next_finish(live0, k0, total0);
                }
            } else {
                self.current = Some((cidx, cbox));
                proof {
                    let minkey = (*self.iters@[j as int].1).sp_key();
                    lemma_key_trichotomy((*cbox).sp_key(), minkey);
                    assert forall|p: int| 0 <= p < self.iters@.len() implies (key_lt(
                        (*cbox).sp_key(),
                        (*(#[trigger] self.iters@[p]).1).sp_key(),
                    ) || ((*cbox).sp_key() == (*self.iters@[p].1).sp_key() && cidx
                        < self.iters@[p].0)) by {
                        assert(source_le(self.iters@[j as int], self.iters@[p]));
                        if key_lt((*cbox).sp_key(), minkey) {
                            if key_lt(minkey, (*self.iters@[p].1).sp_key()) {
                                lemma_key_lt_trans(
                                    (*cbox).sp_key(),
                                    minkey,
                                    (*self.iters@[p].1).sp_key(),
                                );
                            }
                        }
                    }
                    assert forall|t: int|
                        (#[trigger] live0.dom().contains(t)) && live0[t].sp_key() != k0 implies ((
                    exists|p: int|
                        0 <= p < self.iters@.len() && (#[trigger] self.iters@[p]).0 as int == t
                            && (*self.iters@[p].1) == live0[t]) || ((self.current->0).0 as int
                        == t && (*(self.current->0).1) == live0[t])) by {
                    }
                    self.lemma_next_finish(live0, k0, total0);
                }
            }
        } else {
            self.current = Some((cidx, cbox));
            proof {
                assert forall|t: int|
                    (#[trigger] live0.dom().contains(t)) && live0[t].sp_key() != k0 implies ((
                exists|p: int|
                    0 <= p < self.iters@.len() && (#[trigger] self.iters@[p]).0 as int == t && (
                    *self.iters@[p].1) == live0[t]) || ((self.current->0).0 as int == t && (*(
                self.current->0).1) == live0[t])) by {
                }
                self.lemma_next_finish(live0, k0, total0);
            }
        }
        Ok(())
    }

    /// Reassembling after an advance: given the positional facts that the
    /// drain and re-selection establish, the merge invariant holds and the
    /// live-source view relates to the one before the call as the contract
    /// of `next` states.
    proof fn lemma_next_finish(&self, live0: Map<int, I>, k0: KeyModel, total0: nat)
        requires
            total0 <= usize::MAX,
            (self.current is Some),
            (*(self.current->0).1).sp_inv(),
            (*(self.current->0).1).sp_valid(),
            key_lt(k0, (*(self.current->0).1).sp_key()),
            live0.dom().contains((self.current->0).0 as int),
            (*(self.current->0).1) == live0[(self.current->0).0 as int] || (*(
            self.current->0).1).sp_active() <= live0[(self.current->0).0 as int].sp_active(),
            forall|p: int|
                0 <= p < self.iters@.len() ==> (#[trigger] self.iters@[p]).0 != (
                self.current->0).0,
            forall|p: int, q: int|
                0 <= p < q < self.iters@.len() ==> (#[trigger] self.iters@[p]).0 != (
                #[trigger] self.iters@[q]).0,
            forall|p: int|
                0 <= p < self.iters@.len() ==> (*(#[trigger] self.iters@[p]).1).sp_inv() && (
                *self.iters@[p].1).sp_valid() && key_lt(k0, (*self.iters@[p].1).sp_key()),
            forall|p: int|
                0 <= p < self.iters@.len() ==> live0.dom().contains(
                    (#[trigger] self.iters@[p]).0 as int,
                ) && ((*self.iters@[p].1) == live0[self.iters@[p].0 as int] || (
                *self.iters@[p].1).sp_active() <= live0[self.iters@[p].0 as int].sp_active()),
            forall|p: int|
                0 <= p < self.iters@.len() ==> (key_lt(
                    (*(self.current->0).1).sp_key(),
                    (*(#[trigger] self.iters@[p]).1).sp_key(),
                ) || ((*(self.current->0).1).sp_key() == (*self.iters@[p].1).sp_key() && (
                self.current->0).0 < self.iters@[p].0)),
            forall|t: int|
                (#[trigger] live0.dom().contains(t)) && live0[t].sp_key() != k0 ==> ((exists|
                    p: int,
                |
                    0 <= p < self.iters@.len() && (#[trigger] self.iters@[p]).0 as int == t && (
                    *self.iters@[p].1) == live0[t]) || ((self.current->0).0 as int == t && (*(
                self.current->0).1) == live0[t])),
            sum_active(self.iters@) + (*(self.current->0).1).sp_active() <= total0,
        ensures
            self.inv(),
            self.spec_merge_valid(),
            key_lt(k0, self.spec_current_key()),
            self.spec_total_active() <= total0,
            forall|t: int|
                (#[trigger] live0.dom().contains(t)) && live0[t].sp_key() != k0
                    ==> self.spec_live().dom().contains(t) && self.spec_live()[t] == live0[t],
            forall|t: int|
                (#[trigger] self.spec_live().dom().contains(t)) ==> live0.dom().contains(t)
                    && key_lt(k0, self.spec_live()[t].sp_key()) && self.spec_live()[t].sp_valid()
                    && self.spec_live()[t].sp_inv() && self.spec_live()[t].sp_active()
                    <= live0[t].sp_active(),
            self.spec_live().dom().contains(self.spec_current_tag()),
            self.spec_live()[self.spec_current_tag()].sp_key() == self.spec_current_key(),
            self.spec_live()[self.spec_current_tag()].sp_value() == self.spec_current_value(),
            forall|t: int|
                (#[trigger] self.spec_live().dom().contains(t)) ==> (key_lt(
                    self.spec_current_key(),
                    self.spec_live()[t].sp_key(),
                ) || (self.spec_current_key() == self.spec_live()[t].sp_key()
                    && self.spec_current_tag() <= t)),
    {
        let c = self.current->0;
        let ct = c.0 as int;
        let held = self.iters@;
        lemma_sources_map_char(held);
        let live1 = self.spec_live();
        assert(live1 == sources_map(held).insert(ct, *c.1));
        assert forall|t: int| (#[trigger] live0.dom().contains(t)) && live0[t].sp_key() != k0
            implies live1.dom().contains(t) && live1[t] == live0[t] by {
            if ct == t && (*c.1) == live0[t] {
            } else {
                let p = choose|p: int|
                    0 <= p < held.len() && (#[trigger] held[p]).0 as int == t && (*held[p].1)
                        == live0[t];
                assert(sources_map(held)[held[p].0 as int] == *held[p].1);
                assert(sources_map(held).dom().contains(t));
            }
        }
        assert forall|t: int| (#[trigger] live1.dom().contains(t)) implies live0.dom().contains(t)
            && key_lt(k0, live1[t].sp_key()) && live1[t].sp_valid() && live1[t].sp_inv()
            && live1[t].sp_active() <= live0[t].sp_active() by {
            if t == ct {
            } else {
                assert(sources_map(held).dom().contains(t));
                let p = choose|p: int| 0 <= p < held.len() && (#[trigger] held[p]).0 as int == t;
                assert(sources_map(held)[held[p].0 as int] == *held[p].1);
            }
        }
        assert forall|t: int| (#[trigger] live1.dom().contains(t)) implies (key_lt(
            (*c.1).sp_key(),
            live1[t].sp_key(),
        ) || ((*c.1).sp_key() == live1[t].sp_key() && ct <= t)) by {
            if t != ct {
                assert(sources_map(held).dom().contains(t));
                let p = choose|p: int| 0 <= p < held.len() && (#[trigger] held[p]).0 as int == t;
                assert(sources_map(held)[held[p].0 as int] == *held[p].1);
            }
        }
    }
}

impl<I: StorageIterator> StorageIterator for MergeIterator<I> {
    open spec fn sp_inv(&self) -> bool {
        self.inv()
    }

    open spec fn sp_valid(&self) -> bool {
        self.spec_merge_valid()
    }

    open spec fn sp_key(&self) -> KeyModel {
        self.spec_current_key()
    }

    open spec fn sp_value(&self) -> Seq<u8> {
        self.spec_current_value()
    }

    open spec fn sp_active(&self) -> nat {
        self.spec_total_active()
    }

    fn key(&self) -> (k: &KeyVec) {
        match &self.current {
            Some(c) => c.1.key(),
            None => vstd::pervasive::unreached(),
        }
    }

    fn value(&self) -> (v: &[u8]) {
        match &self.current {
            Some(c) => c.1.value(),
            None => vstd::pervasive::unreached(),
        }
    }

    fn is_valid(&self) -> (r: bool) {
        match &self.current {
            Some(c) => c.1.is_valid(),
            None => false,
        }
    }

    /// Advances the merged stream one entry: drains every held source
    /// sitting on the current entry's exact key, advances the current
    /// source, then restores the smallest live source as current. An error
    /// from a held source drops that source and is propagated at once; an
    /// error from the current source is propagated with the merge iterator
    /// left not further usable.
    fn next(&mut self) -> (r: Result<(), IterError>) {
        self.next()
    }

    fn num_active_iterators(&self) -> (r: usize) {
        let ghost s = self.iters@;
        let mut total: usize = 0;
        let mut k: usize = 0;
        while k < self.iters.len()
            invariant
                self.inv(),
                s == self.iters@,
                k <= s.len(),
                total as nat == sum_active(s.take(k as int)),
            decreases s.len() - k,
        {
            proof {
                lemma_sum_active_take_push(s, k as int);
                lemma_sum_active_take_le(s, k as int + 1);
            }
            let a = self.iters[k].1.num_active_iterators();
            total += a;
            k += 1;
        }
        proof {
            assert(s.take(s.len() as int) =~= s);
        }
        match &self.current {
            Some(c) => {
                let a = c.1.num_active_iterators();
                total + a
            },
            None => total,
        }
    }
}

} // verus!
