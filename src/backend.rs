//! The built index: one dictionary, one or more postings buckets and one item
//! store, read-only once assembled.

use vstd::prelude::*;
use crate::dict::Dictionary;
use crate::postings::Postings;
use crate::storage::Storage;

verus! {

/// Every item id in the lists of `buckets` is below `n`.
pub open spec fn lists_resolve(buckets: Seq<Postings>, n: int) -> bool {
    forall|b: int, t: u32, k: int|
        0 <= b < buckets.len() && 0 <= k < buckets[b].posting(t as int).len() ==> #[trigger] buckets[b].posting(
            t as int,
        )[k] < n
}

/// An index held in memory.
pub struct MemBackend {
    dict: Dictionary,
    postings_list: Vec<Postings>,
    storage: Storage,
}

impl MemBackend {
    pub closed spec fn dictionary(&self) -> Dictionary {
        self.dict
    }

    pub closed spec fn store(&self) -> Storage {
        self.storage
    }

    pub closed spec fn buckets(&self) -> Seq<Postings> {
        self.postings_list@
    }

    /// The list of term `t` in bucket `b`; empty for a bucket that does not exist.
    pub open spec fn posting(&self, b: int, t: int) -> Seq<u32> {
        if 0 <= b < self.buckets().len() {
            self.buckets()[b].posting(t)
        } else {
            Seq::empty()
        }
    }

    /// Assembles an index from its parts.
    pub fn new(dict: Dictionary, postings_list: Vec<Postings>, storage: Storage) -> (r: MemBackend)
        ensures
            r.dictionary() == dict,
            r.buckets() == postings_list@,
            r.store() == storage,
    {
        MemBackend { dict, postings_list, storage }
    }

    /// The dictionary.
    pub fn dict(&self) -> (r: &Dictionary)
        ensures
            *r == self.dictionary(),
    {
        &self.dict
    }

    /// The item store.
    pub fn storage(&self) -> (r: &Storage)
        ensures
            *r == self.store(),
    {
        &self.storage
    }

    /// Postings bucket `id`, if there is one.
    pub fn postings(&self, id: u32) -> (r: Option<&Postings>)
        ensures
            match r {
                Some(p) => id < self.buckets().len() && *p == self.buckets()[id as int],
                None => id >= self.buckets().len(),
            },
    {
        if (id as usize) < self.postings_list.len() {
            Some(&self.postings_list[id as usize])
        } else {
            None
        }
    }

    /// Number of postings buckets.
    pub fn posting_count(&self) -> (r: usize)
        ensures
            r == self.buckets().len(),
    {
        self.postings_list.len()
    }

    /// `true` if the index has no term, no bucket or no item.
    pub fn is_empty(&self) -> (r: bool)
        ensures
            r == (self.dictionary().terms().len() == 0 || self.buckets().len() == 0
                || self.store().items().len() == 0),
    {
        self.dict.is_empty() || self.postings_list.len() == 0 || self.storage.is_empty()
    }

    /// The dictionary is well formed and in order, and the store is well formed.
    pub open spec fn wf(&self) -> bool {
        &&& self.dictionary().wf()
        &&& self.dictionary().ordered()
        &&& self.store().wf()
    }

    /// Takes the index apart, for serialization.
    pub fn into_parts(self) -> (r: (Dictionary, Vec<Postings>, Storage))
        ensures
            r.0 == self.dictionary(),
            r.1@ == self.buckets(),
            r.2 == self.store(),
    {
        (self.dict, self.postings_list, self.storage)
    }
}

/// A built index, ready for retrieval.
pub struct Index {
    b: MemBackend,
}

impl Index {
    pub closed spec fn backend(&self) -> MemBackend {
        self.b
    }

    /// The backend is well formed and no term is in the dictionary twice.
    pub open spec fn wf(&self) -> bool {
        &&& self.backend().wf()
        &&& self.terms().no_duplicates()
    }

    /// Every item id in a postings list is the id of a stored item.
    pub open spec fn postings_resolve(&self) -> bool {
        forall|b: int, t: u32, k: int|
            0 <= k < self.posting(b, t as int).len() ==> #[trigger] self.posting(b, t as int)[k]
                < self.items().len()
    }

    /// The terms, by id.
    pub open spec fn terms(&self) -> Seq<Seq<char>> {
        self.backend().dictionary().terms()
    }

    /// The items, by id.
    pub open spec fn items(&self) -> Seq<u32> {
        self.backend().store().items()
    }

    pub open spec fn bucket_count(&self) -> nat {
        self.backend().buckets().len()
    }

    /// The list of term `t` in bucket `b`.
    pub open spec fn posting(&self, b: int, t: int) -> Seq<u32> {
        self.backend().posting(b, t)
    }

    /// Wraps a backend.
    pub fn new(b: MemBackend) -> (r: Index)
        ensures
            r.backend() == b,
    {
        Index { b }
    }

    /// An index from its parts, as `into_parts` gives them back: `None`
    /// unless the dictionary is valid, the store well formed, and every item
    /// id in the postings is the id of a stored item.
    pub fn from_parts(dict: Dictionary, postings_list: Vec<Postings>, storage: Storage) -> (r: Option<Index>)
        ensures
            match r {
                Some(ix) => dict.valid() && storage.wf() && lists_resolve(
                    postings_list@,
                    storage.items().len() as int,
                ) && ix.wf() && ix.postings_resolve() && ix.backend().dictionary() == dict
                    && ix.backend().buckets() == postings_list@ && ix.backend().store() == storage,
                None => !(dict.valid() && storage.wf() && lists_resolve(
                    postings_list@,
                    storage.items().len() as int,
                )),
            },
    {
        if !dict.is_valid() || !storage.is_valid() {
            return None;
        }
        proof {
            dict.lemma_valid();
        }
        let ix = Index { b: MemBackend::new(dict, postings_list, storage) };
        proof {
            assert(ix.postings_resolve() == lists_resolve(postings_list@, storage.items().len() as int))
                by {
                if ix.postings_resolve() {
                    assert forall|b: int, t: u32, k: int|
                        0 <= b < postings_list@.len() && 0 <= k < postings_list@[b].posting(
                            t as int,
                        ).len() implies #[trigger] postings_list@[b].posting(t as int)[k]
                        < storage.items().len() by {
                        assert(ix.posting(b, t as int) == postings_list@[b].posting(t as int));
                    }
                }
                if lists_resolve(postings_list@, storage.items().len() as int) {
                    assert forall|b: int, t: u32, k: int|
                        0 <= k < ix.posting(b, t as int).len() implies #[trigger] ix.posting(
                            b,
                            t as int,
                        )[k] < ix.items().len() by {
                        assert(0 <= b < postings_list@.len());
                        assert(ix.posting(b, t as int) == postings_list@[b].posting(t as int));
                    }
                }
            }
        }
        if ix.check_postings() {
            Some(ix)
        } else {
            None
        }
    }

    /// The backend.
    pub fn backend_ref(&self) -> (r: &MemBackend)
        ensures
            *r == self.backend(),
    {
        &self.b
    }

    /// Unwraps the backend.
    pub fn into_backend(self) -> (r: MemBackend)
        ensures
            r == self.backend(),
    {
        self.b
    }

    /// The dictionary.
    pub fn dict(&self) -> (r: &Dictionary)
        ensures
            *r == self.backend().dictionary(),
    {
        self.b.dict()
    }

    /// The item store.
    pub fn storage(&self) -> (r: &Storage)
        ensures
            *r == self.backend().store(),
    {
        self.b.storage()
    }

    /// Postings bucket `id`, if there is one.
    pub fn postings(&self, id: u32) -> (r: Option<&Postings>)
        ensures
            match r {
                Some(p) => id < self.bucket_count() && *p == self.backend().buckets()[id as int],
                None => id >= self.bucket_count(),
            },
    {
        self.b.postings(id)
    }

    /// `true` if every item id in the postings is the id of a stored item;
    /// the retrievers need this of the index they run on.
    pub fn check_postings(&self) -> (r: bool)
        requires
            self.wf(),
        ensures
            r == self.postings_resolve(),
    {
        let n = self.b.storage.len();
        let count = self.b.postings_list.len();
        let mut b: usize = 0;
        while b < count
            invariant
                0 <= b <= count == self.bucket_count(),
                n == self.items().len(),
                forall|bb: int, t: u32, k: int|
                    0 <= bb < b && 0 <= k < self.posting(bb, t as int).len() ==> #[trigger] self.posting(
                        bb,
                        t as int,
                    )[k] < n,
            decreases count - b,
        {
            let p = &self.b.postings_list[b];
            let len = p.len();
            let mut t: usize = 0;
            while t < len && t <= u32::MAX as usize
                invariant
                    0 <= t <= len == p.spec_len(),
                    t <= u32::MAX + 1,
                    b < count == self.bucket_count(),
                    *p == self.backend().buckets()[b as int],
                    n == self.items().len(),
                    forall|tt: u32, k: int|
                        tt < t && 0 <= k < self.posting(b as int, tt as int).len() ==> #[trigger] self.posting(
                            b as int,
                            tt as int,
                        )[k] < n,
                decreases len - t,
            {
                let list = p.get_posting(t as u32);
                proof {
                    assert(0 <= b < self.backend().buckets().len());
                    assert(self.posting(b as int, t as int) == p.posting(t as int));
                }
                let mut k: usize = 0;
                while k < list.len()
                    invariant
                        0 <= k <= list@.len(),
                        t <= u32::MAX,
                        n == self.items().len(),
                        list@ == self.posting(b as int, t as int),
                        forall|kk: int| 0 <= kk < k ==> list@[kk] < n,
                    decreases list@.len() - k,
                {
                    if list[k] as usize >= n {
                        proof {
                            let tu = t as u32;
                            assert(tu as int == t as int);
                            assert(list@[k as int] >= n);
                            assert(0 <= k < self.posting(b as int, tu as int).len());
                            assert(self.posting(b as int, tu as int)[k as int] >= n);
                            assert(!self.postings_resolve());
                        }
                        return false;
                    }
                    k = k + 1;
                }
                t = t + 1;
            }
            proof {
                assert forall|bb: int, tt: u32, k: int|
                    0 <= bb < b + 1 && 0 <= k < self.posting(bb, tt as int).len() implies #[trigger] self.posting(
                    bb,
                    tt as int,
                )[k] < n by {
                    if bb == b && tt >= t {
                        assert(tt >= len);
                        assert(self.posting(bb, tt as int).len() == 0);
                    }
                }
            }
            b = b + 1;
        }
        proof {
            assert forall|bb: int, t: u32, k: int|
                0 <= k < self.posting(bb, t as int).len() implies #[trigger] self.posting(bb, t as int)[k]
                < n by {
                if bb < 0 || bb >= count {
                    assert(self.posting(bb, t as int).len() == 0);
                }
            }
        }
        true
    }

    /// Number of postings buckets.
    pub fn posting_count(&self) -> (r: usize)
        ensures
            r == self.bucket_count(),
    {
        self.b.posting_count()
    }
}

} // verus!
