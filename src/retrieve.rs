//! Retrieval queries: which terms to look up, in which buckets, and how.

use vstd::prelude::*;
use crate::backend::Index;

verus! {

/// The id that the dictionary of `ix` gives to `t`.
pub open spec fn id_of(ix: Index, t: Seq<char>) -> u32 {
    (choose|id: int| 0 <= id < ix.terms().len() && ix.terms()[id] == t) as u32
}

/// The ids of those of `ts` that the dictionary of `ix` holds, in order.
pub open spec fn resolve(ix: Index, ts: Seq<Seq<char>>) -> Seq<u32>
    decreases ts.len(),
{
    if ts.len() == 0 {
        Seq::empty()
    } else if ix.terms().contains(ts.last()) {
        resolve(ix, ts.drop_last()).push(id_of(ix, ts.last()))
    } else {
        resolve(ix, ts.drop_last())
    }
}

/// Those of `ids` that are term ids of `ix`, in order.
pub open spec fn known_ids(ix: Index, ids: Seq<u32>) -> Seq<u32>
    decreases ids.len(),
{
    if ids.len() == 0 {
        Seq::empty()
    } else if ids.last() < ix.terms().len() {
        known_ids(ix, ids.drop_last()).push(ids.last())
    } else {
        known_ids(ix, ids.drop_last())
    }
}

/// A query against an index: term ids, postings buckets, whether each item
/// comes out once only, and how many items at most (0: no bound).
pub struct Retrieve<'a> {
    backend: &'a Index,
    limit: usize,
    unique: bool,
    terms: Vec<u32>,
    posting_ids: Vec<u32>,
}

impl<'a> Retrieve<'a> {
    pub closed spec fn index(&self) -> Index {
        *self.backend
    }

    pub closed spec fn q_terms(&self) -> Seq<u32> {
        self.terms@
    }

    pub closed spec fn q_buckets(&self) -> Seq<u32> {
        self.posting_ids@
    }

    pub closed spec fn is_unique(&self) -> bool {
        self.unique
    }

    pub closed spec fn q_limit(&self) -> usize {
        self.limit
    }

    /// A query on `backend` with no terms, bucket 0, items as often as they
    /// come, and no bound.
    pub fn new(backend: &'a Index) -> (r: Retrieve<'a>)
        ensures
            r.index() == *backend,
            r.q_terms() == Seq::<u32>::empty(),
            r.q_buckets() == seq![0u32],
            !r.is_unique(),
            r.q_limit() == 0,
    {
        let mut posting_ids: Vec<u32> = Vec::new();
        posting_ids.push(0);
        proof {
            assert(posting_ids@ =~= seq![0u32]);
        }
        Retrieve { backend, unique: false, limit: 0, terms: Vec::new(), posting_ids }
    }

    /// The backend the query runs against.
    pub fn backend(&self) -> (r: &'a Index)
        ensures
            *r == self.index(),
    {
        self.backend
    }

    /// The query's term ids.
    pub fn term_ids(&self) -> (r: &Vec<u32>)
        ensures
            r@ == self.q_terms(),
    {
        &self.terms
    }

    /// The query's buckets.
    pub fn bucket_ids(&self) -> (r: &Vec<u32>)
        ensures
            r@ == self.q_buckets(),
    {
        &self.posting_ids
    }

    /// Whether each item comes out once only.
    pub fn is_unique_query(&self) -> (r: bool)
        ensures
            r == self.is_unique(),
    {
        self.unique
    }

    /// The bound on the number of items; 0 for none.
    pub fn limit(&self) -> (r: usize)
        ensures
            r == self.q_limit(),
    {
        self.limit
    }

    /// Each item comes out once only.
    pub fn unique(self) -> (r: Retrieve<'a>)
        ensures
            r.is_unique(),
            r.index() == self.index(),
            r.q_terms() == self.q_terms(),
            r.q_buckets() == self.q_buckets(),
            r.q_limit() == self.q_limit(),
    {
        Retrieve { unique: true, ..self }
    }

    /// At most `limit` items come out; 0 for no bound.
    pub fn with_limit(self, limit: usize) -> (r: Retrieve<'a>)
        ensures
            r.q_limit() == limit,
            r.index() == self.index(),
            r.q_terms() == self.q_terms(),
            r.q_buckets() == self.q_buckets(),
            r.is_unique() == self.is_unique(),
    {
        Retrieve { limit, ..self }
    }

    /// No bound on the number of items.
    pub fn all(self) -> (r: Retrieve<'a>)
        ensures
            r.q_limit() == 0,
            r.index() == self.index(),
            r.q_terms() == self.q_terms(),
            r.q_buckets() == self.q_buckets(),
            r.is_unique() == self.is_unique(),
    {
        Retrieve { limit: 0, ..self }
    }

    /// The id of `term`, if the dictionary has it.
    fn lookup(&self, term: &String) -> (r: Option<u32>)
        requires
            self.index().wf(),
        ensures
            r == if self.index().terms().contains(term@) {
                Some(id_of(self.index(), term@))
            } else {
                None::<u32>
            },
    {
        let r = self.backend.dict().get_id(term);
        proof {
            let ix = self.index();
            if ix.terms().contains(term@) {
                let id = r->0;
                let c = id_of(ix, term@);
                assert(ix.terms()[c as int] == term@);
                assert(ix.terms()[id as int] == term@);
                assert(ix.terms().no_duplicates());
            }
        }
        r
    }

    /// Resolves each of `terms`, in order, dropping those the dictionary
    /// does not have.
    fn resolve_all(&self, terms: &Vec<String>) -> (r: Vec<u32>)
        requires
            self.index().wf(),
        ensures
            r@ == resolve(self.index(), terms@.map_values(|t: String| t@)),
    {
        let ghost ts = terms@.map_values(|t: String| t@);
        let mut out: Vec<u32> = Vec::new();
        let mut i: usize = 0;
        while i < terms.len()
            invariant
                0 <= i <= terms.len(),
                self.index().wf(),
                ts == terms@.map_values(|t: String| t@),
                out@ == resolve(self.index(), ts.subrange(0, i as int)),
            decreases terms.len() - i,
        {
            let r = self.lookup(&terms[i]);
            if let Some(id) = r {
                out.push(id);
            }
            proof {
                assert(ts.subrange(0, i + 1).drop_last() =~= ts.subrange(0, i as int));
                assert(ts.subrange(0, i + 1).last() == terms@[i as int]@);
            }
            i = i + 1;
        }
        proof {
            assert(ts.subrange(0, terms.len() as int) =~= ts);
        }
        out
    }

    /// Keeps those of `ids` that are term ids of the dictionary.
    fn known(&self, ids: &Vec<u32>) -> (r: Vec<u32>)
        ensures
            r@ == known_ids(self.index(), ids@),
    {
        let mut out: Vec<u32> = Vec::new();
        let mut i: usize = 0;
        while i < ids.len()
            invariant
                0 <= i <= ids.len(),
                out@ == known_ids(self.index(), ids@.subrange(0, i as int)),
            decreases ids.len() - i,
        {
            proof {
                assert(ids@.subrange(0, i + 1).drop_last() =~= ids@.subrange(0, i as int));
            }
            if self.backend.dict().has_term_id(ids[i]) {
                out.push(ids[i]);
            }
            i = i + 1;
        }
        proof {
            assert(ids@.subrange(0, ids.len() as int) =~= ids@);
        }
        out
    }

    /// Queries `term` alone, if the dictionary has it; otherwise the terms
    /// stay as they are.
    pub fn by_term(self, term: &String) -> (r: Retrieve<'a>)
        requires
            self.index().wf(),
        ensures
            r.q_terms() == if self.index().terms().contains(term@) {
                seq![id_of(self.index(), term@)]
            } else {
                self.q_terms()
            },
            r.index() == self.index(),
            r.q_buckets() == self.q_buckets(),
            r.is_unique() == self.is_unique(),
            r.q_limit() == self.q_limit(),
    {
        match self.lookup(term) {
            Some(id) => {
                let mut terms: Vec<u32> = Vec::new();
                terms.push(id);
                proof {
                    assert(terms@ =~= seq![id]);
                }
                Retrieve { terms, ..self }
            },
            None => self,
        }
    }

    /// Queries those of `terms` that the dictionary has.
    pub fn by_terms(self, terms: Vec<String>) -> (r: Retrieve<'a>)
        requires
            self.index().wf(),
        ensures
            r.q_terms() == resolve(self.index(), terms@.map_values(|t: String| t@)),
            r.index() == self.index(),
            r.q_buckets() == self.q_buckets(),
            r.is_unique() == self.is_unique(),
            r.q_limit() == self.q_limit(),
    {
        let ids = self.resolve_all(&terms);
        Retrieve { terms: ids, ..self }
    }

    /// Adds the term id `t_id`, if the dictionary has it.
    pub fn by_term_id(self, t_id: u32) -> (r: Retrieve<'a>)
        ensures
            r.q_terms() == if t_id < self.index().terms().len() {
                self.q_terms().push(t_id)
            } else {
                self.q_terms()
            },
            r.index() == self.index(),
            r.q_buckets() == self.q_buckets(),
            r.is_unique() == self.is_unique(),
            r.q_limit() == self.q_limit(),
    {
        self.add_term_id(t_id)
    }

    /// Queries those of `t_ids` that are term ids of the dictionary.
    pub fn by_term_ids(self, t_ids: Vec<u32>) -> (r: Retrieve<'a>)
        ensures
            r.q_terms() == known_ids(self.index(), t_ids@),
            r.index() == self.index(),
            r.q_buckets() == self.q_buckets(),
            r.is_unique() == self.is_unique(),
            r.q_limit() == self.q_limit(),
    {
        let ids = self.known(&t_ids);
        Retrieve { terms: ids, ..self }
    }

    /// Adds `term`, if the dictionary has it.
    pub fn add_term(self, term: &String) -> (r: Retrieve<'a>)
        requires
            self.index().wf(),
        ensures
            r.q_terms() == if self.index().terms().contains(term@) {
                self.q_terms().push(id_of(self.index(), term@))
            } else {
                self.q_terms()
            },
            r.index() == self.index(),
            r.q_buckets() == self.q_buckets(),
            r.is_unique() == self.is_unique(),
            r.q_limit() == self.q_limit(),
    {
        match self.lookup(term) {
            Some(id) => {
                let mut s = self;
                s.terms.push(id);
                s
            },
            None => self,
        }
    }

    /// Adds those of `terms` that the dictionary has.
    pub fn add_terms(self, terms: Vec<String>) -> (r: Retrieve<'a>)
        requires
            self.index().wf(),
        ensures
            r.q_terms() == self.q_terms() + resolve(self.index(), terms@.map_values(|t: String| t@)),
            r.index() == self.index(),
            r.q_buckets() == self.q_buckets(),
            r.is_unique() == self.is_unique(),
            r.q_limit() == self.q_limit(),
    {
        let ids = self.resolve_all(&terms);
        let mut s = self;
        let mut i: usize = 0;
        while i < ids.len()
            invariant
                0 <= i <= ids.len(),
                s.index() == self.index(),
                s.q_buckets() == self.q_buckets(),
                s.is_unique() == self.is_unique(),
                s.q_limit() == self.q_limit(),
                s.q_terms() == self.q_terms() + ids@.subrange(0, i as int),
            decreases ids.len() - i,
        {
            s.terms.push(ids[i]);
            proof {
                assert(self.q_terms() + ids@.subrange(0, i + 1) =~= (self.q_terms() + ids@.subrange(
                    0,
                    i as int,
                )).push(ids@[i as int]));
            }
            i = i + 1;
        }
        proof {
            assert(ids@.subrange(0, ids.len() as int) =~= ids@);
        }
        s
    }

    /// Adds the term id `t_id`, if the dictionary has it.
    pub fn add_term_id(self, t_id: u32) -> (r: Retrieve<'a>)
        ensures
            r.q_terms() == if t_id < self.index().terms().len() {
                self.q_terms().push(t_id)
            } else {
                self.q_terms()
            },
            r.index() == self.index(),
            r.q_buckets() == self.q_buckets(),
            r.is_unique() == self.is_unique(),
            r.q_limit() == self.q_limit(),
    {
        if self.backend.dict().has_term_id(t_id) {
            let mut s = self;
            s.terms.push(t_id);
            s
        } else {
            self
        }
    }

    /// Adds those of `t_ids` that are term ids of the dictionary.
    pub fn add_term_ids(self, t_ids: Vec<u32>) -> (r: Retrieve<'a>)
        ensures
            r.q_terms() == self.q_terms() + known_ids(self.index(), t_ids@),
            r.index() == self.index(),
            r.q_buckets() == self.q_buckets(),
            r.is_unique() == self.is_unique(),
            r.q_limit() == self.q_limit(),
    {
        let ids = self.known(&t_ids);
        let mut s = self;
        let mut i: usize = 0;
        while i < ids.len()
            invariant
                0 <= i <= ids.len(),
                s.index() == self.index(),
                s.q_buckets() == self.q_buckets(),
                s.is_unique() == self.is_unique(),
                s.q_limit() == self.q_limit(),
                s.q_terms() == self.q_terms() + ids@.subrange(0, i as int),
            decreases ids.len() - i,
        {
            s.terms.push(ids[i]);
            proof {
                assert(self.q_terms() + ids@.subrange(0, i + 1) =~= (self.q_terms() + ids@.subrange(
                    0,
                    i as int,
                )).push(ids@[i as int]));
            }
            i = i + 1;
        }
        proof {
            assert(ids@.subrange(0, ids.len() as int) =~= ids@);
        }
        s
    }

    /// Looks in bucket `p` only.
    pub fn in_posting(self, p: u32) -> (r: Retrieve<'a>)
        ensures
            r.q_buckets() == seq![p],
            r.index() == self.index(),
            r.q_terms() == self.q_terms(),
            r.is_unique() == self.is_unique(),
            r.q_limit() == self.q_limit(),
    {
        let mut posting_ids: Vec<u32> = Vec::new();
        posting_ids.push(p);
        proof {
            assert(posting_ids@ =~= seq![p]);
        }
        Retrieve { posting_ids, ..self }
    }

    /// Looks in the buckets `p`, in that order.
    pub fn in_postings(self, p: Vec<u32>) -> (r: Retrieve<'a>)
        ensures
            r.q_buckets() == p@,
            r.index() == self.index(),
            r.q_terms() == self.q_terms(),
            r.is_unique() == self.is_unique(),
            r.q_limit() == self.q_limit(),
    {
        Retrieve { posting_ids: p, ..self }
    }
}

impl<'a> Retrieve<'a> {
    /// Takes the most recently added term id off the query.
    pub(crate) fn pop_term(&mut self) -> (r: Option<u32>)
        ensures
            final(self).index() == old(self).index(),
            final(self).q_buckets() == old(self).q_buckets(),
            final(self).is_unique() == old(self).is_unique(),
            final(self).q_limit() == old(self).q_limit(),
            old(self).q_terms().len() == 0 ==> r is None && final(self).q_terms() == old(self).q_terms(),
            old(self).q_terms().len() > 0 ==> r == Some(old(self).q_terms().last())
                && final(self).q_terms() == old(self).q_terms().drop_last(),
    {
        self.terms.pop()
    }

    /// Puts the query's term ids in ascending order.
    pub(crate) fn sort_terms(&mut self)
        ensures
            final(self).index() == old(self).index(),
            final(self).q_buckets() == old(self).q_buckets(),
            final(self).is_unique() == old(self).is_unique(),
            final(self).q_limit() == old(self).q_limit(),
            crate::builder::is_sorted(final(self).q_terms()),
            final(self).q_terms().to_multiset() == old(self).q_terms().to_multiset(),
    {
        crate::builder::sort_ids(&mut self.terms);
    }
}

impl Index {
    /// A query on this index.
    pub fn retrieve(&self) -> (r: Retrieve<'_>)
        ensures
            r.index() == *self,
            r.q_terms() == Seq::<u32>::empty(),
            r.q_buckets() == seq![0u32],
            !r.is_unique(),
            r.q_limit() == 0,
    {
        Retrieve::new(self)
    }
}

} // verus!
