//! The retrieval strategies: an unranked lazy union of postings lists, and a
//! ranking by the number of query terms an item matches.

use std::collections::HashSet;
use vstd::prelude::*;
use crate::backend::Index;
use crate::retrieve::Retrieve;

verus! {

broadcast use vstd::std_specs::hash::group_hash_axioms;

/// The item ids of term `t` in the buckets `bs`, bucket by bucket.
pub open spec fn gathered(ix: Index, t: u32, bs: Seq<u32>) -> Seq<u32>
    decreases bs.len(),
{
    if bs.len() == 0 {
        Seq::empty()
    } else {
        gathered(ix, t, bs.drop_last()) + ix.posting(bs.last() as int, t as int)
    }
}

/// The ids of `s` that are not in `seen`, each at its first occurrence.
pub open spec fn fresh_ids(s: Seq<u32>, seen: Set<u32>) -> Seq<u32>
    decreases s.len(),
{
    if s.len() == 0 {
        Seq::empty()
    } else {
        let f = fresh_ids(s.drop_last(), seen);
        if seen.contains(s.last()) || f.contains(s.last()) {
            f
        } else {
            f.push(s.last())
        }
    }
}

/// What term `t` adds to the buffer of the retriever.
pub open spec fn contribution(ix: Index, t: u32, bs: Seq<u32>, unique: bool, seen: Set<u32>) -> Seq<u32> {
    if unique {
        fresh_ids(gathered(ix, t, bs), seen)
    } else {
        gathered(ix, t, bs)
    }
}

/// The item ids that the unranked retriever yields for the term stack `ts`:
/// the last term first, and the ids of each term in reverse order.
pub open spec fn default_ids(ix: Index, ts: Seq<u32>, bs: Seq<u32>, unique: bool, seen: Set<u32>) -> Seq<u32>
    decreases ts.len(),
{
    if ts.len() == 0 {
        Seq::empty()
    } else {
        let f = contribution(ix, ts.last(), bs, unique, seen);
        let seen2 = if unique {
            seen.union(f.to_set())
        } else {
            seen
        };
        f.reverse() + default_ids(ix, ts.drop_last(), bs, unique, seen2)
    }
}

/// The stored items with the ids `ids`.
pub open spec fn items_of(ix: Index, ids: Seq<u32>) -> Seq<u32> {
    ids.map_values(|id: u32| ix.items()[id as int])
}

/// Every id in `s` is below `n`.
pub open spec fn all_below(s: Seq<u32>, n: int) -> bool {
    forall|i: int| 0 <= i < s.len() ==> #[trigger] s[i] < n
}

proof fn lemma_gathered_below(ix: Index, t: u32, bs: Seq<u32>)
    requires
        ix.postings_resolve(),
    ensures
        all_below(gathered(ix, t, bs), ix.items().len() as int),
    decreases bs.len(),
{
    if bs.len() > 0 {
        lemma_gathered_below(ix, t, bs.drop_last());
        let a = gathered(ix, t, bs.drop_last());
        let p = ix.posting(bs.last() as int, t as int);
        assert forall|i: int| 0 <= i < (a + p).len() implies #[trigger] (a + p)[i] < ix.items().len() by {
            if i >= a.len() {
                assert(p[i - a.len()] < ix.items().len());
            }
        }
    }
}

proof fn lemma_fresh_ids_below(s: Seq<u32>, seen: Set<u32>, n: int)
    requires
        all_below(s, n),
    ensures
        all_below(fresh_ids(s, seen), n),
    decreases s.len(),
{
    if s.len() > 0 {
        assert(all_below(s.drop_last(), n)) by {
            assert forall|i: int| 0 <= i < s.drop_last().len() implies #[trigger] s.drop_last()[i] < n by {
                assert(s[i] < n);
            }
        }
        lemma_fresh_ids_below(s.drop_last(), seen, n);
        assert(s[s.len() - 1] < n);
    }
}

proof fn lemma_default_ids_below(ix: Index, ts: Seq<u32>, bs: Seq<u32>, unique: bool, seen: Set<u32>)
    requires
        ix.postings_resolve(),
    ensures
        all_below(default_ids(ix, ts, bs, unique, seen), ix.items().len() as int),
    decreases ts.len(),
{
    if ts.len() > 0 {
        let n = ix.items().len() as int;
        let f = contribution(ix, ts.last(), bs, unique, seen);
        lemma_gathered_below(ix, ts.last(), bs);
        if unique {
            lemma_fresh_ids_below(gathered(ix, ts.last(), bs), seen, n);
        }
        let seen2 = if unique {
            seen.union(f.to_set())
        } else {
            seen
        };
        lemma_default_ids_below(ix, ts.drop_last(), bs, unique, seen2);
        let d = default_ids(ix, ts.drop_last(), bs, unique, seen2);
        assert forall|i: int| 0 <= i < (f.reverse() + d).len() implies #[trigger] (f.reverse() + d)[i] < n by {
            if i < f.len() {
                assert(f.reverse()[i] == f[f.len() - 1 - i]);
            } else {
                assert(d[i - f.len()] < n);
            }
        }
    }
}

/// The unranked retriever: yields the items of the query's terms lazily,
/// term by term from the most recently added one.
pub struct DefaultRetrieve<'a> {
    retrieve: Retrieve<'a>,
    storage_buf: Vec<u32>,
    seen: HashSet<u32>,
}

impl<'a> DefaultRetrieve<'a> {
    pub closed spec fn query(&self) -> Retrieve<'a> {
        self.retrieve
    }

    pub closed spec fn buffer(&self) -> Seq<u32> {
        self.storage_buf@
    }

    pub closed spec fn seen_ids(&self) -> Set<u32> {
        self.seen@
    }

    /// The item ids still to come, in order.
    pub open spec fn rest(&self) -> Seq<u32> {
        self.buffer().reverse() + default_ids(
            self.query().index(),
            self.query().q_terms(),
            self.query().q_buckets(),
            self.query().is_unique(),
            self.seen_ids(),
        )
    }

    /// The index is well formed, its postings resolve, and so does every id
    /// still to come.
    pub open spec fn wf(&self) -> bool {
        &&& self.query().index().wf()
        &&& self.query().index().postings_resolve()
        &&& all_below(self.rest(), self.query().index().items().len() as int)
    }

    /// A retriever for the query `retrieve`.
    pub fn new(retrieve: Retrieve<'a>) -> (r: DefaultRetrieve<'a>)
        requires
            retrieve.index().wf(),
            retrieve.index().postings_resolve(),
        ensures
            r.wf(),
            r.query() == retrieve,
            r.rest() == default_ids(
                retrieve.index(),
                retrieve.q_terms(),
                retrieve.q_buckets(),
                retrieve.is_unique(),
                Set::empty(),
            ),
    {
        let r = DefaultRetrieve { retrieve, storage_buf: Vec::new(), seen: HashSet::new() };
        proof {
            lemma_default_ids_below(
                retrieve.index(),
                retrieve.q_terms(),
                retrieve.q_buckets(),
                retrieve.is_unique(),
                Set::empty(),
            );
        }
        assert(r.buffer().reverse() =~= Seq::<u32>::empty());
        assert(r.rest() =~= default_ids(
            retrieve.index(),
            retrieve.q_terms(),
            retrieve.q_buckets(),
            retrieve.is_unique(),
            Set::empty(),
        ));
        r
    }

    /// The query's term ids that have not been taken yet.
    pub fn q_term_ids(&self) -> (r: &Vec<u32>)
        ensures
            r@ == self.query().q_terms(),
    {
        self.retrieve.term_ids()
    }

    /// Appends to the buffer the ids that term `t` contributes.
    fn gather(&mut self, t: u32)
        ensures
            final(self).query() == old(self).query(),
            final(self).buffer() == old(self).buffer() + contribution(
                old(self).query().index(),
                t,
                old(self).query().q_buckets(),
                old(self).query().is_unique(),
                old(self).seen_ids(),
            ),
            final(self).seen_ids() == if old(self).query().is_unique() {
                old(self).seen_ids().union(
                    contribution(
                        old(self).query().index(),
                        t,
                        old(self).query().q_buckets(),
                        true,
                        old(self).seen_ids(),
                    ).to_set(),
                )
            } else {
                old(self).seen_ids()
            },
    {
        let ix: &Index = self.retrieve.backend();
        let unique = self.retrieve.is_unique_query();
        let bs = self.retrieve.bucket_ids().clone();
        let ghost b0 = self.storage_buf@;
        let ghost s0 = self.seen@;
        let ghost bsv = self.query().q_buckets();
        proof {
            assert(bs@ =~= bsv);
        }
        let mut k: usize = 0;
        while k < bs.len()
            invariant
                0 <= k <= bs@.len(),
                bs@ == bsv,
                self.retrieve == old(self).retrieve,
                *ix == self.query().index(),
                unique == self.query().is_unique(),
                bsv == self.query().q_buckets(),
                b0 == old(self).buffer(),
                s0 == old(self).seen_ids(),
                unique ==> self.storage_buf@ == b0 + fresh_ids(gathered(*ix, t, bsv.subrange(0, k as int)), s0)
                    && self.seen@ == s0.union(fresh_ids(gathered(*ix, t, bsv.subrange(0, k as int)), s0).to_set()),
                !unique ==> self.storage_buf@ == b0 + gathered(*ix, t, bsv.subrange(0, k as int))
                    && self.seen@ == s0,
            decreases bs@.len() - k,
        {
            let ghost g0 = gathered(*ix, t, bsv.subrange(0, k as int));
            let list = match ix.postings(bs[k]) {
                Some(p) => p.get_posting(t),
                None => Vec::new(),
            };
            proof {
                assert(list@ == ix.posting(bs@[k as int] as int, t as int));
                assert(bsv.subrange(0, k + 1).drop_last() =~= bsv.subrange(0, k as int));
                assert(gathered(*ix, t, bsv.subrange(0, k + 1)) == g0 + list@);
            }
            let mut j: usize = 0;
            while j < list.len()
                invariant
                    0 <= j <= list@.len(),
                    self.retrieve == old(self).retrieve,
                    unique == self.query().is_unique(),
                    unique ==> self.storage_buf@ == b0 + fresh_ids(g0 + list@.subrange(0, j as int), s0)
                        && self.seen@ == s0.union(fresh_ids(g0 + list@.subrange(0, j as int), s0).to_set()),
                    !unique ==> self.storage_buf@ == b0 + g0 + list@.subrange(0, j as int)
                        && self.seen@ == s0,
                decreases list@.len() - j,
            {
                let x = list[j];
                let ghost g = g0 + list@.subrange(0, j as int);
                let ghost g2 = g0 + list@.subrange(0, j + 1);
                proof {
                    assert(g2 =~= g.push(x));
                    assert(g2.drop_last() =~= g);
                }
                if !unique {
                    self.storage_buf.push(x);
                    proof {
                        assert(self.storage_buf@ =~= b0 + g2);
                    }
                } else {
                    let ghost f = fresh_ids(g, s0);
                    proof {
                        assert(s0.union(f.to_set()).contains(x) == (s0.contains(x) || f.contains(x)));
                    }
                    if self.seen.insert(x) {
                        self.storage_buf.push(x);
                        proof {
                            assert(fresh_ids(g2, s0) == f.push(x));
                            assert(self.storage_buf@ =~= b0 + f.push(x));
                            assert forall|y: u32| #[trigger] f.push(x).contains(y) == (f.contains(y) || y
                                == x) by {
                                if f.contains(y) {
                                    let i = choose|i: int| 0 <= i < f.len() && f[i] == y;
                                    assert(f.push(x)[i] == y);
                                }
                                if y == x {
                                    assert(f.push(x)[f.len() as int] == x);
                                }
                                if f.push(x).contains(y) {
                                    let i = choose|i: int| 0 <= i < f.len() + 1 && f.push(x)[i] == y;
                                    if i < f.len() {
                                        assert(f[i] == y);
                                    }
                                }
                            }
                            assert(self.seen@ =~= s0.union(f.push(x).to_set()));
                        }
                    } else {
                        proof {
                            assert(fresh_ids(g2, s0) == f);
                            assert(self.seen@ =~= s0.union(f.to_set()));
                        }
                    }
                }
                j = j + 1;
            }
            proof {
                assert(list@.subrange(0, list@.len() as int) =~= list@);
            }
            k = k + 1;
        }
        proof {
            assert(bsv.subrange(0, bsv.len() as int) =~= bsv);
        }
    }

    /// Takes terms off the query, most recently added first, until one of
    /// them contributes ids or none are left. The buffer then holds what that
    /// last term contributes; every term taken before it contributed
    /// nothing, and the seen set grew by the buffer's ids only.
    fn fill_buff(&mut self)
        requires
            old(self).buffer().len() == 0,
        ensures
            final(self).rest() == old(self).rest(),
            final(self).buffer().len() > 0 || final(self).rest().len() == 0,
            final(self).query().index() == old(self).query().index(),
            final(self).query().q_buckets() == old(self).query().q_buckets(),
            final(self).query().is_unique() == old(self).query().is_unique(),
            final(self).query().q_limit() == old(self).query().q_limit(),
            final(self).query().q_terms().len() <= old(self).query().q_terms().len(),
            final(self).query().q_terms() == old(self).query().q_terms().subrange(
                0,
                final(self).query().q_terms().len() as int,
            ),
            forall|q: int|
                final(self).query().q_terms().len() < q < old(self).query().q_terms().len()
                    ==> #[trigger] contribution(
                    old(self).query().index(),
                    old(self).query().q_terms()[q],
                    old(self).query().q_buckets(),
                    old(self).query().is_unique(),
                    old(self).seen_ids(),
                ).len() == 0,
            final(self).buffer().len() == 0 ==> {
                &&& final(self).query().q_terms().len() == 0
                &&& final(self).seen_ids() == old(self).seen_ids()
                &&& forall|q: int|
                    0 <= q < old(self).query().q_terms().len() ==> #[trigger] contribution(
                        old(self).query().index(),
                        old(self).query().q_terms()[q],
                        old(self).query().q_buckets(),
                        old(self).query().is_unique(),
                        old(self).seen_ids(),
                    ).len() == 0
            },
            final(self).buffer().len() > 0 ==> {
                &&& final(self).query().q_terms().len() < old(self).query().q_terms().len()
                &&& final(self).buffer() == contribution(
                    old(self).query().index(),
                    old(self).query().q_terms()[final(self).query().q_terms().len() as int],
                    old(self).query().q_buckets(),
                    old(self).query().is_unique(),
                    old(self).seen_ids(),
                )
                &&& final(self).seen_ids() == if old(self).query().is_unique() {
                    old(self).seen_ids().union(final(self).buffer().to_set())
                } else {
                    old(self).seen_ids()
                }
            },
    {
        let ghost q0 = self.query();
        let ghost ts0 = q0.q_terms();
        let ghost seen0 = self.seen_ids();
        while self.storage_buf.len() == 0 && self.retrieve.term_ids().len() > 0
            invariant
                self.rest() == old(self).rest(),
                q0 == old(self).query(),
                ts0 == q0.q_terms(),
                seen0 == old(self).seen_ids(),
                self.query().index() == q0.index(),
                self.query().q_buckets() == q0.q_buckets(),
                self.query().is_unique() == q0.is_unique(),
                self.query().q_limit() == q0.q_limit(),
                self.query().q_terms().len() <= ts0.len(),
                self.query().q_terms() == ts0.subrange(0, self.query().q_terms().len() as int),
                forall|q: int|
                    self.query().q_terms().len() < q < ts0.len() ==> #[trigger] contribution(
                        q0.index(),
                        ts0[q],
                        q0.q_buckets(),
                        q0.is_unique(),
                        seen0,
                    ).len() == 0,
                self.buffer().len() == 0 ==> self.seen_ids() == seen0 && (self.query().q_terms().len()
                    < ts0.len() ==> contribution(
                    q0.index(),
                    ts0[self.query().q_terms().len() as int],
                    q0.q_buckets(),
                    q0.is_unique(),
                    seen0,
                ).len() == 0),
                self.buffer().len() > 0 ==> self.query().q_terms().len() < ts0.len()
                    && self.buffer() == contribution(
                    q0.index(),
                    ts0[self.query().q_terms().len() as int],
                    q0.q_buckets(),
                    q0.is_unique(),
                    seen0,
                ) && self.seen_ids() == if q0.is_unique() {
                    seen0.union(self.buffer().to_set())
                } else {
                    seen0
                },
            decreases self.query().q_terms().len(),
        {
            let ghost before = self.rest();
            let ghost q = self.query();
            let ghost ts = q.q_terms();
            let ghost len0 = ts.len();
            let t = match self.retrieve.pop_term() {
                Some(t) => t,
                None => {
                    return;
                },
            };
            proof {
                assert(self.storage_buf@ =~= Seq::<u32>::empty());
                assert(before =~= default_ids(q.index(), ts, q.q_buckets(), q.is_unique(), seen0));
                assert(ts0.subrange(0, len0 - 1) =~= ts.drop_last());
                assert(t == ts0[len0 - 1]);
            }
            self.gather(t);
            proof {
                let f = contribution(q.index(), t, q.q_buckets(), q.is_unique(), seen0);
                assert(self.buffer() =~= f);
                assert(ts.last() == t);
                assert(self.rest() =~= before);
                if f.len() == 0 {
                    assert(f.to_set() =~= Set::<u32>::empty());
                    assert(seen0.union(f.to_set()) =~= seen0);
                }
            }
        }
        proof {
            if self.storage_buf@.len() == 0 {
                assert(self.query().q_terms().len() == 0);
                assert(self.buffer().reverse() =~= Seq::<u32>::empty());
            }
        }
    }

    /// The next item, or `None` once all have come out.
    pub fn next(&mut self) -> (r: Option<u32>)
        requires
            old(self).wf(),
        ensures
            final(self).wf(),
            final(self).query().index() == old(self).query().index(),
            old(self).rest().len() == 0 ==> r is None && final(self).rest().len() == 0,
            old(self).rest().len() > 0 ==> r == Some(
                old(self).query().index().items()[old(self).rest()[0] as int],
            ) && final(self).rest() == old(self).rest().drop_first(),
    {
        if self.storage_buf.len() == 0 {
            self.fill_buff();
        }
        let ghost before = self.rest();
        let ghost d = before.subrange(self.buffer().len() as int, before.len() as int);
        let id = match self.storage_buf.pop() {
            Some(id) => id,
            None => {
                return None;
            },
        };
        proof {
            assert(before[0] == id);
            assert(self.rest() =~= before.drop_first());
            assert(before[0] < self.query().index().items().len());
            assert(all_below(self.rest(), self.query().index().items().len() as int)) by {
                assert forall|i: int| 0 <= i < self.rest().len() implies #[trigger] self.rest()[i]
                    < self.query().index().items().len() by {
                    assert(self.rest()[i] == before[i + 1]);
                }
            }
        }
        let ix: &Index = self.retrieve.backend();
        match ix.storage().get_item(id) {
            Some(item) => Some(item),
            None => None,
        }
    }

    /// All the items still to come, in order.
    pub fn collect_all(&mut self) -> (r: Vec<u32>)
        requires
            old(self).wf(),
        ensures
            final(self).wf(),
            r@ == items_of(old(self).query().index(), old(self).rest()),
            final(self).rest().len() == 0,
    {
        let ghost ix = self.query().index();
        let ghost all = self.rest();
        let mut out: Vec<u32> = Vec::new();
        let mut done = false;
        while !done
            invariant
                self.wf(),
                self.query().index() == ix,
                out@ + items_of(ix, self.rest()) == items_of(ix, all),
                done ==> self.rest().len() == 0,
            decreases self.rest().len() + if done {
                0int
            } else {
                1int
            },
        {
            let ghost before = self.rest();
            match self.next() {
                Some(x) => {
                    out.push(x);
                    proof {
                        assert(out@ + items_of(ix, self.rest()) =~= out@.drop_last() + items_of(
                            ix,
                            before,
                        ));
                    }
                },
                None => {
                    done = true;
                },
            }
        }
        proof {
            assert(items_of(ix, self.rest()) =~= Seq::<u32>::empty());
            assert(out@ + Seq::<u32>::empty() =~= out@);
        }
        out
    }
}

impl<'a> Retrieve<'a> {
    /// An unranked, lazy retriever for this query.
    pub fn get(self) -> (r: DefaultRetrieve<'a>)
        requires
            self.index().wf(),
            self.index().postings_resolve(),
        ensures
            r.wf(),
            r.query() == self,
            r.rest() == default_ids(
                self.index(),
                self.q_terms(),
                self.q_buckets(),
                self.is_unique(),
                Set::empty(),
            ),
    {
        DefaultRetrieve::new(self)
    }

    /// All items of the unranked retrieval: the query's terms from the most
    /// recently added, the items of each term in reverse postings order, each
    /// item once only for a unique query.
    pub fn get_all(self) -> (r: Vec<u32>)
        requires
            self.index().wf(),
            self.index().postings_resolve(),
        ensures
            r@ == items_of(
                self.index(),
                default_ids(self.index(), self.q_terms(), self.q_buckets(), self.is_unique(), Set::empty()),
            ),
    {
        let mut it = DefaultRetrieve::new(self);
        it.collect_all()
    }
}

} // verus!
