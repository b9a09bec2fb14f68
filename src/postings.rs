//! Dense postings: a mapping from term ids to lists of item ids, stored as two
//! flat arrays so that a lookup is two offset dereferences.

use std::collections::HashMap;
use itertools::Itertools;
use vstd::prelude::*;

verus! {

/// The postings lists of a staging map, as plain sequences.
pub open spec fn lists_of(m: Map<u32, Vec<u32>>) -> Map<u32, Seq<u32>> {
    Map::new(|k: u32| m.contains_key(k), |k: u32| m[k]@)
}

/// The list that `m` gives to `k`: empty where `k` is not mapped.
pub open spec fn list_or_empty(m: Map<u32, Seq<u32>>, k: u32) -> Seq<u32> {
    if m.contains_key(k) {
        m[k]
    } else {
        Seq::empty()
    }
}

/// Number of cells of `data` that the dense encoding of `m` spends on the
/// term ids below `n`: a length cell per id, plus the items of mapped ids.
pub open spec fn encoded_size(m: Map<u32, Seq<u32>>, n: int) -> int
    decreases n,
{
    if n <= 0 {
        0
    } else {
        encoded_size(m, n - 1) + 1 + list_or_empty(m, (n - 1) as u32).len()
    }
}

/// `true` if every offset and length of the dense encoding of `m` fits in a `u32`.
pub open spec fn fits_encoding(m: Map<u32, Seq<u32>>) -> bool {
    forall|k: u32| m.contains_key(k) ==> #[trigger] encoded_size(m, k + 1) <= u32::MAX
}

/// The list that the arrays `index` and `data` hold for `id`. An id outside
/// `index`, a zero length, or a record that runs past `data` reads as empty.
pub open spec fn posting_in(index: Seq<u32>, data: Seq<u32>, id: int) -> Seq<u32> {
    if 0 <= id < index.len() && index[id] < data.len() && data[index[id] as int] > 0
        && index[id] + 1 + data[index[id] as int] <= data.len() {
        data.subrange(index[id] + 1, index[id] + 1 + data[index[id] as int])
    } else {
        Seq::empty()
    }
}

/// The cells of `data` that the dense encoding of `m` holds for the term ids
/// below `n`: for each id its length, then its items.
pub open spec fn layout(m: Map<u32, Seq<u32>>, n: int) -> Seq<u32>
    decreases n,
{
    if n <= 0 {
        Seq::empty()
    } else {
        layout(m, n - 1) + seq![list_or_empty(m, (n - 1) as u32).len() as u32] + list_or_empty(
            m,
            (n - 1) as u32,
        )
    }
}

/// The offsets of the records of the term ids below `n`.
pub open spec fn offsets(m: Map<u32, Seq<u32>>, n: int) -> Seq<u32> {
    Seq::new(n as nat, |t: int| encoded_size(m, t) as u32)
}

proof fn lemma_layout_len(m: Map<u32, Seq<u32>>, n: int)
    requires
        n >= 0,
    ensures
        layout(m, n).len() == encoded_size(m, n),
    decreases n,
{
    if n > 0 {
        lemma_layout_len(m, n - 1);
    }
}

proof fn lemma_layout_prefix(m: Map<u32, Seq<u32>>, a: int, b: int)
    requires
        0 <= a <= b,
    ensures
        layout(m, b).subrange(0, encoded_size(m, a)) == layout(m, a),
    decreases b - a,
{
    lemma_layout_len(m, a);
    lemma_layout_len(m, b);
    if a < b {
        lemma_layout_prefix(m, a, b - 1);
        lemma_layout_len(m, b - 1);
        lemma_encoded_size_monotonic(m, a, b - 1);
        assert(layout(m, b).subrange(0, encoded_size(m, a)) =~= layout(m, b - 1).subrange(
            0,
            encoded_size(m, a),
        ));
    } else {
        assert(layout(m, b).subrange(0, encoded_size(m, a)) =~= layout(m, a));
    }
}

/// The record of a term id below `n` reads back as its list.
proof fn lemma_layout_record(m: Map<u32, Seq<u32>>, n: int, t: int)
    requires
        0 <= t < n <= u32::MAX + 1,
        encoded_size(m, n) <= u32::MAX,
    ensures
        posting_in(offsets(m, n), layout(m, n), t) == list_or_empty(m, t as u32),
{
    let e = encoded_size(m, t);
    let l = list_or_empty(m, t as u32);
    lemma_layout_prefix(m, t + 1, n);
    lemma_layout_len(m, t);
    lemma_layout_len(m, n);
    lemma_encoded_size_monotonic(m, t + 1, n);
    lemma_encoded_size_monotonic(m, 0, t);
    let whole = layout(m, n);
    let part = layout(m, t + 1);
    assert(part == layout(m, t) + seq![l.len() as u32] + l);
    assert(whole.subrange(0, encoded_size(m, t + 1)) == part);
    assert(whole[e] == part[e]);
    assert(part[e] == l.len() as u32);
    assert(offsets(m, n)[t] == e as u32);
    if l.len() > 0 {
        assert(whole.subrange(e + 1, e + 1 + l.len()) =~= part.subrange(e + 1, e + 1 + l.len()));
        assert(part.subrange(e + 1, e + 1 + l.len()) =~= l);
    } else {
        assert(l =~= Seq::<u32>::empty());
    }
}

proof fn lemma_encoded_size_nonneg(m: Map<u32, Seq<u32>>, n: int)
    ensures
        encoded_size(m, n) >= 0,
    decreases n,
{
    if n > 0 {
        lemma_encoded_size_nonneg(m, n - 1);
    }
}

/// Term ids that `m` leaves out take one cell each.
proof fn lemma_encoded_size_gap(m: Map<u32, Seq<u32>>, a: int, b: int)
    requires
        0 <= a <= b,
        forall|x: int| a <= x < b ==> !#[trigger] m.contains_key(x as u32),
    ensures
        encoded_size(m, b) == encoded_size(m, a) + (b - a),
    decreases b - a,
{
    if a < b {
        lemma_encoded_size_gap(m, a, b - 1);
        assert(!m.contains_key((b - 1) as u32));
    }
}

proof fn lemma_encoded_size_monotonic(m: Map<u32, Seq<u32>>, a: int, b: int)
    requires
        a <= b,
    ensures
        encoded_size(m, a) <= encoded_size(m, b),
    decreases b - a,
{
    if a < b {
        lemma_encoded_size_monotonic(m, a, b - 1);
    }
}

/// Relies on itertools::Itertools::sorted_by_key: every entry of the map once,
/// in ascending order of the key (the keys of a map are distinct).
#[verifier::external_body]
pub(crate) fn entries_by_key(map: HashMap<u32, Vec<u32>>) -> (r: Vec<(u32, Vec<u32>)>)
    ensures
        forall|i: int, j: int| 0 <= i < j < r.len() ==> r[i].0 < r[j].0,
        forall|i: int| 0 <= i < r.len() ==> map@.contains_key(#[trigger] r[i].0) && map@[r[i].0] == r[i].1,
        forall|k: u32| map@.contains_key(k) ==> exists|i: int| 0 <= i < r.len() && #[trigger] r[i].0 == k,
{
    map.into_iter().sorted_by_key(|e| e.0).collect()
}

/// Term id to item ids, densely encoded.
///
/// `index[t]` is the offset in `data` of the record of term `t`: a length
/// followed by that many item ids. Term ids without postings hold a record of
/// length zero, so `index` has an entry for every id up to the largest one.
pub struct Postings {
    index: Vec<u32>,
    data: Vec<u32>,
}

impl Postings {
    /// The list stored for term `id`.
    pub open spec fn posting(&self, id: int) -> Seq<u32> {
        posting_in(self.index(), self.data(), id)
    }

    /// Number of term ids that `index` covers.
    pub open spec fn spec_len(&self) -> nat {
        self.index().len()
    }

    /// Postings without any term.
    pub fn new() -> (r: Postings)
        ensures
            r.spec_len() == 0,
            forall|id: int| r.posting(id) == Seq::<u32>::empty(),
    {
        Postings { index: Vec::new(), data: Vec::new() }
    }

    /// Encodes `map` densely, as `from_map` does; `None` if an offset or a
    /// length would not fit in a `u32`.
    pub fn try_from_map(map: HashMap<u32, Vec<u32>>) -> (r: Option<Postings>)
        ensures
            match r {
                Some(p) => fits_encoding(lists_of(map@)) && (forall|k: u32|
                    #[trigger] p.posting(k as int) == list_or_empty(lists_of(map@), k)) && (forall|
                    k: u32,
                | lists_of(map@).contains_key(k) ==> k < p.spec_len()) && (p.spec_len() == 0
                    || lists_of(map@).contains_key((p.spec_len() - 1) as u32)),
                None => !fits_encoding(lists_of(map@)),
            },
    {
        let ghost m = lists_of(map@);
        let ghost keys = map@;
        let entries = entries_by_key(map);
        let mut index: Vec<u32> = Vec::new();
        let mut data: Vec<u32> = Vec::new();
        let mut next: u64 = 0;
        let mut i: usize = 0;
        while i < entries.len()
            invariant
                0 <= i <= entries.len(),
                m == lists_of(keys),
                keys == map@,
                forall|k: u32| m.contains_key(k) && k < next ==> #[trigger] encoded_size(m, k + 1)
                    <= u32::MAX,
                forall|a: int, b: int| 0 <= a < b < entries.len() ==> entries[a].0 < entries[b].0,
                forall|a: int|
                    0 <= a < entries.len() ==> keys.contains_key(#[trigger] entries[a].0)
                        && keys[entries[a].0] == entries[a].1,
                forall|k: u32|
                    keys.contains_key(k) ==> exists|a: int|
                        0 <= a < entries.len() && #[trigger] entries[a].0 == k,
                next == if i == 0 {
                    0
                } else {
                    entries[i - 1].0 + 1
                },
                next <= u32::MAX + 1,
                index@ == offsets(m, next as int),
                data@ == layout(m, next as int),
                next == 0 || encoded_size(m, next as int) <= u32::MAX,
                forall|k: u32| #[trigger] m.contains_key(k) && k < next ==> exists|a: int|
                    0 <= a < i && entries[a].0 == k,
            decreases entries.len() - i,
        {
            let term_id = entries[i].0;
            let items = &entries[i].1;
            proof {
                assert(m.contains_key(term_id));
                assert(m[term_id] == items@);
                lemma_layout_len(m, next as int);
                assert forall|x: int| next <= x < term_id implies !#[trigger] m.contains_key(x as u32) by {
                    let k = x as u32;
                    if m.contains_key(k) {
                        let a = choose|a: int| 0 <= a < entries.len() && entries[a].0 == k;
                        if a < i {
                            if i > 0 {
                                assert(entries[a].0 <= entries[i - 1].0);
                            }
                        } else if a > i {
                            assert(entries[a].0 > entries[i as int].0);
                        }
                    }
                }
                lemma_encoded_size_gap(m, next as int, term_id as int);
            }
            if items.len() as u64 > u32::MAX as u64 || data.len() as u64 + (term_id as u64 - next) + 1
                + items.len() as u64 > u32::MAX as u64 {
                proof {
                    lemma_encoded_size_monotonic(m, next as int, term_id as int);
                    lemma_encoded_size_nonneg(m, next as int);
                    assert(encoded_size(m, term_id + 1) > u32::MAX);
                    assert(!fits_encoding(m));
                }
                return None;
            }
            while next < term_id as u64
                invariant
                    next <= term_id,
                    i == 0 || entries[i - 1].0 < next,
                    forall|k: u32| #[trigger] m.contains_key(k) && k < next ==> exists|a: int|
                        0 <= a < i && entries[a].0 == k,
                    m == lists_of(keys),
                    term_id == entries[i as int].0,
                    0 <= i < entries.len(),
                    forall|a: int, b: int| 0 <= a < b < entries.len() ==> entries[a].0 < entries[b].0,
                    forall|a: int|
                        0 <= a < entries.len() ==> keys.contains_key(#[trigger] entries[a].0),
                    forall|k: u32|
                        keys.contains_key(k) ==> exists|a: int|
                            0 <= a < entries.len() && #[trigger] entries[a].0 == k,
                    index@ == offsets(m, next as int),
                    data@ == layout(m, next as int),
                    encoded_size(m, term_id + 1) <= u32::MAX,
                    forall|x: int| next <= x < term_id ==> !#[trigger] m.contains_key(x as u32),
                decreases term_id - next,
            {
                proof {
                    let k = next as u32;
                    assert(!m.contains_key(k));
                    lemma_layout_len(m, next as int);
                    lemma_encoded_size_monotonic(m, next as int + 1, term_id as int + 1);
                    assert(offsets(m, next + 1) =~= offsets(m, next as int).push(
                        encoded_size(m, next as int) as u32,
                    ));
                    assert(layout(m, next + 1) =~= layout(m, next as int).push(0));
                }
                index.push(data.len() as u32);
                data.push(0);
                next = next + 1;
            }
            proof {
                lemma_layout_len(m, next as int);
                lemma_encoded_size_monotonic(m, next as int, next as int + 1);
                assert(m[term_id] == items@);
                assert(list_or_empty(m, term_id) == items@);
                assert(offsets(m, next + 1) =~= offsets(m, next as int).push(
                    encoded_size(m, next as int) as u32,
                ));
            }
            index.push(data.len() as u32);
            data.push(items.len() as u32);
            let ghost base = data@;
            let mut j: usize = 0;
            while j < items.len()
                invariant
                    0 <= j <= items.len(),
                    data@ == base + items@.subrange(0, j as int),
                decreases items.len() - j,
            {
                proof {
                    assert(base + items@.subrange(0, j + 1) =~= (base + items@.subrange(
                        0,
                        j as int,
                    )).push(items@[j as int]));
                }
                data.push(items[j]);
                j = j + 1;
            }
            proof {
                assert(items@.subrange(0, items.len() as int) =~= items@);
                assert(layout(m, next + 1) =~= layout(m, next as int) + seq![
                    list_or_empty(m, term_id).len() as u32,
                ] + list_or_empty(m, term_id));
                assert(forall|k: u32| #[trigger] m.contains_key(k) && k < next + 1 ==> exists|a: int|
                    0 <= a < i + 1 && entries[a].0 == k) by {
                    assert forall|k: u32| #[trigger] m.contains_key(k) && k < next + 1 implies exists|a: int|
                        0 <= a < i + 1 && entries[a].0 == k by {
                        if k == term_id {
                            assert(entries[i as int].0 == k);
                        }
                    }
                }
            }
            proof {
                assert forall|k: u32| m.contains_key(k) && k < term_id + 1 implies #[trigger] encoded_size(
                    m,
                    k + 1,
                ) <= u32::MAX by {
                    if k >= next {
                        if k < term_id {
                            assert(!m.contains_key(k));
                        }
                    }
                }
            }
            next = term_id as u64 + 1;
            i = i + 1;
        }
        let r = Postings { index, data };
        proof {
            assert forall|k: u32| #[trigger] r.posting(k as int) == list_or_empty(m, k) by {
                if (k as int) < next {
                    lemma_layout_record(m, next as int, k as int);
                } else if m.contains_key(k) {
                    let a = choose|a: int| 0 <= a < entries.len() && entries[a].0 == k;
                    assert(entries[a].0 <= entries[entries.len() - 1].0);
                }
            }
            assert forall|k: u32| m.contains_key(k) implies k < r.spec_len() by {
                let a = choose|a: int| 0 <= a < entries.len() && entries[a].0 == k;
                assert(entries[a].0 <= entries[entries.len() - 1].0);
            }
            if next > 0 {
                assert(m.contains_key(entries[entries.len() - 1].0));
            }
            assert forall|k: u32| m.contains_key(k) implies #[trigger] encoded_size(m, k + 1)
                <= u32::MAX by {
                let a = choose|a: int| 0 <= a < entries.len() && entries[a].0 == k;
                assert(entries[a].0 <= entries[entries.len() - 1].0);
            }
        }
        Some(r)
    }

    /// Encodes `map` densely. Term ids are laid out in ascending order, and
    /// every id below the largest key that `map` leaves out gets an empty
    /// record, so that each id up to the largest key has an entry in `index`.
    pub fn from_map(map: HashMap<u32, Vec<u32>>) -> (r: Postings)
        requires
            fits_encoding(lists_of(map@)),
        ensures
            forall|k: u32| #[trigger] r.posting(k as int) == list_or_empty(lists_of(map@), k),
            forall|k: u32| lists_of(map@).contains_key(k) ==> k < r.spec_len(),
            r.spec_len() == 0 || lists_of(map@).contains_key((r.spec_len() - 1) as u32),
    {
        match Self::try_from_map(map) {
            Some(p) => p,
            None => Postings::new(),
        }
    }

    /// The item ids mapped to term `id`; empty where there are none, or where
    /// `id` is beyond the largest term id.
    pub fn get_posting(&self, id: u32) -> (r: Vec<u32>)
        ensures
            r@ == self.posting(id as int),
    {
        let i = id as usize;
        if i >= self.index.len() {
            return Vec::new();
        }
        let start = self.index[i] as usize;
        if start >= self.data.len() {
            return Vec::new();
        }
        let len = self.data[start] as usize;
        if len == 0 || len > self.data.len() - start - 1 {
            return Vec::new();
        }
        let mut out: Vec<u32> = Vec::new();
        let end = start + 1 + len;
        let mut p: usize = start + 1;
        while p < end
            invariant
                end == start + 1 + len,
                start + 1 <= p <= end <= self.data@.len(),
                out@ == self.data@.subrange(start + 1, p as int),
            decreases end - p,
        {
            proof {
                assert(self.data@.subrange(start + 1, p + 1) =~= self.data@.subrange(
                    start + 1,
                    p as int,
                ).push(self.data@[p as int]));
            }
            out.push(self.data[p]);
            p = p + 1;
        }
        out
    }

    /// `true` if term `id` has a non-empty list.
    pub fn has_id(&self, id: u32) -> (r: bool)
        ensures
            r == (self.posting(id as int).len() > 0),
    {
        let p = self.get_posting(id);
        p.len() > 0
    }

    /// Length of the list of term `id`.
    pub fn posting_size(&self, id: u32) -> (r: usize)
        ensures
            r == self.posting(id as int).len(),
    {
        let p = self.get_posting(id);
        p.len()
    }

    /// Number of term ids that the postings cover.
    pub fn len(&self) -> (r: usize)
        ensures
            r == self.spec_len(),
    {
        self.index.len()
    }

    /// An iterator over the lists by ascending term id.
    pub fn iter(&self) -> (r: PostingIter<'_>)
        ensures
            r.source() == *self,
            r.position() == 0,
    {
        PostingIter::new(self)
    }

    /// `true` if the postings cover no term id.
    pub fn is_empty(&self) -> (r: bool)
        ensures
            r == (self.spec_len() == 0),
    {
        self.index.len() == 0
    }

    /// Postings from their two arrays, as `index` and `data` return them.
    pub fn from_parts(index: Vec<u32>, data: Vec<u32>) -> (r: Postings)
        ensures
            r.index() == index@,
            r.data() == data@,
    {
        Postings { index, data }
    }

    pub closed spec fn index(&self) -> Seq<u32> {
        self.index@
    }

    pub closed spec fn data(&self) -> Seq<u32> {
        self.data@
    }

    /// The offsets array.
    pub fn index_cells(&self) -> (r: &Vec<u32>)
        ensures
            r@ == self.index(),
    {
        &self.index
    }

    /// The records array.
    pub fn data_cells(&self) -> (r: &Vec<u32>)
        ensures
            r@ == self.data(),
    {
        &self.data
    }
}

/// Reads the lists one by one, by ascending term id.
pub struct PostingIter<'a> {
    postings: &'a Postings,
    pos: usize,
}

impl<'a> PostingIter<'a> {
    pub closed spec fn source(&self) -> Postings {
        *self.postings
    }

    pub closed spec fn position(&self) -> usize {
        self.pos
    }

    /// An iterator that starts at term id 0.
    pub fn new(postings: &'a Postings) -> (r: PostingIter<'a>)
        ensures
            r.source() == *postings,
            r.position() == 0,
    {
        PostingIter { postings, pos: 0 }
    }

    /// The list of the current term id, then moves on; `None` past the last
    /// term id.
    pub fn next(&mut self) -> (r: Option<Vec<u32>>)
        ensures
            final(self).source() == old(self).source(),
            old(self).position() < old(self).source().spec_len() && old(self).position() <= u32::MAX
                ==> (r is Some && r->0@ == old(self).source().posting(old(self).position() as int)
                && final(self).position() == old(self).position() + 1),
            old(self).position() >= old(self).source().spec_len() ==> r is None,
    {
        if self.pos >= self.postings.len() || self.pos > u32::MAX as usize {
            return None;
        }
        let item = self.postings.get_posting(self.pos as u32);
        self.pos = self.pos + 1;
        Some(item)
    }
}

} // verus!
