//! The term dictionary: terms are stored encoded, by id, and a sort index
//! lists the ids in ascending term order for binary search.

use std::cmp::Ordering;
use vstd::prelude::*;
use crate::codec::{decode_term, encode_term, lemma_string_code_injective, string_code, utf8_of};
use crate::order::{
    bytes_greater, bytes_lt, compare_bytes, lemma_bytes_le_lt, lemma_bytes_lt_transitive,
    lemma_bytes_trichotomy,
};

verus! {

/// `r` is the encoding of some string.
pub open spec fn is_code(r: Seq<u8>) -> bool {
    exists|s: Seq<char>| string_code(s) == r
}

/// The string that the record `r` encodes.
pub open spec fn decoded(r: Seq<u8>) -> Seq<char> {
    choose|s: Seq<char>| string_code(s) == r
}

/// Order of terms: by their UTF-8 bytes, which is how `String` compares.
pub open spec fn term_lt(a: Seq<char>, b: Seq<char>) -> bool {
    bytes_lt(utf8_of(a), utf8_of(b))
}

/// The positions `lo..hi` of `order` list terms of `terms` in ascending order.
pub open spec fn sorted_by(order: Seq<u32>, terms: Seq<Seq<char>>, lo: int, hi: int) -> bool {
    forall|a: int, b: int|
        lo <= a < b < hi ==> !term_lt(terms[order[b] as int], terms[order[a] as int])
}

/// `order` holds `id` at some position.
pub open spec fn holds_id(order: Seq<u32>, id: int) -> bool {
    exists|j: int| 0 <= j < order.len() && order[j] == id
}

/// `order` holds ids below `n` only, and each of them.
pub open spec fn is_permutation(order: Seq<u32>, n: int) -> bool {
    &&& order.len() == n
    &&& forall|j: int| 0 <= j < order.len() ==> order[j] < n
    &&& forall|id: int| 0 <= id < n ==> #[trigger] holds_id(order, id)
}

pub proof fn lemma_decoded_code(s: Seq<char>)
    ensures
        is_code(string_code(s)),
        decoded(string_code(s)) == s,
{
    assert(string_code(s) == string_code(s));
    let t = decoded(string_code(s));
    lemma_string_code_injective(t, s);
}

proof fn lemma_same_utf8(a: Seq<char>, b: Seq<char>)
    requires
        utf8_of(a) == utf8_of(b),
    ensures
        a == b,
{
    vstd::utf8::encode_utf8_decode_utf8(a);
    vstd::utf8::encode_utf8_decode_utf8(b);
}

/// `ids` lists ids below `keys.len()` in ascending order of their keys.
pub open spec fn sorted_by_keys(ids: Seq<u32>, keys: Seq<Seq<char>>) -> bool {
    &&& forall|i: int| 0 <= i < ids.len() ==> #[trigger] ids[i] < keys.len()
    &&& forall|a: int, b: int|
        0 <= a < b < ids.len() ==> !term_lt(keys[ids[b] as int], keys[ids[a] as int])
}

proof fn lemma_push_contains(s: Seq<u32>, x: u32)
    ensures
        forall|y: u32| #[trigger] s.push(x).contains(y) == (s.contains(y) || y == x),
{
    assert forall|y: u32| #[trigger] s.push(x).contains(y) == (s.contains(y) || y == x) by {
        if s.push(x).contains(y) {
            let q = choose|q: int| 0 <= q < s.len() + 1 && s.push(x)[q] == y;
            if q < s.len() {
                assert(s[q] == y);
            }
        }
        if s.contains(y) {
            let q = choose|q: int| 0 <= q < s.len() && s[q] == y;
            assert(s.push(x)[q] == y);
        }
        if y == x {
            assert(s.push(x)[s.len() as int] == x);
        }
    }
}

/// Merges two lists of ids that are each in key order into one.
fn merge_by_keys(a: Vec<u32>, b: Vec<u32>, keys: &Vec<String>) -> (r: Vec<u32>)
    requires
        sorted_by_keys(a@, keys@.map_values(|k: String| k@)),
        sorted_by_keys(b@, keys@.map_values(|k: String| k@)),
    ensures
        sorted_by_keys(r@, keys@.map_values(|k: String| k@)),
        r@.len() == a@.len() + b@.len(),
        forall|x: u32| #[trigger] r@.contains(x) == (a@.contains(x) || b@.contains(x)),
{
    let ghost ks = keys@.map_values(|k: String| k@);
    let mut out: Vec<u32> = Vec::new();
    let mut i: usize = 0;
    let mut j: usize = 0;
    while i < a.len() || j < b.len()
        invariant
            ks == keys@.map_values(|k: String| k@),
            sorted_by_keys(a@, ks),
            sorted_by_keys(b@, ks),
            sorted_by_keys(out@, ks),
            0 <= i <= a@.len(),
            0 <= j <= b@.len(),
            out@.len() == i + j,
            forall|x: u32| #[trigger] out@.contains(x) == (a@.subrange(0, i as int).contains(x)
                || b@.subrange(0, j as int).contains(x)),
            out@.len() > 0 && i < a@.len() ==> !term_lt(ks[a@[i as int] as int], ks[out@.last() as int]),
            out@.len() > 0 && j < b@.len() ==> !term_lt(ks[b@[j as int] as int], ks[out@.last() as int]),
        decreases a@.len() + b@.len() - i - j,
    {
        let take_a = if j >= b.len() {
            true
        } else if i >= a.len() {
            false
        } else {
            !bytes_greater(
                keys[a[i] as usize].as_str().as_bytes(),
                keys[b[j] as usize].as_str().as_bytes(),
            )
        };
        let ghost o = out@;
        if take_a {
            let x = a[i];
            out.push(x);
            proof {
                lemma_push_contains(o, x);
                lemma_push_contains(a@.subrange(0, i as int), x);
                assert(a@.subrange(0, i + 1) =~= a@.subrange(0, i as int).push(x));
                assert(keys@[x as int]@ == ks[x as int]);
                if j < b@.len() {
                    assert(keys@[b@[j as int] as int]@ == ks[b@[j as int] as int]);
                }
                assert forall|p: int, q: int| 0 <= p < q < out@.len() implies !term_lt(
                    ks[out@[q] as int],
                    ks[out@[p] as int],
                ) by {
                    if q == out@.len() - 1 {
                        assert(out@[p] == o[p]);
                        if p < o.len() - 1 {
                            assert(!term_lt(ks[o.last() as int], ks[o[p] as int]));
                        }
                        lemma_bytes_le_lt(
                            utf8_of(ks[o[p] as int]),
                            utf8_of(ks[o.last() as int]),
                            utf8_of(ks[x as int]),
                        );
                    } else {
                        assert(out@[p] == o[p] && out@[q] == o[q]);
                    }
                }
                if i + 1 < a@.len() {
                    assert(!term_lt(ks[a@[i + 1] as int], ks[a@[i as int] as int]));
                }
                if j < b@.len() {
                    lemma_bytes_trichotomy(utf8_of(ks[x as int]), utf8_of(ks[b@[j as int] as int]));
                }
            }
            i = i + 1;
        } else {
            let x = b[j];
            out.push(x);
            proof {
                lemma_push_contains(o, x);
                lemma_push_contains(b@.subrange(0, j as int), x);
                assert(b@.subrange(0, j + 1) =~= b@.subrange(0, j as int).push(x));
                assert(keys@[x as int]@ == ks[x as int]);
                if i < a@.len() {
                    assert(keys@[a@[i as int] as int]@ == ks[a@[i as int] as int]);
                }
                assert forall|p: int, q: int| 0 <= p < q < out@.len() implies !term_lt(
                    ks[out@[q] as int],
                    ks[out@[p] as int],
                ) by {
                    if q == out@.len() - 1 {
                        assert(out@[p] == o[p]);
                        if p < o.len() - 1 {
                            assert(!term_lt(ks[o.last() as int], ks[o[p] as int]));
                        }
                        lemma_bytes_le_lt(
                            utf8_of(ks[o[p] as int]),
                            utf8_of(ks[o.last() as int]),
                            utf8_of(ks[x as int]),
                        );
                    } else {
                        assert(out@[p] == o[p] && out@[q] == o[q]);
                    }
                }
                if j + 1 < b@.len() {
                    assert(!term_lt(ks[b@[j + 1] as int], ks[b@[j as int] as int]));
                }
                if i < a@.len() {
                    lemma_bytes_trichotomy(utf8_of(ks[x as int]), utf8_of(ks[a@[i as int] as int]));
                }
            }
            j = j + 1;
        }
    }
    proof {
        assert(a@.subrange(0, a@.len() as int) =~= a@);
        assert(b@.subrange(0, b@.len() as int) =~= b@);
    }
    out
}

/// Sorts `ids` by their keys: halves, sorts each, merges.
fn sort_by_keys(ids: Vec<u32>, keys: &Vec<String>) -> (r: Vec<u32>)
    requires
        forall|i: int| 0 <= i < ids@.len() ==> #[trigger] ids@[i] < keys@.len(),
    ensures
        sorted_by_keys(r@, keys@.map_values(|k: String| k@)),
        r@.len() == ids@.len(),
        forall|x: u32| #[trigger] r@.contains(x) == ids@.contains(x),
    decreases ids@.len(),
{
    let ghost ks = keys@.map_values(|k: String| k@);
    if ids.len() <= 1 {
        proof {
            assert(ks.len() == keys@.len());
        }
        return ids;
    }
    let mid = ids.len() / 2;
    let mut left = ids;
    let ghost whole = left@;
    let right = left.split_off(mid);
    proof {
        assert(whole =~= left@ + right@);
        assert forall|i: int| 0 <= i < right@.len() implies #[trigger] right@[i] < keys@.len() by {
            assert(right@[i] == whole[mid + i]);
        }
    }
    let l = sort_by_keys(left, keys);
    let r = sort_by_keys(right, keys);
    let m = merge_by_keys(l, r, keys);
    proof {
        assert forall|x: u32| #[trigger] m@.contains(x) == whole.contains(x) by {
            if whole.contains(x) {
                let q = choose|q: int| 0 <= q < whole.len() && whole[q] == x;
                if q < mid {
                    assert(left@[q] == x);
                } else {
                    assert(right@[q - mid] == x);
                }
            }
            if left@.contains(x) {
                let q = choose|q: int| 0 <= q < left@.len() && left@[q] == x;
                assert(whole[q] == x);
            }
            if right@.contains(x) {
                let q = choose|q: int| 0 <= q < right@.len() && right@[q] == x;
                assert(whole[mid + q] == x);
            }
        }
    }
    m
}

/// A sorted, binary-searchable mapping between terms and term ids.
///
/// A term's id is its position of insertion. The sort index reflects the
/// order of the terms only after `reorder` (or `finish`) has run.
pub struct Dictionary {
    data: Vec<Vec<u8>>,
    sort_index: Vec<u32>,
}

impl Dictionary {
    /// The encoded terms, by id.
    pub closed spec fn records(&self) -> Seq<Seq<u8>> {
        self.data@.map_values(|r: Vec<u8>| r@)
    }

    /// The sort index.
    pub closed spec fn order(&self) -> Seq<u32> {
        self.sort_index@
    }

    /// The terms, by id.
    pub open spec fn terms(&self) -> Seq<Seq<char>> {
        self.records().map_values(|r: Seq<u8>| decoded(r))
    }

    /// Every record encodes a term, ids fit in a `u32`, and the sort index
    /// lists every id once.
    pub open spec fn wf(&self) -> bool {
        &&& forall|i: int| 0 <= i < self.records().len() ==> is_code(#[trigger] self.records()[i])
        &&& self.records().len() <= u32::MAX + 1
        &&& is_permutation(self.order(), self.records().len() as int)
    }

    /// The sort index lists the ids in ascending order of their terms.
    pub open spec fn ordered(&self) -> bool {
        sorted_by(self.order(), self.terms(), 0, self.order().len() as int)
    }

    /// An empty dictionary.
    pub fn new() -> (r: Dictionary)
        ensures
            r.wf(),
            r.ordered(),
            r.terms() == Seq::<Seq<char>>::empty(),
    {
        let r = Dictionary { data: Vec::new(), sort_index: Vec::new() };
        assert(r.terms() =~= Seq::<Seq<char>>::empty());
        r
    }

    /// Appends `term` and returns its id, the number of terms before it. The
    /// sort index gets the id at its end: `reorder` has to run before lookups.
    pub fn insert(&mut self, term: String) -> (id: u32)
        requires
            old(self).wf(),
            old(self).terms().len() <= u32::MAX,
        ensures
            final(self).wf(),
            id == old(self).terms().len(),
            final(self).terms() == old(self).terms().push(term@),
    {
        let enc = encode_term(&term);
        let id = self.data.len() as u32;
        let ghost old_order = self.sort_index@;
        proof {
            lemma_decoded_code(term@);
        }
        self.data.push(enc);
        self.sort_index.push(id);
        proof {
            assert(self.records() =~= old(self).records().push(string_code(term@)));
            assert(self.terms() =~= old(self).terms().push(term@));
            assert forall|x: int| 0 <= x < self.records().len() implies holds_id(
                self.order(),
                x,
            ) by {
                if x == id {
                    assert(self.order()[id as int] == x);
                } else {
                    assert(holds_id(old_order, x));
                    let j = choose|j: int| 0 <= j < old_order.len() && old_order[j] == x;
                    assert(self.order()[j] == x);
                }
            }
        }
        id
    }

    /// Inserts every term of `terms`, then brings the sort index in order
    /// once. Returns the ids of the terms, in the order of `terms`.
    pub fn insert_batch(&mut self, terms: Vec<String>) -> (ids: Vec<u32>)
        requires
            old(self).wf(),
            old(self).terms().len() + terms.len() <= u32::MAX + 1,
        ensures
            final(self).wf(),
            final(self).ordered(),
            final(self).terms() == old(self).terms() + terms@.map_values(|t: String| t@),
            ids@.len() == terms.len(),
            forall|i: int| 0 <= i < terms.len() ==> ids@[i] == old(self).terms().len() + i,
    {
        let mut ids: Vec<u32> = Vec::new();
        let mut i: usize = 0;
        while i < terms.len()
            invariant
                0 <= i <= terms.len(),
                self.wf(),
                old(self).terms().len() + terms.len() <= u32::MAX + 1,
                self.terms() == old(self).terms() + terms@.subrange(0, i as int).map_values(
                    |t: String| t@,
                ),
                ids@.len() == i,
                forall|k: int| 0 <= k < i ==> ids@[k] == old(self).terms().len() + k,
            decreases terms.len() - i,
        {
            let id = self.insert(terms[i].clone());
            ids.push(id);
            proof {
                assert(terms@.subrange(0, i + 1).map_values(|t: String| t@) =~= terms@.subrange(
                    0,
                    i as int,
                ).map_values(|t: String| t@).push(terms@[i as int]@));
            }
            i = i + 1;
        }
        self.reorder();
        proof {
            assert(terms@.subrange(0, terms.len() as int) =~= terms@);
        }
        ids
    }

    /// Sorts the sort index by the decoded terms.
    pub fn reorder(&mut self)
        requires
            old(self).wf(),
        ensures
            final(self).wf(),
            final(self).ordered(),
            final(self).terms() == old(self).terms(),
    {
        let n = self.data.len();
        let ghost terms = self.terms();
        let mut keys: Vec<String> = Vec::new();
        let mut i: usize = 0;
        while i < n
            invariant
                n == self.data@.len(),
                self.wf(),
                terms == self.terms(),
                0 <= i <= n,
                keys@.len() == i,
                forall|k: int| 0 <= k < i ==> #[trigger] keys@[k]@ == terms[k],
            decreases n - i,
        {
            proof {
                assert(is_code(self.records()[i as int]));
                assert(self.records()[i as int] == self.data@[i as int]@);
                let s = decoded(self.records()[i as int]);
                assert(string_code(s) == self.data@[i as int]@);
            }
            match decode_term(self.data[i].as_slice()) {
                Some(s) => keys.push(s),
                None => keys.push(String::new()),
            }
            i = i + 1;
        }
        let mut idx: Vec<u32> = Vec::new();
        let mut i: usize = 0;
        while i < n
            invariant
                n == self.data@.len(),
                n <= u32::MAX + 1,
                0 <= i <= n,
                idx@.len() == i,
                forall|k: int| 0 <= k < i ==> idx@[k] == k,
            decreases n - i,
        {
            idx.push(i as u32);
            i = i + 1;
        }
        proof {
            assert forall|id: int| 0 <= id < n implies holds_id(idx@, id) by {
                assert(idx@[id] == id);
            }
            assert forall|k: int| 0 <= k < idx@.len() implies #[trigger] idx@[k] < keys@.len() by {
                assert(idx@[k] == k);
            }
        }
        let sorted = sort_by_keys(idx, &keys);
        proof {
            let ks = keys@.map_values(|k: String| k@);
            assert(ks =~= terms);
            assert forall|id: int| 0 <= id < n implies #[trigger] holds_id(sorted@, id) by {
                assert(holds_id(idx@, id));
                let j = choose|j: int| 0 <= j < idx@.len() && idx@[j] == id;
                assert(idx@.contains(id as u32));
                assert(sorted@.contains(id as u32));
            }
        }
        self.sort_index = sorted;
    }

    /// Called once all terms are in: brings the sort index in order.
    pub fn finish(&mut self)
        requires
            old(self).wf(),
        ensures
            final(self).wf(),
            final(self).ordered(),
            final(self).terms() == old(self).terms(),
    {
        self.reorder();
    }

    /// The term with id `id`; `None` beyond the last id or where its record
    /// does not decode.
    pub fn get_term(&self, id: u32) -> (r: Option<String>)
        ensures
            r is Some ==> id < self.terms().len(),
            self.wf() ==> match r {
                Some(t) => t@ == self.terms()[id as int],
                None => id >= self.terms().len(),
            },
    {
        if id as usize >= self.data.len() {
            return None;
        }
        proof {
            if self.wf() {
                assert(is_code(self.records()[id as int]));
                let s = decoded(self.records()[id as int]);
                assert(string_code(s) == self.data@[id as int]@);
            }
        }
        decode_term(self.data[id as usize].as_slice())
    }

    /// The id of `term`, found by binary search over the sort index.
    pub fn get_id(&self, term: &String) -> (r: Option<u32>)
        ensures
            self.wf() ==> (r is Some ==> r->0 < self.terms().len() && self.terms()[r->0 as int]
                == term@),
            self.wf() && self.ordered() ==> (r is None <==> !self.terms().contains(term@)),
    {
        let n = self.sort_index.len();
        let mut left: usize = 0;
        let mut right: usize = n;
        let mut size: usize = n;
        while left < right
            invariant
                left <= right <= n == self.order().len(),
                size == right - left,
                self.wf() && self.ordered() ==> forall|j: int|
                    0 <= j < left ==> term_lt(self.terms()[self.order()[j] as int], term@),
                self.wf() && self.ordered() ==> forall|j: int|
                    right <= j < n ==> term_lt(term@, self.terms()[self.order()[j] as int]),
            decreases size,
        {
            let mid = left + size / 2;
            let id = self.sort_index[mid];
            if id as usize >= self.data.len() {
                return None;
            }
            proof {
                if self.wf() {
                    assert(is_code(self.records()[id as int]));
                    let s = decoded(self.records()[id as int]);
                    assert(string_code(s) == self.data@[id as int]@);
                }
            }
            let here = match decode_term(self.data[id as usize].as_slice()) {
                Some(s) => s,
                None => {
                    return None;
                },
            };
            let ghost th = self.terms()[id as int];
            proof {
                if self.wf() {
                    assert(self.records()[id as int] == self.data@[id as int]@);
                    assert(here@ == th);
                }
            }
            match compare_bytes(here.as_str().as_bytes(), term.as_str().as_bytes()) {
                Ordering::Less => {
                    proof {
                        if self.wf() && self.ordered() {
                            assert forall|j: int| 0 <= j < mid + 1 implies term_lt(
                                self.terms()[self.order()[j] as int],
                                term@,
                            ) by {
                                if j < mid {
                                    assert(self.order()[j] < self.records().len());
                                    assert(!term_lt(th, self.terms()[self.order()[j] as int]));
                                    lemma_bytes_le_lt(
                                        utf8_of(self.terms()[self.order()[j] as int]),
                                        utf8_of(th),
                                        utf8_of(term@),
                                    );
                                }
                            }
                        }
                    }
                    left = mid + 1;
                },
                Ordering::Greater => {
                    proof {
                        if self.wf() && self.ordered() {
                            assert forall|j: int| mid <= j < n implies term_lt(
                                term@,
                                self.terms()[self.order()[j] as int],
                            ) by {
                                if j > mid {
                                    assert(!term_lt(self.terms()[self.order()[j] as int], th));
                                    lemma_bytes_le_lt(
                                        utf8_of(term@),
                                        utf8_of(th),
                                        utf8_of(self.terms()[self.order()[j] as int]),
                                    );
                                }
                            }
                        }
                    }
                    right = mid;
                },
                Ordering::Equal => {
                    proof {
                        lemma_same_utf8(here@, term@);
                    }
                    return Some(id);
                },
            }
            size = right - left;
        }
        proof {
            if self.wf() && self.ordered() && self.terms().contains(term@) {
                let id = choose|id: int| 0 <= id < self.terms().len() && self.terms()[id] == term@;
                assert(holds_id(self.order(), id));
                let j = choose|j: int| 0 <= j < self.order().len() && self.order()[j] == id;
                lemma_bytes_trichotomy(utf8_of(term@), utf8_of(term@));
                if j < left {
                    assert(term_lt(self.terms()[self.order()[j] as int], term@));
                } else {
                    assert(term_lt(term@, self.terms()[self.order()[j] as int]));
                }
            }
        }
        None
    }

    /// A dictionary from its stored records and sort index, as `data` and
    /// `sort_index` give them back; nothing is checked here.
    pub fn from_parts(data: Vec<Vec<u8>>, sort_index: Vec<u32>) -> (r: Dictionary)
        ensures
            r.records() == data@.map_values(|v: Vec<u8>| v@),
            r.order() == sort_index@,
    {
        Dictionary { data, sort_index }
    }

    /// The encoded terms, by id.
    pub fn data(&self) -> (r: &Vec<Vec<u8>>)
        ensures
            r@.map_values(|v: Vec<u8>| v@) == self.records(),
    {
        &self.data
    }

    /// The sort index.
    pub fn sort_index(&self) -> (r: &Vec<u32>)
        ensures
            r@ == self.order(),
    {
        &self.sort_index
    }

    /// Well formed, and the sort index lists the ids in strictly ascending
    /// order of their terms.
    pub open spec fn valid(&self) -> bool {
        &&& self.wf()
        &&& forall|a: int, b: int|
            0 <= a < b < self.order().len() ==> term_lt(
                self.terms()[self.order()[a] as int],
                self.terms()[self.order()[b] as int],
            )
    }

    /// A valid dictionary is in order and holds no term twice.
    pub proof fn lemma_valid(&self)
        requires
            self.valid(),
        ensures
            self.ordered(),
            self.terms().no_duplicates(),
    {
        let n = self.terms().len() as int;
        assert forall|a: int, b: int| 0 <= a < b < self.order().len() implies !term_lt(
            self.terms()[self.order()[b] as int],
            self.terms()[self.order()[a] as int],
        ) by {
            assert(term_lt(
                self.terms()[self.order()[a] as int],
                self.terms()[self.order()[b] as int],
            ));
            lemma_bytes_trichotomy(
                utf8_of(self.terms()[self.order()[a] as int]),
                utf8_of(self.terms()[self.order()[b] as int]),
            );
        }
        assert forall|x: int, y: int| 0 <= x < y < n implies self.terms()[x] != self.terms()[y] by {
            assert(holds_id(self.order(), x));
            assert(holds_id(self.order(), y));
            let px = choose|j: int| 0 <= j < self.order().len() && self.order()[j] == x;
            let py = choose|j: int| 0 <= j < self.order().len() && self.order()[j] == y;
            lemma_bytes_trichotomy(utf8_of(self.terms()[x]), utf8_of(self.terms()[y]));
            if px < py {
                assert(term_lt(self.terms()[x], self.terms()[y]));
            } else {
                assert(term_lt(self.terms()[y], self.terms()[x]));
            }
        }
    }

    /// `true` if the dictionary is valid: every record decodes, the sort
    /// index lists every id once, and strictly in order of the terms.
    pub fn is_valid(&self) -> (r: bool)
        ensures
            r == self.valid(),
    {
        let n = self.data.len();
        if n as u64 > u32::MAX as u64 + 1 || self.sort_index.len() != n {
            return false;
        }
        let mut keys: Vec<String> = Vec::new();
        let mut i: usize = 0;
        while i < n
            invariant
                n == self.data@.len(),
                0 <= i <= n,
                keys@.len() == i,
                forall|k: int| 0 <= k < i ==> is_code(#[trigger] self.records()[k]),
                forall|k: int| 0 <= k < i ==> #[trigger] keys@[k]@ == self.terms()[k],
            decreases n - i,
        {
            proof {
                assert(self.records()[i as int] == self.data@[i as int]@);
                if is_code(self.records()[i as int]) {
                    let t = decoded(self.records()[i as int]);
                    assert(string_code(t) == self.data@[i as int]@);
                }
            }
            let s = match decode_term(self.data[i].as_slice()) {
                Some(s) => s,
                None => {
                    return false;
                },
            };
            let enc = encode_term(&s);
            match compare_bytes(enc.as_slice(), self.data[i].as_slice()) {
                Ordering::Equal => {},
                _ => {
                    return false;
                },
            }
            proof {
                assert(string_code(s@) == self.records()[i as int]);
                lemma_decoded_code(s@);
            }
            keys.push(s);
            i = i + 1;
        }
        let mut seen: Vec<bool> = Vec::new();
        let mut i: usize = 0;
        while i < n
            invariant
                0 <= i <= n,
                seen@.len() == i,
                forall|k: int| 0 <= k < i ==> !seen@[k],
            decreases n - i,
        {
            seen.push(false);
            i = i + 1;
        }
        let mut j: usize = 0;
        while j < n
            invariant
                n == self.data@.len() == self.sort_index@.len(),
                0 <= j <= n,
                seen@.len() == n,
                forall|k: int| 0 <= k < j ==> self.sort_index@[k] < n,
                forall|id: int|
                    0 <= id < n ==> (#[trigger] seen@[id] <==> holds_id(
                        self.order().subrange(0, j as int),
                        id,
                    )),
            decreases n - j,
        {
            let id = self.sort_index[j];
            if id as usize >= n {
                proof {
                    assert(self.order()[j as int] == id);
                }
                return false;
            }
            seen.set(id as usize, true);
            proof {
                let pre = self.order().subrange(0, j as int);
                let post = self.order().subrange(0, j + 1);
                assert(post =~= pre.push(id));
                assert forall|x: int| 0 <= x < n implies (#[trigger] seen@[x] <==> holds_id(post, x)) by {
                    if holds_id(post, x) {
                        let q = choose|q: int| 0 <= q < post.len() && post[q] == x;
                        if q < j {
                            assert(pre[q] == x);
                        }
                    }
                    if holds_id(pre, x) {
                        let q = choose|q: int| 0 <= q < pre.len() && pre[q] == x;
                        assert(post[q] == x);
                    }
                    if x == id {
                        assert(post[j as int] == id);
                    }
                }
            }
            j = j + 1;
        }
        proof {
            assert(self.order().subrange(0, n as int) =~= self.order());
        }
        let mut i: usize = 0;
        while i < n
            invariant
                0 <= i <= n == self.sort_index@.len(),
                seen@.len() == n,
                forall|k: int| 0 <= k < i ==> #[trigger] seen@[k],
                forall|id: int| 0 <= id < n ==> (#[trigger] seen@[id] <==> holds_id(self.order(), id)),
            decreases n - i,
        {
            if !seen[i] {
                proof {
                    assert(!holds_id(self.order(), i as int));
                }
                return false;
            }
            i = i + 1;
        }
        proof {
            assert forall|k: int| 0 <= k < n implies #[trigger] holds_id(self.order(), k) by {
                assert(seen@[k]);
            }
        }
        let mut p: usize = 1;
        while p < n
            invariant
                n == self.data@.len() == self.sort_index@.len() == keys@.len(),
                self.terms().len() == n,
                self.wf(),
                forall|k: int| 0 <= k < n ==> #[trigger] keys@[k]@ == self.terms()[k],
                forall|k: int| 0 <= k < n ==> self.sort_index@[k] < n,
                1 <= p || n == 0,
                forall|a: int, b: int|
                    0 <= a < b < p && b < n ==> term_lt(
                        self.terms()[self.order()[a] as int],
                        self.terms()[self.order()[b] as int],
                    ),
            decreases n - p,
        {
            let a = self.sort_index[p - 1] as usize;
            let b = self.sort_index[p] as usize;
            proof {
                assert(self.order()[p - 1] == a as u32);
                assert(self.order()[p as int] == b as u32);
            }
            match compare_bytes(keys[a].as_str().as_bytes(), keys[b].as_str().as_bytes()) {
                Ordering::Less => {},
                _ => {
                    proof {
                        assert(!term_lt(self.terms()[a as int], self.terms()[b as int]));
                    }
                    return false;
                },
            }
            proof {
                assert(term_lt(self.terms()[a as int], self.terms()[b as int]));
                let tb = self.terms()[b as int];
                assert forall|x: int, y: int| 0 <= x < y < p + 1 && y < n implies term_lt(
                    self.terms()[self.order()[x] as int],
                    self.terms()[self.order()[y] as int],
                ) by {
                    if y == p && x < p - 1 {
                        assert(term_lt(
                            self.terms()[self.order()[x] as int],
                            self.terms()[self.order()[p - 1] as int],
                        ));
                        lemma_bytes_lt_transitive(
                            utf8_of(self.terms()[self.order()[x] as int]),
                            utf8_of(self.terms()[a as int]),
                            utf8_of(tb),
                        );
                    }
                }
            }
            p = p + 1;
        }
        true
    }

    /// An iterator over the terms by ascending id.
    pub fn iter(&self) -> (r: DictIter<'_>)
        ensures
            r.dict() == *self,
            r.position() == 0,
    {
        DictIter::new(self)
    }

    /// `true` if `term` is in the dictionary.
    pub fn has_term(&self, term: &String) -> (r: bool)
        ensures
            self.wf() && self.ordered() ==> (r == self.terms().contains(term@)),
    {
        self.get_id(term).is_some()
    }

    /// `true` if a term with id `id` is in the dictionary.
    pub fn has_term_id(&self, id: u32) -> (r: bool)
        ensures
            r == (id < self.terms().len()),
    {
        (id as usize) < self.data.len()
    }

    /// Number of terms.
    pub fn len(&self) -> (r: usize)
        ensures
            r == self.terms().len(),
    {
        self.data.len()
    }

    /// `true` if the dictionary has no term.
    pub fn is_empty(&self) -> (r: bool)
        ensures
            r == (self.terms().len() == 0),
    {
        self.data.len() == 0
    }
}

/// Decodes the terms one by one, by ascending id.
pub struct DictIter<'a> {
    inner: &'a Dictionary,
    pos: u64,
}

impl<'a> DictIter<'a> {
    pub closed spec fn dict(&self) -> Dictionary {
        *self.inner
    }

    pub closed spec fn position(&self) -> u64 {
        self.pos
    }

    /// An iterator that starts at id 0.
    pub fn new(inner: &'a Dictionary) -> (r: DictIter<'a>)
        ensures
            r.dict() == *inner,
            r.position() == 0,
    {
        DictIter { inner, pos: 0 }
    }

    /// The term at the current id, then moves on; `None` past the last id or
    /// at a record that does not decode.
    pub fn next(&mut self) -> (r: Option<String>)
        ensures
            final(self).dict() == old(self).dict(),
            old(self).dict().wf() && old(self).position() < old(self).dict().terms().len() ==> (r is Some
                && r->0@ == old(self).dict().terms()[old(self).position() as int] && final(self).position() == old(self).position() + 1),
            old(self).dict().wf() && old(self).position() >= old(self).dict().terms().len() ==> r is None,
    {
        if self.pos > u32::MAX as u64 {
            return None;
        }
        let item = self.inner.get_term(self.pos as u32);
        if item.is_some() {
            self.pos = self.pos + 1;
        }
        item
    }
}

/// Round trip of a finished dictionary of distinct terms: the term that
/// `get_term` gives for `id` is in the dictionary, so `get_id` finds it, and
/// `id` is the only id that holds it, so `get_id` returns `id`.
pub proof fn lemma_dictionary_round_trip(d: Dictionary, id: int)
    requires
        d.wf(),
        d.ordered(),
        d.terms().no_duplicates(),
        0 <= id < d.terms().len(),
    ensures
        d.terms().contains(d.terms()[id]),
        forall|j: int| 0 <= j < d.terms().len() && d.terms()[j] == d.terms()[id] ==> j == id,
{
    assert(d.terms()[id] == d.terms()[id]);
}

} // verus!
