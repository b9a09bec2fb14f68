//! The index builder: stages terms, items and term-item associations, then
//! produces an immutable index.

use std::collections::HashMap;
use vstd::prelude::*;
use crate::backend::{Index, MemBackend};
use crate::dict::{holds_id, is_permutation, term_lt, Dictionary};
use crate::codec::utf8_of;
use crate::order::{compare_bytes, lemma_bytes_lt_transitive, lemma_bytes_trichotomy};
use std::cmp::Ordering;
use crate::postings::{
    encoded_size, entries_by_key, fits_encoding, list_or_empty, lists_of, Postings,
};
use crate::storage::Storage;

verus! {

broadcast use vstd::std_specs::hash::group_hash_axioms;

/// Options that shape the built postings lists.
#[derive(Clone, Copy, Debug, PartialEq, Eq, Structural)]
pub enum BuildOption {
    /// Every list is sorted ascending before it is encoded.
    SortedPostings,
    /// An item is added to a term's list only if it is not in it yet.
    UniquePostings,
}

/// `s` is in ascending order.
pub open spec fn is_sorted(s: Seq<u32>) -> bool {
    forall|i: int, j: int| 0 <= i < j < s.len() ==> s[i] <= s[j]
}

/// The staging map after `item` was mapped to term `t`.
pub open spec fn add_posting(m: Map<u32, Seq<u32>>, t: u32, item: u32, unique: bool) -> Map<
    u32,
    Seq<u32>,
> {
    if unique && list_or_empty(m, t).contains(item) {
        m
    } else {
        m.insert(t, list_or_empty(m, t).push(item))
    }
}

/// The staging map after `item` was mapped to each term of `ts`, in order.
pub open spec fn add_postings(m: Map<u32, Seq<u32>>, item: u32, ts: Seq<u32>, unique: bool) -> Map<
    u32,
    Seq<u32>,
>
    decreases ts.len(),
{
    if ts.len() == 0 {
        m
    } else {
        add_posting(add_postings(m, item, ts.drop_last(), unique), ts.last(), item, unique)
    }
}

/// The list that the built index holds for a staged list `l`.
pub open spec fn built_list(staged: Seq<u32>, built: Seq<u32>, sorted: bool) -> bool {
    if sorted {
        is_sorted(built) && built.to_multiset() == staged.to_multiset()
    } else {
        built == staged
    }
}

/// Every item id staged in `staged` is below `n`.
pub open spec fn staged_resolve(staged: Seq<Map<u32, Seq<u32>>>, n: int) -> bool {
    forall|b: int, t: u32, k: int|
        0 <= b < staged.len() && staged[b].contains_key(t) && 0 <= k < staged[b][t].len()
            ==> #[trigger] staged[b][t][k] < n
}

/// The lists after mapping `item` hold only `item` and ids they held before.
proof fn lemma_add_postings_members(
    m: Map<u32, Seq<u32>>,
    item: u32,
    ts: Seq<u32>,
    unique: bool,
    t: u32,
    k: int,
)
    requires
        0 <= k < list_or_empty(add_postings(m, item, ts, unique), t).len(),
    ensures
        list_or_empty(add_postings(m, item, ts, unique), t)[k] == item || list_or_empty(m, t).contains(
            list_or_empty(add_postings(m, item, ts, unique), t)[k],
        ),
    decreases ts.len(),
{
    if ts.len() > 0 {
        let before = add_postings(m, item, ts.drop_last(), unique);
        let l = list_or_empty(before, t);
        let after = list_or_empty(add_postings(m, item, ts, unique), t);
        if k < l.len() {
            if after[k] == l[k] {
                lemma_add_postings_members(m, item, ts.drop_last(), unique, t, k);
            }
        }
    }
}

/// Mapping an item id below `n` keeps every staged id below `n`.
proof fn lemma_add_postings_resolve(
    staged: Seq<Map<u32, Seq<u32>>>,
    pid: int,
    item: u32,
    ts: Seq<u32>,
    unique: bool,
    n: int,
)
    requires
        staged_resolve(staged, n),
        0 <= pid < staged.len(),
        item < n,
    ensures
        staged_resolve(staged.update(pid, add_postings(staged[pid], item, ts, unique)), n),
{
    let s2 = staged.update(pid, add_postings(staged[pid], item, ts, unique));
    assert forall|b: int, t: u32, k: int|
        0 <= b < s2.len() && s2[b].contains_key(t) && 0 <= k < s2[b][t].len() implies #[trigger] s2[b][t][k]
        < n by {
        if b == pid {
            let a = add_postings(staged[pid], item, ts, unique);
            assert(list_or_empty(a, t) == a[t]);
            lemma_add_postings_members(staged[pid], item, ts, unique, t, k);
            let x = a[t][k];
            if x != item {
                let l = list_or_empty(staged[pid], t);
                let q = choose|q: int| 0 <= q < l.len() && l[q] == x;
                assert(staged[pid].contains_key(t));
                assert(staged[pid][t][q] == x);
            }
        }
    }
}

/// A built list holds only ids of its staged list.
proof fn lemma_built_list_members(staged: Seq<u32>, built: Seq<u32>, sorted: bool, k: int)
    requires
        built_list(staged, built, sorted),
        0 <= k < built.len(),
    ensures
        staged.contains(built[k]),
{
    if sorted {
        vstd::seq_lib::to_multiset_contains(built, built[k]);
        vstd::seq_lib::to_multiset_contains(staged, built[k]);
        assert(built.contains(built[k]));
    } else {
        assert(staged[k] == built[k]);
    }
}

/// `true` if `list` holds `x`.
fn contains_id(list: &Vec<u32>, x: u32) -> (r: bool)
    ensures
        r == list@.contains(x),
{
    let mut i: usize = 0;
    while i < list.len()
        invariant
            0 <= i <= list.len(),
            forall|k: int| 0 <= k < i ==> list@[k] != x,
        decreases list.len() - i,
    {
        if list[i] == x {
            return true;
        }
        i = i + 1;
    }
    false
}

/// Merges two ascending lists into one.
fn merge_ids(a: Vec<u32>, b: Vec<u32>) -> (r: Vec<u32>)
    requires
        is_sorted(a@),
        is_sorted(b@),
    ensures
        is_sorted(r@),
        r@.to_multiset() == a@.to_multiset().add(b@.to_multiset()),
{
    broadcast use vstd::seq_lib::group_to_multiset_ensures;
    broadcast use vstd::multiset::group_multiset_axioms;

    let mut out: Vec<u32> = Vec::new();
    let mut i: usize = 0;
    let mut j: usize = 0;
    while i < a.len() || j < b.len()
        invariant
            is_sorted(a@),
            is_sorted(b@),
            is_sorted(out@),
            0 <= i <= a@.len(),
            0 <= j <= b@.len(),
            out@.to_multiset() == a@.subrange(0, i as int).to_multiset().add(
                b@.subrange(0, j as int).to_multiset(),
            ),
            out@.len() > 0 && i < a@.len() ==> out@.last() <= a@[i as int],
            out@.len() > 0 && j < b@.len() ==> out@.last() <= b@[j as int],
        decreases a@.len() + b@.len() - i - j,
    {
        let ghost o = out@;
        if j >= b.len() || (i < a.len() && a[i] <= b[j]) {
            let x = a[i];
            out.push(x);
            proof {
                let sa = a@.subrange(0, i as int);
                assert(a@.subrange(0, i + 1) =~= sa.push(x));
                assert(out@ == o.push(x));
                o.to_multiset_ensures();
                sa.to_multiset_ensures();
                assert(out@.to_multiset() =~= a@.subrange(0, i + 1).to_multiset().add(
                    b@.subrange(0, j as int).to_multiset(),
                ));
                assert forall|p: int, q: int| 0 <= p < q < out@.len() implies out@[p] <= out@[q] by {
                    if q == out@.len() - 1 && p < o.len() {
                        assert(o[p] <= o.last());
                    }
                }
                if i + 1 < a@.len() {
                    assert(a@[i as int] <= a@[i + 1]);
                }
            }
            i = i + 1;
        } else {
            let x = b[j];
            out.push(x);
            proof {
                let sb = b@.subrange(0, j as int);
                assert(b@.subrange(0, j + 1) =~= sb.push(x));
                assert(out@ == o.push(x));
                o.to_multiset_ensures();
                sb.to_multiset_ensures();
                assert(out@.to_multiset() =~= a@.subrange(0, i as int).to_multiset().add(
                    b@.subrange(0, j + 1).to_multiset(),
                ));
                assert forall|p: int, q: int| 0 <= p < q < out@.len() implies out@[p] <= out@[q] by {
                    if q == out@.len() - 1 && p < o.len() {
                        assert(o[p] <= o.last());
                    }
                }
                if j + 1 < b@.len() {
                    assert(b@[j as int] <= b@[j + 1]);
                }
            }
            j = j + 1;
        }
    }
    proof {
        assert(a@.subrange(0, a@.len() as int) =~= a@);
        assert(b@.subrange(0, b@.len() as int) =~= b@);
    }
    out
}

/// Sorts a list ascending: halves, sorts each, merges.
fn merge_sort_ids(v: Vec<u32>) -> (r: Vec<u32>)
    ensures
        is_sorted(r@),
        r@.to_multiset() == v@.to_multiset(),
    decreases v@.len(),
{
    if v.len() <= 1 {
        return v;
    }
    let mid = v.len() / 2;
    let mut left = v;
    let ghost whole = left@;
    let right = left.split_off(mid);
    proof {
        assert(whole =~= left@ + right@);
        vstd::seq_lib::lemma_multiset_commutative(left@, right@);
    }
    let l = merge_sort_ids(left);
    let r = merge_sort_ids(right);
    merge_ids(l, r)
}

/// Sorts `v` ascending.
pub fn sort_ids(v: &mut Vec<u32>)
    ensures
        is_sorted(final(v)@),
        final(v)@.to_multiset() == old(v)@.to_multiset(),
{
    let mut taken: Vec<u32> = Vec::new();
    std::mem::swap(&mut taken, v);
    *v = merge_sort_ids(taken);
}

proof fn lemma_encoded_size_same_lengths(m1: Map<u32, Seq<u32>>, m2: Map<u32, Seq<u32>>, n: int)
    requires
        forall|k: u32| #[trigger] list_or_empty(m1, k).len() == list_or_empty(m2, k).len(),
    ensures
        encoded_size(m1, n) == encoded_size(m2, n),
    decreases n,
{
    if n > 0 {
        lemma_encoded_size_same_lengths(m1, m2, n - 1);
        assert(list_or_empty(m1, (n - 1) as u32).len() == list_or_empty(m2, (n - 1) as u32).len());
    }
}

/// Encodes one staging map, sorting each list first if `sort` is set.
fn build_bucket(m: HashMap<u32, Vec<u32>>, sort: bool) -> (r: Postings)
    requires
        fits_encoding(lists_of(m@)),
    ensures
        forall|t: u32| built_list(list_or_empty(lists_of(m@), t), #[trigger] r.posting(t as int), sort),
{
    if !sort {
        return Postings::from_map(m);
    }
    let ghost lm = lists_of(m@);
    let ghost mm = m@;
    let entries = entries_by_key(m);
    let mut sorted_map: HashMap<u32, Vec<u32>> = HashMap::new();
    let mut j: usize = 0;
    while j < entries.len()
        invariant
            0 <= j <= entries.len(),
            lm == lists_of(mm),
            forall|a: int, b: int| 0 <= a < b < entries.len() ==> entries[a].0 < entries[b].0,
            forall|a: int|
                0 <= a < entries.len() ==> mm.contains_key(#[trigger] entries[a].0) && mm[entries[a].0]
                    == entries[a].1,
            forall|k: u32|
                #[trigger] sorted_map@.contains_key(k) <==> exists|a: int|
                    0 <= a < j && entries[a].0 == k,
            forall|k: u32|
                #[trigger] sorted_map@.contains_key(k) ==> is_sorted(sorted_map@[k]@)
                    && sorted_map@[k]@.to_multiset() == lm[k].to_multiset(),
        decreases entries.len() - j,
    {
        let mut l = entries[j].1.clone();
        proof {
            assert(l@ =~= entries[j as int].1@);
        }
        sort_ids(&mut l);
        sorted_map.insert(entries[j].0, l);
        proof {
            assert forall|k: u32| #[trigger] sorted_map@.contains_key(k) <==> exists|a: int|
                0 <= a < j + 1 && entries[a].0 == k by {
                if k == entries[j as int].0 {
                    assert(entries[j as int].0 == k);
                }
            }
        }
        j = j + 1;
    }
    let ghost sm = lists_of(sorted_map@);
    proof {
        assert forall|k: u32| #[trigger] list_or_empty(sm, k).len() == list_or_empty(lm, k).len()
            && built_list(list_or_empty(lm, k), list_or_empty(sm, k), true) by {
            if mm.contains_key(k) {
                let a = choose|a: int| 0 <= a < entries.len() && #[trigger] entries[a].0 == k;
                assert(sorted_map@.contains_key(k));
                vstd::seq_lib::to_multiset_len(sm[k]);
                vstd::seq_lib::to_multiset_len(lm[k]);
            } else {
                if sorted_map@.contains_key(k) {
                    let a = choose|a: int| 0 <= a < j && entries[a].0 == k;
                    assert(mm.contains_key(entries[a].0));
                }
                assert(list_or_empty(sm, k) =~= Seq::<u32>::empty());
                assert(list_or_empty(sm, k).to_multiset() =~= list_or_empty(lm, k).to_multiset());
            }
        }
        assert forall|k: u32| sm.contains_key(k) implies #[trigger] encoded_size(sm, k + 1)
            <= u32::MAX by {
            let a = choose|a: int| 0 <= a < j && entries[a].0 == k;
            assert(lm.contains_key(entries[a].0));
            assert(encoded_size(lm, k + 1) <= u32::MAX);
            lemma_encoded_size_same_lengths(sm, lm, k + 1);
        }
    }
    let r = Postings::from_map(sorted_map);
    r
}


/// `order` lists ids of `tv` in strictly ascending order of their terms.
pub open spec fn strictly_ordered(order: Seq<u32>, tv: Seq<Seq<char>>) -> bool {
    forall|a: int, b: int|
        0 <= a < b < order.len() ==> term_lt(tv[order[a] as int], tv[order[b] as int])
}

/// `built` is what `modifier` returned for the list of term `t` in bucket
/// `b`, handed to it as the index builds the list `staged`.
pub open spec fn modified_from<F: Fn(u32, u32, Vec<u32>) -> Vec<u32>>(
    modifier: F,
    b: u32,
    t: u32,
    staged: Seq<u32>,
    sorted: bool,
    built: Seq<u32>,
) -> bool {
    exists|l: Vec<u32>, o: Vec<u32>|
        built_list(staged, l@, sorted) && #[trigger] modifier.ensures((b, t, l), o) && built == o@
}

/// `mm` holds, for each term of the staged bucket `staged`, what `modifier`
/// returned for it, and the result is too large to encode.
pub open spec fn overflows_with<F: Fn(u32, u32, Vec<u32>) -> Vec<u32>>(
    modifier: F,
    b: u32,
    staged: Map<u32, Seq<u32>>,
    sorted: bool,
    mm: Map<u32, Vec<u32>>,
) -> bool {
    &&& mm.dom() == staged.dom()
    &&& forall|t: u32|
        #[trigger] mm.contains_key(t) ==> modified_from(modifier, b, t, staged[t], sorted, mm[t]@)
    &&& !fits_encoding(lists_of(mm))
}

/// Encodes one staging map of bucket `b`: each list is sorted first if
/// `sort` is set, then handed to `modifier` with the bucket id and its term
/// id, and what `modifier` returns is encoded. `None` if the result is too
/// large to encode.
fn build_bucket_with<F: Fn(u32, u32, Vec<u32>) -> Vec<u32>>(
    m: HashMap<u32, Vec<u32>>,
    sort: bool,
    b: u32,
    modifier: &F,
) -> (r: Option<Postings>)
    requires
        forall|bb: u32, t: u32, l: Vec<u32>| modifier.requires((bb, t, l)),
    ensures
        exists|mm: Map<u32, Vec<u32>>|
            {
                &&& mm.dom() == m@.dom()
                &&& forall|t: u32|
                    #[trigger] mm.contains_key(t) ==> exists|l: Vec<u32>|
                        built_list(m@[t]@, l@, sort) && modifier.ensures((b, t, l), mm[t])
                &&& match r {
                    Some(p) => forall|t: u32|
                        #[trigger] p.posting(t as int) == list_or_empty(lists_of(mm), t),
                    None => !fits_encoding(lists_of(mm)),
                }
            },
{
    let ghost mv = m@;
    let entries = entries_by_key(m);
    let mut out_map: HashMap<u32, Vec<u32>> = HashMap::new();
    let mut j: usize = 0;
    while j < entries.len()
        invariant
            0 <= j <= entries.len(),
            forall|bb: u32, t: u32, l: Vec<u32>| modifier.requires((bb, t, l)),
            forall|x: int, y: int| 0 <= x < y < entries.len() ==> entries[x].0 < entries[y].0,
            forall|x: int|
                0 <= x < entries.len() ==> mv.contains_key(#[trigger] entries[x].0) && mv[entries[x].0]
                    == entries[x].1,
            forall|k: u32|
                mv.contains_key(k) ==> exists|x: int| 0 <= x < entries.len() && #[trigger] entries[x].0 == k,
            forall|k: u32|
                #[trigger] out_map@.contains_key(k) <==> exists|x: int| 0 <= x < j && entries[x].0 == k,
            forall|k: u32|
                #[trigger] out_map@.contains_key(k) ==> exists|l: Vec<u32>|
                    built_list(mv[k]@, l@, sort) && modifier.ensures((b, k, l), out_map@[k]),
        decreases entries.len() - j,
    {
        let k = entries[j].0;
        let mut l = entries[j].1.clone();
        proof {
            assert(l@ =~= entries[j as int].1@);
            assert(mv[k] == entries[j as int].1);
        }
        if sort {
            sort_ids(&mut l);
        }
        let ghost lg = l;
        proof {
            if !sort {
                assert(built_list(mv[k]@, lg@, sort));
            }
        }
        let out = modifier(b, k, l);
        out_map.insert(k, out);
        proof {
            assert forall|kk: u32| #[trigger] out_map@.contains_key(kk) <==> exists|x: int|
                0 <= x < j + 1 && entries[x].0 == kk by {
                if kk == k {
                    assert(entries[j as int].0 == kk);
                }
            }
            assert forall|kk: u32| #[trigger] out_map@.contains_key(kk) implies exists|l2: Vec<u32>|
                built_list(mv[kk]@, l2@, sort) && modifier.ensures((b, kk, l2), out_map@[kk]) by {
                if kk == k {
                    assert(built_list(mv[kk]@, lg@, sort) && modifier.ensures((b, kk, lg), out_map@[kk]));
                }
            }
        }
        j = j + 1;
    }
    let ghost mm = out_map@;
    proof {
        assert forall|k: u32| #[trigger] mm.contains_key(k) == mv.contains_key(k) by {
            if mv.contains_key(k) {
                let x = choose|x: int| 0 <= x < entries.len() && #[trigger] entries[x].0 == k;
                assert(entries[x].0 == k);
            }
            if mm.contains_key(k) {
                let x = choose|x: int| 0 <= x < j && entries[x].0 == k;
                assert(mv.contains_key(entries[x].0));
            }
        }
        assert(mm.dom() =~= mv.dom());
    }
    Postings::try_from_map(out_map)
}

/// Binary search for `term` among `terms`, through `order`, the ids in
/// ascending order of their terms: `Ok` with the position of its id, or
/// `Err` with the position where its id would go.
fn search_terms(terms: &Vec<String>, order: &Vec<u32>, term: &String) -> (r: Result<usize, usize>)
    requires
        is_permutation(order@, terms@.len() as int),
        strictly_ordered(order@, terms@.map_values(|t: String| t@)),
    ensures
        match r {
            Ok(p) => p < order@.len() && terms@[order@[p as int] as int]@ == term@,
            Err(p) => p <= order@.len() && !terms@.map_values(|t: String| t@).contains(term@)
                && (forall|q: int|
                0 <= q < p ==> term_lt(
                    terms@.map_values(|t: String| t@)[order@[q] as int],
                    term@,
                )) && (forall|q: int|
                p <= q < order@.len() ==> term_lt(
                    term@,
                    terms@.map_values(|t: String| t@)[order@[q] as int],
                )),
        },
{
    let ghost tv = terms@.map_values(|t: String| t@);
    let n = order.len();
    let mut left: usize = 0;
    let mut right: usize = n;
    while left < right
        invariant
            left <= right <= n == order@.len() == terms@.len(),
            tv == terms@.map_values(|t: String| t@),
            is_permutation(order@, terms@.len() as int),
            strictly_ordered(order@, tv),
            forall|q: int| 0 <= q < left ==> term_lt(tv[order@[q] as int], term@),
            forall|q: int| right <= q < n ==> term_lt(term@, tv[order@[q] as int]),
        decreases right - left,
    {
        let mid = left + (right - left) / 2;
        let id = order[mid];
        let ghost tm = tv[id as int];
        proof {
            assert(terms@[id as int]@ == tm);
        }
        match compare_bytes(terms[id as usize].as_str().as_bytes(), term.as_str().as_bytes()) {
            Ordering::Less => {
                proof {
                    assert forall|q: int| 0 <= q < mid + 1 implies term_lt(tv[order@[q] as int], term@) by {
                        if q < mid {
                            assert(term_lt(tv[order@[q] as int], tm));
                            lemma_bytes_lt_transitive(utf8_of(tv[order@[q] as int]), utf8_of(tm), utf8_of(term@));
                        }
                    }
                }
                left = mid + 1;
            },
            Ordering::Greater => {
                proof {
                    assert forall|q: int| mid <= q < n implies term_lt(term@, tv[order@[q] as int]) by {
                        if q > mid {
                            assert(term_lt(tm, tv[order@[q] as int]));
                            lemma_bytes_lt_transitive(utf8_of(term@), utf8_of(tm), utf8_of(tv[order@[q] as int]));
                        }
                    }
                }
                right = mid;
            },
            Ordering::Equal => {
                proof {
                    vstd::utf8::encode_utf8_decode_utf8(tm);
                    vstd::utf8::encode_utf8_decode_utf8(term@);
                }
                return Ok(mid);
            },
        }
    }
    proof {
        if tv.contains(term@) {
            let id = choose|id: int| 0 <= id < tv.len() && tv[id] == term@;
            assert(holds_id(order@, id));
            let j = choose|j: int| 0 <= j < order@.len() && order@[j] == id;
            lemma_bytes_trichotomy(utf8_of(term@), utf8_of(term@));
            if j < left {
                assert(term_lt(tv[order@[j] as int], term@));
            } else {
                assert(term_lt(term@, tv[order@[j] as int]));
            }
        }
    }
    Err(left)
}

/// Stages terms, items and their associations, and builds an index from
/// them. The builder is meant for one owner and is consumed by `build`.
pub struct MemIndexBuilder {
    dict: Dictionary,
    storage: Storage,
    postings_list: Vec<HashMap<u32, Vec<u32>>>,
    term_map: Vec<String>,
    term_order: Vec<u32>,
    options: Vec<BuildOption>,
}

impl MemIndexBuilder {
    pub closed spec fn dictionary(&self) -> Dictionary {
        self.dict
    }

    pub closed spec fn store(&self) -> Storage {
        self.storage
    }

    /// The staging map of each bucket.
    pub closed spec fn staged(&self) -> Seq<Map<u32, Seq<u32>>> {
        self.postings_list@.map_values(|m: HashMap<u32, Vec<u32>>| lists_of(m@))
    }

    pub closed spec fn opts(&self) -> Seq<BuildOption> {
        self.options@
    }

    /// The terms interned so far, by id.
    pub open spec fn terms(&self) -> Seq<Seq<char>> {
        self.dictionary().terms()
    }

    /// The items inserted so far, by id.
    pub open spec fn items(&self) -> Seq<u32> {
        self.store().items()
    }

    pub open spec fn unique(&self) -> bool {
        self.opts().contains(BuildOption::UniquePostings)
    }

    pub open spec fn sorted(&self) -> bool {
        self.opts().contains(BuildOption::SortedPostings)
    }

    /// The dictionary and the store are well formed, the intern table agrees
    /// with the dictionary, no term is in it twice, and there is a bucket.
    pub closed spec fn wf(&self) -> bool {
        &&& self.dict.wf()
        &&& self.storage.wf()
        &&& self.term_map@.map_values(|t: String| t@) == self.dict.terms()
        &&& is_permutation(self.term_order@, self.term_map@.len() as int)
        &&& strictly_ordered(self.term_order@, self.dict.terms())
        &&& self.dict.terms().no_duplicates()
        &&& self.postings_list@.len() >= 1
    }

    /// A builder with one postings bucket.
    pub fn new() -> (r: MemIndexBuilder)
        ensures
            r.wf(),
            r.terms() == Seq::<Seq<char>>::empty(),
            r.items() == Seq::<u32>::empty(),
            r.staged() == seq![Map::<u32, Seq<u32>>::empty()],
            r.opts() == Seq::<BuildOption>::empty(),
    {
        let r = Self::with_postings_len(1);
        assert(r.staged() =~= seq![Map::<u32, Seq<u32>>::empty()]);
        r
    }

    /// A builder with `postings_len` postings buckets.
    pub fn with_postings_len(postings_len: usize) -> (r: MemIndexBuilder)
        requires
            postings_len >= 1,
        ensures
            r.wf(),
            r.terms() == Seq::<Seq<char>>::empty(),
            r.items() == Seq::<u32>::empty(),
            r.staged() == Seq::new(postings_len as nat, |i: int| Map::<u32, Seq<u32>>::empty()),
            r.opts() == Seq::<BuildOption>::empty(),
    {
        let mut postings_list: Vec<HashMap<u32, Vec<u32>>> = Vec::new();
        let mut i: usize = 0;
        while i < postings_len
            invariant
                0 <= i <= postings_len,
                postings_list@.len() == i,
                forall|k: int| 0 <= k < i ==> #[trigger] postings_list@[k]@ == Map::<
                    u32,
                    Vec<u32>,
                >::empty(),
            decreases postings_len - i,
        {
            postings_list.push(HashMap::new());
            i = i + 1;
        }
        let r = MemIndexBuilder {
            dict: Dictionary::new(),
            storage: Storage::new(),
            postings_list,
            term_map: Vec::new(),
            term_order: Vec::new(),
            options: Vec::new(),
        };
        proof {
            assert(r.term_map@.map_values(|t: String| t@) =~= r.dict.terms());
            assert forall|k: int| 0 <= k < postings_len implies #[trigger] r.staged()[k]
                == Map::<u32, Seq<u32>>::empty() by {
                assert(lists_of(postings_list@[k]@) =~= Map::<u32, Seq<u32>>::empty());
            }
            assert(r.staged() =~= Seq::new(
                postings_len as nat,
                |i: int| Map::<u32, Seq<u32>>::empty(),
            ));
        }
        r
    }

    /// Adds a build option.
    pub fn add_option(&mut self, option: BuildOption)
        requires
            old(self).wf(),
        ensures
            final(self).wf(),
            final(self).opts() == old(self).opts().push(option),
            final(self).terms() == old(self).terms(),
            final(self).items() == old(self).items(),
            final(self).staged() == old(self).staged(),
    {
        self.options.push(option);
    }

    /// `true` if the builder has `option`.
    pub fn has_option(&self, option: &BuildOption) -> (r: bool)
        ensures
            r == self.opts().contains(*option),
    {
        let mut i: usize = 0;
        while i < self.options.len()
            invariant
                0 <= i <= self.options@.len(),
                forall|k: int| 0 <= k < i ==> self.options@[k] != *option,
            decreases self.options@.len() - i,
        {
            if self.options[i] == *option {
                assert(self.opts()[i as int] == *option);
                return true;
            }
            i = i + 1;
        }
        false
    }

    /// The dictionary being built.
    pub fn dict(&self) -> (r: &Dictionary)
        ensures
            *r == self.dictionary(),
    {
        &self.dict
    }

    /// The item store being built.
    pub fn storage(&self) -> (r: &Storage)
        ensures
            *r == self.store(),
    {
        &self.storage
    }

    /// The staging map of bucket `id`, if there is one.
    pub fn postings(&self, id: usize) -> (r: Option<&HashMap<u32, Vec<u32>>>)
        ensures
            match r {
                Some(m) => id < self.staged().len() && lists_of(m@) == self.staged()[id as int],
                None => id >= self.staged().len(),
            },
    {
        if id < self.postings_list.len() {
            Some(&self.postings_list[id])
        } else {
            None
        }
    }

    /// The interned terms, by id.
    pub fn term_map(&self) -> (r: &Vec<String>)
        requires
            self.wf(),
        ensures
            r@.map_values(|t: String| t@) == self.terms(),
    {
        &self.term_map
    }

    /// Interns `term`: `Err` with the id it already has, or `Ok` with the id
    /// it gets now as it enters the dictionary.
    pub fn insert_term(&mut self, term: String) -> (r: Result<u32, u32>)
        requires
            old(self).wf(),
            !old(self).terms().contains(term@) ==> old(self).terms().len() <= u32::MAX,
        ensures
            final(self).wf(),
            final(self).items() == old(self).items(),
            final(self).staged() == old(self).staged(),
            final(self).opts() == old(self).opts(),
            match r {
                Ok(id) => !old(self).terms().contains(term@) && id == old(self).terms().len()
                    && final(self).terms() == old(self).terms().push(term@),
                Err(id) => old(self).terms().contains(term@) && id < old(self).terms().len()
                    && old(self).terms()[id as int] == term@ && final(self).terms() == old(self).terms(),
            },
    {
        let p = match search_terms(&self.term_map, &self.term_order, &term) {
            Ok(p) => {
                let id = self.term_order[p];
                proof {
                    assert(self.terms()[id as int] == self.term_map@[id as int]@);
                    assert(self.terms().contains(term@));
                }
                return Err(id);
            },
            Err(p) => p,
        };
        let ghost tv = self.terms();
        let ghost o = self.term_order@;
        let id = self.dict.insert(term.clone());
        self.term_map.push(term);
        self.term_order.insert(p, id);
        proof {
            let tv2 = self.dict.terms();
            assert(tv2 == tv.push(term@));
            assert(self.term_map@.map_values(|t: String| t@) =~= tv2);
            assert(self.term_order@ == o.insert(p as int, id));
            assert forall|a: int, b: int| 0 <= a < b < self.term_order@.len() implies term_lt(
                tv2[self.term_order@[a] as int],
                tv2[self.term_order@[b] as int],
            ) by {
                let ord = self.term_order@;
                if b < p {
                    assert(ord[a] == o[a] && ord[b] == o[b]);
                } else if b == p {
                    assert(ord[a] == o[a]);
                } else if a < p {
                    assert(ord[a] == o[a] && ord[b] == o[b - 1]);
                    assert(term_lt(tv[o[a] as int], term@));
                    assert(term_lt(term@, tv[o[b - 1] as int]));
                    lemma_bytes_lt_transitive(utf8_of(tv[o[a] as int]), utf8_of(term@), utf8_of(tv[o[b - 1] as int]));
                } else if a == p {
                    assert(ord[b] == o[b - 1]);
                } else {
                    assert(ord[a] == o[a - 1] && ord[b] == o[b - 1]);
                }
            }
            assert forall|j: int| 0 <= j < self.term_order@.len() implies self.term_order@[j] < tv2.len() by {
                let ord = self.term_order@;
                if j < p {
                    assert(ord[j] == o[j]);
                } else if j > p {
                    assert(ord[j] == o[j - 1]);
                }
            }
            assert forall|x: int| 0 <= x < tv2.len() implies #[trigger] holds_id(self.term_order@, x) by {
                let ord = self.term_order@;
                if x == id {
                    assert(ord[p as int] == id);
                } else {
                    assert(holds_id(o, x));
                    let j = choose|j: int| 0 <= j < o.len() && o[j] == x;
                    if j < p {
                        assert(ord[j] == x);
                    } else {
                        assert(ord[j + 1] == x);
                    }
                }
            }
            assert(!tv.contains(term@));
            assert forall|a: int, b: int| 0 <= a < b < tv2.len() implies tv2[a] != tv2[b] by {
                if b == tv.len() {
                    assert(tv2[a] == tv[a]);
                    assert(tv2[b] == term@);
                } else {
                    assert(tv2[a] == tv[a] && tv2[b] == tv[b]);
                }
            }
        }
        Ok(id)
    }

    /// Stores `item` and returns its id.
    pub fn insert_item(&mut self, item: u32) -> (id: u32)
        requires
            old(self).wf(),
            old(self).items().len() <= u32::MAX,
        ensures
            final(self).wf(),
            id == old(self).items().len(),
            final(self).items() == old(self).items().push(item),
            final(self).terms() == old(self).terms(),
            final(self).staged() == old(self).staged(),
            final(self).opts() == old(self).opts(),
            staged_resolve(old(self).staged(), old(self).items().len() as int) ==> staged_resolve(
                final(self).staged(),
                final(self).items().len() as int,
            ),
    {
        self.storage.insert(item)
    }

    /// Appends `item` to the list of each term of `terms` in bucket
    /// `postings_id`. With `UniquePostings`, a list that already holds `item`
    /// is left as it is.
    pub fn map(&mut self, postings_id: u32, item: u32, terms: &[u32])
        requires
            old(self).wf(),
            postings_id < old(self).staged().len(),
        ensures
            final(self).wf(),
            final(self).staged() == old(self).staged().update(
                postings_id as int,
                add_postings(old(self).staged()[postings_id as int], item, terms@, old(self).unique()),
            ),
            final(self).terms() == old(self).terms(),
            final(self).items() == old(self).items(),
            final(self).opts() == old(self).opts(),
            staged_resolve(old(self).staged(), old(self).items().len() as int) && item < old(
                self,
            ).items().len() ==> staged_resolve(final(self).staged(), final(self).items().len() as int),
    {
        let unique = self.has_option(&BuildOption::UniquePostings);
        let pid = postings_id as usize;
        let ghost m0 = old(self).staged()[pid as int];
        let mut i: usize = 0;
        while i < terms.len()
            invariant
                0 <= i <= terms@.len(),
                pid < self.postings_list@.len(),
                unique == old(self).unique(),
                self.dict == old(self).dict,
                self.storage == old(self).storage,
                self.term_map == old(self).term_map,
                self.term_order == old(self).term_order,
                self.options == old(self).options,
                self.postings_list@.len() == old(self).postings_list@.len(),
                self.staged() == old(self).staged().update(
                    pid as int,
                    add_postings(m0, item, terms@.subrange(0, i as int), unique),
                ),
            decreases terms@.len() - i,
        {
            let t = terms[i];
            let ghost before = self.postings_list@[pid as int]@;
            let ghost pl0 = self.postings_list@;
            let ghost st0 = self.staged();
            proof {
                assert(self.staged()[pid as int] == lists_of(before));
            }
            let cur = self.postings_list[pid].remove(&t);
            let mut list = match cur {
                Some(l) => l,
                None => Vec::new(),
            };
            let ghost l0 = list@;
            if !(unique && contains_id(&list, item)) {
                list.push(item);
            }
            self.postings_list[pid].insert(t, list);
            proof {
                let ms = add_postings(m0, item, terms@.subrange(0, i as int), unique);
                assert(old(self).staged().update(pid as int, ms)[pid as int] == ms);
                assert(lists_of(before) == ms);
                assert(l0 == list_or_empty(ms, t));
                assert(terms@.subrange(0, i + 1).drop_last() =~= terms@.subrange(0, i as int));
                assert(lists_of(self.postings_list@[pid as int]@) =~= add_posting(ms, t, item, unique));
                let next = add_postings(m0, item, terms@.subrange(0, i + 1), unique);
                assert(next == add_posting(ms, t, item, unique));
                assert(self.postings_list@.len() == pl0.len());
                assert forall|j: int| 0 <= j < self.staged().len() implies #[trigger] self.staged()[j]
                    == old(self).staged().update(pid as int, next)[j] by {
                    if j != pid {
                        assert(self.postings_list@[j] == pl0[j]);
                        assert(st0[j] == lists_of(pl0[j]@));
                    }
                }
                assert(self.staged() =~= old(self).staged().update(pid as int, next));
            }
            i = i + 1;
        }
        proof {
            assert(terms@.subrange(0, terms@.len() as int) =~= terms@);
            if staged_resolve(old(self).staged(), old(self).items().len() as int) && item < old(
                self,
            ).items().len() {
                lemma_add_postings_resolve(
                    old(self).staged(),
                    pid as int,
                    item,
                    terms@,
                    unique,
                    old(self).items().len() as int,
                );
            }
        }
    }

    /// Stores `item` and maps it to `terms` in bucket `postings_id`; returns
    /// the item's id.
    pub fn index_new(&mut self, postings_id: u32, item: u32, terms: &[u32]) -> (id: u32)
        requires
            old(self).wf(),
            old(self).items().len() <= u32::MAX,
            postings_id < old(self).staged().len(),
        ensures
            final(self).wf(),
            id == old(self).items().len(),
            final(self).items() == old(self).items().push(item),
            final(self).staged() == old(self).staged().update(
                postings_id as int,
                add_postings(old(self).staged()[postings_id as int], id, terms@, old(self).unique()),
            ),
            final(self).terms() == old(self).terms(),
            final(self).opts() == old(self).opts(),
            staged_resolve(old(self).staged(), old(self).items().len() as int) ==> staged_resolve(
                final(self).staged(),
                final(self).items().len() as int,
            ),
    {
        let id = self.insert_item(item);
        self.map(postings_id, id, terms);
        id
    }

    /// The ids of `terms`, interning each one that is new.
    pub fn terms_to_ids(&mut self, terms: Vec<String>) -> (ids: Vec<u32>)
        requires
            old(self).wf(),
            old(self).terms().len() + terms.len() <= u32::MAX + 1,
        ensures
            final(self).wf(),
            ids@.len() == terms.len(),
            forall|i: int|
                #![trigger ids@[i]]
                0 <= i < terms.len() ==> ids@[i] < final(self).terms().len() && final(self).terms()[ids@[i] as int] == terms@[i]@,
            final(self).terms().len() <= old(self).terms().len() + terms.len(),
            final(self).terms().subrange(0, old(self).terms().len() as int) == old(self).terms(),
            forall|k: int|
                old(self).terms().len() <= k < final(self).terms().len() ==> terms@.map_values(
                    |t: String| t@,
                ).contains(#[trigger] final(self).terms()[k]),
            final(self).items() == old(self).items(),
            final(self).staged() == old(self).staged(),
            final(self).opts() == old(self).opts(),
    {
        let mut ids: Vec<u32> = Vec::new();
        let mut i: usize = 0;
        while i < terms.len()
            invariant
                0 <= i <= terms.len(),
                self.wf(),
                old(self).terms().len() + terms.len() <= u32::MAX + 1,
                ids@.len() == i,
                forall|k: int|
                    #![trigger ids@[k]]
                    0 <= k < i ==> ids@[k] < self.terms().len() && self.terms()[ids@[k] as int]
                        == terms@[k]@,
                self.terms().len() <= old(self).terms().len() + i,
                old(self).terms().len() <= self.terms().len(),
                self.terms().subrange(0, old(self).terms().len() as int) == old(self).terms(),
                forall|k: int|
                    old(self).terms().len() <= k < self.terms().len() ==> exists|a: int|
                        0 <= a < i && terms@[a]@ == #[trigger] self.terms()[k],
                self.items() == old(self).items(),
                self.staged() == old(self).staged(),
                self.opts() == old(self).opts(),
            decreases terms.len() - i,
        {
            let ghost before = self.terms();
            let ghost old_ids = ids@;
            let r = self.insert_term(terms[i].clone());
            let id = match r {
                Ok(id) => id,
                Err(id) => id,
            };
            ids.push(id);
            proof {
                match r {
                    Ok(v) => {
                        assert(v == id);
                        assert(self.terms() == before.push(terms@[i as int]@));
                        assert(id < self.terms().len());
                    },
                    Err(v) => {
                        assert(v == id);
                        assert(self.terms() == before);
                        assert(id < self.terms().len());
                    },
                }
                assert(ids@[i as int] == id);
                assert(self.terms().subrange(0, before.len() as int) =~= before);
                assert(self.terms()[id as int] == terms@[i as int]@);
                assert forall|k: int| 0 <= k < i + 1 implies #[trigger] ids@[k] < self.terms().len()
                    && self.terms()[ids@[k] as int] == terms@[k]@ by {
                    if k < i {
                        let w = terms@[k]@;
                        assert(old_ids[k] < before.len() && before[old_ids[k] as int] == w);
                        assert(ids@[k] == old_ids[k]);
                        assert(before[ids@[k] as int] == self.terms()[ids@[k] as int]);
                    }
                }
                assert(self.terms().subrange(0, old(self).terms().len() as int) =~= before.subrange(
                    0,
                    old(self).terms().len() as int,
                ));
                assert forall|k: int|
                    old(self).terms().len() <= k < self.terms().len() implies exists|a: int|
                    0 <= a < i + 1 && terms@[a]@ == #[trigger] self.terms()[k] by {
                    if k < before.len() {
                        assert(before[k] == self.terms()[k]);
                        let a = choose|a: int| 0 <= a < i && terms@[a]@ == #[trigger] before[k];
                        assert(terms@[a]@ == self.terms()[k]);
                    } else {
                        assert(terms@[i as int]@ == self.terms()[k]);
                    }
                }
            }
            i = i + 1;
        }
        proof {
            assert forall|k: int|
                old(self).terms().len() <= k < self.terms().len() implies terms@.map_values(
                |t: String| t@,
            ).contains(#[trigger] self.terms()[k]) by {
                let a = choose|a: int| 0 <= a < i && terms@[a]@ == #[trigger] self.terms()[k];
                assert(terms@.map_values(|t: String| t@)[a] == self.terms()[k]);
            }
        }
        ids
    }

    /// Stores `item`, interns each of `terms` and maps the item to them in
    /// bucket `postings_id`; returns the item's id.
    pub fn index_with_terms(&mut self, postings_id: u32, item: u32, terms: Vec<String>) -> (id: u32)
        requires
            old(self).wf(),
            old(self).items().len() <= u32::MAX,
            old(self).terms().len() + terms.len() <= u32::MAX + 1,
            postings_id < old(self).staged().len(),
        ensures
            final(self).wf(),
            id == old(self).items().len(),
            final(self).items() == old(self).items().push(item),
            exists|ids: Seq<u32>|
                {
                    &&& ids.len() == terms.len()
                    &&& forall|i: int|
                        #![trigger ids[i]]
                        0 <= i < terms.len() ==> ids[i] < final(self).terms().len() && final(self).terms()[ids[i] as int] == terms@[i]@
                    &&& final(self).staged() == old(self).staged().update(
                        postings_id as int,
                        add_postings(old(self).staged()[postings_id as int], id, ids, old(self).unique()),
                    )
                },
            final(self).terms().subrange(0, old(self).terms().len() as int) == old(self).terms(),
            final(self).opts() == old(self).opts(),
            staged_resolve(old(self).staged(), old(self).items().len() as int) ==> staged_resolve(
                final(self).staged(),
                final(self).items().len() as int,
            ),
    {
        let id = self.insert_item(item);
        let ids = self.terms_to_ids(terms);
        let ghost mid = self.staged();
        self.map(postings_id, id, ids.as_slice());
        proof {
            assert(mid[postings_id as int] == old(self).staged()[postings_id as int]);
            assert(self.staged() =~= old(self).staged().update(
                postings_id as int,
                add_postings(old(self).staged()[postings_id as int], id, ids@, old(self).unique()),
            ));
        }
        id
    }

    /// Builds the index: brings the dictionary in order and encodes each
    /// bucket, sorting its lists first with `SortedPostings`.
    pub fn build(self) -> (r: Index)
        requires
            self.wf(),
            forall|b: int| 0 <= b < self.staged().len() ==> fits_encoding(#[trigger] self.staged()[b]),
        ensures
            r.wf(),
            r.terms() == self.terms(),
            r.terms().no_duplicates(),
            r.items() == self.items(),
            r.bucket_count() == self.staged().len(),
            forall|b: int, t: u32|
                0 <= b < self.staged().len() ==> built_list(
                    list_or_empty(self.staged()[b], t),
                    #[trigger] r.posting(b, t as int),
                    self.sorted(),
                ),
            staged_resolve(self.staged(), self.items().len() as int) ==> r.postings_resolve(),
    {
        let sort = self.has_option(&BuildOption::SortedPostings);
        let ghost staged = self.staged();
        let MemIndexBuilder { mut dict, storage, postings_list, .. } = self;
        dict.finish();
        let mut lists = postings_list;
        let n = lists.len();
        let mut out: Vec<Postings> = Vec::new();
        let mut b: usize = 0;
        while b < n
            invariant
                0 <= b <= n == lists@.len() == staged.len(),
                forall|k: int| b <= k < n ==> lists_of(#[trigger] lists@[k]@) == staged[k],
                forall|k: int| 0 <= k < n ==> fits_encoding(#[trigger] staged[k]),
                out@.len() == b,
                forall|k: int, t: u32|
                    0 <= k < b ==> built_list(
                        list_or_empty(staged[k], t),
                        #[trigger] out@[k].posting(t as int),
                        sort,
                    ),
            decreases n - b,
        {
            let mut m: HashMap<u32, Vec<u32>> = HashMap::new();
            std::mem::swap(&mut m, &mut lists[b]);
            proof {
                assert(lists_of(m@) == staged[b as int]);
            }
            let p = build_bucket(m, sort);
            out.push(p);
            b = b + 1;
        }
        let r = Index::new(MemBackend::new(dict, out, storage));
        proof {
            if staged_resolve(staged, r.items().len() as int) {
                assert forall|bb: int, t: u32, k: int|
                    0 <= k < r.posting(bb, t as int).len() implies #[trigger] r.posting(bb, t as int)[k]
                    < r.items().len() by {
                    assert(0 <= bb < n);
                    let l = list_or_empty(staged[bb], t);
                    assert(built_list(l, out@[bb].posting(t as int), sort));
                    assert(r.posting(bb, t as int) == out@[bb].posting(t as int));
                    lemma_built_list_members(l, r.posting(bb, t as int), sort, k);
                    let x = r.posting(bb, t as int)[k];
                    if staged[bb].contains_key(t) {
                        let q = choose|q: int| 0 <= q < l.len() && l[q] == x;
                        assert(staged[bb][t][q] == x);
                    } else {
                        assert(l.len() == 0);
                    }
                }
            }
        }
        r
    }

    /// Builds the index as `build` does, but hands each staged list (sorted
    /// first with `SortedPostings`) to `modifier`, with its bucket id and term
    /// id, and encodes what `modifier` returns. `None` if a bucket, once
    /// modified, is too large to encode.
    pub fn build_with<F: Fn(u32, u32, Vec<u32>) -> Vec<u32>>(self, modifier: F) -> (r: Option<Index>)
        requires
            self.wf(),
            self.staged().len() <= u32::MAX + 1,
            forall|b: u32, t: u32, l: Vec<u32>| modifier.requires((b, t, l)),
        ensures
            match r {
                Some(ix) => {
                    &&& ix.wf()
                    &&& ix.terms() == self.terms()
                    &&& ix.items() == self.items()
                    &&& ix.bucket_count() == self.staged().len()
                    &&& forall|b: int, t: u32|
                        0 <= b < self.staged().len() ==> (#[trigger] ix.posting(b, t as int) == Seq::<
                            u32,
                        >::empty() || self.staged()[b].contains_key(t))
                    &&& forall|b: int, t: u32|
                        0 <= b < self.staged().len() && self.staged()[b].contains_key(t)
                            ==> #[trigger] modified_from(
                            modifier,
                            b as u32,
                            t,
                            self.staged()[b][t],
                            self.sorted(),
                            ix.posting(b, t as int),
                        )
                },
                None => exists|b: int, mm: Map<u32, Vec<u32>>|
                    0 <= b < self.staged().len() && #[trigger] overflows_with(
                        modifier,
                        b as u32,
                        self.staged()[b],
                        self.sorted(),
                        mm,
                    ),
            },
    {
        let sort = self.has_option(&BuildOption::SortedPostings);
        let ghost staged = self.staged();
        let ghost sorted0 = self.sorted();
        let MemIndexBuilder { mut dict, storage, postings_list, .. } = self;
        dict.finish();
        let mut lists = postings_list;
        let n = lists.len();
        let mut out: Vec<Postings> = Vec::new();
        let mut b: usize = 0;
        while b < n
            invariant
                0 <= b <= n == lists@.len() == staged.len(),
                n <= u32::MAX + 1,
                sort == sorted0,
                staged == self.staged(),
                sorted0 == self.sorted(),
                forall|bb: u32, t: u32, l: Vec<u32>| modifier.requires((bb, t, l)),
                forall|k: int| b <= k < n ==> lists_of(#[trigger] lists@[k]@) == staged[k],
                out@.len() == b,
                forall|k: int, t: u32|
                    0 <= k < b ==> (#[trigger] out@[k].posting(t as int) == Seq::<u32>::empty()
                        || staged[k].contains_key(t)),
                forall|k: int, t: u32|
                    0 <= k < b && staged[k].contains_key(t) ==> #[trigger] modified_from(
                        modifier,
                        k as u32,
                        t,
                        staged[k][t],
                        sort,
                        out@[k].posting(t as int),
                    ),
            decreases n - b,
        {
            let mut m: HashMap<u32, Vec<u32>> = HashMap::new();
            std::mem::swap(&mut m, &mut lists[b]);
            let ghost mv = m@;
            proof {
                assert(lists_of(mv) == staged[b as int]);
            }
            let p = match build_bucket_with(m, sort, b as u32, &modifier) {
                Some(p) => p,
                None => {
                    proof {
                        let mm = choose|mm: Map<u32, Vec<u32>>|
                            {
                                &&& mm.dom() == mv.dom()
                                &&& forall|t: u32|
                                    #[trigger] mm.contains_key(t) ==> exists|l: Vec<u32>|
                                        built_list(mv[t]@, l@, sort) && modifier.ensures(
                                            (b as u32, t, l),
                                            mm[t],
                                        )
                                &&& !fits_encoding(lists_of(mm))
                            };
                        assert(mv.dom() =~= staged[b as int].dom());
                        assert forall|t: u32| #[trigger] mm.contains_key(t) implies modified_from(
                            modifier,
                            b as u32,
                            t,
                            staged[b as int][t],
                            sort,
                            mm[t]@,
                        ) by {
                            let l = choose|l: Vec<u32>|
                                built_list(mv[t]@, l@, sort) && modifier.ensures((b as u32, t, l), mm[t]);
                            assert(staged[b as int][t] == mv[t]@);
                            assert(built_list(staged[b as int][t], l@, sort) && modifier.ensures(
                                (b as u32, t, l),
                                mm[t],
                            ) && mm[t]@ == mm[t]@);
                        }
                        let bi = b as int;
                        assert(overflows_with(modifier, bi as u32, staged[bi], sort, mm));
                    }
                    return None;
                },
            };
            proof {
                let mm = choose|mm: Map<u32, Vec<u32>>|
                    {
                        &&& mm.dom() == mv.dom()
                        &&& forall|t: u32|
                            #[trigger] mm.contains_key(t) ==> exists|l: Vec<u32>|
                                built_list(mv[t]@, l@, sort) && modifier.ensures((b as u32, t, l), mm[t])
                        &&& forall|t: u32|
                            #[trigger] p.posting(t as int) == list_or_empty(lists_of(mm), t)
                    };
                assert forall|t: u32| #[trigger] p.posting(t as int) == Seq::<u32>::empty()
                    || staged[b as int].contains_key(t) by {
                    assert(p.posting(t as int) == list_or_empty(lists_of(mm), t));
                    if !staged[b as int].contains_key(t) {
                        assert(!mv.dom().contains(t));
                        assert(!mm.contains_key(t));
                    }
                }
                assert forall|t: u32| staged[b as int].contains_key(t) implies #[trigger] modified_from(
                    modifier,
                    b as u32,
                    t,
                    staged[b as int][t],
                    sort,
                    p.posting(t as int),
                ) by {
                    assert(mv.dom().contains(t));
                    assert(mm.contains_key(t));
                    let l = choose|l: Vec<u32>| built_list(mv[t]@, l@, sort) && modifier.ensures((b as u32, t, l), mm[t]);
                    assert(p.posting(t as int) == list_or_empty(lists_of(mm), t));
                    assert(staged[b as int][t] == mv[t]@);
                    assert(built_list(staged[b as int][t], l@, sort) && modifier.ensures((b as u32, t, l), mm[t])
                        && p.posting(t as int) == mm[t]@);
                }
            }
            out.push(p);
            proof {
                assert forall|k: int, t: u32| 0 <= k < b + 1 implies (#[trigger] out@[k].posting(t as int)
                    == Seq::<u32>::empty() || staged[k].contains_key(t)) by {
                    if k == b {
                        assert(out@[k] == p);
                    }
                }
                assert forall|k: int, t: u32|
                    0 <= k < b + 1 && staged[k].contains_key(t) implies #[trigger] modified_from(
                    modifier,
                    k as u32,
                    t,
                    staged[k][t],
                    sort,
                    out@[k].posting(t as int),
                ) by {
                    if k == b {
                        assert(out@[k] == p);
                    }
                }
            }
            b = b + 1;
        }
        Some(Index::new(MemBackend::new(dict, out, storage)))
    }

    /// Number of postings buckets.
    pub fn postings_count(&self) -> (r: usize)
        ensures
            r == self.staged().len(),
    {
        self.postings_list.len()
    }
}

/// With unique postings, mapping never repeats an item in a list: a list
/// that held `item` at most once still does afterwards, and each term of
/// `ts` ends up holding it exactly once.
pub proof fn lemma_unique_postings(m: Map<u32, Seq<u32>>, item: u32, ts: Seq<u32>, t: u32)
    requires
        list_or_empty(m, t).to_multiset().count(item) <= 1,
    ensures
        list_or_empty(add_postings(m, item, ts, true), t).to_multiset().count(item) <= 1,
        ts.contains(t) ==> list_or_empty(add_postings(m, item, ts, true), t).to_multiset().count(
            item,
        ) == 1,
    decreases ts.len(),
{
    broadcast use vstd::seq_lib::group_to_multiset_ensures;
    broadcast use vstd::multiset::group_multiset_axioms;

    if ts.len() > 0 {
        lemma_unique_postings(m, item, ts.drop_last(), t);
        let before = add_postings(m, item, ts.drop_last(), true);
        let l = list_or_empty(before, t);
        if ts.last() == t {
            if !l.contains(item) {
                assert(l.to_multiset().count(item) == 0);
                assert(l.push(item).to_multiset() =~= l.to_multiset().insert(item));
            } else {
                assert(l.to_multiset().count(item) > 0);
            }
        }
        if ts.contains(t) && ts.last() != t {
            let k = choose|k: int| 0 <= k < ts.len() && ts[k] == t;
            assert(ts.drop_last()[k] == t);
        }
    }
}

/// With unique postings, an item mapped to a term any number of times occurs
/// once in the list that `build` produces for that term, sorted or not, as
/// long as the staged list held it at most once before.
pub proof fn lemma_unique_built(
    m: Map<u32, Seq<u32>>,
    item: u32,
    ts: Seq<u32>,
    t: u32,
    built: Seq<u32>,
    sorted: bool,
)
    requires
        list_or_empty(m, t).to_multiset().count(item) <= 1,
        ts.contains(t),
        built_list(list_or_empty(add_postings(m, item, ts, true), t), built, sorted),
    ensures
        built.to_multiset().count(item) == 1,
{
    lemma_unique_postings(m, item, ts, t);
}

} // verus!
