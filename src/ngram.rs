//! Ranked retrieval: items ordered by the number of query lists that hold
//! them, most first, ties broken by the larger item id.

use std::collections::{HashMap, HashSet};
use vstd::prelude::*;
use crate::backend::Index;
use crate::merge::{intersect_sorted, normalize, strictly_sorted};
use crate::retrieve::Retrieve;
use crate::retriever::items_of;
use crate::builder::is_sorted;

verus! {

broadcast use vstd::std_specs::hash::group_hash_axioms;

/// The non-empty lists of term `t` in the buckets `bs`, bucket by bucket.
pub open spec fn bucket_lists(ix: Index, t: u32, bs: Seq<u32>) -> Seq<Seq<u32>>
    decreases bs.len(),
{
    if bs.len() == 0 {
        Seq::empty()
    } else if ix.posting(bs.last() as int, t as int).len() > 0 {
        bucket_lists(ix, t, bs.drop_last()).push(ix.posting(bs.last() as int, t as int))
    } else {
        bucket_lists(ix, t, bs.drop_last())
    }
}

/// The non-empty lists of the query: term by term, bucket by bucket.
pub open spec fn query_lists(ix: Index, ts: Seq<u32>, bs: Seq<u32>) -> Seq<Seq<u32>>
    decreases ts.len(),
{
    if ts.len() == 0 {
        Seq::empty()
    } else {
        query_lists(ix, ts.drop_last(), bs) + bucket_lists(ix, ts.last(), bs)
    }
}

/// Number of the first `hi` lists of `ls` that hold `x`.
pub open spec fn occ(ls: Seq<Seq<u32>>, x: u32, hi: int) -> int
    decreases hi,
{
    if hi <= 0 {
        0
    } else {
        occ(ls, x, hi - 1) + if ls[hi - 1].contains(x) {
            1int
        } else {
            0int
        }
    }
}

/// Number of lists of `ls` that hold `x`.
pub open spec fn matches(ls: Seq<Seq<u32>>, x: u32) -> int {
    occ(ls, x, ls.len() as int)
}

/// `a` ranks before `b`: more matches, or as many and a larger id.
pub open spec fn ranks_before(ls: Seq<Seq<u32>>, a: u32, b: u32) -> bool {
    matches(ls, a) > matches(ls, b) || (matches(ls, a) == matches(ls, b) && a > b)
}

/// `r` is the ranking of the items of `ls`, cut to its first `n` (all of
/// them for 0): it holds matched items only, in rank order, and each item
/// left out ranks after all of the `n` that are in.
pub open spec fn is_top(ls: Seq<Seq<u32>>, r: Seq<u32>, n: usize) -> bool {
    &&& forall|i: int| 0 <= i < r.len() ==> matches(ls, #[trigger] r[i]) > 0
    &&& forall|i: int, j: int| 0 <= i < j < r.len() ==> ranks_before(ls, r[i], r[j])
    &&& n > 0 ==> r.len() <= n
    &&& forall|x: u32|
        matches(ls, x) > 0 && !r.contains(x) ==> n > 0 && r.len() == n && forall|i: int|
            0 <= i < r.len() ==> ranks_before(ls, #[trigger] r[i], x)
}

proof fn lemma_occ_bounds(ls: Seq<Seq<u32>>, x: u32, lo: int, hi: int)
    requires
        0 <= lo <= hi,
    ensures
        0 <= occ(ls, x, lo) <= occ(ls, x, hi),
        occ(ls, x, hi) - occ(ls, x, lo) <= hi - lo,
    decreases hi - lo,
{
    if lo < hi {
        lemma_occ_bounds(ls, x, lo, hi - 1);
    } else {
        lemma_occ_nonneg(ls, x, lo);
    }
}

proof fn lemma_occ_nonneg(ls: Seq<Seq<u32>>, x: u32, hi: int)
    ensures
        occ(ls, x, hi) >= 0,
    decreases hi,
{
    if hi > 0 {
        lemma_occ_nonneg(ls, x, hi - 1);
    }
}

/// `occ` is positive exactly where one of the lists holds `x`.
proof fn lemma_occ_positive(ls: Seq<Seq<u32>>, x: u32, hi: int)
    requires
        0 <= hi <= ls.len(),
    ensures
        occ(ls, x, hi) > 0 <==> exists|j: int| 0 <= j < hi && #[trigger] ls[j].contains(x),
    decreases hi,
{
    lemma_occ_nonneg(ls, x, hi);
    if hi > 0 {
        lemma_occ_positive(ls, x, hi - 1);
        lemma_occ_nonneg(ls, x, hi - 1);
        if exists|j: int| 0 <= j < hi && #[trigger] ls[j].contains(x) {
            let j = choose|j: int| 0 <= j < hi && #[trigger] ls[j].contains(x);
            if j < hi - 1 {
                assert(ls[j].contains(x));
            }
        }
    }
}

/// Lists that hold the same ids give the same counts.
proof fn lemma_occ_same(ls: Seq<Seq<u32>>, ms: Seq<Seq<u32>>, x: u32, hi: int)
    requires
        0 <= hi <= ls.len() == ms.len(),
        forall|j: int, y: u32| 0 <= j < ls.len() ==> #[trigger] ls[j].contains(y) == ms[j].contains(y),
    ensures
        occ(ls, x, hi) == occ(ms, x, hi),
    decreases hi,
{
    if hi > 0 {
        lemma_occ_same(ls, ms, x, hi - 1);
        assert(ls[hi - 1].contains(x) == ms[hi - 1].contains(x));
    }
}

/// The views of a list of lists.
pub open spec fn views(ls: Seq<Vec<u32>>) -> Seq<Seq<u32>> {
    ls.map_values(|v: Vec<u32>| v@)
}

/// For each id in `lists`, the number of lists that hold it, and the ids in
/// the order they were first met. Each pair of lists is intersected in one
/// ordered pass; an id is counted from the first list that holds it on.
pub fn calc_post_freqs(lists: &Vec<Vec<u32>>) -> (r: (HashMap<u32, usize>, Vec<u32>))
    requires
        forall|j: int| 0 <= j < lists@.len() ==> strictly_sorted(#[trigger] lists@[j]@),
    ensures
        forall|x: u32|
            #[trigger] r.0@.contains_key(x) == (occ(views(lists@), x, lists@.len() as int) > 0),
        forall|x: u32|
            r.0@.contains_key(x) ==> #[trigger] r.0@[x] == occ(views(lists@), x, lists@.len() as int),
        r.1@.no_duplicates(),
        forall|x: u32| #[trigger] r.1@.contains(x) == r.0@.contains_key(x),
{
    let ghost ls = views(lists@);
    let k = lists.len();
    let mut counts: HashMap<u32, usize> = HashMap::new();
    let mut cands: Vec<u32> = Vec::new();
    let mut seen: HashSet<u32> = HashSet::new();
    let mut i: usize = 0;
    while i < k
        invariant
            0 <= i <= k == lists@.len() == ls.len(),
            ls == views(lists@),
            forall|j: int| 0 <= j < lists@.len() ==> strictly_sorted(#[trigger] lists@[j]@),
            forall|x: u32| #[trigger] seen@.contains(x) == (occ(ls, x, i as int) > 0),
            forall|x: u32| #[trigger] counts@.contains_key(x) == seen@.contains(x),
            forall|x: u32| counts@.contains_key(x) ==> #[trigger] counts@[x] == occ(ls, x, k as int),
            cands@.no_duplicates(),
            forall|x: u32| #[trigger] cands@.contains(x) == counts@.contains_key(x),
        decreases k - i,
    {
        let li = &lists[i];
        let ghost lv = li@;
        proof {
            assert(ls[i as int] == lv);
        }
        // Items first met in list `i` start at one.
        let mut m: usize = 0;
        while m < li.len()
            invariant
                0 <= m <= lv.len(),
                li@ == lv,
                ls[i as int] == lv,
                strictly_sorted(lv),
                forall|x: u32| #[trigger] seen@.contains(x) == (occ(ls, x, i as int) > 0),
                forall|x: u32|
                    #[trigger] counts@.contains_key(x) == (seen@.contains(x) || lv.subrange(
                        0,
                        m as int,
                    ).contains(x)),
                forall|x: u32|
                    counts@.contains_key(x) && !seen@.contains(x) ==> #[trigger] counts@[x] == 1,
                forall|x: u32| seen@.contains(x) ==> #[trigger] counts@[x] == occ(ls, x, k as int),
                cands@.no_duplicates(),
                forall|x: u32| #[trigger] cands@.contains(x) == counts@.contains_key(x),
            decreases lv.len() - m,
        {
            let x = li[m];
            let ghost pre = lv.subrange(0, m as int);
            proof {
                assert(lv.subrange(0, m + 1) =~= pre.push(x));
                assert forall|y: u32| #[trigger] pre.push(x).contains(y) == (pre.contains(y) || y == x) by {
                    if pre.push(x).contains(y) {
                        let q = choose|q: int| 0 <= q < pre.len() + 1 && pre.push(x)[q] == y;
                        if q < pre.len() {
                            assert(pre[q] == y);
                        }
                    }
                    if pre.contains(y) {
                        let q = choose|q: int| 0 <= q < pre.len() && pre[q] == y;
                        assert(pre.push(x)[q] == y);
                    }
                    if y == x {
                        assert(pre.push(x)[pre.len() as int] == x);
                    }
                }
                assert(!pre.contains(x)) by {
                    if pre.contains(x) {
                        let q = choose|q: int| 0 <= q < pre.len() && pre[q] == x;
                        assert(lv[q] < lv[m as int]);
                    }
                }
            }
            if !seen.contains(&x) {
                let ghost c0 = cands@;
                counts.insert(x, 1);
                cands.push(x);
                proof {
                    assert(!c0.contains(x));
                    assert forall|a: int, b: int| 0 <= a < b < cands@.len() implies cands@[a] != cands@[b] by {
                        if b == cands@.len() - 1 {
                            assert(cands@[a] == c0[a]);
                        } else {
                            assert(cands@[a] == c0[a] && cands@[b] == c0[b]);
                        }
                    }
                    assert forall|y: u32| #[trigger] c0.push(x).contains(y) == (c0.contains(y) || y == x) by {
                        if c0.push(x).contains(y) {
                            let q = choose|q: int| 0 <= q < c0.len() + 1 && c0.push(x)[q] == y;
                            if q < c0.len() {
                                assert(c0[q] == y);
                            }
                        }
                        if c0.contains(y) {
                            let q = choose|q: int| 0 <= q < c0.len() && c0[q] == y;
                            assert(c0.push(x)[q] == y);
                        }
                        if y == x {
                            assert(c0.push(x)[c0.len() as int] == x);
                        }
                    }
                }
            }
            m = m + 1;
        }
        proof {
            assert(lv.subrange(0, lv.len() as int) =~= lv);
            lemma_occ_bounds(ls, 0, i as int, i as int + 1);
        }
        // Each later list adds one for the items of list `i` that it holds.
        let mut j: usize = i + 1;
        while j < k
            invariant
                i < j <= k == lists@.len() == ls.len(),
                ls == views(lists@),
                li@ == lv,
                ls[i as int] == lv,
                strictly_sorted(lv),
                forall|jj: int| 0 <= jj < lists@.len() ==> strictly_sorted(#[trigger] lists@[jj]@),
                forall|x: u32| #[trigger] seen@.contains(x) == (occ(ls, x, i as int) > 0),
                forall|x: u32| #[trigger] counts@.contains_key(x) == (seen@.contains(x) || lv.contains(x)),
                forall|x: u32|
                    lv.contains(x) && !seen@.contains(x) ==> #[trigger] counts@[x] == occ(ls, x, j as int)
                        - occ(ls, x, i as int),
                forall|x: u32| seen@.contains(x) ==> #[trigger] counts@[x] == occ(ls, x, k as int),
                cands@.no_duplicates(),
                forall|x: u32| #[trigger] cands@.contains(x) == counts@.contains_key(x),
            decreases k - j,
        {
            let common = intersect_sorted(li, &lists[j]);
            proof {
                assert(ls[j as int] == lists@[j as int]@);
            }
            let mut q: usize = 0;
            while q < common.len()
                invariant
                    0 <= q <= common@.len(),
                    i < j < k == ls.len(),
                    strictly_sorted(common@),
                    forall|x: u32| common@.contains(x) == (lv.contains(x) && ls[j as int].contains(x)),
                    forall|x: u32| #[trigger] seen@.contains(x) == (occ(ls, x, i as int) > 0),
                    forall|x: u32| #[trigger] counts@.contains_key(x) == (seen@.contains(x) || lv.contains(x)),
                    forall|x: u32|
                        lv.contains(x) && !seen@.contains(x) ==> #[trigger] counts@[x] == occ(ls, x, j as int)
                            - occ(ls, x, i as int) + if common@.subrange(0, q as int).contains(x) {
                            1int
                        } else {
                            0int
                        },
                    forall|x: u32| seen@.contains(x) ==> #[trigger] counts@[x] == occ(ls, x, k as int),
                    cands@.no_duplicates(),
                    forall|x: u32| #[trigger] cands@.contains(x) == counts@.contains_key(x),
                decreases common@.len() - q,
            {
                let x = common[q];
                let ghost pre = common@.subrange(0, q as int);
                proof {
                    assert(common@.subrange(0, q + 1) =~= pre.push(x));
                    assert forall|y: u32| #[trigger] pre.push(x).contains(y) == (pre.contains(y) || y == x) by {
                        if pre.push(x).contains(y) {
                            let p = choose|p: int| 0 <= p < pre.len() + 1 && pre.push(x)[p] == y;
                            if p < pre.len() {
                                assert(pre[p] == y);
                            }
                        }
                        if pre.contains(y) {
                            let p = choose|p: int| 0 <= p < pre.len() && pre[p] == y;
                            assert(pre.push(x)[p] == y);
                        }
                        if y == x {
                            assert(pre.push(x)[pre.len() as int] == x);
                        }
                    }
                    assert(!pre.contains(x)) by {
                        if pre.contains(x) {
                            let p = choose|p: int| 0 <= p < pre.len() && pre[p] == x;
                            assert(common@[p] < common@[q as int]);
                        }
                    }
                    assert(common@.contains(x));
                }
                if !seen.contains(&x) {
                    let c = match counts.get(&x) {
                        Some(c) => *c,
                        None => 0,
                    };
                    proof {
                        lemma_occ_bounds(ls, x, i as int, j as int);
                        assert(c as int == occ(ls, x, j as int) - occ(ls, x, i as int));
                    }
                    counts.insert(x, c + 1);
                }
                q = q + 1;
            }
            proof {
                assert(common@.subrange(0, common@.len() as int) =~= common@);
                assert forall|x: u32| lv.contains(x) && !seen@.contains(x) implies #[trigger] counts@[x]
                    == occ(ls, x, j + 1) - occ(ls, x, i as int) by {
                    assert(occ(ls, x, j + 1) == occ(ls, x, j as int) + if ls[j as int].contains(x) {
                        1int
                    } else {
                        0int
                    });
                }
            }
            j = j + 1;
        }
        // The items of list `i` now count as met.
        let mut m: usize = 0;
        let ghost seen0 = seen@;
        while m < li.len()
            invariant
                0 <= m <= lv.len(),
                li@ == lv,
                forall|x: u32| #[trigger] seen@.contains(x) == (seen0.contains(x) || lv.subrange(
                    0,
                    m as int,
                ).contains(x)),
            decreases lv.len() - m,
        {
            let x = li[m];
            let ghost pre = lv.subrange(0, m as int);
            proof {
                assert(lv.subrange(0, m + 1) =~= pre.push(x));
                assert forall|y: u32| #[trigger] pre.push(x).contains(y) == (pre.contains(y) || y == x) by {
                    if pre.push(x).contains(y) {
                        let p = choose|p: int| 0 <= p < pre.len() + 1 && pre.push(x)[p] == y;
                        if p < pre.len() {
                            assert(pre[p] == y);
                        }
                    }
                    if pre.contains(y) {
                        let p = choose|p: int| 0 <= p < pre.len() && pre[p] == y;
                        assert(pre.push(x)[p] == y);
                    }
                    if y == x {
                        assert(pre.push(x)[pre.len() as int] == x);
                    }
                }
            }
            seen.insert(x);
            m = m + 1;
        }
        proof {
            assert(lv.subrange(0, lv.len() as int) =~= lv);
            assert forall|x: u32| #[trigger] seen@.contains(x) == (occ(ls, x, i + 1) > 0) by {
                lemma_occ_nonneg(ls, x, i as int);
                assert(occ(ls, x, i + 1) == occ(ls, x, i as int) + if ls[i as int].contains(x) {
                    1int
                } else {
                    0int
                });
            }
            assert forall|x: u32| counts@.contains_key(x) implies #[trigger] counts@[x] == occ(
                ls,
                x,
                k as int,
            ) by {
                if !seen0.contains(x) {
                    lemma_occ_nonneg(ls, x, i as int);
                }
            }
        }
        i = i + 1;
    }
    (counts, cands)
}

/// `a` ranks before `b` by the counts `c`: a larger count, or the same
/// count and a larger id.
pub open spec fn better(c: Map<u32, usize>, a: u32, b: u32) -> bool {
    c[a] > c[b] || (c[a] == c[b] && a > b)
}

proof fn lemma_better(c: Map<u32, usize>, a: u32, b: u32, d: u32)
    ensures
        better(c, a, b) && better(c, b, d) ==> better(c, a, d),
        a != b ==> better(c, a, b) || better(c, b, a),
        !better(c, a, a),
        !(better(c, a, b) && better(c, b, a)),
{
}

/// `true` if `a` ranks before `b` by the counts.
fn ranks_higher(counts: &HashMap<u32, usize>, a: u32, b: u32) -> (r: bool)
    requires
        counts@.contains_key(a),
        counts@.contains_key(b),
    ensures
        r == better(counts@, a, b),
{
    let ca = match counts.get(&a) {
        Some(c) => *c,
        None => 0,
    };
    let cb = match counts.get(&b) {
        Some(c) => *c,
        None => 0,
    };
    ca > cb || (ca == cb && a > b)
}

/// The `n` best ranked of `cands` (all of them for 0), best first. A list
/// of at most `n` ids is kept in rank order; each candidate goes in at its
/// place, and the last one drops out when the list grows past `n`.
pub fn max_n(counts: &HashMap<u32, usize>, cands: &Vec<u32>, n: usize) -> (r: Vec<u32>)
    requires
        cands@.no_duplicates(),
        forall|x: u32| cands@.contains(x) ==> counts@.contains_key(x),
    ensures
        forall|i: int| 0 <= i < r@.len() ==> cands@.contains(#[trigger] r@[i]),
        forall|i: int, j: int| 0 <= i < j < r@.len() ==> better(counts@, r@[i], r@[j]),
        n > 0 ==> r@.len() <= n,
        forall|x: u32|
            cands@.contains(x) && !r@.contains(x) ==> n > 0 && r@.len() == n && forall|i: int|
                0 <= i < r@.len() ==> better(counts@, #[trigger] r@[i], x),
{
    let ghost c = counts@;
    let mut best: Vec<u32> = Vec::new();
    let mut m: usize = 0;
    while m < cands.len()
        invariant
            0 <= m <= cands@.len(),
            c == counts@,
            cands@.no_duplicates(),
            forall|x: u32| cands@.contains(x) ==> counts@.contains_key(x),
            forall|i: int|
                0 <= i < best@.len() ==> cands@.subrange(0, m as int).contains(#[trigger] best@[i]),
            forall|i: int, j: int| 0 <= i < j < best@.len() ==> better(c, best@[i], best@[j]),
            n > 0 ==> best@.len() <= n,
            forall|x: u32|
                cands@.subrange(0, m as int).contains(x) && !best@.contains(x) ==> n > 0 && best@.len()
                    == n && forall|i: int| 0 <= i < best@.len() ==> better(c, #[trigger] best@[i], x),
        decreases cands@.len() - m,
    {
        let x = cands[m];
        let ghost pre = cands@.subrange(0, m as int);
        proof {
            assert(cands@.subrange(0, m + 1) =~= pre.push(x));
            assert(cands@.contains(x));
            assert(!pre.contains(x)) by {
                if pre.contains(x) {
                    let q = choose|q: int| 0 <= q < pre.len() && pre[q] == x;
                    assert(cands@[q] == cands@[m as int]);
                }
            }
            assert forall|y: u32| #[trigger] pre.push(x).contains(y) == (pre.contains(y) || y == x) by {
                if pre.push(x).contains(y) {
                    let q = choose|q: int| 0 <= q < pre.len() + 1 && pre.push(x)[q] == y;
                    if q < pre.len() {
                        assert(pre[q] == y);
                    }
                }
                if pre.contains(y) {
                    let q = choose|q: int| 0 <= q < pre.len() && pre[q] == y;
                    assert(pre.push(x)[q] == y);
                }
                if y == x {
                    assert(pre.push(x)[pre.len() as int] == x);
                }
            }
        }
        let ghost b0 = best@;
        proof {
            assert forall|i: int| 0 <= i < best@.len() implies counts@.contains_key(#[trigger] best@[i]) by {
                assert(pre.contains(best@[i]));
                let q = choose|q: int| 0 <= q < pre.len() && pre[q] == best@[i];
                assert(cands@[q] == best@[i]);
                assert(cands@.contains(best@[i]));
            }
        }
        let mut p: usize = 0;
        while p < best.len() && ranks_higher(counts, best[p], x)
            invariant
                0 <= p <= best@.len(),
                best@ == b0,
                c == counts@,
                counts@.contains_key(x),
                forall|i: int| 0 <= i < best@.len() ==> counts@.contains_key(#[trigger] best@[i]),
                forall|q: int| 0 <= q < p ==> better(c, #[trigger] b0[q], x),
            decreases best@.len() - p,
        {
            p = p + 1;
        }
        proof {
            assert forall|q: int| p <= q < b0.len() implies better(c, x, #[trigger] b0[q]) by {
                assert(b0[q] != x) by {
                    assert(pre.contains(b0[q]));
                }
                assert(b0[p as int] != x) by {
                    assert(pre.contains(b0[p as int]));
                }
                lemma_better(c, x, b0[p as int], b0[q]);
                lemma_better(c, b0[p as int], x, x);
            }
        }
        if n == 0 || p < n {
            best.insert(p, x);
            let ghost b1 = best@;
            proof {
                assert(b1 == b0.insert(p as int, x));
                assert forall|i: int, j: int| 0 <= i < j < b1.len() implies better(c, b1[i], b1[j]) by {
                    if j < p {
                    } else if j == p {
                        assert(b1[j] == x);
                    } else if i < p {
                        assert(b1[j] == b0[j - 1]);
                    } else if i == p {
                        assert(b1[j] == b0[j - 1]);
                    } else {
                        assert(b1[i] == b0[i - 1] && b1[j] == b0[j - 1]);
                    }
                }
                assert forall|y: u32| #[trigger] b1.contains(y) == (b0.contains(y) || y == x) by {
                    if b1.contains(y) {
                        let q = choose|q: int| 0 <= q < b1.len() && b1[q] == y;
                        if q < p {
                            assert(b0[q] == y);
                        } else if q > p {
                            assert(b0[q - 1] == y);
                        }
                    }
                    if b0.contains(y) {
                        let q = choose|q: int| 0 <= q < b0.len() && b0[q] == y;
                        if q < p {
                            assert(b1[q] == y);
                        } else {
                            assert(b1[q + 1] == y);
                        }
                    }
                    if y == x {
                        assert(b1[p as int] == x);
                    }
                }
                assert forall|i: int| 0 <= i < b1.len() implies pre.push(x).contains(#[trigger] b1[i]) by {
                    if i < p {
                        assert(b1[i] == b0[i]);
                    } else if i > p {
                        assert(b1[i] == b0[i - 1]);
                    }
                }
                assert forall|y: u32| pre.contains(y) && !b1.contains(y) implies n > 0 && b0.len() == n
                    && better(c, x, y) by {
                    assert(better(c, b0[p as int], y));
                    lemma_better(c, x, b0[p as int], y);
                }
            }
            if n > 0 && best.len() > n {
                let z = best.pop();
                proof {
                    let b2 = best@;
                    assert(b2 =~= b1.drop_last());
                    assert forall|y: u32| #[trigger] b2.contains(y) == (b1.contains(y) && y != b1.last()) by {
                        if b2.contains(y) {
                            let q = choose|q: int| 0 <= q < b2.len() && b2[q] == y;
                            assert(b1[q] == y);
                            assert(better(c, b1[q], b1.last()));
                            lemma_better(c, y, y, y);
                        }
                        if b1.contains(y) && y != b1.last() {
                            let q = choose|q: int| 0 <= q < b1.len() && b1[q] == y;
                            assert(b2[q] == y);
                        }
                    }
                    assert forall|y: u32| pre.push(x).contains(y) && !b2.contains(y) implies n > 0
                        && b2.len() == n && forall|i: int|
                        0 <= i < b2.len() ==> better(c, #[trigger] b2[i], y) by {
                        if y == b1.last() {
                            assert forall|i: int| 0 <= i < b2.len() implies better(c, #[trigger] b2[i], y) by {
                                assert(b2[i] == b1[i]);
                            }
                        } else {
                            assert(pre.contains(y) && !b1.contains(y));
                            assert forall|i: int| 0 <= i < b2.len() implies better(c, #[trigger] b2[i], y) by {
                                assert(b2[i] == b1[i]);
                                if i < p {
                                    assert(b1[i] == b0[i]);
                                } else if i > p {
                                    assert(b1[i] == b0[i - 1]);
                                }
                            }
                        }
                    }
                    assert forall|i: int| 0 <= i < b2.len() implies pre.push(x).contains(#[trigger] b2[i]) by {
                        assert(b2[i] == b1[i]);
                    }
                }
            } else {
                proof {
                    assert forall|y: u32| pre.push(x).contains(y) && !b1.contains(y) implies n > 0
                        && b1.len() == n && forall|i: int|
                        0 <= i < b1.len() ==> better(c, #[trigger] b1[i], y) by {
                        assert(pre.contains(y));
                    }
                }
            }
        } else {
            proof {
                assert(p == b0.len());
                assert forall|y: u32| pre.push(x).contains(y) && !best@.contains(y) implies n > 0
                    && best@.len() == n && forall|i: int|
                    0 <= i < best@.len() ==> better(c, #[trigger] best@[i], y) by {
                    if y == x {
                        assert forall|i: int| 0 <= i < best@.len() implies better(c, #[trigger] best@[i], y) by {
                            assert(better(c, b0[i], x));
                        }
                    }
                }
            }
        }
        m = m + 1;
    }
    proof {
        assert(cands@.subrange(0, cands@.len() as int) =~= cands@);
    }
    best
}

/// `a` and `b` have the same number of lists, and each pair of lists holds
/// the same ids.
pub open spec fn same_members(a: Seq<Seq<u32>>, b: Seq<Seq<u32>>) -> bool {
    &&& a.len() == b.len()
    &&& forall|j: int, y: u32| 0 <= j < a.len() ==> #[trigger] a[j].contains(y) == b[j].contains(y)
}

/// Every list of `ls` holds ids below `n` only.
pub open spec fn lists_below(ls: Seq<Seq<u32>>, n: int) -> bool {
    forall|j: int, k: int| 0 <= j < ls.len() && 0 <= k < ls[j].len() ==> #[trigger] ls[j][k] < n
}

proof fn lemma_bucket_lists_below(ix: Index, t: u32, bs: Seq<u32>)
    requires
        ix.postings_resolve(),
    ensures
        lists_below(bucket_lists(ix, t, bs), ix.items().len() as int),
    decreases bs.len(),
{
    if bs.len() > 0 {
        lemma_bucket_lists_below(ix, t, bs.drop_last());
        let p = ix.posting(bs.last() as int, t as int);
        assert forall|k: int| 0 <= k < p.len() implies #[trigger] p[k] < ix.items().len() by {
            assert(ix.posting(bs.last() as int, t as int)[k] < ix.items().len());
        }
    }
}

proof fn lemma_query_lists_below(ix: Index, ts: Seq<u32>, bs: Seq<u32>)
    requires
        ix.postings_resolve(),
    ensures
        lists_below(query_lists(ix, ts, bs), ix.items().len() as int),
    decreases ts.len(),
{
    if ts.len() > 0 {
        lemma_query_lists_below(ix, ts.drop_last(), bs);
        lemma_bucket_lists_below(ix, ts.last(), bs);
        let a = query_lists(ix, ts.drop_last(), bs);
        let b = bucket_lists(ix, ts.last(), bs);
        assert forall|j: int, k: int| 0 <= j < (a + b).len() && 0 <= k < (a + b)[j].len() implies #[trigger] (a
            + b)[j][k] < ix.items().len() by {
            if j >= a.len() {
                assert((a + b)[j] == b[j - a.len()]);
            }
        }
    }
}

/// The non-empty posting lists of the query: for each term of `ts` in
/// order, the list of each bucket of `bs` that exists, in order.
fn make_terms_postings(ix: &Index, ts: &Vec<u32>, bs: &Vec<u32>) -> (r: Vec<Vec<u32>>)
    ensures
        views(r@) == query_lists(*ix, ts@, bs@),
{
    let mut out: Vec<Vec<u32>> = Vec::new();
    let mut i: usize = 0;
    while i < ts.len()
        invariant
            0 <= i <= ts@.len(),
            views(out@) == query_lists(*ix, ts@.subrange(0, i as int), bs@),
        decreases ts@.len() - i,
    {
        let t = ts[i];
        let ghost base = query_lists(*ix, ts@.subrange(0, i as int), bs@);
        proof {
            assert(ts@.subrange(0, i + 1).drop_last() =~= ts@.subrange(0, i as int));
            assert(bs@.subrange(0, 0) =~= Seq::<u32>::empty());
            assert(base + bucket_lists(*ix, t, bs@.subrange(0, 0)) =~= base);
        }
        let mut k: usize = 0;
        while k < bs.len()
            invariant
                0 <= k <= bs@.len(),
                views(out@) == base + bucket_lists(*ix, t, bs@.subrange(0, k as int)),
            decreases bs@.len() - k,
        {
            let list = match ix.postings(bs[k]) {
                Some(p) => p.get_posting(t),
                None => Vec::new(),
            };
            let ghost prev = base + bucket_lists(*ix, t, bs@.subrange(0, k as int));
            proof {
                assert(list@ == ix.posting(bs@[k as int] as int, t as int));
                assert(bs@.subrange(0, k + 1).drop_last() =~= bs@.subrange(0, k as int));
            }
            if list.len() > 0 {
                let ghost o = out@;
                let ghost lv = list@;
                out.push(list);
                proof {
                    let next = base + bucket_lists(*ix, t, bs@.subrange(0, k + 1));
                    assert(next =~= prev.push(lv));
                    assert(views(out@) =~= views(o).push(lv));
                }
            } else {
                proof {
                    assert(base + bucket_lists(*ix, t, bs@.subrange(0, k + 1)) =~= prev);
                }
            }
            k = k + 1;
        }
        proof {
            assert(bs@.subrange(0, bs@.len() as int) =~= bs@);
            assert(query_lists(*ix, ts@.subrange(0, i + 1), bs@) =~= base + bucket_lists(*ix, t, bs@));
        }
        i = i + 1;
    }
    proof {
        assert(ts@.subrange(0, ts@.len() as int) =~= ts@);
    }
    out
}

/// Each list of `lists` sorted and without repeats.
fn normalize_all(lists: Vec<Vec<u32>>) -> (r: Vec<Vec<u32>>)
    ensures
        same_members(views(r@), views(lists@)),
        forall|j: int| 0 <= j < r@.len() ==> strictly_sorted(#[trigger] r@[j]@),
{
    let ghost lv = views(lists@);
    let mut taken = lists;
    let mut out: Vec<Vec<u32>> = Vec::new();
    let mut i: usize = 0;
    let n = taken.len();
    while i < n
        invariant
            0 <= i <= n == taken@.len() == lv.len(),
            forall|j: int| i <= j < n ==> #[trigger] taken@[j]@ == lv[j],
            out@.len() == i,
            forall|j: int, y: u32| 0 <= j < i ==> #[trigger] out@[j]@.contains(y) == lv[j].contains(y),
            forall|j: int| 0 <= j < out@.len() ==> strictly_sorted(#[trigger] out@[j]@),
        decreases n - i,
    {
        let mut l: Vec<u32> = Vec::new();
        std::mem::swap(&mut l, &mut taken[i]);
        proof {
            assert(l@ == lv[i as int]);
        }
        let nl = normalize(l);
        out.push(nl);
        i = i + 1;
    }
    proof {
        assert forall|j: int, y: u32| 0 <= j < views(out@).len() implies #[trigger] views(out@)[j].contains(y)
            == views(lists@)[j].contains(y) by {
            assert(views(out@)[j] == out@[j]@);
        }
    }
    out
}

/// The ranked item ids of the lists of `ts` in the buckets `bs`, cut to
/// the first `n` (all for 0).
pub fn rank_ids(ix: &Index, ts: &Vec<u32>, bs: &Vec<u32>, n: usize) -> (r: Vec<u32>)
    ensures
        is_top(query_lists(*ix, ts@, bs@), r@, n),
{
    let raw = make_terms_postings(ix, ts, bs);
    let lists = normalize_all(raw);
    let ghost ql = query_lists(*ix, ts@, bs@);
    let ghost vl = views(lists@);
    let (counts, cands) = calc_post_freqs(&lists);
    let r = max_n(&counts, &cands, n);
    proof {
        assert forall|x: u32| #[trigger] matches(ql, x) == occ(vl, x, vl.len() as int) by {
            lemma_occ_same(ql, vl, x, ql.len() as int);
        }
        assert forall|i: int| 0 <= i < r@.len() implies matches(ql, #[trigger] r@[i]) > 0 by {
            assert(cands@.contains(r@[i]));
        }
        assert forall|i: int, j: int| 0 <= i < j < r@.len() implies ranks_before(ql, r@[i], r@[j]) by {
            assert(cands@.contains(r@[i]));
            assert(cands@.contains(r@[j]));
            assert(better(counts@, r@[i], r@[j]));
        }
        assert forall|x: u32| matches(ql, x) > 0 && !r@.contains(x) implies n > 0 && r@.len() == n
            && forall|i: int| 0 <= i < r@.len() ==> ranks_before(ql, #[trigger] r@[i], x) by {
            assert(counts@.contains_key(x));
            assert(cands@.contains(x));
            assert forall|i: int| 0 <= i < r@.len() implies ranks_before(ql, #[trigger] r@[i], x) by {
                assert(cands@.contains(r@[i]));
                assert(better(counts@, r@[i], x));
            }
        }
    }
    r
}

/// The ranked retriever: on the first pull it ranks the items of the query
/// by the number of query lists that hold them, keeps the first `limit`
/// (all for 0), and then yields them best first.
pub struct NGramRetriever<'a> {
    retrieve: Retrieve<'a>,
    item_ids: Vec<u32>,
    pos: usize,
    did_setup: bool,
}

impl<'a> NGramRetriever<'a> {
    pub closed spec fn query(&self) -> Retrieve<'a> {
        self.retrieve
    }

    /// The ranked item ids, once ranked.
    pub closed spec fn ranked(&self) -> Seq<u32> {
        self.item_ids@
    }

    /// The ranked item ids not yet yielded.
    pub closed spec fn pending(&self) -> Seq<u32> {
        self.item_ids@.subrange(self.pos as int, self.item_ids@.len() as int)
    }

    pub closed spec fn is_set_up(&self) -> bool {
        self.did_setup
    }

    /// The non-empty lists of the query.
    pub open spec fn lists(&self) -> Seq<Seq<u32>> {
        query_lists(self.query().index(), self.query().q_terms(), self.query().q_buckets())
    }

    pub closed spec fn wf(&self) -> bool {
        &&& self.retrieve.index().wf()
        &&& self.retrieve.index().postings_resolve()
        &&& self.pos <= self.item_ids@.len()
        &&& self.did_setup ==> is_top(self.lists(), self.item_ids@, self.retrieve.q_limit())
        &&& !self.did_setup ==> self.pos == 0 && self.item_ids@.len() == 0
    }

    /// A ranked retriever for the query `retrieve`; the query's term ids are
    /// put in ascending order.
    pub fn new(retrieve: Retrieve<'a>) -> (r: NGramRetriever<'a>)
        requires
            retrieve.index().wf(),
            retrieve.index().postings_resolve(),
        ensures
            r.wf(),
            r.query().index() == retrieve.index(),
            r.query().q_buckets() == retrieve.q_buckets(),
            r.query().is_unique() == retrieve.is_unique(),
            r.query().q_limit() == retrieve.q_limit(),
            is_sorted(r.query().q_terms()),
            r.query().q_terms().to_multiset() == retrieve.q_terms().to_multiset(),
            !r.is_set_up(),
    {
        let mut retrieve = retrieve;
        retrieve.sort_terms();
        NGramRetriever { retrieve, item_ids: Vec::new(), pos: 0, did_setup: false }
    }

    /// The query's term ids.
    pub fn q_term_ids(&self) -> (r: &Vec<u32>)
        ensures
            r@ == self.query().q_terms(),
    {
        self.retrieve.term_ids()
    }

    /// Ranks the items of the query.
    fn setup(&mut self)
        requires
            old(self).wf(),
        ensures
            final(self).wf(),
            final(self).is_set_up(),
            final(self).query() == old(self).query(),
            final(self).pending() == final(self).ranked(),
    {
        let ix: &Index = self.retrieve.backend();
        let ids = rank_ids(ix, self.retrieve.term_ids(), self.retrieve.bucket_ids(), self.retrieve.limit());
        self.item_ids = ids;
        self.pos = 0;
        self.did_setup = true;
        proof {
            assert(self.pending() =~= self.ranked());
        }
    }

    /// The next item, best ranked first, or `None` once all have come out.
    pub fn next(&mut self) -> (r: Option<u32>)
        requires
            old(self).wf(),
        ensures
            final(self).wf(),
            final(self).is_set_up(),
            final(self).query() == old(self).query(),
            is_top(final(self).lists(), final(self).ranked(), final(self).query().q_limit()),
            old(self).is_set_up() ==> final(self).ranked() == old(self).ranked(),
            ({
                let before = if old(self).is_set_up() {
                    old(self).pending()
                } else {
                    final(self).ranked()
                };
                &&& before.len() == 0 ==> r is None && final(self).pending().len() == 0
                &&& before.len() > 0 ==> r == Some(
                    final(self).query().index().items()[before[0] as int],
                ) && final(self).pending() == before.drop_first()
            }),
    {
        if !self.did_setup {
            self.setup();
        }
        if self.pos >= self.item_ids.len() {
            proof {
                assert(self.pending().len() == 0);
            }
            return None;
        }
        let id = self.item_ids[self.pos];
        let ghost before = self.pending();
        self.pos = self.pos + 1;
        proof {
            assert(before[0] == id);
            assert(self.pending() =~= before.drop_first());
            let ls = self.lists();
            let ix = self.query().index();
            assert(matches(ls, id) > 0);
            lemma_occ_positive(ls, id, ls.len() as int);
            let j = choose|j: int| 0 <= j < ls.len() && #[trigger] ls[j].contains(id);
            let k = choose|k: int| 0 <= k < ls[j].len() && ls[j][k] == id;
            lemma_query_lists_below(ix, self.query().q_terms(), self.query().q_buckets());
            assert(ls[j][k] < ix.items().len());
        }
        let ix: &Index = self.retrieve.backend();
        match ix.storage().get_item(id) {
            Some(item) => Some(item),
            None => None,
        }
    }

    /// All the items still to come, best ranked first.
    pub fn collect_all(&mut self) -> (r: Vec<u32>)
        requires
            old(self).wf(),
        ensures
            final(self).wf(),
            final(self).is_set_up(),
            final(self).query() == old(self).query(),
            is_top(final(self).lists(), final(self).ranked(), final(self).query().q_limit()),
            r@ == items_of(
                final(self).query().index(),
                if old(self).is_set_up() {
                    old(self).pending()
                } else {
                    final(self).ranked()
                },
            ),
    {
        if !self.did_setup {
            self.setup();
        }
        let ghost ix = self.query().index();
        let ghost all = self.pending();
        let mut out: Vec<u32> = Vec::new();
        let mut done = false;
        while !done
            invariant
                self.wf(),
                self.is_set_up(),
                self.query() == old(self).query(),
                self.query().index() == ix,
                old(self).is_set_up() ==> all == old(self).pending(),
                !old(self).is_set_up() ==> all == self.ranked(),
                old(self).is_set_up() ==> self.ranked() == old(self).ranked(),
                out@ + items_of(ix, self.pending()) == items_of(ix, all),
                done ==> self.pending().len() == 0,
            decreases self.pending().len() + if done {
                0int
            } else {
                1int
            },
        {
            let ghost before = self.pending();
            match self.next() {
                Some(x) => {
                    out.push(x);
                    proof {
                        assert(out@ + items_of(ix, self.pending()) =~= out@.drop_last() + items_of(
                            ix,
                            before,
                        ));
                    }
                },
                None => {
                    done = true;
                },
            }
        }
        proof {
            assert(items_of(ix, self.pending()) =~= Seq::<u32>::empty());
            assert(out@ + Seq::<u32>::empty() =~= out@);
        }
        out
    }
}

impl<'a> Retrieve<'a> {
    /// A ranked retriever for this query.
    pub fn get_ranked(self) -> (r: NGramRetriever<'a>)
        requires
            self.index().wf(),
            self.index().postings_resolve(),
        ensures
            r.query().index() == self.index(),
            r.query().q_buckets() == self.q_buckets(),
            r.query().is_unique() == self.is_unique(),
            r.query().q_limit() == self.q_limit(),
            is_sorted(r.query().q_terms()),
            r.query().q_terms().to_multiset() == self.q_terms().to_multiset(),
            !r.is_set_up(),
    {
        NGramRetriever::new(self)
    }

    /// All items of the ranked retrieval, best first: the items of the
    /// lists of the query's terms (in ascending order of term id) by the
    /// number of lists that hold them, then by the larger id, cut to the
    /// limit.
    pub fn get_all_ranked(self) -> (r: Vec<u32>)
        requires
            self.index().wf(),
            self.index().postings_resolve(),
        ensures
            exists|ts: Seq<u32>, ids: Seq<u32>|
                {
                    &&& is_sorted(ts)
                    &&& ts.to_multiset() == self.q_terms().to_multiset()
                    &&& is_top(query_lists(self.index(), ts, self.q_buckets()), ids, self.q_limit())
                    &&& r@ == items_of(self.index(), ids)
                },
    {
        let mut it = NGramRetriever::new(self);
        let r = it.collect_all();
        proof {
            let ts = it.query().q_terms();
            assert(is_top(query_lists(self.index(), ts, self.q_buckets()), it.ranked(), self.q_limit()));
        }
        r
    }
}

/// In a ranking, an item that matches more lists comes before one that
/// matches fewer, and of two that match as many the larger id comes first;
/// the better one is in the ranking whenever the other one is.
pub proof fn lemma_ranking_order(ls: Seq<Seq<u32>>, r: Seq<u32>, n: usize, a: u32, b: u32)
    requires
        is_top(ls, r, n),
        ranks_before(ls, a, b),
        r.contains(b),
    ensures
        exists|i: int, j: int| 0 <= i < j < r.len() && r[i] == a && r[j] == b,
{
    let j = choose|j: int| 0 <= j < r.len() && r[j] == b;
    assert(matches(ls, r[j]) > 0);
    if !r.contains(a) {
        assert(ranks_before(ls, r[j], a));
    }
    let i = choose|i: int| 0 <= i < r.len() && r[i] == a;
    if j < i {
        assert(ranks_before(ls, r[j], r[i]));
    }
    assert(i != j);
}

} // verus!
