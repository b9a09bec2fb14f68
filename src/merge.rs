//! Sorted id lists: normalising a list and intersecting two of them in one
//! ordered pass.

use vstd::prelude::*;
use crate::builder::{is_sorted, sort_ids};

verus! {

/// `s` is in strictly ascending order.
pub open spec fn strictly_sorted(s: Seq<u32>) -> bool {
    forall|i: int, j: int| 0 <= i < j < s.len() ==> s[i] < s[j]
}

/// The ids of `v` in ascending order, each once.
pub fn normalize(v: Vec<u32>) -> (r: Vec<u32>)
    ensures
        strictly_sorted(r@),
        forall|x: u32| r@.contains(x) == v@.contains(x),
{
    let mut s = v;
    sort_ids(&mut s);
    let ghost sv = s@;
    proof {
        assert forall|x: u32| sv.contains(x) == v@.contains(x) by {
            vstd::seq_lib::to_multiset_contains(sv, x);
            vstd::seq_lib::to_multiset_contains(v@, x);
        }
    }
    let mut out: Vec<u32> = Vec::new();
    let mut i: usize = 0;
    while i < s.len()
        invariant
            0 <= i <= s@.len(),
            s@ == sv,
            is_sorted(sv),
            strictly_sorted(out@),
            forall|x: u32| out@.contains(x) == sv.subrange(0, i as int).contains(x),
            i > 0 ==> out@.len() > 0 && out@.last() == sv[i - 1],
            i == 0 ==> out@.len() == 0,
        decreases s@.len() - i,
    {
        let x = s[i];
        let ghost pre = sv.subrange(0, i as int);
        proof {
            assert(sv.subrange(0, i + 1) =~= pre.push(x));
            assert forall|y: u32| #[trigger] pre.push(x).contains(y) == (pre.contains(y) || y == x) by {
                if pre.push(x).contains(y) {
                    let k = choose|k: int| 0 <= k < pre.len() + 1 && pre.push(x)[k] == y;
                    if k < pre.len() {
                        assert(pre[k] == y);
                    }
                }
                if pre.contains(y) {
                    let k = choose|k: int| 0 <= k < pre.len() && pre[k] == y;
                    assert(pre.push(x)[k] == y);
                }
                if y == x {
                    assert(pre.push(x)[pre.len() as int] == x);
                }
            }
        }
        if out.len() == 0 || out[out.len() - 1] != x {
            let ghost o = out@;
            out.push(x);
            proof {
                assert forall|y: u32| #[trigger] o.push(x).contains(y) == (o.contains(y) || y == x) by {
                    if o.push(x).contains(y) {
                        let k = choose|k: int| 0 <= k < o.len() + 1 && o.push(x)[k] == y;
                        if k < o.len() {
                            assert(o[k] == y);
                        }
                    }
                    if o.contains(y) {
                        let k = choose|k: int| 0 <= k < o.len() && o[k] == y;
                        assert(o.push(x)[k] == y);
                    }
                    if y == x {
                        assert(o.push(x)[o.len() as int] == x);
                    }
                }
                if i > 0 {
                    assert(sv[i - 1] <= sv[i as int]);
                    assert(o[o.len() - 1] == sv[i - 1]);
                    assert forall|a: int, b: int| 0 <= a < b < out@.len() implies out@[a] < out@[b] by {
                        if b == out@.len() - 1 {
                            if a < o.len() - 1 {
                                assert(o[a] < o[o.len() - 1]);
                            }
                            assert(out@[a] == o[a]);
                            assert(out@[b] == x);
                        } else {
                            assert(out@[a] == o[a] && out@[b] == o[b]);
                        }
                    }
                }
            }
        } else {
            proof {
                assert(sv[i - 1] == x);
            }
        }
        i = i + 1;
    }
    proof {
        assert(sv.subrange(0, sv.len() as int) =~= sv);
    }
    out
}

/// The ids that both `a` and `b` hold, in ascending order: one pass that
/// advances the list with the smaller head, and takes equal heads.
pub fn intersect_sorted(a: &Vec<u32>, b: &Vec<u32>) -> (r: Vec<u32>)
    requires
        strictly_sorted(a@),
        strictly_sorted(b@),
    ensures
        strictly_sorted(r@),
        forall|x: u32| r@.contains(x) == (a@.contains(x) && b@.contains(x)),
{
    let mut out: Vec<u32> = Vec::new();
    let mut i: usize = 0;
    let mut j: usize = 0;
    while i < a.len() && j < b.len()
        invariant
            0 <= i <= a@.len(),
            0 <= j <= b@.len(),
            strictly_sorted(a@),
            strictly_sorted(b@),
            strictly_sorted(out@),
            forall|x: u32| out@.contains(x) == (a@.subrange(0, i as int).contains(x) && b@.contains(x)),
            forall|k: int| 0 <= k < j && i < a@.len() ==> b@[k] < a@[i as int],
            out@.len() > 0 ==> i > 0 && out@.last() <= a@[i - 1],
        decreases a@.len() + b@.len() - i - j,
    {
        let x = a[i];
        let y = b[j];
        let ghost pre = a@.subrange(0, i as int);
        proof {
            assert(a@.subrange(0, i + 1) =~= pre.push(x));
            assert forall|z: u32| #[trigger] pre.push(x).contains(z) == (pre.contains(z) || z == x) by {
                if pre.push(x).contains(z) {
                    let k = choose|k: int| 0 <= k < pre.len() + 1 && pre.push(x)[k] == z;
                    if k < pre.len() {
                        assert(pre[k] == z);
                    }
                }
                if pre.contains(z) {
                    let k = choose|k: int| 0 <= k < pre.len() && pre[k] == z;
                    assert(pre.push(x)[k] == z);
                }
                if z == x {
                    assert(pre.push(x)[pre.len() as int] == x);
                }
            }
        }
        if x < y {
            proof {
                assert(!b@.contains(x)) by {
                    if b@.contains(x) {
                        let k = choose|k: int| 0 <= k < b@.len() && b@[k] == x;
                        if k < j {
                            assert(b@[k] < x);
                        } else if k > j {
                            assert(b@[k] > y);
                        }
                    }
                }
                assert forall|k: int| 0 <= k < j && i + 1 < a@.len() implies b@[k] < a@[i + 1] by {
                    assert(a@[i as int] < a@[i + 1]);
                }
                if out@.len() > 0 {
                    assert(a@[i - 1] < a@[i as int]);
                }
            }
            i = i + 1;
        } else if x > y {
            j = j + 1;
        } else {
            let ghost o = out@;
            out.push(x);
            proof {
                assert(b@[j as int] == x);
                assert forall|z: u32| #[trigger] o.push(x).contains(z) == (o.contains(z) || z == x) by {
                    if o.push(x).contains(z) {
                        let k = choose|k: int| 0 <= k < o.len() + 1 && o.push(x)[k] == z;
                        if k < o.len() {
                            assert(o[k] == z);
                        }
                    }
                    if o.contains(z) {
                        let k = choose|k: int| 0 <= k < o.len() && o[k] == z;
                        assert(o.push(x)[k] == z);
                    }
                    if z == x {
                        assert(o.push(x)[o.len() as int] == x);
                    }
                }
                assert forall|p: int, q: int| 0 <= p < q < out@.len() implies out@[p] < out@[q] by {
                    if q == out@.len() - 1 {
                        assert(o.last() <= a@[i - 1]);
                        assert(a@[i - 1] < a@[i as int]);
                        if p < o.len() - 1 {
                            assert(o[p] < o.last());
                        }
                        assert(out@[p] == o[p]);
                    } else {
                        assert(out@[p] == o[p] && out@[q] == o[q]);
                    }
                }
                assert forall|k: int| 0 <= k < j + 1 && i + 1 < a@.len() implies b@[k] < a@[i + 1] by {
                    assert(a@[i as int] < a@[i + 1]);
                    if k < j {
                        assert(b@[k] < a@[i as int]);
                    }
                }
                assert(out@.last() == a@[i as int]);
            }
            i = i + 1;
            j = j + 1;
        }
    }
    proof {
        assert forall|x: u32| out@.contains(x) == (a@.contains(x) && b@.contains(x)) by {
            if i == a@.len() {
                assert(a@.subrange(0, i as int) =~= a@);
            } else {
                if a@.contains(x) && b@.contains(x) {
                    let k = choose|k: int| 0 <= k < a@.len() && a@[k] == x;
                    let m = choose|m: int| 0 <= m < b@.len() && b@[m] == x;
                    assert(b@[m] < a@[i as int]);
                    if k >= i {
                        if k > i {
                            assert(a@[i as int] < a@[k]);
                        }
                    } else {
                        assert(a@.subrange(0, i as int)[k] == x);
                    }
                }
                if a@.subrange(0, i as int).contains(x) {
                    let k = choose|k: int| 0 <= k < i && a@.subrange(0, i as int)[k] == x;
                    assert(a@[k] == x);
                }
            }
        }
    }
    out
}

} // verus!
