//! A stable sort from the largest key to the smallest.

use vstd::prelude::*;

verus! {

/// Position `i` goes before position `j` in the order by descending key:
/// the larger key first, and between equal keys the earlier position.
pub open spec fn goes_before(keys: Seq<i64>, i: int, j: int) -> bool {
    keys[i] > keys[j] || (keys[i] == keys[j] && i < j)
}

/// `p` lists each of the positions `0..n` exactly once.
pub open spec fn is_permutation(p: Seq<int>, n: int) -> bool {
    &&& p.len() == n
    &&& forall|i: int| 0 <= i < n ==> 0 <= #[trigger] p[i] < n
    &&& forall|i: int, j: int| 0 <= i < j < n ==> p[i] != p[j]
    &&& forall|j: int| 0 <= j < n ==> #[trigger] lists(p, j)
}

/// Position `j` appears in `p`.
pub open spec fn lists(p: Seq<int>, j: int) -> bool {
    exists|i: int| 0 <= i < p.len() && #[trigger] p[i] == j
}

/// `p` lists positions in the order by descending key.
pub open spec fn in_descending_order(keys: Seq<i64>, p: Seq<int>) -> bool {
    forall|i: int, j: int| 0 <= i < j < p.len() ==> goes_before(keys, #[trigger] p[i], #[trigger] p[j])
}

/// `items` ordered from the largest key to the smallest, items with equal
/// keys keeping their order (`sort_by_key` with `Reverse` of the key).
pub fn sort_desc_by_key<T>(items: Vec<T>, keys: &Vec<i64>) -> (r: Vec<T>)
    requires
        items.len() == keys.len(),
    ensures
        exists|p: Seq<int>|
            {
                &&& is_permutation(p, items@.len() as int)
                &&& in_descending_order(keys@, p)
                &&& r@.len() == items@.len()
                &&& forall|i: int| 0 <= i < r@.len() ==> r@[i] == items@[#[trigger] p[i]]
            },
{
    let ghost input = items@;
    let n = items.len();
    let mut rest = items;
    let mut out: Vec<T> = Vec::new();
    let mut out_keys: Vec<i64> = Vec::new();
    let ghost mut order: Seq<int> = Seq::empty();
    let mut i: usize = 0;
    while i < n
        invariant
            n == keys@.len(),
            n == input.len(),
            i <= n,
            rest@ == input.skip(i as int),
            order.len() == i,
            out@.len() == i,
            out_keys@.len() == i,
            forall|a: int| 0 <= a < i ==> 0 <= #[trigger] order[a] < i,
            forall|a: int, b: int| 0 <= a < b < i ==> order[a] != order[b],
            forall|b: int| 0 <= b < i ==> #[trigger] lists(order, b),
            in_descending_order(keys@, order),
            forall|a: int| 0 <= a < i ==> out@[a] == input[#[trigger] order[a]],
            forall|a: int| 0 <= a < i ==> out_keys@[a] == keys@[#[trigger] order[a]],
        decreases n - i,
    {
        let item = rest.remove(0);
        let key = keys[i];
        proof {
            assert(item == input[i as int]);
            assert(rest@ =~= input.skip(i + 1));
        }
        let mut p: usize = 0;
        while p < i && out_keys[p] >= key
            invariant
                i < n,
                n == keys@.len(),
                key == keys@[i as int],
                p <= i,
                out_keys@.len() == i,
                forall|a: int| 0 <= a < p ==> out_keys@[a] >= key,
            decreases i - p,
        {
            p = p + 1;
        }
        let ghost old_order = order;
        let ghost old_out = out@;
        let ghost old_keys = out_keys@;
        out.insert(p, item);
        out_keys.insert(p, key);
        proof {
            order = old_order.insert(p as int, i as int);
            assert forall|a: int, b: int| 0 <= a < b < i + 1 implies goes_before(
                keys@,
                #[trigger] order[a],
                #[trigger] order[b],
            ) by {
                if a < p && b == p {
                    assert(old_keys[a] >= key);
                    assert(old_order[a] < i);
                } else if a == p && b > p {
                    assert(old_keys[b - 1] < key) by {
                        if old_keys[b - 1] >= key {
                            assert(p < i);
                            assert(old_keys[p as int] < key);
                            assert(goes_before(keys@, old_order[p as int], old_order[b - 1]));
                        }
                    }
                } else if a < p && b > p {
                    assert(goes_before(keys@, old_order[a], old_order[b - 1]));
                } else if b < p {
                    assert(goes_before(keys@, old_order[a], old_order[b]));
                } else {
                    assert(goes_before(keys@, old_order[a - 1], old_order[b - 1]));
                }
            }
            assert forall|a: int| 0 <= a < i + 1 implies out@[a] == input[#[trigger] order[a]] by {
                if a < p {
                    assert(out@[a] == old_out[a]);
                } else if a > p {
                    assert(out@[a] == old_out[a - 1]);
                }
            }
            assert forall|a: int| 0 <= a < i + 1 implies out_keys@[a] == keys@[#[trigger] order[a]] by {
                if a < p {
                    assert(out_keys@[a] == old_keys[a]);
                } else if a > p {
                    assert(out_keys@[a] == old_keys[a - 1]);
                }
            }
            assert forall|b: int| 0 <= b < i + 1 implies #[trigger] lists(order, b) by {
                if b == i {
                    assert(order[p as int] == b);
                } else {
                    assert(lists(old_order, b));
                    let a = choose|a: int| 0 <= a < old_order.len() && #[trigger] old_order[a] == b;
                    if a < p {
                        assert(order[a] == b);
                    } else {
                        assert(order[a + 1] == b);
                    }
                }
            }
            assert forall|a: int, b: int| 0 <= a < b < i + 1 implies order[a] != order[b] by {
                if a < p && b > p {
                    assert(old_order[a] != old_order[b - 1]);
                } else if b < p {
                    assert(old_order[a] != old_order[b]);
                } else if a > p {
                    assert(old_order[a - 1] != old_order[b - 1]);
                } else if a == p {
                    assert(old_order[b - 1] < i);
                } else {
                    assert(old_order[a] < i);
                }
            }
        }
        i = i + 1;
    }
    proof {
        assert(is_permutation(order, n as int));
    }
    out
}


proof fn first_difference(p: Seq<int>, q: Seq<int>, start: int, n: int) -> (f: int)
    requires
        0 <= start < n,
        exists|i: int| start <= i < n && p[i] != q[i],
    ensures
        start <= f < n,
        p[f] != q[f],
        forall|h: int| start <= h < f ==> p[h] == q[h],
    decreases n - start,
{
    if p[start] != q[start] {
        start
    } else {
        let w = choose|i: int| start <= i < n && p[i] != q[i];
        assert(w > start);
        first_difference(p, q, start + 1, n)
    }
}

/// There is one order by descending key: two listings of the positions
/// `0..n` that both follow it are the same, so the sort's result is the one
/// and only stable descending arrangement.
pub proof fn lemma_descending_order_unique(keys: Seq<i64>, p: Seq<int>, q: Seq<int>, n: int)
    requires
        is_permutation(p, n),
        is_permutation(q, n),
        in_descending_order(keys, p),
        in_descending_order(keys, q),
    ensures
        p == q,
{
    if exists|i: int| 0 <= i < n && p[i] != q[i] {
        let f = first_difference(p, q, 0, n);
        let a = p[f];
        let b = q[f];
        assert(lists(q, a));
        let j = choose|j: int| 0 <= j < q.len() && #[trigger] q[j] == a;
        if j < f {
            assert(p[j] == a);
        }
        assert(j > f);
        assert(goes_before(keys, q[f], q[j]));
        assert(lists(p, b));
        let k = choose|k: int| 0 <= k < p.len() && #[trigger] p[k] == b;
        if k < f {
            assert(q[k] == b);
        }
        assert(k > f);
        assert(goes_before(keys, p[f], p[k]));
    }
    assert(p =~= q);
}

} // verus!
