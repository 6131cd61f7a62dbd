//! Putting things in order.
use vstd::prelude::*;

verus! {

/// Does place `a` come before place `b` in the stable order of these keys: the
/// smaller key first, and of two equal ones the one that stood first?
pub open spec fn before(keys: Seq<int>, a: int, b: int) -> bool {
    keys[a] < keys[b] || (keys[a] == keys[b] && a < b)
}

/// Is `r` the stable order of the keys: every place once, each before the next?
/// There is exactly one such sequence.
pub open spec fn is_order(keys: Seq<int>, r: Seq<int>) -> bool {
    &&& r.len() == keys.len()
    &&& forall|i: int| 0 <= i < r.len() ==> 0 <= #[trigger] r[i] < keys.len()
    &&& forall|i: int, j: int| 0 <= i < j < r.len() ==> #[trigger] before(keys, r[i], r[j])
}

/// The places of the keys in their stable order.
pub open spec fn ordered(keys: Seq<int>) -> Seq<int> {
    choose|r: Seq<int>| is_order(keys, r)
}

pub open spec fn ints(v: Seq<i128>) -> Seq<int> {
    v.map_values(|k: i128| k as int)
}

pub open spec fn places(v: Seq<usize>) -> Seq<int> {
    v.map_values(|k: usize| k as int)
}

/// The stable order of the first `n` keys, as far as it has been built.
spec fn built(keys: Seq<int>, r: Seq<int>, n: int) -> bool {
    &&& r.len() == n
    &&& forall|i: int| 0 <= i < r.len() ==> 0 <= #[trigger] r[i] < n
    &&& forall|i: int, j: int| 0 <= i < j < r.len() ==> #[trigger] before(keys, r[i], r[j])
}

/// The places of the keys in their stable order, smallest first.
pub fn order(keys: &Vec<i128>) -> (r: Vec<usize>)
    ensures
        places(r@) == ordered(ints(keys@)),
        is_order(ints(keys@), places(r@)),
{
    let ghost ks = ints(keys@);
    let mut out: Vec<usize> = Vec::new();
    let mut n: usize = 0;
    while n < keys.len()
        invariant
            n <= keys@.len(),
            ks == ints(keys@),
            built(ks, places(out@), n as int),
            forall|i: int| 0 <= i < out@.len() ==> #[trigger] out@[i] < n,
        decreases keys@.len() - n,
    {
        // the place behind every one that comes before this key
        let mut at: usize = out.len();
        while at > 0 && keys[out[at - 1]] > keys[n]
            invariant
                n < keys@.len(),
                at <= out@.len() == n,
                ks == ints(keys@),
                built(ks, places(out@), n as int),
                forall|i: int| 0 <= i < out@.len() ==> #[trigger] out@[i] < n,
                forall|i: int| at <= i < out@.len() ==> before(ks, n as int, #[trigger] places(out@)[i]),
            decreases at,
        {
            assert(places(out@)[at - 1] == out@[at - 1]);
            at = at - 1;
        }
        let ghost was = places(out@);
        proof {
            assert forall|i: int| 0 <= i < at implies before(ks, #[trigger] was[i], n as int) by {
                if i < at - 1 {
                    assert(before(ks, was[i], was[at - 1]));
                }
                assert(was[at - 1] == out@[at - 1]);
                assert(ks[was[at - 1]] <= ks[n as int]);
            }
        }
        out.insert(at, n);
        proof {
            let now = places(out@);
            assert(now =~= was.insert(at as int, n as int));
            assert forall|i: int| 0 <= i < now.len() implies 0 <= #[trigger] now[i] < n + 1 by {
                if i < at {
                    assert(now[i] == was[i]);
                } else if i > at {
                    assert(now[i] == was[i - 1]);
                }
            }
            assert forall|i: int, j: int| 0 <= i < j < now.len() implies #[trigger] before(
                ks,
                now[i],
                now[j],
            ) by {
                if j < at {
                    assert(before(ks, was[i], was[j]));
                } else if j == at {
                    assert(before(ks, was[i], n as int));
                } else if i < at {
                    assert(before(ks, was[i], was[j - 1]));
                } else if i == at {
                    assert(before(ks, n as int, was[j - 1]));
                } else {
                    assert(before(ks, was[i - 1], was[j - 1]));
                }
            }
        }
        n = n + 1;
    }
    proof {
        lemma_order_unique(ks, places(out@), ordered(ks));
    }
    out
}

/// Two orders of the same keys are the same.
pub proof fn lemma_order_unique(keys: Seq<int>, a: Seq<int>, b: Seq<int>)
    requires
        is_order(keys, a),
        is_order(keys, b),
    ensures
        a == b,
    decreases keys.len(),
{
    lemma_order_total(keys, a);
    lemma_order_total(keys, b);
    assert forall|i: int| 0 <= i < a.len() implies a[i] == b[i] by {
        lemma_order_at(keys, a, b, i);
    }
    assert(a =~= b);
}

/// How many of the first `n` places of a sequence stand before a place, if they are
/// in order: all up to the last whose key is not greater.
spec fn ahead_of(keys: Seq<int>, r: Seq<int>, n: int, p: int) -> int
    decreases n,
{
    if n > 0 && keys[r[n - 1]] > keys[p] {
        ahead_of(keys, r, n - 1, p)
    } else {
        n
    }
}

proof fn lemma_ahead_of(keys: Seq<int>, r: Seq<int>, n: int, p: int)
    requires
        built(keys, r, p),
        0 <= n <= r.len(),
        forall|i: int| n <= i < r.len() ==> before(keys, p, #[trigger] r[i]),
    ensures
        0 <= ahead_of(keys, r, n, p) <= r.len(),
        forall|i: int|
            ahead_of(keys, r, n, p) <= i < r.len() ==> before(keys, p, #[trigger] r[i]),
        forall|i: int| 0 <= i < ahead_of(keys, r, n, p) ==> before(keys, #[trigger] r[i], p),
    decreases n,
{
    if n > 0 && keys[r[n - 1]] > keys[p] {
        lemma_ahead_of(keys, r, n - 1, p);
    } else {
        assert forall|i: int| 0 <= i < n implies before(keys, #[trigger] r[i], p) by {
            if i < n - 1 {
                assert(before(keys, r[i], r[n - 1]));
            }
            assert(0 <= r[n - 1] < p);
        }
    }
}

proof fn lemma_built(keys: Seq<int>, n: int) -> (r: Seq<int>)
    requires
        0 <= n <= keys.len(),
    ensures
        built(keys, r, n),
    decreases n,
{
    if n == 0 {
        Seq::empty()
    } else {
        let p = n - 1;
        let was = lemma_built(keys, p);
        let at = ahead_of(keys, was, was.len() as int, p);
        lemma_ahead_of(keys, was, was.len() as int, p);
        let now = was.insert(at, p);
        assert forall|i: int| 0 <= i < now.len() implies 0 <= #[trigger] now[i] < n by {
            if i < at {
                assert(now[i] == was[i]);
            } else if i > at {
                assert(now[i] == was[i - 1]);
            }
        }
        assert forall|i: int, j: int| 0 <= i < j < now.len() implies #[trigger] before(
            keys,
            now[i],
            now[j],
        ) by {
            if j < at {
                assert(before(keys, was[i], was[j]));
            } else if j == at {
                assert(before(keys, was[i], p));
            } else if i < at {
                assert(before(keys, was[i], was[j - 1]));
            } else if i == at {
                assert(before(keys, p, was[j - 1]));
            } else {
                assert(before(keys, was[i - 1], was[j - 1]));
            }
        }
        now
    }
}

/// Any keys have an order, in which every place stands once.
pub proof fn lemma_ordered(keys: Seq<int>)
    ensures
        is_order(keys, ordered(keys)),
        forall|p: int| 0 <= p < keys.len() ==> #[trigger] ordered(keys).contains(p),
{
    let r = lemma_built(keys, keys.len() as int);
    assert(is_order(keys, r));
    lemma_order_total(keys, ordered(keys));
}

/// Every place stands somewhere in an order.
proof fn lemma_order_total(keys: Seq<int>, r: Seq<int>)
    requires
        is_order(keys, r),
    ensures
        forall|p: int| 0 <= p < keys.len() ==> r.contains(p),
{
    assert(r.no_duplicates()) by {
        assert forall|i: int, j: int| 0 <= i < r.len() && 0 <= j < r.len() && i != j implies r[i]
            != r[j] by {
            if i < j {
                assert(before(keys, r[i], r[j]));
            } else {
                assert(before(keys, r[j], r[i]));
            }
        }
    }
    let all = Seq::new(keys.len(), |i: int| i);
    assert(all.no_duplicates());
    let s = r.to_set();
    let t = all.to_set();
    r.unique_seq_to_set();
    all.unique_seq_to_set();
    assert(s.subset_of(t)) by {
        assert forall|p: int| s.contains(p) implies t.contains(p) by {
            let i = choose|i: int| 0 <= i < r.len() && r[i] == p;
            assert(all[p] == p);
        }
    }
    vstd::set_lib::lemma_subset_equality(s, t);
    assert forall|p: int| 0 <= p < keys.len() implies r.contains(p) by {
        assert(all[p] == p);
        assert(t.contains(p));
        assert(s.contains(p));
    }
}

/// Two orders agree at every place.
proof fn lemma_order_at(keys: Seq<int>, a: Seq<int>, b: Seq<int>, i: int)
    requires
        is_order(keys, a),
        is_order(keys, b),
        forall|p: int| 0 <= p < keys.len() ==> a.contains(p),
        forall|p: int| 0 <= p < keys.len() ==> b.contains(p),
        0 <= i < a.len(),
    ensures
        a[i] == b[i],
    decreases i,
{
    if i > 0 {
        assert forall|k: int| 0 <= k < i implies a[k] == b[k] by {
            lemma_order_at(keys, a, b, k);
        }
    }
    assert(b.contains(a[i]));
    let j = choose|j: int| 0 <= j < b.len() && b[j] == a[i];
    assert(a.contains(b[i]));
    let k = choose|k: int| 0 <= k < a.len() && a[k] == b[i];
    if j < i {
        assert(a[j] == b[j]);
        assert(before(keys, a[j], a[i]));
    }
    if k < i {
        assert(a[k] == b[k]);
        assert(before(keys, b[k], b[i]));
    }
    if j > i && k > i {
        assert(before(keys, b[i], b[j]));
        assert(before(keys, a[i], a[k]));
    }
}

pub open spec fn numbers(v: Seq<i32>) -> Seq<int> {
    v.map_values(|n: i32| n as int)
}

/// The numbers from the smallest up.
pub open spec fn ascending(v: Seq<i32>) -> Seq<i32> {
    Seq::new(v.len(), |i: int| v[ordered(numbers(v))[i]])
}

/// The numbers from the smallest up.
pub fn sort(v: &Vec<i32>) -> (r: Vec<i32>)
    ensures
        r@ == ascending(v@),
        forall|i: int, j: int| 0 <= i < j < r@.len() ==> r@[i] <= r@[j],
{
    let mut keys: Vec<i128> = Vec::new();
    let mut i: usize = 0;
    while i < v.len()
        invariant
            i <= v@.len(),
            keys@.len() == i,
            forall|k: int| 0 <= k < i ==> #[trigger] keys@[k] == v@[k],
        decreases v@.len() - i,
    {
        keys.push(v[i] as i128);
        i = i + 1;
    }
    assert(ints(keys@) =~= numbers(v@));
    let at = order(&keys);
    let ghost place = places(at@);
    let mut out: Vec<i32> = Vec::new();
    let mut k: usize = 0;
    while k < at.len()
        invariant
            k <= at@.len(),
            place == places(at@),
            place == ordered(numbers(v@)),
            is_order(numbers(v@), place),
            out@.len() == k,
            forall|j: int| 0 <= j < k ==> #[trigger] out@[j] == v@[place[j]],
        decreases at@.len() - k,
    {
        assert(place[k as int] == at@[k as int]);
        assert(numbers(v@).len() == v@.len());
        out.push(v[at[k]]);
        k = k + 1;
    }
    assert(out@ =~= ascending(v@));
    assert forall|i: int, j: int| 0 <= i < j < out@.len() implies out@[i] <= out@[j] by {
        assert(before(numbers(v@), place[i], place[j]));
    }
    out
}

} // verus!
