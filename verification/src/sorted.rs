//! Strictly sorted sequences of keys: the mathematical model of the
//! retained sample, together with the executable search routine that the
//! estimator uses to keep its vector sorted.

use vstd::prelude::*;

verus! {

/// A strictly increasing sequence: sorted, hence free of duplicates.
pub open spec fn strictly_sorted(s: Seq<u64>) -> bool {
    forall|i: int, j: int| 0 <= i < j < s.len() ==> #[trigger] s[i] < #[trigger] s[j]
}

/// `s` with `x` inserted at its sorted position, or `s` itself if `x`
/// already occurs.
pub open spec fn sorted_insert(s: Seq<u64>, x: u64) -> Seq<u64>
    decreases s.len(),
{
    if s.len() == 0 {
        seq![x]
    } else if x < s[0] {
        seq![x] + s
    } else if x == s[0] {
        s
    } else {
        seq![s[0]] + sorted_insert(s.drop_first(), x)
    }
}

/// `s` with the first occurrence of `x` removed, or `s` itself if `x`
/// does not occur.
pub open spec fn sorted_remove(s: Seq<u64>, x: u64) -> Seq<u64>
    decreases s.len(),
{
    if s.len() == 0 {
        s
    } else if s[0] == x {
        s.drop_first()
    } else {
        seq![s[0]] + sorted_remove(s.drop_first(), x)
    }
}

/// The subsequence of `s` at the positions whose coin came up true.
/// Meaningful when `coins` is at least as long as `s`.
pub open spec fn coin_filter(s: Seq<u64>, coins: Seq<bool>) -> Seq<u64>
    decreases s.len(),
{
    if s.len() == 0 {
        Seq::empty()
    } else if coins.len() == 0 {
        Seq::empty()
    } else {
        (if coins[0] {
            seq![s[0]]
        } else {
            Seq::empty()
        }) + coin_filter(s.drop_first(), coins.drop_first())
    }
}

/// A strictly sorted sequence has no duplicates.
pub proof fn lemma_strictly_sorted_no_duplicates(s: Seq<u64>)
    requires
        strictly_sorted(s),
    ensures
        s.no_duplicates(),
{
    assert forall|i: int, j: int| 0 <= i < s.len() && 0 <= j < s.len() && i != j implies s[i]
        != s[j] by {
        if i < j {
            assert(s[i] < s[j]);
        } else {
            assert(s[j] < s[i]);
        }
    }
}

/// Inserting a key already present returns the sequence unchanged.
pub proof fn lemma_sorted_insert_present(s: Seq<u64>, x: u64)
    requires
        strictly_sorted(s),
        s.contains(x),
    ensures
        sorted_insert(s, x) == s,
    decreases s.len(),
{
    let k = choose|k: int| 0 <= k < s.len() && s[k] == x;
    if s[0] == x {
    } else {
        assert(0 < k);
        assert(s[0] < s[k]);
        assert(s.drop_first()[k - 1] == x);
        assert(s.drop_first().contains(x));
        lemma_sorted_insert_present(s.drop_first(), x);
        assert(seq![s[0]] + s.drop_first() =~= s);
    }
}

/// Inserting at the position `p` that the search routine finds yields
/// exactly the sorted insertion.
pub proof fn lemma_sorted_insert_at(s: Seq<u64>, x: u64, p: int)
    requires
        strictly_sorted(s),
        0 <= p <= s.len(),
        forall|i: int| 0 <= i < p ==> s[i] < x,
        forall|i: int| p <= i < s.len() ==> s[i] > x,
    ensures
        sorted_insert(s, x) == s.insert(p, x),
    decreases s.len(),
{
    if s.len() == 0 {
        assert(sorted_insert(s, x) =~= s.insert(0, x));
    } else if p == 0 {
        assert(x < s[0]);
        assert(seq![x] + s =~= s.insert(0, x));
    } else {
        assert(s[0] < x);
        lemma_sorted_insert_at(s.drop_first(), x, p - 1);
        assert(seq![s[0]] + s.drop_first().insert(p - 1, x) =~= s.insert(p, x));
    }
}

/// Sorted insertion of a fresh key keeps strict sortedness and grows the
/// length by one.
pub proof fn lemma_sorted_insert_fresh(s: Seq<u64>, x: u64, p: int)
    requires
        strictly_sorted(s),
        0 <= p <= s.len(),
        forall|i: int| 0 <= i < p ==> s[i] < x,
        forall|i: int| p <= i < s.len() ==> s[i] > x,
    ensures
        sorted_insert(s, x).len() == s.len() + 1,
        strictly_sorted(sorted_insert(s, x)),
{
    lemma_sorted_insert_at(s, x, p);
    let t = s.insert(p, x);
    assert forall|i: int, j: int| 0 <= i < j < t.len() implies t[i] < t[j] by {
        if i < p && j < p {
        } else if i == p || j == p {
        } else {
        }
    }
}

/// Removing at the position where the key sits yields exactly the sorted
/// removal.
pub proof fn lemma_sorted_remove_at(s: Seq<u64>, x: u64, p: int)
    requires
        strictly_sorted(s),
        0 <= p < s.len(),
        s[p] == x,
    ensures
        sorted_remove(s, x) == s.remove(p),
        strictly_sorted(s.remove(p)),
    decreases s.len(),
{
    assert forall|i: int, j: int| 0 <= i < j < s.remove(p).len() implies s.remove(p)[i] < s.remove(
        p,
    )[j] by {}
    if p == 0 {
        assert(s.drop_first() =~= s.remove(0));
    } else {
        assert(s[0] < s[p]);
        assert(s.drop_first()[p - 1] == x);
        lemma_sorted_remove_at(s.drop_first(), x, p - 1);
        assert(seq![s[0]] + s.drop_first().remove(p - 1) =~= s.remove(p));
    }
}

/// Removing an absent key returns the sequence unchanged.
pub proof fn lemma_sorted_remove_absent(s: Seq<u64>, x: u64)
    requires
        !s.contains(x),
    ensures
        sorted_remove(s, x) == s,
    decreases s.len(),
{
    if s.len() > 0 {
        assert(s[0] != x);
        assert(forall|i: int|
            0 <= i < s.drop_first().len() ==> s.drop_first()[i] == s[i + 1]);
        assert(!s.drop_first().contains(x));
        lemma_sorted_remove_absent(s.drop_first(), x);
        assert(seq![s[0]] + s.drop_first() =~= s);
    }
}

/// The coin filter keeps a subsequence: its length is bounded by the
/// input's and strict sortedness carries over; every survivor occurs in
/// the input.
pub proof fn lemma_coin_filter_shape(s: Seq<u64>, coins: Seq<bool>)
    ensures
        coin_filter(s, coins).len() <= s.len(),
        strictly_sorted(s) ==> strictly_sorted(coin_filter(s, coins)),
        forall|y: u64| coin_filter(s, coins).contains(y) ==> s.contains(y),
    decreases s.len(),
{
    if s.len() == 0 || coins.len() == 0 {
    } else {
        lemma_coin_filter_shape(s.drop_first(), coins.drop_first());
        let rest = coin_filter(s.drop_first(), coins.drop_first());
        assert forall|y: u64| rest.contains(y) implies s.contains(y) by {
            assert(s.drop_first().contains(y));
            let k = choose|k: int| 0 <= k < s.drop_first().len() && s.drop_first()[k] == y;
            assert(s[k + 1] == y);
        }
        if strictly_sorted(s) {
            assert(forall|i: int|
                0 <= i < s.drop_first().len() ==> s.drop_first()[i] == s[i + 1]);
            assert(strictly_sorted(s.drop_first()));
            if coins[0] {
                let f = coin_filter(s, coins);
                assert forall|i: int, j: int| 0 <= i < j < f.len() implies f[i] < f[j] by {
                    if i == 0 {
                        assert(rest.contains(f[j]));
                        assert(s.drop_first().contains(f[j]));
                        let k = choose|k: int|
                            0 <= k < s.drop_first().len() && s.drop_first()[k] == f[j];
                        assert(s[0] < s[k + 1]);
                    }
                }
            }
        }
    }
}

/// Extending both the keys and the coins by one element extends the
/// filtered subsequence accordingly.
pub proof fn lemma_coin_filter_push(s: Seq<u64>, coins: Seq<bool>, x: u64, b: bool)
    requires
        coins.len() == s.len(),
    ensures
        coin_filter(s.push(x), coins.push(b)) == coin_filter(s, coins) + (if b {
            seq![x]
        } else {
            Seq::<u64>::empty()
        }),
    decreases s.len(),
{
    if s.len() == 0 {
        assert(s.push(x)[0] == x);
        assert(coins.push(b)[0] == b);
        assert(s.push(x).drop_first().len() == 0);
        assert(coin_filter(s.push(x).drop_first(), coins.push(b).drop_first())
            == Seq::<u64>::empty());
        assert(coin_filter(s, coins) == Seq::<u64>::empty());
        assert(coin_filter(s.push(x), coins.push(b)) =~= coin_filter(s, coins) + (if b {
            seq![x]
        } else {
            Seq::<u64>::empty()
        }));
    } else {
        assert(s.push(x).drop_first() =~= s.drop_first().push(x));
        assert(coins.push(b).drop_first() =~= coins.drop_first().push(b));
        lemma_coin_filter_push(s.drop_first(), coins.drop_first(), x, b);
        assert(s.push(x)[0] == s[0]);
        assert(coins.push(b)[0] == coins[0]);
        let head: Seq<u64> = if coins[0] {
            seq![s[0]]
        } else {
            Seq::<u64>::empty()
        };
        let tail: Seq<u64> = if b {
            seq![x]
        } else {
            Seq::<u64>::empty()
        };
        let rest = coin_filter(s.drop_first(), coins.drop_first());
        assert(coin_filter(s.push(x), coins.push(b)) == head + (rest + tail));
        assert(coin_filter(s, coins) == head + rest);
        assert(head + (rest + tail) =~= (head + rest) + tail);
    }
}

/// The least index whose key is not below `x` in a strictly sorted
/// vector, found by binary search.
pub fn lower_bound(v: &Vec<u64>, x: u64) -> (p: usize)
    requires
        strictly_sorted(v@),
    ensures
        p <= v@.len(),
        forall|i: int| 0 <= i < p ==> v@[i] < x,
        forall|i: int| p <= i < v@.len() ==> v@[i] >= x,
{
    let mut lo: usize = 0;
    let mut hi: usize = v.len();
    while lo < hi
        invariant
            lo <= hi <= v@.len(),
            strictly_sorted(v@),
            forall|i: int| 0 <= i < lo ==> v@[i] < x,
            forall|i: int| hi <= i < v@.len() ==> v@[i] >= x,
        decreases hi - lo,
    {
        let mid = lo + (hi - lo) / 2;
        if v[mid] < x {
            assert forall|i: int| 0 <= i < mid + 1 implies v@[i] < x by {
                if i < mid {
                    assert(v@[i] < v@[mid as int]);
                }
            }
            lo = mid + 1;
        } else {
            assert forall|i: int| mid <= i < v@.len() implies v@[i] >= x by {
                if i > mid {
                    assert(v@[mid as int] < v@[i]);
                }
            }
            hi = mid;
        }
    }
    lo
}

} // verus!
