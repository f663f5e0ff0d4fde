//! The distinct-count estimator: a retained sample of at most
//! `capacity` keys, a compaction round counter, and the estimate
//! `sample size * 2^round`.
//!
//! One insertion runs a retention trial that succeeds with probability
//! `2^-round` (certain at round 0): on success the key enters the sample,
//! on failure it is evicted if present.  When the sample then holds
//! exactly `capacity` keys a compaction fires: every key survives an
//! independent fair coin flip, the round advances by one, and if every
//! coin succeeded the largest key is discarded so that the sample
//! strictly shrinks.  The sample is kept as a strictly sorted vector,
//! and the coins of a compaction are drawn from the largest key
//! downward, so runs are reproducible with a deterministic source.

use vstd::prelude::*;
use vstd::arithmetic::power2::{pow2, lemma_pow2_adds, lemma_pow2_strictly_increases, lemma2_to64};

use crate::sorted::{
    strictly_sorted, sorted_insert, sorted_remove, coin_filter, lower_bound,
    lemma_strictly_sorted_no_duplicates, lemma_sorted_insert_present, lemma_sorted_insert_at,
    lemma_sorted_insert_fresh, lemma_sorted_remove_at, lemma_sorted_remove_absent,
    lemma_coin_filter_shape, lemma_coin_filter_push,
};
use crate::unlikely;

verus! {

/// A source of retention trials for the estimator.  `keep(round)` must
/// hold with probability `2^-round`; nothing about its outcomes is
/// assumed in the contracts, which hold for every sequence of answers.
pub trait RandomSource {
    /// One retention trial: true with probability `2^-round`.
    fn keep(&mut self, round: usize) -> bool;
}

/// The abstract state of an estimator: the fixed capacity, the number of
/// compactions performed, and the retained sample in increasing order.
#[verifier::ext_equal]
pub ghost struct CmvView {
    pub capacity: nat,
    pub round: nat,
    pub sample: Seq<u64>,
}

/// Well-formed estimator state: positive capacity, a strictly sorted
/// sample, and strictly fewer retained keys than the capacity.
pub open spec fn inv(v: CmvView) -> bool {
    &&& v.capacity >= 1
    &&& strictly_sorted(v.sample)
    &&& v.sample.len() < v.capacity
}

/// The sample after the retention trial of one insertion: the key is
/// added on a successful trial and evicted on a failed one.
pub open spec fn stepped(sample: Seq<u64>, item: u64, keep: bool) -> Seq<u64> {
    if keep {
        sorted_insert(sample, item)
    } else {
        sorted_remove(sample, item)
    }
}

/// The sample after a compaction: each key survives by its own coin, and
/// if every coin succeeded the last (largest) key is discarded so that
/// the sample strictly shrinks.
pub open spec fn compacted(mid: Seq<u64>, coins: Seq<bool>) -> Seq<u64> {
    let kept = coin_filter(mid, coins);
    if kept.len() == mid.len() {
        kept.drop_last()
    } else {
        kept
    }
}

/// One insert call as a relation between abstract states, given the
/// retention trial's outcome and the halving coins it consumed.  The
/// round advances exactly when the trial leaves the sample holding
/// `capacity` keys.
pub open spec fn inserted(
    pre: CmvView,
    item: u64,
    keep: bool,
    coins: Seq<bool>,
    post: CmvView,
) -> bool {
    let mid = stepped(pre.sample, item, keep);
    &&& post.capacity == pre.capacity
    &&& if mid.len() == pre.capacity {
        &&& coins.len() == mid.len()
        &&& post.round == pre.round + 1
        &&& post.sample == compacted(mid, coins)
    } else {
        &&& post.round == pre.round
        &&& post.sample == mid
    }
}

/// The distinct-count estimate of a state: sample size times `2^round`.
pub open spec fn estimate(v: CmvView) -> nat {
    v.sample.len() * pow2(v.round)
}

/// The error returned when an estimator is asked for with capacity zero.
#[derive(Debug, PartialEq, Eq, Structural)]
pub struct InvalidCapacity;

/// A bounded-memory estimator of the number of distinct keys inserted.
pub struct Cmv {
    capacity: usize,
    round: usize,
    sample: Vec<u64>,
}

impl View for Cmv {
    type V = CmvView;

    closed spec fn view(&self) -> CmvView {
        CmvView {
            capacity: self.capacity as nat,
            round: self.round as nat,
            sample: self.sample@,
        }
    }
}

impl Cmv {
    /// Well-formed estimator; established at construction and preserved
    /// by every operation.
    pub open spec fn wf(&self) -> bool {
        inv(self@)
    }

    /// Create an estimator with the given capacity, an empty sample and
    /// round 0.
    pub fn with_capacity(capacity: usize) -> (r: Self)
        requires
            capacity >= 1,
        ensures
            r.wf(),
            r@.capacity == capacity,
            r@.round == 0,
            r@.sample == Seq::<u64>::empty(),
    {
        Cmv { capacity, round: 0, sample: Vec::new() }
    }

    /// Create an estimator, rejecting a zero capacity.
    pub fn try_with_capacity(capacity: usize) -> (r: Result<Self, InvalidCapacity>)
        ensures
            r is Ok <==> capacity >= 1,
            r matches Ok(e) ==> e.wf() && e@.capacity == capacity && e@.round == 0 && e@.sample
                == Seq::<u64>::empty(),
    {
        if capacity == 0 {
            Err(InvalidCapacity)
        } else {
            Ok(Self::with_capacity(capacity))
        }
    }

    /// The number of compactions performed so far.
    pub fn round(&self) -> (r: usize)
        ensures
            r as nat == self@.round,
    {
        self.round
    }

    /// The number of keys physically retained; at most the capacity, and
    /// not itself the distinct-count estimate once the round is positive.
    pub fn sample_size(&self) -> (r: usize)
        ensures
            r as nat == self@.sample.len(),
            self.wf() ==> r as nat == self@.sample.to_set().len(),
    {
        proof {
            if self.wf() {
                lemma_strictly_sorted_no_duplicates(self@.sample);
                self@.sample.unique_seq_to_set();
            }
        }
        self.sample.len()
    }

    /// The distinct-count estimate, `sample size * 2^round`, computed in
    /// 128-bit arithmetic and saturating at `u128::MAX` (which no
    /// physically realizable stream reaches).
    pub fn count(&self) -> (r: u128)
        ensures
            estimate(self@) <= u128::MAX ==> r as nat == estimate(self@),
            estimate(self@) > u128::MAX ==> r == u128::MAX,
    {
        let len = self.sample.len();
        let mut r: u128 = len as u128;
        let mut i: usize = 0;
        proof {
            lemma2_to64();
        }
        while i < self.round
            invariant
                i <= self@.round,
                r as nat == self@.sample.len() * pow2(i as nat),
            decreases self@.round - i,
        {
            if r > u128::MAX / 2 {
                proof {
                    let l = self@.sample.len();
                    let d = (self@.round - i) as nat;
                    lemma2_to64();
                    lemma_pow2_adds(i as nat, d);
                    lemma_pow2_strictly_increases(0, d);
                    assert(pow2(0) == 1);
                    assert(pow2(d) >= 2);
                    assert(l * pow2(self@.round) > u128::MAX) by (nonlinear_arith)
                        requires
                            pow2(self@.round) == pow2(i as nat) * pow2(d),
                            pow2(d) >= 2,
                            l * pow2(i as nat) > u128::MAX as nat / 2,
                            u128::MAX as nat / 2 == (u128::MAX as nat - 1) / 2,
                    ;
                }
                return u128::MAX;
            }
            proof {
                let l = self@.sample.len();
                lemma2_to64();
                lemma_pow2_adds(i as nat, 1);
                assert(pow2(1) == 2);
                assert(l * pow2((i + 1) as nat) == 2 * (l * pow2(i as nat))) by (nonlinear_arith)
                    requires
                        pow2((i + 1) as nat) == pow2(i as nat) * 2,
                ;
            }
            r = r * 2;
            i = i + 1;
        }
        r
    }

    /// Apply the retention trial's outcome: add the key on a successful
    /// trial, evict it on a failed one.
    fn apply_trial(&mut self, item: u64, keep: bool)
        requires
            strictly_sorted(old(self)@.sample),
        ensures
            final(self)@.capacity == old(self)@.capacity,
            final(self)@.round == old(self)@.round,
            final(self)@.sample == stepped(old(self)@.sample, item, keep),
            strictly_sorted(final(self)@.sample),
            final(self)@.sample.len() <= old(self)@.sample.len() + 1,
    {
        let ghost s = self@.sample;
        let p = lower_bound(&self.sample, item);
        let present = p < self.sample.len() && self.sample[p] == item;
        proof {
            if !present {
                assert forall|i: int| p <= i < s.len() implies s[i] > item by {
                    if i > p {
                        assert(s[p as int] < s[i]);
                    }
                }
                assert forall|i: int| 0 <= i < s.len() implies s[i] != item by {}
                assert(!s.contains(item));
            } else {
                assert(s[p as int] == item);
                assert(s.contains(item));
            }
        }
        if unlikely(keep) {
            if !present {
                proof {
                    lemma_sorted_insert_at(s, item, p as int);
                    lemma_sorted_insert_fresh(s, item, p as int);
                }
                self.sample.insert(p, item);
            } else {
                proof {
                    lemma_sorted_insert_present(s, item);
                }
            }
        } else {
            if present {
                proof {
                    lemma_sorted_remove_at(s, item, p as int);
                }
                self.sample.remove(p);
            } else {
                proof {
                    lemma_sorted_remove_absent(s, item);
                }
            }
        }
    }

    /// Halve the full sample: every key survives an independent coin
    /// flip, drawn from the largest key downward, the round advances,
    /// and if all survived the largest key is discarded so that the
    /// sample strictly shrinks.
    fn compact<R: RandomSource>(&mut self, rng: &mut R)
        requires
            strictly_sorted(old(self)@.sample),
            old(self)@.sample.len() == old(self)@.capacity,
            old(self)@.capacity >= 1,
            old(self)@.round < usize::MAX,
        ensures
            final(self)@.capacity == old(self)@.capacity,
            final(self)@.round == old(self)@.round + 1,
            strictly_sorted(final(self)@.sample),
            final(self)@.sample.len() < final(self)@.capacity,
            exists|coins: Seq<bool>|
                coins.len() == old(self)@.sample.len() && final(self)@.sample == #[trigger] compacted(
                    old(self)@.sample,
                    coins,
                ),
    {
        let ghost orig: Seq<u64> = self@.sample;
        let n = self.sample.len();
        let mut flips: Vec<bool> = Vec::new();
        let mut j: usize = 0;
        while j < n
            invariant
                j <= n,
                flips@.len() == j,
            decreases n - j,
        {
            let c = rng.keep(1);
            flips.push(c);
            j = j + 1;
        }
        let ghost mut coins: Seq<bool> = Seq::empty();
        let mut kept: Vec<u64> = Vec::new();
        let mut i: usize = 0;
        while i < n
            invariant
                n == orig.len(),
                flips@.len() == n,
                self.sample@ == orig,
                self.capacity == old(self).capacity,
                self.round == old(self).round,
                i <= n,
                coins.len() == i as nat,
                kept@ == coin_filter(orig.take(i as int), coins),
                kept@.len() <= i,
            decreases n - i,
        {
            let c = flips[n - 1 - i];
            let item = self.sample[i];
            proof {
                assert(orig.take((i + 1) as int) =~= orig.take(i as int).push(item));
                lemma_coin_filter_push(orig.take(i as int), coins, item, c);
            }
            if unlikely(c) {
                kept.push(item);
            } else {
                proof {
                    assert(kept@ + Seq::<u64>::empty() =~= kept@);
                }
            }
            proof {
                coins = coins.push(c);
            }
            i = i + 1;
        }
        proof {
            assert(orig.take(n as int) =~= orig);
            lemma_coin_filter_shape(orig, coins);
        }
        if kept.len() == self.capacity {
            let m = kept.len();
            kept.truncate(m - 1);
            proof {
                assert(coin_filter(orig, coins).take(m - 1) =~= coin_filter(
                    orig,
                    coins,
                ).drop_last());
                assert(kept@ == compacted(orig, coins));
            }
        } else {
            proof {
                assert(kept@.len() != orig.len());
                assert(kept@ == compacted(orig, coins));
            }
        }
        proof {
            assert forall|a: int, b: int|
                0 <= a < b < kept@.len() implies kept@[a] < kept@[b] by {
                assert(coin_filter(orig, coins)[a] < coin_filter(orig, coins)[b]);
            }
        }
        self.sample = kept;
        self.round = self.round + 1;
        proof {
            assert(coins.len() == orig.len());
            assert(self@.sample == compacted(orig, coins));
        }
    }

    /// Insert one stream element.  Runs one retention trial (certain at
    /// round 0), then compacts if the sample has reached the capacity.
    /// The contract pins the new state exactly as a function of the old
    /// state, the key, and the random outcomes consumed.  The round
    /// counter must have headroom; since a compaction consumes at least
    /// one insertion, a stream can never exhaust it in practice.
    pub fn insert<R: RandomSource>(&mut self, item: u64, rng: &mut R)
        requires
            old(self).wf(),
            old(self)@.round < usize::MAX,
        ensures
            final(self).wf(),
            final(self)@.capacity == old(self)@.capacity,
            final(self)@.sample.len() < final(self)@.capacity,
            old(self)@.round <= final(self)@.round <= old(self)@.round + 1,
            exists|keep: bool, coins: Seq<bool>|
                #[trigger] inserted(old(self)@, item, keep, coins, final(self)@),
            old(self)@.round == 0 ==> exists|coins: Seq<bool>|
                #[trigger] inserted(old(self)@, item, true, coins, final(self)@),
    {
        let ghost pre = self@;
        let keep = if self.round == 0 {
            true
        } else {
            rng.keep(self.round)
        };
        self.apply_trial(item, keep);
        if self.sample.len() == self.capacity {
            let ghost mid = self@;
            self.compact(rng);
            proof {
                let coins = choose|coins: Seq<bool>|
                    coins.len() == mid.sample.len() && self@.sample == #[trigger] compacted(
                        mid.sample,
                        coins,
                    );
                assert(inserted(pre, item, keep, coins, self@));
            }
        } else {
            proof {
                assert(inserted(pre, item, keep, Seq::<bool>::empty(), self@));
            }
        }
    }
}

/// Law: the insert transition is deterministic.  Two estimators in equal
/// states that are fed the same key and consume the same trial outcome
/// and halving coins end in equal states; with a fixed, seeded
/// randomness source, whole runs are therefore reproducible.
pub proof fn lemma_insert_deterministic(
    pre: CmvView,
    item: u64,
    keep: bool,
    coins: Seq<bool>,
    post1: CmvView,
    post2: CmvView,
)
    requires
        inserted(pre, item, keep, coins, post1),
        inserted(pre, item, keep, coins, post2),
    ensures
        post1 == post2,
{
    assert(post1 =~= post2);
}

/// Law: membership is idempotent.  Inserting a key already in the sample
/// with a successful trial leaves the sample unchanged, while a failed
/// trial for that same key evicts it.
pub proof fn lemma_duplicate_insert(sample: Seq<u64>, item: u64)
    requires
        strictly_sorted(sample),
        sample.contains(item),
    ensures
        stepped(sample, item, true) == sample,
        stepped(sample, item, false).len() == sample.len() - 1,
{
    lemma_sorted_insert_present(sample, item);
    let k = choose|k: int| 0 <= k < sample.len() && sample[k] == item;
    lemma_sorted_remove_at(sample, item, k);
}

} // verus!
