//! Lazy, even partition of a quantity into a fixed number of shares.
//!
//! [`Partitions`] splits a total `n` into `m` shares that are as equal as
//! possible while still summing exactly to `n`. Shares come out one at a
//! time: each pull divides the *remaining* total by the *remaining* share
//! count, so the truncation from earlier pulls is carried forward and
//! compensated instead of repeated. That telescoping is what makes the
//! shares sum back to `n` exactly.

use vstd::prelude::*;
use vstd::arithmetic::div_mod::lemma_fundamental_div_mod;
use vstd::arithmetic::div_mod::lemma_fundamental_div_mod_converse;
use vstd::arithmetic::div_mod::lemma_div_is_ordered;
use vstd::arithmetic::div_mod::lemma_div_by_self;
use vstd::arithmetic::div_mod::lemma_div_basics;
use vstd::arithmetic::div_mod::lemma_div_nonincreasing;
use vstd::arithmetic::div_mod::lemma_mod_division_less_than_divisor;
use vstd::arithmetic::mul::lemma_mul_inequality;

verus! {

/// The sequence of shares still to be emitted from a state with `total`
/// left to distribute over `count` shares, oldest first.
pub open spec fn shares(total: nat, count: nat) -> Seq<nat>
    decreases count,
{
    if total == 0 || count == 0 {
        Seq::empty()
    } else {
        seq![total / count].add(shares((total - total / count) as nat, (count - 1) as nat))
    }
}

/// The sum of a sequence of shares.
pub open spec fn sum_of(s: Seq<nat>) -> nat
    decreases s.len(),
{
    if s.len() == 0 {
        0
    } else {
        s[0] + sum_of(s.drop_first())
    }
}

/// The value of the `i`-th of `count` near-equal shares of `total`:
/// the rounded-down average for the first `count - total % count`
/// shares, one more for the `total % count` shares after them.
pub open spec fn balanced_share(total: nat, count: nat, i: int) -> nat {
    if i < count - (total % count) {
        total / count
    } else {
        total / count + 1
    }
}

/// One pull from a state with `0 < count <= total` hands out
/// `total / count` and leaves enough total for every remaining share;
/// the last pull hands out everything that is left.
proof fn lemma_share_step(total: nat, count: nat)
    requires
        0 < count <= total,
    ensures
        1 <= total / count,
        total / count <= total,
        total - total / count >= count - 1,
        count == 1 ==> total - total / count == 0,
{
    let q = (total / count) as int;
    let r = (total % count) as int;
    let t = total as int;
    let c = count as int;
    lemma_fundamental_div_mod(t, c);
    lemma_mod_division_less_than_divisor(t, c);
    lemma_div_by_self(c);
    lemma_div_is_ordered(c, t, c);
    lemma_div_nonincreasing(t, c);
    assert(t - q == q * (c - 1) + r) by (nonlinear_arith)
        requires
            t == c * q + r,
    ;
    lemma_mul_inequality(1, q, c - 1);
    if count == 1 {
        lemma_div_basics(t);
    }
}

/// Telescoping over the model: from any state that can run to
/// exhaustion, the shares still to come sum exactly to the total still
/// to distribute.
proof fn lemma_shares_sum(total: nat, count: nat)
    requires
        total >= count,
        count == 0 ==> total == 0,
    ensures
        sum_of(shares(total, count)) == total,
    decreases count,
{
    if total != 0 {
        let v = total / count;
        lemma_share_step(total, count);
        let total2 = (total - v) as nat;
        let count2 = (count - 1) as nat;
        lemma_shares_sum(total2, count2);
        let s = shares(total, count);
        assert(s.drop_first() =~= shares(total2, count2));
    }
}

/// The model emits one share per pending count: from any state that can
/// run to exhaustion, exactly `count` shares are still to come.
proof fn lemma_shares_len(total: nat, count: nat)
    requires
        total >= count,
        count == 0 ==> total == 0,
    ensures
        shares(total, count).len() == count,
    decreases count,
{
    if total != 0 {
        let v = total / count;
        lemma_share_step(total, count);
        lemma_shares_len((total - v) as nat, (count - 1) as nat);
    }
}

/// A lazy generator of the shares of a total `n` split into `m`
/// near-equal parts.
pub struct Partitions {
    n: usize,
    m: usize,
}

impl Partitions {
    /// The portion of the original quantity not yet distributed.
    pub closed spec fn total(self) -> nat {
        self.n as nat
    }

    /// The number of shares not yet emitted.
    pub closed spec fn count(self) -> nat {
        self.m as nat
    }

    /// A state that can run to exhaustion: enough total left for every
    /// pending share, and no pending share once the total is gone, so no
    /// pull ever divides by zero.
    pub open spec fn wf(self) -> bool {
        &&& self.total() >= self.count()
        &&& (self.count() == 0 ==> self.total() == 0)
    }

    /// All shares this generator will still emit, oldest first.
    pub open spec fn remaining(self) -> Seq<nat> {
        shares(self.total(), self.count())
    }

    /// Split `n` into `m` shares. The total must cover at least one unit
    /// per share; passing `m == 0` with `n > 0` builds a generator whose
    /// first pull would divide by zero, so such a generator cannot be
    /// pulled from.
    pub fn new(n: usize, m: usize) -> (r: Self)
        requires
            n >= m,
        ensures
            r.total() == n as nat,
            r.count() == m as nat,
    {
        Self { n, m }
    }

    /// Split `n` into `m` shares, rejecting a total too small to cover
    /// one unit per share instead of treating it as a caller bug.
    pub fn try_new(n: usize, m: usize) -> (r: Option<Self>)
        ensures
            r is Some <==> n >= m,
            r matches Some(g) ==> g.total() == n as nat && g.count() == m as nat,
    {
        if n >= m {
            Some(Self { n, m })
        } else {
            None
        }
    }

    /// Pull the next share, or `None` once the total is exhausted.
    /// Exhaustion is final: an exhausted generator is left unchanged, so
    /// every later pull returns `None` as well. A pull hands out the
    /// remaining total divided by the remaining count, so the truncation
    /// left behind is spread over the later, slightly larger shares.
    pub fn next(&mut self) -> (r: Option<usize>)
        requires
            old(self).total() > 0 ==> old(self).count() > 0,
        ensures
            old(self).total() == 0 ==> r is None && *final(self) == *old(self),
            old(self).total() > 0 ==> ({
                let v = old(self).total() / old(self).count();
                &&& r == Some(v as usize)
                &&& final(self).total() == old(self).total() - v
                &&& final(self).count() == old(self).count() - 1
                &&& old(self).remaining() == seq![v].add(final(self).remaining())
            }),
            old(self).wf() ==> final(self).wf(),
    {
        if self.n == 0 {
            return None;
        }
        proof {
            lemma_div_nonincreasing(self.n as int, self.m as int);
            if self.n >= self.m {
                lemma_share_step(self.n as nat, self.m as nat);
            }
        }
        let v = self.n / self.m;
        self.n = self.n - v;
        self.m = self.m - 1;
        Some(v)
    }

    /// The number of shares not yet emitted, which is exactly the number
    /// of pulls left before exhaustion (see [`lemma_count`]).
    pub fn len(&self) -> (r: usize)
        ensures
            r as nat == self.count(),
    {
        self.m
    }

    /// Pull every remaining share and add them up, leaving the
    /// generator exhausted. By conservation the result is exactly the
    /// remaining total — for a freshly built generator, its original
    /// `n`.
    pub fn sum(&mut self) -> (s: usize)
        requires
            old(self).wf(),
        ensures
            s as nat == old(self).total(),
            s as nat == sum_of(old(self).remaining()),
            final(self).total() == 0,
            final(self).count() == 0,
    {
        let ghost start = *self;
        let mut acc: usize = 0;
        loop
            invariant
                self.wf(),
                acc as nat + self.total() == start.total(),
            ensures
                self.total() == 0,
                acc as nat == start.total(),
            decreases self.total(),
        {
            let ghost pre = *self;
            match self.next() {
                Some(v) => {
                    proof {
                        lemma_share_step(pre.total(), pre.count());
                    }
                    acc = acc + v;
                }
                None => {
                    break;
                }
            }
        }
        proof {
            lemma_conservation(start);
        }
        acc
    }
}

/// The exact shape of the split: dividing the remaining total by the
/// remaining count at every step emits `count - total % count` copies
/// of the rounded-down average followed by `total % count` copies of
/// one more — the classic largest-remainder balance, smallest first.
pub proof fn lemma_shares_exact(total: nat, count: nat)
    requires
        0 < count <= total,
    ensures
        shares(total, count).len() == count,
        forall|i: int|
            0 <= i < count ==> #[trigger] shares(total, count)[i] == balanced_share(
                total,
                count,
                i,
            ),
    decreases count,
{
    let q = total / count;
    let r = total % count;
    let t = total as int;
    let c = count as int;
    lemma_fundamental_div_mod(t, c);
    lemma_mod_division_less_than_divisor(t, c);
    lemma_share_step(total, count);
    let total2 = (total - q) as nat;
    let count2 = (count - 1) as nat;
    let s = shares(total, count);
    assert(s == seq![q].add(shares(total2, count2)));
    if count == 1 {
        assert(s[0] == q);
    } else {
        assert(total2 as int == q * (c - 1) + r) by (nonlinear_arith)
            requires
                t == c * q + r,
                total2 == t - q,
        ;
        if r == count - 1 {
            assert(total2 as int == (q + 1) * (c - 1)) by (nonlinear_arith)
                requires
                    total2 as int == q * (c - 1) + r,
                    r == c - 1,
            ;
            lemma_fundamental_div_mod_converse(total2 as int, c - 1, q as int + 1, 0);
        } else {
            lemma_fundamental_div_mod_converse(total2 as int, c - 1, q as int, r as int);
        }
        lemma_shares_exact(total2, count2);
        assert forall|i: int| 0 <= i < count implies #[trigger] s[i] == balanced_share(
            total,
            count,
            i,
        ) by {
            if i >= 1 {
                assert(s[i] == shares(total2, count2)[i - 1]);
                assert(shares(total2, count2)[i - 1] == balanced_share(total2, count2, i - 1));
            }
        }
    }
}

/// Conservation: the remaining shares of a well-formed generator sum
/// exactly to its remaining total, so a freshly built generator, fully
/// drained, hands out exactly the `n` it was built with.
pub proof fn lemma_conservation(g: Partitions)
    requires
        g.wf(),
    ensures
        sum_of(g.remaining()) == g.total(),
{
    lemma_shares_sum(g.total(), g.count());
}

/// Count: a well-formed generator has exactly as many shares left to
/// emit as its reported remaining count, so a freshly built generator
/// emits exactly `m` values before exhaustion.
pub proof fn lemma_count(g: Partitions)
    requires
        g.wf(),
    ensures
        g.remaining().len() == g.count(),
{
    lemma_shares_len(g.total(), g.count());
}

/// Near-equality: every share a well-formed generator will emit is the
/// naive average — remaining total over remaining count — rounded
/// down, or rounded up by a single unit.
pub proof fn lemma_near_equality(g: Partitions)
    requires
        g.wf(),
    ensures
        forall|i: int|
            0 <= i < g.remaining().len() ==> g.total() / g.count() <= #[trigger] g.remaining()[i]
                <= g.total() / g.count() + 1,
{
    if g.count() > 0 {
        lemma_shares_exact(g.total(), g.count());
    }
}

/// Balance: shares come out smallest first, so the emitted sequence is
/// non-decreasing and no share exceeds an earlier one — consecutive
/// shares included — by more than a single unit.
pub proof fn lemma_shares_balanced(g: Partitions)
    requires
        g.wf(),
    ensures
        forall|i: int, j: int|
            0 <= i <= j < g.remaining().len() ==> #[trigger] g.remaining()[i]
                <= #[trigger] g.remaining()[j] <= g.remaining()[i] + 1,
{
    if g.count() > 0 {
        lemma_shares_exact(g.total(), g.count());
    }
}

/// Exhaustion finality: once the total is gone nothing is left to emit,
/// and by [`Partitions::next`]'s contract an exhausted generator is left
/// unchanged, so every later pull returns `None` as well.
pub proof fn lemma_exhaustion_final(g: Partitions)
    requires
        g.total() == 0,
    ensures
        g.remaining() == Seq::<nat>::empty(),
{
}

} // verus!
