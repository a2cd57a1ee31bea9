//! The shared debt pool: signed net positions per asset, each user's
//! contribution per asset, and each user's debt ratio, a share of the pool's
//! total value out of `RATIO_DIVISOR`.

use vstd::prelude::*;
use crate::errors::CraftingError;
use crate::oracle::PriceInfo;
use crate::table::{AccountId, amount_of, copy_pairs, copy_table, find_key, get_amount, get_pair, has_key, index_of, lemma_index_of, value_of, lemma_upsert, pair_amount, put, put_pair, unique_keys, unique_pairs, upsert, without};
use crate::utils::RATIO_DIVISOR;

verus! {

/// A signed amount held as a magnitude and a sign.
#[derive(Clone, Copy, Debug, PartialEq, Eq, Structural)]
pub struct WrappedBalance {
    pub amount: u128,
    pub is_positive: bool,
}

impl WrappedBalance {
    /// The signed amount.
    pub open spec fn value(self) -> int {
        if self.is_positive {
            self.amount as int
        } else {
            -(self.amount as int)
        }
    }

    /// The balance that holds `v`, with zero held as positive.
    pub open spec fn from_value(v: int) -> WrappedBalance {
        if v >= 0 {
            WrappedBalance { amount: v as u128, is_positive: true }
        } else {
            WrappedBalance { amount: (-v) as u128, is_positive: false }
        }
    }

    /// Whether `v` can be held: its magnitude fits in a `u128`.
    pub open spec fn holds(v: int) -> bool {
        -(u128::MAX as int) <= v <= u128::MAX as int
    }

    /// The balance plus `amount`.
    pub fn plus(&self, amount: u128) -> (r: Result<WrappedBalance, CraftingError>)
        ensures
            r == if Self::holds(self.value() + amount) {
                Ok::<WrappedBalance, CraftingError>(Self::from_value(self.value() + amount))
            } else {
                Err(CraftingError::Overflow)
            },
    {
        if self.is_positive {
            match self.amount.checked_add(amount) {
                Some(a) => Ok(WrappedBalance { amount: a, is_positive: true }),
                None => Err(CraftingError::Overflow),
            }
        } else if self.amount > amount {
            Ok(WrappedBalance { amount: self.amount - amount, is_positive: false })
        } else {
            Ok(WrappedBalance { amount: amount - self.amount, is_positive: true })
        }
    }

    /// The balance minus `amount`; a positive balance that goes below zero
    /// turns negative and keeps the remainder.
    pub fn minus(&self, amount: u128) -> (r: Result<WrappedBalance, CraftingError>)
        ensures
            r == if Self::holds(self.value() - amount) {
                Ok::<WrappedBalance, CraftingError>(Self::from_value(self.value() - amount))
            } else {
                Err(CraftingError::Overflow)
            },
    {
        if !self.is_positive {
            match self.amount.checked_add(amount) {
                Some(a) => Ok(WrappedBalance { amount: a, is_positive: a == 0 }),
                None => Err(CraftingError::Overflow),
            }
        } else if self.amount >= amount {
            Ok(WrappedBalance { amount: self.amount - amount, is_positive: true })
        } else {
            Ok(WrappedBalance { amount: amount - self.amount, is_positive: false })
        }
    }
}

/// Every asset of `s` has a price.
pub open spec fn all_priced(s: Seq<(String, WrappedBalance)>, prices: Map<Seq<char>, u128>) -> bool {
    forall|i: int| 0 <= i < s.len() ==> prices.contains_key((#[trigger] s[i]).0@)
}

/// The value of the positions of `s` that are held: amount times price.
pub open spec fn held_value(s: Seq<(String, WrappedBalance)>, prices: Map<Seq<char>, u128>) -> nat
    decreases s.len(),
{
    if s.len() == 0 {
        0
    } else {
        let e = s.last();
        held_value(s.drop_last(), prices) + if e.1.is_positive {
            (e.1.amount * prices[e.0@]) as nat
        } else {
            0nat
        }
    }
}

/// The value of the positions of `s` that are owed.
pub open spec fn owed_value(s: Seq<(String, WrappedBalance)>, prices: Map<Seq<char>, u128>) -> nat
    decreases s.len(),
{
    if s.len() == 0 {
        0
    } else {
        let e = s.last();
        owed_value(s.drop_last(), prices) + if e.1.is_positive {
            0nat
        } else {
            (e.1.amount * prices[e.0@]) as nat
        }
    }
}

/// The signed total value of the positions of `s`.
pub open spec fn total_value(s: Seq<(String, WrappedBalance)>, prices: Map<Seq<char>, u128>) -> int
    decreases s.len(),
{
    if s.len() == 0 {
        0
    } else {
        total_value(s.drop_last(), prices) + s.last().1.value() * prices[s.last().0@]
    }
}

pub proof fn lemma_total_parts(s: Seq<(String, WrappedBalance)>, prices: Map<Seq<char>, u128>)
    ensures
        total_value(s, prices) == held_value(s, prices) - owed_value(s, prices),
    decreases s.len(),
{
    if s.len() > 0 {
        lemma_total_parts(s.drop_last(), prices);
        let e = s.last();
        assert(e.1.value() * prices[e.0@] == if e.1.is_positive {
            e.1.amount * prices[e.0@]
        } else {
            -(e.1.amount * prices[e.0@])
        }) by (nonlinear_arith);
    }
}

/// The value of `user`'s contributions over the assets of `s`.
pub open spec fn user_value(
    s: Seq<(String, WrappedBalance)>,
    rows: Seq<(String, String, u128)>,
    user: Seq<char>,
    prices: Map<Seq<char>, u128>,
) -> nat
    decreases s.len(),
{
    if s.len() == 0 {
        0
    } else {
        let a = s.last().0@;
        user_value(s.drop_last(), rows, user, prices) + if pair_amount(rows, user, a) == 0 {
            0nat
        } else {
            (pair_amount(rows, user, a) * prices[a]) as nat
        }
    }
}

/// Every asset of `s` in which `user` has a contribution has a price.
pub open spec fn user_priced(
    s: Seq<(String, WrappedBalance)>,
    rows: Seq<(String, String, u128)>,
    user: Seq<char>,
    prices: Map<Seq<char>, u128>,
) -> bool {
    forall|i: int|
        0 <= i < s.len() && pair_amount(rows, user, (#[trigger] s[i]).0@) != 0 ==> prices.contains_key(
            s[i].0@,
        )
}

/// The sum of the ratios of `s`.
pub open spec fn ratio_sum(s: Seq<(String, u128)>) -> int
    decreases s.len(),
{
    if s.len() == 0 {
        0
    } else {
        ratio_sum(s.drop_last()) + s.last().1
    }
}

/// `s` with each ratio rescaled for a join of `user` that takes the pool's
/// value from `old` to `new`: every other user keeps `old / new` of their
/// share, and the joiner's share gains the value joined.
pub open spec fn diluted(s: Seq<(String, u128)>, old: int, new: int, user: Seq<char>) -> Seq<
    (String, u128),
> {
    s.map_values(
        |e: (String, u128)|
            (e.0, (if e.0@ == user {
                (old * e.1 + (new - old) * RATIO_DIVISOR) / new
            } else {
                old * e.1 / new
            }) as u128),
    )
}

/// The ratios after `user` joins: diluted, with the joiner added where new.
pub open spec fn joined_ratios(s: Seq<(String, u128)>, old: int, new: int, user: String) -> Seq<
    (String, u128),
> {
    if has_key(s, user@) {
        diluted(s, old, new, user@)
    } else {
        diluted(s, old, new, user@).push((user, ((new - old) * RATIO_DIVISOR / new) as u128))
    }
}

/// Every product of the dilution fits in a `u128`.
pub open spec fn dilution_fits(s: Seq<(String, u128)>, old: int, new: int, user: Seq<char>) -> bool {
    &&& (new - old) * RATIO_DIVISOR <= u128::MAX
    &&& forall|i: int|
        0 <= i < s.len() ==> old * (#[trigger] s[i]).1 + (if s[i].0@ == user {
            (new - old) * RATIO_DIVISOR
        } else {
            0
        }) <= u128::MAX
}

/// `s` with each ratio multiplied by `old / new`, rounding down.
pub open spec fn scaled(s: Seq<(String, u128)>, old: int, new: int) -> Seq<(String, u128)> {
    s.map_values(|e: (String, u128)| (e.0, (old * e.1 / new) as u128))
}

/// Every product of the rescaling fits in a `u128`.
pub open spec fn scale_fits(s: Seq<(String, u128)>, old: int) -> bool {
    forall|i: int| 0 <= i < s.len() ==> old * (#[trigger] s[i]).1 <= u128::MAX
}

/// How many entries of `s` have key `k`.
pub open spec fn key_count(s: Seq<(String, u128)>, k: Seq<char>) -> int
    decreases s.len(),
{
    if s.len() == 0 {
        0
    } else {
        key_count(s.drop_last(), k) + if s.last().0@ == k {
            1int
        } else {
            0
        }
    }
}

proof fn lemma_floor(a: int, d: int)
    requires
        0 < d,
        0 <= a,
    ensures
        d * (a / d) <= a < d * (a / d) + d,
        0 <= a / d <= a,
{
    vstd::arithmetic::div_mod::lemma_fundamental_div_mod(a, d);
    vstd::arithmetic::div_mod::lemma_mod_bound(a, d);
    let q = a / d;
    assert(0 <= q <= a) by (nonlinear_arith)
        requires
            d * q <= a,
            a < d * q + d,
            0 < d,
            0 <= a,
    ;
}

proof fn lemma_key_count(s: Seq<(String, u128)>, k: Seq<char>)
    requires
        unique_keys(s),
    ensures
        key_count(s, k) == if has_key(s, k) {
            1int
        } else {
            0
        },
    decreases s.len(),
{
    if s.len() > 0 {
        let t = s.drop_last();
        assert(unique_keys(t)) by {
            assert forall|i: int, j: int|
                0 <= i < t.len() && 0 <= j < t.len() && i != j implies (#[trigger] t[i]).0@ != (
                #[trigger] t[j]).0@ by {
                assert(t[i] == s[i] && t[j] == s[j]);
            }
        }
        lemma_key_count(t, k);
        if has_key(t, k) {
            let j = index_of(t, k);
            assert(s[j] == t[j]);
            assert(s.last() == s[s.len() - 1]);
        }
        if has_key(s, k) && !has_key(t, k) {
            let j = index_of(s, k);
            if j < t.len() {
                assert(t[j] == s[j]);
            }
        }
        if !has_key(s, k) && s.last().0@ == k {
            assert(s[s.len() - 1].0@ == k);
        }
        if has_key(t, k) && !has_key(s, k) {
            let j = index_of(t, k);
            assert(s[j] == t[j]);
        }
    }
}

/// One step of a sum of rounded-down quotients: adding `a / d` to a sum `x`
/// whose bounds hold keeps them.
proof fn lemma_step(x: int, y: int, n: int, a: int, d: int)
    requires
        0 < d,
        0 <= a,
        d * x <= y,
        y <= d * (x + n),
    ensures
        d * (x + a / d) <= y + a,
        y + a < d * (x + a / d + n + 1),
{
    lemma_floor(a, d);
    let q = a / d;
    assert(d * (x + q) == d * x + d * q) by (nonlinear_arith);
    assert(d * (x + q + n + 1) == d * (x + n) + d * q + d) by (nonlinear_arith);
}

proof fn lemma_diluted_sum(s: Seq<(String, u128)>, old: int, new: int, user: Seq<char>)
    requires
        0 <= old <= new,
        0 < new,
        dilution_fits(s, old, new, user),
    ensures
        new * ratio_sum(diluted(s, old, new, user)) <= old * ratio_sum(s) + key_count(s, user) * (
        (new - old) * RATIO_DIVISOR),
        old * ratio_sum(s) + key_count(s, user) * ((new - old) * RATIO_DIVISOR) <= new * (ratio_sum(
            diluted(s, old, new, user),
        ) + s.len()),
        s.len() > 0 ==> old * ratio_sum(s) + key_count(s, user) * ((new - old) * RATIO_DIVISOR) < new * (
        ratio_sum(diluted(s, old, new, user)) + s.len()),
    decreases s.len(),
{
    if s.len() > 0 {
        let t = s.drop_last();
        let e = s.last();
        assert(dilution_fits(t, old, new, user)) by {
            assert forall|i: int| 0 <= i < t.len() implies old * (#[trigger] t[i]).1 + (if t[i].0@
                == user {
                (new - old) * RATIO_DIVISOR
            } else {
                0
            }) <= u128::MAX by {
                assert(t[i] == s[i]);
            }
        }
        lemma_diluted_sum(t, old, new, user);
        assert(diluted(s, old, new, user).drop_last() =~= diluted(t, old, new, user));
        let g = (new - old) * RATIO_DIVISOR;
        assert(0 <= g) by (nonlinear_arith)
            requires
                0 <= new - old,
                g == (new - old) * 1_000_000,
        ;
        let m = old * e.1;
        assert(0 <= m) by (nonlinear_arith)
            requires
                0 <= old,
                0 <= e.1,
                m == old * e.1,
        ;
        let a = if e.0@ == user {
            m + g
        } else {
            m
        };
        assert(s[s.len() - 1] == e);
        assert(a <= u128::MAX);
        lemma_floor(a, new);
        assert(diluted(s, old, new, user).last().1 == a / new);
        let ct = key_count(t, user);
        assert(old * (ratio_sum(t) + e.1) == old * ratio_sum(t) + m) by (nonlinear_arith)
            requires
                m == old * e.1,
        ;
        assert((ct + 1) * g == ct * g + g) by (nonlinear_arith);
        lemma_step(
            ratio_sum(diluted(t, old, new, user)),
            old * ratio_sum(t) + ct * g,
            t.len() as int,
            a,
            new,
        );
    }
}

proof fn lemma_scaled_sum(s: Seq<(String, u128)>, old: int, new: int)
    requires
        0 <= old,
        0 < new,
        scale_fits(s, old),
    ensures
        new * ratio_sum(scaled(s, old, new)) <= old * ratio_sum(s),
        old * ratio_sum(s) <= new * (ratio_sum(scaled(s, old, new)) + s.len()),
        s.len() > 0 ==> old * ratio_sum(s) < new * (ratio_sum(scaled(s, old, new)) + s.len()),
    decreases s.len(),
{
    if s.len() > 0 {
        let t = s.drop_last();
        let e = s.last();
        assert(scale_fits(t, old)) by {
            assert forall|i: int| 0 <= i < t.len() implies old * (#[trigger] t[i]).1
                <= u128::MAX by {
                assert(t[i] == s[i]);
            }
        }
        lemma_scaled_sum(t, old, new);
        assert(scaled(s, old, new).drop_last() =~= scaled(t, old, new));
        let m = old * e.1;
        assert(0 <= m) by (nonlinear_arith)
            requires
                0 <= old,
                0 <= e.1,
                m == old * e.1,
        ;
        assert(s[s.len() - 1] == e);
        lemma_floor(m, new);
        assert(scaled(s, old, new).last().1 == m / new);
        assert(old * (ratio_sum(t) + e.1) == old * ratio_sum(t) + m) by (nonlinear_arith)
            requires
                m == old * e.1,
        ;
        lemma_step(ratio_sum(scaled(t, old, new)), old * ratio_sum(t), t.len() as int, m, new);
    }
}

/// A join keeps the debt ratios summing to the whole pool, up to rounding:
/// with `old` and `new` the pool's values before and after, the new ratios
/// sum to `(old * sum + (new - old) * RATIO_DIVISOR) / new`, less at most one
/// unit per ratio. From a sum of `RATIO_DIVISOR`, the sum stays at most
/// `RATIO_DIVISOR` and loses at most one unit per participant.
pub proof fn lemma_join_ratio_sum(s: Seq<(String, u128)>, old: int, new: int, user: String)
    requires
        unique_keys(s),
        0 <= old <= new,
        0 < new,
        dilution_fits(s, old, new, user@),
    ensures
        new * ratio_sum(joined_ratios(s, old, new, user)) <= old * ratio_sum(s) + (new - old)
            * RATIO_DIVISOR,
        old * ratio_sum(s) + (new - old) * RATIO_DIVISOR <= new * (ratio_sum(
            joined_ratios(s, old, new, user),
        ) + joined_ratios(s, old, new, user).len()),
        old * ratio_sum(s) + (new - old) * RATIO_DIVISOR < new * (ratio_sum(
            joined_ratios(s, old, new, user),
        ) + joined_ratios(s, old, new, user).len()),
        ratio_sum(s) == RATIO_DIVISOR ==> RATIO_DIVISOR - joined_ratios(s, old, new, user).len()
            < ratio_sum(joined_ratios(s, old, new, user)) <= RATIO_DIVISOR,
        ratio_sum(s) == RATIO_DIVISOR ==> forall|i: int|
            0 <= i < joined_ratios(s, old, new, user).len() ==> (#[trigger] joined_ratios(
                s,
                old,
                new,
                user,
            )[i]).1 <= RATIO_DIVISOR,
{
    lemma_key_count(s, user@);
    lemma_diluted_sum(s, old, new, user@);
    let d = diluted(s, old, new, user@);
    let j = joined_ratios(s, old, new, user);
    let g = (new - old) * RATIO_DIVISOR;
    assert(0 <= g) by (nonlinear_arith)
        requires
            0 <= new - old,
            g == (new - old) * 1_000_000,
    ;
    if !has_key(s, user@) {
        assert(j.drop_last() =~= d);
        lemma_floor(g, new);
        assert(j.last().1 == g / new);
        assert(0 * g == 0);
        lemma_step(ratio_sum(d), old * ratio_sum(s), s.len() as int, g, new);
    } else {
        assert(1 * g == g);
    }
    if ratio_sum(s) == RATIO_DIVISOR {
        let sj = ratio_sum(j);
        let n = j.len() as int;
        assert(old * 1_000_000 + (new - old) * 1_000_000 == new * 1_000_000) by (nonlinear_arith);
        assert(sj <= RATIO_DIVISOR) by (nonlinear_arith)
            requires
                new * sj <= new * 1_000_000,
                0 < new,
        ;
        assert(RATIO_DIVISOR < sj + n) by (nonlinear_arith)
            requires
                new * 1_000_000 < new * (sj + n),
                0 < new,
        ;
        assert forall|i: int| 0 <= i < j.len() implies (#[trigger] j[i]).1 <= RATIO_DIVISOR by {
            lemma_entry_le_sum(j, i);
        }
    }
}

proof fn lemma_entry_le_sum(s: Seq<(String, u128)>, i: int)
    requires
        0 <= i < s.len(),
    ensures
        s[i].1 <= ratio_sum(s),
    decreases s.len(),
{
    lemma_sum_nonneg(s.drop_last());
    if i < s.len() - 1 {
        assert(s.drop_last()[i] == s[i]);
        lemma_entry_le_sum(s.drop_last(), i);
    }
}

proof fn lemma_sum_nonneg(s: Seq<(String, u128)>)
    ensures
        0 <= ratio_sum(s),
    decreases s.len(),
{
    if s.len() > 0 {
        lemma_sum_nonneg(s.drop_last());
    }
}

/// Rescaling restores the whole pool after an exit, up to rounding: where
/// the ratios left sum to `sum` and `old * sum == new * RATIO_DIVISOR`, the
/// rescaled ratios of the participants left sum to at most `RATIO_DIVISOR`
/// and lose less than one unit per participant.
pub proof fn lemma_rescale_restores_sum(s: Seq<(String, u128)>, old: int, new: int)
    requires
        0 <= old,
        0 < new,
        s.len() > 0,
        old * ratio_sum(s) == new * RATIO_DIVISOR,
        scale_fits(s, old),
    ensures
        RATIO_DIVISOR - s.len() < ratio_sum(scaled(s, old, new)) <= RATIO_DIVISOR,
{
    lemma_scaled_sum(s, old, new);
    let sw = ratio_sum(scaled(s, old, new));
    let n = s.len() as int;
    assert(sw <= RATIO_DIVISOR) by (nonlinear_arith)
        requires
            new * sw <= new * 1_000_000,
            0 < new,
    ;
    assert(RATIO_DIVISOR < sw + n) by (nonlinear_arith)
        requires
            new * 1_000_000 < new * (sw + n),
            0 < new,
    ;
}

/// Rescaling by `old / new` keeps the ratios' sum at `old * sum / new`, less at
/// most one unit per ratio.
pub proof fn lemma_rescale_ratio_sum(s: Seq<(String, u128)>, old: int, new: int)
    requires
        0 <= old,
        0 < new,
        scale_fits(s, old),
    ensures
        new * ratio_sum(scaled(s, old, new)) <= old * ratio_sum(s),
        old * ratio_sum(s) <= new * (ratio_sum(scaled(s, old, new)) + s.len()),
{
    lemma_scaled_sum(s, old, new);
}

/// `user`'s non-zero contributions over the assets of `s`, in the order of `s`.
pub open spec fn holdings(
    s: Seq<(String, WrappedBalance)>,
    rows: Seq<(String, String, u128)>,
    user: Seq<char>,
) -> Seq<(String, u128)>
    decreases s.len(),
{
    if s.len() == 0 {
        Seq::empty()
    } else {
        let a = s.last().0;
        let c = pair_amount(rows, user, a@);
        holdings(s.drop_last(), rows, user) + if c != 0 {
            seq![(a, c)]
        } else {
            Seq::empty()
        }
    }
}

/// The signed position of `k` in `s`; zero where absent.
pub open spec fn position_in(s: Seq<(String, WrappedBalance)>, k: Seq<char>) -> int {
    match value_of(s, k) {
        Some(w) => w.value(),
        None => 0,
    }
}

/// The positions after a swap: `net` of `old` leaves the pool and `out` of
/// `new` enters it.
pub open spec fn swap_positions(
    s: Seq<(String, WrappedBalance)>,
    old: String,
    new: String,
    net: int,
    out: int,
) -> Seq<(String, WrappedBalance)> {
    let s1 = upsert(s, old, WrappedBalance::from_value(position_in(s, old@) - net));
    upsert(s1, new, WrappedBalance::from_value(position_in(s1, new@) + out))
}

/// A swap keeps the pool's total value but for the rounding of the
/// conversion: `net` of `old_raft` turns into `out`, the whole units of
/// `new_raft` of the same value, and the total drops by less than one unit
/// of `new_raft`'s price.
pub proof fn lemma_swap_pool_value(
    s: Seq<(String, WrappedBalance)>,
    prices: Map<Seq<char>, u128>,
    old_raft: String,
    new_raft: String,
    net: int,
)
    requires
        unique_keys(s),
        0 <= net,
        prices[new_raft@] > 0,
        WrappedBalance::holds(position_in(s, old_raft@) - net),
        WrappedBalance::holds(
            position_in(
                upsert(
                    s,
                    old_raft,
                    WrappedBalance::from_value(position_in(s, old_raft@) - net),
                ),
                new_raft@,
            ) + prices[old_raft@] * net / (prices[new_raft@] as int),
        ),
    ensures
        ({
            let out = prices[old_raft@] * net / (prices[new_raft@] as int);
            let loss = prices[old_raft@] * net - out * prices[new_raft@];
            &&& total_value(swap_positions(s, old_raft, new_raft, net, out), prices) == total_value(
                s,
                prices,
            ) - loss
            &&& 0 <= loss < prices[new_raft@]
        }),
{
    let po = prices[old_raft@] as int;
    let pn = prices[new_raft@] as int;
    let out = po * net / pn;
    let w1 = WrappedBalance::from_value(position_in(s, old_raft@) - net);
    let s1 = upsert(s, old_raft, w1);
    lemma_total_upsert(s, old_raft, w1, prices);
    lemma_upsert(s, old_raft, w1);
    let w2 = WrappedBalance::from_value(position_in(s1, new_raft@) + out);
    lemma_total_upsert(s1, new_raft, w2, prices);
    assert(0 <= po * net) by (nonlinear_arith)
        requires
            0 <= po,
            0 <= net,
    ;
    lemma_floor(po * net, pn);
    assert((w1.value() - position_in(s, old_raft@)) * po == -(po * net)) by (nonlinear_arith)
        requires
            w1.value() == position_in(s, old_raft@) - net,
    ;
    assert((w2.value() - position_in(s1, new_raft@)) * pn == out * pn) by (nonlinear_arith)
        requires
            w2.value() == position_in(s1, new_raft@) + out,
    ;
    assert(pn * (po * net / pn) == out * pn) by (nonlinear_arith)
        requires
            out == po * net / pn,
    ;
}

/// Setting the position of `k` to `w` moves the total value by the change of
/// that position at `k`'s price.
pub proof fn lemma_total_upsert(
    s: Seq<(String, WrappedBalance)>,
    k: String,
    w: WrappedBalance,
    prices: Map<Seq<char>, u128>,
)
    requires
        unique_keys(s),
    ensures
        total_value(upsert(s, k, w), prices) == total_value(s, prices) + (w.value() - match value_of(
            s,
            k@,
        ) {
            Some(v) => v.value(),
            None => 0,
        }) * prices[k@],
    decreases s.len(),
{
    let p = prices[k@];
    if has_key(s, k@) {
        let i = index_of(s, k@);
        lemma_index_of(s, i);
        let t = upsert(s, k, w);
        assert(t == s.update(i, (s[i].0, w)));
        if i == s.len() - 1 {
            assert(t.drop_last() =~= s.drop_last());
            assert(s[i].1.value() * p + (w.value() - s[i].1.value()) * p == w.value() * p)
                by (nonlinear_arith);
        } else {
            let sd = s.drop_last();
            assert(unique_keys(sd)) by {
                assert forall|a: int, b: int|
                    0 <= a < sd.len() && 0 <= b < sd.len() && a != b implies (#[trigger] sd[a]).0@
                    != (#[trigger] sd[b]).0@ by {
                    assert(sd[a] == s[a] && sd[b] == s[b]);
                }
            }
            assert(sd[i] == s[i]);
            lemma_index_of(sd, i);
            lemma_total_upsert(sd, k, w, prices);
            assert(upsert(sd, k, w) =~= t.drop_last());
            assert(t.last() == s.last());
        }
    } else {
        let t = s.push((k, w));
        assert(t.drop_last() =~= s);
    }
}

/// The entries of `user`'s holdings are distinct assets of `s`, each with
/// `user`'s contribution.
pub proof fn lemma_holdings_keys(
    s: Seq<(String, WrappedBalance)>,
    rows: Seq<(String, String, u128)>,
    user: Seq<char>,
    i: int,
)
    requires
        unique_keys(s),
        0 <= i < holdings(s, rows, user).len(),
    ensures
        has_key(s, holdings(s, rows, user)[i].0@),
        holdings(s, rows, user)[i].1 == pair_amount(rows, user, holdings(s, rows, user)[i].0@),
        forall|j: int|
            0 <= j < holdings(s, rows, user).len() && j != i ==> (#[trigger] holdings(
                s,
                rows,
                user,
            )[j]).0@ != holdings(s, rows, user)[i].0@,
    decreases s.len(),
{
    let h = holdings(s, rows, user);
    let t = s.drop_last();
    let ht = holdings(t, rows, user);
    assert(unique_keys(t)) by {
        assert forall|a: int, b: int|
            0 <= a < t.len() && 0 <= b < t.len() && a != b implies (#[trigger] t[a]).0@ != (
            #[trigger] t[b]).0@ by {
            assert(t[a] == s[a] && t[b] == s[b]);
        }
    }
    assert(s.last() == s[s.len() - 1]);
    if i < ht.len() {
        assert(h[i] == ht[i]);
        lemma_holdings_keys(t, rows, user, i);
        let k = index_of(t, ht[i].0@);
        assert(s[k] == t[k]);
        assert forall|j: int| 0 <= j < h.len() && j != i implies (#[trigger] h[j]).0@ != h[i].0@ by {
            if j < ht.len() {
                assert(h[j] == ht[j]);
            } else {
                assert(h[j].0 == s.last().0);
                assert(k != s.len() - 1);
            }
        }
    } else {
        assert(h[i].0 == s.last().0);
        assert forall|j: int| 0 <= j < h.len() && j != i implies (#[trigger] h[j]).0@ != h[i].0@ by {
            assert(j < ht.len());
            assert(h[j] == ht[j]);
            lemma_holdings_keys(t, rows, user, j);
            let k = index_of(t, ht[j].0@);
            assert(s[k] == t[k]);
        }
    }
}

/// Every asset of `s` in which `user` has a non-zero contribution appears in
/// `user`'s holdings.
pub proof fn lemma_holdings_cover(
    s: Seq<(String, WrappedBalance)>,
    rows: Seq<(String, String, u128)>,
    user: Seq<char>,
    a: Seq<char>,
)
    requires
        has_key(s, a),
        pair_amount(rows, user, a) != 0,
    ensures
        exists|j: int|
            0 <= j < holdings(s, rows, user).len() && (#[trigger] holdings(s, rows, user)[j]).0@
                == a,
    decreases s.len(),
{
    let h = holdings(s, rows, user);
    let t = s.drop_last();
    let ht = holdings(t, rows, user);
    if s.last().0@ == a {
        assert(h[h.len() - 1].0@ == a);
    } else {
        let i = index_of(s, a);
        assert(i < s.len() - 1) by {
            assert(s[s.len() - 1] == s.last());
        }
        assert(t[i] == s[i]);
        lemma_holdings_cover(t, rows, user, a);
        let j = choose|j: int| 0 <= j < ht.len() && (#[trigger] ht[j]).0@ == a;
        assert(h[j] == ht[j]);
    }
}

proof fn lemma_sum_without(s: Seq<(String, u128)>, k: Seq<char>)
    requires
        unique_keys(s),
    ensures
        ratio_sum(without(s, k)) == ratio_sum(s) - amount_of(s, k),
    decreases s.len(),
{
    if has_key(s, k) {
        let i = index_of(s, k);
        lemma_index_of(s, i);
        let t = s.drop_last();
        if i == s.len() - 1 {
            assert(s.remove(i) =~= t);
        } else {
            assert(unique_keys(t)) by {
                assert forall|a: int, b: int|
                    0 <= a < t.len() && 0 <= b < t.len() && a != b implies (#[trigger] t[a]).0@
                    != (#[trigger] t[b]).0@ by {
                    assert(t[a] == s[a] && t[b] == s[b]);
                }
            }
            assert(t[i] == s[i]);
            lemma_index_of(t, i);
            lemma_sum_without(t, k);
            assert(s.remove(i).drop_last() =~= t.remove(i));
            assert(s.remove(i).last() == s.last());
        }
    }
}

/// A redemption keeps the remaining ratios summing to the whole pool, up to
/// rounding, where the value that leaves the pool is the redeemer's share:
/// from a sum of `RATIO_DIVISOR`, with the pool's value going from `old` to
/// `new = old * (RATIO_DIVISOR - ratio) / RATIO_DIVISOR`, dropping the
/// redeemer's ratio and rescaling the rest by `old / new` leaves a sum of at
/// most `RATIO_DIVISOR` that lost less than one unit per remaining
/// participant.
pub proof fn lemma_exit_ratio_sum(s: Seq<(String, u128)>, user: Seq<char>, old: int, new: int)
    requires
        unique_keys(s),
        ratio_sum(s) == RATIO_DIVISOR,
        0 <= old,
        0 < new,
        new * RATIO_DIVISOR == old * (RATIO_DIVISOR - amount_of(s, user)),
        scale_fits(without(s, user), old),
        without(s, user).len() > 0,
    ensures
        RATIO_DIVISOR - without(s, user).len() < ratio_sum(scaled(without(s, user), old, new))
            <= RATIO_DIVISOR,
{
    let w = without(s, user);
    lemma_sum_without(s, user);
    lemma_scaled_sum(w, old, new);
    let sw = ratio_sum(scaled(w, old, new));
    let n = w.len() as int;
    assert(sw <= RATIO_DIVISOR) by (nonlinear_arith)
        requires
            new * sw <= new * 1_000_000,
            0 < new,
    ;
    assert(RATIO_DIVISOR < sw + n) by (nonlinear_arith)
        requires
            new * 1_000_000 < new * (sw + n),
            0 < new,
    ;
}

proof fn lemma_user_value_keys(
    s1: Seq<(String, WrappedBalance)>,
    s2: Seq<(String, WrappedBalance)>,
    rows: Seq<(String, String, u128)>,
    user: Seq<char>,
    prices: Map<Seq<char>, u128>,
)
    requires
        s1.len() == s2.len(),
        forall|i: int| 0 <= i < s1.len() ==> (#[trigger] s1[i]).0@ == s2[i].0@,
    ensures
        user_value(s1, rows, user, prices) == user_value(s2, rows, user, prices),
    decreases s1.len(),
{
    if s1.len() > 0 {
        assert(s1.last() == s1[s1.len() - 1]);
        lemma_user_value_keys(s1.drop_last(), s2.drop_last(), rows, user, prices);
    }
}

proof fn lemma_term(c: u128, p: u128)
    ensures
        (if c == 0 {
            0nat
        } else {
            (c * p) as nat
        }) == c * p,
{
    assert(0 <= c * p) by (nonlinear_arith);
}

proof fn lemma_user_value_upsert(
    s: Seq<(String, WrappedBalance)>,
    rows: Seq<(String, String, u128)>,
    user: Seq<char>,
    k: String,
    w: WrappedBalance,
    prices: Map<Seq<char>, u128>,
)
    requires
        unique_keys(s),
    ensures
        user_value(upsert(s, k, w), rows, user, prices) == user_value(s, rows, user, prices) + if has_key(
            s,
            k@,
        ) {
            0
        } else {
            pair_amount(rows, user, k@) * prices[k@]
        },
{
    if has_key(s, k@) {
        lemma_user_value_keys(upsert(s, k, w), s, rows, user, prices);
    } else {
        let t = upsert(s, k, w);
        assert(t.drop_last() =~= s);
        lemma_term(pair_amount(rows, user, k@), prices[k@]);
    }
}

/// How much `user`'s value over the assets of `s` moves from rows `r1` to
/// rows `r2`.
pub open spec fn value_delta(
    s: Seq<(String, WrappedBalance)>,
    r1: Seq<(String, String, u128)>,
    r2: Seq<(String, String, u128)>,
    user: Seq<char>,
    prices: Map<Seq<char>, u128>,
) -> int
    decreases s.len(),
{
    if s.len() == 0 {
        0
    } else {
        let a = s.last().0@;
        value_delta(s.drop_last(), r1, r2, user, prices) + (pair_amount(r2, user, a) - pair_amount(
            r1,
            user,
            a,
        )) * prices[a]
    }
}

proof fn lemma_value_delta(
    s: Seq<(String, WrappedBalance)>,
    r1: Seq<(String, String, u128)>,
    r2: Seq<(String, String, u128)>,
    user: Seq<char>,
    prices: Map<Seq<char>, u128>,
)
    ensures
        user_value(s, r2, user, prices) == user_value(s, r1, user, prices) + value_delta(
            s,
            r1,
            r2,
            user,
            prices,
        ),
    decreases s.len(),
{
    if s.len() > 0 {
        let a = s.last().0@;
        lemma_value_delta(s.drop_last(), r1, r2, user, prices);
        lemma_term(pair_amount(r1, user, a), prices[a]);
        lemma_term(pair_amount(r2, user, a), prices[a]);
        assert(pair_amount(r2, user, a) * prices[a] - pair_amount(r1, user, a) * prices[a] == (
        pair_amount(r2, user, a) - pair_amount(r1, user, a)) * prices[a]) by (nonlinear_arith);
    }
}

proof fn lemma_value_delta_two(
    s: Seq<(String, WrappedBalance)>,
    r1: Seq<(String, String, u128)>,
    r2: Seq<(String, String, u128)>,
    user: Seq<char>,
    k1: Seq<char>,
    k2: Seq<char>,
    prices: Map<Seq<char>, u128>,
)
    requires
        unique_keys(s),
        k1 != k2,
        forall|a: Seq<char>|
            a != k1 && a != k2 ==> #[trigger] pair_amount(r2, user, a) == pair_amount(r1, user, a),
    ensures
        value_delta(s, r1, r2, user, prices) == (if has_key(s, k1) {
            (pair_amount(r2, user, k1) - pair_amount(r1, user, k1)) * prices[k1]
        } else {
            0
        }) + (if has_key(s, k2) {
            (pair_amount(r2, user, k2) - pair_amount(r1, user, k2)) * prices[k2]
        } else {
            0
        }),
    decreases s.len(),
{
    if s.len() > 0 {
        let t = s.drop_last();
        let a = s.last().0@;
        assert(unique_keys(t)) by {
            assert forall|x: int, y: int|
                0 <= x < t.len() && 0 <= y < t.len() && x != y implies (#[trigger] t[x]).0@ != (
                #[trigger] t[y]).0@ by {
                assert(t[x] == s[x] && t[y] == s[y]);
            }
        }
        lemma_value_delta_two(t, r1, r2, user, k1, k2, prices);
        assert(s.last() == s[s.len() - 1]);
        assert forall|k: Seq<char>| #[trigger] has_key(s, k) == (has_key(t, k) || a == k) by {
            if has_key(t, k) {
                let j = index_of(t, k);
                assert(s[j] == t[j]);
            }
            if has_key(s, k) && a != k {
                let j = index_of(s, k);
                assert(j != s.len() - 1);
                assert(t[j] == s[j]);
            }
        }
        if a == k1 || a == k2 {
            assert(!has_key(t, a)) by {
                if has_key(t, a) {
                    let j = index_of(t, a);
                    assert(t[j] == s[j]);
                }
            }
        } else {
            assert(pair_amount(r2, user, a) == pair_amount(r1, user, a));
            assert((pair_amount(r2, user, a) - pair_amount(r1, user, a)) * prices[a] == 0 * prices[a]);
        }
    }
}

/// A swap leaves the swapper's own claim lower by the fee's value and the
/// rounding of the conversion alone: with the swapper not the owner, two
/// distinct assets that the pool already tracks (or no prior contribution in
/// the new one), and the contributions changed as a swap changes them, the
/// swapper's contributions lose the value of `fee` units of `old_raft` and
/// less than one unit of `new_raft`'s price.
pub proof fn lemma_swap_user_value(
    before: DebtPool,
    after: DebtPool,
    prices: Map<Seq<char>, u128>,
    sender: Seq<char>,
    old_raft: String,
    new_raft: String,
    amount: u128,
    fee: int,
)
    requires
        before.wf(),
        old_raft@ != new_raft@,
        0 <= fee <= amount,
        prices[new_raft@] > 0,
        has_key(before.positions(), old_raft@),
        has_key(before.positions(), new_raft@) || before.contribution(sender, new_raft@) == 0,
        after.positions() == swap_positions(
            before.positions(),
            old_raft,
            new_raft,
            amount - fee,
            prices[old_raft@] * (amount - fee) / (prices[new_raft@] as int),
        ),
        forall|a: Seq<char>|
            #![trigger after.contribution(sender, a)]
            after.contribution(sender, a) as int == if a == new_raft@ {
                before.contribution(sender, a) + prices[old_raft@] * (amount - fee) / (
                prices[new_raft@] as int)
            } else if a == old_raft@ {
                before.contribution(sender, a) - amount
            } else {
                before.contribution(sender, a) as int
            },
    ensures
        ({
            let net = amount - fee;
            let out = prices[old_raft@] * net / (prices[new_raft@] as int);
            let loss = prices[old_raft@] * net - out * prices[new_raft@];
            &&& user_value(after.positions(), after.rows(), sender, prices) == user_value(
                before.positions(),
                before.rows(),
                sender,
                prices,
            ) - fee * prices[old_raft@] - loss
            &&& 0 <= loss < prices[new_raft@]
        }),
{
    let s = before.positions();
    let po = prices[old_raft@] as int;
    let pn = prices[new_raft@] as int;
    let net = amount - fee;
    let out = po * net / pn;
    let w1 = WrappedBalance::from_value(position_in(s, old_raft@) - net);
    let s1 = upsert(s, old_raft, w1);
    lemma_upsert(s, old_raft, w1);
    let w2 = WrappedBalance::from_value(position_in(s1, new_raft@) + out);
    let s2 = upsert(s1, new_raft, w2);
    lemma_upsert(s1, new_raft, w2);
    assert(s2 == after.positions());
    let r0 = before.rows();
    let r2 = after.rows();
    lemma_user_value_upsert(s, r0, sender, old_raft, w1, prices);
    lemma_user_value_upsert(s1, r0, sender, new_raft, w2, prices);
    if !has_key(s, new_raft@) {
        assert(pair_amount(r0, sender, new_raft@) * prices[new_raft@] == 0) by (nonlinear_arith)
            requires
                pair_amount(r0, sender, new_raft@) == 0,
        ;
    }
    assert forall|a: Seq<char>|
        a != old_raft@ && a != new_raft@ implies #[trigger] pair_amount(r2, sender, a) == pair_amount(
        r0,
        sender,
        a,
    ) by {
        assert(after.contribution(sender, a) == before.contribution(sender, a));
    }
    assert(after.contribution(sender, old_raft@) == before.contribution(sender, old_raft@) - amount);
    assert(after.contribution(sender, new_raft@) == before.contribution(sender, new_raft@) + out);
    lemma_value_delta(s2, r0, r2, sender, prices);
    lemma_value_delta_two(s2, r0, r2, sender, old_raft@, new_raft@, prices);
    assert(0 <= po * net) by (nonlinear_arith)
        requires
            0 <= po,
            0 <= net,
    ;
    lemma_floor(po * net, pn);
    assert((pair_amount(r2, sender, old_raft@) - pair_amount(r0, sender, old_raft@)) * po == -(
    amount * po)) by (nonlinear_arith)
        requires
            pair_amount(r2, sender, old_raft@) - pair_amount(r0, sender, old_raft@) == -(amount as int),
    ;
    assert((pair_amount(r2, sender, new_raft@) - pair_amount(r0, sender, new_raft@)) * pn == out
        * pn) by (nonlinear_arith)
        requires
            pair_amount(r2, sender, new_raft@) - pair_amount(r0, sender, new_raft@) == out,
    ;
    assert(amount * po == fee * po + po * net) by (nonlinear_arith)
        requires
            net == amount - fee,
    ;
    assert(pn * (po * net / pn) == out * pn) by (nonlinear_arith)
        requires
            out == po * net / pn,
    ;
}

/// The pool.
pub struct DebtPool {
    /// The net position of each asset, in order of first deposit.
    pub raft_amounts: Vec<(AccountId, WrappedBalance)>,
    /// What each user contributed of each asset.
    pub user_raft_amounts: Vec<(AccountId, AccountId, u128)>,
    /// Each user's share of the pool's value, out of `RATIO_DIVISOR`.
    pub debt_ratios: Vec<(AccountId, u128)>,
}

impl DebtPool {
    /// The net position of each asset, in order of first deposit.
    pub open spec fn positions(&self) -> Seq<(String, WrappedBalance)> {
        self.raft_amounts@
    }

    /// The contribution rows `(user, asset, amount)`.
    pub open spec fn rows(&self) -> Seq<(String, String, u128)> {
        self.user_raft_amounts@
    }

    /// The debt ratio of each user.
    pub open spec fn ratios(&self) -> Seq<(String, u128)> {
        self.debt_ratios@
    }

    pub open spec fn wf(&self) -> bool {
        &&& unique_keys(self.positions())
        &&& unique_pairs(self.rows())
        &&& unique_keys(self.ratios())
    }

    /// The signed net position of `asset`; zero where it was never held.
    pub open spec fn position(&self, asset: Seq<char>) -> int {
        position_in(self.positions(), asset)
    }

    /// What `user` contributed of `asset`.
    pub open spec fn contribution(&self, user: Seq<char>, asset: Seq<char>) -> u128 {
        pair_amount(self.rows(), user, asset)
    }

    /// The debt ratio of `user`; zero where none is tracked.
    pub open spec fn ratio(&self, user: Seq<char>) -> u128 {
        amount_of(self.ratios(), user)
    }

    /// An empty pool.
    pub fn new() -> (r: Self)
        ensures
            r.wf(),
            r.positions().len() == 0,
            r.rows().len() == 0,
            r.ratios().len() == 0,
    {
        DebtPool { raft_amounts: Vec::new(), user_raft_amounts: Vec::new(), debt_ratios: Vec::new() }
    }

    /// The net position of `raft_id`; zero where the pool never held it.
    pub fn query_raft_amount(&self, raft_id: &AccountId) -> (r: WrappedBalance)
        requires
            self.wf(),
        ensures
            r.value() == self.position(raft_id@),
            r == match value_of(self.positions(), raft_id@) {
                Some(w) => w,
                None => WrappedBalance { amount: 0, is_positive: true },
            },
    {
        match find_key(&self.raft_amounts, raft_id) {
            Some(i) => {
                proof {
                    lemma_index_of(self.raft_amounts@, i as int);
                }
                self.raft_amounts[i].1
            },
            None => WrappedBalance { amount: 0, is_positive: true },
        }
    }

    /// What `user` contributed of `raft_id`.
    pub fn query_user_raft_amount(&self, user: &AccountId, raft_id: &AccountId) -> (r: u128)
        requires
            self.wf(),
        ensures
            r == self.contribution(user@, raft_id@),
    {
        get_pair(&self.user_raft_amounts, user, raft_id)
    }

    /// The debt ratio of `user`, zero where none is tracked.
    pub fn query_debt_ratio(&self, user: &AccountId) -> (r: u128)
        requires
            self.wf(),
        ensures
            r == self.ratio(user@),
    {
        get_amount(&self.debt_ratios, user)
    }

    /// The value of `amount` units of `raft_id` at the oracle's price.
    pub fn calc_raft_value(&self, price_oracle: &PriceInfo, raft_id: &AccountId, amount: u128) -> (r:
        Result<u128, CraftingError>)
        requires
            price_oracle.wf(),
        ensures
            r == if !price_oracle@.contains_key(raft_id@) {
                Err(CraftingError::PriceNotFound)
            } else if price_oracle@[raft_id@] * amount > u128::MAX {
                Err(CraftingError::Overflow)
            } else {
                Ok::<u128, CraftingError>((price_oracle@[raft_id@] * amount) as u128)
            },
    {
        let price = price_oracle.get_price(raft_id)?;
        match price.checked_mul(amount) {
            Some(v) => Ok(v),
            None => Err(CraftingError::Overflow),
        }
    }

    /// The signed total value of the pool: each asset's net position at its
    /// price, owed positions counting negative.
    pub fn calc_raft_total_value(&self, price_oracle: &PriceInfo) -> (r: Result<
        WrappedBalance,
        CraftingError,
    >)
        requires
            self.wf(),
            price_oracle.wf(),
        ensures
            r == if !all_priced(self.positions(), price_oracle@) {
                Err(CraftingError::PriceNotFound)
            } else if held_value(self.positions(), price_oracle@) > u128::MAX || owed_value(
                self.positions(),
                price_oracle@,
            ) > u128::MAX {
                Err(CraftingError::Overflow)
            } else {
                Ok::<WrappedBalance, CraftingError>(
                    WrappedBalance::from_value(total_value(self.positions(), price_oracle@)),
                )
            },
    {
        let ghost s = self.raft_amounts@;
        let ghost prices = price_oracle@;
        let mut held: u128 = 0;
        let mut owed: u128 = 0;
        let mut overflow = false;
        let mut i: usize = 0;
        while i < self.raft_amounts.len()
            invariant
                s == self.raft_amounts@,
                prices == price_oracle@,
                price_oracle.wf(),
                i <= s.len(),
                all_priced(s.subrange(0, i as int), prices),
                overflow == (held_value(s.subrange(0, i as int), prices) > u128::MAX || owed_value(
                    s.subrange(0, i as int),
                    prices,
                ) > u128::MAX),
                !overflow ==> held == held_value(s.subrange(0, i as int), prices) && owed
                    == owed_value(s.subrange(0, i as int), prices),
            decreases s.len() - i,
        {
            let ghost pre = s.subrange(0, i as int);
            let ghost next = s.subrange(0, i + 1);
            assert(next.drop_last() =~= pre);
            assert(next.last() == s[i as int]);
            let price = match price_oracle.get_price(&self.raft_amounts[i].0) {
                Ok(p) => p,
                Err(e) => {
                    assert(!all_priced(s, prices)) by {
                        assert(s[i as int].0@ == self.raft_amounts@[i as int].0@);
                    }
                    return Err(e);
                },
            };
            let b = self.raft_amounts[i].1;
            if !overflow {
                match b.amount.checked_mul(price) {
                    Some(v) => {
                        if b.is_positive {
                            match held.checked_add(v) {
                                Some(h) => {
                                    held = h;
                                },
                                None => {
                                    overflow = true;
                                },
                            }
                        } else {
                            match owed.checked_add(v) {
                                Some(o) => {
                                    owed = o;
                                },
                                None => {
                                    overflow = true;
                                },
                            }
                        }
                    },
                    None => {
                        overflow = true;
                    },
                }
            }
            assert(all_priced(next, prices)) by {
                assert forall|j: int| 0 <= j < next.len() implies prices.contains_key(
                    (#[trigger] next[j]).0@,
                ) by {
                    if j < i {
                        assert(next[j] == pre[j]);
                    }
                }
            }
            i = i + 1;
        }
        assert(s.subrange(0, s.len() as int) =~= s);
        proof {
            lemma_total_parts(s, prices);
        }
        if overflow {
            Err(CraftingError::Overflow)
        } else if held >= owed {
            Ok(WrappedBalance { amount: held - owed, is_positive: true })
        } else {
            Ok(WrappedBalance { amount: owed - held, is_positive: false })
        }
    }

    /// The value of `user`'s own contributions over the pool's assets.
    pub fn calc_user_raft_total_value(&self, price_oracle: &PriceInfo, user: &AccountId) -> (r:
        Result<u128, CraftingError>)
        requires
            self.wf(),
            price_oracle.wf(),
        ensures
            r == if !user_priced(self.positions(), self.rows(), user@, price_oracle@) {
                Err(CraftingError::PriceNotFound)
            } else if user_value(self.positions(), self.rows(), user@, price_oracle@) > u128::MAX {
                Err(CraftingError::Overflow)
            } else {
                Ok::<u128, CraftingError>(
                    user_value(self.positions(), self.rows(), user@, price_oracle@) as u128,
                )
            },
    {
        let ghost s = self.raft_amounts@;
        let ghost rows = self.user_raft_amounts@;
        let ghost prices = price_oracle@;
        let mut total: u128 = 0;
        let mut overflow = false;
        let mut i: usize = 0;
        while i < self.raft_amounts.len()
            invariant
                s == self.raft_amounts@,
                rows == self.user_raft_amounts@,
                unique_pairs(rows),
                prices == price_oracle@,
                price_oracle.wf(),
                i <= s.len(),
                user_priced(s.subrange(0, i as int), rows, user@, prices),
                overflow == (user_value(s.subrange(0, i as int), rows, user@, prices) > u128::MAX),
                !overflow ==> total == user_value(s.subrange(0, i as int), rows, user@, prices),
            decreases s.len() - i,
        {
            let ghost pre = s.subrange(0, i as int);
            let ghost next = s.subrange(0, i + 1);
            assert(next.drop_last() =~= pre);
            assert(next.last() == s[i as int]);
            let amount = get_pair(&self.user_raft_amounts, user, &self.raft_amounts[i].0);
            if amount != 0 {
                let price = match price_oracle.get_price(&self.raft_amounts[i].0) {
                    Ok(p) => p,
                    Err(e) => {
                        assert(!user_priced(s, rows, user@, prices)) by {
                            assert(s[i as int].0@ == self.raft_amounts@[i as int].0@);
                        }
                        return Err(e);
                    },
                };
                if !overflow {
                    match amount.checked_mul(price) {
                        Some(v) => match total.checked_add(v) {
                            Some(t) => {
                                total = t;
                            },
                            None => {
                                overflow = true;
                            },
                        },
                        None => {
                            overflow = true;
                        },
                    }
                }
            }
            assert(user_priced(next, rows, user@, prices)) by {
                assert forall|j: int|
                    0 <= j < next.len() && pair_amount(rows, user@, (#[trigger] next[j]).0@)
                        != 0 implies prices.contains_key(next[j].0@) by {
                    if j < i {
                        assert(next[j] == pre[j]);
                    }
                }
            }
            i = i + 1;
        }
        assert(s.subrange(0, s.len() as int) =~= s);
        if overflow {
            Err(CraftingError::Overflow)
        } else {
            Ok(total)
        }
    }

    /// Why a join of `user` with `amount` of `raft` is refused, if it is: a
    /// missing price, a value that does not fit, or a negative total value.
    pub open spec fn join_error(
        &self,
        prices: Map<Seq<char>, u128>,
        user: Seq<char>,
        raft: Seq<char>,
        amount: u128,
    ) -> Option<CraftingError> {
        let s = self.positions();
        let old = total_value(s, prices);
        let joined = prices[raft] * amount;
        if s.len() == 0 {
            None
        } else if !prices.contains_key(raft) || !all_priced(s, prices) {
            Some(CraftingError::PriceNotFound)
        } else if held_value(s, prices) > u128::MAX || owed_value(s, prices) > u128::MAX {
            Some(CraftingError::Overflow)
        } else if old < 0 {
            Some(CraftingError::InvalidTotalValue)
        } else if joined > u128::MAX || !WrappedBalance::holds(self.position(raft) + amount)
            || self.contribution(user, raft) + amount > u128::MAX || old + joined > u128::MAX || (
        old + joined > 0 && !dilution_fits(self.ratios(), old, old + joined, user)) {
            Some(CraftingError::Overflow)
        } else {
            None
        }
    }

    /// `new` is `old` after `user` joined with `amount` of `raft`.
    pub open spec fn join_post(
        old: DebtPool,
        new: DebtPool,
        prices: Map<Seq<char>, u128>,
        user: String,
        raft: String,
        amount: u128,
    ) -> bool {
        let old_total = total_value(old.positions(), prices);
        let new_total = old_total + prices[raft@] * amount;
        &&& forall|u: Seq<char>, a: Seq<char>|
            #![trigger new.contribution(u, a)]
            new.contribution(u, a) as int == if u == user@ && a == raft@ {
                (if old.positions().len() == 0 {
                    0
                } else {
                    old.contribution(u, a)
                }) + amount
            } else {
                old.contribution(u, a) as int
            }
        &&& old.positions().len() == 0 ==> {
            &&& new.positions() == seq![
                (raft, WrappedBalance { amount: amount, is_positive: true }),
            ]
            &&& new.ratios() == seq![(user, RATIO_DIVISOR)]
        }
        &&& old.positions().len() > 0 ==> {
            &&& new.positions() == upsert(
                old.positions(),
                raft,
                WrappedBalance::from_value(old.position(raft@) + amount),
            )
            &&& new.ratios() == if new_total > 0 {
                joined_ratios(old.ratios(), old_total, new_total, user)
            } else {
                old.ratios()
            }
        }
    }

    /// Adds `raft_amount` of `raft_id` to the pool on behalf of `user`.
    ///
    /// The first deposit into an empty pool gives its depositor the whole
    /// pool. Every later one adds to the asset's net position and to the
    /// user's contribution, and rescales every ratio by the pool's value
    /// before over its value after, the joiner's ratio gaining the value
    /// joined. Where the value after is zero the ratios stay as they are.
    pub fn join(
        &mut self,
        price_oracle: &PriceInfo,
        user: &AccountId,
        raft_id: &AccountId,
        raft_amount: u128,
    ) -> (r: Result<(), CraftingError>)
        requires
            old(self).wf(),
            price_oracle.wf(),
        ensures
            final(self).wf(),
            r == match old(self).join_error(price_oracle@, user@, raft_id@, raft_amount) {
                Some(e) => Err(e),
                None => Ok::<(), CraftingError>(()),
            },
            r is Err ==> *final(self) == *old(self),
            r is Ok ==> DebtPool::join_post(
                *old(self),
                *final(self),
                price_oracle@,
                *user,
                *raft_id,
                raft_amount,
            ),
    {
        let ghost before = *self;
        if self.raft_amounts.len() == 0 {
            self.raft_amounts = vec![
                (raft_id.clone(), WrappedBalance { amount: raft_amount, is_positive: true }),
            ];
            put_pair(&mut self.user_raft_amounts, user, raft_id, raft_amount);
            self.debt_ratios = vec![(user.clone(), RATIO_DIVISOR)];
            assert forall|u: Seq<char>, a: Seq<char>|
                #![trigger self.contribution(u, a)]
                self.contribution(u, a) as int == if u == user@ && a == raft_id@ {
                    0 + raft_amount
                } else {
                    before.contribution(u, a) as int
                } by {}
            assert(self.positions() =~= seq![
                (*raft_id, WrappedBalance { amount: raft_amount, is_positive: true }),
            ]);
            assert(self.ratios() =~= seq![(*user, RATIO_DIVISOR)]);
            return Ok(());
        }
        let price = price_oracle.get_price(raft_id)?;
        let old_total_value = self.calc_raft_total_value(price_oracle)?;
        proof {
            lemma_total_parts(self.positions(), price_oracle@);
        }
        if !old_total_value.is_positive {
            return Err(CraftingError::InvalidTotalValue);
        }
        let old_total = old_total_value.amount;
        let join_raft_value = match price.checked_mul(raft_amount) {
            Some(v) => v,
            None => {
                return Err(CraftingError::Overflow);
            },
        };
        let new_raft_amount = self.query_raft_amount(raft_id).plus(raft_amount)?;
        let new_user_raft_amount = match self.query_user_raft_amount(user, raft_id).checked_add(
            raft_amount,
        ) {
            Some(v) => v,
            None => {
                return Err(CraftingError::Overflow);
            },
        };
        let new_total = match old_total.checked_add(join_raft_value) {
            Some(v) => v,
            None => {
                return Err(CraftingError::Overflow);
            },
        };
        if new_total > 0 {
            let ratios = self.calc_debt_ratio(old_total, new_total, user)?;
            self.debt_ratios = ratios;
        }
        put(&mut self.raft_amounts, raft_id, new_raft_amount);
        put_pair(&mut self.user_raft_amounts, user, raft_id, new_user_raft_amount);
        Ok(())
    }

    /// The ratios after `sender_id` joins, taking the pool's value from
    /// `old_total_value` to `new_total_value`.
    fn calc_debt_ratio(&self, old_total_value: u128, new_total_value: u128, sender_id: &AccountId) -> (r:
        Result<Vec<(AccountId, u128)>, CraftingError>)
        requires
            self.wf(),
            old_total_value <= new_total_value,
            0 < new_total_value,
        ensures
            match r {
                Ok(v) => dilution_fits(
                    self.ratios(),
                    old_total_value as int,
                    new_total_value as int,
                    sender_id@,
                ) && v@ == joined_ratios(
                    self.ratios(),
                    old_total_value as int,
                    new_total_value as int,
                    *sender_id,
                ) && unique_keys(v@),
                Err(e) => e == CraftingError::Overflow && !dilution_fits(
                    self.ratios(),
                    old_total_value as int,
                    new_total_value as int,
                    sender_id@,
                ),
            },
    {
        let ghost s = self.debt_ratios@;
        let ghost old = old_total_value as int;
        let ghost new = new_total_value as int;
        let grow = match (new_total_value - old_total_value).checked_mul(RATIO_DIVISOR) {
            Some(g) => g,
            None => {
                return Err(CraftingError::Overflow);
            },
        };
        let mut out: Vec<(AccountId, u128)> = Vec::new();
        let mut found = false;
        let mut i: usize = 0;
        while i < self.debt_ratios.len()
            invariant
                s == self.debt_ratios@,
                unique_keys(s),
                old == old_total_value,
                new == new_total_value,
                0 < new_total_value,
                grow == (new - old) * RATIO_DIVISOR,
                i <= s.len(),
                out@ == diluted(s.subrange(0, i as int), old, new, sender_id@),
                found == has_key(s.subrange(0, i as int), sender_id@),
                forall|j: int|
                    0 <= j < i ==> old * (#[trigger] s[j]).1 + (if s[j].0@ == sender_id@ {
                        (new - old) * RATIO_DIVISOR
                    } else {
                        0
                    }) <= u128::MAX,
            decreases s.len() - i,
        {
            let ghost pre = s.subrange(0, i as int);
            let ghost next = s.subrange(0, i + 1);
            let ratio = self.debt_ratios[i].1;
            let scaled = match old_total_value.checked_mul(ratio) {
                Some(v) => v,
                None => {
                    return Err(CraftingError::Overflow);
                },
            };
            let is_sender = self.debt_ratios[i].0 == *sender_id;
            let v = if is_sender {
                found = true;
                match scaled.checked_add(grow) {
                    Some(t) => t / new_total_value,
                    None => {
                        return Err(CraftingError::Overflow);
                    },
                }
            } else {
                scaled / new_total_value
            };
            out.push((self.debt_ratios[i].0.clone(), v));
            assert(diluted(next, old, new, sender_id@) =~= diluted(pre, old, new, sender_id@).push(
                (s[i as int].0, v),
            ));
            assert(has_key(next, sender_id@) == (has_key(pre, sender_id@) || s[i as int].0@
                == sender_id@)) by {
                if has_key(pre, sender_id@) {
                    let j = index_of(pre, sender_id@);
                    assert(next[j] == pre[j]);
                }
                if s[i as int].0@ == sender_id@ {
                    assert(next[i as int] == s[i as int]);
                }
                if has_key(next, sender_id@) && s[i as int].0@ != sender_id@ {
                    let j = index_of(next, sender_id@);
                    assert(j < i);
                    assert(pre[j] == next[j]);
                }
            }
            i = i + 1;
        }
        assert(s.subrange(0, s.len() as int) =~= s);
        if !found {
            out.push((sender_id.clone(), grow / new_total_value));
        }
        proof {
            let t = out@;
            let d = diluted(s, old, new, sender_id@);
            assert forall|a: int, b: int|
                0 <= a < t.len() && 0 <= b < t.len() && a != b implies (#[trigger] t[a]).0@ != (
                #[trigger] t[b]).0@ by {
                if a < s.len() && b < s.len() {
                    assert(t[a].0 == s[a].0 && t[b].0 == s[b].0);
                } else if a < s.len() {
                    assert(t[a].0 == s[a].0);
                    assert(!has_key(s, sender_id@));
                } else if b < s.len() {
                    assert(t[b].0 == s[b].0);
                    assert(!has_key(s, sender_id@));
                }
            }
        }
        Ok(out)
    }

    /// Rescales every ratio by `old_total_value / new_total_value`, as when a
    /// redemption changes the pool's value; a new value of zero leaves the
    /// ratios as they are.
    pub fn calc_all_debt_ratio(&mut self, old_total_value: u128, new_total_value: u128) -> (r: Result<
        (),
        CraftingError,
    >)
        requires
            old(self).wf(),
        ensures
            final(self).wf(),
            final(self).positions() == old(self).positions(),
            final(self).rows() == old(self).rows(),
            r == if new_total_value == 0 || scale_fits(old(self).ratios(), old_total_value as int) {
                Ok::<(), CraftingError>(())
            } else {
                Err(CraftingError::Overflow)
            },
            final(self).ratios() == if new_total_value > 0 && r is Ok {
                scaled(old(self).ratios(), old_total_value as int, new_total_value as int)
            } else {
                old(self).ratios()
            },
    {
        if new_total_value == 0 {
            return Ok(());
        }
        let ghost s = self.debt_ratios@;
        let mut out: Vec<(AccountId, u128)> = Vec::new();
        let mut i: usize = 0;
        while i < self.debt_ratios.len()
            invariant
                s == self.debt_ratios@,
                self.wf(),
                0 < new_total_value,
                i <= s.len(),
                out@ == scaled(s.subrange(0, i as int), old_total_value as int, new_total_value as int),
                forall|j: int| 0 <= j < i ==> old_total_value * (#[trigger] s[j]).1 <= u128::MAX,
            decreases s.len() - i,
        {
            let v = match old_total_value.checked_mul(self.debt_ratios[i].1) {
                Some(v) => v / new_total_value,
                None => {
                    return Err(CraftingError::Overflow);
                },
            };
            out.push((self.debt_ratios[i].0.clone(), v));
            assert(scaled(s.subrange(0, i + 1), old_total_value as int, new_total_value as int)
                =~= scaled(s.subrange(0, i as int), old_total_value as int, new_total_value as int).push(
                (s[i as int].0, v),
            ));
            i = i + 1;
        }
        assert(s.subrange(0, s.len() as int) =~= s);
        proof {
            let t = out@;
            assert forall|a: int, b: int|
                0 <= a < t.len() && 0 <= b < t.len() && a != b implies (#[trigger] t[a]).0@ != (
                #[trigger] t[b]).0@ by {
                assert(t[a].0 == s[a].0 && t[b].0 == s[b].0);
            }
        }
        self.debt_ratios = out;
        Ok(())
    }

    /// Sets the net position of `raft_id`.
    pub fn insert_raft_amount(&mut self, raft_id: &AccountId, amount: WrappedBalance)
        requires
            old(self).wf(),
        ensures
            final(self).wf(),
            final(self).positions() == upsert(old(self).positions(), *raft_id, amount),
            final(self).rows() == old(self).rows(),
            final(self).ratios() == old(self).ratios(),
    {
        put(&mut self.raft_amounts, raft_id, amount);
    }

    /// Sets what `user` contributed of `raft_id`.
    pub fn insert_user_raft_amount(&mut self, user: &AccountId, raft_id: &AccountId, amount: u128)
        requires
            old(self).wf(),
        ensures
            final(self).wf(),
            final(self).positions() == old(self).positions(),
            final(self).ratios() == old(self).ratios(),
            forall|u: Seq<char>, a: Seq<char>| #[trigger]
                final(self).contribution(u, a) == if u == user@ && a == raft_id@ {
                    amount
                } else {
                    old(self).contribution(u, a)
                },
    {
        put_pair(&mut self.user_raft_amounts, user, raft_id, amount);
    }

    /// Clears what `user` contributed of `raft_id`.
    pub fn remove_user_raft_amount(&mut self, user: &AccountId, raft_id: &AccountId)
        requires
            old(self).wf(),
        ensures
            final(self).wf(),
            final(self).positions() == old(self).positions(),
            final(self).ratios() == old(self).ratios(),
            forall|u: Seq<char>, a: Seq<char>| #[trigger]
                final(self).contribution(u, a) == if u == user@ && a == raft_id@ {
                    0
                } else {
                    old(self).contribution(u, a)
                },
    {
        put_pair(&mut self.user_raft_amounts, user, raft_id, 0);
    }

    /// Stops tracking the debt ratio of `user`.
    pub fn remove_debt_ratio(&mut self, user: &AccountId)
        requires
            old(self).wf(),
        ensures
            final(self).wf(),
            final(self).positions() == old(self).positions(),
            final(self).rows() == old(self).rows(),
            final(self).ratios() == without(old(self).ratios(), user@),
            !has_key(final(self).ratios(), user@),
    {
        let ghost s = self.debt_ratios@;
        match find_key(&self.debt_ratios, user) {
            Some(i) => {
                proof {
                    lemma_index_of(s, i as int);
                }
                self.debt_ratios.remove(i);
                proof {
                    let t = self.debt_ratios@;
                    assert(t =~= s.remove(i as int));
                    assert forall|a: int, b: int|
                        0 <= a < t.len() && 0 <= b < t.len() && a != b implies (
                        #[trigger] t[a]).0@ != (#[trigger] t[b]).0@ by {
                        let a2 = if a < i {
                            a
                        } else {
                            a + 1
                        };
                        let b2 = if b < i {
                            b
                        } else {
                            b + 1
                        };
                        assert(t[a] == s[a2] && t[b] == s[b2]);
                    }
                    if has_key(t, user@) {
                        let j = index_of(t, user@);
                        let j2 = if j < i {
                            j
                        } else {
                            j + 1
                        };
                        assert(t[j] == s[j2]);
                    }
                }
            },
            None => {},
        }
    }

    /// Adds `amount` to the net position of `raft_id`.
    pub fn calc_add_raft_amount(&mut self, raft_id: &AccountId, amount: u128) -> (r: Result<
        (),
        CraftingError,
    >)
        requires
            old(self).wf(),
        ensures
            final(self).wf(),
            r == if WrappedBalance::holds(old(self).position(raft_id@) + amount) {
                Ok::<(), CraftingError>(())
            } else {
                Err(CraftingError::Overflow)
            },
            final(self).positions() == if r is Ok {
                upsert(
                    old(self).positions(),
                    *raft_id,
                    WrappedBalance::from_value(old(self).position(raft_id@) + amount),
                )
            } else {
                old(self).positions()
            },
            final(self).rows() == old(self).rows(),
            final(self).ratios() == old(self).ratios(),
    {
        let w = self.query_raft_amount(raft_id).plus(amount)?;
        put(&mut self.raft_amounts, raft_id, w);
        Ok(())
    }

    /// Subtracts `amount` from the net position of `raft_id`; a held position
    /// that goes below zero turns owed.
    pub fn calc_sub_raft_amount(&mut self, raft_id: &AccountId, amount: u128) -> (r: Result<
        (),
        CraftingError,
    >)
        requires
            old(self).wf(),
        ensures
            final(self).wf(),
            r == if WrappedBalance::holds(old(self).position(raft_id@) - amount) {
                Ok::<(), CraftingError>(())
            } else {
                Err(CraftingError::Overflow)
            },
            final(self).positions() == if r is Ok {
                upsert(
                    old(self).positions(),
                    *raft_id,
                    WrappedBalance::from_value(old(self).position(raft_id@) - amount),
                )
            } else {
                old(self).positions()
            },
            final(self).rows() == old(self).rows(),
            final(self).ratios() == old(self).ratios(),
    {
        let w = self.query_raft_amount(raft_id).minus(amount)?;
        put(&mut self.raft_amounts, raft_id, w);
        Ok(())
    }

    /// `user`'s non-zero contributions, asset by asset in the pool's order.
    pub fn query_user_raft_amounts(&self, user: &AccountId) -> (r: Vec<(AccountId, u128)>)
        requires
            self.wf(),
        ensures
            r@ == holdings(self.positions(), self.rows(), user@),
    {
        let ghost s = self.raft_amounts@;
        let mut out: Vec<(AccountId, u128)> = Vec::new();
        let mut i: usize = 0;
        while i < self.raft_amounts.len()
            invariant
                s == self.raft_amounts@,
                self.wf(),
                i <= s.len(),
                out@ == holdings(s.subrange(0, i as int), self.rows(), user@),
            decreases s.len() - i,
        {
            let ghost next = s.subrange(0, i + 1);
            assert(next.drop_last() =~= s.subrange(0, i as int));
            let amount = self.query_user_raft_amount(user, &self.raft_amounts[i].0);
            if amount != 0 {
                out.push((self.raft_amounts[i].0.clone(), amount));
            }
            assert(out@ =~= holdings(next, self.rows(), user@));
            i = i + 1;
        }
        assert(s.subrange(0, s.len() as int) =~= s);
        out
    }

    /// A copy of the pool.
    pub fn duplicate(&self) -> (r: DebtPool)
        ensures
            r.positions() == self.positions(),
            r.rows() == self.rows(),
            r.ratios() == self.ratios(),
    {
        DebtPool {
            raft_amounts: copy_table(&self.raft_amounts),
            user_raft_amounts: copy_pairs(&self.user_raft_amounts),
            debt_ratios: copy_table(&self.debt_ratios),
        }
    }
}

} // verus!
