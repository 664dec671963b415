//! Proportional distribution of funds among claimants.

use vstd::prelude::*;
use vstd::arithmetic::div_mod::{lemma_div_is_ordered, lemma_fundamental_div_mod, lemma_fundamental_div_mod_converse};
use vstd::arithmetic::mul::lemma_mul_inequality;
use crate::coin::{
    balanced, Coin, CoinError, CoinSet, coins_map, distinct_denoms, fan_out, has_denom, input_amount, known_denoms,
    lemma_coins_map_at, lemma_coins_map_push, lemma_sent_total_append, lemma_sorted_distinct_all, sent_total,
    sorted_coins, TransferMsg,
};
use crate::error::XcosmError;
use crate::math::{ContainerError, MathError, TryMinus, TryMinusMut, TryPlus};
use crate::validate::ValidateError;

verus! {

/// Error of a distribution.
#[derive(Debug, Clone, PartialEq, Eq)]
pub enum FundError {
    Coin(CoinError),
    Math(MathError),
    Validate(ValidateError),
    /// The claims add up to more than the whole.
    DistributionOverclaimed {},
    /// The distribution has no claim.
    DistributionUnclaimed {},
    Unexpected { msg: String },
}

/// The divisor of a share: a claim of `bps` takes `total * bps / 100000`.
pub const BPS_DIVISOR: u128 = 100000;

/// The basis points that make up the whole.
pub const BPS_WHOLE: u32 = 10000;

/// The share of `total` that a claim of `bps` takes, rounded down.
pub open spec fn share(total: int, bps: int) -> int {
    total * bps / 100000
}

/// A share never exceeds the total while the claim is at most the divisor.
pub proof fn lemma_share_bounded(total: int, bps: int, limit: int)
    requires
        0 <= total,
        0 <= bps <= limit,
    ensures
        0 <= share(total, bps) <= share(total, limit),
        limit <= 100000 ==> share(total, limit) <= total,
{
    lemma_mul_inequality(bps, limit, total);
    assert(total * bps == bps * total) by (nonlinear_arith);
    assert(total * limit == limit * total) by (nonlinear_arith);
    assert(0 <= total * bps) by (nonlinear_arith)
        requires
            0 <= total,
            0 <= bps,
    ;
    lemma_div_is_ordered(total * bps, total * limit, 100000);
    lemma_div_is_ordered(0, total * bps, 100000);
    if limit <= 100000 {
        lemma_mul_inequality(limit, 100000, total);
        assert(limit * total <= total * 100000) by (nonlinear_arith)
            requires
                limit * total <= 100000 * total,
        ;
        lemma_div_is_ordered(total * limit, total * 100000, 100000);
        assert(total * 100000 / 100000 == total) by (nonlinear_arith);
    }
}

/// Two shares of one total together take no more than the share of the
/// claims added.
pub proof fn lemma_share_superadditive(total: int, a: int, b: int)
    requires
        0 <= total,
        0 <= a,
        0 <= b,
    ensures
        share(total, a) + share(total, b) <= share(total, a + b),
{
    let x = total * a;
    let y = total * b;
    assert(total * (a + b) == x + y) by (nonlinear_arith)
        requires
            x == total * a,
            y == total * b,
    ;
    assert(0 <= x && 0 <= y) by (nonlinear_arith)
        requires
            0 <= total,
            0 <= a,
            0 <= b,
            x == total * a,
            y == total * b,
    ;
    lemma_fundamental_div_mod(x, 100000);
    lemma_fundamental_div_mod(y, 100000);
    lemma_fundamental_div_mod(x + y, 100000);
    let qx = x / 100000;
    let qy = y / 100000;
    let q = (x + y) / 100000;
    assert(qx + qy <= q) by (nonlinear_arith)
        requires
            x == 100000 * qx + x % 100000,
            y == 100000 * qy + y % 100000,
            x + y == 100000 * q + (x + y) % 100000,
            0 <= x % 100000 < 100000,
            0 <= y % 100000 < 100000,
            0 <= (x + y) % 100000 < 100000,
    ;
}

/// The shares that a claim of `bps` takes of each amount of a balance.
pub open spec fn shares_map(funds: Map<Seq<char>, u128>, bps: int) -> Map<Seq<char>, u128> {
    Map::new(|d: Seq<char>| funds.contains_key(d), |d: Seq<char>| share(funds[d] as int, bps) as u128)
}

/// Each share of a balance fits in a `u128`.
pub open spec fn shares_fit(funds: Map<Seq<char>, u128>, bps: int) -> bool {
    forall|d: Seq<char>| #[trigger] funds.contains_key(d) ==> share(funds[d] as int, bps) <= u128::MAX
}

/// A claim of no basis points takes nothing of any total; no claim takes
/// anything of an empty total; a claim of the whole divisor takes the total.
pub proof fn lemma_share_edges(total: int, bps: int)
    requires
        0 <= total,
        0 <= bps,
    ensures
        share(total, 0) == 0,
        share(0, bps) == 0,
        share(total, 100000) == total,
{
    assert(total * 0 == 0) by (nonlinear_arith);
    assert(0 * bps == 0) by (nonlinear_arith);
    assert(total * 100000 / 100000 == total) by (nonlinear_arith);
}

/// A share of funds: a number of basis points held by one claimant.
#[derive(Debug, Clone, Copy, PartialEq, Eq)]
pub struct Claim(u32);

impl View for Claim {
    type V = u32;

    closed spec fn view(&self) -> u32 {
        self.0
    }
}

impl Claim {
    pub fn new(bps: u32) -> (r: Claim)
        ensures
            r@ == bps,
    {
        Claim(bps)
    }

    pub fn bps(&self) -> (r: u32)
        ensures
            r == self@,
    {
        self.0
    }

    /// The share claimed of every amount of `funds`.
    pub fn claim(&self, funds: &CoinSet) -> (r: Result<CoinSet, XcosmError>)
        ensures
            r is Ok <==> shares_fit(funds@, self@ as int),
            r matches Ok(c) ==> c@ == shares_map(funds@, self@ as int),
            r is Err ==> r == Err::<CoinSet, XcosmError>(XcosmError::Math(MathError::Container(ContainerError::Overflow {}))),
    {
        let v = funds.to_vec();
        proof {
            lemma_sorted_distinct_all(v@);
        }
        let mut claimed = CoinSet::new();
        let mut i: usize = 0;
        assert(v@.take(0) =~= Seq::<crate::coin::Coin>::empty());
        assert(coins_map(v@.take(0)) =~= Map::<Seq<char>, u128>::empty());
        assert(claimed@ =~= shares_map(coins_map(v@.take(0)), self@ as int));
        while i < v.len()
            invariant
                i <= v.len(),
                sorted_coins(v@),
                distinct_denoms(v@),
                coins_map(v@) == funds@,
                claimed@ == shares_map(coins_map(v@.take(i as int)), self@ as int),
                forall|k: int| 0 <= k < i ==> share((#[trigger] v@[k]).amount as int, self@ as int) <= u128::MAX,
            decreases v.len() - i,
        {
            let ghost prefix = v@.take(i as int);
            proof {
                assert(v@.take(i + 1) =~= prefix.push(v@[i as int]));
                assert forall|a: int, b: int| 0 <= a < prefix.len() && 0 <= b < prefix.len() && a != b implies #[trigger] prefix[a].denom@ != #[trigger] prefix[b].denom@ by {
                    assert(prefix[a] == v@[a] && prefix[b] == v@[b]);
                }
                if has_denom(prefix, v@[i as int].denom@) {
                    let k = choose|k: int| 0 <= k < prefix.len() && (#[trigger] prefix[k]).denom@ == v@[i as int].denom@;
                    assert(prefix[k] == v@[k]);
                }
                lemma_coins_map_push(prefix, v@[i as int]);
                crate::coin::lemma_coins_map_at(v@, i as int);
            }
            let amount = match self.claim_amount(v[i].amount) {
                Ok(a) => a,
                Err(e) => {
                    proof {
                        assert(funds@.contains_key(v@[i as int].denom@));
                    }
                    return Err(e);
                },
            };
            let _ = claimed.try_insert(&v[i].denom, amount);
            proof {
                assert(claimed@ =~= shares_map(coins_map(v@.take(i + 1)), self@ as int));
            }
            i = i + 1;
        }
        proof {
            assert(v@.take(i as int) =~= v@);
            assert forall|d: Seq<char>| #[trigger] funds@.contains_key(d) implies share(funds@[d] as int, self@ as int) <= u128::MAX by {
                let k = crate::coin::index_of(v@, d);
                crate::coin::lemma_coins_map_at(v@, k);
            }
        }
        Ok(claimed)
    }

    /// The share of `total` claimed, rounded down; fails only where the share
    /// itself does not fit in a `u128`.
    pub fn claim_amount(&self, total: u128) -> (r: Result<u128, XcosmError>)
        ensures
            share(total as int, self@ as int) <= u128::MAX ==> r == Ok::<u128, XcosmError>(share(total as int, self@ as int) as u128),
            share(total as int, self@ as int) > u128::MAX ==> r == Err::<u128, XcosmError>(
                XcosmError::Math(MathError::Container(ContainerError::Overflow {})),
            ),
    {
        let b = self.0 as u128;
        let q = total / BPS_DIVISOR;
        let rest = total % BPS_DIVISOR;
        proof {
            assert(rest * b < 100000 * 0x1_0000_0000) by (nonlinear_arith)
                requires
                    rest < 100000,
                    b < 0x1_0000_0000,
            ;
            let x = total as int * b as int;
            lemma_fundamental_div_mod(total as int, 100000);
            lemma_fundamental_div_mod(rest as int * b as int, 100000);
            assert(x == (q as int * b as int + (rest as int * b as int) / 100000) * 100000 + (rest as int * b as int) % 100000) by (nonlinear_arith)
                requires
                    total as int == 100000 * q as int + rest as int,
                    rest as int * b as int == 100000 * ((rest as int * b as int) / 100000) + (rest as int * b as int) % 100000,
                    x == total as int * b as int,
            ;
            lemma_fundamental_div_mod_converse(x, 100000, q as int * b as int + (rest as int * b as int) / 100000, (rest as int * b as int) % 100000);
            lemma_div_is_ordered(0, rest as int * b as int, 100000);
            assert(0 <= q as int * b as int) by (nonlinear_arith)
                requires
                    0 <= q,
                    0 <= b,
            ;
        }
        let low = rest * b / BPS_DIVISOR;
        match q.checked_mul(b) {
            None => Err(XcosmError::Math(MathError::Container(ContainerError::Overflow {}))),
            Some(high) => match high.checked_add(low) {
                None => Err(XcosmError::Math(MathError::Container(ContainerError::Overflow {}))),
                Some(amount) => Ok(amount),
            },
        }
    }
}

/// The claims of a list, as (principal, basis points) pairs.
pub open spec fn claims_view(v: Seq<(String, Claim)>) -> Seq<(Seq<char>, u32)> {
    v.map_values(|e: (String, Claim)| (e.0@, e.1@))
}

/// No principal holds two claims.
pub open spec fn distinct_principals(s: Seq<(Seq<char>, u32)>) -> bool {
    forall|i: int, j: int| 0 <= i < s.len() && 0 <= j < s.len() && i != j ==> #[trigger] s[i].0 != #[trigger] s[j].0
}

pub open spec fn has_principal(s: Seq<(Seq<char>, u32)>, p: Seq<char>) -> bool {
    exists|i: int| 0 <= i < s.len() && (#[trigger] s[i]).0 == p
}

pub open spec fn principal_index(s: Seq<(Seq<char>, u32)>, p: Seq<char>) -> int {
    choose|i: int| 0 <= i < s.len() && (#[trigger] s[i]).0 == p
}

/// The basis points a principal holds; zero without a claim.
pub open spec fn bps_of(s: Seq<(Seq<char>, u32)>, p: Seq<char>) -> int {
    if has_principal(s, p) {
        s[principal_index(s, p)].1 as int
    } else {
        0
    }
}

/// The claims with `p` holding `b`: its claim replaced in place, or appended.
pub open spec fn with_claim(s: Seq<(Seq<char>, u32)>, p: Seq<char>, b: u32) -> Seq<(Seq<char>, u32)> {
    if has_principal(s, p) {
        s.update(principal_index(s, p), (p, b))
    } else {
        s.push((p, b))
    }
}

/// The claims of a list collected one by one, a later claim of a principal
/// replacing an earlier one.
pub open spec fn collected(s: Seq<(Seq<char>, u32)>) -> Seq<(Seq<char>, u32)>
    decreases s.len(),
{
    if s.len() == 0 {
        seq![]
    } else {
        with_claim(collected(s.drop_last()), s.last().0, s.last().1)
    }
}

/// The sum of the basis points of all claims.
pub open spec fn bps_total(s: Seq<(Seq<char>, u32)>) -> int
    decreases s.len(),
{
    if s.len() == 0 {
        0
    } else {
        bps_total(s.drop_last()) + s.last().1
    }
}

pub proof fn lemma_bps_total_take(s: Seq<(Seq<char>, u32)>, k: int)
    requires
        0 <= k < s.len(),
    ensures
        bps_total(s.take(k + 1)) == bps_total(s.take(k)) + s[k].1,
{
    assert(s.take(k + 1).drop_last() =~= s.take(k));
}

/// Every claim, and every prefix of the claims, is within the total.
pub proof fn lemma_bps_total_bounds(s: Seq<(Seq<char>, u32)>)
    ensures
        0 <= bps_total(s),
        forall|i: int| 0 <= i < s.len() ==> (#[trigger] s[i]).1 <= bps_total(s),
        forall|k: int| 0 <= k <= s.len() ==> 0 <= #[trigger] bps_total(s.take(k)) <= bps_total(s),
    decreases s.len(),
{
    if s.len() > 0 {
        let t = s.drop_last();
        lemma_bps_total_bounds(t);
        assert forall|i: int| 0 <= i < s.len() implies (#[trigger] s[i]).1 <= bps_total(s) by {
            if i < t.len() {
                assert(s[i] == t[i]);
            }
        }
        assert forall|k: int| 0 <= k <= s.len() implies 0 <= #[trigger] bps_total(s.take(k)) <= bps_total(s) by {
            if k < s.len() {
                assert(s.take(k) =~= t.take(k));
            } else {
                assert(s.take(k) =~= s);
            }
        }
    }
}

pub proof fn lemma_bps_total_update(s: Seq<(Seq<char>, u32)>, i: int, e: (Seq<char>, u32))
    requires
        0 <= i < s.len(),
    ensures
        bps_total(s.update(i, e)) == bps_total(s) - s[i].1 + e.1,
    decreases s.len(),
{
    let t = s.update(i, e);
    if i == s.len() - 1 {
        assert(t.drop_last() =~= s.drop_last());
    } else {
        assert(t.drop_last() =~= s.drop_last().update(i, e));
        lemma_bps_total_update(s.drop_last(), i, e);
    }
}

pub proof fn lemma_with_claim(s: Seq<(Seq<char>, u32)>, p: Seq<char>, b: u32)
    requires
        distinct_principals(s),
    ensures
        distinct_principals(with_claim(s, p, b)),
        has_principal(with_claim(s, p, b), p),
        bps_total(with_claim(s, p, b)) == bps_total(s) - bps_of(s, p) + b,
        0 <= bps_of(s, p) <= bps_total(s),
{
    lemma_bps_total_bounds(s);
    let r = with_claim(s, p, b);
    if has_principal(s, p) {
        let i = principal_index(s, p);
        lemma_bps_total_update(s, i, (p, b));
        assert forall|a: int, c: int| 0 <= a < r.len() && 0 <= c < r.len() && a != c implies #[trigger] r[a].0 != #[trigger] r[c].0 by {
            assert(r[a].0 == s[a].0 && r[c].0 == s[c].0);
        }
        assert(r[i].0 == p);
    } else {
        assert(r.drop_last() =~= s);
        assert forall|a: int, c: int| 0 <= a < r.len() && 0 <= c < r.len() && a != c implies #[trigger] r[a].0 != #[trigger] r[c].0 by {
            if a < s.len() && c < s.len() {
                assert(r[a] == s[a] && r[c] == s[c]);
            } else if a < s.len() {
                assert(r[a] == s[a]);
            } else {
                assert(r[c] == s[c]);
            }
        }
        assert(r[s.len() as int].0 == p);
    }
}

/// The sum of the shares that all claims take of one total.
pub open spec fn shares_total(s: Seq<(Seq<char>, u32)>, t: int) -> int
    decreases s.len(),
{
    if s.len() == 0 {
        0
    } else {
        shares_total(s.drop_last(), t) + share(t, s.last().1 as int)
    }
}

pub proof fn lemma_shares_total_take(s: Seq<(Seq<char>, u32)>, k: int, t: int)
    requires
        0 <= k < s.len(),
    ensures
        shares_total(s.take(k + 1), t) == shares_total(s.take(k), t) + share(t, s[k].1 as int),
{
    assert(s.take(k + 1).drop_last() =~= s.take(k));
}

/// The shares of all claims take no more than the share of their total, and
/// each share and each prefix of them no more than all of them.
pub proof fn lemma_shares_total_bounds(s: Seq<(Seq<char>, u32)>, t: int)
    requires
        0 <= t,
    ensures
        0 <= shares_total(s, t) <= share(t, bps_total(s)),
        forall|k: int| 0 <= k <= s.len() ==> 0 <= #[trigger] shares_total(s.take(k), t) <= shares_total(s, t),
        forall|i: int| 0 <= i < s.len() ==> 0 <= #[trigger] share(t, s[i].1 as int) <= shares_total(s, t),
    decreases s.len(),
{
    if s.len() > 0 {
        let p = s.drop_last();
        lemma_shares_total_bounds(p, t);
        lemma_bps_total_bounds(p);
        lemma_share_superadditive(t, bps_total(p), s.last().1 as int);
        lemma_share_bounded(t, s.last().1 as int, s.last().1 as int);
        lemma_share_bounded(t, bps_total(p), bps_total(p));
        assert forall|k: int| 0 <= k <= s.len() implies 0 <= #[trigger] shares_total(s.take(k), t) <= shares_total(s, t) by {
            if k < s.len() {
                assert(s.take(k) =~= p.take(k));
            } else {
                assert(s.take(k) =~= s);
            }
        }
        assert forall|i: int| 0 <= i < s.len() implies 0 <= #[trigger] share(t, s[i].1 as int) <= shares_total(s, t) by {
            if i < p.len() {
                assert(s[i] == p[i]);
            }
        }
    }
}

/// What principal `i` receives of `funds`: its share of each amount; the first
/// principal also receives what the shares of all leave.
pub open spec fn allocation(s: Seq<(Seq<char>, u32)>, funds: Map<Seq<char>, u128>, i: int) -> Map<Seq<char>, u128> {
    Map::new(
        |d: Seq<char>| funds.contains_key(d),
        |d: Seq<char>| if i == 0 {
            (funds[d] - shares_total(s, funds[d] as int) + share(funds[d] as int, s[0].1 as int)) as u128
        } else {
            share(funds[d] as int, s[i].1 as int) as u128
        },
    )
}

/// `to` lists each principal of `s` in order with its allocation of `funds`.
pub open spec fn allocated(s: Seq<(Seq<char>, u32)>, funds: Map<Seq<char>, u128>, to: Seq<(String, CoinSet)>) -> bool {
    &&& to.len() == s.len()
    &&& forall|i: int| #![trigger to[i]] 0 <= i < to.len() ==> to[i].0@ == s[i].0 && to[i].1.wf() && to[i].1@ == allocation(s, funds, i)
}

/// The total amount of a denomination over the balances of a list.
pub open spec fn set_total(to: Seq<(String, CoinSet)>, d: Seq<char>) -> int
    decreases to.len(),
{
    if to.len() == 0 {
        0
    } else {
        set_total(to.drop_last(), d) + (if to.last().1@.contains_key(d) { to.last().1@[d] as int } else { 0 })
    }
}

/// Sending the coins of a duplicate-free list sends each amount once.
pub proof fn lemma_list_sent_total(e: Seq<Coin>, a: String, d: Seq<char>)
    requires
        distinct_denoms(e),
    ensures
        sent_total(e.map_values(|c: Coin| (a, c)), d) == (if has_denom(e, d) { coins_map(e)[d] as int } else { 0 }),
    decreases e.len(),
{
    if e.len() > 0 {
        let p = e.drop_last();
        let c = e.last();
        assert forall|i: int, j: int| 0 <= i < p.len() && 0 <= j < p.len() && i != j implies #[trigger] p[i].denom@ != #[trigger] p[j].denom@ by {
            assert(p[i] == e[i] && p[j] == e[j]);
        }
        lemma_list_sent_total(p, a, d);
        let f = e.map_values(|x: Coin| (a, x));
        assert(f.drop_last() =~= p.map_values(|x: Coin| (a, x)));
        assert(e =~= p.push(c));
        if has_denom(p, c.denom@) {
            let k = choose|k: int| 0 <= k < p.len() && (#[trigger] p[k]).denom@ == c.denom@;
            assert(e[k] == p[k]);
            assert(e[e.len() - 1] == c);
        }
        lemma_coins_map_push(p, c);
        if has_denom(e, d) && c.denom@ != d {
            let k = choose|k: int| 0 <= k < e.len() && (#[trigger] e[k]).denom@ == d;
            assert(p[k] == e[k]);
        }
        if has_denom(p, d) {
            let k = choose|k: int| 0 <= k < p.len() && (#[trigger] p[k]).denom@ == d;
            assert(e[k] == p[k]);
        }
        if c.denom@ == d {
            assert(e[e.len() - 1] == c);
        }
    }
}

/// A fan-out sends of each denomination the total of the balances fanned out.
pub proof fn lemma_fan_out_total(to: Seq<(String, CoinSet)>, d: Seq<char>)
    requires
        forall|i: int| 0 <= i < to.len() ==> (#[trigger] to[i]).1.wf(),
    ensures
        sent_total(fan_out(to), d) == set_total(to, d),
    decreases to.len(),
{
    if to.len() > 0 {
        let p = to.drop_last();
        assert forall|i: int| 0 <= i < p.len() implies (#[trigger] p[i]).1.wf() by {
            assert(p[i] == to[i]);
        }
        lemma_fan_out_total(p, d);
        let last = to.last();
        assert(to[to.len() - 1] == last);
        let e = last.1.entries();
        last.1.lemma_wf();
        lemma_sorted_distinct_all(e);
        lemma_list_sent_total(e, last.0, d);
        let tail = e.map_values(|c: Coin| (last.0, c));
        assert(fan_out(to) =~= fan_out(p) + tail);
        lemma_sent_total_append(fan_out(p), tail, d);
    }
}

/// A fan-out of balances over the denominations of `m` sends only those.
pub proof fn lemma_fan_out_known(to: Seq<(String, CoinSet)>, m: Map<Seq<char>, u128>)
    requires
        forall|i: int| 0 <= i < to.len() ==> (#[trigger] to[i]).1.wf() && to[i].1@.dom() == m.dom(),
    ensures
        known_denoms(m, fan_out(to)),
    decreases to.len(),
{
    if to.len() > 0 {
        let p = to.drop_last();
        assert forall|i: int| 0 <= i < p.len() implies (#[trigger] p[i]).1.wf() && p[i].1@.dom() == m.dom() by {
            assert(p[i] == to[i]);
        }
        lemma_fan_out_known(p, m);
        let last = to.last();
        assert(to[to.len() - 1] == last);
        let e = last.1.entries();
        last.1.lemma_wf();
        let tail = e.map_values(|c: Coin| (last.0, c));
        let f = fan_out(to);
        assert(f =~= fan_out(p) + tail);
        assert forall|k: int| 0 <= k < f.len() implies m.contains_key(#[trigger] f[k].1.denom@) by {
            if k < fan_out(p).len() {
                assert(f[k] == fan_out(p)[k]);
            } else {
                let j = k - fan_out(p).len();
                assert(f[k] == tail[j]);
                lemma_coins_map_at(e, j);
            }
        }
    }
}

/// A denomination that no balance of a list holds totals zero over it.
pub proof fn lemma_set_total_absent(to: Seq<(String, CoinSet)>, d: Seq<char>)
    requires
        forall|i: int| 0 <= i < to.len() ==> !(#[trigger] to[i]).1@.contains_key(d),
    ensures
        set_total(to, d) == 0,
    decreases to.len(),
{
    if to.len() > 0 {
        let p = to.drop_last();
        assert forall|i: int| 0 <= i < p.len() implies !(#[trigger] p[i]).1@.contains_key(d) by {
            assert(p[i] == to[i]);
        }
        lemma_set_total_absent(p, d);
        assert(to[to.len() - 1] == to.last());
    }
}

proof fn lemma_allocation_prefix(s: Seq<(Seq<char>, u32)>, funds: Map<Seq<char>, u128>, to: Seq<(String, CoinSet)>, d: Seq<char>, k: int)
    requires
        allocated(s, funds, to),
        1 <= k <= s.len(),
        funds.contains_key(d),
        shares_total(s, funds[d] as int) <= funds[d],
        forall|j: int| 0 <= j <= s.len() ==> 0 <= #[trigger] shares_total(s.take(j), funds[d] as int) <= shares_total(s, funds[d] as int),
        forall|i: int| 0 <= i < s.len() ==> 0 <= #[trigger] share(funds[d] as int, s[i].1 as int) <= shares_total(s, funds[d] as int),
    ensures
        set_total(to.take(k), d) == funds[d] - shares_total(s, funds[d] as int) + shares_total(s.take(k), funds[d] as int),
    decreases k,
{
    let t = funds[d] as int;
    let q = to.take(k);
    assert(q.last() == to[k - 1]);
    assert(to[k - 1].1@ == allocation(s, funds, k - 1));
    assert(to[k - 1].1@.contains_key(d));
    lemma_shares_total_take(s, k - 1, t);
    if k == 1 {
        assert(share(t, s[0].1 as int) <= shares_total(s, t));
        assert(to[0].1@[d] == t - shares_total(s, t) + share(t, s[0].1 as int));
    } else {
        assert(share(t, s[k - 1].1 as int) <= shares_total(s, t));
        assert(to[k - 1].1@[d] == share(t, s[k - 1].1 as int));
    }
    if k == 1 {
        assert(q.drop_last() =~= Seq::<(String, CoinSet)>::empty());
        assert(set_total(q.drop_last(), d) == 0);
        assert(s.take(0) =~= Seq::<(Seq<char>, u32)>::empty());
        assert(shares_total(s.take(0), t) == 0);
    } else {
        assert(q.drop_last() =~= to.take(k - 1));
        lemma_allocation_prefix(s, funds, to, d, k - 1);
    }
}

/// Distributing funds conserves them: where a distribution has claims that
/// do not exceed the whole, the balances allocated to its principals add up
/// to the funds in every denomination, and fanning them out sends exactly the
/// funds and no other denomination.
pub proof fn lemma_distribution_conserves(s: Seq<(Seq<char>, u32)>, funds: Map<Seq<char>, u128>, to: Seq<(String, CoinSet)>)
    requires
        s.len() > 0,
        bps_total(s) <= 10000,
        allocated(s, funds, to),
    ensures
        forall|d: Seq<char>| #[trigger] funds.contains_key(d) ==> set_total(to, d) == funds[d],
        known_denoms(funds, fan_out(to)),
        balanced(funds, fan_out(to)),
{
    assert forall|d: Seq<char>| #[trigger] funds.contains_key(d) implies set_total(to, d) == funds[d] by {
        let t = funds[d] as int;
        lemma_shares_total_bounds(s, t);
        lemma_bps_total_bounds(s);
        lemma_share_bounded(t, bps_total(s), bps_total(s));
        lemma_allocation_prefix(s, funds, to, d, s.len() as int);
        assert(to.take(s.len() as int) =~= to);
        assert(s.take(s.len() as int) =~= s);
    }
    assert forall|i: int| 0 <= i < to.len() implies (#[trigger] to[i]).1.wf() && to[i].1@.dom() == funds.dom() by {
        assert(to[i].1@.dom() =~= funds.dom());
    }
    lemma_fan_out_known(to, funds);
    assert forall|d: Seq<char>| true implies #[trigger] sent_total(fan_out(to), d) == input_amount(funds, d) by {
        lemma_fan_out_total(to, d);
        if !funds.contains_key(d) {
            assert forall|i: int| 0 <= i < to.len() implies !(#[trigger] to[i]).1@.contains_key(d) by {
                assert(to[i].1@.dom() =~= funds.dom());
            }
            lemma_set_total_absent(to, d);
        }
    }
}

/// A copy of a list of claims with one entry replaced, or appended where the
/// position is the length.
fn with_entry(v: &Vec<(String, Claim)>, i: usize, e: (String, Claim)) -> (r: Vec<(String, Claim)>)
    requires
        i <= v.len(),
    ensures
        i < v.len() ==> r@ == v@.update(i as int, e),
        i == v.len() ==> r@ == v@.push(e),
{
    let mut r: Vec<(String, Claim)> = Vec::new();
    let mut k: usize = 0;
    while k < v.len()
        invariant
            k <= v.len(),
            i <= v.len(),
            r@ == update_if(v@.take(k as int), i, e),
        decreases v.len() - k,
    {
        if k == i {
            r.push((e.0.clone(), e.1));
        } else {
            r.push((v[k].0.clone(), v[k].1));
        }
        k = k + 1;
        assert(r@ =~= update_if(v@.take(k as int), i, e));
    }
    if i == v.len() {
        r.push(e);
        assert(r@ =~= v@.push(e));
    } else {
        assert(r@ =~= v@.update(i as int, e));
    }
    r
}

/// A list with its entry at `i`, where the list reaches that far, replaced.
pub open spec fn update_if<A>(s: Seq<A>, i: usize, e: A) -> Seq<A> {
    if i < s.len() {
        s.update(i as int, e)
    } else {
        s
    }
}

/// Claims of principals on shares of funds.
pub struct Distribution {
    claims: Vec<(String, Claim)>,
}

impl View for Distribution {
    type V = Seq<(Seq<char>, u32)>;

    closed spec fn view(&self) -> Seq<(Seq<char>, u32)> {
        claims_view(self.claims@)
    }
}

impl Distribution {
    #[verifier::type_invariant]
    closed spec fn inv(self) -> bool {
        distinct_principals(claims_view(self.claims@))
    }

    /// Makes the invariant of the value known to the caller.
    pub fn wf_holds(&self)
        ensures
            distinct_principals(self@),
    {
        proof {
            use_type_invariant(self);
        }
    }

    /// A distribution with no claim.
    pub fn empty() -> (r: Distribution)
        ensures
            r@ == Seq::<(Seq<char>, u32)>::empty(),
    {
        let r = Distribution { claims: Vec::new() };
        assert(r@ =~= Seq::<(Seq<char>, u32)>::empty());
        r
    }

    /// The distribution of the claims of a list; where a principal occurs
    /// twice, its later claim replaces the earlier one.
    pub fn new(claims: Vec<(String, Claim)>) -> (r: Distribution)
        ensures
            r@ == collected(claims_view(claims@)),
    {
        let mut r = Distribution::empty();
        let mut i: usize = 0;
        assert(claims_view(claims@).take(0) =~= Seq::<(Seq<char>, u32)>::empty());
        while i < claims.len()
            invariant
                i <= claims.len(),
                r@ == collected(claims_view(claims@).take(i as int)),
            decreases claims.len() - i,
        {
            r.insert(claims[i].0.clone(), claims[i].1);
            proof {
                let t = claims_view(claims@).take(i + 1);
                assert(t.drop_last() =~= claims_view(claims@).take(i as int));
            }
            i = i + 1;
        }
        assert(claims_view(claims@).take(i as int) =~= claims_view(claims@));
        r
    }

    /// The claims, in order.
    pub fn claims(&self) -> (r: &Vec<(String, Claim)>)
        ensures
            claims_view(r@) == self@,
    {
        &self.claims
    }

    /// Sets the claim of a principal, replacing the one it held.
    pub fn insert(&mut self, principal: String, claim: Claim)
        ensures
            final(self)@ == with_claim(old(self)@, principal@, claim@),
    {
        proof {
            use_type_invariant(&*self);
        }
        let ghost s = self@;
        let mut i: usize = 0;
        while i < self.claims.len()
            invariant_except_break
                i <= self.claims.len(),
                forall|k: int| 0 <= k < i ==> (#[trigger] s[k]).0 != principal@,
            invariant
                s == self@,
                i <= self.claims.len(),
            ensures
                i < self.claims.len() ==> s[i as int].0 == principal@,
                i == self.claims.len() ==> forall|k: int| 0 <= k < i ==> (#[trigger] s[k]).0 != principal@,
            decreases self.claims.len() - i,
        {
            if self.claims[i].0 == principal {
                break;
            }
            i = i + 1;
        }
        let ghost p = principal@;
        let claims = with_entry(&self.claims, i, (principal, claim));
        proof {
            if i < s.len() {
                assert(has_principal(s, p));
                let j = principal_index(s, p);
                if j != i {
                    assert(s[j].0 == s[i as int].0);
                }
            } else {
                assert(!has_principal(s, p));
            }
            assert(claims_view(claims@) =~= with_claim(s, p, claim@));
            lemma_with_claim(s, p, claim@);
        }
        self.claims = claims;
    }

    /// The basis points of all claims together, where they do not exceed the whole.
    pub fn total_bps(&self) -> (r: Result<u32, XcosmError>)
        ensures
            bps_total(self@) <= 10000 ==> r == Ok::<u32, XcosmError>(bps_total(self@) as u32),
            bps_total(self@) > 10000 ==> r == Err::<u32, XcosmError>(XcosmError::Fund(FundError::DistributionOverclaimed {})),
    {
        let ghost s = self@;
        proof {
            lemma_bps_total_bounds(s);
            assert(s.take(0) =~= Seq::<(Seq<char>, u32)>::empty());
        }
        let mut total: u32 = 0;
        let mut i: usize = 0;
        while i < self.claims.len()
            invariant
                s == self@,
                i <= self.claims.len(),
                total == bps_total(s.take(i as int)),
                total <= 10000,
                forall|k: int| 0 <= k <= s.len() ==> 0 <= #[trigger] bps_total(s.take(k)) <= bps_total(s),
            decreases self.claims.len() - i,
        {
            let b = self.claims[i].1.0;
            proof {
                lemma_bps_total_take(s, i as int);
                assert(s[i as int].1 == b);
            }
            if b > BPS_WHOLE - total {
                proof {
                    assert(bps_total(s.take(i + 1)) <= bps_total(s));
                }
                return Err(XcosmError::Fund(FundError::DistributionOverclaimed {}));
            }
            total = total + b;
            i = i + 1;
        }
        assert(s.take(i as int) =~= s);
        Ok(total)
    }

    /// The claim of a principal, if it holds one.
    pub fn get(&self, principal: &String) -> (r: Option<Claim>)
        ensures
            has_principal(self@, principal@) <==> r is Some,
            r matches Some(c) ==> c@ == bps_of(self@, principal@),
    {
        proof {
            use_type_invariant(self);
        }
        let ghost s = self@;
        let mut i: usize = 0;
        while i < self.claims.len()
            invariant
                s == self@,
                distinct_principals(s),
                i <= self.claims.len(),
                forall|k: int| 0 <= k < i ==> (#[trigger] s[k]).0 != principal@,
            decreases self.claims.len() - i,
        {
            if self.claims[i].0 == *principal {
                proof {
                    assert(s[i as int].0 == principal@);
                    let j = principal_index(s, principal@);
                    if j != i {
                        assert(s[j].0 == s[i as int].0);
                    }
                }
                return Some(self.claims[i].1);
            }
            i = i + 1;
        }
        None
    }

    /// The distribution with `principal` topped up by what the claims leave
    /// of the whole, so that they add up to exactly the whole.
    pub fn with_remainder_to(&self, principal: String) -> (r: Result<Distribution, XcosmError>)
        ensures
            bps_total(self@) > 10000 ==> r == Err::<Distribution, XcosmError>(XcosmError::Fund(FundError::DistributionOverclaimed {})),
            bps_total(self@) <= 10000 ==> r is Ok,
            r matches Ok(d) ==> d@ == with_claim(self@, principal@, (bps_of(self@, principal@) + 10000 - bps_total(self@)) as u32)
                && bps_total(d@) == 10000,
    {
        proof {
            use_type_invariant(self);
            lemma_with_claim(self@, principal@, 0);
        }
        let total = match self.total_bps() {
            Ok(t) => t,
            Err(e) => return Err(e),
        };
        let held: u32 = match self.get(&principal) {
            Some(c) => c.0,
            None => 0,
        };
        let ghost p = principal@;
        let mut d = self.copy();
        d.insert(principal, Claim(held + (BPS_WHOLE - total)));
        proof {
            lemma_with_claim(self@, p, (held + (10000 - total)) as u32);
        }
        Ok(d)
    }

    /// The balance that each principal receives of `funds`, in the order of
    /// the claims: the share of each amount that its claim takes, the first
    /// principal also receiving what the shares leave.
    pub fn allocate(&self, funds: &CoinSet) -> (r: Result<Vec<(String, CoinSet)>, XcosmError>)
        ensures
            self@.len() == 0 ==> r == Err::<Vec<(String, CoinSet)>, XcosmError>(XcosmError::Fund(FundError::DistributionUnclaimed {})),
            self@.len() > 0 && bps_total(self@) > 10000 ==> r == Err::<Vec<(String, CoinSet)>, XcosmError>(
                XcosmError::Fund(FundError::DistributionOverclaimed {}),
            ),
            self@.len() > 0 && bps_total(self@) <= 10000 ==> r is Ok,
            r matches Ok(v) ==> allocated(self@, funds@, v@),
    {
        let ghost s = self@;
        let ghost m = funds@;
        if self.claims.len() == 0 {
            return Err(XcosmError::Fund(FundError::DistributionUnclaimed {}));
        }
        match self.total_bps() {
            Ok(_) => {},
            Err(e) => return Err(e),
        }
        proof {
            lemma_bps_total_bounds(s);
            assert forall|d: Seq<char>| #[trigger] m.contains_key(d) implies {
                let t = m[d] as int;
                &&& shares_total(s, t) <= t
                &&& forall|j: int| 0 <= j <= s.len() ==> 0 <= #[trigger] shares_total(s.take(j), t) <= shares_total(s, t)
                &&& forall|i: int| 0 <= i < s.len() ==> 0 <= #[trigger] share(t, s[i].1 as int) <= shares_total(s, t)
                &&& forall|i: int| 0 <= i < s.len() ==> share(t, s[i].1 as int) <= t
            } by {
                let t = m[d] as int;
                lemma_shares_total_bounds(s, t);
                lemma_share_bounded(t, bps_total(s), bps_total(s));
            }
            assert(s[0].1 == self.claims@[0].1@);
        }
        let c0 = match self.claims[0].1.claim(funds) {
            Ok(c) => c,
            Err(e) => return Err(e),
        };
        proof {
            lemma_shares_total_take(s, 0, 0);
            assert(s.take(0) =~= Seq::<(Seq<char>, u32)>::empty());
            assert forall|d: Seq<char>| #[trigger] m.contains_key(d) implies shares_total(s.take(1), m[d] as int) == share(m[d] as int, s[0].1 as int) by {
                lemma_shares_total_take(s, 0, m[d] as int);
            }
        }
        let mut rem = match funds.try_minus(&c0) {
            Ok(v) => v,
            Err(e) => return Err(XcosmError::Math(e)),
        };
        let mut others: Vec<(String, CoinSet)> = Vec::new();
        let mut i: usize = 1;
        while i < self.claims.len()
            invariant
                s == self@,
                m == funds@,
                1 <= i <= self.claims.len(),
                s.len() == self.claims.len(),
                rem@.dom() == m.dom(),
                forall|d: Seq<char>| #[trigger] m.contains_key(d) ==> rem@[d] == m[d] - shares_total(s.take(i as int), m[d] as int),
                forall|d: Seq<char>| #[trigger] m.contains_key(d) ==> {
                    let t = m[d] as int;
                    &&& shares_total(s, t) <= t
                    &&& forall|j: int| 0 <= j <= s.len() ==> 0 <= #[trigger] shares_total(s.take(j), t) <= shares_total(s, t)
                    &&& forall|k: int| 0 <= k < s.len() ==> 0 <= #[trigger] share(t, s[k].1 as int) <= shares_total(s, t)
                    &&& forall|k: int| 0 <= k < s.len() ==> share(t, s[k].1 as int) <= t
                },
                others@.len() == i - 1,
                forall|k: int| #![trigger others@[k]] 0 <= k < i - 1 ==> others@[k].0@ == s[k + 1].0 && others@[k].1.wf()
                    && others@[k].1@ == allocation(s, m, k + 1),
            decreases self.claims.len() - i,
        {
            proof {
                assert(s[i as int].1 == self.claims@[i as int].1@);
                assert(s[i as int].0 == self.claims@[i as int].0@);
            }
            let c = match self.claims[i].1.claim(funds) {
                Ok(c) => c,
                Err(e) => return Err(e),
            };
            c.wf_holds();
            let ghost before = rem@;
            proof {
                assert forall|d: Seq<char>| #[trigger] before.contains_key(d) && c@.contains_key(d) implies c@[d] <= before[d] by {
                    lemma_shares_total_take(s, i as int, m[d] as int);
                }
            }
            match rem.try_minus_mut(&c) {
                Ok(()) => {},
                Err(e) => return Err(XcosmError::Math(e)),
            }
            proof {
                assert(rem@.dom() =~= m.dom());
                assert forall|d: Seq<char>| #[trigger] m.contains_key(d) implies rem@[d] == m[d] - shares_total(s.take(i + 1), m[d] as int) by {
                    lemma_shares_total_take(s, i as int, m[d] as int);
                }
                assert(c@ =~= allocation(s, m, i as int));
            }
            others.push((self.claims[i].0.clone(), c));
            i = i + 1;
        }
        proof {
            assert(s.take(i as int) =~= s);
            assert forall|d: Seq<char>| #[trigger] c0@.contains_key(d) && rem@.contains_key(d) implies c0@[d] + rem@[d] <= u128::MAX by {
                assert(m.contains_key(d));
            }
        }
        let first = match c0.try_plus(&rem) {
            Ok(v) => v,
            Err(e) => return Err(XcosmError::Math(e)),
        };
        first.wf_holds();
        proof {
            assert(first@ =~= allocation(s, m, 0));
        }
        let mut out: Vec<(String, CoinSet)> = Vec::new();
        out.push((self.claims[0].0.clone(), first));
        let ghost rest = others@;
        out.append(&mut others);
        proof {
            assert(s[0].0 == self.claims@[0].0@);
            assert forall|k: int| #![trigger out@[k]] 0 <= k < out@.len() implies out@[k].0@ == s[k].0 && out@[k].1.wf()
                && out@[k].1@ == allocation(s, m, k) by {
                if k > 0 {
                    assert(out@[k] == rest[k - 1]);
                }
            }
        }
        Ok(out)
    }

    /// A multi-send of `funds` from `from` to the principals, each receiving
    /// its allocation; it sends out exactly the funds.
    pub fn distribute_coins(&self, from: &String, funds: &CoinSet) -> (r: Result<TransferMsg, XcosmError>)
        ensures
            self@.len() == 0 ==> r == Err::<TransferMsg, XcosmError>(XcosmError::Fund(FundError::DistributionUnclaimed {})),
            self@.len() > 0 && bps_total(self@) > 10000 ==> r == Err::<TransferMsg, XcosmError>(
                XcosmError::Fund(FundError::DistributionOverclaimed {}),
            ),
            self@.len() > 0 && bps_total(self@) <= 10000 ==> r is Ok,
            r matches Ok(m) ==> (m matches TransferMsg::MultiSend(ms) && {
                &&& ms.inputs@.len() == 1
                &&& ms.inputs@[0].address == *from
                &&& ms.inputs@[0].coins@ == funds.entries()
                &&& exists|to: Seq<(String, CoinSet)>| #[trigger] allocated(self@, funds@, to) && {
                    let f = fan_out(to);
                    &&& balanced(funds@, f)
                    &&& ms.outputs@.len() == f.len()
                    &&& forall|k: int| 0 <= k < f.len() ==> (#[trigger] ms.outputs@[k]).address == f[k].0
                        && ms.outputs@[k].coins@ == seq![f[k].1]
                }
            }),
    {
        let to = match self.allocate(funds) {
            Ok(v) => v,
            Err(e) => return Err(e),
        };
        let ghost tv = to@;
        proof {
            lemma_distribution_conserves(self@, funds@, tv);
        }
        let r = funds.send_many(from, to);
        proof {
            assert(allocated(self@, funds@, tv));
        }
        r
    }

    /// The claims keyed by the text of each principal, for the wire.
    pub fn into_msg(self) -> (r: DistributionMsg)
        ensures
            claims_view(r.0@) == self@,
    {
        DistributionMsg(self.claims)
    }

    fn copy(&self) -> (r: Distribution)
        ensures
            r@ == self@,
    {
        proof {
            use_type_invariant(self);
        }
        let mut claims: Vec<(String, Claim)> = Vec::new();
        let mut k: usize = 0;
        while k < self.claims.len()
            invariant
                k <= self.claims.len(),
                claims@ == self.claims@.take(k as int),
            decreases self.claims.len() - k,
        {
            claims.push((self.claims[k].0.clone(), self.claims[k].1));
            k = k + 1;
            assert(claims@ =~= self.claims@.take(k as int));
        }
        assert(claims@ =~= self.claims@);
        Distribution { claims }
    }
}

impl Default for Distribution {
    fn default() -> (r: Distribution)
        ensures
            r@ == Seq::<(Seq<char>, u32)>::empty(),
    {
        Distribution::empty()
    }
}

/// A distribution as received: principals not yet validated.
pub struct DistributionMsg(pub Vec<(String, Claim)>);

} // verus!
