//! A balance: amounts keyed by denomination, without duplicates, kept in the
//! canonical order of denominations.

use vstd::prelude::*;
use std::cmp::Ordering;
use crate::denom::{compare_denoms, denom_lt, lemma_denom_lt_asymmetric, lemma_denom_lt_transitive};
use crate::error::XcosmError;
use crate::math::{added, can_add, can_subtract, coin_map, subtracted, TryMinusMut};

verus! {

/// Error of a balance operation.
#[derive(Debug, Clone, PartialEq, Eq)]
pub enum CoinError {
    /// The balance lacks the expected amount of a denomination.
    Insufficient { expected: String },
    /// Coins were received where none were expected.
    NotEmpty {},
    /// The balance differs from the exact coins required.
    NotExact { expected: String },
    /// A denomination occurs twice.
    DuplicateDenom { denom: String },
    /// No coins were received where some were expected.
    Empty {},
    /// The coins sent out do not add up to the coins put in.
    IoMismatch {},
    /// A balance error that should never occur.
    Unexpected { msg: String },
}

/// An amount of one denomination.
#[derive(Debug, Clone, PartialEq, Eq)]
pub struct Coin {
    pub denom: String,
    pub amount: u128,
}

impl Coin {
    pub fn new(amount: u128, denom: &str) -> (r: Coin)
        ensures
            r.denom@ == denom@,
            r.amount == amount,
    {
        Coin { denom: denom.to_owned(), amount }
    }
}

/// The character of a decimal digit.
pub open spec fn digit_char(d: int) -> char {
    if d == 0 {
        '0'
    } else if d == 1 {
        '1'
    } else if d == 2 {
        '2'
    } else if d == 3 {
        '3'
    } else if d == 4 {
        '4'
    } else if d == 5 {
        '5'
    } else if d == 6 {
        '6'
    } else if d == 7 {
        '7'
    } else if d == 8 {
        '8'
    } else {
        '9'
    }
}

/// A natural number in decimal, without sign or leading zeros.
pub open spec fn decimal(n: nat) -> Seq<char>
    decreases n,
{
    if n < 10 {
        seq![digit_char(n as int)]
    } else {
        decimal(n / 10).push(digit_char((n % 10) as int))
    }
}

/// The text of a coin: its amount in decimal, then its denomination.
pub open spec fn coin_text_of(c: Coin) -> Seq<char> {
    decimal(c.amount as nat) + c.denom@
}

/// Relies on the `Display` of `cosmwasm_std::Coin`, which writes the amount
/// (`Uint128`, shown as its `u128`) in decimal directly followed by the denomination.
#[verifier::external_body]
fn coin_text(c: &Coin) -> (r: String)
    ensures
        r@ == coin_text_of(*c),
{
    cosmwasm_std::Coin::new(c.amount, c.denom.as_str()).to_string()
}

impl Coin {
    /// The text of the coin, such as `100uatom`.
    pub fn to_text(&self) -> (r: String)
        ensures
            r@ == coin_text_of(*self),
    {
        coin_text(self)
    }
}

/// A copy of a coin.
pub(crate) fn copy_coin(c: &Coin) -> (r: Coin)
    ensures
        r == *c,
{
    Coin { denom: c.denom.clone(), amount: c.amount }
}

/// A copy of a list of coins with one more coin at a position.
fn inserted(s: &Vec<Coin>, i: usize, c: Coin) -> (r: Vec<Coin>)
    requires
        i <= s.len(),
    ensures
        r@ == s@.insert(i as int, c),
        r@.len() == s@.len() + 1,
        r@[i as int] == c,
        forall|k: int| 0 <= k < i ==> r@[k] == s@[k],
        forall|k: int| i < k < r@.len() ==> r@[k] == s@[k - 1],
{
    let mut r: Vec<Coin> = Vec::new();
    let mut k: usize = 0;
    while k < i
        invariant
            k <= i <= s.len(),
            r@ == s@.subrange(0, k as int),
        decreases i - k,
    {
        r.push(copy_coin(&s[k]));
        k = k + 1;
        assert(r@ =~= s@.subrange(0, k as int));
    }
    r.push(c);
    while k < s.len()
        invariant
            i <= k <= s.len(),
            r@ == s@.subrange(0, i as int).push(c) + s@.subrange(i as int, k as int),
        decreases s.len() - k,
    {
        r.push(copy_coin(&s[k]));
        k = k + 1;
        assert(r@ =~= s@.subrange(0, i as int).push(c) + s@.subrange(i as int, k as int));
    }
    assert(r@ =~= s@.insert(i as int, c));
    r
}

/// The coins are strictly increasing in denomination.
pub open spec fn sorted_coins(s: Seq<Coin>) -> bool {
    forall|i: int, j: int| 0 <= i < j < s.len() ==> denom_lt(#[trigger] s[i].denom@, #[trigger] s[j].denom@)
}

/// The denomination of a coin list is present.
pub open spec fn has_denom(s: Seq<Coin>, d: Seq<char>) -> bool {
    exists|i: int| 0 <= i < s.len() && (#[trigger] s[i]).denom@ == d
}

/// The position of a denomination in a coin list where it is present.
pub open spec fn index_of(s: Seq<Coin>, d: Seq<char>) -> int {
    choose|i: int| 0 <= i < s.len() && (#[trigger] s[i]).denom@ == d
}

/// Amounts by denomination of a list of coins with distinct denominations.
pub open spec fn coins_map(s: Seq<Coin>) -> Map<Seq<char>, u128> {
    Map::new(|d: Seq<char>| has_denom(s, d), |d: Seq<char>| s[index_of(s, d)].amount)
}

/// The pairs of denomination and amount of a list of coins, in order.
pub open spec fn coin_pairs(s: Seq<Coin>) -> Seq<(Seq<char>, u128)> {
    s.map_values(|c: Coin| (c.denom@, c.amount))
}

/// No denomination occurs twice in the list.
pub open spec fn distinct_denoms(s: Seq<Coin>) -> bool {
    forall|i: int, j: int| 0 <= i < s.len() && 0 <= j < s.len() && i != j ==> #[trigger] s[i].denom@ != #[trigger] s[j].denom@
}

/// The first position whose denomination already occurred before it.
pub open spec fn first_duplicate(s: Seq<Coin>, j: int) -> bool {
    &&& 0 <= j < s.len()
    &&& has_denom(s.take(j), s[j].denom@)
    &&& distinct_denoms(s.take(j))
}

/// Appending a coin of a new denomination to a duplicate-free list adds it to the map.
pub proof fn lemma_coins_map_push(s: Seq<Coin>, c: Coin)
    requires
        distinct_denoms(s),
        !has_denom(s, c.denom@),
    ensures
        distinct_denoms(s.push(c)),
        coins_map(s.push(c)) == coins_map(s).insert(c.denom@, c.amount),
{
    let t = s.push(c);
    assert forall|i: int, j: int| 0 <= i < t.len() && 0 <= j < t.len() && i != j implies #[trigger] t[i].denom@ != #[trigger] t[j].denom@ by {
        if i == s.len() {
            assert(t[j] == s[j]);
        } else if j == s.len() {
            assert(t[i] == s[i]);
        } else {
            assert(t[i] == s[i] && t[j] == s[j]);
        }
    }
    assert forall|d: Seq<char>| #[trigger] coins_map(t).contains_key(d) <==> coins_map(s).insert(c.denom@, c.amount).contains_key(d) by {
        if has_denom(t, d) && d != c.denom@ {
            let k = choose|k: int| 0 <= k < t.len() && (#[trigger] t[k]).denom@ == d;
            assert(t[k] == s[k]);
        }
        if has_denom(s, d) {
            let k = choose|k: int| 0 <= k < s.len() && (#[trigger] s[k]).denom@ == d;
            assert(t[k] == s[k]);
        }
        if d == c.denom@ {
            assert(t[s.len() as int] == c);
        }
    }
    assert forall|d: Seq<char>| #[trigger] coins_map(t).contains_key(d) implies coins_map(t)[d] == coins_map(s).insert(c.denom@, c.amount)[d] by {
        let k = index_of(t, d);
        if d == c.denom@ {
            if k != s.len() {
                assert(t[k] == s[k]);
            }
        } else {
            assert(t[k] == s[k]);
            let k2 = index_of(s, d);
            assert(t[k2] == s[k2]);
        }
    }
    assert(coins_map(t) =~= coins_map(s).insert(c.denom@, c.amount));
}

/// A sorted list has no duplicate denominations.
pub proof fn lemma_sorted_distinct_all(s: Seq<Coin>)
    requires
        sorted_coins(s),
    ensures
        distinct_denoms(s),
{
    assert forall|i: int, j: int| 0 <= i < s.len() && 0 <= j < s.len() && i != j implies #[trigger] s[i].denom@ != #[trigger] s[j].denom@ by {
        lemma_sorted_distinct(s, i, j);
    }
}

/// Two sorted lists with the same denominations at each position have maps
/// with one domain, each amount taken from its own list.
proof fn lemma_same_denoms(a: Seq<Coin>, b: Seq<Coin>)
    requires
        sorted_coins(a),
        a.len() == b.len(),
        forall|k: int| 0 <= k < a.len() ==> (#[trigger] b[k]).denom@ == a[k].denom@,
    ensures
        sorted_coins(b),
        forall|d: Seq<char>| #[trigger] coins_map(b).contains_key(d) <==> coins_map(a).contains_key(d),
        forall|k: int| #![trigger b[k]] 0 <= k < b.len() ==> coins_map(b)[a[k].denom@] == b[k].amount
            && coins_map(a)[a[k].denom@] == a[k].amount,
{
    assert forall|i: int, j: int| 0 <= i < j < b.len() implies denom_lt(#[trigger] b[i].denom@, #[trigger] b[j].denom@) by {
        assert(b[i].denom@ == a[i].denom@ && b[j].denom@ == a[j].denom@);
    }
    assert forall|d: Seq<char>| #[trigger] coins_map(b).contains_key(d) <==> coins_map(a).contains_key(d) by {
        if has_denom(b, d) {
            let k = choose|k: int| 0 <= k < b.len() && (#[trigger] b[k]).denom@ == d;
            assert(a[k].denom@ == d);
        }
        if has_denom(a, d) {
            let k = choose|k: int| 0 <= k < a.len() && (#[trigger] a[k]).denom@ == d;
            assert(b[k].denom@ == d);
        }
    }
    lemma_coins_map_all(a);
    lemma_coins_map_all(b);
}

pub proof fn lemma_sorted_distinct(s: Seq<Coin>, i: int, j: int)
    requires
        sorted_coins(s),
        0 <= i < s.len(),
        0 <= j < s.len(),
        i != j,
    ensures
        s[i].denom@ != s[j].denom@,
{
    if i < j {
        lemma_denom_lt_asymmetric(s[i].denom@, s[j].denom@);
    } else {
        lemma_denom_lt_asymmetric(s[j].denom@, s[i].denom@);
    }
}

/// Each coin of a sorted list is found in its map under its denomination.
pub proof fn lemma_coins_map_at(s: Seq<Coin>, i: int)
    requires
        sorted_coins(s),
        0 <= i < s.len(),
    ensures
        coins_map(s).contains_key(s[i].denom@),
        coins_map(s)[s[i].denom@] == s[i].amount,
{
    let d = s[i].denom@;
    assert(has_denom(s, d));
    let j = index_of(s, d);
    if j != i {
        lemma_sorted_distinct(s, i, j);
    }
    assert(coins_map(s)[d] == s[j].amount);
}

/// Every coin of a sorted list is found in its map under its denomination.
pub proof fn lemma_coins_map_all(s: Seq<Coin>)
    requires
        sorted_coins(s),
    ensures
        forall|i: int| #![trigger s[i]] 0 <= i < s.len() ==> coins_map(s).contains_key(s[i].denom@)
            && coins_map(s)[s[i].denom@] == s[i].amount,
{
    assert forall|i: int| #![trigger s[i]] 0 <= i < s.len() implies coins_map(s).contains_key(s[i].denom@)
        && coins_map(s)[s[i].denom@] == s[i].amount by {
        lemma_coins_map_at(s, i);
    }
}

/// Sorted, duplicate-free map of coins.
#[derive(Debug, PartialEq, Eq)]
pub struct CoinSet {
    coins: Vec<Coin>,
}

impl Clone for CoinSet {
    fn clone(&self) -> (r: CoinSet)
        ensures
            r@ == self@,
            r.entries() == self.entries(),
    {
        proof {
            use_type_invariant(self);
        }
        let mut coins: Vec<Coin> = Vec::new();
        let mut k: usize = 0;
        while k < self.coins.len()
            invariant
                k <= self.coins.len(),
                coins@ == self.coins@.subrange(0, k as int),
            decreases self.coins.len() - k,
        {
            coins.push(copy_coin(&self.coins[k]));
            k = k + 1;
            assert(coins@ =~= self.coins@.subrange(0, k as int));
        }
        assert(coins@ =~= self.coins@);
        CoinSet { coins }
    }
}

impl View for CoinSet {
    type V = Map<Seq<char>, u128>;

    closed spec fn view(&self) -> Map<Seq<char>, u128> {
        coins_map(self.coins@)
    }
}

impl CoinSet {
    #[verifier::type_invariant]
    closed spec fn inv(self) -> bool {
        sorted_coins(self.coins@)
    }

    /// The coins of the set in canonical order.
    pub closed spec fn entries(&self) -> Seq<Coin> {
        self.coins@
    }

    /// The set holds its coins sorted, and its view is their map.
    pub closed spec fn wf(&self) -> bool {
        sorted_coins(self.coins@)
    }

    pub proof fn lemma_wf(&self)
        requires
            self.wf(),
        ensures
            sorted_coins(self.entries()),
            self@ == coins_map(self.entries()),
    {
    }

    /// Makes the invariant of the value known to the caller.
    pub fn wf_holds(&self)
        ensures
            self.wf(),
    {
        proof {
            use_type_invariant(self);
        }
    }

    /// An empty set.
    pub fn new() -> (r: CoinSet)
        ensures
            r.wf(),
            r@ == Map::<Seq<char>, u128>::empty(),
            r.entries().len() == 0,
    {
        let r = CoinSet { coins: Vec::new() };
        assert(r@ =~= Map::<Seq<char>, u128>::empty());
        r
    }

    /// The number of denominations in the set.
    pub fn len(&self) -> (r: usize)
        ensures
            r == self.entries().len(),
            r == self@.len(),
    {
        proof {
            use_type_invariant(self);
            self.lemma_len();
        }
        self.coins.len()
    }

    pub fn is_empty(&self) -> (r: bool)
        ensures
            r == (self@ == Map::<Seq<char>, u128>::empty()),
            r == (self.entries().len() == 0),
    {
        proof {
            use_type_invariant(self);
            self.lemma_len();
            if self.coins.len() > 0 {
                lemma_coins_map_at(self.coins@, 0);
            } else {
                assert(self@ =~= Map::<Seq<char>, u128>::empty());
            }
        }
        self.coins.len() == 0
    }

    proof fn lemma_len(&self)
        requires
            self.wf(),
        ensures
            self@.dom().finite(),
            self@.len() == self.coins.len(),
    {
        let s = self.coins@;
        let keys = s.map_values(|c: Coin| c.denom@);
        assert forall|i: int, j: int| 0 <= i < keys.len() && 0 <= j < keys.len() && i != j implies keys[i] != keys[j] by {
            lemma_sorted_distinct(s, i, j);
        }
        assert(keys.no_duplicates());
        keys.unique_seq_to_set();
        assert forall|d: Seq<char>| self@.dom().contains(d) <==> keys.to_set().contains(d) by {
            if self@.dom().contains(d) {
                let i = choose|i: int| 0 <= i < s.len() && (#[trigger] s[i]).denom@ == d;
                assert(keys[i] == d);
            }
            if keys.to_set().contains(d) {
                let i = choose|i: int| 0 <= i < keys.len() && keys[i] == d;
                assert(s[i].denom@ == d);
            }
        }
        assert(self@.dom() =~= keys.to_set());
    }

    /// Where a denomination is, or would be inserted, in canonical order.
    fn find_slot(&self, denom: &String) -> (r: (usize, bool))
        ensures
            r.0 <= self.coins.len(),
            forall|k: int| 0 <= k < r.0 ==> denom_lt(#[trigger] self.coins@[k].denom@, denom@),
            r.1 ==> r.0 < self.coins.len() && self.coins@[r.0 as int].denom@ == denom@,
            !r.1 ==> forall|k: int| r.0 <= k < self.coins.len() ==> denom_lt(denom@, #[trigger] self.coins@[k].denom@),
    {
        proof {
            use_type_invariant(self);
        }
        let mut i: usize = 0;
        while i < self.coins.len()
            invariant
                i <= self.coins.len(),
                sorted_coins(self.coins@),
                forall|k: int| 0 <= k < i ==> denom_lt(#[trigger] self.coins@[k].denom@, denom@),
            decreases self.coins.len() - i,
        {
            match compare_denoms(&self.coins[i].denom, denom) {
                Ordering::Less => {
                    i = i + 1;
                },
                Ordering::Equal => {
                    return (i, true);
                },
                Ordering::Greater => {
                    proof {
                        assert forall|k: int| i <= k < self.coins.len() implies denom_lt(denom@, #[trigger] self.coins@[k].denom@) by {
                            if k > i {
                                lemma_denom_lt_transitive(denom@, self.coins@[i as int].denom@, self.coins@[k].denom@);
                            }
                        }
                    }
                    return (i, false);
                },
            }
        }
        (i, false)
    }

    /// The amount of a denomination, if present.
    pub fn get(&self, denom: &String) -> (r: Option<u128>)
        ensures
            r == (if self@.contains_key(denom@) { Some(self@[denom@]) } else { None::<u128> }),
    {
        proof {
            use_type_invariant(self);
        }
        let (i, found) = self.find_slot(denom);
        if found {
            proof {
                lemma_coins_map_at(self.coins@, i as int);
            }
            Some(self.coins[i].amount)
        } else {
            proof {
                if self@.contains_key(denom@) {
                    let k = choose|k: int| 0 <= k < self.coins@.len() && (#[trigger] self.coins@[k]).denom@ == denom@;
                    if k < i {
                        lemma_denom_lt_asymmetric(self.coins@[k].denom@, denom@);
                    } else {
                        lemma_denom_lt_asymmetric(denom@, self.coins@[k].denom@);
                    }
                }
            }
            None
        }
    }

    /// Inserts an amount under a denomination that is not yet present.
    pub fn try_insert(&mut self, denom: &String, amount: u128) -> (r: Result<(), XcosmError>)
        ensures
            old(self)@.contains_key(denom@) ==> r == Err::<(), XcosmError>(
                XcosmError::Coin(CoinError::DuplicateDenom { denom: *denom }),
            ) && final(self)@ == old(self)@,
            !old(self)@.contains_key(denom@) ==> r is Ok && final(self)@ == old(self)@.insert(denom@, amount),
            old(self)@.contains_key(denom@) ==> final(self).entries() == old(self).entries(),
    {
        proof {
            use_type_invariant(&*self);
        }
        let (i, found) = self.find_slot(denom);
        if found {
            proof {
                lemma_coins_map_at(self.coins@, i as int);
            }
            return Err(XcosmError::Coin(CoinError::DuplicateDenom { denom: denom.clone() }));
        }
        let ghost before = self.coins@;
        proof {
            if self@.contains_key(denom@) {
                let k = choose|k: int| 0 <= k < before.len() && (#[trigger] before[k]).denom@ == denom@;
                if k < i {
                    lemma_denom_lt_asymmetric(before[k].denom@, denom@);
                } else {
                    lemma_denom_lt_asymmetric(denom@, before[k].denom@);
                }
            }
        }
        let coins = inserted(&self.coins, i, Coin { denom: denom.clone(), amount });
        let ghost after = coins@;
        proof {
            assert forall|a: int, b: int| 0 <= a < b < after.len() implies denom_lt(#[trigger] after[a].denom@, #[trigger] after[b].denom@) by {
                if b < i {
                } else if a < i && b == i {
                } else if a < i {
                    assert(after[b] == before[b - 1]);
                } else if a == i {
                    assert(after[b] == before[b - 1]);
                } else {
                    assert(after[a] == before[a - 1]);
                    assert(after[b] == before[b - 1]);
                }
            }
            lemma_coins_map_all(before);
            lemma_coins_map_all(after);
            assert forall|d: Seq<char>| #[trigger] coins_map(after).contains_key(d) <==> coins_map(before).insert(denom@, amount).contains_key(d) by {
                if coins_map(after).contains_key(d) {
                    let k = choose|k: int| 0 <= k < after.len() && (#[trigger] after[k]).denom@ == d;
                    if k > i {
                        assert(after[k] == before[k - 1]);
                    } else if k < i {
                        assert(after[k] == before[k]);
                    }
                }
                if coins_map(before).contains_key(d) {
                    let k = choose|k: int| 0 <= k < before.len() && (#[trigger] before[k]).denom@ == d;
                    if k >= i {
                        assert(after[k + 1] == before[k]);
                    } else {
                        assert(after[k] == before[k]);
                    }
                }
            }
            assert forall|d: Seq<char>| #[trigger] coins_map(after).contains_key(d) implies coins_map(after)[d] == coins_map(before).insert(denom@, amount)[d] by {
                let k = choose|k: int| 0 <= k < after.len() && (#[trigger] after[k]).denom@ == d;
                if k > i {
                    assert(after[k] == before[k - 1]);
                } else if k < i {
                    assert(after[k] == before[k]);
                }
            }
            assert(coins_map(after) =~= coins_map(before).insert(denom@, amount));
        }
        self.coins = coins;
        Ok(())
    }
}

impl CoinSet {
    /// The set that holds one coin.
    pub fn single(c: &Coin) -> (r: CoinSet)
        ensures
            r@ == coin_map(*c),
    {
        let mut v: Vec<Coin> = Vec::new();
        v.push(copy_coin(c));
        let r = CoinSet { coins: v };
        proof {
            lemma_coins_map_at(v@, 0);
            assert forall|d: Seq<char>| #[trigger] r@.contains_key(d) implies d == c.denom@ by {
                let k = choose|k: int| 0 <= k < v@.len() && (#[trigger] v@[k]).denom@ == d;
            }
            assert(r@ =~= coin_map(*c));
        }
        r
    }

    /// This set with the amounts of `other` added (`add`) or subtracted at
    /// each denomination that both hold; `None` where an amount leaves range.
    pub(crate) fn combine(&self, other: &CoinSet, add: bool) -> (r: Option<CoinSet>)
        ensures
            add ==> (r is Some <==> can_add(self@, other@)),
            add && r is Some ==> r->0@ == added(self@, other@),
            !add ==> (r is Some <==> can_subtract(self@, other@)),
            !add && r is Some ==> r->0@ == subtracted(self@, other@),
    {
        proof {
            use_type_invariant(self);
            lemma_coins_map_all(self.coins@);
        }
        let ghost a = self@;
        let ghost b = other@;
        let mut out: Vec<Coin> = Vec::new();
        let mut i: usize = 0;
        while i < self.coins.len()
            invariant
                i <= self.coins.len(),
                a == coins_map(self.coins@),
                a == self@,
                b == other@,
                sorted_coins(self.coins@),
                forall|k: int| #![trigger self.coins@[k]] 0 <= k < self.coins.len() ==> a.contains_key(self.coins@[k].denom@)
                    && a[self.coins@[k].denom@] == self.coins@[k].amount,
                out@.len() == i,
                forall|k: int| #![trigger out@[k]] 0 <= k < i ==> {
                    let d = self.coins@[k].denom@;
                    &&& out@[k].denom@ == d
                    &&& out@[k].amount == (if b.contains_key(d) {
                        if add { a[d] + b[d] } else { a[d] - b[d] }
                    } else {
                        a[d] as int
                    })
                },
            decreases self.coins.len() - i,
        {
            let c = &self.coins[i];
            proof {
                assert(self.coins@[i as int] == *c);
                assert(a.contains_key(c.denom@) && a[c.denom@] == c.amount);
            }
            let amount = match other.get(&c.denom) {
                Some(x) => {
                    let y = if add { c.amount.checked_add(x) } else { c.amount.checked_sub(x) };
                    match y {
                        Some(y) => y,
                        None => {
                            proof {
                                assert(a.contains_key(c.denom@) && b.contains_key(c.denom@));
                            }
                            return None;
                        },
                    }
                },
                None => c.amount,
            };
            let ghost before = out@;
            out.push(Coin { denom: c.denom.clone(), amount });
            proof {
                assert forall|k: int| #![trigger out@[k]] 0 <= k < i ==> out@[k] == before[k] by {}
            }
            i = i + 1;
        }
        proof {
            lemma_same_denoms(self.coins@, out@);
        }
        let r = CoinSet { coins: out };
        proof {
            if add {
                assert forall|d: Seq<char>| #[trigger] a.contains_key(d) && b.contains_key(d) implies a[d] + b[d] <= u128::MAX by {
                    let k = choose|k: int| 0 <= k < self.coins@.len() && (#[trigger] self.coins@[k]).denom@ == d;
                    assert(out@[k].denom@ == d);
                }
                assert forall|d: Seq<char>| #[trigger] r@.contains_key(d) implies r@[d] == added(a, b)[d] by {
                    let k = choose|k: int| 0 <= k < self.coins@.len() && (#[trigger] self.coins@[k]).denom@ == d;
                    assert(out@[k].denom@ == d);
                }
                assert(r@ =~= added(a, b));
            } else {
                assert forall|d: Seq<char>| #[trigger] a.contains_key(d) && b.contains_key(d) implies b[d] <= a[d] by {
                    let k = choose|k: int| 0 <= k < self.coins@.len() && (#[trigger] self.coins@[k]).denom@ == d;
                    assert(out@[k].denom@ == d);
                }
                assert forall|d: Seq<char>| #[trigger] r@.contains_key(d) implies r@[d] == subtracted(a, b)[d] by {
                    let k = choose|k: int| 0 <= k < self.coins@.len() && (#[trigger] self.coins@[k]).denom@ == d;
                    assert(out@[k].denom@ == d);
                }
                assert(r@ =~= subtracted(a, b));
            }
        }
        Some(r)
    }

    /// The coins of the set in canonical order.
    pub fn into_vec(self) -> (r: Vec<Coin>)
        ensures
            r@ == self.entries(),
            sorted_coins(r@),
            coins_map(r@) == self@,
    {
        proof {
            use_type_invariant(&self);
        }
        self.coins
    }

    /// The coins of the set in canonical order, copied.
    pub fn to_vec(&self) -> (r: Vec<Coin>)
        ensures
            r@ == self.entries(),
            sorted_coins(r@),
            coins_map(r@) == self@,
    {
        let c = self.clone();
        c.into_vec()
    }
}

/// The balance holds at least the coin.
pub open spec fn holds_at_least(m: Map<Seq<char>, u128>, c: Coin) -> bool {
    m.contains_key(c.denom@) && m[c.denom@] >= c.amount
}

/// The balance holds exactly the amount of the coin's denomination.
pub open spec fn holds_exactly(m: Map<Seq<char>, u128>, c: Coin) -> bool {
    m.contains_key(c.denom@) && m[c.denom@] == c.amount
}

/// Every denomination of the balance is among the expected coins.
pub open spec fn covered_by(m: Map<Seq<char>, u128>, expected: Seq<Coin>) -> bool {
    forall|d: Seq<char>| #[trigger] m.contains_key(d) ==> has_denom(expected, d)
}

/// The error of checking a balance for exactly one coin.
pub open spec fn exact_error(m: Map<Seq<char>, u128>, c: Coin, e: XcosmError) -> bool {
    if !holds_at_least(m, c) {
        e == XcosmError::Coin(CoinError::Insufficient { expected: c.denom })
    } else {
        e matches XcosmError::Coin(CoinError::NotExact { expected }) && expected@ == coin_text_of(c)
    }
}

impl CoinSet {
    /// The amount held of the expected coin's denomination, where it is at
    /// least the expected amount.
    pub fn expect_coin(&self, expected: &Coin) -> (r: Result<u128, XcosmError>)
        ensures
            holds_at_least(self@, *expected) ==> r == Ok::<u128, XcosmError>(self@[expected.denom@]),
            !holds_at_least(self@, *expected) ==> r == Err::<u128, XcosmError>(
                XcosmError::Coin(CoinError::Insufficient { expected: expected.denom }),
            ),
    {
        match self.get(&expected.denom) {
            Some(a) => {
                if a >= expected.amount {
                    return Ok(a);
                }
            },
            None => {},
        }
        Err(XcosmError::Coin(CoinError::Insufficient { expected: expected.denom.clone() }))
    }

    /// Succeeds where the set holds exactly the expected amount of the coin's denomination.
    pub fn expect_coin_exact(&self, expected: &Coin) -> (r: Result<(), XcosmError>)
        ensures
            r is Ok <==> holds_exactly(self@, *expected),
            r matches Err(e) ==> exact_error(self@, *expected, e),
    {
        match self.expect_coin(expected) {
            Ok(a) => {
                if a != expected.amount {
                    return Err(XcosmError::Coin(CoinError::NotExact { expected: coin_text(expected) }));
                }
                Ok(())
            },
            Err(e) => Err(e),
        }
    }

    /// Succeeds where the set holds at least every expected coin; else fails
    /// on the first that it lacks.
    pub fn expect_coins(&self, expected: Vec<Coin>) -> (r: Result<(), XcosmError>)
        ensures
            r is Ok <==> forall|i: int| 0 <= i < expected@.len() ==> holds_at_least(self@, #[trigger] expected@[i]),
            r is Err ==> exists|j: int| 0 <= j < expected@.len() && !holds_at_least(self@, #[trigger] expected@[j])
                && (forall|i: int| 0 <= i < j ==> holds_at_least(self@, #[trigger] expected@[i]))
                && r == Err::<(), XcosmError>(XcosmError::Coin(CoinError::Insufficient { expected: expected@[j].denom })),
    {
        let mut i: usize = 0;
        while i < expected.len()
            invariant
                i <= expected.len(),
                forall|k: int| 0 <= k < i ==> holds_at_least(self@, #[trigger] expected@[k]),
            decreases expected.len() - i,
        {
            match self.expect_coin(&expected[i]) {
                Ok(_) => {},
                Err(e) => return Err(e),
            }
            i = i + 1;
        }
        Ok(())
    }

    /// Succeeds where the set is exactly the expected coins: each held in
    /// exactly its amount, and no other denomination held. Fails on the first
    /// expected coin not held exactly, else names a denomination held that was
    /// not expected.
    pub fn expect_coins_exact(&self, expected: Vec<Coin>) -> (r: Result<(), XcosmError>)
        ensures
            r is Ok <==> (forall|i: int| 0 <= i < expected@.len() ==> holds_exactly(self@, #[trigger] expected@[i]))
                && covered_by(self@, expected@),
            r matches Err(e) ==> {
                ||| exists|j: int| 0 <= j < expected@.len() && !holds_exactly(self@, #[trigger] expected@[j])
                    && (forall|i: int| 0 <= i < j ==> holds_exactly(self@, #[trigger] expected@[i]))
                    && exact_error(self@, expected@[j], e)
                ||| (forall|i: int| 0 <= i < expected@.len() ==> holds_exactly(self@, #[trigger] expected@[i]))
                    && (e matches XcosmError::Coin(CoinError::NotExact { expected: d })
                    && self@.contains_key(d@) && !has_denom(expected@, d@))
            },
    {
        proof {
            use_type_invariant(self);
            lemma_coins_map_all(self.coins@);
        }
        let mut i: usize = 0;
        while i < expected.len()
            invariant
                i <= expected.len(),
                forall|k: int| 0 <= k < i ==> holds_exactly(self@, #[trigger] expected@[k]),
            decreases expected.len() - i,
        {
            match self.expect_coin_exact(&expected[i]) {
                Ok(()) => {},
                Err(e) => return Err(e),
            }
            i = i + 1;
        }
        let mut j: usize = 0;
        while j < self.coins.len()
            invariant
                j <= self.coins.len(),
                sorted_coins(self.coins@),
                forall|k: int| #![trigger self.coins@[k]] 0 <= k < self.coins.len() ==> self@.contains_key(self.coins@[k].denom@),
                forall|k: int| 0 <= k < j ==> has_denom(expected@, (#[trigger] self.coins@[k]).denom@),
                forall|k: int| 0 <= k < expected@.len() ==> holds_exactly(self@, #[trigger] expected@[k]),
            decreases self.coins.len() - j,
        {
            let d = &self.coins[j].denom;
            let mut k: usize = 0;
            let mut found = false;
            while k < expected.len() && !found
                invariant
                    k <= expected.len(),
                    found ==> has_denom(expected@, d@),
                    !found ==> forall|x: int| 0 <= x < k ==> (#[trigger] expected@[x]).denom@ != d@,
                decreases expected.len() - k,
            {
                if expected[k].denom == *d {
                    found = true;
                }
                k = k + 1;
            }
            if !found {
                proof {
                    assert(self.coins@[j as int].denom == *d);
                    assert(self@.contains_key(d@));
                    assert(!has_denom(expected@, d@));
                }
                return Err(XcosmError::Coin(CoinError::NotExact { expected: d.clone() }));
            }
            j = j + 1;
        }
        proof {
            assert forall|d: Seq<char>| #[trigger] self@.contains_key(d) implies has_denom(expected@, d) by {
                let k = index_of(self.coins@, d);
                assert(has_denom(expected@, self.coins@[k].denom@));
            }
        }
        Ok(())
    }

    /// Succeeds where the set is empty.
    pub fn expect_none(&self) -> (r: Result<(), XcosmError>)
        ensures
            r is Ok <==> self@ == Map::<Seq<char>, u128>::empty(),
            r is Err ==> r == Err::<(), XcosmError>(XcosmError::Coin(CoinError::NotEmpty {})),
    {
        if !self.is_empty() {
            return Err(XcosmError::Coin(CoinError::NotEmpty {}));
        }
        Ok(())
    }

    /// The set itself, where it is not empty.
    pub fn expect_some(&self) -> (r: Result<&CoinSet, XcosmError>)
        ensures
            r is Ok <==> self@ != Map::<Seq<char>, u128>::empty(),
            r matches Ok(c) ==> c == self,
            r is Err ==> r == Err::<&CoinSet, XcosmError>(XcosmError::Coin(CoinError::Empty {})),
    {
        if self.is_empty() {
            return Err(XcosmError::Coin(CoinError::Empty {}));
        }
        Ok(self)
    }
}

/// Listing the coins of a balance and collecting them back gives the same
/// balance: the list repeats no denomination, so collecting it succeeds, and
/// its map is the balance; the list is in canonical order.
pub proof fn lemma_round_trip(c: CoinSet)
    requires
        c.wf(),
    ensures
        sorted_coins(c.entries()),
        distinct_denoms(c.entries()),
        coins_map(c.entries()) == c@,
{
    c.lemma_wf();
    lemma_sorted_distinct_all(c.entries());
}

/// Construction of a balance from a list of coins.
pub trait TryIntoCoinSet {
    type Error;

    fn try_into_coin_set(self) -> Result<CoinSet, Self::Error>;
}

impl TryIntoCoinSet for Vec<Coin> {
    type Error = XcosmError;

    /// The balance of the coins, in any order, where no denomination repeats;
    /// else the first repeated denomination.
    fn try_into_coin_set(self) -> (r: Result<CoinSet, XcosmError>)
        ensures
            r is Ok <==> distinct_denoms(self@),
            r matches Ok(c) ==> c@ == coins_map(self@),
            r is Err ==> exists|j: int| #[trigger] first_duplicate(self@, j)
                && r == Err::<CoinSet, XcosmError>(XcosmError::Coin(CoinError::DuplicateDenom { denom: self@[j].denom })),
    {
        let mut coins = CoinSet::new();
        let mut i: usize = 0;
        while i < self.len()
            invariant
                i <= self.len(),
                distinct_denoms(self@.take(i as int)),
                coins@ == coins_map(self@.take(i as int)),
            decreases self.len() - i,
        {
            let ghost prefix = self@.take(i as int);
            proof {
                assert(self@.take(i + 1) =~= prefix.push(self@[i as int]));
            }
            match coins.try_insert(&self[i].denom, self[i].amount) {
                Ok(()) => {
                    proof {
                        lemma_coins_map_push(prefix, self@[i as int]);
                    }
                },
                Err(e) => {
                    proof {
                        assert(first_duplicate(self@, i as int));
                        let k = choose|k: int| 0 <= k < prefix.len() && (#[trigger] prefix[k]).denom@ == self@[i as int].denom@;
                        assert(self@[k] == prefix[k]);
                    }
                    return Err(e);
                },
            }
            i = i + 1;
        }
        assert(self@.take(i as int) =~= self@);
        Ok(coins)
    }
}

/// A transfer of coins from the contract to one address.
pub struct BankSend {
    pub to_address: String,
    pub amount: Vec<Coin>,
}

/// One side of a multi-send: an address and its coins.
pub struct BankMsgIo {
    pub address: String,
    pub coins: Vec<Coin>,
}

impl BankMsgIo {
    pub fn new(address: String, coins: Vec<Coin>) -> (r: BankMsgIo)
        ensures
            r.address == address,
            r.coins == coins,
    {
        BankMsgIo { address, coins }
    }
}

/// A transfer from several inputs to several outputs whose totals agree.
pub struct BankMsgMultiSend {
    pub inputs: Vec<BankMsgIo>,
    pub outputs: Vec<BankMsgIo>,
}

/// A transfer instruction, to be encoded for the ledger.
pub enum TransferMsg {
    Send(BankSend),
    MultiSend(BankMsgMultiSend),
}

/// A transfer of one coin to an address.
pub fn send_coin(coin: Coin, to: &String) -> (r: TransferMsg)
    ensures
        r matches TransferMsg::Send(m) && m.to_address == *to && m.amount@ == seq![coin],
{
    let mut amount: Vec<Coin> = Vec::new();
    amount.push(coin);
    TransferMsg::Send(BankSend { to_address: to.clone(), amount })
}

/// A transfer of several coins to an address.
pub fn send_coins(coins: Vec<Coin>, to: &String) -> (r: TransferMsg)
    ensures
        r matches TransferMsg::Send(m) && m.to_address == *to && m.amount@ == coins@,
{
    TransferMsg::Send(BankSend { to_address: to.clone(), amount: coins })
}

/// The (address, coin) pairs of a fan-out: output after output, the coins of
/// each in canonical order.
pub open spec fn fan_out(to: Seq<(String, CoinSet)>) -> Seq<(String, Coin)>
    decreases to.len(),
{
    if to.len() == 0 {
        seq![]
    } else {
        let last = to.last();
        fan_out(to.drop_last()) + last.1.entries().map_values(|c: Coin| (last.0, c))
    }
}

/// The total amount of a denomination over (address, coin) pairs.
pub open spec fn sent_total(f: Seq<(String, Coin)>, d: Seq<char>) -> int
    decreases f.len(),
{
    if f.len() == 0 {
        0
    } else {
        sent_total(f.drop_last(), d) + (if f.last().1.denom@ == d { f.last().1.amount as int } else { 0 })
    }
}

/// Every coin sent out is of a denomination put in.
pub open spec fn known_denoms(input: Map<Seq<char>, u128>, f: Seq<(String, Coin)>) -> bool {
    forall|k: int| 0 <= k < f.len() ==> input.contains_key(#[trigger] f[k].1.denom@)
}

/// The amount of a denomination put in; zero where it is absent.
pub open spec fn input_amount(input: Map<Seq<char>, u128>, d: Seq<char>) -> int {
    if input.contains_key(d) {
        input[d] as int
    } else {
        0
    }
}

/// Some denomination is sent out beyond what was put in of it.
pub open spec fn overspent(input: Map<Seq<char>, u128>, f: Seq<(String, Coin)>) -> bool {
    exists|d: Seq<char>| #[trigger] sent_total(f, d) > input_amount(input, d)
}

/// Every denomination is sent out in exactly the amount put in of it.
pub open spec fn balanced(input: Map<Seq<char>, u128>, f: Seq<(String, Coin)>) -> bool {
    forall|d: Seq<char>| #[trigger] sent_total(f, d) == input_amount(input, d)
}

pub proof fn lemma_sent_total_take(f: Seq<(String, Coin)>, k: int, d: Seq<char>)
    requires
        0 <= k < f.len(),
    ensures
        sent_total(f.take(k + 1), d) == sent_total(f.take(k), d) + (if f[k].1.denom@ == d { f[k].1.amount as int } else { 0 }),
{
    assert(f.take(k + 1).drop_last() =~= f.take(k));
}

pub proof fn lemma_sent_total_monotonic(f: Seq<(String, Coin)>, k: int, d: Seq<char>)
    requires
        0 <= k <= f.len(),
    ensures
        sent_total(f.take(k), d) <= sent_total(f, d),
    decreases f.len() - k,
{
    if k < f.len() {
        lemma_sent_total_take(f, k, d);
        lemma_sent_total_monotonic(f, k + 1, d);
    } else {
        assert(f.take(k) =~= f);
    }
}

pub proof fn lemma_sent_total_append(a: Seq<(String, Coin)>, b: Seq<(String, Coin)>, d: Seq<char>)
    ensures
        sent_total(a + b, d) == sent_total(a, d) + sent_total(b, d),
    decreases b.len(),
{
    if b.len() == 0 {
        assert(a + b =~= a);
    } else {
        assert((a + b).drop_last() =~= a + b.drop_last());
        lemma_sent_total_append(a, b.drop_last(), d);
    }
}

/// The (address, coin) pairs of a fan-out, listed.
fn fan_out_pairs(to: &Vec<(String, CoinSet)>) -> (r: Vec<(String, Coin)>)
    ensures
        r@ == fan_out(to@),
{
    let mut r: Vec<(String, Coin)> = Vec::new();
    let mut i: usize = 0;
    while i < to.len()
        invariant
            i <= to.len(),
            r@ == fan_out(to@.take(i as int)),
        decreases to.len() - i,
    {
        let coins = to[i].1.to_vec();
        let ghost start = r@;
        let ghost addr = to@[i as int].0;
        let mut j: usize = 0;
        while j < coins.len()
            invariant
                i < to.len(),
                j <= coins.len(),
                coins@ == to@[i as int].1.entries(),
                addr == to@[i as int].0,
                r@ == start + coins@.take(j as int).map_values(|c: Coin| (addr, c)),
            decreases coins.len() - j,
        {
            r.push((to[i].0.clone(), copy_coin(&coins[j])));
            j = j + 1;
            assert(r@ =~= start + coins@.take(j as int).map_values(|c: Coin| (addr, c)));
        }
        proof {
            let t = to@.take(i + 1);
            assert(t.drop_last() =~= to@.take(i as int));
            assert(t.last() == to@[i as int]);
            assert(coins@.take(j as int) =~= coins@);
        }
        i = i + 1;
    }
    assert(to@.take(i as int) =~= to@);
    r
}

/// A multi-send of `coins` from one address to several, each output a coin
/// of a destination's set. It succeeds where every denomination is sent out
/// in exactly the amount put in of it, an absent one counting as zero. It fails
/// with `Insufficient` where some denomination is sent out beyond what was put
/// in of it, and otherwise with `IoMismatch` where part of the input is left unsent.
pub fn send_coins_many(coins: &CoinSet, from: &String, to: Vec<(String, CoinSet)>) -> (r: Result<TransferMsg, XcosmError>)
    ensures
        ({
            let f = fan_out(to@);
            &&& r is Ok <==> balanced(coins@, f)
            &&& (r matches Err(XcosmError::Coin(CoinError::Insufficient { expected }))) <==> overspent(coins@, f)
            &&& r matches Err(XcosmError::Coin(CoinError::Insufficient { expected })) ==>
                exists|k: int| 0 <= k < f.len() && expected@ == coin_text_of(#[trigger] f[k].1)
            &&& r is Err ==> ((r matches Err(XcosmError::Coin(CoinError::Insufficient { .. })))
                || r == Err::<TransferMsg, XcosmError>(XcosmError::Coin(CoinError::IoMismatch {})))
            &&& r matches Ok(m) ==> (m matches TransferMsg::MultiSend(ms) && {
                &&& ms.inputs@.len() == 1
                &&& ms.inputs@[0].address == *from
                &&& ms.inputs@[0].coins@ == coins.entries()
                &&& ms.outputs@.len() == f.len()
                &&& forall|k: int| 0 <= k < f.len() ==> (#[trigger] ms.outputs@[k]).address == f[k].0
                    && ms.outputs@[k].coins@ == seq![f[k].1]
            })
        }),
{
    let pairs = fan_out_pairs(&to);
    let ghost f = pairs@;
    let ghost input = coins@;
    let mut rem = coins.clone();
    let mut outputs: Vec<BankMsgIo> = Vec::new();
    let mut k: usize = 0;
    assert(f.take(0) =~= Seq::<(String, Coin)>::empty());
    while k < pairs.len()
        invariant
            k <= pairs.len(),
            f == pairs@,
            f == fan_out(to@),
            input == coins@,
            rem@.dom() == input.dom(),
            forall|d: Seq<char>| #[trigger] input.contains_key(d) ==> rem@[d] == input[d] - sent_total(f.take(k as int), d),
            forall|d: Seq<char>| !input.contains_key(d) ==> #[trigger] sent_total(f.take(k as int), d) == 0,
            outputs@.len() == k,
            forall|i: int| 0 <= i < k ==> (#[trigger] outputs@[i]).address == f[i].0 && outputs@[i].coins@ == seq![f[i].1],
        decreases pairs.len() - k,
    {
        let coin = &pairs[k].1;
        proof {
            assert(f[k as int].1 == *coin);
            assert forall|d: Seq<char>| true implies #[trigger] sent_total(f.take(k + 1), d) == sent_total(f.take(k as int), d)
                + (if f[k as int].1.denom@ == d { f[k as int].1.amount as int } else { 0 }) by {
                lemma_sent_total_take(f, k as int, d);
            }
        }
        let enough = match rem.get(&coin.denom) {
            Some(a) => a >= coin.amount,
            None => coin.amount == 0,
        };
        if !enough {
            proof {
                let d = coin.denom@;
                lemma_sent_total_monotonic(f, k + 1, d);
                assert(sent_total(f, d) > input_amount(input, d));
                assert(overspent(input, f));
                assert(!balanced(input, f));
            }
            return Err(XcosmError::Coin(CoinError::Insufficient { expected: coin_text(coin) }));
        }
        let ghost before = rem@;
        let _ = rem.try_minus_mut(coin);
        proof {
            assert forall|d: Seq<char>| #[trigger] input.contains_key(d) implies rem@[d] == input[d] - sent_total(f.take(k + 1), d) by {
                if d != coin.denom@ {
                    assert(rem@[d] == before[d]);
                }
            }
            assert forall|d: Seq<char>| !input.contains_key(d) implies #[trigger] sent_total(f.take(k + 1), d) == 0 by {
                assert(sent_total(f.take(k as int), d) == 0);
            }
            assert(rem@.dom() =~= input.dom());
        }
        let mut one: Vec<Coin> = Vec::new();
        one.push(copy_coin(coin));
        outputs.push(BankMsgIo { address: pairs[k].0.clone(), coins: one });
        k = k + 1;
    }
    proof {
        assert(f.take(k as int) =~= f);
        assert forall|d: Seq<char>| true implies #[trigger] sent_total(f, d) <= input_amount(input, d) by {
            if input.contains_key(d) {
                assert(rem@.contains_key(d));
            }
        }
    }
    if !rem.all_zero() {
        proof {
            let d = choose|d: Seq<char>| #[trigger] rem@.contains_key(d) && rem@[d] != 0;
            assert(sent_total(f, d) < input_amount(input, d));
            assert(!balanced(input, f));
        }
        return Err(XcosmError::Coin(CoinError::IoMismatch {}));
    }
    proof {
        assert forall|d: Seq<char>| true implies #[trigger] sent_total(f, d) == input_amount(input, d) by {
            if input.contains_key(d) {
                assert(rem@.contains_key(d));
            }
        }
    }
    let mut inputs: Vec<BankMsgIo> = Vec::new();
    inputs.push(BankMsgIo { address: from.clone(), coins: coins.to_vec() });
    Ok(TransferMsg::MultiSend(BankMsgMultiSend { inputs, outputs }))
}

impl CoinSet {
    /// Every amount of the set is zero.
    pub fn all_zero(&self) -> (r: bool)
        ensures
            r == forall|d: Seq<char>| #[trigger] self@.contains_key(d) ==> self@[d] == 0,
    {
        proof {
            use_type_invariant(self);
            lemma_coins_map_all(self.coins@);
        }
        let mut i: usize = 0;
        while i < self.coins.len()
            invariant
                i <= self.coins.len(),
                sorted_coins(self.coins@),
                forall|k: int| 0 <= k < i ==> (#[trigger] self.coins@[k]).amount == 0,
            decreases self.coins.len() - i,
        {
            if self.coins[i].amount != 0 {
                proof {
                    lemma_coins_map_at(self.coins@, i as int);
                    let d = self.coins@[i as int].denom@;
                    assert(self@.contains_key(d) && self@[d] != 0);
                }
                return false;
            }
            i = i + 1;
        }
        proof {
            assert forall|d: Seq<char>| #[trigger] self@.contains_key(d) implies self@[d] == 0 by {
                let k = index_of(self.coins@, d);
                assert(self.coins@[k].amount == 0);
            }
        }
        true
    }

    /// A transfer of the whole set to an address; fails on an empty set.
    pub fn send(&self, to: &String) -> (r: Result<TransferMsg, XcosmError>)
        ensures
            r is Ok <==> self@.len() > 0,
            r is Err ==> r == Err::<TransferMsg, XcosmError>(XcosmError::Coin(CoinError::Empty {})),
            r matches Ok(m) ==> (m matches TransferMsg::Send(s) && s.to_address == *to && s.amount@ == self.entries()),
    {
        proof {
            use_type_invariant(self);
            self.lemma_len();
        }
        if self.coins.len() == 0 {
            return Err(XcosmError::Coin(CoinError::Empty {}));
        }
        if self.coins.len() == 1 {
            let c = copy_coin(&self.coins[0]);
            proof {
                assert(seq![c] =~= self.coins@);
            }
            Ok(send_coin(c, to))
        } else {
            Ok(send_coins(self.to_vec(), to))
        }
    }

    /// A multi-send of this set from one address to several; see
    /// [`send_coins_many`].
    pub fn send_many(&self, from: &String, output: Vec<(String, CoinSet)>) -> (r: Result<TransferMsg, XcosmError>)
        ensures
            ({
                let f = fan_out(output@);
                &&& r is Ok <==> balanced(self@, f)
                &&& (r matches Err(XcosmError::Coin(CoinError::Insufficient { expected }))) <==> overspent(self@, f)
                &&& r matches Err(XcosmError::Coin(CoinError::Insufficient { expected })) ==>
                    exists|k: int| 0 <= k < f.len() && expected@ == coin_text_of(#[trigger] f[k].1)
                &&& r is Err ==> ((r matches Err(XcosmError::Coin(CoinError::Insufficient { .. })))
                    || r == Err::<TransferMsg, XcosmError>(XcosmError::Coin(CoinError::IoMismatch {})))
                &&& r matches Ok(m) ==> (m matches TransferMsg::MultiSend(ms) && {
                    &&& ms.inputs@.len() == 1
                    &&& ms.inputs@[0].address == *from
                    &&& ms.inputs@[0].coins@ == self.entries()
                    &&& ms.outputs@.len() == f.len()
                    &&& forall|k: int| 0 <= k < f.len() ==> (#[trigger] ms.outputs@[k]).address == f[k].0
                        && ms.outputs@[k].coins@ == seq![f[k].1]
                })
            }),
    {
        send_coins_many(self, from, output)
    }
}

impl Default for CoinSet {
    fn default() -> (r: CoinSet)
        ensures
            r@ == Map::<Seq<char>, u128>::empty(),
    {
        CoinSet::new()
    }
}

} // verus!
