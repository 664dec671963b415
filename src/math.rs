//! Checked arithmetic between balances and single coins.

use vstd::prelude::*;
use crate::coin::{Coin, CoinSet};

verus! {

/// Error of a checked arithmetic operation.
#[derive(Debug, Clone, PartialEq, Eq)]
pub enum MathError {
    Container(ContainerError),
    Value(ValueError),
}

/// An amount left its representable range.
#[derive(Debug, Clone, PartialEq, Eq)]
pub enum ContainerError {
    Overflow {},
    Underflow {},
}

/// An operation was undefined on its operands.
#[derive(Debug, Clone, PartialEq, Eq)]
pub enum ValueError {
    DivideByZero {},
}

/// The amounts of a single coin, as a map.
pub open spec fn coin_map(c: Coin) -> Map<Seq<char>, u128> {
    map![c.denom@ => c.amount]
}

/// Adding `b` to the matching denominations of `a` stays in range.
pub open spec fn can_add(a: Map<Seq<char>, u128>, b: Map<Seq<char>, u128>) -> bool {
    forall|d: Seq<char>| #[trigger] a.contains_key(d) && b.contains_key(d) ==> a[d] + b[d] <= u128::MAX
}

/// `a` with the amounts of `b` added to the denominations that `a` holds; other
/// denominations of `b` are left out.
pub open spec fn added(a: Map<Seq<char>, u128>, b: Map<Seq<char>, u128>) -> Map<Seq<char>, u128> {
    Map::new(
        |d: Seq<char>| a.contains_key(d),
        |d: Seq<char>| if b.contains_key(d) { (a[d] + b[d]) as u128 } else { a[d] },
    )
}

/// Subtracting `b` from the matching denominations of `a` stays non-negative.
pub open spec fn can_subtract(a: Map<Seq<char>, u128>, b: Map<Seq<char>, u128>) -> bool {
    forall|d: Seq<char>| #[trigger] a.contains_key(d) && b.contains_key(d) ==> b[d] <= a[d]
}

/// `a` with the amounts of `b` subtracted from the denominations that `a` holds;
/// other denominations of `b` are left out.
pub open spec fn subtracted(a: Map<Seq<char>, u128>, b: Map<Seq<char>, u128>) -> Map<Seq<char>, u128> {
    Map::new(
        |d: Seq<char>| a.contains_key(d),
        |d: Seq<char>| if b.contains_key(d) { (a[d] - b[d]) as u128 } else { a[d] },
    )
}

/// Checked addition that returns a new value.
pub trait TryPlus<T> {
    type Output;

    type Error;

    fn try_plus(&self, other: T) -> Result<Self::Output, Self::Error>;
}

/// Checked addition in place.
pub trait TryPlusMut<T> {
    type Error;

    fn try_plus_mut(&mut self, other: T) -> Result<(), Self::Error>;
}

/// Checked subtraction that returns a new value.
pub trait TryMinus<T> {
    type Output;

    type Error;

    fn try_minus(&self, other: T) -> Result<Self::Output, Self::Error>;
}

/// Checked subtraction in place.
pub trait TryMinusMut<T> {
    type Error;

    fn try_minus_mut(&mut self, other: T) -> Result<(), Self::Error>;
}

impl<'a> TryPlus<&'a CoinSet> for CoinSet {
    type Output = CoinSet;

    type Error = MathError;

    fn try_plus(&self, other: &'a CoinSet) -> (r: Result<CoinSet, MathError>)
        ensures
            r is Ok <==> can_add(self@, other@),
            r matches Ok(v) ==> v@ == added(self@, other@),
            r is Err ==> r == Err::<CoinSet, MathError>(MathError::Container(ContainerError::Overflow {})),
    {
        match self.combine(other, true) {
            Some(v) => Ok(v),
            None => Err(MathError::Container(ContainerError::Overflow {})),
        }
    }
}

impl<'a> TryPlus<&'a Coin> for CoinSet {
    type Output = CoinSet;

    type Error = MathError;

    fn try_plus(&self, other: &'a Coin) -> (r: Result<CoinSet, MathError>)
        ensures
            r is Ok <==> can_add(self@, coin_map(*other)),
            r matches Ok(v) ==> v@ == added(self@, coin_map(*other)),
            r is Err ==> r == Err::<CoinSet, MathError>(MathError::Container(ContainerError::Overflow {})),
    {
        let one = CoinSet::single(other);
        self.try_plus(&one)
    }
}

impl<'a> TryPlusMut<&'a CoinSet> for CoinSet {
    type Error = MathError;

    fn try_plus_mut(&mut self, other: &'a CoinSet) -> (r: Result<(), MathError>)
        ensures
            r is Ok <==> can_add(old(self)@, other@),
            r is Ok ==> final(self)@ == added(old(self)@, other@),
            r is Err ==> r == Err::<(), MathError>(MathError::Container(ContainerError::Overflow {}))
                && final(self)@ == old(self)@,
    {
        match self.try_plus(other) {
            Ok(v) => {
                *self = v;
                Ok(())
            },
            Err(e) => Err(e),
        }
    }
}

impl<'a> TryPlusMut<&'a Coin> for CoinSet {
    type Error = MathError;

    fn try_plus_mut(&mut self, other: &'a Coin) -> (r: Result<(), MathError>)
        ensures
            r is Ok <==> can_add(old(self)@, coin_map(*other)),
            r is Ok ==> final(self)@ == added(old(self)@, coin_map(*other)),
            r is Err ==> r == Err::<(), MathError>(MathError::Container(ContainerError::Overflow {}))
                && final(self)@ == old(self)@,
    {
        match self.try_plus(other) {
            Ok(v) => {
                *self = v;
                Ok(())
            },
            Err(e) => Err(e),
        }
    }
}

impl<'a> TryMinus<&'a CoinSet> for CoinSet {
    type Output = CoinSet;

    type Error = MathError;

    fn try_minus(&self, other: &'a CoinSet) -> (r: Result<CoinSet, MathError>)
        ensures
            r is Ok <==> can_subtract(self@, other@),
            r matches Ok(v) ==> v@ == subtracted(self@, other@),
            r is Err ==> r == Err::<CoinSet, MathError>(MathError::Container(ContainerError::Underflow {})),
    {
        match self.combine(other, false) {
            Some(v) => Ok(v),
            None => Err(MathError::Container(ContainerError::Underflow {})),
        }
    }
}

impl<'a> TryMinus<&'a Coin> for CoinSet {
    type Output = CoinSet;

    type Error = MathError;

    fn try_minus(&self, other: &'a Coin) -> (r: Result<CoinSet, MathError>)
        ensures
            r is Ok <==> can_subtract(self@, coin_map(*other)),
            r matches Ok(v) ==> v@ == subtracted(self@, coin_map(*other)),
            r is Err ==> r == Err::<CoinSet, MathError>(MathError::Container(ContainerError::Underflow {})),
    {
        let one = CoinSet::single(other);
        self.try_minus(&one)
    }
}

impl<'a> TryMinusMut<&'a CoinSet> for CoinSet {
    type Error = MathError;

    fn try_minus_mut(&mut self, other: &'a CoinSet) -> (r: Result<(), MathError>)
        ensures
            r is Ok <==> can_subtract(old(self)@, other@),
            r is Ok ==> final(self)@ == subtracted(old(self)@, other@),
            r is Err ==> r == Err::<(), MathError>(MathError::Container(ContainerError::Underflow {}))
                && final(self)@ == old(self)@,
    {
        match self.try_minus(other) {
            Ok(v) => {
                *self = v;
                Ok(())
            },
            Err(e) => Err(e),
        }
    }
}

impl<'a> TryMinusMut<&'a Coin> for CoinSet {
    type Error = MathError;

    fn try_minus_mut(&mut self, other: &'a Coin) -> (r: Result<(), MathError>)
        ensures
            r is Ok <==> can_subtract(old(self)@, coin_map(*other)),
            r is Ok ==> final(self)@ == subtracted(old(self)@, coin_map(*other)),
            r is Err ==> r == Err::<(), MathError>(MathError::Container(ContainerError::Underflow {}))
                && final(self)@ == old(self)@,
    {
        match self.try_minus(other) {
            Ok(v) => {
                *self = v;
                Ok(())
            },
            Err(e) => Err(e),
        }
    }
}

} // verus!
