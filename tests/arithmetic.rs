use xcosm::{Coin, CoinSet, ContainerError, MathError, TryIntoCoinSet, TryMinus, TryMinusMut, TryPlus, TryPlusMut};

fn set(pairs: &[(&str, u128)]) -> CoinSet {
    let coins: Vec<Coin> = pairs.iter().map(|(d, a)| Coin::new(*a, d)).collect();
    coins.try_into_coin_set().unwrap()
}

#[test]
fn add_coin_to_present_denom() {
    let c = set(&[("u", 5), ("v", 1)]);
    let r = c.try_plus(&Coin::new(3, "u")).unwrap();
    assert_eq!(r, set(&[("u", 8), ("v", 1)]));
}

#[test]
fn add_coin_of_absent_denom_changes_nothing() {
    let c = set(&[("u", 5)]);
    assert_eq!(c.try_plus(&Coin::new(3, "w")).unwrap(), c);
    assert_eq!(c.try_minus(&Coin::new(3, "w")).unwrap(), c);
}

#[test]
fn add_overflow_is_reported() {
    let c = set(&[("u", u128::MAX - 1)]);
    assert_eq!(c.try_plus(&Coin::new(1, "u")).unwrap(), set(&[("u", u128::MAX)]));
    assert!(matches!(
        c.try_plus(&Coin::new(2, "u")),
        Err(MathError::Container(ContainerError::Overflow {}))
    ));
}

#[test]
fn subtract_underflow_is_reported() {
    let c = set(&[("u", 3)]);
    assert_eq!(c.try_minus(&Coin::new(3, "u")).unwrap(), set(&[("u", 0)]));
    assert!(matches!(
        c.try_minus(&Coin::new(4, "u")),
        Err(MathError::Container(ContainerError::Underflow {}))
    ));
}

#[test]
fn add_sets_only_where_left_holds() {
    let a = set(&[("u", 5), ("v", 1)]);
    let b = set(&[("u", 2), ("w", 9)]);
    assert_eq!(a.try_plus(&b).unwrap(), set(&[("u", 7), ("v", 1)]));
    assert_eq!(a.try_minus(&b).unwrap(), set(&[("u", 3), ("v", 1)]));
}

#[test]
fn in_place_add_is_true_addition() {
    let mut a = set(&[("u", 5)]);
    a.try_plus_mut(&Coin::new(2, "u")).unwrap();
    assert_eq!(a, set(&[("u", 7)]));
    a.try_plus_mut(&set(&[("u", 1)])).unwrap();
    assert_eq!(a, set(&[("u", 8)]));
}

#[test]
fn in_place_failure_leaves_value_unchanged() {
    let mut a = set(&[("u", 5), ("v", u128::MAX)]);
    let before = a.clone();
    assert!(matches!(
        a.try_plus_mut(&set(&[("u", 1), ("v", 1)])),
        Err(MathError::Container(ContainerError::Overflow {}))
    ));
    assert_eq!(a, before);
    assert!(matches!(
        a.try_minus_mut(&set(&[("u", 1), ("v", 0), ("x", 1)])),
        Ok(())
    ));
    assert_eq!(a, set(&[("u", 4), ("v", u128::MAX)]));
    let mut b = set(&[("u", 1)]);
    assert!(matches!(
        b.try_minus_mut(&Coin::new(2, "u")),
        Err(MathError::Container(ContainerError::Underflow {}))
    ));
    assert_eq!(b, set(&[("u", 1)]));
}
