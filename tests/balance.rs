use xcosm::{Coin, CoinError, CoinSet, TransferMsg, TryIntoCoinSet, XcosmError};

fn set(pairs: &[(&str, u128)]) -> CoinSet {
    let coins: Vec<Coin> = pairs.iter().map(|(d, a)| Coin::new(*a, d)).collect();
    coins.try_into_coin_set().unwrap()
}

fn pairs(c: &CoinSet) -> Vec<(String, u128)> {
    c.to_vec().into_iter().map(|c| (c.denom, c.amount)).collect()
}

#[test]
fn duplicate_denom_rejected() {
    let coins = vec![Coin::new(5, "u"), Coin::new(3, "u")];
    match coins.try_into_coin_set() {
        Err(XcosmError::Coin(CoinError::DuplicateDenom { denom })) => assert_eq!(denom, "u"),
        other => panic!("unexpected {:?}", other),
    }
}

#[test]
fn distinct_denoms_accepted() {
    let coins = vec![Coin::new(5, "u"), Coin::new(3, "v")];
    let c = coins.try_into_coin_set().unwrap();
    assert_eq!(c.len(), 2);
    assert_eq!(c.get(&"u".to_string()), Some(5));
    assert_eq!(c.get(&"v".to_string()), Some(3));
    assert_eq!(c.get(&"w".to_string()), None);
}

#[test]
fn first_repeated_denom_is_named() {
    let coins = vec![Coin::new(1, "a"), Coin::new(2, "b"), Coin::new(3, "b"), Coin::new(4, "a")];
    match coins.try_into_coin_set() {
        Err(XcosmError::Coin(CoinError::DuplicateDenom { denom })) => assert_eq!(denom, "b"),
        other => panic!("unexpected {:?}", other),
    }
}

#[test]
fn coins_are_kept_in_denom_order() {
    let c = set(&[("uosmo", 1), ("atom", 2), ("Zeta", 3), ("uatom", 4), ("a", 5)]);
    assert_eq!(
        pairs(&c),
        vec![
            ("Zeta".to_string(), 3),
            ("a".to_string(), 5),
            ("atom".to_string(), 2),
            ("uatom".to_string(), 4),
            ("uosmo".to_string(), 1)
        ]
    );
}

#[test]
fn round_trip_through_pairs() {
    let c = set(&[("v", 3), ("u", 5), ("w", 0)]);
    let back = c.clone().into_vec().try_into_coin_set().unwrap();
    assert_eq!(back, c);
    let reordered = set(&[("w", 0), ("u", 5), ("v", 3)]);
    assert_eq!(reordered, c);
}

#[test]
fn zero_amount_is_distinct_from_absent() {
    let c = set(&[("u", 0)]);
    assert_eq!(c.get(&"u".to_string()), Some(0));
    assert!(!c.is_empty());
    assert!(c.expect_none().is_err());
}

#[test]
fn try_insert_rejects_present_denom() {
    let mut c = CoinSet::new();
    assert!(c.try_insert(&"u".to_string(), 7).is_ok());
    match c.try_insert(&"u".to_string(), 9) {
        Err(XcosmError::Coin(CoinError::DuplicateDenom { denom })) => assert_eq!(denom, "u"),
        other => panic!("unexpected {:?}", other),
    }
    assert_eq!(c.get(&"u".to_string()), Some(7));
}

#[test]
fn expect_coin_at_least() {
    let c = set(&[("u", 10)]);
    assert_eq!(c.expect_coin(&Coin::new(10, "u")).unwrap(), 10);
    assert_eq!(c.expect_coin(&Coin::new(4, "u")).unwrap(), 10);
    match c.expect_coin(&Coin::new(11, "u")) {
        Err(XcosmError::Coin(CoinError::Insufficient { expected })) => assert_eq!(expected, "u"),
        other => panic!("unexpected {:?}", other),
    }
    assert!(matches!(
        c.expect_coin(&Coin::new(1, "v")),
        Err(XcosmError::Coin(CoinError::Insufficient { .. }))
    ));
}

#[test]
fn expect_coin_exact_names_the_coin() {
    let c = set(&[("uatom", 100)]);
    assert!(c.expect_coin_exact(&Coin::new(100, "uatom")).is_ok());
    match c.expect_coin_exact(&Coin::new(40, "uatom")) {
        Err(XcosmError::Coin(CoinError::NotExact { expected })) => assert_eq!(expected, "40uatom"),
        other => panic!("unexpected {:?}", other),
    }
    assert!(matches!(
        c.expect_coin_exact(&Coin::new(101, "uatom")),
        Err(XcosmError::Coin(CoinError::Insufficient { .. }))
    ));
}

#[test]
fn coin_text_is_amount_then_denom() {
    assert_eq!(Coin::new(100, "uatom").to_text(), "100uatom");
    assert_eq!(Coin::new(0, "u").to_text(), "0u");
    assert_eq!(Coin::new(u128::MAX, "x").to_text(), format!("{}x", u128::MAX));
}

#[test]
fn expect_coins_reports_first_shortfall() {
    let c = set(&[("u", 10), ("v", 2)]);
    assert!(c.expect_coins(vec![Coin::new(5, "u"), Coin::new(2, "v")]).is_ok());
    assert!(c.expect_coins(vec![]).is_ok());
    match c.expect_coins(vec![Coin::new(5, "u"), Coin::new(3, "v"), Coin::new(1, "w")]) {
        Err(XcosmError::Coin(CoinError::Insufficient { expected })) => assert_eq!(expected, "v"),
        other => panic!("unexpected {:?}", other),
    }
}

#[test]
fn expect_coins_exact_requires_equal_sets() {
    let c = set(&[("u", 10), ("v", 2)]);
    assert!(c.expect_coins_exact(vec![Coin::new(2, "v"), Coin::new(10, "u")]).is_ok());
    match c.expect_coins_exact(vec![Coin::new(10, "u")]) {
        Err(XcosmError::Coin(CoinError::NotExact { expected })) => assert_eq!(expected, "v"),
        other => panic!("unexpected {:?}", other),
    }
    match c.expect_coins_exact(vec![Coin::new(9, "u"), Coin::new(2, "v")]) {
        Err(XcosmError::Coin(CoinError::NotExact { expected })) => assert_eq!(expected, "9u"),
        other => panic!("unexpected {:?}", other),
    }
}

#[test]
fn expect_none_and_some() {
    let empty = CoinSet::default();
    assert!(empty.expect_none().is_ok());
    assert!(matches!(empty.expect_some(), Err(XcosmError::Coin(CoinError::Empty {}))));
    let c = set(&[("u", 1)]);
    assert!(matches!(c.expect_none(), Err(XcosmError::Coin(CoinError::NotEmpty {}))));
    assert_eq!(c.expect_some().unwrap(), &c);
}

#[test]
fn send_requires_coins() {
    let to = "dest".to_string();
    assert!(matches!(CoinSet::new().send(&to), Err(XcosmError::Coin(CoinError::Empty {}))));
    match set(&[("u", 1)]).send(&to).unwrap() {
        TransferMsg::Send(m) => {
            assert_eq!(m.to_address, "dest");
            assert_eq!(m.amount, vec![Coin::new(1, "u")]);
        },
        _ => panic!("expected a send"),
    }
    match set(&[("v", 2), ("u", 1)]).send(&to).unwrap() {
        TransferMsg::Send(m) => assert_eq!(m.amount, vec![Coin::new(1, "u"), Coin::new(2, "v")]),
        _ => panic!("expected a send"),
    }
}
