use xcosm::{
    send_coins_many, Claim, Coin, CoinError, CoinSet, ContainerError, Distribution, FundError, MathError,
    TransferMsg, TryIntoCoinSet, XcosmError,
};

fn set(pairs: &[(&str, u128)]) -> CoinSet {
    let coins: Vec<Coin> = pairs.iter().map(|(d, a)| Coin::new(*a, d)).collect();
    coins.try_into_coin_set().unwrap()
}

fn dist(claims: &[(&str, u32)]) -> Distribution {
    Distribution::new(claims.iter().map(|(p, b)| (p.to_string(), Claim::new(*b))).collect())
}

#[test]
fn claim_amount_divides_by_one_hundred_thousand() {
    assert_eq!(Claim::new(5000).claim_amount(100).unwrap(), 5);
    assert_eq!(Claim::new(10000).claim_amount(100).unwrap(), 10);
    assert_eq!(Claim::new(100000).claim_amount(123).unwrap(), 123);
    assert_eq!(Claim::new(3333).claim_amount(1000).unwrap(), 33);
}

#[test]
fn claim_of_nothing_takes_nothing() {
    for total in [0u128, 1, 99_999, 100_000, u128::MAX] {
        assert_eq!(Claim::new(0).claim_amount(total).unwrap(), 0);
    }
    assert_eq!(Claim::new(10000).claim_amount(0).unwrap(), 0);
}

#[test]
fn claim_amount_has_no_spurious_overflow() {
    assert_eq!(Claim::new(10000).claim_amount(u128::MAX).unwrap(), u128::MAX / 10);
    assert_eq!(Claim::new(100000).claim_amount(u128::MAX).unwrap(), u128::MAX);
    assert!(matches!(
        Claim::new(100001).claim_amount(u128::MAX),
        Err(XcosmError::Math(MathError::Container(ContainerError::Overflow {})))
    ));
}

#[test]
fn claim_shares_each_denom() {
    let funds = set(&[("u", 1000), ("v", 7)]);
    let c = Claim::new(5000).claim(&funds).unwrap();
    assert_eq!(c, set(&[("u", 50), ("v", 0)]));
}

#[test]
fn total_bps_sums_claims() {
    assert_eq!(dist(&[("a", 2500), ("b", 7500)]).total_bps().unwrap(), 10000);
    assert_eq!(Distribution::default().total_bps().unwrap(), 0);
}

#[test]
fn overclaim_is_rejected() {
    let d = dist(&[("a", 5000), ("b", 5001)]);
    assert!(matches!(d.total_bps(), Err(XcosmError::Fund(FundError::DistributionOverclaimed {}))));
    let funds = set(&[("u", 100)]);
    assert!(matches!(
        d.distribute_coins(&"src".to_string(), &funds),
        Err(XcosmError::Fund(FundError::DistributionOverclaimed {}))
    ));
    assert!(matches!(
        d.with_remainder_to("a".to_string()),
        Err(XcosmError::Fund(FundError::DistributionOverclaimed {}))
    ));
    let huge = dist(&[("a", u32::MAX), ("b", u32::MAX)]);
    assert!(matches!(huge.total_bps(), Err(XcosmError::Fund(FundError::DistributionOverclaimed {}))));
}

#[test]
fn later_claim_of_a_principal_replaces_earlier() {
    let d = dist(&[("a", 100), ("b", 200), ("a", 300)]);
    assert_eq!(d.claims().len(), 2);
    assert_eq!(d.claims()[0].0, "a");
    assert_eq!(d.claims()[0].1.bps(), 300);
    assert_eq!(d.total_bps().unwrap(), 500);
}

#[test]
fn remainder_tops_up_to_the_whole() {
    let d = dist(&[("a", 2000), ("b", 3000)]);
    let r = d.with_remainder_to("b".to_string()).unwrap();
    assert_eq!(r.total_bps().unwrap(), 10000);
    assert_eq!(r.get(&"b".to_string()).unwrap().bps(), 8000);
    assert_eq!(r.claims().len(), 2);
    let n = d.with_remainder_to("c".to_string()).unwrap();
    assert_eq!(n.get(&"c".to_string()).unwrap().bps(), 5000);
    assert_eq!(n.claims()[2].0, "c");
    assert_eq!(d.total_bps().unwrap(), 5000);
}

#[test]
fn empty_distribution_is_unclaimed() {
    let d = Distribution::default();
    for funds in [CoinSet::new(), set(&[("u", 10)])] {
        assert!(matches!(
            d.distribute_coins(&"src".to_string(), &funds),
            Err(XcosmError::Fund(FundError::DistributionUnclaimed {}))
        ));
    }
}

fn outputs(m: TransferMsg) -> (Vec<(String, Vec<Coin>)>, Vec<(String, Vec<Coin>)>) {
    match m {
        TransferMsg::MultiSend(ms) => (
            ms.inputs.into_iter().map(|io| (io.address, io.coins)).collect(),
            ms.outputs.into_iter().map(|io| (io.address, io.coins)).collect(),
        ),
        TransferMsg::Send(_) => panic!("expected a multi-send"),
    }
}

#[test]
fn distribution_conserves_funds() {
    let d = dist(&[("a", 5000), ("b", 3000)]);
    let funds = set(&[("u", 1000), ("v", 7)]);
    let (inputs, outs) = outputs(d.distribute_coins(&"src".to_string(), &funds).unwrap());
    assert_eq!(inputs, vec![("src".to_string(), vec![Coin::new(1000, "u"), Coin::new(7, "v")])]);
    assert_eq!(
        outs,
        vec![
            ("a".to_string(), vec![Coin::new(970, "u")]),
            ("a".to_string(), vec![Coin::new(7, "v")]),
            ("b".to_string(), vec![Coin::new(30, "u")]),
            ("b".to_string(), vec![Coin::new(0, "v")]),
        ]
    );
}

#[test]
fn distribution_remainder_goes_to_first_claimant() {
    let d = dist(&[("a", 3333), ("b", 3333), ("c", 3334)]);
    let funds = set(&[("u", 100_001)]);
    let alloc = d.allocate(&funds).unwrap();
    let amounts: Vec<(String, u128)> =
        alloc.iter().map(|(p, c)| (p.clone(), c.get(&"u".to_string()).unwrap())).collect();
    assert_eq!(
        amounts,
        vec![("a".to_string(), 100_001 - 3333 - 3334), ("b".to_string(), 3333), ("c".to_string(), 3334)]
    );
    let total: u128 = amounts.iter().map(|(_, a)| a).sum();
    assert_eq!(total, 100_001);
}

#[test]
fn distribution_of_largest_funds() {
    let d = dist(&[("a", 10000)]);
    let funds = set(&[("u", u128::MAX)]);
    let (_, outs) = outputs(d.distribute_coins(&"src".to_string(), &funds).unwrap());
    assert_eq!(outs, vec![("a".to_string(), vec![Coin::new(u128::MAX, "u")])]);
}

#[test]
fn fan_out_must_send_exactly_the_input() {
    let funds = set(&[("u", 10)]);
    let from = "src".to_string();
    let short = vec![("a".to_string(), set(&[("u", 4)]))];
    assert!(matches!(
        send_coins_many(&funds, &from, short),
        Err(XcosmError::Coin(CoinError::IoMismatch {}))
    ));
    let over = vec![("a".to_string(), set(&[("u", 4)])), ("b".to_string(), set(&[("u", 7)]))];
    match send_coins_many(&funds, &from, over) {
        Err(XcosmError::Coin(CoinError::Insufficient { expected })) => assert_eq!(expected, "7u"),
        other => panic!("unexpected {:?}", other.is_ok()),
    }
    let unknown = vec![("a".to_string(), set(&[("u", 10), ("w", 1)]))];
    assert!(matches!(
        send_coins_many(&funds, &from, unknown),
        Err(XcosmError::Coin(CoinError::Insufficient { .. }))
    ));
    let exact = vec![("a".to_string(), set(&[("u", 4)])), ("b".to_string(), set(&[("u", 6)]))];
    let (inputs, outs) = outputs(funds.send_many(&from, exact).unwrap());
    assert_eq!(inputs.len(), 1);
    assert_eq!(outs.len(), 2);
}

#[test]
fn fan_out_of_zero_in_absent_denom_balances() {
    let from = "src".to_string();
    let zero = vec![("a".to_string(), set(&[("x", 0)]))];
    let (inputs, outs) = outputs(send_coins_many(&CoinSet::new(), &from, zero).unwrap());
    assert_eq!(inputs, vec![("src".to_string(), vec![])]);
    assert_eq!(outs, vec![("a".to_string(), vec![Coin::new(0, "x")])]);
    let funds = set(&[("u", 10)]);
    let mixed = vec![("a".to_string(), set(&[("u", 10), ("x", 0)]))];
    assert!(send_coins_many(&funds, &from, mixed).is_ok());
    let nonzero = vec![("a".to_string(), set(&[("x", 1)]))];
    match send_coins_many(&CoinSet::new(), &from, nonzero) {
        Err(XcosmError::Coin(CoinError::Insufficient { expected })) => assert_eq!(expected, "1x"),
        other => panic!("unexpected {:?}", other.is_ok()),
    }
}
