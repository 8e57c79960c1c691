use btc_regime::onchain::{
    best_pool, classify_spread, resolve_pool_queries, PoolCandidate, PoolQuery, SpreadRead,
};
use btc_regime::pulse::{classify, history_endpoints, Band, Froth};
use btc_regime::report::{last_crossover, Relation};

fn band(x: f64, t: f64) -> Band {
    if x > t {
        Band::Above
    } else if x < -t {
        Band::Below
    } else {
        Band::Within
    }
}

fn classify_rates(funding: f64, oi_change: f64) -> Froth {
    classify(band(funding, 0.0001), band(oi_change, 0.03))
}

#[test]
fn apy_above_risk_free_is_rational() {
    assert_eq!(classify_spread(4.2 > 3.85), SpreadRead::Rational);
}

#[test]
fn apy_below_risk_free_is_irrational() {
    assert_eq!(classify_spread(3.5 > 3.85), SpreadRead::Irrational);
}

#[test]
fn apy_equal_to_risk_free_is_irrational() {
    // No premium for the extra risk still doesn't compensate for it.
    assert_eq!(classify_spread(3.85 > 3.85), SpreadRead::Irrational);
}

#[test]
fn classify_hot_funding_and_rising_oi_is_building() {
    assert_eq!(classify_rates(0.0005, 0.10), Froth::Building);
}

#[test]
fn classify_negative_funding_is_resetting() {
    assert_eq!(classify_rates(-0.0002, 0.01), Froth::Resetting);
}

#[test]
fn classify_oi_drawdown_is_resetting_even_with_positive_funding() {
    assert_eq!(classify_rates(0.00005, -0.08), Froth::Resetting);
}

#[test]
fn classify_calm_conditions_are_neutral() {
    assert_eq!(classify_rates(0.00002, 0.005), Froth::Neutral);
}

#[test]
fn classify_building_wins_over_a_drawdown_signal() {
    assert_eq!(classify(Band::Above, Band::Above), Froth::Building);
    assert_eq!(classify(Band::Above, Band::Below), Froth::Resetting);
    assert_eq!(classify(Band::Below, Band::Above), Froth::Resetting);
    assert_eq!(classify(Band::Above, Band::Within), Froth::Neutral);
    assert_eq!(classify_rates(f64::NAN, 0.10), Froth::Neutral);
}

#[test]
fn history_endpoints_are_oldest_and_newest() {
    assert_eq!(history_endpoints(&vec![1.0, 5.0, 3.0]), Some((1.0, 3.0)));
    assert_eq!(history_endpoints(&vec![2.0]), Some((2.0, 2.0)));
    let empty: Vec<f64> = vec![];
    assert_eq!(history_endpoints(&empty), None);
}

#[test]
fn last_crossover_finds_the_latest() {
    let r = vec![Relation::AtOrBelow, Relation::Above, Relation::AtOrBelow, Relation::AtOrBelow, Relation::Above, Relation::Above];
    assert_eq!(last_crossover(&r), Some(4));
    let none = vec![Relation::Above, Relation::Above, Relation::AtOrBelow];
    assert_eq!(last_crossover(&none), None);
    let broken = vec![Relation::AtOrBelow, Relation::Unordered, Relation::Above];
    assert_eq!(last_crossover(&broken), None);
    assert_eq!(last_crossover(&vec![]), None);
}

fn pool(project: &str, chain: &str, symbol: &str, has_apy: bool, tvl_rank: i64) -> PoolCandidate {
    PoolCandidate {
        project: project.to_string(),
        chain: chain.to_string(),
        symbol: symbol.to_string(),
        has_apy,
        tvl_rank,
    }
}

#[test]
fn best_pool_is_the_highest_tvl_match_with_an_apy() {
    let pools = vec![
        pool("aave-v3", "Ethereum", "USDC", true, 10),
        pool("aave-v3", "Ethereum", "USDT", true, 99),
        pool("aave-v3", "Ethereum", "USDC", false, 50),
        pool("aave-v3", "Ethereum", "USDC", true, 30),
        pool("aave-v3", "Base", "USDC", true, 70),
        pool("aave-v3", "Ethereum", "USDC", true, 30),
    ];
    let q = PoolQuery { project: "aave-v3", chain: "Ethereum", symbol: "USDC" };
    // the later of the two equal highest is chosen
    assert_eq!(best_pool(&pools, &q), Some(5));
    let missing = PoolQuery { project: "compound-v3", chain: "Ethereum", symbol: "USDC" };
    assert_eq!(best_pool(&pools, &missing), None);
}

#[test]
fn resolving_queries_stops_at_the_first_unanswered() {
    let pools = vec![
        pool("aave-v3", "Ethereum", "USDC", true, 10),
        pool("sky", "Ethereum", "USDS", true, 20),
    ];
    let ok = [
        PoolQuery { project: "sky", chain: "Ethereum", symbol: "USDS" },
        PoolQuery { project: "aave-v3", chain: "Ethereum", symbol: "USDC" },
    ];
    assert_eq!(resolve_pool_queries(&pools, &ok), Ok(vec![1, 0]));
    let bad = [
        PoolQuery { project: "aave-v3", chain: "Ethereum", symbol: "USDC" },
        PoolQuery { project: "x", chain: "y", symbol: "z" },
        PoolQuery { project: "q", chain: "y", symbol: "z" },
    ];
    assert_eq!(resolve_pool_queries(&pools, &bad), Err(1));
}
