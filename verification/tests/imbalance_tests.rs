use orderflow::footprint::{GroupedTrades, KlineTrades};
use orderflow::imbalance::{
    diagonal_imbalance, extract_runs, imbalance_marker, imbalance_prices, mitigate_zones,
    stacked_imbalance_zones, ActiveZone, ImbalanceSide,
};
use orderflow::units::{Price, PriceStep, Qty};

fn q(u: i64) -> Qty {
    Qty { units: u }
}

fn p(u: i64) -> Price {
    Price::from_units(u)
}

fn fp(levels: &[(i64, i64, i64)]) -> KlineTrades {
    KlineTrades {
        trades: levels
            .iter()
            .map(|&(pr, b, s)| (p(pr), GroupedTrades { buy_qty: q(b), sell_qty: q(s) }))
            .collect(),
    }
}

#[test]
fn diagonal_imbalance_thresholds() {
    // 300% threshold: the buy side must exceed four times the sell side
    assert_eq!(diagonal_imbalance(q(10), q(41), 300), Some(ImbalanceSide::Buy));
    assert_eq!(diagonal_imbalance(q(10), q(40), 300), None);
    assert_eq!(diagonal_imbalance(q(41), q(10), 300), Some(ImbalanceSide::Sell));
    assert_eq!(diagonal_imbalance(q(40), q(10), 300), None);
    // an empty side: any quantity on the other side is an imbalance
    assert_eq!(diagonal_imbalance(q(0), q(1), 300), Some(ImbalanceSide::Buy));
    assert_eq!(diagonal_imbalance(q(0), q(0), 300), None);
    assert_eq!(diagonal_imbalance(q(3), q(0), 0), Some(ImbalanceSide::Sell));
}

#[test]
fn markers_can_ignore_empty_sides() {
    assert_eq!(imbalance_marker(q(0), q(5), 100, false), Some(ImbalanceSide::Buy));
    assert_eq!(imbalance_marker(q(0), q(5), 100, true), None);
    assert_eq!(imbalance_marker(q(5), q(0), 100, true), None);
    assert_eq!(imbalance_marker(q(30), q(5), 100, true), Some(ImbalanceSide::Sell));
}

#[test]
fn footprint_lookup() {
    let f = fp(&[(100, 1, 2), (105, 3, 4)]);
    assert_eq!(f.get(p(105)), Some(GroupedTrades { buy_qty: q(3), sell_qty: q(4) }));
    assert_eq!(f.get(p(101)), None);
}

#[test]
fn imbalance_prices_by_side() {
    // step 5; level 100 sells 1, level 105 buys 10: buy imbalance marked at 105
    // level 105 sells 20, level 110 buys 2: sell imbalance marked at 105
    let f = fp(&[(100, 0, 1), (105, 10, 20), (110, 2, 0), (120, 50, 50)]);
    let step = PriceStep { units: 5 };
    assert_eq!(imbalance_prices(&f, step, 100, ImbalanceSide::Buy), vec![p(105)]);
    assert_eq!(imbalance_prices(&f, step, 100, ImbalanceSide::Sell), vec![p(105)]);
}

#[test]
fn runs_of_consecutive_prices() {
    let step = PriceStep { units: 5 };
    let prices = vec![p(100), p(105), p(110), p(120), p(125), p(140)];
    assert_eq!(
        extract_runs(&prices, step, 2, true),
        vec![(true, p(100), p(110)), (true, p(120), p(125))]
    );
    assert_eq!(extract_runs(&prices, step, 3, false), vec![(false, p(100), p(110))]);
    assert_eq!(
        extract_runs(&prices, step, 1, true),
        vec![(true, p(100), p(110)), (true, p(120), p(125)), (true, p(140), p(140))]
    );
    assert_eq!(extract_runs(&vec![], step, 1, true), vec![]);
    assert_eq!(extract_runs(&vec![p(i64::MAX)], step, 1, true), vec![(true, p(i64::MAX), p(i64::MAX))]);
}

#[test]
fn stacked_zones_of_a_footprint() {
    // buys dominate diagonally at 105, 110 and 115
    let f = fp(&[(100, 0, 1), (105, 10, 1), (110, 10, 1), (115, 10, 0)]);
    let zones = stacked_imbalance_zones(&f, PriceStep { units: 5 }, 300, 3);
    assert_eq!(zones, vec![(true, p(105), p(115))]);
    let zones = stacked_imbalance_zones(&f, PriceStep { units: 5 }, 300, 4);
    assert!(zones.is_empty());
}

#[test]
fn mitigation_marks_open_zones_once() {
    let mut zones = vec![
        ActiveZone { interval: 1, is_buy: true, min_price: p(100), max_price: p(110), mitigated_at: None },
        ActiveZone { interval: 1, is_buy: false, min_price: p(150), max_price: p(160), mitigated_at: None },
    ];
    mitigate_zones(&mut zones, 2, p(140), p(115));
    assert_eq!(zones[0].mitigated_at, None);
    assert_eq!(zones[1].mitigated_at, None);
    mitigate_zones(&mut zones, 3, p(150), p(110));
    assert_eq!(zones[0].mitigated_at, Some(3));
    assert_eq!(zones[1].mitigated_at, Some(3));
    mitigate_zones(&mut zones, 4, p(200), p(0));
    assert_eq!(zones[0].mitigated_at, Some(3));
    assert_eq!(zones[1].mitigated_at, Some(3));
}
