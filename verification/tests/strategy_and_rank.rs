use sweepgen::candidate::{build_candidate, score_candidate};
use sweepgen::candle::Candle;
use sweepgen::rank::top_candidates;
use sweepgen::strategy::run_strategy;

fn no_candles() -> Vec<Candle> {
    Vec::new()
}

#[test]
fn evaluator_exact_values() {
    // donch 20, rr 1.8, max spread 2.5, london
    let m = run_strategy(&no_candles(), 20, 18000, 25000, "london");
    assert_eq!(m.trades, 1100);
    assert_eq!(m.winrate, 5150); // 0.515
    assert_eq!(m.pf_bt, 16800); // 1.68
    assert_eq!(m.dd_bt, 930); // 0.093
    assert_eq!(m.pnl, 37400); // 3.74
}

#[test]
fn evaluator_session_and_spread_tiers() {
    let base = run_strategy(&no_candles(), 20, 18000, 10000, "unknown-label");
    // default session tier and no spread penalty
    assert_eq!(base.pf_bt, 15000 + 1000 + 600 + 200);
    let asia = run_strategy(&no_candles(), 20, 18000, 10000, "asia");
    assert_eq!(asia.pf_bt, 15000 + 1000 + 600 + 300);
    let nyopen = run_strategy(&no_candles(), 20, 18000, 10000, "nyopen");
    assert_eq!(nyopen.pf_bt, 15000 + 1000 + 600 + 400);
    // the larger spread cap tier
    let wide = run_strategy(&no_candles(), 20, 18000, 26000, "london");
    assert_eq!(wide.pf_bt, 15000 + 1000 + 600 + 500 - 500);
}

#[test]
fn evaluator_is_deterministic() {
    let a = run_strategy(&no_candles(), 37, 21000, 19000, "nyopen");
    let b = run_strategy(&no_candles(), 37, 21000, 19000, "nyopen");
    assert_eq!(a, b);
}

#[test]
fn candidate_identifier_format() {
    let m = run_strategy(&no_candles(), 20, 18000, 25000, "london");
    let c = build_candidate("XAUUSD", 20, 18000, 25000, "london", m, 1234);
    assert_eq!(c.model_id, "XAUUSD_donch20_rr1.80_london_1234");
    assert_eq!(c.symbol, "XAUUSD");
    assert_eq!(c.params.donch_n, 20);
    assert_eq!(c.params.rr_min, 18000);
    assert_eq!(c.params.max_spread, 25000);
    assert_eq!(c.params.session_filter, "london");
    assert_eq!(c.metrics, m);
}

#[test]
fn score_rewards_pf_and_punishes_dd() {
    let m = run_strategy(&no_candles(), 20, 18000, 25000, "london");
    let c = build_candidate("X", 20, 18000, 25000, "london", m, 0);
    // pf - 10 * dd = 16800 - 9300
    assert_eq!(score_candidate(&c), 7500);
}

#[test]
fn top_candidates_sorted_and_clamped() {
    let mut cands = Vec::new();
    for donch in [10u32, 50, 30] {
        let m = run_strategy(&no_candles(), donch, 18000, 25000, "london");
        cands.push(build_candidate("X", donch, 18000, 25000, "london", m, 0));
    }
    let top = top_candidates(cands, 5);
    // clamped to the population size
    assert_eq!(top.len(), 3);
    let scores: Vec<i64> = top.iter().map(score_candidate).collect();
    assert!(scores[0] >= scores[1] && scores[1] >= scores[2]);

    let mut cands2 = Vec::new();
    for donch in [10u32, 50, 30] {
        let m = run_strategy(&no_candles(), donch, 18000, 25000, "london");
        cands2.push(build_candidate("X", donch, 18000, 25000, "london", m, 0));
    }
    let top2 = top_candidates(cands2, 2);
    assert_eq!(top2.len(), 2);
    assert!(score_candidate(&top2[0]) >= score_candidate(&top2[1]));
}

#[test]
fn ties_keep_emission_order() {
    let m = run_strategy(&no_candles(), 20, 18000, 25000, "london");
    let a = build_candidate("X", 20, 18000, 25000, "london", m, 1);
    let b = build_candidate("X", 20, 18000, 25000, "london", m, 2);
    let c = build_candidate("X", 20, 18000, 25000, "london", m, 3);
    let top = top_candidates(vec![a, b, c], 3);
    assert_eq!(top[0].model_id, "X_donch20_rr1.80_london_1");
    assert_eq!(top[1].model_id, "X_donch20_rr1.80_london_2");
    assert_eq!(top[2].model_id, "X_donch20_rr1.80_london_3");
}
