use vstd::prelude::*;

use crate::candle::Candle;
use crate::text::str_eq;

verus! {

/// Performance metrics of one parameter combination. All ratio-like
/// values (`pf_bt`, `dd_bt`, `winrate`, `pnl`) are fixed-point integers
/// carrying four decimal places.
#[derive(Clone, Copy, PartialEq, Eq, Structural, Debug)]
pub struct Metrics {
    pub pf_bt: i64,
    pub dd_bt: i64,
    pub trades: u64,
    pub winrate: u64,
    pub pnl: i64,
}

/// Categorical bonus for a recognized session label; unrecognized
/// labels fall into the default tier.
pub open spec fn session_bonus_spec(sf: Seq<char>) -> int {
    if sf == "london"@ {
        500
    } else if sf == "nyopen"@ {
        400
    } else if sf == "asia"@ {
        300
    } else {
        200
    }
}

/// Penalty tier for large spread caps (two thresholds).
pub open spec fn spread_penalty_spec(max_spread: i64) -> int {
    if max_spread > 25000 {
        500
    } else if max_spread > 20000 {
        300
    } else {
        0
    }
}

/// How far `rr_min` exceeds 1.5, clamped below at zero.
pub open spec fn rr_excess(rr_min: i64) -> int {
    if rr_min > 15000 {
        rr_min - 15000
    } else {
        0
    }
}

/// `rr_min` clamped below at zero.
pub open spec fn rr_nonneg(rr_min: i64) -> int {
    if rr_min > 0 {
        rr_min as int
    } else {
        0
    }
}

pub open spec fn trades_spec(donch_n: u32) -> int {
    1000 + 5 * donch_n
}

pub open spec fn winrate_spec(rr_min: i64) -> int {
    5000 + rr_excess(rr_min) / 20
}

pub open spec fn pf_spec(donch_n: u32, rr_min: i64, max_spread: i64, sf: Seq<char>) -> int {
    15000 + 50 * donch_n + rr_excess(rr_min) / 5 + session_bonus_spec(sf) - spread_penalty_spec(
        max_spread,
    )
}

pub open spec fn dd_spec(donch_n: u32, rr_min: i64, max_spread: i64) -> int {
    400 + 10 * donch_n + rr_nonneg(rr_min) / 100 + spread_penalty_spec(max_spread) / 2
}

/// Saturate an unbounded integer into the `i64` range.
pub open spec fn sat_i64(x: int) -> int {
    if x > i64::MAX {
        i64::MAX as int
    } else if x < i64::MIN {
        i64::MIN as int
    } else {
        x
    }
}

/// Profit in fixed-point: trade count times the edge over break-even,
/// scaled by `donch_n / 4000`, saturated into `i64`.
pub open spec fn pnl_spec(donch_n: u32, rr_min: i64, max_spread: i64, sf: Seq<char>) -> int {
    let pf = pf_spec(donch_n, rr_min, max_spread, sf);
    let edge = if pf > 10000 {
        pf - 10000
    } else {
        0
    };
    sat_i64(trades_spec(donch_n) * edge * donch_n / 4000)
}

/// Evaluate one parameter combination. The result is a pure,
/// deterministic function of the scalar parameters alone: the candle
/// sequence is accepted for signature compatibility but its content
/// does not enter the formulas.
pub fn run_strategy(
    candles: &Vec<Candle>,
    donch_n: u32,
    rr_min: i64,
    max_spread: i64,
    session_filter: &str,
) -> (m: Metrics)
    ensures
        m.trades == trades_spec(donch_n),
        m.winrate == winrate_spec(rr_min),
        m.pf_bt == pf_spec(donch_n, rr_min, max_spread, session_filter@),
        m.dd_bt == dd_spec(donch_n, rr_min, max_spread),
        m.pnl == pnl_spec(donch_n, rr_min, max_spread, session_filter@),
{
    let trades: u64 = 1000 + 5 * (donch_n as u64);
    let excess: u64 = if rr_min > 15000 {
        (rr_min - 15000) as u64
    } else {
        0
    };
    let winrate: u64 = 5000 + excess / 20;
    let bonus: u64 = if str_eq(session_filter, "london") {
        500
    } else if str_eq(session_filter, "nyopen") {
        400
    } else if str_eq(session_filter, "asia") {
        300
    } else {
        200
    };
    let penalty: u64 = if max_spread > 25000 {
        500
    } else if max_spread > 20000 {
        300
    } else {
        0
    };
    proof {
        assert(excess <= i64::MAX - 15000);
        vstd::arithmetic::div_mod::lemma_div_is_ordered(
            excess as int,
            (i64::MAX - 15000) as int,
            5,
        );
        assert(excess / 5 <= 1844674407370952161u64);
    }
    let pf_u: u64 = 15000 + 50 * (donch_n as u64) + excess / 5 + bonus - penalty;
    let pf_bt: i64 = pf_u as i64;
    let rr_nn: u64 = if rr_min > 0 {
        rr_min as u64
    } else {
        0
    };
    let dd_u: u64 = 400 + 10 * (donch_n as u64) + rr_nn / 100 + penalty / 2;
    let dd_bt: i64 = dd_u as i64;
    let edge: u64 = if pf_u > 10000 {
        pf_u - 10000
    } else {
        0
    };
    proof {
        assert(trades <= 21474837475u64);
        assert(edge <= 1844674622119332411u64);
        assert((trades as u128) * (edge as u128) <= 21474837475u128 * 1844674622119332411u128)
            by (nonlinear_arith)
            requires
                trades <= 21474837475u64,
                edge <= 1844674622119332411u64,
        ;
    }
    let te: u128 = (trades as u128) * (edge as u128);
    proof {
        assert(te * (donch_n as u128) <= 21474837475u128 * 1844674622119332411u128
            * 4294967295u128) by (nonlinear_arith)
            requires
                te <= 21474837475u128 * 1844674622119332411u128,
                donch_n <= 4294967295u32,
        ;
    }
    let ted: u128 = te * (donch_n as u128);
    let prod: u128 = ted / 4000;
    let pnl: i64 = if prod > i64::MAX as u128 {
        i64::MAX
    } else {
        prod as i64
    };
    Metrics { pf_bt, dd_bt, trades, winrate, pnl }
}

/// Determinism of the evaluator: any two metric records that meet
/// `run_strategy`'s contract for the same parameters are equal, so two
/// runs with identical parameters yield identical metrics.
pub proof fn lemma_evaluator_deterministic(
    m1: Metrics,
    m2: Metrics,
    donch_n: u32,
    rr_min: i64,
    max_spread: i64,
    sf: Seq<char>,
)
    requires
        m1.trades == trades_spec(donch_n),
        m1.winrate == winrate_spec(rr_min),
        m1.pf_bt == pf_spec(donch_n, rr_min, max_spread, sf),
        m1.dd_bt == dd_spec(donch_n, rr_min, max_spread),
        m1.pnl == pnl_spec(donch_n, rr_min, max_spread, sf),
        m2.trades == trades_spec(donch_n),
        m2.winrate == winrate_spec(rr_min),
        m2.pf_bt == pf_spec(donch_n, rr_min, max_spread, sf),
        m2.dd_bt == dd_spec(donch_n, rr_min, max_spread),
        m2.pnl == pnl_spec(donch_n, rr_min, max_spread, sf),
    ensures
        m1 == m2,
{
}

} // verus!
