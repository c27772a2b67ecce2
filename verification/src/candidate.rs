use vstd::prelude::*;

use crate::strategy::{sat_i64, Metrics};
use crate::text::{dec_digits, fp2_digits, fp2_to_dec, u128_to_dec};

verus! {

/// One strategy parameter combination. `rr_min` and `max_spread` are
/// fixed-point integers carrying four decimal places.
pub struct Params {
    pub donch_n: u32,
    pub rr_min: i64,
    pub max_spread: i64,
    pub session_filter: String,
}

/// One parameter combination with its metrics and generated identifier.
pub struct Candidate {
    pub model_id: String,
    pub symbol: String,
    pub params: Params,
    pub metrics: Metrics,
}

/// The generated identifier: symbol, Donchian length, risk/reward
/// minimum with two decimals, session label, and the build timestamp,
/// joined with fixed separators.
pub open spec fn id_spec(
    symbol: Seq<char>,
    donch_n: u32,
    rr_min: i64,
    session_filter: Seq<char>,
    stamp: u128,
) -> Seq<char> {
    symbol + "_donch"@ + dec_digits(donch_n as int) + "_rr"@ + fp2_digits(rr_min) + "_"@
        + session_filter + "_"@ + dec_digits(stamp as int)
}

/// Pair a parameter combination and its metrics into an identified
/// candidate. The caller supplies the clock reading used in the
/// identifier, so the result is a pure function of its arguments.
pub fn build_candidate(
    symbol: &str,
    donch_n: u32,
    rr_min: i64,
    max_spread: i64,
    session_filter: &str,
    metrics: Metrics,
    stamp: u128,
) -> (c: Candidate)
    ensures
        c.model_id@ == id_spec(symbol@, donch_n, rr_min, session_filter@, stamp),
        c.symbol@ == symbol@,
        c.params.donch_n == donch_n,
        c.params.rr_min == rr_min,
        c.params.max_spread == max_spread,
        c.params.session_filter@ == session_filter@,
        c.metrics == metrics,
{
    proof {
        reveal_strlit("_donch");
        reveal_strlit("_rr");
        reveal_strlit("_");
    }
    let mut model_id: String = symbol.to_owned();
    model_id.append("_donch");
    let donch_txt = u128_to_dec(donch_n as u128);
    model_id.append(donch_txt.as_str());
    model_id.append("_rr");
    let rr_txt = fp2_to_dec(rr_min);
    model_id.append(rr_txt.as_str());
    model_id.append("_");
    model_id.append(session_filter);
    model_id.append("_");
    let stamp_txt = u128_to_dec(stamp);
    model_id.append(stamp_txt.as_str());
    proof {
        assert(model_id@ =~= id_spec(symbol@, donch_n, rr_min, session_filter@, stamp));
    }
    Candidate {
        model_id,
        symbol: symbol.to_owned(),
        params: Params {
            donch_n,
            rr_min,
            max_spread,
            session_filter: session_filter.to_owned(),
        },
        metrics,
    }
}

/// The ranking score: profit factor minus ten times the drawdown,
/// saturated into `i64`. Higher is better.
pub open spec fn score_spec(m: Metrics) -> int {
    sat_i64(m.pf_bt - 10 * m.dd_bt)
}

/// Score one candidate for ranking.
pub fn score_candidate(c: &Candidate) -> (s: i64)
    ensures
        s == score_spec(c.metrics),
{
    let v: i128 = (c.metrics.pf_bt as i128) - 10 * (c.metrics.dd_bt as i128);
    if v > i64::MAX as i128 {
        i64::MAX
    } else if v < i64::MIN as i128 {
        i64::MIN
    } else {
        v as i64
    }
}

} // verus!
