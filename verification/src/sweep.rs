use vstd::prelude::*;

use vstd::arithmetic::div_mod::lemma_fundamental_div_mod_converse_div;
use crate::candidate::{build_candidate, id_spec, Candidate};
use crate::candle::Candle;
use crate::{now_millis, now_unix_parts};
use crate::strategy::{
    dd_spec, pf_spec, pnl_spec, run_strategy, trades_spec, winrate_spec, Metrics,
};

verus! {

/// The four parameter dimensions of a sweep.
pub struct Grid {
    pub donch_n: Vec<u32>,
    pub rr_min: Vec<i64>,
    pub session_filter: Vec<String>,
    pub max_spread: Vec<i64>,
}

/// All five metric fields are the evaluator's functions of these
/// parameters.
pub open spec fn metrics_match(
    m: Metrics,
    donch_n: u32,
    rr_min: i64,
    max_spread: i64,
    sf: Seq<char>,
) -> bool {
    &&& m.trades == trades_spec(donch_n)
    &&& m.winrate == winrate_spec(rr_min)
    &&& m.pf_bt == pf_spec(donch_n, rr_min, max_spread, sf)
    &&& m.dd_bt == dd_spec(donch_n, rr_min, max_spread)
    &&& m.pnl == pnl_spec(donch_n, rr_min, max_spread, sf)
}

/// The candidate at position `idx` of the sweep output carries the
/// grid entries given by the mixed-radix decomposition of `idx`
/// (`donch_n` outermost, `max_spread` innermost), the evaluator's
/// metrics for them, the given symbol, and an identifier built from
/// some clock reading.
pub open spec fn sweep_entry_ok(out: Seq<Candidate>, idx: int, g: &Grid, symbol: Seq<char>) -> bool {
    let r = g.rr_min@.len() as int;
    let s = g.session_filter@.len() as int;
    let m = g.max_spread@.len() as int;
    let di = idx / m / s / r;
    let ri = (idx / m / s) % r;
    let si = (idx / m) % s;
    let mi = idx % m;
    &&& out[idx].params.donch_n == g.donch_n@[di]
    &&& out[idx].params.rr_min == g.rr_min@[ri]
    &&& out[idx].params.session_filter@ == g.session_filter@[si]@
    &&& out[idx].params.max_spread == g.max_spread@[mi]
    &&& out[idx].symbol@ == symbol
    &&& metrics_match(
        out[idx].metrics,
        g.donch_n@[di],
        g.rr_min@[ri],
        g.max_spread@[mi],
        g.session_filter@[si]@,
    )
    &&& exists|stamp: u128|
        out[idx].model_id@ == id_spec(
            symbol,
            g.donch_n@[di],
            g.rr_min@[ri],
            g.session_filter@[si]@,
            stamp,
        )
}

proof fn lemma_radix_level(q: int, rem: int, m: int)
    requires
        m >= 1,
        0 <= rem < m,
        0 <= q,
    ensures
        (q * m + rem) / m == q,
        (q * m + rem) % m == rem,
{
    lemma_fundamental_div_mod_converse_div(q * m + rem, m, q, rem);
    vstd::arithmetic::div_mod::lemma_fundamental_div_mod_converse_mod(q * m + rem, m, q, rem);
}

/// Evaluate every combination of the grid's four dimensions in fixed
/// nested order — `donch_n` outermost, then `rr_min`, then
/// `session_filter`, then `max_spread` — and emit one candidate per
/// combination, in that order.
pub fn sweep(candles: &Vec<Candle>, grid: &Grid, symbol: &str) -> (out: Vec<Candidate>)
    ensures
        out@.len() == grid.donch_n@.len() * grid.rr_min@.len() * grid.session_filter@.len()
            * grid.max_spread@.len(),
        forall|idx: int| 0 <= idx < out@.len() ==> sweep_entry_ok(out@, idx, grid, symbol@),
{
    let rl: usize = grid.rr_min.len();
    let sl: usize = grid.session_filter.len();
    let ml: usize = grid.max_spread.len();
    let mut out: Vec<Candidate> = Vec::new();
    proof {
        assert(0 * (rl as int) * (sl as int) * (ml as int) == 0) by (nonlinear_arith);
    }
    let mut di: usize = 0;
    while di < grid.donch_n.len()
        invariant
            rl == grid.rr_min@.len(),
            sl == grid.session_filter@.len(),
            ml == grid.max_spread@.len(),
            0 <= di <= grid.donch_n@.len(),
            out@.len() == di * rl * sl * ml,
            forall|idx: int| 0 <= idx < out@.len() ==> sweep_entry_ok(out@, idx, grid, symbol@),
        decreases grid.donch_n@.len() - di,
    {
        let d: u32 = grid.donch_n[di];
        let mut ri: usize = 0;
        while ri < rl
            invariant
                rl == grid.rr_min@.len(),
                sl == grid.session_filter@.len(),
                ml == grid.max_spread@.len(),
                0 <= di < grid.donch_n@.len(),
                0 <= ri <= rl,
                d == grid.donch_n@[di as int],
                out@.len() == (di * rl + ri) * sl * ml,
                forall|idx: int| 0 <= idx < out@.len() ==> sweep_entry_ok(out@, idx, grid, symbol@),
            decreases rl - ri,
        {
            let rr: i64 = grid.rr_min[ri];
            let mut si: usize = 0;
            while si < sl
                invariant
                    rl == grid.rr_min@.len(),
                    sl == grid.session_filter@.len(),
                    ml == grid.max_spread@.len(),
                    0 <= di < grid.donch_n@.len(),
                    0 <= ri < rl,
                    0 <= si <= sl,
                    d == grid.donch_n@[di as int],
                    rr == grid.rr_min@[ri as int],
                    out@.len() == ((di * rl + ri) * sl + si) * ml,
                    forall|idx: int|
                        0 <= idx < out@.len() ==> sweep_entry_ok(out@, idx, grid, symbol@),
                decreases sl - si,
            {
                let mut mi: usize = 0;
                while mi < ml
                    invariant
                        rl == grid.rr_min@.len(),
                        sl == grid.session_filter@.len(),
                        ml == grid.max_spread@.len(),
                        0 <= di < grid.donch_n@.len(),
                        0 <= ri < rl,
                        0 <= si < sl,
                        0 <= mi <= ml,
                        d == grid.donch_n@[di as int],
                        rr == grid.rr_min@[ri as int],
                        out@.len() == (((di * rl + ri) * sl + si) * ml + mi),
                        forall|idx: int|
                            0 <= idx < out@.len() ==> sweep_entry_ok(out@, idx, grid, symbol@),
                    decreases ml - mi,
                {
                    let sp: i64 = grid.max_spread[mi];
                    let sess: &String = &grid.session_filter[si];
                    let metrics = run_strategy(candles, d, rr, sp, sess.as_str());
                    let clock = now_unix_parts();
                    let stamp: u128 = now_millis(clock.0, clock.1);
                    let cand = build_candidate(symbol, d, rr, sp, sess.as_str(), metrics, stamp);
                    proof {
                        let l = out@.len() as int;
                        let rli = rl as int;
                        let sli = sl as int;
                        let mli = ml as int;
                        let dii = di as int;
                        let rii = ri as int;
                        let sii = si as int;
                        let mii = mi as int;
                        assert(0 <= (dii * rli + rii) * sli + sii) by (nonlinear_arith)
                            requires
                                0 <= dii,
                                0 <= rii,
                                0 <= sii,
                                1 <= rli,
                                1 <= sli,
                        ;
                        lemma_radix_level((dii * rli + rii) * sli + sii, mii, mli);
                        assert(0 <= dii * rli + rii) by (nonlinear_arith)
                            requires
                                0 <= dii,
                                0 <= rii,
                                1 <= rli,
                        ;
                        lemma_radix_level(dii * rli + rii, sii, sli);
                        lemma_radix_level(dii, rii, rli);
                        assert(l / mli / sli / rli == dii);
                        assert((l / mli / sli) % rli == rii);
                        assert((l / mli) % sli == sii);
                        assert(l % mli == mii);
                    }
                    let ghost pre_out = out@;
                    out.push(cand);
                    proof {
                        assert forall|idx: int|
                            0 <= idx < out@.len() implies sweep_entry_ok(out@, idx, grid, symbol@) by {
                            if idx < pre_out.len() {
                                assert(sweep_entry_ok(pre_out, idx, grid, symbol@));
                                assert(out@[idx] == pre_out[idx]);
                            } else {
                                assert(out@[idx] == cand);
                                assert(cand.model_id@ == id_spec(
                                    symbol@,
                                    grid.donch_n@[di as int],
                                    grid.rr_min@[ri as int],
                                    grid.session_filter@[si as int]@,
                                    stamp,
                                ));
                            }
                        }
                    }
                    mi = mi + 1;
                }
                proof {
                    assert((((di as int) * rl + ri) * sl + si) * ml + ml == (((di as int) * rl + ri)
                        * sl + (si + 1)) * ml) by (nonlinear_arith);
                }
                si = si + 1;
            }
            proof {
                assert((((di as int) * rl + ri) * sl + sl) * ml == (((di as int) * rl + (ri + 1))
                    * sl) * ml) by (nonlinear_arith);
            }
            ri = ri + 1;
        }
        proof {
            assert((((di as int) * rl + rl) * sl) * ml == ((di as int + 1) * rl * sl) * ml)
                by (nonlinear_arith);
            assert(((di as int + 1) * rl * sl) * ml == (di as int + 1) * rl * sl * ml)
                by (nonlinear_arith);
        }
        di = di + 1;
    }
    proof {
        assert((grid.donch_n@.len() as int) * rl * sl * ml == grid.donch_n@.len() * grid.rr_min@.len()
            * grid.session_filter@.len() * grid.max_spread@.len());
    }
    out
}

/// The nesting order of the sweep, stated directly: the combination
/// `(di, ri, si, mi)` of the four dimensions stands at position
/// `((di * R + ri) * S + si) * M + mi` of the output — `donch_n`
/// outermost, `max_spread` innermost.
pub proof fn lemma_sweep_order(
    out: Seq<Candidate>,
    grid: &Grid,
    symbol: Seq<char>,
    di: int,
    ri: int,
    si: int,
    mi: int,
)
    requires
        out.len() == grid.donch_n@.len() * grid.rr_min@.len() * grid.session_filter@.len()
            * grid.max_spread@.len(),
        forall|idx: int| 0 <= idx < out.len() ==> sweep_entry_ok(out, idx, grid, symbol),
        0 <= di < grid.donch_n@.len(),
        0 <= ri < grid.rr_min@.len(),
        0 <= si < grid.session_filter@.len(),
        0 <= mi < grid.max_spread@.len(),
    ensures
        ({
            let r = grid.rr_min@.len() as int;
            let s = grid.session_filter@.len() as int;
            let m = grid.max_spread@.len() as int;
            let idx = ((di * r + ri) * s + si) * m + mi;
            &&& 0 <= idx < out.len()
            &&& out[idx].params.donch_n == grid.donch_n@[di]
            &&& out[idx].params.rr_min == grid.rr_min@[ri]
            &&& out[idx].params.session_filter@ == grid.session_filter@[si]@
            &&& out[idx].params.max_spread == grid.max_spread@[mi]
        }),
{
    let d = grid.donch_n@.len() as int;
    let r = grid.rr_min@.len() as int;
    let s = grid.session_filter@.len() as int;
    let m = grid.max_spread@.len() as int;
    let idx = ((di * r + ri) * s + si) * m + mi;
    assert(0 <= (di * r + ri) * s + si && (di * r + ri) * s + si <= (d * r * s) - 1)
        by (nonlinear_arith)
        requires
            0 <= di <= d - 1,
            0 <= ri <= r - 1,
            0 <= si <= s - 1,
            1 <= r,
            1 <= s,
            1 <= d,
    ;
    assert(0 <= idx && idx <= d * r * s * m - 1) by (nonlinear_arith)
        requires
            idx == ((di * r + ri) * s + si) * m + mi,
            0 <= (di * r + ri) * s + si <= (d * r * s) - 1,
            0 <= mi <= m - 1,
            1 <= m,
    ;
    assert(sweep_entry_ok(out, idx, grid, symbol));
    lemma_radix_level((di * r + ri) * s + si, mi, m);
    assert(0 <= di * r + ri) by (nonlinear_arith)
        requires
            0 <= di,
            0 <= ri,
            1 <= r,
    ;
    lemma_radix_level(di * r + ri, si, s);
    lemma_radix_level(di, ri, r);
}

/// The built-in default grid.
pub fn default_grid() -> (g: Grid)
    ensures
        g.donch_n@ == seq![20u32, 30u32, 40u32],
        g.rr_min@ == seq![18000i64, 20000i64, 25000i64],
        g.session_filter@.len() == 2,
        g.session_filter@[0]@ == "london"@,
        g.session_filter@[1]@ == "nyopen"@,
        g.max_spread@ == seq![25000i64],
{
    proof {
        reveal_strlit("london");
        reveal_strlit("nyopen");
    }
    let mut donch_n: Vec<u32> = Vec::new();
    donch_n.push(20);
    donch_n.push(30);
    donch_n.push(40);
    let mut rr_min: Vec<i64> = Vec::new();
    rr_min.push(18000);
    rr_min.push(20000);
    rr_min.push(25000);
    let mut session_filter: Vec<String> = Vec::new();
    session_filter.push("london".to_owned());
    session_filter.push("nyopen".to_owned());
    let mut max_spread: Vec<i64> = Vec::new();
    max_spread.push(25000);
    proof {
        assert(donch_n@ =~= seq![20u32, 30u32, 40u32]);
        assert(rr_min@ =~= seq![18000i64, 20000i64, 25000i64]);
        assert(max_spread@ =~= seq![25000i64]);
    }
    Grid { donch_n, rr_min, session_filter, max_spread }
}

/// Choose the sweep dimensions: an externally supplied grid replaces
/// all four dimensions of the built-in default — the two are never
/// merged.
pub fn resolve_grid(supplied: Option<Grid>) -> (g: Grid)
    ensures
        supplied is Some ==> g == supplied->0,
        supplied is None ==> {
            &&& g.donch_n@ == seq![20u32, 30u32, 40u32]
            &&& g.rr_min@ == seq![18000i64, 20000i64, 25000i64]
            &&& g.session_filter@.len() == 2
            &&& g.session_filter@[0]@ == "london"@
            &&& g.session_filter@[1]@ == "nyopen"@
            &&& g.max_spread@ == seq![25000i64]
        },
{
    match supplied {
        Some(g) => g,
        None => default_grid(),
    }
}

} // verus!
