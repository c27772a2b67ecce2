use vstd::prelude::*;

use vstd::arithmetic::div_mod::{lemma_fundamental_div_mod, lemma_fundamental_div_mod_converse_div};
use crate::tick::Tick;

verus! {

/// One OHLC summary over a fixed time window. Prices are fixed-point
/// integers carrying four decimal places; `mid_spread` is the average
/// absolute bid/ask spread over the window's ticks, in the same scale.
#[derive(Clone, Copy, PartialEq, Eq, Structural, Debug)]
pub struct Candle {
    pub start_ts: u64,
    pub end_ts: u64,
    pub open: i64,
    pub high: i64,
    pub low: i64,
    pub close: i64,
    pub mid_spread: u64,
}

impl Candle {
    /// The window is exactly one interval wide and the extremes bound
    /// both open and close.
    pub open spec fn wf(self, interval_ms: u64) -> bool {
        &&& self.end_ts == self.start_ts + interval_ms
        &&& self.low <= self.open <= self.high
        &&& self.low <= self.close <= self.high
    }
}

/// Absolute bid/ask spread of one tick.
pub open spec fn spread_of(bid: i64, ask: i64) -> int {
    if ask >= bid {
        ask - bid
    } else {
        bid - ask
    }
}

/// The in-progress bucket while folding a tick sequence into candles.
pub ghost struct AggState {
    pub bucket_start: int,
    pub open: int,
    pub high: int,
    pub low: int,
    pub close: int,
    pub spread_sum: int,
    pub spread_cnt: int,
    pub out: Seq<Candle>,
}

/// The bucket seeded from the first tick's bid, before any tick has
/// been folded in.
pub open spec fn seed_state(tk: Tick) -> AggState {
    AggState {
        bucket_start: tk.ts_ms as int,
        open: tk.bid as int,
        high: tk.bid as int,
        low: tk.bid as int,
        close: tk.bid as int,
        spread_sum: 0,
        spread_cnt: 0,
        out: Seq::empty(),
    }
}

/// The completed candle for the current bucket: average spread is the
/// accumulated sum over the count, or zero for an empty accumulator.
pub open spec fn flush_candle(st: AggState, interval: int) -> Candle {
    Candle {
        start_ts: st.bucket_start as u64,
        end_ts: (st.bucket_start + interval) as u64,
        open: st.open as i64,
        high: st.high as i64,
        low: st.low as i64,
        close: st.close as i64,
        mid_spread: (if st.spread_cnt > 0 {
            st.spread_sum / st.spread_cnt
        } else {
            0
        }) as u64,
    }
}

/// Where the bucket lands after skipping whole intervals forward until
/// `ts` falls inside it again.
pub open spec fn advanced_start(bucket_start: int, interval: int, ts: int) -> int {
    bucket_start + interval * ((ts - bucket_start) / interval)
}

/// Fold one tick into the state: a tick at or past the bucket's end
/// flushes the bucket, advances it and re-seeds from this tick; any
/// other tick merges into the running OHLC and spread accumulator.
pub open spec fn step(st: AggState, tk: Tick, interval: int) -> AggState {
    if tk.ts_ms >= st.bucket_start + interval {
        AggState {
            bucket_start: advanced_start(st.bucket_start, interval, tk.ts_ms as int),
            open: tk.bid as int,
            high: tk.bid as int,
            low: tk.bid as int,
            close: tk.bid as int,
            spread_sum: spread_of(tk.bid, tk.ask),
            spread_cnt: 1,
            out: st.out.push(flush_candle(st, interval)),
        }
    } else {
        AggState {
            bucket_start: st.bucket_start,
            open: st.open,
            high: if tk.bid > st.high {
                tk.bid as int
            } else {
                st.high
            },
            low: if tk.bid < st.low {
                tk.bid as int
            } else {
                st.low
            },
            close: tk.bid as int,
            spread_sum: st.spread_sum + spread_of(tk.bid, tk.ask),
            spread_cnt: st.spread_cnt + 1,
            out: st.out,
        }
    }
}

pub open spec fn agg_loop(ticks: Seq<Tick>, interval: int, st: AggState) -> AggState
    decreases ticks.len(),
{
    if ticks.len() == 0 {
        st
    } else {
        agg_loop(ticks.drop_first(), interval, step(st, ticks[0], interval))
    }
}

/// The candle sequence for a tick sequence: every tick is folded into
/// the bucket seeded from the first tick, and the final in-progress
/// bucket is always flushed. An empty tick sequence yields an empty
/// candle sequence.
pub open spec fn aggregate_spec(ticks: Seq<Tick>, interval_ms: u64) -> Seq<Candle> {
    if ticks.len() == 0 {
        Seq::empty()
    } else {
        let fin = agg_loop(ticks, interval_ms as int, seed_state(ticks[0]));
        fin.out.push(flush_candle(fin, interval_ms as int))
    }
}

proof fn lemma_agg_loop_push(ticks: Seq<Tick>, tk: Tick, interval: int, st: AggState)
    ensures
        agg_loop(ticks.push(tk), interval, st) == step(agg_loop(ticks, interval, st), tk, interval),
    decreases ticks.len(),
{
    if ticks.len() == 0 {
        assert(ticks.push(tk)[0] == tk);
        assert(ticks.push(tk).drop_first() =~= Seq::<Tick>::empty());
        assert(agg_loop(ticks.push(tk), interval, st) == agg_loop(
            Seq::<Tick>::empty(),
            interval,
            step(st, tk, interval),
        ));
        assert(agg_loop(Seq::<Tick>::empty(), interval, step(st, tk, interval)) == step(
            st,
            tk,
            interval,
        ));
        assert(agg_loop(ticks, interval, st) == st);
    } else {
        assert(ticks.push(tk)[0] == ticks[0]);
        assert(ticks.push(tk).drop_first() =~= ticks.drop_first().push(tk));
        assert(agg_loop(ticks.push(tk), interval, st) == agg_loop(
            ticks.drop_first().push(tk),
            interval,
            step(st, ticks[0], interval),
        ));
        lemma_agg_loop_push(ticks.drop_first(), tk, interval, step(st, ticks[0], interval));
        assert(agg_loop(ticks, interval, st) == agg_loop(
            ticks.drop_first(),
            interval,
            step(st, ticks[0], interval),
        ));
    }
}

/// What holds of the in-progress bucket throughout the fold: the
/// bucket fits the timestamp domain, the extremes bound open and
/// close, and the spread accumulator is consistent.
pub open spec fn st_wf(st: AggState, interval_ms: u64) -> bool {
    &&& 0 <= st.bucket_start
    &&& st.bucket_start + interval_ms <= u64::MAX
    &&& i64::MIN <= st.low <= st.open <= st.high <= i64::MAX
    &&& st.low <= st.close <= st.high
    &&& 0 <= st.spread_cnt
    &&& 0 <= st.spread_sum <= st.spread_cnt * 0xffff_ffff_ffff_ffff
}

proof fn lemma_flush_wf(st: AggState, interval_ms: u64)
    requires
        interval_ms >= 1,
        st_wf(st, interval_ms),
    ensures
        flush_candle(st, interval_ms as int).wf(interval_ms),
{
    if st.spread_cnt > 0 {
        assert(st.spread_sum / st.spread_cnt <= 0xffff_ffff_ffff_ffff) by (nonlinear_arith)
            requires
                st.spread_cnt > 0,
                0 <= st.spread_sum <= st.spread_cnt * 0xffff_ffff_ffff_ffff,
        ;
        vstd::arithmetic::div_mod::lemma_div_pos_is_pos(st.spread_sum, st.spread_cnt);
    }
}

proof fn lemma_step_wf(st: AggState, tk: Tick, interval_ms: u64)
    requires
        interval_ms >= 1,
        st_wf(st, interval_ms),
        tk.ts_ms + interval_ms <= u64::MAX,
    ensures
        st_wf(step(st, tk, interval_ms as int), interval_ms),
{
    let ivl = interval_ms as int;
    let ts = tk.ts_ms as int;
    if ts >= st.bucket_start + ivl {
        let q = (ts - st.bucket_start) / ivl;
        let r = (ts - st.bucket_start) % ivl;
        lemma_fundamental_div_mod(ts - st.bucket_start, ivl);
        vstd::arithmetic::div_mod::lemma_mod_division_less_than_divisor(
            ts - st.bucket_start,
            ivl,
        );
        assert(advanced_start(st.bucket_start, ivl, ts) == ts - r);
    } else {
        assert(st.spread_sum + spread_of(tk.bid, tk.ask) <= (st.spread_cnt + 1)
            * 0xffff_ffff_ffff_ffff) by (nonlinear_arith)
            requires
                0 <= st.spread_sum <= st.spread_cnt * 0xffff_ffff_ffff_ffff,
                0 <= spread_of(tk.bid, tk.ask) <= 0xffff_ffff_ffff_ffff,
        ;
    }
}

proof fn lemma_agg_loop_wf(ticks: Seq<Tick>, interval_ms: u64, st: AggState)
    requires
        interval_ms >= 1,
        st_wf(st, interval_ms),
        forall|k: int| 0 <= k < ticks.len() ==> ticks[k].ts_ms + interval_ms <= u64::MAX,
    ensures
        st_wf(agg_loop(ticks, interval_ms as int, st), interval_ms),
        agg_loop(ticks, interval_ms as int, st).out.len() >= st.out.len(),
        forall|k: int|
            0 <= k < st.out.len() ==> agg_loop(ticks, interval_ms as int, st).out[k] == st.out[k],
        forall|k: int|
            st.out.len() <= k < agg_loop(ticks, interval_ms as int, st).out.len()
                ==> #[trigger] agg_loop(ticks, interval_ms as int, st).out[k].wf(interval_ms),
    decreases ticks.len(),
{
    if ticks.len() > 0 {
        let ivl = interval_ms as int;
        let st1 = step(st, ticks[0], ivl);
        let fin = agg_loop(ticks, ivl, st);
        lemma_step_wf(st, ticks[0], interval_ms);
        lemma_agg_loop_wf(ticks.drop_first(), interval_ms, st1);
        assert(fin == agg_loop(ticks.drop_first(), ivl, st1));
        if ticks[0].ts_ms >= st.bucket_start + ivl {
            lemma_flush_wf(st, interval_ms);
            assert(st1.out == st.out.push(flush_candle(st, ivl)));
            assert forall|k: int| 0 <= k < st.out.len() implies fin.out[k] == st.out[k] by {
                assert(st1.out[k] == st.out[k]);
            }
            assert forall|k: int|
                st.out.len() <= k < fin.out.len() implies #[trigger] fin.out[k].wf(
                interval_ms,
            ) by {
                if k < st1.out.len() {
                    assert(k == st.out.len());
                    assert(fin.out[k] == st1.out[k]);
                    assert(st1.out[k] == flush_candle(st, ivl));
                }
            }
        } else {
            assert(st1.out == st.out);
        }
    }
}

/// Every candle the aggregation emits spans exactly one interval
/// (`end_ts == start_ts + interval_ms`), and its `low` and `high`
/// bound both `open` and `close`.
pub proof fn lemma_aggregate_wf(ticks: Seq<Tick>, interval_ms: u64)
    requires
        interval_ms >= 1,
        forall|k: int| 0 <= k < ticks.len() ==> ticks[k].ts_ms + interval_ms <= u64::MAX,
    ensures
        forall|k: int|
            0 <= k < aggregate_spec(ticks, interval_ms).len()
                ==> #[trigger] aggregate_spec(ticks, interval_ms)[k].wf(interval_ms),
{
    if ticks.len() > 0 {
        let st0 = seed_state(ticks[0]);
        assert(ticks[0].ts_ms + interval_ms <= u64::MAX);
        assert(st_wf(st0, interval_ms));
        lemma_agg_loop_wf(ticks, interval_ms, st0);
        let fin = agg_loop(ticks, interval_ms as int, st0);
        lemma_flush_wf(fin, interval_ms);
    }
}

/// The tick timestamps never decrease.
pub open spec fn ticks_sorted(ticks: Seq<Tick>) -> bool {
    forall|i: int, j: int| 0 <= i <= j < ticks.len() ==> ticks[i].ts_ms <= ticks[j].ts_ms
}

/// The window a timestamp falls in, counted from the first tick.
pub open spec fn win_of(t0: int, interval: int, ts: int) -> int {
    (ts - t0) / interval
}

/// How many of the first `i` window transitions between consecutive
/// ticks cross a window boundary.
pub open spec fn changes_upto(ticks: Seq<Tick>, interval: int, i: int) -> int
    decreases i,
{
    if i <= 0 {
        0
    } else {
        changes_upto(ticks, interval, i - 1) + (if win_of(
            ticks[0].ts_ms as int,
            interval,
            ticks[i].ts_ms as int,
        ) != win_of(ticks[0].ts_ms as int, interval, ticks[i - 1].ts_ms as int) {
            1int
        } else {
            0int
        })
    }
}

/// How many distinct (possibly gap-skipped) windows the tick sequence
/// touches, for a sorted sequence.
pub open spec fn windows_touched(ticks: Seq<Tick>, interval_ms: u64) -> int {
    if ticks.len() == 0 {
        0
    } else {
        1 + changes_upto(ticks, interval_ms as int, ticks.len() - 1)
    }
}

proof fn lemma_agg_loop_counts(ticks: Seq<Tick>, interval_ms: u64, i: int)
    requires
        interval_ms >= 1,
        ticks_sorted(ticks),
        1 <= i <= ticks.len(),
    ensures
        ({
            let st = agg_loop(ticks.take(i), interval_ms as int, seed_state(ticks[0]));
            let ivl = interval_ms as int;
            let t0 = ticks[0].ts_ms as int;
            &&& st.out.len() == changes_upto(ticks, ivl, i - 1)
            &&& st.bucket_start == t0 + ivl * win_of(t0, ivl, ticks[i - 1].ts_ms as int)
            &&& st.bucket_start <= ticks[i - 1].ts_ms < st.bucket_start + ivl
        }),
    decreases i,
{
    let ivl = interval_ms as int;
    let t0 = ticks[0].ts_ms as int;
    if i == 1 {
        assert(ticks.take(1) =~= Seq::<Tick>::empty().push(ticks[0]));
        lemma_agg_loop_push(Seq::<Tick>::empty(), ticks[0], ivl, seed_state(ticks[0]));
        let st = step(seed_state(ticks[0]), ticks[0], ivl);
        assert(win_of(t0, ivl, t0) == 0) by {
            vstd::arithmetic::div_mod::lemma_basic_div(0, ivl);
        }
        assert(t0 + ivl * 0 == t0);
    } else {
        lemma_agg_loop_counts(ticks, interval_ms, i - 1);
        let st = agg_loop(ticks.take(i - 1), ivl, seed_state(ticks[0]));
        assert(ticks.take(i - 1).push(ticks[i - 1]) =~= ticks.take(i));
        lemma_agg_loop_push(ticks.take(i - 1), ticks[i - 1], ivl, seed_state(ticks[0]));
        let ts_prev = ticks[i - 2].ts_ms as int;
        let ts = ticks[i - 1].ts_ms as int;
        assert(ticks[i - 2].ts_ms <= ticks[i - 1].ts_ms);
        let w_prev = win_of(t0, ivl, ts_prev);
        let w_cur = win_of(t0, ivl, ts);
        vstd::arithmetic::div_mod::lemma_div_is_ordered(ts_prev - t0, ts - t0, ivl);
        assert(w_prev <= w_cur);
        let r = (ts - t0) % ivl;
        lemma_fundamental_div_mod(ts - t0, ivl);
        vstd::arithmetic::div_mod::lemma_mod_division_less_than_divisor(ts - t0, ivl);
        assert(ts - t0 == ivl * w_cur + r);
        if w_cur == w_prev {
            assert(ts == st.bucket_start + r);
            assert(ts < st.bucket_start + ivl);
        } else {
            assert(w_cur >= w_prev + 1);
            assert(ivl * w_cur >= ivl * (w_prev + 1)) by (nonlinear_arith)
                requires
                    w_cur >= w_prev + 1,
                    ivl >= 1,
            ;
            assert(ivl * (w_prev + 1) == ivl * w_prev + ivl) by (nonlinear_arith);
            assert(ts >= st.bucket_start + ivl);
            // the bucket advances to the window that holds this tick
            assert(ts - st.bucket_start == (w_cur - w_prev) * ivl + r) by (nonlinear_arith)
                requires
                    ts - t0 == ivl * w_cur + r,
                    st.bucket_start == t0 + ivl * w_prev,
            ;
            lemma_fundamental_div_mod_converse_div(ts - st.bucket_start, ivl, w_cur - w_prev, r);
            assert(advanced_start(st.bucket_start, ivl, ts) == st.bucket_start + ivl * (w_cur
                - w_prev));
            assert(st.bucket_start + ivl * (w_cur - w_prev) == t0 + ivl * w_cur)
                by (nonlinear_arith)
                requires
                    st.bucket_start == t0 + ivl * w_prev,
            ;
        }
    }
}

/// For a sorted, non-empty tick sequence: the aggregation emits
/// exactly one candle per distinct window touched, and the last input
/// tick falls inside the last emitted candle's window.
pub proof fn lemma_aggregate_counts(ticks: Seq<Tick>, interval_ms: u64)
    requires
        interval_ms >= 1,
        ticks.len() > 0,
        ticks_sorted(ticks),
    ensures
        aggregate_spec(ticks, interval_ms).len() == windows_touched(ticks, interval_ms),
        ({
            let cs = aggregate_spec(ticks, interval_ms);
            let last = cs[cs.len() - 1];
            last.start_ts <= ticks[ticks.len() - 1].ts_ms < last.start_ts + interval_ms
        }),
{
    let ivl = interval_ms as int;
    let n = ticks.len() as int;
    lemma_agg_loop_counts(ticks, interval_ms, n);
    assert(ticks.take(n) =~= ticks);
    let fin = agg_loop(ticks, ivl, seed_state(ticks[0]));
    let t0 = ticks[0].ts_ms as int;
    assert(0 <= fin.bucket_start) by {
        assert(ticks[0].ts_ms <= ticks[n - 1].ts_ms);
        vstd::arithmetic::div_mod::lemma_div_pos_is_pos(
            ticks[n - 1].ts_ms - t0,
            ivl,
        );
        assert(win_of(t0, ivl, ticks[n - 1].ts_ms as int) >= 0);
        assert(ivl * win_of(t0, ivl, ticks[n - 1].ts_ms as int) >= 0) by (nonlinear_arith)
            requires
                ivl >= 1,
                win_of(t0, ivl, ticks[n - 1].ts_ms as int) >= 0,
        ;
    }
}

/// Executable absolute spread.
fn abs_spread(bid: i64, ask: i64) -> (r: u64)
    ensures
        r == spread_of(bid, ask),
{
    if ask >= bid {
        ((ask as i128) - (bid as i128)) as u64
    } else {
        ((bid as i128) - (ask as i128)) as u64
    }
}

/// Bucket the tick sequence into fixed `interval_ms`-wide windows, one
/// OHLC candle per window that holds at least one tick; empty windows
/// are skipped, and the final in-progress window is always flushed.
pub fn ticks_to_candles(ticks: &Vec<Tick>, interval_ms: u64) -> (candles: Vec<Candle>)
    requires
        interval_ms >= 1,
        forall|k: int|
            0 <= k < ticks@.len() ==> ticks@[k].ts_ms + interval_ms <= u64::MAX,
    ensures
        candles@ == aggregate_spec(ticks@, interval_ms),
        forall|k: int| 0 <= k < candles@.len() ==> #[trigger] candles@[k].wf(interval_ms),
        ticks@.len() == 0 ==> candles@.len() == 0,
        ticks_sorted(ticks@) && ticks@.len() > 0 ==> candles@.len() == windows_touched(
            ticks@,
            interval_ms,
        ) && candles@.last().start_ts <= ticks@.last().ts_ms < candles@.last().start_ts
            + interval_ms,
{
    proof {
        lemma_aggregate_wf(ticks@, interval_ms);
        if ticks_sorted(ticks@) && ticks@.len() > 0 {
            lemma_aggregate_counts(ticks@, interval_ms);
        }
    }
    let n: usize = ticks.len();
    if n == 0 {
        let empty: Vec<Candle> = Vec::new();
        return empty;
    }
    let mut candles: Vec<Candle> = Vec::new();
    let first = ticks[0];
    let mut bucket_start: u64 = first.ts_ms;
    let mut cur_open: i64 = first.bid;
    let mut cur_high: i64 = first.bid;
    let mut cur_low: i64 = first.bid;
    let mut cur_close: i64 = first.bid;
    let mut spread_sum: u128 = 0;
    let mut spread_cnt: usize = 0;

    proof {
        assert(ticks@.take(0) =~= Seq::<Tick>::empty());
        assert(bucket_start <= ticks@[0].ts_ms);
    }
    let mut i: usize = 0;
    while i < n
        invariant
            n == ticks@.len(),
            n >= 1,
            interval_ms >= 1,
            forall|k: int|
                0 <= k < ticks@.len() ==> ticks@[k].ts_ms + interval_ms <= u64::MAX,
            0 <= i <= n,
            agg_loop(ticks@.take(i as int), interval_ms as int, seed_state(ticks@[0]))
                == (AggState {
                bucket_start: bucket_start as int,
                open: cur_open as int,
                high: cur_high as int,
                low: cur_low as int,
                close: cur_close as int,
                spread_sum: spread_sum as int,
                spread_cnt: spread_cnt as int,
                out: candles@,
            }),
            spread_cnt <= i,
            spread_sum <= (spread_cnt as u128) * 0xffff_ffff_ffff_ffffu128,
            exists|j: int| 0 <= j < ticks@.len() && bucket_start <= ticks@[j].ts_ms,
        decreases n - i,
    {
        let ghost st_pre = agg_loop(
            ticks@.take(i as int),
            interval_ms as int,
            seed_state(ticks@[0]),
        );
        let tk = ticks[i];
        proof {
            assert(ticks@.take(i as int).push(ticks@[i as int]) =~= ticks@.take(i as int + 1));
            lemma_agg_loop_push(
                ticks@.take(i as int),
                ticks@[i as int],
                interval_ms as int,
                seed_state(ticks@[0]),
            );
            assert(bucket_start + interval_ms <= u64::MAX);
        }
        if tk.ts_ms >= bucket_start + interval_ms {
            // flush the completed bucket
            let mid_spread: u64 = if spread_cnt > 0 {
                proof {
                    assert(spread_sum / (spread_cnt as u128) <= 0xffff_ffff_ffff_ffffu128)
                        by (nonlinear_arith)
                        requires
                            spread_cnt > 0,
                            spread_sum <= (spread_cnt as u128) * 0xffff_ffff_ffff_ffffu128,
                    ;
                }
                (spread_sum / (spread_cnt as u128)) as u64
            } else {
                0
            };
            candles.push(
                Candle {
                    start_ts: bucket_start,
                    end_ts: bucket_start + interval_ms,
                    open: cur_open,
                    high: cur_high,
                    low: cur_low,
                    close: cur_close,
                    mid_spread,
                },
            );
            // advance the bucket past any silent gap
            let ghost start0 = bucket_start as int;
            let ghost mut steps: int = 0;
            while tk.ts_ms >= bucket_start + interval_ms
                invariant
                    interval_ms >= 1,
                    tk.ts_ms + interval_ms <= u64::MAX,
                    bucket_start <= tk.ts_ms,
                    steps >= 0,
                    bucket_start as int == start0 + interval_ms * steps,
                decreases tk.ts_ms - bucket_start,
            {
                bucket_start = bucket_start + interval_ms;
                proof {
                    steps = steps + 1;
                    assert(interval_ms * steps == interval_ms * (steps - 1) + interval_ms)
                        by (nonlinear_arith);
                }
            }
            proof {
                let ts = tk.ts_ms as int;
                let ivl = interval_ms as int;
                assert(ts - start0 == steps * ivl + (ts - bucket_start)) by (nonlinear_arith)
                    requires
                        bucket_start as int == start0 + ivl * steps,
                ;
                lemma_fundamental_div_mod_converse_div(
                    ts - start0,
                    ivl,
                    steps,
                    ts - bucket_start,
                );
                assert(bucket_start as int == advanced_start(start0, ivl, ts));
            }
            // re-seed from this tick
            cur_open = tk.bid;
            cur_high = tk.bid;
            cur_low = tk.bid;
            cur_close = tk.bid;
            spread_sum = abs_spread(tk.bid, tk.ask) as u128;
            spread_cnt = 1;
        } else {
            // merge into the current bucket
            if tk.bid > cur_high {
                cur_high = tk.bid;
            }
            if tk.bid < cur_low {
                cur_low = tk.bid;
            }
            cur_close = tk.bid;
            let d: u64 = abs_spread(tk.bid, tk.ask);
            proof {
                assert(spread_sum + (d as u128) <= ((spread_cnt + 1) as u128)
                    * 0xffff_ffff_ffff_ffffu128) by (nonlinear_arith)
                    requires
                        spread_sum <= (spread_cnt as u128) * 0xffff_ffff_ffff_ffffu128,
                        d <= 0xffff_ffff_ffff_ffffu64,
                ;
                assert(((spread_cnt + 1) as u128) * 0xffff_ffff_ffff_ffffu128 <= u128::MAX)
                    by (nonlinear_arith)
                    requires
                        spread_cnt + 1 <= 0x1_0000_0000_0000_0000u128,
                ;
            }
            spread_sum = spread_sum + (d as u128);
            spread_cnt = spread_cnt + 1;
        }
        i = i + 1;
    }
    proof {
        assert(ticks@.take(n as int) =~= ticks@);
    }
    // the final in-progress bucket is always flushed
    let mid_spread: u64 = if spread_cnt > 0 {
        proof {
            assert(spread_sum / (spread_cnt as u128) <= 0xffff_ffff_ffff_ffffu128)
                by (nonlinear_arith)
                requires
                    spread_cnt > 0,
                    spread_sum <= (spread_cnt as u128) * 0xffff_ffff_ffff_ffffu128,
            ;
        }
        (spread_sum / (spread_cnt as u128)) as u64
    } else {
        0
    };
    proof {
        assert(bucket_start + interval_ms <= u64::MAX);
    }
    candles.push(
        Candle {
            start_ts: bucket_start,
            end_ts: bucket_start + interval_ms,
            open: cur_open,
            high: cur_high,
            low: cur_low,
            close: cur_close,
            mid_spread,
        },
    );
    candles
}

} // verus!
