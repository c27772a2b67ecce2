use sweepgen::candle::Candle;
use sweepgen::loader::{
    is_header_line, parse_price_or_zero, parse_tick_line, parse_u64_or_zero, ticks_from_lines,
};
use sweepgen::sweep::{resolve_grid, sweep, Grid};

fn no_candles() -> Vec<Candle> {
    Vec::new()
}

#[test]
fn sweep_order_and_count() {
    let grid = Grid {
        donch_n: vec![20, 30],
        rr_min: vec![18000],
        session_filter: vec!["london".to_string()],
        max_spread: vec![25000],
    };
    let out = sweep(&no_candles(), &grid, "XAUUSD");
    assert_eq!(out.len(), 2);
    assert_eq!(out[0].params.donch_n, 20);
    assert_eq!(out[1].params.donch_n, 30);
    assert_eq!(out[0].symbol, "XAUUSD");
    assert_eq!(out[0].params.session_filter, "london");
}

#[test]
fn sweep_full_cartesian_product_nesting() {
    let grid = Grid {
        donch_n: vec![20, 30],
        rr_min: vec![18000, 20000],
        session_filter: vec!["london".to_string(), "nyopen".to_string()],
        max_spread: vec![20000, 25000],
    };
    let out = sweep(&no_candles(), &grid, "S");
    assert_eq!(out.len(), 16);
    // donch_n outermost, then rr_min, then session_filter, then max_spread
    assert_eq!(out[0].params.donch_n, 20);
    assert_eq!(out[0].params.rr_min, 18000);
    assert_eq!(out[0].params.session_filter, "london");
    assert_eq!(out[0].params.max_spread, 20000);
    assert_eq!(out[1].params.max_spread, 25000);
    assert_eq!(out[2].params.session_filter, "nyopen");
    assert_eq!(out[4].params.rr_min, 20000);
    assert_eq!(out[8].params.donch_n, 30);
    assert_eq!(out[15].params.donch_n, 30);
    assert_eq!(out[15].params.rr_min, 20000);
    assert_eq!(out[15].params.session_filter, "nyopen");
    assert_eq!(out[15].params.max_spread, 25000);
}

#[test]
fn supplied_grid_fully_replaces_default() {
    let grid = Grid {
        donch_n: vec![7],
        rr_min: vec![11000],
        session_filter: vec!["asia".to_string()],
        max_spread: vec![5000],
    };
    let g = resolve_grid(Some(grid));
    assert_eq!(g.donch_n, vec![7]);
    assert_eq!(g.rr_min, vec![11000]);
    assert_eq!(g.session_filter, vec!["asia".to_string()]);
    assert_eq!(g.max_spread, vec![5000]);
}

#[test]
fn absent_grid_uses_the_builtin_default() {
    let g = resolve_grid(None);
    assert_eq!(g.donch_n, vec![20, 30, 40]);
    assert_eq!(g.rr_min, vec![18000, 20000, 25000]);
    assert_eq!(
        g.session_filter,
        vec!["london".to_string(), "nyopen".to_string()]
    );
    assert_eq!(g.max_spread, vec![25000]);
}

#[test]
fn header_detection_is_substring_based() {
    assert!(is_header_line("ts_ms,bid,ask"));
    assert!(is_header_line("xts_ms_bid_ask_extra"));
    assert!(!is_header_line("time,bid,ask"));
    assert!(!is_header_line("1,2,3"));
}

#[test]
fn lenient_numeric_parsing() {
    assert_eq!(parse_u64_or_zero("42"), 42);
    assert_eq!(parse_u64_or_zero(" 42 "), 42);
    assert_eq!(parse_u64_or_zero("+5"), 5);
    assert_eq!(parse_u64_or_zero("+"), 0);
    assert_eq!(parse_u64_or_zero("x42"), 0);
    assert_eq!(parse_u64_or_zero(""), 0);
    assert_eq!(parse_u64_or_zero("99999999999999999999999"), 0);
    assert_eq!(parse_price_or_zero("1.0"), 10000);
    assert_eq!(parse_price_or_zero("2.5"), 25000);
    assert_eq!(parse_price_or_zero("-1.5"), -15000);
    assert_eq!(parse_price_or_zero("+1.5"), 15000);
    assert_eq!(parse_price_or_zero(" 3 "), 30000);
    assert_eq!(parse_price_or_zero(".5"), 5000);
    assert_eq!(parse_price_or_zero("5."), 50000);
    assert_eq!(parse_price_or_zero("1.23456"), 12345);
    assert_eq!(parse_price_or_zero("abc"), 0);
    assert_eq!(parse_price_or_zero("1.2.3"), 0);
    assert_eq!(parse_price_or_zero(""), 0);
    // the whitespace set matches str::trim's
    assert_eq!(parse_price_or_zero("\u{00A0}2.5\u{3000}"), 25000);
    assert_eq!(parse_u64_or_zero("\u{2009}7\u{2009}"), 7);
}

#[test]
fn exponent_forms_parse_as_the_float_grammar_does() {
    assert_eq!(parse_price_or_zero("1e3"), 10_000_000);
    assert_eq!(parse_price_or_zero("2.5e-1"), 2500);
    assert_eq!(parse_price_or_zero("1.E2"), 1_000_000);
    assert_eq!(parse_price_or_zero("-1.5e1"), -150_000);
    assert_eq!(parse_price_or_zero("12345e-6"), 123); // 0.012345 truncated
    assert_eq!(parse_price_or_zero("1e-9"), 0); // vanishes below 4 places
    assert_eq!(parse_price_or_zero("0e999999999999999999999999999999999999"), 0);
    assert_eq!(parse_price_or_zero("1e999999999999999999999999999999999999"), 0); // out of range
    assert_eq!(parse_price_or_zero("1e"), 0); // exponent without digits
    assert_eq!(parse_price_or_zero("1e+"), 0);
    assert_eq!(parse_price_or_zero("e3"), 0); // no mantissa digit
    assert_eq!(parse_price_or_zero("1e3000"), 0); // out of range
}

#[test]
fn tick_line_parsing() {
    let t = parse_tick_line("1000,1.5,1.6").unwrap();
    assert_eq!(t.ts_ms, 1000);
    assert_eq!(t.bid, 15000);
    assert_eq!(t.ask, 16000);
    // fewer than three fields: dropped
    assert!(parse_tick_line("1000,1.5").is_none());
    // malformed numbers default to zero
    let z = parse_tick_line("oops,n/a,1.0").unwrap();
    assert_eq!(z.ts_ms, 0);
    assert_eq!(z.bid, 0);
    assert_eq!(z.ask, 10000);
}

#[test]
fn lines_to_ticks_skips_header_once() {
    let lines = vec![
        "ts_ms,bid,ask".to_string(),
        "0,1.0,1.1".to_string(),
        "bad line".to_string(),
        "1000,2.0,2.1".to_string(),
    ];
    let ticks = ticks_from_lines(&lines);
    assert_eq!(ticks.len(), 2);
    assert_eq!(ticks[0].ts_ms, 0);
    assert_eq!(ticks[0].bid, 10000);
    assert_eq!(ticks[0].ask, 11000);
    assert_eq!(ticks[1].ts_ms, 1000);
    assert_eq!(ticks[1].bid, 20000);
    assert_eq!(ticks[1].ask, 21000);

    // a first line that is not a header is parsed as data
    let lines2 = vec!["0,1.0,1.0".to_string()];
    assert_eq!(ticks_from_lines(&lines2).len(), 1);
}

#[test]
fn millis_from_clock_parts() {
    assert_eq!(sweepgen::now_millis(1, 2_000_000), 1002);
    assert_eq!(sweepgen::now_millis(0, 999_999), 0);
    assert_eq!(sweepgen::now_millis(1_700_000_000, 0), 1_700_000_000_000);
}

#[test]
fn rendering_helpers() {
    assert_eq!(sweepgen::text::u128_to_dec(0), "0");
    assert_eq!(sweepgen::text::u128_to_dec(1234567890), "1234567890");
    assert_eq!(sweepgen::text::fp2_to_dec(18000), "1.80");
    assert_eq!(sweepgen::text::fp2_to_dec(12345), "1.23");
    // two decimal places, rounded half away from zero
    assert_eq!(sweepgen::text::fp2_to_dec(12390), "1.24");
    assert_eq!(sweepgen::text::fp2_to_dec(-250), "-0.03");
    assert_eq!(sweepgen::text::fp2_to_dec(9999), "1.00");
    assert_eq!(sweepgen::text::fp2_to_dec(0), "0.00");
}
