use vstd::prelude::*;

pub mod candidate;
pub mod candle;
pub mod loader;
pub mod rank;
pub mod strategy;
pub mod sweep;
pub mod text;
pub mod tick;

verus! {

/// Relies on std::time::SystemTime::now together with
/// SystemTime::duration_since and Duration::as_secs / subsec_nanos:
/// the wall-clock time since the Unix epoch, as whole seconds and the
/// nanoseconds within the current second. A clock set before the epoch
/// reads as zero rather than failing. The reading depends on when the
/// call runs, so only the documented bound on the nanosecond part
/// (always below one billion) is promised.
#[verifier::external_body]
pub fn now_unix_parts() -> (r: (u64, u32))
    ensures
        r.1 < 1_000_000_000,
{
    let d = std::time::SystemTime::now()
        .duration_since(std::time::UNIX_EPOCH)
        .unwrap_or(std::time::Duration::ZERO);
    (d.as_secs(), d.subsec_nanos())
}

/// Milliseconds since the Unix epoch, from a clock reading's whole
/// seconds and sub-second nanoseconds.
pub fn now_millis(secs: u64, subsec_nanos: u32) -> (ms: u128)
    ensures
        ms == secs as int * 1000 + subsec_nanos as int / 1_000_000,
{
    (secs as u128) * 1000 + ((subsec_nanos / 1_000_000) as u128)
}

} // verus!
