use vstd::prelude::*;
use crate::text::{string_of, extend_str, push_decimal, dec_digits};
use crate::jobs::{Job, JobStatus, capped};

verus! {

broadcast use vstd::string::group_string_axioms;

/// What became of one connection attempt.
#[derive(Clone, Copy, Debug, PartialEq, Eq, Structural)]
pub enum PingResult {
    /// The connection was made.
    Connected,
    /// The attempt failed no sooner than the timeout.
    TimedOut,
    /// The attempt failed before the timeout.
    Failed,
}

/// Classifies an attempt: a failure that took at least the timeout counts as
/// a timeout.
pub fn classify_ping(connected: bool, elapsed_ms: u64, timeout_ms: u64) -> (r: PingResult)
    ensures
        r == if connected {
            PingResult::Connected
        } else if elapsed_ms >= timeout_ms {
            PingResult::TimedOut
        } else {
            PingResult::Failed
        },
{
    if connected {
        PingResult::Connected
    } else if elapsed_ms >= timeout_ms {
        PingResult::TimedOut
    } else {
        PingResult::Failed
    }
}

/// The log line of one attempt.
pub open spec fn ping_line_spec(
    timestamp: Seq<char>,
    result: PingResult,
    elapsed_ms: u64,
    timeout_ms: u64,
    error: Seq<char>,
) -> Seq<char> {
    "["@ + timestamp + match result {
        PingResult::Connected => "] Success: Connected in "@ + dec_digits(elapsed_ms as nat)
            + " ms"@,
        PingResult::TimedOut => "] Timeout after "@ + dec_digits(timeout_ms as nat) + " ms"@,
        PingResult::Failed => "] Failed: "@ + error,
    }
}

/// The log line of one attempt, stamped with the local time.
pub fn ping_line(
    timestamp: &str,
    result: PingResult,
    elapsed_ms: u64,
    timeout_ms: u64,
    error: &str,
) -> (r: String)
    ensures
        r@ == ping_line_spec(timestamp@, result, elapsed_ms, timeout_ms, error@),
{
    let mut v: Vec<char> = Vec::new();
    extend_str(&mut v, "[");
    extend_str(&mut v, timestamp);
    let mut tail: Vec<char> = Vec::new();
    match result {
        PingResult::Connected => {
            extend_str(&mut tail, "] Success: Connected in ");
            push_decimal(&mut tail, elapsed_ms);
            extend_str(&mut tail, " ms");
        },
        PingResult::TimedOut => {
            extend_str(&mut tail, "] Timeout after ");
            push_decimal(&mut tail, timeout_ms);
            extend_str(&mut tail, " ms");
        },
        PingResult::Failed => {
            extend_str(&mut tail, "] Failed: ");
            extend_str(&mut tail, error);
        },
    }
    crate::text::extend(&mut v, &tail);
    assert(v@ =~= ping_line_spec(timestamp@, result, elapsed_ms, timeout_ms, error@));
    string_of(&v)
}

/// Whether a ping job goes on: only while it is filed and running.
pub fn keep_pinging(job: Option<&Job>) -> (r: bool)
    ensures
        r == (job matches Some(j) && j.status == JobStatus::Running),
{
    match job {
        Some(j) => j.status == JobStatus::Running,
        None => false,
    }
}

/// A ping job's log never holds more than 50 lines, and its newest line is
/// the last one logged.
pub proof fn lemma_ping_log_bounded(lines: Seq<Seq<char>>, line: Seq<char>)
    requires
        lines.len() <= 50,
    ensures
        capped(lines.push(line)).len() <= 50,
        capped(lines.push(line)).last() == line,
        capped(lines.push(line)).len() == if lines.len() == 50 {
            50
        } else {
            lines.len() + 1
        },
{
}

/// The log after each line of `lines` was added to `start` in turn, 50
/// lines kept at most.
pub open spec fn log_after(start: Seq<Seq<char>>, lines: Seq<Seq<char>>) -> Seq<Seq<char>>
    decreases lines.len(),
{
    if lines.len() == 0 {
        start
    } else {
        capped(log_after(start, lines.drop_last()).push(lines.last()))
    }
}

/// The last `min(50, len)` items of a list, in order.
pub open spec fn newest_50(all: Seq<Seq<char>>) -> Seq<Seq<char>> {
    if all.len() > 50 {
        all.skip(all.len() - 50)
    } else {
        all
    }
}

/// Over a whole run of pings the log holds at most 50 lines: the newest
/// lines logged, in the order they were logged (the older lines of a short
/// starting log included).
pub proof fn lemma_ping_run(start: Seq<Seq<char>>, lines: Seq<Seq<char>>)
    requires
        start.len() <= 50,
    ensures
        log_after(start, lines) == newest_50(start + lines),
        log_after(start, lines).len() <= 50,
    decreases lines.len(),
{
    if lines.len() == 0 {
        assert(start + lines =~= start);
    } else {
        let init = lines.drop_last();
        lemma_ping_run(start, init);
        let prev = log_after(start, init);
        let all0 = start + init;
        let all = start + lines;
        assert(all =~= all0.push(lines.last()));
        if all0.len() >= 50 {
            assert(prev.push(lines.last()).drop_first() =~= all.skip(all.len() - 50));
        } else {
            assert(prev.push(lines.last()) =~= all);
        }
    }
}

} // verus!
