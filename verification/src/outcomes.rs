use vstd::prelude::*;
use crate::text::{chars_of, string_of, extend_str, push_decimal, dec_digits, lines_of, split_lines, trim, trimmed};
use crate::convert::{convert_error, convert_error_spec};

verus! {

broadcast use vstd::string::group_string_axioms;

// ---------------------------------------------------------------------------
// Counting the runs of a tool
// ---------------------------------------------------------------------------

/// How many runs of a tool succeeded and how many failed.
#[derive(Clone, Copy, Debug)]
pub struct RunTally {
    pub success: u32,
    pub failed: u32,
}

impl RunTally {
    /// No run counted yet.
    pub fn new() -> (r: RunTally)
        ensures
            r.success == 0 && r.failed == 0,
    {
        RunTally { success: 0, failed: 0 }
    }

    /// Room for one more run in either counter.
    pub open spec fn has_room(&self) -> bool {
        self.success < u32::MAX && self.failed < u32::MAX
    }

    /// Counts one run, a success or a failure.
    pub fn record(&mut self, ok: bool)
        requires
            old(self).has_room(),
        ensures
            final(self).success == old(self).success + if ok { 1int } else { 0 },
            final(self).failed == old(self).failed + if ok { 0int } else { 1 },
    {
        if ok {
            self.success = self.success + 1;
        } else {
            self.failed = self.failed + 1;
        }
    }
}

/// The first line of a text, or `fallback` for an empty text
/// (`s.lines().next().unwrap_or(fallback)`).
pub open spec fn first_line_or(s: Seq<char>, fallback: Seq<char>) -> Seq<char> {
    if lines_of(s).len() > 0 {
        lines_of(s)[0]
    } else {
        fallback
    }
}

fn first_line_or_exec(s: &str, fallback: &str) -> (r: String)
    ensures
        r@ == first_line_or(s@, fallback@),
{
    let lines = split_lines(&chars_of(s));
    if lines.len() > 0 {
        string_of(&lines[0])
    } else {
        fallback.to_owned()
    }
}

// ---------------------------------------------------------------------------
// Merging
// ---------------------------------------------------------------------------

/// What one `mergecap` run gave.
#[derive(Clone, Debug)]
pub enum MergeOutcome {
    /// The merged file was written, with this size.
    Written(u64),
    /// `mergecap` ran but wrote nothing; the first line of its error output.
    Failed(String),
    /// `mergecap` could not be run; the error.
    NotRun(String),
}

/// Judges a finished `mergecap` run: a success only when it exited cleanly
/// and the output file exists.
pub fn merge_outcome(exited_ok: bool, output_exists: bool, size: u64, stderr: &str) -> (r: MergeOutcome)
    ensures
        exited_ok && output_exists ==> r == MergeOutcome::Written(size),
        !(exited_ok && output_exists) ==> (r matches MergeOutcome::Failed(reason) && reason@
            == first_line_or(stderr@, "Unknown error"@)),
{
    if exited_ok && output_exists {
        MergeOutcome::Written(size)
    } else {
        MergeOutcome::Failed(first_line_or_exec(stderr, "Unknown error"))
    }
}

/// Whether a merge succeeded.
pub fn merge_ok(o: &MergeOutcome) -> (r: bool)
    ensures
        r == (o is Written),
{
    match o {
        MergeOutcome::Written(_) => true,
        _ => false,
    }
}

/// The log line of one merge.
pub open spec fn merge_line_spec(ip: Seq<char>, o: MergeOutcome) -> Seq<char> {
    match o {
        MergeOutcome::Written(size) => "  → "@ + ip + "_merged.pcap ("@ + dec_digits(size as nat)
            + " bytes) - OK"@,
        MergeOutcome::Failed(reason) => "  → ERROR: "@ + reason@,
        MergeOutcome::NotRun(e) => "  → ERROR: "@ + e@,
    }
}

/// The log line of one merge.
pub fn merge_line(ip: &str, o: &MergeOutcome) -> (r: String)
    ensures
        r@ == merge_line_spec(ip@, *o),
{
    let mut v: Vec<char> = Vec::new();
    match o {
        MergeOutcome::Written(size) => {
            extend_str(&mut v, "  → ");
            extend_str(&mut v, ip);
            extend_str(&mut v, "_merged.pcap (");
            push_decimal(&mut v, *size);
            extend_str(&mut v, " bytes) - OK");
        },
        MergeOutcome::Failed(reason) => {
            extend_str(&mut v, "  → ERROR: ");
            extend_str(&mut v, reason.as_str());
        },
        MergeOutcome::NotRun(e) => {
            extend_str(&mut v, "  → ERROR: ");
            extend_str(&mut v, e.as_str());
        },
    }
    string_of(&v)
}

// ---------------------------------------------------------------------------
// Converting
// ---------------------------------------------------------------------------

/// What one `etl2pcapng` run gave.
#[derive(Clone, Debug)]
pub enum ConvertOutcome {
    /// The capture was written, with this size.
    Written(u64),
    /// The output file exists but is empty.
    Empty,
    /// No output file was made; the tool's error and standard output.
    NoFile(String, String),
    /// `etl2pcapng` could not be run; the error.
    NotRun(String),
}

/// Judges a finished `etl2pcapng` run by its output file.
pub fn convert_outcome(output_exists: bool, size: u64, stderr: &str, stdout: &str) -> (r: ConvertOutcome)
    ensures
        output_exists && size > 0 ==> r == ConvertOutcome::Written(size),
        output_exists && size == 0 ==> r == ConvertOutcome::Empty,
        !output_exists ==> (r matches ConvertOutcome::NoFile(e, o) && e@ == stderr@ && o@ == stdout@),
{
    if output_exists {
        if size > 0 {
            ConvertOutcome::Written(size)
        } else {
            ConvertOutcome::Empty
        }
    } else {
        ConvertOutcome::NoFile(stderr.to_owned(), stdout.to_owned())
    }
}

/// Whether a conversion succeeded.
pub fn convert_ok(o: &ConvertOutcome) -> (r: bool)
    ensures
        r == (o is Written),
{
    match o {
        ConvertOutcome::Written(_) => true,
        _ => false,
    }
}

/// The job log line of one conversion.
pub open spec fn convert_line_spec(o: ConvertOutcome) -> Seq<char> {
    match o {
        ConvertOutcome::Written(size) => "  → "@ + dec_digits(size as nat) + " bytes - OK"@,
        ConvertOutcome::Empty => "  → ERROR: Output file is empty"@,
        ConvertOutcome::NoFile(e, out) => "  → ERROR: "@ + convert_error_spec(e@, out@),
        ConvertOutcome::NotRun(e) => "  → ERROR: "@ + e@,
    }
}

/// The job log line of one conversion.
pub fn convert_line(o: &ConvertOutcome) -> (r: String)
    ensures
        r@ == convert_line_spec(*o),
{
    let mut v: Vec<char> = Vec::new();
    match o {
        ConvertOutcome::Written(size) => {
            extend_str(&mut v, "  → ");
            push_decimal(&mut v, *size);
            extend_str(&mut v, " bytes - OK");
        },
        ConvertOutcome::Empty => {
            extend_str(&mut v, "  → ERROR: Output file is empty");
        },
        ConvertOutcome::NoFile(e, out) => {
            extend_str(&mut v, "  → ERROR: ");
            let why = convert_error(e.as_str(), out.as_str());
            extend_str(&mut v, why.as_str());
        },
        ConvertOutcome::NotRun(e) => {
            extend_str(&mut v, "  → ERROR: ");
            extend_str(&mut v, e.as_str());
        },
    }
    string_of(&v)
}

/// Why a conversion on the command line made no file: the trimmed error
/// output, else the last line of the standard output (`Unknown error` when
/// it has none), else a fixed message.
pub open spec fn cli_convert_error_spec(stderr: Seq<char>, stdout: Seq<char>) -> Seq<char> {
    if stderr.len() > 0 {
        trim(stderr)
    } else if stdout.len() > 0 {
        if lines_of(stdout).len() > 0 {
            lines_of(stdout).last()
        } else {
            "Unknown error"@
        }
    } else {
        "No output file created"@
    }
}

/// Why a conversion on the command line made no file.
pub fn cli_convert_error(stderr: &str, stdout: &str) -> (r: String)
    ensures
        r@ == cli_convert_error_spec(stderr@, stdout@),
{
    let e = chars_of(stderr);
    if e.len() > 0 {
        return string_of(&trimmed(&e));
    }
    let o = chars_of(stdout);
    if o.len() > 0 {
        let lines = split_lines(&o);
        if lines.len() > 0 {
            return string_of(&lines[lines.len() - 1]);
        }
        return "Unknown error".to_owned();
    }
    "No output file created".to_owned()
}

} // verus!
