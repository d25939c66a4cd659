use vstd::prelude::*;
use crate::text::{chars_of, string_of, extend_str, push_decimal, dec_digits, trim, trimmed};
use crate::jobs::{Job, JobView, JobStatus};
use crate::text::string_views;
use crate::filter::FilterStats;

verus! {

broadcast use vstd::string::group_string_axioms;

// ---------------------------------------------------------------------------
// Forms
// ---------------------------------------------------------------------------

/// Text that is empty once trimmed.
pub open spec fn blank(s: Seq<char>) -> bool {
    trim(s).len() == 0
}

pub fn is_blank(s: &str) -> (r: bool)
    ensures
        r == blank(s@),
{
    let t = trimmed(&chars_of(s));
    t.len() == 0
}

/// The fields of the download form.
#[derive(Clone, Debug)]
pub struct DownloadForm {
    pub urls: Option<String>,
    pub file_path: Option<String>,
    pub output: Option<String>,
    pub threads: Option<u32>,
}

impl DownloadForm {
    /// The number of parallel downloads: 4 unless the form gives one.
    pub fn thread_count(&self) -> (r: u32)
        ensures
            r == match self.threads {
                Some(t) => t,
                None => 4u32,
            },
    {
        match self.threads {
            Some(t) => t,
            None => 4,
        }
    }
}

/// The fields of the merge form.
#[derive(Clone, Debug)]
pub struct MergeForm {
    pub input: String,
    pub output: Option<String>,
}

/// The fields of the filter form.
#[derive(Clone, Debug)]
pub struct FilterForm {
    pub input: String,
    pub output: Option<String>,
    pub filter: String,
    pub delete_empty: Option<String>,
}

impl FilterForm {
    /// Whether empty results are to be deleted: the checkbox sends `on`.
    pub fn deletes_empty(&self) -> (r: bool)
        ensures
            r == (self.delete_empty matches Some(s) && s@ == "on"@),
    {
        match &self.delete_empty {
            Some(s) => crate::text::eq_str(&chars_of(s.as_str()), "on"),
            None => false,
        }
    }
}

/// The fields of the conversion form.
#[derive(Clone, Debug)]
pub struct ConvertForm {
    pub input: Option<String>,
    pub single_file: Option<String>,
    pub output: Option<String>,
}

/// The fields of the ping form.
#[derive(Clone, Debug)]
pub struct TcppingForm {
    pub target: String,
    pub port: u16,
    pub timeout: Option<u64>,
    pub interval: Option<u64>,
}

impl TcppingForm {
    /// The connection timeout in milliseconds: 2000 unless the form gives one.
    pub fn timeout_ms(&self) -> (r: u64)
        ensures
            r == match self.timeout {
                Some(t) => t,
                None => 2000u64,
            },
    {
        match self.timeout {
            Some(t) => t,
            None => 2000,
        }
    }

    /// The pause between pings in seconds: 1 unless the form gives one.
    pub fn interval_secs(&self) -> (r: u64)
        ensures
            r == match self.interval {
                Some(t) => t,
                None => 1u64,
            },
    {
        match self.interval {
            Some(t) => t,
            None => 1,
        }
    }
}

/// A field's text unless it is missing or blank.
pub open spec fn given(s: Option<Seq<char>>) -> Option<Seq<char>> {
    match s {
        Some(t) => if blank(t) {
            None
        } else {
            Some(t)
        },
        None => None,
    }
}

pub open spec fn opt_view(s: Option<&str>) -> Option<Seq<char>> {
    match s {
        Some(t) => Some(t@),
        None => None,
    }
}

/// The output directory of a merge or filter job: the one given, unless it is
/// missing or blank, else the input directory.
pub fn output_or_input(output: Option<&str>, input: &str) -> (r: String)
    ensures
        r@ == match given(opt_view(output)) {
            Some(o) => o,
            None => input@,
        },
{
    match output {
        Some(o) => {
            if is_blank(o) {
                input.to_owned()
            } else {
                o.to_owned()
            }
        },
        None => input.to_owned(),
    }
}

/// Where a download job reads its URLs.
#[derive(Clone, Debug)]
pub enum UrlSource {
    /// The file at this path.
    File(String),
    /// This pasted text.
    Text(String),
}

/// The URL list file when its path is given and not blank, else the pasted
/// URLs (no text when none were pasted).
pub fn url_source(urls: Option<&str>, file_path: Option<&str>) -> (r: UrlSource)
    ensures
        match given(opt_view(file_path)) {
            Some(p) => r matches UrlSource::File(f) && f@ == p,
            None => r matches UrlSource::Text(t) && t@ == match urls {
                Some(u) => u@,
                None => Seq::<char>::empty(),
            },
        },
{
    if let Some(fp) = file_path {
        if !is_blank(fp) {
            return UrlSource::File(fp.to_owned());
        }
    }
    match urls {
        Some(u) => UrlSource::Text(u.to_owned()),
        None => UrlSource::Text(String::new()),
    }
}

/// Where a download job saves: the output directory given, unless missing or
/// blank; else the folder named after the URL list beside it, when there is
/// one; else the program's own directory.
pub fn download_dir(output: Option<&str>, beside_list: Option<&str>, exe_dir: &str) -> (r: String)
    ensures
        r@ == match given(opt_view(output)) {
            Some(o) => o,
            None => match beside_list {
                Some(b) => b@,
                None => exe_dir@,
            },
        },
{
    if let Some(o) = output {
        if !is_blank(o) {
            return o.to_owned();
        }
    }
    match beside_list {
        Some(b) => b.to_owned(),
        None => exe_dir.to_owned(),
    }
}

// ---------------------------------------------------------------------------
// Ending a job
// ---------------------------------------------------------------------------

/// The separator line of job logs: 40 box-drawing dashes.
pub open spec fn rule_line() -> Seq<char> {
    Seq::new(40, |i: int| '─')
}

pub fn rule() -> (r: String)
    ensures
        r@ == rule_line(),
{
    let mut v: Vec<char> = Vec::new();
    let mut i: usize = 0;
    while i < 40
        invariant
            i <= 40,
            v@ == Seq::new(i as nat, |k: int| '─'),
        decreases 40 - i,
    {
        v.push('─');
        i += 1;
        assert(v@ =~= Seq::new(i as nat, |k: int| '─'));
    }
    string_of(&v)
}

pub open spec fn num(n: u32) -> Seq<char> {
    dec_digits(n as nat)
}

/// `format!("{a}{n}{b}")`.
pub fn text1(a: &str, n: u32, b: &str) -> (r: String)
    ensures
        r@ == a@ + num(n) + b@,
{
    let mut v: Vec<char> = Vec::new();
    extend_str(&mut v, a);
    push_decimal(&mut v, n as u64);
    extend_str(&mut v, b);
    string_of(&v)
}

/// `format!("{a}{n}{b}{m}{c}")`.
pub fn text2(a: &str, n: u32, b: &str, m: u32, c: &str) -> (r: String)
    ensures
        r@ == a@ + num(n) + b@ + num(m) + c@,
{
    let mut v: Vec<char> = Vec::new();
    extend_str(&mut v, a);
    push_decimal(&mut v, n as u64);
    extend_str(&mut v, b);
    push_decimal(&mut v, m as u64);
    extend_str(&mut v, c);
    string_of(&v)
}

/// The job after its final report: progress full, the report lines logged,
/// completed when nothing failed and failed otherwise, with `message`.
pub open spec fn ended(
    v: JobView,
    lines: Seq<Seq<char>>,
    ok: bool,
    message: Seq<char>,
) -> JobView {
    JobView {
        progress: 100,
        output: v.output + lines,
        status: if ok {
            JobStatus::Completed
        } else {
            JobStatus::Failed
        },
        message,
        ..v
    }
}

pub open spec fn when(c: bool, line: Seq<char>) -> Seq<Seq<char>> {
    if c {
        seq![line]
    } else {
        Seq::<Seq<char>>::empty()
    }
}

fn log_all(job: &mut Job, lines: Vec<String>)
    ensures
        final(job)@ == (JobView { output: old(job)@.output + string_views(lines@), ..old(job)@ }),
{
    let mut i: usize = 0;
    let ghost start = job@;
    assert(string_views(lines@).take(0) =~= Seq::<Seq<char>>::empty());
    assert(start.output + Seq::<Seq<char>>::empty() =~= start.output);
    while i < lines.len()
        invariant
            i <= lines.len(),
            job@ == (JobView { output: start.output + string_views(lines@).take(i as int), ..start }),
        decreases lines.len() - i,
    {
        let line = lines[i].clone();
        job.log(line);
        assert(start.output + string_views(lines@).take(i + 1) =~= (start.output + string_views(
            lines@,
        ).take(i as int)).push(lines@[i as int]@));
        i += 1;
    }
    assert(string_views(lines@).take(lines.len() as int) =~= string_views(lines@));
}

pub open spec fn download_report(success: u32, skipped: u32, failed: u32) -> Seq<Seq<char>> {
    seq![
        rule_line(),
        "Summary: "@ + num(success) + " success, "@ + num(skipped) + " skipped, "@ + num(failed)
            + " failed"@,
    ]
}

pub open spec fn download_message(success: u32, skipped: u32, failed: u32) -> Seq<char> {
    if failed == 0 {
        "Download completed: "@ + num(success) + " files ("@ + num(skipped) + " skipped)"@
    } else {
        "Download finished with "@ + num(failed) + " failures"@
    }
}

/// Ends a download job with its counts.
pub fn finish_download(job: &mut Job, success: u32, skipped: u32, failed: u32)
    ensures
        final(job)@ == ended(
            old(job)@,
            download_report(success, skipped, failed),
            failed == 0,
            download_message(success, skipped, failed),
        ),
{
    let mut lines: Vec<String> = Vec::new();
    lines.push(rule());
    let mut v: Vec<char> = Vec::new();
    extend_str(&mut v, "Summary: ");
    push_decimal(&mut v, success as u64);
    extend_str(&mut v, " success, ");
    push_decimal(&mut v, skipped as u64);
    extend_str(&mut v, " skipped, ");
    push_decimal(&mut v, failed as u64);
    extend_str(&mut v, " failed");
    lines.push(string_of(&v));
    assert(string_views(lines@) =~= download_report(success, skipped, failed));
    log_all(job, lines);
    let message = if failed == 0 {
        text2("Download completed: ", success, " files (", skipped, " skipped)")
    } else {
        text1("Download finished with ", failed, " failures")
    };
    job.finish(failed == 0, message);
}

pub open spec fn merge_report(success: u32, failed: u32, output: Seq<char>) -> Seq<Seq<char>> {
    seq![rule_line(), "=== Merge Summary ==="@, "Successful: "@ + num(success) + ""@] + when(
        failed > 0,
        "Failed: "@ + num(failed) + ""@,
    ) + seq!["Output: "@ + output]
}

pub open spec fn merge_message(success: u32, failed: u32) -> Seq<char> {
    if failed == 0 {
        "Merged files for "@ + num(success) + " IP(s)"@
    } else {
        "Completed with "@ + num(failed) + " failure(s)"@
    }
}

/// Ends a merge job with its counts and the output directory as shown.
pub fn finish_merge(job: &mut Job, success: u32, failed: u32, output: &str)
    ensures
        final(job)@ == ended(
            old(job)@,
            merge_report(success, failed, output@),
            failed == 0,
            merge_message(success, failed),
        ),
{
    let mut lines: Vec<String> = Vec::new();
    lines.push(rule());
    lines.push("=== Merge Summary ===".to_owned());
    lines.push(text1("Successful: ", success, ""));
    if failed > 0 {
        lines.push(text1("Failed: ", failed, ""));
    }
    let mut o: Vec<char> = Vec::new();
    extend_str(&mut o, "Output: ");
    extend_str(&mut o, output);
    lines.push(string_of(&o));
    assert(string_views(lines@) =~= merge_report(success, failed, output@));
    log_all(job, lines);
    let message = if failed == 0 {
        text1("Merged files for ", success, " IP(s)")
    } else {
        text1("Completed with ", failed, " failure(s)")
    };
    job.finish(failed == 0, message);
}

pub open spec fn filter_report(s: FilterStats, delete_empty: bool) -> Seq<Seq<char>> {
    seq![
        rule_line(),
        "=== Filtering Summary ==="@,
        "Total processed: "@ + num(s.processed) + ""@,
        "Files with packets: "@ + num(s.with_packets) + ""@,
        "Empty files: "@ + num(s.empty) + ""@,
    ] + when(delete_empty, "Empty files deleted: "@ + num(s.deleted) + ""@) + when(
        s.failed > 0,
        "Failed: "@ + num(s.failed) + ""@,
    )
}

pub open spec fn filter_message(s: FilterStats) -> Seq<char> {
    if s.failed == 0 {
        "Filtered "@ + num(s.processed) + " files ("@ + num(s.with_packets) + " with packets)"@
    } else {
        "Completed with "@ + num(s.failed) + " failures"@
    }
}

/// Ends a filter job with its tally.
pub fn finish_filter(job: &mut Job, stats: &FilterStats, delete_empty: bool)
    ensures
        final(job)@ == ended(
            old(job)@,
            filter_report(*stats, delete_empty),
            stats.failed == 0,
            filter_message(*stats),
        ),
{
    let mut lines: Vec<String> = Vec::new();
    lines.push(rule());
    lines.push("=== Filtering Summary ===".to_owned());
    lines.push(text1("Total processed: ", stats.processed, ""));
    lines.push(text1("Files with packets: ", stats.with_packets, ""));
    lines.push(text1("Empty files: ", stats.empty, ""));
    if delete_empty {
        lines.push(text1("Empty files deleted: ", stats.deleted, ""));
    }
    if stats.failed > 0 {
        lines.push(text1("Failed: ", stats.failed, ""));
    }
    assert(string_views(lines@) =~= filter_report(*stats, delete_empty));
    log_all(job, lines);
    let message = if stats.failed == 0 {
        text2("Filtered ", stats.processed, " files (", stats.with_packets, " with packets)")
    } else {
        text1("Completed with ", stats.failed, " failures")
    };
    job.finish(stats.failed == 0, message);
}

pub open spec fn convert_report(total: u32, success: u32, failed: u32) -> Seq<Seq<char>> {
    seq![
        rule_line(),
        "=== Conversion Summary ==="@,
        "Total files: "@ + num(total) + ""@,
        "Successful: "@ + num(success) + ""@,
    ] + when(failed > 0, "Failed: "@ + num(failed) + ""@)
}

pub open spec fn convert_message(success: u32, failed: u32) -> Seq<char> {
    if failed == 0 {
        "Converted "@ + num(success) + " file(s) successfully"@
    } else {
        "Completed with "@ + num(failed) + " failure(s)"@
    }
}

/// Ends a conversion job with its counts.
pub fn finish_convert(job: &mut Job, total: u32, success: u32, failed: u32)
    ensures
        final(job)@ == ended(
            old(job)@,
            convert_report(total, success, failed),
            failed == 0,
            convert_message(success, failed),
        ),
{
    let mut lines: Vec<String> = Vec::new();
    lines.push(rule());
    lines.push("=== Conversion Summary ===".to_owned());
    lines.push(text1("Total files: ", total, ""));
    lines.push(text1("Successful: ", success, ""));
    if failed > 0 {
        lines.push(text1("Failed: ", failed, ""));
    }
    assert(string_views(lines@) =~= convert_report(total, success, failed));
    log_all(job, lines);
    let message = if failed == 0 {
        text1("Converted ", success, " file(s) successfully")
    } else {
        text1("Completed with ", failed, " failure(s)")
    };
    job.finish(failed == 0, message);
}

/// The log line of one filtered file: its packet count, its size when it is
/// kept, and whether an empty copy was deleted.
pub open spec fn filter_result_spec(packets: u64, size: u64, delete_empty: bool, deleted: bool) -> Seq<
    char,
> {
    if packets == 0 {
        if delete_empty {
            if deleted {
                "  → 0 packets - DELETED"@
            } else {
                "  → 0 packets - DELETE FAILED"@
            }
        } else {
            "  → 0 packets, "@ + dec_digits(size as nat) + " bytes - KEPT"@
        }
    } else {
        "  → "@ + dec_digits(packets as nat) + " packets, "@ + dec_digits(size as nat)
            + " bytes - SAVED"@
    }
}

pub fn filter_result_line(packets: u64, size: u64, delete_empty: bool, deleted: bool) -> (r: String)
    ensures
        r@ == filter_result_spec(packets, size, delete_empty, deleted),
{
    if packets == 0 {
        if delete_empty {
            if deleted {
                "  → 0 packets - DELETED".to_owned()
            } else {
                "  → 0 packets - DELETE FAILED".to_owned()
            }
        } else {
            let mut v: Vec<char> = Vec::new();
            extend_str(&mut v, "  → 0 packets, ");
            push_decimal(&mut v, size);
            extend_str(&mut v, " bytes - KEPT");
            string_of(&v)
        }
    } else {
        let mut v: Vec<char> = Vec::new();
        extend_str(&mut v, "  → ");
        push_decimal(&mut v, packets);
        extend_str(&mut v, " packets, ");
        push_decimal(&mut v, size);
        extend_str(&mut v, " bytes - SAVED");
        string_of(&v)
    }
}

} // verus!
