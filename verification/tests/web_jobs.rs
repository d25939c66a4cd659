use dpetoolbox::filter::FilterStats;
use dpetoolbox::html::{html_escape, job_card_html, jobs_html, status_text_str};
use dpetoolbox::jobs::{progress_percent, Job, JobStatus, JobStore};
use dpetoolbox::ping::{classify_ping, keep_pinging, ping_line, PingResult};
use dpetoolbox::tools::{find_capinfos, find_executable, find_mergecap, find_tshark};
use dpetoolbox::web::{
    download_dir, filter_result_line, finish_convert, finish_download, finish_filter, finish_merge,
    is_blank, output_or_input, rule, url_source, DownloadForm, FilterForm, TcppingForm, UrlSource,
};

fn job(id: &str, job_type: &str, status: JobStatus) -> Job {
    Job {
        id: id.to_string(),
        job_type: job_type.to_string(),
        status,
        progress: 0,
        message: "msg".to_string(),
        output: Vec::new(),
        created_at: "2024-01-02 03:04:05".to_string(),
    }
}

#[test]
fn new_jobs_are_pending_with_a_uuid() {
    let j = Job::new("merge");
    assert_eq!(j.job_type, "merge");
    assert_eq!(j.status, JobStatus::Pending);
    assert_eq!(j.progress, 0);
    assert_eq!(j.message, "Pending...");
    assert!(j.output.is_empty());
    assert_eq!(j.id.len(), 36);
    let c: Vec<char> = j.id.chars().collect();
    for (i, ch) in c.iter().enumerate() {
        if [8, 13, 18, 23].contains(&i) {
            assert_eq!(*ch, '-');
        } else {
            assert!(ch.is_ascii_hexdigit() && !ch.is_ascii_uppercase());
        }
    }
    assert_eq!(c[14], '4');
    assert!("89ab".contains(c[19]));
    assert_ne!(Job::new("merge").id, j.id);
}

#[test]
fn store_gives_back_created_jobs() {
    let mut store = JobStore::new();
    let a = store.create_job("download");
    let b = store.create_job("filter");
    assert_eq!(store.get_job(&a.id).unwrap().job_type, "download");
    assert_eq!(store.get_job(&b.id).unwrap().job_type, "filter");
    assert!(store.get_job("missing").is_none());
    let all = store.get_all_jobs();
    assert_eq!(all.len(), 2);
    assert_eq!(all[0].id, a.id);
    assert_eq!(all[1].id, b.id);
}

#[test]
fn updates_touch_only_their_job() {
    let mut store = JobStore::new();
    let a = store.create_job("merge");
    let b = store.create_job("tcpping");
    store.update_job(&a.id, |mut j| {
        j.start("Working".to_string());
        j.log("line".to_string());
        j
    });
    let a2 = store.get_job(&a.id).unwrap();
    assert_eq!(a2.status, JobStatus::Running);
    assert_eq!(a2.message, "Working");
    assert_eq!(a2.output, vec!["line".to_string()]);
    let b2 = store.get_job(&b.id).unwrap();
    assert_eq!(b2.status, JobStatus::Pending);
    assert!(b2.output.is_empty());
    store.update_job("missing", |mut j| {
        j.fail("x".to_string());
        j
    });
    assert_eq!(store.get_all_jobs().len(), 2);
}

#[test]
fn stopping_a_ping_job() {
    let mut j = job("p", "tcpping", JobStatus::Running);
    assert!(keep_pinging(Some(&j)));
    j.stop();
    assert_eq!(j.status, JobStatus::Completed);
    assert_eq!(j.message, "Stopped by user");
    assert!(!keep_pinging(Some(&j)));
    assert!(!keep_pinging(None));
}

#[test]
fn ping_log_keeps_fifty_lines() {
    let mut j = job("p", "tcpping", JobStatus::Running);
    for i in 0..60 {
        j.log_capped(format!("line {}", i));
        assert!(j.output.len() <= 50);
    }
    assert_eq!(j.output.len(), 50);
    assert_eq!(j.output[0], "line 10");
    assert_eq!(j.output[49], "line 59");
}

#[test]
fn ping_lines() {
    assert_eq!(classify_ping(true, 5000, 2000), PingResult::Connected);
    assert_eq!(classify_ping(false, 2000, 2000), PingResult::TimedOut);
    assert_eq!(classify_ping(false, 10, 2000), PingResult::Failed);
    assert_eq!(ping_line("12:00:01", PingResult::Connected, 23, 2000, ""), "[12:00:01] Success: Connected in 23 ms");
    assert_eq!(ping_line("12:00:02", PingResult::TimedOut, 2001, 2000, "e"), "[12:00:02] Timeout after 2000 ms");
    assert_eq!(ping_line("12:00:03", PingResult::Failed, 3, 2000, "refused"), "[12:00:03] Failed: refused");
}

#[test]
fn progress_in_percent() {
    assert_eq!(progress_percent(0, 3), 0);
    assert_eq!(progress_percent(1, 3), 33);
    assert_eq!(progress_percent(2, 3), 66);
    assert_eq!(progress_percent(3, 3), 100);
    let mut j = job("x", "merge", JobStatus::Running);
    j.set_progress(7, 8);
    assert_eq!(j.progress, 87);
}

#[test]
fn escaping() {
    assert_eq!(html_escape("<a href=\"x\">Tom & Jerry</a>"), "&lt;a href=&quot;x&quot;&gt;Tom &amp; Jerry&lt;/a&gt;");
    assert_eq!(html_escape("plain text"), "plain text");
    assert_eq!(html_escape("&amp;"), "&amp;amp;");
    let e = html_escape("<<>>\"\"");
    assert!(!e.contains('<') && !e.contains('>') && !e.contains('"'));
}

#[test]
fn cards() {
    let mut j = job("abc", "tcpping", JobStatus::Running);
    j.output.push("<b>".to_string());
    let html = job_card_html(&j);
    assert!(html.starts_with("<div class=\"job-card bg-white dark:bg-gray-800 rounded-lg shadow p-4 mb-3 border-l-4 border-blue-500\" id=\"job-abc\" hx-get=\"/partials/job/abc\" hx-trigger=\"every 1s\" hx-swap=\"outerHTML settle:0s\">"));
    assert!(html.contains("<div class=\"py-0.5\">&lt;b&gt;</div>"));
    assert!(html.contains("hx-post=\"/api/tcpping/abc/stop\""));
    assert!(html.contains(">Running</span>"));
    let done = job("d", "merge", JobStatus::Completed);
    let html = job_card_html(&done);
    assert!(!html.contains("hx-get"));
    assert!(!html.contains("job-output"));
    assert!(!html.contains("Stop"));
    assert!(html.contains("border-green-500"));
    assert!(html.contains("<div class=\"text-xs text-gray-500 dark:text-gray-400\">2024-01-02 03:04:05</div>"));
    assert_eq!(status_text_str(JobStatus::Failed), "Failed");
}

#[test]
fn job_list_newest_first() {
    assert_eq!(
        jobs_html(&Vec::new()),
        "<p class=\"text-gray-500 dark:text-gray-400 text-center py-4\">No jobs yet. Start a task from the menu above.</p>"
    );
    let a = job("first", "merge", JobStatus::Completed);
    let b = job("second", "filter", JobStatus::Failed);
    let html = jobs_html(&vec![a.clone(), b.clone()]);
    assert_eq!(html, format!("{}{}", job_card_html(&b), job_card_html(&a)));
}

#[test]
fn form_defaults() {
    let d = DownloadForm { urls: None, file_path: None, output: None, threads: None };
    assert_eq!(d.thread_count(), 4);
    let d = DownloadForm { urls: None, file_path: None, output: None, threads: Some(9) };
    assert_eq!(d.thread_count(), 9);
    let f = FilterForm { input: "i".into(), output: None, filter: "tcp".into(), delete_empty: Some("on".into()) };
    assert!(f.deletes_empty());
    let f = FilterForm { input: "i".into(), output: None, filter: "tcp".into(), delete_empty: Some("off".into()) };
    assert!(!f.deletes_empty());
    let t = TcppingForm { target: "h".into(), port: 443, timeout: None, interval: None };
    assert_eq!(t.timeout_ms(), 2000);
    assert_eq!(t.interval_secs(), 1);
    let t = TcppingForm { target: "h".into(), port: 443, timeout: Some(500), interval: Some(3) };
    assert_eq!(t.timeout_ms(), 500);
    assert_eq!(t.interval_secs(), 3);
}

#[test]
fn directories_and_sources() {
    assert!(is_blank("  \t"));
    assert!(!is_blank(" a "));
    assert_eq!(output_or_input(Some("out"), "in"), "out");
    assert_eq!(output_or_input(Some("   "), "in"), "in");
    assert_eq!(output_or_input(None, "in"), "in");
    assert!(matches!(url_source(Some("u"), Some("list.txt")), UrlSource::File(f) if f == "list.txt"));
    assert!(matches!(url_source(Some("u"), Some(" ")), UrlSource::Text(t) if t == "u"));
    assert!(matches!(url_source(None, None), UrlSource::Text(t) if t.is_empty()));
    assert_eq!(download_dir(Some("C:\\out"), Some("C:\\lists\\urls"), "C:\\exe"), "C:\\out");
    assert_eq!(download_dir(Some(""), Some("C:\\lists\\urls"), "C:\\exe"), "C:\\lists\\urls");
    assert_eq!(download_dir(None, None, "C:\\exe"), "C:\\exe");
}

#[test]
fn job_endings() {
    let mut j = job("d", "download", JobStatus::Running);
    finish_download(&mut j, 3, 1, 0);
    assert_eq!(j.status, JobStatus::Completed);
    assert_eq!(j.progress, 100);
    assert_eq!(j.message, "Download completed: 3 files (1 skipped)");
    assert_eq!(j.output, vec![rule(), "Summary: 3 success, 1 skipped, 0 failed".to_string()]);
    let mut j = job("d", "download", JobStatus::Running);
    finish_download(&mut j, 3, 0, 2);
    assert_eq!(j.status, JobStatus::Failed);
    assert_eq!(j.message, "Download finished with 2 failures");

    let mut m = job("m", "merge", JobStatus::Running);
    finish_merge(&mut m, 2, 1, "C:\\out");
    assert_eq!(m.status, JobStatus::Failed);
    assert_eq!(m.message, "Completed with 1 failure(s)");
    assert_eq!(
        m.output,
        vec![rule(), "=== Merge Summary ===".into(), "Successful: 2".into(), "Failed: 1".into(), "Output: C:\\out".into()]
    );
    let mut m = job("m", "merge", JobStatus::Running);
    finish_merge(&mut m, 2, 0, "o");
    assert_eq!(m.message, "Merged files for 2 IP(s)");
    assert_eq!(m.output.len(), 4);

    let mut stats = FilterStats::new();
    stats.record_output(5, false);
    stats.record_output(0, true);
    let mut f = job("f", "filter", JobStatus::Running);
    finish_filter(&mut f, &stats, true);
    assert_eq!(f.status, JobStatus::Completed);
    assert_eq!(f.message, "Filtered 2 files (1 with packets)");
    assert_eq!(
        f.output,
        vec![
            rule(),
            "=== Filtering Summary ===".into(),
            "Total processed: 2".into(),
            "Files with packets: 1".into(),
            "Empty files: 1".into(),
            "Empty files deleted: 1".into(),
        ]
    );

    let mut c = job("c", "convert", JobStatus::Running);
    finish_convert(&mut c, 3, 3, 0);
    assert_eq!(c.message, "Converted 3 file(s) successfully");
    assert_eq!(c.output, vec![rule(), "=== Conversion Summary ===".into(), "Total files: 3".into(), "Successful: 3".into()]);
    assert_eq!(rule().chars().count(), 40);
    assert!(rule().chars().all(|ch| ch == '─'));
}

#[test]
fn filter_result_lines() {
    assert_eq!(filter_result_line(0, 24, true, true), "  → 0 packets - DELETED");
    assert_eq!(filter_result_line(0, 24, true, false), "  → 0 packets - DELETE FAILED");
    assert_eq!(filter_result_line(0, 24, false, false), "  → 0 packets, 24 bytes - KEPT");
    assert_eq!(filter_result_line(7, 900, true, false), "  → 7 packets, 900 bytes - SAVED");
}

#[test]
fn executable_search_order() {
    let defaults = vec!["C:\\a.exe".to_string(), "C:\\b.exe".to_string()];
    let found = find_executable(true, "  C:\\bin\\tool.exe \r\nC:\\other.exe\r\n", &defaults, |p: &String| p == "C:\\bin\\tool.exe");
    assert_eq!(found, Some("C:\\bin\\tool.exe".to_string()));
    let found = find_executable(false, "C:\\bin\\tool.exe", &defaults, |p: &String| p != "C:\\bin\\tool.exe");
    assert_eq!(found, Some("C:\\a.exe".to_string()));
    let found = find_executable(true, "C:\\gone.exe\n", &defaults, |p: &String| p == "C:\\b.exe");
    assert_eq!(found, Some("C:\\b.exe".to_string()));
    assert_eq!(find_executable(true, "", &defaults, |_: &String| false), None);
    assert_eq!(
        find_mergecap(false, "", |p: &String| p.contains("(x86)")),
        Some("C:\\Program Files (x86)\\Wireshark\\mergecap.exe".to_string())
    );
    assert_eq!(find_tshark(false, "", |_: &String| true), Some("C:\\Program Files\\Wireshark\\tshark.exe".to_string()));
    assert_eq!(find_capinfos(true, "D:\\ws\\capinfos.exe", |_: &String| true), Some("D:\\ws\\capinfos.exe".to_string()));
}

#[test]
fn finished_jobs() {
    assert!(job("a", "merge", JobStatus::Completed).is_finished());
    assert!(job("a", "merge", JobStatus::Failed).is_finished());
    assert!(!job("a", "merge", JobStatus::Running).is_finished());
    assert!(!job("a", "merge", JobStatus::Pending).is_finished());
}

#[test]
fn new_job_time_has_timestamp_shape() {
    let j = Job::new("convert");
    let t: Vec<char> = j.created_at.chars().collect();
    let n = t.len();
    assert!(n >= 19);
    assert_eq!(t[n - 15], '-');
    assert_eq!(t[n - 12], '-');
    assert_eq!(t[n - 9], ' ');
    assert_eq!(t[n - 6], ':');
    assert_eq!(t[n - 3], ':');
    for i in [n - 14, n - 13, n - 11, n - 10, n - 8, n - 7, n - 5, n - 4, n - 2, n - 1] {
        assert!(t[i].is_ascii_digit());
    }
    let month: u32 = j.created_at[n - 14..n - 12].parse().unwrap();
    assert!((1..=12).contains(&month));
}

#[test]
fn job_card_markers_follow_the_status() {
    for status in [JobStatus::Pending, JobStatus::Running, JobStatus::Completed, JobStatus::Failed] {
        for kind in ["tcpping", "merge"] {
            let mut j = job("abc", kind, status);
            j.message = "a <b> & \"c\"".to_string();
            j.output = vec!["one".to_string(), "<two>".to_string()];
            let card = job_card_html(&j);
            assert!(card.contains("a &lt;b&gt; &amp; &quot;c&quot;"));
            assert!(card.contains("<div class=\"py-0.5\">one</div><div class=\"py-0.5\">&lt;two&gt;</div>"));
            let polls = status == JobStatus::Running || status == JobStatus::Pending;
            assert_eq!(card.contains("hx-trigger=\"every 1s\""), polls);
            let stops = kind == "tcpping" && status == JobStatus::Running;
            assert_eq!(card.contains("hx-post=\"/api/tcpping/abc/stop\""), stops);
        }
    }
}

#[test]
fn creating_a_job_files_one_more() {
    let mut store = JobStore::new();
    let a = store.create_job("merge");
    assert_eq!(store.get_all_jobs().len(), 1);
    let b = store.create_job("filter");
    assert_eq!(store.get_all_jobs().len(), 2);
    assert_eq!(store.get_job(&a.id).unwrap().job_type, "merge");
    assert_eq!(store.get_job(&b.id).unwrap().job_type, "filter");
}

#[test]
fn a_ping_log_keeps_its_newest_fifty_lines_in_order() {
    let mut j = job("p", "tcpping", JobStatus::Running);
    for k in 0..73 {
        j.log_capped(format!("line {}", k));
        assert!(j.output.len() <= 50);
    }
    let expected: Vec<String> = (23..73).map(|k| format!("line {}", k)).collect();
    assert_eq!(j.output, expected);
}
