use dpetoolbox::outcomes::{
    cli_convert_error, convert_line, convert_ok, convert_outcome, merge_line, merge_ok, merge_outcome, ConvertOutcome,
    MergeOutcome, RunTally,
};

#[test]
fn tally_counts_successes_and_failures() {
    let mut t = RunTally::new();
    t.record(true);
    t.record(false);
    t.record(true);
    assert_eq!((t.success, t.failed), (2, 1));
}

#[test]
fn merge_runs_are_judged_and_logged() {
    let ok = merge_outcome(true, true, 1234, "");
    assert!(merge_ok(&ok));
    assert_eq!(merge_line("10.0.0.1", &ok), "  → 10.0.0.1_merged.pcap (1234 bytes) - OK");
    let bad = merge_outcome(false, true, 0, "mergecap: bad file\nmore");
    assert!(!merge_ok(&bad));
    assert_eq!(merge_line("10.0.0.1", &bad), "  → ERROR: mergecap: bad file");
    let silent = merge_outcome(true, false, 0, "");
    assert_eq!(merge_line("1.2.3.4", &silent), "  → ERROR: Unknown error");
    let not_run = MergeOutcome::NotRun("No such file".to_string());
    assert!(!merge_ok(&not_run));
    assert_eq!(merge_line("1.2.3.4", &not_run), "  → ERROR: No such file");
}

#[test]
fn conversions_are_judged_and_logged() {
    let ok = convert_outcome(true, 99, "", "");
    assert!(convert_ok(&ok));
    assert_eq!(convert_line(&ok), "  → 99 bytes - OK");
    let empty = convert_outcome(true, 0, "", "");
    assert!(!convert_ok(&empty));
    assert_eq!(convert_line(&empty), "  → ERROR: Output file is empty");
    let none = convert_outcome(false, 0, "", "step 1\nlast words");
    assert_eq!(convert_line(&none), "  → ERROR: last words");
    let err = convert_outcome(false, 0, "first\nsecond", "x");
    assert_eq!(convert_line(&err), "  → ERROR: first");
    assert_eq!(convert_line(&convert_outcome(false, 0, "", "")), "  → ERROR: No output file created");
    assert_eq!(convert_line(&ConvertOutcome::NotRun("denied".to_string())), "  → ERROR: denied");
}

#[test]
fn command_line_conversion_errors() {
    assert_eq!(cli_convert_error("  broken input \n", "x"), "broken input");
    assert_eq!(cli_convert_error("", "a\nb\n"), "b");
    assert_eq!(cli_convert_error("", ""), "No output file created");
}
