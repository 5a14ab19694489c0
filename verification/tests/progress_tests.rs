use viralwatch::progress::LineEvent;
use viralwatch::progress::StderrLog;
use viralwatch::progress::classify_line;
use viralwatch::progress::throttle_allows;

#[test]
fn destination_line_captures_path() {
    match classify_line("[download] Destination: /tmp/out/video.mp4") {
        Some(LineEvent::Destination { path }) => assert_eq!(path, "/tmp/out/video.mp4"),
        _ => panic!("expected a destination event"),
    }
}

#[test]
fn destination_strips_partial_suffix() {
    match classify_line("[download] Destination: /tmp/out/video.mp4.part") {
        Some(LineEvent::Destination { path }) => assert_eq!(path, "/tmp/out/video.mp4"),
        _ => panic!("expected a destination event"),
    }
}

#[test]
fn merger_line_captures_quoted_path() {
    match classify_line("[Merger] Merging formats into \"/tmp/out/final.mp4\"") {
        Some(LineEvent::Merged { path }) => assert_eq!(path, "/tmp/out/final.mp4"),
        _ => panic!("expected a merge event"),
    }
}

#[test]
fn already_downloaded_line_captures_path() {
    match classify_line("[download] /tmp/out/a.mp4 has already been downloaded") {
        Some(LineEvent::AlreadyDownloaded { path }) => assert_eq!(path, "/tmp/out/a.mp4"),
        _ => panic!("expected an already-downloaded event"),
    }
}

#[test]
fn fixup_line_captures_quoted_path() {
    match classify_line("[FixupM4a] Correcting container of \"/tmp/out/b.m4a\"") {
        Some(LineEvent::Fixup { path }) => assert_eq!(path, "/tmp/out/b.m4a"),
        _ => panic!("expected a fixup event"),
    }
}

#[test]
fn progress_line_extracts_percentage_speed_and_eta() {
    match classify_line("[download]  45.2% of 10MiB at 1.2MiB/s ETA 00:07") {
        Some(LineEvent::Progress { pct_milli, speed, eta }) => {
            assert_eq!(pct_milli, 45_200);
            assert_eq!(speed, "1.2MiB/s");
            assert_eq!(eta, "00:07");
        },
        _ => panic!("expected a progress event"),
    }
}

#[test]
fn progress_without_speed_or_eta_yields_empty_tokens() {
    match classify_line("[download] 100% done") {
        Some(LineEvent::Progress { pct_milli, speed, eta }) => {
            assert_eq!(pct_milli, 100_000);
            assert_eq!(speed, "");
            assert_eq!(eta, "");
        },
        _ => panic!("expected a progress event"),
    }
}

#[test]
fn first_percent_wins_on_a_double_percent_line() {
    match classify_line("[download]  7.5% of it, later 99.9% elsewhere") {
        Some(LineEvent::Progress { pct_milli, .. }) => assert_eq!(pct_milli, 7_500),
        _ => panic!("expected a progress event"),
    }
}

#[test]
fn earlier_rules_beat_the_progress_rule() {
    // A destination line that also carries a percent sign matches only
    // the destination rule.
    match classify_line("[download] Destination: /tmp/50% off.mp4") {
        Some(LineEvent::Destination { path }) => assert_eq!(path, "/tmp/50% off.mp4"),
        _ => panic!("expected a destination event"),
    }
}

#[test]
fn unmatched_lines_emit_nothing() {
    assert!(classify_line("[info] nothing to see").is_none());
    assert!(classify_line("").is_none());
    // A percent sign without the download tag is not a progress line.
    assert!(classify_line("99% irrelevant").is_none());
    // A download tag without a parsable number emits nothing.
    assert!(classify_line("[download] stuck at x% mark").is_none());
}

#[test]
fn throttle_passes_paths_and_spaced_progress() {
    assert!(throttle_allows(0, 101, false));
    assert!(!throttle_allows(0, 100, false));
    assert!(throttle_allows(0, 5, true));
}

#[test]
fn stderr_log_collects_and_flags() {
    let mut log = StderrLog::new();
    log.note_line(&"WARNING: slow".chars().collect());
    assert!(!log.failure_flagged);
    log.note_line(&"   ".chars().collect());
    log.note_line(&"ERROR: broken pipe".chars().collect());
    assert!(log.failure_flagged);
    let text: String = log.buffer.iter().collect();
    assert_eq!(text, "WARNING: slow\nERROR: broken pipe\n");
}

#[test]
fn stderr_log_caps_near_a_thousand_characters() {
    let mut log = StderrLog::new();
    let long_line: Vec<char> = std::iter::repeat('x').take(600).collect();
    log.note_line(&long_line);
    log.note_line(&long_line);
    // The second line still fit (the buffer was under the cap when it
    // arrived); a third does not.
    log.note_line(&long_line);
    assert_eq!(log.buffer.len(), 2 * 601);
}
