use viralwatch::download::DownloadOutcome;
use viralwatch::download::DownloadStatus;
use viralwatch::download::ItemDownloadState;
use viralwatch::download::JobTable;
use viralwatch::download::build_output_template;
use viralwatch::download::cookie_probe_ok;
use viralwatch::download::counts_cookie_line;
use viralwatch::download::decide_outcome;
use viralwatch::download::default_download_status;
use viralwatch::download::downloader_args;
use viralwatch::download::normalized_limit;
use viralwatch::download::resolve_group_dir;

fn downloaded_item() -> ItemDownloadState {
    ItemDownloadState {
        status: DownloadStatus::Completed,
        error: None,
        local_path: Some("/tmp/a.mp4".to_string()),
        is_downloaded: true,
        downloaded_at: Some(777),
    }
}

#[test]
fn history_clear_resets_status_but_keeps_what_was_downloaded() {
    let mut s = downloaded_item();
    s.status = DownloadStatus::Error;
    s.error = Some("boom".to_string());
    let cleared = s.clear_history();
    assert_eq!(cleared.status, DownloadStatus::Idle);
    assert!(cleared.error.is_none());
    assert_eq!(cleared.local_path.as_deref(), Some("/tmp/a.mp4"));
    assert!(cleared.is_downloaded);
    assert_eq!(cleared.downloaded_at, Some(777));
}

#[test]
fn history_clear_leaves_active_downloads_alone() {
    let mut s = downloaded_item();
    s.status = DownloadStatus::Downloading;
    let cleared = s.clear_history();
    assert_eq!(cleared.status, DownloadStatus::Downloading);
}

#[test]
fn transitions_touch_only_their_fields() {
    let s = downloaded_item().mark_downloading();
    assert_eq!(s.status, DownloadStatus::Downloading);
    assert!(s.error.is_none());
    assert_eq!(s.local_path.as_deref(), Some("/tmp/a.mp4"));

    let done = s.mark_completed("/tmp/b.mp4".to_string(), 900);
    assert_eq!(done.status, DownloadStatus::Completed);
    assert_eq!(done.local_path.as_deref(), Some("/tmp/b.mp4"));
    assert_eq!(done.downloaded_at, Some(900));
    assert!(done.is_downloaded);

    let failed = done.mark_failed("no disk".to_string());
    assert_eq!(failed.status, DownloadStatus::Error);
    assert_eq!(failed.error.as_deref(), Some("no disk"));
    assert_eq!(failed.downloaded_at, Some(900));
}

#[test]
fn outcome_success_prefers_captured_then_fallback_then_placeholder() {
    match decide_outcome(true, false, Some("cap".to_string()), Some("fb".to_string()), &vec![]) {
        DownloadOutcome::Success { path } => assert_eq!(path, "cap"),
        _ => panic!("expected success"),
    }
    match decide_outcome(true, false, None, Some("fb".to_string()), &vec![]) {
        DownloadOutcome::Success { path } => assert_eq!(path, "fb"),
        _ => panic!("expected success"),
    }
    match decide_outcome(true, false, None, None, &vec![]) {
        DownloadOutcome::Success { path } => assert_eq!(path, "Unknown Path"),
        _ => panic!("expected success"),
    }
}

#[test]
fn outcome_failure_messages() {
    match decide_outcome(false, false, None, None, &vec![]) {
        DownloadOutcome::Failure { message } => {
            assert_eq!(message, "Download cancelled or failed unexpectedly")
        },
        _ => panic!("expected failure"),
    }
    match decide_outcome(true, true, None, None, &vec![]) {
        DownloadOutcome::Failure { message } => assert_eq!(message, "Unknown error"),
        _ => panic!("expected failure"),
    }
    let diag: Vec<char> = "ERROR: something".chars().collect();
    match decide_outcome(false, true, None, None, &diag) {
        DownloadOutcome::Failure { message } => assert_eq!(message, "ERROR: something"),
        _ => panic!("expected failure"),
    }
}

#[test]
fn failure_diagnostics_are_clipped_to_two_hundred() {
    let diag: Vec<char> = std::iter::repeat('e').take(500).collect();
    match decide_outcome(false, false, None, None, &diag) {
        DownloadOutcome::Failure { message } => assert_eq!(message.chars().count(), 200),
        _ => panic!("expected failure"),
    }
}

#[test]
fn job_table_tracks_inserts_replacements_and_removals() {
    let mut t = JobTable::new();
    assert_eq!(t.get(&"a".to_string()), None);
    t.insert("a".to_string(), 11);
    t.insert("b".to_string(), 22);
    assert_eq!(t.get(&"a".to_string()), Some(11));
    assert_eq!(t.get(&"b".to_string()), Some(22));
    t.insert("a".to_string(), 33);
    assert_eq!(t.get(&"a".to_string()), Some(33));
    t.remove(&"a".to_string());
    assert_eq!(t.get(&"a".to_string()), None);
    assert_eq!(t.get(&"b".to_string()), Some(22));
}

#[test]
fn output_template_has_the_expected_shape() {
    let t = build_output_template("/base", "group", "channel", '/');
    assert_eq!(t, "/base/group/channel/%(title)s [%(id)s].%(ext)s");
}

#[test]
fn group_directory_falls_back_for_ungrouped_channels() {
    assert_eq!(resolve_group_dir(&None), "未分组");
    assert_eq!(resolve_group_dir(&Some("My/Group".to_string())), "MyGroup");
}

#[test]
fn downloader_args_fixed_tail() {
    let args = downloader_args(
        &"/o/t".to_string(),
        &"https://www.youtube.com/watch?v=abc".to_string(),
        &None,
        &None,
        false,
    );
    assert_eq!(
        args,
        vec![
            "-f",
            "bestvideo[ext=mp4][vcodec^=avc]+bestaudio[ext=m4a]/best[ext=mp4]/best",
            "--recode-video",
            "mp4",
            "-o",
            "/o/t",
            "--no-playlist",
            "--newline",
            "--progress",
            "--progress-template",
            "%(progress)j",
            "https://www.youtube.com/watch?v=abc",
            "--rm-cache-dir",
        ]
    );
}

#[test]
fn downloader_args_with_proxy_and_browser_cookies() {
    let args = downloader_args(
        &"/o/t".to_string(),
        &"u".to_string(),
        &Some("socks5://localhost:9".to_string()),
        &Some("browser:firefox".to_string()),
        false,
    );
    assert_eq!(&args[0..4], &[
        "--proxy".to_string(),
        "socks5://localhost:9".to_string(),
        "--cookies-from-browser".to_string(),
        "firefox".to_string(),
    ]);
}

#[test]
fn downloader_args_cookie_file_needs_to_exist() {
    let with_file = downloader_args(
        &"/o/t".to_string(),
        &"u".to_string(),
        &None,
        &Some("/tmp/c.txt".to_string()),
        true,
    );
    assert_eq!(&with_file[0..2], &["--cookies".to_string(), "/tmp/c.txt".to_string()]);
    let missing = downloader_args(
        &"/o/t".to_string(),
        &"u".to_string(),
        &None,
        &Some("/tmp/c.txt".to_string()),
        false,
    );
    assert_eq!(missing[0], "-f");
    let none_word = downloader_args(
        &"/o/t".to_string(),
        &"u".to_string(),
        &None,
        &Some("none".to_string()),
        true,
    );
    assert_eq!(none_word[0], "-f");
}

#[test]
fn limits_are_at_least_one_permit() {
    assert_eq!(normalized_limit(-5), 1);
    assert_eq!(normalized_limit(0), 1);
    assert_eq!(normalized_limit(1), 1);
    assert_eq!(normalized_limit(8), 8);
}

#[test]
fn cookie_probe_judgement() {
    assert!(cookie_probe_ok(true, "{\"id\": \"x\"}", ""));
    assert!(!cookie_probe_ok(false, "", ""));
    assert!(!cookie_probe_ok(true, "Sign in to confirm you are human", ""));
    assert!(!cookie_probe_ok(true, "", "suspected bot traffic"));
}

#[test]
fn cookie_lines_are_filtered() {
    let good = ".youtube.com\tTRUE\t/\tTRUE\t0\tSID\tsecret";
    assert!(counts_cookie_line(good));
    assert!(counts_cookie_line(".google.com\tTRUE\t/\tTRUE\t0\tSID\tv"));
    // Comments, blanks, short rows and foreign domains are skipped.
    assert!(!counts_cookie_line("# Netscape HTTP Cookie File"));
    assert!(!counts_cookie_line("   "));
    assert!(!counts_cookie_line(".youtube.com\tTRUE\t/"));
    assert!(!counts_cookie_line(".example.com\tTRUE\t/\tTRUE\t0\tSID\tv"));
}

#[test]
fn fresh_rows_start_idle() {
    assert_eq!(default_download_status(), "idle");
}
