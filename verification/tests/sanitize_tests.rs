use viralwatch::sanitize::sanitize_filename;

#[test]
fn unsafe_characters_are_removed() {
    let cleaned = sanitize_filename("My/Channel:\"Name\"?");
    for banned in ['<', '>', ':', '"', '/', '\\', '|', '?', '*'] {
        assert!(!cleaned.contains(banned));
    }
    assert_eq!(cleaned, "MyChannelName");
}

#[test]
fn all_dots_and_whitespace_yield_placeholder() {
    assert_eq!(sanitize_filename("   "), "downloaded_file");
    assert_eq!(sanitize_filename(""), "downloaded_file");
    assert_eq!(sanitize_filename("...."), "downloaded_file");
    assert_eq!(sanitize_filename("..."), "downloaded_file");
    assert_eq!(sanitize_filename(" .. "), "downloaded_file");
}

#[test]
fn ordinary_names_pass_through() {
    assert_eq!(sanitize_filename("Plain Name 42"), "Plain Name 42");
}

#[test]
fn dot_runs_collapse() {
    // Pairs of dots vanish, left to right; a lone survivor stays only in
    // the middle, since ends are trimmed.
    assert_eq!(sanitize_filename("a..b"), "ab");
    assert_eq!(sanitize_filename("a...b"), "a.b");
    assert_eq!(sanitize_filename("a....b"), "ab");
}

#[test]
fn ends_are_trimmed() {
    assert_eq!(sanitize_filename("  name  "), "name");
    assert_eq!(sanitize_filename(".name."), "name");
    assert_eq!(sanitize_filename(" .name. "), "name");
}

#[test]
fn control_characters_are_removed() {
    assert_eq!(sanitize_filename("a\u{0007}b\u{007f}c"), "abc");
}

#[test]
fn shell_characters_are_removed() {
    assert_eq!(sanitize_filename("pay$me`now"), "paymenow");
}

#[test]
fn non_ascii_names_survive() {
    assert_eq!(sanitize_filename("中文频道"), "中文频道");
}
