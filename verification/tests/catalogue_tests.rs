use viralwatch::catalogue::CatalogueError;
use viralwatch::catalogue::ClientError;
use viralwatch::catalogue::ChannelListResponse;
use viralwatch::catalogue::ChannelResource;
use viralwatch::catalogue::ChannelSnippet;
use viralwatch::catalogue::ChannelStatistics;
use viralwatch::catalogue::ItemRecord;
use viralwatch::catalogue::PlaylistCollector;
use viralwatch::catalogue::PlaylistEntry;
use viralwatch::catalogue::RemoteVideo;
use viralwatch::catalogue::StoredItem;
use viralwatch::catalogue::Thumbnail;
use viralwatch::catalogue::Thumbnails;
use viralwatch::catalogue::VideoContentDetails;
use viralwatch::catalogue::VideoStatistics;
use viralwatch::catalogue::channel_counters;
use viralwatch::catalogue::extract_channel_identifier;
use viralwatch::catalogue::first_channel;
use viralwatch::catalogue::is_handle;
use viralwatch::catalogue::is_short_duration;
use viralwatch::catalogue::join_ids;
use viralwatch::catalogue::parse_count;
use viralwatch::catalogue::parse_date_range;
use viralwatch::catalogue::prepare_item;
use viralwatch::catalogue::upsert_item;
use viralwatch::download::DownloadStatus;

fn thumbs(high: Option<&str>, medium: Option<&str>, default: Option<&str>) -> Thumbnails {
    let t = |u: Option<&str>| u.map(|u| Thumbnail { url: u.to_string() });
    Thumbnails { default: t(default), medium: t(medium), high: t(high) }
}

#[test]
fn best_thumbnail_prefers_high_then_medium_then_default() {
    assert_eq!(thumbs(Some("h"), Some("m"), Some("d")).get_best_url(), "h");
    assert_eq!(thumbs(None, Some("m"), Some("d")).get_best_url(), "m");
    assert_eq!(thumbs(None, None, Some("d")).get_best_url(), "d");
    assert_eq!(thumbs(None, None, None).get_best_url(), "");
}

#[test]
fn counter_strings_parse_or_count_as_zero() {
    assert_eq!(parse_count(&Some("12345".to_string())), 12345);
    assert_eq!(parse_count(&Some("0".to_string())), 0);
    assert_eq!(parse_count(&Some("".to_string())), 0);
    assert_eq!(parse_count(&Some("12a".to_string())), 0);
    assert_eq!(parse_count(&None), 0);
    // Larger than 64 bits: the parse fails, so the counter is zero.
    assert_eq!(parse_count(&Some("99999999999999999999".to_string())), 0);
}

#[test]
fn channel_counters_come_in_order() {
    let stats = ChannelStatistics {
        view_count: Some("300".to_string()),
        subscriber_count: Some("100".to_string()),
        video_count: None,
    };
    assert_eq!(channel_counters(&stats), (100, 300, 0));
}

#[test]
fn first_channel_or_not_found() {
    let resource = ChannelResource {
        id: "UCabc".to_string(),
        snippet: ChannelSnippet {
            title: "A Channel".to_string(),
            description: "".to_string(),
            thumbnails: thumbs(None, None, None),
        },
        statistics: None,
        content_details: None,
    };
    let ok = first_channel(ChannelListResponse { items: Some(vec![resource]) }).unwrap();
    assert_eq!(ok.id, "UCabc");
    assert!(matches!(
        first_channel(ChannelListResponse { items: Some(vec![]) }),
        Err(CatalogueError::ChannelNotFound)
    ));
    assert!(matches!(
        first_channel(ChannelListResponse { items: None }),
        Err(CatalogueError::ChannelNotFound)
    ));
}

#[test]
fn handles_start_with_an_at_sign() {
    assert!(is_handle("@someone"));
    assert!(!is_handle("UCabc"));
    assert!(!is_handle(""));
}

#[test]
fn shorts_last_at_most_a_minute() {
    assert!(is_short_duration(&Some("PT59S".to_string())));
    assert!(is_short_duration(&Some("PT1M".to_string())));
    assert!(!is_short_duration(&Some("PT1M1S".to_string())));
    // No duration reads as zero seconds.
    assert!(is_short_duration(&None));
}

#[test]
fn identifiers_come_out_of_addresses() {
    assert_eq!(
        extract_channel_identifier("https://www.youtube.com/channel/UCxyz123/videos"),
        "UCxyz123"
    );
    assert_eq!(
        extract_channel_identifier("https://www.youtube.com/@handle?si=42"),
        "@handle"
    );
    assert_eq!(
        extract_channel_identifier("https://youtube.com/c/@oldstyle/featured"),
        "@oldstyle"
    );
    assert_eq!(extract_channel_identifier("@plainhandle"), "@plainhandle");
    assert_eq!(extract_channel_identifier("  UCabc  "), "UCabc");
    assert_eq!(
        extract_channel_identifier("https://www.youtube.com/watch?v=id"),
        "https://www.youtube.com/watch?v=id"
    );
}

#[test]
fn date_ranges_name_their_cutoffs() {
    let now: i64 = 100 * 86400;
    assert_eq!(parse_date_range(&Some("all".to_string()), now), None);
    assert_eq!(
        parse_date_range(&Some("now-30days".to_string()), now),
        Some(now - 30 * 86400)
    );
    assert_eq!(
        parse_date_range(&Some("now-2months".to_string()), now),
        Some(now - 60 * 86400)
    );
    assert_eq!(
        parse_date_range(&Some("now-1year".to_string()), now),
        Some(now - 365 * 86400)
    );
    // Unrecognized parts and ranges default to a week.
    assert_eq!(
        parse_date_range(&Some("now-sometime".to_string()), now),
        Some(now - 7 * 86400)
    );
    assert_eq!(parse_date_range(&Some("weird".to_string()), now), Some(now - 7 * 86400));
    assert_eq!(parse_date_range(&None, now), Some(now - 7 * 86400));
}

fn entry(id: &str, at: Option<i64>) -> PlaylistEntry {
    PlaylistEntry { video_id: id.to_string(), published_at: at }
}

#[test]
fn paging_stops_at_the_cutoff() {
    let mut c = PlaylistCollector::new();
    assert!(c.wants_more());
    c.absorb_page(
        &vec![entry("a", Some(500)), entry("b", Some(400)), entry("c", Some(90))],
        true,
        Some(100),
    );
    // The entry older than the cutoff stops the walk and ends paging.
    assert_eq!(c.ids, vec!["a", "b"]);
    assert!(!c.wants_more());
}

#[test]
fn paging_continues_while_pages_are_full_and_named() {
    let mut c = PlaylistCollector::new();
    c.absorb_page(&vec![entry("a", Some(500))], true, None);
    assert!(c.wants_more());
    // A page without a successor ends the listing.
    c.absorb_page(&vec![entry("b", Some(400))], false, None);
    assert_eq!(c.ids, vec!["a", "b"]);
    assert!(!c.wants_more());
}

#[test]
fn an_empty_page_ends_the_listing() {
    let mut c = PlaylistCollector::new();
    c.absorb_page(&vec![], true, None);
    assert!(!c.wants_more());
}

#[test]
fn the_safety_cap_stops_paging_at_five_hundred() {
    let mut c = PlaylistCollector::new();
    for page in 0..10 {
        let entries: Vec<PlaylistEntry> =
            (0..50).map(|k| entry(&format!("v{}-{}", page, k), None)).collect();
        c.absorb_page(&entries, true, None);
    }
    assert_eq!(c.ids.len(), 500);
    assert!(!c.wants_more());
}

#[test]
fn entries_without_publish_times_pass_the_cutoff() {
    let mut c = PlaylistCollector::new();
    c.absorb_page(&vec![entry("a", None), entry("b", Some(50))], true, Some(100));
    assert_eq!(c.ids, vec!["a"]);
}

fn remote(id: &str, views: Option<&str>, likes: Option<&str>, duration: Option<&str>) -> RemoteVideo {
    RemoteVideo {
        id: id.to_string(),
        title: format!("title {}", id),
        channel_id: "UCx".to_string(),
        published_at: 1000,
        thumbnails: thumbs(Some("h"), None, None),
        statistics: Some(VideoStatistics {
            view_count: views.map(|s| s.to_string()),
            like_count: likes.map(|s| s.to_string()),
            comment_count: None,
        }),
        content_details: duration.map(|d| VideoContentDetails { duration: d.to_string() }),
    }
}

#[test]
fn prepared_items_carry_derived_fields() {
    let r = prepare_item(remote("abc", Some("42"), Some("7"), Some("PT45S")));
    assert_eq!(r.id, "abc");
    assert_eq!(r.url, "https://www.youtube.com/watch?v=abc");
    assert_eq!(r.thumbnail, "h");
    assert_eq!(r.view_count, 42);
    assert_eq!(r.like_count, Some(7));
    assert_eq!(r.comment_count, None);
    assert!(r.is_short);
    let long = prepare_item(remote("xyz", None, None, Some("PT2M")));
    assert_eq!(long.view_count, 0);
    assert_eq!(long.like_count, None);
    assert!(!long.is_short);
}

fn stored(r: ItemRecord) -> StoredItem {
    let mut items: Vec<StoredItem> = Vec::new();
    upsert_item(&mut items, r);
    items.into_iter().next().unwrap()
}

#[test]
fn upsert_inserts_fresh_rows_idle() {
    let s = stored(prepare_item(remote("abc", Some("5"), None, None)));
    assert_eq!(s.item.id, "abc");
    assert!(!s.is_favorite);
    assert_eq!(s.download.status, DownloadStatus::Idle);
    assert!(!s.download.is_downloaded);
}

#[test]
fn upsert_overwrites_only_title_and_counters() {
    let mut items = vec![stored(prepare_item(remote("abc", Some("5"), None, None)))];
    items[0].is_favorite = true;
    items[0].download.status = DownloadStatus::Completed;
    items[0].download.local_path = Some("/tmp/abc.mp4".to_string());
    let mut newer = prepare_item(remote("abc", Some("99"), Some("3"), None));
    newer.title = "renamed".to_string();
    newer.published_at = 9999;
    upsert_item(&mut items, newer);
    assert_eq!(items.len(), 1);
    assert_eq!(items[0].item.title, "renamed");
    assert_eq!(items[0].item.view_count, 99);
    assert_eq!(items[0].item.like_count, Some(3));
    // Identity and download fields are untouched.
    assert_eq!(items[0].item.published_at, 1000);
    assert!(items[0].is_favorite);
    assert_eq!(items[0].download.status, DownloadStatus::Completed);
    assert_eq!(items[0].download.local_path.as_deref(), Some("/tmp/abc.mp4"));
}

#[test]
fn upsert_appends_unseen_ids() {
    let mut items = vec![stored(prepare_item(remote("abc", Some("5"), None, None)))];
    upsert_item(&mut items, prepare_item(remote("def", Some("6"), None, None)));
    assert_eq!(items.len(), 2);
    assert_eq!(items[1].item.id, "def");
}

#[test]
fn batch_ids_join_with_commas() {
    assert_eq!(join_ids(&vec![]), "");
    assert_eq!(join_ids(&vec!["a".to_string()]), "a");
    assert_eq!(join_ids(&vec!["a".to_string(), "b".to_string(), "c".to_string()]), "a,b,c");
}

#[test]
fn client_errors_feed_the_breaker() {
    let forbidden = ClientError::RemoteError { status: 403, body: "".to_string() };
    assert!(forbidden.is_quota_related());
    let quota = ClientError::RemoteError { status: 400, body: "quotaExceeded".to_string() };
    assert!(quota.is_quota_related());
    let plain = ClientError::RemoteError { status: 500, body: "oops".to_string() };
    assert!(!plain.is_quota_related());
    let decode = ClientError::DecodeError { detail: "bad json".to_string() };
    assert!(!decode.is_quota_related());
}
