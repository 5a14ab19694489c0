use viralwatch::metrics::ChannelAggregates;
use viralwatch::metrics::Baseline;
use viralwatch::metrics::RankMetric;
use viralwatch::metrics::RankSource;
use viralwatch::metrics::compute_baseline;
use viralwatch::metrics::latest_publish_time;
use viralwatch::metrics::rank;
use viralwatch::metrics::recompute_aggregates;

fn item(views: i64, avg_milli: i64) -> RankSource {
    RankSource {
        views,
        like_count: None,
        comment_count: None,
        hours_since_publish: 0,
        channel_avg_milli: avg_milli,
        channel_std_dev_milli: 0,
    }
}

#[test]
fn baseline_mean_and_population_std_dev() {
    let b = compute_baseline(&vec![10, 20, 30]).unwrap();
    // Mean 20.000; population standard deviation sqrt(200/3) = 8.164...,
    // stored in thousandths and rounded down.
    assert_eq!(b.mean_milli, 20_000);
    assert_eq!(b.std_dev_milli, 8_164);
}

#[test]
fn baseline_over_no_items_is_none() {
    assert!(compute_baseline(&vec![]).is_none());
}

#[test]
fn empty_window_leaves_prior_aggregates_untouched() {
    let prior = ChannelAggregates {
        baseline: Baseline { mean_milli: 4_200, std_dev_milli: 17 },
        last_upload_at: Some(99),
    };
    let after = recompute_aggregates(&prior, &vec![], &vec![]);
    assert_eq!(after, prior);
}

#[test]
fn nonempty_window_replaces_baseline_and_last_upload() {
    let prior = ChannelAggregates {
        baseline: Baseline { mean_milli: 0, std_dev_milli: 0 },
        last_upload_at: None,
    };
    let after = recompute_aggregates(&prior, &vec![10, 20, 30], &vec![5, 900, 30]);
    assert_eq!(after.baseline.mean_milli, 20_000);
    assert_eq!(after.baseline.std_dev_milli, 8_164);
    assert_eq!(after.last_upload_at, Some(900));
}

#[test]
fn latest_publish_time_is_the_maximum() {
    assert_eq!(latest_publish_time(&vec![3, 9, 1]), Some(9));
    assert_eq!(latest_publish_time(&vec![]), None);
}

#[test]
fn zero_channel_average_flattens_ratio_and_keeps_order() {
    let items = vec![item(50, 0), item(10, 0), item(30, 0)];
    let ranked = rank(&items, RankMetric::ViralRatio, 10);
    let order: Vec<usize> = ranked.iter().map(|e| e.source_index).collect();
    assert_eq!(order, vec![0, 1, 2]);
    for e in &ranked {
        assert_eq!(e.ratio_milli, 0);
    }
}

#[test]
fn rank_by_views_descends_and_truncates() {
    let items = vec![item(10, 0), item(50, 0), item(30, 0), item(40, 0)];
    let ranked = rank(&items, RankMetric::ViewCount, 2);
    let order: Vec<usize> = ranked.iter().map(|e| e.source_index).collect();
    assert_eq!(order, vec![1, 3]);
}

#[test]
fn rank_ties_keep_input_order() {
    let items = vec![item(30, 0), item(50, 0), item(30, 0)];
    let ranked = rank(&items, RankMetric::ViewCount, 10);
    let order: Vec<usize> = ranked.iter().map(|e| e.source_index).collect();
    assert_eq!(order, vec![1, 0, 2]);
}

#[test]
fn score_formulas_are_exact() {
    let it = RankSource {
        views: 1000,
        like_count: Some(30),
        comment_count: Some(20),
        hours_since_publish: 8,
        channel_avg_milli: 400_000,  // channel mean 400 views
        channel_std_dev_milli: 200_000,  // standard deviation 200 views
    };
    let ranked = rank(&vec![it], RankMetric::ViewCount, 1);
    let e = &ranked[0];
    // 1000 views over 8 hours: 125 views per hour.
    assert_eq!(e.vph_milli, 125_000);
    // 1000 / 400 = 2.5 times the channel mean.
    assert_eq!(e.ratio_milli, 2_500);
    // (1000 - 400) / 200 = 3 standard deviations.
    assert_eq!(e.z_score_milli, 3_000);
    // (30 + 20) / 1000 = 0.05 engagements per view.
    assert_eq!(e.engagement_milli, 50);
}

#[test]
fn fallback_scores_are_zero_or_raw() {
    let it = RankSource {
        views: 77,
        like_count: None,
        comment_count: None,
        hours_since_publish: 0,
        channel_avg_milli: 0,
        channel_std_dev_milli: 0,
    };
    let ranked = rank(&vec![it], RankMetric::ViewCount, 1);
    let e = &ranked[0];
    // No age: views per hour falls back to raw views.
    assert_eq!(e.vph_milli, 77_000);
    assert_eq!(e.ratio_milli, 0);
    assert_eq!(e.z_score_milli, 0);
    assert_eq!(e.engagement_milli, 0);
}

#[test]
fn negative_deviation_gives_negative_z() {
    let it = RankSource {
        views: 100,
        like_count: None,
        comment_count: None,
        hours_since_publish: 1,
        channel_avg_milli: 400_000,
        channel_std_dev_milli: 200_000,
    };
    let ranked = rank(&vec![it], RankMetric::ZScore, 1);
    // (100 - 400) / 200 = -1.5 standard deviations.
    assert_eq!(ranked[0].z_score_milli, -1_500);
}
