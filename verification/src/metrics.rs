//! The metrics engine: channel baselines and per-item virality scores.
//!
//! All statistics use fixed-point arithmetic with three decimal places
//! (milli units): a mean of 20.000 views is stored as 20000.  The
//! baseline over a channel's recent view counts is the arithmetic mean
//! and the population standard deviation (dividing by N, not N-1) of
//! those counts.

use vstd::prelude::*;

verus! {

/// Largest view, like or comment count the engine accepts; keeps every
/// intermediate fixed-point product inside 64 or 128 bits.
pub const VIEW_COUNT_CAP: i64 = 1_000_000_000_000;

/// How many recent items a channel baseline may draw on.
pub const BASELINE_WINDOW: usize = 50;

/// Upper bound on one squared milli deviation from the mean.
const DEV_SQ_BOUND: i128 = 2_601_000_000_000_000_000_000_000_000_000_000;

/// The sum of a sequence of counts.
pub open spec fn sum_of(vs: Seq<i64>) -> int
    decreases vs.len(),
{
    if vs.len() == 0 {
        0
    } else {
        sum_of(vs.drop_last()) + vs.last()
    }
}

/// Every count lies between zero and the accepted cap.
pub open spec fn counts_ok(vs: Seq<i64>) -> bool {
    forall|j: int| 0 <= j < vs.len() ==> 0 <= #[trigger] vs[j] <= VIEW_COUNT_CAP
}

/// The mean of `vs` in milli units, rounded towards zero.
pub open spec fn mean_milli_of(vs: Seq<i64>) -> int
    recommends
        vs.len() > 0,
{
    1000 * sum_of(vs) / vs.len() as int
}

/// The sum of squared deviations of `vs` (in milli units) from `m`.
pub open spec fn dev_sq_sum(vs: Seq<i64>, m: int) -> int
    decreases vs.len(),
{
    if vs.len() == 0 {
        0
    } else {
        dev_sq_sum(vs.drop_last(), m) + (1000 * vs.last() - m) * (1000 * vs.last() - m)
    }
}

/// The population variance of `vs` in squared milli units, about the
/// rounded milli mean.
pub open spec fn variance_milli_sq(vs: Seq<i64>) -> int
    recommends
        vs.len() > 0,
{
    dev_sq_sum(vs, mean_milli_of(vs)) / vs.len() as int
}

/// A channel's stored baseline statistics.
#[derive(Clone, Copy, Debug, PartialEq, Eq, Structural)]
pub struct Baseline {
    /// Mean of the recent view counts, milli units.
    pub mean_milli: i64,
    /// Population standard deviation of the recent view counts, milli
    /// units, rounded down.  Never negative.
    pub std_dev_milli: i64,
}

/// The largest whole square root: `r * r <= x < (r + 1) * (r + 1)`.
fn isqrt(x: u128) -> (r: u64)
    ensures
        (r as int) * (r as int) <= x as int,
        (x as int) < (r as int + 1) * (r as int + 1),
{
    let mut lo: u64 = 0;
    let mut hi: u64 = if x >= u64::MAX as u128 {
        u64::MAX
    } else {
        x as u64
    };
    proof {
        assert((hi as int + 1) * (hi as int + 1) > x as int) by (nonlinear_arith)
            requires
                hi as int >= 0,
                (x as int) <= (hi as int) || (hi as int) == (u64::MAX as int),
                (x as int) < ((u64::MAX as int + 1) * (u64::MAX as int + 1)),
                (x as int) >= 0,
        ;
    }
    while lo < hi
        invariant
            (lo as int) * (lo as int) <= x as int,
            (x as int) < (hi as int + 1) * (hi as int + 1),
            lo <= hi,
        decreases hi - lo,
    {
        let gap = hi - lo;
        let mid: u64 = lo + gap / 2 + gap % 2;
        proof {
            assert((mid as int) * (mid as int) <= (u64::MAX as int) * (u64::MAX as int))
                by (nonlinear_arith)
                requires
                    0 <= mid as int <= u64::MAX as int,
            ;
        }
        if (mid as u128) * (mid as u128) <= x {
            lo = mid;
        } else {
            hi = mid - 1;
        }
    }
    lo
}

/// Sum of the counts in `vs`.
fn sum_counts(vs: &Vec<i64>) -> (r: i64)
    requires
        counts_ok(vs@),
        vs@.len() <= BASELINE_WINDOW,
    ensures
        r == sum_of(vs@),
        0 <= r <= vs@.len() * VIEW_COUNT_CAP,
{
    let mut total: i64 = 0;
    let mut i: usize = 0;
    while i < vs.len()
        invariant
            i <= vs@.len(),
            counts_ok(vs@),
            vs@.len() <= BASELINE_WINDOW,
            total == sum_of(vs@.take(i as int)),
            0 <= total <= i * VIEW_COUNT_CAP,
        decreases vs@.len() - i,
    {
        proof {
            assert(vs@.take(i + 1).drop_last() =~= vs@.take(i as int));
            assert(vs@.take(i + 1).last() == vs@[i as int]);
        }
        total = total + vs[i];
        i += 1;
    }
    proof {
        assert(vs@.take(vs@.len() as int) =~= vs@);
    }
    total
}

/// The baseline over a window of recent view counts: `None` when the
/// window is empty, otherwise the milli mean and the milli population
/// standard deviation (the whole square root of the variance).
pub fn compute_baseline(views: &Vec<i64>) -> (r: Option<Baseline>)
    requires
        counts_ok(views@),
        views@.len() <= BASELINE_WINDOW,
    ensures
        r is None <==> views@.len() == 0,
        match r {
            Some(b) => {
                &&& b.mean_milli == mean_milli_of(views@)
                &&& 0 <= b.std_dev_milli
                &&& (b.std_dev_milli as int) * (b.std_dev_milli as int) <= variance_milli_sq(
                    views@,
                )
                &&& variance_milli_sq(views@) < (b.std_dev_milli as int + 1) * (b.std_dev_milli
                    as int + 1)
            },
            None => true,
        },
{
    if views.len() == 0 {
        return None;
    }
    let n = views.len();
    let total = sum_counts(views);
    let mean: i64 = (1000 * total) / (n as i64);
    assert(mean == mean_milli_of(views@));
    proof {
        assert(0 <= mean_milli_of(views@) <= 1000 * sum_of(views@)) by {
            assert(1000 * sum_of(views@) >= 0);
            vstd::arithmetic::div_mod::lemma_div_pos_is_pos(1000 * sum_of(views@), n as int);
            vstd::arithmetic::div_mod::lemma_div_is_ordered_by_denominator(
                1000 * sum_of(views@),
                1,
                n as int,
            );
        }
    }
    let mut acc: i128 = 0;
    let mut i: usize = 0;
    while i < n
        invariant
            i <= n,
            n == views@.len(),
            counts_ok(views@),
            n <= BASELINE_WINDOW,
            0 <= mean <= 51_000_000_000_000_000,
            acc == dev_sq_sum(views@.take(i as int), mean as int),
            0 <= acc <= (i as int) * DEV_SQ_BOUND,
        decreases n - i,
    {
        proof {
            assert(views@.take(i + 1).drop_last() =~= views@.take(i as int));
            assert(views@.take(i + 1).last() == views@[i as int]);
        }
        let d: i128 = (1000 * views[i]) as i128 - mean as i128;
        proof {
            assert(0 <= views@[i as int] <= VIEW_COUNT_CAP);
            assert(-51_000_000_000_000_000 <= d <= 51_000_000_000_000_000);
            assert(d * d <= DEV_SQ_BOUND && d * d >= 0) by (nonlinear_arith)
                requires
                    -51_000_000_000_000_000 <= d <= 51_000_000_000_000_000,
            ;
        }
        let ghost acc_old = acc as int;
        let ghost i_old = i as int;
        acc = acc + d * d;
        i += 1;
        proof {
            assert(acc <= i_old * DEV_SQ_BOUND + DEV_SQ_BOUND);
            assert((i_old + 1) * DEV_SQ_BOUND == i_old * DEV_SQ_BOUND + DEV_SQ_BOUND)
                by (nonlinear_arith);
        }
    }
    proof {
        assert(views@.take(n as int) =~= views@);
        assert((n as int) * DEV_SQ_BOUND <= 50 * DEV_SQ_BOUND) by (nonlinear_arith)
            requires
                0 < n as int <= 50,
        ;
    }
    let variance: i128 = acc / (n as i128);
    proof {
        assert(variance == variance_milli_sq(views@));
        assert(0 <= variance <= acc) by {
            vstd::arithmetic::div_mod::lemma_div_pos_is_pos(acc as int, n as int);
            vstd::arithmetic::div_mod::lemma_div_is_ordered_by_denominator(acc as int, 1, n as int);
        }
    }
    let root = isqrt(variance as u128);
    proof {
        assert(root < 0x8000_0000_0000_0000) by (nonlinear_arith)
            requires
                (root as int) * (root as int) <= variance as int,
                (variance as int) <= 50 * DEV_SQ_BOUND,
                root as int >= 0,
        ;
    }
    Some(Baseline { mean_milli: mean, std_dev_milli: root as i64 })
}

/// The largest of a list of publish times.
pub open spec fn max_of(ts: Seq<i64>) -> int
    recommends
        ts.len() > 0,
    decreases ts.len(),
{
    if ts.len() <= 1 {
        ts[0] as int
    } else if ts.last() as int >= max_of(ts.drop_last()) {
        ts.last() as int
    } else {
        max_of(ts.drop_last())
    }
}

/// The latest publish time across a channel's items, if it has any.
pub fn latest_publish_time(times: &Vec<i64>) -> (r: Option<i64>)
    ensures
        r is None <==> times@.len() == 0,
        times@.len() > 0 ==> r == Some(max_of(times@) as i64),
{
    if times.len() == 0 {
        return None;
    }
    let mut best: i64 = times[0];
    let mut i: usize = 1;
    proof {
        assert(times@.take(1).len() == 1);
        assert(times@.take(1)[0] == times@[0]);
    }
    while i < times.len()
        invariant
            1 <= i <= times@.len(),
            best == max_of(times@.take(i as int)),
        decreases times@.len() - i,
    {
        proof {
            assert(times@.take(i + 1).drop_last() =~= times@.take(i as int));
            assert(times@.take(i + 1).last() == times@[i as int]);
        }
        if times[i] > best {
            best = times[i];
        }
        i += 1;
    }
    proof {
        assert(times@.take(times@.len() as int) =~= times@);
    }
    Some(best)
}

/// A channel's persisted aggregate fields, as the baseline pass updates
/// them.
#[derive(Clone, Copy, Debug, PartialEq, Eq, Structural)]
pub struct ChannelAggregates {
    pub baseline: Baseline,
    pub last_upload_at: Option<i64>,
}

/// Recomputes a channel's aggregates from the view counts of its most
/// recent items (`recent_views`, newest window first) and the publish
/// times of all its items.
///
/// An empty window leaves the prior aggregates entirely untouched; it
/// never resets them to zero.  Otherwise the baseline is replaced and the
/// last-upload time becomes the latest publish time over all items.
pub fn recompute_aggregates(
    prior: &ChannelAggregates,
    recent_views: &Vec<i64>,
    publish_times: &Vec<i64>,
) -> (r: ChannelAggregates)
    requires
        counts_ok(recent_views@),
        recent_views@.len() <= BASELINE_WINDOW,
    ensures
        recent_views@.len() == 0 ==> r == *prior,
        recent_views@.len() > 0 ==> {
            &&& r.baseline.mean_milli == mean_milli_of(recent_views@)
            &&& 0 <= r.baseline.std_dev_milli
            &&& (r.baseline.std_dev_milli as int) * (r.baseline.std_dev_milli as int)
                <= variance_milli_sq(recent_views@)
            &&& variance_milli_sq(recent_views@) < (r.baseline.std_dev_milli as int + 1) * (
            r.baseline.std_dev_milli as int + 1)
            &&& r.last_upload_at == (if publish_times@.len() > 0 {
                Some(max_of(publish_times@) as i64)
            } else {
                None::<i64>
            })
        },
{
    match compute_baseline(recent_views) {
        None => *prior,
        Some(b) => ChannelAggregates { baseline: b, last_upload_at: latest_publish_time(
            publish_times,
        ) },
    }
}

/// Largest channel mean the ranking accepts, in milli units.
pub const CHANNEL_AVG_MILLI_CAP: i64 = 1_000_000_000_000_000;

/// Which score a ranking sorts by.
#[derive(Clone, Copy, Debug, PartialEq, Eq, Structural)]
pub enum RankMetric {
    ViewCount,
    ViewsPerHour,
    ViralRatio,
    EngagementRate,
    ZScore,
}

/// One item as the ranking reads it: its own counters, its age, and its
/// channel's baseline.
#[derive(Clone, Copy, Debug, PartialEq, Eq, Structural)]
pub struct RankSource {
    pub views: i64,
    pub like_count: Option<i64>,
    pub comment_count: Option<i64>,
    pub hours_since_publish: i64,
    pub channel_avg_milli: i64,
    pub channel_std_dev_milli: i64,
}

/// An item with its computed scores, carrying the position it had in the
/// ranking's input.
#[derive(Clone, Copy, Debug, PartialEq, Eq, Structural)]
pub struct RankedItem {
    pub source_index: usize,
    pub views: i64,
    pub vph_milli: i64,
    pub ratio_milli: i64,
    pub engagement_milli: i64,
    pub z_score_milli: i64,
}

/// The counter and baseline bounds the ranking relies on.
pub open spec fn source_ok(it: RankSource) -> bool {
    &&& 0 <= it.views <= VIEW_COUNT_CAP
    &&& (it.like_count is Some ==> 0 <= it.like_count->0 <= VIEW_COUNT_CAP)
    &&& (it.comment_count is Some ==> 0 <= it.comment_count->0 <= VIEW_COUNT_CAP)
    &&& 0 <= it.channel_avg_milli <= CHANNEL_AVG_MILLI_CAP
    &&& 0 <= it.channel_std_dev_milli
}

/// Views per hour since publish, milli units; raw views when the item is
/// not yet an hour old or carries a nonpositive age.
pub open spec fn vph_milli(it: RankSource) -> int {
    if it.hours_since_publish > 0 {
        1000 * it.views / it.hours_since_publish as int
    } else {
        1000 * it.views
    }
}

/// Views relative to the channel mean, milli units; zero when the channel
/// has no positive mean.
pub open spec fn ratio_milli(it: RankSource) -> int {
    if it.channel_avg_milli > 0 {
        1_000_000 * it.views / it.channel_avg_milli as int
    } else {
        0
    }
}

/// Standard score of the item's views against its channel baseline, milli
/// units, rounded towards zero; zero when the deviation is not positive.
pub open spec fn z_score_milli(it: RankSource) -> int {
    if it.channel_std_dev_milli > 0 {
        let d = 1000 * it.views - it.channel_avg_milli;
        if d >= 0 {
            1000 * d / it.channel_std_dev_milli as int
        } else {
            -(1000 * (-d) / it.channel_std_dev_milli as int)
        }
    } else {
        0
    }
}

/// Likes and comments per view, milli units; zero without views, and
/// missing counts weigh nothing.
pub open spec fn engagement_milli(it: RankSource) -> int {
    if it.views > 0 {
        1000 * (opt_count(it.like_count) + opt_count(it.comment_count)) / it.views as int
    } else {
        0
    }
}

/// A possibly missing counter, defaulting to zero.
pub open spec fn opt_count(c: Option<i64>) -> int {
    match c {
        Some(v) => v as int,
        None => 0,
    }
}

/// The scored entry for item `it` at input position `idx`.
pub open spec fn spec_scored(it: RankSource, idx: int) -> RankedItem {
    RankedItem {
        source_index: idx as usize,
        views: it.views,
        vph_milli: vph_milli(it) as i64,
        ratio_milli: ratio_milli(it) as i64,
        engagement_milli: engagement_milli(it) as i64,
        z_score_milli: z_score_milli(it) as i64,
    }
}

/// All items scored, in input order.
pub open spec fn scored_seq(items: Seq<RankSource>) -> Seq<RankedItem> {
    Seq::new(items.len(), |i: int| spec_scored(items[i], i))
}

/// The stored score an entry is ranked by under `m`.
pub open spec fn entry_score(m: RankMetric, e: RankedItem) -> i64 {
    match m {
        RankMetric::ViewCount => e.views,
        RankMetric::ViewsPerHour => e.vph_milli,
        RankMetric::ViralRatio => e.ratio_milli,
        RankMetric::EngagementRate => e.engagement_milli,
        RankMetric::ZScore => e.z_score_milli,
    }
}

/// `a` sorts strictly before `b`: a strictly higher score.  Ties keep
/// input order, because insertion never moves an entry past an equal one.
pub open spec fn outranks(m: RankMetric, a: RankedItem, b: RankedItem) -> bool {
    entry_score(m, a) > entry_score(m, b)
}

/// `e` inserted into `t` (already ranked): before the first entry it
/// outranks, after everything it ties with.
pub open spec fn insert_ranked(m: RankMetric, t: Seq<RankedItem>, e: RankedItem) -> Seq<RankedItem>
    decreases t.len(),
{
    if t.len() == 0 {
        seq![e]
    } else if outranks(m, e, t[0]) {
        seq![e] + t
    } else {
        seq![t[0]] + insert_ranked(m, t.drop_first(), e)
    }
}

/// Stable descending insertion sort of the scored entries.
pub open spec fn sort_ranked(m: RankMetric, s: Seq<RankedItem>) -> Seq<RankedItem>
    decreases s.len(),
{
    if s.len() == 0 {
        Seq::empty()
    } else {
        insert_ranked(m, sort_ranked(m, s.drop_last()), s.last())
    }
}

/// The full ranking result: entries sorted by the chosen score, stably,
/// and cut to at most `limit` entries.
pub open spec fn spec_rank(items: Seq<RankSource>, m: RankMetric, limit: int) -> Seq<RankedItem> {
    let sorted = sort_ranked(m, scored_seq(items));
    if limit < sorted.len() {
        sorted.take(limit)
    } else {
        sorted
    }
}

/// Scores one item.
fn score_item(it: &RankSource, idx: usize) -> (e: RankedItem)
    requires
        source_ok(*it),
    ensures
        e == spec_scored(*it, idx as int),
{
    let vph: i64 = if it.hours_since_publish > 0 {
        (1000 * it.views) / it.hours_since_publish
    } else {
        1000 * it.views
    };
    let ratio: i64 = if it.channel_avg_milli > 0 {
        (1_000_000 * it.views) / it.channel_avg_milli
    } else {
        0
    };
    let z: i64 = if it.channel_std_dev_milli > 0 {
        let d = 1000 * it.views - it.channel_avg_milli;
        if d >= 0 {
            (1000 * d) / it.channel_std_dev_milli
        } else {
            -((1000 * (-d)) / it.channel_std_dev_milli)
        }
    } else {
        0
    };
    let likes: i64 = match it.like_count {
        Some(l) => l,
        None => 0,
    };
    let comments: i64 = match it.comment_count {
        Some(c) => c,
        None => 0,
    };
    let er: i64 = if it.views > 0 {
        (1000 * (likes + comments)) / it.views
    } else {
        0
    };
    RankedItem {
        source_index: idx,
        views: it.views,
        vph_milli: vph,
        ratio_milli: ratio,
        engagement_milli: er,
        z_score_milli: z,
    }
}

/// The stored score an entry is ranked by under `m`.
fn entry_score_exec(m: RankMetric, e: &RankedItem) -> (r: i64)
    ensures
        r == entry_score(m, *e),
{
    match m {
        RankMetric::ViewCount => e.views,
        RankMetric::ViewsPerHour => e.vph_milli,
        RankMetric::ViralRatio => e.ratio_milli,
        RankMetric::EngagementRate => e.engagement_milli,
        RankMetric::ZScore => e.z_score_milli,
    }
}

/// Inserting at the position in front of the first outranked entry is
/// what `insert_ranked` does.
proof fn lemma_insert_at(m: RankMetric, t: Seq<RankedItem>, e: RankedItem, pos: int)
    requires
        0 <= pos <= t.len(),
        forall|j: int| 0 <= j < pos ==> !outranks(m, e, #[trigger] t[j]),
        pos < t.len() ==> outranks(m, e, t[pos]),
    ensures
        insert_ranked(m, t, e) == t.insert(pos, e),
    decreases t.len(),
{
    if t.len() == 0 {
        assert(insert_ranked(m, t, e) =~= t.insert(0, e));
    } else if pos == 0 {
        assert(outranks(m, e, t[0]));
        assert(seq![e] + t =~= t.insert(0, e));
    } else {
        assert(!outranks(m, e, t[0]));
        lemma_insert_at(m, t.drop_first(), e, pos - 1);
        assert(seq![t[0]] + t.drop_first().insert(pos - 1, e) =~= t.insert(pos, e));
    }
}

/// Inserts `e` into the ranked vector `v`.
fn insert_entry(m: RankMetric, v: &mut Vec<RankedItem>, e: RankedItem)
    ensures
        final(v)@ == insert_ranked(m, old(v)@, e),
{
    let score = entry_score_exec(m, &e);
    let mut pos: usize = 0;
    while pos < v.len() && score <= entry_score_exec(m, &v[pos])
        invariant
            pos <= v@.len(),
            score == entry_score(m, e),
            forall|j: int| 0 <= j < pos ==> !outranks(m, e, #[trigger] v@[j]),
        decreases v@.len() - pos,
    {
        pos += 1;
    }
    proof {
        lemma_insert_at(m, v@, e, pos as int);
    }
    v.insert(pos, e);
}

/// Ranks items by the chosen metric.
///
/// Each input item is scored (views per hour, viral ratio, engagement
/// rate, standard score); the entries are sorted by the chosen score in
/// descending order, ties keeping input order; and the result is cut to
/// at most `limit` entries.
pub fn rank(items: &Vec<RankSource>, metric: RankMetric, limit: usize) -> (r: Vec<RankedItem>)
    requires
        forall|j: int| 0 <= j < items@.len() ==> source_ok(#[trigger] items@[j]),
    ensures
        r@ == spec_rank(items@, metric, limit as int),
{
    let mut sorted: Vec<RankedItem> = Vec::new();
    let mut i: usize = 0;
    while i < items.len()
        invariant
            i <= items@.len(),
            forall|j: int| 0 <= j < items@.len() ==> source_ok(#[trigger] items@[j]),
            sorted@ == sort_ranked(metric, scored_seq(items@.take(i as int))),
        decreases items@.len() - i,
    {
        let e = score_item(&items[i], i);
        proof {
            assert(scored_seq(items@.take(i + 1)).drop_last() =~= scored_seq(
                items@.take(i as int),
            ));
            assert(scored_seq(items@.take(i + 1)).last() == spec_scored(items@[i as int], i as int));
        }
        insert_entry(metric, &mut sorted, e);
        i += 1;
    }
    proof {
        assert(items@.take(items@.len() as int) =~= items@);
    }
    if limit < sorted.len() {
        sorted.truncate(limit);
    }
    sorted
}

/// Entries appear in non-increasing score order.
pub open spec fn ranked_sorted(m: RankMetric, t: Seq<RankedItem>) -> bool {
    forall|a: int, b: int|
        0 <= a <= b < t.len() ==> entry_score(m, #[trigger] t[a]) >= entry_score(m, #[trigger] t[b])
}

/// Insertion keeps the entries in non-increasing score order, and the
/// result's length grows by one.
proof fn lemma_insert_keeps_sorted(m: RankMetric, t: Seq<RankedItem>, e: RankedItem)
    requires
        ranked_sorted(m, t),
    ensures
        ranked_sorted(m, insert_ranked(m, t, e)),
        insert_ranked(m, t, e).len() == t.len() + 1,
        insert_ranked(m, t, e)[0] == e || (t.len() > 0 && insert_ranked(m, t, e)[0] == t[0]),
    decreases t.len(),
{
    let out = insert_ranked(m, t, e);
    if t.len() == 0 {
    } else if outranks(m, e, t[0]) {
        assert(forall|b: int| 0 <= b < t.len() ==> (seq![e] + t)[b + 1] == t[b]);
    } else {
        assert(forall|j: int|
            0 <= j < t.drop_first().len() ==> #[trigger] t.drop_first()[j] == t[j + 1]);
        lemma_insert_keeps_sorted(m, t.drop_first(), e);
        let rest = insert_ranked(m, t.drop_first(), e);
        assert(forall|b: int| 0 <= b < rest.len() ==> (seq![t[0]] + rest)[b + 1] == rest[b]);
        assert(entry_score(m, e) <= entry_score(m, t[0]));
        assert forall|a: int, b: int| 0 <= a <= b < out.len() implies entry_score(
            m,
            #[trigger] out[a],
        ) >= entry_score(m, #[trigger] out[b]) by {
            if a == 0 && b > 0 {
                if rest[0] == e || (t.drop_first().len() > 0 && rest[0] == t.drop_first()[0]) {
                    assert(entry_score(m, out[0]) >= entry_score(m, rest[0]));
                }
                assert(entry_score(m, rest[0]) >= entry_score(m, rest[b - 1]));
            }
        }
    }
}

/// The ranking is sorted: scores never increase along the result, and
/// every input entry is placed (the sorted list has the input's length).
pub proof fn lemma_sort_ranked_sorted(m: RankMetric, s: Seq<RankedItem>)
    ensures
        ranked_sorted(m, sort_ranked(m, s)),
        sort_ranked(m, s).len() == s.len(),
    decreases s.len(),
{
    if s.len() > 0 {
        lemma_sort_ranked_sorted(m, s.drop_last());
        lemma_insert_keeps_sorted(m, sort_ranked(m, s.drop_last()), s.last());
    }
}

/// Inserting an entry that outranks nothing appends it: ties and lower
/// scores never move past earlier entries.
proof fn lemma_insert_appends(m: RankMetric, t: Seq<RankedItem>, e: RankedItem)
    requires
        forall|j: int| 0 <= j < t.len() ==> !outranks(m, e, #[trigger] t[j]),
    ensures
        insert_ranked(m, t, e) == t.push(e),
    decreases t.len(),
{
    if t.len() == 0 {
        assert(insert_ranked(m, t, e) =~= t.push(e));
    } else {
        lemma_insert_appends(m, t.drop_first(), e);
        assert(seq![t[0]] + t.drop_first().push(e) =~= t.push(e));
    }
}

/// When every entry carries the same score, sorting is the identity:
/// the original relative order is preserved.
pub proof fn lemma_uniform_scores_keep_order(m: RankMetric, s: Seq<RankedItem>)
    requires
        forall|i: int, j: int|
            0 <= i < s.len() && 0 <= j < s.len() ==> entry_score(m, #[trigger] s[i])
                == entry_score(m, #[trigger] s[j]),
    ensures
        sort_ranked(m, s) == s,
    decreases s.len(),
{
    if s.len() > 0 {
        lemma_uniform_scores_keep_order(m, s.drop_last());
        lemma_insert_appends(m, s.drop_last(), s.last());
        assert(s.drop_last().push(s.last()) =~= s);
    }
}

/// Ranking by viral ratio when no channel has a positive mean gives every
/// item a ratio of zero and keeps the items in their original order.
pub proof fn lemma_rank_zero_avg_keeps_order(items: Seq<RankSource>)
    requires
        forall|j: int| 0 <= j < items.len() ==> #[trigger] items[j].channel_avg_milli <= 0,
    ensures
        forall|j: int|
            0 <= j < items.len() ==> entry_score(
                RankMetric::ViralRatio,
                #[trigger] scored_seq(items)[j],
            ) == 0,
        sort_ranked(RankMetric::ViralRatio, scored_seq(items)) == scored_seq(items),
{
    let s = scored_seq(items);
    assert forall|j: int| 0 <= j < items.len() implies entry_score(
        RankMetric::ViralRatio,
        #[trigger] s[j],
    ) == 0 by {
        assert(ratio_milli(items[j]) == 0);
    }
    lemma_uniform_scores_keep_order(RankMetric::ViralRatio, s);
}

} // verus!
