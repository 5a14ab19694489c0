//! The remote catalogue client's data model and pure logic.
//!
//! The remote API answers three read calls: channel lookup, upload-list
//! paging, and batch item details.  The structures here mirror those
//! answers with plain values (counts arrive as optional digit strings,
//! times as epoch seconds); the functions turn them into catalogue rows,
//! decide how paging proceeds, and merge fetched items into the stored
//! list without ever touching identity or download fields.

use vstd::prelude::*;

use crate::duration::is_digit_char;
use crate::duration::run_value;
use crate::duration::spec_duration_seconds;
use crate::sanitize::space_pred;
use crate::sanitize::trim_both;
use crate::text::find_char_spec;
use crate::text::find_spec;
use crate::text::is_prefix;

verus! {

/// A channel-lookup answer: a list of matching channels, possibly
/// absent.
pub struct ChannelListResponse {
    pub items: Option<Vec<ChannelResource>>,
}

/// One channel as the remote catalogue describes it.
pub struct ChannelResource {
    pub id: String,
    pub snippet: ChannelSnippet,
    pub statistics: Option<ChannelStatistics>,
    pub content_details: Option<ChannelContentDetails>,
}

/// A channel's descriptive fields.
pub struct ChannelSnippet {
    pub title: String,
    pub description: String,
    pub thumbnails: Thumbnails,
}

/// The thumbnail variants a resource offers.
pub struct Thumbnails {
    pub default: Option<Thumbnail>,
    pub medium: Option<Thumbnail>,
    pub high: Option<Thumbnail>,
}

/// One thumbnail variant.
pub struct Thumbnail {
    pub url: String,
}

/// A channel's aggregate counters, as decimal strings.
pub struct ChannelStatistics {
    pub view_count: Option<String>,
    pub subscriber_count: Option<String>,
    pub video_count: Option<String>,
}

/// A channel's related playlists.
pub struct ChannelContentDetails {
    pub related_playlists: RelatedPlaylists,
}

/// The playlists tied to a channel; `uploads` lists everything it
/// published.
pub struct RelatedPlaylists {
    pub uploads: String,
}

/// The item id a playlist entry points at.
pub struct ResourceId {
    pub video_id: String,
}

/// An item's counters, as decimal strings.
pub struct VideoStatistics {
    pub view_count: Option<String>,
    pub like_count: Option<String>,
    pub comment_count: Option<String>,
}

/// An item's technical details.
pub struct VideoContentDetails {
    /// Duration in ISO-8601 form, such as `PT1M30S`.
    pub duration: String,
}

impl Thumbnails {
    /// The best thumbnail's address: the high variant, else medium, else
    /// default, else nothing.
    pub fn get_best_url(&self) -> (r: String)
        ensures
            r@ == match self.high {
                Some(ref t) => t.url@,
                None => match self.medium {
                    Some(ref t) => t.url@,
                    None => match self.default {
                        Some(ref t) => t.url@,
                        None => Seq::<char>::empty(),
                    },
                },
            },
    {
        match &self.high {
            Some(t) => t.url.clone(),
            None => match &self.medium {
                Some(t) => t.url.clone(),
                None => match &self.default {
                    Some(t) => t.url.clone(),
                    None => String::new(),
                },
            },
        }
    }
}

/// The number a counter string denotes: its digits' value when the
/// string is all digits, non-empty, and fits a signed 64-bit integer;
/// zero otherwise, and zero when the counter is absent.
pub open spec fn spec_parse_count(c: Option<Seq<char>>) -> int {
    match c {
        None => 0,
        Some(s) => if s.len() > 0 && (forall|j: int| 0 <= j < s.len() ==> is_digit_char(
            #[trigger] s[j],
        )) && run_value(s) <= i64::MAX {
            run_value(s)
        } else {
            0
        },
    }
}

/// The views of an optional string.
pub open spec fn opt_chars(c: Option<String>) -> Option<Seq<char>> {
    match c {
        Some(s) => Some(s@),
        None => None,
    }
}

/// Reads a counter string, treating anything unparsable as zero.
pub fn parse_count(c: &Option<String>) -> (r: i64)
    ensures
        r == spec_parse_count(opt_chars(*c)),
        r >= 0,
{
    let s = match c {
        Some(s) => s,
        None => {
            return 0;
        },
    };
    assert(opt_chars(*c) == Some(s@));
    let chars = crate::text::str_to_chars(s.as_str());
    if chars.len() == 0 {
        return 0;
    }
    let mut acc: i64 = 0;
    let mut i: usize = 0;
    while i < chars.len()
        invariant
            i <= chars@.len(),
            chars@ == s@,
            opt_chars(*c) == Some(s@),
            0 <= acc,
            forall|j: int| 0 <= j < i ==> is_digit_char(#[trigger] chars@[j]),
            acc == run_value(chars@.take(i as int)),
        decreases chars@.len() - i,
    {
        let u = chars[i] as u32;
        proof {
            assert(chars@.take(i + 1).drop_last() =~= chars@.take(i as int));
            assert(chars@.take(i + 1).last() == chars@[i as int]);
        }
        if !(0x30 <= u && u <= 0x39) {
            assert(!is_digit_char(s@[i as int]));
            assert(spec_parse_count(Some(s@)) == 0);
            return 0;
        }
        let d = (u - 0x30) as i64;
        match acc.checked_mul(10) {
            Some(m) => match m.checked_add(d) {
                Some(nv) => {
                    acc = nv;
                },
                None => {
                    proof {
                        assert(run_value(chars@.take(i + 1)) > i64::MAX);
                        lemma_count_overflow(chars@, i + 1);
                        assert(run_value(s@) > i64::MAX);
                        assert(spec_parse_count(Some(s@)) == 0);
                    }
                    return 0;
                },
            },
            None => {
                proof {
                    assert(run_value(chars@.take(i + 1)) > i64::MAX);
                    lemma_count_overflow(chars@, i + 1);
                    assert(run_value(s@) > i64::MAX);
                    assert(spec_parse_count(Some(s@)) == 0);
                }
                return 0;
            },
        }
        i += 1;
    }
    proof {
        assert(chars@.take(chars@.len() as int) =~= chars@);
    }
    acc
}

/// A digit run that outgrows a signed 64-bit prefix stays outgrown.
proof fn lemma_count_overflow(t: Seq<char>, i: int)
    requires
        0 <= i <= t.len(),
        run_value(t.take(i)) > i64::MAX,
    ensures
        run_value(t) > i64::MAX,
    decreases t.len() - i,
{
    if i < t.len() {
        assert(t.take(i + 1).drop_last() =~= t.take(i));
        assert(t.take(i + 1).last() == t[i]);
        assert(run_value(t.take(i + 1)) == run_value(t.take(i)) * 10 + ((t[i] as u32) - 0x30));
        lemma_count_overflow(t, i + 1);
    } else {
        assert(t.take(i) =~= t);
    }
}

/// The three channel counters, parsed: subscribers, views, items.
pub fn channel_counters(stats: &ChannelStatistics) -> (r: (i64, i64, i64))
    ensures
        r.0 == spec_parse_count(opt_chars(stats.subscriber_count)),
        r.1 == spec_parse_count(opt_chars(stats.view_count)),
        r.2 == spec_parse_count(opt_chars(stats.video_count)),
{
    (
        parse_count(&stats.subscriber_count),
        parse_count(&stats.view_count),
        parse_count(&stats.video_count),
    )
}

/// Why a catalogue answer yields no channel.
#[derive(Debug, PartialEq, Eq, Structural)]
pub enum CatalogueError {
    /// The answer held no matching channel.
    ChannelNotFound,
}

/// Why a read call against the remote catalogue failed: the API said no
/// (any non-2xx status, with its body), or its answer would not decode.
/// The client never retries or rotates credentials itself.
pub enum ClientError {
    RemoteError { status: u16, body: String },
    DecodeError { detail: String },
}

impl ClientError {
    /// Whether this failure should trip the orchestrator's circuit
    /// breaker: a permission status, or a body that blames quota.
    pub fn is_quota_related(&self) -> (r: bool)
        ensures
            r == match self {
                ClientError::RemoteError { status, body } => status == 403 || crate::text::has_match(
                    body@,
                    "quota"@,
                ),
                ClientError::DecodeError { .. } => false,
            },
    {
        match self {
            ClientError::RemoteError { status, body } => {
                if *status == 403 {
                    return true;
                }
                let chars = crate::text::str_to_chars(body.as_str());
                let quota = crate::text::str_to_chars("quota");
                crate::text::contains_sub(&chars, &quota)
            },
            ClientError::DecodeError { .. } => false,
        }
    }
}

/// The first channel of a lookup answer, or `ChannelNotFound` exactly
/// when the answer holds no channel at all.
pub fn first_channel(resp: ChannelListResponse) -> (r: Result<ChannelResource, CatalogueError>)
    ensures
        match r {
            Ok(c) => resp.items is Some && resp.items->0@.len() > 0 && c == resp.items->0@[0],
            Err(e) => e == CatalogueError::ChannelNotFound && (resp.items is None
                || resp.items->0@.len() == 0),
        },
{
    match resp.items {
        Some(mut v) => {
            if v.len() > 0 {
                Ok(v.remove(0))
            } else {
                Err(CatalogueError::ChannelNotFound)
            }
        },
        None => Err(CatalogueError::ChannelNotFound),
    }
}

/// Whether a lookup input is a handle rather than a channel id.
pub fn is_handle(input: &str) -> (r: bool)
    ensures
        r == (input@.len() > 0 && input@[0] == '@'),
{
    let chars = crate::text::str_to_chars(input);
    chars.len() > 0 && chars[0] == '@'
}

/// An item is a short when it lasts at most sixty seconds.
pub fn is_short_duration(duration_iso: &Option<String>) -> (r: bool)
    ensures
        r == (spec_duration_seconds(match opt_chars(*duration_iso) {
            Some(d) => d,
            None => "PT0S"@,
        }) <= 60),
{
    let seconds = match duration_iso {
        Some(d) => crate::duration::parse_duration_to_seconds(d.as_str()),
        None => crate::duration::parse_duration_to_seconds("PT0S"),
    };
    seconds <= 60
}

/// Index of the first path separator (`/` or `?`), or the length.
pub open spec fn first_sep(s: Seq<char>) -> int
    decreases s.len(),
{
    if s.len() == 0 {
        0
    } else if s[0] == '/' || s[0] == '?' {
        0
    } else {
        1 + first_sep(s.drop_first())
    }
}

/// The text before the first path separator.
pub open spec fn sep_token(s: Seq<char>) -> Seq<char> {
    s.take(first_sep(s))
}

/// The channel identifier a user-supplied address denotes.
///
/// A site address is reduced to the channel id after `channel/` or to
/// the `@handle` in its path; a bare handle or id passes through
/// unchanged, trimmed.
pub open spec fn spec_extract_identifier(s: Seq<char>) -> Seq<char> {
    let t = trim_both(s, space_pred());
    if is_prefix(t, "http"@) && find_spec(t, "youtube.com/"@) is Some {
        let path = t.skip(find_spec(t, "youtube.com/"@)->0 + 12);
        if is_prefix(path, "channel/"@) {
            sep_token(path.skip(8))
        } else if path.len() > 0 && path[0] == '@' {
            sep_token(path)
        } else if find_char_spec(path, '@') is Some {
            sep_token(path.skip(find_char_spec(path, '@')->0))
        } else {
            t
        }
    } else {
        t
    }
}

/// A leading separator-free run ends exactly at the first separator.
proof fn lemma_first_sep_at(u: Seq<char>, k: int)
    requires
        0 <= k <= u.len(),
        forall|j: int| 0 <= j < k ==> #[trigger] u[j] != '/' && u[j] != '?',
        k < u.len() ==> u[k] == '/' || u[k] == '?',
    ensures
        first_sep(u) == k,
    decreases k,
{
    if k > 0 {
        lemma_first_sep_at(u.drop_first(), k - 1);
    }
}

/// The text before the first path separator.
fn sep_token_exec(t: &Vec<char>) -> (r: Vec<char>)
    ensures
        r@ == sep_token(t@),
{
    let mut b: usize = 0;
    while b < t.len() && !(t[b] == '/' || t[b] == '?')
        invariant
            b <= t@.len(),
            forall|j: int| 0 <= j < b ==> #[trigger] t@[j] != '/' && t@[j] != '?',
        decreases t@.len() - b,
    {
        b += 1;
    }
    proof {
        lemma_first_sep_at(t@, b as int);
    }
    let r = crate::text::slice_range(t, 0, b);
    proof {
        assert(t@.subrange(0, b as int) =~= t@.take(b as int));
    }
    r
}

/// Reduces a user-supplied channel address to the identifier the
/// catalogue is asked for.
pub fn extract_channel_identifier(url: &str) -> (r: String)
    ensures
        r@ == spec_extract_identifier(url@),
{
    proof {
        reveal_strlit("youtube.com/");
        reveal_strlit("channel/");
    }
    let chars = crate::text::str_to_chars(url);
    let t = crate::sanitize::trim_ends(&chars, true);
    let http = crate::text::str_to_chars("http");
    let site = crate::text::str_to_chars("youtube.com/");
    let channel_seg = crate::text::str_to_chars("channel/");
    if crate::text::starts_with_sub(&t, &http) {
        match crate::text::find_sub(&t, &site) {
            Some(pos) => {
                proof {
                    crate::text::lemma_find_spec_at(t@, site@, pos as int);
                }
                let n = t.len();
                let path = crate::text::slice_range(&t, pos + 12, n);
                proof {
                    assert(path@ =~= t@.skip(pos + 12));
                }
                if crate::text::starts_with_sub(&path, &channel_seg) {
                    let m = path.len();
                    let rest = crate::text::slice_range(&path, 8, m);
                    proof {
                        assert(rest@ =~= path@.skip(8));
                    }
                    let token = sep_token_exec(&rest);
                    return crate::text::chars_to_string(&token);
                }
                if path.len() > 0 && path[0] == '@' {
                    let token = sep_token_exec(&path);
                    return crate::text::chars_to_string(&token);
                }
                match crate::text::find_char(&path, '@') {
                    Some(at) => {
                        proof {
                            crate::text::lemma_find_char_spec_at(path@, '@', at as int);
                        }
                        let m = path.len();
                        let rest = crate::text::slice_range(&path, at, m);
                        proof {
                            assert(rest@ =~= path@.skip(at as int));
                        }
                        let token = sep_token_exec(&rest);
                        crate::text::chars_to_string(&token)
                    },
                    None => {
                        proof {
                            crate::text::lemma_find_char_spec_none(path@, '@');
                        }
                        crate::text::chars_to_string(&t)
                    },
                }
            },
            None => crate::text::chars_to_string(&t),
        }
    } else {
        crate::text::chars_to_string(&t)
    }
}

/// The value of an all-digit run, or a default when the text is not a
/// plain number that fits.
pub open spec fn digits_value_or(s: Seq<char>, dflt: int) -> int {
    if s.len() > 0 && (forall|j: int| 0 <= j < s.len() ==> is_digit_char(#[trigger] s[j]))
        && run_value(s) <= i64::MAX {
        run_value(s)
    } else {
        dflt
    }
}

/// Reads an all-digit run, falling back to `dflt`.
fn digits_or(t: &Vec<char>, dflt: i64) -> (r: i64)
    requires
        dflt >= 0,
    ensures
        r == digits_value_or(t@, dflt as int),
        r >= 0,
{
    if t.len() == 0 {
        return dflt;
    }
    let mut acc: i64 = 0;
    let mut i: usize = 0;
    while i < t.len()
        invariant
            i <= t@.len(),
            0 <= acc,
            0 <= dflt,
            forall|j: int| 0 <= j < i ==> is_digit_char(#[trigger] t@[j]),
            acc == run_value(t@.take(i as int)),
        decreases t@.len() - i,
    {
        let u = t[i] as u32;
        proof {
            assert(t@.take(i + 1).drop_last() =~= t@.take(i as int));
            assert(t@.take(i + 1).last() == t@[i as int]);
        }
        if !(0x30 <= u && u <= 0x39) {
            assert(!is_digit_char(t@[i as int]));
            return dflt;
        }
        let d = (u - 0x30) as i64;
        match acc.checked_mul(10) {
            Some(m) => match m.checked_add(d) {
                Some(nv) => {
                    acc = nv;
                },
                None => {
                    proof {
                        assert(run_value(t@.take(i + 1)) > i64::MAX);
                        lemma_count_overflow(t@, i + 1);
                    }
                    return dflt;
                },
            },
            None => {
                proof {
                    assert(run_value(t@.take(i + 1)) > i64::MAX);
                    lemma_count_overflow(t@, i + 1);
                }
                return dflt;
            },
        }
        i += 1;
    }
    proof {
        assert(t@.take(t@.len() as int) =~= t@);
    }
    acc
}

/// Days denoted by a range part such as `30days`: the number before the
/// recognized suffix, with that suffix's scale and default, or a week
/// for an unrecognized part.
pub open spec fn spec_range_days(part: Seq<char>) -> int {
    if crate::text::is_suffix(part, "days"@) {
        digits_value_or(part.take(part.len() - 4), 7)
    } else if crate::text::is_suffix(part, "months"@) {
        crate::duration::cap_i64(digits_value_or(part.take(part.len() - 6), 1) * 30)
    } else if crate::text::is_suffix(part, "year"@) {
        crate::duration::cap_i64(digits_value_or(part.take(part.len() - 4), 1) * 365)
    } else {
        7
    }
}

/// The publish-date cutoff a range names: none for `all`, `now` minus
/// the range's days for a `now-` range, and a week back otherwise.
pub open spec fn spec_threshold(range: Option<Seq<char>>, now: int) -> Option<int> {
    match range {
        Some(s) => if s == "all"@ {
            None
        } else if is_prefix(s, "now-"@) {
            Some(now - crate::duration::cap_i64(spec_range_days(s.skip(4)) * 86400))
        } else {
            Some(now - 7 * 86400)
        },
        None => Some(now - 7 * 86400),
    }
}

/// The days a range part names, scaled to its unit and capped.
fn range_days(part: &Vec<char>) -> (r: i64)
    ensures
        r == spec_range_days(part@),
        r >= 0,
{
    proof {
        reveal_strlit("days");
        reveal_strlit("months");
        reveal_strlit("year");
    }
    let days_sfx = crate::text::str_to_chars("days");
    let months_sfx = crate::text::str_to_chars("months");
    let year_sfx = crate::text::str_to_chars("year");
    if crate::text::ends_with_sub(part, &days_sfx) {
        let num = crate::text::slice_range(part, 0, part.len() - 4);
        proof {
            assert(num@ =~= part@.take(part@.len() - 4));
        }
        digits_or(&num, 7)
    } else if crate::text::ends_with_sub(part, &months_sfx) {
        let num = crate::text::slice_range(part, 0, part.len() - 6);
        proof {
            assert(num@ =~= part@.take(part@.len() - 6));
        }
        let n = digits_or(&num, 1);
        match n.checked_mul(30) {
            Some(v) => v,
            None => i64::MAX,
        }
    } else {
        let is_year = crate::text::ends_with_sub(part, &year_sfx);
        if is_year {
            let num = crate::text::slice_range(part, 0, part.len() - 4);
            proof {
                assert(num@ =~= part@.take(part@.len() - 4));
            }
            let n = digits_or(&num, 1);
            match n.checked_mul(365) {
                Some(v) => v,
                None => i64::MAX,
            }
        } else {
            7
        }
    }
}

/// An optional machine integer as an optional mathematical one.
pub open spec fn opt_int(r: Option<i64>) -> Option<int> {
    match r {
        Some(v) => Some(v as int),
        None => None,
    }
}

/// The publish-date cutoff for a sync, in epoch seconds: `all` means no
/// cutoff, `now-<n><unit>` counts back from `now`, anything else means
/// one week back.
pub fn parse_date_range(range: &Option<String>, now: i64) -> (r: Option<i64>)
    requires
        0 <= now,
    ensures
        opt_int(r) == spec_threshold(opt_chars(*range), now as int),
{
    let s = match range {
        Some(s) => s,
        None => {
            return Some(now - 7 * 86400);
        },
    };
    let chars = crate::text::str_to_chars(s.as_str());
    let all = crate::text::str_to_chars("all");
    if crate::text::chars_eq(&chars, &all) {
        return None;
    }
    let now_prefix = crate::text::str_to_chars("now-");
    if crate::text::starts_with_sub(&chars, &now_prefix) {
        proof {
            reveal_strlit("now-");
        }
        let n = chars.len();
        let part = crate::text::slice_range(&chars, 4, n);
        proof {
            assert(part@ =~= chars@.skip(4));
        }
        let days = range_days(&part);
        let seconds = match days.checked_mul(86400) {
            Some(v) => v,
            None => i64::MAX,
        };
        Some(now - seconds)
    } else {
        Some(now - 7 * 86400)
    }
}

/// One upload-list entry: the item it names and when that item was
/// published, if the listing says.
pub struct PlaylistEntry {
    pub video_id: String,
    pub published_at: Option<i64>,
}

/// One page's worth of entries folded into the id list: ids accumulate
/// until an entry older than the cutoff stops the walk.
pub open spec fn absorb_entries(
    ids: Seq<Seq<char>>,
    entries: Seq<PlaylistEntry>,
    threshold: Option<int>,
) -> (Seq<Seq<char>>, bool)
    decreases entries.len(),
{
    if entries.len() == 0 {
        (ids, false)
    } else if threshold is Some && entries[0].published_at is Some && (entries[0].published_at->0
        as int) < threshold->0 {
        (ids, true)
    } else {
        absorb_entries(ids.push(entries[0].video_id@), entries.drop_first(), threshold)
    }
}

/// Collects upload-list item ids across pages, stopping at the cutoff
/// or at the five-hundred-item safety cap.
pub struct PlaylistCollector {
    /// The ids gathered so far, in listing order.
    pub ids: Vec<String>,
    /// Whether the listing may continue: no cutoff hit, the last page
    /// was non-empty, and it named a successor.
    pub active: bool,
}

impl PlaylistCollector {
    /// The gathered ids as character sequences.
    pub open spec fn ids_view(self) -> Seq<Seq<char>> {
        self.ids@.map_values(|s: String| s@)
    }

    /// A fresh collector.
    pub fn new() -> (r: PlaylistCollector)
        ensures
            r.ids_view() == Seq::<Seq<char>>::empty(),
            r.active,
    {
        let r = PlaylistCollector { ids: Vec::new(), active: true };
        proof {
            assert(r.ids_view() =~= Seq::<Seq<char>>::empty());
        }
        r
    }

    /// Whether another page should be requested: the listing is still
    /// active and the safety cap of five hundred ids is not reached.
    pub fn wants_more(&self) -> (r: bool)
        ensures
            r == (self.active && self.ids@.len() < 500),
    {
        self.active && self.ids.len() < 500
    }

    /// Folds one fetched page in.
    ///
    /// Entries are taken in order until one is older than the cutoff;
    /// the listing stays active only if the page was non-empty, no
    /// cutoff was hit, and the page named a successor.
    pub fn absorb_page(
        &mut self,
        entries: &Vec<PlaylistEntry>,
        next_token_present: bool,
        threshold: Option<i64>,
    )
        ensures
            ({
                let (ids2, stopped) = absorb_entries(
                    old(self).ids_view(),
                    entries@,
                    opt_int(threshold),
                );
                &&& final(self).ids_view() == ids2
                &&& final(self).active == (old(self).active && entries@.len() > 0 && !stopped
                    && next_token_present)
            }),
    {
        let ghost th = opt_int(threshold);
        let mut stopped: bool = false;
        let mut i: usize = 0;
        proof {
            assert(entries@.skip(0) =~= entries@);
        }
        while i < entries.len() && !stopped
            invariant
                i <= entries@.len(),
                th == opt_int(threshold),
                self.active == old(self).active,
                absorb_entries(old(self).ids_view(), entries@, th) == if stopped {
                    (self.ids_view(), true)
                } else {
                    absorb_entries(self.ids_view(), entries@.skip(i as int), th)
                },
            decreases entries@.len() - i, (if stopped { 0int } else { 1int }),
        {
            proof {
                assert(entries@.skip(i as int)[0] == entries@[i as int]);
                assert(entries@.skip(i as int).drop_first() =~= entries@.skip(i + 1));
            }
            let cut: bool = match (threshold, entries[i].published_at) {
                (Some(t), Some(p)) => p < t,
                _ => false,
            };
            if cut {
                stopped = true;
            } else {
                let ghost before = self.ids_view();
                self.ids.push(entries[i].video_id.clone());
                proof {
                    assert(self.ids_view() =~= before.push(entries@[i as int].video_id@));
                }
                i += 1;
            }
        }
        proof {
            if !stopped {
                assert(entries@.skip(entries@.len() as int) =~= Seq::<PlaylistEntry>::empty());
            }
        }
        self.active = self.active && entries.len() > 0 && !stopped && next_token_present;
    }
}

/// One item as the batch-details call describes it.
pub struct RemoteVideo {
    pub id: String,
    pub title: String,
    pub channel_id: String,
    pub published_at: i64,
    pub thumbnails: Thumbnails,
    pub statistics: Option<VideoStatistics>,
    pub content_details: Option<VideoContentDetails>,
}

/// One catalogue row as the store keeps it, download fields aside.
pub struct ItemRecord {
    pub id: String,
    pub title: String,
    pub url: String,
    pub thumbnail: String,
    pub channel_id: String,
    pub published_at: i64,
    pub view_count: i64,
    pub like_count: Option<i64>,
    pub comment_count: Option<i64>,
    pub is_short: bool,
}

/// The public address of the item with this id.
pub open spec fn watch_url_of(id: Seq<char>) -> Seq<char> {
    "https://www.youtube.com/watch?v="@ + id
}

/// The best thumbnail's address.
pub open spec fn spec_best_url(t: Thumbnails) -> Seq<char> {
    match t.high {
        Some(h) => h.url@,
        None => match t.medium {
            Some(m) => m.url@,
            None => match t.default {
                Some(d) => d.url@,
                None => Seq::<char>::empty(),
            },
        },
    }
}

/// An optional counter string's parsed value, when it parses at all.
pub open spec fn spec_parse_count_opt(c: Option<Seq<char>>) -> Option<int> {
    match c {
        None => None,
        Some(s) => if s.len() > 0 && (forall|j: int| 0 <= j < s.len() ==> is_digit_char(
            #[trigger] s[j],
        )) && run_value(s) <= i64::MAX {
            Some(run_value(s))
        } else {
            None
        },
    }
}

/// Reads an optional counter, keeping absence and unparsable text
/// distinct from zero.
pub fn parse_count_opt(c: &Option<String>) -> (r: Option<i64>)
    ensures
        opt_int(r) == spec_parse_count_opt(opt_chars(*c)),
{
    let s = match c {
        Some(s) => s,
        None => {
            return None;
        },
    };
    assert(opt_chars(*c) == Some(s@));
    let chars = crate::text::str_to_chars(s.as_str());
    if chars.len() == 0 {
        return None;
    }
    let mut acc: i64 = 0;
    let mut i: usize = 0;
    while i < chars.len()
        invariant
            i <= chars@.len(),
            chars@ == s@,
            opt_chars(*c) == Some(s@),
            0 <= acc,
            forall|j: int| 0 <= j < i ==> is_digit_char(#[trigger] chars@[j]),
            acc == run_value(chars@.take(i as int)),
        decreases chars@.len() - i,
    {
        let u = chars[i] as u32;
        proof {
            assert(chars@.take(i + 1).drop_last() =~= chars@.take(i as int));
            assert(chars@.take(i + 1).last() == chars@[i as int]);
        }
        if !(0x30 <= u && u <= 0x39) {
            assert(!is_digit_char(s@[i as int]));
            return None;
        }
        let d = (u - 0x30) as i64;
        match acc.checked_mul(10) {
            Some(m) => match m.checked_add(d) {
                Some(nv) => {
                    acc = nv;
                },
                None => {
                    proof {
                        assert(run_value(chars@.take(i + 1)) > i64::MAX);
                        lemma_count_overflow(chars@, i + 1);
                        assert(run_value(s@) > i64::MAX);
                    }
                    return None;
                },
            },
            None => {
                proof {
                    assert(run_value(chars@.take(i + 1)) > i64::MAX);
                    lemma_count_overflow(chars@, i + 1);
                    assert(run_value(s@) > i64::MAX);
                }
                return None;
            },
        }
        i += 1;
    }
    proof {
        assert(chars@.take(chars@.len() as int) =~= chars@);
    }
    Some(acc)
}

/// Turns one batch-details answer into the row the store keeps: address
/// and thumbnail resolved, counters parsed, and the short flag derived
/// from the duration.
pub fn prepare_item(v: RemoteVideo) -> (r: ItemRecord)
    ensures
        r.id == v.id,
        r.title == v.title,
        r.channel_id == v.channel_id,
        r.published_at == v.published_at,
        r.url@ == watch_url_of(v.id@),
        r.thumbnail@ == spec_best_url(v.thumbnails),
        r.view_count == spec_parse_count(match v.statistics {
            Some(ref st) => opt_chars(st.view_count),
            None => None,
        }),
        opt_int(r.like_count) == spec_parse_count_opt(match v.statistics {
            Some(ref st) => opt_chars(st.like_count),
            None => None,
        }),
        opt_int(r.comment_count) == spec_parse_count_opt(match v.statistics {
            Some(ref st) => opt_chars(st.comment_count),
            None => None,
        }),
        r.is_short == (spec_duration_seconds(match v.content_details {
            Some(ref cd) => cd.duration@,
            None => "PT0S"@,
        }) <= 60),
{
    let thumbnail = v.thumbnails.get_best_url();
    let (view_count, like_count, comment_count) = match &v.statistics {
        Some(st) => (parse_count(&st.view_count), parse_count_opt(&st.like_count), parse_count_opt(
            &st.comment_count,
        )),
        None => (0, None, None),
    };
    let duration: Option<String> = match &v.content_details {
        Some(cd) => Some(cd.duration.clone()),
        None => None,
    };
    let is_short = is_short_duration(&duration);
    let mut url = crate::text::str_to_chars("https://www.youtube.com/watch?v=");
    let id_chars = crate::text::str_to_chars(v.id.as_str());
    let mut k: usize = 0;
    let ghost base = url@;
    while k < id_chars.len()
        invariant
            k <= id_chars@.len(),
            id_chars@ == v.id@,
            url@ == base + id_chars@.take(k as int),
        decreases id_chars@.len() - k,
    {
        url.push(id_chars[k]);
        proof {
            assert(base + id_chars@.take(k + 1) =~= (base + id_chars@.take(k as int)).push(
                id_chars@[k as int],
            ));
        }
        k += 1;
    }
    proof {
        assert(id_chars@.take(id_chars@.len() as int) =~= id_chars@);
    }
    ItemRecord {
        id: v.id,
        title: v.title,
        url: crate::text::chars_to_string(&url),
        thumbnail,
        channel_id: v.channel_id,
        published_at: v.published_at,
        view_count,
        like_count,
        comment_count,
        is_short,
    }
}

/// One stored catalogue row: the remote-fed fields, the user's favorite
/// flag, and the download-owned state.
pub struct StoredItem {
    pub item: ItemRecord,
    pub is_favorite: bool,
    pub download: crate::download::ItemDownloadState,
}

/// The download state a newly inserted row starts with.
pub open spec fn fresh_download() -> crate::download::ItemDownloadState {
    crate::download::ItemDownloadState {
        status: crate::download::DownloadStatus::Idle,
        error: None,
        local_path: None,
        is_downloaded: false,
        downloaded_at: None,
    }
}

/// A stored row refreshed from remote data: only the title and the
/// counters change; identity, publish time, short flag, favorite flag
/// and every download-owned field stay.
pub open spec fn merged(s: StoredItem, n: ItemRecord) -> StoredItem {
    StoredItem {
        item: ItemRecord {
            title: n.title,
            view_count: n.view_count,
            like_count: n.like_count,
            comment_count: n.comment_count,
            ..s.item
        },
        ..s
    }
}

/// Item ids are unique in the stored list.
pub open spec fn ids_unique(items: Seq<StoredItem>) -> bool {
    forall|i: int, j: int|
        0 <= i < j < items.len() ==> (#[trigger] items[i]).item.id@ != (
        #[trigger] items[j]).item.id@
}

/// `i` is the position of the row with `incoming`'s id.
pub open spec fn id_at(items: Seq<StoredItem>, k: Seq<char>, i: int) -> bool {
    &&& 0 <= i < items.len()
    &&& items[i].item.id@ == k
    &&& forall|j: int| 0 <= j < i ==> (#[trigger] items[j]).item.id@ != k
}

/// Upserts one fetched item into the stored list.
///
/// An unseen id is appended as a fresh row (not favorite, download state
/// idle).  A known id has only its title and counters overwritten:
/// identity and download fields are never touched by a sync.
pub fn upsert_item(items: &mut Vec<StoredItem>, incoming: ItemRecord)
    requires
        ids_unique(old(items)@),
    ensures
        ids_unique(final(items)@),
        (forall|j: int|
            0 <= j < old(items)@.len() ==> (#[trigger] old(items)@[j]).item.id@ != incoming.id@)
            ==> final(items)@ == old(items)@.push(
            StoredItem { item: incoming, is_favorite: false, download: fresh_download() },
        ),
        forall|i: int|
            id_at(old(items)@, incoming.id@, i) ==> final(items)@ == old(items)@.update(
                i,
                merged(old(items)@[i], incoming),
            ),
{
    let mut i: usize = 0;
    while i < items.len()
        invariant
            i <= items@.len(),
            *items == *old(items),
            ids_unique(items@),
            forall|j: int| 0 <= j < i ==> (#[trigger] items@[j]).item.id@ != incoming.id@,
        decreases items@.len() - i,
    {
        if items[i].item.id.eq(&incoming.id) {
            let ghost found = i as int;
            items[i].item.title = incoming.title;
            items[i].item.view_count = incoming.view_count;
            items[i].item.like_count = incoming.like_count;
            items[i].item.comment_count = incoming.comment_count;
            proof {
                assert(items@ =~= old(items)@.update(
                    found,
                    merged(old(items)@[found], incoming),
                ));
                assert forall|i2: int| id_at(old(items)@, incoming.id@, i2) implies i2
                    == found by {
                    if i2 < found {
                        assert(old(items)@[i2].item.id@ != incoming.id@);
                    } else if i2 > found {
                        assert(old(items)@[found].item.id@ != incoming.id@);
                    }
                }
                assert forall|a: int, b: int|
                    0 <= a < b < items@.len() implies (#[trigger] items@[a]).item.id@ != (
                #[trigger] items@[b]).item.id@ by {
                    assert(items@[a].item.id@ == old(items)@[a].item.id@);
                    assert(items@[b].item.id@ == old(items)@[b].item.id@);
                }
            }
            return ;
        }
        i += 1;
    }
    let ghost pre = items@;
    let fresh = crate::download::ItemDownloadState {
        status: crate::download::DownloadStatus::Idle,
        error: None,
        local_path: None,
        is_downloaded: false,
        downloaded_at: None,
    };
    assert(fresh == fresh_download());
    items.push(StoredItem { item: incoming, is_favorite: false, download: fresh });
    proof {
        assert forall|a: int, b: int|
            0 <= a < b < items@.len() implies (#[trigger] items@[a]).item.id@ != (
        #[trigger] items@[b]).item.id@ by {
            if b < pre.len() {
            } else {
                assert(items@[b].item.id@ == incoming.id@);
                assert(pre[a].item.id@ != incoming.id@);
            }
        }
    }
}

/// The ids joined with commas, as the batch-details call wants them.
pub open spec fn join_comma(ids: Seq<Seq<char>>) -> Seq<char>
    decreases ids.len(),
{
    if ids.len() == 0 {
        Seq::empty()
    } else if ids.len() == 1 {
        ids[0]
    } else {
        join_comma(ids.drop_last()) + ","@ + ids.last()
    }
}

/// Joins item ids with commas for one batch-details request.
pub fn join_ids(ids: &Vec<String>) -> (r: String)
    ensures
        r@ == join_comma(ids@.map_values(|s: String| s@)),
{
    proof {
        reveal_strlit(",");
    }
    let ghost views = ids@.map_values(|s: String| s@);
    let mut out: Vec<char> = Vec::new();
    let mut i: usize = 0;
    proof {
        assert(out@ =~= join_comma(views.take(0)));
    }
    while i < ids.len()
        invariant
            i <= ids@.len(),
            views == ids@.map_values(|s: String| s@),
            out@ == join_comma(views.take(i as int)),
        decreases ids@.len() - i,
    {
        proof {
            reveal_strlit(",");
            assert(views.take(i + 1).drop_last() =~= views.take(i as int));
            assert(views.take(i + 1).last() == views[i as int]);
        }
        if i > 0 {
            out.push(',');
        }
        let id_chars = crate::text::str_to_chars(ids[i].as_str());
        let mut k: usize = 0;
        let ghost base = out@;
        while k < id_chars.len()
            invariant
                k <= id_chars@.len(),
                views == ids@.map_values(|s: String| s@),
                id_chars@ == views[i as int],
                i < ids@.len(),
                out@ == base + id_chars@.take(k as int),
            decreases id_chars@.len() - k,
        {
            out.push(id_chars[k]);
            proof {
                assert(base + id_chars@.take(k + 1) =~= (base + id_chars@.take(k as int)).push(
                    id_chars@[k as int],
                ));
            }
            k += 1;
        }
        proof {
            assert(id_chars@.take(id_chars@.len() as int) =~= id_chars@);
            if i == 0 {
                assert(out@ =~= join_comma(views.take(1)));
            } else {
                assert(out@ =~= join_comma(views.take(i as int)) + ","@ + views[i as int]);
            }
        }
        i += 1;
    }
    proof {
        assert(views.take(views.len() as int) =~= views);
    }
    crate::text::chars_to_string(&out)
}

} // verus!
