//! The download supervisor's persisted state machine, job table, outcome
//! decision, and downloader command lines.
//!
//! One external downloader process runs per requested item.  The item's
//! download status walks `idle -> downloading -> {completed, error,
//! cancelled}`, and a history clear takes any terminal state back to
//! `idle` without touching what was downloaded.  The job table maps item
//! ids to process ids so a cancellation request can find its target.

use vstd::prelude::*;

use crate::text::has_match;

verus! {

/// The per-item download state machine's states.
#[derive(Clone, Copy, Debug, PartialEq, Eq, Structural)]
pub enum DownloadStatus {
    Idle,
    Downloading,
    Completed,
    Error,
    Cancelled,
}

impl DownloadStatus {
    /// The states a history clear resets.
    pub open spec fn is_terminal(self) -> bool {
        self == DownloadStatus::Completed || self == DownloadStatus::Error || self
            == DownloadStatus::Cancelled
    }

    /// Whether this is a terminal state.
    pub fn terminal(&self) -> (r: bool)
        ensures
            r == self.is_terminal(),
    {
        match self {
            DownloadStatus::Completed => true,
            DownloadStatus::Error => true,
            DownloadStatus::Cancelled => true,
            _ => false,
        }
    }
}

/// The download-owned fields of one item.
pub struct ItemDownloadState {
    pub status: DownloadStatus,
    pub error: Option<String>,
    pub local_path: Option<String>,
    pub is_downloaded: bool,
    pub downloaded_at: Option<i64>,
}

impl ItemDownloadState {
    /// Marks the item downloading and clears any prior error; nothing
    /// else changes.
    pub fn mark_downloading(self) -> (r: ItemDownloadState)
        ensures
            r.status == DownloadStatus::Downloading,
            r.error is None,
            r.local_path == self.local_path,
            r.is_downloaded == self.is_downloaded,
            r.downloaded_at == self.downloaded_at,
    {
        ItemDownloadState { status: DownloadStatus::Downloading, error: None, ..self }
    }

    /// Records a successful download finished at `now` and stored at
    /// `path`.
    pub fn mark_completed(self, path: String, now: i64) -> (r: ItemDownloadState)
        ensures
            r.status == DownloadStatus::Completed,
            r.local_path == Some(path),
            r.is_downloaded == true,
            r.downloaded_at == Some(now),
            r.error == self.error,
    {
        ItemDownloadState {
            status: DownloadStatus::Completed,
            local_path: Some(path),
            is_downloaded: true,
            downloaded_at: Some(now),
            ..self
        }
    }

    /// Records a failed download with its diagnostic text; what was
    /// downloaded before stays.
    pub fn mark_failed(self, message: String) -> (r: ItemDownloadState)
        ensures
            r.status == DownloadStatus::Error,
            r.error == Some(message),
            r.local_path == self.local_path,
            r.is_downloaded == self.is_downloaded,
            r.downloaded_at == self.downloaded_at,
    {
        ItemDownloadState { status: DownloadStatus::Error, error: Some(message), ..self }
    }

    /// The history-clear transition: a terminal state goes back to idle
    /// and the error text is cleared, while the local path, the
    /// downloaded flag and the download time stay untouched.  A
    /// non-terminal state is left alone.
    pub fn clear_history(self) -> (r: ItemDownloadState)
        ensures
            self.status.is_terminal() ==> {
                &&& r.status == DownloadStatus::Idle
                &&& r.error is None
                &&& r.local_path == self.local_path
                &&& r.is_downloaded == self.is_downloaded
                &&& r.downloaded_at == self.downloaded_at
            },
            !self.status.is_terminal() ==> r == self,
    {
        if self.status.terminal() {
            ItemDownloadState { status: DownloadStatus::Idle, error: None, ..self }
        } else {
            self
        }
    }
}

/// The first `n` characters of a string.
pub fn truncate_chars(s: &Vec<char>, n: usize) -> (r: Vec<char>)
    ensures
        r@ == if s@.len() <= n {
            s@
        } else {
            s@.take(n as int)
        },
{
    if s.len() <= n {
        let r = crate::text::slice_range(s, 0, s.len());
        proof {
            assert(s@.subrange(0, s@.len() as int) =~= s@);
        }
        r
    } else {
        let r = crate::text::slice_range(s, 0, n);
        proof {
            assert(s@.subrange(0, n as int) =~= s@.take(n as int));
        }
        r
    }
}

/// How a finished download is judged.
pub enum DownloadOutcome {
    /// The process succeeded; the path is the captured one, the caller's
    /// fallback, or a fixed placeholder.
    Success { path: String },
    /// The process failed; the message holds up to two hundred
    /// characters of diagnostics.
    Failure { message: String },
}

/// The diagnostic text a failure reports, before truncation: a fixed
/// sentence when a failing exit left no diagnostics, a generic one when
/// the failure flag fired without any, else the collected text.
pub open spec fn failure_text(exit_success: bool, diagnostics: Seq<char>) -> Seq<char> {
    if !exit_success && diagnostics.len() == 0 {
        "Download cancelled or failed unexpectedly"@
    } else if diagnostics.len() == 0 {
        "Unknown error"@
    } else {
        diagnostics
    }
}

/// The first two hundred characters of `s`.
pub open spec fn clipped(s: Seq<char>) -> Seq<char> {
    if s.len() <= 200 {
        s
    } else {
        s.take(200)
    }
}

/// Judges a finished download.
///
/// A non-zero exit or a flagged failure is a failure, reported with the
/// clipped diagnostics (or a fixed message when none were collected).
/// Otherwise the download succeeded and its path is the captured one,
/// else the caller's fallback from scanning the target directory, else a
/// placeholder.
pub fn decide_outcome(
    exit_success: bool,
    failure_flagged: bool,
    captured: Option<String>,
    fallback: Option<String>,
    diagnostics: &Vec<char>,
) -> (r: DownloadOutcome)
    ensures
        (!exit_success || failure_flagged) <==> r is Failure,
        match r {
            DownloadOutcome::Failure { message } => message@ == clipped(
                failure_text(exit_success, diagnostics@),
            ),
            DownloadOutcome::Success { path } => path@ == match captured {
                Some(p) => p@,
                None => match fallback {
                    Some(f) => f@,
                    None => "Unknown Path"@,
                },
            },
        },
{
    if !exit_success || failure_flagged {
        let text: Vec<char> = if diagnostics.len() == 0 {
            if !exit_success {
                crate::text::str_to_chars("Download cancelled or failed unexpectedly")
            } else {
                crate::text::str_to_chars("Unknown error")
            }
        } else {
            let r = crate::text::slice_range(diagnostics, 0, diagnostics.len());
            proof {
                assert(diagnostics@.subrange(0, diagnostics@.len() as int) =~= diagnostics@);
            }
            r
        };
        let message = truncate_chars(&text, 200);
        DownloadOutcome::Failure { message: crate::text::chars_to_string(&message) }
    } else {
        let path: String = match captured {
            Some(p) => p,
            None => match fallback {
                Some(f) => f,
                None => {
                    let v = crate::text::str_to_chars("Unknown Path");
                    crate::text::chars_to_string(&v)
                },
            },
        };
        DownloadOutcome::Success { path }
    }
}

/// The process id stored under key `k`, searching from the front.
pub open spec fn lookup_entries(es: Seq<(String, u32)>, k: Seq<char>) -> Option<u32>
    decreases es.len(),
{
    if es.len() == 0 {
        None
    } else if es[0].0@ == k {
        Some(es[0].1)
    } else {
        lookup_entries(es.drop_first(), k)
    }
}

/// The shared table of running downloads: item id to process id.
///
/// One exclusive lock guards it in the running system; tasks share only
/// the identifier needed to request cancellation, never the process
/// handle itself.
pub struct JobTable {
    entries: Vec<(String, u32)>,
}

impl JobTable {
    /// Keys are unique, so a lookup's first hit is its only one.
    pub closed spec fn wf(self) -> bool {
        forall|i: int, j: int|
            0 <= i < j < self.entries.len() ==> (#[trigger] self.entries[i]).0@ != (
            #[trigger] self.entries[j]).0@
    }

    /// The process id registered for item `k`.
    pub closed spec fn spec_lookup(self, k: Seq<char>) -> Option<u32> {
        lookup_entries(self.entries@, k)
    }

    /// An empty table.
    pub fn new() -> (r: JobTable)
        ensures
            r.wf(),
            forall|k: Seq<char>| r.spec_lookup(k) is None,
    {
        JobTable { entries: Vec::new() }
    }

    /// The process id for item `id`, if one is tracked.
    pub fn get(&self, id: &String) -> (r: Option<u32>)
        ensures
            r == self.spec_lookup(id@),
    {
        let mut i: usize = 0;
        proof {
            assert(self.entries@.skip(0) =~= self.entries@);
        }
        while i < self.entries.len()
            invariant
                i <= self.entries@.len(),
                lookup_entries(self.entries@, id@) == lookup_entries(
                    self.entries@.skip(i as int),
                    id@,
                ),
            decreases self.entries@.len() - i,
        {
            proof {
                assert(self.entries@.skip(i as int)[0] == self.entries@[i as int]);
                assert(self.entries@.skip(i as int).drop_first() =~= self.entries@.skip(i + 1));
            }
            if self.entries[i].0.eq(id) {
                return Some(self.entries[i].1);
            }
            i += 1;
        }
        proof {
            assert(self.entries@.skip(self.entries@.len() as int) =~= Seq::<(String, u32)>::empty());
        }
        None
    }

    /// Registers process `pid` for item `id`, replacing any earlier
    /// entry for the same item.  Other items are unaffected.
    pub fn insert(&mut self, id: String, pid: u32)
        requires
            old(self).wf(),
        ensures
            final(self).wf(),
            final(self).spec_lookup(id@) == Some(pid),
            forall|k: Seq<char>|
                k != id@ ==> #[trigger] final(self).spec_lookup(k) == old(self).spec_lookup(k),
    {
        let ghost orig = self.entries@;
        let mut i: usize = 0;
        while i < self.entries.len()
            invariant
                i <= self.entries@.len(),
                self.entries@ == orig,
                old(self).wf(),
                orig == old(self).entries@,
                forall|j: int| 0 <= j < i ==> (#[trigger] orig[j]).0@ != id@,
            decreases self.entries@.len() - i,
        {
            if self.entries[i].0.eq(&id) {
                self.entries[i].1 = pid;
                proof {
                    let es = self.entries@;
                    assert(es == orig.update(i as int, (orig[i as int].0, pid)));
                    lemma_lookup_in_range(orig, i as int, pid, id@);
                    assert forall|k: Seq<char>| k != id@ implies #[trigger] lookup_entries(es, k)
                        == lookup_entries(orig, k) by {
                        lemma_lookup_update_other(orig, i as int, pid, k);
                    }
                }
                return ;
            }
            i += 1;
        }
        let ghost pre = self.entries@;
        self.entries.push((id, pid));
        proof {
            lemma_lookup_push(pre, self.entries@[pre.len() as int], id@);
            assert forall|k: Seq<char>| k != id@ implies #[trigger] lookup_entries(
                self.entries@,
                k,
            ) == lookup_entries(pre, k) by {
                lemma_lookup_push(pre, self.entries@[pre.len() as int], k);
            }
        }
    }

    /// Drops the entry for item `id`, if any.  Other items are
    /// unaffected.
    pub fn remove(&mut self, id: &String)
        requires
            old(self).wf(),
        ensures
            final(self).wf(),
            final(self).spec_lookup(id@) is None,
            forall|k: Seq<char>|
                k != id@ ==> #[trigger] final(self).spec_lookup(k) == old(self).spec_lookup(k),
    {
        let ghost orig = self.entries@;
        let mut i: usize = 0;
        while i < self.entries.len()
            invariant
                i <= self.entries@.len(),
                self.entries@ == orig,
                old(self).wf(),
                orig == old(self).entries@,
                forall|j: int| 0 <= j < i ==> (#[trigger] orig[j]).0@ != id@,
            decreases self.entries@.len() - i,
        {
            if self.entries[i].0.eq(id) {
                self.entries.remove(i);
                proof {
                    assert(self.entries@ == orig.remove(i as int));
                    assert forall|k: Seq<char>| k != id@ implies #[trigger] lookup_entries(
                        self.entries@,
                        k,
                    ) == lookup_entries(orig, k) by {
                        lemma_lookup_remove_other(orig, i as int, k);
                    }
                    assert(forall|j: int|
                        0 <= j < self.entries@.len() ==> (#[trigger] self.entries@[j]).0@ != id@);
                    lemma_lookup_none(self.entries@, id@);
                }
                return ;
            }
            i += 1;
        }
        proof {
            lemma_lookup_none(orig, id@);
        }
    }
}

/// A key held by no entry looks up to nothing.
proof fn lemma_lookup_none(es: Seq<(String, u32)>, k: Seq<char>)
    requires
        forall|j: int| 0 <= j < es.len() ==> (#[trigger] es[j]).0@ != k,
    ensures
        lookup_entries(es, k) is None,
    decreases es.len(),
{
    if es.len() > 0 {
        assert(forall|j: int|
            0 <= j < es.drop_first().len() ==> (#[trigger] es.drop_first()[j]).0@ == es[j + 1].0@);
        lemma_lookup_none(es.drop_first(), k);
    }
}

/// Updating the pid at the first entry holding `k` makes `k` look up to
/// the new pid.
proof fn lemma_lookup_in_range(es: Seq<(String, u32)>, i: int, pid: u32, k: Seq<char>)
    requires
        0 <= i < es.len(),
        es[i].0@ == k,
        forall|j: int| 0 <= j < i ==> (#[trigger] es[j]).0@ != k,
    ensures
        lookup_entries(es.update(i, (es[i].0, pid)), k) == Some(pid),
    decreases i,
{
    let up = es.update(i, (es[i].0, pid));
    if i == 0 {
        assert(up[0].0@ == k);
    } else {
        assert(up[0] == es[0]);
        assert(up.drop_first() =~= es.drop_first().update(i - 1, (es[i].0, pid)));
        assert(es.drop_first()[i - 1] == es[i]);
        assert(forall|j: int|
            0 <= j < i - 1 ==> (#[trigger] es.drop_first()[j]).0@ == es[j + 1].0@);
        lemma_lookup_in_range(es.drop_first(), i - 1, pid, k);
    }
}

/// Updating one entry's pid leaves every other key's lookup alone.
proof fn lemma_lookup_update_other(es: Seq<(String, u32)>, i: int, pid: u32, k: Seq<char>)
    requires
        0 <= i < es.len(),
        es[i].0@ != k,
    ensures
        lookup_entries(es.update(i, (es[i].0, pid)), k) == lookup_entries(es, k),
    decreases i,
{
    let up = es.update(i, (es[i].0, pid));
    if i == 0 {
        assert(up[0].0@ != k);
        assert(up.drop_first() =~= es.drop_first());
    } else {
        assert(up[0] == es[0]);
        if es[0].0@ != k {
            assert(up.drop_first() =~= es.drop_first().update(i - 1, (es[i].0, pid)));
            assert(es.drop_first()[i - 1] == es[i]);
            lemma_lookup_update_other(es.drop_first(), i - 1, pid, k);
        }
    }
}

/// A pushed entry answers only for its own key.
proof fn lemma_lookup_push(es: Seq<(String, u32)>, e: (String, u32), k: Seq<char>)
    requires
        forall|j: int| 0 <= j < es.len() ==> (#[trigger] es[j]).0@ != e.0@,
    ensures
        lookup_entries(es.push(e), k) == if k == e.0@ {
            Some(e.1)
        } else {
            lookup_entries(es, k)
        },
    decreases es.len(),
{
    if es.len() == 0 {
        assert(es.push(e)[0] == e);
        assert(es.push(e).drop_first() =~= Seq::<(String, u32)>::empty());
        if k == e.0@ {
            assert(lookup_entries(es.push(e), k) == Some(e.1));
        } else {
            assert(lookup_entries(Seq::<(String, u32)>::empty(), k) is None);
            assert(lookup_entries(es.push(e), k) is None);
        }
    } else {
        assert(es.push(e)[0] == es[0]);
        assert(es.push(e).drop_first() =~= es.drop_first().push(e));
        assert(forall|j: int|
            0 <= j < es.drop_first().len() ==> (#[trigger] es.drop_first()[j]).0@ == es[j + 1].0@);
        lemma_lookup_push(es.drop_first(), e, k);
        if es[0].0@ == k {
            assert(lookup_entries(es.push(e), k) == Some(es[0].1));
            assert(lookup_entries(es, k) == Some(es[0].1));
        } else {
            assert(lookup_entries(es.push(e), k) == lookup_entries(es.drop_first().push(e), k));
            assert(lookup_entries(es, k) == lookup_entries(es.drop_first(), k));
        }
    }
}

/// The status name a fresh catalogue row carries.
pub fn default_download_status() -> (r: String)
    ensures
        r@ == "idle"@,
{
    let v = crate::text::str_to_chars("idle");
    crate::text::chars_to_string(&v)
}

/// Appends the characters of `src` to `dst`.
fn append_chars(dst: &mut Vec<char>, src: &Vec<char>)
    ensures
        final(dst)@ == old(dst)@ + src@,
{
    let ghost base = dst@;
    let mut k: usize = 0;
    while k < src.len()
        invariant
            k <= src@.len(),
            dst@ == base + src@.take(k as int),
        decreases src@.len() - k,
    {
        dst.push(src[k]);
        proof {
            assert(base + src@.take(k + 1) =~= (base + src@.take(k as int)).push(src@[k as int]));
        }
        k += 1;
    }
    proof {
        assert(src@.take(src@.len() as int) =~= src@);
        assert(base + src@.take(src@.len() as int) =~= base + src@);
    }
}

/// The output template handed to the downloader: group and channel
/// directories under the base path, then a title-and-id file pattern,
/// joined by the platform's separator.
pub open spec fn spec_output_template(
    base: Seq<char>,
    group: Seq<char>,
    channel: Seq<char>,
    sep: char,
) -> Seq<char> {
    base + seq![sep] + group + seq![sep] + channel + seq![sep] + "%(title)s [%(id)s].%(ext)s"@
}

/// Builds the downloader's output template.
pub fn build_output_template(base: &str, group: &str, channel: &str, sep: char) -> (r: String)
    ensures
        r@ == spec_output_template(base@, group@, channel@, sep),
{
    let mut out = crate::text::str_to_chars(base);
    let group_chars = crate::text::str_to_chars(group);
    let channel_chars = crate::text::str_to_chars(channel);
    let pattern = crate::text::str_to_chars("%(title)s [%(id)s].%(ext)s");
    out.push(sep);
    append_chars(&mut out, &group_chars);
    out.push(sep);
    append_chars(&mut out, &channel_chars);
    out.push(sep);
    append_chars(&mut out, &pattern);
    proof {
        assert(out@ =~= spec_output_template(base@, group@, channel@, sep));
    }
    crate::text::chars_to_string(&out)
}

/// The directory name a group maps to: its sanitized name, or the
/// unfiled-group name when the item has no group.
pub fn resolve_group_dir(group_name: &Option<String>) -> (r: String)
    ensures
        r@ == match *group_name {
            Some(ref g) => crate::sanitize::spec_sanitize(g@),
            None => "未分组"@,
        },
{
    match group_name {
        Some(g) => crate::sanitize::sanitize_filename(g.as_str()),
        None => {
            let v = crate::text::str_to_chars("未分组");
            crate::text::chars_to_string(&v)
        },
    }
}

/// The cookie arguments handed to the downloader: a browser profile by
/// name, or a cookie file when it exists; nothing for `none`, an empty
/// source, or a missing file.
pub open spec fn spec_cookie_args(source: Seq<char>, file_exists: bool) -> Seq<Seq<char>> {
    if source.len() == 0 || source == "none"@ {
        Seq::empty()
    } else if crate::text::is_prefix(source, "browser:"@) {
        if source.skip(8).len() > 0 {
            seq!["--cookies-from-browser"@, source.skip(8)]
        } else {
            Seq::empty()
        }
    } else if file_exists {
        seq!["--cookies"@, source]
    } else {
        Seq::empty()
    }
}

/// The proxy arguments: the flag and address when one is configured.
pub open spec fn spec_proxy_args(proxy: Option<Seq<char>>) -> Seq<Seq<char>> {
    match proxy {
        Some(p) => if p.len() > 0 {
            seq!["--proxy"@, p]
        } else {
            Seq::empty()
        },
        None => Seq::empty(),
    }
}

/// The fixed tail of every download invocation: format selection, the
/// output template, line-buffered progress, the item's address, and a
/// cache clear.
pub open spec fn spec_fixed_args(template: Seq<char>, url: Seq<char>) -> Seq<Seq<char>> {
    seq![
        "-f"@,
        "bestvideo[ext=mp4][vcodec^=avc]+bestaudio[ext=m4a]/best[ext=mp4]/best"@,
        "--recode-video"@,
        "mp4"@,
        "-o"@,
        template,
        "--no-playlist"@,
        "--newline"@,
        "--progress"@,
        "--progress-template"@,
        "%(progress)j"@,
        url,
        "--rm-cache-dir"@,
    ]
}

/// The whole argument list of one download invocation.
pub open spec fn spec_downloader_args(
    template: Seq<char>,
    url: Seq<char>,
    proxy: Option<Seq<char>>,
    cookie_source: Option<Seq<char>>,
    cookie_file_exists: bool,
) -> Seq<Seq<char>> {
    spec_proxy_args(proxy) + (match cookie_source {
        Some(c) => spec_cookie_args(c, cookie_file_exists),
        None => Seq::empty(),
    }) + spec_fixed_args(template, url)
}

/// Pushes a literal argument.
fn push_arg(args: &mut Vec<String>, a: &str)
    ensures
        final(args)@.map_values(|s: String| s@) == old(args)@.map_values(|s: String| s@).push(a@),
{
    let v = crate::text::str_to_chars(a);
    args.push(crate::text::chars_to_string(&v));
    proof {
        assert(args@.map_values(|s: String| s@) =~= old(args)@.map_values(|s: String| s@).push(
            a@,
        ));
    }
}

/// Builds the argument list of one download invocation: optional proxy,
/// optional cookies (whose file the caller has checked for existence),
/// then the fixed download arguments.
pub fn downloader_args(
    output_template: &String,
    video_url: &String,
    proxy: &Option<String>,
    cookie_source: &Option<String>,
    cookie_file_exists: bool,
) -> (r: Vec<String>)
    ensures
        r@.map_values(|s: String| s@) == spec_downloader_args(
            output_template@,
            video_url@,
            crate::catalogue::opt_chars(*proxy),
            crate::catalogue::opt_chars(*cookie_source),
            cookie_file_exists,
        ),
{
    let mut args: Vec<String> = Vec::new();
    proof {
        assert(args@.map_values(|s: String| s@) =~= Seq::<Seq<char>>::empty());
    }
    match proxy {
        Some(p) => {
            if !p.as_str().is_empty() {
                push_arg(&mut args, "--proxy");
                let ghost mid0 = args@.map_values(|s: String| s@);
                args.push(p.clone());
                proof {
                    assert(args@.map_values(|s: String| s@) =~= mid0.push(p@));
                    assert(crate::catalogue::opt_chars(*proxy) == Some(p@));
                    assert(args@.map_values(|s: String| s@) =~= seq!["--proxy"@, p@]);
                }
            }
        },
        None => {},
    }
    let ghost after_proxy = args@.map_values(|s: String| s@);
    proof {
        assert(after_proxy =~= spec_proxy_args(crate::catalogue::opt_chars(*proxy)));
    }
    match cookie_source {
        Some(c) => {
            proof {
                reveal_strlit("browser:");
            }
            let chars = crate::text::str_to_chars(c.as_str());
            let none_word = crate::text::str_to_chars("none");
            let browser_prefix = crate::text::str_to_chars("browser:");
            if chars.len() == 0 || crate::text::chars_eq(&chars, &none_word) {
            } else if crate::text::starts_with_sub(&chars, &browser_prefix) {
                let n = chars.len();
                let name = crate::text::slice_range(&chars, 8, n);
                proof {
                    assert(name@ =~= c@.skip(8));
                }
                if name.len() > 0 {
                    push_arg(&mut args, "--cookies-from-browser");
                    let ghost mid = args@.map_values(|s: String| s@);
                    args.push(crate::text::chars_to_string(&name));
                    proof {
                        assert(args@.map_values(|s: String| s@) =~= mid.push(name@));
                    }
                }
            } else if cookie_file_exists {
                push_arg(&mut args, "--cookies");
                let ghost mid = args@.map_values(|s: String| s@);
                args.push(c.clone());
                proof {
                    assert(args@.map_values(|s: String| s@) =~= mid.push(c@));
                }
            }
        },
        None => {},
    }
    proof {
        assert(args@.map_values(|s: String| s@) =~= after_proxy + (match crate::catalogue::opt_chars(
            *cookie_source,
        ) {
            Some(cs) => spec_cookie_args(cs, cookie_file_exists),
            None => Seq::<Seq<char>>::empty(),
        }));
    }
    let ghost before_fixed = args@.map_values(|s: String| s@);
    push_arg(&mut args, "-f");
    push_arg(&mut args, "bestvideo[ext=mp4][vcodec^=avc]+bestaudio[ext=m4a]/best[ext=mp4]/best");
    push_arg(&mut args, "--recode-video");
    push_arg(&mut args, "mp4");
    push_arg(&mut args, "-o");
    let ghost mid1 = args@.map_values(|s: String| s@);
    args.push(output_template.clone());
    proof {
        assert(args@.map_values(|s: String| s@) =~= mid1.push(output_template@));
    }
    push_arg(&mut args, "--no-playlist");
    push_arg(&mut args, "--newline");
    push_arg(&mut args, "--progress");
    push_arg(&mut args, "--progress-template");
    push_arg(&mut args, "%(progress)j");
    let ghost mid2 = args@.map_values(|s: String| s@);
    args.push(video_url.clone());
    proof {
        assert(args@.map_values(|s: String| s@) =~= mid2.push(video_url@));
    }
    push_arg(&mut args, "--rm-cache-dir");
    proof {
        assert(args@.map_values(|s: String| s@) =~= before_fixed + spec_fixed_args(
            output_template@,
            video_url@,
        ));
    }
    args
}

/// The concurrency limit a configured value yields: at least one permit.
pub fn normalized_limit(limit: i64) -> (r: usize)
    ensures
        limit < 1 ==> r == 1,
        limit >= 1 ==> r == limit as usize,
{
    if limit < 1 {
        1
    } else {
        limit as usize
    }
}

/// Judges a cookie probe: the probe process must succeed and neither
/// stream may carry a sign-in demand or a bot-check hint.
pub fn cookie_probe_ok(status_success: bool, stdout: &str, stderr: &str) -> (r: bool)
    ensures
        r == (status_success && !has_match(stderr@, "Sign in to confirm"@) && !has_match(
            stdout@,
            "Sign in to confirm"@,
        ) && !has_match(stderr@, "bot"@)),
{
    if !status_success {
        return false;
    }
    let out_chars = crate::text::str_to_chars(stdout);
    let err_chars = crate::text::str_to_chars(stderr);
    let sign_in = crate::text::str_to_chars("Sign in to confirm");
    let bot = crate::text::str_to_chars("bot");
    !crate::text::contains_sub(&err_chars, &sign_in) && !crate::text::contains_sub(
        &out_chars,
        &sign_in,
    ) && !crate::text::contains_sub(&err_chars, &bot)
}

/// How often `c` occurs in `s`.
pub open spec fn count_char(s: Seq<char>, c: char) -> int
    decreases s.len(),
{
    if s.len() == 0 {
        0
    } else {
        count_char(s.drop_last(), c) + if s.last() == c {
            1int
        } else {
            0int
        }
    }
}

/// A character occurring nowhere counts zero times.
proof fn lemma_count_char_zero(s: Seq<char>, c: char)
    requires
        forall|j: int| 0 <= j < s.len() ==> s[j] != c,
    ensures
        count_char(s, c) == 0,
    decreases s.len(),
{
    if s.len() > 0 {
        lemma_count_char_zero(s.drop_last(), c);
    }
}

/// A line of a cookie file that counts as a relevant cookie: not a
/// comment, not blank, at least seven tab-separated fields, and a domain
/// field naming the watched site or its host.
pub open spec fn cookie_line_counted(s: Seq<char>) -> bool {
    &&& !(s.len() > 0 && s[0] == '#')
    &&& crate::sanitize::trim_both(s, crate::sanitize::space_pred()).len() > 0
    &&& count_char(s, '\t') >= 6
    &&& {
        let dom = match crate::text::find_char_spec(s, '\t') {
            Some(t) => s.take(t),
            None => s,
        };
        has_match(dom, "youtube"@) || has_match(dom, "google"@)
    }
}

/// Whether one cookie-file line counts as a relevant cookie.
pub fn counts_cookie_line(line: &str) -> (r: bool)
    ensures
        r == cookie_line_counted(line@),
{
    let chars = crate::text::str_to_chars(line);
    if chars.len() > 0 && chars[0] == '#' {
        return false;
    }
    let trimmed = crate::sanitize::trim_ends(&chars, true);
    if trimmed.len() == 0 {
        return false;
    }
    let mut tabs: usize = 0;
    let mut i: usize = 0;
    while i < chars.len()
        invariant
            i <= chars@.len(),
            tabs <= i,
            tabs == count_char(chars@.take(i as int), '\t'),
        decreases chars@.len() - i,
    {
        proof {
            assert(chars@.take(i + 1).drop_last() =~= chars@.take(i as int));
            assert(chars@.take(i + 1).last() == chars@[i as int]);
        }
        if chars[i] == '\t' {
            tabs += 1;
        }
        i += 1;
    }
    proof {
        assert(chars@.take(chars@.len() as int) =~= chars@);
    }
    if tabs < 6 {
        return false;
    }
    match crate::text::find_char(&chars, '\t') {
        Some(t) => {
            proof {
                crate::text::lemma_find_char_spec_at(chars@, '\t', t as int);
            }
            let dom = crate::text::slice_range(&chars, 0, t);
            proof {
                assert(dom@ =~= chars@.take(t as int));
            }
            let site = crate::text::str_to_chars("youtube");
            let host = crate::text::str_to_chars("google");
            crate::text::contains_sub(&dom, &site) || crate::text::contains_sub(&dom, &host)
        },
        None => {
            proof {
                lemma_count_char_zero(chars@, '\t');
            }
            false
        },
    }
}

/// Removing an entry whose key differs from `k` leaves `k`'s lookup
/// alone.
proof fn lemma_lookup_remove_other(es: Seq<(String, u32)>, i: int, k: Seq<char>)
    requires
        0 <= i < es.len(),
        es[i].0@ != k,
    ensures
        lookup_entries(es.remove(i), k) == lookup_entries(es, k),
    decreases i,
{
    if i == 0 {
        assert(es.remove(0) =~= es.drop_first());
    } else {
        assert(es.remove(i)[0] == es[0]);
        if es[0].0@ != k {
            assert(es.remove(i).drop_first() =~= es.drop_first().remove(i - 1));
            assert(es.drop_first()[i - 1] == es[i]);
            lemma_lookup_remove_other(es.drop_first(), i - 1, k);
        }
    }
}

} // verus!
