//! Classifying the downloader's output lines into typed events.
//!
//! Lines are matched against a fixed, ordered rule set; the first rule
//! that matches wins and at most one event is emitted per line.  Four
//! rules capture an output path (destination, merge, already-downloaded,
//! container fixup); the last extracts a progress percentage with
//! optional speed and ETA tokens.  A line matching no rule, or one whose
//! capture cannot be extracted, emits nothing.

use vstd::prelude::*;

use crate::duration::is_digit_char;
use crate::duration::run_value;
use crate::sanitize::is_trim_space;
use crate::sanitize::trim_both;
use crate::sanitize::trim_leading;
use crate::text::find_char_spec;
use crate::text::find_spec;
use crate::text::has_match;
use crate::text::is_suffix;
use crate::text::rfind_char_spec;

verus! {

/// Marker of a destination line.
pub open spec fn dest_mark() -> Seq<char> {
    "[download] Destination:"@
}

/// The destination marker with the space that precedes the path.
pub open spec fn dest_mark_sp() -> Seq<char> {
    "[download] Destination: "@
}

/// Marker of a format-merge line.
pub open spec fn merger_mark() -> Seq<char> {
    "[Merger] Merging formats into"@
}

/// Marker of an already-downloaded line.
pub open spec fn already_mark() -> Seq<char> {
    "has already been downloaded"@
}

/// The download tag that precedes the path on an already-downloaded line.
pub open spec fn dl_tag() -> Seq<char> {
    "[download] "@
}

/// The suffix that follows the path on an already-downloaded line.
pub open spec fn already_suffix() -> Seq<char> {
    " has already been downloaded"@
}

/// First marker of a container-fixup line.
pub open spec fn fixup_mark() -> Seq<char> {
    "[Fixup"@
}

/// Second marker of a container-fixup line.
pub open spec fn correcting_mark() -> Seq<char> {
    "Correcting container of"@
}

/// The download tag a progress line must carry.
pub open spec fn dl_mark() -> Seq<char> {
    "[download]"@
}

/// The marker before a speed token.
pub open spec fn at_mark() -> Seq<char> {
    " at "@
}

/// The marker before an ETA token.
pub open spec fn eta_mark() -> Seq<char> {
    " ETA "@
}

/// The partial-file suffix stripped from destination paths.
pub open spec fn part_suffix() -> Seq<char> {
    ".part"@
}

/// Which rule a line matches first: 1 destination, 2 merge, 3 already
/// downloaded, 4 container fixup, 5 progress, 0 none.
pub open spec fn rule_of(s: Seq<char>) -> int {
    if has_match(s, dest_mark()) {
        1
    } else if has_match(s, merger_mark()) {
        2
    } else if has_match(s, already_mark()) {
        3
    } else if has_match(s, fixup_mark()) && has_match(s, correcting_mark()) {
        4
    } else if has_match(s, dl_mark()) && s.contains('%') {
        5
    } else {
        0
    }
}

/// Every trailing repetition of `.part` removed.
pub open spec fn strip_part(p: Seq<char>) -> Seq<char>
    decreases p.len(),
{
    if is_suffix(p, part_suffix()) && p.len() >= 5 {
        strip_part(p.take(p.len() - 5))
    } else {
        p
    }
}

/// The path a destination line captures: what follows the marker,
/// trimmed, with any partial-file suffix removed.
pub open spec fn dest_path_spec(s: Seq<char>) -> Option<Seq<char>> {
    match find_spec(s, dest_mark_sp()) {
        None => None,
        Some(i) => Some(strip_part(trim_both(s.skip(i + 24), crate::sanitize::space_pred()))),
    }
}

/// The path between the first and last double quote, when distinct.
pub open spec fn quoted_path_spec(s: Seq<char>) -> Option<Seq<char>> {
    match (find_char_spec(s, '"'), rfind_char_spec(s, '"')) {
        (Some(a), Some(b)) => if b > a {
            Some(s.subrange(a + 1, b))
        } else {
            None
        },
        _ => None,
    }
}

/// The path an already-downloaded line captures: between the download tag
/// and the fixed suffix.
pub open spec fn already_path_spec(s: Seq<char>) -> Option<Seq<char>> {
    match (find_spec(s, dl_tag()), find_spec(s, already_suffix())) {
        (Some(i), Some(e)) => if i + 11 <= e {
            Some(s.subrange(i + 11, e))
        } else {
            None
        },
        _ => None,
    }
}

/// Start of the numeric fragment that ends at `pos`: walk left over
/// digits and dots, and stop after at most one space.
pub open spec fn frag_start(s: Seq<char>, pos: int) -> int
    recommends
        0 <= pos <= s.len(),
    decreases pos,
{
    if pos <= 0 {
        0
    } else {
        let c = s[pos - 1];
        if is_digit_char(c) || c == '.' {
            frag_start(s, pos - 1)
        } else if c == ' ' {
            pos - 1
        } else {
            pos
        }
    }
}

/// Every character is a decimal digit.
pub open spec fn all_digits(t: Seq<char>) -> bool {
    forall|j: int| 0 <= j < t.len() ==> is_digit_char(#[trigger] t[j])
}

/// The first three fraction digits as thousandths: `"25"` weighs 250.
pub open spec fn frac_milli(fp: Seq<char>) -> int {
    frac_digit(fp, 0) * 100 + frac_digit(fp, 1) * 10 + frac_digit(fp, 2)
}

/// The `k`-th fraction digit, or zero past the end.
pub open spec fn frac_digit(fp: Seq<char>, k: int) -> int {
    if k < fp.len() {
        (fp[k] as u32) - 0x30
    } else {
        0
    }
}

/// The percentage a trimmed numeric token denotes, in thousandths:
/// digits with at most one dot, at least one digit in all, and a whole
/// part of at most a million.
pub open spec fn parse_pct_milli(t: Seq<char>) -> Option<int> {
    match find_char_spec(t, '.') {
        None => if t.len() > 0 && all_digits(t) && run_value(t) <= 1_000_000 {
            Some(run_value(t) * 1000)
        } else {
            None
        },
        Some(d) => {
            let ip = t.take(d);
            let fp = t.skip(d + 1);
            if all_digits(ip) && all_digits(fp) && ip.len() + fp.len() > 0 && run_value(ip)
                <= 1_000_000 {
                Some(run_value(ip) * 1000 + frac_milli(fp))
            } else {
                None
            }
        },
    }
}

/// The percentage captured by a progress line: the numeric token
/// immediately before the first percent sign.
pub open spec fn pct_of(s: Seq<char>) -> Option<int> {
    match find_char_spec(s, '%') {
        None => None,
        Some(p) => parse_pct_milli(
            trim_both(s.subrange(frag_start(s, p), p), crate::sanitize::space_pred()),
        ),
    }
}

/// Index of the first whitespace character, or the length.
pub open spec fn first_ws(t: Seq<char>) -> int
    decreases t.len(),
{
    if t.len() == 0 {
        0
    } else if is_trim_space(t[0]) {
        0
    } else {
        1 + first_ws(t.drop_first())
    }
}

/// The first whitespace-delimited token of `t`, possibly empty.
pub open spec fn first_token(t: Seq<char>) -> Seq<char> {
    let u = trim_leading(t, crate::sanitize::space_pred());
    u.take(first_ws(u))
}

/// The token following the first occurrence of `mark` (whose length is
/// `w`), or nothing.
pub open spec fn token_after(s: Seq<char>, mark: Seq<char>, w: int) -> Seq<char> {
    match find_spec(s, mark) {
        None => Seq::empty(),
        Some(i) => first_token(s.skip(i + w)),
    }
}

/// The speed token of a progress line.
pub open spec fn speed_of(s: Seq<char>) -> Seq<char> {
    token_after(s, at_mark(), 4)
}

/// The ETA token of a progress line.
pub open spec fn eta_of(s: Seq<char>) -> Seq<char> {
    token_after(s, eta_mark(), 5)
}

/// A matched rule whose capture cannot be extracted emits nothing.
pub open spec fn no_event(s: Seq<char>) -> bool {
    let r = rule_of(s);
    if r == 0 {
        true
    } else if r == 1 {
        dest_path_spec(s) is None
    } else if r == 2 {
        quoted_path_spec(s) is None
    } else if r == 3 {
        already_path_spec(s) is None
    } else if r == 4 {
        quoted_path_spec(s) is None
    } else {
        pct_of(s) is None
    }
}

/// A typed event extracted from one downloader output line.
pub enum LineEvent {
    /// The download's destination path was announced.
    Destination { path: String },
    /// Formats were merged into this path.
    Merged { path: String },
    /// The file already existed at this path.
    AlreadyDownloaded { path: String },
    /// The container was corrected in place at this path.
    Fixup { path: String },
    /// A progress report: percentage in thousandths, with the raw speed
    /// and ETA tokens (possibly empty).
    Progress { pct_milli: u64, speed: String, eta: String },
}

/// A digit run that outgrows its prefix stays outgrown.
proof fn lemma_run_value_overflow_extends(t: Seq<char>, i: int)
    requires
        0 <= i <= t.len(),
        run_value(t.take(i)) > u64::MAX,
    ensures
        run_value(t) > u64::MAX,
    decreases t.len() - i,
{
    if i < t.len() {
        assert(t.take(i + 1).drop_last() =~= t.take(i));
        assert(t.take(i + 1).last() == t[i]);
        assert(run_value(t.take(i + 1)) == run_value(t.take(i)) * 10 + ((t[i] as u32) - 0x30));
        lemma_run_value_overflow_extends(t, i + 1);
    } else {
        assert(t.take(i) =~= t);
    }
}

/// The value of an all-digit run, when it fits 64 bits.
fn digits_run(t: &Vec<char>) -> (r: Option<u64>)
    ensures
        match r {
            Some(v) => all_digits(t@) && v == run_value(t@),
            None => !all_digits(t@) || run_value(t@) > u64::MAX,
        },
{
    let mut acc: u64 = 0;
    let mut i: usize = 0;
    while i < t.len()
        invariant
            i <= t@.len(),
            all_digits(t@.take(i as int)),
            acc == run_value(t@.take(i as int)),
        decreases t@.len() - i,
    {
        let c = t[i];
        let u = c as u32;
        proof {
            assert(t@.take(i + 1).drop_last() =~= t@.take(i as int));
            assert(t@.take(i + 1).last() == t@[i as int]);
        }
        if !(0x30 <= u && u <= 0x39) {
            return None;
        }
        let d = (u - 0x30) as u64;
        match acc.checked_mul(10) {
            Some(m) => match m.checked_add(d) {
                Some(nv) => {
                    acc = nv;
                },
                None => {
                    proof {
                        lemma_run_value_overflow_extends(t@, i + 1);
                    }
                    return None;
                },
            },
            None => {
                proof {
                    assert(run_value(t@.take(i + 1)) > u64::MAX);
                    lemma_run_value_overflow_extends(t@, i + 1);
                }
                return None;
            },
        }
        i += 1;
    }
    proof {
        assert(t@.take(t@.len() as int) =~= t@);
    }
    Some(acc)
}

/// Whether every character of `t` is a digit.
fn all_digits_exec(t: &Vec<char>) -> (r: bool)
    ensures
        r == all_digits(t@),
{
    let mut i: usize = 0;
    while i < t.len()
        invariant
            i <= t@.len(),
            all_digits(t@.take(i as int)),
        decreases t@.len() - i,
    {
        let u = t[i] as u32;
        if !(0x30 <= u && u <= 0x39) {
            return false;
        }
        proof {
            assert forall|j: int| 0 <= j < i + 1 implies is_digit_char(
                #[trigger] t@.take(i + 1)[j],
            ) by {
                if j < i {
                    assert(t@.take(i as int)[j] == t@.take(i + 1)[j]);
                }
            }
        }
        i += 1;
    }
    proof {
        assert(t@.take(t@.len() as int) =~= t@);
    }
    true
}

/// The percentage a trimmed numeric token denotes, in thousandths.
fn parse_pct_exec(t: &Vec<char>) -> (r: Option<u64>)
    ensures
        match r {
            Some(v) => parse_pct_milli(t@) == Some(v as int),
            None => parse_pct_milli(t@) is None,
        },
{
    match crate::text::find_char(t, '.') {
        None => {
            proof {
                crate::text::lemma_find_char_spec_none(t@, '.');
            }
            if t.len() == 0 {
                return None;
            }
            match digits_run(t) {
                None => None,
                Some(v) => if v <= 1_000_000 {
                    Some(v * 1000)
                } else {
                    None
                },
            }
        },
        Some(d) => {
            proof {
                crate::text::lemma_find_char_spec_at(t@, '.', d as int);
            }
            let n = t.len();
            let ip = crate::text::slice_range(t, 0, d);
            let fp = crate::text::slice_range(t, d + 1, n);
            proof {
                assert(ip@ =~= t@.take(d as int));
                assert(fp@ =~= t@.skip(d + 1));
            }
            if !all_digits_exec(&fp) {
                return None;
            }
            if ip.len() + fp.len() == 0 {
                return None;
            }
            match digits_run(&ip) {
                None => None,
                Some(iv) => {
                    if iv > 1_000_000 {
                        return None;
                    }
                    proof {
                        if fp@.len() > 0 {
                            assert(is_digit_char(fp@[0]));
                        }
                        if fp@.len() > 1 {
                            assert(is_digit_char(fp@[1]));
                        }
                        if fp@.len() > 2 {
                            assert(is_digit_char(fp@[2]));
                        }
                    }
                    let f0: u64 = if fp.len() > 0 {
                        (fp[0] as u32 - 0x30) as u64
                    } else {
                        0
                    };
                    let f1: u64 = if fp.len() > 1 {
                        (fp[1] as u32 - 0x30) as u64
                    } else {
                        0
                    };
                    let f2: u64 = if fp.len() > 2 {
                        (fp[2] as u32 - 0x30) as u64
                    } else {
                        0
                    };
                    Some(iv * 1000 + f0 * 100 + f1 * 10 + f2)
                },
            }
        },
    }
}

/// Start of the numeric fragment ending at `p`.
fn frag_start_exec(line: &Vec<char>, p: usize) -> (r: usize)
    requires
        p <= line@.len(),
    ensures
        r == frag_start(line@, p as int),
        r <= p,
{
    let mut start: usize = p;
    loop
        invariant
            start <= p <= line@.len(),
            frag_start(line@, p as int) == frag_start(line@, start as int),
        decreases start,
    {
        if start == 0 {
            return 0;
        }
        let c = line[start - 1];
        let u = c as u32;
        if (0x30 <= u && u <= 0x39) || c == '.' {
            start -= 1;
        } else if c == ' ' {
            return start - 1;
        } else {
            return start;
        }
    }
}

/// Index of the first whitespace character of `u`, or its length, is
/// where the leading run of non-whitespace ends.
proof fn lemma_first_ws_at(u: Seq<char>, k: int)
    requires
        0 <= k <= u.len(),
        forall|j: int| 0 <= j < k ==> !is_trim_space(#[trigger] u[j]),
        k < u.len() ==> is_trim_space(u[k]),
    ensures
        first_ws(u) == k,
    decreases k,
{
    if k == 0 {
    } else {
        lemma_first_ws_at(u.drop_first(), k - 1);
    }
}

/// The first whitespace-delimited token of `t`, possibly empty.
fn first_token_exec(t: &Vec<char>) -> (r: Vec<char>)
    ensures
        r@ == first_token(t@),
{
    let mut a: usize = 0;
    while a < t.len() && crate::sanitize::trim_space_char(t[a])
        invariant
            a <= t@.len(),
            forall|j: int| 0 <= j < a ==> is_trim_space(#[trigger] t@[j]),
        decreases t@.len() - a,
    {
        a += 1;
    }
    proof {
        crate::sanitize::lemma_trim_leading_skip(t@, crate::sanitize::space_pred(), a as int);
    }
    let ghost u = t@.skip(a as int);
    let mut b: usize = a;
    while b < t.len() && !crate::sanitize::trim_space_char(t[b])
        invariant
            a <= b <= t@.len(),
            u == t@.skip(a as int),
            forall|j: int| a <= j < b ==> !is_trim_space(#[trigger] t@[j]),
        decreases t@.len() - b,
    {
        b += 1;
    }
    proof {
        assert(forall|j: int| 0 <= j < u.len() ==> u[j] == t@[j + a]);
        lemma_first_ws_at(u, b - a);
    }
    let r = crate::text::slice_range(t, a, b);
    proof {
        assert(u.take(b - a) =~= t@.subrange(a as int, b as int));
    }
    r
}

/// The token following the first occurrence of `mark`, or nothing.
fn token_after_exec(line: &Vec<char>, mark: &Vec<char>) -> (r: Vec<char>)
    ensures
        r@ == token_after(line@, mark@, mark@.len() as int),
{
    match crate::text::find_sub(line, mark) {
        None => Vec::new(),
        Some(i) => {
            proof {
                crate::text::lemma_find_spec_at(line@, mark@, i as int);
            }
            let n = line.len();
            let rest = crate::text::slice_range(line, i + mark.len(), n);
            proof {
                assert(rest@ =~= line@.skip(i + mark@.len()));
            }
            first_token_exec(&rest)
        },
    }
}

/// The path between the first and last double quote, when distinct.
fn quoted_path_exec(line: &Vec<char>) -> (r: Option<Vec<char>>)
    ensures
        match r {
            Some(p) => quoted_path_spec(line@) == Some(p@),
            None => quoted_path_spec(line@) is None,
        },
{
    let a = match crate::text::find_char(line, '"') {
        Some(a) => a,
        None => {
            proof {
                if line@.contains('"') {
                    let w = choose|w: int| 0 <= w < line@.len() && line@[w] == '"';
                    assert(line@[w] != '"');
                }
            }
            return None;
        },
    };
    let b = match crate::text::rfind_char(line, '"') {
        Some(b) => b,
        None => {
            return None;
        },
    };
    proof {
        crate::text::lemma_find_char_spec_at(line@, '"', a as int);
        crate::text::lemma_rfind_char_spec_at(line@, '"', b as int);
    }
    if b > a {
        Some(crate::text::slice_range(line, a + 1, b))
    } else {
        None
    }
}

/// Classifies one downloader output line.
///
/// The rules are tried in a fixed order and the first match wins:
/// destination, merge, already downloaded, container fixup, progress.  A
/// line matching no rule, or one whose capture cannot be extracted,
/// yields `None`.
#[verifier::rlimit(100)]
pub fn classify_line(line: &str) -> (r: Option<LineEvent>)
    ensures
        match r {
            None => no_event(line@),
            Some(ev) => match ev {
                LineEvent::Destination { path } => rule_of(line@) == 1 && dest_path_spec(line@)
                    == Some(path@),
                LineEvent::Merged { path } => rule_of(line@) == 2 && quoted_path_spec(line@)
                    == Some(path@),
                LineEvent::AlreadyDownloaded { path } => rule_of(line@) == 3 && already_path_spec(
                    line@,
                ) == Some(path@),
                LineEvent::Fixup { path } => rule_of(line@) == 4 && quoted_path_spec(line@)
                    == Some(path@),
                LineEvent::Progress { pct_milli, speed, eta } => rule_of(line@) == 5 && pct_of(
                    line@,
                ) == Some(pct_milli as int) && speed@ == speed_of(line@) && eta@ == eta_of(line@),
            },
        },
{
    proof {
        reveal_strlit("[download] Destination: ");
        reveal_strlit("[download] ");
    }
    let chars = crate::text::str_to_chars(line);
    let dest = crate::text::str_to_chars("[download] Destination:");
    let dest_sp = crate::text::str_to_chars("[download] Destination: ");
    let merger = crate::text::str_to_chars("[Merger] Merging formats into");
    let already = crate::text::str_to_chars("has already been downloaded");
    let dltag = crate::text::str_to_chars("[download] ");
    let already_sfx = crate::text::str_to_chars(" has already been downloaded");
    let fixup = crate::text::str_to_chars("[Fixup");
    let correcting = crate::text::str_to_chars("Correcting container of");
    let dlmark = crate::text::str_to_chars("[download]");
    if crate::text::contains_sub(&chars, &dest) {
        match crate::text::find_sub(&chars, &dest_sp) {
            None => {
                assert(rule_of(chars@) == 1);
                assert(dest_path_spec(chars@) is None);
                None
            },
            Some(i) => {
                proof {
                    crate::text::lemma_find_spec_at(chars@, dest_sp@, i as int);
                }
                let n = chars.len();
                let raw = crate::text::slice_range(&chars, i + 24, n);
                proof {
                    assert(raw@ =~= chars@.skip(i + 24));
                }
                let trimmed = crate::sanitize::trim_ends(&raw, true);
                let part = crate::text::str_to_chars(".part");
                let mut cur = trimmed;
                while crate::text::ends_with_sub(&cur, &part) && cur.len() >= 5
                    invariant
                        part@ == part_suffix(),
                        strip_part(trim_both(chars@.skip(i + 24), crate::sanitize::space_pred()))
                            == strip_part(cur@),
                    decreases cur@.len(),
                {
                    let shorter = crate::text::slice_range(&cur, 0, cur.len() - 5);
                    proof {
                        assert(shorter@ =~= cur@.take(cur@.len() - 5));
                    }
                    cur = shorter;
                }
                proof {
                    assert(strip_part(cur@) == cur@);
                }
                Some(LineEvent::Destination { path: crate::text::chars_to_string(&cur) })
            },
        }
    } else if crate::text::contains_sub(&chars, &merger) {
        match quoted_path_exec(&chars) {
            None => {
                assert(rule_of(chars@) == 2);
                assert(quoted_path_spec(chars@) is None);
                None
            },
            Some(p) => Some(LineEvent::Merged { path: crate::text::chars_to_string(&p) }),
        }
    } else if crate::text::contains_sub(&chars, &already) {
        let i = match crate::text::find_sub(&chars, &dltag) {
            Some(i) => i,
            None => {
                return None;
            },
        };
        let e = match crate::text::find_sub(&chars, &already_sfx) {
            Some(e) => e,
            None => {
                return None;
            },
        };
        proof {
            crate::text::lemma_find_spec_at(chars@, dltag@, i as int);
            crate::text::lemma_find_spec_at(chars@, already_sfx@, e as int);
        }
        let n = chars.len();
        if i + 11 <= e {
            let p = crate::text::slice_range(&chars, i + 11, e);
            Some(LineEvent::AlreadyDownloaded { path: crate::text::chars_to_string(&p) })
        } else {
            assert(rule_of(chars@) == 3);
            assert(already_path_spec(chars@) is None);
            None
        }
    } else if crate::text::contains_sub(&chars, &fixup) && crate::text::contains_sub(
        &chars,
        &correcting,
    ) {
        match quoted_path_exec(&chars) {
            None => {
                assert(rule_of(chars@) == 4);
                None
            },
            Some(p) => Some(LineEvent::Fixup { path: crate::text::chars_to_string(&p) }),
        }
    } else if crate::text::contains_sub(&chars, &dlmark) {
        let p = match crate::text::find_char(&chars, '%') {
            Some(p) => p,
            None => {
                proof {
                    if chars@.contains('%') {
                        let w = choose|w: int| 0 <= w < chars@.len() && chars@[w] == '%';
                        assert(chars@[w] != '%');
                    }
                }
                return None;
            },
        };
        proof {
            crate::text::lemma_find_char_spec_at(chars@, '%', p as int);
        }
        let fs = frag_start_exec(&chars, p);
        let fragment = crate::text::slice_range(&chars, fs, p);
        let trimmed = crate::sanitize::trim_ends(&fragment, true);
        match parse_pct_exec(&trimmed) {
            None => {
                assert(chars@[p as int] == '%');
                assert(chars@.contains('%'));
                assert(rule_of(chars@) == 5);
                assert(pct_of(chars@) is None);
                None
            },
            Some(v) => {
                proof {
                    reveal_strlit(" at ");
                    reveal_strlit(" ETA ");
                }
                let at = crate::text::str_to_chars(" at ");
                let eta_m = crate::text::str_to_chars(" ETA ");
                let speed = token_after_exec(&chars, &at);
                let eta = token_after_exec(&chars, &eta_m);
                Some(
                    LineEvent::Progress {
                        pct_milli: v,
                        speed: crate::text::chars_to_string(&speed),
                        eta: crate::text::chars_to_string(&eta),
                    },
                )
            },
        }
    } else {
        assert(rule_of(chars@) == 0);
        None
    }
}

/// Progress emissions are throttled to one per tenth of a second of wall
/// time; path-bearing events always pass.
pub fn throttle_allows(last_emit_ms: u64, now_ms: u64, path_event: bool) -> (r: bool)
    requires
        last_emit_ms <= now_ms,
    ensures
        r == (path_event || now_ms - last_emit_ms > 100),
{
    path_event || now_ms - last_emit_ms > 100
}

/// The diagnostic buffer fed from the downloader's error stream.
pub struct StderrLog {
    /// Collected lines, capped near a thousand characters.
    pub buffer: Vec<char>,
    /// Whether any line carried the explicit error marker.
    pub failure_flagged: bool,
}

/// A line is blank when trimming leaves nothing.
pub open spec fn blank_line(s: Seq<char>) -> bool {
    trim_both(s, crate::sanitize::space_pred()).len() == 0
}

impl StderrLog {
    /// An empty log with no failure noted.
    pub fn new() -> (r: StderrLog)
        ensures
            r.buffer@.len() == 0,
            !r.failure_flagged,
    {
        StderrLog { buffer: Vec::new(), failure_flagged: false }
    }

    /// Notes one error-stream line: non-blank lines are appended (with a
    /// newline) while the buffer is under its cap, and a line carrying
    /// the error marker latches the failure flag.
    pub fn note_line(&mut self, line: &Vec<char>)
        ensures
            final(self).buffer@ == if !blank_line(line@) && old(self).buffer@.len() < 1000 {
                old(self).buffer@ + line@ + seq!['\n']
            } else {
                old(self).buffer@
            },
            final(self).failure_flagged == (old(self).failure_flagged || has_match(
                line@,
                "ERROR:"@,
            )),
    {
        let trimmed = crate::sanitize::trim_ends(line, true);
        if trimmed.len() > 0 && self.buffer.len() < 1000 {
            let mut j: usize = 0;
            let ghost before = self.buffer@;
            while j < line.len()
                invariant
                    j <= line@.len(),
                    self.buffer@ == before + line@.take(j as int),
                    self.failure_flagged == old(self).failure_flagged,
                decreases line@.len() - j,
            {
                self.buffer.push(line[j]);
                proof {
                    assert(before + line@.take(j + 1) =~= (before + line@.take(j as int)).push(
                        line@[j as int],
                    ));
                }
                j += 1;
            }
            self.buffer.push('\n');
            proof {
                assert(line@.take(line@.len() as int) =~= line@);
                assert(self.buffer@ =~= before + line@ + seq!['\n']);
            }
        }
        let marker = crate::text::str_to_chars("ERROR:");
        if crate::text::contains_sub(line, &marker) {
            self.failure_flagged = true;
        }
    }
}

} // verus!
