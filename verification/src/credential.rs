//! The rotating credential pool for the quota-limited remote catalogue.
//!
//! Credentials carry a daily usage counter and an exhaustion flag.
//! Acquisition picks the least-recently-used active credential that the
//! caller has not excluded, and bumps its last-used time immediately, so
//! repeated attempts rotate forward even when no usage is ever recorded.
//! Usage recording rolls the daily counter over at a fixed reference
//! offset from midnight UTC.

use vstd::prelude::*;

verus! {

/// Seconds the reference day boundary lies behind UTC midnight.
pub const DAY_OFFSET_SECONDS: i64 = 28800;

/// Seconds per day.
pub const SECONDS_PER_DAY: i64 = 86400;

/// One API credential with its usage-tracking state.
pub struct Credential {
    pub id: i64,
    pub key: String,
    pub is_active: bool,
    pub is_quota_exhausted: bool,
    pub last_error: Option<String>,
    pub usage_today: i64,
    pub last_used: i64,
}

/// Why no credential could be acquired.
#[derive(Debug, PartialEq, Eq, Structural)]
pub enum AcquireError {
    /// The pool holds no active credential at all.
    NoneConfigured,
    /// Active credentials exist, but every one was excluded by the caller.
    AllExcluded,
}

/// The pool of credentials, in configuration order.
pub struct CredentialPool {
    pub creds: Vec<Credential>,
}

/// The calendar day a timestamp falls in, counted against the shifted
/// reference midnight.
pub open spec fn spec_day_index(t: int) -> int {
    (t - DAY_OFFSET_SECONDS) / (SECONDS_PER_DAY as int)
}

/// Timestamps the pool works with: non-negative epoch seconds.
pub open spec fn valid_time(t: int) -> bool {
    0 <= t <= i64::MAX
}

impl Credential {
    /// A credential the same as `self` but last used at `now`.
    pub open spec fn touched(self, now: i64) -> Credential {
        Credential { last_used: now, ..self }
    }

    /// A credential the same as `self` after usage was recorded: counter
    /// `usage`, last used at `now`, exhaustion and error cleared.
    pub open spec fn recorded(self, usage: i64, now: i64) -> Credential {
        Credential {
            usage_today: usage,
            last_used: now,
            is_quota_exhausted: false,
            last_error: None,
            ..self
        }
    }
}

/// Credential `i` of the list `cs` may be handed out against the
/// exclusion list `ex`: it is active and its key is not excluded.
pub open spec fn eligible_at(cs: Seq<Credential>, ex: Seq<Seq<char>>, i: int) -> bool {
    &&& 0 <= i < cs.len()
    &&& cs[i].is_active
    &&& !ex.contains(cs[i].key@)
}

/// Index `i` is the acquisition choice in the list `cs`: eligible, with
/// the least last-used time, and first among equals.
pub open spec fn is_choice_at(cs: Seq<Credential>, ex: Seq<Seq<char>>, i: int) -> bool {
    &&& eligible_at(cs, ex, i)
    &&& forall|j: int| eligible_at(cs, ex, j) ==> cs[i].last_used <= cs[j].last_used
    &&& forall|j: int|
        eligible_at(cs, ex, j) && cs[j].last_used == cs[i].last_used ==> i <= j
}

impl CredentialPool {
    /// Credential `i` may be handed out against the exclusion list `ex`:
    /// it is active and its key is not excluded.
    pub open spec fn eligible(self, ex: Seq<Seq<char>>, i: int) -> bool {
        eligible_at(self.creds@, ex, i)
    }

    /// No credential is eligible against `ex`.
    pub open spec fn none_eligible(self, ex: Seq<Seq<char>>) -> bool {
        forall|j: int| !(#[trigger] self.eligible(ex, j))
    }

    /// Some credential in the pool is active.
    pub open spec fn has_active(self) -> bool {
        exists|i: int| 0 <= i < self.creds.len() && self.creds[i].is_active
    }

    /// Index `i` is the acquisition choice for exclusions `ex`: eligible,
    /// with the least last-used time, and first among equals.
    pub open spec fn is_choice(self, ex: Seq<Seq<char>>, i: int) -> bool {
        is_choice_at(self.creds@, ex, i)
    }

    /// Picks the least-recently-used active, non-excluded credential,
    /// marks it used at `now`, and returns its index.
    ///
    /// When nothing can be handed out the error says whether the pool has
    /// no active credential at all, or active ones exist but the caller
    /// excluded them all.  The pool is unchanged in that case.
    pub fn acquire(&mut self, excluded: &Vec<String>, now: i64) -> (r: Result<
        usize,
        AcquireError,
    >)
        ensures
            match r {
                Ok(i) => {
                    &&& old(self).is_choice(excluded@.map_values(|k: String| k@), i as int)
                    &&& final(self).creds@ == old(self).creds@.update(
                        i as int,
                        old(self).creds[i as int].touched(now),
                    )
                },
                Err(e) => {
                    &&& *final(self) == *old(self)
                    &&& (e == AcquireError::NoneConfigured) <==> !old(self).has_active()
                    &&& (e == AcquireError::AllExcluded) <==> (old(self).has_active() && old(
                        self,
                    ).none_eligible(excluded@.map_values(|k: String| k@)))
                },
            },
    {
        let ghost ex = excluded@.map_values(|k: String| k@);
        let mut best: Option<usize> = None;
        let mut any_active: bool = false;
        let mut i: usize = 0;
        while i < self.creds.len()
            invariant
                i <= self.creds.len(),
                ex == excluded@.map_values(|k: String| k@),
                any_active == exists|j: int| 0 <= j < i && self.creds[j].is_active,
                match best {
                    Some(b) => {
                        &&& self.eligible(ex, b as int)
                        &&& b < i
                        &&& forall|j: int|
                            0 <= j < i && self.eligible(ex, j) ==> self.creds[
                                b as int
                            ].last_used <= self.creds[j].last_used
                        &&& forall|j: int|
                            0 <= j < i && self.eligible(ex, j) && self.creds[j].last_used
                                == self.creds[b as int].last_used ==> b <= j
                    },
                    None => forall|j: int| 0 <= j < i ==> !self.eligible(ex, j),
                },
            decreases self.creds.len() - i,
        {
            if self.creds[i].is_active {
                any_active = true;
                let mut is_excluded: bool = false;
                let mut k: usize = 0;
                while k < excluded.len()
                    invariant
                        k <= excluded@.len(),
                        i < self.creds.len(),
                        ex == excluded@.map_values(|q: String| q@),
                        is_excluded == exists|m: int|
                            0 <= m < k && excluded@[m]@ == self.creds[i as int].key@,
                    decreases excluded@.len() - k,
                {
                    if excluded[k].eq(&self.creds[i].key) {
                        is_excluded = true;
                    }
                    k += 1;
                }
                proof {
                    if is_excluded {
                        let m = choose|m: int|
                            0 <= m < excluded@.len() && excluded@[m]@ == self.creds[i as int].key@;
                        assert(ex[m] == self.creds[i as int].key@);
                        assert(ex.contains(self.creds[i as int].key@));
                    } else {
                        assert(forall|m: int|
                            0 <= m < ex.len() ==> ex[m] == excluded@[m]@ && ex[m] != self.creds[
                                i as int
                            ].key@);
                        assert(!ex.contains(self.creds[i as int].key@));
                    }
                }
                if !is_excluded {
                    match best {
                        Some(b) => {
                            if self.creds[i].last_used < self.creds[b].last_used {
                                best = Some(i);
                            }
                        },
                        None => {
                            best = Some(i);
                        },
                    }
                }
            }
            i += 1;
        }
        match best {
            Some(b) => {
                proof {
                    assert forall|j: int| eligible_at(self.creds@, ex, j) implies self.creds@[
                        b as int
                    ].last_used <= self.creds@[j].last_used by {
                        assert(self.eligible(ex, j));
                    }
                    assert forall|j: int|
                        eligible_at(self.creds@, ex, j) && self.creds@[j].last_used == self.creds@[
                            b as int
                        ].last_used implies b as int <= j by {
                        assert(self.eligible(ex, j));
                    }
                    assert(is_choice_at(self.creds@, ex, b as int));
                }
                self.creds[b].last_used = now;
                Ok(b)
            },
            None => {
                if any_active {
                    Err(AcquireError::AllExcluded)
                } else {
                    Err(AcquireError::NoneConfigured)
                }
            },
        }
    }

    /// Records `units` of quota spent through the credential with `key`.
    ///
    /// The first credential with that key is updated: on a new reference
    /// day the daily counter restarts at exactly `units`, otherwise
    /// `units` is added (saturating); the credential is marked used now
    /// and its exhaustion flag and error are cleared.  An unknown key is
    /// a no-op.
    pub fn record_usage(&mut self, key: &String, units: i64, now: i64)
        requires
            0 <= units,
            0 <= now,
            forall|j: int|
                0 <= j < old(self).creds.len() ==> 0 <= #[trigger] old(self).creds[j].last_used,
        ensures
            (forall|j: int|
                0 <= j < old(self).creds.len() ==> #[trigger] old(self).creds[j].key@ != key@)
                ==> *final(self) == *old(self),
            forall|i: int|
                old(self).first_with_key(key@, i) ==> final(self).creds@ == old(self).creds@.update(
                    i,
                    old(self).creds[i].recorded(
                        usage_after(old(self).creds[i], units, now),
                        now,
                    ),
                ),
    {
        let mut i: usize = 0;
        while i < self.creds.len()
            invariant
                i <= self.creds.len(),
                0 <= units,
                0 <= now,
                *self == *old(self),
                forall|j: int| 0 <= j < self.creds.len() ==> 0 <= #[trigger] self.creds[j].last_used,
                forall|j: int| 0 <= j < i ==> #[trigger] self.creds[j].key@ != key@,
            decreases self.creds.len() - i,
        {
            if self.creds[i].key.eq(key) {
                let last = self.creds[i].last_used;
                let prev_usage = self.creds[i].usage_today;
                let new_usage: i64 = if day_index(last) != day_index(now) {
                    units
                } else {
                    match prev_usage.checked_add(units) {
                        Some(t) => t,
                        None => i64::MAX,
                    }
                };
                assert(new_usage == usage_after(self.creds@[i as int], units, now));
                self.creds[i].usage_today = new_usage;
                self.creds[i].last_used = now;
                self.creds[i].is_quota_exhausted = false;
                self.creds[i].last_error = None;
                proof {
                    assert(self.creds@ =~= old(self).creds@.update(
                        i as int,
                        old(self).creds@[i as int].recorded(
                            usage_after(old(self).creds@[i as int], units, now),
                            now,
                        ),
                    ));
                    assert(old(self).first_with_key(key@, i as int));
                    assert forall|i2: int| old(self).first_with_key(key@, i2) implies i2
                        == i as int by {
                        if i2 < i as int {
                            assert(old(self).creds[i2].key@ != key@);
                        } else if i2 > i as int {
                            assert(old(self).creds[i as int].key@ != key@);
                        }
                    }
                }
                return ;
            }
            i += 1;
        }
    }

    /// `i` is the first credential whose key is `k`.
    pub open spec fn first_with_key(self, k: Seq<char>, i: int) -> bool {
        &&& 0 <= i < self.creds.len()
        &&& self.creds[i].key@ == k
        &&& forall|j: int| 0 <= j < i ==> #[trigger] self.creds[j].key@ != k
    }

    /// Marks every credential with `key` quota-exhausted, storing `reason`
    /// as its last error.  Nothing else changes.
    pub fn mark_exhausted(&mut self, key: &String, reason: &str)
        ensures
            final(self).creds@.len() == old(self).creds@.len(),
            forall|j: int|
                0 <= j < old(self).creds@.len() && old(self).creds[j].key@ == key@ ==> {
                    let c = #[trigger] final(self).creds[j];
                    let o = old(self).creds[j];
                    &&& c.is_quota_exhausted == true
                    &&& c.last_error is Some
                    &&& c.last_error->0@ == reason@
                    &&& c.id == o.id
                    &&& c.key == o.key
                    &&& c.is_active == o.is_active
                    &&& c.usage_today == o.usage_today
                    &&& c.last_used == o.last_used
                },
            forall|j: int|
                0 <= j < old(self).creds@.len() && old(self).creds[j].key@ != key@
                    ==> #[trigger] final(self).creds[j] == old(self).creds[j],
    {
        let mut i: usize = 0;
        while i < self.creds.len()
            invariant
                i <= self.creds.len(),
                self.creds@.len() == old(self).creds@.len(),
                forall|j: int|
                    0 <= j < i && old(self).creds[j].key@ == key@ ==> {
                        let c = #[trigger] self.creds[j];
                        let o = old(self).creds[j];
                        &&& c.is_quota_exhausted == true
                        &&& c.last_error is Some
                        &&& c.last_error->0@ == reason@
                        &&& c.id == o.id
                        &&& c.key == o.key
                        &&& c.is_active == o.is_active
                        &&& c.usage_today == o.usage_today
                        &&& c.last_used == o.last_used
                    },
                forall|j: int|
                    (i <= j < self.creds@.len() || (0 <= j < i && old(self).creds[j].key@ != key@))
                        ==> #[trigger] self.creds[j] == old(self).creds[j],
            decreases self.creds.len() - i,
        {
            if self.creds[i].key.eq(key) {
                self.creds[i].is_quota_exhausted = true;
                self.creds[i].last_error = Some(reason.to_owned());
            }
            i += 1;
        }
    }
}

/// The daily counter after recording `units` against credential `c` at
/// time `now`: exactly `units` on a new reference day, the saturating sum
/// otherwise.
pub open spec fn usage_after(c: Credential, units: i64, now: i64) -> i64 {
    if spec_day_index(c.last_used as int) != spec_day_index(now as int) {
        units
    } else if c.usage_today + units > i64::MAX {
        i64::MAX
    } else {
        (c.usage_today + units) as i64
    }
}

/// The reference day a timestamp falls in.
pub fn day_index(t: i64) -> (r: i64)
    requires
        0 <= t,
    ensures
        r == spec_day_index(t as int),
{
    let shifted = t - DAY_OFFSET_SECONDS;
    if shifted >= 0 {
        shifted / SECONDS_PER_DAY
    } else {
        -1
    }
}

/// The usage counter and exhaustion flag a credential presents at `now`:
/// both appear reset once the reference day has rolled over, even before
/// any usage is recorded.
pub fn displayed_usage(c: &Credential, now: i64) -> (r: (i64, bool))
    requires
        0 <= c.last_used,
        0 <= now,
    ensures
        spec_day_index(c.last_used as int) != spec_day_index(now as int) ==> r == (
            0i64,
            false,
        ),
        spec_day_index(c.last_used as int) == spec_day_index(now as int) ==> r == (
            c.usage_today,
            c.is_quota_exhausted,
        ),
{
    if day_index(c.last_used) != day_index(now) {
        (0, false)
    } else {
        (c.usage_today, c.is_quota_exhausted)
    }
}

/// On a new reference day the recorded usage is exactly the increment,
/// not the increment plus the previous counter.
pub proof fn lemma_new_day_resets_usage(c: Credential, units: i64, now: i64)
    requires
        spec_day_index(c.last_used as int) != spec_day_index(now as int),
    ensures
        usage_after(c, units, now) == units,
{
}

/// The acquisition choice is unique: least last-used, first among ties.
pub proof fn lemma_choice_unique(cs: Seq<Credential>, ex: Seq<Seq<char>>, i1: int, i2: int)
    requires
        is_choice_at(cs, ex, i1),
        is_choice_at(cs, ex, i2),
    ensures
        i1 == i2,
{
}

/// `i` is the acquisition choice among the first `k` credentials.
spec fn choice_upto(cs: Seq<Credential>, ex: Seq<Seq<char>>, i: int, k: int) -> bool {
    &&& eligible_at(cs, ex, i)
    &&& i < k
    &&& forall|j: int|
        eligible_at(cs, ex, j) && j < k ==> cs[i].last_used <= cs[j].last_used
    &&& forall|j: int|
        eligible_at(cs, ex, j) && j < k && cs[j].last_used == cs[i].last_used ==> i <= j
}

/// The acquisition choice among any eligible prefix, constructed.
proof fn lemma_choice_upto_pick(cs: Seq<Credential>, ex: Seq<Seq<char>>, k: int) -> (i: int)
    requires
        0 <= k <= cs.len(),
        exists|j: int| eligible_at(cs, ex, j) && j < k,
    ensures
        choice_upto(cs, ex, i, k),
    decreases k,
{
    if k > 0 && eligible_at(cs, ex, k - 1) {
        if exists|j: int| eligible_at(cs, ex, j) && j < k - 1 {
            let p = lemma_choice_upto_pick(cs, ex, k - 1);
            if cs[k - 1].last_used < cs[p].last_used {
                assert(choice_upto(cs, ex, k - 1, k));
                k - 1
            } else {
                assert(choice_upto(cs, ex, p, k));
                p
            }
        } else {
            assert(choice_upto(cs, ex, k - 1, k));
            k - 1
        }
    } else {
        let w = choose|j: int| eligible_at(cs, ex, j) && j < k;
        assert(w < k - 1);
        let p = lemma_choice_upto_pick(cs, ex, k - 1);
        assert(choice_upto(cs, ex, p, k));
        p
    }
}

/// Whenever any credential is eligible, an acquisition choice exists.
pub proof fn lemma_choice_exists(cs: Seq<Credential>, ex: Seq<Seq<char>>)
    requires
        exists|j: int| eligible_at(cs, ex, j),
    ensures
        has_choice_at(cs, ex),
{
    let w = choose|j: int| eligible_at(cs, ex, j);
    assert(w < cs.len());
    let i = lemma_choice_upto_pick(cs, ex, cs.len() as int);
    assert(is_choice_at(cs, ex, i));
}

/// Some credential can be acquired from `cs`.
pub open spec fn has_choice_at(cs: Seq<Credential>, ex: Seq<Seq<char>>) -> bool {
    exists|i: int| is_choice_at(cs, ex, i)
}

/// The index acquisition picks from `cs` (unique when one exists).
pub open spec fn choice_at(cs: Seq<Credential>, ex: Seq<Seq<char>>) -> int {
    choose|i: int| is_choice_at(cs, ex, i)
}

/// The credential list after credential `i` is acquired at `now`.
pub open spec fn touched_at(cs: Seq<Credential>, i: int, now: i64) -> Seq<Credential> {
    cs.update(i, cs[i].touched(now))
}

/// The indices that successive acquisitions pick at the times `nows`,
/// each acquisition updating the pool the next one sees; the walk stops
/// when nothing is eligible.
pub open spec fn acquire_trace(cs: Seq<Credential>, ex: Seq<Seq<char>>, nows: Seq<i64>) -> Seq<
    int,
>
    decreases nows.len(),
{
    if nows.len() == 0 || !has_choice_at(cs, ex) {
        Seq::empty()
    } else {
        let c = choice_at(cs, ex);
        seq![c] + acquire_trace(touched_at(cs, c, nows[0]), ex, nows.drop_first())
    }
}

/// Acquisition changes no credential's eligibility.
proof fn lemma_touch_keeps_eligibility(cs: Seq<Credential>, ex: Seq<Seq<char>>, i: int, now: i64)
    requires
        0 <= i < cs.len(),
    ensures
        forall|j: int|
            #![trigger eligible_at(touched_at(cs, i, now), ex, j)]
            eligible_at(touched_at(cs, i, now), ex, j) <==> eligible_at(cs, ex, j),
{
    let cs2 = touched_at(cs, i, now);
    assert forall|j: int|
        eligible_at(cs2, ex, j) <==> eligible_at(cs, ex, j) by {
        if 0 <= j < cs.len() {
            assert(cs2[j].is_active == cs[j].is_active);
            assert(cs2[j].key == cs[j].key);
        }
    }
}

/// Prepending an element to a sequence of indices adds exactly that
/// element to what it contains.
proof fn lemma_cons_contains(c: int, u: Seq<int>, y: int)
    ensures
        (seq![c] + u).contains(y) <==> (y == c || u.contains(y)),
{
    let s = seq![c] + u;
    if s.contains(y) {
        let idx = choose|idx: int| 0 <= idx < s.len() && s[idx] == y;
        if idx > 0 {
            assert(u[idx - 1] == y);
        }
    }
    if y == c {
        assert(s[0] == y);
    }
    if u.contains(y) {
        let idx = choose|idx: int| 0 <= idx < u.len() && u[idx] == y;
        assert(s[idx + 1] == y);
    }
}

/// At step `k` of trace `tr`, credential `j` witnesses that the round is
/// not over: eligible, last used before the round began (`t0`), and not
/// yet acquired.
pub open spec fn fresh_witness(
    cs: Seq<Credential>,
    ex: Seq<Seq<char>>,
    tr: Seq<int>,
    t0: i64,
    k: int,
    j: int,
) -> bool {
    &&& eligible_at(cs, ex, j)
    &&& cs[j].last_used < t0
    &&& !tr.take(k).contains(j)
}

/// What step `k` of trace `tr` guarantees while a fresh witness `j`
/// remains: the pick is itself fresh (so no credential repeats before
/// every one has been handed out), and it is the not-yet-acquired
/// credential with the least original last-used time, first among ties.
pub open spec fn round_robin_step(
    cs: Seq<Credential>,
    ex: Seq<Seq<char>>,
    tr: Seq<int>,
    t0: i64,
    k: int,
    j: int,
) -> bool {
    let x = tr[k];
    &&& cs[x].last_used < t0
    &&& !tr.take(k).contains(x)
    &&& cs[x].last_used <= cs[j].last_used
    &&& (cs[x].last_used == cs[j].last_used ==> x <= j)
}

/// The full rotation law: over any run of acquisitions at strictly
/// increasing times that start at or after `t0`, every pick is an
/// eligible credential, and as long as any eligible credential last used
/// before `t0` has not been acquired, each pick is such a credential —
/// never a repeat — and the one with the least original last-used time.
/// With `t0` above every starting last-used time, the first `n` picks
/// therefore visit all `n` eligible credentials exactly once, in
/// ascending order of their starting times.
pub proof fn lemma_round_robin(
    cs: Seq<Credential>,
    ex: Seq<Seq<char>>,
    nows: Seq<i64>,
    t0: i64,
)
    requires
        forall|a: int, b: int| 0 <= a < b < nows.len() ==> #[trigger] nows[a] < #[trigger] nows[b],
        nows.len() > 0 ==> t0 <= nows[0],
    ensures
        forall|k: int|
            0 <= k < acquire_trace(cs, ex, nows).len() ==> eligible_at(
                cs,
                ex,
                #[trigger] acquire_trace(cs, ex, nows)[k],
            ),
        forall|k: int, j: int|
            0 <= k < acquire_trace(cs, ex, nows).len() && #[trigger] fresh_witness(
                cs,
                ex,
                acquire_trace(cs, ex, nows),
                t0,
                k,
                j,
            ) ==> round_robin_step(cs, ex, acquire_trace(cs, ex, nows), t0, k, j),
    decreases nows.len(),
{
    let tr = acquire_trace(cs, ex, nows);
    if nows.len() == 0 || !has_choice_at(cs, ex) {
        assert(tr =~= Seq::<int>::empty());
    } else {
        let c = choice_at(cs, ex);
        assert(is_choice_at(cs, ex, c));
        let cs2 = touched_at(cs, c, nows[0]);
        let nows2 = nows.drop_first();
        let tr2 = acquire_trace(cs2, ex, nows2);
        assert(tr == seq![c] + tr2);
        assert forall|a: int, b: int| 0 <= a < b < nows2.len() implies #[trigger] nows2[a]
            < #[trigger] nows2[b] by {
            assert(nows2[a] == nows[a + 1]);
            assert(nows2[b] == nows[b + 1]);
        }
        if nows2.len() > 0 {
            assert(nows2[0] == nows[1]);
            assert(t0 <= nows2[0]);
        }
        lemma_round_robin(cs2, ex, nows2, t0);
        lemma_touch_keeps_eligibility(cs, ex, c, nows[0]);
        assert(cs2[c].last_used == nows[0]);

        assert forall|k: int| 0 <= k < tr.len() implies eligible_at(
            cs,
            ex,
            #[trigger] tr[k],
        ) by {
            if k == 0 {
                assert(tr[0] == c);
            } else {
                assert(tr[k] == tr2[k - 1]);
                assert(eligible_at(cs2, ex, tr2[k - 1]));
            }
        }

        assert forall|k: int, j: int|
            0 <= k < tr.len() && #[trigger] fresh_witness(cs, ex, tr, t0, k, j) implies
            round_robin_step(cs, ex, tr, t0, k, j) by {
            if k == 0 {
                assert(tr.take(0) =~= Seq::<int>::empty());
                assert(tr[0] == c);
                assert(cs[c].last_used <= cs[j].last_used);
            } else {
                let x = tr[k];
                assert(x == tr2[k - 1]);
                assert(tr.take(k) =~= seq![c] + tr2.take(k - 1));
                lemma_cons_contains(c, tr2.take(k - 1), j);
                assert(tr.take(k).contains(c)) by {
                    assert(tr.take(k)[0] == c);
                }
                assert(j != c);
                assert(cs2[j] == cs[j]);
                assert(fresh_witness(cs2, ex, tr2, t0, k - 1, j));
                assert(round_robin_step(cs2, ex, tr2, t0, k - 1, j));
                assert(cs2[x].last_used < t0);
                assert(x != c);
                assert(cs2[x] == cs[x]);
                lemma_cons_contains(c, tr2.take(k - 1), x);
            }
        }
    }
}

/// Within one round, picks ascend and never repeat: for two steps taken
/// while some eligible credential from before the round is still
/// unacquired, the earlier pick's original last-used time is at most the
/// later pick's, equal times fall back to index order, and the two picks
/// differ.
pub proof fn lemma_round_robin_ascending(
    cs: Seq<Credential>,
    ex: Seq<Seq<char>>,
    nows: Seq<i64>,
    t0: i64,
    k1: int,
    k2: int,
    j: int,
)
    requires
        forall|a: int, b: int| 0 <= a < b < nows.len() ==> #[trigger] nows[a] < #[trigger] nows[b],
        nows.len() > 0 ==> t0 <= nows[0],
        0 <= k1 < k2 < acquire_trace(cs, ex, nows).len(),
        fresh_witness(cs, ex, acquire_trace(cs, ex, nows), t0, k2, j),
    ensures
        ({
            let tr = acquire_trace(cs, ex, nows);
            &&& cs[tr[k1]].last_used <= cs[tr[k2]].last_used
            &&& (cs[tr[k1]].last_used == cs[tr[k2]].last_used ==> tr[k1] < tr[k2])
            &&& tr[k1] != tr[k2]
        }),
{
    let tr = acquire_trace(cs, ex, nows);
    lemma_round_robin(cs, ex, nows, t0);
    assert(round_robin_step(cs, ex, tr, t0, k2, j));
    let x2 = tr[k2];
    assert(!tr.take(k1).contains(j)) by {
        if tr.take(k1).contains(j) {
            let idx = choose|idx: int| 0 <= idx < tr.take(k1).len() && tr.take(k1)[idx] == j;
            assert(tr.take(k2)[idx] == j);
        }
    }
    assert(!tr.take(k1).contains(x2)) by {
        if tr.take(k1).contains(x2) {
            let idx = choose|idx: int| 0 <= idx < tr.take(k1).len() && tr.take(k1)[idx] == x2;
            assert(tr.take(k2)[idx] == x2);
        }
    }
    assert(fresh_witness(cs, ex, tr, t0, k1, x2));
    assert(round_robin_step(cs, ex, tr, t0, k1, x2));
    assert(tr.take(k2)[k1] == tr[k1]);
    assert(tr.take(k2).contains(tr[k1]));
}

/// Acquisition never skips over a less recently used eligible
/// credential: in any pool state, a credential is not chosen while an
/// eligible one with a strictly older last-used time exists.  Repeated
/// acquisitions therefore visit the eligible credentials oldest first,
/// and none repeats before the rest have been handed out.
pub proof fn lemma_choice_prefers_older(s: CredentialPool, ex: Seq<Seq<char>>, i: int, j: int)
    requires
        s.eligible(ex, i),
        s.eligible(ex, j),
        s.creds[j].last_used < s.creds[i].last_used,
    ensures
        !s.is_choice(ex, i),
{
}

/// After a credential is acquired at `now`, it is not chosen again while
/// any eligible credential remains that was last used before `now`: every
/// other eligible credential is visited first.
pub proof fn lemma_rotation_no_immediate_repeat(
    s: CredentialPool,
    s2: CredentialPool,
    ex: Seq<Seq<char>>,
    i: int,
    now: i64,
)
    requires
        s.is_choice(ex, i),
        s2.creds@ == s.creds@.update(i, s.creds[i].touched(now)),
        exists|j: int| #[trigger] s2.eligible(ex, j) && s2.creds[j].last_used < now,
    ensures
        forall|i2: int| #[trigger] s2.is_choice(ex, i2) ==> i2 != i,
{
    let j = choose|j: int| #[trigger] s2.eligible(ex, j) && s2.creds[j].last_used < now;
    assert(s2.creds[i].last_used == now);
    assert(j != i);
    assert forall|i2: int| #[trigger] s2.is_choice(ex, i2) implies i2 != i by {
        if i2 == i {
            assert(s2.creds[i2].last_used <= s2.creds[j].last_used);
        }
    }
}

/// Successive acquisitions without recorded usage walk the eligible
/// credentials in ascending order of their original last-used times: the
/// credential chosen second was, in the original pool, used no earlier
/// than the one chosen first.
pub proof fn lemma_rotation_ascending(
    s: CredentialPool,
    s2: CredentialPool,
    ex: Seq<Seq<char>>,
    i: int,
    i2: int,
    now: i64,
)
    requires
        s.is_choice(ex, i),
        s2.creds@ == s.creds@.update(i, s.creds[i].touched(now)),
        s2.is_choice(ex, i2),
        i2 != i,
    ensures
        s.creds[i].last_used <= s.creds[i2].last_used,
{
    assert(s2.creds[i2] == s.creds[i2]);
    assert(s.eligible(ex, i2));
}

} // verus!
