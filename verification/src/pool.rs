//! Provider-aware key pool. One "lane" per enabled API key across all configured
//! providers, each governed by an exact sliding-window limiter: N requests per
//! rolling window, matching a real provider's limiter rather than a burstable
//! token bucket.
//!
//! Instants are nanoseconds since an arbitrary fixed origin, and spans of time are
//! nanoseconds. Time is always handed in, so behavior never depends on a clock.

use std::collections::hash_map::DefaultHasher;
use std::collections::VecDeque;
use std::hash::Hasher;

use vstd::prelude::*;

use crate::config::{Protocol, Provider, ProviderKey, StoredConfig};
use crate::hashing;
use crate::seqs;

verus! {

pub const SECOND: u128 = 1_000_000_000;

/// A provider's real per-key rate window; requests are limited per this span.
pub const PROVIDER_WINDOW: u128 = 60_000_000_000;

/// Slack added to the enforcement window so a boundary-timed request can't land
/// inside the provider's real window after forwarding latency or clock skew.
pub const JITTER_MARGIN: u128 = 1_000_000_000;

// --- The limiter -------------------------------------------------------------

/// The hits still inside the window at `now`: the oldest are dropped as long as
/// they have left it.
pub open spec fn live(hits: Seq<u128>, window: nat, now: nat) -> Seq<u128>
    decreases hits.len(),
{
    if hits.len() > 0 && hits[0] + window <= now {
        live(hits.drop_first(), window, now)
    } else {
        hits
    }
}

/// Is there room for another hit at `now`?
pub open spec fn admits(hits: Seq<u128>, limit: nat, window: nat, now: nat) -> bool {
    live(hits, window, now).len() < limit
}

/// The hits after a request at `now`, granted or not.
pub open spec fn hits_after(hits: Seq<u128>, limit: nat, window: nat, now: u128) -> Seq<u128> {
    let l = live(hits, window, now as nat);
    if l.len() < limit {
        l.push(now)
    } else {
        l
    }
}

/// When a refused request may be tried again.
pub open spec fn retry_at(hits: Seq<u128>, window: nat, now: nat) -> nat {
    let l = live(hits, window, now);
    if l.len() > 0 {
        l[0] as nat + window
    } else {
        now + window
    }
}

/// Exact "N requests per rolling `window`" limiter.
pub struct SlidingWindow {
    limit: usize,
    window: u128,
    hits: VecDeque<u128>,
}

impl SlidingWindow {
    pub closed spec fn limit(&self) -> nat {
        self.limit as nat
    }

    pub closed spec fn window(&self) -> nat {
        self.window as nat
    }

    /// The recorded hits, oldest first.
    pub closed spec fn hits(&self) -> Seq<u128> {
        self.hits@
    }

    /// The instant at which each hit leaves the window can be represented.
    pub open spec fn wf(&self) -> bool {
        forall|i: int| 0 <= i < self.hits().len() ==> #[trigger] self.hits()[i] + self.window()
            <= u128::MAX
    }

    pub fn new(limit: usize, window: u128) -> (r: Self)
        ensures
            r.limit() == limit,
            r.window() == window,
            r.hits() == Seq::<u128>::empty(),
            r.wf(),
    {
        SlidingWindow { limit, window, hits: VecDeque::new() }
    }

    fn prune(&mut self, now: u128)
        requires
            old(self).wf(),
        ensures
            final(self).limit() == old(self).limit(),
            final(self).window() == old(self).window(),
            final(self).hits() == live(old(self).hits(), old(self).window(), now as nat),
            final(self).wf(),
    {
        assert forall|i: int| 0 <= i < self.hits@.len() implies #[trigger] self.hits@[i]
            + self.window <= u128::MAX by {
            assert(self.hits()[i] + self.window() <= u128::MAX);
        }
        while self.hits.len() > 0 && self.hits[0] + self.window <= now
            invariant
                forall|i: int|
                    0 <= i < self.hits@.len() ==> #[trigger] self.hits@[i] + self.window
                        <= u128::MAX,
                self.limit == old(self).limit,
                self.window == old(self).window,
                live(self.hits@, self.window as nat, now as nat) == live(
                    old(self).hits@,
                    self.window as nat,
                    now as nat,
                ),
            decreases self.hits@.len(),
        {
            let ghost before = self.hits@;
            let _ = self.hits.pop_front();
            proof {
                assert(self.hits@ =~= before.drop_first());
                assert forall|i: int| 0 <= i < self.hits@.len() implies #[trigger] self.hits@[i]
                    + self.window <= u128::MAX by {
                    assert(before[i + 1] + self.window <= u128::MAX);
                }
            }
        }
    }

    /// Hits still inside the window: how much of this key's budget is spent.
    pub fn load(&mut self, now: u128) -> (r: usize)
        requires
            old(self).wf(),
        ensures
            r == live(old(self).hits(), old(self).window(), now as nat).len(),
            final(self).limit() == old(self).limit(),
            final(self).window() == old(self).window(),
            final(self).hits() == live(old(self).hits(), old(self).window(), now as nat),
            final(self).wf(),
    {
        self.prune(now);
        self.hits.len()
    }

    /// Grant a slot at `now`, or report when the next slot frees.
    /// `Ok(())` records a hit and grants; `Err(retry_at)` means saturated.
    pub fn try_acquire(&mut self, now: u128) -> (r: Result<(), u128>)
        requires
            old(self).wf(),
            now + old(self).window() <= u128::MAX,
        ensures
            r is Ok <==> admits(
                old(self).hits(),
                old(self).limit(),
                old(self).window(),
                now as nat,
            ),
            r matches Err(t) ==> t == retry_at(old(self).hits(), old(self).window(), now as nat),
            final(self).limit() == old(self).limit(),
            final(self).window() == old(self).window(),
            final(self).hits() == hits_after(
                old(self).hits(),
                old(self).limit(),
                old(self).window(),
                now,
            ),
            final(self).wf(),
    {
        self.prune(now);
        if self.hits.len() < self.limit {
            let ghost before = self.hits@;
            self.hits.push_back(now);
            proof {
                assert forall|i: int| 0 <= i < self.hits().len() implies #[trigger] self.hits()[i]
                    + self.window() <= u128::MAX by {
                    if i < before.len() {
                        assert(self.hits()[i] == before[i]);
                    }
                }
            }
            Ok(())
        } else if self.hits.len() > 0 {
            // The oldest hit leaves the window at oldest + window; a slot frees then.
            assert(self.hits()[0] + self.window() <= u128::MAX);
            Err(self.hits[0] + self.window)
        } else {
            // A limit of zero never grants.
            Err(now + self.window)
        }
    }
}

// --- What the limiter guarantees ---------------------------------------------

pub open spec fn nondecreasing(s: Seq<u128>) -> bool {
    forall|i: int, j: int| 0 <= i <= j < s.len() ==> s[i] <= s[j]
}

/// A fresh limiter asked for a slot at each of `times`: what it has recorded at
/// the end, and the instants at which it granted.
pub open spec fn replay(limit: nat, window: nat, times: Seq<u128>) -> (Seq<u128>, Seq<u128>)
    decreases times.len(),
{
    if times.len() == 0 {
        (Seq::empty(), Seq::empty())
    } else {
        let (hits, grants) = replay(limit, window, times.drop_last());
        let now = times.last();
        (
            hits_after(hits, limit, window, now),
            if admits(hits, limit, window, now as nat) {
                grants.push(now)
            } else {
                grants
            },
        )
    }
}

pub proof fn lemma_live(hits: Seq<u128>, window: nat, now: nat)
    ensures
        live(hits, window, now).len() <= hits.len(),
        live(hits, window, now) == hits.skip(hits.len() - live(hits, window, now).len()),
        forall|i: int|
            0 <= i < hits.len() - live(hits, window, now).len() ==> #[trigger] hits[i] + window
                <= now,
        live(hits, window, now).len() > 0 ==> live(hits, window, now)[0] + window > now,
    decreases hits.len(),
{
    if hits.len() > 0 && hits[0] + window <= now {
        let rest = hits.drop_first();
        lemma_live(rest, window, now);
        let k = live(hits, window, now).len();
        assert(rest.skip(rest.len() - k) =~= hits.skip(hits.len() - k));
        assert forall|i: int| 0 <= i < hits.len() - k implies #[trigger] hits[i] + window <= now by {
            if i > 0 {
                assert(rest[i - 1] == hits[i]);
            }
        }
    } else {
        assert(hits.skip(0) =~= hits);
    }
}

proof fn lemma_replay(limit: nat, window: nat, times: Seq<u128>)
    requires
        nondecreasing(times),
    ensures
        ({
            let (hits, grants) = replay(limit, window, times);
            &&& nondecreasing(grants)
            &&& grants.len() > 0 ==> times.len() > 0 && grants.last() <= times.last()
            &&& hits.len() <= limit
            &&& limit == 0 ==> grants.len() == 0
            &&& hits.len() <= grants.len()
            &&& hits == grants.skip(grants.len() - hits.len())
            &&& forall|i: int|
                0 <= i < grants.len() - hits.len() ==> #[trigger] grants[i] + window <= times.last()
            &&& spaced(grants, limit, window)
        }),
    decreases times.len(),
{
    if times.len() > 0 {
        let earlier = times.drop_last();
        let now = times.last();
        assert(nondecreasing(earlier));
        lemma_replay(limit, window, earlier);
        let (hits, grants) = replay(limit, window, earlier);
        let l = live(hits, window, now as nat);
        lemma_live(hits, window, now as nat);
        let (hits2, grants2) = replay(limit, window, times);
        if earlier.len() > 0 {
            assert(earlier.last() == times[times.len() - 2]);
            assert(earlier.last() <= now);
        }
        assert(l =~= grants.skip(grants.len() - l.len()));
        assert forall|i: int| 0 <= i < grants.len() - l.len() implies #[trigger] grants[i] + window
            <= now by {
            if i >= grants.len() - hits.len() {
                assert(hits[i - (grants.len() - hits.len())] == grants[i]);
            }
        }
        if l.len() < limit {
            assert(grants2 == grants.push(now));
            assert(hits2 =~= grants2.skip(grants2.len() - hits2.len()));
            assert forall|i: int, j: int|
                0 <= i && j == i + limit && j < grants2.len() implies #[trigger] grants2[i] + window
                <= #[trigger] grants2[j] by {
                assert(grants2[i] == grants[i]);
                if j < grants.len() {
                    assert(grants2[j] == grants[j]);
                }
            }
        }
    }
}

/// The limit holds over every rolling window: of requests made one after another,
/// two that were granted less than a window apart have, together with those
/// granted between them, at most `limit` grants.
pub proof fn law_no_window_holds_more_than_the_limit(limit: nat, window: nat, times: Seq<u128>)
    requires
        nondecreasing(times),
    ensures
        forall|i: int, j: int|
            #![trigger replay(limit, window, times).1[i], replay(limit, window, times).1[j]]
            0 <= i <= j < replay(limit, window, times).1.len() && replay(limit, window, times).1[j]
                < replay(limit, window, times).1[i] + window ==> j - i + 1 <= limit,
{
    lemma_replay(limit, window, times);
    let grants = replay(limit, window, times).1;
    assert forall|i: int, j: int|
        #![trigger grants[i], grants[j]]
        0 <= i <= j < grants.len() && grants[j] < grants[i] + window implies j - i + 1 <= limit by {
        if j - i + 1 > limit {
            assert(grants[i] + window <= grants[i + limit]);
            assert(grants[i + limit] <= grants[j]);
        }
    }
}

pub proof fn lemma_live_later(hits: Seq<u128>, window: nat, now: nat, later: nat)
    requires
        now <= later,
    ensures
        live(live(hits, window, now), window, later) == live(hits, window, later),
    decreases hits.len(),
{
    if hits.len() > 0 && hits[0] + window <= now {
        lemma_live_later(hits.drop_first(), window, now, later);
    }
}

/// A refusal names the very instant at which the next slot frees: a saturated
/// limiter refuses every request before it and grants the first one at it.
pub proof fn law_retry_time_is_exact(hits: Seq<u128>, limit: nat, window: nat, now: nat)
    requires
        live(hits, window, now).len() == limit,
        limit > 0,
    ensures
        retry_at(hits, window, now) > now,
        forall|t: nat|
            now <= t < retry_at(hits, window, now) ==> !#[trigger] admits(hits, limit, window, t),
        admits(hits, limit, window, retry_at(hits, window, now)),
{
    let l = live(hits, window, now);
    let at = retry_at(hits, window, now);
    lemma_live(hits, window, now);
    assert forall|t: nat| now <= t < at implies !#[trigger] admits(hits, limit, window, t) by {
        lemma_live_later(hits, window, now, t);
        assert(live(l, window, t) == l);
    }
    lemma_live_later(hits, window, now, at);
    lemma_live(l.drop_first(), window, at);
}

/// Whatever requests were made before, a refusal spends nothing and names the very
/// instant at which the next slot frees: the limiter is full before and after it, every
/// request until that instant is refused, and the first one at it is granted.
pub proof fn law_a_refusal_is_exact(limit: nat, window: nat, times: Seq<u128>, now: u128)
    requires
        nondecreasing(times.push(now)),
        limit > 0,
        window > 0,
        !admits(replay(limit, window, times).0, limit, window, now as nat),
    ensures
        ({
            let hits = replay(limit, window, times).0;
            let after = hits_after(hits, limit, window, now);
            let at = retry_at(hits, window, now as nat);
            &&& now < at <= now + window
            &&& live(hits, window, now as nat).len() == limit
            &&& live(after, window, now as nat).len() == limit
            &&& forall|t: nat| now <= t < at ==> !#[trigger] admits(after, limit, window, t)
            &&& admits(after, limit, window, at)
        }),
{
    let all = times.push(now);
    assert forall|i: int, j: int| 0 <= i <= j < times.len() implies times[i] <= times[j] by {
        assert(all[i] == times[i] && all[j] == times[j]);
    }
    lemma_replay(limit, window, times);
    let (hits, grants) = replay(limit, window, times);
    let l = live(hits, window, now as nat);
    lemma_live(hits, window, now as nat);
    let after = hits_after(hits, limit, window, now);
    assert(after == l);
    lemma_live_later(hits, window, now as nat, now as nat);
    law_retry_time_is_exact(hits, limit, window, now as nat);
    law_retry_time_is_exact(after, limit, window, now as nat);
    assert(grants.len() > 0);
    assert(all[times.len() - 1] == times.last() && all[times.len() as int] == now);
    assert(l[0] == grants[grants.len() - l.len()]);
    assert(grants[grants.len() - l.len()] <= grants[grants.len() - 1]);
}

/// How many of `grants` lie in the window that ends at the instant `t`: no later than
/// it, and less than a window earlier.
pub open spec fn held_at(grants: Seq<u128>, window: nat, t: nat) -> nat
    decreases grants.len(),
{
    if grants.len() == 0 {
        0
    } else {
        held_at(grants.drop_last(), window, t) + if grants.last() <= t && t < grants.last()
            + window {
            1nat
        } else {
            0
        }
    }
}

proof fn lemma_held_at(grants: Seq<u128>, limit: nat, window: nat, t: nat)
    requires
        nondecreasing(grants),
        spaced(grants, limit, window),
    ensures
        held_at(grants, window, t) <= limit,
    decreases grants.len(),
{
    if grants.len() > 0 {
        if grants.last() > t {
            let rest = grants.drop_last();
            assert(nondecreasing(rest));
            assert forall|i: int, j: int|
                0 <= i && j == i + limit && j < rest.len() implies #[trigger] rest[i] + window
                <= #[trigger] rest[j] by {
                assert(grants[i] + window <= grants[j]);
            }
            lemma_held_at(rest, limit, window, t);
        } else {
            let k = if limit < grants.len() {
                limit
            } else {
                grants.len()
            };
            assert forall|i: int| 0 <= i < grants.len() - k implies #[trigger] grants[i] + window
                <= t by {
                assert(grants[i] + window <= grants[i + limit]);
                assert(grants[i + limit] <= grants[grants.len() - 1]);
            }
            lemma_recent(grants, window, t, k);
            lemma_held_is_recent(grants, window, t);
        }
    }
}

proof fn lemma_held_is_recent(grants: Seq<u128>, window: nat, t: nat)
    ensures
        held_at(grants, window, t) <= recent(grants, window, t),
    decreases grants.len(),
{
    if grants.len() > 0 {
        lemma_held_is_recent(grants.drop_last(), window, t);
    }
}

/// At no instant does the window that ends with it hold more than `limit` grants, and
/// a limit of zero never grants.
pub proof fn law_no_instant_sees_more_than_the_limit(
    limit: nat,
    window: nat,
    times: Seq<u128>,
    t: nat,
)
    requires
        nondecreasing(times),
    ensures
        held_at(replay(limit, window, times).1, window, t) <= limit,
        limit == 0 ==> replay(limit, window, times).1.len() == 0,
{
    lemma_replay(limit, window, times);
    lemma_held_at(replay(limit, window, times).1, limit, window, t);
}

// --- Lanes -------------------------------------------------------------------

/// One upstream lane: an API key on a provider, with its own limiter.
pub struct Lane {
    pub provider: String,
    pub base_url: String,
    pub key: String,
    pub protocol: Protocol,
    pub rpm: usize,
    pub limiter: SlidingWindow,
    pub cooldown_until: Option<u128>,
}

/// How many of `grants` lie in the window that ends at `now`.
pub open spec fn recent(grants: Seq<u128>, window: nat, now: nat) -> nat
    decreases grants.len(),
{
    if grants.len() == 0 {
        0
    } else {
        recent(grants.drop_last(), window, now) + if grants.last() + window > now {
            1nat
        } else {
            0nat
        }
    }
}

/// At `at`, a limiter that has recorded `hits` knows of every instant, out of all
/// those at which it ever granted, that is still inside the window.
pub open spec fn remembers(hits: Seq<u128>, grants: Seq<u128>, window: nat, at: nat) -> bool {
    &&& nondecreasing(grants)
    &&& hits.len() <= grants.len()
    &&& hits == grants.skip(grants.len() - hits.len())
    &&& forall|i: int| 0 <= i < grants.len() ==> #[trigger] grants[i] <= at
    &&& forall|i: int|
        0 <= i < grants.len() - hits.len() ==> #[trigger] grants[i] + window <= at
}

proof fn lemma_recent(grants: Seq<u128>, window: nat, now: nat, k: nat)
    requires
        k <= grants.len(),
        forall|i: int| 0 <= i < grants.len() - k ==> #[trigger] grants[i] + window <= now,
    ensures
        recent(grants, window, now) <= k,
    decreases grants.len(),
{
    if grants.len() > 0 {
        let rest = grants.drop_last();
        let m = if k > 0 {
            (k - 1) as nat
        } else {
            0nat
        };
        assert forall|i: int| 0 <= i < rest.len() - m implies #[trigger] rest[i] + window
            <= now by {
            assert(rest[i] == grants[i]);
        }
        lemma_recent(rest, window, now, m);
        if k == 0 {
            assert(grants[grants.len() - 1] + window <= now);
        }
    }
}

pub proof fn lemma_recent_live(hits: Seq<u128>, window: nat, now: nat)
    ensures
        recent(hits, window, now) <= live(hits, window, now).len(),
{
    lemma_live(hits, window, now);
    lemma_recent(hits, window, now, live(hits, window, now).len());
}

/// As time passes, whether the limiter drops what has left the window or not, it
/// still remembers.
pub proof fn lemma_remembers_later(
    hits: Seq<u128>,
    grants: Seq<u128>,
    window: nat,
    at: nat,
    now: nat,
)
    requires
        remembers(hits, grants, window, at),
        at <= now,
    ensures
        remembers(hits, grants, window, now),
        remembers(live(hits, window, now), grants, window, now),
{
    lemma_live(hits, window, now);
    let l = live(hits, window, now);
    let n = grants.len() - hits.len();
    assert(l =~= grants.skip(grants.len() - l.len()));
    assert forall|i: int| 0 <= i < grants.len() - l.len() implies #[trigger] grants[i] + window
        <= now by {
        if i >= n {
            assert(hits[i - n] == grants[i]);
        }
    }
}

/// A granted request keeps within the rate in force: of all the instants at which
/// the limiter ever granted, this one included, at most `limit` lie in the window
/// that ends with it.
pub proof fn law_a_grant_keeps_within_the_rate(
    hits: Seq<u128>,
    grants: Seq<u128>,
    limit: nat,
    window: nat,
    at: nat,
    now: u128,
)
    requires
        remembers(hits, grants, window, at),
        at <= now,
        admits(hits, limit, window, now as nat),
    ensures
        recent(grants.push(now), window, now as nat) <= limit,
        remembers(hits_after(hits, limit, window, now), grants.push(now), window, now as nat),
{
    lemma_remembers_later(hits, grants, window, at, now as nat);
    let l = live(hits, window, now as nat);
    let all = grants.push(now);
    assert(l.push(now) =~= all.skip(all.len() - l.push(now).len()));
    assert forall|i: int| 0 <= i < all.len() - l.push(now).len() implies #[trigger] all[i] + window
        <= now by {
        assert(all[i] == grants[i]);
    }
    assert forall|i: int| 0 <= i < all.len() implies #[trigger] all[i] <= now by {
        if i < grants.len() {
            assert(all[i] == grants[i]);
        }
    }
    lemma_recent(all, window, now as nat, l.push(now).len());
}

/// Any two grants with `limit` steps between them are at least `span` apart.
pub open spec fn spaced(grants: Seq<u128>, limit: nat, span: nat) -> bool {
    forall|i: int, j: int|
        0 <= i && j == i + limit && j < grants.len() ==> #[trigger] grants[i] + span
            <= #[trigger] grants[j]
}

proof fn lemma_recent_tail(grants: Seq<u128>, window: nat, now: nat, i: int)
    requires
        0 <= i <= grants.len(),
        forall|j: int| i <= j < grants.len() ==> #[trigger] grants[j] + window > now,
    ensures
        recent(grants, window, now) >= grants.len() - i,
    decreases grants.len(),
{
    if i < grants.len() {
        let rest = grants.drop_last();
        assert forall|j: int| i <= j < rest.len() implies #[trigger] rest[j] + window > now by {
            assert(rest[j] == grants[j]);
        }
        lemma_recent_tail(rest, window, now, i);
        assert(grants[grants.len() - 1] + window > now);
    }
}

/// Grants that each keep within the rate are spaced by the window.
pub proof fn law_grants_within_the_rate_are_spaced(
    grants: Seq<u128>,
    now: u128,
    limit: nat,
    window: nat,
)
    requires
        nondecreasing(grants.push(now)),
        spaced(grants, limit, window),
        recent(grants.push(now), window, now as nat) <= limit,
    ensures
        spaced(grants.push(now), limit, window),
{
    let all = grants.push(now);
    assert forall|i: int, j: int| 0 <= i && j == i + limit && j < all.len() implies #[trigger] all[i]
        + window <= #[trigger] all[j] by {
        if j < grants.len() {
            assert(grants[i] + window <= grants[j]);
        } else if all[i] + window > now {
            assert forall|j: int| i <= j < all.len() implies #[trigger] all[j] + window > now by {
                assert(all[i] <= all[j]);
            }
            lemma_recent_tail(all, window, now as nat, i);
        }
    }
}

/// The margin absorbs jitter: where grants are spaced by the provider's window and a
/// margin, requests that take up to the margin to arrive are spaced by the window
/// when the provider sees them.
pub proof fn law_the_margin_absorbs_jitter(
    grants: Seq<u128>,
    arrivals: Seq<nat>,
    limit: nat,
    window: nat,
    margin: nat,
)
    requires
        spaced(grants, limit, window + margin),
        arrivals.len() == grants.len(),
        forall|i: int|
            0 <= i < grants.len() ==> grants[i] <= #[trigger] arrivals[i] <= grants[i] + margin,
    ensures
        forall|i: int|
            0 <= i && i + limit < arrivals.len() ==> #[trigger] arrivals[i] + window <= arrivals[i
                + limit],
{
    assert forall|i: int| 0 <= i && i + limit < arrivals.len() implies #[trigger] arrivals[i]
        + window <= arrivals[i + limit] by {
        assert(grants[i] + window + margin <= grants[i + limit]);
        assert(grants[i + limit] <= arrivals[i + limit]);
    }
}

/// The later of a cooldown in force, if any, and another one.
pub open spec fn longer_cooldown(current: Option<u128>, until: u128) -> u128 {
    match current {
        Some(c) => if c >= until {
            c
        } else {
            until
        },
        None => until,
    }
}

/// Is a cooldown still running at `now`?
pub open spec fn cooling(cooldown: Option<u128>, now: nat) -> bool {
    cooldown matches Some(until) && until > now
}

impl Lane {
    /// The hits recorded against this key.
    pub open spec fn hits(&self) -> Seq<u128> {
        self.limiter.hits()
    }

    pub open spec fn window(&self) -> nat {
        self.limiter.window()
    }

    pub open spec fn limit(&self) -> nat {
        self.limiter.limit()
    }

    /// The end of the last cooldown this lane was given.
    pub open spec fn cooldown(&self) -> Option<u128> {
        self.cooldown_until
    }

    pub open spec fn wf(&self) -> bool {
        self.limiter.wf() && self.limiter.limit() == self.rpm
    }

    /// The parts of a lane that no request changes.
    pub open spec fn same_key(&self, other: &Lane) -> bool {
        &&& self.provider == other.provider
        &&& self.base_url == other.base_url
        &&& self.key == other.key
        &&& self.protocol == other.protocol
        &&& self.rpm == other.rpm
        &&& self.window() == other.window()
        &&& self.limit() == other.limit()
    }

    /// The spent budget at `now`.
    pub open spec fn spent(&self, now: nat) -> nat {
        live(self.hits(), self.window(), now).len()
    }

    /// May a request be served at `now`: budget left, and no cooldown running?
    pub open spec fn has_room(&self, now: nat) -> bool {
        !cooling(self.cooldown(), now) && self.spent(now) < self.rpm
    }

    fn new(spec: LaneSpec, window: u128) -> (r: Self)
        ensures
            r.provider == spec.provider,
            r.base_url == spec.base_url,
            r.key == spec.key,
            r.protocol == spec.protocol,
            r.rpm == spec.rpm,
            r.window() == window,
            r.limit() == spec.rpm,
            r.hits() == Seq::<u128>::empty(),
            r.cooldown() is None,
            r.wf(),
    {
        Lane {
            limiter: SlidingWindow::new(spec.rpm, window),
            cooldown_until: None,
            provider: spec.provider,
            base_url: spec.base_url,
            key: spec.key,
            protocol: spec.protocol,
            rpm: spec.rpm,
        }
    }

    /// Take this lane out of rotation until `until`. A key that just answered 429
    /// or 5xx will answer the same way to the next request, so the rebuff has to
    /// be remembered by the pool rather than only by the request that found it.
    ///
    /// A bench already in force is never shortened: concurrent failures on the
    /// same lane must not let a smaller backoff cancel a larger one.
    pub fn bench(&mut self, until: u128)
        ensures
            final(self).cooldown() == Some(longer_cooldown(old(self).cooldown(), until)),
            final(self).hits() == old(self).hits(),
            final(self).same_key(old(self)),
            old(self).wf() ==> final(self).wf(),
    {
        let longer = match self.cooldown_until {
            Some(current) => if current >= until {
                current
            } else {
                until
            },
            None => until,
        };
        self.cooldown_until = Some(longer);
    }

    pub fn benched(&self, now: u128) -> (r: bool)
        ensures
            r == cooling(self.cooldown(), now as nat),
    {
        match self.cooldown_until {
            Some(until) => until > now,
            None => false,
        }
    }

    /// When this lane's cooldown ends, if it is benched right now.
    pub fn cooldown_ends(&self, now: u128) -> (r: Option<u128>)
        ensures
            r == if cooling(self.cooldown(), now as nat) {
                self.cooldown()
            } else {
                None
            },
    {
        match self.cooldown_until {
            Some(until) => if until > now {
                Some(until)
            } else {
                None
            },
            None => None,
        }
    }

    pub fn try_acquire(&mut self, now: u128) -> (r: Result<(), u128>)
        requires
            old(self).wf(),
            now + old(self).window() <= u128::MAX,
        ensures
            r is Ok <==> admits(
                old(self).hits(),
                old(self).limit(),
                old(self).window(),
                now as nat,
            ),
            r matches Err(t) ==> t == retry_at(old(self).hits(), old(self).window(), now as nat),
            final(self).hits() == hits_after(
                old(self).hits(),
                old(self).limit(),
                old(self).window(),
                now,
            ),
            final(self).cooldown() == old(self).cooldown(),
            final(self).same_key(old(self)),
            final(self).wf(),
            final(self).limit() == final(self).rpm,
    {
        self.limiter.try_acquire(now)
    }

    /// Spent budget in the current window, for picking the least-loaded lane.
    pub fn load(&mut self, now: u128) -> (r: usize)
        requires
            old(self).wf(),
        ensures
            r == old(self).spent(now as nat),
            final(self).hits() == live(old(self).hits(), old(self).window(), now as nat),
            final(self).cooldown() == old(self).cooldown(),
            final(self).same_key(old(self)),
            final(self).wf(),
            final(self).limit() == final(self).rpm,
    {
        self.limiter.load(now)
    }

    /// Adopt another lane's spent budget and cooldown. Only the hits are copied,
    /// not the limit, so a key whose rpm was just lowered is held to the new
    /// figure immediately rather than from the next window.
    fn carry_from(&mut self, other: &Lane)
        requires
            old(self).wf(),
            other.wf(),
            other.window() == old(self).window(),
        ensures
            final(self).hits() == other.hits(),
            final(self).cooldown() == other.cooldown(),
            final(self).same_key(old(self)),
            final(self).wf(),
    {
        let mut hits: VecDeque<u128> = VecDeque::new();
        let mut i: usize = 0;
        while i < other.limiter.hits.len()
            invariant
                i <= other.limiter.hits@.len(),
                hits@ == other.limiter.hits@.take(i as int),
            decreases other.limiter.hits@.len() - i,
        {
            hits.push_back(other.limiter.hits[i]);
            i += 1;
            assert(other.limiter.hits@.take(i as int) =~= other.limiter.hits@.take(
                i as int - 1,
            ).push(other.limiter.hits@[i as int - 1]));
        }
        assert(hits@ =~= other.limiter.hits@);
        self.limiter.hits = hits;
        self.cooldown_until = other.cooldown_until;
        assert(self.limiter.hits() == other.limiter.hits());
        assert forall|k: int| 0 <= k < self.limiter.hits().len() implies #[trigger] self.limiter.hits()[k]
            + self.limiter.window() <= u128::MAX by {
            assert(other.limiter.hits()[k] + other.limiter.window() <= u128::MAX);
        }
    }
}

#[derive(Clone, Debug)]
pub struct LaneSpec {
    pub provider: String,
    pub base_url: String,
    pub key: String,
    pub protocol: Protocol,
    pub rpm: usize,
}

/// Does this key get a lane?
pub open spec fn serves(k: ProviderKey) -> bool {
    k.enabled && k.rpm > 0
}

/// The lane of the key `k` on the provider `p`.
pub open spec fn key_spec(p: Provider, k: ProviderKey) -> LaneSpec {
    LaneSpec {
        provider: p.name,
        base_url: p.base_url,
        key: k.key,
        protocol: p.protocol,
        rpm: k.rpm,
    }
}

/// The lanes of the keys `keys` on the provider `p`.
pub open spec fn provider_specs(p: Provider, keys: Seq<ProviderKey>) -> Seq<LaneSpec>
    decreases keys.len(),
{
    if keys.len() == 0 {
        Seq::empty()
    } else {
        let rest = provider_specs(p, keys.drop_last());
        if serves(keys.last()) {
            rest.push(key_spec(p, keys.last()))
        } else {
            rest
        }
    }
}

/// The lanes of `providers`: those of each, in order.
pub open spec fn all_specs(providers: Seq<Provider>) -> Seq<LaneSpec>
    decreases providers.len(),
{
    if providers.len() == 0 {
        Seq::empty()
    } else {
        all_specs(providers.drop_last()) + provider_specs(
            providers.last(),
            providers.last().keys@,
        )
    }
}

/// Flatten every enabled, non-zero-rpm key across all providers into lane specs.
pub fn lane_specs(sc: &StoredConfig) -> (specs: Vec<LaneSpec>)
    ensures
        specs@ == all_specs(sc.providers@),
{
    let mut specs: Vec<LaneSpec> = Vec::new();
    let mut i: usize = 0;
    while i < sc.providers.len()
        invariant
            i <= sc.providers@.len(),
            specs@ == all_specs(sc.providers@.take(i as int)),
        decreases sc.providers@.len() - i,
    {
        let p = &sc.providers[i];
        let ghost before = specs@;
        let mut j: usize = 0;
        assert(before + provider_specs(*p, p.keys@.take(0)) =~= before);
        while j < p.keys.len()
            invariant
                j <= p.keys@.len(),
                specs@ == before + provider_specs(*p, p.keys@.take(j as int)),
            decreases p.keys@.len() - j,
        {
            let k = &p.keys[j];
            if k.enabled && k.rpm > 0 {
                specs.push(
                    LaneSpec {
                        provider: p.name.clone(),
                        base_url: p.base_url.clone(),
                        key: k.key.clone(),
                        protocol: p.protocol,
                        rpm: k.rpm,
                    },
                );
            }
            j += 1;
            proof {
                let t = p.keys@.take(j as int);
                assert(t.drop_last() =~= p.keys@.take(j as int - 1));
                assert(t.last() == *k);
                assert(specs@ =~= before + provider_specs(*p, t));
            }
        }
        assert(p.keys@.take(p.keys@.len() as int) =~= p.keys@);
        i += 1;
        proof {
            let t = sc.providers@.take(i as int);
            assert(t.drop_last() =~= sc.providers@.take(i as int - 1));
            assert(t.last() == *p);
        }
    }
    assert(sc.providers@.take(sc.providers@.len() as int) =~= sc.providers@);
    specs
}

// --- The pool ----------------------------------------------------------------

pub struct Pool {
    lanes: Vec<Lane>,
    window: u128,
}

/// The sum of the lanes' rates.
pub open spec fn total_rpm(lanes: Seq<Lane>) -> nat
    decreases lanes.len(),
{
    if lanes.len() == 0 {
        0
    } else {
        total_rpm(lanes.drop_last()) + lanes.last().rpm as nat
    }
}

/// Where the key `key` of `provider` stands among `lanes`.
pub open spec fn lane_index(lanes: Seq<Lane>, provider: Seq<char>, key: Seq<char>) -> Option<int> {
    seqs::first_where(lanes, |l: Lane| l.provider@ == provider && l.key@ == key)
}

/// The lane takes its key, provider and rate from `spec`.
pub open spec fn lane_of(lane: Lane, spec: LaneSpec, window: nat) -> bool {
    &&& lane.provider == spec.provider
    &&& lane.base_url == spec.base_url
    &&& lane.key == spec.key
    &&& lane.protocol == spec.protocol
    &&& lane.rpm == spec.rpm
    &&& lane.window() == window
}

/// No budget spent and no cooldown given.
pub open spec fn fresh(lane: Lane) -> bool {
    lane.hits() == Seq::<u128>::empty() && lane.cooldown() is None
}

/// What a rebuilt lane starts from: the state of the lane that held its key, or
/// nothing for a key that had none.
pub open spec fn carried(lane: Lane, old_lanes: Seq<Lane>) -> bool {
    match lane_index(old_lanes, lane.provider@, lane.key@) {
        Some(i) => lane.hits() == old_lanes[i].hits() && lane.cooldown() == old_lanes[i].cooldown(),
        None => fresh(lane),
    }
}

impl Pool {
    pub closed spec fn view_lanes(&self) -> Seq<Lane> {
        self.lanes@
    }

    /// The span over which each lane enforces its rate.
    pub closed spec fn window(&self) -> nat {
        self.window as nat
    }

    pub open spec fn wf(&self) -> bool {
        forall|i: int|
            0 <= i < self.view_lanes().len() ==> (#[trigger] self.view_lanes()[i]).wf()
                && self.view_lanes()[i].window() == self.window()
                && self.view_lanes()[i].limit() == self.view_lanes()[i].rpm
    }

    /// Every lane takes its place, key and rate from the spec at its position.
    pub open spec fn built_from(&self, specs: Seq<LaneSpec>, window: nat) -> bool {
        &&& self.window() == window
        &&& self.view_lanes().len() == specs.len()
        &&& forall|i: int|
            0 <= i < specs.len() ==> lane_of(#[trigger] self.view_lanes()[i], specs[i], window)
    }

    pub fn new(specs: Vec<LaneSpec>) -> (r: Self)
        ensures
            r.built_from(specs@, (PROVIDER_WINDOW + JITTER_MARGIN) as nat),
            r.window() == 61_000_000_000,
            forall|i: int| 0 <= i < specs@.len() ==> fresh(#[trigger] r.view_lanes()[i]),
            r.wf(),
    {
        Self::for_provider_window(specs, PROVIDER_WINDOW)
    }

    /// Build lanes that enforce over the provider window *plus* the jitter margin,
    /// keeping the proxy strictly under the provider's real per-key limit.
    pub fn for_provider_window(specs: Vec<LaneSpec>, provider_window: u128) -> (r: Self)
        requires
            provider_window + JITTER_MARGIN <= u128::MAX,
        ensures
            r.built_from(specs@, (provider_window + JITTER_MARGIN) as nat),
            r.window() == provider_window + 1_000_000_000,
            forall|i: int| 0 <= i < specs@.len() ==> fresh(#[trigger] r.view_lanes()[i]),
            r.wf(),
    {
        Self::with_window(specs, provider_window + JITTER_MARGIN)
    }

    /// Build with an exact enforcement window (no margin).
    pub fn with_window(specs: Vec<LaneSpec>, window: u128) -> (r: Self)
        ensures
            r.built_from(specs@, window as nat),
            forall|i: int| 0 <= i < specs@.len() ==> fresh(#[trigger] r.view_lanes()[i]),
            r.wf(),
    {
        let mut lanes: Vec<Lane> = Vec::new();
        for spec in it: specs
            invariant
                it.seq() == specs@,
                lanes@.len() == it.index(),
                forall|i: int|
                    0 <= i < lanes@.len() ==> lane_of(#[trigger] lanes@[i], specs@[i], window as nat)
                        && fresh(lanes@[i]) && lanes@[i].wf() && lanes@[i].limit() == lanes@[i].rpm,
        {
            lanes.push(Lane::new(spec, window));
        }
        Pool { lanes, window }
    }

    /// Build a replacement pool, carrying each kept key's spent budget and
    /// cooldown across the swap.
    ///
    /// Without this a settings save hands every key a fresh window, and the
    /// requests immediately after it exceed the provider's limit. A key is matched
    /// by provider and secret, so renaming or reordering keeps its state and a
    /// genuinely new key starts clean.
    pub fn rebuild(&self, specs: Vec<LaneSpec>) -> (r: Self)
        requires
            self.wf(),
        ensures
            r.built_from(specs@, self.window()),
            forall|i: int|
                0 <= i < specs@.len() ==> carried(#[trigger] r.view_lanes()[i], self.view_lanes()),
            r.wf(),
    {
        let mut lanes: Vec<Lane> = Vec::new();
        for spec in it: specs
            invariant
                self.wf(),
                it.seq() == specs@,
                lanes@.len() == it.index(),
                forall|i: int|
                    0 <= i < lanes@.len() ==> lane_of(
                        #[trigger] lanes@[i],
                        specs@[i],
                        self.window(),
                    ) && carried(lanes@[i], self.view_lanes()) && lanes@[i].wf()
                        && lanes@[i].limit() == lanes@[i].rpm,
        {
            let mut lane = Lane::new(spec, self.window);
            match self.find_lane(&lane) {
                Some(i) => {
                    assert(self.view_lanes()[i as int].wf());
                    lane.carry_from(&self.lanes[i]);
                },
                None => {},
            }
            assert(carried(lane, self.view_lanes()));
            lanes.push(lane);
        }
        Pool { lanes, window: self.window }
    }

    /// The lane that holds the same key on the same provider.
    fn find_lane(&self, lane: &Lane) -> (r: Option<usize>)
        ensures
            match r {
                Some(i) => i < self.view_lanes().len() && lane_index(
                    self.view_lanes(),
                    lane.provider@,
                    lane.key@,
                ) == Some(i as int),
                None => lane_index(self.view_lanes(), lane.provider@, lane.key@) is None,
            },
    {
        let ghost f = |l: Lane| l.provider@ == lane.provider@ && l.key@ == lane.key@;
        let mut i: usize = 0;
        while i < self.lanes.len()
            invariant
                i <= self.lanes@.len(),
                f == |l: Lane| l.provider@ == lane.provider@ && l.key@ == lane.key@,
                forall|j: int| 0 <= j < i ==> !f(#[trigger] self.lanes@[j]),
            decreases self.lanes@.len() - i,
        {
            let l = &self.lanes[i];
            if l.provider == lane.provider && l.key == lane.key {
                proof {
                    seqs::lemma_is_first(self.lanes@, f, i as int);
                }
                return Some(i);
            }
            i += 1;
        }
        proof {
            seqs::lemma_is_none(self.lanes@, f);
        }
        None
    }

    pub fn len(&self) -> (r: usize)
        ensures
            r == self.view_lanes().len(),
    {
        self.lanes.len()
    }

    pub fn is_empty(&self) -> (r: bool)
        ensures
            r == (self.view_lanes().len() == 0),
    {
        self.lanes.len() == 0
    }

    /// Aggregate requests-per-minute the whole pool can sustain.
    pub fn capacity_rpm(&self) -> (r: usize)
        requires
            total_rpm(self.view_lanes()) <= usize::MAX,
        ensures
            r == total_rpm(self.view_lanes()),
    {
        let mut sum: usize = 0;
        let mut i: usize = 0;
        while i < self.lanes.len()
            invariant
                i <= self.lanes@.len(),
                sum == total_rpm(self.lanes@.take(i as int)),
                total_rpm(self.lanes@) <= usize::MAX,
            decreases self.lanes@.len() - i,
        {
            proof {
                let t = self.lanes@.take(i as int + 1);
                assert(t.drop_last() =~= self.lanes@.take(i as int));
                lemma_total_rpm_grows(self.lanes@, i as int + 1);
            }
            sum += self.lanes[i].rpm;
            i += 1;
        }
        assert(self.lanes@.take(self.lanes@.len() as int) =~= self.lanes@);
        sum
    }

    pub fn rpms(&self) -> (r: Vec<usize>)
        ensures
            r@ == Seq::new(self.view_lanes().len(), |i: int| self.view_lanes()[i].rpm),
    {
        let mut out: Vec<usize> = Vec::new();
        let mut i: usize = 0;
        while i < self.lanes.len()
            invariant
                i <= self.lanes@.len(),
                out@ == Seq::new(i as nat, |j: int| self.lanes@[j].rpm),
            decreases self.lanes@.len() - i,
        {
            out.push(self.lanes[i].rpm);
            i += 1;
            assert(out@ =~= Seq::new(i as nat, |j: int| self.lanes@[j].rpm));
        }
        out
    }

    pub fn lanes(&self) -> (r: &[Lane])
        ensures
            r@ == self.view_lanes(),
    {
        self.lanes.as_slice()
    }

    /// The lane at position `i`, to be benched or charged.
    pub fn lane_mut(&mut self, i: usize) -> (r: &mut Lane)
        requires
            i < old(self).view_lanes().len(),
        ensures
            *r == old(self).view_lanes()[i as int],
            final(self).view_lanes() == old(self).view_lanes().update(i as int, *final(r)),
            final(self).window() == old(self).window(),
    {
        &mut self.lanes[i]
    }

    /// The weight of the lane at position `i` for the conversation `session`.
    pub open spec fn weight(&self, session: u64, i: int) -> u64 {
        lane_weight(session, self.view_lanes()[i].provider@, self.view_lanes()[i].key@)
    }

    /// The candidate that the conversation `session` sticks to.
    pub open spec fn choice(&self, session: u64, candidates: Seq<usize>) -> Option<usize> {
        match heaviest(
            Seq::new(candidates.len(), |j: int| self.weight(session, candidates[j] as int)),
        ) {
            Some(j) => Some(candidates[j]),
            None => None,
        }
    }

    /// Sticky-lane hint: rendezvous (highest-random-weight) hash, so the lane
    /// maximizing `hash(session, lane identity)` wins. Pinning a conversation to
    /// one key keeps any upstream prefix cache warm across its turns.
    ///
    /// Weighting by the lane's *identity* rather than its index is what makes
    /// this survive pool changes: reordering lanes moves nothing, and adding or
    /// removing a key relocates only that key's share of conversations.
    pub fn affinity_lane(&self, session: u64) -> (r: Option<usize>)
        ensures
            match heaviest(
                Seq::new(self.view_lanes().len(), |j: int| self.weight(session, j)),
            ) {
                Some(j) => r == Some(j as usize) && 0 <= j < self.view_lanes().len(),
                None => r is None && self.view_lanes().len() == 0,
            },
    {
        let mut all: Vec<usize> = Vec::new();
        let mut i: usize = 0;
        while i < self.lanes.len()
            invariant
                i <= self.lanes@.len(),
                all@ == Seq::new(i as nat, |j: int| j as usize),
            decreases self.lanes@.len() - i,
        {
            all.push(i);
            i += 1;
            assert(all@ =~= Seq::new(i as nat, |j: int| j as usize));
        }
        proof {
            let w = Seq::new(all@.len(), |j: int| self.weight(session, all@[j] as int));
            assert(w =~= Seq::new(self.view_lanes().len(), |j: int| self.weight(session, j)));
            lemma_heaviest(w);
        }
        self.affinity_among(session, all.as_slice())
    }

    /// Affinity restricted to `candidates`. Routing may narrow the eligible set
    /// to one provider or exclude lanes that already failed this request, and a
    /// conversation should stick within whatever set actually remains rather
    /// than losing its lane entirely.
    pub fn affinity_among(&self, session: u64, candidates: &[usize]) -> (r: Option<usize>)
        requires
            forall|j: int| 0 <= j < candidates@.len() ==> #[trigger] candidates@[j]
                < self.view_lanes().len(),
        ensures
            r == self.choice(session, candidates@),
            match heaviest(
                Seq::new(
                    candidates@.len(),
                    |j: int| self.weight(session, candidates@[j] as int),
                ),
            ) {
                Some(j) => r == Some(candidates@[j]) && 0 <= j < candidates@.len(),
                None => r is None && candidates@.len() == 0,
            },
    {
        let ghost weights = Seq::new(
            candidates@.len(),
            |j: int| self.weight(session, candidates@[j] as int),
        );
        let mut best: Option<(usize, u64)> = None;
        let mut i: usize = 0;
        while i < candidates.len()
            invariant
                i <= candidates@.len(),
                weights == Seq::new(
                    candidates@.len(),
                    |j: int| self.weight(session, candidates@[j] as int),
                ),
                forall|j: int| 0 <= j < candidates@.len() ==> #[trigger] candidates@[j]
                    < self.view_lanes().len(),
                match best {
                    Some((b, w)) => b < i && heaviest(weights.take(i as int)) == Some(b as int)
                        && w == weights[b as int],
                    None => i == 0 && heaviest(weights.take(i as int)) is None,
                },
            decreases candidates@.len() - i,
        {
            let lane = &self.lanes[candidates[i]];
            let w = weigh(session, lane.provider.as_str(), lane.key.as_str());
            proof {
                let t = weights.take(i as int + 1);
                assert(t.drop_last() =~= weights.take(i as int));
                assert(t.last() == weights[i as int]);
                assert(w == weights[i as int]);
            }
            match best {
                Some((b, top)) => {
                    if w >= top {
                        best = Some((i, w));
                    }
                },
                None => {
                    best = Some((i, w));
                },
            }
            i += 1;
        }
        assert(weights.take(weights.len() as int) =~= weights);
        match best {
            Some((b, _)) => Some(candidates[b]),
            None => None,
        }
    }
}

proof fn lemma_total_rpm_grows(lanes: Seq<Lane>, n: int)
    requires
        0 <= n <= lanes.len(),
    ensures
        total_rpm(lanes.take(n)) <= total_rpm(lanes),
    decreases lanes.len(),
{
    if n == lanes.len() {
        assert(lanes.take(n) =~= lanes);
    } else {
        lemma_total_rpm_grows(lanes.drop_last(), n);
        assert(lanes.drop_last().take(n) =~= lanes.take(n));
    }
}

// --- Affinity ----------------------------------------------------------------

/// The weight of a key for a conversation: a hash of the conversation and of the
/// key's identity, and of nothing else.
pub open spec fn lane_weight(session: u64, provider: Seq<char>, key: Seq<char>) -> u64 {
    hashing::hash_of(weighed(session, provider, key))
}

/// What is hashed for the weight of a key.
pub open spec fn weighed(session: u64, provider: Seq<char>, key: Seq<char>) -> Seq<Seq<u8>> {
    hashing::number_writes(session) + hashing::text_writes(provider) + hashing::text_writes(key)
}

/// What is hashed for a weight tells the conversation, the provider and the key: no
/// two of them are weighed by the same bytes.
pub proof fn law_weights_tell_keys_apart(
    s1: u64,
    p1: Seq<char>,
    k1: Seq<char>,
    s2: u64,
    p2: Seq<char>,
    k2: Seq<char>,
)
    ensures
        ({
            let a = weighed(s1, p1, k1);
            let b = weighed(s2, p2, k2);
            &&& lane_weight(s1, p1, k1) == hashing::hash_of(a)
            &&& a == b ==> s1 == s2 && p1 == p2 && k1 == k2
            &&& a.contains(vstd::utf8::encode_utf8(p1)) && a.contains(vstd::utf8::encode_utf8(k1))
        }),
{
    let a = weighed(s1, p1, k1);
    let b = weighed(s2, p2, k2);
    assert(a[0] == vstd::bytes::spec_u64_to_le_bytes(s1));
    assert(a[1] == vstd::utf8::encode_utf8(p1));
    assert(a[3] == vstd::utf8::encode_utf8(k1));
    assert(b[0] == vstd::bytes::spec_u64_to_le_bytes(s2));
    assert(b[1] == vstd::utf8::encode_utf8(p2));
    assert(b[3] == vstd::utf8::encode_utf8(k2));
    if a == b {
        hashing::lemma_numbers_apart(s1, s2);
        hashing::lemma_texts_apart(p1, p2);
        hashing::lemma_texts_apart(k1, k2);
    }
}

fn weigh(session: u64, provider: &str, key: &str) -> (r: u64)
    ensures
        r == lane_weight(session, provider@, key@),
{
    let mut h = DefaultHasher::new();
    hashing::write_number(&mut h, session);
    hashing::write_text(&mut h, provider);
    hashing::write_text(&mut h, key);
    assert(h@ =~= hashing::number_writes(session) + hashing::text_writes(provider@)
        + hashing::text_writes(key@));
    h.finish()
}

/// The position of the greatest weight; of several, the last.
pub open spec fn heaviest(weights: Seq<u64>) -> Option<int>
    decreases weights.len(),
{
    if weights.len() == 0 {
        None
    } else {
        match heaviest(weights.drop_last()) {
            Some(i) => if weights.last() >= weights[i] {
                Some(weights.len() - 1)
            } else {
                Some(i)
            },
            None => Some(0),
        }
    }
}

pub proof fn lemma_heaviest(weights: Seq<u64>)
    ensures
        match heaviest(weights) {
            Some(i) => 0 <= i < weights.len() && forall|j: int|
                0 <= j < weights.len() ==> #[trigger] weights[j] <= weights[i],
            None => weights.len() == 0,
        },
    decreases weights.len(),
{
    if weights.len() > 0 {
        let p = weights.drop_last();
        lemma_heaviest(p);
        assert forall|j: int| 0 <= j < weights.len() implies #[trigger] weights[j]
            <= weights[heaviest(weights)->0] by {
            if j < p.len() {
                assert(p[j] == weights[j]);
            }
        }
    }
}

/// The greatest weight is not below any other, and above those behind it.
proof fn lemma_heaviest_is_last(weights: Seq<u64>)
    ensures
        heaviest(weights) matches Some(i) ==> forall|j: int|
            i < j < weights.len() ==> #[trigger] weights[j] < weights[i],
    decreases weights.len(),
{
    if weights.len() > 0 {
        let p = weights.drop_last();
        lemma_heaviest(p);
        lemma_heaviest_is_last(p);
        let i = heaviest(weights)->0;
        assert forall|j: int| i < j < weights.len() implies #[trigger] weights[j] < weights[i] by {
            if j < p.len() {
                assert(p[j] == weights[j]);
            }
        }
    }
}

/// The candidates at the positions `kept`.
pub open spec fn only(candidates: Seq<usize>, kept: Seq<int>) -> Seq<usize> {
    Seq::new(kept.len(), |k: int| candidates[kept[k]])
}

/// A conversation sticks to one of the candidates wherever there is one, and leaving
/// out others never moves it. `kept` are the positions of those that stay, in order.
/// No other lane of the same weight may stand behind the one it sticks to.
pub proof fn law_leaving_others_out_moves_nobody(
    pool: Pool,
    session: u64,
    candidates: Seq<usize>,
    kept: Seq<int>,
)
    requires
        forall|k: int| 0 <= k < kept.len() ==> 0 <= #[trigger] kept[k] < candidates.len(),
        forall|a: int, b: int|
            0 <= a < b < kept.len() ==> #[trigger] kept[a] < #[trigger] kept[b],
        pool.choice(session, candidates) matches Some(lane) ==> forall|a: int, b: int|
            0 <= a < b < candidates.len() && #[trigger] candidates[a] == lane && pool.weight(
                session,
                #[trigger] candidates[b] as int,
            ) == pool.weight(session, lane as int) ==> candidates[b] == lane,
    ensures
        pool.choice(session, candidates) is None <==> candidates.len() == 0,
        pool.choice(session, candidates) matches Some(lane) ==> candidates.contains(lane) && (only(
            candidates,
            kept,
        ).contains(lane) ==> pool.choice(session, only(candidates, kept)) == Some(lane)),
{
    let w = Seq::new(candidates.len(), |j: int| pool.weight(session, candidates[j] as int));
    lemma_heaviest(w);
    if candidates.len() > 0 {
        let i = heaviest(w)->0;
        let lane = candidates[i];
        let fewer = only(candidates, kept);
        let wf = Seq::new(fewer.len(), |j: int| pool.weight(session, fewer[j] as int));
        if fewer.contains(lane) {
            let k = choose|k: int| 0 <= k < fewer.len() && fewer[k] == lane;
            lemma_heaviest(wf);
            lemma_heaviest_is_last(wf);
            let h = heaviest(wf)->0;
            assert(candidates[kept[k]] == lane);
            assert(wf[k] <= wf[h]);
            assert(w[kept[h]] <= w[i]);
            if k < h {
                assert(kept[k] < kept[h]);
                assert(pool.weight(session, candidates[kept[h]] as int) == pool.weight(
                    session,
                    lane as int,
                ));
            }
        }
    }
}

/// The identity of a key: the provider it belongs to, and the key itself.
pub type KeyId = (Seq<char>, Seq<char>);

pub open spec fn id_weight(session: u64, id: KeyId) -> u64 {
    lane_weight(session, id.0, id.1)
}

/// The key, out of `ids`, that the conversation `session` sticks to.
pub open spec fn favourite(session: u64, ids: Seq<KeyId>) -> Option<KeyId> {
    match heaviest(Seq::new(ids.len(), |i: int| id_weight(session, ids[i]))) {
        Some(i) => Some(ids[i]),
        None => None,
    }
}

/// No two different keys weigh the same for this conversation.
pub open spec fn no_ties(session: u64, ids: Seq<KeyId>) -> bool {
    forall|i: int, j: int|
        0 <= i < ids.len() && 0 <= j < ids.len() && id_weight(session, #[trigger] ids[i])
            == id_weight(session, #[trigger] ids[j]) ==> ids[i] == ids[j]
}

/// Adding or removing keys relocates only their share of conversations: where
/// `more` holds every key of `fewer`, a conversation that `more` places on a key
/// of `fewer` is placed there by `fewer` too.
pub proof fn law_only_the_added_keys_share_moves(
    session: u64,
    fewer: Seq<KeyId>,
    more: Seq<KeyId>,
)
    requires
        forall|i: int| 0 <= i < fewer.len() ==> more.contains(#[trigger] fewer[i]),
        no_ties(session, more),
    ensures
        favourite(session, more) matches Some(id) ==> fewer.contains(id) ==> favourite(
            session,
            fewer,
        ) == Some(id),
{
    let wf = Seq::new(fewer.len(), |i: int| id_weight(session, fewer[i]));
    let wm = Seq::new(more.len(), |i: int| id_weight(session, more[i]));
    lemma_heaviest(wf);
    lemma_heaviest(wm);
    if favourite(session, more) is Some && fewer.contains(favourite(session, more)->0) {
        let id = favourite(session, more)->0;
        let a = heaviest(wm)->0;
        let k = choose|k: int| 0 <= k < fewer.len() && fewer[k] == id;
        let b = heaviest(wf)->0;
        assert(wf[k] <= wf[b]);
        assert(more.contains(fewer[b]));
        let m = choose|m: int| 0 <= m < more.len() && more[m] == fewer[b];
        assert(wm[m] <= wm[a]);
        assert(id_weight(session, more[a]) == id_weight(session, more[m]));
    }
}

/// Reordering the keys relocates nothing: two pools with the same keys place
/// every conversation on the same one.
pub proof fn law_reordering_moves_nothing(session: u64, a: Seq<KeyId>, b: Seq<KeyId>)
    requires
        forall|i: int| 0 <= i < a.len() ==> b.contains(#[trigger] a[i]),
        forall|i: int| 0 <= i < b.len() ==> a.contains(#[trigger] b[i]),
        no_ties(session, b),
    ensures
        favourite(session, a) == favourite(session, b),
{
    let wa = Seq::new(a.len(), |i: int| id_weight(session, a[i]));
    let wb = Seq::new(b.len(), |i: int| id_weight(session, b[i]));
    lemma_heaviest(wa);
    lemma_heaviest(wb);
    law_only_the_added_keys_share_moves(session, a, b);
    if a.len() == 0 && b.len() > 0 {
        assert(a.contains(b[0]));
    }
    if a.len() > 0 && b.len() == 0 {
        assert(b.contains(a[0]));
    }
    if b.len() > 0 {
        assert(a.contains(b[heaviest(wb)->0]));
    }
}

// --- What the pool comes to --------------------------------------------------

/// A bench is never shortened: it ends with the later of the two.
pub proof fn law_a_bench_is_never_shortened(current: Option<u128>, until: u128, now: nat)
    ensures
        longer_cooldown(current, until) >= until,
        current matches Some(c) ==> longer_cooldown(current, until) >= c,
        longer_cooldown(current, until) == until || current == Some(
            longer_cooldown(current, until),
        ),
        cooling(Some(longer_cooldown(current, until)), now) <==> now < until || cooling(current, now),
{
}

/// Of the hits recorded, those count that were made less than a window ago, and no
/// others.
pub proof fn law_only_hits_in_the_window_count(hits: Seq<u128>, window: nat, now: nat, i: int)
    requires
        nondecreasing(hits),
        0 <= i < hits.len(),
    ensures
        hits[i] + window > now <==> i >= hits.len() - live(hits, window, now).len(),
        live(hits, window, now) == hits.skip(hits.len() - live(hits, window, now).len()),
{
    lemma_live(hits, window, now);
    let l = live(hits, window, now);
    let from = hits.len() - l.len();
    if i >= from {
        assert(l[0] == hits[from]);
        assert(hits[from] <= hits[i]);
    }
}

/// Every key that is enabled and has a rate gets a lane, with its provider's name,
/// address and protocol and its own secret and rate; nothing else gets one.
pub proof fn law_every_serving_key_gets_a_lane(providers: Seq<Provider>)
    ensures
        forall|i: int, j: int|
            0 <= i < providers.len() && 0 <= j < providers[i].keys@.len() && (
            #[trigger] providers[i].keys@[j]).enabled && providers[i].keys@[j].rpm > 0
                ==> all_specs(providers).contains(
                LaneSpec {
                    provider: providers[i].name,
                    base_url: providers[i].base_url,
                    key: providers[i].keys@[j].key,
                    protocol: providers[i].protocol,
                    rpm: providers[i].keys@[j].rpm,
                },
            ),
        forall|n: int|
            0 <= n < all_specs(providers).len() ==> exists|i: int, j: int|
                0 <= i < providers.len() && 0 <= j < providers[i].keys@.len() && (
                #[trigger] providers[i].keys@[j]).enabled && providers[i].keys@[j].rpm > 0 && (
                #[trigger] all_specs(providers)[n]) == (LaneSpec {
                    provider: providers[i].name,
                    base_url: providers[i].base_url,
                    key: providers[i].keys@[j].key,
                    protocol: providers[i].protocol,
                    rpm: providers[i].keys@[j].rpm,
                }),
    decreases providers.len(),
{
    if providers.len() > 0 {
        let rest = providers.drop_last();
        let last = providers.last();
        let n0 = (providers.len() - 1) as int;
        let a = all_specs(rest);
        let b = provider_specs(last, last.keys@);
        let all = all_specs(providers);
        law_every_serving_key_gets_a_lane(rest);
        lemma_provider_lanes(last, last.keys@);
        assert forall|i: int, j: int|
            0 <= i < providers.len() && 0 <= j < providers[i].keys@.len() && (
            #[trigger] providers[i].keys@[j]).enabled && providers[i].keys@[j].rpm > 0 implies
            all.contains(
            LaneSpec {
                provider: providers[i].name,
                base_url: providers[i].base_url,
                key: providers[i].keys@[j].key,
                protocol: providers[i].protocol,
                rpm: providers[i].keys@[j].rpm,
            },
        ) by {
            let s = key_spec(providers[i], providers[i].keys@[j]);
            if i < n0 {
                assert(rest[i] == providers[i]);
                assert(rest[i].keys@[j].enabled);
                let k = choose|k: int| 0 <= k < a.len() && a[k] == s;
                assert(all[k] == s);
            } else {
                assert(b.contains(key_spec(last, last.keys@[j])));
                let k = choose|k: int| 0 <= k < b.len() && b[k] == s;
                assert(all[a.len() + k] == s);
            }
        }
        assert forall|n: int| 0 <= n < all.len() implies exists|i: int, j: int|
            0 <= i < providers.len() && 0 <= j < providers[i].keys@.len() && (
            #[trigger] providers[i].keys@[j]).enabled && providers[i].keys@[j].rpm > 0 && (
            #[trigger] all[n]) == (LaneSpec {
                provider: providers[i].name,
                base_url: providers[i].base_url,
                key: providers[i].keys@[j].key,
                protocol: providers[i].protocol,
                rpm: providers[i].keys@[j].rpm,
            }) by {
            if n < a.len() {
                assert(a[n] == all[n]);
                let (i, j) = choose|i: int, j: int|
                    0 <= i < rest.len() && 0 <= j < rest[i].keys@.len() && (
                    #[trigger] rest[i].keys@[j]).enabled && rest[i].keys@[j].rpm > 0 && a[n] == (
                    LaneSpec {
                        provider: rest[i].name,
                        base_url: rest[i].base_url,
                        key: rest[i].keys@[j].key,
                        protocol: rest[i].protocol,
                        rpm: rest[i].keys@[j].rpm,
                    });
                assert(providers[i] == rest[i]);
                assert(providers[i].keys@[j].enabled);
            } else {
                let m = n - a.len();
                assert(b[m] == all[n]);
                let j = choose|j: int|
                    0 <= j < last.keys@.len() && serves(#[trigger] last.keys@[j]) && b[m]
                        == key_spec(last, last.keys@[j]);
                assert(providers[n0].keys@[j].enabled);
            }
        }
    }
}

proof fn lemma_provider_lanes(p: Provider, keys: Seq<ProviderKey>)
    ensures
        forall|j: int|
            0 <= j < keys.len() && serves(#[trigger] keys[j]) ==> provider_specs(p, keys).contains(
                key_spec(p, keys[j]),
            ),
        forall|n: int|
            0 <= n < provider_specs(p, keys).len() ==> exists|j: int|
                0 <= j < keys.len() && serves(#[trigger] keys[j]) && (
                #[trigger] provider_specs(p, keys)[n]) == key_spec(p, keys[j]),
    decreases keys.len(),
{
    if keys.len() > 0 {
        let rest = keys.drop_last();
        let a = provider_specs(p, rest);
        let all = provider_specs(p, keys);
        lemma_provider_lanes(p, rest);
        assert forall|j: int| 0 <= j < keys.len() && serves(#[trigger] keys[j]) implies all.contains(
            key_spec(p, keys[j]),
        ) by {
            if j < rest.len() {
                assert(rest[j] == keys[j]);
                assert(a.contains(key_spec(p, rest[j])));
                let k = choose|k: int| 0 <= k < a.len() && a[k] == key_spec(p, keys[j]);
                assert(all[k] == key_spec(p, keys[j]));
            } else {
                assert(all[a.len() as int] == key_spec(p, keys[j]));
            }
        }
        assert forall|n: int| 0 <= n < all.len() implies exists|j: int|
            0 <= j < keys.len() && serves(#[trigger] keys[j]) && (#[trigger] all[n]) == key_spec(
                p,
                keys[j],
            ) by {
            if n < a.len() {
                assert(a[n] == all[n]);
                let j = choose|j: int|
                    0 <= j < rest.len() && serves(#[trigger] rest[j]) && a[n] == key_spec(
                        p,
                        rest[j],
                    );
                assert(keys[j] == rest[j]);
            } else {
                assert(serves(keys[keys.len() - 1]));
            }
        }
    }
}

/// The capacity of the pool is what its lanes' rates add up to: one more lane adds its
/// rate, and no lane has more than the whole.
pub proof fn law_capacity_is_the_sum_of_rates(lanes: Seq<Lane>, more: Lane, i: int)
    requires
        0 <= i < lanes.len(),
    ensures
        total_rpm(Seq::<Lane>::empty()) == 0,
        total_rpm(lanes.push(more)) == total_rpm(lanes) + more.rpm,
        lanes[i].rpm <= total_rpm(lanes),
    decreases lanes.len(),
{
    assert(lanes.push(more).drop_last() =~= lanes);
    if i < lanes.len() - 1 {
        law_capacity_is_the_sum_of_rates(lanes.drop_last(), more, i);
    }
}

/// A key that is kept across a change keeps what it has spent and how long it is benched;
/// a key that is new starts clean.
pub proof fn law_a_kept_key_keeps_its_state(lane: Lane, old_lanes: Seq<Lane>, i: int)
    requires
        carried(lane, old_lanes),
    ensures
        0 <= i < old_lanes.len() && old_lanes[i].provider@ == lane.provider@ && old_lanes[i].key@
            == lane.key@ && (forall|j: int|
            0 <= j < i ==> (#[trigger] old_lanes[j]).provider@ != lane.provider@
                || old_lanes[j].key@ != lane.key@) ==> lane.hits() == old_lanes[i].hits()
            && lane.cooldown() == old_lanes[i].cooldown(),
        (forall|j: int|
            0 <= j < old_lanes.len() ==> (#[trigger] old_lanes[j]).provider@ != lane.provider@
                || old_lanes[j].key@ != lane.key@) ==> lane.hits().len() == 0
            && lane.cooldown() is None,
{
    seqs::lemma_first_where(
        old_lanes,
        |l: Lane| l.provider@ == lane.provider@ && l.key@ == lane.key@,
    );
}

/// A conversation sticks to the lane that weighs most for it.
pub proof fn law_a_conversation_sticks_to_the_heaviest(
    pool: Pool,
    session: u64,
    candidates: Seq<usize>,
    j: int,
)
    requires
        0 <= j < candidates.len(),
    ensures
        pool.choice(session, candidates) matches Some(c) && candidates.contains(c) && pool.weight(
            session,
            c as int,
        ) >= pool.weight(session, candidates[j] as int),
{
    let w = Seq::new(candidates.len(), |k: int| pool.weight(session, candidates[k] as int));
    lemma_heaviest(w);
    let k = heaviest(w)->0;
    assert(w[j] <= w[k]);
    assert(candidates[k] == pool.choice(session, candidates)->0);
}

} // verus!
