//! Dispatcher: hands out rate slots across the pool, and says how long to wait
//! for the soonest-free lane when every lane is saturated.
//!
//! One call decides on one request at one instant. Requests stand in one line, in
//! arrival order: only the first may ask, it sleeps as long as it was told and asks
//! again, and no later request can jump ahead of an earlier one.

use vstd::prelude::*;

use crate::config::Protocol;
use crate::pool;
use crate::pool::{Lane, Pool};
use crate::seqs;
use crate::text;

verus! {

/// A granted rate slot: which lane won, and where to send the request.
pub struct Permit {
    pub lane_idx: usize,
    pub provider: String,
    pub base_url: String,
    pub key: String,
    pub protocol: Protocol,
}

/// What became of a request for a slot.
pub enum Grant {
    /// A slot was taken.
    Slot(Permit),
    /// Every lane that could serve is saturated or benched; nothing frees before
    /// this instant.
    Wait(u128),
    /// No lane could ever serve this request, so the caller can fall through to
    /// the next routing target.
    NoLane,
}

/// Which lanes may serve a request.
pub struct Wanted {
    pub provider: Option<Seq<char>>,
    pub exclude: Seq<usize>,
    pub protocol: Option<Protocol>,
}

/// May the lane at position `i` serve? Protocol is a hard filter, not a
/// preference: bodies are forwarded unchanged, so a request in one protocol sent
/// to an upstream that speaks the other fails whichever key serves it.
pub open spec fn eligible(lanes: Seq<Lane>, want: Wanted, i: int) -> bool {
    &&& want.provider matches Some(p) ==> lanes[i].provider@ == p
    &&& want.protocol matches Some(w) ==> lanes[i].protocol == w
    &&& !want.exclude.contains(i as usize)
}

pub open spec fn any_eligible(lanes: Seq<Lane>, want: Wanted) -> bool {
    exists|i: int| 0 <= i < lanes.len() && eligible(lanes, want, i)
}

/// The positions, among the first `n`, of the eligible lanes with budget left and
/// no cooldown running.
pub open spec fn with_room(lanes: Seq<Lane>, want: Wanted, now: nat, n: nat) -> Seq<usize>
    decreases n,
{
    if n == 0 {
        Seq::empty()
    } else {
        let rest = with_room(lanes, want, now, (n - 1) as nat);
        if eligible(lanes, want, n - 1) && lanes[n - 1].has_room(now) {
            rest.push((n - 1) as usize)
        } else {
            rest
        }
    }
}

/// When a lane without room may serve again.
pub open spec fn frees_at(lane: Lane, now: nat) -> nat {
    if pool::cooling(lane.cooldown(), now) {
        lane.cooldown()->0 as nat
    } else {
        pool::retry_at(lane.hits(), lane.window(), now)
    }
}

/// The soonest instant at which an eligible lane, among the first `n`, frees.
pub open spec fn soonest(lanes: Seq<Lane>, want: Wanted, now: nat, n: nat) -> Option<nat>
    decreases n,
{
    if n == 0 {
        None
    } else {
        let rest = soonest(lanes, want, now, (n - 1) as nat);
        if eligible(lanes, want, n - 1) && !lanes[n - 1].has_room(now) {
            let t = frees_at(lanes[n - 1], now);
            match rest {
                Some(s) => if s <= t {
                    Some(s)
                } else {
                    Some(t)
                },
                None => Some(t),
            }
        } else {
            rest
        }
    }
}

/// The position, in `room`, of the lane that has spent least; of several, the
/// first, which keeps the choice deterministic.
pub open spec fn emptiest(lanes: Seq<Lane>, room: Seq<usize>, now: nat) -> Option<int>
    decreases room.len(),
{
    if room.len() == 0 {
        None
    } else {
        let last = room.len() - 1;
        match emptiest(lanes, room.drop_last(), now) {
            Some(i) => if lanes[room[last] as int].spent(now) < lanes[room[i] as int].spent(now) {
                Some(last)
            } else {
                Some(i)
            },
            None => Some(last),
        }
    }
}

/// The lane that serves, out of those with room. A conversation keeps its own
/// lane while that lane has budget; anything else takes the emptiest lane,
/// spreading concurrent requests instead of stacking on the first.
pub open spec fn chosen(
    lanes: Seq<Lane>,
    room: Seq<usize>,
    session: Option<u64>,
    now: nat,
) -> Option<usize> {
    let k = match session {
        Some(s) => pool::heaviest(
            Seq::new(
                room.len(),
                |j: int|
                    pool::lane_weight(
                        s,
                        lanes[room[j] as int].provider@,
                        lanes[room[j] as int].key@,
                    ),
            ),
        ),
        None => emptiest(lanes, room, now),
    };
    match k {
        Some(i) => Some(room[i]),
        None => None,
    }
}

/// The lane that serves a request at `now`, if one can.
pub open spec fn serving(
    lanes: Seq<Lane>,
    want: Wanted,
    session: Option<u64>,
    now: nat,
) -> Option<usize> {
    chosen(lanes, with_room(lanes, want, now, lanes.len()), session, now)
}

/// The lanes before and after a request at `now` differ in what was recorded
/// against them only: the serving lane was charged, and on others hits that had
/// left the window may have been dropped.
pub open spec fn charged(
    before: Seq<Lane>,
    after: Seq<Lane>,
    served: Option<usize>,
    now: u128,
) -> bool {
    &&& after.len() == before.len()
    &&& forall|i: int|
        0 <= i < before.len() ==> {
            &&& (#[trigger] after[i]).same_key(&before[i])
            &&& after[i].cooldown() == before[i].cooldown()
            &&& if served == Some(i as usize) {
                after[i].hits() == pool::hits_after(
                    before[i].hits(),
                    before[i].rpm as nat,
                    before[i].window(),
                    now,
                )
            } else {
                after[i].hits() == before[i].hits() || after[i].hits() == pool::live(
                    before[i].hits(),
                    before[i].window(),
                    now as nat,
                )
            }
        }
}

pub open spec fn wanted(
    provider: Option<&str>,
    exclude: Seq<usize>,
    protocol: Option<Protocol>,
) -> Wanted {
    Wanted {
        provider: match provider {
            Some(p) => Some(p@),
            None => None,
        },
        exclude,
        protocol,
    }
}

pub struct Dispatcher {
    pub pool: Pool,
}

impl Dispatcher {
    pub fn new(pool: Pool) -> (r: Self)
        ensures
            r.pool == pool,
    {
        Dispatcher { pool }
    }

    /// Ask for any slot. Convenience for callers that don't care which provider or
    /// lane serves them.
    pub fn acquire(&mut self, now: u128) -> (r: Grant)
        requires
            old(self).pool.wf(),
            old(self).pool.view_lanes().len() > 0,
            now + old(self).pool.window() <= u128::MAX,
        ensures
            final(self).pool.wf(),
            final(self).pool.window() == old(self).pool.window(),
            decided(
                old(self).pool.view_lanes(),
                final(self).pool.view_lanes(),
                wanted(None, Seq::empty(), None),
                None,
                now,
                r,
            ),
            !(r is NoLane),
    {
        let none: [usize; 0] = [];
        assert(none@ =~= Seq::<usize>::empty());
        let r = self.acquire_for(None, &none, None, None, now);
        assert(eligible(old(self).pool.view_lanes(), wanted(None, none@, None), 0));
        r
    }

    /// Ask for a slot on a lane matching `provider` (any provider if `None`) and
    /// `protocol`, and not in `exclude`. A lane the provider told us to back off
    /// from stays out of rotation until its cooldown ends, but still counts as
    /// eligible, so an all-benched pool waits instead of reporting itself empty.
    ///
    /// A granted lane is of the provider that was asked for, speaks the protocol that
    /// was asked for, and is none of the excluded.
    pub fn acquire_for(
        &mut self,
        provider: Option<&str>,
        exclude: &[usize],
        session: Option<u64>,
        protocol: Option<Protocol>,
        now: u128,
    ) -> (r: Grant)
        requires
            old(self).pool.wf(),
            now + old(self).pool.window() <= u128::MAX,
        ensures
            final(self).pool.wf(),
            final(self).pool.window() == old(self).pool.window(),
            decided(
                old(self).pool.view_lanes(),
                final(self).pool.view_lanes(),
                wanted(provider, exclude@, protocol),
                session,
                now,
                r,
            ),
            r matches Grant::Slot(p) ==> {
                &&& provider matches Some(w) ==> p.provider@ == w@
                &&& protocol matches Some(w) ==> p.protocol == w
                &&& !exclude@.contains(p.lane_idx)
            },
            r is NoLane ==> forall|i: int|
                0 <= i < old(self).pool.view_lanes().len() ==> {
                    let lane = #[trigger] old(self).pool.view_lanes()[i];
                    ||| provider matches Some(w) && lane.provider@ != w@
                    ||| protocol matches Some(w) && lane.protocol != w
                    ||| exclude@.contains(i as usize)
                },
    {
        let r = self.decide(provider, exclude, session, protocol, now);
        proof {
            let before = old(self).pool.view_lanes();
            law_a_grant_serves_what_was_asked(
                before,
                self.pool.view_lanes(),
                provider,
                exclude@,
                session,
                protocol,
                now,
                r,
            );
        }
        r
    }

    fn decide(
        &mut self,
        provider: Option<&str>,
        exclude: &[usize],
        session: Option<u64>,
        protocol: Option<Protocol>,
        now: u128,
    ) -> (r: Grant)
        requires
            old(self).pool.wf(),
            now + old(self).pool.window() <= u128::MAX,
        ensures
            final(self).pool.wf(),
            final(self).pool.window() == old(self).pool.window(),
            decided(
                old(self).pool.view_lanes(),
                final(self).pool.view_lanes(),
                wanted(provider, exclude@, protocol),
                session,
                now,
                r,
            ),
            old(self).pool.view_lanes().len() <= usize::MAX,
    {
        let ghost before = self.pool.view_lanes();
        let ghost want = wanted(provider, exclude@, protocol);
        let mut earliest: Option<u128> = None;
        let mut found = false;
        let mut room: Vec<usize> = Vec::new();
        let mut loads: Vec<usize> = Vec::new();
        let n: usize = self.pool.len();
        let mut idx: usize = 0;
        while idx < n
            invariant
                idx <= n,
                n == before.len(),
                want == wanted(provider, exclude@, protocol),
                self.pool.wf(),
                self.pool.window() == old(self).pool.window(),
                now + old(self).pool.window() <= u128::MAX,
                old(self).pool.wf(),
                before == old(self).pool.view_lanes(),
                charged(before, self.pool.view_lanes(), None, now),
                forall|i: int|
                    idx <= i < before.len() ==> #[trigger] self.pool.view_lanes()[i] == before[i],
                found == exists|i: int| 0 <= i < idx && eligible(before, want, i),
                room@ == with_room(before, want, now as nat, idx as nat),
                loads@.len() == room@.len(),
                forall|k: int|
                    0 <= k < room@.len() ==> #[trigger] room@[k] < idx && loads@[k]
                        == before[room@[k] as int].spent(now as nat),
                match earliest {
                    Some(t) => soonest(before, want, now as nat, idx as nat) == Some(t as nat),
                    None => soonest(before, want, now as nat, idx as nat) is None,
                },
            decreases n - idx,
        {
            let lane = &self.pool.lanes()[idx];
            assert(*lane == before[idx as int]);
            let fits = match provider {
                Some(p) => text::same_text(lane.provider.as_str(), p),
                None => true,
            } && match protocol {
                Some(w) => lane.protocol == w,
                None => true,
            } && !listed(exclude, idx);
            assert(fits == eligible(before, want, idx as int));
            if fits {
                found = true;
                let ends = lane.cooldown_ends(now);
                match ends {
                    Some(until) => {
                        earliest = Some(sooner(earliest, until));
                    },
                    None => {
                        assert(before[idx as int].wf());
                        let lane = self.pool.lane_mut(idx);
                        let load: usize = lane.load(now);
                        if load < lane.rpm {
                            room.push(idx);
                            loads.push(load);
                        } else {
                            // A saturated lane records nothing, so this only reads
                            // its clock.
                            proof {
                                pool::lemma_live_later(
                                    before[idx as int].hits(),
                                    before[idx as int].window(),
                                    now as nat,
                                    now as nat,
                                );
                            }
                            match lane.try_acquire(now) {
                                Ok(_) => {},
                                Err(t) => {
                                    earliest = Some(sooner(earliest, t));
                                },
                            }
                        }
                    },
                }
            }
            idx += 1;
            assert(found == exists|i: int| 0 <= i < idx && eligible(before, want, i)) by {
                if fits {
                    assert(eligible(before, want, idx - 1));
                }
            }
        }
        let choice: Option<usize> = match session {
            Some(s) => {
                proof {
                    let mine = Seq::new(
                        room@.len(),
                        |j: int| self.pool.weight(s, room@[j] as int),
                    );
                    let theirs = Seq::new(
                        room@.len(),
                        |j: int|
                            pool::lane_weight(
                                s,
                                before[room@[j] as int].provider@,
                                before[room@[j] as int].key@,
                            ),
                    );
                    assert forall|j: int| 0 <= j < room@.len() implies mine[j] == theirs[j] by {
                        assert(self.pool.view_lanes()[room@[j] as int].same_key(
                            &before[room@[j] as int],
                        ));
                    }
                    assert(mine =~= theirs);
                }
                self.pool.affinity_among(s, room.as_slice())
            },
            None => least_loaded(&room, &loads, Ghost(before), now),
        };
        match choice {
            Some(i) => {
                let ghost mid = self.pool.view_lanes();
                proof {
                    lemma_chosen(before, want, session, now as nat);
                    pool::lemma_live_later(
                        before[i as int].hits(),
                        before[i as int].window(),
                        now as nat,
                        now as nat,
                    );
                    assert(mid[i as int].same_key(&before[i as int]));
                }
                let lane = self.pool.lane_mut(i);
                let permit = Permit {
                    lane_idx: i,
                    provider: lane.provider.clone(),
                    base_url: lane.base_url.clone(),
                    key: lane.key.clone(),
                    protocol: lane.protocol,
                };
                let _ = lane.try_acquire(now);
                Grant::Slot(permit)
            },
            None => {
                if !found {
                    return Grant::NoLane;
                }
                proof {
                    lemma_waiting(before, want, session, now as nat);
                }
                match earliest {
                    Some(t) => Grant::Wait(t),
                    None => Grant::NoLane,
                }
            },
        }
    }
}

/// What a request at `now` is told, and what it leaves behind.
pub open spec fn decided(
    before: Seq<Lane>,
    after: Seq<Lane>,
    want: Wanted,
    session: Option<u64>,
    now: u128,
    r: Grant,
) -> bool {
    let served = serving(before, want, session, now as nat);
    &&& charged(before, after, served, now)
    &&& match r {
        Grant::Slot(p) => {
            &&& served == Some(p.lane_idx)
            &&& p.lane_idx < before.len()
            &&& eligible(before, want, p.lane_idx as int)
            &&& before[p.lane_idx as int].has_room(now as nat)
            &&& p.provider == before[p.lane_idx as int].provider
            &&& p.base_url == before[p.lane_idx as int].base_url
            &&& p.key == before[p.lane_idx as int].key
            &&& p.protocol == before[p.lane_idx as int].protocol
        },
        Grant::Wait(t) => {
            &&& served is None
            &&& any_eligible(before, want)
            &&& soonest(before, want, now as nat, before.len()) == Some(t as nat)
        },
        Grant::NoLane => served is None && !any_eligible(before, want),
    }
}

fn listed(exclude: &[usize], idx: usize) -> (r: bool)
    ensures
        r == exclude@.contains(idx),
{
    let mut i: usize = 0;
    while i < exclude.len()
        invariant
            i <= exclude@.len(),
            forall|j: int| 0 <= j < i ==> exclude@[j] != idx,
        decreases exclude@.len() - i,
    {
        if exclude[i] == idx {
            return true;
        }
        i += 1;
    }
    false
}

fn sooner(a: Option<u128>, b: u128) -> (r: u128)
    ensures
        r == match a {
            Some(x) => if x <= b {
                x
            } else {
                b
            },
            None => b,
        },
{
    match a {
        Some(x) => if x <= b {
            x
        } else {
            b
        },
        None => b,
    }
}

/// The emptiest of the lanes `room`, whose spent budgets are `loads`.
fn least_loaded(room: &Vec<usize>, loads: &Vec<usize>, Ghost(lanes): Ghost<Seq<Lane>>, now: u128) -> (r:
    Option<usize>)
    requires
        loads@.len() == room@.len(),
        forall|k: int|
            0 <= k < room@.len() ==> #[trigger] loads@[k] == lanes[room@[k] as int].spent(
                now as nat,
            ),
    ensures
        r == chosen(lanes, room@, None, now as nat),
{
    let mut best: Option<usize> = None;
    let mut i: usize = 0;
    while i < room.len()
        invariant
            i <= room@.len(),
            loads@.len() == room@.len(),
            forall|k: int|
                0 <= k < room@.len() ==> #[trigger] loads@[k] == lanes[room@[k] as int].spent(
                    now as nat,
                ),
            match best {
                Some(b) => b < i && emptiest(lanes, room@.take(i as int), now as nat) == Some(
                    b as int,
                ),
                None => i == 0,
            },
        decreases room@.len() - i,
    {
        proof {
            let t = room@.take(i as int + 1);
            assert(t.drop_last() =~= room@.take(i as int));
        }
        match best {
            Some(b) => {
                if loads[i] < loads[b] {
                    best = Some(i);
                }
            },
            None => {
                best = Some(i);
            },
        }
        i += 1;
    }
    assert(room@.take(room@.len() as int) =~= room@);
    match best {
        Some(b) => Some(room[b]),
        None => None,
    }
}

// --- What a decision guarantees ----------------------------------------------

proof fn lemma_with_room(lanes: Seq<Lane>, want: Wanted, now: nat, n: nat)
    requires
        n <= lanes.len() <= usize::MAX,
    ensures
        forall|k: int|
            0 <= k < with_room(lanes, want, now, n).len() ==> {
                let i = #[trigger] with_room(lanes, want, now, n)[k];
                i < n && eligible(lanes, want, i as int) && lanes[i as int].has_room(now)
            },
        forall|i: int|
            0 <= i < n && eligible(lanes, want, i) && lanes[i].has_room(now) ==> with_room(
                lanes,
                want,
                now,
                n,
            ).contains(#[trigger] (i as usize)),
    decreases n,
{
    if n > 0 {
        let m = (n - 1) as nat;
        lemma_with_room(lanes, want, now, m);
        let rest = with_room(lanes, want, now, m);
        let all = with_room(lanes, want, now, n);
        assert forall|i: int|
            0 <= i < n && eligible(lanes, want, i) && lanes[i].has_room(now) implies all.contains(
            #[trigger] (i as usize),
        ) by {
            if i < m {
                assert(rest.contains(i as usize));
                let k = choose|k: int| 0 <= k < rest.len() && rest[k] == i as usize;
                assert(all[k] == i as usize);
            } else {
                assert(all[all.len() - 1] == i as usize);
            }
        }
    }
}

proof fn lemma_emptiest(lanes: Seq<Lane>, room: Seq<usize>, now: nat)
    ensures
        match emptiest(lanes, room, now) {
            Some(i) => 0 <= i < room.len() && forall|j: int|
                0 <= j < room.len() ==> lanes[room[i] as int].spent(now) <= lanes[
                #[trigger] room[j] as int].spent(now),
            None => room.len() == 0,
        },
    decreases room.len(),
{
    if room.len() > 0 {
        let p = room.drop_last();
        lemma_emptiest(lanes, p, now);
        let b = emptiest(lanes, room, now)->0;
        assert forall|j: int| 0 <= j < room.len() implies lanes[room[b] as int].spent(now) <= lanes[
        #[trigger] room[j] as int].spent(now) by {
            if j < p.len() {
                assert(p[j] == room[j]);
            }
        }
    }
}

/// The lane that serves is eligible and has room.
proof fn lemma_chosen(lanes: Seq<Lane>, want: Wanted, session: Option<u64>, now: nat)
    requires
        lanes.len() <= usize::MAX,
    ensures
        match serving(lanes, want, session, now) {
            Some(i) => i < lanes.len() && eligible(lanes, want, i as int)
                && lanes[i as int].has_room(now),
            None => with_room(lanes, want, now, lanes.len()).len() == 0,
        },
{
    let room = with_room(lanes, want, now, lanes.len());
    lemma_with_room(lanes, want, now, lanes.len());
    lemma_emptiest(lanes, room, now);
    if session is Some {
        pool::lemma_heaviest(
            Seq::new(
                room.len(),
                |j: int|
                    pool::lane_weight(
                        session->0,
                        lanes[room[j] as int].provider@,
                        lanes[room[j] as int].key@,
                    ),
            ),
        );
    }
}

proof fn lemma_soonest(lanes: Seq<Lane>, want: Wanted, now: nat, n: nat)
    requires
        n <= lanes.len(),
    ensures
        forall|i: int|
            0 <= i < n && #[trigger] eligible(lanes, want, i) && !lanes[i].has_room(now)
                ==> soonest(lanes, want, now, n) is Some && soonest(lanes, want, now, n)->0
                <= frees_at(lanes[i], now),
    decreases n,
{
    if n > 0 {
        lemma_soonest(lanes, want, now, (n - 1) as nat);
    }
}

proof fn lemma_waiting(lanes: Seq<Lane>, want: Wanted, session: Option<u64>, now: nat)
    requires
        lanes.len() <= usize::MAX,
        serving(lanes, want, session, now) is None,
        any_eligible(lanes, want),
    ensures
        soonest(lanes, want, now, lanes.len()) is Some,
{
    lemma_chosen(lanes, want, session, now);
    lemma_with_room(lanes, want, now, lanes.len());
    lemma_soonest(lanes, want, now, lanes.len());
    let i = choose|i: int| 0 <= i < lanes.len() && eligible(lanes, want, i);
    if lanes[i].has_room(now) {
        assert(with_room(lanes, want, now, lanes.len()).contains(i as usize));
    }
}

/// A request is served exactly when some lane that may serve it has budget left
/// and is not benched.
pub proof fn law_served_whenever_a_lane_has_room(
    lanes: Seq<Lane>,
    want: Wanted,
    session: Option<u64>,
    now: nat,
)
    requires
        lanes.len() <= usize::MAX,
    ensures
        serving(lanes, want, session, now) is Some <==> exists|i: int|
            0 <= i < lanes.len() && #[trigger] eligible(lanes, want, i) && lanes[i].has_room(now),
{
    lemma_chosen(lanes, want, session, now);
    lemma_with_room(lanes, want, now, lanes.len());
    match serving(lanes, want, session, now) {
        Some(i) => {
            assert(eligible(lanes, want, i as int));
        },
        None => {
            assert forall|i: int| 0 <= i < lanes.len() && eligible(lanes, want, i) implies !lanes[i].has_room(
                now,
            ) by {
                if lanes[i].has_room(now) {
                    assert(with_room(lanes, want, now, lanes.len()).contains(i as usize));
                }
            }
        },
    }
}

/// Does the lane `lane`, at position `i`, match what was asked for?
pub open spec fn matching(
    lane: Lane,
    i: int,
    provider: Option<&str>,
    exclude: Seq<usize>,
    protocol: Option<Protocol>,
) -> bool {
    &&& provider is None || lane.provider@ == provider->0@
    &&& protocol is None || lane.protocol == protocol->0
    &&& !exclude.contains(i as usize)
}

/// Is the lane neither benched nor without budget at `now`?
pub open spec fn idle(lane: Lane, now: u128) -> bool {
    &&& lane.cooldown_until is None || lane.cooldown_until->0 <= now
    &&& pool::live(lane.limiter.hits(), lane.limiter.window(), now as nat).len() < lane.rpm
}

/// Whoever is granted a slot gets what was asked for: a lane of that provider, that
/// speaks that protocol, that is none of the excluded, that is not benched and has
/// budget left. The permit names that lane's key and address, and the slot is spent on
/// it and on no other. A slot is granted wherever there is such a lane; a request is
/// told that there is no lane only where none matches, benched or not.
pub proof fn law_a_grant_serves_what_was_asked(
    before: Seq<Lane>,
    after: Seq<Lane>,
    provider: Option<&str>,
    exclude: Seq<usize>,
    session: Option<u64>,
    protocol: Option<Protocol>,
    now: u128,
    r: Grant,
)
    requires
        before.len() <= usize::MAX,
        decided(before, after, wanted(provider, exclude, protocol), session, now, r),
    ensures
        r matches Grant::Slot(p) ==> {
            let lane = before[p.lane_idx as int];
            &&& p.lane_idx < before.len()
            &&& provider matches Some(w) ==> p.provider@ == w@
            &&& protocol matches Some(w) ==> p.protocol == w
            &&& !exclude.contains(p.lane_idx)
            &&& p.provider == lane.provider && p.protocol == lane.protocol
            &&& p.base_url == lane.base_url && p.key == lane.key
            &&& lane.cooldown_until matches Some(until) ==> until <= now
            &&& pool::recent(lane.hits(), lane.window(), now as nat) < lane.rpm
            &&& after[p.lane_idx as int].hits().len() > 0
            &&& after[p.lane_idx as int].hits().last() == now
        },
        r is Slot <==> exists|i: int|
            0 <= i < before.len() && matching(#[trigger] before[i], i, provider, exclude, protocol)
                && idle(before[i], now),
        r is NoLane <==> forall|i: int|
            0 <= i < before.len() ==> {
                let lane = #[trigger] before[i];
                ||| provider matches Some(w) && lane.provider@ != w@
                ||| protocol matches Some(w) && lane.protocol != w
                ||| exclude.contains(i as usize)
            },
        after.len() == before.len(),
        forall|i: int|
            0 <= i < before.len() ==> (#[trigger] after[i]).cooldown_until
                == before[i].cooldown_until && after[i].key == before[i].key && after[i].provider
                == before[i].provider && after[i].rpm == before[i].rpm,
        forall|i: int|
            0 <= i < before.len() && !(r matches Grant::Slot(p) && p.lane_idx == i)
                ==> #[trigger] after[i].hits().len() <= before[i].hits().len() && after[i].hits()
                == before[i].hits().skip(before[i].hits().len() - after[i].hits().len()),
{
    let want = wanted(provider, exclude, protocol);
    law_served_whenever_a_lane_has_room(before, want, session, now as nat);
    assert forall|i: int| 0 <= i < before.len() implies (#[trigger] after[i]).cooldown_until
        == before[i].cooldown_until && after[i].key == before[i].key && after[i].provider
        == before[i].provider && after[i].rpm == before[i].rpm by {
        assert(after[i].same_key(&before[i]));
    }
    assert forall|i: int| 0 <= i < before.len() implies matching(
        #[trigger] before[i],
        i,
        provider,
        exclude,
        protocol,
    ) == eligible(before, want, i) && idle(before[i], now) == before[i].has_room(now as nat) by {}
    if r is Slot {
        let i = r->Slot_0.lane_idx as int;
        let lane = before[i];
        pool::lemma_recent_live(lane.hits(), lane.window(), now as nat);
        assert(matching(before[i], i, provider, exclude, protocol));
    }
    if any_eligible(before, want) {
        let i = choose|i: int| 0 <= i < before.len() && eligible(before, want, i);
        assert(matching(before[i], i, provider, exclude, protocol));
    }
    assert forall|i: int|
        0 <= i < before.len() && !(r matches Grant::Slot(p) && p.lane_idx == i)
            implies #[trigger] after[i].hits().len() <= before[i].hits().len() && after[i].hits()
        == before[i].hits().skip(before[i].hits().len() - after[i].hits().len()) by {
        pool::lemma_live(before[i].hits(), before[i].window(), now as nat);
        assert(before[i].hits().skip(0) =~= before[i].hits());
        assert(after[i].same_key(&before[i]));
    }
}

/// A wait is told only where a lane matches and every matching lane is benched or has
/// spent its budget. It ends after now, at the end of the bench of a matching lane or
/// when a hit of one leaves the window, and no matching lane could serve before.
pub proof fn law_a_wait_ends_when_a_lane_frees(
    before: Seq<Lane>,
    after: Seq<Lane>,
    provider: Option<&str>,
    exclude: Seq<usize>,
    session: Option<u64>,
    protocol: Option<Protocol>,
    now: u128,
    until: u128,
    at: u128,
)
    requires
        before.len() <= usize::MAX,
        decided(
            before,
            after,
            wanted(provider, exclude, protocol),
            session,
            now,
            Grant::Wait(until),
        ),
        now <= at < until,
    ensures
        forall|i: int|
            0 <= i < before.len() && matching(
                #[trigger] before[i],
                i,
                provider,
                exclude,
                protocol,
            ) ==> !idle(before[i], now) && !idle(before[i], at),
        exists|i: int|
            0 <= i < before.len() && matching(
                #[trigger] before[i],
                i,
                provider,
                exclude,
                protocol,
            ) && {
                ||| before[i].cooldown_until == Some(until)
                ||| exists|j: int|
                    0 <= j < before[i].hits().len() && #[trigger] before[i].hits()[j]
                        + before[i].window() == until
                ||| before[i].rpm == 0 && now + before[i].window() == until
            },
{
    let want = wanted(provider, exclude, protocol);
    lemma_chosen(before, want, session, now as nat);
    lemma_chosen(before, want, None, now as nat);
    law_nothing_frees_before_the_wait_ends(before, want, now as nat, until as nat, at as nat);
    law_nothing_frees_before_the_wait_ends(before, want, now as nat, until as nat, now as nat);
    assert forall|i: int|
        0 <= i < before.len() && matching(#[trigger] before[i], i, provider, exclude, protocol)
            implies !idle(before[i], now) && !idle(before[i], at) by {
        assert(eligible(before, want, i));
    }
    let i = lemma_soonest_is_one(before, want, now as nat, before.len());
    let lane = before[i];
    assert(matching(lane, i, provider, exclude, protocol));
    if !pool::cooling(lane.cooldown(), now as nat) {
        pool::lemma_live(lane.hits(), lane.window(), now as nat);
        let l = pool::live(lane.hits(), lane.window(), now as nat);
        if l.len() > 0 {
            let j = lane.hits().len() - l.len();
            assert(lane.hits()[j] == l[0]);
        }
    }
}

proof fn lemma_soonest_is_one(lanes: Seq<Lane>, want: Wanted, now: nat, n: nat) -> (i: int)
    requires
        n <= lanes.len(),
        soonest(lanes, want, now, n) is Some,
    ensures
        0 <= i < n,
        eligible(lanes, want, i),
        !lanes[i].has_room(now),
        soonest(lanes, want, now, n) == Some(frees_at(lanes[i], now)),
    decreases n,
{
    let rest = soonest(lanes, want, now, (n - 1) as nat);
    if rest is Some && rest == soonest(lanes, want, now, n) {
        lemma_soonest_is_one(lanes, want, now, (n - 1) as nat)
    } else {
        n - 1
    }
}

/// Of the lanes that match and could serve, a conversation gets one of greatest weight,
/// so it keeps its lane as long as that can serve; anything else gets one that has spent
/// least.
pub proof fn law_a_conversation_keeps_its_lane(
    before: Seq<Lane>,
    after: Seq<Lane>,
    provider: Option<&str>,
    exclude: Seq<usize>,
    session: Option<u64>,
    protocol: Option<Protocol>,
    now: u128,
    p: Permit,
    i: int,
)
    requires
        before.len() <= usize::MAX,
        decided(
            before,
            after,
            wanted(provider, exclude, protocol),
            session,
            now,
            Grant::Slot(p),
        ),
        0 <= i < before.len(),
        matching(before[i], i, provider, exclude, protocol),
        idle(before[i], now),
    ensures
        session matches Some(s) ==> pool::lane_weight(s, before[i].provider@, before[i].key@)
            <= pool::lane_weight(s, p.provider@, p.key@),
        session is None ==> pool::live(
            before[p.lane_idx as int].hits(),
            before[p.lane_idx as int].window(),
            now as nat,
        ).len() <= pool::live(before[i].hits(), before[i].window(), now as nat).len(),
{
    let want = wanted(provider, exclude, protocol);
    law_the_emptiest_lane_serves(before, want, now as nat);
    assert(eligible(before, want, i));
    let room = with_room(before, want, now as nat, before.len());
    lemma_with_room(before, want, now as nat, before.len());
    assert(before[i].has_room(now as nat));
    assert(room.contains(i as usize));
    if session is Some {
        let s = session->0;
        let w = Seq::new(
            room.len(),
            |j: int|
                pool::lane_weight(
                    s,
                    before[room[j] as int].provider@,
                    before[room[j] as int].key@,
                ),
        );
        pool::lemma_heaviest(w);
        let k = choose|k: int| 0 <= k < room.len() && room[k] == i as usize;
        assert(w[k] <= w[pool::heaviest(w)->0]);
    }
}

/// A request outside any conversation goes to a lane that has spent no more than
/// any other lane that could serve it.
pub proof fn law_the_emptiest_lane_serves(lanes: Seq<Lane>, want: Wanted, now: nat)
    requires
        lanes.len() <= usize::MAX,
    ensures
        serving(lanes, want, None, now) matches Some(best) ==> forall|i: int|
            0 <= i < lanes.len() && #[trigger] eligible(lanes, want, i) && lanes[i].has_room(now)
                ==> lanes[best as int].spent(now) <= lanes[i].spent(now),
{
    let room = with_room(lanes, want, now, lanes.len());
    lemma_with_room(lanes, want, now, lanes.len());
    lemma_emptiest(lanes, room, now);
    if serving(lanes, want, None, now) is Some {
        let best = serving(lanes, want, None, now)->0;
        assert forall|i: int|
            0 <= i < lanes.len() && #[trigger] eligible(lanes, want, i) && lanes[i].has_room(
                now,
            ) implies lanes[best as int].spent(now) <= lanes[i].spent(now) by {
            assert(room.contains(i as usize));
            let k = choose|k: int| 0 <= k < room.len() && room[k] == i as usize;
            assert(lanes[room[k] as int].spent(now) == lanes[i].spent(now));
        }
    }
}

/// Waiting as long as told loses nothing: until that instant no lane that may
/// serve the request has room for it.
pub proof fn law_nothing_frees_before_the_wait_ends(
    lanes: Seq<Lane>,
    want: Wanted,
    now: nat,
    until: nat,
    t: nat,
)
    requires
        lanes.len() <= usize::MAX,
        soonest(lanes, want, now, lanes.len()) == Some(until),
        serving(lanes, want, None, now) is None,
        now <= t < until,
    ensures
        forall|i: int|
            0 <= i < lanes.len() && #[trigger] eligible(lanes, want, i) ==> !lanes[i].has_room(t),
{
    lemma_soonest(lanes, want, now, lanes.len());
    law_served_whenever_a_lane_has_room(lanes, want, None, now);
    assert forall|i: int| 0 <= i < lanes.len() && #[trigger] eligible(lanes, want, i) implies !lanes[i].has_room(
        t,
    ) by {
        let lane = lanes[i];
        assert(!lane.has_room(now));
        assert(until <= frees_at(lane, now));
        if !pool::cooling(lane.cooldown(), now) {
            pool::lemma_live(lane.hits(), lane.window(), now);
            pool::lemma_live_later(lane.hits(), lane.window(), now, t);
            let l = pool::live(lane.hits(), lane.window(), now);
            if l.len() > 0 {
                assert(pool::live(l, lane.window(), t) == l);
            }
        }
    }
}

/// The instants at which each lane granted, after one more decision.
pub open spec fn histories_after(
    histories: Seq<Seq<u128>>,
    served: Option<usize>,
    now: u128,
) -> Seq<Seq<u128>> {
    Seq::new(
        histories.len(),
        |i: int|
            if served == Some(i as usize) {
                histories[i].push(now)
            } else {
                histories[i]
            },
    )
}

/// Every lane remembers its own grants.
pub open spec fn all_remember(lanes: Seq<Lane>, histories: Seq<Seq<u128>>, at: nat) -> bool {
    &&& histories.len() == lanes.len()
    &&& forall|i: int|
        0 <= i < lanes.len() ==> pool::remembers(
            #[trigger] lanes[i].hits(),
            histories[i],
            lanes[i].window(),
            at,
        )
}

/// The upstream never sees a violation: whichever lane serves a request, at most its
/// rate of all its grants, this one included, lie in the window that ends now. And
/// every lane goes on remembering its grants, so that this holds of the next request
/// too.
pub proof fn law_no_key_exceeds_its_rate(
    before: Seq<Lane>,
    after: Seq<Lane>,
    want: Wanted,
    session: Option<u64>,
    histories: Seq<Seq<u128>>,
    at: nat,
    now: u128,
    r: Grant,
)
    requires
        before.len() <= usize::MAX,
        decided(before, after, want, session, now, r),
        all_remember(before, histories, at),
        at <= now,
    ensures
        ({
            let served = serving(before, want, session, now as nat);
            let then = histories_after(histories, served, now);
            &&& all_remember(after, then, now as nat)
            &&& r matches Grant::Slot(p) ==> pool::recent(
                then[p.lane_idx as int],
                before[p.lane_idx as int].window(),
                now as nat,
            ) <= before[p.lane_idx as int].rpm
        }),
{
    let served = serving(before, want, session, now as nat);
    let then = histories_after(histories, served, now);
    lemma_chosen(before, want, session, now as nat);
    assert forall|i: int| 0 <= i < after.len() implies pool::remembers(
        #[trigger] after[i].hits(),
        then[i],
        after[i].window(),
        now as nat,
    ) by {
        let b = before[i];
        assert(after[i].same_key(&b));
        assert(pool::remembers(b.hits(), histories[i], b.window(), at));
        pool::lemma_remembers_later(b.hits(), histories[i], b.window(), at, now as nat);
        if served == Some(i as usize) {
            pool::law_a_grant_keeps_within_the_rate(
                b.hits(),
                histories[i],
                b.rpm as nat,
                b.window(),
                at,
                now,
            );
        }
    }
    if r is Slot {
        let i = r->Slot_0.lane_idx as int;
        let b = before[i];
        assert(pool::remembers(b.hits(), histories[i], b.window(), at));
        pool::law_a_grant_keeps_within_the_rate(
            b.hits(),
            histories[i],
            b.rpm as nat,
            b.window(),
            at,
            now,
        );
    }
}

/// Where the lane of a rebuilt pool took its state from: the grants of the lane that
/// held its key, or none for a key that had no lane.
pub open spec fn inherited(
    lane: Lane,
    old_lanes: Seq<Lane>,
    histories: Seq<Seq<u128>>,
) -> Seq<u128> {
    match pool::lane_index(old_lanes, lane.provider@, lane.key@) {
        Some(i) => histories[i],
        None => Seq::empty(),
    }
}

/// A rebuilt pool remembers the grants of every key it keeps: swapping the pool
/// hands no key a fresh window.
pub proof fn law_a_rebuild_forgets_no_grant(
    old_pool: Pool,
    new_pool: Pool,
    specs: Seq<pool::LaneSpec>,
    histories: Seq<Seq<u128>>,
    at: nat,
)
    requires
        old_pool.wf(),
        new_pool.built_from(specs, old_pool.window()),
        forall|i: int|
            0 <= i < specs.len() ==> pool::carried(
                #[trigger] new_pool.view_lanes()[i],
                old_pool.view_lanes(),
            ),
        all_remember(old_pool.view_lanes(), histories, at),
    ensures
        all_remember(
            new_pool.view_lanes(),
            new_pool.view_lanes().map_values(
                |l: Lane| inherited(l, old_pool.view_lanes(), histories),
            ),
            at,
        ),
{
    let f = |l: Lane| inherited(l, old_pool.view_lanes(), histories);
    let lanes = new_pool.view_lanes();
    let olds = old_pool.view_lanes();
    assert forall|i: int| 0 <= i < lanes.len() implies pool::remembers(
        #[trigger] lanes[i].hits(),
        lanes.map_values(f)[i],
        lanes[i].window(),
        at,
    ) by {
        let l = lanes[i];
        assert(pool::lane_of(l, specs[i], old_pool.window()));
        assert(pool::carried(l, olds));
        let g = |o: Lane| o.provider@ == l.provider@ && o.key@ == l.key@;
        seqs::lemma_first_where(olds, g);
        match pool::lane_index(olds, l.provider@, l.key@) {
            Some(k) => {
                assert(old_pool.view_lanes()[k].window() == old_pool.window());
                assert(pool::remembers(olds[k].hits(), histories[k], olds[k].window(), at));
            },
            None => {
                let none = Seq::<u128>::empty();
                assert(none.skip(0) =~= none);
                assert(pool::remembers(l.hits(), none, l.window(), at));
            },
        }
    }
}

// --- The line ----------------------------------------------------------------

/// The requests that wait for a slot, in arrival order, told apart by tickets.
pub struct Line {
    waiting: Vec<u64>,
    next: u64,
}

pub open spec fn rising(s: Seq<u64>) -> bool {
    forall|i: int, j: int| 0 <= i < j < s.len() ==> s[i] < s[j]
}

impl Line {
    /// The tickets of the requests that wait, the first in line first.
    pub closed spec fn waiting(&self) -> Seq<u64> {
        self.waiting@
    }

    /// The next ticket to be given out.
    pub closed spec fn next(&self) -> u64 {
        self.next
    }

    /// Tickets are given out in rising order, and stand in the line in that order.
    pub open spec fn wf(&self) -> bool {
        &&& rising(self.waiting())
        &&& forall|i: int| 0 <= i < self.waiting().len() ==> #[trigger] self.waiting()[i]
            < self.next()
    }

    /// Is this the ticket of the first in line?
    pub open spec fn is_first(&self, ticket: u64) -> bool {
        self.waiting().len() > 0 && self.waiting()[0] == ticket
    }

    pub fn new() -> (r: Self)
        ensures
            r.wf(),
            r.waiting() == Seq::<u64>::empty(),
            r.next() == 0,
    {
        Line { waiting: Vec::new(), next: 0 }
    }

    /// Is there a ticket left to give out?
    pub fn is_open(&self) -> (r: bool)
        ensures
            r == (self.next() < u64::MAX),
    {
        self.next < u64::MAX
    }

    /// Join the line at its end.
    pub fn join(&mut self) -> (r: u64)
        requires
            old(self).wf(),
            old(self).next() < u64::MAX,
        ensures
            final(self).wf(),
            r == old(self).next(),
            final(self).next() == old(self).next() + 1,
            final(self).waiting() == old(self).waiting().push(r),
    {
        let ticket: u64 = self.next;
        self.waiting.push(ticket);
        self.next += 1;
        assert forall|i: int| 0 <= i < self.waiting().len() implies #[trigger] self.waiting()[i]
            < self.next() by {
            if i < old(self).waiting().len() {
                assert(self.waiting()[i] == old(self).waiting()[i]);
            }
        }
        ticket
    }

    /// Leave the line, from wherever in it: a caller that gives up yields its place.
    pub fn leave(&mut self, ticket: u64)
        requires
            old(self).wf(),
        ensures
            final(self).wf(),
            final(self).next() == old(self).next(),
            final(self).waiting() == old(self).waiting().filter(|t: u64| t != ticket),
    {
        let ghost f = |t: u64| t != ticket;
        let ghost before = self.waiting@;
        let keep = |t: &u64| -> (b: bool)
            ensures
                b == f(*t),
            { *t != ticket };
        seqs::retain(&mut self.waiting, keep, Ghost(f));
        proof {
            lemma_filter_rises(before, f, self.next);
        }
    }
}

proof fn lemma_filter_rises(s: Seq<u64>, f: spec_fn(u64) -> bool, bound: u64)
    requires
        rising(s),
        forall|i: int| 0 <= i < s.len() ==> #[trigger] s[i] < bound,
    ensures
        rising(s.filter(f)),
        forall|i: int| 0 <= i < s.filter(f).len() ==> #[trigger] s.filter(f)[i] < bound,
    decreases s.len(),
{
    reveal(Seq::filter);
    if s.len() > 0 {
        let rest = s.drop_last();
        assert forall|i: int| 0 <= i < rest.len() implies #[trigger] rest[i] < s.last() by {
            assert(rest[i] == s[i]);
        }
        lemma_filter_rises(rest, f, s.last());
        assert(s[s.len() - 1] < bound);
    }
}

/// What the holder of a ticket is told.
pub enum Turn {
    /// Others are before it.
    NotYet,
    /// It is its turn: what became of its request.
    Now(Grant),
}

impl Dispatcher {
    /// Ask for a slot as the holder of `ticket`. Whoever is not first in line is
    /// told to wait and changes nothing; the first keeps its place while it has to
    /// wait for a lane, and leaves the line otherwise.
    pub fn acquire_in_turn(
        &mut self,
        line: &mut Line,
        ticket: u64,
        provider: Option<&str>,
        exclude: &[usize],
        session: Option<u64>,
        protocol: Option<Protocol>,
        now: u128,
    ) -> (r: Turn)
        requires
            old(self).pool.wf(),
            old(line).wf(),
            now + old(self).pool.window() <= u128::MAX,
        ensures
            final(self).pool.wf(),
            final(self).pool.window() == old(self).pool.window(),
            final(line).wf(),
            final(line).next() == old(line).next(),
            r is Now <==> old(line).is_first(ticket),
            r is NotYet ==> *final(self) == *old(self) && final(line).waiting() == old(
                line,
            ).waiting(),
            r matches Turn::Now(g) ==> decided(
                old(self).pool.view_lanes(),
                final(self).pool.view_lanes(),
                wanted(provider, exclude@, protocol),
                session,
                now,
                g,
            ) && final(line).waiting() == if g is Wait {
                old(line).waiting()
            } else {
                old(line).waiting().drop_first()
            },
            r matches Turn::Now(Grant::Slot(p)) ==> {
                &&& provider matches Some(w) ==> p.provider@ == w@
                &&& protocol matches Some(w) ==> p.protocol == w
                &&& !exclude@.contains(p.lane_idx)
            },
    {
        if line.waiting.len() == 0 || line.waiting[0] != ticket {
            return Turn::NotYet;
        }
        let g = self.acquire_for(provider, exclude, session, protocol, now);
        match &g {
            Grant::Wait(_) => {},
            _ => {
                line.waiting.remove(0);
                proof {
                    let w = old(line).waiting();
                    assert(line.waiting() =~= w.drop_first());
                    assert forall|i: int, j: int|
                        0 <= i < j < line.waiting().len() implies line.waiting()[i]
                        < line.waiting()[j] by {
                        assert(w[i + 1] < w[j + 1]);
                    }
                    assert forall|i: int| 0 <= i < line.waiting().len() implies #[trigger] line.waiting()[i]
                        < line.next() by {
                        assert(w[i + 1] < old(line).next());
                    }
                }
            },
        }
        Turn::Now(g)
    }
}

/// No request jumps ahead of an earlier one: whoever's turn it is came before
/// everyone else who waits.
pub proof fn law_turns_come_in_arrival_order(line: Line, ticket: u64, other: u64)
    requires
        line.wf(),
        line.is_first(ticket),
        line.waiting().contains(other),
    ensures
        ticket <= other,
{
    let i = choose|i: int| 0 <= i < line.waiting().len() && line.waiting()[i] == other;
    if i > 0 {
        assert(line.waiting()[0] < line.waiting()[i]);
    }
}

} // verus!
