//! Model-pressure governor: a per-model concurrency gate beside the rate limiter.
//!
//! Providers cap how many requests may be *in flight* on a model at once, which
//! is a different resource from the per-key request rate and is shared across
//! every key. Failing over to another key cannot relieve it, so the usual
//! response to a rebuff — bench the lane, try the next one — burns healthy key
//! capacity on an attempt that was never going to work.
//!
//! Detection is behavioral rather than a string match on the provider's error.
//! Per-key rate limiters are independent, and the pool already paces each key
//! under its own budget, so rebuffs on one key say nothing about another. When
//! the *same model* is rebuffed on two different keys within seconds, that
//! correlation is the evidence: the constraint is model-scoped.

use vstd::prelude::*;

use crate::table;
use crate::table::Table;
use crate::text;

verus! {

/// Rebuffs older than this are no longer evidence of anything current.
pub const EVIDENCE_WINDOW: u128 = 10_000_000_000;

/// Distinct keys that must be rebuffed on one model before we hold the model
/// responsible. Two suffices: independent limiters do not correlate by chance.
pub const KEYS_TO_INDICT: usize = 2;

/// A governed model with no rebuff for this long returns to ungoverned. The
/// provider's worker pool is shared infrastructure, so the real ceiling moves
/// with other tenants' load and a cap we picked minutes ago is stale.
pub const DISSOLVE_AFTER: u128 = 600_000_000_000;

// --- The model ---------------------------------------------------------------

/// What is known of one model.
#[verifier::ext_equal]
pub struct Pressure {
    /// Concurrency cap; 0 means ungoverned.
    pub limit: nat,
    /// Requests in flight upstream on this model.
    pub inflight: nat,
    /// Recent rebuffs as (when, which lane).
    pub rebuffs: Seq<(u128, usize)>,
    pub last_rebuff: Option<u128>,
}

/// A model nothing is known of.
pub open spec fn idle() -> Pressure {
    Pressure { limit: 0, inflight: 0, rebuffs: Seq::empty(), last_rebuff: None }
}

/// Is a rebuff still evidence at `now`?
pub open spec fn fresh(rebuff: (u128, usize), now: u128) -> bool {
    now - rebuff.0 < EVIDENCE_WINDOW
}

/// The keys implicated by `rebuffs`.
pub open spec fn implicated(rebuffs: Seq<(u128, usize)>) -> Set<usize> {
    rebuffs.map_values(|r: (u128, usize)| r.1).to_set()
}

pub open spec fn at_least_one(n: nat) -> nat {
    if n == 0 {
        1
    } else {
        n
    }
}

/// Half the concurrency actually running, and at least one. Halving is
/// deliberate: the true ceiling is unknown and shared with other tenants, so the
/// useful move is to back off decisively and climb back, not to guess a number.
pub open spec fn backed_off(inflight: nat) -> nat {
    at_least_one(at_least_one(inflight) / 2)
}

/// The evidence after a rebuff on `lane` at `now`.
pub open spec fn evidence(p: Pressure, lane: usize, now: u128) -> Seq<(u128, usize)> {
    p.rebuffs.filter(|r: (u128, usize)| fresh(r, now)).push((now, lane))
}

/// What is known after the model was rebuffed on `lane` at `now`.
pub open spec fn rebuffed(p: Pressure, lane: usize, now: u128) -> Pressure {
    let seen = evidence(p, lane, now);
    Pressure {
        limit: if implicated(seen).len() >= KEYS_TO_INDICT {
            if p.limit == 0 || backed_off(p.inflight) < p.limit {
                backed_off(p.inflight)
            } else {
                p.limit
            }
        } else {
            p.limit
        },
        inflight: p.inflight,
        rebuffs: seen,
        last_rebuff: Some(now),
    }
}

/// Has the model been quiet long enough for its cap to go?
pub open spec fn quiet(p: Pressure, now: u128) -> bool {
    p.last_rebuff matches Some(at) && now - at >= DISSOLVE_AFTER
}

/// What is known at `now`, a cap that is stale by then released.
pub open spec fn current(p: Pressure, now: u128) -> Pressure {
    if quiet(p, now) {
        Pressure { limit: 0, rebuffs: Seq::empty(), last_rebuff: None, ..p }
    } else {
        p
    }
}

/// Is there a slot for another request at `now`?
pub open spec fn has_slot(p: Pressure, now: u128) -> bool {
    current(p, now).limit == 0 || p.inflight < current(p, now).limit
}

pub open spec fn admitted(p: Pressure, now: u128) -> Pressure {
    Pressure { inflight: p.inflight + 1, ..current(p, now) }
}

pub open spec fn released(p: Pressure) -> Pressure {
    Pressure {
        inflight: if p.inflight > 0 {
            (p.inflight - 1) as nat
        } else {
            0
        },
        ..p
    }
}

/// What is announced when a cap comes into force or falls: from here requests
/// wait on a gate that consumes no rate budget, so every rate figure will read
/// low while the proxy is in fact working as hard as allowed.
pub open spec fn announcement(model: Seq<char>, limit: nat, keys: nat, observed: nat) -> Seq<char> {
    "  governing "@ + model + " at "@ + text::decimal(limit) + " concurrent ("@ + text::decimal(keys)
        + " keys rebuffed, "@ + text::decimal(observed) + " in flight)"@
}

// --- The governor ------------------------------------------------------------

struct ModelState {
    limit: usize,
    inflight: usize,
    rebuffs: Vec<(u128, usize)>,
    last_rebuff: Option<u128>,
}

impl View for ModelState {
    type V = Pressure;

    closed spec fn view(&self) -> Pressure {
        Pressure {
            limit: self.limit as nat,
            inflight: self.inflight as nat,
            rebuffs: self.rebuffs@,
            last_rebuff: self.last_rebuff,
        }
    }
}

impl ModelState {
    fn new() -> (r: Self)
        ensures
            r@ == idle(),
    {
        let r = ModelState { limit: 0, inflight: 0, rebuffs: Vec::new(), last_rebuff: None };
        assert(r@ =~= idle());
        r
    }

    fn prune(&mut self, now: u128)
        ensures
            final(self)@ == (Pressure {
                rebuffs: old(self)@.rebuffs.filter(|r: (u128, usize)| fresh(r, now)),
                ..old(self)@
            }),
    {
        let ghost f = |r: (u128, usize)| fresh(r, now);
        let ghost all = self.rebuffs@;
        let mut kept: Vec<(u128, usize)> = Vec::new();
        let mut i: usize = 0;
        proof {
            reveal(Seq::filter);
        }
        while i < self.rebuffs.len()
            invariant
                i <= self.rebuffs@.len(),
                all == self.rebuffs@,
                f == |r: (u128, usize)| fresh(r, now),
                kept@ == all.take(i as int).filter(f),
                *self == *old(self),
            decreases self.rebuffs@.len() - i,
        {
            let r = self.rebuffs[i];
            proof {
                reveal(Seq::filter);
                let t = all.take(i as int + 1);
                assert(t.drop_last() =~= all.take(i as int));
            }
            if r.0 >= now || now - r.0 < EVIDENCE_WINDOW {
                kept.push(r);
            }
            i += 1;
        }
        assert(all.take(all.len() as int) =~= all);
        self.rebuffs = kept;
    }

    /// How many distinct keys have been rebuffed.
    fn implicated_keys(&self) -> (r: usize)
        ensures
            r == implicated(self@.rebuffs).len(),
    {
        let ghost all = self.rebuffs@;
        let ghost f = |r: (u128, usize)| r.1;
        let mut count: usize = 0;
        let mut i: usize = 0;
        assert(all.take(0).map_values(f).to_set() =~= Set::<usize>::empty());
        while i < self.rebuffs.len()
            invariant
                i <= self.rebuffs.len(),
                all == self.rebuffs@,
                f == |r: (u128, usize)| r.1,
                count <= i,
                count == all.take(i as int).map_values(f).to_set().len(),
            decreases self.rebuffs@.len() - i,
        {
            let lane: usize = self.rebuffs[i].1;
            let ghost seen = all.take(i as int).map_values(f);
            let mut known = false;
            let mut j: usize = 0;
            while j < i
                invariant
                    j <= i < self.rebuffs@.len(),
                    all == self.rebuffs@,
                    f == |r: (u128, usize)| r.1,
                    seen == all.take(i as int).map_values(f),
                    known == exists|k: int| 0 <= k < j && seen[k] == lane,
                decreases i - j,
            {
                assert(seen[j as int] == all[j as int].1);
                if self.rebuffs[j].1 == lane {
                    known = true;
                }
                j += 1;
            }
            proof {
                let next = all.take(i as int + 1).map_values(f);
                assert(next =~= seen.push(lane));
                vstd::seq_lib::seq_to_set_is_finite(seen);
                assert(next.to_set() =~= seen.to_set().insert(lane)) by {
                    assert forall|x: usize| next.to_set().contains(x) == seen.to_set().insert(
                        lane,
                    ).contains(x) by {
                        if next.contains(x) {
                            let k = choose|k: int| 0 <= k < next.len() && next[k] == x;
                            if k < seen.len() {
                                assert(seen[k] == x);
                            }
                        }
                        if seen.contains(x) {
                            let k = choose|k: int| 0 <= k < seen.len() && seen[k] == x;
                            assert(next[k] == x);
                        }
                        assert(next[seen.len() as int] == lane);
                    }
                }
                assert(known == seen.to_set().contains(lane)) by {
                    if seen.contains(lane) {
                        let k = choose|k: int| 0 <= k < seen.len() && seen[k] == lane;
                        assert(seen[k] == lane);
                    }
                }
            }
            if !known {
                count += 1;
            } else {
                assert(seen.to_set().insert(lane) =~= seen.to_set());
            }
            i += 1;
        }
        assert(all.take(all.len() as int) =~= all);
        count
    }

    /// Release a cap that is stale at `now`.
    fn dissolve(&mut self, now: u128)
        ensures
            final(self)@ == current(old(self)@, now),
    {
        let stale = match self.last_rebuff {
            Some(at) => now >= at && now - at >= DISSOLVE_AFTER,
            None => false,
        };
        if stale {
            self.limit = 0;
            self.rebuffs = Vec::new();
            self.last_rebuff = None;
            assert(self@ =~= current(old(self)@, now));
        }
    }
}

/// A model under a concurrency cap, as reported to operators.
#[derive(Debug, PartialEq)]
pub struct ModelPressure {
    pub model: String,
    pub limit: usize,
    pub inflight: usize,
}

pub struct Governor {
    models: Table<String, ModelState>,
}

/// Holds one model-concurrency slot until it is released.
pub struct ModelPermit {
    pub model: String,
}

impl Governor {
    /// What is known of the model `m`.
    pub closed spec fn state(&self, m: Seq<char>) -> Pressure {
        match table::get(self.models@, m) {
            Some(s) => s@,
            None => idle(),
        }
    }

    pub closed spec fn wf(&self) -> bool {
        self.models.wf()
    }

    pub fn new() -> (r: Self)
        ensures
            r.wf(),
            forall|m: Seq<char>| #[trigger] r.state(m) == idle(),
    {
        let r = Governor { models: Table::new() };
        assert forall|m: Seq<char>| #[trigger] r.state(m) == idle() by {
            table::lemma_at(r.models@, m);
        }
        r
    }

    /// The state of `model`, to be changed.
    fn entry(&mut self, model: &str) -> (r: &mut ModelState)
        requires
            old(self).wf(),
        ensures
            r@ == old(self).state(model@),
            final(self).wf(),
            final(self).state(model@) == final(r)@,
            forall|m: Seq<char>| m != model@ ==> #[trigger] final(self).state(m) == old(self).state(m),
    {
        let ghost before = self.models@;
        proof {
            assert forall|s: ModelState|
                {
                    let after = #[trigger] table::put(before, model@, s);
                    &&& table::get(after, model@) == Some(s)
                    &&& forall|m: Seq<char>|
                        m != model@ ==> #[trigger] table::get(after, m) == table::get(before, m)
                } by {
                table::law_put_then_get(before, model@, s);
            }
        }
        self.models.entry(text::owned(model), ModelState::new())
    }

    /// Record that `model` was rebuffed while being served by `lane`. Once two
    /// distinct keys are implicated the model is governed; what is worth
    /// announcing is returned.
    pub fn note_rebuff(&mut self, model: &str, lane: usize, now: u128) -> (r: Option<String>)
        requires
            old(self).wf(),
        ensures
            final(self).wf(),
            final(self).state(model@) == rebuffed(old(self).state(model@), lane, now),
            forall|m: Seq<char>|
                m != model@ ==> #[trigger] final(self).state(m) == old(self).state(m),
            r is Some <==> final(self).state(model@).limit != old(self).state(model@).limit,
            r matches Some(t) ==> t@ == announcement(
                model@,
                final(self).state(model@).limit,
                implicated(final(self).state(model@).rebuffs).len(),
                at_least_one(old(self).state(model@).inflight),
            ),
    {
        let ghost p = self.state(model@);
        let state = self.entry(model);
        state.prune(now);
        state.rebuffs.push((now, lane));
        state.last_rebuff = Some(now);
        let keys: usize = state.implicated_keys();
        assert(state@.rebuffs == evidence(p, lane, now));
        if keys < KEYS_TO_INDICT {
            assert(state@ =~= rebuffed(p, lane, now));
            return None;
        }
        let observed: usize = if state.inflight > 1 {
            state.inflight
        } else {
            1
        };
        let half: usize = if observed / 2 > 1 {
            observed / 2
        } else {
            1
        };
        let was: usize = state.limit;
        if state.limit == 0 || half < state.limit {
            state.limit = half;
        }
        assert(state@ =~= rebuffed(p, lane, now));
        if state.limit == was {
            return None;
        }
        let limit: usize = state.limit;
        let mut out = text::owned("  governing ");
        out.append(model);
        out.append(" at ");
        text::push_number(&mut out, limit as u64);
        out.append(" concurrent (");
        text::push_number(&mut out, keys as u64);
        out.append(" keys rebuffed, ");
        text::push_number(&mut out, observed as u64);
        out.append(" in flight)");
        Some(out)
    }

    /// Current concurrency cap for `model`; 0 means ungoverned. A model that has
    /// been quiet for `DISSOLVE_AFTER` releases its cap here.
    pub fn limit(&mut self, model: &str, now: u128) -> (r: usize)
        requires
            old(self).wf(),
        ensures
            r == current(old(self).state(model@), now).limit,
            final(self).wf(),
            final(self).state(model@) == current(old(self).state(model@), now),
            forall|m: Seq<char>|
                m != model@ ==> #[trigger] final(self).state(m) == old(self).state(m),
    {
        let state = self.entry(model);
        state.dissolve(now);
        state.limit
    }

    /// Requests in flight on `model` right now.
    pub fn inflight(&self, model: &str) -> (r: usize)
        ensures
            r == self.state(model@).inflight,
    {
        match self.models.get_text(model) {
            Some(s) => s.inflight,
            None => 0,
        }
    }

    /// Every model currently under a cap, with its cap and live concurrency, in
    /// the order of their names.
    ///
    /// This is the operator-facing answer to "why is it slow when the keys look
    /// idle". A request gated here never reaches the rate limiter, so rate-based
    /// capacity reads 0% while everything stalls; without this the blocking
    /// constraint is invisible.
    pub fn pressured(&mut self, now: u128) -> (r: Vec<ModelPressure>)
        requires
            old(self).wf(),
        ensures
            final(self).wf(),
            forall|m: Seq<char>| #[trigger]
                final(self).state(m) == current(old(self).state(m), now),
            text::in_order(names(r@)),
            forall|m: Seq<char>|
                names(r@).contains(m) <==> #[trigger] current(old(self).state(m), now).limit > 0,
            forall|i: int|
                0 <= i < r@.len() ==> {
                    let p = current(old(self).state((#[trigger] r@[i]).model@), now);
                    r@[i].limit == p.limit && r@[i].inflight == p.inflight
                },
    {
        let ghost before = self.models@;
        let n: usize = self.models.len();
        let mut out: Vec<ModelPressure> = Vec::new();
        let mut i: usize = 0;
        while i < n
            invariant
                i <= n,
                n == before.len(),
                table::distinct(before),
                self.models.wf(),
                self.models@.len() == n,
                forall|j: int|
                    0 <= j < n ==> (#[trigger] self.models@[j]).0 == before[j].0
                        && self.models@[j].1@ == if j < i {
                        current(before[j].1@, now)
                    } else {
                        before[j].1@
                    },
                text::in_order(names(out@)),
                reported(out@, before, i as int, now),
            decreases n - i,
        {
            let state = self.models.value_mut(i);
            state.dissolve(now);
            let limit: usize = state.limit;
            let inflight: usize = state.inflight;
            let ghost was = out@;
            if limit > 0 {
                let rows = self.models.rows();
                assert(table::row_view(rows@[i as int]) == self.models@[i as int]);
                let name = rows[i].0.clone();
                assert(!names(was).contains(name@)) by {
                    if names(was).contains(name@) {
                        let k = choose|k: int| 0 <= k < was.len() && names(was)[k] == name@;
                        assert(was[k].model@ == name@);
                    }
                }
                file(&mut out, ModelPressure { model: name, limit, inflight });
                proof {
                    lemma_filed(was, out@, before, i as int, now);
                }
            } else {
                assert(current(before[i as int].1@, now).limit == 0);
                assert forall|k: int| 0 <= k < out@.len() implies comes_from(
                    #[trigger] out@[k],
                    before,
                    i + 1,
                    now,
                ) by {
                    assert(comes_from(out@[k], before, i as int, now));
                    let j = origin(out@[k], before, i as int, now);
                    assert(reports(out@[k], before, j, now));
                }
            }
            i += 1;
        }
        proof {
            assert forall|m: Seq<char>| #[trigger]
                self.state(m) == current(old(self).state(m), now) by {
                table::lemma_at(before, m);
                table::lemma_at(self.models@, m);
                match table::at(before, m) {
                    Some(j) => {
                        table::lemma_at_row(self.models@, j);
                    },
                    None => {
                        if table::at(self.models@, m) is Some {
                            let j = table::at(self.models@, m)->0;
                            assert(before[j].0 == m);
                        }
                    },
                }
            }
            assert forall|m: Seq<char>|
                names(out@).contains(m) <==> #[trigger] current(old(self).state(m), now).limit > 0 by {
                table::lemma_at(before, m);
                if names(out@).contains(m) {
                    let k = choose|k: int| 0 <= k < out@.len() && names(out@)[k] == m;
                    assert(comes_from(out@[k], before, n as int, now));
                    assert(comes_from(out@[k], before, n as int, now));
                let j = origin(out@[k], before, n as int, now);
                    table::lemma_at_row(before, j);
                }
            }
            assert forall|k: int| 0 <= k < out@.len() implies {
                let p = current(old(self).state((#[trigger] out@[k]).model@), now);
                out@[k].limit == p.limit && out@[k].inflight == p.inflight
            } by {
                assert(comes_from(out@[k], before, n as int, now));
                let j = origin(out@[k], before, n as int, now);
                table::lemma_at_row(before, j);
            }
        }
        out
    }
}

/// The names of the reported models.
pub open spec fn names(r: Seq<ModelPressure>) -> Seq<Seq<char>> {
    r.map_values(|p: ModelPressure| p.model@)
}

/// The report `p` is on row `j`.
spec fn reports(p: ModelPressure, rows: Seq<(Seq<char>, ModelState)>, j: int, now: u128) -> bool {
    let c = current(rows[j].1@, now);
    p.model@ == rows[j].0 && p.limit == c.limit && p.inflight == c.inflight && c.limit > 0
}

spec fn comes_from(p: ModelPressure, rows: Seq<(Seq<char>, ModelState)>, n: int, now: u128) -> bool {
    exists|j: int| 0 <= j < n && reports(p, rows, j, now)
}

spec fn origin(p: ModelPressure, rows: Seq<(Seq<char>, ModelState)>, n: int, now: u128) -> int {
    choose|j: int| 0 <= j < n && reports(p, rows, j, now)
}

/// `out` reports exactly those of the first `n` rows that are under a cap.
spec fn reported(
    out: Seq<ModelPressure>,
    rows: Seq<(Seq<char>, ModelState)>,
    n: int,
    now: u128,
) -> bool {
    &&& forall|k: int|
        0 <= k < out.len() ==> comes_from(#[trigger] out[k], rows, n, now)
    &&& forall|j: int|
        0 <= j < n && current((#[trigger] rows[j]).1@, now).limit > 0 ==> names(out).contains(
            rows[j].0,
        )
}

proof fn lemma_filed(
    was: Seq<ModelPressure>,
    out: Seq<ModelPressure>,
    rows: Seq<(Seq<char>, ModelState)>,
    n: int,
    now: u128,
)
    requires
        0 <= n < rows.len(),
        reported(was, rows, n, now),
        exists|at: int, p: ModelPressure|
            0 <= at <= was.len() && reports(p, rows, n, now) && out == #[trigger] was.insert(at, p),
    ensures
        reported(out, rows, n + 1, now),
{
    let (at, p) = choose|at: int, p: ModelPressure|
        0 <= at <= was.len() && reports(p, rows, n, now) && out == #[trigger] was.insert(at, p);
    assert forall|k: int| 0 <= k < out.len() implies comes_from(
        #[trigger] out[k],
        rows,
        n + 1,
        now,
    ) by {
        if k == at {
            assert(reports(out[k], rows, n, now));
        } else {
            let k0 = if k < at { k } else { k - 1 };
            assert(out[k] == was[k0]);
            assert(comes_from(was[k0], rows, n, now));
            let j = origin(was[k0], rows, n, now);
            assert(reports(out[k], rows, j, now));
        }
    }
    assert forall|j: int|
        0 <= j < n + 1 && current((#[trigger] rows[j]).1@, now).limit > 0 implies names(out).contains(
        rows[j].0,
    ) by {
        if j == n {
            assert(names(out)[at] == rows[j].0);
        } else {
            let k = choose|k: int| 0 <= k < was.len() && names(was)[k] == rows[j].0;
            let k1 = if k < at { k } else { k + 1 };
            assert(out[k1] == was[k]);
            assert(names(out)[k1] == rows[j].0);
        }
    }
}

/// File a report where its name belongs.
fn file(out: &mut Vec<ModelPressure>, p: ModelPressure)
    requires
        text::in_order(names(old(out)@)),
        !names(old(out)@).contains(p.model@),
    ensures
        text::in_order(names(final(out)@)),
        exists|at: int|
            0 <= at <= old(out)@.len() && final(out)@ == #[trigger] old(out)@.insert(at, p),
{
    let mut at: usize = 0;
    while at < out.len() && text::comes_before(out[at].model.as_str(), p.model.as_str())
        invariant
            *out == *old(out),
            at <= out@.len(),
            forall|j: int| 0 <= j < at ==> text::precedes(#[trigger] names(out@)[j], p.model@),
        decreases out@.len() - at,
    {
        at += 1;
    }
    let ghost was = out@;
    proof {
        let all = names(was);
        assert forall|j: int| at <= j < was.len() implies text::precedes(p.model@, #[trigger] all[j]) by {
            assert(all[j] != p.model@);
            text::lemma_order_is_total(p.model@, all[at as int]);
            assert(all[at as int] != p.model@);
            if j > at {
                text::lemma_order_is_transitive(p.model@, all[at as int], all[j]);
            }
        }
        let after = names(was.insert(at as int, p));
        assert forall|i: int, j: int| 0 <= i < j < after.len() implies text::precedes(
            #[trigger] after[i],
            #[trigger] after[j],
        ) by {
            let i0 = if i < at { i } else { i - 1 };
            let j0 = if j < at { j } else { j - 1 };
            if i != at {
                assert(after[i] == all[i0]);
            } else {
                assert(after[i] == p.model@);
            }
            if j != at {
                assert(after[j] == all[j0]);
            } else {
                assert(after[j] == p.model@);
            }
        }
    }
    out.insert(at, p);
}

/// Claim a concurrency slot on `model`, or `None` when it is at its cap.
/// An ungoverned model has room for any number.
pub fn admit_request(gov: &mut Governor, model: &str, now: u128) -> (r: Option<ModelPermit>)
    requires
        old(gov).wf(),
        old(gov).state(model@).inflight < usize::MAX,
    ensures
        r is Some <==> has_slot(old(gov).state(model@), now),
        r matches Some(p) ==> p.model@ == model@,
        final(gov).wf(),
        final(gov).state(model@) == if has_slot(old(gov).state(model@), now) {
            admitted(old(gov).state(model@), now)
        } else {
            current(old(gov).state(model@), now)
        },
        forall|m: Seq<char>| m != model@ ==> #[trigger] final(gov).state(m) == old(gov).state(m),
{
    let limit: usize = gov.limit(model, now);
    let ghost mid = gov.state(model@);
    let state = gov.entry(model);
    if limit > 0 && state.inflight >= limit {
        return None;
    }
    state.inflight += 1;
    assert(state@ =~= admitted(old(gov).state(model@), now));
    Some(ModelPermit { model: text::owned(model) })
}

impl ModelPermit {
    /// Give the slot back.
    pub fn release(self, gov: &mut Governor)
        requires
            old(gov).wf(),
        ensures
            final(gov).wf(),
            final(gov).state(self.model@) == released(old(gov).state(self.model@)),
            forall|m: Seq<char>|
                m != self.model@ ==> #[trigger] final(gov).state(m) == old(gov).state(m),
    {
        let ghost p = gov.state(self.model@);
        let state = gov.entry(self.model.as_str());
        if state.inflight > 0 {
            state.inflight -= 1;
        }
        assert(state@ =~= released(p));
    }
}

// --- What the governor guarantees --------------------------------------------

/// A governed model never has more requests admitted than its cap: whoever is
/// admitted under a cap fits under it.
pub proof fn law_admission_respects_the_cap(p: Pressure, now: u128)
    requires
        has_slot(p, now),
    ensures
        admitted(p, now).limit == 0 || admitted(p, now).inflight <= admitted(p, now).limit,
{
}

/// Releasing a slot undoes admitting it.
pub proof fn law_release_undoes_admission(p: Pressure, now: u128)
    ensures
        released(admitted(p, now)) == current(p, now),
{
    assert(released(admitted(p, now)) =~= current(p, now));
}

/// Asking for a slot changes the count of requests in flight and nothing else that
/// counts: a slot is given exactly where the model is ungoverned or below its cap, and
/// the cap in force is afterwards what it was before.
pub proof fn law_admission_changes_the_count_only(p: Pressure, now: u128)
    ensures
        has_slot(p, now) <==> current(p, now).limit == 0 || p.inflight < current(p, now).limit,
        admitted(p, now).inflight == p.inflight + 1,
        current(p, now).inflight == p.inflight,
        current(admitted(p, now), now).limit == current(p, now).limit,
        current(current(p, now), now).limit == current(p, now).limit,
{
}

// --- Whole histories ---------------------------------------------------------

/// One call of the governor.
pub enum Call {
    /// `note_rebuff`.
    Rebuff { model: Seq<char>, lane: usize, now: u128 },
    /// `limit`.
    Limit { model: Seq<char>, now: u128 },
    /// `pressured`, which looks at every model.
    Pressured { now: u128 },
    /// `admit_request`.
    Admit { model: Seq<char>, now: u128 },
    /// A permit for the model is given back.
    Release { model: Seq<char> },
}

/// What is known of the model `m` after the call `c`.
pub open spec fn after_call(p: Pressure, m: Seq<char>, c: Call) -> Pressure {
    match c {
        Call::Rebuff { model, lane, now } => if model == m {
            rebuffed(p, lane, now)
        } else {
            p
        },
        Call::Limit { model, now } => if model == m {
            current(p, now)
        } else {
            p
        },
        Call::Pressured { now } => current(p, now),
        Call::Admit { model, now } => if model == m {
            if has_slot(p, now) {
                admitted(p, now)
            } else {
                current(p, now)
            }
        } else {
            p
        },
        Call::Release { model } => if model == m {
            released(p)
        } else {
            p
        },
    }
}

/// What a new governor knows of the model `m` after `calls`.
pub open spec fn known(m: Seq<char>, calls: Seq<Call>) -> Pressure
    decreases calls.len(),
{
    if calls.len() == 0 {
        idle()
    } else {
        after_call(known(m, calls.drop_last()), m, calls.last())
    }
}

/// When a call was made; giving a permit back asks for no time.
pub open spec fn time_of(c: Call) -> Option<u128> {
    match c {
        Call::Rebuff { now, .. } => Some(now),
        Call::Limit { now, .. } => Some(now),
        Call::Pressured { now } => Some(now),
        Call::Admit { now, .. } => Some(now),
        Call::Release { .. } => None,
    }
}

/// The times of the calls never decrease, and none is later than `now`.
pub open spec fn in_time_order(calls: Seq<Call>, now: u128) -> bool
    decreases calls.len(),
{
    if calls.len() == 0 {
        true
    } else {
        match time_of(calls.last()) {
            Some(t) => t <= now && in_time_order(calls.drop_last(), t),
            None => in_time_order(calls.drop_last(), now),
        }
    }
}

/// Every rebuff of the model `m` in `calls`, as (when, which lane).
pub open spec fn rebuffs_of(m: Seq<char>, calls: Seq<Call>) -> Seq<(u128, usize)>
    decreases calls.len(),
{
    if calls.len() == 0 {
        Seq::empty()
    } else {
        let earlier = rebuffs_of(m, calls.drop_last());
        match calls.last() {
            Call::Rebuff { model, lane, now } => if model == m {
                earlier.push((now, lane))
            } else {
                earlier
            },
            _ => earlier,
        }
    }
}

/// The keys on which the model `m` was rebuffed within the evidence window that ends
/// at `now`.
pub open spec fn keys_rebuffed(m: Seq<char>, calls: Seq<Call>, now: u128) -> Set<usize> {
    implicated(rebuffs_of(m, calls).filter(|r: (u128, usize)| fresh(r, now)))
}

/// What a governor keeps of the rebuffs is all that is still evidence: nothing that
/// did not happen, and every rebuff inside the window.
proof fn lemma_evidence_is_kept(m: Seq<char>, calls: Seq<Call>, now: u128)
    requires
        in_time_order(calls, now),
    ensures
        forall|r: (u128, usize)|
            known(m, calls).rebuffs.contains(r) ==> #[trigger] rebuffs_of(m, calls).contains(r),
        forall|r: (u128, usize)|
            #[trigger] rebuffs_of(m, calls).contains(r) && fresh(r, now) ==> known(
                m,
                calls,
            ).rebuffs.contains(r),
        forall|r: (u128, usize)| #[trigger] rebuffs_of(m, calls).contains(r) ==> r.0 <= now,
        known(m, calls).last_rebuff matches Some(at) ==> forall|r: (u128, usize)| #[trigger]
            rebuffs_of(m, calls).contains(r) ==> r.0 <= at,
    decreases calls.len(),
{
    broadcast use vstd::seq_lib::group_filter_ensures;

    if calls.len() > 0 {
        let before = calls.drop_last();
        let c = calls.last();
        let t = match time_of(c) {
            Some(t) => t,
            None => now,
        };
        lemma_evidence_is_kept(m, before, t);
        let p = known(m, before);
        let q = known(m, calls);
        let all = rebuffs_of(m, before);
        let every = rebuffs_of(m, calls);
        match c {
            Call::Rebuff { model, lane, now: at } => {
                if model == m {
                    let f = |r: (u128, usize)| fresh(r, at);
                    let kept = p.rebuffs.filter(f);
                    let new = (at, lane);
                    assert(q.rebuffs == kept.push(new));
                    assert forall|r: (u128, usize)| #[trigger] every.contains(r) <==> (all.contains(
                        r,
                    ) || r == new) by {
                        lemma_push_contains(all, new, r);
                    }
                    assert forall|r: (u128, usize)| #[trigger]
                        q.rebuffs.contains(r) <==> ((p.rebuffs.contains(r) && fresh(r, at)) || r
                            == new) by {
                        lemma_push_contains(kept, new, r);
                        if p.rebuffs.contains(r) && f(r) {
                            assert(kept.contains(r));
                        }
                        if kept.contains(r) {
                            p.rebuffs.lemma_filter_contains_rev(f, r);
                            let k = choose|k: int| 0 <= k < kept.len() && kept[k] == r;
                            assert(f(kept[k]));
                        }
                    }
                }
            },
            _ => {
                assert(every == all);
            },
        }
    }
}

proof fn lemma_push_contains<T>(s: Seq<T>, x: T, y: T)
    ensures
        s.push(x).contains(y) <==> s.contains(y) || y == x,
{
    let t = s.push(x);
    if s.contains(y) {
        let i = choose|i: int| 0 <= i < s.len() && s[i] == y;
        assert(t[i] == y);
    }
    if y == x {
        assert(t[s.len() as int] == y);
    }
    if t.contains(y) {
        let i = choose|i: int| 0 <= i < t.len() && t[i] == y;
        if i < s.len() {
            assert(s[i] == y);
        }
    }
}

proof fn lemma_implicated(rebuffs: Seq<(u128, usize)>, lane: usize)
    ensures
        implicated(rebuffs).contains(lane) <==> exists|t: u128| #[trigger]
            rebuffs.contains((t, lane)),
{
    let lanes = rebuffs.map_values(|r: (u128, usize)| r.1);
    if lanes.contains(lane) {
        let i = choose|i: int| 0 <= i < lanes.len() && lanes[i] == lane;
        assert(rebuffs[i] == (rebuffs[i].0, lane));
        assert(rebuffs.contains((rebuffs[i].0, lane)));
    }
    if exists|t: u128| #[trigger] rebuffs.contains((t, lane)) {
        let t = choose|t: u128| #[trigger] rebuffs.contains((t, lane));
        let i = choose|i: int| 0 <= i < rebuffs.len() && rebuffs[i] == (t, lane);
        assert(lanes[i] == lane);
    }
}

/// Whatever came before, the cap after a rebuff follows from the keys on which the
/// model was rebuffed within the evidence window, this one included: fewer than two
/// leave it alone, two or more bring it to half of what is in flight, unless it is lower
/// already. A cap never rises here, and the count of requests in flight stays.
pub proof fn law_the_cap_follows_from_the_keys_rebuffed(
    m: Seq<char>,
    calls: Seq<Call>,
    lane: usize,
    now: u128,
)
    requires
        in_time_order(calls, now),
    ensures
        ({
            let p = known(m, calls);
            let calls2 = calls.push(Call::Rebuff { model: m, lane, now });
            let q = known(m, calls2);
            let keys = keys_rebuffed(m, calls2, now).len();
            let half = at_least_one(p.inflight / 2);
            &&& q.limit == if keys < KEYS_TO_INDICT {
                p.limit
            } else if p.limit == 0 || half < p.limit {
                half
            } else {
                p.limit
            }
            &&& p.limit > 0 ==> q.limit <= p.limit
            &&& q.inflight == p.inflight
            &&& current(q, now).limit == q.limit
        }),
        forall|other: Seq<char>|
            other != m ==> #[trigger] known(
                other,
                calls.push(Call::Rebuff { model: m, lane, now }),
            ) == known(other, calls),
{
    broadcast use vstd::seq_lib::group_filter_ensures;

    let c = Call::Rebuff { model: m, lane, now };
    let calls2 = calls.push(c);
    assert(calls2.drop_last() =~= calls);
    lemma_evidence_is_kept(m, calls2, now);
    let q = known(m, calls2);
    let p = known(m, calls);
    let f = |r: (u128, usize)| fresh(r, now);
    let every = rebuffs_of(m, calls2);
    let recent = every.filter(f);
    let kept = p.rebuffs.filter(f);
    assert(q.rebuffs == kept.push((now, lane)));
    assert forall|r: (u128, usize)| q.rebuffs.contains(r) implies fresh(r, now) by {
        lemma_push_contains(kept, (now, lane), r);
        if kept.contains(r) {
            let k = choose|k: int| 0 <= k < kept.len() && kept[k] == r;
            assert(f(kept[k]));
        }
    }
    assert forall|x: usize| implicated(q.rebuffs).contains(x) <==> implicated(recent).contains(
        x,
    ) by {
        lemma_implicated(q.rebuffs, x);
        lemma_implicated(recent, x);
        if exists|t: u128| #[trigger] q.rebuffs.contains((t, x)) {
            let t = choose|t: u128| #[trigger] q.rebuffs.contains((t, x));
            assert(every.contains((t, x)));
            assert(f((t, x)));
            assert(recent.contains((t, x)));
        }
        if exists|t: u128| #[trigger] recent.contains((t, x)) {
            let t = choose|t: u128| #[trigger] recent.contains((t, x));
            every.lemma_filter_contains_rev(f, (t, x));
            let k = choose|k: int| 0 <= k < recent.len() && recent[k] == (t, x);
            assert(f(recent[k]));
            assert(q.rebuffs.contains((t, x)));
        }
    }
    assert(implicated(q.rebuffs) =~= implicated(recent));
}

/// How many permits for the model `m` were handed out in `calls`.
pub open spec fn handed_out(m: Seq<char>, calls: Seq<Call>) -> nat
    decreases calls.len(),
{
    if calls.len() == 0 {
        0
    } else {
        let before = calls.drop_last();
        handed_out(m, before) + match calls.last() {
            Call::Admit { model, now } => if model == m && has_slot(known(m, before), now) {
                1nat
            } else {
                0
            },
            _ => 0,
        }
    }
}

/// How many permits for the model `m` were given back in `calls`.
pub open spec fn given_back(m: Seq<char>, calls: Seq<Call>) -> nat
    decreases calls.len(),
{
    if calls.len() == 0 {
        0
    } else {
        given_back(m, calls.drop_last()) + match calls.last() {
            Call::Release { model } => if model == m {
                1nat
            } else {
                0
            },
            _ => 0,
        }
    }
}

/// A permit is given back only while it is held.
pub open spec fn only_held_permits_return(m: Seq<char>, calls: Seq<Call>) -> bool
    decreases calls.len(),
{
    calls.len() > 0 ==> only_held_permits_return(m, calls.drop_last()) && given_back(m, calls)
        <= handed_out(m, calls)
}

/// Whatever the governor was asked, the requests that it counts in flight on a model
/// are the permits for it that were handed out and are still held.
pub proof fn law_in_flight_are_the_permits_held(m: Seq<char>, calls: Seq<Call>)
    requires
        only_held_permits_return(m, calls),
    ensures
        given_back(m, calls) <= handed_out(m, calls),
        known(m, calls).inflight == handed_out(m, calls) - given_back(m, calls),
    decreases calls.len(),
{
    if calls.len() > 0 {
        law_in_flight_are_the_permits_held(m, calls.drop_last());
    }
}

/// What is known after rebuffs on `lane` at each of `times`.
pub open spec fn rebuffed_on(lane: usize, times: Seq<u128>) -> Pressure
    decreases times.len(),
{
    if times.len() == 0 {
        idle()
    } else {
        rebuffed(rebuffed_on(lane, times.drop_last()), lane, times.last())
    }
}

/// One key being rebuffed over and over is that key's problem: it never puts the
/// model under a cap.
pub proof fn law_one_key_never_indicts_the_model(lane: usize, times: Seq<u128>)
    ensures
        rebuffed_on(lane, times).limit == 0,
        forall|i: int|
            0 <= i < rebuffed_on(lane, times).rebuffs.len() ==> (#[trigger] rebuffed_on(
                lane,
                times,
            ).rebuffs[i]).1 == lane,
    decreases times.len(),
{
    if times.len() > 0 {
        let p = rebuffed_on(lane, times.drop_last());
        let now = times.last();
        law_one_key_never_indicts_the_model(lane, times.drop_last());
        let f = |r: (u128, usize)| fresh(r, now);
        let seen = evidence(p, lane, now);
        assert forall|i: int| 0 <= i < seen.len() implies (#[trigger] seen[i]).1 == lane by {
            if i < seen.len() - 1 {
                assert(p.rebuffs.filter(f)[i] == seen[i]);
                assert(p.rebuffs.filter(f).contains(seen[i]));
                p.rebuffs.lemma_filter_contains_rev(f, seen[i]);
                let k = choose|k: int| 0 <= k < p.rebuffs.len() && p.rebuffs[k] == seen[i];
                assert(p.rebuffs[k].1 == lane);
            }
        }
        let lanes = seen.map_values(|r: (u128, usize)| r.1);
        assert(lanes[0] == lane);
        assert(implicated(seen) =~= Set::<usize>::empty().insert(lane)) by {
            assert forall|x: usize| lanes.to_set().contains(x) <==> x == lane by {
                if lanes.contains(x) {
                    let k = choose|k: int| 0 <= k < lanes.len() && lanes[k] == x;
                    assert(seen[k].1 == x);
                }
            }
        }
    }
}

/// Two different keys rebuffed on a model, the first rebuff still being evidence
/// when the second comes, put the model under a cap.
pub proof fn law_two_keys_indict_the_model(p: Pressure, a: usize, t: u128, b: usize, now: u128)
    requires
        a != b,
        now - t < EVIDENCE_WINDOW,
    ensures
        rebuffed(rebuffed(p, a, t), b, now).limit > 0,
{
    broadcast use vstd::seq_lib::group_filter_ensures;

    let p1 = rebuffed(p, a, t);
    let f = |r: (u128, usize)| fresh(r, now);
    let kept = p1.rebuffs.filter(f);
    let r1 = (t, a);
    assert(p1.rebuffs[p1.rebuffs.len() - 1] == r1);
    assert(p1.rebuffs.contains(r1));
    assert(f(r1));
    assert(kept.contains(r1));
    let seen = evidence(p1, b, now);
    let lanes = seen.map_values(|r: (u128, usize)| r.1);
    let i = choose|i: int| 0 <= i < kept.len() && kept[i] == r1;
    assert(seen[i] == r1);
    assert(lanes[i] == a);
    assert(lanes[lanes.len() - 1] == b);
    assert(lanes.to_set().contains(a) && lanes.to_set().contains(b));
    vstd::seq_lib::seq_to_set_is_finite(lanes);
    let pair = Set::<usize>::empty().insert(a).insert(b);
    vstd::set_lib::lemma_len_subset(pair, lanes.to_set());
    assert(pair.len() == 2);
}

/// A model that has been quiet for long enough is ungoverned again.
pub proof fn law_a_quiet_model_is_ungoverned(p: Pressure, lane: usize, t: u128, now: u128)
    requires
        now - t >= DISSOLVE_AFTER,
    ensures
        current(rebuffed(p, lane, t), now).limit == 0,
{
}

/// A cap stands for as long as rebuffs are recent: nothing of what is known is given up
/// within ten minutes of the last.
pub proof fn law_a_cap_stands_while_rebuffs_are_recent(p: Pressure, lane: usize, t: u128, now: u128)
    requires
        now - t < 600_000_000_000,
    ensures
        current(rebuffed(p, lane, t), now) == rebuffed(p, lane, t),
        ({
            let q = rebuffed(p, lane, t);
            has_slot(q, now) <==> q.limit == 0 || q.inflight < q.limit
        }),
{
}

/// A rebuff is evidence for ten seconds: two keys that are rebuffed further apart than
/// that put no model under a cap.
pub proof fn law_old_rebuffs_are_no_evidence(a: usize, t: u128, b: usize, now: u128)
    requires
        now - t >= 10_000_000_000,
    ensures
        rebuffed(rebuffed(idle(), a, t), b, now).limit == 0,
        rebuffed(rebuffed(idle(), a, t), b, now).rebuffs == seq![(now, b)],
{
    let p = rebuffed(idle(), a, t);
    let f = |r: (u128, usize)| fresh(r, now);
    reveal_with_fuel(Seq::filter, 3);
    let none = Seq::<(u128, usize)>::empty();
    assert(none.filter(|r: (u128, usize)| fresh(r, t)) =~= none);
    assert(p.rebuffs =~= seq![(t, a)]);
    assert(p.rebuffs.drop_last() =~= none);
    assert(p.rebuffs.filter(f) =~= none);
    let seen = evidence(p, b, now);
    assert(seen =~= seq![(now, b)]);
    lemma_one_key(seen, b);
    assert(none.push((t, a)) =~= seq![(t, a)]);
    lemma_one_key(evidence(idle(), a, t), a);
}

proof fn lemma_one_key(rebuffs: Seq<(u128, usize)>, lane: usize)
    requires
        rebuffs.len() == 1,
        rebuffs[0].1 == lane,
    ensures
        implicated(rebuffs).len() == 1,
{
    let f = |r: (u128, usize)| r.1;
    let keys = rebuffs.map_values(f);
    assert(keys.to_set() =~= Set::empty().insert(lane)) by {
        assert(keys[0] == lane);
        assert forall|k: usize| #[trigger] keys.to_set().contains(k) implies k == lane by {
            let i = choose|i: int| 0 <= i < keys.len() && keys[i] == k;
        }
        assert(keys.contains(keys[0]));
    }
}

/// The first cap is half of what is in flight, rounded down, and one at least.
pub proof fn law_the_first_cap_is_half(p: Pressure, a: usize, t: u128, b: usize, now: u128)
    requires
        a != b,
        p.limit == 0,
        rebuffed(p, a, t).limit == 0,
        now - t < 10_000_000_000,
    ensures
        ({
            let cap = rebuffed(rebuffed(p, a, t), b, now).limit;
            if p.inflight >= 2 {
                cap * 2 == p.inflight || cap * 2 + 1 == p.inflight
            } else {
                cap == 1
            }
        }),
{
    law_two_keys_indict_the_model(p, a, t, b, now);
}

/// The announcement names the model, the cap it is held to, how many keys were rebuffed
/// and how much was in flight.
pub proof fn law_an_announcement_names_the_cap(model: Seq<char>, limit: nat, keys: nat, observed: nat)
    ensures
        ({
            let line = announcement(model, limit, keys, observed);
            &&& text::holds(line, model + " at "@ + text::decimal(limit) + " concurrent ("@)
            &&& text::holds(line, "("@ + text::decimal(keys) + " keys rebuffed"@)
            &&& text::holds(line, ", "@ + text::decimal(observed) + " in flight)"@)
        }),
{
    reveal_strlit(" concurrent (");
    reveal_strlit(" concurrent ");
    reveal_strlit("(");
    reveal_strlit(" keys rebuffed, ");
    reveal_strlit(" keys rebuffed");
    reveal_strlit(", ");
    let line = announcement(model, limit, keys, observed);
    let head = "  governing "@;
    let cap = model + " at "@ + text::decimal(limit) + " concurrent ("@;
    let all = model + " at "@ + text::decimal(limit) + " concurrent "@;
    let k = "("@ + text::decimal(keys) + " keys rebuffed"@;
    let o = ", "@ + text::decimal(observed) + " in flight)"@;
    assert(" concurrent ("@ =~= " concurrent "@ + "("@);
    assert(" keys rebuffed, "@ =~= " keys rebuffed"@ + ", "@);
    let rest = text::decimal(keys) + " keys rebuffed, "@ + text::decimal(observed)
        + " in flight)"@;
    assert(line =~= head + cap + rest);
    assert(line =~= (head + all) + k + o);
    assert(line =~= (head + all + k) + o + Seq::<char>::empty());
}

} // verus!
