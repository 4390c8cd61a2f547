//! Metrics history: periodic snapshots of the cumulative request total. Snapshots
//! older than the retention window are pruned on each append.

use vstd::prelude::*;

use crate::seqs;

verus! {

/// Default seconds between snapshots (5 minutes).
pub const SAMPLE_SECS: u64 = 300;

/// Seconds in a day.
pub const DAY: u64 = 86_400;

#[derive(Clone, Copy, Debug, PartialEq, Eq, Structural)]
pub struct Snapshot {
    /// Unix seconds.
    pub t: u64,
    /// Cumulative request count at that time.
    pub total: u64,
}

pub struct History {
    retention_secs: u64,
    snapshots: Vec<Snapshot>,
}

/// How long snapshots are kept; `0` days means for ever.
pub open spec fn retention(days: u32) -> nat {
    if days == 0 {
        u64::MAX as nat
    } else {
        (days * DAY) as nat
    }
}

/// Is a snapshot still kept once one was taken at `t`?
pub open spec fn kept(s: Snapshot, t: u64, retention: nat) -> bool {
    s.t + retention >= t
}

/// The snapshots after one more was taken.
pub open spec fn appended(all: Seq<Snapshot>, s: Snapshot, retention: nat) -> Seq<Snapshot> {
    all.push(s).filter(|x: Snapshot| kept(x, s.t, retention))
}

/// How far apart the points of a downsampled list stand.
pub open spec fn stride(len: nat, max: nat) -> nat {
    (len + max - 1) as nat / max
}

/// Every `step`-th snapshot, starting with the first.
pub open spec fn every(all: Seq<Snapshot>, step: nat) -> Seq<Snapshot> {
    Seq::new(
        (all.len() + step - 1) as nat / step,
        |i: int| all[i * step],
    )
}

/// At most `max` of the snapshots, evenly spaced; `0` means all of them.
pub open spec fn sampled(all: Seq<Snapshot>, max: nat) -> Seq<Snapshot> {
    if max == 0 || all.len() <= max {
        all
    } else {
        every(all, stride(all.len(), max))
    }
}

pub open spec fn within(all: Seq<Snapshot>, from: u64, to: u64) -> Seq<Snapshot> {
    all.filter(|s: Snapshot| from <= s.t && s.t <= to)
}

impl History {
    pub closed spec fn all(&self) -> Seq<Snapshot> {
        self.snapshots@
    }

    pub closed spec fn keeps(&self) -> nat {
        self.retention_secs as nat
    }

    /// Start from prior snapshots and set retention (`0` days = keep forever).
    pub fn load(prior: Vec<Snapshot>, retention_days: u32) -> (r: Self)
        ensures
            r.all() == prior@,
            r.keeps() == retention(retention_days),
    {
        let retention_secs: u64 = if retention_days == 0 {
            u64::MAX
        } else {
            retention_days as u64 * DAY
        };
        History { retention_secs, snapshots: prior }
    }

    /// Append a snapshot and prune expired ones.
    pub fn append(&mut self, t: u64, total: u64)
        ensures
            final(self).all() == appended(old(self).all(), Snapshot { t, total }, old(self).keeps()),
            final(self).keeps() == old(self).keeps(),
    {
        self.snapshots.push(Snapshot { t, total });
        let ghost all = self.snapshots@;
        let ghost f = |x: Snapshot| kept(x, t, self.retention_secs as nat);
        let cutoff: u64 = if t > self.retention_secs {
            t - self.retention_secs
        } else {
            0
        };
        let mut left: Vec<Snapshot> = Vec::new();
        let mut i: usize = 0;
        proof {
            reveal(Seq::filter);
        }
        while i < self.snapshots.len()
            invariant
                i <= self.snapshots@.len(),
                self.retention_secs == old(self).retention_secs,
                all == self.snapshots@,
                all == old(self).snapshots@.push(Snapshot { t, total }),
                f == |x: Snapshot| kept(x, t, self.retention_secs as nat),
                cutoff == if t > self.retention_secs {
                    t - self.retention_secs
                } else {
                    0
                },
                left@ == all.take(i as int).filter(f),
            decreases self.snapshots@.len() - i,
        {
            proof {
                reveal(Seq::filter);
                assert(all.take(i as int + 1).drop_last() =~= all.take(i as int));
            }
            let s = self.snapshots[i];
            if s.t >= cutoff {
                left.push(s);
            }
            i += 1;
        }
        assert(all.take(all.len() as int) =~= all);
        self.snapshots = left;
    }

    /// The snapshots kept, oldest first, to be persisted.
    pub fn snapshots(&self) -> (r: &Vec<Snapshot>)
        ensures
            r@ == self.all(),
    {
        &self.snapshots
    }

    /// Snapshots within `[from, to]`, downsampled to at most `max` points.
    pub fn range(&self, from: u64, to: u64, max: usize) -> (r: Vec<Snapshot>)
        ensures
            r@ == sampled(within(self.all(), from, to), max as nat),
    {
        let ghost all = self.snapshots@;
        let ghost f = |s: Snapshot| from <= s.t && s.t <= to;
        let mut filtered: Vec<Snapshot> = Vec::new();
        let mut i: usize = 0;
        proof {
            reveal(Seq::filter);
        }
        while i < self.snapshots.len()
            invariant
                i <= self.snapshots@.len(),
                all == self.snapshots@,
                f == |s: Snapshot| from <= s.t && s.t <= to,
                filtered@ == all.take(i as int).filter(f),
            decreases self.snapshots@.len() - i,
        {
            proof {
                reveal(Seq::filter);
                assert(all.take(i as int + 1).drop_last() =~= all.take(i as int));
            }
            let s = self.snapshots[i];
            if from <= s.t && s.t <= to {
                filtered.push(s);
            }
            i += 1;
        }
        assert(all.take(all.len() as int) =~= all);
        downsample(filtered, max)
    }
}

proof fn lemma_ceiling(n: int, d: int)
    requires
        n >= 0,
        d > 0,
    ensures
        (n + d - 1) / d >= 0,
        ((n + d - 1) / d) * d >= n,
        n > 0 ==> ((n + d - 1) / d - 1) * d < n,
{
    vstd::arithmetic::div_mod::lemma_fundamental_div_mod(n + d - 1, d);
    vstd::arithmetic::div_mod::lemma_mod_bound(n + d - 1, d);
    let q = (n + d - 1) / d;
    assert(d * q == q * d) by (nonlinear_arith);
    assert((q - 1) * d == q * d - d) by (nonlinear_arith);
    vstd::arithmetic::div_mod::lemma_div_pos_is_pos(n + d - 1, d);
}

fn downsample(v: Vec<Snapshot>, max: usize) -> (r: Vec<Snapshot>)
    ensures
        r@ == sampled(v@, max as nat),
{
    if max == 0 || v.len() <= max {
        return v;
    }
    proof {
        lemma_step(v@.len() as int, max as int);
    }
    let step: usize = (v.len() - 1) / max + 1;
    proof {
        lemma_ceiling(v@.len() as int, step as int);
    }
    let ghost count = (v@.len() + step - 1) as nat / step as nat;
    let mut out: Vec<Snapshot> = Vec::new();
    let mut i: usize = 0;
    while i < v.len()
        invariant
            step > 0,
            0 < max < v@.len(),
            step == stride(v@.len(), max as nat),
            i == out@.len() * step,
            count == (v@.len() + step - 1) as nat / step as nat,
            count * step >= v@.len(),
            v@.len() > 0 ==> (count - 1) * step < v@.len(),
            out@.len() <= count,
            forall|k: int| 0 <= k < out@.len() ==> #[trigger] out@[k] == v@[k * step],
        decreases v@.len() - i,
    {
        let ghost n = out@.len() as int;
        proof {
            assert(n < count) by (nonlinear_arith)
                requires
                    n * step < v@.len(),
                    count * step >= v@.len(),
                    step > 0,
            ;
            assert((n + 1) * step == n * step + step) by (nonlinear_arith);
        }
        out.push(v[i]);
        if v.len() - i <= step {
            proof {
                assert(n + 1 >= count) by (nonlinear_arith)
                    requires
                        (n + 1) * step >= v@.len(),
                        (count - 1) * step < v@.len(),
                        step > 0,
                ;
                assert(out@ =~= every(v@, step as nat));
            }
            return out;
        }
        i += step;
    }
    proof {
        assert(out@.len() >= count) by (nonlinear_arith)
            requires
                out@.len() * step >= v@.len(),
                v@.len() > 0,
                (count - 1) * step < v@.len(),
                step > 0,
        ;
    }
    assert(out@ =~= every(v@, step as nat));
    out
}

proof fn lemma_step(n: int, max: int)
    requires
        n > max,
        max > 0,
    ensures
        stride(n as nat, max as nat) == (n - 1) / max + 1,
        (n - 1) / max < n,
        stride(n as nat, max as nat) > 0,
{
    vstd::arithmetic::div_mod::lemma_div_plus_one(n - 1, max);
    vstd::arithmetic::div_mod::lemma_div_is_ordered_by_denominator(n - 1, 1, max);
    vstd::arithmetic::div_mod::lemma_div_pos_is_pos(n - 1, max);
}

/// A range never has more points than were asked for.
pub proof fn law_a_range_has_at_most_max_points(all: Seq<Snapshot>, max: nat)
    requires
        max > 0,
    ensures
        sampled(all, max).len() <= max,
{
    if all.len() > max {
        let n = all.len() as int;
        let m = max as int;
        let step = stride(all.len(), max) as int;
        lemma_step(n, m);
        lemma_ceiling(n, m);
        lemma_ceiling(n, step);
        let count = every(all, step as nat).len() as int;
        assert(count <= m) by (nonlinear_arith)
            requires
                (count - 1) * step < n,
                step * m >= n,
                step > 0,
                m > 0,
        ;
    }
}

/// Whatever is appended, what is kept lies within the retention window of the last
/// snapshot.
pub proof fn law_nothing_older_than_the_window_is_kept(
    all: Seq<Snapshot>,
    s: Snapshot,
    retention: nat,
)
    ensures
        forall|i: int|
            0 <= i < appended(all, s, retention).len() ==> kept(
                #[trigger] appended(all, s, retention)[i],
                s.t,
                retention,
            ),
        appended(all, s, retention).contains(s),
{
    broadcast use vstd::seq_lib::group_filter_ensures;

    let f = |x: Snapshot| kept(x, s.t, retention);
    let list = all.push(s);
    assert(list[all.len() as int] == s);
    assert(f(list[all.len() as int]));
}

/// A range holds stored snapshots of that time only; while they are few enough it holds
/// all of them, and it always begins with the first.
pub proof fn law_a_range_shows_what_was_stored(all: Seq<Snapshot>, from: u64, to: u64, max: nat)
    ensures
        ({
            let r = sampled(within(all, from, to), max);
            &&& forall|i: int|
                0 <= i < r.len() ==> all.contains(#[trigger] r[i]) && from <= r[i].t <= to
            &&& max == 0 || within(all, from, to).len() <= max ==> forall|s: Snapshot|
                all.contains(s) && from <= s.t <= to ==> #[trigger] r.contains(s)
            &&& within(all, from, to).len() > 0 ==> r.len() > 0 && r[0] == within(all, from, to)[0]
        }),
{
    let f = |s: Snapshot| from <= s.t && s.t <= to;
    let w = within(all, from, to);
    let r = sampled(w, max);
    seqs::lemma_filtered(all, f);
    if !(max == 0 || w.len() <= max) {
        let step = stride(w.len(), max);
        let top = (w.len() + max - 1) as int;
        assert(step >= 1) by (nonlinear_arith)
            requires
                step == top / max as int,
                top >= max,
                max > 0,
        ;
        let n = (w.len() + step - 1) as nat / step;
        assert(1 <= n && (n - 1) * step < w.len()) by (nonlinear_arith)
            requires
                n == (w.len() + step - 1) as int / step as int,
                step >= 1,
                w.len() >= 1,
        ;
        assert forall|i: int| 0 <= i < r.len() implies w.contains(#[trigger] r[i]) by {
            assert(0 <= i * step <= (n - 1) * step) by (nonlinear_arith)
                requires
                    0 <= i <= n - 1,
                    step >= 1,
            ;
            assert(r[i] == w[i * step]);
        }
        assert(0 * step == 0);
    }
    assert forall|i: int| 0 <= i < r.len() implies all.contains(#[trigger] r[i]) && from <= r[i].t
        <= to by {
        assert(w.contains(r[i]));
    }
}

/// One more snapshot drops those that have left the window, keeps every other, and is
/// kept itself; the window is so many days, or without end.
pub proof fn law_only_what_left_the_window_is_dropped(all: Seq<Snapshot>, s: Snapshot, days: u32)
    ensures
        forall|x: Snapshot| #[trigger]
            appended(all, s, retention(days)).contains(x) <==> (all.contains(x) || x == s) && (days
                == 0 || x.t + days * 86_400 >= s.t),
{
    let f = |x: Snapshot| kept(x, s.t, retention(days));
    seqs::lemma_filtered(all.push(s), f);
    assert forall|x: Snapshot| #[trigger] all.push(s).contains(x) <==> all.contains(x) || x == s by {
        if all.contains(x) {
            let i = choose|i: int| 0 <= i < all.len() && all[i] == x;
            assert(all.push(s)[i] == x);
        }
        assert(all.push(s)[all.len() as int] == s);
        if all.push(s).contains(x) && x != s {
            let i = choose|i: int| 0 <= i < all.push(s).len() && all.push(s)[i] == x;
            assert(all[i] == x);
        }
    }
    assert forall|x: Snapshot| #[trigger]
        appended(all, s, retention(days)).contains(x) <==> (all.contains(x) || x == s) && (days == 0
            || x.t + days * 86_400 >= s.t) by {
        assert(all.push(s).contains(x) <==> all.contains(x) || x == s);
        assert(appended(all, s, retention(days)).contains(x) <==> all.push(s).contains(x) && f(x));
    }
}

} // verus!
