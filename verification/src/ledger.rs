//! Lifetime token usage.
//!
//! Metrics live in memory and start from zero every restart, which is right for
//! "how is it behaving now" and useless for "what has this saved me". This keeps
//! a per-model running total instead, so the figure is a property of the
//! installation rather than of the current process. Totals stay at their greatest
//! value once they reach it.

use vstd::prelude::*;

use crate::metrics;
use crate::seqs;
use crate::table;
use crate::table::Table;

verus! {

/// Cumulative usage for one model.
#[derive(Clone, Copy, Debug, PartialEq, Eq, Structural)]
pub struct Usage {
    pub requests: u64,
    pub prompt_tokens: u64,
    pub completion_tokens: u64,
}

pub open spec fn no_usage() -> Usage {
    Usage { requests: 0, prompt_tokens: 0, completion_tokens: 0 }
}

impl Default for Usage {
    fn default() -> (r: Self)
        ensures
            r == no_usage(),
    {
        Usage { requests: 0, prompt_tokens: 0, completion_tokens: 0 }
    }
}

/// Two usages together.
pub open spec fn together(a: Usage, b: Usage) -> Usage {
    Usage {
        requests: metrics::capped_sum(a.requests, b.requests),
        prompt_tokens: metrics::capped_sum(a.prompt_tokens, b.prompt_tokens),
        completion_tokens: metrics::capped_sum(a.completion_tokens, b.completion_tokens),
    }
}

impl Usage {
    pub fn plus(self, o: Usage) -> (r: Usage)
        ensures
            r == together(self, o),
    {
        Usage {
            requests: metrics::bump(self.requests, o.requests),
            prompt_tokens: metrics::bump(self.prompt_tokens, o.prompt_tokens),
            completion_tokens: metrics::bump(self.completion_tokens, o.completion_tokens),
        }
    }
}

/// A model and its usage.
pub type Row = (Seq<char>, Usage);

pub open spec fn row_views(rows: Seq<(String, Usage)>) -> Seq<Row> {
    rows.map_values(|r: (String, Usage)| (r.0@, r.1))
}

/// The rows, the last of each model counting.
pub open spec fn tabled(rows: Seq<Row>) -> Seq<Row>
    decreases rows.len(),
{
    if rows.len() == 0 {
        Seq::empty()
    } else {
        table::put(tabled(rows.drop_last()), rows.last().0, rows.last().1)
    }
}

/// The totals once the counters `current` were folded onto `baseline`.
pub open spec fn absorbed(live: Seq<Row>, baseline: Seq<Row>, current: Seq<Row>) -> Seq<Row>
    decreases current.len(),
{
    if current.len() == 0 {
        live
    } else {
        let (model, now) = current.last();
        table::put(
            absorbed(live, baseline, current.drop_last()),
            model,
            together(table::get_or(baseline, model, no_usage()), now),
        )
    }
}

/// What `rows` say last of `model`.
pub open spec fn last_said(rows: Seq<Row>, model: Seq<char>) -> Option<Usage>
    decreases rows.len(),
{
    if rows.len() == 0 {
        None
    } else if rows.last().0 == model {
        Some(rows.last().1)
    } else {
        last_said(rows.drop_last(), model)
    }
}

/// The rows that served any tokens: a row of zeroes is noise.
pub open spec fn served_rows(rows: Seq<Row>) -> Seq<Row> {
    rows.filter(|r: Row| r.1.prompt_tokens > 0 || r.1.completion_tokens > 0)
}

pub struct Ledger {
    /// Totals as of process start. Metrics restart at zero, so every published
    /// figure is this plus whatever the current process has since served —
    /// without it, a restart would appear to erase the history.
    baseline: Table<String, Usage>,
    /// Baseline plus the current process, refreshed on each snapshot tick.
    live: Table<String, Usage>,
}

fn filled(rows: &[(String, Usage)]) -> (t: Table<String, Usage>)
    ensures
        t@ == tabled(row_views(rows@)),
        t.wf(),
{
    let ghost all = row_views(rows@);
    let mut t: Table<String, Usage> = Table::new();
    let mut i: usize = 0;
    assert(all.take(0) =~= Seq::<Row>::empty());
    while i < rows.len()
        invariant
            i <= rows@.len(),
            all == row_views(rows@),
            t.wf(),
            t@ == tabled(all.take(i as int)),
        decreases rows@.len() - i,
    {
        assert(all.take(i as int + 1).drop_last() =~= all.take(i as int));
        t.insert(rows[i].0.clone(), rows[i].1);
        i += 1;
    }
    assert(all.take(all.len() as int) =~= all);
    t
}

impl Ledger {
    pub closed spec fn baseline(&self) -> Seq<Row> {
        self.baseline@
    }

    pub closed spec fn live(&self) -> Seq<Row> {
        self.live@
    }

    pub closed spec fn wf(&self) -> bool {
        self.baseline.wf() && self.live.wf()
    }

    /// Start from the totals that were stored.
    pub fn load(stored: &[(String, Usage)]) -> (r: Self)
        ensures
            r.wf(),
            r.baseline() == tabled(row_views(stored@)),
            r.live() == tabled(row_views(stored@)),
    {
        Ledger { baseline: filled(stored), live: filled(stored) }
    }

    /// Fold this process's per-model counters onto the baseline.
    ///
    /// Takes the current absolute values rather than a delta, because that is
    /// what the metrics registry can report and it makes the operation
    /// idempotent — running it twice on the same tick cannot double-count.
    pub fn absorb(&mut self, current: &[(String, Usage)])
        requires
            old(self).wf(),
        ensures
            final(self).wf(),
            final(self).baseline() == old(self).baseline(),
            final(self).live() == absorbed(
                old(self).live(),
                old(self).baseline(),
                row_views(current@),
            ),
    {
        let ghost all = row_views(current@);
        let mut i: usize = 0;
        assert(all.take(0) =~= Seq::<Row>::empty());
        while i < current.len()
            invariant
                i <= current@.len(),
                all == row_views(current@),
                self.baseline.wf(),
                self.live.wf(),
                self.baseline@ == old(self).baseline@,
                self.live@ == absorbed(old(self).live@, old(self).baseline@, all.take(i as int)),
            decreases current@.len() - i,
        {
            assert(all.take(i as int + 1).drop_last() =~= all.take(i as int));
            let (model, now) = &current[i];
            let base = match self.baseline.get(model) {
                Some(u) => *u,
                None => Usage::default(),
            };
            self.live.insert(model.clone(), base.plus(*now));
            i += 1;
        }
        assert(all.take(all.len() as int) =~= all);
    }

    /// The totals, to be persisted.
    pub fn totals(&self) -> (r: Vec<(String, Usage)>)
        ensures
            row_views(r@) == self.live(),
    {
        let ghost all = self.live@;
        let rows = self.live.rows();
        let mut out: Vec<(String, Usage)> = Vec::new();
        let mut i: usize = 0;
        while i < rows.len()
            invariant
                i <= rows@.len(),
                rows@.len() == all.len(),
                forall|j: int| 0 <= j < rows@.len() ==> #[trigger] table::row_view(rows@[j]) == all[j],
                out@.len() == i,
                forall|j: int|
                    0 <= j < i ==> (#[trigger] out@[j]).0@ == all[j].0 && out@[j].1 == all[j].1,
            decreases rows@.len() - i,
        {
            assert(table::row_view(rows@[i as int]) == all[i as int]);
            out.push((rows[i].0.clone(), rows[i].1));
            i += 1;
        }
        assert(row_views(out@) =~= all);
        out
    }

    /// The lifetime usage of every model that served any tokens.
    pub fn served(&self) -> (r: Vec<(String, Usage)>)
        ensures
            row_views(r@) == served_rows(self.live()),
    {
        let ghost all = self.live@;
        let ghost f = |r: Row| r.1.prompt_tokens > 0 || r.1.completion_tokens > 0;
        let rows = self.live.rows();
        let mut out: Vec<(String, Usage)> = Vec::new();
        let mut i: usize = 0;
        proof {
            reveal(Seq::filter);
            assert(row_views(out@) =~= all.take(0).filter(f));
        }
        while i < rows.len()
            invariant
                i <= rows@.len(),
                rows@.len() == all.len(),
                forall|j: int| 0 <= j < rows@.len() ==> #[trigger] table::row_view(rows@[j]) == all[j],
                f == |r: Row| r.1.prompt_tokens > 0 || r.1.completion_tokens > 0,
                row_views(out@) == all.take(i as int).filter(f),
            decreases rows@.len() - i,
        {
            let ghost before = out@;
            proof {
                reveal(Seq::filter);
                assert(all.take(i as int + 1).drop_last() =~= all.take(i as int));
                assert(table::row_view(rows@[i as int]) == all[i as int]);
            }
            let u = rows[i].1;
            if u.prompt_tokens > 0 || u.completion_tokens > 0 {
                out.push((rows[i].0.clone(), u));
                assert(row_views(out@) =~= row_views(before).push(all[i as int]));
            }
            i += 1;
        }
        assert(all.take(all.len() as int) =~= all);
        out
    }
}

/// What a model's total is after counters were absorbed: its baseline and the
/// counter together, and what it was for a model that was not counted.
pub proof fn law_a_total_is_baseline_and_counter(
    live: Seq<Row>,
    baseline: Seq<Row>,
    current: Seq<Row>,
    model: Seq<char>,
)
    ensures
        table::get(absorbed(live, baseline, current), model) == match last_said(current, model) {
            Some(now) => Some(together(table::get_or(baseline, model, no_usage()), now)),
            None => table::get(live, model),
        },
    decreases current.len(),
{
    if current.len() > 0 {
        let rest = current.drop_last();
        law_a_total_is_baseline_and_counter(live, baseline, rest, model);
        let (m, now) = current.last();
        table::law_put_then_get(
            absorbed(live, baseline, rest),
            m,
            together(table::get_or(baseline, m, no_usage()), now),
        );
    }
}

/// Absorbing the same counters again changes no total.
pub proof fn law_absorbing_twice_does_not_double_count(
    live: Seq<Row>,
    baseline: Seq<Row>,
    current: Seq<Row>,
    model: Seq<char>,
)
    ensures
        table::get(absorbed(absorbed(live, baseline, current), baseline, current), model)
            == table::get(absorbed(live, baseline, current), model),
{
    law_a_total_is_baseline_and_counter(live, baseline, current, model);
    law_a_total_is_baseline_and_counter(
        absorbed(live, baseline, current),
        baseline,
        current,
        model,
    );
}

proof fn lemma_tabled(rows: Seq<Row>, model: Seq<char>)
    ensures
        table::get(tabled(rows), model) == last_said(rows, model),
    decreases rows.len(),
{
    if rows.len() == 0 {
        table::lemma_at(tabled(rows), model);
    } else {
        lemma_tabled(rows.drop_last(), model);
        table::law_put_then_get(tabled(rows.drop_last()), rows.last().0, rows.last().1);
    }
}

/// A restart does not erase what came before: a ledger loaded from stored totals
/// that then absorbs a model's counter shows the stored total and the counter
/// together.
pub proof fn law_a_restart_erases_nothing(
    stored: Seq<Row>,
    current: Seq<Row>,
    model: Seq<char>,
    before: Usage,
    now: Usage,
)
    requires
        last_said(stored, model) == Some(before),
        last_said(current, model) == Some(now),
    ensures
        table::get(absorbed(tabled(stored), tabled(stored), current), model) == Some(
            together(before, now),
        ),
{
    lemma_tabled(stored, model);
    law_a_total_is_baseline_and_counter(tabled(stored), tabled(stored), current, model);
}

/// What is shown is what served tokens, each with its totals; a model that served none is
/// left out.
pub proof fn law_only_what_served_is_shown(rows: Seq<Row>)
    ensures
        forall|r: Row| #[trigger]
            served_rows(rows).contains(r) <==> rows.contains(r) && (r.1.prompt_tokens > 0
                || r.1.completion_tokens > 0),
{
    seqs::lemma_filtered(rows, |r: Row| r.1.prompt_tokens > 0 || r.1.completion_tokens > 0);
}

/// Two usages together are the requests, the tokens read and the tokens written of both,
/// in either order.
pub proof fn law_usages_add_up(a: Usage, b: Usage)
    requires
        a.requests + b.requests <= u64::MAX,
        a.prompt_tokens + b.prompt_tokens <= u64::MAX,
        a.completion_tokens + b.completion_tokens <= u64::MAX,
    ensures
        together(a, b).requests == a.requests + b.requests,
        together(a, b).prompt_tokens == a.prompt_tokens + b.prompt_tokens,
        together(a, b).completion_tokens == a.completion_tokens + b.completion_tokens,
        together(a, b) == together(b, a),
        together(a, no_usage()) == a,
{
}

} // verus!
