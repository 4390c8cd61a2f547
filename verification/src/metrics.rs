//! Content-blind request metrics: counts, latencies, token totals, and per-lane
//! usage — sizes and counts only, never message content. Exposed as Prometheus
//! text (`render`) for scrapers and as structured data (`stats`) for the dashboard.
//! Labels are sanitized and the number of series is capped so an untrusted `model`
//! can't explode the registry.
//!
//! Counters stay at their greatest value once they reach it.

use vstd::prelude::*;

use crate::table;
use crate::table::{Label, Table};
use crate::text;

verus! {

/// Beyond this many distinct series, new labels collapse to `other`.
pub const MAX_SERIES: usize = 500;

// --- Labels ------------------------------------------------------------------

/// A character that may stand in a label.
pub open spec fn is_label_char(c: char) -> bool {
    ('a' <= c && c <= 'z') || ('A' <= c && c <= 'Z') || ('0' <= c && c <= '9') || c == '.' || c
        == '_' || c == '-' || c == '/' || c == ':'
}

fn label_char(c: char) -> (r: bool)
    ensures
        r == is_label_char(c),
{
    ('a' <= c && c <= 'z') || ('A' <= c && c <= 'Z') || ('0' <= c && c <= '9') || c == '.' || c
        == '_' || c == '-' || c == '/' || c == ':'
}

/// The characters of `s` that may stand in a label.
pub open spec fn label_chars(s: Seq<char>) -> Seq<char>
    decreases s.len(),
{
    if s.len() == 0 {
        Seq::empty()
    } else if is_label_char(s.last()) {
        label_chars(s.drop_last()).push(s.last())
    } else {
        label_chars(s.drop_last())
    }
}

/// The longest label.
pub const MAX_LABEL: usize = 64;

/// A text reduced to a label.
pub open spec fn sanitized(s: Seq<char>) -> Seq<char> {
    let kept = label_chars(s);
    if kept.len() == 0 {
        "unknown"@
    } else if kept.len() > MAX_LABEL {
        kept.take(MAX_LABEL as int)
    } else {
        kept
    }
}

/// A label holds nothing that could break the exposition format, and is neither
/// empty nor long.
pub open spec fn is_label(s: Seq<char>) -> bool {
    0 < s.len() <= MAX_LABEL && forall|i: int| 0 <= i < s.len() ==> is_label_char(#[trigger] s[i])
}

proof fn lemma_label_chars(s: Seq<char>)
    ensures
        forall|i: int| 0 <= i < label_chars(s).len() ==> is_label_char(#[trigger] label_chars(s)[i]),
    decreases s.len(),
{
    if s.len() > 0 {
        let p = s.drop_last();
        lemma_label_chars(p);
        assert forall|i: int| 0 <= i < label_chars(s).len() implies is_label_char(
            #[trigger] label_chars(s)[i],
        ) by {
            if i < label_chars(p).len() {
                assert(label_chars(s)[i] == label_chars(p)[i]);
            }
        }
    }
}

/// Whatever the text, what it is reduced to is a label.
pub proof fn law_a_sanitized_text_is_a_label(s: Seq<char>)
    ensures
        is_label(sanitized(s)),
{
    reveal_strlit("unknown");
    lemma_label_chars(s);
}

/// Reducing a label changes nothing.
pub proof fn law_sanitizing_twice_changes_nothing(s: Seq<char>)
    ensures
        sanitized(sanitized(s)) == sanitized(s),
{
    law_a_sanitized_text_is_a_label(s);
    lemma_labels_stay(sanitized(s));
}

proof fn lemma_labels_stay(s: Seq<char>)
    requires
        forall|i: int| 0 <= i < s.len() ==> is_label_char(#[trigger] s[i]),
    ensures
        label_chars(s) == s,
    decreases s.len(),
{
    if s.len() > 0 {
        lemma_labels_stay(s.drop_last());
        assert(s.drop_last().push(s.last()) =~= s);
    }
}

/// Reduce a label to a Prometheus-safe charset and cap its length. Filtering (not
/// escaping) keeps quotes/backslashes/newlines out of the exposition entirely.
pub fn sanitize(s: &str) -> (r: String)
    ensures
        r@ == sanitized(s@),
        is_label(r@),
{
    let chars = text::chars_of(s);
    let mut kept: Vec<char> = Vec::new();
    let mut i: usize = 0;
    assert(chars@.take(0) =~= Seq::<char>::empty());
    while i < chars.len() && kept.len() < MAX_LABEL
        invariant
            chars@ == s@,
            i <= chars@.len(),
            kept@.len() <= MAX_LABEL,
            kept@ == label_chars(chars@.take(i as int)),
        decreases chars@.len() - i,
    {
        assert(chars@.take(i as int + 1).drop_last() =~= chars@.take(i as int));
        let c: char = chars[i];
        if label_char(c) {
            kept.push(c);
        }
        i += 1;
    }
    proof {
        law_a_sanitized_text_is_a_label(s@);
        lemma_label_prefix(chars@, i as int);
        assert(chars@.take(chars@.len() as int) =~= chars@);
        if i < chars@.len() {
            assert(kept@ =~= label_chars(s@).take(MAX_LABEL as int));
            if label_chars(s@).len() == MAX_LABEL {
                assert(label_chars(s@).take(MAX_LABEL as int) =~= label_chars(s@));
            }
        }
    }
    if kept.len() == 0 {
        text::owned("unknown")
    } else {
        assert(kept@.subrange(0, kept@.len() as int) =~= kept@);
        text::string_of(kept.as_slice(), 0, kept.len())
    }
}

proof fn lemma_label_prefix(s: Seq<char>, n: int)
    requires
        0 <= n <= s.len(),
    ensures
        label_chars(s.take(n)).len() <= label_chars(s).len(),
        label_chars(s.take(n)) == label_chars(s).take(label_chars(s.take(n)).len() as int),
    decreases s.len(),
{
    if n == s.len() {
        assert(s.take(n) =~= s);
        assert(label_chars(s).take(label_chars(s).len() as int) =~= label_chars(s));
    } else {
        let p = s.drop_last();
        lemma_label_prefix(p, n);
        assert(p.take(n) =~= s.take(n));
        let k = label_chars(s.take(n)).len() as int;
        assert(label_chars(s).take(k) =~= label_chars(p).take(k));
    }
}

// --- Counters ----------------------------------------------------------------

/// A sum that stays at the greatest value once it reaches it.
pub open spec fn capped_sum(a: u64, b: u64) -> u64 {
    if a + b > u64::MAX {
        u64::MAX
    } else {
        (a + b) as u64
    }
}

pub(crate) fn bump(a: u64, b: u64) -> (r: u64)
    ensures
        r == capped_sum(a, b),
{
    if a > u64::MAX - b {
        u64::MAX
    } else {
        a + b
    }
}

/// sum/count/max for a distribution.
///
/// Deliberately not a bucketed histogram: those need bucket boundaries chosen
/// per metric and get them wrong, and what an operator asks first is "what is
/// it normally, and how bad does it get". Prometheus reads `_sum` and `_count`
/// as a summary; the dashboard shows the average and the worst case.
#[derive(Clone, Copy)]
pub struct Summary {
    pub sum: u64,
    pub count: u64,
    pub max: u64,
}

impl Default for Summary {
    fn default() -> (r: Self)
        ensures
            r == no_summary(),
    {
        Summary { sum: 0, count: 0, max: 0 }
    }
}

pub open spec fn no_summary() -> Summary {
    Summary { sum: 0, count: 0, max: 0 }
}

/// A summary with one more measurement.
pub open spec fn summary_with(s: Summary, v: u64) -> Summary {
    Summary {
        sum: capped_sum(s.sum, v),
        count: capped_sum(s.count, 1),
        max: if v > s.max {
            v
        } else {
            s.max
        },
    }
}

/// A summary of real measurements: none of them is greater than `max`, so they add up
/// to at most `max` each.
pub open spec fn tight(s: Summary) -> bool {
    s.sum <= s.max * s.count
}

proof fn lemma_stays_tight(s: Summary, v: u64)
    requires
        tight(s),
    ensures
        tight(summary_with(s, v)),
{
    let t = summary_with(s, v);
    assert(s.max * s.count <= t.max * s.count) by (nonlinear_arith)
        requires
            s.max <= t.max,
    ;
    if s.count < u64::MAX {
        assert(t.max * t.count == t.max * s.count + t.max) by (nonlinear_arith)
            requires
                t.count == s.count + 1,
        ;
    } else if t.max > 0 {
        assert(t.max * u64::MAX >= u64::MAX) by (nonlinear_arith)
            requires
                t.max > 0,
        ;
    }
}

/// The greatest measurement is at least the average.
pub proof fn law_the_greatest_is_at_least_the_average(s: Summary)
    requires
        tight(s),
    ensures
        average(s.sum, s.count) <= s.max,
{
    if s.count > 0 {
        let (sum, count, max) = (s.sum as int, s.count as int, s.max as int);
        assert(sum / count <= max) by (nonlinear_arith)
            requires
                sum <= max * count,
                count > 0,
        ;
    }
}

/// An average over no measurements is 0.
pub open spec fn average(sum: u64, count: u64) -> u64 {
    if count == 0 {
        0
    } else {
        sum / count
    }
}

fn divide(sum: u64, count: u64) -> (r: u64)
    ensures
        r == average(sum, count),
{
    if count == 0 {
        0
    } else {
        sum / count
    }
}

impl Summary {
    fn add(&mut self, v: u64)
        ensures
            *final(self) == summary_with(*old(self), v),
    {
        self.sum = bump(self.sum, v);
        self.count = bump(self.count, 1);
        if v > self.max {
            self.max = v;
        }
    }

    pub fn avg(&self) -> (r: u64)
        ensures
            r == average(self.sum, self.count),
    {
        divide(self.sum, self.count)
    }
}

/// What harnesses ask for.
#[derive(Clone, Copy)]
pub struct Shape {
    pub messages: Summary,
    pub tools: Summary,
    pub max_tokens: Summary,
    pub temperature_x100: Summary,
}

pub open spec fn no_shape() -> Shape {
    Shape {
        messages: no_summary(),
        tools: no_summary(),
        max_tokens: no_summary(),
        temperature_x100: no_summary(),
    }
}

/// Every summary of the shape is one of real measurements.
pub open spec fn tight_shape(s: Shape) -> bool {
    tight(s.messages) && tight(s.tools) && tight(s.max_tokens) && tight(s.temperature_x100)
}

// --- Capped tables -----------------------------------------------------------

/// The label under which a measurement is kept: its own, or `other` once the
/// table is full.
pub open spec fn series_key<V>(rows: Seq<(Seq<char>, V)>, label: Seq<char>) -> Seq<char> {
    if table::at(rows, label) is Some || rows.len() < MAX_SERIES {
        label
    } else {
        "other"@
    }
}

/// The table keeps to its cap: at most `MAX_SERIES` series and `other`.
pub open spec fn bounded<V>(rows: Seq<(Seq<char>, V)>) -> bool {
    rows.len() <= MAX_SERIES || (rows.len() == MAX_SERIES + 1 && table::at(rows, "other"@) is Some)
}

pub open spec fn labelled<V>(rows: Seq<(Seq<char>, V)>) -> bool {
    forall|i: int| 0 <= i < rows.len() ==> is_label((#[trigger] rows[i]).0)
}

/// A series table: no label twice, every label sound, and the cap kept.
pub open spec fn sound<V>(rows: Seq<(Seq<char>, V)>) -> bool {
    table::distinct(rows) && labelled(rows) && bounded(rows)
}

proof fn lemma_series<V>(rows: Seq<(Seq<char>, V)>, label: Seq<char>, v: V)
    requires
        sound(rows),
        is_label(label),
    ensures
        sound(table::put(rows, series_key(rows, label), v)),
{
    reveal_strlit("other");
    let key = series_key(rows, label);
    let after = table::put(rows, key, v);
    table::law_put_then_get(rows, key, v);
    table::lemma_at(rows, key);
    table::lemma_at(rows, "other"@);
    table::lemma_at(after, "other"@);
    assert forall|i: int| 0 <= i < after.len() implies is_label((#[trigger] after[i]).0) by {
        if i < rows.len() {
            assert(is_label(rows[i].0));
        }
    }
    if rows.len() > MAX_SERIES {
        let j = table::at(rows, "other"@)->0;
        assert(after[j].0 == "other"@);
    } else if after.len() > MAX_SERIES {
        assert(after[rows.len() as int].0 == "other"@);
    }
}

/// Keep a client-supplied label, or fold it into "other" once a map is full.
///
/// Model names arrive in the request body, so any map keyed on one grows as far
/// as a caller cares to push it. Every such map needs this, not just the first
/// one somebody remembered.
fn capped<V>(map: &Table<String, V>, label: String) -> (r: String)
    ensures
        r@ == series_key(map@, label@),
{
    if map.contains(&label) || map.len() < MAX_SERIES {
        label
    } else {
        text::owned("other")
    }
}

/// The value kept for `label`, to be changed; a new series starts from `zero`.
fn series<'a, V>(map: &'a mut Table<String, V>, label: &str, zero: V) -> (r: &'a mut V)
    requires
        sound(old(map)@),
    ensures
        *r == table::get_or(old(map)@, series_key(old(map)@, sanitized(label@)), zero),
        final(map)@ == table::put(
            old(map)@,
            series_key(old(map)@, sanitized(label@)),
            *final(r),
        ),
        sound(final(map)@),
{
    let ghost before = map@;
    let label = sanitize(label);
    proof {
        assert forall|v: V| sound(#[trigger] table::put(before, series_key(before, label@), v)) by {
            lemma_series(before, label@, v);
        }
    }
    let key = capped(map, label);
    map.entry(key, zero)
}

// --- The registry ------------------------------------------------------------

pub struct Metrics {
    /// (client, model, status) -> count
    pub requests: Table<(String, String, String), u64>,
    /// model -> (summed latency ms, count)
    pub latency: Table<String, (u64, u64)>,
    /// model -> (prompt tokens, completion tokens)
    pub tokens: Table<String, (u64, u64)>,
    /// provider (lane) -> count
    pub lanes: Table<String, u64>,
    /// model -> time from sending upstream to the first streamed byte. The
    /// number that moves first when a provider starts degrading.
    pub ttft_ms: Table<String, Summary>,
    /// model -> generation speed, completion tokens per second.
    pub tok_per_sec: Table<String, Summary>,
    /// Time spent waiting for a rate slot, across all models. Rising queue wait
    /// means the pool is the constraint; flat wait with rising latency means the
    /// provider is.
    pub queue_wait_ms: Summary,
    /// (model, reason) -> count. `length`, or `max_tokens` as Anthropic calls it, is
    /// truncation — an answer cut off mid-thought, which looks like a bad model
    /// until you see the reason.
    pub finish: Table<(String, String), u64>,
    /// model -> (tool calls emitted, reasoning tokens)
    pub extras: Table<String, (u64, u64)>,
    /// What the harness asked for: conversation depth, tools offered, output
    /// budget, sampling temperature (x100, since these are integers).
    pub shape: Table<String, Shape>,
    /// Things that happened to requests rather than to models: retries, benched
    /// lanes, sheds, refusals, deadline expiries.
    pub events: Table<String, u64>,
    /// streaming vs buffered
    pub streamed: u64,
    pub buffered: u64,
    /// Requests in flight right now.
    pub active: u64,
}

/// A request series: who asked, for which model, and how it ended.
pub type Series = (Seq<char>, Seq<char>, Seq<char>);

pub open spec fn request_labels(rows: Seq<(Series, u64)>) -> bool {
    forall|i: int|
        0 <= i < rows.len() ==> is_label((#[trigger] rows[i]).0.0) && is_label(rows[i].0.1)
            && is_label(rows[i].0.2)
}

pub open spec fn finish_labels(rows: Seq<((Seq<char>, Seq<char>), u64)>) -> bool {
    forall|i: int|
        0 <= i < rows.len() ==> is_label((#[trigger] rows[i]).0.0) && is_label(rows[i].0.1)
}

/// The series under which a request is counted: its own, or that of the model
/// `other` once the table is full.
pub open spec fn request_key(
    rows: Seq<(Series, u64)>,
    client: Seq<char>,
    model: Seq<char>,
    status: Seq<char>,
) -> Series {
    let key = (sanitized(client), sanitized(model), sanitized(status));
    if table::at(rows, key) is Some || rows.len() < MAX_SERIES {
        key
    } else {
        (sanitized(client), "other"@, sanitized(status))
    }
}

/// How many request series name a model, rather than `other`.
pub open spec fn named(rows: Seq<(Series, u64)>) -> nat
    decreases rows.len(),
{
    if rows.len() == 0 {
        0
    } else {
        named(rows.drop_last()) + if rows.last().0.1 != "other"@ {
            1nat
        } else {
            0
        }
    }
}

proof fn lemma_named_by_keys(a: Seq<(Series, u64)>, b: Seq<(Series, u64)>)
    requires
        a.len() == b.len(),
        forall|i: int| 0 <= i < a.len() ==> (#[trigger] a[i]).0 == b[i].0,
    ensures
        named(a) == named(b),
        named(a) <= a.len(),
    decreases a.len(),
{
    if a.len() > 0 {
        lemma_named_by_keys(a.drop_last(), b.drop_last());
    }
}

/// `rows` with `by` added to the counter under `k`.
pub open spec fn counted<A>(rows: Seq<(A, u64)>, k: A, by: u64) -> Seq<(A, u64)> {
    table::put(rows, k, capped_sum(table::get_or(rows, k, 0), by))
}

/// `rows` with `a` and `b` added to the two counters kept for `label`.
pub open spec fn counted_both(
    rows: Seq<(Seq<char>, (u64, u64))>,
    label: Seq<char>,
    a: u64,
    b: u64,
) -> Seq<(Seq<char>, (u64, u64))> {
    let k = series_key(rows, sanitized(label));
    let was = table::get_or(rows, k, (0, 0));
    table::put(rows, k, (capped_sum(was.0, a), capped_sum(was.1, b)))
}

/// `rows` with `v` measured for `label`.
pub open spec fn measured(
    rows: Seq<(Seq<char>, Summary)>,
    label: Seq<char>,
    v: u64,
) -> Seq<(Seq<char>, Summary)> {
    let k = series_key(rows, sanitized(label));
    table::put(rows, k, summary_with(table::get_or(rows, k, no_summary()), v))
}

/// Every summary in the table is one of real measurements.
pub open spec fn all_tight(rows: Seq<(Seq<char>, Summary)>) -> bool {
    forall|i: int| 0 <= i < rows.len() ==> tight((#[trigger] rows[i]).1)
}

proof fn lemma_measured_tight(rows: Seq<(Seq<char>, Summary)>, label: Seq<char>, v: u64)
    requires
        all_tight(rows),
    ensures
        all_tight(measured(rows, label, v)),
{
    let k = series_key(rows, sanitized(label));
    table::lemma_at(rows, k);
    let was = table::get_or(rows, k, no_summary());
    assert(tight(was));
    lemma_stays_tight(was, v);
    let after = measured(rows, label, v);
    assert forall|i: int| 0 <= i < after.len() implies tight((#[trigger] after[i]).1) by {
        if i < rows.len() {
            assert(tight(rows[i].1));
        }
    }
}

/// Every shape in the table is one of real measurements.
pub open spec fn all_tight_shapes(rows: Seq<(Seq<char>, Shape)>) -> bool {
    forall|i: int| 0 <= i < rows.len() ==> tight_shape((#[trigger] rows[i]).1)
}

/// `rows` with one more event under `label`.
pub open spec fn event_counted(rows: Seq<(Seq<char>, u64)>, label: Seq<char>) -> Seq<
    (Seq<char>, u64),
> {
    counted(rows, series_key(rows, sanitized(label)), 1)
}

/// `rows` with one more generation that ended for `reason`; a full table takes no
/// new series.
pub open spec fn finish_counted(
    rows: Seq<((Seq<char>, Seq<char>), u64)>,
    model: Seq<char>,
    reason: Seq<char>,
) -> Seq<((Seq<char>, Seq<char>), u64)> {
    let key = (sanitized(model), sanitized(reason));
    if table::at(rows, key) is Some || rows.len() < MAX_SERIES {
        counted(rows, key, 1)
    } else {
        rows
    }
}

/// `rows` with what one request asked for.
pub open spec fn shape_counted(
    rows: Seq<(Seq<char>, Shape)>,
    client: Seq<char>,
    messages: u64,
    tools: u64,
    max_tokens: u64,
    temperature_x100: u64,
) -> Seq<(Seq<char>, Shape)> {
    let k = series_key(rows, sanitized(client));
    let was = table::get_or(rows, k, no_shape());
    table::put(
        rows,
        k,
        Shape {
            messages: summary_with(was.messages, messages),
            tools: summary_with(was.tools, tools),
            max_tokens: summary_with(was.max_tokens, max_tokens),
            temperature_x100: summary_with(was.temperature_x100, temperature_x100),
        },
    )
}

proof fn lemma_shapes_tight(
    rows: Seq<(Seq<char>, Shape)>,
    client: Seq<char>,
    messages: u64,
    tools: u64,
    max_tokens: u64,
    temperature_x100: u64,
)
    requires
        all_tight_shapes(rows),
    ensures
        all_tight_shapes(
            shape_counted(rows, client, messages, tools, max_tokens, temperature_x100),
        ),
{
    let k = series_key(rows, sanitized(client));
    table::lemma_at(rows, k);
    let was = table::get_or(rows, k, no_shape());
    assert(tight_shape(was));
    lemma_stays_tight(was.messages, messages);
    lemma_stays_tight(was.tools, tools);
    lemma_stays_tight(was.max_tokens, max_tokens);
    lemma_stays_tight(was.temperature_x100, temperature_x100);
    let after = shape_counted(rows, client, messages, tools, max_tokens, temperature_x100);
    assert forall|i: int| 0 <= i < after.len() implies tight_shape((#[trigger] after[i]).1) by {
        if i < rows.len() {
            assert(tight_shape(rows[i].1));
        }
    }
}

/// Completion tokens per second.
pub open spec fn speed(completion_tokens: u64, gen_ms: u64) -> u64 {
    let per_sec = completion_tokens as int * 1000 / gen_ms as int;
    if per_sec > u64::MAX {
        u64::MAX
    } else {
        per_sec as u64
    }
}

/// The sum of all counters.
pub open spec fn sum_of<A>(rows: Seq<(A, u64)>) -> nat
    decreases rows.len(),
{
    if rows.len() == 0 {
        0
    } else {
        sum_of(rows.drop_last()) + rows.last().1 as nat
    }
}

pub open spec fn at_most_max(n: nat) -> u64 {
    if n > u64::MAX {
        u64::MAX
    } else {
        n as u64
    }
}

/// However many models callers name, the series that name one stay within the cap: a
/// model that comes in once the table is full is counted under `other`.
pub proof fn law_a_flood_of_models_is_folded(
    rows: Seq<(Series, u64)>,
    client: Seq<char>,
    model: Seq<char>,
    status: Seq<char>,
)
    requires
        named(rows) <= MAX_SERIES,
    ensures
        named(counted(rows, request_key(rows, client, model, status), 1)) <= MAX_SERIES,
        rows.len() >= MAX_SERIES ==> named(
            counted(rows, request_key(rows, client, model, status), 1),
        ) == named(rows),
{
    let key = request_key(rows, client, model, status);
    let after = counted(rows, key, 1);
    table::lemma_at(rows, key);
    if table::at(rows, key) is Some {
        lemma_named_by_keys(rows, after);
    } else {
        lemma_named_by_keys(rows, rows);
        assert(after.drop_last() =~= rows);
    }
}

/// Holds one count of the in-flight gauge until it is released.
pub struct ActiveGuard {
    _held: (),
}

impl Metrics {
    pub open spec fn wf(&self) -> bool {
        &&& self.requests.wf()
        &&& request_labels(self.requests@)
        &&& named(self.requests@) <= MAX_SERIES
        &&& sound(self.latency@)
        &&& sound(self.tokens@)
        &&& self.lanes.wf()
        &&& labelled(self.lanes@)
        &&& sound(self.ttft_ms@)
        &&& all_tight(self.ttft_ms@)
        &&& sound(self.tok_per_sec@)
        &&& all_tight(self.tok_per_sec@)
        &&& tight(self.queue_wait_ms)
        &&& self.finish.wf()
        &&& finish_labels(self.finish@)
        &&& self.finish@.len() <= MAX_SERIES
        &&& sound(self.extras@)
        &&& sound(self.shape@)
        &&& all_tight_shapes(self.shape@)
        &&& sound(self.events@)
    }

    pub fn record_request(&mut self, client: &str, model: &str, status: &str)
        requires
            old(self).wf(),
        ensures
            final(self).wf(),
            *final(self) == (Metrics { requests: final(self).requests, ..*old(self) }),
            final(self).requests@ == counted(
                old(self).requests@,
                request_key(old(self).requests@, client@, model@, status@),
                1,
            ),
    {
        proof {
            reveal_strlit("other");
        }
        let ghost before = self.requests@;
        let mut key = (sanitize(client), sanitize(model), sanitize(status));
        if !self.requests.contains(&key) && self.requests.len() >= MAX_SERIES {
            key = (key.0, text::owned("other"), key.2);
        }
        proof {
            table::lemma_at(before, key@);
            table::law_put_then_get(before, key@, capped_sum(table::get_or(before, key@, 0), 1));
        }
        let e = self.requests.entry(key, 0);
        *e = bump(*e, 1);
        proof {
            law_a_flood_of_models_is_folded(before, client@, model@, status@);
            let after = self.requests@;
            assert forall|i: int| 0 <= i < after.len() implies is_label((#[trigger] after[i]).0.0)
                && is_label(after[i].0.1) && is_label(after[i].0.2) by {
                if i < before.len() {
                    assert(is_label(before[i].0.0));
                }
            }
        }
    }

    pub fn record_latency(&mut self, model: &str, ms: u64)
        requires
            old(self).wf(),
        ensures
            final(self).wf(),
            *final(self) == (Metrics { latency: final(self).latency, ..*old(self) }),
            final(self).latency@ == counted_both(old(self).latency@, model@, ms, 1),
    {
        let e = series(&mut self.latency, model, (0, 0));
        *e = (bump(e.0, ms), bump(e.1, 1));
    }

    pub fn record_tokens(&mut self, model: &str, prompt: u64, completion: u64)
        requires
            old(self).wf(),
        ensures
            final(self).wf(),
            *final(self) == (Metrics { tokens: final(self).tokens, ..*old(self) }),
            final(self).tokens@ == counted_both(old(self).tokens@, model@, prompt, completion),
    {
        let e = series(&mut self.tokens, model, (0, 0));
        *e = (bump(e.0, prompt), bump(e.1, completion));
    }

    pub fn record_lane(&mut self, provider: &str)
        requires
            old(self).wf(),
        ensures
            final(self).wf(),
            *final(self) == (Metrics { lanes: final(self).lanes, ..*old(self) }),
            final(self).lanes@ == counted(old(self).lanes@, sanitized(provider@), 1),
    {
        let ghost before = self.lanes@;
        let label = sanitize(provider);
        proof {
            table::lemma_at(before, label@);
        }
        let e = self.lanes.entry(label, 0);
        *e = bump(*e, 1);
        proof {
            let after = self.lanes@;
            assert forall|i: int| 0 <= i < after.len() implies is_label((#[trigger] after[i]).0) by {
                if i < before.len() {
                    assert(is_label(before[i].0));
                }
            }
        }
    }

    /// Time from sending upstream to the first byte back. This is the number
    /// that moves first when a provider degrades — total latency also moves, but
    /// only after the whole generation finishes.
    pub fn record_ttft(&mut self, model: &str, ms: u64)
        requires
            old(self).wf(),
        ensures
            final(self).wf(),
            *final(self) == (Metrics { ttft_ms: final(self).ttft_ms, ..*old(self) }),
            final(self).ttft_ms@ == measured(old(self).ttft_ms@, model@, ms),
    {
        proof {
            lemma_measured_tight(self.ttft_ms@, model@, ms);
        }
        series(&mut self.ttft_ms, model, Summary::default()).add(ms);
    }

    /// Generation speed. Recorded only when both the token count and the elapsed
    /// time are real, so a cached or empty answer cannot invent a huge rate.
    pub fn record_speed(&mut self, model: &str, completion_tokens: u64, gen_ms: u64)
        requires
            old(self).wf(),
        ensures
            final(self).wf(),
            *final(self) == (Metrics { tok_per_sec: final(self).tok_per_sec, ..*old(self) }),
            final(self).tok_per_sec@ == if completion_tokens == 0 || gen_ms == 0 {
                old(self).tok_per_sec@
            } else {
                measured(old(self).tok_per_sec@, model@, speed(completion_tokens, gen_ms))
            },
    {
        if completion_tokens == 0 || gen_ms == 0 {
            return;
        }
        let wide: u128 = completion_tokens as u128 * 1000 / gen_ms as u128;
        let per_sec: u64 = if wide > u64::MAX as u128 {
            u64::MAX
        } else {
            wide as u64
        };
        proof {
            lemma_measured_tight(self.tok_per_sec@, model@, per_sec);
        }
        series(&mut self.tok_per_sec, model, Summary::default()).add(per_sec);
    }

    /// How long a request waited for a rate slot. Distinguishes "our pool is the
    /// bottleneck" from "the provider is slow", which look identical end to end.
    pub fn record_queue_wait(&mut self, ms: u64)
        requires
            old(self).wf(),
        ensures
            final(self).wf(),
            *final(self) == (Metrics {
                queue_wait_ms: summary_with(old(self).queue_wait_ms, ms),
                ..*old(self)
            }),
    {
        proof {
            lemma_stays_tight(self.queue_wait_ms, ms);
        }
        self.queue_wait_ms.add(ms);
    }

    /// Why a generation stopped. `length` and `max_tokens` mean truncated at the
    /// output cap.
    pub fn record_finish(&mut self, model: &str, reason: &str)
        requires
            old(self).wf(),
        ensures
            final(self).wf(),
            *final(self) == (Metrics { finish: final(self).finish, ..*old(self) }),
            final(self).finish@ == finish_counted(old(self).finish@, model@, reason@),
    {
        let ghost before = self.finish@;
        let key = (sanitize(model), sanitize(reason));
        if !self.finish.contains(&key) && self.finish.len() >= MAX_SERIES {
            return;
        }
        proof {
            table::lemma_at(before, key@);
            table::law_put_then_get(before, key@, capped_sum(table::get_or(before, key@, 0), 1));
        }
        let e = self.finish.entry(key, 0);
        *e = bump(*e, 1);
        proof {
            let after = self.finish@;
            assert forall|i: int| 0 <= i < after.len() implies is_label((#[trigger] after[i]).0.0)
                && is_label(after[i].0.1) by {
                if i < before.len() {
                    assert(is_label(before[i].0.0));
                }
            }
        }
    }

    pub fn record_extras(&mut self, model: &str, tool_calls: u64, reasoning_tokens: u64)
        requires
            old(self).wf(),
        ensures
            final(self).wf(),
            *final(self) == (Metrics { extras: final(self).extras, ..*old(self) }),
            final(self).extras@ == if tool_calls == 0 && reasoning_tokens == 0 {
                old(self).extras@
            } else {
                counted_both(old(self).extras@, model@, tool_calls, reasoning_tokens)
            },
    {
        if tool_calls == 0 && reasoning_tokens == 0 {
            return;
        }
        let e = series(&mut self.extras, model, (0, 0));
        *e = (bump(e.0, tool_calls), bump(e.1, reasoning_tokens));
    }

    /// What the caller asked for. Content-blind: counts and sizes, never text.
    pub fn record_shape(
        &mut self,
        client: &str,
        messages: u64,
        tools: u64,
        max_tokens: u64,
        temperature_x100: u64,
    )
        requires
            old(self).wf(),
        ensures
            final(self).wf(),
            *final(self) == (Metrics { shape: final(self).shape, ..*old(self) }),
            final(self).shape@ == shape_counted(
                old(self).shape@,
                client@,
                messages,
                tools,
                max_tokens,
                temperature_x100,
            ),
    {
        proof {
            lemma_shapes_tight(
                self.shape@,
                client@,
                messages,
                tools,
                max_tokens,
                temperature_x100,
            );
        }
        let none = Summary::default();
        let zero = Shape {
            messages: none,
            tools: none,
            max_tokens: none,
            temperature_x100: none,
        };
        let e = series(&mut self.shape, client, zero);
        e.messages.add(messages);
        e.tools.add(tools);
        e.max_tokens.add(max_tokens);
        e.temperature_x100.add(temperature_x100);
    }

    /// Something happened to a request rather than to a model: a retry, a
    /// benched lane, a shed, a refusal, a deadline.
    pub fn record_event(&mut self, kind: &str)
        requires
            old(self).wf(),
        ensures
            final(self).wf(),
            *final(self) == (Metrics { events: final(self).events, ..*old(self) }),
            final(self).events@ == event_counted(old(self).events@, kind@),
    {
        let e = series(&mut self.events, kind, 0);
        *e = bump(*e, 1);
    }

    pub fn record_stream_mix(&mut self, streaming: bool)
        requires
            old(self).wf(),
        ensures
            final(self).wf(),
            *final(self) == if streaming {
                Metrics { streamed: capped_sum(old(self).streamed, 1), ..*old(self) }
            } else {
                Metrics { buffered: capped_sum(old(self).buffered, 1), ..*old(self) }
            },
    {
        if streaming {
            self.streamed = bump(self.streamed, 1);
        } else {
            self.buffered = bump(self.buffered, 1);
        }
    }

    /// Count a request as in flight until the guard is released.
    pub fn track_active(&mut self) -> (r: ActiveGuard)
        requires
            old(self).wf(),
        ensures
            final(self).wf(),
            *final(self) == (Metrics { active: capped_sum(old(self).active, 1), ..*old(self) }),
    {
        self.active = bump(self.active, 1);
        ActiveGuard { _held: () }
    }

    /// Cumulative count of all requests recorded so far.
    pub fn total(&self) -> (r: u64)
        ensures
            r == at_most_max(sum_of(self.requests@)),
    {
        let rows = self.requests.rows();
        let ghost all = self.requests@;
        let mut sum: u64 = 0;
        let mut i: usize = 0;
        while i < rows.len()
            invariant
                i <= rows@.len(),
                rows@.len() == all.len(),
                forall|j: int| 0 <= j < rows@.len() ==> #[trigger] table::row_view(rows@[j]) == all[j],
                sum == at_most_max(sum_of(all.take(i as int))),
            decreases rows@.len() - i,
        {
            proof {
                let t = all.take(i as int + 1);
                assert(t.drop_last() =~= all.take(i as int));
                assert(table::row_view(rows@[i as int]) == all[i as int]);
            }
            sum = bump(sum, rows[i].1);
            i += 1;
        }
        assert(all.take(all.len() as int) =~= all);
        sum
    }
}

impl Default for Metrics {
    fn default() -> (r: Self)
        ensures
            r.wf(),
            r.requests@.len() == 0,
            r.latency@.len() == 0,
            r.tokens@.len() == 0,
            r.lanes@.len() == 0,
            r.ttft_ms@.len() == 0,
            r.tok_per_sec@.len() == 0,
            r.queue_wait_ms == no_summary(),
            r.finish@.len() == 0,
            r.extras@.len() == 0,
            r.shape@.len() == 0,
            r.events@.len() == 0,
            r.streamed == 0,
            r.buffered == 0,
            r.active == 0,
    {
        Metrics {
            requests: Table::new(),
            latency: Table::new(),
            tokens: Table::new(),
            lanes: Table::new(),
            ttft_ms: Table::new(),
            tok_per_sec: Table::new(),
            queue_wait_ms: Summary::default(),
            finish: Table::new(),
            extras: Table::new(),
            shape: Table::new(),
            events: Table::new(),
            streamed: 0,
            buffered: 0,
            active: 0,
        }
    }
}

impl ActiveGuard {
    /// The request has ended.
    pub fn release(self, m: &mut Metrics)
        requires
            old(m).wf(),
        ensures
            final(m).wf(),
            *final(m) == (Metrics {
                active: if old(m).active > 0 {
                    (old(m).active - 1) as u64
                } else {
                    0
                },
                ..*old(m)
            }),
    {
        if m.active > 0 {
            m.active -= 1;
        }
    }
}

// --- Exposition --------------------------------------------------------------

/// One sample: the series up to its label, the label, the rest, and the value.
pub open spec fn sample(head: Seq<char>, label: Seq<char>, tail: Seq<char>, n: u64) -> Seq<char> {
    head + label + tail + text::decimal(n as nat) + "\n"@
}

/// The lines of all rows, in order.
pub open spec fn lines<A, V>(rows: Seq<(A, V)>, line: spec_fn((A, V)) -> Seq<char>) -> Seq<char>
    decreases rows.len(),
{
    if rows.len() == 0 {
        Seq::empty()
    } else {
        lines(rows.drop_last(), line) + line(rows.last())
    }
}

pub open spec fn request_line(row: (Series, u64)) -> Seq<char> {
    "llm_rate_limit_proxy_requests_total{client=\""@ + row.0.0 + "\",model=\""@ + row.0.1
        + "\",status=\""@ + row.0.2 + "\"} "@ + text::decimal(row.1 as nat) + "\n"@
}

pub open spec fn token_lines(row: (Seq<char>, (u64, u64))) -> Seq<char> {
    sample(
        "llm_rate_limit_proxy_tokens_total{model=\""@,
        row.0,
        "\",direction=\"prompt\"} "@,
        row.1.0,
    ) + sample(
        "llm_rate_limit_proxy_tokens_total{model=\""@,
        row.0,
        "\",direction=\"completion\"} "@,
        row.1.1,
    )
}

pub open spec fn lane_line(row: (Seq<char>, u64)) -> Seq<char> {
    sample("llm_rate_limit_proxy_lane_requests_total{provider=\""@, row.0, "\"} "@, row.1)
}

/// Summaries are exposed as `_sum`/`_count` pairs, which is what Prometheus
/// expects and what lets a scraper compute rate()-based averages itself.
pub open spec fn summary_lines(name: Seq<char>, row: (Seq<char>, Summary)) -> Seq<char> {
    sample(name + "_sum{model=\""@, row.0, "\"} "@, row.1.sum) + sample(
        name + "_count{model=\""@,
        row.0,
        "\"} "@,
        row.1.count,
    ) + sample(name + "_max{model=\""@, row.0, "\"} "@, row.1.max)
}

pub open spec fn summary_section(
    name: Seq<char>,
    help: Seq<char>,
    rows: Seq<(Seq<char>, Summary)>,
) -> Seq<char> {
    "# HELP "@ + name + " "@ + help + "\n# TYPE "@ + name + " summary\n"@ + lines(
        rows,
        |r: (Seq<char>, Summary)| summary_lines(name, r),
    )
}

pub open spec fn finish_line(row: ((Seq<char>, Seq<char>), u64)) -> Seq<char> {
    "llm_rate_limit_proxy_finish_reason_total{model=\""@ + row.0.0 + "\",reason=\""@ + row.0.1
        + "\"} "@ + text::decimal(row.1 as nat) + "\n"@
}

pub open spec fn extras_lines(row: (Seq<char>, (u64, u64))) -> Seq<char> {
    sample(
        "llm_rate_limit_proxy_model_extras_total{model=\""@,
        row.0,
        "\",kind=\"tool_calls\"} "@,
        row.1.0,
    ) + sample(
        "llm_rate_limit_proxy_model_extras_total{model=\""@,
        row.0,
        "\",kind=\"reasoning_tokens\"} "@,
        row.1.1,
    )
}

pub open spec fn dimension_lines(client: Seq<char>, dim: Seq<char>, s: Summary) -> Seq<char> {
    sample(
        "llm_rate_limit_proxy_request_shape_sum{client=\""@,
        client,
        "\",dim=\""@ + dim + "\"} "@,
        s.sum,
    ) + sample(
        "llm_rate_limit_proxy_request_shape_count{client=\""@,
        client,
        "\",dim=\""@ + dim + "\"} "@,
        s.count,
    )
}

#[verifier::opaque]
pub open spec fn shape_lines(row: (Seq<char>, Shape)) -> Seq<char> {
    dimension_lines(row.0, "messages"@, row.1.messages) + dimension_lines(
        row.0,
        "tools"@,
        row.1.tools,
    ) + dimension_lines(row.0, "max_tokens"@, row.1.max_tokens) + dimension_lines(
        row.0,
        "temperature_x100"@,
        row.1.temperature_x100,
    )
}

pub open spec fn event_line(row: (Seq<char>, u64)) -> Seq<char> {
    sample("llm_rate_limit_proxy_events_total{kind=\""@, row.0, "\"} "@, row.1)
}

pub open spec fn requests_section(rows: Seq<(Series, u64)>) -> Seq<char> {
    "# HELP llm_rate_limit_proxy_requests_total Requests by client/model/status.\n# TYPE llm_rate_limit_proxy_requests_total counter\n"@
        + lines(rows, |r: (Series, u64)| request_line(r))
}

pub open spec fn tokens_section(rows: Seq<(Seq<char>, (u64, u64))>) -> Seq<char> {
    "# HELP llm_rate_limit_proxy_tokens_total Tokens by model and direction.\n# TYPE llm_rate_limit_proxy_tokens_total counter\n"@
        + lines(rows, |r: (Seq<char>, (u64, u64))| token_lines(r))
}

pub open spec fn lanes_section(rows: Seq<(Seq<char>, u64)>) -> Seq<char> {
    "# HELP llm_rate_limit_proxy_lane_requests_total Requests served per provider lane.\n# TYPE llm_rate_limit_proxy_lane_requests_total counter\n"@
        + lines(rows, |r: (Seq<char>, u64)| lane_line(r))
}

pub open spec fn queue_section(q: Summary) -> Seq<char> {
    "# HELP llm_rate_limit_proxy_queue_wait_ms Time waiting for a rate slot.\n# TYPE llm_rate_limit_proxy_queue_wait_ms summary\n"@
        + sample("llm_rate_limit_proxy_queue_wait_ms"@, "_sum"@, " "@, q.sum) + sample(
        "llm_rate_limit_proxy_queue_wait_ms"@,
        "_count"@,
        " "@,
        q.count,
    ) + sample("llm_rate_limit_proxy_queue_wait_ms"@, "_max"@, " "@, q.max)
}

pub open spec fn finish_section(rows: Seq<((Seq<char>, Seq<char>), u64)>) -> Seq<char> {
    "# HELP llm_rate_limit_proxy_finish_reason_total How generations ended; 'length' is truncation.\n# TYPE llm_rate_limit_proxy_finish_reason_total counter\n"@
        + lines(rows, |r: ((Seq<char>, Seq<char>), u64)| finish_line(r))
}

pub open spec fn extras_section(rows: Seq<(Seq<char>, (u64, u64))>) -> Seq<char> {
    "# HELP llm_rate_limit_proxy_model_extras_total Tool calls emitted and reasoning tokens burned.\n# TYPE llm_rate_limit_proxy_model_extras_total counter\n"@
        + lines(rows, |r: (Seq<char>, (u64, u64))| extras_lines(r))
}

pub open spec fn shape_section(rows: Seq<(Seq<char>, Shape)>) -> Seq<char> {
    "# HELP llm_rate_limit_proxy_request_shape What harnesses ask for: depth, tools, output cap, temperature x100.\n# TYPE llm_rate_limit_proxy_request_shape summary\n"@
        + lines(rows, |r: (Seq<char>, Shape)| shape_lines(r))
}

pub open spec fn events_section(rows: Seq<(Seq<char>, u64)>) -> Seq<char> {
    "# HELP llm_rate_limit_proxy_events_total Retries, benched lanes, sheds, refusals, deadlines.\n# TYPE llm_rate_limit_proxy_events_total counter\n"@
        + lines(rows, |r: (Seq<char>, u64)| event_line(r))
}

pub open spec fn gauges_section(streamed: u64, buffered: u64, active: u64) -> Seq<char> {
    "# HELP llm_rate_limit_proxy_stream_requests_total Streaming vs buffered.\n# TYPE llm_rate_limit_proxy_stream_requests_total counter\n"@
        + sample(
        "llm_rate_limit_proxy_stream_requests_total{stream=\""@,
        "true"@,
        "\"} "@,
        streamed,
    ) + sample(
        "llm_rate_limit_proxy_stream_requests_total{stream=\""@,
        "false"@,
        "\"} "@,
        buffered,
    )
        + "# HELP llm_rate_limit_proxy_active_requests Requests in flight right now.\n# TYPE llm_rate_limit_proxy_active_requests gauge\n"@
        + sample("llm_rate_limit_proxy_active_requests"@, ""@, " "@, active)
}

/// The whole exposition.
pub open spec fn exposition(m: Metrics) -> Seq<char> {
    requests_section(m.requests@) + tokens_section(m.tokens@) + lanes_section(m.lanes@)
        + summary_section(
        "llm_rate_limit_proxy_ttft_ms"@,
        "Time to first byte from upstream."@,
        m.ttft_ms@,
    ) + summary_section(
        "llm_rate_limit_proxy_tokens_per_second"@,
        "Generation speed."@,
        m.tok_per_sec@,
    ) + queue_section(m.queue_wait_ms) + finish_section(m.finish@) + extras_section(m.extras@)
        + shape_section(m.shape@) + events_section(m.events@) + gauges_section(
        m.streamed,
        m.buffered,
        m.active,
    )
}

fn push_sample(out: &mut String, head: &str, label: &str, tail: &str, n: u64)
    ensures
        final(out)@ == old(out)@ + sample(head@, label@, tail@, n),
{
    out.append(head);
    out.append(label);
    out.append(tail);
    text::push_number(out, n);
    out.append("\n");
    assert(out@ =~= old(out)@ + sample(head@, label@, tail@, n));
}

fn push_dimension(out: &mut String, client: &str, dim: &str, s: Summary)
    ensures
        final(out)@ == old(out)@ + dimension_lines(client@, dim@, s),
{
    let mut tail = text::owned("\",dim=\"");
    tail.append(dim);
    tail.append("\"} ");
    assert(tail@ =~= "\",dim=\""@ + dim@ + "\"} "@);
    push_sample(
        out,
        "llm_rate_limit_proxy_request_shape_sum{client=\"",
        client,
        tail.as_str(),
        s.sum,
    );
    push_sample(
        out,
        "llm_rate_limit_proxy_request_shape_count{client=\"",
        client,
        tail.as_str(),
        s.count,
    );
    assert(out@ =~= old(out)@ + dimension_lines(client@, dim@, s));
}

proof fn lemma_one_line_more<A, V>(
    base: Seq<char>,
    all: Seq<(A, V)>,
    f: spec_fn((A, V)) -> Seq<char>,
    i: int,
)
    requires
        0 <= i < all.len(),
    ensures
        base + lines(all.take(i + 1), f) == base + lines(all.take(i), f) + f(all[i]),
{
    let t = all.take(i + 1);
    assert(t.drop_last() =~= all.take(i));
    assert(base + lines(t, f) =~= base + lines(all.take(i), f) + f(all[i]));
}

/// Write the lines of all rows, each of which `line` makes.
fn push_rows<K: Label, V, W: Fn(&(K, V)) -> String>(
    out: &mut String,
    t: &Table<K, V>,
    line: W,
    Ghost(f): Ghost<spec_fn((K::V, V)) -> Seq<char>>,
)
    requires
        forall|r: (K, V)| call_requires(line, (&r,)),
        forall|r: (K, V), text: String|
            call_ensures(line, (&r,), text) ==> text@ == f(table::row_view(r)),
    ensures
        final(out)@ == old(out)@ + lines(t@, f),
{
    let ghost all = t@;
    let ghost base = out@;
    let rows = t.rows();
    let mut i: usize = 0;
    assert(base + lines(all.take(0), f) =~= base);
    while i < rows.len()
        invariant
            i <= rows@.len(),
            rows@.len() == all.len(),
            forall|j: int| 0 <= j < rows@.len() ==> #[trigger] table::row_view(rows@[j]) == all[j],
            forall|r: (K, V)| call_requires(line, (&r,)),
            forall|r: (K, V), text: String|
                call_ensures(line, (&r,), text) ==> text@ == f(table::row_view(r)),
            out@ == base + lines(all.take(i as int), f),
        decreases rows@.len() - i,
    {
        assert(table::row_view(rows@[i as int]) == all[i as int]);
        let text = line(&rows[i]);
        out.append(text.as_str());
        proof {
            lemma_one_line_more(base, all, f, i as int);
        }
        i += 1;
    }
    assert(all.take(all.len() as int) =~= all);
}

fn push_requests(out: &mut String, t: &Table<(String, String, String), u64>)
    ensures
        final(out)@ == old(out)@ + requests_section(t@),
{
    out.append(
        "# HELP llm_rate_limit_proxy_requests_total Requests by client/model/status.\n# TYPE llm_rate_limit_proxy_requests_total counter\n",
    );
    let line = |r: &((String, String, String), u64)| -> (text: String)
        ensures
            text@ == request_line(table::row_view(*r)),
    {
        let mut text = String::new();
        text.append("llm_rate_limit_proxy_requests_total{client=\"");
        text.append(r.0.0.as_str());
        text.append("\",model=\"");
        text.append(r.0.1.as_str());
        text.append("\",status=\"");
        text.append(r.0.2.as_str());
        text.append("\"} ");
        text::push_number(&mut text, r.1);
        text.append("\n");
        assert(text@ =~= request_line(table::row_view(*r)));
        text
    };
    push_rows(out, t, line, Ghost(|r: (Series, u64)| request_line(r)));
    assert(out@ =~= old(out)@ + requests_section(t@));
}

fn push_tokens(out: &mut String, t: &Table<String, (u64, u64)>)
    ensures
        final(out)@ == old(out)@ + tokens_section(t@),
{
    out.append(
        "# HELP llm_rate_limit_proxy_tokens_total Tokens by model and direction.\n# TYPE llm_rate_limit_proxy_tokens_total counter\n",
    );
    let line = |r: &(String, (u64, u64))| -> (text: String)
        ensures
            text@ == token_lines(table::row_view(*r)),
    {
        let mut text = String::new();
        push_sample(
            &mut text,
            "llm_rate_limit_proxy_tokens_total{model=\"",
            r.0.as_str(),
            "\",direction=\"prompt\"} ",
            r.1.0,
        );
        push_sample(
            &mut text,
            "llm_rate_limit_proxy_tokens_total{model=\"",
            r.0.as_str(),
            "\",direction=\"completion\"} ",
            r.1.1,
        );
        assert(text@ =~= token_lines(table::row_view(*r)));
        text
    };
    push_rows(out, t, line, Ghost(|r: (Seq<char>, (u64, u64))| token_lines(r)));
    assert(out@ =~= old(out)@ + tokens_section(t@));
}

fn push_lanes(out: &mut String, t: &Table<String, u64>)
    ensures
        final(out)@ == old(out)@ + lanes_section(t@),
{
    out.append(
        "# HELP llm_rate_limit_proxy_lane_requests_total Requests served per provider lane.\n# TYPE llm_rate_limit_proxy_lane_requests_total counter\n",
    );
    let line = |r: &(String, u64)| -> (text: String)
        ensures
            text@ == lane_line(table::row_view(*r)),
    {
        let mut text = String::new();
        push_sample(
            &mut text,
            "llm_rate_limit_proxy_lane_requests_total{provider=\"",
            r.0.as_str(),
            "\"} ",
            r.1,
        );
        assert(text@ =~= lane_line(table::row_view(*r)));
        text
    };
    push_rows(out, t, line, Ghost(|r: (Seq<char>, u64)| lane_line(r)));
    assert(out@ =~= old(out)@ + lanes_section(t@));
}

fn push_finish(out: &mut String, t: &Table<(String, String), u64>)
    ensures
        final(out)@ == old(out)@ + finish_section(t@),
{
    out.append(
        "# HELP llm_rate_limit_proxy_finish_reason_total How generations ended; 'length' is truncation.\n# TYPE llm_rate_limit_proxy_finish_reason_total counter\n",
    );
    let line = |r: &((String, String), u64)| -> (text: String)
        ensures
            text@ == finish_line(table::row_view(*r)),
    {
        let mut text = String::new();
        text.append("llm_rate_limit_proxy_finish_reason_total{model=\"");
        text.append(r.0.0.as_str());
        text.append("\",reason=\"");
        text.append(r.0.1.as_str());
        text.append("\"} ");
        text::push_number(&mut text, r.1);
        text.append("\n");
        assert(text@ =~= finish_line(table::row_view(*r)));
        text
    };
    push_rows(out, t, line, Ghost(|r: ((Seq<char>, Seq<char>), u64)| finish_line(r)));
    assert(out@ =~= old(out)@ + finish_section(t@));
}

fn push_extras(out: &mut String, t: &Table<String, (u64, u64)>)
    ensures
        final(out)@ == old(out)@ + extras_section(t@),
{
    out.append(
        "# HELP llm_rate_limit_proxy_model_extras_total Tool calls emitted and reasoning tokens burned.\n# TYPE llm_rate_limit_proxy_model_extras_total counter\n",
    );
    let line = |r: &(String, (u64, u64))| -> (text: String)
        ensures
            text@ == extras_lines(table::row_view(*r)),
    {
        let mut text = String::new();
        push_sample(
            &mut text,
            "llm_rate_limit_proxy_model_extras_total{model=\"",
            r.0.as_str(),
            "\",kind=\"tool_calls\"} ",
            r.1.0,
        );
        push_sample(
            &mut text,
            "llm_rate_limit_proxy_model_extras_total{model=\"",
            r.0.as_str(),
            "\",kind=\"reasoning_tokens\"} ",
            r.1.1,
        );
        assert(text@ =~= extras_lines(table::row_view(*r)));
        text
    };
    push_rows(out, t, line, Ghost(|r: (Seq<char>, (u64, u64))| extras_lines(r)));
    assert(out@ =~= old(out)@ + extras_section(t@));
}

proof fn lemma_four_parts(base: Seq<char>, a: Seq<char>, b: Seq<char>, c: Seq<char>, d: Seq<char>)
    ensures
        base + a + b + c + d == base + (a + b + c + d),
{
    assert(base + a + b + c + d =~= base + (a + b + c + d));
}

fn push_client_shape(out: &mut String, client: &str, s: Shape)
    ensures
        final(out)@ == old(out)@ + shape_lines((client@, s)),
{
    push_dimension(out, client, "messages", s.messages);
    push_dimension(out, client, "tools", s.tools);
    push_dimension(out, client, "max_tokens", s.max_tokens);
    push_dimension(out, client, "temperature_x100", s.temperature_x100);
    proof {
        reveal(shape_lines);
        lemma_four_parts(
            old(out)@,
            dimension_lines(client@, "messages"@, s.messages),
            dimension_lines(client@, "tools"@, s.tools),
            dimension_lines(client@, "max_tokens"@, s.max_tokens),
            dimension_lines(client@, "temperature_x100"@, s.temperature_x100),
        );
    }
}

fn push_shape(out: &mut String, t: &Table<String, Shape>)
    ensures
        final(out)@ == old(out)@ + shape_section(t@),
{
    out.append(
        "# HELP llm_rate_limit_proxy_request_shape What harnesses ask for: depth, tools, output cap, temperature x100.\n# TYPE llm_rate_limit_proxy_request_shape summary\n",
    );
    let line = |r: &(String, Shape)| -> (text: String)
        ensures
            text@ == shape_lines(table::row_view(*r)),
    {
        let mut text = String::new();
        push_client_shape(&mut text, r.0.as_str(), r.1);
        assert(text@ =~= shape_lines(table::row_view(*r)));
        text
    };
    push_rows(out, t, line, Ghost(|r: (Seq<char>, Shape)| shape_lines(r)));
    assert(out@ =~= old(out)@ + shape_section(t@));
}

fn push_events(out: &mut String, t: &Table<String, u64>)
    ensures
        final(out)@ == old(out)@ + events_section(t@),
{
    out.append(
        "# HELP llm_rate_limit_proxy_events_total Retries, benched lanes, sheds, refusals, deadlines.\n# TYPE llm_rate_limit_proxy_events_total counter\n",
    );
    let line = |r: &(String, u64)| -> (text: String)
        ensures
            text@ == event_line(table::row_view(*r)),
    {
        let mut text = String::new();
        push_sample(
            &mut text,
            "llm_rate_limit_proxy_events_total{kind=\"",
            r.0.as_str(),
            "\"} ",
            r.1,
        );
        assert(text@ =~= event_line(table::row_view(*r)));
        text
    };
    push_rows(out, t, line, Ghost(|r: (Seq<char>, u64)| event_line(r)));
    assert(out@ =~= old(out)@ + events_section(t@));
}

fn push_summary(out: &mut String, name: &str, label: &str, s: Summary)
    ensures
        final(out)@ == old(out)@ + summary_lines(name@, (label@, s)),
{
    let mut sum = text::owned(name);
    sum.append("_sum{model=\"");
    let mut count = text::owned(name);
    count.append("_count{model=\"");
    let mut max = text::owned(name);
    max.append("_max{model=\"");
    push_sample(out, sum.as_str(), label, "\"} ", s.sum);
    push_sample(out, count.as_str(), label, "\"} ", s.count);
    push_sample(out, max.as_str(), label, "\"} ", s.max);
    assert(out@ =~= old(out)@ + summary_lines(name@, (label@, s)));
}

fn push_summaries(out: &mut String, name: &str, help: &str, t: &Table<String, Summary>)
    ensures
        final(out)@ == old(out)@ + summary_section(name@, help@, t@),
{
    out.append("# HELP ");
    out.append(name);
    out.append(" ");
    out.append(help);
    out.append("\n# TYPE ");
    out.append(name);
    out.append(" summary\n");
    let line = |r: &(String, Summary)| -> (text: String)
        ensures
            text@ == summary_lines(name@, table::row_view(*r)),
    {
        let mut text = String::new();
        push_summary(&mut text, name, r.0.as_str(), r.1);
        assert(text@ =~= summary_lines(name@, table::row_view(*r)));
        text
    };
    push_rows(out, t, line, Ghost(|r: (Seq<char>, Summary)| summary_lines(name@, r)));
    assert(out@ =~= old(out)@ + summary_section(name@, help@, t@));
}

fn push_queue(out: &mut String, q: Summary)
    ensures
        final(out)@ == old(out)@ + queue_section(q),
{
    out.append(
        "# HELP llm_rate_limit_proxy_queue_wait_ms Time waiting for a rate slot.\n# TYPE llm_rate_limit_proxy_queue_wait_ms summary\n",
    );
    push_sample(out, "llm_rate_limit_proxy_queue_wait_ms", "_sum", " ", q.sum);
    push_sample(out, "llm_rate_limit_proxy_queue_wait_ms", "_count", " ", q.count);
    push_sample(out, "llm_rate_limit_proxy_queue_wait_ms", "_max", " ", q.max);
    assert(out@ =~= old(out)@ + queue_section(q));
}

fn push_gauges(out: &mut String, streamed: u64, buffered: u64, active: u64)
    ensures
        final(out)@ == old(out)@ + gauges_section(streamed, buffered, active),
{
    out.append(
        "# HELP llm_rate_limit_proxy_stream_requests_total Streaming vs buffered.\n# TYPE llm_rate_limit_proxy_stream_requests_total counter\n",
    );
    push_sample(
        out,
        "llm_rate_limit_proxy_stream_requests_total{stream=\"",
        "true",
        "\"} ",
        streamed,
    );
    push_sample(
        out,
        "llm_rate_limit_proxy_stream_requests_total{stream=\"",
        "false",
        "\"} ",
        buffered,
    );
    out.append(
        "# HELP llm_rate_limit_proxy_active_requests Requests in flight right now.\n# TYPE llm_rate_limit_proxy_active_requests gauge\n",
    );
    push_sample(out, "llm_rate_limit_proxy_active_requests", "", " ", active);
    assert(out@ =~= old(out)@ + gauges_section(streamed, buffered, active));
}

impl Metrics {
    /// Prometheus exposition for scrapers.
    pub fn render(&self) -> (out: String)
        ensures
            out@ == exposition(*self),
    {
        let mut out = String::new();
        push_requests(&mut out, &self.requests);
        push_tokens(&mut out, &self.tokens);
        push_lanes(&mut out, &self.lanes);
        push_summaries(
            &mut out,
            "llm_rate_limit_proxy_ttft_ms",
            "Time to first byte from upstream.",
            &self.ttft_ms,
        );
        push_summaries(
            &mut out,
            "llm_rate_limit_proxy_tokens_per_second",
            "Generation speed.",
            &self.tok_per_sec,
        );
        push_queue(&mut out, self.queue_wait_ms);
        push_finish(&mut out, &self.finish);
        push_extras(&mut out, &self.extras);
        push_shape(&mut out, &self.shape);
        push_events(&mut out, &self.events);
        push_gauges(&mut out, self.streamed, self.buffered, self.active);
        assert(out@ =~= exposition(*self));
        out
    }
}

// --- Snapshot ----------------------------------------------------------------

pub struct Stats {
    pub total: u64,
    pub models: Vec<ModelStat>,
    pub clients: Vec<ClientStat>,
    pub statuses: Vec<StatusStat>,
    pub lanes: Vec<LaneStat>,
    pub queue_wait: Summary,
    pub active: u64,
    pub streamed: u64,
    pub buffered: u64,
    pub events: Vec<EventStat>,
    pub shape: Vec<ShapeStat>,
}

pub struct EventStat {
    pub kind: String,
    pub count: u64,
}

pub struct ShapeStat {
    pub client: String,
    pub avg_messages: u64,
    pub avg_tools: u64,
    pub avg_max_tokens: u64,
    pub avg_temperature_x100: u64,
}

pub struct ModelStat {
    pub model: String,
    pub requests: u64,
    pub avg_latency_ms: u64,
    pub prompt_tokens: u64,
    pub completion_tokens: u64,
    pub avg_ttft_ms: u64,
    pub max_ttft_ms: u64,
    pub avg_tokens_per_sec: u64,
    /// Generations that stopped at the output cap rather than finishing.
    pub truncated: u64,
    pub tool_calls: u64,
    pub reasoning_tokens: u64,
}

pub struct ClientStat {
    pub client: String,
    pub requests: u64,
}

pub struct StatusStat {
    pub status: String,
    pub count: u64,
}

pub struct LaneStat {
    pub provider: String,
    pub requests: u64,
}

/// The request counts by one dimension of their series, which `f` picks.
pub open spec fn tally(rows: Seq<(Series, u64)>, f: spec_fn(Series) -> Seq<char>) -> Seq<
    (Seq<char>, u64),
>
    decreases rows.len(),
{
    if rows.len() == 0 {
        Seq::empty()
    } else {
        counted(tally(rows.drop_last(), f), f(rows.last().0), rows.last().1)
    }
}

pub open spec fn by_client() -> spec_fn(Series) -> Seq<char> {
    |s: Series| s.0
}

pub open spec fn by_model() -> spec_fn(Series) -> Seq<char> {
    |s: Series| s.1
}

pub open spec fn by_status() -> spec_fn(Series) -> Seq<char> {
    |s: Series| s.2
}

/// The sum of the counters of the series that `f` puts under `k`.
pub open spec fn sum_under(
    rows: Seq<(Series, u64)>,
    f: spec_fn(Series) -> Seq<char>,
    k: Seq<char>,
) -> nat
    decreases rows.len(),
{
    if rows.len() == 0 {
        0
    } else {
        let rest = sum_under(rows.drop_last(), f, k);
        if f(rows.last().0) == k {
            rest + rows.last().1 as nat
        } else {
            rest
        }
    }
}

/// What a tally says of a label is the sum of the counters of its series.
pub proof fn law_a_tally_adds_up_its_series(
    rows: Seq<(Series, u64)>,
    f: spec_fn(Series) -> Seq<char>,
    k: Seq<char>,
)
    ensures
        table::distinct(tally(rows, f)),
        table::get_or(tally(rows, f), k, 0) == at_most_max(sum_under(rows, f, k)),
    decreases rows.len(),
{
    if rows.len() == 0 {
        table::lemma_at(tally(rows, f), k);
    } else {
        let rest = rows.drop_last();
        let t = tally(rest, f);
        let key = f(rows.last().0);
        law_a_tally_adds_up_its_series(rest, f, k);
        law_a_tally_adds_up_its_series(rest, f, key);
        let v = capped_sum(table::get_or(t, key, 0), rows.last().1);
        table::law_put_then_get(t, key, v);
        assert(table::get(tally(rows, f), key) == Some(v));
        if k != key {
            assert(table::get(tally(rows, f), k) == table::get(t, k));
        }
    }
}

proof fn lemma_sum_put<A>(rows: Seq<(A, u64)>, k: A, v: u64)
    ensures
        sum_of(table::put(rows, k, v)) + table::get_or(rows, k, 0) == sum_of(rows) + v,
    decreases rows.len(),
{
    table::lemma_at(rows, k);
    match table::at(rows, k) {
        None => {
            assert(rows.push((k, v)).drop_last() =~= rows);
        },
        Some(i) => {
            let p = rows.drop_last();
            let after = rows.update(i, (k, v));
            if i == rows.len() - 1 {
                assert(after.drop_last() =~= p);
            } else {
                assert forall|j: int| 0 <= j < i implies (#[trigger] p[j]).0 != k by {
                    assert(rows[j].0 != k);
                }
                table::lemma_is_at(p, k, i);
                lemma_sum_put(p, k, v);
                assert(after.drop_last() =~= p.update(i, (k, v)));
            }
        },
    }
}

/// A tally loses nothing: its counters add up to the number of requests, as long
/// as that number can be counted at all.
pub proof fn law_a_tally_loses_nothing(rows: Seq<(Series, u64)>, f: spec_fn(Series) -> Seq<char>)
    requires
        sum_of(rows) <= u64::MAX,
    ensures
        sum_of(tally(rows, f)) == sum_of(rows),
    decreases rows.len(),
{
    if rows.len() > 0 {
        let rest = rows.drop_last();
        let key = f(rows.last().0);
        law_a_tally_loses_nothing(rest, f);
        lemma_sum_put(
            tally(rest, f),
            key,
            capped_sum(table::get_or(tally(rest, f), key, 0), rows.last().1),
        );
        lemma_part_of_sum(tally(rest, f), key);
    }
}

proof fn lemma_part_of_sum<A>(rows: Seq<(A, u64)>, k: A)
    ensures
        table::get_or(rows, k, 0) <= sum_of(rows),
{
    lemma_sum_put(rows, k, 0);
}

/// The first of the two counters of each row.
pub open spec fn firsts(rows: Seq<(Seq<char>, (u64, u64))>) -> Seq<(Seq<char>, u64)> {
    rows.map_values(|r: (Seq<char>, (u64, u64))| (r.0, r.1.0))
}

/// The second of the two counters of each row.
pub open spec fn seconds(rows: Seq<(Seq<char>, (u64, u64))>) -> Seq<(Seq<char>, u64)> {
    rows.map_values(|r: (Seq<char>, (u64, u64))| (r.0, r.1.1))
}

proof fn lemma_put_splits(rows: Seq<(Seq<char>, (u64, u64))>, k: Seq<char>, v: (u64, u64))
    ensures
        firsts(table::put(rows, k, v)) == table::put(firsts(rows), k, v.0),
        seconds(table::put(rows, k, v)) == table::put(seconds(rows), k, v.1),
        table::get_or(firsts(rows), k, 0) == table::get_or(rows, k, (0, 0)).0,
        table::get_or(seconds(rows), k, 0) == table::get_or(rows, k, (0, 0)).1,
{
    let (a, b) = (firsts(rows), seconds(rows));
    table::lemma_at(rows, k);
    table::lemma_at(a, k);
    table::lemma_at(b, k);
    match table::at(rows, k) {
        Some(i) => {
            assert forall|j: int| 0 <= j < i implies (#[trigger] a[j]).0 != k && b[j].0 != k by {
                assert(rows[j].0 != k);
            }
            table::lemma_is_at(a, k, i);
            table::lemma_is_at(b, k, i);
        },
        None => {
            if table::at(a, k) is Some {
                assert(rows[table::at(a, k)->0].0 != k);
            }
            if table::at(b, k) is Some {
                assert(rows[table::at(b, k)->0].0 != k);
            }
        },
    }
    assert(firsts(table::put(rows, k, v)) =~= table::put(firsts(rows), k, v.0));
    assert(seconds(table::put(rows, k, v)) =~= table::put(seconds(rows), k, v.1));
}

/// Folding keeps the totals: whichever row a model's tokens are counted under, its own
/// or `other`, the rows together grow by what was counted, as long as that can be
/// counted at all.
pub proof fn law_folding_keeps_the_totals(
    rows: Seq<(Seq<char>, (u64, u64))>,
    label: Seq<char>,
    a: u64,
    b: u64,
)
    requires
        sum_of(firsts(rows)) + a <= u64::MAX,
        sum_of(seconds(rows)) + b <= u64::MAX,
    ensures
        sum_of(firsts(counted_both(rows, label, a, b))) == sum_of(firsts(rows)) + a,
        sum_of(seconds(counted_both(rows, label, a, b))) == sum_of(seconds(rows)) + b,
{
    let k = series_key(rows, sanitized(label));
    let was = table::get_or(rows, k, (0, 0));
    let v = (capped_sum(was.0, a), capped_sum(was.1, b));
    lemma_put_splits(rows, k, v);
    lemma_part_of_sum(firsts(rows), k);
    lemma_part_of_sum(seconds(rows), k);
    lemma_sum_put(firsts(rows), k, v.0);
    lemma_sum_put(seconds(rows), k, v.1);
}

/// What is added for a label is added to that label's row and to no other, the first
/// number to the first counter and the second to the second; a label that a full table
/// has no row for is counted under `other`.
pub proof fn law_both_counts_go_to_their_label(
    rows: Seq<(Seq<char>, (u64, u64))>,
    label: Seq<char>,
    k: Seq<char>,
    was: (u64, u64),
    a: u64,
    b: u64,
)
    requires
        if table::get(rows, sanitized(label)) is Some || rows.len() < MAX_SERIES {
            k == sanitized(label)
        } else {
            k == "other"@
        },
        table::get(rows, k) == Some(was) || (table::get(rows, k) is None && was == (0u64, 0u64)),
    ensures
        table::get(counted_both(rows, label, a, b), k) matches Some(v) && (was.0 + a <= u64::MAX
            ==> v.0 == was.0 + a) && (was.1 + b <= u64::MAX ==> v.1 == was.1 + b) && v.0 >= was.0
            && v.1 >= was.1,
        forall|j: Seq<char>|
            j != k ==> #[trigger] table::get(counted_both(rows, label, a, b), j) == table::get(
                rows,
                j,
            ),
{
    let key = series_key(rows, sanitized(label));
    let old_row = table::get_or(rows, key, (0, 0));
    table::law_put_then_get(rows, key, (capped_sum(old_row.0, a), capped_sum(old_row.1, b)));
}

/// A measurement for a label is summed up in that label's row and in no other: it adds
/// to the sum, counts once, and raises the greatest where it is greater.
pub proof fn law_a_measurement_goes_to_its_label(
    rows: Seq<(Seq<char>, Summary)>,
    label: Seq<char>,
    k: Seq<char>,
    was: Summary,
    v: u64,
)
    requires
        if table::get(rows, sanitized(label)) is Some || rows.len() < MAX_SERIES {
            k == sanitized(label)
        } else {
            k == "other"@
        },
        table::get(rows, k) == Some(was) || (table::get(rows, k) is None && was == (Summary {
            sum: 0,
            count: 0,
            max: 0,
        })),
    ensures
        table::get(measured(rows, label, v), k) matches Some(s) && (was.sum + v <= u64::MAX
            ==> s.sum == was.sum + v) && (was.count < u64::MAX ==> s.count == was.count + 1)
            && s.max >= v && s.max >= was.max && (s.max == v || s.max == was.max),
        forall|j: Seq<char>|
            j != k ==> #[trigger] table::get(measured(rows, label, v), j) == table::get(rows, j),
{
    let key = series_key(rows, sanitized(label));
    table::law_put_then_get(rows, key, summary_with(table::get_or(rows, key, no_summary()), v));
}

/// The end of a generation is counted once, under its model and its reason, and nothing
/// else is; a full table takes no new series.
pub proof fn law_an_ending_is_counted_once(
    rows: Seq<((Seq<char>, Seq<char>), u64)>,
    model: Seq<char>,
    reason: Seq<char>,
    was: u64,
)
    requires
        ({
            let row = table::get(rows, (sanitized(model), sanitized(reason)));
            row == Some(was) || (row is None && was == 0)
        }),
        was < u64::MAX,
    ensures
        ({
            let k = (sanitized(model), sanitized(reason));
            let after = finish_counted(rows, model, reason);
            &&& table::get(rows, k) is Some || rows.len() < MAX_SERIES ==> table::get(after, k)
                == Some((was + 1) as u64)
            &&& !(table::get(rows, k) is Some || rows.len() < MAX_SERIES) ==> after == rows
            &&& forall|j: (Seq<char>, Seq<char>)|
                j != k ==> #[trigger] table::get(after, j) == table::get(rows, j)
        }),
{
    let k = (sanitized(model), sanitized(reason));
    table::law_put_then_get(rows, k, capped_sum(table::get_or(rows, k, 0), 1));
}

/// What the snapshot says of the model in `row`, a row of the tally by model.
pub open spec fn describes_model(s: ModelStat, m: Metrics, row: (Seq<char>, u64)) -> bool {
    let latency = table::get_or(m.latency@, row.0, (0, 0));
    let tokens = table::get_or(m.tokens@, row.0, (0, 0));
    let ttft = table::get_or(m.ttft_ms@, row.0, no_summary());
    let per_sec = table::get_or(m.tok_per_sec@, row.0, no_summary());
    let extras = table::get_or(m.extras@, row.0, (0, 0));
    &&& s.model@ == row.0
    &&& s.requests == row.1
    &&& s.avg_latency_ms == average(latency.0, latency.1)
    &&& s.prompt_tokens == tokens.0
    &&& s.completion_tokens == tokens.1
    &&& s.avg_ttft_ms == average(ttft.sum, ttft.count)
    &&& s.max_ttft_ms == ttft.max
    &&& s.avg_tokens_per_sec == average(per_sec.sum, per_sec.count)
    &&& s.truncated == capped_sum(
        table::get_or(m.finish@, (row.0, "length"@), 0),
        table::get_or(m.finish@, (row.0, "max_tokens"@), 0),
    )
    &&& s.tool_calls == extras.0
    &&& s.reasoning_tokens == extras.1
}

pub open spec fn describes_shape(s: ShapeStat, row: (Seq<char>, Shape)) -> bool {
    &&& s.client@ == row.0
    &&& s.avg_messages == average(row.1.messages.sum, row.1.messages.count)
    &&& s.avg_tools == average(row.1.tools.sum, row.1.tools.count)
    &&& s.avg_max_tokens == average(row.1.max_tokens.sum, row.1.max_tokens.count)
    &&& s.avg_temperature_x100 == average(
        row.1.temperature_x100.sum,
        row.1.temperature_x100.count,
    )
}

/// What the snapshot of `m` says.
pub open spec fn snapshot(m: Metrics, s: Stats) -> bool {
    let models = tally(m.requests@, by_model());
    let clients = tally(m.requests@, by_client());
    let statuses = tally(m.requests@, by_status());
    &&& s.total == at_most_max(sum_of(m.requests@))
    &&& s.models@.len() == models.len()
    &&& forall|i: int|
        0 <= i < models.len() ==> describes_model(#[trigger] s.models@[i], m, models[i])
    &&& s.clients@.len() == clients.len()
    &&& forall|i: int|
        0 <= i < clients.len() ==> (#[trigger] s.clients@[i]).client@ == clients[i].0
            && s.clients@[i].requests == clients[i].1
    &&& s.statuses@.len() == statuses.len()
    &&& forall|i: int|
        0 <= i < statuses.len() ==> (#[trigger] s.statuses@[i]).status@ == statuses[i].0
            && s.statuses@[i].count == statuses[i].1
    &&& s.lanes@.len() == m.lanes@.len()
    &&& forall|i: int|
        0 <= i < m.lanes@.len() ==> (#[trigger] s.lanes@[i]).provider@ == m.lanes@[i].0
            && s.lanes@[i].requests == m.lanes@[i].1
    &&& s.queue_wait == m.queue_wait_ms
    &&& s.active == m.active
    &&& s.streamed == m.streamed
    &&& s.buffered == m.buffered
    &&& s.events@.len() == m.events@.len()
    &&& forall|i: int|
        0 <= i < m.events@.len() ==> (#[trigger] s.events@[i]).kind@ == m.events@[i].0
            && s.events@[i].count == m.events@[i].1
    &&& s.shape@.len() == m.shape@.len()
    &&& forall|i: int|
        0 <= i < m.shape@.len() ==> describes_shape(#[trigger] s.shape@[i], m.shape@[i])
}

pub open spec fn model_rows(v: Seq<ModelStat>) -> Seq<(Seq<char>, u64)> {
    v.map_values(|s: ModelStat| (s.model@, s.requests))
}

pub open spec fn client_rows(v: Seq<ClientStat>) -> Seq<(Seq<char>, u64)> {
    v.map_values(|s: ClientStat| (s.client@, s.requests))
}

pub open spec fn status_rows(v: Seq<StatusStat>) -> Seq<(Seq<char>, u64)> {
    v.map_values(|s: StatusStat| (s.status@, s.count))
}

pub open spec fn lane_rows(v: Seq<LaneStat>) -> Seq<(Seq<char>, u64)> {
    v.map_values(|s: LaneStat| (s.provider@, s.requests))
}

pub open spec fn event_rows(v: Seq<EventStat>) -> Seq<(Seq<char>, u64)> {
    v.map_values(|s: EventStat| (s.kind@, s.count))
}

pub open spec fn shape_rows(v: Seq<ShapeStat>) -> Seq<(Seq<char>, u64)> {
    v.map_values(|s: ShapeStat| (s.client@, s.avg_messages))
}

proof fn lemma_tally_names(
    rows: Seq<(Series, u64)>,
    f: spec_fn(Series) -> Seq<char>,
    k: Seq<char>,
)
    ensures
        table::get(tally(rows, f), k) is Some <==> exists|i: int|
            0 <= i < rows.len() && f((#[trigger] rows[i]).0) == k,
    decreases rows.len(),
{
    if rows.len() == 0 {
        table::lemma_at(tally(rows, f), k);
    } else {
        let rest = rows.drop_last();
        let t = tally(rest, f);
        let key = f(rows.last().0);
        lemma_tally_names(rest, f, k);
        table::law_put_then_get(t, key, capped_sum(table::get_or(t, key, 0), rows.last().1));
        if key == k {
            assert(f(rows[rows.len() - 1].0) == k);
        } else {
            assert(table::get(tally(rows, f), k) == table::get(t, k));
            if exists|i: int| 0 <= i < rest.len() && f((#[trigger] rest[i]).0) == k {
                let i = choose|i: int| 0 <= i < rest.len() && f((#[trigger] rest[i]).0) == k;
                assert(f(rows[i].0) == k);
            }
            if exists|i: int| 0 <= i < rows.len() && f((#[trigger] rows[i]).0) == k {
                let i = choose|i: int| 0 <= i < rows.len() && f((#[trigger] rows[i]).0) == k;
                assert(f(rest[i].0) == k);
            }
        }
    }
}

proof fn lemma_no_average_above_the_greatest(m: Metrics, s: Stats)
    requires
        m.wf(),
        snapshot(m, s),
    ensures
        forall|i: int|
            0 <= i < s.models@.len() ==> (#[trigger] s.models@[i]).avg_ttft_ms
                <= s.models@[i].max_ttft_ms,
{
    let models = tally(m.requests@, by_model());
    assert forall|i: int| 0 <= i < s.models@.len() implies (#[trigger] s.models@[i]).avg_ttft_ms
        <= s.models@[i].max_ttft_ms by {
        assert(describes_model(s.models@[i], m, models[i]));
        table::lemma_at(m.ttft_ms@, models[i].0);
        law_the_greatest_is_at_least_the_average(
            table::get_or(m.ttft_ms@, models[i].0, no_summary()),
        );
    }
}

/// A snapshot adds up: by model, by client and by status, the requests come to the
/// total, as long as that can be counted at all. No name stands twice, the models are
/// those of the requests, and no average is above the greatest measurement.
pub proof fn law_a_snapshot_adds_up(m: Metrics, s: Stats)
    requires
        m.wf(),
        snapshot(m, s),
        sum_of(m.requests@) <= u64::MAX,
    ensures
        s.total == sum_of(m.requests@),
        sum_of(model_rows(s.models@)) == s.total,
        sum_of(client_rows(s.clients@)) == s.total,
        sum_of(status_rows(s.statuses@)) == s.total,
        table::distinct(model_rows(s.models@)),
        table::distinct(client_rows(s.clients@)),
        table::distinct(status_rows(s.statuses@)),
        table::distinct(lane_rows(s.lanes@)),
        table::distinct(event_rows(s.events@)),
        table::distinct(shape_rows(s.shape@)),
        forall|k: Seq<char>|
            #[trigger] table::get(model_rows(s.models@), k) is Some <==> exists|i: int|
                0 <= i < m.requests@.len() && (#[trigger] m.requests@[i]).0.1 == k,
        forall|i: int|
            0 <= i < s.models@.len() ==> (#[trigger] s.models@[i]).avg_ttft_ms
                <= s.models@[i].max_ttft_ms,
{
    let rows = m.requests@;
    law_a_tally_loses_nothing(rows, by_model());
    law_a_tally_loses_nothing(rows, by_client());
    law_a_tally_loses_nothing(rows, by_status());
    law_a_tally_adds_up_its_series(rows, by_model(), Seq::empty());
    law_a_tally_adds_up_its_series(rows, by_client(), Seq::empty());
    law_a_tally_adds_up_its_series(rows, by_status(), Seq::empty());
    let models = tally(rows, by_model());
    assert(model_rows(s.models@) =~= models) by {
        assert forall|i: int| 0 <= i < models.len() implies (#[trigger] model_rows(s.models@)[i])
            == models[i] by {
            assert(describes_model(s.models@[i], m, models[i]));
        }
    }
    assert(client_rows(s.clients@) =~= tally(rows, by_client()));
    assert(status_rows(s.statuses@) =~= tally(rows, by_status()));
    assert(lane_rows(s.lanes@) =~= m.lanes@);
    assert(event_rows(s.events@) =~= m.events@);
    let shapes = shape_rows(s.shape@);
    assert forall|i: int, j: int| 0 <= i < j < shapes.len() implies (#[trigger] shapes[i]).0 != (
    #[trigger] shapes[j]).0 by {
        assert(describes_shape(s.shape@[i], m.shape@[i]));
        assert(describes_shape(s.shape@[j], m.shape@[j]));
    }
    assert forall|k: Seq<char>|
        #[trigger] table::get(model_rows(s.models@), k) is Some <==> exists|i: int|
            0 <= i < rows.len() && (#[trigger] rows[i]).0.1 == k by {
        lemma_tally_names(rows, by_model(), k);
        if exists|i: int| 0 <= i < rows.len() && (#[trigger] rows[i]).0.1 == k {
            let i = choose|i: int| 0 <= i < rows.len() && (#[trigger] rows[i]).0.1 == k;
            assert(by_model()(rows[i].0) == k);
        }
    }
    lemma_no_average_above_the_greatest(m, s);
}

/// Which dimension of a series is tallied.
#[derive(Clone, Copy)]
enum Dimension {
    Client,
    Model,
    Status,
}

spec fn picked(d: Dimension) -> spec_fn(Series) -> Seq<char> {
    match d {
        Dimension::Client => by_client(),
        Dimension::Model => by_model(),
        Dimension::Status => by_status(),
    }
}

fn pair_or_zero(t: &Table<String, (u64, u64)>, k: &str) -> (r: (u64, u64))
    ensures
        r == table::get_or(t@, k@, (0, 0)),
{
    match t.get_text(k) {
        Some(v) => *v,
        None => (0, 0),
    }
}

fn summary_or_zero(t: &Table<String, Summary>, k: &str) -> (r: Summary)
    ensures
        r == table::get_or(t@, k@, no_summary()),
{
    match t.get_text(k) {
        Some(v) => *v,
        None => Summary::default(),
    }
}

/// What `make` makes of each row, in order; `rel` says what that has to do with the row.
fn each_row<K: Label, V, S, F: Fn(&(K, V)) -> S>(
    t: &Table<K, V>,
    make: F,
    Ghost(rel): Ghost<spec_fn((K::V, V), S) -> bool>,
) -> (out: Vec<S>)
    requires
        forall|r: (K, V)| call_requires(make, (&r,)),
        forall|r: (K, V), s: S| call_ensures(make, (&r,), s) ==> rel(table::row_view(r), s),
    ensures
        out@.len() == t@.len(),
        forall|i: int| 0 <= i < out@.len() ==> rel(t@[i], #[trigger] out@[i]),
{
    let ghost all = t@;
    let rows = t.rows();
    let mut out: Vec<S> = Vec::new();
    let mut i: usize = 0;
    while i < rows.len()
        invariant
            i <= rows@.len(),
            rows@.len() == all.len(),
            forall|j: int| 0 <= j < rows@.len() ==> #[trigger] table::row_view(rows@[j]) == all[j],
            forall|r: (K, V)| call_requires(make, (&r,)),
            forall|r: (K, V), s: S| call_ensures(make, (&r,), s) ==> rel(table::row_view(r), s),
            out@.len() == i,
            forall|j: int| 0 <= j < i ==> rel(all[j], #[trigger] out@[j]),
        decreases rows@.len() - i,
    {
        assert(table::row_view(rows@[i as int]) == all[i as int]);
        out.push(make(&rows[i]));
        i += 1;
    }
    out
}

fn client_stats(t: &Table<String, u64>) -> (out: Vec<ClientStat>)
    ensures
        out@.len() == t@.len(),
        forall|i: int|
            0 <= i < out@.len() ==> (#[trigger] out@[i]).client@ == t@[i].0 && out@[i].requests
                == t@[i].1,
{
    let make = |r: &(String, u64)| -> (s: ClientStat)
        ensures
            s.client@ == r.0@ && s.requests == r.1,
    {
        ClientStat { client: r.0.clone(), requests: r.1 }
    };
    each_row(
        t,
        make,
        Ghost(|r: (Seq<char>, u64), s: ClientStat| s.client@ == r.0 && s.requests == r.1),
    )
}

fn status_stats(t: &Table<String, u64>) -> (out: Vec<StatusStat>)
    ensures
        out@.len() == t@.len(),
        forall|i: int|
            0 <= i < out@.len() ==> (#[trigger] out@[i]).status@ == t@[i].0 && out@[i].count
                == t@[i].1,
{
    let make = |r: &(String, u64)| -> (s: StatusStat)
        ensures
            s.status@ == r.0@ && s.count == r.1,
    {
        StatusStat { status: r.0.clone(), count: r.1 }
    };
    each_row(
        t,
        make,
        Ghost(|r: (Seq<char>, u64), s: StatusStat| s.status@ == r.0 && s.count == r.1),
    )
}

fn lane_stats(t: &Table<String, u64>) -> (out: Vec<LaneStat>)
    ensures
        out@.len() == t@.len(),
        forall|i: int|
            0 <= i < out@.len() ==> (#[trigger] out@[i]).provider@ == t@[i].0 && out@[i].requests
                == t@[i].1,
{
    let make = |r: &(String, u64)| -> (s: LaneStat)
        ensures
            s.provider@ == r.0@ && s.requests == r.1,
    {
        LaneStat { provider: r.0.clone(), requests: r.1 }
    };
    each_row(
        t,
        make,
        Ghost(|r: (Seq<char>, u64), s: LaneStat| s.provider@ == r.0 && s.requests == r.1),
    )
}

fn event_stats(t: &Table<String, u64>) -> (out: Vec<EventStat>)
    ensures
        out@.len() == t@.len(),
        forall|i: int|
            0 <= i < out@.len() ==> (#[trigger] out@[i]).kind@ == t@[i].0 && out@[i].count
                == t@[i].1,
{
    let make = |r: &(String, u64)| -> (s: EventStat)
        ensures
            s.kind@ == r.0@ && s.count == r.1,
    {
        EventStat { kind: r.0.clone(), count: r.1 }
    };
    each_row(
        t,
        make,
        Ghost(|r: (Seq<char>, u64), s: EventStat| s.kind@ == r.0 && s.count == r.1),
    )
}

impl Metrics {
    fn tally_by(&self, d: Dimension) -> (out: Table<String, u64>)
        ensures
            out@ == tally(self.requests@, picked(d)),
    {
        let rows = self.requests.rows();
        let ghost all = self.requests@;
        let mut out: Table<String, u64> = Table::new();
        let mut i: usize = 0;
        assert(all.take(0) =~= Seq::<(Series, u64)>::empty());
        while i < rows.len()
            invariant
                i <= rows@.len(),
                rows@.len() == all.len(),
                forall|j: int| 0 <= j < rows@.len() ==> #[trigger] table::row_view(rows@[j]) == all[j],
                out.wf(),
                out@ == tally(all.take(i as int), picked(d)),
            decreases rows@.len() - i,
        {
            let row = &rows[i];
            proof {
                assert(table::row_view(*row) == all[i as int]);
                assert(all.take(i as int + 1).drop_last() =~= all.take(i as int));
            }
            let key = match d {
                Dimension::Client => row.0.0.clone(),
                Dimension::Model => row.0.1.clone(),
                Dimension::Status => row.0.2.clone(),
            };
            let e = out.entry(key, 0);
            *e = bump(*e, row.1);
            i += 1;
        }
        assert(all.take(all.len() as int) =~= all);
        out
    }

    /// How many generations of `model` ended for `reason`.
    fn finished(&self, model: &String, reason: &str) -> (r: u64)
        ensures
            r == table::get_or(self.finish@, (model@, reason@), 0),
    {
        match self.finish.get(&(model.clone(), text::owned(reason))) {
            Some(n) => *n,
            None => 0,
        }
    }

    fn model_stat(&self, model: &String, requests: u64) -> (r: ModelStat)
        ensures
            describes_model(r, *self, (model@, requests)),
    {
        let name = model.as_str();
        let latency = pair_or_zero(&self.latency, name);
        let tokens = pair_or_zero(&self.tokens, name);
        let ttft = summary_or_zero(&self.ttft_ms, name);
        let per_sec = summary_or_zero(&self.tok_per_sec, name);
        let extras = pair_or_zero(&self.extras, name);
        // Truncation rate is the actionable one: a model that keeps stopping at
        // the output cap is being cut off, not failing. OpenAI calls it `length`,
        // Anthropic `max_tokens`.
        let truncated: u64 = bump(
            self.finished(model, "length"),
            self.finished(model, "max_tokens"),
        );
        ModelStat {
            model: model.clone(),
            requests,
            avg_latency_ms: divide(latency.0, latency.1),
            prompt_tokens: tokens.0,
            completion_tokens: tokens.1,
            avg_ttft_ms: ttft.avg(),
            max_ttft_ms: ttft.max,
            avg_tokens_per_sec: per_sec.avg(),
            truncated,
            tool_calls: extras.0,
            reasoning_tokens: extras.1,
        }
    }

    fn model_stats(&self) -> (out: Vec<ModelStat>)
        ensures
            out@.len() == tally(self.requests@, by_model()).len(),
            forall|i: int|
                0 <= i < out@.len() ==> describes_model(
                    #[trigger] out@[i],
                    *self,
                    tally(self.requests@, by_model())[i],
                ),
    {
        let per_model = self.tally_by(Dimension::Model);
        let make = |r: &(String, u64)| -> (s: ModelStat)
            ensures
                describes_model(s, *self, table::row_view(*r)),
        { self.model_stat(&r.0, r.1) };
        each_row(
            &per_model,
            make,
            Ghost(|r: (Seq<char>, u64), s: ModelStat| describes_model(s, *self, r)),
        )
    }

    fn shape_stats(&self) -> (out: Vec<ShapeStat>)
        ensures
            out@.len() == self.shape@.len(),
            forall|i: int|
                0 <= i < out@.len() ==> describes_shape(#[trigger] out@[i], self.shape@[i]),
    {
        let make = |r: &(String, Shape)| -> (s: ShapeStat)
            ensures
                describes_shape(s, table::row_view(*r)),
        {
            ShapeStat {
                client: r.0.clone(),
                avg_messages: r.1.messages.avg(),
                avg_tools: r.1.tools.avg(),
                avg_max_tokens: r.1.max_tokens.avg(),
                avg_temperature_x100: r.1.temperature_x100.avg(),
            }
        };
        each_row(
            &self.shape,
            make,
            Ghost(|r: (Seq<char>, Shape), s: ShapeStat| describes_shape(s, r)),
        )
    }

    /// Structured snapshot for the dashboard.
    pub fn stats(&self) -> (r: Stats)
        ensures
            snapshot(*self, r),
            self.wf() ==> forall|i: int|
                0 <= i < r.models@.len() ==> (#[trigger] r.models@[i]).avg_ttft_ms
                    <= r.models@[i].max_ttft_ms,
    {
        let r = Stats {
            total: self.total(),
            models: self.model_stats(),
            clients: client_stats(&self.tally_by(Dimension::Client)),
            statuses: status_stats(&self.tally_by(Dimension::Status)),
            lanes: lane_stats(&self.lanes),
            queue_wait: self.queue_wait_ms,
            active: self.active,
            streamed: self.streamed,
            buffered: self.buffered,
            events: event_stats(&self.events),
            shape: self.shape_stats(),
        };
        proof {
            if self.wf() {
                lemma_no_average_above_the_greatest(*self, r);
            }
        }
        r
    }
}

// --- What the numbers come to ------------------------------------------------

/// An average, taken as often as there were measurements, comes to their sum, but for
/// what is lost by rounding down; over no measurement it is nothing.
pub proof fn law_an_average_comes_to_the_sum(sum: u64, count: u64)
    ensures
        count > 0 ==> average(sum, count) * count <= sum < average(sum, count) * count + count,
        count == 0 ==> average(sum, count) == 0,
{
    if count > 0 {
        let q = sum / count;
        assert(q * count <= sum < q * count + count) by (nonlinear_arith)
            requires
                q == sum / count,
                count > 0,
        ;
    }
}

/// The speed is the tokens over the seconds: in the time that was taken it comes to the
/// tokens, but for what is lost by rounding down.
pub proof fn law_speed_is_tokens_over_time(tokens: u64, gen_ms: u64)
    requires
        gen_ms > 0,
        tokens * 1000 <= u64::MAX,
    ensures
        speed(tokens, gen_ms) * gen_ms <= tokens * 1000 < speed(tokens, gen_ms) * gen_ms + gen_ms,
{
    let n = tokens as int * 1000;
    let q = n / gen_ms as int;
    assert(0 <= q <= n && q * gen_ms <= n < q * gen_ms + gen_ms) by (nonlinear_arith)
        requires
            q == n / gen_ms as int,
            gen_ms > 0,
            n >= 0,
    ;
}

/// Letters, digits and the marks of a model's name stay in a label; quotes, braces,
/// backslashes, spaces and line breaks do not. A text that is a label is kept.
pub proof fn law_a_label_keeps_what_is_safe(s: Seq<char>)
    ensures
        is_label_char('a') && is_label_char('Z') && is_label_char('9') && is_label_char('.')
            && is_label_char('_') && is_label_char('-') && is_label_char('/') && is_label_char(
            ':',
        ),
        !is_label_char('"') && !is_label_char('\\') && !is_label_char('\n') && !is_label_char('{')
            && !is_label_char('}') && !is_label_char(' ') && !is_label_char(','),
        is_label(s) ==> sanitized(s) == s,
        forall|i: int|
            0 <= i < sanitized(s).len() && sanitized(s) != "unknown"@ ==> s.contains(
                #[trigger] sanitized(s)[i],
            ),
{
    lemma_label_chars_kept(s);
}

proof fn lemma_label_chars_kept(s: Seq<char>)
    ensures
        (forall|i: int| 0 <= i < s.len() ==> is_label_char(#[trigger] s[i])) ==> label_chars(s)
            == s,
        forall|i: int|
            0 <= i < label_chars(s).len() ==> s.contains(#[trigger] label_chars(s)[i]),
    decreases s.len(),
{
    if s.len() > 0 {
        let p = s.drop_last();
        lemma_label_chars_kept(p);
        if forall|i: int| 0 <= i < s.len() ==> is_label_char(#[trigger] s[i]) {
            assert forall|i: int| 0 <= i < p.len() implies is_label_char(#[trigger] p[i]) by {
                assert(is_label_char(s[i]));
            }
            assert(is_label_char(s[s.len() - 1]));
            assert(label_chars(s) =~= s);
        }
        assert forall|i: int| 0 <= i < label_chars(s).len() implies s.contains(
            #[trigger] label_chars(s)[i],
        ) by {
            if i < label_chars(p).len() {
                let c = label_chars(p)[i];
                assert(p.contains(c));
                let j = choose|j: int| 0 <= j < p.len() && p[j] == c;
                assert(s[j] == c);
            } else {
                assert(s[s.len() - 1] == label_chars(s)[i]);
            }
        }
    } else {
        assert(label_chars(s) =~= s);
    }
}

/// Counting adds to the counter under its key and to no other.
pub proof fn law_a_count_goes_to_its_key<A>(rows: Seq<(A, u64)>, k: A, was: u64, by: u64)
    requires
        table::get(rows, k) == Some(was) || (table::get(rows, k) is None && was == 0),
        was + by <= u64::MAX,
    ensures
        table::get(counted(rows, k, by), k) == Some((was + by) as u64),
        forall|j: A| j != k ==> #[trigger] table::get(counted(rows, k, by), j) == table::get(rows, j),
{
    table::law_put_then_get(rows, k, capped_sum(table::get_or(rows, k, 0), by));
}

/// A request is counted once, under who asked, for what and how it ended; one that a
/// full table has no series for is counted under `other` in place of its model.
pub proof fn law_a_request_is_counted_once(
    rows: Seq<(Series, u64)>,
    client: Seq<char>,
    model: Seq<char>,
    status: Seq<char>,
    k: Series,
    was: u64,
)
    requires
        ({
            let own = (sanitized(client), sanitized(model), sanitized(status));
            if table::get(rows, own) is Some || rows.len() < MAX_SERIES {
                k == own
            } else {
                k == (sanitized(client), "other"@, sanitized(status))
            }
        }),
        table::get(rows, k) == Some(was) || (table::get(rows, k) is None && was == 0),
        was < u64::MAX,
    ensures
        ({
            let after = counted(rows, request_key(rows, client, model, status), 1);
            &&& table::get(after, k) == Some((was + 1) as u64)
            &&& forall|j: Series| j != k ==> #[trigger] table::get(after, j) == table::get(rows, j)
        }),
{
    law_a_count_goes_to_its_key(rows, k, was, 1);
}

/// An event is counted once, under its kind, and nothing else is.
pub proof fn law_an_event_is_counted_once(rows: Seq<(Seq<char>, u64)>, kind: Seq<char>, was: u64)
    requires
        table::get(rows, sanitized(kind)) == Some(was) || (table::get(rows, sanitized(kind)) is None
            && was == 0 && rows.len() < MAX_SERIES),
        was < u64::MAX,
    ensures
        table::get(event_counted(rows, kind), sanitized(kind)) == Some((was + 1) as u64),
        forall|j: Seq<char>|
            j != sanitized(kind) ==> #[trigger] table::get(event_counted(rows, kind), j)
                == table::get(rows, j),
{
    law_a_count_goes_to_its_key(rows, sanitized(kind), was, 1);
}

/// What a request asks for is summed up under its client, each size in its own summary.
pub proof fn law_each_size_is_summed_up_apart(
    rows: Seq<(Seq<char>, Shape)>,
    client: Seq<char>,
    was: Shape,
    messages: u64,
    tools: u64,
    max_tokens: u64,
    temperature_x100: u64,
)
    requires
        table::get(rows, sanitized(client)) == Some(was),
        was.messages.sum + messages <= u64::MAX,
        was.tools.sum + tools <= u64::MAX,
        was.max_tokens.sum + max_tokens <= u64::MAX,
        was.temperature_x100.sum + temperature_x100 <= u64::MAX,
        was.messages.count < u64::MAX,
    ensures
        ({
            let after = shape_counted(rows, client, messages, tools, max_tokens, temperature_x100);
            &&& table::get(after, sanitized(client)) matches Some(s) && s.messages.sum
                == was.messages.sum + messages && s.tools.sum == was.tools.sum + tools
                && s.max_tokens.sum == was.max_tokens.sum + max_tokens && s.temperature_x100.sum
                == was.temperature_x100.sum + temperature_x100 && s.messages.count
                == was.messages.count + 1
            &&& forall|j: Seq<char>|
                j != sanitized(client) ==> #[trigger] table::get(after, j) == table::get(rows, j)
        }),
{
    table::law_put_then_get(
        rows,
        sanitized(client),
        Shape {
            messages: summary_with(was.messages, messages),
            tools: summary_with(was.tools, tools),
            max_tokens: summary_with(was.max_tokens, max_tokens),
            temperature_x100: summary_with(was.temperature_x100, temperature_x100),
        },
    );
}

/// The snapshot of a model reads what was recorded for it: tokens read and written, tool
/// calls and reasoning, the averages and the greatest of its times and speeds, and how
/// many of its answers were cut off.
pub proof fn law_a_snapshot_reads_what_was_recorded(
    m: Metrics,
    s: Stats,
    i: int,
    tokens: (u64, u64),
    extras: (u64, u64),
    latency: (u64, u64),
    ttft: Summary,
    rate: Summary,
    cut: u64,
    capped: u64,
)
    requires
        snapshot(m, s),
        0 <= i < s.models@.len(),
        table::get(m.tokens@, s.models@[i].model@) == Some(tokens),
        table::get(m.extras@, s.models@[i].model@) == Some(extras),
        table::get(m.latency@, s.models@[i].model@) == Some(latency),
        table::get(m.ttft_ms@, s.models@[i].model@) == Some(ttft),
        table::get(m.tok_per_sec@, s.models@[i].model@) == Some(rate),
        latency.1 > 0,
        ttft.count > 0,
        rate.count > 0,
        table::get(m.finish@, (s.models@[i].model@, "length"@)) == Some(cut),
        table::get(m.finish@, (s.models@[i].model@, "max_tokens"@)) == Some(capped),
        cut + capped <= u64::MAX,
    ensures
        s.models@[i].prompt_tokens == tokens.0,
        s.models@[i].completion_tokens == tokens.1,
        s.models@[i].tool_calls == extras.0,
        s.models@[i].reasoning_tokens == extras.1,
        s.models@[i].avg_latency_ms == latency.0 / latency.1,
        s.models@[i].avg_ttft_ms == ttft.sum / ttft.count,
        s.models@[i].max_ttft_ms == ttft.max,
        s.models@[i].avg_tokens_per_sec == rate.sum / rate.count,
        s.models@[i].truncated == cut + capped,
{
    let models = tally(m.requests@, by_model());
    assert(describes_model(s.models@[i], m, models[i]));
}

/// The snapshot of a client reads the averages of what it asked for.
pub proof fn law_a_snapshot_reads_the_shapes(m: Metrics, s: Stats, i: int)
    requires
        snapshot(m, s),
        0 <= i < m.shape@.len(),
        m.shape@[i].1.messages.count > 0,
        m.shape@[i].1.tools.count > 0,
        m.shape@[i].1.max_tokens.count > 0,
        m.shape@[i].1.temperature_x100.count > 0,
    ensures
        ({
            let shape = m.shape@[i].1;
            let row = s.shape@[i];
            &&& row.client@ == m.shape@[i].0
            &&& row.avg_messages == shape.messages.sum / shape.messages.count
            &&& row.avg_tools == shape.tools.sum / shape.tools.count
            &&& row.avg_max_tokens == shape.max_tokens.sum / shape.max_tokens.count
            &&& row.avg_temperature_x100 == shape.temperature_x100.sum
                / shape.temperature_x100.count
        }),
{
    assert(describes_shape(s.shape@[i], m.shape@[i]));
}

proof fn lemma_lines_hold<A, V>(
    rows: Seq<(A, V)>,
    line: spec_fn((A, V)) -> Seq<char>,
    i: int,
    part: Seq<char>,
)
    requires
        0 <= i < rows.len(),
        text::holds(line(rows[i]), part),
    ensures
        text::holds(lines(rows, line), part),
    decreases rows.len(),
{
    let none = Seq::<char>::empty();
    let rest = rows.drop_last();
    if i == rows.len() - 1 {
        text::lemma_holds_within(lines(rest, line), line(rows[i]), none, part);
        assert(lines(rows, line) =~= lines(rest, line) + line(rows[i]) + none);
    } else {
        lemma_lines_hold(rest, line, i, part);
        text::lemma_holds_within(none, lines(rest, line), line(rows.last()), part);
        assert(lines(rows, line) =~= none + lines(rest, line) + line(rows.last()));
    }
}

/// The section on the time to first token.
spec fn ttft_section(m: Metrics) -> Seq<char> {
    summary_section(
        "llm_rate_limit_proxy_ttft_ms"@,
        "Time to first byte from upstream."@,
        m.ttft_ms@,
    )
}

/// The section on the speed of generation.
spec fn speed_section(m: Metrics) -> Seq<char> {
    summary_section(
        "llm_rate_limit_proxy_tokens_per_second"@,
        "Generation speed."@,
        m.tok_per_sec@,
    )
}

/// What the section `n` of the exposition holds, the exposition holds.
proof fn lemma_exposition_holds(m: Metrics, n: int, part: Seq<char>)
    requires
        ({
            ||| n == 0 && text::holds(requests_section(m.requests@), part)
            ||| n == 1 && text::holds(tokens_section(m.tokens@), part)
            ||| n == 2 && text::holds(lanes_section(m.lanes@), part)
            ||| n == 3 && text::holds(ttft_section(m), part)
            ||| n == 4 && text::holds(speed_section(m), part)
            ||| n == 5 && text::holds(queue_section(m.queue_wait_ms), part)
            ||| n == 6 && text::holds(finish_section(m.finish@), part)
            ||| n == 7 && text::holds(extras_section(m.extras@), part)
            ||| n == 8 && text::holds(shape_section(m.shape@), part)
            ||| n == 9 && text::holds(events_section(m.events@), part)
            ||| n == 10 && text::holds(gauges_section(m.streamed, m.buffered, m.active), part)
        }),
    ensures
        text::holds(exposition(m), part),
{
    let a = requests_section(m.requests@);
    let b = tokens_section(m.tokens@);
    let c = lanes_section(m.lanes@);
    let d = ttft_section(m);
    let e = speed_section(m);
    let q = queue_section(m.queue_wait_ms);
    let f = finish_section(m.finish@);
    let x = extras_section(m.extras@);
    let h = shape_section(m.shape@);
    let v = events_section(m.events@);
    let g = gauges_section(m.streamed, m.buffered, m.active);
    if n == 1 {
        lemma_held_behind(a, b, part);
    } else if n == 2 {
        lemma_held_behind(a + b, c, part);
    } else if n == 3 {
        lemma_held_behind(a + b + c, d, part);
    } else if n == 4 {
        lemma_held_behind(a + b + c + d, e, part);
    } else if n == 5 {
        lemma_held_behind(a + b + c + d + e, q, part);
    } else if n == 6 {
        lemma_held_behind(a + b + c + d + e + q, f, part);
    } else if n == 7 {
        lemma_held_behind(a + b + c + d + e + q + f, x, part);
    } else if n == 8 {
        lemma_held_behind(a + b + c + d + e + q + f + x, h, part);
    } else if n == 9 {
        lemma_held_behind(a + b + c + d + e + q + f + x + h, v, part);
    } else if n == 10 {
        lemma_held_behind(a + b + c + d + e + q + f + x + h + v, g, part);
    }
    if n < 1 {
        lemma_held_before(a, b, part);
    }
    if n < 2 {
        lemma_held_before(a + b, c, part);
    }
    if n < 3 {
        lemma_held_before(a + b + c, d, part);
    }
    if n < 4 {
        lemma_held_before(a + b + c + d, e, part);
    }
    if n < 5 {
        lemma_held_before(a + b + c + d + e, q, part);
    }
    if n < 6 {
        lemma_held_before(a + b + c + d + e + q, f, part);
    }
    if n < 7 {
        lemma_held_before(a + b + c + d + e + q + f, x, part);
    }
    if n < 8 {
        lemma_held_before(a + b + c + d + e + q + f + x, h, part);
    }
    if n < 9 {
        lemma_held_before(a + b + c + d + e + q + f + x + h, v, part);
    }
    if n < 10 {
        lemma_held_before(a + b + c + d + e + q + f + x + h + v, g, part);
    }
}

proof fn lemma_held_before(s: Seq<char>, more: Seq<char>, part: Seq<char>)
    requires
        text::holds(s, part),
    ensures
        text::holds(s + more, part),
{
    let none = Seq::<char>::empty();
    text::lemma_holds_within(none, s, more, part);
    assert(s + more =~= none + s + more);
}

proof fn lemma_held_behind(before: Seq<char>, s: Seq<char>, part: Seq<char>)
    requires
        text::holds(s, part),
    ensures
        text::holds(before + s, part),
{
    let none = Seq::<char>::empty();
    text::lemma_holds_within(before, s, none, part);
    assert(before + s =~= before + s + none);
}

/// Every series of requests stands in the exposition, with who, what, how and how often.
pub proof fn law_every_series_is_exposed(m: Metrics, i: int)
    requires
        0 <= i < m.requests@.len(),
    ensures
        text::holds(
            exposition(m),
            "llm_rate_limit_proxy_requests_total{client=\""@ + m.requests@[i].0.0 + "\",model=\""@
                + m.requests@[i].0.1 + "\",status=\""@ + m.requests@[i].0.2 + "\"} "@
                + text::decimal(m.requests@[i].1 as nat) + "\n"@,
        ),
{
    let row = m.requests@[i];
    let line = |r: (Series, u64)| request_line(r);
    let part = request_line(row);
    text::lemma_holds_itself(part);
    lemma_lines_hold(m.requests@, line, i, part);
    let head = "# HELP llm_rate_limit_proxy_requests_total Requests by client/model/status.\n# TYPE llm_rate_limit_proxy_requests_total counter\n"@;
    let none = Seq::<char>::empty();
    text::lemma_holds_within(head, lines(m.requests@, line), none, part);
    assert(requests_section(m.requests@) =~= head + lines(m.requests@, line) + none);
    lemma_exposition_holds(m, 0, part);
}

/// The tokens of every model stand in the exposition, those read as prompt and those
/// written as completion.
pub proof fn law_every_models_tokens_are_exposed(m: Metrics, i: int)
    requires
        0 <= i < m.tokens@.len(),
    ensures
        text::holds(
            exposition(m),
            "llm_rate_limit_proxy_tokens_total{model=\""@ + m.tokens@[i].0
                + "\",direction=\"prompt\"} "@ + text::decimal(m.tokens@[i].1.0 as nat) + "\n"@,
        ),
        text::holds(
            exposition(m),
            "llm_rate_limit_proxy_tokens_total{model=\""@ + m.tokens@[i].0
                + "\",direction=\"completion\"} "@ + text::decimal(m.tokens@[i].1.1 as nat)
                + "\n"@,
        ),
{
    let row = m.tokens@[i];
    let line = |r: (Seq<char>, (u64, u64))| token_lines(r);
    let none = Seq::<char>::empty();
    let one = sample(
        "llm_rate_limit_proxy_tokens_total{model=\""@,
        row.0,
        "\",direction=\"prompt\"} "@,
        row.1.0,
    );
    let two = sample(
        "llm_rate_limit_proxy_tokens_total{model=\""@,
        row.0,
        "\",direction=\"completion\"} "@,
        row.1.1,
    );
    text::lemma_holds_itself(one);
    text::lemma_holds_itself(two);
    text::lemma_holds_within(none, one, two, one);
    text::lemma_holds_within(one, two, none, two);
    assert(line(row) =~= none + one + two);
    assert(line(row) =~= one + two + none);
    lemma_lines_hold(m.tokens@, line, i, one);
    lemma_lines_hold(m.tokens@, line, i, two);
    let head = "# HELP llm_rate_limit_proxy_tokens_total Tokens by model and direction.\n# TYPE llm_rate_limit_proxy_tokens_total counter\n"@;
    text::lemma_holds_within(head, lines(m.tokens@, line), none, one);
    text::lemma_holds_within(head, lines(m.tokens@, line), none, two);
    assert(tokens_section(m.tokens@) =~= head + lines(m.tokens@, line) + none);
    lemma_exposition_holds(m, 1, one);
    lemma_exposition_holds(m, 1, two);
}

/// The requests of every provider, and every event, stand in the exposition with how
/// often they came.
pub proof fn law_lanes_and_events_are_exposed(m: Metrics, i: int, j: int)
    requires
        0 <= i < m.lanes@.len(),
        0 <= j < m.events@.len(),
    ensures
        text::holds(
            exposition(m),
            "llm_rate_limit_proxy_lane_requests_total{provider=\""@ + m.lanes@[i].0 + "\"} "@
                + text::decimal(m.lanes@[i].1 as nat) + "\n"@,
        ),
        text::holds(
            exposition(m),
            "llm_rate_limit_proxy_events_total{kind=\""@ + m.events@[j].0 + "\"} "@
                + text::decimal(m.events@[j].1 as nat) + "\n"@,
        ),
{
    let none = Seq::<char>::empty();
    let line = |r: (Seq<char>, u64)| lane_line(r);
    let part = lane_line(m.lanes@[i]);
    text::lemma_holds_itself(part);
    lemma_lines_hold(m.lanes@, line, i, part);
    let head = "# HELP llm_rate_limit_proxy_lane_requests_total Requests served per provider lane.\n# TYPE llm_rate_limit_proxy_lane_requests_total counter\n"@;
    text::lemma_holds_within(head, lines(m.lanes@, line), none, part);
    assert(lanes_section(m.lanes@) =~= head + lines(m.lanes@, line) + none);
    lemma_exposition_holds(m, 2, part);
    let event = |r: (Seq<char>, u64)| event_line(r);
    let other = event_line(m.events@[j]);
    text::lemma_holds_itself(other);
    lemma_lines_hold(m.events@, event, j, other);
    let top = "# HELP llm_rate_limit_proxy_events_total Retries, benched lanes, sheds, refusals, deadlines.\n# TYPE llm_rate_limit_proxy_events_total counter\n"@;
    text::lemma_holds_within(top, lines(m.events@, event), none, other);
    assert(events_section(m.events@) =~= top + lines(m.events@, event) + none);
    lemma_exposition_holds(m, 9, other);
}

/// How the generations of every model ended, and its tool calls and reasoning, stand in
/// the exposition.
pub proof fn law_endings_and_extras_are_exposed(m: Metrics, i: int, j: int)
    requires
        0 <= i < m.finish@.len(),
        0 <= j < m.extras@.len(),
    ensures
        text::holds(
            exposition(m),
            "llm_rate_limit_proxy_finish_reason_total{model=\""@ + m.finish@[i].0.0
                + "\",reason=\""@ + m.finish@[i].0.1 + "\"} "@ + text::decimal(
                m.finish@[i].1 as nat,
            ) + "\n"@,
        ),
        text::holds(
            exposition(m),
            "llm_rate_limit_proxy_model_extras_total{model=\""@ + m.extras@[j].0
                + "\",kind=\"tool_calls\"} "@ + text::decimal(m.extras@[j].1.0 as nat) + "\n"@,
        ),
        text::holds(
            exposition(m),
            "llm_rate_limit_proxy_model_extras_total{model=\""@ + m.extras@[j].0
                + "\",kind=\"reasoning_tokens\"} "@ + text::decimal(m.extras@[j].1.1 as nat)
                + "\n"@,
        ),
{
    let none = Seq::<char>::empty();
    let line = |r: ((Seq<char>, Seq<char>), u64)| finish_line(r);
    let part = finish_line(m.finish@[i]);
    text::lemma_holds_itself(part);
    lemma_lines_hold(m.finish@, line, i, part);
    let head = "# HELP llm_rate_limit_proxy_finish_reason_total How generations ended; 'length' is truncation.\n# TYPE llm_rate_limit_proxy_finish_reason_total counter\n"@;
    text::lemma_holds_within(head, lines(m.finish@, line), none, part);
    assert(finish_section(m.finish@) =~= head + lines(m.finish@, line) + none);
    lemma_exposition_holds(m, 6, part);
    let row = m.extras@[j];
    let both = |r: (Seq<char>, (u64, u64))| extras_lines(r);
    let one = sample(
        "llm_rate_limit_proxy_model_extras_total{model=\""@,
        row.0,
        "\",kind=\"tool_calls\"} "@,
        row.1.0,
    );
    let two = sample(
        "llm_rate_limit_proxy_model_extras_total{model=\""@,
        row.0,
        "\",kind=\"reasoning_tokens\"} "@,
        row.1.1,
    );
    text::lemma_holds_itself(one);
    text::lemma_holds_itself(two);
    text::lemma_holds_within(none, one, two, one);
    text::lemma_holds_within(one, two, none, two);
    assert(both(row) =~= none + one + two);
    assert(both(row) =~= one + two + none);
    lemma_lines_hold(m.extras@, both, j, one);
    lemma_lines_hold(m.extras@, both, j, two);
    let top = "# HELP llm_rate_limit_proxy_model_extras_total Tool calls emitted and reasoning tokens burned.\n# TYPE llm_rate_limit_proxy_model_extras_total counter\n"@;
    text::lemma_holds_within(top, lines(m.extras@, both), none, one);
    text::lemma_holds_within(top, lines(m.extras@, both), none, two);
    assert(extras_section(m.extras@) =~= top + lines(m.extras@, both) + none);
    lemma_exposition_holds(m, 7, one);
    lemma_exposition_holds(m, 7, two);
}

/// The summaries of every model stand in the exposition: the sum, the count and the
/// greatest of its times to first token, and of its speeds.
pub proof fn law_every_models_times_are_exposed(m: Metrics, i: int, j: int)
    requires
        0 <= i < m.ttft_ms@.len(),
        0 <= j < m.tok_per_sec@.len(),
    ensures
        summary_is_exposed(m, "llm_rate_limit_proxy_ttft_ms"@, m.ttft_ms@[i]),
        summary_is_exposed(m, "llm_rate_limit_proxy_tokens_per_second"@, m.tok_per_sec@[j]),
{
    let t = "llm_rate_limit_proxy_ttft_ms"@;
    let u = "llm_rate_limit_proxy_tokens_per_second"@;
    lemma_summary_held(t, "Time to first byte from upstream."@, m.ttft_ms@, i);
    lemma_summary_held(u, "Generation speed."@, m.tok_per_sec@, j);
    let a = m.ttft_ms@[i];
    let b = m.tok_per_sec@[j];
    lemma_exposition_holds(m, 3, sample(t + "_sum{model=\""@, a.0, "\"} "@, a.1.sum));
    lemma_exposition_holds(m, 3, sample(t + "_count{model=\""@, a.0, "\"} "@, a.1.count));
    lemma_exposition_holds(m, 3, sample(t + "_max{model=\""@, a.0, "\"} "@, a.1.max));
    lemma_exposition_holds(m, 4, sample(u + "_sum{model=\""@, b.0, "\"} "@, b.1.sum));
    lemma_exposition_holds(m, 4, sample(u + "_count{model=\""@, b.0, "\"} "@, b.1.count));
    lemma_exposition_holds(m, 4, sample(u + "_max{model=\""@, b.0, "\"} "@, b.1.max));
}

/// A summary of the series `name` stands in the exposition with its model.
pub open spec fn summary_is_exposed(m: Metrics, name: Seq<char>, row: (Seq<char>, Summary)) -> bool {
    &&& text::holds(
        exposition(m),
        name + "_sum{model=\""@ + row.0 + "\"} "@ + text::decimal(row.1.sum as nat) + "\n"@,
    )
    &&& text::holds(
        exposition(m),
        name + "_count{model=\""@ + row.0 + "\"} "@ + text::decimal(row.1.count as nat) + "\n"@,
    )
    &&& text::holds(
        exposition(m),
        name + "_max{model=\""@ + row.0 + "\"} "@ + text::decimal(row.1.max as nat) + "\n"@,
    )
}

proof fn lemma_summary_held(
    name: Seq<char>,
    help: Seq<char>,
    rows: Seq<(Seq<char>, Summary)>,
    i: int,
)
    requires
        0 <= i < rows.len(),
    ensures
        ({
            let all = summary_section(name, help, rows);
            let r = rows[i];
            &&& text::holds(all, sample(name + "_sum{model=\""@, r.0, "\"} "@, r.1.sum))
            &&& text::holds(all, sample(name + "_count{model=\""@, r.0, "\"} "@, r.1.count))
            &&& text::holds(all, sample(name + "_max{model=\""@, r.0, "\"} "@, r.1.max))
        }),
{
    let r = rows[i];
    let line = |r: (Seq<char>, Summary)| summary_lines(name, r);
    let one = sample(name + "_sum{model=\""@, r.0, "\"} "@, r.1.sum);
    let two = sample(name + "_count{model=\""@, r.0, "\"} "@, r.1.count);
    let three = sample(name + "_max{model=\""@, r.0, "\"} "@, r.1.max);
    text::lemma_holds_itself(one);
    text::lemma_holds_itself(two);
    text::lemma_holds_itself(three);
    lemma_held_before(one, two, one);
    lemma_held_before(one + two, three, one);
    lemma_held_behind(one, two, two);
    lemma_held_before(one + two, three, two);
    lemma_held_behind(one + two, three, three);
    assert(line(r) == one + two + three);
    lemma_lines_hold(rows, line, i, one);
    lemma_lines_hold(rows, line, i, two);
    lemma_lines_hold(rows, line, i, three);
    let head = "# HELP "@ + name + " "@ + help + "\n# TYPE "@ + name + " summary\n"@;
    lemma_held_behind(head, lines(rows, line), one);
    lemma_held_behind(head, lines(rows, line), two);
    lemma_held_behind(head, lines(rows, line), three);
}

/// How long requests waited for a slot, how many were streamed and how many not, and how
/// many are in flight, stand in the exposition.
pub proof fn law_the_gauges_are_exposed(m: Metrics)
    ensures
        text::holds(
            exposition(m),
            "llm_rate_limit_proxy_queue_wait_ms"@ + "_sum"@ + " "@ + text::decimal(
                m.queue_wait_ms.sum as nat,
            ) + "\n"@,
        ),
        text::holds(
            exposition(m),
            "llm_rate_limit_proxy_queue_wait_ms"@ + "_count"@ + " "@ + text::decimal(
                m.queue_wait_ms.count as nat,
            ) + "\n"@,
        ),
        text::holds(
            exposition(m),
            "llm_rate_limit_proxy_queue_wait_ms"@ + "_max"@ + " "@ + text::decimal(
                m.queue_wait_ms.max as nat,
            ) + "\n"@,
        ),
        text::holds(
            exposition(m),
            "llm_rate_limit_proxy_stream_requests_total{stream=\""@ + "true"@ + "\"} "@
                + text::decimal(m.streamed as nat) + "\n"@,
        ),
        text::holds(
            exposition(m),
            "llm_rate_limit_proxy_stream_requests_total{stream=\""@ + "false"@ + "\"} "@
                + text::decimal(m.buffered as nat) + "\n"@,
        ),
        text::holds(
            exposition(m),
            "llm_rate_limit_proxy_active_requests"@ + ""@ + " "@ + text::decimal(m.active as nat)
                + "\n"@,
        ),
{
    let w = "llm_rate_limit_proxy_queue_wait_ms"@;
    let q = m.queue_wait_ms;
    let top = "# HELP llm_rate_limit_proxy_queue_wait_ms Time waiting for a rate slot.\n# TYPE llm_rate_limit_proxy_queue_wait_ms summary\n"@;
    let one = sample(w, "_sum"@, " "@, q.sum);
    let two = sample(w, "_count"@, " "@, q.count);
    let three = sample(w, "_max"@, " "@, q.max);
    text::lemma_holds_itself(one);
    text::lemma_holds_itself(two);
    text::lemma_holds_itself(three);
    lemma_held_behind(top, one, one);
    lemma_held_before(top + one, two, one);
    lemma_held_before(top + one + two, three, one);
    lemma_held_behind(top + one, two, two);
    lemma_held_before(top + one + two, three, two);
    lemma_held_behind(top + one + two, three, three);
    lemma_exposition_holds(m, 5, one);
    lemma_exposition_holds(m, 5, two);
    lemma_exposition_holds(m, 5, three);
    let head = "# HELP llm_rate_limit_proxy_stream_requests_total Streaming vs buffered.\n# TYPE llm_rate_limit_proxy_stream_requests_total counter\n"@;
    let mid = "# HELP llm_rate_limit_proxy_active_requests Requests in flight right now.\n# TYPE llm_rate_limit_proxy_active_requests gauge\n"@;
    let s = "llm_rate_limit_proxy_stream_requests_total{stream=\""@;
    let yes = sample(s, "true"@, "\"} "@, m.streamed);
    let no = sample(s, "false"@, "\"} "@, m.buffered);
    let now = sample("llm_rate_limit_proxy_active_requests"@, ""@, " "@, m.active);
    text::lemma_holds_itself(yes);
    text::lemma_holds_itself(no);
    text::lemma_holds_itself(now);
    lemma_held_behind(head, yes, yes);
    lemma_held_before(head + yes, no, yes);
    lemma_held_before(head + yes + no, mid, yes);
    lemma_held_before(head + yes + no + mid, now, yes);
    lemma_held_behind(head + yes, no, no);
    lemma_held_before(head + yes + no, mid, no);
    lemma_held_before(head + yes + no + mid, now, no);
    lemma_held_behind(head + yes + no + mid, now, now);
    lemma_exposition_holds(m, 10, yes);
    lemma_exposition_holds(m, 10, no);
    lemma_exposition_holds(m, 10, now);
}

/// A size that a client asked for stands in the exposition under its name, by its sum and
/// its count.
pub open spec fn size_is_exposed(m: Metrics, client: Seq<char>, dim: Seq<char>, s: Summary) -> bool {
    &&& text::holds(
        exposition(m),
        "llm_rate_limit_proxy_request_shape_sum{client=\""@ + client + ("\",dim=\""@ + dim
            + "\"} "@) + text::decimal(s.sum as nat) + "\n"@,
    )
    &&& text::holds(
        exposition(m),
        "llm_rate_limit_proxy_request_shape_count{client=\""@ + client + ("\",dim=\""@ + dim
            + "\"} "@) + text::decimal(s.count as nat) + "\n"@,
    )
}

/// What every client asked for stands in the exposition, each size under its own name.
pub proof fn law_every_clients_sizes_are_exposed(m: Metrics, i: int)
    requires
        0 <= i < m.shape@.len(),
    ensures
        size_is_exposed(m, m.shape@[i].0, "messages"@, m.shape@[i].1.messages),
        size_is_exposed(m, m.shape@[i].0, "tools"@, m.shape@[i].1.tools),
        size_is_exposed(m, m.shape@[i].0, "max_tokens"@, m.shape@[i].1.max_tokens),
        size_is_exposed(m, m.shape@[i].0, "temperature_x100"@, m.shape@[i].1.temperature_x100),
{
    reveal(shape_lines);
    let row = m.shape@[i];
    let a = dimension_lines(row.0, "messages"@, row.1.messages);
    let b = dimension_lines(row.0, "tools"@, row.1.tools);
    let c = dimension_lines(row.0, "max_tokens"@, row.1.max_tokens);
    let d = dimension_lines(row.0, "temperature_x100"@, row.1.temperature_x100);
    text::lemma_holds_itself(a);
    text::lemma_holds_itself(b);
    text::lemma_holds_itself(c);
    text::lemma_holds_itself(d);
    lemma_held_before(a, b, a);
    lemma_held_before(a + b, c, a);
    lemma_held_before(a + b + c, d, a);
    lemma_held_behind(a, b, b);
    lemma_held_before(a + b, c, b);
    lemma_held_before(a + b + c, d, b);
    lemma_held_behind(a + b, c, c);
    lemma_held_before(a + b + c, d, c);
    lemma_held_behind(a + b + c, d, d);
    lemma_size_held(m, i, "messages"@, row.1.messages);
    lemma_size_held(m, i, "tools"@, row.1.tools);
    lemma_size_held(m, i, "max_tokens"@, row.1.max_tokens);
    lemma_size_held(m, i, "temperature_x100"@, row.1.temperature_x100);
}

proof fn lemma_size_held(m: Metrics, i: int, dim: Seq<char>, s: Summary)
    requires
        0 <= i < m.shape@.len(),
        text::holds(shape_lines(m.shape@[i]), dimension_lines(m.shape@[i].0, dim, s)),
    ensures
        size_is_exposed(m, m.shape@[i].0, dim, s),
{
    let row = m.shape@[i];
    let both = dimension_lines(row.0, dim, s);
    let one = sample(
        "llm_rate_limit_proxy_request_shape_sum{client=\""@,
        row.0,
        "\",dim=\""@ + dim + "\"} "@,
        s.sum,
    );
    let two = sample(
        "llm_rate_limit_proxy_request_shape_count{client=\""@,
        row.0,
        "\",dim=\""@ + dim + "\"} "@,
        s.count,
    );
    text::lemma_holds_itself(one);
    text::lemma_holds_itself(two);
    lemma_held_before(one, two, one);
    lemma_held_behind(one, two, two);
    assert(both == one + two);
    lemma_shapes_held(m, i, both);
    text::lemma_holds_through(exposition(m), both, one);
    text::lemma_holds_through(exposition(m), both, two);
}

proof fn lemma_shapes_held(m: Metrics, i: int, both: Seq<char>)
    requires
        0 <= i < m.shape@.len(),
        text::holds(shape_lines(m.shape@[i]), both),
    ensures
        text::holds(exposition(m), both),
{
    let line = |r: (Seq<char>, Shape)| shape_lines(r);
    lemma_lines_hold(m.shape@, line, i, both);
    let head = "# HELP llm_rate_limit_proxy_request_shape What harnesses ask for: depth, tools, output cap, temperature x100.\n# TYPE llm_rate_limit_proxy_request_shape summary\n"@;
    lemma_held_behind(head, lines(m.shape@, line), both);
    lemma_exposition_holds(m, 8, both);
}

/// The snapshot tallies requests by who asked, for what and how it ended: each name that
/// stands in a request is there, and its count is that of the requests with that name.
pub proof fn law_requests_are_tallied_by_their_names(m: Metrics, s: Stats, i: int, j: int, k: int)
    requires
        snapshot(m, s),
        0 <= i < s.clients@.len(),
        0 <= j < s.statuses@.len(),
        0 <= k < s.models@.len(),
    ensures
        s.clients@[i].requests == at_most_max(
            sum_under(m.requests@, |x: Series| x.0, s.clients@[i].client@),
        ),
        s.statuses@[j].count == at_most_max(
            sum_under(m.requests@, |x: Series| x.2, s.statuses@[j].status@),
        ),
        s.models@[k].requests == at_most_max(
            sum_under(m.requests@, |x: Series| x.1, s.models@[k].model@),
        ),
        forall|r: int|
            0 <= r < m.requests@.len() ==> table::get(
                client_rows(s.clients@),
                (#[trigger] m.requests@[r]).0.0,
            ) is Some && table::get(status_rows(s.statuses@), m.requests@[r].0.2) is Some,
{
    let rows = m.requests@;
    let clients = tally(rows, by_client());
    let statuses = tally(rows, by_status());
    let models = tally(rows, by_model());
    assert(describes_model(s.models@[k], m, models[k]));
    law_a_tally_adds_up_its_series(rows, by_client(), clients[i].0);
    law_a_tally_adds_up_its_series(rows, by_status(), statuses[j].0);
    law_a_tally_adds_up_its_series(rows, by_model(), models[k].0);
    table::lemma_at_row(clients, i);
    table::lemma_at_row(statuses, j);
    table::lemma_at_row(models, k);
    lemma_same_sum(rows, by_client(), |x: Series| x.0, clients[i].0);
    lemma_same_sum(rows, by_status(), |x: Series| x.2, statuses[j].0);
    lemma_same_sum(rows, by_model(), |x: Series| x.1, models[k].0);
    assert(client_rows(s.clients@) =~= clients);
    assert(status_rows(s.statuses@) =~= statuses);
    assert forall|r: int| 0 <= r < rows.len() implies table::get(
        client_rows(s.clients@),
        (#[trigger] rows[r]).0.0,
    ) is Some && table::get(status_rows(s.statuses@), rows[r].0.2) is Some by {
        lemma_tally_names(rows, by_client(), rows[r].0.0);
        lemma_tally_names(rows, by_status(), rows[r].0.2);
        assert(by_client()(rows[r].0) == rows[r].0.0);
        assert(by_status()(rows[r].0) == rows[r].0.2);
    }
}

proof fn lemma_same_sum(
    rows: Seq<(Series, u64)>,
    f: spec_fn(Series) -> Seq<char>,
    g: spec_fn(Series) -> Seq<char>,
    k: Seq<char>,
)
    requires
        forall|x: Series| #[trigger] f(x) == g(x),
    ensures
        sum_under(rows, f, k) == sum_under(rows, g, k),
    decreases rows.len(),
{
    if rows.len() > 0 {
        lemma_same_sum(rows.drop_last(), f, g, k);
        assert(f(rows.last().0) == g(rows.last().0));
    }
}

} // verus!
