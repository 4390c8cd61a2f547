//! What is measured on answers passing through: token usage, speed, stop reasons
//! and tool calls, in either protocol, buffered or streamed. Content-blind
//! throughout: counts, reasons and durations, never a byte of the message.

use vstd::prelude::*;

use crate::auth;
use crate::crypto;
use crate::json;
use crate::json::{Json, JsonView};
use crate::metrics;
use crate::metrics::{Metrics, Summary};
use crate::models::ContextLimits;
use crate::proxy;
use crate::reply;
use crate::reply::{Reply, ReplyView};
use crate::table;
use crate::text;

verus! {

// --- The model ---------------------------------------------------------------

/// The tables of the registry that an answer is measured into.
#[verifier::ext_equal]
pub struct Measures {
    pub tokens: Seq<(Seq<char>, (u64, u64))>,
    pub speeds: Seq<(Seq<char>, Summary)>,
    pub extras: Seq<(Seq<char>, (u64, u64))>,
    pub finish: Seq<((Seq<char>, Seq<char>), u64)>,
}

pub open spec fn measures(m: Metrics) -> Measures {
    Measures {
        tokens: m.tokens@,
        speeds: m.tok_per_sec@,
        extras: m.extras@,
        finish: m.finish@,
    }
}

/// The usage an answer reports. Anthropic splits its accounting over two frames, of
/// which the first nests usage under `message`.
pub open spec fn usage_in(v: JsonView) -> Option<JsonView> {
    match json::field(v, "usage"@) {
        Some(u) => Some(u),
        None => json::nested(v, "message"@, "usage"@),
    }
}

/// Tokens read and written. OpenAI names these prompt/completion; Anthropic names
/// them input/output: whichever is present is read.
pub open spec fn token_counts(u: JsonView) -> (u64, u64) {
    let prompt = proxy::uint_or_zero(json::field(u, "prompt_tokens"@));
    let completion = proxy::uint_or_zero(json::field(u, "completion_tokens"@));
    if prompt == 0 && completion == 0 {
        (
            proxy::uint_or_zero(json::field(u, "input_tokens"@)),
            proxy::uint_or_zero(json::field(u, "output_tokens"@)),
        )
    } else {
        (prompt, completion)
    }
}

pub open spec fn reasoning_in(u: JsonView) -> u64 {
    proxy::uint_or_zero(json::nested(u, "completion_tokens_details"@, "reasoning_tokens"@))
}

/// The extras after `calls` tool calls and `reasoning` tokens, where there were any.
pub open spec fn extras_noted(
    rows: Seq<(Seq<char>, (u64, u64))>,
    model: Seq<char>,
    calls: u64,
    reasoning: u64,
) -> Seq<(Seq<char>, (u64, u64))> {
    if calls == 0 && reasoning == 0 {
        rows
    } else {
        metrics::counted_both(rows, model, calls, reasoning)
    }
}

/// What usage adds. A frame that reports no output tokens says nothing about speed;
/// recording it would average a real rate against a zero.
pub open spec fn usage_noted(t: Measures, model: Seq<char>, gen_ms: u64, u: JsonView) -> Measures {
    let (p, c) = token_counts(u);
    Measures {
        tokens: if p > 0 || c > 0 {
            metrics::counted_both(t.tokens, model, p, c)
        } else {
            t.tokens
        },
        speeds: if c > 0 && gen_ms > 0 {
            metrics::measured(t.speeds, model, metrics::speed(c, gen_ms))
        } else {
            t.speeds
        },
        extras: extras_noted(t.extras, model, 0, reasoning_in(u)),
        finish: t.finish,
    }
}

/// How an Anthropic generation ended: stated at the top level when buffered, and
/// inside `delta` when streamed.
pub open spec fn stop_reason(v: JsonView) -> Option<Seq<char>> {
    json::str_of(
        match json::field(v, "stop_reason"@) {
            Some(r) => Some(r),
            None => json::nested(v, "delta"@, "stop_reason"@),
        },
    )
}

/// How many of the blocks are tool calls.
pub open spec fn tool_blocks(blocks: Seq<JsonView>) -> nat
    decreases blocks.len(),
{
    if blocks.len() == 0 {
        0
    } else {
        let rest = tool_blocks(blocks.drop_last());
        if json::str_of(json::field(blocks.last(), "type"@)) == Some("tool_use"@) {
            rest + 1
        } else {
            rest
        }
    }
}

pub open spec fn finish_noted(
    rows: Seq<((Seq<char>, Seq<char>), u64)>,
    model: Seq<char>,
    reason: Option<Seq<char>>,
) -> Seq<((Seq<char>, Seq<char>), u64)> {
    match reason {
        Some(r) => metrics::finish_counted(rows, model, r),
        None => rows,
    }
}

/// The tool calls of one choice.
pub open spec fn choice_calls(ch: JsonView) -> nat {
    match json::items_of(json::nested(ch, "message"@, "tool_calls"@)) {
        Some(calls) => calls.len(),
        None => 0,
    }
}

/// What one choice adds.
pub open spec fn choice_noted(t: Measures, model: Seq<char>, ch: JsonView) -> Measures {
    Measures {
        finish: finish_noted(t.finish, model, json::str_of(json::field(ch, "finish_reason"@))),
        extras: extras_noted(t.extras, model, choice_calls(ch) as u64, 0),
        ..t
    }
}

pub open spec fn choices_noted(t: Measures, model: Seq<char>, choices: Seq<JsonView>) -> Measures
    decreases choices.len(),
{
    if choices.len() == 0 {
        t
    } else {
        choice_noted(choices_noted(t, model, choices.drop_last()), model, choices.last())
    }
}

/// Everything an answer reports about itself.
pub open spec fn harvested(t: Measures, model: Seq<char>, gen_ms: u64, v: JsonView) -> Measures {
    let t1 = match usage_in(v) {
        Some(u) => usage_noted(t, model, gen_ms, u),
        None => t,
    };
    let t2 = Measures { finish: finish_noted(t1.finish, model, stop_reason(v)), ..t1 };
    let t3 = match json::items_of(json::field(v, "content"@)) {
        Some(blocks) => Measures {
            extras: extras_noted(t2.extras, model, tool_blocks(blocks) as u64, 0),
            ..t2
        },
        None => t2,
    };
    match json::items_of(json::field(v, "choices"@)) {
        Some(choices) => choices_noted(t3, model, choices),
        None => t3,
    }
}

/// Only the measured tables differ.
pub open spec fn measured_only(before: Metrics, after: Metrics) -> bool {
    after == (Metrics {
        tokens: after.tokens,
        tok_per_sec: after.tok_per_sec,
        extras: after.extras,
        finish: after.finish,
        ..before
    })
}

// --- Measuring ---------------------------------------------------------------

fn uint_at(v: &Json, k: &str) -> (r: u64)
    ensures
        r == proxy::uint_or_zero(json::field(v@, k@)),
{
    match v.u64_at(k) {
        Some(n) => n,
        None => 0,
    }
}

fn note_usage(metrics: &mut Metrics, model: &str, gen_ms: u64, u: &Json)
    requires
        old(metrics).wf(),
    ensures
        final(metrics).wf(),
        measured_only(*old(metrics), *final(metrics)),
        measures(*final(metrics)) == usage_noted(measures(*old(metrics)), model@, gen_ms, u@),
{
    let prompt: u64 = uint_at(u, "prompt_tokens");
    let completion: u64 = uint_at(u, "completion_tokens");
    let (p, c): (u64, u64) = if prompt == 0 && completion == 0 {
        (uint_at(u, "input_tokens"), uint_at(u, "output_tokens"))
    } else {
        (prompt, completion)
    };
    if p > 0 || c > 0 {
        metrics.record_tokens(model, p, c);
    }
    if c > 0 {
        metrics.record_speed(model, c, gen_ms);
    }
    let reasoning: u64 = match u.get("completion_tokens_details") {
        Some(d) => uint_at(d, "reasoning_tokens"),
        None => 0,
    };
    metrics.record_extras(model, 0, reasoning);
    assert(measures(*metrics) =~= usage_noted(measures(*old(metrics)), model@, gen_ms, u@));
}

fn note_finish(metrics: &mut Metrics, model: &str, reason: Option<&str>)
    requires
        old(metrics).wf(),
    ensures
        final(metrics).wf(),
        *final(metrics) == (Metrics { finish: final(metrics).finish, ..*old(metrics) }),
        final(metrics).finish@ == finish_noted(
            old(metrics).finish@,
            model@,
            auth::opt_view(reason),
        ),
{
    match reason {
        Some(r) => metrics.record_finish(model, r),
        None => {},
    }
}

fn count_tools(blocks: &Vec<Json>) -> (r: u64)
    ensures
        r == tool_blocks(json::views(blocks@)),
{
    let ghost all = json::views(blocks@);
    let mut calls: u64 = 0;
    let mut i: usize = 0;
    while i < blocks.len()
        invariant
            i <= blocks.len(),
            all == json::views(blocks@),
            calls == tool_blocks(all.take(i as int)),
            calls <= i,
        decreases blocks@.len() - i,
    {
        proof {
            assert(all.take(i as int + 1).drop_last() =~= all.take(i as int));
            assert(all[i as int] == blocks@[i as int]@);
        }
        match blocks[i].str_at("type") {
            Some(t) => {
                if text::same_text(t, "tool_use") {
                    calls += 1;
                }
            },
            None => {},
        }
        i += 1;
    }
    assert(all.take(all.len() as int) =~= all);
    calls
}

fn note_choice(metrics: &mut Metrics, model: &str, ch: &Json)
    requires
        old(metrics).wf(),
    ensures
        final(metrics).wf(),
        measured_only(*old(metrics), *final(metrics)),
        measures(*final(metrics)) == choice_noted(measures(*old(metrics)), model@, ch@),
{
    note_finish(metrics, model, ch.str_at("finish_reason"));
    let calls: u64 = match ch.get("message") {
        Some(m) => match m.array_at("tool_calls") {
            Some(calls) => calls.len() as u64,
            None => 0,
        },
        None => 0,
    };
    metrics.record_extras(model, calls, 0);
    assert(measures(*metrics) =~= choice_noted(measures(*old(metrics)), model@, ch@));
}

/// Pull every measurement a response carries about itself, in either protocol.
///
/// The stop reason matters more than it looks — `length`/`max_tokens` means the
/// answer was cut off at the output cap, which reads as a stupid model until you
/// can see it was truncated.
///
/// Called once per buffered response, and once per `data:` frame of a stream.
pub fn harvest(metrics: &mut Metrics, model: &str, gen_ms: u64, v: &Json)
    requires
        old(metrics).wf(),
    ensures
        final(metrics).wf(),
        measured_only(*old(metrics), *final(metrics)),
        measures(*final(metrics)) == harvested(measures(*old(metrics)), model@, gen_ms, v@),
{
    let ghost t0 = measures(*metrics);
    let usage = match v.get("usage") {
        Some(u) => Some(u),
        None => match v.get("message") {
            Some(m) => m.get("usage"),
            None => None,
        },
    };
    match usage {
        Some(u) => note_usage(metrics, model, gen_ms, u),
        None => {},
    }
    let ghost t1 = measures(*metrics);
    let reason = match v.get("stop_reason") {
        Some(r) => r.as_str(),
        None => match v.get("delta") {
            Some(d) => d.str_at("stop_reason"),
            None => None,
        },
    };
    assert(auth::opt_view(reason) == stop_reason(v@));
    note_finish(metrics, model, reason);
    let ghost t2 = measures(*metrics);
    assert(t2 =~= (Measures { finish: finish_noted(t1.finish, model@, stop_reason(v@)), ..t1 }));
    match v.array_at("content") {
        Some(blocks) => {
            metrics.record_extras(model, count_tools(blocks), 0);
            assert(measures(*metrics) =~= (Measures {
                extras: extras_noted(
                    t2.extras,
                    model@,
                    tool_blocks(json::views(blocks@)) as u64,
                    0,
                ),
                ..t2
            }));
        },
        None => {},
    }
    let ghost t3 = measures(*metrics);
    match v.array_at("choices") {
        Some(choices) => {
            let ghost all = json::views(choices@);
            let mut i: usize = 0;
            while i < choices.len()
                invariant
                    i <= choices@.len(),
                    all == json::views(choices@),
                    metrics.wf(),
                    measured_only(*old(metrics), *metrics),
                    measures(*metrics) == choices_noted(t3, model@, all.take(i as int)),
                decreases choices@.len() - i,
            {
                proof {
                    assert(all.take(i as int + 1).drop_last() =~= all.take(i as int));
                    assert(all[i as int] == choices@[i as int]@);
                }
                note_choice(metrics, model, &choices[i]);
                i += 1;
            }
            assert(all.take(all.len() as int) =~= all);
        },
        None => {},
    }
}

// --- Buffered answers --------------------------------------------------------

/// Did upstream answer with a completion containing nothing?
pub open spec fn empty_completion(v: JsonView) -> bool {
    json::str_of(json::field(v, "object"@)) == Some("chat.completion"@) && (json::items_of(
        json::field(v, "choices"@),
    ) matches Some(c) && c.len() == 0)
}

/// Did upstream answer `200 OK` with a completion containing nothing?
///
/// NVIDIA does exactly this when a request's input plus its `max_tokens` exceeds
/// the model's window: no choices, null usage, and no error of any kind. Only
/// overflowing on input *alone* produces an honest 400. Relaying the empty one
/// unchanged hands the client a success carrying no answer, which surfaces in an
/// agent harness as an internal error pointing nowhere near the real cause.
///
/// Streaming chunks legitimately carry an empty `choices` array, so this matches
/// on the buffered `chat.completion` object only.
pub fn is_empty_completion(v: &Json) -> (r: bool)
    ensures
        r == empty_completion(v@),
{
    let completion = match v.str_at("object") {
        Some(o) => text::same_text(o, "chat.completion"),
        None => false,
    };
    completion && match v.array_at("choices") {
        Some(c) => c.len() == 0,
        None => false,
    }
}

/// The context window that a refusal states, where its body is text that states
/// one.
pub open spec fn window_in(payload: Seq<u8>) -> Option<nat> {
    if vstd::utf8::valid_utf8(payload) {
        proxy::stated_limit(vstd::utf8::decode_utf8(payload))
    } else {
        None
    }
}

/// The windows known after an answer: a refusal for being too long is the only
/// place the real window is ever stated.
pub open spec fn limits_after(
    rows: Seq<(Seq<char>, u64)>,
    model: Seq<char>,
    status: u16,
    payload: Seq<u8>,
) -> Seq<(Seq<char>, u64)> {
    if !proxy::success(status) && window_in(payload) is Some {
        table::put(rows, model, window_in(payload)->0 as u64)
    } else {
        rows
    }
}

/// Is the answer, read as `doc`, a success without an answer in it?
pub open spec fn hollow(status: u16, doc: Option<JsonView>) -> bool {
    proxy::success(status) && doc is Some && empty_completion(doc->0)
}

/// What is relayed of an answer.
pub open spec fn relayed(
    status: u16,
    content_type: Option<Seq<char>>,
    payload: Seq<u8>,
    doc: Option<JsonView>,
) -> ReplyView {
    if hollow(status, doc) {
        reply::error_view(
            400,
            "empty_completion"@,
            "upstream returned a completion with no choices, which it does when input plus max_tokens exceeds the model's context window \u{2014} reduce either and retry"@,
        )
    } else {
        ReplyView {
            status,
            headers: match content_type {
                Some(ct) => seq![("content-type"@, ct)],
                None => Seq::empty(),
            },
            body: payload,
        }
    }
}

/// What is measured of an answer.
pub open spec fn measured_from(
    t: Measures,
    model: Seq<char>,
    gen_ms: u64,
    status: u16,
    doc: Option<JsonView>,
) -> Measures {
    if doc is Some && !hollow(status, doc) {
        harvested(t, model, gen_ms, doc->0)
    } else {
        t
    }
}

/// Relay an answer that was read as `doc`: measure it, and answer the client.
pub fn relay_read(
    metrics: &mut Metrics,
    model: &str,
    gen_ms: u64,
    status: u16,
    content_type: Option<&str>,
    payload: Vec<u8>,
    doc: Option<Json>,
) -> (r: Reply)
    requires
        old(metrics).wf(),
    ensures
        final(metrics).wf(),
        measured_only(*old(metrics), *final(metrics)),
        ({
            let d = match doc {
                Some(v) => Some(v@),
                None => None,
            };
            &&& measures(*final(metrics)) == measured_from(
                measures(*old(metrics)),
                model@,
                gen_ms,
                status,
                d,
            )
            &&& r@ == relayed(status, auth::opt_view(content_type), payload@, d)
        }),
{
    match &doc {
        Some(v) => {
            if 200 <= status && status < 300 && is_empty_completion(v) {
                return reply::error(
                    400,
                    "empty_completion",
                    "upstream returned a completion with no choices, which it does when input plus max_tokens exceeds the model's context window \u{2014} reduce either and retry",
                );
            }
            harvest(metrics, model, gen_ms, v);
        },
        None => {},
    }
    let mut headers: Vec<(String, String)> = Vec::new();
    match content_type {
        Some(ct) => {
            headers.push((text::owned("content-type"), text::owned(ct)));
            assert(reply::header_views(headers@) =~= seq![("content-type"@, ct@)]);
        },
        None => {
            assert(reply::header_views(headers@) =~= Seq::<(Seq<char>, Seq<char>)>::empty());
        },
    }
    Reply { status, headers, body: payload }
}

/// Relay a buffered upstream response back to the client, recording token usage
/// (content-blind — only the counts from the `usage` object, never the text), and
/// learning a context window in passing so the catalog can publish it afterwards.
pub fn relay(
    metrics: &mut Metrics,
    limits: &mut ContextLimits,
    model: &str,
    gen_ms: u64,
    status: u16,
    content_type: Option<&str>,
    payload: Vec<u8>,
) -> (r: Reply)
    requires
        old(metrics).wf(),
        old(limits).wf(),
    ensures
        final(metrics).wf(),
        final(limits).wf(),
        final(limits).rows() == limits_after(old(limits).rows(), model@, status, payload@),
        measured_only(*old(metrics), *final(metrics)),
        measures(*final(metrics)) == measured_from(
            measures(*old(metrics)),
            model@,
            gen_ms,
            status,
            json::read(payload@),
        ),
        r@ == relayed(status, auth::opt_view(content_type), payload@, json::read(payload@)),
{
    if status < 200 || status >= 300 {
        match crypto::utf8_text(payload.as_slice()) {
            Some(body) => match proxy::parse_context_limit(body) {
                Some(n) => limits.learn(model, n),
                None => {},
            },
            None => {},
        }
    }
    let doc = json::parse(payload.as_slice());
    relay_read(metrics, model, gen_ms, status, content_type, payload, doc)
}

// --- Streamed answers --------------------------------------------------------

/// How long the text kept of a stream may grow, in bytes, before it is cut back.
pub const TAIL_MAX: usize = 8192;

/// How many bytes are left when it is cut back.
pub const TAIL_KEPT: usize = 4096;

/// The bytes that a character takes in UTF-8.
pub open spec fn width(c: char) -> nat {
    if (c as int) < 0x80 {
        1
    } else if (c as int) < 0x800 {
        2
    } else if (c as int) < 0x1_0000 {
        3
    } else {
        4
    }
}

/// The bytes that a text takes in UTF-8.
pub open spec fn weight(s: Seq<char>) -> nat
    decreases s.len(),
{
    if s.len() == 0 {
        0
    } else {
        width(s[0]) + weight(s.drop_first())
    }
}

/// The longest end of `s` that takes at most `max` bytes.
pub open spec fn end_within(s: Seq<char>, max: nat) -> Seq<char>
    decreases s.len(),
{
    if weight(s) <= max || s.len() == 0 {
        s
    } else {
        end_within(s.drop_first(), max)
    }
}

/// The text kept of a stream once `more` came in: only a trailing window, since
/// usage rides in the last frames and buffering a whole generation to find it would
/// defeat streaming.
pub open spec fn tail_after(tail: Seq<char>, more: Seq<char>) -> Seq<char> {
    let all = tail + more;
    if weight(all) > TAIL_MAX {
        end_within(all, TAIL_KEPT as nat)
    } else {
        all
    }
}

/// What is remembered of a stream that is being forwarded.
pub struct StreamTail {
    text: String,
    started: bool,
}

/// A line without the carriage return before its line break.
pub open spec fn unbroken(line: Seq<char>, last: bool) -> Seq<char> {
    if !last && line.len() > 0 && line.last() == '\r' {
        line.drop_last()
    } else {
        line
    }
}

/// The payload of a data line that is not the end mark.
pub open spec fn frame_payload(line: Seq<char>) -> Option<Seq<char>> {
    if text::has_prefix(line, "data: "@) && text::trimmed(line.skip("data: "@.len() as int))
        != "[DONE]"@ {
        Some(line.skip("data: "@.len() as int))
    } else {
        None
    }
}

/// What one line adds, its payload being read as `doc`.
pub open spec fn line_noted(
    t: Measures,
    model: Seq<char>,
    gen_ms: u64,
    line: Seq<char>,
) -> Measures {
    match frame_payload(line) {
        Some(p) => match json::read(vstd::utf8::encode_utf8(p)) {
            Some(v) => harvested(t, model, gen_ms, v),
            None => t,
        },
        None => t,
    }
}

/// What the first `n` of the lines add.
pub open spec fn lines_noted(
    t: Measures,
    model: Seq<char>,
    gen_ms: u64,
    lines: Seq<Seq<char>>,
    n: nat,
) -> Measures
    decreases n,
{
    if n == 0 {
        t
    } else {
        line_noted(
            lines_noted(t, model, gen_ms, lines, (n - 1) as nat),
            model,
            gen_ms,
            unbroken(lines[n - 1], n == lines.len()),
        )
    }
}

fn char_width(c: char) -> (r: usize)
    ensures
        r == width(c),
{
    let u: u32 = c as u32;
    if u < 0x80 {
        1
    } else if u < 0x800 {
        2
    } else if u < 0x1_0000 {
        3
    } else {
        4
    }
}

proof fn lemma_weight_split(s: Seq<char>, i: int)
    requires
        0 <= i < s.len(),
    ensures
        weight(s.skip(i)) == width(s[i]) + weight(s.skip(i + 1)),
{
    assert(s.skip(i).drop_first() =~= s.skip(i + 1));
}

proof fn lemma_end_within(s: Seq<char>, i: int, max: nat)
    requires
        0 <= i <= s.len(),
        i > 0 ==> weight(s.skip(i - 1)) > max,
        weight(s.skip(i)) <= max || i == s.len(),
    ensures
        end_within(s, max) == s.skip(i),
    decreases i,
{
    if i == 0 {
        assert(s.skip(0) =~= s);
    } else {
        lemma_weight_grows(s, 0, i - 1);
        assert(s.skip(0) =~= s);
        assert(s.drop_first().skip(i - 1) =~= s.skip(i));
        if i > 1 {
            assert(s.drop_first().skip(i - 2) =~= s.skip(i - 1));
        }
        lemma_end_within(s.drop_first(), i - 1, max);
    }
}

proof fn lemma_weight_grows(s: Seq<char>, i: int, j: int)
    requires
        0 <= i <= j <= s.len(),
    ensures
        weight(s.skip(i)) >= weight(s.skip(j)),
    decreases j - i,
{
    if i < j {
        lemma_weight_split(s, i);
        lemma_weight_grows(s, i + 1, j);
    }
}

/// Where the longest end of `chars` that takes at most `max` bytes starts.
fn cut_point(chars: &Vec<char>, max: usize) -> (r: usize)
    requires
        max <= TAIL_MAX,
    ensures
        r <= chars@.len(),
        end_within(chars@, max as nat) == chars@.skip(r as int),
        r == 0 <==> weight(chars@) <= max,
{
    let mut bytes: usize = 0;
    let mut i: usize = chars.len();
    assert(chars@.skip(chars@.len() as int) =~= Seq::<char>::empty());
    while i > 0
        invariant
            max <= TAIL_MAX,
            i <= chars@.len(),
            bytes <= max,
            bytes == weight(chars@.skip(i as int)),
        decreases i,
    {
        let c: char = chars[i - 1];
        let w: usize = char_width(c);
        proof {
            lemma_weight_split(chars@, i - 1);
        }
        if bytes + w > max {
            proof {
                lemma_end_within(chars@, i as int, max as nat);
                lemma_weight_grows(chars@, 0, i - 1);
                assert(chars@.skip(0) =~= chars@);
            }
            return i;
        }
        bytes += w;
        i -= 1;
    }
    proof {
        assert(chars@.skip(0) =~= chars@);
        lemma_end_within(chars@, 0, max as nat);
    }
    0
}

impl StreamTail {
    pub closed spec fn tail(&self) -> Seq<char> {
        self.text@
    }

    /// Has any of the answer come in?
    pub closed spec fn begun(&self) -> bool {
        self.started
    }

    pub fn new() -> (r: Self)
        ensures
            r.tail() == Seq::<char>::empty(),
            !r.begun(),
    {
        StreamTail { text: String::new(), started: false }
    }

    pub fn has_begun(&self) -> (r: bool)
        ensures
            r == self.begun(),
    {
        self.started
    }

    /// A chunk came in, `since_sent` milliseconds after the request was sent. The
    /// gap to the first chunk is exactly what a user experiences as "did it hear
    /// me": it is what time to first token means.
    pub fn take_chunk(
        &mut self,
        metrics: &mut Metrics,
        model: &str,
        chunk: &[u8],
        since_sent: u64,
    )
        requires
            old(metrics).wf(),
        ensures
            final(self).begun(),
            final(self).tail() == tail_after(old(self).tail(), crypto::lossy_of(chunk@)),
            final(metrics).wf(),
            *final(metrics) == (Metrics { ttft_ms: final(metrics).ttft_ms, ..*old(metrics) }),
            final(metrics).ttft_ms@ == if old(self).begun() {
                old(metrics).ttft_ms@
            } else {
                metrics::measured(old(metrics).ttft_ms@, model@, since_sent)
            },
    {
        if !self.started {
            self.started = true;
            metrics.record_ttft(model, since_sent);
        }
        let more = crypto::lossy_text(chunk);
        self.take_text(more.as_str());
    }

    /// Keep the end of what came in.
    pub fn take_text(&mut self, more: &str)
        ensures
            final(self).begun() == old(self).begun(),
            final(self).tail() == tail_after(old(self).tail(), more@),
    {
        self.text.append(more);
        let chars = text::chars_of(self.text.as_str());
        if cut_point(&chars, TAIL_MAX) > 0 {
            let from: usize = cut_point(&chars, TAIL_KEPT);
            let kept = text::string_of(chars.as_slice(), from, chars.len());
            assert(kept@ =~= chars@.skip(from as int));
            self.text = kept;
        }
    }

    /// The stream has ended, `gen_ms` milliseconds after its first chunk. Usage and
    /// the stop reason arrive in the last frames, so they are only readable now.
    pub fn finish(&self, metrics: &mut Metrics, model: &str, gen_ms: u64)
        requires
            old(metrics).wf(),
        ensures
            final(metrics).wf(),
            measured_only(*old(metrics), *final(metrics)),
            measures(*final(metrics)) == if self.begun() {
                lines_noted(
                    measures(*old(metrics)),
                    model@,
                    gen_ms,
                    text::pieces(self.tail(), '\n'),
                    text::pieces(self.tail(), '\n').len(),
                )
            } else {
                measures(*old(metrics))
            },
    {
        if !self.started {
            return;
        }
        let lines = text::split(self.text.as_str(), '\n');
        let ghost all = text::pieces(self.text@, '\n');
        let mut i: usize = 0;
        while i < lines.len()
            invariant
                i <= lines@.len(),
                all == text::texts(lines@),
                metrics.wf(),
                measured_only(*old(metrics), *metrics),
                measures(*metrics) == lines_noted(
                    measures(*old(metrics)),
                    model@,
                    gen_ms,
                    all,
                    i as nat,
                ),
            decreases lines@.len() - i,
        {
            assert(all[i as int] == lines@[i as int]@);
            let last = i + 1 == lines.len();
            let line = chomp(lines[i].as_str(), last);
            note_line(metrics, model, gen_ms, line);
            i += 1;
        }
    }
}

fn chomp<'a>(line: &'a str, last: bool) -> (r: &'a str)
    ensures
        r@ == unbroken(line@, last),
{
    let n: usize = line.unicode_len();
    if !last && n > 0 && line.get_char(n - 1) == '\r' {
        let r = line.substring_char(0, n - 1);
        assert(r@ =~= line@.drop_last());
        r
    } else {
        line
    }
}

fn note_line(metrics: &mut Metrics, model: &str, gen_ms: u64, line: &str)
    requires
        old(metrics).wf(),
    ensures
        final(metrics).wf(),
        measured_only(*old(metrics), *final(metrics)),
        measures(*final(metrics)) == line_noted(measures(*old(metrics)), model@, gen_ms, line@),
{
    match text::strip_prefix(line, "data: ") {
        Some(rest) => {
            if !text::same_text(text::trim(rest), "[DONE]") {
                match json::parse(rest.as_bytes()) {
                    Some(v) => harvest(metrics, model, gen_ms, &v),
                    None => {},
                }
            }
        },
        None => {},
    }
}

/// Why a stream ends before the upstream ended it.
#[derive(Clone, Copy, Debug, PartialEq, Eq, Structural)]
pub enum Interruption {
    Deadline,
    ClientGone,
    UpstreamBroken,
}

/// The event that an interruption counts as.
pub open spec fn interruption_event(why: Interruption) -> Seq<char> {
    match why {
        Interruption::Deadline => "deadline"@,
        Interruption::ClientGone => "client_disconnect"@,
        Interruption::UpstreamBroken => "stream_error"@,
    }
}

/// The code that a client is told, if there is one to tell it to.
pub open spec fn interruption_code(why: Interruption) -> Option<Seq<char>> {
    match why {
        Interruption::Deadline => Some("deadline_exceeded"@),
        Interruption::ClientGone => None,
        Interruption::UpstreamBroken => Some("stream_error"@),
    }
}

/// A stream is broken off: count why, and give the last frame to send.
pub fn break_off(metrics: &mut Metrics, why: Interruption) -> (r: Option<Vec<u8>>)
    requires
        old(metrics).wf(),
    ensures
        final(metrics).wf(),
        *final(metrics) == (Metrics { events: final(metrics).events, ..*old(metrics) }),
        final(metrics).events@ == metrics::event_counted(
            old(metrics).events@,
            interruption_event(why),
        ),
        match interruption_code(why) {
            Some(code) => r is Some && r->0@ == vstd::utf8::encode_utf8(proxy::error_frame(code)),
            None => r is None,
        },
{
    match why {
        Interruption::Deadline => {
            metrics.record_event("deadline");
            Some(proxy::sse_error("deadline_exceeded"))
        },
        Interruption::ClientGone => {
            metrics.record_event("client_disconnect");
            None
        },
        Interruption::UpstreamBroken => {
            metrics.record_event("stream_error");
            Some(proxy::sse_error("stream_error"))
        },
    }
}

proof fn lemma_end_weight(s: Seq<char>, max: nat)
    ensures
        weight(end_within(s, max)) <= max,
    decreases s.len(),
{
    if !(weight(s) <= max || s.len() == 0) {
        lemma_end_weight(s.drop_first(), max);
    }
}

/// However long a generation runs, only a bounded window of it is kept.
pub proof fn law_the_tail_stays_bounded(tail: Seq<char>, more: Seq<char>)
    ensures
        weight(tail_after(tail, more)) <= TAIL_MAX,
{
    lemma_end_weight(tail + more, TAIL_KEPT as nat);
}

// --- Content-blindness -------------------------------------------------------

/// A choice whose message says something else.
pub open spec fn choice_resaid(ch: JsonView, said: JsonView) -> JsonView {
    match json::field(ch, "message"@) {
        Some(m) => json::with_field(ch, "message"@, json::with_field(m, "content"@, said)),
        None => ch,
    }
}

/// A block that says something else.
pub open spec fn block_resaid(b: JsonView, said: JsonView) -> JsonView {
    json::with_field(b, "text"@, said)
}

/// An answer whose choices and blocks say something else.
pub open spec fn resaid(v: JsonView, said: JsonView) -> JsonView {
    let w = match json::items_of(json::field(v, "choices"@)) {
        Some(choices) => json::with_field(
            v,
            "choices"@,
            JsonView::Arr(choices.map_values(|ch: JsonView| choice_resaid(ch, said))),
        ),
        None => v,
    };
    match json::items_of(json::field(v, "content"@)) {
        Some(blocks) => json::with_field(
            w,
            "content"@,
            JsonView::Arr(blocks.map_values(|b: JsonView| block_resaid(b, said))),
        ),
        None => w,
    }
}

proof fn lemma_other_field(v: JsonView, k: Seq<char>, w: JsonView, j: Seq<char>)
    requires
        j != k,
    ensures
        json::field(json::with_field(v, k, w), j) == json::field(v, j),
{
    if v is Obj {
        json::law_setting_a_field_sets_that_field_only(v, k, w);
    }
}

proof fn lemma_names_differ()
    ensures
        "message"@ != "finish_reason"@,
        "content"@ != "tool_calls"@,
        "text"@ != "type"@,
        "choices"@ != "content"@,
        "choices"@ != "usage"@,
        "choices"@ != "message"@,
        "choices"@ != "stop_reason"@,
        "choices"@ != "delta"@,
        "content"@ != "usage"@,
        "content"@ != "message"@,
        "content"@ != "stop_reason"@,
        "content"@ != "delta"@,
{
    reveal_strlit("message");
    reveal_strlit("finish_reason");
    reveal_strlit("content");
    reveal_strlit("tool_calls");
    reveal_strlit("text");
    reveal_strlit("type");
    reveal_strlit("choices");
    reveal_strlit("usage");
    reveal_strlit("stop_reason");
    reveal_strlit("delta");
    assert("text"@[2] != "type"@[2]);
    assert("choices"@[0] != "content"@[0] || "choices"@[1] != "content"@[1]);
    assert("choices"@[0] != "message"@[0]);
    assert("content"@[0] != "message"@[0]);
}

proof fn lemma_choice_is_blind(t: Measures, model: Seq<char>, ch: JsonView, said: JsonView)
    ensures
        choice_noted(t, model, choice_resaid(ch, said)) == choice_noted(t, model, ch),
{
    lemma_names_differ();
    match json::field(ch, "message"@) {
        Some(m) => {
            let n = json::with_field(m, "content"@, said);
            json::law_setting_a_field_sets_that_field_only(ch, "message"@, n);
            lemma_other_field(ch, "message"@, n, "finish_reason"@);
            lemma_other_field(m, "content"@, said, "tool_calls"@);
        },
        None => {},
    }
}

proof fn lemma_choices_are_blind(
    t: Measures,
    model: Seq<char>,
    choices: Seq<JsonView>,
    said: JsonView,
)
    ensures
        choices_noted(
            t,
            model,
            choices.map_values(|ch: JsonView| choice_resaid(ch, said)),
        ) == choices_noted(t, model, choices),
    decreases choices.len(),
{
    let f = |ch: JsonView| choice_resaid(ch, said);
    if choices.len() > 0 {
        let rest = choices.drop_last();
        lemma_choices_are_blind(t, model, rest, said);
        assert(choices.map_values(f).drop_last() =~= rest.map_values(f));
        lemma_choice_is_blind(choices_noted(t, model, rest), model, choices.last(), said);
    }
}

proof fn lemma_blocks_are_blind(blocks: Seq<JsonView>, said: JsonView)
    ensures
        tool_blocks(blocks.map_values(|b: JsonView| block_resaid(b, said))) == tool_blocks(blocks),
    decreases blocks.len(),
{
    let f = |b: JsonView| block_resaid(b, said);
    if blocks.len() > 0 {
        let rest = blocks.drop_last();
        lemma_blocks_are_blind(rest, said);
        assert(blocks.map_values(f).drop_last() =~= rest.map_values(f));
        lemma_names_differ();
        lemma_other_field(blocks.last(), "text"@, said, "type"@);
    }
}

/// Metrics stay content-blind: whatever an answer says, in its choices' messages or
/// in its blocks, what is measured of it is the same.
pub proof fn law_what_was_said_is_not_measured(
    t: Measures,
    model: Seq<char>,
    gen_ms: u64,
    v: JsonView,
    said: JsonView,
)
    ensures
        harvested(t, model, gen_ms, resaid(v, said)) == harvested(t, model, gen_ms, v),
{
    lemma_names_differ();
    let choices = json::items_of(json::field(v, "choices"@));
    let blocks = json::items_of(json::field(v, "content"@));
    let new_choices = JsonView::Arr(choices->0.map_values(|ch: JsonView| choice_resaid(ch, said)));
    let new_blocks = JsonView::Arr(blocks->0.map_values(|b: JsonView| block_resaid(b, said)));
    let w = match choices {
        Some(_) => json::with_field(v, "choices"@, new_choices),
        None => v,
    };
    let x = resaid(v, said);
    if choices is Some {
        json::law_setting_a_field_sets_that_field_only(v, "choices"@, new_choices);
        assert forall|s: Measures|
            choices_noted(s, model, new_choices->Arr_0) == #[trigger] choices_noted(
                s,
                model,
                choices->0,
            ) by {
            lemma_choices_are_blind(s, model, choices->0, said);
        }
    }
    if blocks is Some {
        json::law_setting_a_field_sets_that_field_only(w, "content"@, new_blocks);
        lemma_blocks_are_blind(blocks->0, said);
    }
    assert(json::field(x, "usage"@) == json::field(v, "usage"@));
    assert(json::field(x, "message"@) == json::field(v, "message"@));
    assert(json::field(x, "stop_reason"@) == json::field(v, "stop_reason"@));
    assert(json::field(x, "delta"@) == json::field(v, "delta"@));
}

// --- What a measurement comes to ---------------------------------------------

proof fn lemma_choices_keep_tokens(t: Measures, model: Seq<char>, choices: Seq<JsonView>)
    ensures
        choices_noted(t, model, choices).tokens == t.tokens,
        choices_noted(t, model, choices).speeds == t.speeds,
    decreases choices.len(),
{
    if choices.len() > 0 {
        lemma_choices_keep_tokens(t, model, choices.drop_last());
    }
}

/// Tokens are counted as they are stated, in either spelling: what the answer reports
/// as read (`prompt_tokens` or `input_tokens`) adds to the model's prompt tokens, what it
/// reports as written (`completion_tokens` or `output_tokens`) to its completion tokens,
/// and the speed is what was written over the time it took. No other model's numbers
/// change.
pub proof fn law_usage_is_counted_as_stated(
    t: Measures,
    model: Seq<char>,
    gen_ms: u64,
    v: JsonView,
    u: JsonView,
    a: u64,
    b: u64,
    tokens: (u64, u64),
    speed: Summary,
)
    requires
        json::field(v, "usage"@) == Some(u) || (json::field(v, "usage"@) is None && (json::field(
            v,
            "message"@,
        ) matches Some(m) && json::field(m, "usage"@) == Some(u))),
        (json::field(u, "prompt_tokens"@) == Some(JsonView::UInt(a)) && json::field(
            u,
            "completion_tokens"@,
        ) == Some(JsonView::UInt(b))) || (json::field(u, "prompt_tokens"@) is None && json::field(
            u,
            "completion_tokens"@,
        ) is None && json::field(u, "input_tokens"@) == Some(JsonView::UInt(a)) && json::field(
            u,
            "output_tokens"@,
        ) == Some(JsonView::UInt(b))),
        a > 0 || b > 0,
        gen_ms > 0,
        ({
            let k = metrics::sanitized(model);
            &&& table::get(t.tokens, k) == Some(tokens) || (table::get(t.tokens, k) is None
                && t.tokens.len() < metrics::MAX_SERIES && tokens == (0u64, 0u64))
            &&& table::get(t.speeds, k) == Some(speed) || (table::get(t.speeds, k) is None
                && t.speeds.len() < metrics::MAX_SERIES && speed == (Summary {
                sum: 0,
                count: 0,
                max: 0,
            }))
        }),
        tokens.0 + a <= u64::MAX,
        tokens.1 + b <= u64::MAX,
        speed.sum + b as int * 1000 / gen_ms as int <= u64::MAX,
        speed.count < u64::MAX,
    ensures
        ({
            let k = metrics::sanitized(model);
            let h = harvested(t, model, gen_ms, v);
            &&& table::get(h.tokens, k) == Some(((tokens.0 + a) as u64, (tokens.1 + b) as u64))
            &&& forall|j: Seq<char>|
                j != k ==> #[trigger] table::get(h.tokens, j) == table::get(t.tokens, j)
            &&& b > 0 ==> (table::get(h.speeds, k) matches Some(s) && s.sum == speed.sum + b as int
                * 1000 / gen_ms as int && s.count == speed.count + 1)
            &&& b == 0 ==> h.speeds == t.speeds
            &&& forall|j: Seq<char>|
                j != k ==> #[trigger] table::get(h.speeds, j) == table::get(t.speeds, j)
        }),
{
    lemma_usage_shows(t, model, gen_ms, v, u);
    let k = metrics::sanitized(model);
    if a == 0 && b == 0 {
        assert(false);
    }
    assert(token_counts(u) == (a, b));
    metrics::law_both_counts_go_to_their_label(t.tokens, model, k, tokens, a, b);
    let rate = metrics::speed(b, gen_ms);
    metrics::law_a_measurement_goes_to_its_label(t.speeds, model, k, speed, rate);
}

proof fn lemma_usage_shows(t: Measures, model: Seq<char>, gen_ms: u64, v: JsonView, u: JsonView)
    requires
        usage_in(v) == Some(u),
    ensures
        harvested(t, model, gen_ms, v).tokens == usage_noted(t, model, gen_ms, u).tokens,
        harvested(t, model, gen_ms, v).speeds == usage_noted(t, model, gen_ms, u).speeds,
{
    let t1 = usage_noted(t, model, gen_ms, u);
    let t2 = Measures { finish: finish_noted(t1.finish, model, stop_reason(v)), ..t1 };
    let t3 = match json::items_of(json::field(v, "content"@)) {
        Some(blocks) => Measures {
            extras: extras_noted(t2.extras, model, tool_blocks(blocks) as u64, 0),
            ..t2
        },
        None => t2,
    };
    if let Some(choices) = json::items_of(json::field(v, "choices"@)) {
        lemma_choices_keep_tokens(t3, model, choices);
    }
}

/// Both spellings measure alike: an answer that reports its tokens as read and written
/// is measured as one that reports the same as prompt and completion.
pub proof fn law_both_spellings_measure_alike(
    t: Measures,
    model: Seq<char>,
    gen_ms: u64,
    v: JsonView,
    w: JsonView,
    one: JsonView,
    other: JsonView,
    a: u64,
    b: u64,
)
    requires
        json::field(v, "usage"@) == Some(one),
        json::field(w, "usage"@) == Some(other),
        json::field(one, "prompt_tokens"@) == Some(JsonView::UInt(a)),
        json::field(one, "completion_tokens"@) == Some(JsonView::UInt(b)),
        a > 0 || b > 0,
        json::field(other, "prompt_tokens"@) is None,
        json::field(other, "completion_tokens"@) is None,
        json::field(other, "input_tokens"@) == Some(JsonView::UInt(a)),
        json::field(other, "output_tokens"@) == Some(JsonView::UInt(b)),
    ensures
        harvested(t, model, gen_ms, v).tokens == harvested(t, model, gen_ms, w).tokens,
        harvested(t, model, gen_ms, v).speeds == harvested(t, model, gen_ms, w).speeds,
{
    lemma_usage_shows(t, model, gen_ms, v, one);
    lemma_usage_shows(t, model, gen_ms, w, other);
}

/// An answer that reports no usage leaves the tokens and the speeds alone.
pub proof fn law_no_usage_counts_no_tokens(
    t: Measures,
    model: Seq<char>,
    gen_ms: u64,
    v: JsonView,
)
    requires
        json::field(v, "usage"@) is None,
        json::field(v, "message"@) matches Some(m) ==> json::field(m, "usage"@) is None,
    ensures
        harvested(t, model, gen_ms, v).tokens == t.tokens,
        harvested(t, model, gen_ms, v).speeds == t.speeds,
{
    let t2 = Measures { finish: finish_noted(t.finish, model, stop_reason(v)), ..t };
    let t3 = match json::items_of(json::field(v, "content"@)) {
        Some(blocks) => Measures {
            extras: extras_noted(t2.extras, model, tool_blocks(blocks) as u64, 0),
            ..t2
        },
        None => t2,
    };
    if let Some(choices) = json::items_of(json::field(v, "choices"@)) {
        lemma_choices_keep_tokens(t3, model, choices);
    }
}

/// One more choice in an answer counts its reason once more, under the model, and adds
/// its tool calls to the model's; nothing else is measured of it.
pub proof fn law_every_choice_is_counted(
    t: Measures,
    model: Seq<char>,
    gen_ms: u64,
    v: JsonView,
    choices: Seq<JsonView>,
    ch: JsonView,
    reason: Seq<char>,
    message: JsonView,
    calls: Seq<JsonView>,
)
    requires
        v is Obj,
        json::field(ch, "finish_reason"@) == Some(JsonView::Str(reason)),
        json::field(ch, "message"@) == Some(message),
        json::field(message, "tool_calls"@) == Some(JsonView::Arr(calls)),
        0 < calls.len() <= u64::MAX,
    ensures
        ({
            let before = harvested(
                t,
                model,
                gen_ms,
                json::with_field(v, "choices"@, JsonView::Arr(choices)),
            );
            let after = harvested(
                t,
                model,
                gen_ms,
                json::with_field(v, "choices"@, JsonView::Arr(choices.push(ch))),
            );
            &&& after.tokens == before.tokens
            &&& after.speeds == before.speeds
            &&& after.finish == metrics::finish_counted(before.finish, model, reason)
            &&& after.extras == metrics::counted_both(before.extras, model, calls.len() as u64, 0)
        }),
{
    lemma_names_differ();
    let v1 = json::with_field(v, "choices"@, JsonView::Arr(choices));
    let v2 = json::with_field(v, "choices"@, JsonView::Arr(choices.push(ch)));
    json::law_setting_a_field_sets_that_field_only(v, "choices"@, JsonView::Arr(choices));
    json::law_setting_a_field_sets_that_field_only(v, "choices"@, JsonView::Arr(choices.push(ch)));
    assert(choices.push(ch).drop_last() =~= choices);
    assert(json::field(v1, "usage"@) == json::field(v2, "usage"@));
    assert(json::field(v1, "message"@) == json::field(v2, "message"@));
    assert(json::field(v1, "stop_reason"@) == json::field(v2, "stop_reason"@));
    assert(json::field(v1, "delta"@) == json::field(v2, "delta"@));
    assert(json::field(v1, "content"@) == json::field(v2, "content"@));
}

/// The reason that an answer states itself, at the top or in its delta, is counted once,
/// and each block that is a tool call is one call.
pub proof fn law_an_answer_in_blocks_is_counted(
    t: Measures,
    model: Seq<char>,
    gen_ms: u64,
    v: JsonView,
    reason: Seq<char>,
    blocks: Seq<JsonView>,
)
    requires
        json::field(v, "choices"@) is None,
        json::field(v, "usage"@) is None,
        json::field(v, "message"@) is None,
        json::field(v, "stop_reason"@) == Some(JsonView::Str(reason)) || (json::field(
            v,
            "stop_reason"@,
        ) is None && (json::field(v, "delta"@) matches Some(d) && json::field(d, "stop_reason"@)
            == Some(JsonView::Str(reason)))),
        json::field(v, "content"@) == Some(JsonView::Arr(blocks)),
        blocks.len() <= u64::MAX,
    ensures
        ({
            let h = harvested(t, model, gen_ms, v);
            let calls = blocks.filter(
                |b: JsonView| json::field(b, "type"@) == Some(JsonView::Str("tool_use"@)),
            ).len();
            &&& h.tokens == t.tokens
            &&& h.speeds == t.speeds
            &&& h.finish == metrics::finish_counted(t.finish, model, reason)
            &&& calls == 0 ==> h.extras == t.extras
            &&& calls > 0 ==> h.extras == metrics::counted_both(t.extras, model, calls as u64, 0)
        }),
{
    lemma_tool_blocks(blocks);
}

proof fn lemma_tool_blocks(blocks: Seq<JsonView>)
    ensures
        tool_blocks(blocks) == blocks.filter(
            |b: JsonView| json::field(b, "type"@) == Some(JsonView::Str("tool_use"@)),
        ).len(),
        tool_blocks(blocks) <= blocks.len(),
    decreases blocks.len(),
{
    let f = |b: JsonView| json::field(b, "type"@) == Some(JsonView::Str("tool_use"@));
    reveal(Seq::filter);
    if blocks.len() > 0 {
        lemma_tool_blocks(blocks.drop_last());
        assert(blocks.filter(f).len() == blocks.drop_last().filter(f).len() + if f(blocks.last()) {
            1int
        } else {
            0
        });
    }
}

/// A success with an answer in it, and every refusal, reaches the client as it came; a
/// completion without a choice is a bad request, told as one and not measured.
pub proof fn law_an_answer_is_relayed_unchanged(
    t: Measures,
    model: Seq<char>,
    gen_ms: u64,
    status: u16,
    content_type: Option<Seq<char>>,
    payload: Seq<u8>,
    doc: Option<JsonView>,
)
    ensures
        ({
            let r = relayed(status, content_type, payload, doc);
            let m = measured_from(t, model, gen_ms, status, doc);
            let nothing_in_it = status / 100 == 2 && doc is Some && json::field(
                doc->0,
                "object"@,
            ) == Some(JsonView::Str("chat.completion"@)) && (json::field(doc->0, "choices"@)
                matches Some(JsonView::Arr(c)) && c.len() == 0);
            &&& nothing_in_it ==> r.status == 400 && m == t
            &&& !nothing_in_it ==> r.status == status && r.body == payload
            &&& !nothing_in_it && content_type is Some ==> r.headers == seq![
                ("content-type"@, content_type->0),
            ]
            &&& !nothing_in_it && doc is Some ==> m == harvested(t, model, gen_ms, doc->0)
            &&& doc is None ==> m == t
        }),
{
}

/// A window is learned from a refusal that states one, for the model that was refused
/// and no other; a success teaches nothing.
pub proof fn law_a_window_is_learned_from_refusals(
    rows: Seq<(Seq<char>, u64)>,
    model: Seq<char>,
    status: u16,
    before: Seq<char>,
    n: u64,
    after: Seq<char>,
)
    requires
        ({
            let m = "maximum context length is "@;
            let body = before + m + text::decimal(n as nat) + after;
            forall|j: int|
                0 <= j < before.len() ==> #[trigger] body.subrange(j, j + m.len()) != m
        }),
        after.len() == 0 || !text::is_digit(after[0]),
    ensures
        ({
            let said = before + "maximum context length is "@ + text::decimal(n as nat) + after;
            let known = limits_after(rows, model, status, vstd::utf8::encode_utf8(said));
            &&& status / 100 == 2 ==> known == rows
            &&& status / 100 != 2 ==> table::get(known, model) == Some(n)
            &&& forall|j: Seq<char>|
                j != model ==> #[trigger] table::get(known, j) == table::get(rows, j)
        }),
{
    let said = before + "maximum context length is "@ + text::decimal(n as nat) + after;
    proxy::law_a_stated_window_is_read(before, n, after);
    vstd::utf8::encode_utf8_valid_utf8(said);
    vstd::utf8::encode_utf8_decode_utf8(said);
    table::law_put_then_get(rows, model, n);
}

/// What is kept of a stream is its end: all of it while it is short, and once it is cut
/// back as much of the end as fits.
pub proof fn law_the_end_of_a_stream_is_kept(tail: Seq<char>, more: Seq<char>)
    ensures
        ({
            let all = tail + more;
            let kept = tail_after(tail, more);
            &&& kept.len() <= all.len()
            &&& kept == all.skip(all.len() - kept.len())
            &&& weight(all) <= 8192 ==> kept == all
            &&& weight(all) > 8192 ==> weight(kept) <= 4096 && kept.len() < all.len() && weight(
                all.skip(all.len() - kept.len() - 1),
            ) > 4096
        }),
{
    let all = tail + more;
    lemma_end_is_a_suffix(all, TAIL_KEPT as nat);
    lemma_end_weight(all, TAIL_KEPT as nat);
    assert(all.skip(0) =~= all);
}

proof fn lemma_end_is_a_suffix(s: Seq<char>, max: nat)
    ensures
        end_within(s, max).len() <= s.len(),
        end_within(s, max) == s.skip(s.len() - end_within(s, max).len()),
        end_within(s, max).len() < s.len() ==> weight(
            s.skip(s.len() - end_within(s, max).len() - 1),
        ) > max,
        weight(s) > max ==> end_within(s, max).len() < s.len(),
    decreases s.len(),
{
    if weight(s) <= max || s.len() == 0 {
        assert(s.skip(0) =~= s);
    } else {
        let rest = s.drop_first();
        lemma_end_is_a_suffix(rest, max);
        let n = end_within(rest, max).len();
        assert(rest.skip(rest.len() - n) =~= s.skip(s.len() - n));
        if n < rest.len() {
            assert(rest.skip(rest.len() - n - 1) =~= s.skip(s.len() - n - 1));
        } else {
            assert(s.skip(s.len() - n - 1) =~= s);
        }
    }
}

/// A data line is measured as the document it carries; the end mark, and every line that
/// carries no data, adds nothing.
pub proof fn law_a_data_line_is_measured(
    t: Measures,
    model: Seq<char>,
    gen_ms: u64,
    payload: Seq<char>,
    line: Seq<char>,
)
    ensures
        ({
            let framed = "data: "@ + payload;
            let doc = json::read(vstd::utf8::encode_utf8(payload));
            &&& text::trimmed(payload) != "[DONE]"@ && doc is Some ==> line_noted(
                t,
                model,
                gen_ms,
                framed,
            ) == harvested(t, model, gen_ms, doc->0)
            &&& text::trimmed(payload) == "[DONE]"@ || doc is None ==> line_noted(
                t,
                model,
                gen_ms,
                framed,
            ) == t
        }),
        (forall|p: Seq<char>| line != "data: "@ + p) ==> line_noted(t, model, gen_ms, line) == t,
{
    let framed = "data: "@ + payload;
    let n = "data: "@.len() as int;
    assert(framed.take(n) =~= "data: "@);
    assert(framed.skip(n) =~= payload);
    if text::has_prefix(line, "data: "@) {
        assert(line =~= "data: "@ + line.skip(n));
    }
}

/// Who has gone is told nothing; anyone still there is told why the stream ends, and
/// every reason is an event of its own.
pub proof fn law_an_interruption_is_told_and_counted(a: Interruption, b: Interruption)
    ensures
        interruption_code(a) is None <==> a == Interruption::ClientGone,
        interruption_event(a) == interruption_event(b) ==> a == b,
        interruption_code(a) == interruption_code(b) ==> a == b,
{
    reveal_strlit("deadline");
    reveal_strlit("client_disconnect");
    reveal_strlit("stream_error");
    reveal_strlit("deadline_exceeded");
    assert("deadline"@.len() != "client_disconnect"@.len());
    assert("client_disconnect"@.len() != "stream_error"@.len());
    assert("deadline_exceeded"@.len() != "stream_error"@.len());
}

/// The reasoning that an answer reports is added to the model's, and counts no tool call.
pub proof fn law_reasoning_is_counted(
    t: Measures,
    model: Seq<char>,
    gen_ms: u64,
    v: JsonView,
    u: JsonView,
    d: JsonView,
    n: u64,
)
    requires
        json::field(v, "usage"@) == Some(u),
        json::field(u, "completion_tokens_details"@) == Some(d),
        json::field(d, "reasoning_tokens"@) == Some(JsonView::UInt(n)),
        n > 0,
        json::field(v, "content"@) is None,
        json::field(v, "choices"@) is None,
    ensures
        harvested(t, model, gen_ms, v).extras == metrics::counted_both(t.extras, model, 0, n),
{
}

/// A stream is measured line by line, each line adding to what those before it added; a
/// carriage return before the line break is no part of a line.
pub proof fn law_a_stream_is_measured_line_by_line(
    t: Measures,
    model: Seq<char>,
    gen_ms: u64,
    lines: Seq<Seq<char>>,
    n: nat,
    payload: Seq<char>,
    v: JsonView,
)
    requires
        n < lines.len(),
        lines[n as int] == "data: "@ + payload || (n + 1 < lines.len() && lines[n as int]
            == ("data: "@ + payload).push('\r')),
        payload.len() > 0 && payload.last() != '\r',
        text::trimmed(payload) != "[DONE]"@,
        json::read(vstd::utf8::encode_utf8(payload)) == Some(v),
    ensures
        lines_noted(t, model, gen_ms, lines, n + 1) == harvested(
            lines_noted(t, model, gen_ms, lines, n),
            model,
            gen_ms,
            v,
        ),
        lines_noted(t, model, gen_ms, lines, 0) == t,
{
    let framed = "data: "@ + payload;
    assert(framed.last() == payload.last());
    assert(framed.push('\r').drop_last() =~= framed);
    assert(unbroken(lines[n as int], n + 1 == lines.len()) == framed);
    law_a_data_line_is_measured(
        lines_noted(t, model, gen_ms, lines, n),
        model,
        gen_ms,
        payload,
        framed,
    );
}

/// The weight of a text is the bytes that it takes in UTF-8.
pub proof fn law_a_text_weighs_its_bytes(s: Seq<char>)
    ensures
        weight(s) == vstd::utf8::encode_utf8(s).len(),
    decreases s.len(),
{
    if s.len() > 0 {
        law_a_text_weighs_its_bytes(s.drop_first());
        lemma_width(s[0]);
    }
}

proof fn lemma_width(c: char)
    ensures
        vstd::utf8::encode_scalar(c as u32).len() == width(c),
{
    vstd::utf8::char_is_scalar(c);
    assert(c as u32 == c as int);
}

} // verus!
