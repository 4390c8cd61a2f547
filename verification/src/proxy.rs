//! The data plane's rules: who may send a request and when it is turned away, how
//! a request is read, where it is routed, and what is sent upstream in its name.

use std::collections::hash_map::DefaultHasher;
use std::hash::Hasher;

use vstd::prelude::*;

use crate::auth;
use crate::config::{Alias, ClientKey, Protocol};
use crate::config;
use crate::crypto;
use crate::dispatch::Permit;
use crate::governor;
use crate::governor::{Governor, ModelPermit};
use crate::hashing;
use crate::json;
use crate::json::{Json, JsonView};
use crate::metrics;
use crate::metrics::Metrics;
use crate::models;
use crate::models::{Catalog, ContextLimits};
use crate::pool;
use crate::pool::Pool;
use crate::reply;
use crate::reply::{Reply, ReplyView};
use crate::seqs;
use crate::table;
use crate::text;

verus! {

/// One millisecond, in nanoseconds.
pub const MILLISECOND: u128 = 1_000_000;

/// How often a waiting stream is told it is still alive.
pub const HEARTBEAT: u128 = 15_000_000_000;

/// Longest we honor a provider's `Retry-After`. Beyond this the value is more
/// likely wrong than real, and obeying it would park a paid key for no reason.
pub const MAX_RETRY_AFTER: u128 = 60_000_000_000;

/// Cooldown for a lane the provider rebuffed without saying for how long.
pub const DEFAULT_BENCH: u128 = 5_000_000_000;

/// How often a request blocked by model pressure re-checks for a free permit.
/// Slots free stochastically as generations finish, so polling fits better than
/// a queue: there is no moment to wake a specific waiter.
pub const GOVERNOR_POLL: u128 = 250_000_000;

pub open spec fn opt_texts(s: Option<String>) -> Option<Seq<char>> {
    auth::string_view(s)
}

// --- Headers -----------------------------------------------------------------

/// The instant a client's deadline header sets: so many milliseconds from `now`,
/// for the whole request (queue + retries + upstream).
pub open spec fn deadline_at(header: Option<Seq<char>>, now: u128) -> Option<nat> {
    match header {
        Some(h) => match text::read_number(text::trimmed(h), u64::MAX as nat) {
            Some(ms) => Some((now + ms * MILLISECOND) as nat),
            None => None,
        },
        None => None,
    }
}

pub fn parse_deadline(header: Option<&str>, now: u128) -> (r: Option<u128>)
    requires
        now + u64::MAX * MILLISECOND <= u128::MAX,
    ensures
        match r {
            Some(d) => deadline_at(auth::opt_view(header), now) == Some(d as nat),
            None => deadline_at(auth::opt_view(header), now) is None,
        },
{
    match header {
        Some(h) => match text::parse_number(text::trim(h), u64::MAX) {
            Some(ms) => Some(now + ms as u128 * MILLISECOND),
            None => None,
        },
        None => None,
    }
}

/// How long the provider asked us to stay away.
pub open spec fn asked_to_wait(header: Option<Seq<char>>) -> Option<nat> {
    match header {
        Some(h) => match text::read_number(text::trimmed(h), u64::MAX as nat) {
            Some(secs) => if secs * pool::SECOND <= MAX_RETRY_AFTER {
                Some((secs * pool::SECOND) as nat)
            } else {
                Some(MAX_RETRY_AFTER as nat)
            },
            None => None,
        },
        None => None,
    }
}

/// How long the provider asked us to stay away, from `Retry-After`. Only the
/// delta-seconds form is read — RFC 9110 also allows an HTTP-date, which needs a
/// date parser we don't carry; that form reads as "no guidance" so the caller
/// falls back to its own backoff instead of guessing at zero.
pub fn retry_after(header: Option<&str>) -> (r: Option<u128>)
    ensures
        match r {
            Some(d) => asked_to_wait(auth::opt_view(header)) == Some(d as nat),
            None => asked_to_wait(auth::opt_view(header)) is None,
        },
        r matches Some(d) ==> d <= MAX_RETRY_AFTER,
{
    match header {
        Some(h) => match text::parse_number(text::trim(h), u64::MAX) {
            Some(secs) => {
                let wait: u128 = secs as u128 * pool::SECOND;
                if wait <= MAX_RETRY_AFTER {
                    Some(wait)
                } else {
                    Some(MAX_RETRY_AFTER)
                }
            },
            None => None,
        },
        None => None,
    }
}

/// Headers that are never copied from client to upstream or back.
pub open spec fn hop_by_hop(name: Seq<char>) -> bool {
    let n = text::lowered(name);
    n == text::lowered("connection"@) || n == text::lowered("keep-alive"@) || n == text::lowered(
        "proxy-authenticate"@,
    ) || n == text::lowered("proxy-authorization"@) || n == text::lowered("te"@) || n
        == text::lowered("trailer"@) || n == text::lowered("transfer-encoding"@) || n
        == text::lowered("upgrade"@) || n == text::lowered("host"@) || n == text::lowered(
        "content-length"@,
    )
}

/// Headers we never copy from client→upstream or upstream→client.
pub fn is_hop_by_hop(name: &str) -> (r: bool)
    ensures
        r == hop_by_hop(name@),
{
    text::same_ignoring_case(name, "connection") || text::same_ignoring_case(name, "keep-alive")
        || text::same_ignoring_case(name, "proxy-authenticate") || text::same_ignoring_case(
        name,
        "proxy-authorization",
    ) || text::same_ignoring_case(name, "te") || text::same_ignoring_case(name, "trailer")
        || text::same_ignoring_case(name, "transfer-encoding") || text::same_ignoring_case(
        name,
        "upgrade",
    ) || text::same_ignoring_case(name, "host") || text::same_ignoring_case(
        name,
        "content-length",
    )
}

/// Is a client's header passed on upstream? Its credentials for this proxy are
/// not, nor is what concerns one connection only.
pub open spec fn passed_on(header: (Seq<char>, Seq<char>)) -> bool {
    text::lowered(header.0) != text::lowered("authorization"@) && text::lowered(header.0)
        != text::lowered("x-api-key"@) && !hop_by_hop(header.0)
}

/// The headers passed on upstream.
pub fn forward_headers(headers: &[(String, String)]) -> (r: Vec<(String, String)>)
    ensures
        reply::header_views(r@) == reply::header_views(headers@).filter(
            |h: (Seq<char>, Seq<char>)| passed_on(h),
        ),
        forall|h: (Seq<char>, Seq<char>)| #[trigger]
            reply::header_views(r@).contains(h) <==> reply::header_views(headers@).contains(h)
                && passed_on(h),
{
    proof {
        seqs::lemma_filtered(
            reply::header_views(headers@),
            |h: (Seq<char>, Seq<char>)| passed_on(h),
        );
    }
    let ghost all = reply::header_views(headers@);
    let ghost f = |h: (Seq<char>, Seq<char>)| passed_on(h);
    let mut out: Vec<(String, String)> = Vec::new();
    let mut i: usize = 0;
    proof {
        reveal(Seq::filter);
        assert(reply::header_views(out@) =~= all.take(0).filter(f));
    }
    while i < headers.len()
        invariant
            i <= headers@.len(),
            all == reply::header_views(headers@),
            f == |h: (Seq<char>, Seq<char>)| passed_on(h),
            reply::header_views(out@) == all.take(i as int).filter(f),
        decreases headers@.len() - i,
    {
        let ghost before = out@;
        proof {
            reveal(Seq::filter);
            assert(all.take(i as int + 1).drop_last() =~= all.take(i as int));
            assert(all[i as int] == (headers@[i as int].0@, headers@[i as int].1@));
        }
        let name = headers[i].0.as_str();
        if !text::same_ignoring_case(name, "authorization") && !text::same_ignoring_case(
            name,
            "x-api-key",
        ) && !is_hop_by_hop(name) {
            out.push((headers[i].0.clone(), headers[i].1.clone()));
            assert(reply::header_views(out@) =~= reply::header_views(before).push(all[i as int]));
        }
        i += 1;
    }
    assert(all.take(all.len() as int) =~= all);
    out
}

// --- Statuses ----------------------------------------------------------------

pub open spec fn retryable(status: u16) -> bool {
    status == 408 || status == 429 || status == 500 || status == 502 || status == 503 || status
        == 504 || status == 529
}

/// Statuses worth another attempt on a different key.
///
/// 529 is not in any RFC but providers use it for "temporarily overloaded" —
/// NVIDIA returned it in production and it went straight to the client as a
/// terminal error, which is the opposite of what it means. 408 is the same
/// shape: the request timed out, not the request was wrong.
pub fn is_retryable(status: u16) -> (r: bool)
    ensures
        r == retryable(status),
{
    status == 408 || status == 429 || status == 500 || status == 502 || status == 503 || status
        == 504 || status == 529
}

pub open spec fn success(status: u16) -> bool {
    200 <= status < 300
}

// --- Paths -------------------------------------------------------------------

/// A path with a repeated version prefix collapsed.
pub open spec fn collapsed(path: Seq<char>) -> Seq<char>
    decreases path.len(),
{
    if text::has_prefix(path, "/v1/v1/"@) && path.len() >= 3 {
        collapsed(path.skip(3))
    } else {
        path
    }
}

/// Collapse a duplicated `/v1` prefix before forwarding.
///
/// Harnesses are configured with a base URL and their SDK appends the rest, and
/// the two conventions disagree about who owns the `/v1`: some want it in the
/// base, others prepend it themselves. Configure both and the client sends
/// `/v1/v1/chat/completions`. Forwarded as-is that hits a provider route which
/// doesn't exist, and the answer is a bare router "404 page not found" — plain
/// text, naming nothing, indistinguishable from a missing model.
///
/// No provider routes a repeated version segment, so collapsing it is always
/// what the caller meant, and being tolerant here costs a user nothing while
/// saving them an afternoon.
pub fn normalize_path(path_query: &str) -> (r: String)
    ensures
        r@ == collapsed(path_query@),
{
    proof {
        reveal_strlit("/v1/v1/");
    }
    let chars = text::chars_of(path_query);
    let prefix = text::chars_of("/v1/v1/");
    let mut at: usize = 0;
    assert(chars@.skip(0) =~= path_query@);
    while text::prefix_at(chars.as_slice(), at, prefix.as_slice())
        invariant
            chars@ == path_query@,
            prefix@ == "/v1/v1/"@,
            prefix@.len() == 7,
            at <= chars.len(),
            collapsed(path_query@) == collapsed(chars@.skip(at as int)),
        decreases chars@.len() - at,
    {
        assert(chars@.skip(at as int).skip(3) =~= chars@.skip(at as int + 3));
        at += 3;
    }
    let r = text::string_of(chars.as_slice(), at, chars.len());
    assert(r@ =~= chars@.skip(at as int));
    r
}

/// A collapsed path has no repeated version prefix left, is no longer than it was,
/// is still a path, and collapses to itself.
pub proof fn law_a_collapsed_path_is_normal(path: Seq<char>)
    ensures
        !text::has_prefix(collapsed(path), "/v1/v1/"@),
        collapsed(path).len() <= path.len(),
        path.len() > 0 && path[0] == '/' ==> collapsed(path).len() > 0 && collapsed(path)[0] == '/',
        collapsed(collapsed(path)) == collapsed(path),
    decreases path.len(),
{
    reveal_strlit("/v1/v1/");
    if text::has_prefix(path, "/v1/v1/"@) && path.len() >= 3 {
        let p = "/v1/v1/"@;
        assert(path.take(7)[3] == p[3]);
        assert(path.skip(3)[0] == path[3]);
        law_a_collapsed_path_is_normal(path.skip(3));
    }
}

/// The version prefix, `n` times.
pub open spec fn versions(n: nat) -> Seq<char>
    decreases n,
{
    if n == 0 {
        Seq::empty()
    } else {
        "/v1"@ + versions((n - 1) as nat)
    }
}

/// Nothing but repeated version prefixes at the front is removed, and one of them stays.
pub proof fn law_only_repeated_versions_are_collapsed(path: Seq<char>)
    ensures
        exists|n: nat|
            path == #[trigger] versions(n) + collapsed(path) && (n > 0 ==> text::has_prefix(
                collapsed(path),
                "/v1/"@,
            )),
    decreases path.len(),
{
    reveal_strlit("/v1/v1/");
    reveal_strlit("/v1/");
    reveal_strlit("/v1");
    if text::has_prefix(path, "/v1/v1/"@) && path.len() >= 3 {
        let rest = path.skip(3);
        law_only_repeated_versions_are_collapsed(rest);
        let n = choose|n: nat|
            rest == #[trigger] versions(n) + collapsed(rest) && (n > 0 ==> text::has_prefix(
                collapsed(rest),
                "/v1/"@,
            ));
        let front = path.take(7);
        assert(front == "/v1/v1/"@);
        assert(path.take(3) =~= "/v1"@) by {
            assert(path[0] == front[0] && path[1] == front[1] && path[2] == front[2]);
        }
        assert(rest.take(4) =~= "/v1/"@) by {
            assert(path[3] == front[3] && path[4] == front[4] && path[5] == front[5] && path[6]
                == front[6]);
        }
        assert(path =~= "/v1"@ + rest);
        assert(path =~= versions(n + 1) + collapsed(path));
        if n == 0 {
            assert(collapsed(rest) =~= rest);
        }
    } else {
        assert(path =~= versions(0) + collapsed(path));
    }
}

/// The part of a path that routes it: all before a query.
pub open spec fn route_of(path: Seq<char>) -> Seq<char> {
    match text::cut_first(path, '?') {
        Some((route, _)) => route,
        None => path,
    }
}

fn route<'a>(path: &'a str) -> (r: &'a str)
    ensures
        r@ == route_of(path@),
{
    match text::split_once(path, '?') {
        Some((route, _)) => route,
        None => path,
    }
}

/// What a request asks for. Catalog requests are answered locally rather than
/// forwarded: forwarding would spend rate budget on a poll, return whichever
/// provider won the lane, and hide every alias — which are routable names a
/// harness can only learn about from here. So is the question for the context
/// window, which providers would answer with a 404.
#[derive(Clone, Copy, Debug, PartialEq, Eq, Structural)]
pub enum Purpose {
    Catalog,
    Props,
    Forward,
}

pub open spec fn purpose_of(get: bool, route: Seq<char>) -> Purpose {
    if get && route == "/v1/models"@ {
        Purpose::Catalog
    } else if get && route == "/v1/props"@ {
        Purpose::Props
    } else {
        Purpose::Forward
    }
}

/// What a request on a collapsed path asks for, and which shape its client speaks.
/// Routing decisions see what forwarding will see.
pub fn classify(get: bool, path: &str) -> (r: (Purpose, Protocol))
    ensures
        r.0 == purpose_of(get, route_of(path@)),
        r.1 == if config::anthropic_route(route_of(path@)) {
            Protocol::Anthropic
        } else {
            Protocol::OpenAi
        },
{
    let route = route(path);
    let purpose = if get && text::same_text(route, "/v1/models") {
        Purpose::Catalog
    } else if get && text::same_text(route, "/v1/props") {
        Purpose::Props
    } else {
        Purpose::Forward
    };
    (purpose, Protocol::of_route(route))
}

// --- Admission ---------------------------------------------------------------

/// Holds one concurrency slot until it is released.
pub struct InflightGuard {
    _held: (),
}

/// Claim a concurrency slot, or `None` when the proxy is already at `max`. A
/// refusal leaves the count as it was — otherwise every shed would permanently
/// shrink the pool by one, and the proxy would strangle itself under exactly the
/// load the cap exists to survive.
pub fn try_admit(counter: &mut usize, max: usize) -> (r: Option<InflightGuard>)
    ensures
        r is Some <==> *old(counter) < max,
        *final(counter) == if *old(counter) < max {
            (*old(counter) + 1) as usize
        } else {
            *old(counter)
        },
{
    if *counter >= max {
        None
    } else {
        *counter += 1;
        Some(InflightGuard { _held: () })
    }
}

impl InflightGuard {
    /// Free the slot, however the request ended.
    pub fn release(self, counter: &mut usize)
        ensures
            *final(counter) == if *old(counter) > 0 {
                (*old(counter) - 1) as usize
            } else {
                0
            },
    {
        if *counter > 0 {
            *counter -= 1;
        }
    }
}

/// Shed response. Carries `Retry-After` so a shed client backs off instead of
/// hammering, and a distinct code so this is diagnosable apart from the other
/// 503s. The configured cap is deliberately not disclosed to callers.
pub open spec fn overloaded_view() -> ReplyView {
    reply::with_header(
        reply::error_view(503, "overloaded"@, "proxy at capacity; retry shortly"@),
        "retry-after"@,
        "1"@,
    )
}

pub fn overloaded() -> (r: Reply)
    ensures
        r@ == overloaded_view(),
{
    reply::error(503, "overloaded", "proxy at capacity; retry shortly").header("retry-after", "1")
}

pub open spec fn deadline_view() -> ReplyView {
    reply::error_view(504, "deadline_exceeded"@, "request deadline exceeded"@)
}

pub fn deadline_exceeded() -> (r: Reply)
    ensures
        r@ == deadline_view(),
{
    reply::error(504, "deadline_exceeded", "request deadline exceeded")
}

/// The key a client presents. Anthropic-native clients send `x-api-key`; the OpenAI
/// world sends `Authorization: Bearer`. Either is accepted, so a client
/// authenticates the way its own protocol says to.
pub open spec fn presented(
    authorization: Option<Seq<char>>,
    api_key: Option<Seq<char>>,
) -> Option<Seq<char>> {
    match authorization {
        Some(a) => if text::has_prefix(a, "Bearer "@) {
            Some(a.skip("Bearer "@.len() as int))
        } else {
            api_key
        },
        None => api_key,
    }
}

/// Who is calling: the label of the client key that was presented. It is the
/// metrics dimension for "who" — trusted (admin-set), never the secret.
pub open spec fn caller(
    clients: Seq<ClientKey>,
    authorization: Option<Seq<char>>,
    api_key: Option<Seq<char>>,
) -> Option<Seq<char>> {
    match presented(authorization, api_key) {
        Some(k) => auth::client_label(clients, k),
        None => None,
    }
}

/// How a request fares at the door.
pub open spec fn turned_away(
    setup_required: bool,
    who: Option<Seq<char>>,
    no_lanes: bool,
    inflight: usize,
    max_inflight: usize,
) -> Option<ReplyView> {
    if setup_required {
        Some(reply::error_view(503, "setup_required"@, "setup required"@))
    } else if who is None {
        Some(reply::error_view(401, "unauthorized"@, "missing or invalid API key"@))
    } else if no_lanes {
        Some(reply::error_view(503, "no_capacity"@, "no enabled provider keys"@))
    } else if inflight >= max_inflight {
        Some(overloaded_view())
    } else {
        None
    }
}

/// The events counted after a request came to the door.
pub open spec fn events_at_door(
    events: Seq<(Seq<char>, u64)>,
    setup_required: bool,
    who: Option<Seq<char>>,
    no_lanes: bool,
    inflight: usize,
    max_inflight: usize,
) -> Seq<(Seq<char>, u64)> {
    if setup_required {
        events
    } else if who is None {
        metrics::event_counted(events, "unauthorized"@)
    } else if !no_lanes && inflight >= max_inflight {
        metrics::event_counted(events, "shed"@)
    } else {
        events
    }
}

/// The door: a valid client key must be presented, there must be a lane, and there
/// must be room. A request is turned away before it is parsed: an agent transcript
/// is a large body, so a flood must be shed before that cost is paid. Whoever gets
/// in holds a slot.
pub fn open_door(
    setup_required: bool,
    clients: &[ClientKey],
    authorization: Option<&str>,
    api_key: Option<&str>,
    no_lanes: bool,
    inflight: &mut usize,
    max_inflight: usize,
    metrics: &mut Metrics,
) -> (r: Result<(String, InflightGuard), Reply>)
    requires
        old(metrics).wf(),
    ensures
        ({
            let who = caller(clients@, auth::opt_view(authorization), auth::opt_view(api_key));
            let away = turned_away(setup_required, who, no_lanes, *old(inflight), max_inflight);
            &&& match r {
                Ok(p) => away is None && who == Some(p.0@) && *final(inflight) == *old(inflight)
                    + 1,
                Err(e) => away == Some(e@) && *final(inflight) == *old(inflight),
            }
            &&& final(metrics).events@ == events_at_door(
                old(metrics).events@,
                setup_required,
                who,
                no_lanes,
                *old(inflight),
                max_inflight,
            )
        }),
        final(metrics).wf(),
        *final(metrics) == (Metrics { events: final(metrics).events, ..*old(metrics) }),
{
    if setup_required {
        return Err(reply::error(503, "setup_required", "setup required"));
    }
    let key = match authorization {
        Some(a) => match text::strip_prefix(a, "Bearer ") {
            Some(k) => Some(k),
            None => api_key,
        },
        None => api_key,
    };
    let client = match key {
        Some(k) => auth::verify_client_key(k, clients),
        None => None,
    };
    match client {
        Some(client) => {
            if no_lanes {
                return Err(reply::error(503, "no_capacity", "no enabled provider keys"));
            }
            match try_admit(inflight, max_inflight) {
                Some(guard) => Ok((client, guard)),
                None => {
                    metrics.record_event("shed");
                    Err(overloaded())
                },
            }
        },
        None => {
            metrics.record_event("unauthorized");
            Err(reply::error(401, "unauthorized", "missing or invalid API key"))
        },
    }
}

/// Whether a request blocked by model pressure may go on.
pub enum Admission {
    /// A slot is held.
    Held(ModelPermit),
    /// None is free; ask again after the poll interval.
    Wait,
    /// None is free, and the deadline would pass first.
    Lost,
}

/// Ask for a model-concurrency slot, giving up if the deadline would pass before
/// the next poll. Ungoverned models always get one.
pub fn try_model(gov: &mut Governor, model: &str, deadline: Option<u128>, now: u128) -> (r: Admission)
    requires
        old(gov).wf(),
        old(gov).state(model@).inflight < usize::MAX,
        now + GOVERNOR_POLL <= u128::MAX,
    ensures
        final(gov).wf(),
        forall|m: Seq<char>| m != model@ ==> #[trigger] final(gov).state(m) == old(gov).state(m),
        ({
            let p = old(gov).state(model@);
            match r {
                Admission::Held(permit) => governor::has_slot(p, now) && permit.model@ == model@
                    && final(gov).state(model@) == governor::admitted(p, now),
                Admission::Lost => !governor::has_slot(p, now) && deadline is Some && now
                    + GOVERNOR_POLL >= deadline->0 && final(gov).state(model@)
                    == governor::current(p, now),
                Admission::Wait => !governor::has_slot(p, now) && (deadline is Some ==> now
                    + GOVERNOR_POLL < deadline->0) && final(gov).state(model@) == governor::current(p, now),
            }
        }),
{
    match governor::admit_request(gov, model, now) {
        Some(permit) => Admission::Held(permit),
        None => match deadline {
            Some(d) => if now + GOVERNOR_POLL >= d {
                Admission::Lost
            } else {
                Admission::Wait
            },
            None => Admission::Wait,
        },
    }
}

// --- Reading a request -------------------------------------------------------

/// The model a request names.
pub open spec fn model_in(v: JsonView) -> Option<Seq<char>> {
    json::str_of(json::field(v, "model"@))
}

pub fn requested_model(body: &Json) -> (r: Option<String>)
    ensures
        opt_texts(r) == model_in(body@),
        r matches Some(m) ==> json::field(body@, "model"@) == Some(JsonView::Str(m@)),
        r is None ==> !(json::field(body@, "model"@) matches Some(JsonView::Str(_))),
{
    match body.str_at("model") {
        Some(m) => Some(text::owned(m)),
        None => None,
    }
}

/// The first messages of a conversation, two at most.
pub open spec fn opening(messages: Seq<JsonView>) -> Seq<JsonView> {
    if messages.len() > 2 {
        messages.take(2)
    } else {
        messages
    }
}

/// What hashing the JSON texts of some messages writes.
pub open spec fn message_writes(messages: Seq<JsonView>) -> Seq<Seq<u8>>
    decreases messages.len(),
{
    if messages.len() == 0 {
        Seq::empty()
    } else {
        message_writes(messages.drop_last()) + seq![json::written(messages.last()), seq![0xffu8]]
    }
}

/// Conversation identity for sticky routing: the model plus the opening messages.
pub open spec fn conversation(v: JsonView) -> Option<u64> {
    match json::items_of(json::field(v, "messages"@)) {
        Some(messages) => {
            let model = match model_in(v) {
                Some(m) => m,
                None => ""@,
            };
            Some(
                hashing::hash_of(
                    hashing::text_writes(model) + message_writes(opening(messages)),
                ),
            )
        },
        None => None,
    }
}

/// What is hashed for the identity of a conversation that has messages.
pub open spec fn identity_writes(v: JsonView) -> Seq<Seq<u8>> {
    hashing::text_writes(
        match model_in(v) {
            Some(m) => m,
            None => ""@,
        },
    ) + message_writes(opening(json::items_of(json::field(v, "messages"@))->0))
}

/// Conversation identity for sticky routing: the model plus the opening messages.
/// An agent session appends to its transcript every turn but never rewrites the
/// head, so hashing the head yields the same value each turn while the tail grows
/// — which is exactly the prefix the upstream would have cached. `None` for
/// requests with no `messages` array, which carry no conversation to pin.
pub fn session_key(body: &Json) -> (r: Option<u64>)
    ensures
        r == conversation(body@),
        r is None <==> !(json::field(body@, "messages"@) matches Some(JsonView::Arr(_))),
        json::field(body@, "messages"@) matches Some(JsonView::Arr(m)) ==> m.len() >= 2 ==> r == Some(
            hashing::hash_of(
                seq![
                    vstd::utf8::encode_utf8(named_or_empty(body@)),
                    seq![0xffu8],
                    json::written(m[0]),
                    seq![0xffu8],
                    json::written(m[1]),
                    seq![0xffu8],
                ],
            ),
        ),
        json::field(body@, "messages"@) matches Some(JsonView::Arr(m)) ==> m.len() == 1 ==> r == Some(
            hashing::hash_of(
                seq![
                    vstd::utf8::encode_utf8(named_or_empty(body@)),
                    seq![0xffu8],
                    json::written(m[0]),
                    seq![0xffu8],
                ],
            ),
        ),
{
    let r = head_hash(body);
    proof {
        if let Some(JsonView::Arr(m)) = json::field(body@, "messages"@) {
            if m.len() >= 2 {
                lemma_identity_writes(body@, m);
            } else if m.len() == 1 {
                lemma_short_identity(body@, m);
            }
        }
    }
    r
}

fn head_hash(body: &Json) -> (r: Option<u64>)
    ensures
        r == conversation(body@),
{
    let messages = match body.array_at("messages") {
        Some(m) => m,
        None => {
            return None;
        },
    };
    let model = match body.str_at("model") {
        Some(m) => m,
        None => "",
    };
    let mut h = DefaultHasher::new();
    hashing::write_text(&mut h, model);
    let ghost head = h@;
    let ghost all = json::views(messages@);
    let take: usize = if messages.len() > 2 {
        2
    } else {
        messages.len()
    };
    let mut i: usize = 0;
    assert(head + message_writes(all.take(0)) =~= head);
    while i < take
        invariant
            i <= take <= messages@.len(),
            all == json::views(messages@),
            h@ == head + message_writes(all.take(i as int)),
        decreases take - i,
    {
        let raw = json::render(&messages[i]);
        let ghost before = h@;
        hashing::write_text_bytes(&mut h, raw.as_slice());
        i += 1;
        proof {
            let t = all.take(i as int);
            assert(t.drop_last() =~= all.take(i as int - 1));
            assert(t.last() == messages@[i as int - 1]@);
            assert(h@ =~= head + message_writes(t));
        }
    }
    proof {
        assert(all.take(take as int) =~= opening(all));
        assert(h@ =~= hashing::text_writes(model@) + message_writes(opening(all)));
    }
    Some(h.finish())
}

/// The same conversation keys identically however its tail grows: two requests for
/// the same model whose first two messages agree have one identity.
pub proof fn law_a_conversation_keeps_its_identity(
    a: JsonView,
    b: JsonView,
    short: Seq<JsonView>,
    tail: Seq<JsonView>,
)
    requires
        model_in(a) == model_in(b),
        short.len() >= 2,
        json::items_of(json::field(a, "messages"@)) == Some(short),
        json::items_of(json::field(b, "messages"@)) == Some(short + tail),
    ensures
        conversation(a) == conversation(b),
{
    assert(opening(short + tail) =~= opening(short));
}

/// True if the client asked for a streamed response (`"stream": true`).
pub open spec fn streams(v: JsonView) -> bool {
    json::bool_of(json::field(v, "stream"@)) == Some(true)
}

pub fn wants_stream(body: &Json) -> (r: bool)
    ensures
        r == streams(body@),
        r <==> json::field(body@, "stream"@) == Some(JsonView::Bool(true)),
{
    match body.get("stream") {
        Some(v) => match v.as_bool() {
            Some(b) => b,
            None => false,
        },
        None => false,
    }
}

/// How many items the array under `k` has.
pub open spec fn count_in(v: JsonView, k: Seq<char>) -> nat {
    match json::items_of(json::field(v, k)) {
        Some(items) => items.len(),
        None => 0,
    }
}

fn count_at(body: &Json, k: &str) -> (r: u64)
    ensures
        r == count_in(body@, k@),
{
    match body.array_at(k) {
        Some(items) => items.len() as u64,
        None => 0,
    }
}

pub open spec fn uint_or_zero(v: Option<JsonView>) -> u64 {
    match json::uint_of(v) {
        Some(n) => n,
        None => 0,
    }
}

/// What the harness asked for, in counts and sizes only. Conversation depth and
/// output budget are the two that explain a bill; temperature and tool count
/// explain behaviour that otherwise looks like the model changing. The temperature
/// comes as hundredths.
pub fn note_shape(metrics: &mut Metrics, client: &str, body: &Json, temperature_x100: u64)
    requires
        old(metrics).wf(),
    ensures
        final(metrics).wf(),
        *final(metrics) == (Metrics { shape: final(metrics).shape, ..*old(metrics) }),
        final(metrics).shape@ == metrics::shape_counted(
            old(metrics).shape@,
            client@,
            count_in(body@, "messages"@) as u64,
            count_in(body@, "tools"@) as u64,
            uint_or_zero(json::field(body@, "max_tokens"@)),
            temperature_x100,
        ),
{
    let max_tokens: u64 = match body.u64_at("max_tokens") {
        Some(n) => n,
        None => 0,
    };
    let messages: u64 = count_at(body, "messages");
    let tools: u64 = count_at(body, "tools");
    metrics.record_shape(client, messages, tools, max_tokens, temperature_x100);
}

// --- Rewriting a request -----------------------------------------------------

/// The request that the upstream report exact token counts.
pub open spec fn usage_option() -> JsonView {
    JsonView::Obj(seq![("include_usage"@, JsonView::Bool(true))])
}

/// A body that asks for exact token counts; none where there is nothing to do.
pub open spec fn asking_for_usage(v: JsonView) -> Option<Seq<u8>> {
    if v is Obj && json::field(v, "stream_options"@) is None {
        Some(json::written(json::with_field(v, "stream_options"@, usage_option())))
    } else {
        None
    }
}

pub open spec fn bytes_view(b: Option<Vec<u8>>) -> Option<Seq<u8>> {
    match b {
        Some(v) => Some(v@),
        None => None,
    }
}

/// Ask the upstream to report exact token counts in the final SSE frame by
/// setting `stream_options.include_usage`.
///
/// Without it a streamed response carries no usage at all and token figures have
/// to be guessed from frame counts. Returns `None` when there is nothing to do:
/// a body that isn't a JSON object, or one where the client already set
/// `stream_options` — their choice wins over our accounting.
pub fn inject_usage(body: &Json) -> (r: Option<Vec<u8>>)
    ensures
        bytes_view(r) == asking_for_usage(body@),
{
    let object = match body {
        Json::Obj(_) => true,
        _ => false,
    };
    if !object || body.get("stream_options").is_some() {
        return None;
    }
    let mut v = body.dup();
    let flag = Json::Bool(true);
    assert(flag@ == JsonView::Bool(true));
    v.set("stream_options", reply::one_field("include_usage", flag));
    Some(json::render(&v))
}

/// A body with its model replaced.
pub open spec fn with_model(body: Seq<u8>, model: Option<Seq<char>>) -> Seq<u8> {
    match model {
        Some(m) => match json::read(body) {
            Some(v) => if v is Obj {
                json::written(json::with_field(v, "model"@, JsonView::Str(m)))
            } else {
                body
            },
            None => body,
        },
        None => body,
    }
}

fn copy_bytes(b: &[u8]) -> (r: Vec<u8>)
    ensures
        r@ == b@,
{
    let mut out: Vec<u8> = Vec::new();
    let mut i: usize = 0;
    while i < b.len()
        invariant
            i <= b@.len(),
            out@ == b@.take(i as int),
        decreases b@.len() - i,
    {
        out.push(b[i]);
        i += 1;
        assert(out@ =~= b@.take(i as int));
    }
    assert(out@ =~= b@);
    out
}

/// A parsed body with its model replaced, as JSON text; `None` where it is not an
/// object.
pub fn replace_model(body: Json, model: &str) -> (r: Option<Vec<u8>>)
    ensures
        bytes_view(r) == if body@ is Obj {
            Some(json::written(json::with_field(body@, "model"@, JsonView::Str(model@))))
        } else {
            None
        },
{
    let object = match &body {
        Json::Obj(_) => true,
        _ => false,
    };
    if !object {
        return None;
    }
    let mut v = body;
    let name = Json::Str(text::owned(model));
    assert(name@ == JsonView::Str(model@));
    v.set("model", name);
    Some(json::render(&v))
}

/// Return `body` with its `model` field replaced, or unchanged if there's no
/// override or the body isn't a JSON object.
pub fn rewrite_model(body: &[u8], model: Option<&str>) -> (r: Vec<u8>)
    ensures
        r@ == with_model(body@, auth::opt_view(model)),
{
    match model {
        Some(m) => match json::parse(body) {
            Some(v) => match replace_model(v, m) {
                Some(bytes) => bytes,
                None => copy_bytes(body),
            },
            None => copy_bytes(body),
        },
        None => copy_bytes(body),
    }
}

/// What a streamed request sends first, and what it falls back to where the model
/// rejects what was added.
pub open spec fn streaming_bodies(
    body: Seq<u8>,
    parsed: Option<JsonView>,
    wire: Protocol,
    rejects_usage: bool,
) -> (Seq<u8>, Option<Seq<u8>>) {
    if wire == Protocol::OpenAi && !rejects_usage && parsed is Some && asking_for_usage(
        parsed->0,
    ) is Some {
        (asking_for_usage(parsed->0)->0, Some(body))
    } else {
        (body, None)
    }
}

/// Ask for exact token counts unless this model has already told us it rejects the
/// field; keep the original so that can be undone per request. OpenAI only:
/// Anthropic reports usage without being asked, and rejects unknown top-level
/// fields — so adding the option there turns a good request into a 400.
pub fn prepare_stream(
    body: Vec<u8>,
    parsed: Option<&Json>,
    wire: Protocol,
    rejects_usage: bool,
) -> (r: (Vec<u8>, Option<Vec<u8>>))
    ensures
        (r.0@, bytes_view(r.1)) == streaming_bodies(
            body@,
            match parsed {
                Some(v) => Some(v@),
                None => None,
            },
            wire,
            rejects_usage,
        ),
{
    if wire == Protocol::OpenAi && !rejects_usage {
        match parsed {
            Some(v) => {
                match inject_usage(v) {
                    Some(with_usage) => {
                        return (with_usage, Some(body));
                    },
                    None => {},
                }
            },
            None => {},
        }
    }
    (body, None)
}

// --- Routing plan ------------------------------------------------------------

/// One attempt in a request's routing plan: which provider to target (any if
/// `None`) and what model to send (unchanged if `None`).
pub struct PlanStep {
    pub provider: Option<String>,
    pub model: Option<String>,
}

pub struct StepView {
    pub provider: Option<Seq<char>>,
    pub model: Option<Seq<char>>,
}

impl View for PlanStep {
    type V = StepView;

    open spec fn view(&self) -> StepView {
        StepView { provider: auth::string_view(self.provider), model: auth::string_view(self.model) }
    }
}

pub open spec fn steps(plan: Seq<PlanStep>) -> Seq<StepView> {
    plan.map_values(|s: PlanStep| s@)
}

/// The steps of a virtual model: its targets in turn.
pub open spec fn alias_steps(alias: Alias) -> Seq<StepView> {
    Seq::new(
        alias.targets@.len(),
        |i: int|
            StepView {
                provider: Some(alias.targets@[i].provider@),
                model: Some(alias.targets@[i].model@),
            },
    )
}

/// How many attempts a plain model gets on any provider: at least one, since a
/// catalog can be stale, or never fetched at all, and being wrong about that must
/// not strand a request.
pub open spec fn anywhere(pool_len: nat, offering: nat) -> nat {
    let wanted: nat = if pool_len < 1 {
        1
    } else if pool_len > 4 {
        4
    } else {
        pool_len
    };
    if wanted > offering + 1 {
        (wanted - offering) as nat
    } else {
        1
    }
}

/// The steps of a plain model: the providers whose catalog lists it first, then any
/// lane.
pub open spec fn plain_steps(pool_len: nat, offering: Seq<Seq<char>>) -> Seq<StepView> {
    Seq::new(
        offering.len(),
        |i: int| StepView { provider: Some(offering[i]), model: None },
    ) + Seq::new(
        anywhere(pool_len, offering.len()),
        |i: int| StepView { provider: None, model: None },
    )
}

/// The plan for a requested model. A virtual model is an explicit instruction about
/// where to route; catalog contents are an inference, so the explicit one wins.
pub open spec fn plan_for(
    model: Option<Seq<char>>,
    aliases: Seq<Alias>,
    pool_len: nat,
    offering: Seq<Seq<char>>,
) -> Seq<StepView> {
    match model {
        Some(name) => match config::alias_index(aliases, name) {
            Some(i) => alias_steps(aliases[i]),
            None => plain_steps(pool_len, offering),
        },
        None => plain_steps(pool_len, offering),
    }
}

/// Resolve the requested model to an ordered plan. An alias expands to its fallback
/// targets; a plain model becomes up to a few "any lane, unchanged model" steps so
/// key-level failover still applies.
pub fn resolve_plan(
    model: Option<&str>,
    aliases: &[Alias],
    pool_len: usize,
    offering: &[String],
) -> (r: Vec<PlanStep>)
    ensures
        steps(r@) == plan_for(
            auth::opt_view(model),
            aliases@,
            pool_len as nat,
            text::texts(offering@),
        ),
        forall|k: int|
            model is Some && 0 <= k < aliases@.len() && (#[trigger] aliases@[k]).name@ == model->0@
                && (forall|j: int| 0 <= j < k ==> (#[trigger] aliases@[j]).name@ != model->0@)
                ==> r@.len() == aliases@[k].targets@.len() && forall|i: int|
                0 <= i < r@.len() ==> (#[trigger] r@[i]).provider is Some && r@[i].provider->0@
                    == aliases@[k].targets@[i].provider@ && r@[i].model is Some && r@[i].model->0@
                    == aliases@[k].targets@[i].model@,
{
    let plan = plan_steps(model, aliases, pool_len, offering);
    proof {
        assert forall|k: int|
            model is Some && 0 <= k < aliases@.len() && (#[trigger] aliases@[k]).name@ == model->0@
                && (forall|j: int| 0 <= j < k ==> (#[trigger] aliases@[j]).name@ != model->0@)
            implies plan@.len() == aliases@[k].targets@.len() && forall|i: int|
            0 <= i < plan@.len() ==> (#[trigger] plan@[i]).provider is Some && plan@[i].provider->0@
                == aliases@[k].targets@[i].provider@ && plan@[i].model is Some && plan@[i].model->0@
                == aliases@[k].targets@[i].model@ by {
            law_a_virtual_model_becomes_its_targets(
                model->0@,
                aliases@,
                k,
                pool_len as nat,
                text::texts(offering@),
            );
            assert forall|i: int| 0 <= i < plan@.len() implies (#[trigger] plan@[i]).provider is Some
                && plan@[i].provider->0@ == aliases@[k].targets@[i].provider@
                && plan@[i].model is Some && plan@[i].model->0@
                == aliases@[k].targets@[i].model@ by {
                assert(steps(plan@)[i] == plan@[i]@);
            }
        }
    }
    plan
}

fn plan_steps(
    model: Option<&str>,
    aliases: &[Alias],
    pool_len: usize,
    offering: &[String],
) -> (r: Vec<PlanStep>)
    ensures
        steps(r@) == plan_for(
            auth::opt_view(model),
            aliases@,
            pool_len as nat,
            text::texts(offering@),
        ),
{
    let mut plan: Vec<PlanStep> = Vec::new();
    match model {
        Some(name) => match config::find_alias(aliases, name) {
            Some(k) => {
                let targets = &aliases[k].targets;
                let mut i: usize = 0;
                while i < targets.len()
                    invariant
                        i <= targets@.len(),
                        plan@.len() == i,
                        forall|j: int|
                            0 <= j < i ==> (#[trigger] plan@[j])@ == (StepView {
                                provider: Some(targets@[j].provider@),
                                model: Some(targets@[j].model@),
                            }),
                    decreases targets@.len() - i,
                {
                    plan.push(
                        PlanStep {
                            provider: Some(targets[i].provider.clone()),
                            model: Some(targets[i].model.clone()),
                        },
                    );
                    i += 1;
                }
                assert(steps(plan@) =~= alias_steps(aliases@[k as int]));
                return plan;
            },
            None => {},
        },
        None => {},
    }
    let mut i: usize = 0;
    while i < offering.len()
        invariant
            i <= offering@.len(),
            plan@.len() == i,
            forall|j: int|
                0 <= j < i ==> (#[trigger] plan@[j])@ == (StepView {
                    provider: Some(offering@[j]@),
                    model: None,
                }),
        decreases offering@.len() - i,
    {
        plan.push(PlanStep { provider: Some(offering[i].clone()), model: None });
        i += 1;
    }
    let wanted: usize = if pool_len < 1 {
        1
    } else if pool_len > 4 {
        4
    } else {
        pool_len
    };
    let left: usize = if wanted > offering.len() && wanted - offering.len() > 1 {
        wanted - offering.len()
    } else {
        1
    };
    let mut k: usize = 0;
    while k < left
        invariant
            k <= left,
            plan@.len() == offering@.len() + k,
            forall|j: int|
                0 <= j < offering@.len() ==> (#[trigger] plan@[j])@ == (StepView {
                    provider: Some(offering@[j]@),
                    model: None,
                }),
            forall|j: int|
                offering@.len() <= j < plan@.len() ==> (#[trigger] plan@[j])@ == (StepView {
                    provider: None,
                    model: None,
                }),
        decreases left - k,
    {
        plan.push(PlanStep { provider: None, model: None });
        k += 1;
    }
    assert(steps(plan@) =~= plain_steps(pool_len as nat, text::texts(offering@)));
    plan
}

/// A plain model is never stranded by what a catalog says: its plan ends with a
/// step that any provider may serve, and begins with those that list it.
pub proof fn law_a_stale_catalog_strands_nobody(pool_len: nat, offering: Seq<Seq<char>>)
    ensures
        plain_steps(pool_len, offering).len() >= offering.len() + 1,
        plain_steps(pool_len, offering).last() == (StepView { provider: None, model: None }),
        forall|i: int|
            0 <= i < offering.len() ==> #[trigger] plain_steps(pool_len, offering)[i] == (StepView {
                provider: Some(offering[i]),
                model: None,
            }),
{
}

// --- Requests sent upstream --------------------------------------------------

/// A request to be sent upstream.
pub struct Outbound {
    pub url: String,
    pub headers: Vec<(String, String)>,
    pub body: Vec<u8>,
}

#[verifier::ext_equal]
pub struct OutboundView {
    pub url: Seq<char>,
    pub headers: Seq<(Seq<char>, Seq<char>)>,
    pub body: Seq<u8>,
}

impl View for Outbound {
    type V = OutboundView;

    open spec fn view(&self) -> OutboundView {
        OutboundView {
            url: self.url@,
            headers: reply::header_views(self.headers@),
            body: self.body@,
        }
    }
}

/// Does the client say which version of the API it speaks?
pub open spec fn states_version(headers: Seq<(Seq<char>, Seq<char>)>) -> bool {
    exists|i: int|
        0 <= i < headers.len() && text::lowered((#[trigger] headers[i]).0) == text::lowered(
            "anthropic-version"@,
        )
}

/// The headers with those that authenticate `key` upstream. Anthropic authenticates
/// with `x-api-key` and requires a version on every request. A client that sent its
/// own version keeps it: that header pins the response shape it is prepared to
/// parse, which is its call, not ours.
pub open spec fn authenticated(
    headers: Seq<(Seq<char>, Seq<char>)>,
    key: Seq<char>,
    protocol: Protocol,
) -> Seq<(Seq<char>, Seq<char>)> {
    match protocol {
        Protocol::OpenAi => headers.push(("authorization"@, "Bearer "@ + key)),
        Protocol::Anthropic => {
            let with_key = headers.push(("x-api-key"@, key));
            if states_version(headers) {
                with_key
            } else {
                with_key.push(("anthropic-version"@, "2023-06-01"@))
            }
        },
    }
}

fn has_version(headers: &Vec<(String, String)>) -> (r: bool)
    ensures
        r == states_version(reply::header_views(headers@)),
{
    let ghost all = reply::header_views(headers@);
    let mut i: usize = 0;
    while i < headers.len()
        invariant
            i <= headers@.len(),
            all == reply::header_views(headers@),
            forall|j: int|
                0 <= j < i ==> text::lowered((#[trigger] all[j]).0) != text::lowered(
                    "anthropic-version"@,
                ),
        decreases headers@.len() - i,
    {
        assert(all[i as int].0 == headers@[i as int].0@);
        if text::same_ignoring_case(headers[i].0.as_str(), "anthropic-version") {
            return true;
        }
        i += 1;
    }
    false
}

fn authenticate(headers: Vec<(String, String)>, key: &str, protocol: Protocol) -> (r: Vec<
    (String, String),
>)
    ensures
        reply::header_views(r@) == authenticated(reply::header_views(headers@), key@, protocol),
{
    let ghost all = reply::header_views(headers@);
    let mut out = headers;
    match protocol {
        Protocol::OpenAi => {
            let mut bearer = text::owned("Bearer ");
            bearer.append(key);
            out.push((text::owned("authorization"), bearer));
            assert(reply::header_views(out@) =~= all.push(("authorization"@, "Bearer "@ + key@)));
        },
        Protocol::Anthropic => {
            let stated = has_version(&out);
            out.push((text::owned("x-api-key"), text::owned(key)));
            let ghost with_key = all.push(("x-api-key"@, key@));
            assert(reply::header_views(out@) =~= with_key);
            if !stated {
                // Pinned rather than tracking latest: the version decides the
                // response shape, and silently moving it would change what clients
                // receive without them asking.
                out.push((text::owned("anthropic-version"), text::owned("2023-06-01")));
                assert(reply::header_views(out@) =~= with_key.push(
                    ("anthropic-version"@, "2023-06-01"@),
                ));
            }
        },
    }
    out
}

fn copy_headers(headers: &Vec<(String, String)>) -> (r: Vec<(String, String)>)
    ensures
        reply::header_views(r@) == reply::header_views(headers@),
{
    let mut out: Vec<(String, String)> = Vec::new();
    let mut i: usize = 0;
    while i < headers.len()
        invariant
            i <= headers@.len(),
            out@.len() == i,
            forall|j: int|
                0 <= j < i ==> (#[trigger] out@[j]).0@ == headers@[j].0@ && out@[j].1@
                    == headers@[j].1@,
        decreases headers@.len() - i,
    {
        out.push((headers[i].0.clone(), headers[i].1.clone()));
        i += 1;
    }
    assert(reply::header_views(out@) =~= reply::header_views(headers@));
    out
}

/// The request that is sent with `key`.
pub open spec fn outbound(
    base_url: Seq<char>,
    key: Seq<char>,
    protocol: Protocol,
    path: Seq<char>,
    headers: Seq<(Seq<char>, Seq<char>)>,
    body: Seq<u8>,
) -> OutboundView {
    OutboundView {
        url: base_url + path,
        headers: authenticated(headers, key, protocol),
        body,
    }
}

/// What is sent upstream on the lane that was granted.
pub fn build_request(
    permit: &Permit,
    path_query: &str,
    fwd_headers: &Vec<(String, String)>,
    body: Vec<u8>,
) -> (r: Outbound)
    ensures
        r@ == outbound(
            permit.base_url@,
            permit.key@,
            permit.protocol,
            path_query@,
            reply::header_views(fwd_headers@),
            body@,
        ),
{
    let mut url = permit.base_url.clone();
    url.append(path_query);
    Outbound {
        url,
        headers: authenticate(copy_headers(fwd_headers), permit.key.as_str(), permit.protocol),
        body,
    }
}

// --- Model catalog -----------------------------------------------------------

/// The request for one provider's catalog. It takes a rate slot like any other
/// upstream call — it is a real request against that key's budget, cache or not.
pub fn catalog_request(permit: &Permit) -> (r: Outbound)
    ensures
        r@ == outbound(
            permit.base_url@,
            permit.key@,
            permit.protocol,
            "/v1/models"@,
            Seq::empty(),
            Seq::empty(),
        ),
{
    let none: Vec<(String, String)> = Vec::new();
    assert(reply::header_views(none@) =~= Seq::<(Seq<char>, Seq<char>)>::empty());
    let body: Vec<u8> = Vec::new();
    build_request(permit, "/v1/models", &none, body)
}

/// The models in a provider's answer; none where the answer is no catalog.
pub open spec fn models_in(answer: Option<(u16, Seq<u8>)>) -> Option<Seq<JsonView>> {
    match answer {
        Some((status, body)) => if success(status) {
            match json::read(body) {
                Some(v) => match json::items_of(json::field(v, "data"@)) {
                    Some(items) => Some(items),
                    None => Some(Seq::empty()),
                },
                None => None,
            }
        } else {
            None
        },
        None => None,
    }
}

pub open spec fn answer_view(a: Option<(u16, Vec<u8>)>) -> Option<(u16, Seq<u8>)> {
    match a {
        Some((status, body)) => Some((status, body@)),
        None => None,
    }
}

fn read_catalog(answer: &Option<(u16, Vec<u8>)>) -> (r: Option<Vec<Json>>)
    ensures
        match r {
            Some(models) => models_in(answer_view(*answer)) == Some(json::views(models@)),
            None => models_in(answer_view(*answer)) is None,
        },
{
    match answer {
        Some((status, body)) => {
            if *status < 200 || *status >= 300 {
                return None;
            }
            match json::parse(body.as_slice()) {
                Some(v) => Some(models::extract(&v)),
                None => None,
            }
        },
        None => None,
    }
}

/// Take in a provider's answer to the question for its catalog: remember what it
/// lists, or fall back to what was last seen. One provider being unreachable must
/// not blank the whole catalog; one that was never reached is simply omitted.
pub fn take_catalog(
    catalog: &mut Catalog,
    provider: &str,
    answer: Option<(u16, Vec<u8>)>,
    now: u128,
) -> (r: Option<Vec<Json>>)
    requires
        old(catalog).wf(),
    ensures
        final(catalog).wf(),
        final(catalog).ttl() == old(catalog).ttl(),
        forall|p: Seq<char>|
            p != provider@ ==> #[trigger] final(catalog).listing(p) == old(catalog).listing(p),
        match models_in(answer_view(answer)) {
            Some(items) => final(catalog).listing(provider@) == Some(
                (models::Listing { fetched: now, models: items }),
            ) && r is Some && json::views(r->0@) == items,
            None => final(catalog).listing(provider@) == old(catalog).listing(provider@) && match r {
                Some(models) => old(catalog).listing(provider@) is Some && json::views(models@)
                    == old(catalog).listing(provider@)->0.models,
                None => old(catalog).listing(provider@) is None,
            },
        },
{
    match read_catalog(&answer) {
        Some(models) => {
            catalog.put(provider, models, now);
            catalog.stale(provider)
        },
        None => catalog.stale(provider),
    }
}

// --- Context windows ---------------------------------------------------------

/// The leading digits of a text.
pub open spec fn leading_digits(s: Seq<char>) -> Seq<char>
    decreases s.len(),
{
    if s.len() > 0 && text::is_digit(s[0]) {
        seq![s[0]] + leading_digits(s.drop_first())
    } else {
        Seq::empty()
    }
}

/// The context window that a provider's complaint states.
pub open spec fn stated_limit(body: Seq<char>) -> Option<nat> {
    match text::found(body, "maximum context length is "@) {
        Some(i) => text::read_number(
            leading_digits(body.skip(i + "maximum context length is "@.len())),
            u64::MAX as nat,
        ),
        None => None,
    }
}

proof fn lemma_leading_digits(s: Seq<char>, n: int)
    requires
        0 <= n <= s.len(),
        forall|i: int| 0 <= i < n ==> text::is_digit(#[trigger] s[i]),
        n < s.len() ==> !text::is_digit(s[n]),
    ensures
        leading_digits(s) == s.take(n),
    decreases s.len(),
{
    if n > 0 {
        let rest = s.drop_first();
        assert forall|i: int| 0 <= i < n - 1 implies text::is_digit(#[trigger] rest[i]) by {
            assert(rest[i] == s[i + 1]);
        }
        lemma_leading_digits(rest, n - 1);
        assert(text::is_digit(s[0]));
        assert(seq![s[0]] + rest.take(n - 1) =~= s.take(n));
    } else {
        assert(s.take(0) =~= Seq::<char>::empty());
    }
}

fn digit(c: char) -> (r: bool)
    ensures
        r == text::is_digit(c),
{
    '0' <= c && c <= '9'
}

/// Learn a model's context ceiling from the provider's own complaint about it.
///
/// Nothing in the OpenAI protocol publishes a context window — `/v1/models`
/// carries no such field — so every client is left to guess, and a guess that is
/// too high fails deep into a long session rather than at configuration time.
/// The providers do know the number, but only say it in the error you get for
/// exceeding it. Capturing it there turns a single overflow into a fact the
/// catalog can hand to every client afterwards.
pub fn parse_context_limit(body: &str) -> (r: Option<u64>)
    ensures
        match r {
            Some(n) => stated_limit(body@) == Some(n as nat),
            None => stated_limit(body@) is None,
        },
{
    let marker = "maximum context length is ";
    let at: usize = match text::find(body, marker) {
        Some(i) => i,
        None => {
            return None;
        },
    };
    let chars = text::chars_of(body);
    assert(at + marker@.len() <= chars.len());
    let from: usize = at + marker.unicode_len();
    let ghost rest = body@.skip(from as int);
    let mut to: usize = from;
    while to < chars.len() && digit(chars[to])
        invariant
            chars@ == body@,
            from <= to <= chars.len(),
            rest == body@.skip(from as int),
            forall|i: int| 0 <= i < to - from ==> text::is_digit(#[trigger] rest[i]),
        decreases chars@.len() - to,
    {
        assert(rest[to - from] == chars@[to as int]);
        to += 1;
    }
    proof {
        if to < chars@.len() {
            assert(rest[to - from] == chars@[to as int]);
        }
        lemma_leading_digits(rest, to - from);
        assert(rest.take(to - from) =~= chars@.subrange(from as int, to as int));
    }
    text::parse_chars(chars.as_slice(), from, to, u64::MAX)
}

/// What a client asking for the context window is told.
pub open spec fn props_document(n: u64) -> JsonView {
    JsonView::Obj(
        seq![
            (
                "default_generation_settings"@,
                JsonView::Obj(seq![("n_ctx"@, JsonView::UInt(n))]),
            ),
            ("n_ctx"@, JsonView::UInt(n)),
            ("total_slots"@, JsonView::UInt(1)),
        ],
    )
}

pub open spec fn props_view(smallest: Option<u64>) -> ReplyView {
    match smallest {
        Some(n) => reply::json_view(200, props_document(n)),
        None => reply::error_view(
            404,
            "unknown_context"@,
            "no context window observed yet for any model"@,
        ),
    }
}

fn props_json(n: u64) -> (r: Json)
    ensures
        r@ == props_document(n),
{
    let a = Json::UInt(n);
    let b = Json::UInt(n);
    let c = Json::UInt(1);
    let inner = reply::one_field("n_ctx", a);
    let mut fields: Vec<(String, Json)> = Vec::new();
    fields.push((text::owned("default_generation_settings"), inner));
    fields.push((text::owned("n_ctx"), b));
    fields.push((text::owned("total_slots"), c));
    let r = Json::Obj(fields);
    proof {
        assert(a@ == JsonView::UInt(n));
        assert(b@ == JsonView::UInt(n));
        assert(c@ == JsonView::UInt(1));
        assert(r@->Obj_0 =~= props_document(n)->Obj_0);
    }
    r
}

/// `/v1/props` is llama.cpp's, and harnesses poll it for `n_ctx` because it is the
/// only endpoint in common use that states a context window at all.
///
/// Answered only once a ceiling has actually been learned. A guess here is worse
/// than silence: silence leaves the client on its own default, while a wrong
/// `n_ctx` is a number it will trust.
pub fn answer_props(limits: &ContextLimits) -> (r: Reply)
    ensures
        r@ == props_view(models::least(limits.rows())),
{
    match limits.smallest() {
        Some(n) => reply::json_reply(200, &props_json(n)),
        None => reply::error(
            404,
            "unknown_context",
            "no context window observed yet for any model",
        ),
    }
}

// --- Bookkeeping -------------------------------------------------------------

/// Which key carried a request.
pub open spec fn key_label(lane: Option<usize>) -> Seq<char> {
    match lane {
        Some(i) => "key#"@ + text::decimal(i as nat),
        None => "-"@,
    }
}

/// The access line of a finished request. The **path** is in the line deliberately:
/// a misconfigured harness sends a path the proxy forwards verbatim, and the
/// provider answers a bare 404 that names nothing. So is the key: it answers
/// whether rotation is actually spreading load.
pub open spec fn access_line(
    client: Seq<char>,
    model: Seq<char>,
    path: Seq<char>,
    status: Seq<char>,
    lane: Option<usize>,
    ms: u64,
) -> Seq<char> {
    status + " "@ + client + " "@ + key_label(lane) + " "@ + model + " "@ + path + " ("@
        + text::decimal(ms as nat) + " ms)"@
}

/// Record a finished request: one metric, and one log line, which is returned.
pub fn record(
    metrics: &mut Metrics,
    client: &str,
    model: &str,
    path: &str,
    status: &str,
    lane: Option<usize>,
    ms: u64,
) -> (r: String)
    requires
        old(metrics).wf(),
    ensures
        final(metrics).wf(),
        *final(metrics) == (Metrics { requests: final(metrics).requests, ..*old(metrics) }),
        final(metrics).requests@ == metrics::counted(
            old(metrics).requests@,
            metrics::request_key(old(metrics).requests@, client@, model@, status@),
            1,
        ),
        r@ == access_line(client@, model@, path@, status@, lane, ms),
{
    metrics.record_request(client, model, status);
    let mut line = text::owned(status);
    line.append(" ");
    line.append(client);
    line.append(" ");
    let key = match lane {
        Some(i) => {
            let mut k = text::owned("key#");
            text::push_number(&mut k, i as u64);
            k
        },
        None => text::owned("-"),
    };
    line.append(key.as_str());
    line.append(" ");
    line.append(model);
    line.append(" ");
    line.append(path);
    line.append(" (");
    text::push_number(&mut line, ms);
    line.append(" ms)");
    line
}

/// How long a rebuffed lane stays out of rotation.
pub open spec fn cooldown(retry_after: Option<Seq<char>>) -> nat {
    match asked_to_wait(retry_after) {
        Some(d) => d,
        None => DEFAULT_BENCH as nat,
    }
}

/// Retries are invisible in the access log, which only records how a request
/// finally ended. This line counts the pushback behind it.
pub open spec fn bench_line(
    status: u16,
    provider: Seq<char>,
    lane: usize,
    model: Seq<char>,
    secs: nat,
) -> Seq<char> {
    "  retry "@ + text::decimal(status as nat) + " "@ + provider + " key#"@ + text::decimal(
        lane as nat,
    ) + " "@ + model + " (benched "@ + text::decimal(secs) + "s)"@
}

/// Take the rebuffed lane out of rotation for as long as the provider asked, or
/// a short default. A key that just answered 429 will answer the same way to the
/// next request, so without this every request pays to rediscover it. What is worth
/// logging is returned; a lane that a settings change has removed is left alone.
pub fn bench_lane(
    lanes: &mut Pool,
    metrics: &mut Metrics,
    lane_idx: usize,
    model: &str,
    status: u16,
    retry_header: Option<&str>,
    now: u128,
) -> (r: Option<String>)
    requires
        old(lanes).wf(),
        old(metrics).wf(),
        now + MAX_RETRY_AFTER <= u128::MAX,
    ensures
        final(lanes).wf(),
        final(lanes).window() == old(lanes).window(),
        final(metrics).wf(),
        *final(metrics) == (Metrics { events: final(metrics).events, ..*old(metrics) }),
        final(lanes).view_lanes().len() == old(lanes).view_lanes().len(),
        forall|i: int|
            0 <= i < old(lanes).view_lanes().len() && i != lane_idx ==>
                #[trigger] final(lanes).view_lanes()[i] == old(lanes).view_lanes()[i],
        if lane_idx < old(lanes).view_lanes().len() {
            let before = old(lanes).view_lanes()[lane_idx as int];
            let after = final(lanes).view_lanes()[lane_idx as int];
            let wait = cooldown(auth::opt_view(retry_header));
            &&& after.cooldown() == Some(
                pool::longer_cooldown(before.cooldown(), (now + wait) as u128),
            )
            &&& after.hits() == before.hits()
            &&& after.same_key(&before)
            &&& final(metrics).events@ == metrics::event_counted(
                old(metrics).events@,
                "lane_benched"@,
            )
            &&& opt_texts(r) == Some(
                bench_line(
                    status,
                    before.provider@,
                    lane_idx,
                    model@,
                    wait / (pool::SECOND as nat),
                ),
            )
        } else {
            final(metrics).events@ == old(metrics).events@ && r is None
        },
{
    let wait: u128 = match retry_after(retry_header) {
        Some(d) => d,
        None => DEFAULT_BENCH,
    };
    if lane_idx >= lanes.len() {
        return None;
    }
    assert(lanes.view_lanes()[lane_idx as int].wf());
    let lane = lanes.lane_mut(lane_idx);
    let provider = lane.provider.clone();
    lane.bench(now + wait);
    metrics.record_event("lane_benched");
    let mut line = text::owned("  retry ");
    text::push_number(&mut line, status as u64);
    line.append(" ");
    line.append(provider.as_str());
    line.append(" key#");
    text::push_number(&mut line, lane_idx as u64);
    line.append(" ");
    line.append(model);
    line.append(" (benched ");
    let secs: u64 = (wait / pool::SECOND) as u64;
    text::push_number(&mut line, secs);
    line.append("s)");
    Some(line)
}

// --- Stream frames -----------------------------------------------------------

/// A comment frame that keeps a stream alive.
pub fn heartbeat_frame() -> (r: Vec<u8>)
    ensures
        r@ == vstd::utf8::encode_utf8(": heartbeat\n\n"@),
{
    ": heartbeat\n\n".as_bytes_vec()
}

/// The frame that ends a stream with an error.
pub open spec fn error_frame(code: Seq<char>) -> Seq<char> {
    "event: error\ndata: {\"error\":{\"code\":\""@ + code + "\"}}\n\n"@
}

pub fn sse_error(code: &str) -> (r: Vec<u8>)
    ensures
        r@ == vstd::utf8::encode_utf8(error_frame(code@)),
{
    let mut s = text::owned("event: error\ndata: {\"error\":{\"code\":\"");
    s.append(code);
    s.append("\"}}\n\n");
    s.as_str().as_bytes_vec()
}

// --- What the rules come to --------------------------------------------------

/// A virtual model becomes its targets, one step each, in their order: step `i` names
/// the provider and the model of target `i`.
pub proof fn law_a_virtual_model_becomes_its_targets(
    name: Seq<char>,
    aliases: Seq<Alias>,
    k: int,
    pool_len: nat,
    offering: Seq<Seq<char>>,
)
    requires
        0 <= k < aliases.len(),
        aliases[k].name@ == name,
        forall|j: int| 0 <= j < k ==> (#[trigger] aliases[j]).name@ != name,
    ensures
        ({
            let plan = plan_for(Some(name), aliases, pool_len, offering);
            let targets = aliases[k].targets@;
            &&& plan.len() == targets.len()
            &&& forall|i: int|
                0 <= i < targets.len() ==> (#[trigger] plan[i]).provider == Some(
                    targets[i].provider@,
                ) && plan[i].model == Some(targets[i].model@)
        }),
{
    config::lemma_alias_found(aliases, name, k);
    let plan = plan_for(Some(name), aliases, pool_len, offering);
    assert(plan == alias_steps(aliases[k]));
}

/// A model that is not virtual is sent unchanged, first to each provider that lists it,
/// in order, then to any: as often as there are lanes, four times in all at most, and
/// once at least.
pub proof fn law_a_plain_model_is_tried_where_it_is_listed(
    model: Option<Seq<char>>,
    aliases: Seq<Alias>,
    pool_len: nat,
    offering: Seq<Seq<char>>,
)
    requires
        model matches Some(name) ==> forall|j: int|
            0 <= j < aliases.len() ==> (#[trigger] aliases[j]).name@ != name,
    ensures
        ({
            let plan = plan_for(model, aliases, pool_len, offering);
            &&& plan.len() > offering.len()
            &&& plan.len() == offering.len() + 1 || plan.len() == 4 || plan.len() == pool_len
            &&& plan.len() >= 4 || plan.len() >= pool_len
            &&& plan.len() <= 4 || plan.len() == offering.len() + 1
            &&& forall|i: int| 0 <= i < plan.len() ==> (#[trigger] plan[i]).model is None
            &&& forall|i: int|
                0 <= i < offering.len() ==> (#[trigger] plan[i]).provider == Some(offering[i])
            &&& forall|i: int|
                offering.len() <= i < plan.len() ==> (#[trigger] plan[i]).provider is None
        }),
{
    if model is Some {
        seqs::lemma_is_none(aliases, config::goes_by(model->0));
    }
}

/// What is hashed for the identity of a conversation tells its model and both opening
/// messages: where two conversations are hashed from the same bytes, the models are the
/// same, and so are the texts of the first and of the second messages.
pub proof fn law_an_identity_tells_the_opening_apart(
    a: JsonView,
    b: JsonView,
    ma: Seq<JsonView>,
    mb: Seq<JsonView>,
)
    requires
        json::field(a, "messages"@) == Some(JsonView::Arr(ma)),
        json::field(b, "messages"@) == Some(JsonView::Arr(mb)),
        ma.len() >= 2,
        mb.len() >= 2,
    ensures
        conversation(a) == Some(
            hashing::hash_of(
                seq![
                    vstd::utf8::encode_utf8(named_or_empty(a)),
                    seq![0xffu8],
                    json::written(ma[0]),
                    seq![0xffu8],
                    json::written(ma[1]),
                    seq![0xffu8],
                ],
            ),
        ),
        conversation(a) == Some(hashing::hash_of(identity_writes(a))),
        identity_writes(a) == identity_writes(b) ==> named_or_empty(a) == named_or_empty(b)
            && json::written(ma[0]) == json::written(mb[0]) && json::written(ma[1])
            == json::written(mb[1]),
{
    lemma_identity_writes(a, ma);
    lemma_identity_writes(b, mb);
    let x = identity_writes(a);
    let y = identity_writes(b);
    if x == y {
        assert(x[0] == y[0] && x[2] == y[2] && x[4] == y[4]);
        hashing::lemma_texts_apart(named_or_empty(a), named_or_empty(b));
    }
}

/// The model that a request names, or nothing.
pub open spec fn named_or_empty(v: JsonView) -> Seq<char> {
    match json::field(v, "model"@) {
        Some(JsonView::Str(m)) => m,
        _ => ""@,
    }
}

proof fn lemma_identity_writes(v: JsonView, messages: Seq<JsonView>)
    requires
        json::field(v, "messages"@) == Some(JsonView::Arr(messages)),
        messages.len() >= 2,
    ensures
        identity_writes(v) == seq![
            vstd::utf8::encode_utf8(named_or_empty(v)),
            seq![0xffu8],
            json::written(messages[0]),
            seq![0xffu8],
            json::written(messages[1]),
            seq![0xffu8],
        ],
{
    let two = opening(messages);
    let one = two.drop_last();
    assert(two =~= messages.take(2));
    assert(one.drop_last() =~= Seq::<JsonView>::empty());
    assert(message_writes(one.drop_last()) =~= Seq::<Seq<u8>>::empty());
    assert(message_writes(one) =~= seq![json::written(messages[0]), seq![0xffu8]]);
    assert(message_writes(two) =~= message_writes(one) + seq![
        json::written(messages[1]),
        seq![0xffu8],
    ]);
    assert(identity_writes(v) =~= seq![
        vstd::utf8::encode_utf8(named_or_empty(v)),
        seq![0xffu8],
        json::written(messages[0]),
        seq![0xffu8],
        json::written(messages[1]),
        seq![0xffu8],
    ]);
}

proof fn lemma_short_identity(v: JsonView, messages: Seq<JsonView>)
    requires
        json::field(v, "messages"@) == Some(JsonView::Arr(messages)),
        messages.len() == 1,
    ensures
        identity_writes(v) == seq![
            vstd::utf8::encode_utf8(named_or_empty(v)),
            seq![0xffu8],
            json::written(messages[0]),
            seq![0xffu8],
        ],
{
    assert(opening(messages) == messages);
    assert(messages.drop_last() =~= Seq::<JsonView>::empty());
    assert(message_writes(messages.drop_last()) =~= Seq::<Seq<u8>>::empty());
    assert(message_writes(messages) =~= seq![json::written(messages[0]), seq![0xffu8]]);
    assert(identity_writes(v) =~= seq![
        vstd::utf8::encode_utf8(named_or_empty(v)),
        seq![0xffu8],
        json::written(messages[0]),
        seq![0xffu8],
    ]);
}

/// A conversation of one message is told by its model and that message; what is hashed
/// for it is never what is hashed for a longer one.
pub proof fn law_a_short_conversation_is_its_own(
    a: JsonView,
    b: JsonView,
    ma: Seq<JsonView>,
    mb: Seq<JsonView>,
)
    requires
        json::field(a, "messages"@) == Some(JsonView::Arr(ma)),
        json::field(b, "messages"@) == Some(JsonView::Arr(mb)),
        ma.len() == 1,
    ensures
        conversation(a) == Some(hashing::hash_of(identity_writes(a))),
        mb.len() >= 2 ==> identity_writes(a) != identity_writes(b),
        mb.len() == 1 && identity_writes(a) == identity_writes(b) ==> named_or_empty(a)
            == named_or_empty(b) && json::written(ma[0]) == json::written(mb[0]),
{
    lemma_short_identity(a, ma);
    let x = identity_writes(a);
    let y = identity_writes(b);
    assert(x.len() == 4);
    if mb.len() >= 2 {
        lemma_identity_writes(b, mb);
        assert(y.len() == 6);
    } else if mb.len() == 1 {
        lemma_short_identity(b, mb);
        if x == y {
            assert(x[0] == y[0] && x[2] == y[2]);
            hashing::lemma_texts_apart(named_or_empty(a), named_or_empty(b));
        }
    }
}

/// A deadline is so many milliseconds from now, and a wait so many seconds but no more
/// than a minute, with space around the number or without.
pub proof fn law_times_are_read_as_stated(
    left: Seq<char>,
    n: u64,
    right: Seq<char>,
    now: u128,
)
    requires
        forall|i: int| 0 <= i < left.len() ==> text::is_space(#[trigger] left[i]),
        forall|i: int| 0 <= i < right.len() ==> text::is_space(#[trigger] right[i]),
    ensures
        ({
            let header = left + text::decimal(n as nat) + right;
            &&& deadline_at(Some(header), now) == Some((now + n * 1_000_000) as nat)
            &&& asked_to_wait(Some(header)) == Some(
                if n <= 60 {
                    (n * 1_000_000_000) as nat
                } else {
                    60_000_000_000
                },
            )
            &&& cooldown(Some(header)) == asked_to_wait(Some(header))->0
            &&& cooldown(None) == 5_000_000_000
        }),
        deadline_at(None, now) is None,
        asked_to_wait(None) is None,
{
    text::law_a_spaced_number_reads_back(left, n as nat, right, u64::MAX as nat);
}

/// Another attempt is worth it on a request that timed out, on too many requests, and on
/// a server that failed or is overloaded; never on a success or on a request that was
/// wrong.
pub proof fn law_pushback_is_worth_another_attempt(status: u16)
    ensures
        status == 408 || status == 429 || status == 500 || 502 <= status <= 504 || status == 529
            <==> retryable(status),
        success(status) ==> !retryable(status),
        success(status) <==> status / 100 == 2,
{
}

/// What belongs to one connection, and the client's own credentials, stay here however
/// they are spelled; every other header is passed on as it is.
pub proof fn law_credentials_stay_here(name: Seq<char>, value: Seq<char>, plain: Seq<char>)
    requires
        plain == "authorization"@ || plain == "x-api-key"@ || plain == "host"@ || plain
            == "content-length"@ || plain == "connection"@ || plain == "keep-alive"@ || plain
            == "proxy-authenticate"@ || plain == "proxy-authorization"@ || plain == "te"@ || plain
            == "trailer"@ || plain == "transfer-encoding"@ || plain == "upgrade"@,
    ensures
        text::lowered(name) == text::lowered(plain) ==> !passed_on((name, value)),
        !passed_on((name, value)) ==> exists|p: Seq<char>|
            #[trigger] text::lowered(p) == text::lowered(name) && (p == "authorization"@ || p
                == "x-api-key"@ || p == "host"@ || p == "content-length"@ || p == "connection"@ || p
                == "keep-alive"@ || p == "proxy-authenticate"@ || p == "proxy-authorization"@ || p
                == "te"@ || p == "trailer"@ || p == "transfer-encoding"@ || p == "upgrade"@),
{
    if !passed_on((name, value)) {
        let n = text::lowered(name);
        assert(n == text::lowered("authorization"@) || n == text::lowered("x-api-key"@) || n
            == text::lowered("host"@) || n == text::lowered("content-length"@) || n
            == text::lowered("connection"@) || n == text::lowered("keep-alive"@) || n
            == text::lowered("proxy-authenticate"@) || n == text::lowered("proxy-authorization"@)
            || n == text::lowered("te"@) || n == text::lowered("trailer"@) || n == text::lowered(
            "transfer-encoding"@,
        ) || n == text::lowered("upgrade"@));
    }
}

/// The upstream is asked at its own address, with its own key, in the header that its
/// protocol reads, and the client's headers come first, unchanged.
pub proof fn law_the_upstream_gets_its_own_key(
    base_url: Seq<char>,
    key: Seq<char>,
    protocol: Protocol,
    path: Seq<char>,
    headers: Seq<(Seq<char>, Seq<char>)>,
    body: Seq<u8>,
)
    ensures
        ({
            let o = outbound(base_url, key, protocol, path, headers, body);
            let n = headers.len() as int;
            &&& o.url == base_url + path
            &&& o.body == body
            &&& o.headers.len() > n
            &&& o.headers.take(n) == headers
            &&& protocol == Protocol::OpenAi ==> o.headers.len() == n + 1 && o.headers[n] == (
                "authorization"@,
                "Bearer "@ + key,
            )
            &&& protocol == Protocol::Anthropic ==> o.headers[n] == ("x-api-key"@, key) && {
                let stated = exists|i: int|
                    0 <= i < n && text::lowered((#[trigger] headers[i]).0) == text::lowered(
                        "anthropic-version"@,
                    );
                if stated {
                    o.headers.len() == n + 1
                } else {
                    o.headers.len() == n + 2 && o.headers[n + 1] == (
                        "anthropic-version"@,
                        "2023-06-01"@,
                    )
                }
            }
        }),
{
    let o = outbound(base_url, key, protocol, path, headers, body);
    assert(o.headers.take(headers.len() as int) =~= headers);
}

/// Nobody gets in but with a key whose digest is on record, presented as a bearer token
/// or, where there is none, as an API key; and then under that key's label.
pub proof fn law_only_a_known_key_gets_in(
    clients: Seq<ClientKey>,
    authorization: Option<Seq<char>>,
    api_key: Option<Seq<char>>,
    setup_required: bool,
    no_lanes: bool,
    inflight: usize,
    max_inflight: usize,
)
    ensures
        ({
            let who = caller(clients, authorization, api_key);
            let away = turned_away(setup_required, who, no_lanes, inflight, max_inflight);
            &&& away is None <==> !setup_required && who is Some && !no_lanes && inflight
                < max_inflight
            &&& who matches Some(label) ==> exists|secret: Seq<char>, i: int|
                0 <= i < clients.len() && #[trigger] clients[i].digest@
                    == #[trigger] crypto::sha256_hex_of(secret) && clients[i].label@ == label && (
                authorization == Some("Bearer "@ + secret) || api_key == Some(secret))
            &&& setup_required ==> away->0.status == 503
            &&& !setup_required && who is None ==> away->0.status == 401
            &&& !setup_required && who is Some && (no_lanes || inflight >= max_inflight)
                ==> away->0.status == 503
            &&& !setup_required && who is Some && !no_lanes && inflight >= max_inflight
                ==> away->0.headers.contains(("retry-after"@, "1"@))
        }),
        forall|secret: Seq<char>| #[trigger]
            presented(Some("Bearer "@ + secret), api_key) == Some(secret),
        presented(None, api_key) == api_key,
{
    let shed = overloaded_view();
    assert(shed.headers[1] == ("retry-after"@, "1"@));
    assert forall|secret: Seq<char>| #[trigger]
        presented(Some("Bearer "@ + secret), api_key) == Some(secret) by {
        let h = "Bearer "@ + secret;
        assert(h.take("Bearer "@.len() as int) =~= "Bearer "@);
        assert(h.skip("Bearer "@.len() as int) =~= secret);
    }
    let who = caller(clients, authorization, api_key);
    if who is Some {
        let secret = presented(authorization, api_key)->0;
        seqs::lemma_first_where(
            clients,
            |k: ClientKey| k.digest@ == crypto::sha256_hex_of(secret),
        );
        let i = auth::client_index(clients, secret)->0;
        assert(clients[i].digest@ == crypto::sha256_hex_of(secret));
        if authorization is Some && text::has_prefix(authorization->0, "Bearer "@) {
            assert(authorization->0 =~= "Bearer "@ + secret);
        }
    }
}

/// Replacing a model replaces that field and no other, and only where one is given for a
/// JSON object; every other body goes out byte for byte.
pub proof fn law_only_the_model_is_rewritten(body: Seq<u8>, model: Option<Seq<char>>)
    ensures
        model is None ==> with_model(body, model) == body,
        json::read(body) is None ==> with_model(body, model) == body,
        model is Some && (json::read(body) matches Some(v) && v is Obj) ==> exists|w: JsonView|
            with_model(body, model) == #[trigger] json::written(w) && w is Obj && json::field(
                w,
                "model"@,
            ) == Some(JsonView::Str(model->0)) && forall|k: Seq<char>|
                k != "model"@ ==> #[trigger] json::field(w, k) == json::field(
                    json::read(body)->0,
                    k,
                ),
{
    if model is Some && json::read(body) is Some && json::read(body)->0 is Obj {
        let v = json::read(body)->0;
        let w = json::with_field(v, "model"@, JsonView::Str(model->0));
        json::law_setting_a_field_sets_that_field_only(v, "model"@, JsonView::Str(model->0));
        assert(with_model(body, model) == json::written(w));
    }
}

/// Token counts are asked for where the client left the option open, and nothing else of
/// its request changes; its own choice is left alone, and so is what is no object. What
/// the client sent is kept for as long as something was added to it.
pub proof fn law_only_token_counts_are_asked_for(
    body: Seq<u8>,
    v: JsonView,
    wire: Protocol,
    rejects: bool,
)
    ensures
        !(v is Obj) || json::field(v, "stream_options"@) is Some ==> asking_for_usage(v) is None,
        v is Obj && json::field(v, "stream_options"@) is None ==> exists|w: JsonView|
            asking_for_usage(v) == Some(#[trigger] json::written(w)) && (json::field(
                w,
                "stream_options"@,
            ) matches Some(o) && json::field(o, "include_usage"@) == Some(JsonView::Bool(true)))
                && forall|k: Seq<char>|
                k != "stream_options"@ ==> #[trigger] json::field(w, k) == json::field(v, k),
        ({
            let (sent, kept) = streaming_bodies(body, Some(v), wire, rejects);
            &&& kept matches Some(k) ==> k == body
            &&& kept is None ==> sent == body
            &&& wire == Protocol::Anthropic || rejects ==> kept is None
            &&& wire == Protocol::OpenAi && !rejects && asking_for_usage(v) is Some
                ==> kept is Some && sent == asking_for_usage(v)->0
        }),
        streaming_bodies(body, None, wire, rejects) == (body, None::<Seq<u8>>),
{
    if v is Obj && json::field(v, "stream_options"@) is None {
        let o = usage_option();
        let w = json::with_field(v, "stream_options"@, o);
        json::law_setting_a_field_sets_that_field_only(v, "stream_options"@, o);
        table::lemma_is_at(o->Obj_0, "include_usage"@, 0);
        assert(json::field(o, "include_usage"@) == Some(JsonView::Bool(true)));
        assert(asking_for_usage(v) == Some(json::written(w)));
    }
}

/// A request is told apart by what stands before its query: the catalog and the window
/// are answered here and only when asked for, everything else is forwarded.
pub proof fn law_a_query_does_not_route(route: Seq<char>, query: Seq<char>)
    requires
        !route.contains('?'),
    ensures
        route_of(route) == route,
        route_of(route.push('?') + query) == route,
        purpose_of(true, "/v1/models"@) == Purpose::Catalog,
        purpose_of(true, "/v1/props"@) == Purpose::Props,
        forall|get: bool|
            #[trigger] purpose_of(get, route) != Purpose::Forward ==> get && (route
                == "/v1/models"@ || route == "/v1/props"@),
{
    reveal_strlit("/v1/models");
    reveal_strlit("/v1/props");
    let s = route.push('?') + query;
    let i = route.len() as int;
    text::lemma_uncut(route, '?');
    assert forall|j: int| 0 <= j < i implies s[j] != '?' by {
        assert(s[j] == route[j]);
        assert(route.contains(route[j]));
    }
    text::lemma_cut_first(s, '?', i);
    assert(s.take(i) =~= route);
    assert("/v1/models"@[4] != "/v1/props"@[4]);
}

/// A stated context window is read from the words that state it, where they first stand,
/// up to the first character that is no digit.
pub proof fn law_a_stated_window_is_read(before: Seq<char>, n: u64, after: Seq<char>)
    requires
        ({
            let m = "maximum context length is "@;
            let body = before + m + text::decimal(n as nat) + after;
            forall|j: int|
                0 <= j < before.len() ==> #[trigger] body.subrange(j, j + m.len()) != m
        }),
        after.len() == 0 || !text::is_digit(after[0]),
    ensures
        stated_limit(
            before + "maximum context length is "@ + text::decimal(n as nat) + after,
        ) == Some(n as nat),
{
    let m = "maximum context length is "@;
    let d = text::decimal(n as nat);
    let body = before + m + d + after;
    let i = before.len() as int;
    assert(body.subrange(i, i + m.len()) =~= m);
    text::law_the_first_place_is_found(body, m, i);
    assert(body.skip((before.len() + m.len()) as int) =~= d + after);
    text::lemma_decimal_digits(n as nat);
    text::law_decimal_reads_back(n as nat, u64::MAX as nat);
    lemma_leading(d, after);
}

proof fn lemma_leading(digits: Seq<char>, after: Seq<char>)
    requires
        text::all_digits(digits),
        after.len() == 0 || !text::is_digit(after[0]),
    ensures
        leading_digits(digits + after) == digits,
    decreases digits.len(),
{
    if digits.len() == 0 {
        assert(digits + after =~= after);
        assert(leading_digits(after) =~= digits);
    } else {
        let rest = digits.drop_first();
        assert forall|i: int| 0 <= i < rest.len() implies text::is_digit(#[trigger] rest[i]) by {
            assert(text::is_digit(digits[i + 1]));
        }
        lemma_leading(rest, after);
        assert((digits + after).drop_first() =~= rest + after);
        assert(text::is_digit(digits[0]));
        assert(leading_digits(digits + after) =~= digits);
    }
}

/// The line that is logged of a request begins with how it ended and names who asked,
/// which key carried it, the model, the path and how long it took.
pub proof fn law_the_access_line_names_everything(
    client: Seq<char>,
    model: Seq<char>,
    path: Seq<char>,
    status: Seq<char>,
    lane: usize,
    ms: u64,
)
    ensures
        ({
            let line = access_line(client, model, path, status, Some(lane), ms);
            &&& text::has_prefix(line, status)
            &&& text::holds(line, client)
            &&& text::holds(line, "key#"@ + text::decimal(lane as nat))
            &&& text::holds(line, model)
            &&& text::holds(line, path)
            &&& text::holds(line, text::decimal(ms as nat))
        }),
{
    let line = access_line(client, model, path, status, Some(lane), ms);
    let key = "key#"@ + text::decimal(lane as nat);
    let d = text::decimal(ms as nat);
    let a = status + " "@;
    let b = a + client + " "@;
    let c = b + key + " "@;
    let e = c + model + " "@;
    let f = e + path + " ("@;
    assert(line == f + d + " ms)"@);
    assert(line.take(status.len() as int) =~= status);
    lemma_within(f, d, " ms)"@);
    lemma_within_more(e, path, " ("@, d + " ms)"@);
    assert(line =~= e + path + " ("@ + (d + " ms)"@));
    lemma_within_more(c, model, " "@, path + " ("@ + d + " ms)"@);
    assert(line =~= c + model + " "@ + (path + " ("@ + d + " ms)"@));
    lemma_within_more(b, key, " "@, model + " "@ + path + " ("@ + d + " ms)"@);
    assert(line =~= b + key + " "@ + (model + " "@ + path + " ("@ + d + " ms)"@));
    lemma_within_more(a, client, " "@, key + " "@ + model + " "@ + path + " ("@ + d + " ms)"@);
    assert(line =~= a + client + " "@ + (key + " "@ + model + " "@ + path + " ("@ + d + " ms)"@));
}

proof fn lemma_within(a: Seq<char>, part: Seq<char>, b: Seq<char>)
    ensures
        text::holds(a + part + b, part),
{
}

proof fn lemma_within_more(a: Seq<char>, part: Seq<char>, b: Seq<char>, c: Seq<char>)
    ensures
        text::holds(a + part + b + c, part),
{
    assert(a + part + b + c =~= a + part + (b + c));
}

/// The frame that ends a stream is an error event whose data carries the code, and is
/// closed by an empty line.
pub proof fn law_an_error_frame_carries_its_code(code: Seq<char>)
    ensures
        text::has_prefix(error_frame(code), "event: error\n"@),
        text::holds(error_frame(code), "data: {\"error\":{\"code\":\""@ + code + "\"}}"@),
        text::has_suffix(error_frame(code), "\n\n"@),
{
    reveal_strlit("event: error\ndata: {\"error\":{\"code\":\"");
    reveal_strlit("event: error\n");
    reveal_strlit("data: {\"error\":{\"code\":\"");
    reveal_strlit("\"}}\n\n");
    reveal_strlit("\"}}");
    reveal_strlit("\n\n");
    let f = error_frame(code);
    let one = "event: error\n"@;
    let two = "data: {\"error\":{\"code\":\""@;
    let three = "\"}}"@;
    let four = "\n\n"@;
    assert("event: error\ndata: {\"error\":{\"code\":\""@ =~= one + two);
    assert("\"}}\n\n"@ =~= three + four);
    assert(f =~= one + (two + code + three) + four);
    assert(f.take(one.len() as int) =~= one);
    assert(f.skip(f.len() - four.len()) =~= four);
}

/// A client that asks for the context window is told the one learned, in both places
/// where it is looked for; while none is known, it is told that.
pub proof fn law_a_known_window_is_told(n: u64)
    ensures
        json::field(props_document(n), "n_ctx"@) == Some(JsonView::UInt(n)),
        json::nested(props_document(n), "default_generation_settings"@, "n_ctx"@) == Some(
            JsonView::UInt(n),
        ),
        props_view(Some(n)).status == 200,
        props_view(Some(n)).body == json::written(props_document(n)),
        props_view(None).status == 404,
{
    let doc = props_document(n)->Obj_0;
    reveal_strlit("default_generation_settings");
    reveal_strlit("n_ctx");
    assert("default_generation_settings"@.len() != "n_ctx"@.len());
    table::lemma_nth(doc, 0);
    table::lemma_nth(doc, 1);
    table::lemma_nth(doc[0].1->Obj_0, 0);
}

/// A provider's answer is a catalog where it is a success that can be read, and lists
/// what stands under `data`; a failure, and silence, is none.
pub proof fn law_only_a_success_is_a_catalog(status: u16, body: Seq<u8>, items: Seq<JsonView>)
    ensures
        models_in(None) is None,
        status / 100 != 2 || json::read(body) is None ==> models_in(Some((status, body))) is None,
        status / 100 == 2 && (json::read(body) matches Some(v) && json::field(v, "data"@) == Some(
            JsonView::Arr(items),
        )) ==> models_in(Some((status, body))) == Some(items),
{
}

/// At the door, a key that is not known and a request too many are events; whoever gets
/// in is none.
pub proof fn law_only_refusals_at_the_door_are_events(
    events: Seq<(Seq<char>, u64)>,
    who: Seq<char>,
    inflight: usize,
    max_inflight: usize,
    was: u64,
    shed: u64,
)
    requires
        table::get(events, metrics::sanitized("unauthorized"@)) == Some(was),
        table::get(events, metrics::sanitized("shed"@)) == Some(shed),
        was < u64::MAX,
        shed < u64::MAX,
    ensures
        table::get(
            events_at_door(events, false, None, false, inflight, max_inflight),
            metrics::sanitized("unauthorized"@),
        ) == Some((was + 1) as u64),
        inflight >= max_inflight ==> table::get(
            events_at_door(events, false, Some(who), false, inflight, max_inflight),
            metrics::sanitized("shed"@),
        ) == Some((shed + 1) as u64),
        inflight < max_inflight ==> events_at_door(
            events,
            false,
            Some(who),
            false,
            inflight,
            max_inflight,
        ) == events,
{
    metrics::law_an_event_is_counted_once(events, "unauthorized"@, was);
    metrics::law_an_event_is_counted_once(events, "shed"@, shed);
}

/// A refusal at the door carries the code of its reason, for a client to tell them apart.
pub proof fn law_a_refusal_at_the_door_carries_its_code(
    who: Option<Seq<char>>,
    no_lanes: bool,
    inflight: usize,
    max_inflight: usize,
)
    ensures
        states_code(turned_away(true, who, no_lanes, inflight, max_inflight), "setup_required"@),
        who is None ==> states_code(
            turned_away(false, who, no_lanes, inflight, max_inflight),
            "unauthorized"@,
        ),
        who is Some && no_lanes ==> states_code(
            turned_away(false, who, no_lanes, inflight, max_inflight),
            "no_capacity"@,
        ),
        who is Some && !no_lanes && inflight >= max_inflight ==> states_code(
            turned_away(false, who, no_lanes, inflight, max_inflight),
            "overloaded"@,
        ),
        states_code(Some(deadline_view()), "deadline_exceeded"@),
        deadline_view().status == 504,
        states_code(Some(props_view(None)), "unknown_context"@),
{
    lemma_states_code(503, "setup_required"@, "setup required"@);
    lemma_states_code(401, "unauthorized"@, "missing or invalid API key"@);
    lemma_states_code(503, "no_capacity"@, "no enabled provider keys"@);
    lemma_states_code(503, "overloaded"@, "proxy at capacity; retry shortly"@);
    lemma_states_code(504, "deadline_exceeded"@, "request deadline exceeded"@);
    lemma_states_code(404, "unknown_context"@, "no context window observed yet for any model"@);
    let shed = overloaded_view();
    assert(shed.body == json::written(
        reply::error_document("overloaded"@, "proxy at capacity; retry shortly"@),
    ));
}

/// Whether an answer is an error that states the code.
pub open spec fn states_code(r: Option<ReplyView>, code: Seq<char>) -> bool {
    r matches Some(v) && exists|doc: JsonView|
        v.body == #[trigger] json::written(doc) && json::nested(doc, "error"@, "code"@) == Some(
            JsonView::Str(code),
        )
}

proof fn lemma_states_code(status: u16, code: Seq<char>, message: Seq<char>)
    ensures
        states_code(Some(reply::error_view(status, code, message)), code),
        json::nested(reply::error_document(code, message), "error"@, "code"@) == Some(
            JsonView::Str(code),
        ),
{
    reply::law_an_error_states_its_code(status, code, message);
}

/// A key that comes with another scheme is not taken for a bearer token: the API key
/// counts.
pub proof fn law_another_scheme_is_no_bearer_token(a: Seq<char>, api_key: Option<Seq<char>>)
    requires
        forall|rest: Seq<char>| a != "Bearer "@ + rest,
    ensures
        presented(Some(a), api_key) == api_key,
{
    if text::has_prefix(a, "Bearer "@) {
        assert(a =~= "Bearer "@ + a.skip("Bearer "@.len() as int));
    }
}

/// What a request asks for is counted as it stands there: the items of a list, the value
/// of a number, and nothing where there is none.
pub proof fn law_a_request_is_sized_as_it_stands(
    v: JsonView,
    k: Seq<char>,
    items: Seq<JsonView>,
    n: u64,
)
    ensures
        json::field(v, k) == Some(JsonView::Arr(items)) ==> count_in(v, k) == items.len(),
        json::field(v, k) is None ==> count_in(v, k) == 0 && uint_or_zero(json::field(v, k)) == 0,
        json::field(v, k) == Some(JsonView::UInt(n)) ==> uint_or_zero(json::field(v, k)) == n,
        json::field(v, k) == Some(JsonView::Bool(true)) && k == "stream"@ ==> streams(v),
        json::field(v, "stream"@) != Some(JsonView::Bool(true)) ==> !streams(v),
{
}

/// The line that is logged of a rebuff names the status, the provider, the key, the model
/// and for how long the key is benched; a request that no key carried is marked so.
pub proof fn law_a_bench_is_logged(
    status: u16,
    provider: Seq<char>,
    lane: usize,
    model: Seq<char>,
    secs: nat,
)
    ensures
        ({
            let line = bench_line(status, provider, lane, model, secs);
            &&& text::holds(line, "  retry "@ + text::decimal(status as nat) + " "@)
            &&& text::holds(line, provider + " key#"@ + text::decimal(lane as nat))
            &&& text::holds(line, " "@ + model + " (benched "@ + text::decimal(secs) + "s)"@)
        }),
        key_label(None) == "-"@,
{
    let line = bench_line(status, provider, lane, model, secs);
    let a = "  retry "@ + text::decimal(status as nat) + " "@;
    let b = provider + " key#"@ + text::decimal(lane as nat);
    let c = " "@ + model + " (benched "@ + text::decimal(secs) + "s)"@;
    let none = Seq::<char>::empty();
    assert(line =~= none + a + (b + c));
    assert(line =~= a + b + c);
    assert(line =~= (a + b) + c + none);
}

} // verus!
