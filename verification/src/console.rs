//! The operator surface: who may reach which route, what the console reads, and the
//! knobs that are read at boot.

use vstd::prelude::*;

use crate::governor::ModelPressure;
use crate::history;
use crate::json;
use crate::json::{Json, JsonView};
use crate::metrics;
use crate::metrics::Metrics;
use crate::net;
use crate::net::{IpAddr, Rule};
use crate::pool;
use crate::pool::Pool;
use crate::proxy;
use crate::reply;
use crate::reply::{Reply, ReplyView};
use crate::table;
use crate::text;

verus! {

// --- Routes ------------------------------------------------------------------

/// What a caller has to show before a route answers.
#[derive(Clone, Copy, Debug, PartialEq, Eq, Structural)]
pub enum Guard {
    /// Nothing.
    Open,
    /// A client key.
    Client,
    /// A console session.
    Session,
    /// A console session, or HTTP Basic with an operator account: a scraper cannot
    /// follow a redirect into a login page.
    SessionOrBasic,
    /// A console session of an administrator.
    Admin,
}

/// The routes that reconfigure the server.
pub open spec fn reconfigures(path: Seq<char>) -> bool {
    ||| path == "/api/settings/providers"@
    ||| path == "/api/settings/provider-keys"@
    ||| path == "/api/settings/aliases"@
    ||| path == "/api/settings/limits"@
    ||| path == "/api/settings/users"@
}

/// The routes that any signed-in account may use. Client keys are self-service.
pub open spec fn signed_in(path: Seq<char>) -> bool {
    ||| path == "/"@
    ||| path == "/dash"@
    ||| path == "/dash/config.json"@
    ||| path == "/api/history"@
    ||| path == "/api/stats"@
    ||| path == "/api/pressure"@
    ||| path == "/api/savings"@
    ||| path == "/api/settings"@
    ||| path == "/api/settings/clients"@
}

/// The routes that answer anyone.
pub open spec fn open_to_all(path: Seq<char>) -> bool {
    ||| path == "/health"@
    ||| path == "/login"@
    ||| path == "/logout"@
    ||| path == "/setup"@
}

/// The data plane.
pub open spec fn data_plane(path: Seq<char>) -> bool {
    path.len() > 4 && text::has_prefix(path, "/v1/"@)
}

/// What the route `path` asks of a caller; `None` where there is no such route.
pub open spec fn guard_view(path: Seq<char>) -> Option<Guard> {
    if data_plane(path) {
        Some(Guard::Client)
    } else if reconfigures(path) {
        Some(Guard::Admin)
    } else if path == "/metrics"@ {
        Some(Guard::SessionOrBasic)
    } else if signed_in(path) {
        Some(Guard::Session)
    } else if open_to_all(path) {
        Some(Guard::Open)
    } else {
        None
    }
}

/// What the route `path` asks of a caller; `None` where there is no such route.
pub fn guard_of(path: &str) -> (r: Option<Guard>)
    ensures
        r == guard_view(path@),
{
    if path.unicode_len() > 4 && text::strip_prefix(path, "/v1/").is_some() {
        return Some(Guard::Client);
    }
    if text::same_text(path, "/api/settings/providers") || text::same_text(
        path,
        "/api/settings/provider-keys",
    ) || text::same_text(path, "/api/settings/aliases") || text::same_text(
        path,
        "/api/settings/limits",
    ) || text::same_text(path, "/api/settings/users") {
        return Some(Guard::Admin);
    }
    if text::same_text(path, "/metrics") {
        return Some(Guard::SessionOrBasic);
    }
    if text::same_text(path, "/") || text::same_text(path, "/dash") || text::same_text(
        path,
        "/dash/config.json",
    ) || text::same_text(path, "/api/history") || text::same_text(path, "/api/stats")
        || text::same_text(path, "/api/pressure") || text::same_text(path, "/api/savings")
        || text::same_text(path, "/api/settings") || text::same_text(
        path,
        "/api/settings/clients",
    ) {
        return Some(Guard::Session);
    }
    if text::same_text(path, "/health") || text::same_text(path, "/login") || text::same_text(
        path,
        "/logout",
    ) || text::same_text(path, "/setup") {
        return Some(Guard::Open);
    }
    None
}

/// Whoever may reconfigure the server is an administrator.
pub proof fn law_reconfiguring_takes_an_administrator(path: Seq<char>)
    requires
        reconfigures(path),
    ensures
        guard_view(path) == Some(Guard::Admin),
{
    reveal_strlit("/v1/");
    reveal_strlit("/api/settings/providers");
    reveal_strlit("/api/settings/provider-keys");
    reveal_strlit("/api/settings/aliases");
    reveal_strlit("/api/settings/limits");
    reveal_strlit("/api/settings/users");
    if text::has_prefix(path, "/v1/"@) {
        assert(path.take(4)[1] == 'v');
    }
}

/// May `peer` reach the route `path`? A rule that admits nothing must still leave
/// `/health` answerable, or the supervisor kills a proxy that is working.
pub open spec fn reachable(rules: Seq<Rule>, peer: IpAddr, path: Seq<char>) -> bool {
    path == "/health"@ || net::allowed(rules, peer)
}

/// What a caller from elsewhere is told.
pub open spec fn stranger() -> ReplyView {
    reply::error_view(403, "forbidden"@, "this address is not on the allowlist"@)
}

/// Turn away a caller from an address that is not on the allowlist.
pub fn check_peer(rules: &[Rule], peer: IpAddr, path: &str) -> (r: Result<(), Reply>)
    requires
        forall|i: int| 0 <= i < rules@.len() ==> net::valid(#[trigger] rules@[i]),
    ensures
        r is Ok <==> reachable(rules@, peer, path@),
        r matches Err(e) ==> e@ == stranger(),
{
    if text::same_text(path, "/health") || net::permitted(rules, peer) {
        Ok(())
    } else {
        Err(reply::error(403, "forbidden", "this address is not on the allowlist"))
    }
}

/// No allowlist locks out the host itself, or hides its health.
pub proof fn law_loopback_and_health_stay_reachable(
    rules: Seq<Rule>,
    peer: IpAddr,
    path: Seq<char>,
)
    requires
        net::loopback(peer) || path == "/health"@,
    ensures
        reachable(rules, peer, path),
{
}

// --- Hardening ---------------------------------------------------------------

/// `default-src 'none'` plus explicit allowances for the console's own inline
/// assets; `connect-src 'self'` stops an injected element from exfiltrating to
/// another origin.
pub const CONTENT_SECURITY_POLICY: &'static str =
    "default-src 'none'; img-src 'self' data:; style-src 'self' 'unsafe-inline'; script-src 'self' 'unsafe-inline'; connect-src 'self'; frame-ancestors 'none'; base-uri 'none'; form-action 'self'";

/// The hardening headers of every response.
pub open spec fn hardening() -> Seq<(Seq<char>, Seq<char>)> {
    seq![
        ("content-security-policy"@, CONTENT_SECURITY_POLICY@),
        ("x-content-type-options"@, "nosniff"@),
        ("x-frame-options"@, "DENY"@),
        ("referrer-policy"@, "no-referrer"@),
    ]
}

/// The hardening headers of every response.
pub fn security_headers() -> (r: Vec<(String, String)>)
    ensures
        reply::header_views(r@) == hardening(),
        reply::header_views(r@).contains(("content-security-policy"@, CONTENT_SECURITY_POLICY@)),
        reply::header_views(r@).contains(("x-content-type-options"@, "nosniff"@)),
        reply::header_views(r@).contains(("x-frame-options"@, "DENY"@)),
        reply::header_views(r@).contains(("referrer-policy"@, "no-referrer"@)),
{
    let mut r: Vec<(String, String)> = Vec::new();
    r.push((text::owned("content-security-policy"), text::owned(CONTENT_SECURITY_POLICY)));
    r.push((text::owned("x-content-type-options"), text::owned("nosniff")));
    r.push((text::owned("x-frame-options"), text::owned("DENY")));
    r.push((text::owned("referrer-policy"), text::owned("no-referrer")));
    assert(reply::header_views(r@) =~= hardening());
    proof {
        let h = hardening();
        assert(h.contains(h[0]) && h.contains(h[1]) && h.contains(h[2]) && h.contains(h[3]));
    }
    r
}

// --- What the console reads --------------------------------------------------

pub const DAY_SECS: u64 = 86_400;

/// A number given in a query, or what it is taken for.
pub open spec fn given_or(given: Option<Seq<char>>, other: u64) -> u64 {
    match given {
        Some(s) => match text::read_number(s, u64::MAX as nat) {
            Some(n) => n as u64,
            None => other,
        },
        None => other,
    }
}

fn read_or(given: Option<&str>, other: u64) -> (r: u64)
    ensures
        r == given_or(
            match given {
                Some(s) => Some(s@),
                None => None,
            },
            other,
        ),
{
    match given {
        Some(s) => match text::parse_number(s, u64::MAX) {
            Some(n) => n,
            None => other,
        },
        None => other,
    }
}

/// The range of time a history query asks for: the last day, where it does not say.
pub fn history_bounds(from: Option<&str>, to: Option<&str>, now: u64) -> (r: (u64, u64))
    ensures
        r.0 == given_or(
            match from {
                Some(s) => Some(s@),
                None => None,
            },
            if now >= DAY_SECS {
                (now - DAY_SECS) as u64
            } else {
                0
            },
        ),
        r.1 == given_or(
            match to {
                Some(s) => Some(s@),
                None => None,
            },
            now,
        ),
        from is None && now >= 86_400 ==> r.0 == now - 86_400,
        to is None ==> r.1 == now,
        forall|n: u64| (from matches Some(s) && s@ == #[trigger] text::decimal(n as nat)) ==> r.0 == n,
        forall|n: u64| (to matches Some(s) && s@ == #[trigger] text::decimal(n as nat)) ==> r.1 == n,
{
    proof {
        assert forall|n: u64| text::read_number(#[trigger] text::decimal(n as nat), u64::MAX as nat)
            == Some(n as nat) by {
            text::law_decimal_reads_back(n as nat, u64::MAX as nat);
        }
    }
    let day_ago: u64 = if now >= DAY_SECS {
        now - DAY_SECS
    } else {
        0
    };
    (read_or(from, day_ago), read_or(to, now))
}

/// The metrics, as a scraper reads them.
pub fn metrics_reply(m: &Metrics) -> (r: Reply)
    ensures
        r@ == (ReplyView {
            status: 200,
            headers: seq![("content-type"@, "text/plain; version=0.0.4"@)],
            body: vstd::utf8::encode_utf8(metrics::exposition(*m)),
        }),
{
    let mut headers: Vec<(String, String)> = Vec::new();
    headers.push((text::owned("content-type"), text::owned("text/plain; version=0.0.4")));
    let body = m.render();
    let r = Reply { status: 200, headers, body: body.as_str().as_bytes_vec() };
    assert(r@.headers =~= seq![("content-type"@, "text/plain; version=0.0.4"@)]);
    r
}

pub open spec fn pressure_entry(p: ModelPressure) -> JsonView {
    JsonView::Obj(
        seq![
            ("model"@, JsonView::Str(p.model@)),
            ("limit"@, JsonView::UInt(p.limit as u64)),
            ("inflight"@, JsonView::UInt(p.inflight as u64)),
        ],
    )
}

/// Models currently held back by provider-side pressure. Separate from rate
/// capacity on purpose: these requests never reach the rate limiter, so rate
/// figures read idle while they wait. An operator seeing "0% capacity used" and
/// a stalled agent needs this to be visible somewhere.
pub fn pressure_document(pressured: &Vec<ModelPressure>) -> (r: Json)
    ensures
        r@ == JsonView::Obj(
            seq![
                (
                    "pressured"@,
                    JsonView::Arr(pressured@.map_values(|p: ModelPressure| pressure_entry(p))),
                ),
            ],
        ),
{
    let mut out: Vec<Json> = Vec::new();
    let mut i: usize = 0;
    while i < pressured.len()
        invariant
            i <= pressured@.len(),
            out@.len() == i,
            forall|j: int| 0 <= j < i ==> (#[trigger] out@[j])@ == pressure_entry(pressured@[j]),
        decreases pressured@.len() - i,
    {
        let model = Json::Str(pressured[i].model.clone());
        let limit = Json::UInt(pressured[i].limit as u64);
        let inflight = Json::UInt(pressured[i].inflight as u64);
        out.push(reply::three_fields("model", model, "limit", limit, "inflight", inflight));
        i += 1;
    }
    let list = Json::Arr(out);
    assert(list@->Arr_0 =~= pressured@.map_values(|p: ModelPressure| pressure_entry(p)));
    reply::one_field("pressured", list)
}

/// The shape of the pool and the uptime, as the console reads them.
pub open spec fn dash_view(
    version: Seq<char>,
    lanes: Seq<pool::Lane>,
    started: u64,
    window_secs: u64,
) -> JsonView {
    JsonView::Obj(
        seq![
            ("version"@, JsonView::Str(version)),
            ("lanes"@, JsonView::UInt(lanes.len() as u64)),
            ("capacity_rpm"@, JsonView::UInt(pool::total_rpm(lanes) as u64)),
            (
                "rpms"@,
                JsonView::Arr(Seq::new(lanes.len(), |i: int| JsonView::UInt(lanes[i].rpm as u64))),
            ),
            ("started"@, JsonView::UInt(started)),
            ("provider_window_secs"@, JsonView::UInt(window_secs)),
        ],
    )
}

/// Live bootstrap config for the console (pool shape, capacity, uptime).
pub fn dash_config(version: &str, pool: &Pool, started: u64, window_secs: u64) -> (r: Json)
    requires
        pool::total_rpm(pool.view_lanes()) <= usize::MAX,
    ensures
        r@ == dash_view(version@, pool.view_lanes(), started, window_secs),
{
    let rates = pool.rpms();
    let mut out: Vec<Json> = Vec::new();
    let mut i: usize = 0;
    while i < rates.len()
        invariant
            i <= rates@.len(),
            out@.len() == i,
            forall|j: int| 0 <= j < i ==> (#[trigger] out@[j])@ == JsonView::UInt(rates@[j] as u64),
        decreases rates@.len() - i,
    {
        out.push(Json::UInt(rates[i] as u64));
        i += 1;
    }
    let list = Json::Arr(out);
    assert(list@->Arr_0 =~= Seq::new(
        pool.view_lanes().len(),
        |i: int| JsonView::UInt(pool.view_lanes()[i].rpm as u64),
    ));
    let name = Json::Str(text::owned(version));
    let lanes = Json::UInt(pool.len() as u64);
    let capacity = Json::UInt(pool.capacity_rpm() as u64);
    let since = Json::UInt(started);
    let window = Json::UInt(window_secs);
    let head = reply::three_fields("version", name, "lanes", lanes, "capacity_rpm", capacity);
    let mid = reply::and_field(head, "rpms", list);
    let r = reply::and_field(
        reply::and_field(mid, "started", since),
        "provider_window_secs",
        window,
    );
    assert(r@->Obj_0 =~= dash_view(version@, pool.view_lanes(), started, window_secs)->Obj_0);
    r
}

// --- Boot --------------------------------------------------------------------

/// The seconds between two snapshots of the request total.
pub fn sample_secs(given: &str) -> (r: u64)
    ensures
        r == match text::read_number(given@, u64::MAX as nat) {
            Some(n) => if n == 0 {
                1u64
            } else {
                n as u64
            },
            None => history::SAMPLE_SECS,
        },
        forall|n: u64|
            given@ == #[trigger] text::decimal(n as nat) ==> r >= 1 && (n >= 1 ==> r == n),
{
    proof {
        assert forall|n: u64| text::read_number(#[trigger] text::decimal(n as nat), u64::MAX as nat)
            == Some(n as nat) by {
            text::law_decimal_reads_back(n as nat, u64::MAX as nat);
        }
    }
    match text::parse_number(given, u64::MAX) {
        Some(n) => if n == 0 {
            1
        } else {
            n
        },
        None => history::SAMPLE_SECS,
    }
}

/// The provider's rate window in nanoseconds, given in milliseconds; a minute,
/// where nothing is given.
pub fn provider_window(given: &str) -> (r: u128)
    ensures
        r == match text::read_number(given@, u64::MAX as nat) {
            Some(n) => n * proxy::MILLISECOND,
            None => pool::PROVIDER_WINDOW as int,
        },
        r + pool::JITTER_MARGIN <= u128::MAX,
        forall|n: u64| given@ == #[trigger] text::decimal(n as nat) ==> r == n * 1_000_000,
{
    proof {
        assert forall|n: u64| text::read_number(#[trigger] text::decimal(n as nat), u64::MAX as nat)
            == Some(n as nat) by {
            text::law_decimal_reads_back(n as nat, u64::MAX as nat);
        }
    }
    match text::parse_number(given, u64::MAX) {
        Some(n) => n as u128 * proxy::MILLISECOND,
        None => pool::PROVIDER_WINDOW,
    }
}

// --- What the routes come to -------------------------------------------------

/// Every route asks of its callers what it should: the data plane a client key, changes
/// of the server an administrator, the numbers a session or credentials, the console a
/// session, and only the way in nothing. Every other path is no route.
pub proof fn law_every_route_is_guarded(path: Seq<char>, rest: Seq<char>)
    ensures
        rest.len() > 0 ==> guard_view("/v1/"@ + rest) == Some(Guard::Client),
        guard_view(path) == Some(Guard::Client) ==> exists|r: Seq<char>|
            r.len() > 0 && path == #[trigger] ("/v1/"@ + r),
        guard_view(path) == Some(Guard::Admin) <==> (path == "/api/settings/providers"@ || path == "/api/settings/provider-keys"@ || path == "/api/settings/aliases"@ || path == "/api/settings/limits"@ || path == "/api/settings/users"@),
        guard_view(path) == Some(Guard::Session) <==> (path == "/"@ || path == "/dash"@ || path == "/dash/config.json"@ || path == "/api/history"@ || path == "/api/stats"@ || path == "/api/pressure"@ || path == "/api/savings"@ || path == "/api/settings"@ || path == "/api/settings/clients"@),
        guard_view(path) == Some(Guard::Open) <==> (path == "/health"@ || path == "/login"@ || path == "/logout"@ || path == "/setup"@),
        guard_view(path) == Some(Guard::SessionOrBasic) <==> path == "/metrics"@,
{
    lemma_routes_apart();
    reveal_strlit("/v1/");
    let framed = "/v1/"@ + rest;
    assert(framed.take(4) =~= "/v1/"@);
    if data_plane(path) {
        assert(path =~= "/v1/"@ + path.skip(4));
    }
}

proof fn lemma_routes_apart()
    ensures
        "/"@ != "/api/settings/providers"@,
        "/"@ != "/api/settings/provider-keys"@,
        "/"@ != "/api/settings/aliases"@,
        "/"@ != "/api/settings/limits"@,
        "/"@ != "/api/settings/users"@,
        "/dash"@ != "/api/settings/providers"@,
        "/dash"@ != "/api/settings/provider-keys"@,
        "/dash"@ != "/api/settings/aliases"@,
        "/dash"@ != "/api/settings/limits"@,
        "/dash"@ != "/api/settings/users"@,
        "/dash/config.json"@ != "/api/settings/providers"@,
        "/dash/config.json"@ != "/api/settings/provider-keys"@,
        "/dash/config.json"@ != "/api/settings/aliases"@,
        "/dash/config.json"@ != "/api/settings/limits"@,
        "/dash/config.json"@ != "/api/settings/users"@,
        "/api/history"@ != "/api/settings/providers"@,
        "/api/history"@ != "/api/settings/provider-keys"@,
        "/api/history"@ != "/api/settings/aliases"@,
        "/api/history"@ != "/api/settings/limits"@,
        "/api/history"@ != "/api/settings/users"@,
        "/api/stats"@ != "/api/settings/providers"@,
        "/api/stats"@ != "/api/settings/provider-keys"@,
        "/api/stats"@ != "/api/settings/aliases"@,
        "/api/stats"@ != "/api/settings/limits"@,
        "/api/stats"@ != "/api/settings/users"@,
        "/api/pressure"@ != "/api/settings/providers"@,
        "/api/pressure"@ != "/api/settings/provider-keys"@,
        "/api/pressure"@ != "/api/settings/aliases"@,
        "/api/pressure"@ != "/api/settings/limits"@,
        "/api/pressure"@ != "/api/settings/users"@,
        "/api/savings"@ != "/api/settings/providers"@,
        "/api/savings"@ != "/api/settings/provider-keys"@,
        "/api/savings"@ != "/api/settings/aliases"@,
        "/api/savings"@ != "/api/settings/limits"@,
        "/api/savings"@ != "/api/settings/users"@,
        "/api/settings"@ != "/api/settings/providers"@,
        "/api/settings"@ != "/api/settings/provider-keys"@,
        "/api/settings"@ != "/api/settings/aliases"@,
        "/api/settings"@ != "/api/settings/limits"@,
        "/api/settings"@ != "/api/settings/users"@,
        "/api/settings/clients"@ != "/api/settings/providers"@,
        "/api/settings/clients"@ != "/api/settings/provider-keys"@,
        "/api/settings/clients"@ != "/api/settings/aliases"@,
        "/api/settings/clients"@ != "/api/settings/limits"@,
        "/api/settings/clients"@ != "/api/settings/users"@,
        "/"@ != "/health"@,
        "/"@ != "/login"@,
        "/"@ != "/logout"@,
        "/"@ != "/setup"@,
        "/dash"@ != "/health"@,
        "/dash"@ != "/login"@,
        "/dash"@ != "/logout"@,
        "/dash"@ != "/setup"@,
        "/dash/config.json"@ != "/health"@,
        "/dash/config.json"@ != "/login"@,
        "/dash/config.json"@ != "/logout"@,
        "/dash/config.json"@ != "/setup"@,
        "/api/history"@ != "/health"@,
        "/api/history"@ != "/login"@,
        "/api/history"@ != "/logout"@,
        "/api/history"@ != "/setup"@,
        "/api/stats"@ != "/health"@,
        "/api/stats"@ != "/login"@,
        "/api/stats"@ != "/logout"@,
        "/api/stats"@ != "/setup"@,
        "/api/pressure"@ != "/health"@,
        "/api/pressure"@ != "/login"@,
        "/api/pressure"@ != "/logout"@,
        "/api/pressure"@ != "/setup"@,
        "/api/savings"@ != "/health"@,
        "/api/savings"@ != "/login"@,
        "/api/savings"@ != "/logout"@,
        "/api/savings"@ != "/setup"@,
        "/api/settings"@ != "/health"@,
        "/api/settings"@ != "/login"@,
        "/api/settings"@ != "/logout"@,
        "/api/settings"@ != "/setup"@,
        "/api/settings/clients"@ != "/health"@,
        "/api/settings/clients"@ != "/login"@,
        "/api/settings/clients"@ != "/logout"@,
        "/api/settings/clients"@ != "/setup"@,
        "/"@ != "/metrics"@,
        "/dash"@ != "/metrics"@,
        "/dash/config.json"@ != "/metrics"@,
        "/api/history"@ != "/metrics"@,
        "/api/stats"@ != "/metrics"@,
        "/api/pressure"@ != "/metrics"@,
        "/api/savings"@ != "/metrics"@,
        "/api/settings"@ != "/metrics"@,
        "/api/settings/clients"@ != "/metrics"@,
        "/api/settings/providers"@ != "/health"@,
        "/api/settings/providers"@ != "/login"@,
        "/api/settings/providers"@ != "/logout"@,
        "/api/settings/providers"@ != "/setup"@,
        "/api/settings/provider-keys"@ != "/health"@,
        "/api/settings/provider-keys"@ != "/login"@,
        "/api/settings/provider-keys"@ != "/logout"@,
        "/api/settings/provider-keys"@ != "/setup"@,
        "/api/settings/aliases"@ != "/health"@,
        "/api/settings/aliases"@ != "/login"@,
        "/api/settings/aliases"@ != "/logout"@,
        "/api/settings/aliases"@ != "/setup"@,
        "/api/settings/limits"@ != "/health"@,
        "/api/settings/limits"@ != "/login"@,
        "/api/settings/limits"@ != "/logout"@,
        "/api/settings/limits"@ != "/setup"@,
        "/api/settings/users"@ != "/health"@,
        "/api/settings/users"@ != "/login"@,
        "/api/settings/users"@ != "/logout"@,
        "/api/settings/users"@ != "/setup"@,
        "/api/settings/providers"@ != "/metrics"@,
        "/api/settings/provider-keys"@ != "/metrics"@,
        "/api/settings/aliases"@ != "/metrics"@,
        "/api/settings/limits"@ != "/metrics"@,
        "/api/settings/users"@ != "/metrics"@,
        "/health"@ != "/metrics"@,
        "/login"@ != "/metrics"@,
        "/logout"@ != "/metrics"@,
        "/setup"@ != "/metrics"@,
        !data_plane("/"@),
        !data_plane("/dash"@),
        !data_plane("/dash/config.json"@),
        !data_plane("/api/history"@),
        !data_plane("/api/stats"@),
        !data_plane("/api/pressure"@),
        !data_plane("/api/savings"@),
        !data_plane("/api/settings"@),
        !data_plane("/api/settings/clients"@),
        !data_plane("/api/settings/providers"@),
        !data_plane("/api/settings/provider-keys"@),
        !data_plane("/api/settings/aliases"@),
        !data_plane("/api/settings/limits"@),
        !data_plane("/api/settings/users"@),
        !data_plane("/health"@),
        !data_plane("/login"@),
        !data_plane("/logout"@),
        !data_plane("/setup"@),
        !data_plane("/metrics"@),
{
    reveal_strlit("/");
    reveal_strlit("/dash");
    reveal_strlit("/dash/config.json");
    reveal_strlit("/api/history");
    reveal_strlit("/api/stats");
    reveal_strlit("/api/pressure");
    reveal_strlit("/api/savings");
    reveal_strlit("/api/settings");
    reveal_strlit("/api/settings/clients");
    reveal_strlit("/api/settings/providers");
    reveal_strlit("/api/settings/provider-keys");
    reveal_strlit("/api/settings/aliases");
    reveal_strlit("/api/settings/limits");
    reveal_strlit("/api/settings/users");
    reveal_strlit("/health");
    reveal_strlit("/login");
    reveal_strlit("/logout");
    reveal_strlit("/setup");
    reveal_strlit("/metrics");
    reveal_strlit("/v1/");
    assert("/dash"@.take(4)[1] == "/dash"@[1]);
    assert("/dash/config.json"@.take(4)[1] == "/dash/config.json"@[1]);
    assert("/api/history"@.take(4)[1] == "/api/history"@[1]);
    assert("/api/stats"@.take(4)[1] == "/api/stats"@[1]);
    assert("/api/pressure"@.take(4)[1] == "/api/pressure"@[1]);
    assert("/api/savings"@.take(4)[1] == "/api/savings"@[1]);
    assert("/api/settings"@.take(4)[1] == "/api/settings"@[1]);
    assert("/api/settings/clients"@.take(4)[1] == "/api/settings/clients"@[1]);
    assert("/api/settings/providers"@.take(4)[1] == "/api/settings/providers"@[1]);
    assert("/api/settings/provider-keys"@.take(4)[1] == "/api/settings/provider-keys"@[1]);
    assert("/api/settings/aliases"@.take(4)[1] == "/api/settings/aliases"@[1]);
    assert("/api/settings/limits"@.take(4)[1] == "/api/settings/limits"@[1]);
    assert("/api/settings/users"@.take(4)[1] == "/api/settings/users"@[1]);
    assert("/health"@.take(4)[1] == "/health"@[1]);
    assert("/login"@.take(4)[1] == "/login"@[1]);
    assert("/logout"@.take(4)[1] == "/logout"@[1]);
    assert("/setup"@.take(4)[1] == "/setup"@[1]);
    assert("/metrics"@.take(4)[1] == "/metrics"@[1]);
    assert("/"@.len() != "/api/settings/providers"@.len());
    assert("/"@.len() != "/api/settings/provider-keys"@.len());
    assert("/"@.len() != "/api/settings/aliases"@.len());
    assert("/"@.len() != "/api/settings/limits"@.len());
    assert("/"@.len() != "/api/settings/users"@.len());
    assert("/dash"@.len() != "/api/settings/providers"@.len());
    assert("/dash"@.len() != "/api/settings/provider-keys"@.len());
    assert("/dash"@.len() != "/api/settings/aliases"@.len());
    assert("/dash"@.len() != "/api/settings/limits"@.len());
    assert("/dash"@.len() != "/api/settings/users"@.len());
    assert("/dash/config.json"@.len() != "/api/settings/providers"@.len());
    assert("/dash/config.json"@.len() != "/api/settings/provider-keys"@.len());
    assert("/dash/config.json"@.len() != "/api/settings/aliases"@.len());
    assert("/dash/config.json"@.len() != "/api/settings/limits"@.len());
    assert("/dash/config.json"@.len() != "/api/settings/users"@.len());
    assert("/api/history"@.len() != "/api/settings/providers"@.len());
    assert("/api/history"@.len() != "/api/settings/provider-keys"@.len());
    assert("/api/history"@.len() != "/api/settings/aliases"@.len());
    assert("/api/history"@.len() != "/api/settings/limits"@.len());
    assert("/api/history"@.len() != "/api/settings/users"@.len());
    assert("/api/stats"@.len() != "/api/settings/providers"@.len());
    assert("/api/stats"@.len() != "/api/settings/provider-keys"@.len());
    assert("/api/stats"@.len() != "/api/settings/aliases"@.len());
    assert("/api/stats"@.len() != "/api/settings/limits"@.len());
    assert("/api/stats"@.len() != "/api/settings/users"@.len());
    assert("/api/pressure"@.len() != "/api/settings/providers"@.len());
    assert("/api/pressure"@.len() != "/api/settings/provider-keys"@.len());
    assert("/api/pressure"@.len() != "/api/settings/aliases"@.len());
    assert("/api/pressure"@.len() != "/api/settings/limits"@.len());
    assert("/api/pressure"@.len() != "/api/settings/users"@.len());
    assert("/api/savings"@.len() != "/api/settings/providers"@.len());
    assert("/api/savings"@.len() != "/api/settings/provider-keys"@.len());
    assert("/api/savings"@.len() != "/api/settings/aliases"@.len());
    assert("/api/savings"@.len() != "/api/settings/limits"@.len());
    assert("/api/savings"@.len() != "/api/settings/users"@.len());
    assert("/api/settings"@.len() != "/api/settings/providers"@.len());
    assert("/api/settings"@.len() != "/api/settings/provider-keys"@.len());
    assert("/api/settings"@.len() != "/api/settings/aliases"@.len());
    assert("/api/settings"@.len() != "/api/settings/limits"@.len());
    assert("/api/settings"@.len() != "/api/settings/users"@.len());
    assert("/api/settings/clients"@.len() != "/api/settings/providers"@.len());
    assert("/api/settings/clients"@.len() != "/api/settings/provider-keys"@.len());
    assert("/api/settings/clients"@[14] != "/api/settings/aliases"@[14]);
    assert("/api/settings/clients"@.len() != "/api/settings/limits"@.len());
    assert("/api/settings/clients"@.len() != "/api/settings/users"@.len());
    assert("/"@.len() != "/health"@.len());
    assert("/"@.len() != "/login"@.len());
    assert("/"@.len() != "/logout"@.len());
    assert("/"@.len() != "/setup"@.len());
    assert("/dash"@.len() != "/health"@.len());
    assert("/dash"@.len() != "/login"@.len());
    assert("/dash"@.len() != "/logout"@.len());
    assert("/dash"@.len() != "/setup"@.len());
    assert("/dash/config.json"@.len() != "/health"@.len());
    assert("/dash/config.json"@.len() != "/login"@.len());
    assert("/dash/config.json"@.len() != "/logout"@.len());
    assert("/dash/config.json"@.len() != "/setup"@.len());
    assert("/api/history"@.len() != "/health"@.len());
    assert("/api/history"@.len() != "/login"@.len());
    assert("/api/history"@.len() != "/logout"@.len());
    assert("/api/history"@.len() != "/setup"@.len());
    assert("/api/stats"@.len() != "/health"@.len());
    assert("/api/stats"@.len() != "/login"@.len());
    assert("/api/stats"@.len() != "/logout"@.len());
    assert("/api/stats"@.len() != "/setup"@.len());
    assert("/api/pressure"@.len() != "/health"@.len());
    assert("/api/pressure"@.len() != "/login"@.len());
    assert("/api/pressure"@.len() != "/logout"@.len());
    assert("/api/pressure"@.len() != "/setup"@.len());
    assert("/api/savings"@.len() != "/health"@.len());
    assert("/api/savings"@.len() != "/login"@.len());
    assert("/api/savings"@.len() != "/logout"@.len());
    assert("/api/savings"@.len() != "/setup"@.len());
    assert("/api/settings"@.len() != "/health"@.len());
    assert("/api/settings"@.len() != "/login"@.len());
    assert("/api/settings"@.len() != "/logout"@.len());
    assert("/api/settings"@.len() != "/setup"@.len());
    assert("/api/settings/clients"@.len() != "/health"@.len());
    assert("/api/settings/clients"@.len() != "/login"@.len());
    assert("/api/settings/clients"@.len() != "/logout"@.len());
    assert("/api/settings/clients"@.len() != "/setup"@.len());
    assert("/"@.len() != "/metrics"@.len());
    assert("/dash"@.len() != "/metrics"@.len());
    assert("/dash/config.json"@.len() != "/metrics"@.len());
    assert("/api/history"@.len() != "/metrics"@.len());
    assert("/api/stats"@.len() != "/metrics"@.len());
    assert("/api/pressure"@.len() != "/metrics"@.len());
    assert("/api/savings"@.len() != "/metrics"@.len());
    assert("/api/settings"@.len() != "/metrics"@.len());
    assert("/api/settings/clients"@.len() != "/metrics"@.len());
    assert("/api/settings/providers"@.len() != "/health"@.len());
    assert("/api/settings/providers"@.len() != "/login"@.len());
    assert("/api/settings/providers"@.len() != "/logout"@.len());
    assert("/api/settings/providers"@.len() != "/setup"@.len());
    assert("/api/settings/provider-keys"@.len() != "/health"@.len());
    assert("/api/settings/provider-keys"@.len() != "/login"@.len());
    assert("/api/settings/provider-keys"@.len() != "/logout"@.len());
    assert("/api/settings/provider-keys"@.len() != "/setup"@.len());
    assert("/api/settings/aliases"@.len() != "/health"@.len());
    assert("/api/settings/aliases"@.len() != "/login"@.len());
    assert("/api/settings/aliases"@.len() != "/logout"@.len());
    assert("/api/settings/aliases"@.len() != "/setup"@.len());
    assert("/api/settings/limits"@.len() != "/health"@.len());
    assert("/api/settings/limits"@.len() != "/login"@.len());
    assert("/api/settings/limits"@.len() != "/logout"@.len());
    assert("/api/settings/limits"@.len() != "/setup"@.len());
    assert("/api/settings/users"@.len() != "/health"@.len());
    assert("/api/settings/users"@.len() != "/login"@.len());
    assert("/api/settings/users"@.len() != "/logout"@.len());
    assert("/api/settings/users"@.len() != "/setup"@.len());
    assert("/api/settings/providers"@.len() != "/metrics"@.len());
    assert("/api/settings/provider-keys"@.len() != "/metrics"@.len());
    assert("/api/settings/aliases"@.len() != "/metrics"@.len());
    assert("/api/settings/limits"@.len() != "/metrics"@.len());
    assert("/api/settings/users"@.len() != "/metrics"@.len());
    assert("/health"@.len() != "/metrics"@.len());
    assert("/login"@.len() != "/metrics"@.len());
    assert("/logout"@.len() != "/metrics"@.len());
    assert("/setup"@.len() != "/metrics"@.len());
}


/// A caller from an address that no rule covers, and that is not this machine, reaches
/// nothing but the health of the proxy; without rules everyone reaches everything.
pub proof fn law_strangers_reach_only_the_health(rules: Seq<Rule>, peer: IpAddr, path: Seq<char>)
    requires
        path != "/health"@,
    ensures
        reachable(rules, peer, path) <==> rules.len() == 0 || net::loopback(peer) || exists|i: int|
            0 <= i < rules.len() && net::covers(#[trigger] rules[i], peer),
{
}

/// The console reads how many lanes there are, the rate of each, and what they come to.
pub proof fn law_the_console_reads_the_pool(
    version: Seq<char>,
    lanes: Seq<pool::Lane>,
    started: u64,
    window_secs: u64,
    i: int,
)
    requires
        0 <= i < lanes.len() <= u64::MAX,
    ensures
        ({
            let doc = dash_view(version, lanes, started, window_secs);
            let rpms = json::items_of(json::field(doc, "rpms"@))->0;
            &&& json::field(doc, "version"@) == Some(JsonView::Str(version))
            &&& json::field(doc, "lanes"@) == Some(JsonView::UInt(lanes.len() as u64))
            &&& json::field(doc, "capacity_rpm"@) == Some(
                JsonView::UInt(pool::total_rpm(lanes) as u64),
            )
            &&& json::field(doc, "started"@) == Some(JsonView::UInt(started))
            &&& json::field(doc, "provider_window_secs"@) == Some(JsonView::UInt(window_secs))
            &&& json::items_of(json::field(doc, "rpms"@)) is Some
            &&& rpms.len() == lanes.len()
            &&& rpms[i] == JsonView::UInt(lanes[i].rpm as u64)
        }),
{
    let doc = dash_view(version, lanes, started, window_secs)->Obj_0;
    reveal_strlit("version");
    reveal_strlit("lanes");
    reveal_strlit("capacity_rpm");
    reveal_strlit("rpms");
    reveal_strlit("started");
    reveal_strlit("provider_window_secs");
    assert("version"@.len() == 7 && "lanes"@.len() == 5 && "capacity_rpm"@.len() == 12
        && "rpms"@.len() == 4 && "started"@.len() == 7 && "provider_window_secs"@.len() == 20);
    assert("version"@[0] != "started"@[0]);
    table::lemma_nth(doc, 0);
    table::lemma_nth(doc, 1);
    table::lemma_nth(doc, 2);
    table::lemma_nth(doc, 3);
    table::lemma_nth(doc, 4);
    table::lemma_nth(doc, 5);
}

/// Each model under pressure is shown with the cap it is held to and what it has in
/// flight.
pub proof fn law_pressure_is_shown_as_it_is(p: ModelPressure)
    ensures
        json::field(pressure_entry(p), "model"@) == Some(JsonView::Str(p.model@)),
        json::field(pressure_entry(p), "limit"@) == Some(JsonView::UInt(p.limit as u64)),
        json::field(pressure_entry(p), "inflight"@) == Some(JsonView::UInt(p.inflight as u64)),
{
    let doc = pressure_entry(p)->Obj_0;
    reveal_strlit("model");
    reveal_strlit("limit");
    reveal_strlit("inflight");
    assert("model"@[0] != "limit"@[0]);
    assert("model"@.len() == 5 && "limit"@.len() == 5 && "inflight"@.len() == 8);
    table::lemma_nth(doc, 0);
    table::lemma_nth(doc, 1);
    table::lemma_nth(doc, 2);
}

} // verus!
