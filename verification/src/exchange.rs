//! One request on its way through the routing plan: what is done next, given what
//! the last thing done came to.
//!
//! The walk is the same for buffered and for streamed answers: for each step, wait
//! for a slot on the model, acquire a rate slot, send, and either hand the answer on
//! or fail over to the next step. The caller performs each action and reports back
//! what became of it; whatever has to be noted on the way is handed out as effects,
//! in order.

use vstd::prelude::*;

use crate::auth;
use crate::config::Protocol;
use crate::dispatch::Permit;
use crate::proxy;
use crate::proxy::{Outbound, OutboundView, PlanStep, StepView};
use crate::reply;
use crate::reply::{Reply, ReplyView};
use crate::text;

verus! {

/// Where a walk stands.
#[derive(Clone, Copy, Debug, PartialEq, Eq, Structural)]
pub enum Stage {
    /// Nothing has been asked for yet.
    Idle,
    /// Waiting for a slot on the model.
    Admitting,
    /// Waiting for a rate slot.
    Acquiring,
    /// Waiting for the upstream's answer.
    Sending,
    /// The walk has ended.
    Done,
}

/// What became of the last action.
pub enum Event {
    /// The walk begins.
    Begin,
    /// A slot on the model is held.
    Admitted,
    /// A rate slot was granted.
    Granted(Permit),
    /// No lane could ever serve this step.
    NoLane,
    /// The upstream answered, and asked to be left alone for as long as the header
    /// says.
    Answered { status: u16, retry_after: Option<String> },
    /// The upstream could not be reached, for this reason.
    Failed(String),
    /// The deadline passed, or the client is gone.
    Lost,
}

/// What is to be noted.
pub enum Effect {
    /// Count an expired deadline.
    Deadline,
    /// The request is finished, with this status, on this lane.
    Finished(u16, Option<usize>),
    /// Measure how long the rate slot was waited for.
    QueueWait,
    /// The lane rebuffed the model: bench it, and tell the governor.
    Rebuffed { lane: usize, model: String, status: u16, retry_after: Option<String> },
    /// Measure how long the upstream took.
    UpstreamTime,
    /// The provider served the request.
    Served(String),
    /// The model rejects the request for token counts, and serves without it.
    RejectsUsage,
}

/// What is to be done next.
pub enum Next {
    /// Wait for a slot on this model.
    Admit(String),
    /// Acquire a rate slot, from this provider if one is named.
    Acquire(Option<String>),
    /// Send this upstream.
    Send(Outbound),
    /// Hand the upstream's answer on to the client.
    Relay,
    /// Answer the client.
    Answer(Reply),
    /// End the client's stream with this error code.
    Break(String),
}

pub struct Exchange {
    /// Is the answer streamed?
    pub streaming: bool,
    /// The model that was asked for.
    pub model: String,
    pub path: String,
    pub headers: Vec<(String, String)>,
    pub plan: Vec<PlanStep>,
    /// The step of the plan that is being taken.
    pub at: usize,
    /// The lanes that have failed this request.
    pub excluded: Vec<usize>,
    pub body: Vec<u8>,
    /// The client's original body, kept only while something was added to it, so
    /// the addition can be undone if this model rejects it.
    pub fallback: Option<Vec<u8>>,
    pub retried_plain: bool,
    pub permit: Option<Permit>,
    pub stage: Stage,
}

// --- The model ---------------------------------------------------------------

pub struct PermitView {
    pub lane_idx: usize,
    pub provider: Seq<char>,
    pub base_url: Seq<char>,
    pub key: Seq<char>,
    pub protocol: Protocol,
}

pub open spec fn permit_view(p: Permit) -> PermitView {
    PermitView {
        lane_idx: p.lane_idx,
        provider: p.provider@,
        base_url: p.base_url@,
        key: p.key@,
        protocol: p.protocol,
    }
}

pub open spec fn opt_permit(p: Option<Permit>) -> Option<PermitView> {
    match p {
        Some(q) => Some(permit_view(q)),
        None => None,
    }
}

#[verifier::ext_equal]
pub struct ExchangeView {
    pub streaming: bool,
    pub model: Seq<char>,
    pub path: Seq<char>,
    pub headers: Seq<(Seq<char>, Seq<char>)>,
    pub plan: Seq<StepView>,
    pub at: nat,
    pub excluded: Seq<usize>,
    pub body: Seq<u8>,
    pub fallback: Option<Seq<u8>>,
    pub retried_plain: bool,
    pub permit: Option<PermitView>,
    pub stage: Stage,
}

pub enum EventView {
    Begin,
    Admitted,
    Granted(PermitView),
    NoLane,
    Answered { status: u16, retry_after: Option<Seq<char>> },
    Failed(Seq<char>),
    Lost,
}

pub enum EffectView {
    Deadline,
    Finished(u16, Option<usize>),
    QueueWait,
    Rebuffed { lane: usize, model: Seq<char>, status: u16, retry_after: Option<Seq<char>> },
    UpstreamTime,
    Served(Seq<char>),
    RejectsUsage,
}

pub enum NextView {
    Admit(Seq<char>),
    Acquire(Option<Seq<char>>),
    Send(OutboundView),
    Relay,
    Answer(ReplyView),
    Break(Seq<char>),
}

impl View for Exchange {
    type V = ExchangeView;

    open spec fn view(&self) -> ExchangeView {
        ExchangeView {
            streaming: self.streaming,
            model: self.model@,
            path: self.path@,
            headers: reply::header_views(self.headers@),
            plan: proxy::steps(self.plan@),
            at: self.at as nat,
            excluded: self.excluded@,
            body: self.body@,
            fallback: proxy::bytes_view(self.fallback),
            retried_plain: self.retried_plain,
            permit: opt_permit(self.permit),
            stage: self.stage,
        }
    }
}

impl View for Event {
    type V = EventView;

    open spec fn view(&self) -> EventView {
        match *self {
            Event::Begin => EventView::Begin,
            Event::Admitted => EventView::Admitted,
            Event::Granted(p) => EventView::Granted(permit_view(p)),
            Event::NoLane => EventView::NoLane,
            Event::Answered { status, retry_after } => EventView::Answered {
                status,
                retry_after: auth::string_view(retry_after),
            },
            Event::Failed(e) => EventView::Failed(e@),
            Event::Lost => EventView::Lost,
        }
    }
}

impl View for Effect {
    type V = EffectView;

    open spec fn view(&self) -> EffectView {
        match *self {
            Effect::Deadline => EffectView::Deadline,
            Effect::Finished(s, l) => EffectView::Finished(s, l),
            Effect::QueueWait => EffectView::QueueWait,
            Effect::Rebuffed { lane, model, status, retry_after } => EffectView::Rebuffed {
                lane,
                model: model@,
                status,
                retry_after: auth::string_view(retry_after),
            },
            Effect::UpstreamTime => EffectView::UpstreamTime,
            Effect::Served(p) => EffectView::Served(p@),
            Effect::RejectsUsage => EffectView::RejectsUsage,
        }
    }
}

impl View for Next {
    type V = NextView;

    open spec fn view(&self) -> NextView {
        match *self {
            Next::Admit(m) => NextView::Admit(m@),
            Next::Acquire(p) => NextView::Acquire(auth::string_view(p)),
            Next::Send(o) => NextView::Send(o@),
            Next::Relay => NextView::Relay,
            Next::Answer(r) => NextView::Answer(r@),
            Next::Break(c) => NextView::Break(c@),
        }
    }
}

pub open spec fn effect_views(v: Seq<Effect>) -> Seq<EffectView> {
    v.map_values(|e: Effect| e@)
}

/// The model that the current step sends.
pub open spec fn step_model(x: ExchangeView) -> Seq<char> {
    match x.plan[x.at as int].model {
        Some(m) => m,
        None => x.model,
    }
}

/// Is the current step the last one?
pub open spec fn is_last(x: ExchangeView) -> bool {
    x.at + 1 == x.plan.len()
}

/// What the current step sends on the lane that was granted.
pub open spec fn attempt(x: ExchangeView, p: PermitView) -> OutboundView {
    proxy::outbound(
        p.base_url,
        p.key,
        p.protocol,
        x.path,
        x.headers,
        proxy::with_model(x.body, x.plan[x.at as int].model),
    )
}

/// The client is told that the walk ended without an answer.
pub open spec fn told(
    x: ExchangeView,
    status: u16,
    code: Seq<char>,
    message: Seq<char>,
) -> NextView {
    if x.streaming {
        NextView::Break(code)
    } else {
        NextView::Answer(reply::error_view(status, code, message))
    }
}

/// Take the step the walk has come to, if there is one left; `noted` comes first.
pub open spec fn entered(x: ExchangeView, noted: Seq<EffectView>) -> (
    ExchangeView,
    Seq<EffectView>,
    NextView,
) {
    if x.at < x.plan.len() {
        (
            ExchangeView { stage: Stage::Admitting, permit: None, ..x },
            noted,
            NextView::Admit(step_model(x)),
        )
    } else {
        (
            ExchangeView { stage: Stage::Done, permit: None, ..x },
            noted.push(EffectView::Finished(503, None)),
            told(
                x,
                503,
                "no_capacity"@,
                "no provider lane available for the requested model"@,
            ),
        )
    }
}

/// Leave the current step, its lane having failed; `noted` comes first.
pub open spec fn failed_over(x: ExchangeView, lane: usize, noted: Seq<EffectView>) -> (
    ExchangeView,
    Seq<EffectView>,
    NextView,
) {
    entered(ExchangeView { excluded: x.excluded.push(lane), at: x.at + 1, ..x }, noted)
}

/// The upstream answered.
pub open spec fn answered(
    x: ExchangeView,
    p: PermitView,
    status: u16,
    retry_after: Option<Seq<char>>,
) -> (ExchangeView, Seq<EffectView>, NextView) {
    if status == 400 && x.fallback is Some {
        // A rejection we caused must not become the client's error: the same step
        // is taken again with the client's original body.
        let plain = ExchangeView {
            body: x.fallback->0,
            fallback: None,
            retried_plain: true,
            ..x
        };
        (plain, Seq::empty(), NextView::Send(attempt(plain, p)))
    } else {
        let rebuff = if proxy::retryable(status) {
            seq![
                EffectView::Rebuffed {
                    lane: p.lane_idx,
                    model: step_model(x),
                    status,
                    retry_after,
                },
            ]
        } else {
            Seq::empty()
        };
        if proxy::retryable(status) && !is_last(x) {
            failed_over(x, p.lane_idx, rebuff)
        } else {
            // Only a retry that actually worked teaches anything: the 400 alone may
            // be for a body the client simply got wrong.
            let learned = if x.retried_plain && proxy::success(status) {
                rebuff.push(EffectView::RejectsUsage)
            } else {
                rebuff
            };
            let finished = if x.streaming {
                learned.push(EffectView::Finished(200, Some(p.lane_idx)))
            } else {
                learned.push(EffectView::Finished(status, Some(p.lane_idx))).push(
                    EffectView::UpstreamTime,
                )
            };
            (
                ExchangeView { stage: Stage::Done, ..x },
                finished.push(EffectView::Served(p.provider)),
                NextView::Relay,
            )
        }
    }
}

/// Can this event follow where the walk stands?
pub open spec fn fits(x: ExchangeView, e: EventView) -> bool {
    match e {
        EventView::Begin => x.stage == Stage::Idle && x.at == 0,
        EventView::Admitted => x.stage == Stage::Admitting && x.at < x.plan.len(),
        EventView::Granted(_) => x.stage == Stage::Acquiring && x.at < x.plan.len(),
        EventView::NoLane => x.stage == Stage::Acquiring && x.at < x.plan.len(),
        EventView::Answered { .. } => x.stage == Stage::Sending && x.at < x.plan.len()
            && x.permit is Some,
        EventView::Failed(_) => x.stage == Stage::Sending && x.at < x.plan.len()
            && x.permit is Some,
        EventView::Lost => x.stage != Stage::Idle && x.stage != Stage::Done,
    }
}

/// Where an event takes the walk, what is noted, and what is done next.
pub open spec fn advanced(x: ExchangeView, e: EventView) -> (
    ExchangeView,
    Seq<EffectView>,
    NextView,
) {
    match e {
        EventView::Begin => entered(x, Seq::empty()),
        EventView::Admitted => (
            ExchangeView { stage: Stage::Acquiring, ..x },
            Seq::empty(),
            NextView::Acquire(x.plan[x.at as int].provider),
        ),
        EventView::NoLane => entered(ExchangeView { at: x.at + 1, ..x }, Seq::empty()),
        EventView::Granted(p) => (
            ExchangeView { stage: Stage::Sending, permit: Some(p), ..x },
            seq![EffectView::QueueWait],
            NextView::Send(attempt(x, p)),
        ),
        EventView::Answered { status, retry_after } => answered(
            x,
            x.permit->0,
            status,
            retry_after,
        ),
        EventView::Failed(reason) => if is_last(x) {
            (
                ExchangeView { stage: Stage::Done, ..x },
                seq![EffectView::Finished(502, Some(x.permit->0.lane_idx))],
                told(x, 502, "upstream_error"@, "upstream request failed: "@ + reason),
            )
        } else {
            failed_over(x, x.permit->0.lane_idx, Seq::empty())
        },
        EventView::Lost => (
            ExchangeView { stage: Stage::Done, ..x },
            seq![EffectView::Deadline, EffectView::Finished(504, None)],
            told(x, 504, "deadline_exceeded"@, "request deadline exceeded"@),
        ),
    }
}

// --- The walk ----------------------------------------------------------------

impl Exchange {
    /// A walk that is about to begin.
    pub fn new(
        streaming: bool,
        model: String,
        path: String,
        headers: Vec<(String, String)>,
        plan: Vec<PlanStep>,
        body: Vec<u8>,
        fallback: Option<Vec<u8>>,
    ) -> (r: Self)
        ensures
            r@ == (ExchangeView {
                streaming,
                model: model@,
                path: path@,
                headers: reply::header_views(headers@),
                plan: proxy::steps(plan@),
                at: 0,
                excluded: Seq::empty(),
                body: body@,
                fallback: proxy::bytes_view(fallback),
                retried_plain: false,
                permit: None,
                stage: Stage::Idle,
            }),
            fits(r@, EventView::Begin),
    {
        Exchange {
            streaming,
            model,
            path,
            headers,
            plan,
            at: 0,
            excluded: Vec::new(),
            body,
            fallback,
            retried_plain: false,
            permit: None,
            stage: Stage::Idle,
        }
    }

    fn tell(&self, status: u16, code: &str, message: &str) -> (r: Next)
        ensures
            r@ == told(self@, status, code@, message@),
    {
        if self.streaming {
            Next::Break(text::owned(code))
        } else {
            Next::Answer(reply::error(status, code, message))
        }
    }

    fn current_model(&self) -> (r: String)
        requires
            self.at < self.plan@.len(),
        ensures
            r@ == step_model(self@),
    {
        assert(self@.plan[self.at as int] == self.plan@[self.at as int]@);
        match &self.plan[self.at].model {
            Some(m) => m.clone(),
            None => self.model.clone(),
        }
    }

    fn send(&self, p: &Permit) -> (r: Outbound)
        requires
            self.at < self.plan@.len(),
        ensures
            r@ == attempt(self@, permit_view(*p)),
    {
        assert(self@.plan[self.at as int] == self.plan@[self.at as int]@);
        let model = match &self.plan[self.at].model {
            Some(m) => Some(m.as_str()),
            None => None,
        };
        let body = proxy::rewrite_model(self.body.as_slice(), model);
        proxy::build_request(p, self.path.as_str(), &self.headers, body)
    }

    /// Take the step the walk has come to, if there is one left.
    fn enter(&mut self, noted: Vec<Effect>) -> (r: (Vec<Effect>, Next))
        ensures
            (final(self)@, effect_views(r.0@), r.1@) == entered(old(self)@, effect_views(noted@)),
    {
        let mut noted = noted;
        let ghost before = noted@;
        self.permit = None;
        if self.at < self.plan.len() {
            self.stage = Stage::Admitting;
            let next = Next::Admit(self.current_model());
            assert(self@ =~= entered(old(self)@, effect_views(before)).0);
            (noted, next)
        } else {
            self.stage = Stage::Done;
            noted.push(Effect::Finished(503, None));
            assert(effect_views(noted@) =~= effect_views(before).push(
                EffectView::Finished(503, None),
            ));
            let next = self.tell(
                503,
                "no_capacity",
                "no provider lane available for the requested model",
            );
            assert(self@ =~= entered(old(self)@, effect_views(before)).0);
            (noted, next)
        }
    }

    /// Leave the current step, its lane having failed.
    fn fail_over(&mut self, lane: usize, noted: Vec<Effect>) -> (r: (Vec<Effect>, Next))
        requires
            old(self).at < old(self).plan@.len(),
        ensures
            (final(self)@, effect_views(r.0@), r.1@) == failed_over(
                old(self)@,
                lane,
                effect_views(noted@),
            ),
    {
        self.excluded.push(lane);
        assert(self.at < self.plan.len());
        self.at += 1;
        assert(self@ =~= (ExchangeView {
            excluded: old(self)@.excluded.push(lane),
            at: old(self)@.at + 1,
            ..old(self)@
        }));
        self.enter(noted)
    }

    fn answer(&mut self, status: u16, retry_after: Option<String>) -> (r: (Vec<Effect>, Next))
        requires
            old(self).at < old(self).plan@.len(),
            old(self).permit is Some,
        ensures
            (final(self)@, effect_views(r.0@), r.1@) == answered(
                old(self)@,
                permit_view(old(self).permit->0),
                status,
                auth::string_view(retry_after),
            ),
    {
        let ghost x = self@;
        let permit = match self.permit.take() {
            Some(p) => p,
            None => {
                return (Vec::new(), Next::Relay);
            },
        };
        let ghost pv = permit_view(permit);
        if status == 400 {
            match self.fallback.take() {
                Some(plain) => {
                    self.body = plain;
                    self.retried_plain = true;
                    let out = self.send(&permit);
                    self.permit = Some(permit);
                    let none: Vec<Effect> = Vec::new();
                    proof {
                        assert(self@ =~= answered(
                            x,
                            pv,
                            status,
                            auth::string_view(retry_after),
                        ).0);
                        assert(effect_views(none@) =~= Seq::<EffectView>::empty());
                    }
                    return (none, Next::Send(out));
                },
                None => {},
            }
        }
        let mut noted: Vec<Effect> = Vec::new();
        assert(effect_views(noted@) =~= Seq::<EffectView>::empty());
        if proxy::is_retryable(status) {
            noted.push(
                Effect::Rebuffed {
                    lane: permit.lane_idx,
                    model: self.current_model(),
                    status,
                    retry_after,
                },
            );
            assert(effect_views(noted@) =~= seq![
                EffectView::Rebuffed {
                    lane: pv.lane_idx,
                    model: step_model(x),
                    status,
                    retry_after: auth::string_view(retry_after),
                },
            ]);
            assert(self.at < self.plan.len());
            if self.at + 1 < self.plan.len() {
                let lane: usize = permit.lane_idx;
                self.permit = Some(permit);
                assert(self@ =~= x);
                return self.fail_over(lane, noted);
            }
        }
        let ghost rebuff = effect_views(noted@);
        if self.retried_plain && 200 <= status && status < 300 {
            noted.push(Effect::RejectsUsage);
            assert(effect_views(noted@) =~= rebuff.push(EffectView::RejectsUsage));
        }
        let ghost learned = effect_views(noted@);
        if self.streaming {
            noted.push(Effect::Finished(200, Some(permit.lane_idx)));
            assert(effect_views(noted@) =~= learned.push(
                EffectView::Finished(200, Some(pv.lane_idx)),
            ));
        } else {
            noted.push(Effect::Finished(status, Some(permit.lane_idx)));
            noted.push(Effect::UpstreamTime);
            assert(effect_views(noted@) =~= learned.push(
                EffectView::Finished(status, Some(pv.lane_idx)),
            ).push(EffectView::UpstreamTime));
        }
        let ghost finished = effect_views(noted@);
        noted.push(Effect::Served(permit.provider.clone()));
        assert(effect_views(noted@) =~= finished.push(EffectView::Served(pv.provider)));
        self.permit = Some(permit);
        self.stage = Stage::Done;
        assert(self@ =~= (ExchangeView { stage: Stage::Done, ..x }));
        (noted, Next::Relay)
    }

    /// Report what became of the last action, and learn what to note and what to do
    /// next.
    pub fn advance(&mut self, event: Event) -> (r: (Vec<Effect>, Next))
        requires
            fits(old(self)@, event@),
        ensures
            (final(self)@, effect_views(r.0@), r.1@) == advanced(old(self)@, event@),
    {
        let ghost x = self@;
        let mut noted: Vec<Effect> = Vec::new();
        assert(effect_views(noted@) =~= Seq::<EffectView>::empty());
        match event {
            Event::Begin => self.enter(noted),
            Event::Admitted => {
                self.stage = Stage::Acquiring;
                assert(x.plan[x.at as int] == self.plan@[self.at as int]@);
                let provider = match &self.plan[self.at].provider {
                    Some(p) => Some(p.clone()),
                    None => None,
                };
                assert(self@ =~= (ExchangeView { stage: Stage::Acquiring, ..x }));
                (noted, Next::Acquire(provider))
            },
            Event::NoLane => {
                assert(self.at < self.plan.len());
                self.at += 1;
                assert(self@ =~= (ExchangeView { at: x.at + 1, ..x }));
                self.enter(noted)
            },
            Event::Granted(permit) => {
                let out = self.send(&permit);
                self.stage = Stage::Sending;
                self.permit = Some(permit);
                noted.push(Effect::QueueWait);
                proof {
                    assert(self@ =~= (ExchangeView {
                        stage: Stage::Sending,
                        permit: Some(permit_view(permit)),
                        ..x
                    }));
                    assert(effect_views(noted@) =~= seq![EffectView::QueueWait]);
                }
                (noted, Next::Send(out))
            },
            Event::Answered { status, retry_after } => self.answer(status, retry_after),
            Event::Failed(reason) => {
                let lane: usize = match &self.permit {
                    Some(p) => p.lane_idx,
                    None => 0,
                };
                assert(self.at < self.plan.len());
                if self.at + 1 < self.plan.len() {
                    return self.fail_over(lane, noted);
                }
                self.stage = Stage::Done;
                noted.push(Effect::Finished(502, Some(lane)));
                let mut message = text::owned("upstream request failed: ");
                message.append(reason.as_str());
                proof {
                    assert(self@ =~= (ExchangeView { stage: Stage::Done, ..x }));
                    assert(effect_views(noted@) =~= seq![EffectView::Finished(502, Some(lane))]);
                }
                (noted, self.tell(502, "upstream_error", message.as_str()))
            },
            Event::Lost => {
                self.stage = Stage::Done;
                noted.push(Effect::Deadline);
                noted.push(Effect::Finished(504, None));
                proof {
                    assert(self@ =~= (ExchangeView { stage: Stage::Done, ..x }));
                    assert(effect_views(noted@) =~= seq![
                        EffectView::Deadline,
                        EffectView::Finished(504, None),
                    ]);
                }
                (noted, self.tell(504, "deadline_exceeded", "request deadline exceeded"))
            },
        }
    }
}

// --- What a walk guarantees --------------------------------------------------

/// How far a walk is from its end.
pub open spec fn distance(x: ExchangeView) -> nat {
    let ahead: nat = if x.at < x.plan.len() {
        (x.plan.len() - x.at) as nat
    } else {
        0
    };
    let rank: nat = match x.stage {
        Stage::Idle => 4,
        Stage::Admitting => 3,
        Stage::Acquiring => 2,
        Stage::Sending => 1,
        Stage::Done => 0,
    };
    4 * ahead + rank + if x.fallback is Some {
        4nat
    } else {
        0
    }
}

/// Every walk ends: each event brings it closer to its end.
pub proof fn law_every_walk_ends(x: ExchangeView, e: EventView)
    requires
        fits(x, e),
    ensures
        distance(advanced(x, e).0) < distance(x),
{
}

/// A walk that has not ended waits for something: what it asks for next is one of
/// the things it can be told about, and a walk that has ended asks for nothing.
pub proof fn law_a_walk_asks_for_what_it_can_be_told(x: ExchangeView, e: EventView)
    requires
        fits(x, e),
    ensures
        ({
            let (after, _, next) = advanced(x, e);
            match next {
                NextView::Admit(_) => fits(after, EventView::Admitted) && fits(after, EventView::Lost),
                NextView::Acquire(_) => fits(after, EventView::NoLane) && fits(
                    after,
                    EventView::Lost,
                ),
                NextView::Send(_) => fits(after, EventView::Lost) && fits(
                    after,
                    EventView::Failed(Seq::empty()),
                ),
                _ => after.stage == Stage::Done,
            }
        }),
{
}

/// A lane that failed this request is not asked again: it joins the excluded lanes,
/// and no event takes a lane off them.
pub proof fn law_a_failed_lane_stays_excluded(x: ExchangeView, e: EventView, lane: usize)
    requires
        fits(x, e),
    ensures
        x.excluded.contains(lane) ==> advanced(x, e).0.excluded.contains(lane),
        advanced(x, e).0.at > x.at && x.stage == Stage::Sending ==> advanced(
            x,
            e,
        ).0.excluded.contains(x.permit->0.lane_idx),
{
    let after = advanced(x, e).0;
    if x.permit is Some {
        let failed = x.permit->0.lane_idx;
        let more = x.excluded.push(failed);
        assert(more[x.excluded.len() as int] == failed);
        if x.excluded.contains(lane) {
            let i = choose|i: int| 0 <= i < x.excluded.len() && x.excluded[i] == lane;
            assert(more[i] == lane);
        }
    }
}

/// A rejection that our own addition may have caused never reaches the client: the
/// first 400 while the client's original body is still kept is followed by that
/// body, on the same lane.
pub proof fn law_our_own_rejection_is_retried_plain(x: ExchangeView, retry_after: Option<Seq<char>>)
    requires
        x.stage == Stage::Sending,
        x.at < x.plan.len(),
        x.permit is Some,
        x.fallback is Some,
    ensures
        ({
            let (after, noted, next) = advanced(x, EventView::Answered { status: 400, retry_after });
            &&& after.body == x.fallback->0
            &&& after.fallback is None
            &&& after.permit == x.permit
            &&& after.at == x.at
            &&& after.excluded == x.excluded
            &&& after.retried_plain
            &&& noted.len() == 0
            &&& next == NextView::Send(
                proxy::outbound(
                    x.permit->0.base_url,
                    x.permit->0.key,
                    x.permit->0.protocol,
                    x.path,
                    x.headers,
                    proxy::with_model(x.fallback->0, x.plan[x.at as int].model),
                ),
            )
        }),
{
}

/// A rebuff is always noted, on the last step too: this request is out of options,
/// but the next one shouldn't walk into the same wall.
pub proof fn law_a_rebuff_is_always_noted(
    x: ExchangeView,
    status: u16,
    retry_after: Option<Seq<char>>,
)
    requires
        x.stage == Stage::Sending,
        x.at < x.plan.len(),
        x.permit is Some,
        proxy::retryable(status),
    ensures
        ({
            let noted = advanced(x, EventView::Answered { status, retry_after }).1;
            noted.len() > 0 && noted[0] == (EffectView::Rebuffed {
                lane: x.permit->0.lane_idx,
                model: model_at(x, x.at),
                status,
                retry_after,
            })
        }),
{
}

/// The model that the step `i` of a plan sends: its own, or the one asked for.
pub open spec fn model_at(x: ExchangeView, i: nat) -> Seq<char> {
    match x.plan[i as int].model {
        Some(m) => m,
        None => x.model,
    }
}

/// A failure on a lane is followed by the next step, as long as there is one: whenever
/// the upstream could not be reached, or pushed back, and the step is not the last, the
/// walk goes on. It stands at the next step, the lane is excluded, nothing is told to the
/// client, and what is asked for is a slot on that step's model.
pub proof fn law_a_failure_falls_over_to_the_next_step(x: ExchangeView, e: EventView)
    requires
        x.stage == Stage::Sending,
        x.permit is Some,
        x.at + 1 < x.plan.len(),
        match e {
            EventView::Failed(_) => true,
            EventView::Answered { status, .. } => proxy::retryable(status),
            _ => false,
        },
    ensures
        ({
            let (y, noted, next) = advanced(x, e);
            &&& y.stage != Stage::Done
            &&& y.at == x.at + 1
            &&& y.plan == x.plan && y.body == x.body && y.model == x.model && y.path == x.path
                && y.headers == x.headers
            &&& y.fallback == x.fallback && y.retried_plain == x.retried_plain && y.streaming
                == x.streaming
            &&& y.excluded == x.excluded.push(x.permit->0.lane_idx)
            &&& next == NextView::Admit(model_at(x, x.at + 1))
            &&& forall|k: int|
                0 <= k < noted.len() ==> !(#[trigger] noted[k] is Finished)
        }),
{
}

/// A client is told of an upstream that could not be reached only once the last step
/// has been tried, and with the reason.
pub proof fn law_an_error_comes_from_the_last_step(x: ExchangeView, e: EventView)
    requires
        fits(x, e),
        x.stage == Stage::Sending,
    ensures
        ({
            let (y, noted, next) = advanced(x, e);
            &&& e is Failed && x.at + 1 == x.plan.len() ==> y.stage == Stage::Done
                && noted.contains(EffectView::Finished(502, Some(x.permit->0.lane_idx)))
            &&& next is Answer && !(e is Lost) ==> x.at + 1 == x.plan.len() && e is Failed
            &&& next is Break && !(e is Lost) ==> x.at + 1 == x.plan.len() && e is Failed
            &&& e matches EventView::Failed(reason) ==> x.at + 1 == x.plan.len() ==> next == if x.streaming {
                NextView::Break("upstream_error"@)
            } else {
                NextView::Answer(
                    reply::error_view(
                        502,
                        "upstream_error"@,
                        "upstream request failed: "@ + reason,
                    ),
                )
            }
        }),
{
    let noted = advanced(x, e).1;
    if e is Failed && x.at + 1 == x.plan.len() {
        assert(noted[0] == EffectView::Finished(502, Some(x.permit->0.lane_idx)));
    }
}

/// An answer that is not pushback, and that nothing of ours caused, is the client's:
/// the walk ends and hands it on, and the provider is credited with it.
pub proof fn law_an_answer_is_handed_on(
    x: ExchangeView,
    status: u16,
    retry_after: Option<Seq<char>>,
)
    requires
        x.stage == Stage::Sending,
        x.permit is Some,
        x.at < x.plan.len(),
        !proxy::retryable(status) || x.at + 1 == x.plan.len(),
        status != 400 || x.fallback is None,
    ensures
        ({
            let (y, noted, next) = advanced(x, EventView::Answered { status, retry_after });
            &&& next is Relay
            &&& y.stage == Stage::Done
            &&& noted.contains(EffectView::Served(x.permit->0.provider))
            &&& noted.contains(
                EffectView::Finished(
                    if x.streaming {
                        200
                    } else {
                        status
                    },
                    Some(x.permit->0.lane_idx),
                ),
            )
            &&& noted.contains(EffectView::RejectsUsage) <==> x.retried_plain && 200 <= status
                < 300
            &&& !x.streaming ==> noted.contains(EffectView::UpstreamTime)
        }),
{
    let noted = advanced(x, EventView::Answered { status, retry_after }).1;
    let n = noted.len() as int;
    assert(noted[n - 1] == EffectView::Served(x.permit->0.provider));
    if x.streaming {
        assert(noted[n - 2] == EffectView::Finished(200, Some(x.permit->0.lane_idx)));
        if x.retried_plain && 200 <= status < 300 {
            assert(noted[n - 3] == EffectView::RejectsUsage);
        }
    } else {
        assert(noted[n - 2] == EffectView::UpstreamTime);
        assert(noted[n - 3] == EffectView::Finished(status, Some(x.permit->0.lane_idx)));
        if x.retried_plain && 200 <= status < 300 {
            assert(noted[n - 4] == EffectView::RejectsUsage);
        }
    }
}

/// A step is taken in order: a slot on its model, then a rate slot from its provider,
/// then its request on the lane that was granted. A step for which there is no lane is
/// passed over, without blaming any lane.
pub proof fn law_a_step_is_taken_in_order(x: ExchangeView, p: PermitView)
    requires
        x.at < x.plan.len(),
    ensures
        x.stage == Stage::Idle && x.at == 0 ==> advanced(x, EventView::Begin).2 == NextView::Admit(
            model_at(x, 0),
        ) && advanced(x, EventView::Begin).0.at == 0,
        x.stage == Stage::Admitting ==> advanced(x, EventView::Admitted).2 == NextView::Acquire(
            x.plan[x.at as int].provider,
        ) && advanced(x, EventView::Admitted).0.at == x.at,
        x.stage == Stage::Acquiring ==> ({
            let (y, noted, next) = advanced(x, EventView::Granted(p));
            &&& y.at == x.at && y.permit == Some(p) && y.excluded == x.excluded
            &&& noted.contains(EffectView::QueueWait)
            &&& next == NextView::Send(
                proxy::outbound(
                    p.base_url,
                    p.key,
                    p.protocol,
                    x.path,
                    x.headers,
                    proxy::with_model(x.body, x.plan[x.at as int].model),
                ),
            )
        }),
        x.stage == Stage::Acquiring && x.at + 1 < x.plan.len() ==> ({
            let (y, noted, next) = advanced(x, EventView::NoLane);
            &&& y.at == x.at + 1 && y.excluded == x.excluded
            &&& next == NextView::Admit(model_at(x, x.at + 1))
        }),
{
    let noted = advanced(x, EventView::Granted(p)).1;
    assert(noted[0] == EffectView::QueueWait);
}

/// A plan that is used up without an answer is answered with 503, and a deadline that
/// passed with 504. A stream, whose 200 is committed, is broken off with the same code.
pub proof fn law_a_walk_without_an_answer_says_so(x: ExchangeView, e: EventView)
    requires
        fits(x, e),
        e is Lost || (e is NoLane && x.at + 1 == x.plan.len()) || (e is Begin && x.plan.len()
            == 0),
    ensures
        ({
            let (y, noted, next) = advanced(x, e);
            let status: u16 = if e is Lost {
                504
            } else {
                503
            };
            let code = if e is Lost {
                "deadline_exceeded"@
            } else {
                "no_capacity"@
            };
            &&& y.stage == Stage::Done
            &&& noted.len() > 0 && noted.last() == EffectView::Finished(status, None)
            &&& e is Lost ==> noted.contains(EffectView::Deadline)
            &&& x.streaming ==> next == NextView::Break(code)
            &&& !x.streaming ==> (next matches NextView::Answer(r) && r.status == status)
        }),
{
    let noted = advanced(x, e).1;
    if e is Lost {
        assert(noted[0] == EffectView::Deadline);
    }
}

} // verus!
