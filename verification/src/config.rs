//! The configuration store: users, providers, client keys, virtual models and
//! settings, and the rules on what a stored value may look like.

use vstd::prelude::*;

use crate::seqs;
use crate::text;

verus! {

/// Bump when the on-disk schema changes incompatibly. A store written by a newer
/// build than the running one is refused rather than silently downgraded.
pub const STORE_VERSION: u32 = 1;

/// The request and response shape an upstream speaks.
#[derive(Clone, Copy, Debug, PartialEq, Eq, Structural)]
pub enum Protocol {
    OpenAi,
    Anthropic,
}

impl Default for Protocol {
    fn default() -> (r: Self)
        ensures
            r == Protocol::OpenAi,
    {
        Protocol::OpenAi
    }
}

/// The route under which Anthropic's native API takes its requests.
pub open spec fn anthropic_route(route: Seq<char>) -> bool {
    route == "/v1/messages"@ || text::has_prefix(route, "/v1/messages/"@)
}

impl Protocol {
    /// The shape a client speaks, told by the route alone: it has to hold before
    /// the body is parsed, and for bodies that are not JSON at all.
    pub fn of_route(route: &str) -> (r: Protocol)
        ensures
            r == if anthropic_route(route@) {
                Protocol::Anthropic
            } else {
                Protocol::OpenAi
            },
    {
        if text::same_text(route, "/v1/messages") || text::strip_prefix(route, "/v1/messages/").is_some() {
            Protocol::Anthropic
        } else {
            Protocol::OpenAi
        }
    }
}

#[derive(Clone, Debug)]
pub struct StoredConfig {
    pub version: u32,
    pub users: Vec<User>,
    pub providers: Vec<Provider>,
    pub clients: Vec<ClientKey>,
    pub aliases: Vec<Alias>,
    pub settings: Settings,
}

/// A virtual model: a name a client can request that resolves to an ordered list
/// of concrete targets, tried in turn (fallback chain).
#[derive(Clone, Debug)]
pub struct Alias {
    pub name: String,
    pub targets: Vec<AliasTarget>,
}

#[derive(Clone, Debug)]
pub struct AliasTarget {
    pub provider: String,
    pub model: String,
}

/// A minted client API key. The secret is shown to the user exactly once; only its
/// SHA-256 digest (+ last-4 for display) is ever stored.
#[derive(Clone, Debug)]
pub struct ClientKey {
    pub label: String,
    pub digest: String,
    pub last4: String,
    pub owner: String,
}

#[derive(Clone, Debug)]
pub struct User {
    pub username: String,
    pub pw_hash: String,
    pub role: Role,
}

#[derive(Clone, Copy, Debug, PartialEq, Eq, Structural)]
pub enum Role {
    Superuser,
    Admin,
    User,
}

impl Role {
    pub open spec fn admin(self) -> bool {
        self == Role::Superuser || self == Role::Admin
    }

    pub fn is_admin(self) -> (r: bool)
        ensures
            r == self.admin(),
    {
        match self {
            Role::Superuser => true,
            Role::Admin => true,
            Role::User => false,
        }
    }
}

/// An upstream LLM provider: a base URL, the protocol it speaks, and a pool of
/// API keys.
#[derive(Clone, Debug)]
pub struct Provider {
    pub name: String,
    pub base_url: String,
    pub protocol: Protocol,
    pub keys: Vec<ProviderKey>,
}

#[derive(Clone, Debug)]
pub struct ProviderKey {
    pub key: String,
    pub enabled: bool,
    pub rpm: usize,
    pub owner: String,
}

#[derive(Clone, Debug)]
pub struct Settings {
    pub history_days: u32,
    /// Concurrent requests admitted before the proxy sheds. High enough that normal
    /// agent fleets never see it; low enough that a runaway client can't exhaust
    /// sockets and memory before anything else notices.
    pub max_inflight: usize,
    /// How long a provider's model catalog is trusted. Catalogs change on the order
    /// of weeks, so this is about bounding staleness, not tracking churn.
    pub models_ttl_secs: u64,
    /// Source addresses permitted to reach this proxy: bare IPs or CIDR blocks.
    /// Empty means everyone. Loopback is always allowed regardless.
    pub allow_from: Vec<String>,
}

pub const DEFAULT_RPM: usize = 40;

pub const DEFAULT_HISTORY_DAYS: u32 = 30;

pub const DEFAULT_MAX_INFLIGHT: usize = 512;

pub const DEFAULT_MODELS_TTL_SECS: u64 = 600;

/// The version a store that states none is taken to have.
pub fn default_version() -> (r: u32)
    ensures
        r == STORE_VERSION,
        r == 1,
{
    STORE_VERSION
}

/// Whether a provider key that does not say so is enabled.
pub fn default_true() -> (r: bool)
    ensures
        r,
{
    true
}

/// The request rate of a provider key that states none.
pub fn default_rpm() -> (r: usize)
    ensures
        r == DEFAULT_RPM,
        r == 40,
{
    DEFAULT_RPM
}

pub fn default_history_days() -> (r: u32)
    ensures
        r == DEFAULT_HISTORY_DAYS,
        r == 30,
{
    DEFAULT_HISTORY_DAYS
}

pub fn default_max_inflight() -> (r: usize)
    ensures
        r == DEFAULT_MAX_INFLIGHT,
        r == 512,
{
    DEFAULT_MAX_INFLIGHT
}

pub fn default_models_ttl_secs() -> (r: u64)
    ensures
        r == DEFAULT_MODELS_TTL_SECS,
        r == 600,
{
    DEFAULT_MODELS_TTL_SECS
}

impl Default for Settings {
    fn default() -> (r: Self)
        ensures
            r.history_days == DEFAULT_HISTORY_DAYS,
            r.max_inflight == DEFAULT_MAX_INFLIGHT,
            r.models_ttl_secs == DEFAULT_MODELS_TTL_SECS,
            r.allow_from@.len() == 0,
    {
        Settings {
            history_days: default_history_days(),
            max_inflight: default_max_inflight(),
            models_ttl_secs: default_models_ttl_secs(),
            allow_from: Vec::new(),
        }
    }
}

impl Default for StoredConfig {
    fn default() -> (r: Self)
        ensures
            r.version == 0,
            r.users@.len() == 0,
            r.providers@.len() == 0,
            r.clients@.len() == 0,
            r.aliases@.len() == 0,
            r.settings.history_days == DEFAULT_HISTORY_DAYS,
            r.settings.max_inflight == DEFAULT_MAX_INFLIGHT,
            r.settings.models_ttl_secs == DEFAULT_MODELS_TTL_SECS,
            r.settings.allow_from@.len() == 0,
    {
        StoredConfig {
            version: 0,
            users: Vec::new(),
            providers: Vec::new(),
            clients: Vec::new(),
            aliases: Vec::new(),
            settings: Settings::default(),
        }
    }
}

/// Where the account `username` stands among `users`.
pub open spec fn user_index(users: Seq<User>, username: Seq<char>) -> Option<int> {
    seqs::first_where(users, signs_in_as(username))
}

/// Whether an account has the username.
pub open spec fn signs_in_as(username: Seq<char>) -> spec_fn(User) -> bool {
    |u: User| u.username@ == username
}

/// Where the superuser stands among `users`.
pub open spec fn superuser_index(users: Seq<User>) -> Option<int> {
    seqs::first_where(users, |u: User| u.role == Role::Superuser)
}

/// Where the provider `name` stands among `providers`.
pub open spec fn provider_index(providers: Seq<Provider>, name: Seq<char>) -> Option<int> {
    seqs::first_where(providers, is_called(name))
}

/// Whether a provider has the name.
pub open spec fn is_called(name: Seq<char>) -> spec_fn(Provider) -> bool {
    |p: Provider| p.name@ == name
}

/// Where the virtual model `name` stands among `aliases`.
pub open spec fn alias_index(aliases: Seq<Alias>, name: Seq<char>) -> Option<int> {
    seqs::first_where(aliases, goes_by(name))
}

/// Whether an alias goes by the name.
pub open spec fn goes_by(name: Seq<char>) -> spec_fn(Alias) -> bool {
    |a: Alias| a.name@ == name
}

/// An alias that has the name, where none before it has, is the one found.
pub proof fn lemma_alias_found(aliases: Seq<Alias>, name: Seq<char>, k: int)
    requires
        0 <= k < aliases.len(),
        aliases[k].name@ == name,
        forall|j: int| 0 <= j < k ==> (#[trigger] aliases[j]).name@ != name,
    ensures
        alias_index(aliases, name) == Some(k),
{
    seqs::lemma_is_first(aliases, goes_by(name), k);
}

/// An account is found by its username: the first that has it, and none only where none
/// has it.
pub proof fn law_an_account_is_found_by_name(users: Seq<User>, username: Seq<char>)
    ensures
        match user_index(users, username) {
            Some(i) => 0 <= i < users.len() && users[i].username@ == username && forall|j: int|
                0 <= j < i ==> (#[trigger] users[j]).username@ != username,
            None => forall|j: int|
                0 <= j < users.len() ==> (#[trigger] users[j]).username@ != username,
        },
{
    seqs::lemma_first_where(users, signs_in_as(username));
}

/// The superuser is an account of that role, and there is none only where no account has
/// it.
pub proof fn law_the_superuser_is_found(users: Seq<User>)
    ensures
        match superuser_index(users) {
            Some(i) => 0 <= i < users.len() && users[i].role == Role::Superuser,
            None => forall|i: int|
                0 <= i < users.len() ==> (#[trigger] users[i]).role != Role::Superuser,
        },
{
    seqs::lemma_first_where(users, |u: User| u.role == Role::Superuser);
}

pub open spec fn opt_index(r: Option<usize>) -> Option<int> {
    match r {
        Some(i) => Some(i as int),
        None => None,
    }
}

/// The position of the account `username`.
pub fn find_user(users: &[User], username: &str) -> (r: Option<usize>)
    ensures
        opt_index(r) == user_index(users@, username@),
        r matches Some(i) ==> i < users@.len() && users@[i as int].username@ == username@,
        r is None ==> forall|j: int|
            0 <= j < users@.len() ==> (#[trigger] users@[j]).username@ != username@,
{
    let ghost f = signs_in_as(username@);
    let mut i: usize = 0;
    while i < users.len()
        invariant
            i <= users@.len(),
            f == signs_in_as(username@),
            forall|j: int| 0 <= j < i ==> !f(#[trigger] users@[j]),
        decreases users@.len() - i,
    {
        if text::same_text(users[i].username.as_str(), username) {
            proof {
                seqs::lemma_is_first(users@, f, i as int);
            }
            return Some(i);
        }
        i += 1;
    }
    proof {
        seqs::lemma_is_none(users@, f);
    }
    None
}

/// The position of the provider `name`.
pub fn find_provider(providers: &[Provider], name: &str) -> (r: Option<usize>)
    ensures
        opt_index(r) == provider_index(providers@, name@),
        r matches Some(i) ==> i < providers@.len() && providers@[i as int].name@ == name@,
        r is None ==> forall|j: int|
            0 <= j < providers@.len() ==> (#[trigger] providers@[j]).name@ != name@,
{
    let ghost f = is_called(name@);
    let mut i: usize = 0;
    while i < providers.len()
        invariant
            i <= providers@.len(),
            f == is_called(name@),
            forall|j: int| 0 <= j < i ==> !f(#[trigger] providers@[j]),
        decreases providers@.len() - i,
    {
        if text::same_text(providers[i].name.as_str(), name) {
            proof {
                seqs::lemma_is_first(providers@, f, i as int);
            }
            return Some(i);
        }
        i += 1;
    }
    proof {
        seqs::lemma_is_none(providers@, f);
    }
    None
}

/// The position of the virtual model `name`.
pub fn find_alias(aliases: &[Alias], name: &str) -> (r: Option<usize>)
    ensures
        opt_index(r) == alias_index(aliases@, name@),
        r matches Some(i) ==> i < aliases@.len() && aliases@[i as int].name@ == name@,
        r is None ==> forall|j: int|
            0 <= j < aliases@.len() ==> (#[trigger] aliases@[j]).name@ != name@,
{
    let ghost f = goes_by(name@);
    let mut i: usize = 0;
    while i < aliases.len()
        invariant
            i <= aliases@.len(),
            f == goes_by(name@),
            forall|j: int| 0 <= j < i ==> !f(#[trigger] aliases@[j]),
        decreases aliases@.len() - i,
    {
        if text::same_text(aliases[i].name.as_str(), name) {
            proof {
                seqs::lemma_is_first(aliases@, f, i as int);
            }
            return Some(i);
        }
        i += 1;
    }
    proof {
        seqs::lemma_is_none(aliases@, f);
    }
    None
}

impl StoredConfig {
    /// The single superuser, if setup has run.
    pub fn superuser(&self) -> (r: Option<&User>)
        ensures
            match superuser_index(self.users@) {
                Some(i) => r == Some(&self.users@[i]),
                None => r is None,
            },
            r matches Some(u) ==> u.role == Role::Superuser && self.users@.contains(*u),
            r is None ==> forall|i: int|
                0 <= i < self.users@.len() ==> (#[trigger] self.users@[i]).role != Role::Superuser,
    {
        let ghost f = |u: User| u.role == Role::Superuser;
        let mut i: usize = 0;
        while i < self.users.len()
            invariant
                i <= self.users@.len(),
                f == |u: User| u.role == Role::Superuser,
                forall|j: int| 0 <= j < i ==> !f(#[trigger] self.users@[j]),
            decreases self.users@.len() - i,
        {
            if self.users[i].role == Role::Superuser {
                proof {
                    seqs::lemma_is_first(self.users@, f, i as int);
                }
                return Some(&self.users[i]);
            }
            i += 1;
        }
        proof {
            seqs::lemma_is_none(self.users@, f);
        }
        None
    }
}

// --- Base URLs ---------------------------------------------------------------

/// One pass of the clean-up: white space, trailing slashes, white space again,
/// then one `/v1` suffix.
pub open spec fn base_url_step(s: Seq<char>) -> Seq<char> {
    let bare = text::trimmed(text::trim_end_char(text::trimmed(s), '/'));
    if text::has_suffix(bare, "/v1"@) {
        bare.take(bare.len() - 3)
    } else {
        bare
    }
}

/// The clean-up repeated until it changes nothing more.
pub open spec fn normal_base_url(s: Seq<char>) -> Seq<char>
    decreases s.len(),
{
    let next = base_url_step(s);
    if next.len() < s.len() {
        normal_base_url(next)
    } else {
        s
    }
}

proof fn lemma_trim_start(s: Seq<char>)
    ensures
        text::trim_start(s).len() <= s.len(),
        text::trim_start(s).len() == s.len() ==> text::trim_start(s) == s,
    decreases s.len(),
{
    if s.len() > 0 && text::is_space(s.first()) {
        lemma_trim_start(s.drop_first());
    }
}

proof fn lemma_trim_end(s: Seq<char>)
    ensures
        text::trim_end(s).len() <= s.len(),
        text::trim_end(s).len() == s.len() ==> text::trim_end(s) == s,
    decreases s.len(),
{
    if s.len() > 0 && text::is_space(s.last()) {
        lemma_trim_end(s.drop_last());
    }
}

proof fn lemma_trimmed(s: Seq<char>)
    ensures
        text::trimmed(s).len() <= s.len(),
        text::trimmed(s).len() == s.len() ==> text::trimmed(s) == s,
{
    lemma_trim_start(s);
    lemma_trim_end(text::trim_start(s));
}

proof fn lemma_trim_end_char(s: Seq<char>, c: char)
    ensures
        text::trim_end_char(s, c).len() <= s.len(),
        text::trim_end_char(s, c).len() == s.len() ==> text::trim_end_char(s, c) == s,
        text::trim_end_char(s, c).len() > 0 ==> text::trim_end_char(s, c).last() != c,
    decreases s.len(),
{
    if s.len() > 0 && s.last() == c {
        lemma_trim_end_char(s.drop_last(), c);
    }
}

/// A pass shortens the text or leaves it alone, and leaves alone only text that
/// has nothing left to remove.
proof fn lemma_base_url_step(s: Seq<char>)
    ensures
        base_url_step(s).len() <= s.len(),
        base_url_step(s).len() == s.len() ==> {
            &&& base_url_step(s) == s
            &&& text::trimmed(s) == s
            &&& s.len() > 0 ==> s.last() != '/'
            &&& !text::has_suffix(s, "/v1"@)
        },
{
    let a = text::trimmed(s);
    let b = text::trim_end_char(a, '/');
    let c = text::trimmed(b);
    lemma_trimmed(s);
    lemma_trim_end_char(a, '/');
    lemma_trimmed(b);
    reveal_strlit("/v1");
}

/// A normal base URL is left alone by the clean-up, and carries no white space
/// around it, no trailing slash and no `/v1` suffix.
pub proof fn law_base_url_is_normal(raw: Seq<char>)
    ensures
        normal_base_url(normal_base_url(raw)) == normal_base_url(raw),
        text::trimmed(normal_base_url(raw)) == normal_base_url(raw),
        normal_base_url(raw).len() > 0 ==> normal_base_url(raw).last() != '/',
        !text::has_suffix(normal_base_url(raw), "/v1"@),
    decreases raw.len(),
{
    lemma_base_url_step(raw);
    if base_url_step(raw).len() < raw.len() {
        law_base_url_is_normal(base_url_step(raw));
    }
}

/// Made of white space, slashes and `/v1`, and of nothing else.
pub open spec fn only_trimmings(s: Seq<char>) -> bool
    decreases s.len(),
{
    ||| s.len() == 0
    ||| (s.len() > 0 && (text::is_space(s[0]) || s[0] == '/') && only_trimmings(s.skip(1)))
    ||| (s.len() >= 3 && text::has_prefix(s, "/v1"@) && only_trimmings(s.skip(3)))
}

/// `t` is `s[from..to]`, with only white space before it and only trimmings behind it.
pub open spec fn cut_down(s: Seq<char>, t: Seq<char>, from: int, to: int) -> bool {
    &&& 0 <= from <= to <= s.len()
    &&& t == s.subrange(from, to)
    &&& forall|i: int| 0 <= i < from ==> text::is_space(#[trigger] s[i])
    &&& only_trimmings(s.skip(to))
}

proof fn lemma_trimmings_together(a: Seq<char>, b: Seq<char>)
    requires
        only_trimmings(a),
        only_trimmings(b),
    ensures
        only_trimmings(a + b),
    decreases a.len(),
{
    reveal_strlit("/v1");
    if a.len() == 0 {
        assert(a + b =~= b);
    } else if (text::is_space(a[0]) || a[0] == '/') && only_trimmings(a.skip(1)) {
        lemma_trimmings_together(a.skip(1), b);
        assert((a + b).skip(1) =~= a.skip(1) + b);
    } else {
        lemma_trimmings_together(a.skip(3), b);
        assert((a + b).skip(3) =~= a.skip(3) + b);
        assert((a + b).take(3) =~= a.take(3));
    }
}

proof fn lemma_all_trimmings(s: Seq<char>)
    requires
        forall|i: int| 0 <= i < s.len() ==> text::is_space(#[trigger] s[i]) || s[i] == '/',
    ensures
        only_trimmings(s),
    decreases s.len(),
{
    if s.len() > 0 {
        lemma_all_trimmings(s.skip(1));
        assert(text::is_space(s[0]) || s[0] == '/');
    }
}

proof fn lemma_cut_twice(
    s: Seq<char>,
    t: Seq<char>,
    a: int,
    b: int,
    u: Seq<char>,
    c: int,
    d: int,
)
    requires
        cut_down(s, t, a, b),
        cut_down(t, u, c, d),
    ensures
        cut_down(s, u, a + c, a + d),
{
    assert(u =~= s.subrange(a + c, a + d));
    assert forall|i: int| 0 <= i < a + c implies text::is_space(#[trigger] s[i]) by {
        if i >= a {
            assert(t[i - a] == s[i]);
        }
    }
    lemma_trimmings_together(t.skip(d), s.skip(b));
    assert(s.skip(a + d) =~= t.skip(d) + s.skip(b));
}

proof fn lemma_trim_start_cuts(s: Seq<char>) -> (from: int)
    ensures
        cut_down(s, text::trim_start(s), from, s.len() as int),
    decreases s.len(),
{
    if s.len() > 0 && text::is_space(s.first()) {
        let rest = s.drop_first();
        let from = lemma_trim_start_cuts(rest);
        assert(rest.subrange(from, rest.len() as int) =~= s.subrange(from + 1, s.len() as int));
        assert forall|i: int| 0 <= i < from + 1 implies text::is_space(#[trigger] s[i]) by {
            if i > 0 {
                assert(rest[i - 1] == s[i]);
            }
        }
        from + 1
    } else {
        assert(s.subrange(0, s.len() as int) =~= s);
        0
    }
}

proof fn lemma_trim_end_cuts(s: Seq<char>) -> (to: int)
    ensures
        cut_down(s, text::trim_end(s), 0, to),
        forall|i: int| to <= i < s.len() ==> text::is_space(#[trigger] s[i]),
    decreases s.len(),
{
    if s.len() > 0 && text::is_space(s.last()) {
        let rest = s.drop_last();
        let to = lemma_trim_end_cuts(rest);
        assert(rest.subrange(0, to) =~= s.subrange(0, to));
        assert forall|i: int| to <= i < s.len() implies text::is_space(#[trigger] s[i]) by {
            if i < rest.len() {
                assert(rest[i] == s[i]);
            }
        }
        lemma_all_trimmings(s.skip(to));
        to
    } else {
        assert(s.subrange(0, s.len() as int) =~= s);
        s.len() as int
    }
}

proof fn lemma_trim_slashes_cuts(s: Seq<char>) -> (to: int)
    ensures
        cut_down(s, text::trim_end_char(s, '/'), 0, to),
        forall|i: int| to <= i < s.len() ==> #[trigger] s[i] == '/',
    decreases s.len(),
{
    if s.len() > 0 && s.last() == '/' {
        let rest = s.drop_last();
        let to = lemma_trim_slashes_cuts(rest);
        assert(rest.subrange(0, to) =~= s.subrange(0, to));
        assert forall|i: int| to <= i < s.len() implies #[trigger] s[i] == '/' by {
            if i < rest.len() {
                assert(rest[i] == s[i]);
            }
        }
        lemma_all_trimmings(s.skip(to));
        to
    } else {
        assert(s.subrange(0, s.len() as int) =~= s);
        s.len() as int
    }
}

proof fn lemma_trimmed_cuts(s: Seq<char>) -> (r: (int, int))
    ensures
        cut_down(s, text::trimmed(s), r.0, r.1),
{
    let a = text::trim_start(s);
    let from = lemma_trim_start_cuts(s);
    let to = lemma_trim_end_cuts(a);
    lemma_cut_twice(s, a, from, s.len() as int, text::trimmed(s), 0, to);
    (from, from + to)
}

proof fn lemma_step_cuts(s: Seq<char>) -> (r: (int, int))
    ensures
        cut_down(s, base_url_step(s), r.0, r.1),
{
    reveal_strlit("/v1");
    let a = text::trimmed(s);
    let b = text::trim_end_char(a, '/');
    let bare = text::trimmed(b);
    let (f1, t1) = lemma_trimmed_cuts(s);
    let t2 = lemma_trim_slashes_cuts(a);
    lemma_cut_twice(s, a, f1, t1, b, 0, t2);
    let (f3, t3) = lemma_trimmed_cuts(b);
    lemma_cut_twice(s, b, f1, f1 + t2, bare, f3, t3);
    if text::has_suffix(bare, "/v1"@) {
        let n = bare.len() - 3;
        let tail = bare.skip(n);
        assert(tail.take(3) =~= tail);
        assert(tail.skip(3) =~= Seq::<char>::empty());
        assert(only_trimmings(tail.skip(3)));
        assert(only_trimmings(tail));
        assert(bare.take(n) =~= bare.subrange(0, n));
        lemma_cut_twice(s, bare, f1 + f3, f1 + t3, bare.take(n), 0, n);
        (f1 + f3, f1 + f3 + n)
    } else {
        (f1 + f3, f1 + t3)
    }
}

/// Nothing is removed from a base URL but white space before it, and white space,
/// slashes and `/v1` behind it.
pub proof fn law_only_trimmings_are_removed(raw: Seq<char>)
    ensures
        exists|from: int, to: int| #[trigger] cut_down(raw, normal_base_url(raw), from, to),
    decreases raw.len(),
{
    let next = base_url_step(raw);
    if next.len() < raw.len() {
        let (a, b) = lemma_step_cuts(raw);
        law_only_trimmings_are_removed(next);
        let (c, d) = choose|c: int, d: int| #[trigger] cut_down(next, normal_base_url(next), c, d);
        lemma_cut_twice(raw, next, a, b, normal_base_url(next), c, d);
        assert(cut_down(raw, normal_base_url(raw), a + c, a + d));
    } else {
        assert(raw.subrange(0, raw.len() as int) =~= raw);
        assert(cut_down(raw, normal_base_url(raw), 0, raw.len() as int));
    }
}

/// Normalize a provider base URL for path-forwarding.
///
/// A request arrives with its full path (`/v1/chat/completions`) and that path is
/// forwarded verbatim, so the base must not itself end in `/v1`: the result would
/// be `/v1/v1/chat/completions`, which no provider routes. Each rule can expose
/// input for another (a trailing slash hides white space from the trim, and
/// stripping `/v1` can reveal a slash underneath), so they are applied until the
/// text stops changing.
pub fn normalize_base_url(raw: &str) -> (out: String)
    ensures
        out@ == normal_base_url(raw@),
{
    let chars = text::chars_of(raw);
    let v1 = text::chars_of("/v1");
    proof {
        reveal_strlit("/v1");
    }
    let mut lo: usize = 0;
    let mut hi: usize = chars.len();
    assert(chars@.subrange(0, chars@.len() as int) =~= raw@);
    loop
        invariant
            chars@ == raw@,
            v1@ == "/v1"@,
            v1@.len() == 3,
            lo <= hi <= chars@.len(),
            normal_base_url(raw@) == normal_base_url(chars@.subrange(lo as int, hi as int)),
        decreases hi - lo,
    {
        let ghost cur = chars@.subrange(lo as int, hi as int);
        let (a, b) = text::trim_bounds(&chars, lo, hi);
        let mut end: usize = b;
        let ghost inner = chars@.subrange(a as int, b as int);
        while a < end && chars[end - 1] == '/'
            invariant
                a <= end <= b <= chars@.len(),
                text::trim_end_char(inner, '/') == text::trim_end_char(
                    chars@.subrange(a as int, end as int),
                    '/',
                ),
            decreases end - a,
        {
            let ghost at = chars@.subrange(a as int, end as int);
            end -= 1;
            assert(at.drop_last() =~= chars@.subrange(a as int, end as int));
        }
        assert(text::trim_end_char(inner, '/') == chars@.subrange(a as int, end as int));
        let (c, d) = text::trim_bounds(&chars, a, end);
        let mut stop: usize = d;
        let ghost bare = chars@.subrange(c as int, d as int);
        if d - c >= 3 {
            assert(chars@.skip(d - 3).take(3) =~= bare.skip(bare.len() - 3));
            if text::prefix_at(&chars, d - 3, &v1) {
                stop = d - 3;
                assert(bare.take(bare.len() - 3) =~= chars@.subrange(c as int, stop as int));
            }
        }
        assert(base_url_step(cur) == chars@.subrange(c as int, stop as int));
        if stop - c == hi - lo {
            return text::string_of(&chars, lo, hi);
        }
        lo = c;
        hi = stop;
    }
}

// --- The store file ----------------------------------------------------------

/// Where the store lives under the data directory `dir`.
pub open spec fn store_location(dir: Seq<char>) -> Seq<char> {
    if dir.len() == 0 || dir.last() == '/' {
        dir + "config.json"@
    } else {
        dir + "/config.json"@
    }
}

/// Where the store lives under the data directory `dir`.
pub fn store_path(dir: &str) -> (out: String)
    ensures
        out@ == store_location(dir@),
{
    let chars = text::chars_of(dir);
    let mut out = text::owned(dir);
    if chars.len() == 0 || chars[chars.len() - 1] == '/' {
        out.append("config.json");
    } else {
        out.append("/config.json");
    }
    out
}

/// What is said of a store of a later version.
pub open spec fn newer_store_message(version: u32) -> Seq<char> {
    "config store version "@ + text::decimal(version as nat) + " is newer than this build supports ("@
        + text::decimal(STORE_VERSION as nat) + ")"@
}

/// Refuse a store written by a newer build: a hard boot error, never a silent
/// reset.
pub fn check_version(version: u32) -> (r: Result<(), String>)
    ensures
        match r {
            Ok(()) => version <= STORE_VERSION,
            Err(e) => version > STORE_VERSION && e@ == newer_store_message(version),
        },
{
    if version > STORE_VERSION {
        let mut e = text::owned("config store version ");
        text::push_number(&mut e, version as u64);
        e.append(" is newer than this build supports (");
        text::push_number(&mut e, STORE_VERSION as u64);
        e.append(")");
        Err(e)
    } else {
        Ok(())
    }
}

// --- What a store holds ------------------------------------------------------

#[verifier::ext_equal]
pub struct KeyView {
    pub key: Seq<char>,
    pub enabled: bool,
    pub rpm: usize,
    pub owner: Seq<char>,
}

#[verifier::ext_equal]
pub struct ProviderView {
    pub name: Seq<char>,
    pub base_url: Seq<char>,
    pub protocol: Protocol,
    pub keys: Seq<KeyView>,
}

#[verifier::ext_equal]
pub struct TargetView {
    pub provider: Seq<char>,
    pub model: Seq<char>,
}

#[verifier::ext_equal]
pub struct AliasView {
    pub name: Seq<char>,
    pub targets: Seq<TargetView>,
}

#[verifier::ext_equal]
pub struct ClientView {
    pub label: Seq<char>,
    pub digest: Seq<char>,
    pub last4: Seq<char>,
    pub owner: Seq<char>,
}

#[verifier::ext_equal]
pub struct UserView {
    pub username: Seq<char>,
    pub pw_hash: Seq<char>,
    pub role: Role,
}

#[verifier::ext_equal]
pub struct SettingsView {
    pub history_days: u32,
    pub max_inflight: usize,
    pub models_ttl_secs: u64,
    pub allow_from: Seq<Seq<char>>,
}

#[verifier::ext_equal]
pub struct ConfigView {
    pub version: u32,
    pub users: Seq<UserView>,
    pub providers: Seq<ProviderView>,
    pub clients: Seq<ClientView>,
    pub aliases: Seq<AliasView>,
    pub settings: SettingsView,
}

impl View for ProviderKey {
    type V = KeyView;

    open spec fn view(&self) -> KeyView {
        KeyView { key: self.key@, enabled: self.enabled, rpm: self.rpm, owner: self.owner@ }
    }
}

pub open spec fn key_views(v: Seq<ProviderKey>) -> Seq<KeyView> {
    v.map_values(|k: ProviderKey| k@)
}

impl View for Provider {
    type V = ProviderView;

    open spec fn view(&self) -> ProviderView {
        ProviderView {
            name: self.name@,
            base_url: self.base_url@,
            protocol: self.protocol,
            keys: key_views(self.keys@),
        }
    }
}

impl View for AliasTarget {
    type V = TargetView;

    open spec fn view(&self) -> TargetView {
        TargetView { provider: self.provider@, model: self.model@ }
    }
}

pub open spec fn target_views(v: Seq<AliasTarget>) -> Seq<TargetView> {
    v.map_values(|t: AliasTarget| t@)
}

impl View for Alias {
    type V = AliasView;

    open spec fn view(&self) -> AliasView {
        AliasView { name: self.name@, targets: target_views(self.targets@) }
    }
}

impl View for ClientKey {
    type V = ClientView;

    open spec fn view(&self) -> ClientView {
        ClientView {
            label: self.label@,
            digest: self.digest@,
            last4: self.last4@,
            owner: self.owner@,
        }
    }
}

impl View for User {
    type V = UserView;

    open spec fn view(&self) -> UserView {
        UserView { username: self.username@, pw_hash: self.pw_hash@, role: self.role }
    }
}

impl View for Settings {
    type V = SettingsView;

    open spec fn view(&self) -> SettingsView {
        SettingsView {
            history_days: self.history_days,
            max_inflight: self.max_inflight,
            models_ttl_secs: self.models_ttl_secs,
            allow_from: text::texts(self.allow_from@),
        }
    }
}

pub open spec fn provider_views(v: Seq<Provider>) -> Seq<ProviderView> {
    v.map_values(|p: Provider| p@)
}

pub open spec fn alias_views(v: Seq<Alias>) -> Seq<AliasView> {
    v.map_values(|a: Alias| a@)
}

pub open spec fn client_views(v: Seq<ClientKey>) -> Seq<ClientView> {
    v.map_values(|c: ClientKey| c@)
}

pub open spec fn user_views(v: Seq<User>) -> Seq<UserView> {
    v.map_values(|u: User| u@)
}

impl View for StoredConfig {
    type V = ConfigView;

    open spec fn view(&self) -> ConfigView {
        ConfigView {
            version: self.version,
            users: user_views(self.users@),
            providers: provider_views(self.providers@),
            clients: client_views(self.clients@),
            aliases: alias_views(self.aliases@),
            settings: self.settings@,
        }
    }
}

// --- Routes ------------------------------------------------------------------

/// The native route of the one protocol, and whatever lies below it, is told from every
/// other path.
pub proof fn law_the_route_tells_the_protocol(route: Seq<char>, below: Seq<char>)
    ensures
        anthropic_route("/v1/messages"@),
        anthropic_route("/v1/messages/"@ + below),
        anthropic_route(route) ==> route == "/v1/messages"@ || exists|b: Seq<char>|
            route == #[trigger] ("/v1/messages/"@ + b),
{
    let p = "/v1/messages/"@;
    let r = p + below;
    assert(r.take(p.len() as int) =~= p);
    if text::has_prefix(route, p) {
        assert(route =~= p + route.skip(p.len() as int));
    }
}

/// The store lies in its directory, under its own name, with one slash between.
pub proof fn law_the_store_lies_in_its_directory(dir: Seq<char>)
    ensures
        dir.len() == 0 ==> store_location(dir) == "config.json"@,
        store_location(dir.push('/')) == dir.push('/') + "config.json"@,
        dir.len() > 0 && dir.last() != '/' ==> store_location(dir) == store_location(
            dir.push('/'),
        ),
{
    reveal_strlit("config.json");
    reveal_strlit("/config.json");
    if dir.len() == 0 {
        assert(store_location(dir) =~= "config.json"@);
    }
    assert("/config.json"@ =~= seq!['/'] + "config.json"@);
    if dir.len() > 0 && dir.last() != '/' {
        assert(store_location(dir) =~= dir.push('/') + "config.json"@);
    }
}

/// What is said of a store of a later version names that version and the latest one that
/// can be read.
pub proof fn law_a_later_version_is_named(version: u32)
    ensures
        text::holds(newer_store_message(version), text::decimal(version as nat)),
        text::holds(newer_store_message(version), "("@ + text::decimal(1) + ")"@),
{
    reveal_strlit(" is newer than this build supports (");
    reveal_strlit(" is newer than this build supports ");
    reveal_strlit("(");
    let m = newer_store_message(version);
    let v = text::decimal(version as nat);
    let a = "config store version "@;
    let b = " is newer than this build supports ("@;
    let c = " is newer than this build supports "@;
    assert(b =~= c + "("@);
    assert(m =~= a + v + (b + text::decimal(1) + ")"@));
    assert(m =~= (a + v + c) + ("("@ + text::decimal(1) + ")"@) + Seq::<char>::empty());
}

} // verus!
