//! Runtime settings: change provider keys, client keys, and limits while the
//! proxy is serving, with no restart and no hand-editing of `config.json`.
//!
//! Every mutation follows the same shape — validate, persist, then swap in a
//! rebuilt pool that carries each surviving key's spent budget across. Skipping
//! the carryover would hand every key a fresh rate window on save, and a save is
//! exactly what someone does while they are at capacity and adding keys.
//!
//! The functions here validate and change a store; one that refuses leaves it as it
//! was.

use vstd::prelude::*;

use crate::auth;
use crate::config;
use crate::config::{
    Alias, AliasTarget, AliasView, ClientKey, ClientView, ConfigView, KeyView, Protocol, Provider,
    ProviderKey, ProviderView, Role, Settings, SettingsView, StoredConfig, TargetView, User, UserView,
};
use crate::crypto;
use crate::json;
use crate::json::{Json, JsonView};
use crate::net;
use crate::net::Rule;
use crate::pool;
use crate::reply;
use crate::reply::{Reply, ReplyView};
use crate::seqs;
use crate::table;
use crate::text;

verus! {

/// What a refused change is answered.
pub open spec fn refusal(message: Seq<char>) -> ReplyView {
    reply::error_view(400, "invalid_request"@, message)
}

pub fn bad_request(message: &str) -> (r: Reply)
    ensures
        r@ == refusal(message@),
{
    reply::error(400, "invalid_request", message)
}

/// A change follows its rule: it is made, or it is refused with the rule's message
/// and nothing changes.
pub open spec fn follows(
    before: ConfigView,
    after: ConfigView,
    r: Result<(), Reply>,
    rule: Result<ConfigView, Seq<char>>,
) -> bool {
    match rule {
        Ok(c) => r is Ok && after == c,
        Err(m) => r is Err && r->Err_0@ == refusal(m) && after == before,
    }
}

// --- Rates and secrets -------------------------------------------------------

/// Why a rate is not taken.
pub open spec fn rpm_fault(rpm: usize) -> Option<Seq<char>> {
    if rpm == 0 {
        Some("rpm must be at least 1; disable the key instead"@)
    } else if rpm > 10_000 {
        Some("rpm above 10000 is not a real provider limit"@)
    } else {
        None
    }
}

pub fn check_rpm(rpm: usize) -> (r: Result<(), String>)
    ensures
        match r {
            Ok(_) => rpm_fault(rpm) is None,
            Err(m) => rpm_fault(rpm) == Some(m@),
        },
{
    if rpm == 0 {
        Err(text::owned("rpm must be at least 1; disable the key instead"))
    } else if rpm > 10_000 {
        Err(text::owned("rpm above 10000 is not a real provider limit"))
    } else {
        Ok(())
    }
}

/// The last four characters of a secret, or all of a shorter one.
pub open spec fn tail4(s: Seq<char>) -> Seq<char> {
    if s.len() > 4 {
        s.skip(s.len() - 4)
    } else {
        s
    }
}

pub fn last4(secret: &str) -> (r: String)
    ensures
        r@ == tail4(secret@),
{
    let chars = text::chars_of(secret);
    let from: usize = if chars.len() > 4 {
        chars.len() - 4
    } else {
        0
    };
    let r = text::string_of(chars.as_slice(), from, chars.len());
    assert(r@ =~= tail4(secret@));
    r
}

// --- Lookups -----------------------------------------------------------------

pub open spec fn provider_at(providers: Seq<ProviderView>, name: Seq<char>) -> Option<int> {
    seqs::first_where(providers, provider_called(name))
}

/// Whether a provider has the name.
pub open spec fn provider_called(name: Seq<char>) -> spec_fn(ProviderView) -> bool {
    |p: ProviderView| p.name == name
}

pub open spec fn alias_at(aliases: Seq<AliasView>, name: Seq<char>) -> Option<int> {
    seqs::first_where(aliases, alias_called(name))
}

/// Whether a virtual model has the name.
pub open spec fn alias_called(name: Seq<char>) -> spec_fn(AliasView) -> bool {
    |a: AliasView| a.name == name
}

pub open spec fn user_at(users: Seq<UserView>, name: Seq<char>) -> Option<int> {
    seqs::first_where(users, user_called(name))
}

/// Whether an account has the username.
pub open spec fn user_called(name: Seq<char>) -> spec_fn(UserView) -> bool {
    |u: UserView| u.username == name
}

proof fn lemma_provider_at(providers: Seq<ProviderView>, name: Seq<char>)
    ensures
        match provider_at(providers, name) {
            Some(i) => 0 <= i < providers.len() && providers[i].name == name && forall|j: int|
                0 <= j < i ==> (#[trigger] providers[j]).name != name,
            None => forall|j: int|
                0 <= j < providers.len() ==> (#[trigger] providers[j]).name != name,
        },
{
    seqs::lemma_first_where(providers, provider_called(name));
}

proof fn lemma_alias_at(aliases: Seq<AliasView>, name: Seq<char>)
    ensures
        match alias_at(aliases, name) {
            Some(i) => 0 <= i < aliases.len() && aliases[i].name == name && forall|j: int|
                0 <= j < i ==> (#[trigger] aliases[j]).name != name,
            None => forall|j: int| 0 <= j < aliases.len() ==> (#[trigger] aliases[j]).name != name,
        },
{
    seqs::lemma_first_where(aliases, alias_called(name));
}

proof fn lemma_user_at(users: Seq<UserView>, name: Seq<char>)
    ensures
        match user_at(users, name) {
            Some(i) => 0 <= i < users.len() && users[i].username == name && forall|j: int|
                0 <= j < i ==> (#[trigger] users[j]).username != name,
            None => forall|j: int| 0 <= j < users.len() ==> (#[trigger] users[j]).username != name,
        },
{
    seqs::lemma_first_where(users, user_called(name));
}

fn spot_provider(providers: &Vec<Provider>, name: &str) -> (r: Option<usize>)
    ensures
        config::opt_index(r) == provider_at(config::provider_views(providers@), name@),
        r matches Some(i) ==> i < providers@.len() && providers@[i as int].name@ == name@,
{
    proof {
        let f = |p: Provider| p.name@ == name@;
        seqs::lemma_first_where(providers@, f);
        seqs::lemma_first_where_agrees(
            providers@,
            f,
            config::provider_views(providers@),
            |p: ProviderView| p.name == name@,
        );
    }
    config::find_provider(providers.as_slice(), name)
}

fn spot_alias(aliases: &Vec<Alias>, name: &str) -> (r: Option<usize>)
    ensures
        config::opt_index(r) == alias_at(config::alias_views(aliases@), name@),
        r matches Some(i) ==> i < aliases@.len(),
{
    proof {
        seqs::lemma_first_where_agrees(
            aliases@,
            |a: Alias| a.name@ == name@,
            config::alias_views(aliases@),
            |a: AliasView| a.name == name@,
        );
    }
    config::find_alias(aliases.as_slice(), name)
}

fn spot_user(users: &Vec<User>, name: &str) -> (r: Option<usize>)
    ensures
        config::opt_index(r) == user_at(config::user_views(users@), name@),
        r matches Some(i) ==> i < users@.len(),
{
    proof {
        seqs::lemma_first_where_agrees(
            users@,
            |u: User| u.username@ == name@,
            config::user_views(users@),
            |u: UserView| u.username == name@,
        );
    }
    config::find_user(users.as_slice(), name)
}

// --- Keys that serve ---------------------------------------------------------

/// Does the key at position `j` of the provider at position `i` get a lane?
pub open spec fn serves_at(v: Seq<ProviderView>, i: int, j: int) -> bool {
    0 <= i < v.len() && 0 <= j < v[i].keys.len() && v[i].keys[j].enabled && v[i].keys[j].rpm > 0
}

/// Is there a key to serve on?
pub open spec fn any_serving(v: Seq<ProviderView>) -> bool {
    exists|i: int, j: int| serves_at(v, i, j)
}

proof fn lemma_provider_specs(p: Provider, keys: Seq<ProviderKey>)
    ensures
        pool::provider_specs(p, keys).len() > 0 <==> exists|j: int|
            0 <= j < keys.len() && pool::serves(#[trigger] keys[j]),
    decreases keys.len(),
{
    if keys.len() > 0 {
        let rest = keys.drop_last();
        lemma_provider_specs(p, rest);
        if exists|j: int| 0 <= j < rest.len() && pool::serves(#[trigger] rest[j]) {
            let j = choose|j: int| 0 <= j < rest.len() && pool::serves(#[trigger] rest[j]);
            assert(keys[j] == rest[j]);
        }
        if exists|j: int| 0 <= j < keys.len() && pool::serves(#[trigger] keys[j]) {
            let j = choose|j: int| 0 <= j < keys.len() && pool::serves(#[trigger] keys[j]);
            if j < rest.len() {
                assert(rest[j] == keys[j]);
            }
        }
        if pool::serves(keys.last()) {
            assert(pool::serves(keys[keys.len() - 1]));
        }
    }
}

proof fn lemma_all_specs(providers: Seq<Provider>)
    ensures
        pool::all_specs(providers).len() > 0 <==> any_serving(config::provider_views(providers)),
    decreases providers.len(),
{
    let v = config::provider_views(providers);
    if providers.len() == 0 {
        assert(!any_serving(v));
    } else {
        let rest = providers.drop_last();
        let last = providers.last();
        let n = rest.len() as int;
        let w = config::provider_views(rest);
        lemma_all_specs(rest);
        lemma_provider_specs(last, last.keys@);
        if any_serving(w) {
            let (i, j) = choose|i: int, j: int| serves_at(w, i, j);
            assert(w[i] == v[i]);
            assert(serves_at(v, i, j));
        }
        if exists|j: int| 0 <= j < last.keys@.len() && pool::serves(#[trigger] last.keys@[j]) {
            let j = choose|j: int|
                0 <= j < last.keys@.len() && pool::serves(#[trigger] last.keys@[j]);
            assert(v[n].keys[j] == last.keys@[j]@);
            assert(serves_at(v, n, j));
        }
        if any_serving(v) {
            let (i, j) = choose|i: int, j: int| serves_at(v, i, j);
            if i < n {
                assert(w[i] == v[i]);
                assert(serves_at(w, i, j));
            } else {
                assert(v[n].keys[j] == last.keys@[j]@);
                assert(pool::serves(last.keys@[j]));
            }
        }
    }
}

/// There is a key to serve on exactly where the pool gets a lane.
pub proof fn law_a_serving_key_is_a_lane(providers: Seq<Provider>)
    ensures
        pool::all_specs(providers).len() > 0 <==> any_serving(config::provider_views(providers)),
{
    lemma_all_specs(providers);
}

/// Is there a key to serve on besides the one at position `j` of the provider at
/// position `i`?
pub open spec fn another_serves(v: Seq<ProviderView>, i: int, j: int) -> bool {
    exists|a: int, b: int| serves_at(v, a, b) && !(a == i && b == j)
}

/// `v` with the keys of the provider at position `i` replaced.
pub open spec fn with_keys(v: Seq<ProviderView>, i: int, keys: Seq<KeyView>) -> Seq<ProviderView> {
    v.update(i, ProviderView { keys, ..v[i] })
}

proof fn lemma_serving_without(v: Seq<ProviderView>, i: int, j: int)
    requires
        0 <= i < v.len(),
        0 <= j < v[i].keys.len(),
    ensures
        any_serving(with_keys(v, i, v[i].keys.remove(j))) == another_serves(v, i, j),
{
    let w = with_keys(v, i, v[i].keys.remove(j));
    if any_serving(w) {
        let (a, b) = choose|a: int, b: int| serves_at(w, a, b);
        if a == i && b >= j {
            assert(serves_at(v, a, b + 1));
        } else {
            assert(serves_at(v, a, b));
        }
    }
    if another_serves(v, i, j) {
        let (a, b) = choose|a: int, b: int| serves_at(v, a, b) && !(a == i && b == j);
        if a == i && b > j {
            assert(serves_at(w, a, b - 1));
        } else {
            assert(serves_at(w, a, b));
        }
    }
}

proof fn lemma_serving_with(v: Seq<ProviderView>, i: int, j: int, k: KeyView)
    requires
        0 <= i < v.len(),
        0 <= j < v[i].keys.len(),
    ensures
        any_serving(with_keys(v, i, v[i].keys.update(j, k))) == ((k.enabled && k.rpm > 0)
            || another_serves(v, i, j)),
{
    let w = with_keys(v, i, v[i].keys.update(j, k));
    if k.enabled && k.rpm > 0 {
        assert(serves_at(w, i, j));
    }
    if any_serving(w) {
        let (a, b) = choose|a: int, b: int| serves_at(w, a, b);
        if !(a == i && b == j) {
            assert(serves_at(v, a, b));
        }
    }
    if another_serves(v, i, j) {
        let (a, b) = choose|a: int, b: int| serves_at(v, a, b) && !(a == i && b == j);
        assert(serves_at(w, a, b));
    }
}

/// Does any key get a lane, leaving out the one at position `j` of the provider at
/// position `i`?
fn others_serve(providers: &Vec<Provider>, i: usize, j: usize) -> (r: bool)
    ensures
        r == another_serves(config::provider_views(providers@), i as int, j as int),
{
    let ghost v = config::provider_views(providers@);
    let mut a: usize = 0;
    while a < providers.len()
        invariant
            a <= providers@.len(),
            v == config::provider_views(providers@),
            forall|x: int, y: int|
                #[trigger] serves_at(v, x, y) && x < a ==> x == i && y == j,
        decreases providers@.len() - a,
    {
        let keys = &providers[a].keys;
        let mut b: usize = 0;
        while b < keys.len()
            invariant
                a < providers@.len(),
                b <= keys@.len(),
                keys@ == providers@[a as int].keys@,
                v == config::provider_views(providers@),
                forall|x: int, y: int|
                    #[trigger] serves_at(v, x, y) && (x < a || (x == a && y < b)) ==> x == i && y
                        == j,
            decreases keys@.len() - b,
        {
            assert(v[a as int].keys[b as int] == keys@[b as int]@);
            if keys[b].enabled && keys[b].rpm > 0 && !(a == i && b == j) {
                assert(serves_at(v, a as int, b as int));
                return true;
            }
            b += 1;
        }
        assert(v[a as int].keys.len() == keys@.len());
        a += 1;
    }
    false
}

// --- Provider keys -----------------------------------------------------------

pub enum KeyAction {
    Add { provider: String, key: String, rpm: Option<usize> },
    Remove { provider: String, index: usize },
    Update { provider: String, index: usize, enabled: Option<bool>, rpm: Option<usize> },
}

pub open spec fn action_provider(a: KeyAction) -> Seq<char> {
    match a {
        KeyAction::Add { provider, .. } => provider@,
        KeyAction::Remove { provider, .. } => provider@,
        KeyAction::Update { provider, .. } => provider@,
    }
}

pub open spec fn holds_key(keys: Seq<KeyView>, key: Seq<char>) -> bool {
    exists|j: int| 0 <= j < keys.len() && (#[trigger] keys[j]).key == key
}

/// A provider's keys after a change, or why it is refused.
pub open spec fn keys_after(keys: Seq<KeyView>, a: KeyAction) -> Result<Seq<KeyView>, Seq<char>> {
    match a {
        KeyAction::Add { key, rpm, .. } => {
            let key = text::trimmed(key@);
            let rpm = match rpm {
                Some(r) => r,
                None => config::DEFAULT_RPM,
            };
            if key.len() == 0 {
                Err("key must not be empty"@)
            } else if holds_key(keys, key) {
                Err("that key is already in the pool"@)
            } else if rpm_fault(rpm) is Some {
                Err(rpm_fault(rpm)->0)
            } else {
                Ok(keys.push(KeyView { key, enabled: true, rpm, owner: ""@ }))
            }
        },
        KeyAction::Remove { index, .. } => if index < keys.len() {
            Ok(keys.remove(index as int))
        } else {
            Err("no key at that position"@)
        },
        KeyAction::Update { index, enabled, rpm, .. } => if index >= keys.len() {
            Err("no key at that position"@)
        } else if rpm is Some && rpm_fault(rpm->0) is Some {
            Err(rpm_fault(rpm->0)->0)
        } else {
            let k = keys[index as int];
            Ok(
                keys.update(
                    index as int,
                    KeyView {
                        rpm: match rpm {
                            Some(r) => r,
                            None => k.rpm,
                        },
                        enabled: match enabled {
                            Some(e) => e,
                            None => k.enabled,
                        },
                        ..k
                    },
                ),
            )
        },
    }
}

/// The store after a change to a provider's keys, or why it is refused. A change
/// that would leave the proxy with nothing to serve on is: losing the last key
/// takes the data plane down, and doing it by accident from a settings page — one
/// stray disable — is far too easy.
pub open spec fn keys_changed(c: ConfigView, a: KeyAction) -> Result<ConfigView, Seq<char>> {
    match provider_at(c.providers, action_provider(a)) {
        None => Err("no provider named "@ + action_provider(a)),
        Some(i) => match keys_after(c.providers[i].keys, a) {
            Err(m) => Err(m),
            Ok(keys) => {
                let providers = with_keys(c.providers, i, keys);
                if any_serving(providers) {
                    Ok(ConfigView { providers, ..c })
                } else {
                    Err("that would leave no enabled keys and stop the proxy serving"@)
                }
            },
        },
    }
}

fn has_key(keys: &Vec<ProviderKey>, key: &str) -> (r: bool)
    ensures
        r == holds_key(config::key_views(keys@), key@),
{
    let ghost v = config::key_views(keys@);
    let mut i: usize = 0;
    while i < keys.len()
        invariant
            i <= keys@.len(),
            v == config::key_views(keys@),
            forall|j: int| 0 <= j < i ==> (#[trigger] v[j]).key != key@,
        decreases keys@.len() - i,
    {
        assert(v[i as int] == keys@[i as int]@);
        if text::same_text(keys[i].key.as_str(), key) {
            assert(v[i as int].key == key@);
            return true;
        }
        i += 1;
    }
    false
}

fn no_provider(name: &str) -> (r: Reply)
    ensures
        r@ == refusal("no provider named "@ + name@),
{
    let mut m = text::owned("no provider named ");
    m.append(name);
    bad_request(m.as_str())
}

fn add_key(
    sc: &mut StoredConfig,
    provider: &str,
    key: &str,
    rpm: Option<usize>,
    Ghost(a): Ghost<KeyAction>,
) -> (r: Result<(), Reply>)
    requires
        a matches KeyAction::Add { provider: p, key: k, rpm: m } && p@ == provider@ && k@ == key@ && m
            == rpm,
    ensures
        follows(old(sc)@, final(sc)@, r, keys_changed(old(sc)@, a)),
{
    let ghost before = sc@;
    let i: usize = match spot_provider(&sc.providers, provider) {
        Some(i) => i,
        None => {
            return Err(no_provider(provider));
        },
    };
    assert(before.providers[i as int] == sc.providers@[i as int]@);
    let key = text::trim(key);
    if key.unicode_len() == 0 {
        return Err(bad_request("key must not be empty"));
    }
    if has_key(&sc.providers[i].keys, key) {
        return Err(bad_request("that key is already in the pool"));
    }
    let rpm: usize = match rpm {
        Some(n) => n,
        None => config::DEFAULT_RPM,
    };
    match check_rpm(rpm) {
        Err(e) => {
            return Err(bad_request(e.as_str()));
        },
        Ok(_) => {},
    }
    let ghost old_keys = sc.providers@[i as int].keys@;
    let added = ProviderKey {
        key: text::owned(key),
        enabled: true,
        rpm,
        owner: text::owned(""),
    };
    sc.providers[i].keys.push(added);
    proof {
        let k = KeyView { key: key@, enabled: true, rpm, owner: ""@ };
        assert(config::key_views(sc.providers@[i as int].keys@) =~= config::key_views(
            old_keys,
        ).push(k));
        let after = with_keys(
            before.providers,
            i as int,
            before.providers[i as int].keys.push(k),
        );
        assert(sc@.providers =~= after);
        assert(sc@ =~= (ConfigView { providers: after, ..before }));
        assert(serves_at(after, i as int, before.providers[i as int].keys.len() as int));
    }
    Ok(())
}

fn remove_key(
    sc: &mut StoredConfig,
    provider: &str,
    index: usize,
    Ghost(a): Ghost<KeyAction>,
) -> (r: Result<(), Reply>)
    requires
        a matches KeyAction::Remove { provider: p, index: n } && p@ == provider@ && n == index,
    ensures
        follows(old(sc)@, final(sc)@, r, keys_changed(old(sc)@, a)),
{
    let ghost before = sc@;
    let i: usize = match spot_provider(&sc.providers, provider) {
        Some(i) => i,
        None => {
            return Err(no_provider(provider));
        },
    };
    assert(before.providers[i as int] == sc.providers@[i as int]@);
    if index >= sc.providers[i].keys.len() {
        return Err(bad_request("no key at that position"));
    }
    proof {
        lemma_serving_without(before.providers, i as int, index as int);
    }
    if !others_serve(&sc.providers, i, index) {
        return Err(bad_request("that would leave no enabled keys and stop the proxy serving"));
    }
    let ghost old_keys = sc.providers@[i as int].keys@;
    sc.providers[i].keys.remove(index);
    proof {
        assert(config::key_views(sc.providers@[i as int].keys@) =~= config::key_views(
            old_keys,
        ).remove(index as int));
        let after = with_keys(
            before.providers,
            i as int,
            before.providers[i as int].keys.remove(index as int),
        );
        assert(sc@.providers =~= after);
        assert(sc@ =~= (ConfigView { providers: after, ..before }));
    }
    Ok(())
}

fn update_key(
    sc: &mut StoredConfig,
    provider: &str,
    index: usize,
    enabled: Option<bool>,
    rpm: Option<usize>,
    Ghost(a): Ghost<KeyAction>,
) -> (r: Result<(), Reply>)
    requires
        a matches KeyAction::Update { provider: p, index: n, enabled: e, rpm: m } && p@ == provider@
            && n == index && e == enabled && m == rpm,
    ensures
        follows(old(sc)@, final(sc)@, r, keys_changed(old(sc)@, a)),
{
    let ghost before = sc@;
    let i: usize = match spot_provider(&sc.providers, provider) {
        Some(i) => i,
        None => {
            return Err(no_provider(provider));
        },
    };
    assert(before.providers[i as int] == sc.providers@[i as int]@);
    if index >= sc.providers[i].keys.len() {
        return Err(bad_request("no key at that position"));
    }
    let ghost old_keys = sc.providers@[i as int].keys@;
    assert(before.providers[i as int].keys[index as int] == old_keys[index as int]@);
    let rpm: usize = match rpm {
        Some(n) => {
            match check_rpm(n) {
                Err(e) => {
                    return Err(bad_request(e.as_str()));
                },
                Ok(_) => {},
            }
            n
        },
        None => sc.providers[i].keys[index].rpm,
    };
    let enabled: bool = match enabled {
        Some(e) => e,
        None => sc.providers[i].keys[index].enabled,
    };
    let ghost k = KeyView { rpm, enabled, ..old_keys[index as int]@ };
    proof {
        lemma_serving_with(before.providers, i as int, index as int, k);
    }
    if !(enabled && rpm > 0) && !others_serve(&sc.providers, i, index) {
        return Err(bad_request("that would leave no enabled keys and stop the proxy serving"));
    }
    sc.providers[i].keys[index].rpm = rpm;
    sc.providers[i].keys[index].enabled = enabled;
    proof {
        assert(config::key_views(sc.providers@[i as int].keys@) =~= config::key_views(
            old_keys,
        ).update(index as int, k));
        let after = with_keys(
            before.providers,
            i as int,
            before.providers[i as int].keys.update(index as int, k),
        );
        assert(sc@.providers =~= after);
        assert(sc@ =~= (ConfigView { providers: after, ..before }));
    }
    Ok(())
}

/// Add, remove, enable/disable, or re-rate a provider key.
pub fn provider_keys(sc: &mut StoredConfig, action: KeyAction) -> (r: Result<(), Reply>)
    ensures
        follows(old(sc)@, final(sc)@, r, keys_changed(old(sc)@, action)),
{
    match &action {
        KeyAction::Add { provider, key, rpm } => add_key(
            sc,
            provider.as_str(),
            key.as_str(),
            *rpm,
            Ghost(action),
        ),
        KeyAction::Remove { provider, index } => remove_key(
            sc,
            provider.as_str(),
            *index,
            Ghost(action),
        ),
        KeyAction::Update { provider, index, enabled, rpm } => update_key(
            sc,
            provider.as_str(),
            *index,
            *enabled,
            *rpm,
            Ghost(action),
        ),
    }
}

/// A change to the keys never leaves the proxy with nothing to serve on: the pool
/// rebuilt from the store has a lane.
pub proof fn law_a_key_change_keeps_the_proxy_serving(
    before: ConfigView,
    after: StoredConfig,
    a: KeyAction,
)
    requires
        keys_changed(before, a) == Ok::<ConfigView, Seq<char>>(after@),
    ensures
        pool::all_specs(after.providers@).len() > 0,
{
    lemma_all_specs(after.providers@);
}

/// A change to the keys touches the keys of the provider that it names, and
/// nothing else of the store.
pub proof fn law_a_key_change_touches_one_provider(c: ConfigView, a: KeyAction)
    requires
        keys_changed(c, a) is Ok,
    ensures
        ({
            let d = keys_changed(c, a)->Ok_0;
            let i = provider_at(c.providers, action_provider(a))->0;
            &&& 0 <= i < c.providers.len()
            &&& d == ConfigView { providers: with_keys(c.providers, i, d.providers[i].keys), ..c }
        }),
{
    seqs::lemma_first_where(c.providers, |p: ProviderView| p.name == action_provider(a));
    let i = provider_at(c.providers, action_provider(a))->0;
    let d = keys_changed(c, a)->Ok_0;
    assert(d.providers =~= with_keys(c.providers, i, d.providers[i].keys));
}

// --- Client keys -------------------------------------------------------------

pub enum ClientAction {
    Mint { label: String },
    Revoke { last4: String },
}

/// What a caller is answered where the system has no randomness to give.
pub open spec fn no_randomness() -> ReplyView {
    reply::error_view(500, "internal_error"@, "no randomness to make a secret of"@)
}

pub(crate) fn out_of_randomness() -> (r: Reply)
    ensures
        r@ == no_randomness(),
{
    reply::error(500, "internal_error", "no randomness to make a secret of")
}

/// The store with one client key more.
pub open spec fn with_client(c: ConfigView, k: ClientView) -> ConfigView {
    ConfigView { clients: c.clients.push(k), ..c }
}

/// The record kept of a client key.
pub open spec fn client_record(
    secret: Seq<char>,
    label: Seq<char>,
    owner: Seq<char>,
) -> ClientView {
    ClientView {
        label,
        digest: crypto::sha256_hex_of(secret),
        last4: secret.skip(secret.len() - 4),
        owner,
    }
}

/// Store a client key made of the random bytes `bytes`, and give its secret.
pub fn mint_client(
    sc: &mut StoredConfig,
    who: &str,
    label: &str,
    bytes: Option<Vec<u8>>,
) -> (r: Result<String, Reply>)
    ensures
        ({
            let label = text::trimmed(label@);
            if label.len() == 0 {
                r is Err && r->Err_0@ == refusal("label must not be empty"@) && final(sc)@ == old(sc)@
            } else if bytes is None {
                r is Err && r->Err_0@ == no_randomness() && final(sc)@ == old(sc)@
            } else {
                let secret = "lrlp_"@ + crypto::base64_url(bytes->0@);
                r is Ok && r->Ok_0@ == secret && final(sc)@ == with_client(
                    old(sc)@,
                    client_record(secret, label, who@),
                )
            }
        }),
{
    let label = text::trim(label);
    if label.unicode_len() == 0 {
        return Err(bad_request("label must not be empty"));
    }
    match bytes {
        None => Err(out_of_randomness()),
        Some(b) => {
            let ghost before = sc@;
            let (secret, record) = auth::client_key_of(b.as_slice(), label, who);
            sc.clients.push(record);
            proof {
                let k = client_record(secret@, label@, who@);
                assert(record@ =~= k);
                assert(sc@.clients =~= before.clients.push(k));
                assert(sc@ =~= with_client(before, k));
            }
            Ok(secret)
        },
    }
}

/// Is there a key that ends in `last4`?
pub open spec fn has_client(clients: Seq<ClientView>, last4: Seq<char>) -> bool {
    exists|i: int| 0 <= i < clients.len() && (#[trigger] clients[i]).last4 == last4
}

/// Does someone else than `who` own a key that ends in `last4`?
pub open spec fn owned_by_another(
    clients: Seq<ClientView>,
    last4: Seq<char>,
    who: Seq<char>,
) -> bool {
    exists|i: int|
        0 <= i < clients.len() && (#[trigger] clients[i]).last4 == last4 && clients[i].owner != who
}

/// The store after `who` revokes the keys that end in `last4`, or the answer that
/// refuses it. Client keys are self-service but owner-scoped: only an administrator
/// can retire someone else's.
pub open spec fn client_revoked(
    c: ConfigView,
    who: Seq<char>,
    admin: bool,
    last4: Seq<char>,
) -> Result<ConfigView, ReplyView> {
    if !has_client(c.clients, last4) {
        Err(refusal("no client key ending in that"@))
    } else if !admin && owned_by_another(c.clients, last4, who) {
        Err(reply::error_view(403, "forbidden"@, "that client key is not yours"@))
    } else {
        Ok(ConfigView { clients: c.clients.filter(|k: ClientView| k.last4 != last4), ..c })
    }
}

/// Revoke the client keys that end in `last4`.
pub fn revoke_client(sc: &mut StoredConfig, who: &str, admin: bool, last4: &str) -> (r: Result<
    (),
    Reply,
>)
    ensures
        match client_revoked(old(sc)@, who@, admin, last4@) {
            Ok(c) => r is Ok && final(sc)@ == c,
            Err(e) => r is Err && r->Err_0@ == e && final(sc)@ == old(sc)@,
        },
{
    let ghost before = sc@;
    let mut found = false;
    let mut foreign = false;
    let mut i: usize = 0;
    while i < sc.clients.len()
        invariant
            i <= sc.clients@.len(),
            before == sc@,
            found == exists|j: int| 0 <= j < i && (#[trigger] before.clients[j]).last4 == last4@,
            foreign == exists|j: int|
                0 <= j < i && (#[trigger] before.clients[j]).last4 == last4@
                    && before.clients[j].owner != who@,
        decreases sc.clients@.len() - i,
    {
        assert(before.clients[i as int] == sc.clients@[i as int]@);
        if text::same_text(sc.clients[i].last4.as_str(), last4) {
            found = true;
            if !text::same_text(sc.clients[i].owner.as_str(), who) {
                foreign = true;
            }
        }
        i += 1;
    }
    assert(before.clients.len() == sc.clients@.len());
    if !found {
        return Err(bad_request("no client key ending in that"));
    }
    if !admin && foreign {
        return Err(reply::error(403, "forbidden", "that client key is not yours"));
    }
    let ghost f = |k: ClientKey| k.last4@ != last4@;
    let ghost g = |k: ClientView| k.last4 != last4@;
    let ghost all = sc.clients@;
    let keep = |k: &ClientKey| -> (b: bool)
        ensures
            b == f(*k),
        { !text::same_text(k.last4.as_str(), last4) };
    seqs::retain(&mut sc.clients, keep, Ghost(f));
    proof {
        seqs::lemma_filter_mapped(all, |c: ClientKey| c@, f, g);
        assert(sc@ =~= (ConfigView { clients: before.clients.filter(g), ..before }));
    }
    Ok(())
}

/// Mint or revoke a client API key.
///
/// A minted secret is returned exactly once and never stored — only its digest
/// is kept — so there is no path to read an existing key back out.
pub fn clients(sc: &mut StoredConfig, who: &str, admin: bool, action: ClientAction) -> (r: Result<
    Option<String>,
    Reply,
>)
    ensures
        match action {
            ClientAction::Mint { label } => {
                let label = text::trimmed(label@);
                if label.len() == 0 {
                    r is Err && r->Err_0@ == refusal("label must not be empty"@) && final(sc)@
                        == old(sc)@
                } else {
                    match r {
                        Ok(minted) => minted is Some && final(sc)@ == with_client(
                            old(sc)@,
                            client_record(minted->0@, label, who@),
                        ) && exists|bytes: Seq<u8>|
                            bytes.len() == 32 && minted->0@ == "lrlp_"@
                                + #[trigger] crypto::base64_url(bytes),
                        Err(e) => e@ == no_randomness() && final(sc)@ == old(sc)@,
                    }
                }
            },
            ClientAction::Revoke { last4 } => match client_revoked(
                old(sc)@,
                who@,
                admin,
                last4@,
            ) {
                Ok(c) => r is Ok && r->Ok_0 is None && final(sc)@ == c,
                Err(e) => r is Err && r->Err_0@ == e && final(sc)@ == old(sc)@,
            },
        },
{
    match action {
        ClientAction::Mint { label } => match mint_client(
            sc,
            who,
            label.as_str(),
            crypto::random_bytes(32),
        ) {
            Ok(secret) => Ok(Some(secret)),
            Err(e) => Err(e),
        },
        ClientAction::Revoke { last4 } => match revoke_client(sc, who, admin, last4.as_str()) {
            Ok(_) => Ok(None),
            Err(e) => Err(e),
        },
    }
}

/// A minted key authenticates at once, under its label: the store that keeps its
/// record recognises the secret, where it did not belong to an earlier key.
pub proof fn law_a_minted_key_authenticates(
    before: StoredConfig,
    after: StoredConfig,
    secret: Seq<char>,
    label: Seq<char>,
    owner: Seq<char>,
)
    requires
        after@ == with_client(before@, client_record(secret, label, owner)),
        auth::client_index(before.clients@, secret) is None,
    ensures
        auth::client_label(after.clients@, secret) == Some(label),
{
    let n = before.clients@.len() as int;
    let f = |k: ClientKey| k.digest@ == crypto::sha256_hex_of(secret);
    let v = after@.clients;
    assert(v.len() == after.clients@.len());
    assert(v[n] == after.clients@[n]@);
    seqs::lemma_first_where(before.clients@, f);
    assert forall|j: int| 0 <= j < n implies !f(#[trigger] after.clients@[j]) by {
        assert(v[j] == after.clients@[j]@);
        assert(v[j] == before.clients@[j]@);
        assert(!f(before.clients@[j]));
    }
    seqs::lemma_is_first(after.clients@, f, n);
}

/// A revoked key is gone, and every other key stays.
pub proof fn law_revoking_removes_those_keys_only(
    c: ConfigView,
    who: Seq<char>,
    admin: bool,
    last4: Seq<char>,
)
    requires
        client_revoked(c, who, admin, last4) is Ok,
    ensures
        ({
            let d = client_revoked(c, who, admin, last4)->Ok_0;
            &&& !has_client(d.clients, last4)
            &&& forall|k: ClientView|
                k.last4 != last4 ==> (#[trigger] d.clients.contains(k) <==> c.clients.contains(k))
            &&& d == ConfigView { clients: d.clients, ..c }
        }),
{
    broadcast use vstd::seq_lib::group_filter_ensures;

    let f = |k: ClientView| k.last4 != last4;
    let d = client_revoked(c, who, admin, last4)->Ok_0;
    assert(!has_client(d.clients, last4)) by {
        assert forall|i: int| 0 <= i < d.clients.len() implies (#[trigger] d.clients[i]).last4
            != last4 by {
            assert(f(d.clients[i]));
        }
    }
    assert forall|k: ClientView| k.last4 != last4 implies (#[trigger] d.clients.contains(k)
        <==> c.clients.contains(k)) by {
        if d.clients.contains(k) {
            c.clients.lemma_filter_contains_rev(f, k);
        }
        if c.clients.contains(k) {
            let i = choose|i: int| 0 <= i < c.clients.len() && c.clients[i] == k;
            assert(f(c.clients[i]));
        }
    }
}

/// Someone who is no administrator retires no key of someone else's.
pub proof fn law_only_administrators_retire_anothers_key(
    c: ConfigView,
    who: Seq<char>,
    last4: Seq<char>,
    k: ClientView,
)
    requires
        client_revoked(c, who, false, last4) is Ok,
        c.clients.contains(k),
        k.owner != who,
    ensures
        client_revoked(c, who, false, last4)->Ok_0.clients.contains(k),
{
    let i = choose|i: int| 0 <= i < c.clients.len() && c.clients[i] == k;
    assert(c.clients[i].last4 != last4);
    law_revoking_removes_those_keys_only(c, who, false, last4);
}

// --- Limits ------------------------------------------------------------------

pub struct LimitsReq {
    pub max_inflight: Option<usize>,
    pub models_ttl_secs: Option<u64>,
    pub history_days: Option<u32>,
    pub allow_from: Option<Vec<String>>,
}

/// The rule that an entry of the allowlist states.
#[verifier::opaque]
pub open spec fn entry_rule(entry: Seq<char>) -> Option<Rule> {
    net::rule_text(text::trimmed(entry))
}

/// The first entry of the allowlist that states no rule.
pub open spec fn bad_entry(list: Seq<Seq<char>>) -> Option<int> {
    seqs::first_where(list, |e: Seq<char>| entry_rule(e) is None)
}

/// What is said of an entry that states no rule.
pub open spec fn entry_fault(entry: Seq<char>) -> Seq<char> {
    entry + " is neither an address nor a CIDR block"@
}

fn read_entry(entry: &str) -> (r: Option<Rule>)
    ensures
        r == entry_rule(entry@),
        r matches Some(rule) ==> net::valid(rule),
{
    proof {
        reveal(entry_rule);
    }
    net::parse_rule(entry)
}

/// The rules of an allowlist, or what is wrong with its first bad entry: a mistyped
/// entry that were dropped would lock someone out, or let someone in, unnoticed.
pub fn allow_rules(list: &[String]) -> (r: Result<Vec<Rule>, String>)
    ensures
        match bad_entry(text::texts(list@)) {
            None => r is Ok && r->Ok_0@ == text::texts(list@).map_values(
                |e: Seq<char>| entry_rule(e)->0,
            ),
            Some(i) => r is Err && r->Err_0@ == entry_fault(text::texts(list@)[i]),
        },
        r matches Ok(rules) ==> forall|i: int|
            0 <= i < rules@.len() ==> net::valid(#[trigger] rules@[i]),
{
    let ghost all = text::texts(list@);
    let ghost f = |e: Seq<char>| entry_rule(e) is None;
    let mut rules: Vec<Rule> = Vec::new();
    let mut i: usize = 0;
    while i < list.len()
        invariant
            i <= list@.len(),
            all == text::texts(list@),
            f == |e: Seq<char>| entry_rule(e) is None,
            rules@.len() == i,
            forall|j: int| 0 <= j < i ==> !f(#[trigger] all[j]),
            forall|j: int|
                0 <= j < i ==> entry_rule(all[j]) == Some(#[trigger] rules@[j]) && net::valid(
                    rules@[j],
                ),
        decreases list@.len() - i,
    {
        assert(all[i as int] == list@[i as int]@);
        match read_entry(list[i].as_str()) {
            Some(rule) => {
                rules.push(rule);
            },
            None => {
                proof {
                    seqs::lemma_is_first(all, f, i as int);
                }
                let mut m = list[i].clone();
                m.append(" is neither an address nor a CIDR block");
                return Err(m);
            },
        }
        i += 1;
    }
    proof {
        seqs::lemma_is_none(all, f);
        assert(rules@ =~= all.map_values(|e: Seq<char>| entry_rule(e)->0));
    }
    Ok(rules)
}

pub open spec fn or_kept<T>(new: Option<T>, old: T) -> T {
    match new {
        Some(v) => v,
        None => old,
    }
}

/// The store after a change of the limits, or why it is refused.
pub open spec fn limits_changed(c: ConfigView, req: LimitsReq) -> Result<ConfigView, Seq<char>> {
    let listed = match req.allow_from {
        Some(l) => text::texts(l@),
        None => Seq::empty(),
    };
    if req.max_inflight == Some(0usize) {
        Err("max_inflight must be at least 1"@)
    } else if bad_entry(listed) is Some {
        Err(entry_fault(listed[bad_entry(listed)->0]))
    } else {
        Ok(
            ConfigView {
                settings: SettingsView {
                    history_days: or_kept(req.history_days, c.settings.history_days),
                    max_inflight: or_kept(req.max_inflight, c.settings.max_inflight),
                    models_ttl_secs: or_kept(req.models_ttl_secs, c.settings.models_ttl_secs),
                    allow_from: if req.allow_from is Some {
                        listed
                    } else {
                        c.settings.allow_from
                    },
                },
                ..c
            },
        )
    }
}

/// Update operational limits.
pub fn limits(sc: &mut StoredConfig, req: LimitsReq) -> (r: Result<(), Reply>)
    ensures
        follows(old(sc)@, final(sc)@, r, limits_changed(old(sc)@, req)),
{
    let ghost before = sc@;
    let ghost whole = req;
    let LimitsReq { max_inflight, models_ttl_secs, history_days, allow_from } = req;
    match max_inflight {
        Some(v) => {
            if v == 0 {
                return Err(bad_request("max_inflight must be at least 1"));
            }
        },
        None => {},
    }
    match &allow_from {
        Some(list) => match allow_rules(list.as_slice()) {
            Ok(_) => {},
            Err(e) => {
                return Err(bad_request(e.as_str()));
            },
        },
        None => {
            proof {
                seqs::lemma_is_none(
                    Seq::<Seq<char>>::empty(),
                    |e: Seq<char>| entry_rule(e) is None,
                );
            }
        },
    }
    match max_inflight {
        Some(v) => {
            sc.settings.max_inflight = v;
        },
        None => {},
    }
    match models_ttl_secs {
        Some(v) => {
            sc.settings.models_ttl_secs = v;
        },
        None => {},
    }
    match history_days {
        Some(v) => {
            sc.settings.history_days = v;
        },
        None => {},
    }
    match allow_from {
        Some(list) => {
            sc.settings.allow_from = list;
        },
        None => {},
    }
    assert(sc@ =~= limits_changed(before, whole)->Ok_0);
    Ok(())
}

// --- Providers ---------------------------------------------------------------

pub enum ProviderAction {
    Add {
        name: String,
        base_url: String,
        key: String,
        protocol: Option<Protocol>,
        rpm: Option<usize>,
    },
    Remove { name: String },
}

/// `a` without the targets on the provider `name`.
pub open spec fn without_targets(a: AliasView, name: Seq<char>) -> AliasView {
    AliasView { targets: a.targets.filter(|t: TargetView| t.provider != name), ..a }
}

/// The virtual models without the targets on the provider `name`. One with no
/// target left is a routing failure waiting to happen, so it goes too.
pub open spec fn pruned(aliases: Seq<AliasView>, name: Seq<char>) -> Seq<AliasView> {
    aliases.map_values(|a: AliasView| without_targets(a, name)).filter(
        |a: AliasView| a.targets.len() > 0,
    )
}

/// The provider that an addition makes, or why it is refused.
pub open spec fn new_provider(
    providers: Seq<ProviderView>,
    name: Seq<char>,
    base_url: Seq<char>,
    key: Seq<char>,
    protocol: Protocol,
    rpm: usize,
) -> Result<ProviderView, Seq<char>> {
    let name = text::trimmed(name);
    let base_url = config::normal_base_url(base_url);
    let key = text::trimmed(key);
    if name.len() == 0 {
        Err("name must not be empty"@)
    } else if provider_at(providers, name) is Some {
        Err("there is already a provider named "@ + name)
    } else if base_url.len() == 0 {
        Err("base_url must not be empty"@)
    } else if key.len() == 0 {
        Err("key must not be empty"@)
    } else if rpm_fault(rpm) is Some {
        Err(rpm_fault(rpm)->0)
    } else {
        Ok(
            ProviderView {
                name,
                base_url,
                protocol,
                keys: seq![KeyView { key, enabled: true, rpm, owner: ""@ }],
            },
        )
    }
}

/// The store after providers are added or removed, or why it is refused.
pub open spec fn providers_changed(c: ConfigView, a: ProviderAction) -> Result<
    ConfigView,
    Seq<char>,
> {
    match a {
        ProviderAction::Add { name, base_url, key, protocol, rpm } => match new_provider(
            c.providers,
            name@,
            base_url@,
            key@,
            or_kept(protocol, Protocol::OpenAi),
            or_kept(rpm, config::DEFAULT_RPM),
        ) {
            Ok(p) => Ok(ConfigView { providers: c.providers.push(p), ..c }),
            Err(m) => Err(m),
        },
        ProviderAction::Remove { name } => {
            let providers = c.providers.filter(|p: ProviderView| p.name != name@);
            if provider_at(c.providers, name@) is None {
                Err("no provider named "@ + name@)
            } else if !any_serving(providers) {
                Err("that would leave no enabled keys and stop the proxy serving"@)
            } else {
                Ok(ConfigView { providers, aliases: pruned(c.aliases, name@), ..c })
            }
        },
    }
}

fn add_provider(
    sc: &mut StoredConfig,
    name: &str,
    base_url: &str,
    key: &str,
    protocol: Protocol,
    rpm: usize,
) -> (r: Result<(), Reply>)
    ensures
        follows(
            old(sc)@,
            final(sc)@,
            r,
            match new_provider(old(sc)@.providers, name@, base_url@, key@, protocol, rpm) {
                Ok(p) => Ok(
                    (ConfigView { providers: old(sc)@.providers.push(p), ..old(sc)@ }),
                ),
                Err(m) => Err(m),
            },
        ),
{
    let ghost before = sc@;
    let name = text::trim(name);
    if name.unicode_len() == 0 {
        return Err(bad_request("name must not be empty"));
    }
    if spot_provider(&sc.providers, name).is_some() {
        let mut m = text::owned("there is already a provider named ");
        m.append(name);
        return Err(bad_request(m.as_str()));
    }
    let base_url = config::normalize_base_url(base_url);
    if base_url.as_str().unicode_len() == 0 {
        return Err(bad_request("base_url must not be empty"));
    }
    let key = text::trim(key);
    if key.unicode_len() == 0 {
        return Err(bad_request("key must not be empty"));
    }
    match check_rpm(rpm) {
        Err(e) => {
            return Err(bad_request(e.as_str()));
        },
        Ok(_) => {},
    }
    let mut keys: Vec<ProviderKey> = Vec::new();
    keys.push(
        ProviderKey { key: text::owned(key), enabled: true, rpm, owner: text::owned("") },
    );
    let p = Provider { name: text::owned(name), base_url, protocol, keys };
    let ghost v = p@;
    sc.providers.push(p);
    proof {
        assert(v.keys =~= seq![KeyView { key: key@, enabled: true, rpm, owner: ""@ }]);
        assert(sc@.providers =~= before.providers.push(v));
        assert(sc@ =~= (ConfigView { providers: before.providers.push(v), ..before }));
    }
    Ok(())
}

/// Does a key of another provider than `name` get a lane?
fn serves_besides(providers: &Vec<Provider>, name: &str) -> (r: bool)
    ensures
        r == any_serving(
            config::provider_views(providers@).filter(|p: ProviderView| p.name != name@),
        ),
{
    let ghost v = config::provider_views(providers@);
    let ghost f = |p: ProviderView| p.name != name@;
    proof {
        lemma_serving_filtered(v, f);
    }
    let mut a: usize = 0;
    while a < providers.len()
        invariant
            a <= providers@.len(),
            v == config::provider_views(providers@),
            f == |p: ProviderView| p.name != name@,
            any_serving(v.filter(f)) == exists|x: int, y: int| serves_at(v, x, y) && f(v[x]),
            forall|x: int, y: int| #[trigger] serves_at(v, x, y) && x < a ==> !f(v[x]),
        decreases providers@.len() - a,
    {
        let other = !text::same_text(providers[a].name.as_str(), name);
        assert(other == f(v[a as int]));
        let keys = &providers[a].keys;
        let mut b: usize = 0;
        while other && b < keys.len()
            invariant
                a < providers@.len(),
                b <= keys@.len(),
                keys@ == providers@[a as int].keys@,
                v == config::provider_views(providers@),
                other == f(v[a as int]),
                any_serving(v.filter(f)) == exists|x: int, y: int|
                    serves_at(v, x, y) && f(v[x]),
                f == |p: ProviderView| p.name != name@,
                forall|y: int| #[trigger] serves_at(v, a as int, y) && y < b ==> !other,
            decreases keys@.len() - b,
        {
            assert(v[a as int].keys[b as int] == keys@[b as int]@);
            if keys[b].enabled && keys[b].rpm > 0 {
                assert(serves_at(v, a as int, b as int));
                return true;
            }
            b += 1;
        }
        assert(v[a as int].keys.len() == keys@.len());
        a += 1;
    }
    false
}

proof fn lemma_serving_filtered(v: Seq<ProviderView>, f: spec_fn(ProviderView) -> bool)
    ensures
        any_serving(v.filter(f)) == exists|x: int, y: int| serves_at(v, x, y) && f(v[x]),
{
    broadcast use vstd::seq_lib::group_filter_ensures;

    let w = v.filter(f);
    if any_serving(w) {
        let (x, y) = choose|x: int, y: int| serves_at(w, x, y);
        assert(w.contains(w[x]));
        v.lemma_filter_contains_rev(f, w[x]);
        let z = choose|z: int| 0 <= z < v.len() && v[z] == w[x];
        assert(f(w[x]));
        assert(serves_at(v, z, y));
    }
    if exists|x: int, y: int| serves_at(v, x, y) && f(v[x]) {
        let (x, y) = choose|x: int, y: int| serves_at(v, x, y) && f(v[x]);
        assert(w.contains(v[x]));
        let z = choose|z: int| 0 <= z < w.len() && w[z] == v[x];
        assert(serves_at(w, z, y));
    }
}

fn prune(aliases: &mut Vec<Alias>, name: &str)
    ensures
        config::alias_views(final(aliases)@) == pruned(config::alias_views(old(aliases)@), name@),
{
    let ghost all = config::alias_views(aliases@);
    let ghost f = |t: AliasTarget| t.provider@ != name@;
    let ghost g = |t: TargetView| t.provider != name@;
    let ghost h = |a: AliasView| without_targets(a, name@);
    let mut i: usize = 0;
    while i < aliases.len()
        invariant
            i <= aliases@.len(),
            aliases@.len() == all.len(),
            f == |t: AliasTarget| t.provider@ != name@,
            g == |t: TargetView| t.provider != name@,
            h == |a: AliasView| without_targets(a, name@),
            forall|j: int| 0 <= j < i ==> (#[trigger] aliases@[j])@ == h(all[j]),
            forall|j: int| i <= j < all.len() ==> (#[trigger] aliases@[j])@ == all[j],
        decreases aliases@.len() - i,
    {
        let ghost was = aliases@[i as int];
        let keep = |t: &AliasTarget| -> (b: bool)
            ensures
                b == f(*t),
            { !text::same_text(t.provider.as_str(), name) };
        seqs::retain(&mut aliases[i].targets, keep, Ghost(f));
        proof {
            seqs::lemma_filter_mapped(was.targets@, |t: AliasTarget| t@, f, g);
            assert(aliases@[i as int]@ =~= without_targets(was@, name@));
        }
        i += 1;
    }
    let ghost mid = aliases@;
    let ghost k = |a: Alias| a.targets@.len() > 0;
    let ghost l = |a: AliasView| a.targets.len() > 0;
    let keep = |a: &Alias| -> (b: bool)
        ensures
            b == k(*a),
        { a.targets.len() > 0 };
    seqs::retain(aliases, keep, Ghost(k));
    proof {
        seqs::lemma_filter_mapped(mid, |a: Alias| a@, k, l);
        assert(config::alias_views(mid) =~= all.map_values(h));
    }
}

fn remove_provider(sc: &mut StoredConfig, name: String) -> (r: Result<(), Reply>)
    ensures
        follows(
            old(sc)@,
            final(sc)@,
            r,
            providers_changed(old(sc)@, ProviderAction::Remove { name }),
        ),
{
    let ghost before = sc@;
    let ghost all = sc.providers@;
    let name = name.as_str();
    if spot_provider(&sc.providers, name).is_none() {
        return Err(no_provider(name));
    }
    if !serves_besides(&sc.providers, name) {
        return Err(bad_request("that would leave no enabled keys and stop the proxy serving"));
    }
    let ghost f = |p: Provider| p.name@ != name@;
    let ghost g = |p: ProviderView| p.name != name@;
    let keep = |p: &Provider| -> (b: bool)
        ensures
            b == f(*p),
        { !text::same_text(p.name.as_str(), name) };
    seqs::retain(&mut sc.providers, keep, Ghost(f));
    prune(&mut sc.aliases, name);
    proof {
        seqs::lemma_filter_mapped(all, |p: Provider| p@, f, g);
        assert(sc@ =~= (ConfigView {
            providers: before.providers.filter(g),
            aliases: pruned(before.aliases, name@),
            ..before
        }));
    }
    Ok(())
}

/// Add a provider with its first key, or remove one.
pub fn providers(sc: &mut StoredConfig, action: ProviderAction) -> (r: Result<(), Reply>)
    ensures
        follows(old(sc)@, final(sc)@, r, providers_changed(old(sc)@, action)),
{
    match action {
        ProviderAction::Add { name, base_url, key, protocol, rpm } => {
            let protocol = match protocol {
                Some(p) => p,
                None => Protocol::OpenAi,
            };
            let rpm: usize = match rpm {
                Some(n) => n,
                None => config::DEFAULT_RPM,
            };
            add_provider(sc, name.as_str(), base_url.as_str(), key.as_str(), protocol, rpm)
        },
        ProviderAction::Remove { name } => remove_provider(sc, name),
    }
}

/// Removing a provider leaves no virtual model with a target on it, and none
/// without a target.
pub proof fn law_a_removed_provider_is_no_target(c: ConfigView, name: String, i: int)
    requires
        providers_changed(c, ProviderAction::Remove { name }) is Ok,
        0 <= i < providers_changed(c, ProviderAction::Remove { name })->Ok_0.aliases.len(),
    ensures
        ({
            let a = providers_changed(c, ProviderAction::Remove { name })->Ok_0.aliases[i];
            &&& a.targets.len() > 0
            &&& forall|j: int|
                0 <= j < a.targets.len() ==> (#[trigger] a.targets[j]).provider != name@
        }),
{
    broadcast use vstd::seq_lib::group_filter_ensures;

    let h = |a: AliasView| without_targets(a, name@);
    let l = |a: AliasView| a.targets.len() > 0;
    let all = c.aliases.map_values(h);
    let kept = all.filter(l);
    let a = kept[i];
    assert(kept.contains(a));
    all.lemma_filter_contains_rev(l, a);
    let z = choose|z: int| 0 <= z < all.len() && all[z] == a;
    assert(l(a));
    let g = |t: TargetView| t.provider != name@;
    assert(a == without_targets(c.aliases[z], name@));
    assert forall|j: int| 0 <= j < a.targets.len() implies (#[trigger] a.targets[j]).provider
        != name@ by {
        assert(g(c.aliases[z].targets.filter(g)[j]));
    }
}

/// Adding or removing a provider never leaves the proxy with nothing to serve on.
pub proof fn law_a_provider_change_keeps_the_proxy_serving(
    before: ConfigView,
    after: StoredConfig,
    a: ProviderAction,
)
    requires
        providers_changed(before, a) == Ok::<ConfigView, Seq<char>>(after@),
    ensures
        pool::all_specs(after.providers@).len() > 0,
{
    lemma_all_specs(after.providers@);
    if a is Add {
        let n = before.providers.len() as int;
        assert(serves_at(after@.providers, n, 0));
    }
}

// --- Virtual models ----------------------------------------------------------

pub enum AliasAction {
    Upsert { name: String, targets: Vec<AliasTarget> },
    Remove { name: String },
}

/// The first target on a provider that there is not.
pub open spec fn astray(providers: Seq<ProviderView>, targets: Seq<TargetView>) -> Option<int> {
    seqs::first_where(targets, |t: TargetView| provider_at(providers, t.provider) is None)
}

/// The store after a virtual model is set or removed, or why it is refused. An
/// unreachable target would surface much later as an opaque routing miss.
pub open spec fn aliases_changed(c: ConfigView, a: AliasAction) -> Result<ConfigView, Seq<char>> {
    match a {
        AliasAction::Upsert { name, targets } => {
            let name = text::trimmed(name@);
            let targets = config::target_views(targets@);
            if name.len() == 0 {
                Err("name must not be empty"@)
            } else if targets.len() == 0 {
                Err("an alias needs at least one target"@)
            } else if astray(c.providers, targets) is Some {
                Err("no provider named "@ + targets[astray(c.providers, targets)->0].provider)
            } else {
                let a = AliasView { name, targets };
                let aliases = match alias_at(c.aliases, name) {
                    Some(i) => c.aliases.update(i, a),
                    None => c.aliases.push(a),
                };
                Ok(ConfigView { aliases, ..c })
            }
        },
        AliasAction::Remove { name } => if alias_at(c.aliases, name@) is None {
            Err("no alias named "@ + name@)
        } else {
            Ok(
                ConfigView {
                    aliases: c.aliases.filter(|a: AliasView| a.name != name@),
                    ..c
                },
            )
        },
    }
}

fn set_alias(sc: &mut StoredConfig, name: &str, targets: Vec<AliasTarget>, Ghost(a): Ghost<AliasAction>) -> (r: Result<(), Reply>)
    requires
        a matches AliasAction::Upsert { name: n, targets: t } && n@ == name@ && t == targets,
    ensures
        follows(old(sc)@, final(sc)@, r, aliases_changed(old(sc)@, a)),
{
    let ghost before = sc@;
    let ghost wanted = config::target_views(targets@);
    let ghost f = |t: TargetView| provider_at(before.providers, t.provider) is None;
    let name = text::trim(name);
    if name.unicode_len() == 0 {
        return Err(bad_request("name must not be empty"));
    }
    if targets.len() == 0 {
        return Err(bad_request("an alias needs at least one target"));
    }
    let mut i: usize = 0;
    while i < targets.len()
        invariant
            i <= targets@.len(),
            sc@ == before,
            before == old(sc)@,
            name@ == text::trimmed(a->Upsert_name@),
            name@.len() > 0,
            a is Upsert,
            a->targets == targets,
            wanted.len() > 0,
            wanted == config::target_views(targets@),
            f == |t: TargetView| provider_at(before.providers, t.provider) is None,
            forall|j: int| 0 <= j < i ==> !f(#[trigger] wanted[j]),
        decreases targets@.len() - i,
    {
        assert(wanted[i as int] == targets@[i as int]@);
        if spot_provider(&sc.providers, targets[i].provider.as_str()).is_none() {
            proof {
                seqs::lemma_is_first(wanted, f, i as int);
            }
            return Err(no_provider(targets[i].provider.as_str()));
        }
        i += 1;
    }
    proof {
        seqs::lemma_is_none(wanted, f);
    }
    let alias = Alias { name: text::owned(name), targets };
    let ghost v = alias@;
    match spot_alias(&sc.aliases, name) {
        Some(i) => {
            sc.aliases.set(i, alias);
            assert(sc@.aliases =~= before.aliases.update(i as int, v));
        },
        None => {
            sc.aliases.push(alias);
            assert(sc@.aliases =~= before.aliases.push(v));
        },
    }
    assert(sc@ =~= (ConfigView { aliases: sc@.aliases, ..before }));
    Ok(())
}

fn remove_alias(sc: &mut StoredConfig, name: String) -> (r: Result<(), Reply>)
    ensures
        follows(
            old(sc)@,
            final(sc)@,
            r,
            aliases_changed(old(sc)@, AliasAction::Remove { name }),
        ),
{
    let ghost before = sc@;
    let ghost all = sc.aliases@;
    let name = name.as_str();
    if spot_alias(&sc.aliases, name).is_none() {
        let mut m = text::owned("no alias named ");
        m.append(name);
        return Err(bad_request(m.as_str()));
    }
    let ghost f = |a: Alias| a.name@ != name@;
    let ghost g = |a: AliasView| a.name != name@;
    let keep = |a: &Alias| -> (b: bool)
        ensures
            b == f(*a),
        { !text::same_text(a.name.as_str(), name) };
    seqs::retain(&mut sc.aliases, keep, Ghost(f));
    proof {
        seqs::lemma_filter_mapped(all, |a: Alias| a@, f, g);
        assert(sc@ =~= (ConfigView { aliases: before.aliases.filter(g), ..before }));
    }
    Ok(())
}

/// Set or remove a virtual model.
pub fn aliases(sc: &mut StoredConfig, action: AliasAction) -> (r: Result<(), Reply>)
    ensures
        follows(old(sc)@, final(sc)@, r, aliases_changed(old(sc)@, action)),
{
    let ghost whole = action;
    match action {
        AliasAction::Upsert { name, targets } => set_alias(
            sc,
            name.as_str(),
            targets,
            Ghost(whole),
        ),
        AliasAction::Remove { name } => remove_alias(sc, name),
    }
}

/// A virtual model that was set is found under its name, with a target, and every
/// target of it on a provider that there is.
pub proof fn law_a_set_alias_can_be_reached(c: ConfigView, name: String, targets: Vec<AliasTarget>)
    requires
        aliases_changed(c, AliasAction::Upsert { name, targets }) is Ok,
    ensures
        ({
            let d = aliases_changed(c, AliasAction::Upsert { name, targets })->Ok_0;
            let i = alias_at(d.aliases, text::trimmed(name@));
            &&& i is Some
            &&& d.aliases[i->0] == AliasView {
                name: text::trimmed(name@),
                targets: config::target_views(targets@),
            }
            &&& targets@.len() > 0
            &&& forall|j: int|
                0 <= j < targets@.len() ==> provider_at(
                    d.providers,
                    (#[trigger] targets@[j]).provider@,
                ) is Some
        }),
{
    let n = text::trimmed(name@);
    let f = |a: AliasView| a.name == n;
    let g = |t: TargetView| provider_at(c.providers, t.provider) is None;
    let wanted = config::target_views(targets@);
    let d = aliases_changed(c, AliasAction::Upsert { name, targets })->Ok_0;
    seqs::lemma_first_where(c.aliases, f);
    seqs::lemma_first_where(wanted, g);
    match alias_at(c.aliases, n) {
        Some(i) => {
            assert forall|j: int| 0 <= j < i implies !f(#[trigger] d.aliases[j]) by {
                assert(d.aliases[j] == c.aliases[j]);
            }
            seqs::lemma_is_first(d.aliases, f, i);
        },
        None => {
            assert forall|j: int| 0 <= j < c.aliases.len() implies !f(#[trigger] d.aliases[j]) by {
                assert(d.aliases[j] == c.aliases[j]);
            }
            seqs::lemma_is_first(d.aliases, f, c.aliases.len() as int);
        },
    }
    assert forall|j: int| 0 <= j < targets@.len() implies provider_at(
        d.providers,
        (#[trigger] targets@[j]).provider@,
    ) is Some by {
        assert(!g(wanted[j]));
    }
}

// --- Accounts ----------------------------------------------------------------

pub enum UserAction {
    Add { username: String, password: String },
    Remove { username: String },
    SetPassword { username: String, password: String },
}

pub const MIN_PASSWORD: usize = 8;

/// Is a superuser called `username`?
pub open spec fn names_superuser(users: Seq<UserView>, username: Seq<char>) -> bool {
    exists|i: int|
        0 <= i < users.len() && (#[trigger] users[i]).username == username && users[i].role
            == Role::Superuser
}

/// Why a change to the accounts is refused. Deleting the superuser would lock
/// everyone out of a running proxy.
pub open spec fn users_fault(users: Seq<UserView>, a: UserAction) -> Option<Seq<char>> {
    match a {
        UserAction::Add { username, password } => {
            let name = text::trimmed(username@);
            if name.len() == 0 {
                Some("username must not be empty"@)
            } else if user_at(users, name) is Some {
                Some("there is already a user named "@ + name)
            } else if password@.len() < MIN_PASSWORD {
                Some("password must be at least 8 characters"@)
            } else {
                None
            }
        },
        UserAction::Remove { username } => if user_at(users, username@) is None {
            Some("no user named "@ + username@)
        } else if names_superuser(users, username@) {
            Some("the superuser cannot be removed"@)
        } else {
            None
        },
        UserAction::SetPassword { username, password } => if user_at(users, username@) is None {
            Some("no user named "@ + username@)
        } else if password@.len() < MIN_PASSWORD {
            Some("password must be at least 8 characters"@)
        } else {
            None
        },
    }
}

/// The accounts after a change that is not refused, where `pw_hash` is the hash of
/// the password that the change sets.
pub open spec fn users_after(
    users: Seq<UserView>,
    a: UserAction,
    pw_hash: Seq<char>,
) -> Seq<UserView> {
    match a {
        UserAction::Add { username, .. } => users.push(
            UserView { username: text::trimmed(username@), pw_hash, role: Role::User },
        ),
        UserAction::Remove { username } => users.filter(|u: UserView| u.username != username@),
        UserAction::SetPassword { username, .. } => {
            let i = user_at(users, username@)->0;
            users.update(i, UserView { pw_hash, ..users[i] })
        },
    }
}

/// The password that a change sets.
pub open spec fn password_of(a: UserAction) -> Option<Seq<char>> {
    match a {
        UserAction::Add { password, .. } => Some(password@),
        UserAction::Remove { .. } => None,
        UserAction::SetPassword { password, .. } => Some(password@),
    }
}

fn is_superuser(users: &Vec<User>, username: &str) -> (r: bool)
    ensures
        r == names_superuser(config::user_views(users@), username@),
{
    let ghost v = config::user_views(users@);
    let mut i: usize = 0;
    while i < users.len()
        invariant
            i <= users@.len(),
            v == config::user_views(users@),
            forall|j: int|
                0 <= j < i ==> !((#[trigger] v[j]).username == username@ && v[j].role
                    == Role::Superuser),
        decreases users@.len() - i,
    {
        assert(v[i as int] == users@[i as int]@);
        if text::same_text(users[i].username.as_str(), username) && users[i].role
            == Role::Superuser {
            assert(v[i as int].username == username@);
            return true;
        }
        i += 1;
    }
    false
}

fn named(lead: &str, name: &str) -> (r: Reply)
    ensures
        r@ == refusal(lead@ + name@),
{
    let mut m = text::owned(lead);
    m.append(name);
    bad_request(m.as_str())
}

fn refuse_user_action(users: &Vec<User>, action: &UserAction) -> (r: Option<Reply>)
    ensures
        match users_fault(config::user_views(users@), *action) {
            Some(m) => r is Some && r->0@ == refusal(m),
            None => r is None,
        },
{
    match action {
        UserAction::Add { username, password } => {
            let name = text::trim(username.as_str());
            if name.unicode_len() == 0 {
                Some(bad_request("username must not be empty"))
            } else if spot_user(users, name).is_some() {
                Some(named("there is already a user named ", name))
            } else if password.as_str().unicode_len() < MIN_PASSWORD {
                Some(bad_request("password must be at least 8 characters"))
            } else {
                None
            }
        },
        UserAction::Remove { username } => {
            if spot_user(users, username.as_str()).is_none() {
                Some(named("no user named ", username.as_str()))
            } else if is_superuser(users, username.as_str()) {
                Some(bad_request("the superuser cannot be removed"))
            } else {
                None
            }
        },
        UserAction::SetPassword { username, password } => {
            if spot_user(users, username.as_str()).is_none() {
                Some(named("no user named ", username.as_str()))
            } else if password.as_str().unicode_len() < MIN_PASSWORD {
                Some(bad_request("password must be at least 8 characters"))
            } else {
                None
            }
        },
    }
}

fn remove_user(users: &mut Vec<User>, username: &str)
    ensures
        config::user_views(final(users)@) == config::user_views(old(users)@).filter(
            |u: UserView| u.username != username@,
        ),
{
    let ghost all = users@;
    let ghost f = |u: User| u.username@ != username@;
    let ghost g = |u: UserView| u.username != username@;
    let keep = |u: &User| -> (b: bool)
        ensures
            b == f(*u),
        { !text::same_text(u.username.as_str(), username) };
    seqs::retain(users, keep, Ghost(f));
    proof {
        seqs::lemma_filter_mapped(all, |u: User| u@, f, g);
    }
}

/// Add an account, remove one, or set its password, with the random bytes `salt`
/// for the hash of the password.
pub fn users_with(sc: &mut StoredConfig, action: UserAction, salt: Option<Vec<u8>>) -> (r: Result<
    (),
    Reply,
>)
    ensures
        match users_fault(old(sc)@.users, action) {
            Some(m) => r is Err && r->Err_0@ == refusal(m) && final(sc)@ == old(sc)@,
            None => match password_of(action) {
                None => r is Ok && final(sc)@ == (ConfigView {
                    users: users_after(old(sc)@.users, action, Seq::empty()),
                    ..old(sc)@
                }),
                Some(pw) => match salt {
                    None => r is Err && r->Err_0@ == no_randomness() && final(sc)@ == old(sc)@,
                    Some(salt) => r is Ok && final(sc)@ == (ConfigView {
                        users: users_after(
                            old(sc)@.users,
                            action,
                            auth::password_record(pw, salt@),
                        ),
                        ..old(sc)@
                    }) && auth::password_ok(pw, auth::password_record(pw, salt@)),
                },
            },
        },
{
    let ghost before = sc@;
    match refuse_user_action(&sc.users, &action) {
        Some(e) => {
            return Err(e);
        },
        None => {},
    }
    match &action {
        UserAction::Remove { username } => {
            remove_user(&mut sc.users, username.as_str());
        },
        UserAction::Add { username, password } => match salt {
            None => {
                return Err(out_of_randomness());
            },
            Some(salt) => {
                let account = User {
                    username: text::owned(text::trim(username.as_str())),
                    pw_hash: auth::record_password(password.as_str(), salt.as_slice()),
                    role: Role::User,
                };
                let ghost v = account@;
                sc.users.push(account);
                assert(sc@.users =~= before.users.push(v));
            },
        },
        UserAction::SetPassword { username, password } => match salt {
            None => {
                return Err(out_of_randomness());
            },
            Some(salt) => {
                match spot_user(&sc.users, username.as_str()) {
                    Some(i) => {
                        assert(before.users[i as int] == sc.users@[i as int]@);
                        let pw_hash = auth::record_password(password.as_str(), salt.as_slice());
                        let ghost h = pw_hash@;
                        sc.users[i].pw_hash = pw_hash;
                        assert(sc@.users =~= before.users.update(
                            i as int,
                            UserView { pw_hash: h, ..before.users[i as int] },
                        ));
                    },
                    None => {},
                }
            },
        },
    }
    assert(sc@ =~= (ConfigView { users: sc@.users, ..before }));
    Ok(())
}

/// Add an account, remove one, or set its password.
pub fn users(sc: &mut StoredConfig, action: UserAction) -> (r: Result<(), Reply>)
    ensures
        match users_fault(old(sc)@.users, action) {
            Some(m) => r is Err && r->Err_0@ == refusal(m) && final(sc)@ == old(sc)@,
            None => match password_of(action) {
                None => r is Ok && final(sc)@ == (ConfigView {
                    users: users_after(old(sc)@.users, action, Seq::empty()),
                    ..old(sc)@
                }),
                Some(pw) => match r {
                    Err(e) => e@ == no_randomness() && final(sc)@ == old(sc)@,
                    Ok(_) => exists|salt: Seq<u8>|
                        salt.len() == 16 && final(sc)@ == (ConfigView {
                            users: users_after(
                                old(sc)@.users,
                                action,
                                #[trigger] auth::password_record(pw, salt),
                            ),
                            ..old(sc)@
                        }) && auth::password_ok(pw, auth::password_record(pw, salt)),
                },
            },
        },
{
    let salt = match &action {
        UserAction::Remove { .. } => None,
        _ => crypto::random_bytes(16),
    };
    users_with(sc, action, salt)
}

/// No change to the accounts removes a superuser.
pub proof fn law_the_superuser_stays(users: Seq<UserView>, a: UserAction, h: Seq<char>, i: int)
    requires
        users_fault(users, a) is None,
        0 <= i < users.len(),
        users[i].role == Role::Superuser,
    ensures
        names_superuser(users_after(users, a, h), users[i].username),
{
    broadcast use vstd::seq_lib::group_filter_ensures;

    let after = users_after(users, a, h);
    match a {
        UserAction::Add { .. } => {
            assert(after[i].username == users[i].username && after[i].role == users[i].role);
        },
        UserAction::Remove { username } => {
            let f = |u: UserView| u.username != username@;
            assert(f(users[i]));
            assert(after.contains(users[i]));
            let j = choose|j: int| 0 <= j < after.len() && after[j] == users[i];
            assert(after[j].username == users[i].username);
        },
        UserAction::SetPassword { username, .. } => {
            seqs::lemma_first_where(users, |u: UserView| u.username == username@);
            assert(after[i].username == users[i].username && after[i].role == users[i].role);
        },
    }
}

/// Setting a password changes the hash of that account, and nothing else of any
/// account.
pub proof fn law_a_password_change_touches_one_account(
    users: Seq<UserView>,
    username: String,
    password: String,
    h: Seq<char>,
)
    requires
        users_fault(users, UserAction::SetPassword { username, password }) is None,
    ensures
        ({
            let a = UserAction::SetPassword { username, password };
            let after = users_after(users, a, h);
            let i = user_at(users, username@)->0;
            &&& after.len() == users.len()
            &&& 0 <= i < users.len()
            &&& after[i] == UserView { pw_hash: h, ..users[i] }
            &&& forall|j: int| 0 <= j < users.len() && j != i ==> #[trigger] after[j] == users[j]
        }),
{
    seqs::lemma_first_where(users, |u: UserView| u.username == username@);
}

// --- What the operator sees --------------------------------------------------

pub open spec fn key_document(k: KeyView) -> JsonView {
    JsonView::Obj(
        seq![
            ("last4"@, JsonView::Str(tail4(k.key))),
            ("enabled"@, JsonView::Bool(k.enabled)),
            ("rpm"@, JsonView::UInt(k.rpm as u64)),
            ("owner"@, JsonView::Str(k.owner)),
        ],
    )
}

pub open spec fn provider_document(p: ProviderView) -> JsonView {
    JsonView::Obj(
        seq![
            ("name"@, JsonView::Str(p.name)),
            ("base_url"@, JsonView::Str(p.base_url)),
            ("keys"@, JsonView::Arr(p.keys.map_values(|k: KeyView| key_document(k)))),
        ],
    )
}

pub open spec fn client_document(c: ClientView) -> JsonView {
    JsonView::Obj(
        seq![
            ("label"@, JsonView::Str(c.label)),
            ("last4"@, JsonView::Str(c.last4)),
            ("owner"@, JsonView::Str(c.owner)),
        ],
    )
}

pub open spec fn target_document(t: TargetView) -> JsonView {
    JsonView::Obj(
        seq![("provider"@, JsonView::Str(t.provider)), ("model"@, JsonView::Str(t.model))],
    )
}

pub open spec fn alias_document(a: AliasView) -> JsonView {
    JsonView::Obj(
        seq![
            ("name"@, JsonView::Str(a.name)),
            ("targets"@, JsonView::Arr(a.targets.map_values(|t: TargetView| target_document(t)))),
        ],
    )
}

/// The settings of a store, with the rates that the savings view is priced at.
pub open spec fn limits_document(s: SettingsView, model_rates: JsonView) -> JsonView {
    JsonView::Obj(
        seq![
            ("history_days"@, JsonView::UInt(s.history_days as u64)),
            ("max_inflight"@, JsonView::UInt(s.max_inflight as u64)),
            ("models_ttl_secs"@, JsonView::UInt(s.models_ttl_secs)),
            ("allow_from"@, JsonView::Arr(s.allow_from.map_values(|e: Seq<char>| JsonView::Str(e)))),
            ("model_rates"@, model_rates),
        ],
    )
}

/// The operator's view of a store.
pub open spec fn settings_document(c: ConfigView, model_rates: JsonView) -> JsonView {
    JsonView::Obj(
        seq![
            (
                "providers"@,
                JsonView::Arr(c.providers.map_values(|p: ProviderView| provider_document(p))),
            ),
            ("clients"@, JsonView::Arr(c.clients.map_values(|k: ClientView| client_document(k)))),
            ("aliases"@, JsonView::Arr(c.aliases.map_values(|a: AliasView| alias_document(a)))),
            ("settings"@, limits_document(c.settings, model_rates)),
        ],
    )
}

fn show_key(k: &ProviderKey) -> (r: Json)
    ensures
        r@ == key_document(k@),
{
    let tail = Json::Str(last4(k.key.as_str()));
    let enabled = Json::Bool(k.enabled);
    let rpm = Json::UInt(k.rpm as u64);
    let owner = Json::Str(k.owner.clone());
    assert(enabled@ == JsonView::Bool(k.enabled));
    let r = reply::and_field(
        reply::three_fields("last4", tail, "enabled", enabled, "rpm", rpm),
        "owner",
        owner,
    );
    assert(r@->Obj_0 =~= key_document(k@)->Obj_0);
    r
}

fn show_keys(keys: &Vec<ProviderKey>) -> (r: Json)
    ensures
        r@ == JsonView::Arr(config::key_views(keys@).map_values(|k: KeyView| key_document(k))),
{
    let ghost v = config::key_views(keys@);
    let mut out: Vec<Json> = Vec::new();
    let mut i: usize = 0;
    while i < keys.len()
        invariant
            i <= keys@.len(),
            v == config::key_views(keys@),
            out@.len() == i,
            forall|j: int| 0 <= j < i ==> (#[trigger] out@[j])@ == key_document(v[j]),
        decreases keys@.len() - i,
    {
        assert(v[i as int] == keys@[i as int]@);
        out.push(show_key(&keys[i]));
        i += 1;
    }
    let r = Json::Arr(out);
    assert(r@->Arr_0 =~= v.map_values(|k: KeyView| key_document(k)));
    r
}

fn show_providers(providers: &Vec<Provider>) -> (r: Json)
    ensures
        r@ == JsonView::Arr(
            config::provider_views(providers@).map_values(|p: ProviderView| provider_document(p)),
        ),
{
    let ghost v = config::provider_views(providers@);
    let mut out: Vec<Json> = Vec::new();
    let mut i: usize = 0;
    while i < providers.len()
        invariant
            i <= providers@.len(),
            v == config::provider_views(providers@),
            out@.len() == i,
            forall|j: int| 0 <= j < i ==> (#[trigger] out@[j])@ == provider_document(v[j]),
        decreases providers@.len() - i,
    {
        assert(v[i as int] == providers@[i as int]@);
        let name = Json::Str(providers[i].name.clone());
        let base_url = Json::Str(providers[i].base_url.clone());
        let keys = show_keys(&providers[i].keys);
        out.push(reply::three_fields("name", name, "base_url", base_url, "keys", keys));
        i += 1;
    }
    let r = Json::Arr(out);
    assert(r@->Arr_0 =~= v.map_values(|p: ProviderView| provider_document(p)));
    r
}

fn show_clients(clients: &Vec<ClientKey>) -> (r: Json)
    ensures
        r@ == JsonView::Arr(
            config::client_views(clients@).map_values(|k: ClientView| client_document(k)),
        ),
{
    let ghost v = config::client_views(clients@);
    let mut out: Vec<Json> = Vec::new();
    let mut i: usize = 0;
    while i < clients.len()
        invariant
            i <= clients@.len(),
            v == config::client_views(clients@),
            out@.len() == i,
            forall|j: int| 0 <= j < i ==> (#[trigger] out@[j])@ == client_document(v[j]),
        decreases clients@.len() - i,
    {
        assert(v[i as int] == clients@[i as int]@);
        let label = Json::Str(clients[i].label.clone());
        let tail = Json::Str(clients[i].last4.clone());
        let owner = Json::Str(clients[i].owner.clone());
        out.push(reply::three_fields("label", label, "last4", tail, "owner", owner));
        i += 1;
    }
    let r = Json::Arr(out);
    assert(r@->Arr_0 =~= v.map_values(|k: ClientView| client_document(k)));
    r
}

fn show_targets(targets: &Vec<AliasTarget>) -> (r: Json)
    ensures
        r@ == JsonView::Arr(
            config::target_views(targets@).map_values(|t: TargetView| target_document(t)),
        ),
{
    let ghost v = config::target_views(targets@);
    let mut out: Vec<Json> = Vec::new();
    let mut i: usize = 0;
    while i < targets.len()
        invariant
            i <= targets@.len(),
            v == config::target_views(targets@),
            out@.len() == i,
            forall|j: int| 0 <= j < i ==> (#[trigger] out@[j])@ == target_document(v[j]),
        decreases targets@.len() - i,
    {
        assert(v[i as int] == targets@[i as int]@);
        let provider = Json::Str(targets[i].provider.clone());
        let model = Json::Str(targets[i].model.clone());
        out.push(reply::two_fields("provider", provider, "model", model));
        i += 1;
    }
    let r = Json::Arr(out);
    assert(r@->Arr_0 =~= v.map_values(|t: TargetView| target_document(t)));
    r
}

fn show_aliases(aliases: &Vec<Alias>) -> (r: Json)
    ensures
        r@ == JsonView::Arr(
            config::alias_views(aliases@).map_values(|a: AliasView| alias_document(a)),
        ),
{
    let ghost v = config::alias_views(aliases@);
    let mut out: Vec<Json> = Vec::new();
    let mut i: usize = 0;
    while i < aliases.len()
        invariant
            i <= aliases@.len(),
            v == config::alias_views(aliases@),
            out@.len() == i,
            forall|j: int| 0 <= j < i ==> (#[trigger] out@[j])@ == alias_document(v[j]),
        decreases aliases@.len() - i,
    {
        assert(v[i as int] == aliases@[i as int]@);
        let name = Json::Str(aliases[i].name.clone());
        let targets = show_targets(&aliases[i].targets);
        out.push(reply::two_fields("name", name, "targets", targets));
        i += 1;
    }
    let r = Json::Arr(out);
    assert(r@->Arr_0 =~= v.map_values(|a: AliasView| alias_document(a)));
    r
}

fn show_limits(s: &Settings, model_rates: Json) -> (r: Json)
    ensures
        r@ == limits_document(s@, model_rates@),
{
    let ghost v = text::texts(s.allow_from@);
    let mut out: Vec<Json> = Vec::new();
    let mut i: usize = 0;
    while i < s.allow_from.len()
        invariant
            i <= s.allow_from@.len(),
            v == text::texts(s.allow_from@),
            out@.len() == i,
            forall|j: int| 0 <= j < i ==> (#[trigger] out@[j])@ == JsonView::Str(v[j]),
        decreases s.allow_from@.len() - i,
    {
        assert(v[i as int] == s.allow_from@[i as int]@);
        out.push(Json::Str(s.allow_from[i].clone()));
        i += 1;
    }
    let list = Json::Arr(out);
    assert(list@->Arr_0 =~= v.map_values(|e: Seq<char>| JsonView::Str(e)));
    let days = Json::UInt(s.history_days as u64);
    let inflight = Json::UInt(s.max_inflight as u64);
    let ttl = Json::UInt(s.models_ttl_secs);
    let ghost rates = model_rates@;
    let r = reply::and_field(
        reply::and_field(
            reply::three_fields(
                "history_days",
                days,
                "max_inflight",
                inflight,
                "models_ttl_secs",
                ttl,
            ),
            "allow_from",
            list,
        ),
        "model_rates",
        model_rates,
    );
    assert(r@->Obj_0 =~= limits_document(s@, rates)->Obj_0);
    r
}

/// The operator's view of current configuration.
///
/// Provider keys are returned as last-4 only. They are stored in full because
/// they have to be sent upstream, but nothing needs to render them back, and a
/// settings page that displays live credentials is a screenshot away from
/// leaking them.
///
/// `model_rates` is what each model would cost per million tokens, as JSON.
pub fn view(sc: &StoredConfig, model_rates: Json) -> (r: Json)
    ensures
        r@ == settings_document(sc@, model_rates@),
{
    let ghost rates = model_rates@;
    let r = reply::and_field(
        reply::three_fields(
            "providers",
            show_providers(&sc.providers),
            "clients",
            show_clients(&sc.clients),
            "aliases",
            show_aliases(&sc.aliases),
        ),
        "settings",
        show_limits(&sc.settings, model_rates),
    );
    assert(r@->Obj_0 =~= settings_document(sc@, rates)->Obj_0);
    r
}

/// A provider key cut down to its last four characters.
pub open spec fn cut_key(k: KeyView) -> KeyView {
    KeyView { key: tail4(k.key), ..k }
}

/// A store without its secrets: provider keys are cut down to their last four
/// characters; digests, accounts and their password hashes are dropped.
pub open spec fn without_secrets(c: ConfigView) -> ConfigView {
    ConfigView {
        users: Seq::empty(),
        providers: c.providers.map_values(
            |p: ProviderView| ProviderView { keys: p.keys.map_values(|k: KeyView| cut_key(k)), ..p },
        ),
        clients: c.clients.map_values(|k: ClientView| ClientView { digest: Seq::empty(), ..k }),
        ..c
    }
}

/// The operator's view shows nothing of a secret but the last four characters of a
/// key: it is the same for the store without its secrets.
pub proof fn law_the_view_shows_no_secret(c: ConfigView, model_rates: JsonView)
    ensures
        settings_document(c, model_rates) == settings_document(without_secrets(c), model_rates),
{
    let d = without_secrets(c);
    let shown = |p: ProviderView| provider_document(p);
    assert(c.providers.map_values(shown) =~= d.providers.map_values(shown)) by {
        assert forall|i: int| 0 <= i < c.providers.len() implies provider_document(
            c.providers[i],
        ) == #[trigger] provider_document(d.providers[i]) by {
            let keys = c.providers[i].keys;
            let cut = d.providers[i].keys;
            assert forall|j: int| 0 <= j < keys.len() implies key_document(keys[j])
                == #[trigger] key_document(cut[j]) by {
                assert(tail4(tail4(keys[j].key)) =~= tail4(keys[j].key));
            }
            assert(keys.map_values(|k: KeyView| key_document(k)) =~= cut.map_values(
                |k: KeyView| key_document(k),
            ));
        }
    }
    assert(c.clients.map_values(|k: ClientView| client_document(k)) =~= d.clients.map_values(
        |k: ClientView| client_document(k),
    ));
}

// --- Answers -----------------------------------------------------------------

/// The answer to a change, once it was tried to save the store.
pub open spec fn outcome_view(saved: Result<(), String>, minted: Option<String>) -> ReplyView {
    match saved {
        Err(e) => reply::error_view(500, "save_failed"@, e@),
        Ok(_) => match minted {
            Some(secret) => reply::json_view(
                200,
                JsonView::Obj(
                    seq![
                        ("ok"@, JsonView::Bool(true)),
                        ("key"@, JsonView::Str(secret@)),
                        ("note"@, JsonView::Str("shown once \u{2014} it is stored only as a digest"@)),
                    ],
                ),
            ),
            None => reply::json_view(200, JsonView::Obj(seq![("ok"@, JsonView::Bool(true))])),
        },
    }
}

/// The answer to a change, once it was tried to save the store.
pub fn outcome(saved: Result<(), String>, minted: Option<String>) -> (r: Reply)
    ensures
        r@ == outcome_view(saved, minted),
{
    match saved {
        Err(e) => reply::error(500, "save_failed", e.as_str()),
        Ok(_) => match minted {
            Some(secret) => {
                let key = Json::Str(secret);
                let note = Json::Str(
                    text::owned("shown once \u{2014} it is stored only as a digest"),
                );
                let ok = Json::Bool(true);
                assert(ok@ == JsonView::Bool(true));
                reply::json_reply(200, &reply::three_fields("ok", ok, "key", key, "note", note))
            },
            None => reply::json_reply(200, &reply::one_field("ok", Json::Bool(true))),
        },
    }
}

// --- What the rules come to --------------------------------------------------

/// A rate is taken from one request a minute to ten thousand.
pub proof fn law_rates_are_real(rpm: usize)
    ensures
        rpm_fault(rpm) is None <==> 1 <= rpm <= 10_000,
{
}

/// What is shown of a secret is its end, four characters long at most.
pub proof fn law_only_the_end_is_shown(s: Seq<char>)
    ensures
        tail4(s).len() <= 4,
        tail4(s).len() == 4 || tail4(s) == s,
        exists|hidden: Seq<char>| s == #[trigger] (hidden + tail4(s)),
{
    let n = s.len() - tail4(s).len();
    assert(s =~= s.take(n) + tail4(s));
}

/// A key is added where the provider is there, the key is new to it and not empty, and
/// the rate is real; it stands behind the provider's other keys, enabled, at the rate
/// given or at forty a minute.
pub proof fn law_an_added_key_serves(
    c: ConfigView,
    i: int,
    provider: String,
    key: String,
    rpm: Option<usize>,
)
    requires
        0 <= i < c.providers.len(),
        c.providers[i].name == provider@,
        forall|j: int| 0 <= j < i ==> (#[trigger] c.providers[j]).name != provider@,
    ensures
        ({
            let done = keys_changed(c, KeyAction::Add { provider, key, rpm });
            let rate: usize = match rpm {
                Some(r) => r,
                None => 40,
            };
            let known = exists|j: int|
                0 <= j < c.providers[i].keys.len() && (#[trigger] c.providers[i].keys[j]).key
                    == text::trimmed(key@);
            &&& done is Ok <==> text::trimmed(key@).len() > 0 && !known && 1 <= rate <= 10_000
            &&& done matches Ok(d) ==> {
                let old_keys = c.providers[i].keys;
                let keys = d.providers[i].keys;
                &&& keys.len() == old_keys.len() + 1
                &&& keys.last().key == text::trimmed(key@)
                &&& keys.last().enabled
                &&& keys.last().rpm == rate
                &&& keys.last().owner == ""@
                &&& forall|j: int| 0 <= j < old_keys.len() ==> #[trigger] keys[j] == old_keys[j]
                &&& d.providers.len() == c.providers.len()
                &&& forall|j: int|
                    0 <= j < c.providers.len() && j != i ==> #[trigger] d.providers[j]
                        == c.providers[j]
            }
        }),
{
    lemma_provider_at(c.providers, provider@);
    let a = KeyAction::Add { provider, key, rpm };
    let keys = keys_after(c.providers[i].keys, a);
    if let Ok(keys) = keys {
        let v = with_keys(c.providers, i, keys);
        assert(serves_at(v, i, keys.len() - 1));
    }
}

/// A key is removed where another one is left to serve on; the others of its provider
/// keep their order.
pub proof fn law_a_removed_key_is_gone(c: ConfigView, i: int, provider: String, index: usize)
    requires
        0 <= i < c.providers.len(),
        c.providers[i].name == provider@,
        forall|j: int| 0 <= j < i ==> (#[trigger] c.providers[j]).name != provider@,
    ensures
        ({
            let done = keys_changed(c, KeyAction::Remove { provider, index });
            let others = exists|a: int, b: int|
                0 <= a < c.providers.len() && 0 <= b < c.providers[a].keys.len() && (
                #[trigger] c.providers[a].keys[b]).enabled && c.providers[a].keys[b].rpm > 0 && !(a
                    == i && b == index);
            &&& done is Ok <==> index < c.providers[i].keys.len() && others
            &&& done matches Ok(d) ==> {
                let old_keys = c.providers[i].keys;
                let keys = d.providers[i].keys;
                &&& keys.len() + 1 == old_keys.len()
                &&& forall|j: int| 0 <= j < index ==> #[trigger] keys[j] == old_keys[j]
                &&& forall|j: int|
                    index <= j < keys.len() ==> #[trigger] keys[j] == old_keys[j + 1]
            }
        }),
{
    lemma_provider_at(c.providers, provider@);
    let v = c.providers;
    if index < v[i].keys.len() {
        lemma_serving_without(v, i, index as int);
        if another_serves(v, i, index as int) {
            let (a, b) = choose|a: int, b: int|
                serves_at(v, a, b) && !(a == i && b == index as int);
            assert(v[a].keys[b].enabled);
        }
        assert forall|a: int, b: int|
            0 <= a < v.len() && 0 <= b < v[a].keys.len() && (#[trigger] v[a].keys[b]).enabled
                && v[a].keys[b].rpm > 0 implies serves_at(v, a, b) by {}
    }
}

/// An update sets what it states of the one key, and keeps the rest of it.
pub proof fn law_an_updated_key_keeps_the_rest(
    c: ConfigView,
    i: int,
    provider: String,
    index: usize,
    enabled: Option<bool>,
    rpm: Option<usize>,
)
    requires
        0 <= i < c.providers.len(),
        c.providers[i].name == provider@,
        forall|j: int| 0 <= j < i ==> (#[trigger] c.providers[j]).name != provider@,
        keys_changed(c, KeyAction::Update { provider, index, enabled, rpm }) is Ok,
    ensures
        ({
            let d = keys_changed(c, KeyAction::Update { provider, index, enabled, rpm })->Ok_0;
            let old_keys = c.providers[i].keys;
            let keys = d.providers[i].keys;
            &&& index < old_keys.len()
            &&& keys.len() == old_keys.len()
            &&& forall|j: int|
                0 <= j < keys.len() && j != index ==> #[trigger] keys[j] == old_keys[j]
            &&& keys[index as int].key == old_keys[index as int].key
            &&& keys[index as int].owner == old_keys[index as int].owner
            &&& enabled matches Some(e) ==> keys[index as int].enabled == e
            &&& enabled is None ==> keys[index as int].enabled == old_keys[index as int].enabled
            &&& rpm matches Some(r) ==> keys[index as int].rpm == r && 1 <= r <= 10_000
            &&& rpm is None ==> keys[index as int].rpm == old_keys[index as int].rpm
        }),
{
    lemma_provider_at(c.providers, provider@);
}

/// A change of the limits sets each that it states and keeps the others; it is refused
/// where it would take no request at all, or lists an address that is none.
pub proof fn law_limits_are_set_one_by_one(c: ConfigView, req: LimitsReq)
    ensures
        ({
            let done = limits_changed(c, req);
            let listed = req.allow_from matches Some(l) && exists|i: int|
                0 <= i < l@.len() && net::rule_text(text::trimmed((#[trigger] l@[i])@)) is None;
            &&& done is Err <==> req.max_inflight == Some(0usize) || listed
            &&& done matches Ok(d) ==> {
                &&& d == (ConfigView { settings: d.settings, ..c })
                &&& req.max_inflight matches Some(v) ==> d.settings.max_inflight == v
                &&& req.max_inflight is None ==> d.settings.max_inflight
                    == c.settings.max_inflight
                &&& req.models_ttl_secs matches Some(v) ==> d.settings.models_ttl_secs == v
                &&& req.models_ttl_secs is None ==> d.settings.models_ttl_secs
                    == c.settings.models_ttl_secs
                &&& req.history_days matches Some(v) ==> d.settings.history_days == v
                &&& req.history_days is None ==> d.settings.history_days
                    == c.settings.history_days
                &&& req.allow_from matches Some(l) ==> d.settings.allow_from == text::texts(l@)
                &&& req.allow_from is None ==> d.settings.allow_from == c.settings.allow_from
            }
        }),
{
    reveal(entry_rule);
    let f = |e: Seq<char>| entry_rule(e) is None;
    match req.allow_from {
        Some(l) => {
            let all = text::texts(l@);
            seqs::lemma_first_where(all, f);
            if bad_entry(all) is Some {
                let i = bad_entry(all)->0;
                assert(all[i] == l@[i]@);
                assert(net::rule_text(text::trimmed(l@[i]@)) is None);
            }
            assert forall|i: int| 0 <= i < l@.len() && bad_entry(all) is None implies
                net::rule_text(text::trimmed((#[trigger] l@[i])@)) is Some by {
                assert(all[i] == l@[i]@);
                assert(!f(all[i]));
            }
        },
        None => {
            seqs::lemma_first_where(Seq::<Seq<char>>::empty(), f);
        },
    }
}

/// A provider is added behind the others, which stay as they are, under a name that none
/// of them has, with the one key that was given, ready to serve.
pub proof fn law_an_added_provider_stands_last(
    c: ConfigView,
    name: String,
    base_url: String,
    key: String,
    protocol: Option<Protocol>,
    rpm: Option<usize>,
)
    ensures
        ({
            let done = providers_changed(
                c,
                ProviderAction::Add { name, base_url, key, protocol, rpm },
            );
            let rate: usize = match rpm {
                Some(r) => r,
                None => 40,
            };
            let taken = exists|j: int|
                0 <= j < c.providers.len() && (#[trigger] c.providers[j]).name == text::trimmed(
                    name@,
                );
            &&& done is Ok <==> text::trimmed(name@).len() > 0 && !taken && config::normal_base_url(
                base_url@,
            ).len() > 0 && text::trimmed(key@).len() > 0 && 1 <= rate <= 10_000
            &&& done matches Ok(d) ==> {
                let p = d.providers.last();
                &&& d.providers.len() == c.providers.len() + 1
                &&& forall|j: int|
                    0 <= j < c.providers.len() ==> #[trigger] d.providers[j] == c.providers[j]
                &&& p.name == text::trimmed(name@)
                &&& p.base_url == config::normal_base_url(base_url@)
                &&& p.protocol == (match protocol {
                    Some(w) => w,
                    None => Protocol::OpenAi,
                })
                &&& p.keys.len() == 1
                &&& p.keys[0].key == text::trimmed(key@)
                &&& p.keys[0].enabled
                &&& p.keys[0].rpm == rate
                &&& d == (ConfigView { providers: d.providers, ..c })
            }
        }),
{
    lemma_provider_at(c.providers, text::trimmed(name@));
}

/// A removed provider is gone and the others stay; a virtual model that had no target on
/// it stays as it was.
pub proof fn law_a_removed_provider_is_gone(c: ConfigView, name: String)
    requires
        providers_changed(c, ProviderAction::Remove { name }) is Ok,
    ensures
        ({
            let d = providers_changed(c, ProviderAction::Remove { name })->Ok_0;
            &&& exists|i: int| 0 <= i < c.providers.len() && (#[trigger] c.providers[i]).name == name@
            &&& forall|p: ProviderView|
                #[trigger] d.providers.contains(p) <==> c.providers.contains(p) && p.name != name@
            &&& forall|a: AliasView|
                c.aliases.contains(a) && a.targets.len() > 0 && (forall|j: int|
                    0 <= j < a.targets.len() ==> (#[trigger] a.targets[j]).provider != name@)
                    ==> #[trigger] d.aliases.contains(a)
            &&& d == (ConfigView { providers: d.providers, aliases: d.aliases, ..c })
        }),
{
    lemma_provider_at(c.providers, name@);
    let d = providers_changed(c, ProviderAction::Remove { name })->Ok_0;
    seqs::lemma_filtered(c.providers, |p: ProviderView| p.name != name@);
    let h = |a: AliasView| without_targets(a, name@);
    let l = |a: AliasView| a.targets.len() > 0;
    let g = |t: TargetView| t.provider != name@;
    let all = c.aliases.map_values(h);
    seqs::lemma_filtered(all, l);
    assert forall|a: AliasView|
        c.aliases.contains(a) && a.targets.len() > 0 && (forall|j: int|
            0 <= j < a.targets.len() ==> (#[trigger] a.targets[j]).provider != name@) implies
        #[trigger] d.aliases.contains(a) by {
        let i = choose|i: int| 0 <= i < c.aliases.len() && c.aliases[i] == a;
        lemma_all_kept(a.targets, g);
        assert(all[i] == a);
        assert(all.contains(a));
    }
}

proof fn lemma_all_kept<T>(s: Seq<T>, f: spec_fn(T) -> bool)
    requires
        forall|i: int| 0 <= i < s.len() ==> f(#[trigger] s[i]),
    ensures
        s.filter(f) == s,
    decreases s.len(),
{
    reveal(Seq::filter);
    if s.len() > 0 {
        let rest = s.drop_last();
        assert forall|i: int| 0 <= i < rest.len() implies f(#[trigger] rest[i]) by {
            assert(rest[i] == s[i]);
        }
        lemma_all_kept(rest, f);
        assert(f(s[s.len() - 1]));
        assert(s.filter(f) =~= s);
    } else {
        assert(s.filter(f) =~= s);
    }
}

/// Setting a virtual model changes no other one, and removing it leaves the others.
pub proof fn law_other_virtual_models_stay(
    c: ConfigView,
    name: String,
    targets: Vec<AliasTarget>,
    other: AliasView,
)
    requires
        other.name != name@,
        other.name != text::trimmed(name@),
    ensures
        aliases_changed(c, AliasAction::Upsert { name, targets }) matches Ok(d) ==> (
        d.aliases.contains(other) <==> c.aliases.contains(other)) && d == (ConfigView {
            aliases: d.aliases,
            ..c
        }) && d.aliases.len() <= c.aliases.len() + 1,
        aliases_changed(c, AliasAction::Remove { name }) matches Ok(d) ==> (d.aliases.contains(
            other,
        ) <==> c.aliases.contains(other)) && d == (ConfigView { aliases: d.aliases, ..c })
            && forall|i: int| 0 <= i < d.aliases.len() ==> (#[trigger] d.aliases[i]).name != name@,
{
    broadcast use vstd::seq_lib::group_filter_ensures;

    let n = text::trimmed(name@);
    lemma_alias_at(c.aliases, n);
    if let Ok(d) = aliases_changed(c, AliasAction::Upsert { name, targets }) {
        if c.aliases.contains(other) {
            let i = choose|i: int| 0 <= i < c.aliases.len() && c.aliases[i] == other;
            assert(d.aliases[i] == other);
        }
        if d.aliases.contains(other) {
            let i = choose|i: int| 0 <= i < d.aliases.len() && d.aliases[i] == other;
            assert(c.aliases[i] == other);
        }
    }
    let f = |a: AliasView| a.name != name@;
    seqs::lemma_filtered(c.aliases, f);
    if let Ok(d) = aliases_changed(c, AliasAction::Remove { name }) {
        assert forall|i: int| 0 <= i < d.aliases.len() implies (#[trigger] d.aliases[i]).name
            != name@ by {
            assert(f(c.aliases.filter(f)[i]));
        }
    }
}

/// A virtual model is refused exactly where it has no name, no target, or a target on a
/// provider that there is not.
pub proof fn law_a_virtual_model_needs_targets(
    c: ConfigView,
    name: String,
    targets: Vec<AliasTarget>,
)
    ensures
        aliases_changed(c, AliasAction::Upsert { name, targets }) is Ok <==> text::trimmed(
            name@,
        ).len() > 0 && targets@.len() > 0 && forall|j: int|
            0 <= j < targets@.len() ==> exists|i: int|
                0 <= i < c.providers.len() && (#[trigger] c.providers[i]).name == (
                #[trigger] targets@[j]).provider@,
        aliases_changed(c, AliasAction::Remove { name }) is Ok <==> exists|i: int|
            0 <= i < c.aliases.len() && (#[trigger] c.aliases[i]).name == name@,
{
    let g = |t: TargetView| provider_at(c.providers, t.provider) is None;
    let wanted = config::target_views(targets@);
    seqs::lemma_first_where(wanted, g);
    lemma_alias_at(c.aliases, name@);
    assert forall|j: int| 0 <= j < targets@.len() implies (g(wanted[j]) <==> !exists|i: int|
        0 <= i < c.providers.len() && (#[trigger] c.providers[i]).name == (
        #[trigger] targets@[j]).provider@) by {
        assert(wanted[j] == targets@[j]@);
        lemma_provider_at(c.providers, targets@[j].provider@);
    }
    if let Some(j) = astray(c.providers, wanted) {
        assert(g(wanted[j]));
        assert(targets@[j].provider@ == wanted[j].provider);
    }
}

/// A new account stands behind the others as a plain user, under a name that nobody has;
/// the others stay as they are.
pub proof fn law_a_new_account_is_a_plain_user(
    users: Seq<UserView>,
    username: String,
    password: String,
    h: Seq<char>,
)
    ensures
        ({
            let a = UserAction::Add { username, password };
            let after = users_after(users, a, h);
            let taken = exists|i: int|
                0 <= i < users.len() && (#[trigger] users[i]).username == text::trimmed(username@);
            &&& users_fault(users, a) is None <==> text::trimmed(username@).len() > 0 && !taken
                && password@.len() >= 8
            &&& after.len() == users.len() + 1
            &&& after.last().username == text::trimmed(username@)
            &&& after.last().pw_hash == h
            &&& after.last().role == Role::User
            &&& forall|i: int| 0 <= i < users.len() ==> #[trigger] after[i] == users[i]
            &&& password_of(a) == Some(password@)
        }),
{
    lemma_user_at(users, text::trimmed(username@));
}

/// A removed account is gone and the others stay; it is refused for the superuser, and
/// where there is no such account.
pub proof fn law_a_removed_account_is_gone(users: Seq<UserView>, username: String, h: Seq<char>)
    ensures
        ({
            let a = UserAction::Remove { username };
            let after = users_after(users, a, h);
            let there = exists|i: int|
                0 <= i < users.len() && (#[trigger] users[i]).username == username@;
            let superuser = exists|i: int|
                0 <= i < users.len() && (#[trigger] users[i]).username == username@
                    && users[i].role == Role::Superuser;
            &&& users_fault(users, a) is None <==> there && !superuser
            &&& forall|u: UserView|
                #[trigger] after.contains(u) <==> users.contains(u) && u.username != username@
            &&& password_of(a) is None
        }),
{
    lemma_user_at(users, username@);
    seqs::lemma_filtered(users, |u: UserView| u.username != username@);
}

/// A password is set for an account that is there, and is eight characters at least.
pub proof fn law_a_set_password_is_long_enough(
    users: Seq<UserView>,
    username: String,
    password: String,
)
    ensures
        users_fault(users, UserAction::SetPassword { username, password }) is None <==> (
        exists|i: int| 0 <= i < users.len() && (#[trigger] users[i]).username == username@)
            && password@.len() >= 8,
        password_of(UserAction::SetPassword { username, password }) == Some(password@),
{
    lemma_user_at(users, username@);
}

/// The operator sees every provider with its name, address and keys, each key by its
/// end, its state, its rate and its owner.
pub proof fn law_the_view_shows_every_key(c: ConfigView, model_rates: JsonView, i: int, j: int)
    requires
        0 <= i < c.providers.len(),
        0 <= j < c.providers[i].keys.len(),
    ensures
        ({
            let doc = settings_document(c, model_rates);
            let providers = json::items_of(json::field(doc, "providers"@))->0;
            let p = providers[i];
            let keys = json::items_of(json::field(p, "keys"@))->0;
            let k = c.providers[i].keys[j];
            &&& json::items_of(json::field(doc, "providers"@)) is Some
            &&& providers.len() == c.providers.len()
            &&& json::field(p, "name"@) == Some(JsonView::Str(c.providers[i].name))
            &&& json::field(p, "base_url"@) == Some(JsonView::Str(c.providers[i].base_url))
            &&& json::items_of(json::field(p, "keys"@)) is Some
            &&& keys.len() == c.providers[i].keys.len()
            &&& json::field(keys[j], "last4"@) == Some(JsonView::Str(tail4(k.key)))
            &&& json::field(keys[j], "enabled"@) == Some(JsonView::Bool(k.enabled))
            &&& json::field(keys[j], "rpm"@) == Some(JsonView::UInt(k.rpm as u64))
            &&& json::field(keys[j], "owner"@) == Some(JsonView::Str(k.owner))
        }),
{
    lemma_view_names();
    let doc = settings_document(c, model_rates)->Obj_0;
    table::lemma_nth(doc, 0);
    let p = provider_document(c.providers[i])->Obj_0;
    table::lemma_nth(p, 0);
    table::lemma_nth(p, 1);
    table::lemma_nth(p, 2);
    let k = key_document(c.providers[i].keys[j])->Obj_0;
    table::lemma_nth(k, 0);
    table::lemma_nth(k, 1);
    table::lemma_nth(k, 2);
    table::lemma_nth(k, 3);
}

/// The operator sees every client key by its label, its end and its owner, every virtual
/// model with its targets, and the limits.
pub proof fn law_the_view_shows_the_rest(
    c: ConfigView,
    model_rates: JsonView,
    i: int,
    a: int,
    t: int,
)
    requires
        0 <= i < c.clients.len(),
        0 <= a < c.aliases.len(),
        0 <= t < c.aliases[a].targets.len(),
    ensures
        ({
            let doc = settings_document(c, model_rates);
            let clients = json::items_of(json::field(doc, "clients"@))->0;
            let aliases = json::items_of(json::field(doc, "aliases"@))->0;
            let targets = json::items_of(json::field(aliases[a], "targets"@))->0;
            let limits = json::field(doc, "settings"@)->0;
            &&& clients.len() == c.clients.len()
            &&& json::field(clients[i], "label"@) == Some(JsonView::Str(c.clients[i].label))
            &&& json::field(clients[i], "last4"@) == Some(JsonView::Str(c.clients[i].last4))
            &&& json::field(clients[i], "owner"@) == Some(JsonView::Str(c.clients[i].owner))
            &&& aliases.len() == c.aliases.len()
            &&& json::field(aliases[a], "name"@) == Some(JsonView::Str(c.aliases[a].name))
            &&& targets.len() == c.aliases[a].targets.len()
            &&& json::field(targets[t], "provider"@) == Some(
                JsonView::Str(c.aliases[a].targets[t].provider),
            )
            &&& json::field(targets[t], "model"@) == Some(
                JsonView::Str(c.aliases[a].targets[t].model),
            )
            &&& json::field(limits, "history_days"@) == Some(
                JsonView::UInt(c.settings.history_days as u64),
            )
            &&& json::field(limits, "max_inflight"@) == Some(
                JsonView::UInt(c.settings.max_inflight as u64),
            )
            &&& json::field(limits, "models_ttl_secs"@) == Some(
                JsonView::UInt(c.settings.models_ttl_secs),
            )
            &&& json::field(limits, "model_rates"@) == Some(model_rates)
        }),
{
    lemma_view_names();
    let doc = settings_document(c, model_rates)->Obj_0;
    table::lemma_nth(doc, 1);
    table::lemma_nth(doc, 2);
    table::lemma_nth(doc, 3);
    let k = client_document(c.clients[i])->Obj_0;
    table::lemma_nth(k, 0);
    table::lemma_nth(k, 1);
    table::lemma_nth(k, 2);
    let d = alias_document(c.aliases[a])->Obj_0;
    table::lemma_nth(d, 0);
    table::lemma_nth(d, 1);
    let g = target_document(c.aliases[a].targets[t])->Obj_0;
    table::lemma_nth(g, 0);
    table::lemma_nth(g, 1);
    let l = limits_document(c.settings, model_rates)->Obj_0;
    table::lemma_nth(l, 0);
    table::lemma_nth(l, 1);
    table::lemma_nth(l, 2);
    table::lemma_nth(l, 4);
}

proof fn lemma_view_names()
    ensures
        "last4"@ != "enabled"@,
        "last4"@ != "rpm"@,
        "enabled"@ != "rpm"@,
        "last4"@ != "owner"@,
        "enabled"@ != "owner"@,
        "rpm"@ != "owner"@,
        "name"@ != "base_url"@,
        "name"@ != "keys"@,
        "base_url"@ != "keys"@,
        "providers"@ != "clients"@,
        "providers"@ != "aliases"@,
        "providers"@ != "settings"@,
        "clients"@ != "aliases"@,
        "clients"@ != "settings"@,
        "aliases"@ != "settings"@,
        "label"@ != "last4"@,
        "label"@ != "owner"@,
        "name"@ != "targets"@,
        "provider"@ != "model"@,
        "history_days"@ != "max_inflight"@,
        "history_days"@ != "models_ttl_secs"@,
        "history_days"@ != "model_rates"@,
        "max_inflight"@ != "models_ttl_secs"@,
        "max_inflight"@ != "model_rates"@,
        "models_ttl_secs"@ != "model_rates"@,
        "allow_from"@ != "model_rates"@,
{
    reveal_strlit("last4");
    reveal_strlit("enabled");
    reveal_strlit("rpm");
    reveal_strlit("owner");
    reveal_strlit("name");
    reveal_strlit("base_url");
    reveal_strlit("keys");
    reveal_strlit("providers");
    reveal_strlit("clients");
    reveal_strlit("aliases");
    reveal_strlit("settings");
    reveal_strlit("label");
    reveal_strlit("targets");
    reveal_strlit("provider");
    reveal_strlit("model");
    reveal_strlit("history_days");
    reveal_strlit("max_inflight");
    reveal_strlit("models_ttl_secs");
    reveal_strlit("model_rates");
    reveal_strlit("allow_from");
    assert("last4"@.len() != "enabled"@.len());
    assert("last4"@.len() != "rpm"@.len());
    assert("enabled"@.len() != "rpm"@.len());
    assert("last4"@[0] != "owner"@[0]);
    assert("enabled"@.len() != "owner"@.len());
    assert("rpm"@.len() != "owner"@.len());
    assert("name"@.len() != "base_url"@.len());
    assert("name"@[0] != "keys"@[0]);
    assert("base_url"@.len() != "keys"@.len());
    assert("providers"@.len() != "clients"@.len());
    assert("providers"@.len() != "aliases"@.len());
    assert("providers"@.len() != "settings"@.len());
    assert("clients"@[0] != "aliases"@[0]);
    assert("clients"@.len() != "settings"@.len());
    assert("aliases"@.len() != "settings"@.len());
    assert("label"@[2] != "last4"@[2]);
    assert("label"@[0] != "owner"@[0]);
    assert("name"@.len() != "targets"@.len());
    assert("provider"@.len() != "model"@.len());
    assert("history_days"@[0] != "max_inflight"@[0]);
    assert("history_days"@.len() != "models_ttl_secs"@.len());
    assert("history_days"@.len() != "model_rates"@.len());
    assert("max_inflight"@.len() != "models_ttl_secs"@.len());
    assert("max_inflight"@.len() != "model_rates"@.len());
    assert("models_ttl_secs"@.len() != "model_rates"@.len());
    assert("allow_from"@.len() != "model_rates"@.len());
}

/// A change that is refused changes nothing and is a bad request; one that is taken leaves
/// the store as its rule says.
pub proof fn law_a_refused_change_changes_nothing(
    before: ConfigView,
    after: ConfigView,
    r: Result<(), Reply>,
    rule: Result<ConfigView, Seq<char>>,
)
    requires
        follows(before, after, r, rule),
    ensures
        r is Err ==> after == before && r->Err_0@.status == 400,
        r is Ok ==> rule == Ok::<ConfigView, Seq<char>>(after),
        r is Err <==> rule is Err,
{
}

/// Client keys are revoked where there is one that ends so, by an administrator, or by
/// whoever owns every one of them.
pub proof fn law_keys_are_revoked_by_their_owners(
    c: ConfigView,
    who: Seq<char>,
    admin: bool,
    last4: Seq<char>,
)
    ensures
        ({
            let done = client_revoked(c, who, admin, last4);
            let there = exists|i: int|
                0 <= i < c.clients.len() && (#[trigger] c.clients[i]).last4 == last4;
            let own = forall|i: int|
                0 <= i < c.clients.len() && (#[trigger] c.clients[i]).last4 == last4
                    ==> c.clients[i].owner == who;
            &&& done is Ok <==> there && (admin || own)
            &&& !there ==> done->Err_0.status == 400
            &&& there && !admin && !own ==> done->Err_0.status == 403
        }),
{
}

/// A change that could not be saved is told as a failure; a saved one as done, with the
/// secret that was minted, where one was.
pub proof fn law_the_outcome_is_told(e: String, secret: String, minted: Option<String>)
    ensures
        outcome_view(Err(e), minted).status == 500,
        outcome_view(Ok(()), minted).status == 200,
        exists|doc: JsonView|
            outcome_view(Ok(()), Some(secret)).body == #[trigger] json::written(doc) && json::field(
                doc,
                "key"@,
            ) == Some(JsonView::Str(secret@)) && json::field(doc, "ok"@) == Some(
                JsonView::Bool(true),
            ),
{
    let doc = JsonView::Obj(
        seq![
            ("ok"@, JsonView::Bool(true)),
            ("key"@, JsonView::Str(secret@)),
            ("note"@, JsonView::Str("shown once \u{2014} it is stored only as a digest"@)),
        ],
    );
    reveal_strlit("ok");
    reveal_strlit("key");
    assert("ok"@.len() != "key"@.len());
    table::lemma_nth(doc->Obj_0, 0);
    table::lemma_nth(doc->Obj_0, 1);
    assert(outcome_view(Ok(()), Some(secret)).body == json::written(doc));
}

} // verus!
