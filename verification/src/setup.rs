//! First-run wizard: the very first visitor claims the proxy by creating the
//! superuser and the first provider key. Until that happens the data plane is
//! closed and browsers are sent here; afterwards this surface is inert.

use vstd::prelude::*;

use crate::auth;
use crate::config;
use crate::config::{
    ConfigView, KeyView, Protocol, Provider, ProviderKey, ProviderView, Role,
    StoredConfig, User, UserView,
};
use crate::crypto;
use crate::reply;
use crate::reply::{Reply, ReplyView};
use crate::seqs;
use crate::settings;
use crate::text;

verus! {

pub const SETUP_HTML: &'static str = "<!doctype html><meta charset=utf-8>\n<meta name=viewport content=\"width=device-width, initial-scale=1\">\n<title>Sluice \u{2014} Setup</title>\n<h1>Claim this Sluice</h1>\n<p>The first visitor becomes the superuser. Add your admin login and one upstream provider key.</p>\n<form method=post action=/setup>\n  <p><input name=username placeholder=\"Admin username\" autofocus></p>\n  <p><input name=password type=password placeholder=\"Admin password\"></p>\n  <hr>\n  <p><input name=provider_name placeholder=\"Provider name (e.g. nim)\"></p>\n  <p><input name=base_url placeholder=\"Provider base URL\"></p>\n  <p><input name=api_key placeholder=\"Provider API key\"></p>\n  <p><button type=submit>Finish setup</button></p>\n</form>";

pub const READY_HEAD: &'static str = "<!doctype html><meta charset=utf-8><title>Sluice \u{2014} Ready</title><h1>Setup complete</h1><p>Your client API key (shown only once \u{2014} copy it now):</p><pre>";

pub const READY_TAIL: &'static str = "</pre><p><a href=\"/login\">Sign in to the dashboard</a></p>";

/// The wizard, until it has run.
pub fn setup_page(setup_required: bool) -> (r: Reply)
    ensures
        r@ == if setup_required {
            reply::html_view(200, SETUP_HTML@)
        } else {
            reply::redirect_view("/login"@)
        },
{
    if setup_required {
        reply::html(200, SETUP_HTML)
    } else {
        reply::redirect("/login")
    }
}

// --- Escaping ----------------------------------------------------------------

/// How a character stands in a page.
pub open spec fn escaped_char(c: char) -> Seq<char> {
    if c == '&' {
        "&amp;"@
    } else if c == '<' {
        "&lt;"@
    } else if c == '>' {
        "&gt;"@
    } else {
        seq![c]
    }
}

/// A text as it stands in a page.
pub open spec fn escaped(s: Seq<char>) -> Seq<char>
    decreases s.len(),
{
    if s.len() == 0 {
        Seq::empty()
    } else {
        escaped(s.drop_last()) + escaped_char(s.last())
    }
}

pub fn html_escape(s: &str) -> (r: String)
    ensures
        r@ == escaped(s@),
{
    let chars = text::chars_of(s);
    let mut out = text::owned("");
    let mut i: usize = 0;
    proof {
        reveal_strlit("");
        assert(chars@.take(0) =~= Seq::empty());
        assert(out@ =~= escaped(chars@.take(0)));
    }
    while i < chars.len()
        invariant
            i <= chars@.len(),
            out@ == escaped(chars@.take(i as int)),
        decreases chars@.len() - i,
    {
        let c: char = chars[i];
        assert(chars@.take(i + 1).drop_last() =~= chars@.take(i as int));
        if c == '&' {
            out.append("&amp;");
        } else if c == '<' {
            out.append("&lt;");
        } else if c == '>' {
            out.append("&gt;");
        } else {
            let ghost was = out@;
            out.push(c);
            assert(out@ =~= was + seq![c]);
        }
        i += 1;
    }
    assert(chars@.take(chars@.len() as int) =~= s@);
    out
}

/// No text opens or closes a tag in a page.
pub proof fn law_an_escaped_text_holds_no_tag(s: Seq<char>)
    ensures
        !escaped(s).contains('<'),
        !escaped(s).contains('>'),
    decreases s.len(),
{
    reveal_strlit("&amp;");
    reveal_strlit("&lt;");
    reveal_strlit("&gt;");
    if s.len() > 0 {
        law_an_escaped_text_holds_no_tag(s.drop_last());
        let a = escaped(s.drop_last());
        let b = escaped_char(s.last());
        assert forall|i: int| 0 <= i < (a + b).len() implies (a + b)[i] != '<' && (a + b)[i]
            != '>' by {
            if i < a.len() {
                assert(a.contains(a[i]));
            } else {
                assert((a + b)[i] == b[i - a.len()]);
            }
        }
    }
}

// --- The claim ---------------------------------------------------------------

pub struct SetupForm {
    pub username: String,
    pub password: String,
    pub provider_name: String,
    pub base_url: String,
    pub api_key: String,
}

/// Has someone claimed the proxy?
pub open spec fn claimed(users: Seq<UserView>) -> bool {
    exists|i: int| 0 <= i < users.len() && (#[trigger] users[i]).role == Role::Superuser
}

/// The answer that refuses a claim. Fail closed: only the first, one-time claim is
/// honored.
pub open spec fn claim_refused(
    users: Seq<UserView>,
    setup_required: bool,
    form: SetupForm,
) -> Option<ReplyView> {
    if !setup_required {
        Some(reply::plain_view(409, "setup already complete"@))
    } else if text::trimmed(form.username@).len() == 0 || form.password@.len() == 0 {
        Some(reply::plain_view(400, "username and password are required"@))
    } else if claimed(users) {
        Some(reply::plain_view(409, "setup already complete"@))
    } else {
        None
    }
}

/// The store after a claim that is not refused.
pub open spec fn store_claimed(
    c: ConfigView,
    form: SetupForm,
    pw_hash: Seq<char>,
    secret: Seq<char>,
) -> ConfigView {
    ConfigView {
        users: c.users.push(
            UserView { username: form.username@, pw_hash, role: Role::Superuser },
        ),
        providers: c.providers.push(
            ProviderView {
                name: form.provider_name@,
                base_url: config::normal_base_url(form.base_url@),
                protocol: Protocol::OpenAi,
                keys: seq![
                    KeyView {
                        key: form.api_key@,
                        enabled: true,
                        rpm: config::DEFAULT_RPM,
                        owner: form.username@,
                    },
                ],
            },
        ),
        clients: c.clients.push(
            settings::client_record(secret, "default"@, form.username@),
        ),
        ..c
    }
}

fn refuse_claim(sc: &StoredConfig, setup_required: bool, form: &SetupForm) -> (r: Option<Reply>)
    ensures
        match claim_refused(sc@.users, setup_required, *form) {
            Some(e) => r is Some && r->0@ == e,
            None => r is None,
        },
{
    if !setup_required {
        return Some(reply::plain(409, "setup already complete"));
    }
    if text::trim(form.username.as_str()).unicode_len() == 0
        || form.password.as_str().unicode_len() == 0 {
        return Some(reply::plain(400, "username and password are required"));
    }
    let ghost f = |u: User| u.role == Role::Superuser;
    proof {
        seqs::lemma_first_where(sc.users@, f);
        match config::superuser_index(sc.users@) {
            Some(i) => {
                assert(sc@.users[i] == sc.users@[i]@);
                assert(sc@.users[i].role == Role::Superuser);
            },
            None => {
                assert forall|i: int| 0 <= i < sc@.users.len() implies (#[trigger] sc@.users[i]).role
                    != Role::Superuser by {
                    assert(sc@.users[i] == sc.users@[i]@);
                    assert(!f(sc.users@[i]));
                }
            },
        }
    }
    if sc.superuser().is_some() {
        return Some(reply::plain(409, "setup already complete"));
    }
    None
}

/// Claim the proxy with the random bytes `salt`, for the hash of the password, and
/// `bytes`, for the first client key, whose secret it gives.
pub fn claim(
    sc: &mut StoredConfig,
    setup_required: bool,
    form: SetupForm,
    salt: Option<Vec<u8>>,
    bytes: Option<Vec<u8>>,
) -> (r: Result<String, Reply>)
    ensures
        match claim_refused(old(sc)@.users, setup_required, form) {
            Some(e) => r is Err && r->Err_0@ == e && final(sc)@ == old(sc)@,
            None => if salt is None || bytes is None {
                r is Err && r->Err_0@ == settings::no_randomness() && final(sc)@ == old(sc)@
            } else {
                let secret = "lrlp_"@ + crypto::base64_url(bytes->0@);
                r is Ok && r->Ok_0@ == secret && final(sc)@ == store_claimed(
                    old(sc)@,
                    form,
                    auth::password_record(form.password@, salt->0@),
                    secret,
                ) && auth::password_ok(
                    form.password@,
                    auth::password_record(form.password@, salt->0@),
                )
            },
        },
{
    let ghost before = sc@;
    let ghost whole = form;
    match refuse_claim(sc, setup_required, &form) {
        Some(e) => {
            return Err(e);
        },
        None => {},
    }
    let (salt, bytes) = match (salt, bytes) {
        (Some(a), Some(b)) => (a, b),
        _ => {
            return Err(settings::out_of_randomness());
        },
    };
    let (secret, record) = auth::client_key_of(
        bytes.as_slice(),
        "default",
        form.username.as_str(),
    );
    let mut keys: Vec<ProviderKey> = Vec::new();
    keys.push(
        ProviderKey {
            key: form.api_key,
            enabled: true,
            rpm: config::DEFAULT_RPM,
            owner: form.username.clone(),
        },
    );
    let provider = Provider {
        name: form.provider_name,
        base_url: config::normalize_base_url(form.base_url.as_str()),
        protocol: Protocol::OpenAi,
        keys,
    };
    let account = User {
        username: form.username,
        pw_hash: auth::record_password(form.password.as_str(), salt.as_slice()),
        role: Role::Superuser,
    };
    let ghost u = account@;
    let ghost p = provider@;
    let ghost k = record@;
    sc.users.push(account);
    sc.providers.push(provider);
    sc.clients.push(record);
    proof {
        assert(p.keys =~= seq![
            KeyView {
                key: whole.api_key@,
                enabled: true,
                rpm: config::DEFAULT_RPM,
                owner: whole.username@,
            },
        ]);
        assert(k =~= settings::client_record(secret@, "default"@, whole.username@));
        assert(sc@.users =~= before.users.push(u));
        assert(sc@.providers =~= before.providers.push(p));
        assert(sc@.clients =~= before.clients.push(k));
        assert(sc@ =~= store_claimed(before, whole, u.pw_hash, secret@));
    }
    Ok(secret)
}

/// Claim the proxy. Gives the secret of the first client key, which is shown once.
pub fn setup_submit(sc: &mut StoredConfig, setup_required: bool, form: SetupForm) -> (r: Result<
    String,
    Reply,
>)
    ensures
        match claim_refused(old(sc)@.users, setup_required, form) {
            Some(e) => r is Err && r->Err_0@ == e && final(sc)@ == old(sc)@,
            None => match r {
                Err(e) => e@ == settings::no_randomness() && final(sc)@ == old(sc)@,
                Ok(secret) => exists|salt: Seq<u8>, bytes: Seq<u8>|
                    salt.len() == 16 && bytes.len() == 32 && secret@ == "lrlp_"@
                        + #[trigger] crypto::base64_url(bytes) && final(sc)@ == store_claimed(
                        old(sc)@,
                        form,
                        #[trigger] auth::password_record(form.password@, salt),
                        secret@,
                    ) && auth::password_ok(
                        form.password@,
                        auth::password_record(form.password@, salt),
                    ),
            },
        },
{
    claim(sc, setup_required, form, crypto::random_bytes(16), crypto::random_bytes(32))
}

/// A proxy is claimed once: after a claim every other claim is refused.
pub proof fn law_a_proxy_is_claimed_once(
    c: ConfigView,
    form: SetupForm,
    pw_hash: Seq<char>,
    secret: Seq<char>,
    setup_required: bool,
    again: SetupForm,
)
    ensures
        claim_refused(
            store_claimed(c, form, pw_hash, secret).users,
            setup_required,
            again,
        ) is Some,
{
    let users = store_claimed(c, form, pw_hash, secret).users;
    assert(users[c.users.len() as int].role == Role::Superuser);
}

/// A claimed proxy can serve: the first provider's key gets a lane.
pub proof fn law_a_claimed_proxy_serves(
    c: ConfigView,
    form: SetupForm,
    pw_hash: Seq<char>,
    secret: Seq<char>,
)
    ensures
        settings::any_serving(store_claimed(c, form, pw_hash, secret).providers),
{
    assert(settings::serves_at(
        store_claimed(c, form, pw_hash, secret).providers,
        c.providers.len() as int,
        0,
    ));
}

/// The page that shows the first client key.
pub fn ready_page(secret: &str) -> (r: Reply)
    ensures
        r@ == reply::html_view(200, READY_HEAD@ + escaped(secret@) + READY_TAIL@),
{
    let mut page = text::owned(READY_HEAD);
    page.append(html_escape(secret).as_str());
    page.append(READY_TAIL);
    reply::html(200, page.as_str())
}

/// The answer to a claim that could not be saved.
pub fn not_saved(e: &str) -> (r: Reply)
    ensures
        r@ == reply::plain_view(500, "could not save config: "@ + e@),
{
    let mut m = text::owned("could not save config: ");
    m.append(e);
    reply::plain(500, m.as_str())
}

/// A claim is taken exactly where the proxy waits for one, names an account and a
/// password, and nobody has claimed it.
pub proof fn law_only_the_first_claim_is_taken(
    users: Seq<UserView>,
    setup_required: bool,
    form: SetupForm,
)
    ensures
        claim_refused(users, setup_required, form) is None <==> setup_required && text::trimmed(
            form.username@,
        ).len() > 0 && form.password@.len() > 0 && forall|i: int|
            0 <= i < users.len() ==> (#[trigger] users[i]).role != Role::Superuser,
        claim_refused(users, setup_required, form) matches Some(e) ==> e.status == 409 || e.status
            == 400,
{
}

/// A claim makes the claimant superuser, with the provider and the key that were given
/// and a first client key of their own; whatever was in the store stays.
pub proof fn law_a_claim_sets_everything_up(
    c: ConfigView,
    form: SetupForm,
    pw_hash: Seq<char>,
    secret: Seq<char>,
)
    ensures
        ({
            let d = store_claimed(c, form, pw_hash, secret);
            let u = d.users.last();
            let p = d.providers.last();
            let k = d.clients.last();
            &&& d.users.len() == c.users.len() + 1
            &&& d.providers.len() == c.providers.len() + 1
            &&& d.clients.len() == c.clients.len() + 1
            &&& d.users.drop_last() == c.users
            &&& d.providers.drop_last() == c.providers
            &&& d.clients.drop_last() == c.clients
            &&& d.aliases == c.aliases
            &&& d.settings == c.settings
            &&& u.username == form.username@
            &&& u.pw_hash == pw_hash
            &&& u.role == Role::Superuser
            &&& p.name == form.provider_name@
            &&& p.base_url == config::normal_base_url(form.base_url@)
            &&& p.keys.len() == 1
            &&& p.keys[0].key == form.api_key@
            &&& p.keys[0].enabled
            &&& p.keys[0].rpm == 40
            &&& k.owner == form.username@
            &&& k.digest == crypto::sha256_hex_of(secret)
            &&& k.label == "default"@
        }),
{
    let d = store_claimed(c, form, pw_hash, secret);
    assert(d.users.drop_last() =~= c.users);
    assert(d.providers.drop_last() =~= c.providers);
    assert(d.clients.drop_last() =~= c.clients);
}

/// A text without markup stands in a page as it is.
pub proof fn law_plain_text_is_not_escaped(s: Seq<char>)
    requires
        forall|i: int| 0 <= i < s.len() ==> #[trigger] s[i] != '&' && s[i] != '<' && s[i] != '>',
    ensures
        escaped(s) == s,
    decreases s.len(),
{
    if s.len() > 0 {
        let rest = s.drop_last();
        assert forall|i: int| 0 <= i < rest.len() implies #[trigger] rest[i] != '&' && rest[i] != '<'
            && rest[i] != '>' by {
            assert(rest[i] == s[i]);
        }
        law_plain_text_is_not_escaped(rest);
        assert(s[s.len() - 1] == s.last());
        assert(escaped(s) =~= s);
    } else {
        assert(escaped(s) =~= s);
    }
}

} // verus!
