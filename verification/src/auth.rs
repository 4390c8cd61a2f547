//! Credential logic and the operator auth surface: password hashing, signed session
//! tokens, client API keys, the session guards, and login/logout. Kept in one place
//! so the security posture is auditable from a single file.

use vstd::prelude::*;

use crate::config;
use crate::config::{ClientKey, User};
use crate::crypto;
use crate::reply;
use crate::reply::{Reply, ReplyView};
use crate::seqs;
use crate::text;

verus! {

pub const PBKDF2_ROUNDS: u32 = 600_000;

/// Session lifetime, in seconds.
pub const SESSION_TTL: u64 = 43_200;

/// Failed-login throttle: after this many failures inside the window, further
/// attempts are rejected until the window elapses.
pub const MAX_LOGIN_FAILS: u32 = 5;

/// The window of the failed-login throttle, in nanoseconds.
pub const LOGIN_WINDOW: u128 = 60_000_000_000;

// --- Passwords ---------------------------------------------------------------

/// Does `pw` hash to what `stored` records? A record that is not in the form
/// `pbkdf2$sha256$<rounds>$<salt>$<hash>`, or that records an empty hash, is met by
/// no password.
pub open spec fn password_ok(pw: Seq<char>, stored: Seq<char>) -> bool {
    let parts = text::pieces(stored, '$');
    &&& parts.len() == 5
    &&& parts[0] == "pbkdf2"@
    &&& parts[1] == "sha256"@
    &&& text::read_number(parts[2], u32::MAX as nat) matches Some(rounds)
    &&& crypto::base64_url_decoded(parts[3]) matches Some(salt)
    &&& crypto::base64_url_decoded(parts[4]) matches Some(expected)
    &&& 0 < expected.len() <= crypto::PBKDF2_MAX
    &&& crypto::pbkdf2_of(
        vstd::utf8::encode_utf8(pw),
        salt,
        rounds as u32,
        expected.len(),
    ) == expected
}

/// The record of the password `pw`, salted with `salt`.
pub open spec fn password_record(pw: Seq<char>, salt: Seq<u8>) -> Seq<char> {
    "pbkdf2$sha256$"@ + text::decimal(PBKDF2_ROUNDS as nat) + "$"@ + crypto::base64_url(salt) + "$"@
        + crypto::base64_url(
        crypto::pbkdf2_of(vstd::utf8::encode_utf8(pw), salt, PBKDF2_ROUNDS, 32),
    )
}

proof fn lemma_record_pieces(n: Seq<char>, a: Seq<char>, b: Seq<char>)
    requires
        !n.contains('$'),
        !a.contains('$'),
        !b.contains('$'),
    ensures
        text::pieces("pbkdf2$sha256$"@ + n + "$"@ + a + "$"@ + b, '$') == seq![
            "pbkdf2"@,
            "sha256"@,
            n,
            a,
            b,
        ],
{
    reveal_strlit("pbkdf2$sha256$");
    reveal_strlit("pbkdf2");
    reveal_strlit("sha256");
    reveal_strlit("$");
    let s2 = "pbkdf2$sha256$"@ + n;
    let s3 = s2 + "$"@ + a;
    let s4 = s3 + "$"@ + b;
    let p = "pbkdf2$sha256$"@;
    assert forall|j: int| 14 <= j < s2.len() implies s2[j] != '$' by {
        assert(s2[j] == n[j - 14]);
    }
    text::lemma_last_piece(s2, '$', 14);
    assert(s2.skip(14) =~= n);
    let s1 = s2.take(13);
    assert(s1 =~= p.take(13));
    text::lemma_last_piece(s1, '$', 7);
    assert(s1.skip(7) =~= "sha256"@);
    let s0 = s1.take(6);
    assert(s0 =~= "pbkdf2"@);
    text::lemma_last_piece(s0, '$', 0);
    assert(s0.skip(0) =~= "pbkdf2"@);
    let at3 = s2.len() + 1;
    assert forall|j: int| at3 <= j < s3.len() implies s3[j] != '$' by {
        assert(s3[j] == a[j - at3]);
    }
    text::lemma_last_piece(s3, '$', at3 as int);
    assert(s3.skip(at3 as int) =~= a);
    assert(s3.take(at3 - 1) =~= s2);
    let at4 = s3.len() + 1;
    assert forall|j: int| at4 <= j < s4.len() implies s4[j] != '$' by {
        assert(s4[j] == b[j - at4]);
    }
    text::lemma_last_piece(s4, '$', at4 as int);
    assert(s4.skip(at4 as int) =~= b);
    assert(s4.take(at4 - 1) =~= s3);
    assert(text::pieces(s4, '$') =~= seq!["pbkdf2"@, "sha256"@, n, a, b]);
}

/// Hash a password with PBKDF2-HMAC-SHA256 and the salt `salt`. The password
/// verifies against what is recorded.
pub fn record_password(pw: &str, salt: &[u8]) -> (r: String)
    ensures
        r@ == password_record(pw@, salt@),
        password_ok(pw@, r@),
{
    let hash = crypto::pbkdf2_sha256(pw.as_bytes(), salt, PBKDF2_ROUNDS, 32);
    let a = crypto::b64(salt);
    let b = crypto::b64(hash.as_slice());
    let mut out = text::owned("pbkdf2$sha256$");
    text::push_number(&mut out, PBKDF2_ROUNDS as u64);
    out.append("$");
    out.append(a.as_str());
    out.append("$");
    out.append(b.as_str());
    proof {
        let n = text::decimal(PBKDF2_ROUNDS as nat);
        text::law_decimal_reads_back(PBKDF2_ROUNDS as nat, u32::MAX as nat);
        text::lemma_decimal_digits(PBKDF2_ROUNDS as nat);
        assert(!n.contains('$')) by {
            assert forall|i: int| 0 <= i < n.len() implies n[i] != '$' by {
                assert(text::is_digit(n[i]));
            }
        }
        assert(!a@.contains('$')) by {
            assert forall|i: int| 0 <= i < a@.len() implies a@[i] != '$' by {
                assert(crypto::is_base64_url_char(a@[i]));
            }
        }
        assert(!b@.contains('$')) by {
            assert forall|i: int| 0 <= i < b@.len() implies b@[i] != '$' by {
                assert(crypto::is_base64_url_char(b@[i]));
            }
        }
        lemma_record_pieces(n, a@, b@);
    }
    out
}

/// A record is met by the passwords that hash to what it holds, with its salt and its
/// rounds, and by no other; one that holds no hash is met by none.
pub proof fn law_a_record_is_met_by_its_password_only(
    pw: Seq<char>,
    rounds: u32,
    s: Seq<char>,
    salt: Seq<u8>,
    h: Seq<char>,
    hash: Seq<u8>,
)
    requires
        !s.contains('$'),
        !h.contains('$'),
        crypto::base64_url_decoded(s) == Some(salt),
        crypto::base64_url_decoded(h) == Some(hash),
        hash.len() <= crypto::PBKDF2_MAX,
    ensures
        password_ok(
            pw,
            "pbkdf2$sha256$"@ + text::decimal(rounds as nat) + "$"@ + s + "$"@ + h,
        ) <==> hash.len() > 0 && crypto::pbkdf2_of(
            vstd::utf8::encode_utf8(pw),
            salt,
            rounds,
            hash.len(),
        ) == hash,
{
    let n = text::decimal(rounds as nat);
    text::law_decimal_reads_back(rounds as nat, u32::MAX as nat);
    text::lemma_decimal_digits(rounds as nat);
    assert(!n.contains('$')) by {
        assert forall|i: int| 0 <= i < n.len() implies n[i] != '$' by {
            assert(text::is_digit(n[i]));
        }
    }
    lemma_record_pieces(n, s, h);
}

/// Hash a password with PBKDF2-HMAC-SHA256 (600k iterations, random 16-byte salt),
/// stored as `pbkdf2$sha256$<rounds>$<b64salt>$<b64hash>`. `None` where the system
/// has no randomness to give.
pub fn hash_password(pw: &str) -> (r: Option<String>)
    ensures
        r matches Some(h) ==> password_ok(pw@, h@) && exists|salt: Seq<u8>|
            salt.len() == 16 && h@ == #[trigger] password_record(pw@, salt),
{
    hash_password_with(pw, crypto::random_bytes(16))
}

/// Hash a password with the salt that the system gave: it is hashed wherever there
/// is one.
pub fn hash_password_with(pw: &str, salt: Option<Vec<u8>>) -> (r: Option<String>)
    ensures
        match salt {
            Some(salt) => r is Some && r->0@ == password_record(pw@, salt@) && password_ok(
                pw@,
                r->0@,
            ),
            None => r is None,
        },
{
    match salt {
        Some(salt) => Some(record_password(pw, salt.as_slice())),
        None => None,
    }
}

/// Constant-time verification of a password against a stored hash.
pub fn verify_password(pw: &str, stored: &str) -> (r: bool)
    ensures
        r == password_ok(pw@, stored@),
{
    let parts = text::split(stored, '$');
    let ghost all = text::pieces(stored@, '$');
    assert(all.len() == parts@.len());
    if parts.len() != 5 {
        return false;
    }
    assert(all[0] == parts@[0]@ && all[1] == parts@[1]@ && all[2] == parts@[2]@);
    assert(all[3] == parts@[3]@ && all[4] == parts@[4]@);
    if !text::same_text(parts[0].as_str(), "pbkdf2") || !text::same_text(
        parts[1].as_str(),
        "sha256",
    ) {
        return false;
    }
    let rounds: u32 = match text::parse_number(parts[2].as_str(), u32::MAX as u64) {
        Some(n) => n as u32,
        None => {
            return false;
        },
    };
    match (crypto::b64d(parts[3].as_str()), crypto::b64d(parts[4].as_str())) {
        (Some(salt), Some(expected)) => {
            if expected.len() == 0 || expected.len() as u64 > crypto::PBKDF2_MAX {
                return false;
            }
            let out = crypto::pbkdf2_sha256(
                pw.as_bytes(),
                salt.as_slice(),
                rounds,
                expected.len(),
            );
            crypto::ct_eq(out.as_slice(), expected.as_slice())
        },
        _ => false,
    }
}

// --- Session tokens ----------------------------------------------------------

/// What a session token states: who, which password was current, and until when.
pub open spec fn payload(username: Seq<char>, witness: Seq<char>, expiry: u64) -> Seq<char> {
    username + "|"@ + witness + "|"@ + text::decimal(expiry as nat)
}

/// The token that states it, signed with `key`.
pub open spec fn token_text(
    key: Seq<u8>,
    username: Seq<char>,
    witness: Seq<char>,
    expiry: u64,
) -> Seq<char> {
    let p = vstd::utf8::encode_utf8(payload(username, witness, expiry));
    crypto::base64_url(p) + "."@ + crypto::base64_url(crypto::hmac_of(key, p))
}

/// Do two keys sign this payload differently?
pub open spec fn signed_apart(
    key: Seq<u8>,
    other: Seq<u8>,
    username: Seq<char>,
    witness: Seq<char>,
    expiry: u64,
) -> bool {
    let p = vstd::utf8::encode_utf8(payload(username, witness, expiry));
    crypto::hmac_of(key, p) != crypto::hmac_of(other, p)
}

/// Who a payload names, unless it has expired at `now`. It is split from the
/// right: only the last two fields are ours, so a username containing the
/// separator cannot shift the parse.
pub open spec fn identity(payload: Seq<char>, now: u64) -> Option<(Seq<char>, Seq<char>)> {
    match text::cut_last(payload, '|') {
        Some((head, expiry)) => match text::cut_last(head, '|') {
            Some((username, witness)) => match text::read_number(expiry, u64::MAX as nat) {
                Some(e) => if now < e {
                    Some((username, witness))
                } else {
                    None
                },
                None => None,
            },
            None => None,
        },
        None => None,
    }
}

/// Who a token names: only one whose signature is that of its payload under `key`,
/// and that has not expired at `now`, names anyone.
pub open spec fn opened(key: Seq<u8>, token: Seq<char>, now: u64) -> Option<
    (Seq<char>, Seq<char>),
> {
    match text::cut_first(token, '.') {
        Some((p, s)) => match (crypto::base64_url_decoded(p), crypto::base64_url_decoded(s)) {
            (Some(payload), Some(sig)) => if sig == crypto::hmac_of(key, payload)
                && vstd::utf8::valid_utf8(payload) {
                identity(vstd::utf8::decode_utf8(payload), now)
            } else {
                None
            },
            _ => None,
        },
        None => None,
    }
}

proof fn lemma_identity(username: Seq<char>, witness: Seq<char>, expiry: u64, now: u64)
    requires
        !witness.contains('|'),
    ensures
        identity(payload(username, witness, expiry), now) == if now < expiry {
            Some((username, witness))
        } else {
            None
        },
{
    reveal_strlit("|");
    let p = payload(username, witness, expiry);
    let d = text::decimal(expiry as nat);
    text::lemma_decimal_digits(expiry as nat);
    text::law_decimal_reads_back(expiry as nat, u64::MAX as nat);
    let i = (username.len() + 1 + witness.len()) as int;
    assert forall|j: int| i < j < p.len() implies p[j] != '|' by {
        assert(p[j] == d[j - i - 1]);
        assert(text::is_digit(d[j - i - 1]));
    }
    text::lemma_cut_last(p, '|', i);
    assert(p.skip(i + 1) =~= d);
    let head = p.take(i);
    assert(head =~= username + "|"@ + witness);
    let k = username.len() as int;
    assert forall|j: int| k < j < head.len() implies head[j] != '|' by {
        assert(head[j] == witness[j - k - 1]);
    }
    text::lemma_cut_last(head, '|', k);
    assert(head.take(k) =~= username);
    assert(head.skip(k + 1) =~= witness);
}

// --- The login throttle ------------------------------------------------------

/// The failed logins seen, and when the window in which they are counted began.
pub struct Failures {
    pub fails: u32,
    pub window_start: u128,
}

pub open spec fn throttled(f: Failures, now: u128) -> bool {
    f.fails >= MAX_LOGIN_FAILS && now - f.window_start < LOGIN_WINDOW
}

pub open spec fn failed_once_more(f: Failures, now: u128) -> Failures {
    let (fails, window_start) = if now - f.window_start >= LOGIN_WINDOW {
        (0u32, now)
    } else {
        (f.fails, f.window_start)
    };
    Failures {
        fails: if fails < u32::MAX {
            (fails + 1) as u32
        } else {
            fails
        },
        window_start,
    }
}

/// The failures counted after logins failed at each of `times`.
pub open spec fn failed_at(f: Failures, times: Seq<u128>) -> Failures
    decreases times.len(),
{
    if times.len() == 0 {
        f
    } else {
        failed_once_more(failed_at(f, times.drop_last()), times.last())
    }
}

/// Whoever fails `MAX_LOGIN_FAILS` times within one window is locked out for the
/// rest of it.
pub proof fn law_repeated_failures_lock_the_login(f: Failures, times: Seq<u128>, now: u128)
    requires
        f.fails == 0,
        MAX_LOGIN_FAILS <= times.len() < u32::MAX,
        forall|i: int| 0 <= i < times.len() ==> #[trigger] times[i] - f.window_start < LOGIN_WINDOW,
        now - f.window_start < LOGIN_WINDOW,
    ensures
        throttled(failed_at(f, times), now),
{
    lemma_failed_at(f, times);
}

proof fn lemma_failed_at(f: Failures, times: Seq<u128>)
    requires
        f.fails == 0,
        times.len() < u32::MAX,
        forall|i: int| 0 <= i < times.len() ==> #[trigger] times[i] - f.window_start < LOGIN_WINDOW,
    ensures
        failed_at(f, times).fails == times.len(),
        failed_at(f, times).window_start == f.window_start,
    decreases times.len(),
{
    if times.len() > 0 {
        assert forall|i: int| 0 <= i < times.drop_last().len() implies
            #[trigger] times.drop_last()[i] - f.window_start < LOGIN_WINDOW by {
            assert(times[i] - f.window_start < LOGIN_WINDOW);
        }
        lemma_failed_at(f, times.drop_last());
        assert(times[times.len() - 1] - f.window_start < LOGIN_WINDOW);
    }
}

/// The lock does not outlast its window.
pub proof fn law_the_lock_ends_with_its_window(f: Failures, now: u128)
    requires
        now - f.window_start >= LOGIN_WINDOW,
    ensures
        !throttled(f, now),
{
}

/// Fewer than five failures never lock the login, and nothing locks it for longer than
/// a minute after the first of them.
pub proof fn law_a_few_failures_lock_nothing(f: Failures, times: Seq<u128>, now: u128)
    requires
        f.fails == 0,
        times.len() < 5,
        forall|i: int| 0 <= i < times.len() ==> #[trigger] times[i] - f.window_start < LOGIN_WINDOW,
    ensures
        !throttled(failed_at(f, times), now),
{
    lemma_failed_at(f, times);
}

/// Five failures within a minute lock the login for the rest of that minute and no
/// longer; a failure after it is the first of a new count.
pub proof fn law_five_failures_lock_a_minute(
    f: Failures,
    a: u128,
    b: u128,
    c: u128,
    d: u128,
    e: u128,
    now: u128,
)
    requires
        f.fails == 0,
        f.window_start <= a <= b <= c <= d <= e <= now,
        e - f.window_start < 60_000_000_000,
    ensures
        ({
            let g = failed_at(f, seq![a, b, c, d, e]);
            &&& throttled(g, now) <==> now - f.window_start < 60_000_000_000
            &&& now - f.window_start >= 60_000_000_000 ==> failed_once_more(g, now).fails == 1
                && failed_once_more(g, now).window_start == now
        }),
{
    lemma_failed_at(f, seq![a, b, c, d, e]);
}

// --- Sessions ----------------------------------------------------------------

/// Session machinery: an HMAC signing key (random per boot, so sessions reset on
/// restart), the `trust_proxy` flag that marks cookies `Secure`, and the shared
/// failed-login throttle.
pub struct Admin {
    key: Vec<u8>,
    trust_proxy: bool,
    throttle: Failures,
}

/// A short, non-reversible witness of a stored password hash.
pub open spec fn witness_of(pw_hash: Seq<char>) -> Seq<char> {
    crypto::sha256_hex_of(pw_hash).take(12)
}

impl Admin {
    pub closed spec fn signing_key(&self) -> Seq<u8> {
        self.key@
    }

    pub closed spec fn trusts_proxy(&self) -> bool {
        self.trust_proxy
    }

    pub closed spec fn failures(&self) -> Failures {
        self.throttle
    }

    /// Session machinery with a fresh random key; `None` where the system has no
    /// randomness to give.
    pub fn new(trust_proxy: bool, now: u128) -> (r: Option<Self>)
        ensures
            r matches Some(a) ==> a.signing_key().len() == 32 && a.trusts_proxy() == trust_proxy
                && a.failures() == (Failures { fails: 0, window_start: now }),
    {
        Self::from_random(crypto::random_bytes(32), trust_proxy, now)
    }

    /// Session machinery that signs with the key that the system gave: there is one
    /// wherever there is a key.
    pub fn from_random(key: Option<Vec<u8>>, trust_proxy: bool, now: u128) -> (r: Option<Self>)
        ensures
            match key {
                Some(key) => r matches Some(a) && a.signing_key() == key@ && a.trusts_proxy()
                    == trust_proxy && a.failures() == (Failures { fails: 0, window_start: now }),
                None => r is None,
            },
    {
        match key {
            Some(key) => Some(Self::with_key(key, trust_proxy, now)),
            None => None,
        }
    }

    /// Session machinery that signs with `key`.
    pub fn with_key(key: Vec<u8>, trust_proxy: bool, now: u128) -> (r: Self)
        ensures
            r.signing_key() == key@,
            r.trusts_proxy() == trust_proxy,
            r.failures() == (Failures { fails: 0, window_start: now }),
    {
        Admin { key, trust_proxy, throttle: Failures { fails: 0, window_start: now } }
    }

    /// Whether session cookies should carry the `Secure` attribute.
    pub fn secure_cookies(&self) -> (r: bool)
        ensures
            r == self.trusts_proxy(),
    {
        self.trust_proxy
    }

    /// Sign a token that is valid before `expiry`, in seconds since the epoch.
    pub fn sign_token(&self, username: &str, witness: &str, expiry: u64) -> (r: String)
        ensures
            r@ == token_text(self.signing_key(), username@, witness@, expiry),
            forall|i: int|
                0 <= i < r@.len() ==> #[trigger] r@[i] == '.' || crypto::is_base64_url_char(r@[i]),
            !witness@.contains('|') ==> forall|now: u64|
                now < expiry ==> #[trigger] opened(self.signing_key(), r@, now) == Some(
                    (username@, witness@),
                ),
            forall|now: u64|
                now >= expiry && !witness@.contains('|') ==> #[trigger] opened(
                    self.signing_key(),
                    r@,
                    now,
                ) is None,
            forall|other: Seq<u8>, now: u64|
                signed_apart(self.signing_key(), other, username@, witness@, expiry)
                    ==> #[trigger] opened(other, r@, now) is None,
    {
        let mut p = text::owned(username);
        p.append("|");
        p.append(witness);
        p.append("|");
        text::push_number(&mut p, expiry);
        let sig = crypto::hmac_sha256(self.key.as_slice(), p.as_str().as_bytes());
        let a = crypto::b64(p.as_str().as_bytes());
        let b = crypto::b64(sig.as_slice());
        let mut out = a.clone();
        out.append(".");
        out.append(b.as_str());
        proof {
            reveal_strlit(".");
            let full = payload(username@, witness@, expiry);
            assert(p@ =~= full);
            vstd::utf8::encode_utf8_valid_utf8(full);
            vstd::utf8::encode_utf8_decode_utf8(full);
            let t = out@;
            let i = a@.len() as int;
            assert forall|j: int| 0 <= j < i implies t[j] != '.' by {
                assert(crypto::is_base64_url_char(a@[j]));
            }
            text::lemma_cut_first(t, '.', i);
            assert(t.take(i) =~= a@);
            assert(t.skip(i + 1) =~= b@);
            assert forall|j: int| 0 <= j < t.len() implies #[trigger] t[j] == '.'
                || crypto::is_base64_url_char(t[j]) by {
                if j < i {
                    assert(t[j] == a@[j]);
                } else if j > i {
                    assert(t[j] == b@[j - i - 1]);
                }
            }
            if !witness@.contains('|') {
                assert forall|now: u64| now < expiry implies #[trigger] opened(
                    self.signing_key(),
                    t,
                    now,
                ) == Some((username@, witness@)) by {
                    lemma_identity(username@, witness@, expiry, now);
                }
                assert forall|now: u64| now >= expiry implies #[trigger] opened(
                    self.signing_key(),
                    t,
                    now,
                ) is None by {
                    lemma_identity(username@, witness@, expiry, now);
                }
            }
        }
        out
    }

    /// Mint a session token valid for `ttl_secs` seconds from `now`.
    pub fn mint(&self, username: &str, witness: &str, ttl_secs: u64, now: u64) -> (r: String)
        requires
            now + ttl_secs <= u64::MAX,
        ensures
            r@ == token_text(self.signing_key(), username@, witness@, (now + ttl_secs) as u64),
            forall|i: int|
                0 <= i < r@.len() ==> #[trigger] r@[i] == '.' || crypto::is_base64_url_char(r@[i]),
            !witness@.contains('|') ==> forall|t: u64|
                t < now + ttl_secs ==> #[trigger] opened(self.signing_key(), r@, t) == Some(
                    (username@, witness@),
                ),
            !witness@.contains('|') ==> forall|t: u64|
                t >= now + ttl_secs ==> #[trigger] opened(self.signing_key(), r@, t) is None,
            forall|other: Seq<u8>, t: u64|
                signed_apart(
                    self.signing_key(),
                    other,
                    username@,
                    witness@,
                    (now + ttl_secs) as u64,
                ) ==> #[trigger] opened(other, r@, t) is None,
    {
        self.sign_token(username, witness, now + ttl_secs)
    }

    /// A short, non-reversible witness of a stored password hash.
    ///
    /// Sessions carry this so a password change invalidates them. The hash
    /// itself never goes in the cookie — only evidence of which hash was current
    /// when the session began.
    pub fn pw_witness(pw_hash: &str) -> (r: String)
        ensures
            r@ == witness_of(pw_hash@),
            r@.len() == 12,
            forall|i: int| 0 <= i < r@.len() ==> crypto::is_hex_char(#[trigger] r@[i]),
            !r@.contains('|'),
    {
        let hex = crypto::sha256_hex(pw_hash);
        let chars = text::chars_of(hex.as_str());
        let r = text::string_of(chars.as_slice(), 0, 12);
        assert(r@ =~= hex@.take(12));
        r
    }

    /// Return `(username, password witness)` iff the signature is valid and the
    /// token has not expired at `now`. The caller checks the witness against the
    /// account's current hash, which is what makes a password reset end live
    /// sessions.
    pub fn verify(&self, token: &str, now: u64) -> (r: Option<(String, String)>)
        ensures
            match r {
                Some((u, w)) => opened(self.signing_key(), token@, now) == Some((u@, w@)),
                None => opened(self.signing_key(), token@, now) is None,
            },
    {
        let (payload_b64, sig_b64) = match text::split_once(token, '.') {
            Some(p) => p,
            None => {
                return None;
            },
        };
        let payload = match crypto::b64d(payload_b64) {
            Some(p) => p,
            None => {
                return None;
            },
        };
        let sig = match crypto::b64d(sig_b64) {
            Some(s) => s,
            None => {
                return None;
            },
        };
        let expected = crypto::hmac_sha256(self.key.as_slice(), payload.as_slice());
        if !crypto::ct_eq(sig.as_slice(), expected.as_slice()) {
            return None;
        }
        match crypto::utf8_text(payload.as_slice()) {
            Some(p) => named(p, now),
            None => None,
        }
    }

    /// True while the failure window is saturated — reject new attempts.
    pub fn is_throttled(&self, now: u128) -> (r: bool)
        ensures
            r == throttled(self.failures(), now),
    {
        self.throttle.fails >= MAX_LOGIN_FAILS && (now <= self.throttle.window_start || now
            - self.throttle.window_start < LOGIN_WINDOW)
    }

    pub fn record_login_failure(&mut self, now: u128)
        ensures
            final(self).failures() == failed_once_more(old(self).failures(), now),
            final(self).signing_key() == old(self).signing_key(),
            final(self).trusts_proxy() == old(self).trusts_proxy(),
    {
        if now >= self.throttle.window_start && now - self.throttle.window_start >= LOGIN_WINDOW {
            self.throttle.fails = 0;
            self.throttle.window_start = now;
        }
        if self.throttle.fails < u32::MAX {
            self.throttle.fails += 1;
        }
    }

    pub fn reset_login_failures(&mut self)
        ensures
            final(self).failures() == (Failures { fails: 0, ..old(self).failures() }),
            final(self).signing_key() == old(self).signing_key(),
            final(self).trusts_proxy() == old(self).trusts_proxy(),
    {
        self.throttle.fails = 0;
    }
}

/// Who a payload names, unless it has expired at `now`.
pub fn named(payload: &str, now: u64) -> (r: Option<(String, String)>)
    ensures
        match r {
            Some((u, w)) => identity(payload@, now) == Some((u@, w@)),
            None => identity(payload@, now) is None,
        },
{
    match text::rsplit_once(payload, '|') {
        Some((head, expiry)) => match text::rsplit_once(head, '|') {
            Some((username, witness)) => match text::parse_number(expiry, u64::MAX) {
                Some(e) => if now < e {
                    Some((text::owned(username), text::owned(witness)))
                } else {
                    None
                },
                None => None,
            },
            None => None,
        },
        None => None,
    }
}

// --- Cookies -----------------------------------------------------------------

/// The attributes of the session cookie.
pub open spec fn cookie_text(token: Seq<char>, max_age: u64, secure: bool) -> Seq<char> {
    let c = "llm_rate_limit_proxy_session="@ + token
        + "; HttpOnly; SameSite=Strict; Path=/; Max-Age="@ + text::decimal(max_age as nat);
    if secure {
        c + "; Secure"@
    } else {
        c
    }
}

fn cookie(token: &str, max_age: u64, secure: bool) -> (r: String)
    ensures
        r@ == cookie_text(token@, max_age, secure),
{
    let mut c = text::owned("llm_rate_limit_proxy_session=");
    c.append(token);
    c.append("; HttpOnly; SameSite=Strict; Path=/; Max-Age=");
    text::push_number(&mut c, max_age);
    if secure {
        c.append("; Secure");
    }
    c
}

/// The cookie that carries a session.
pub fn session_cookie(token: &str, secure: bool) -> (r: String)
    ensures
        r@ == cookie_text(token@, SESSION_TTL, secure),
{
    cookie(token, SESSION_TTL, secure)
}

/// The cookie that ends a session.
pub fn clear_cookie(secure: bool) -> (r: String)
    ensures
        r@ == cookie_text(""@, 0, secure),
{
    cookie("", 0, secure)
}

/// Is this cookie, out of a `Cookie` header, that of a session?
pub open spec fn is_session_cookie(p: Seq<char>) -> bool {
    text::has_prefix(text::trimmed(p), "llm_rate_limit_proxy_session="@)
}

/// The session token in a `Cookie` header.
pub open spec fn cookie_session(header: Option<Seq<char>>) -> Option<Seq<char>> {
    match header {
        Some(h) => {
            let parts = text::pieces(h, ';');
            match seqs::first_where(parts, |p: Seq<char>| is_session_cookie(p)) {
                Some(i) => Some(
                    text::trimmed(parts[i]).skip("llm_rate_limit_proxy_session="@.len() as int),
                ),
                None => None,
            }
        },
        None => None,
    }
}

pub open spec fn opt_view(s: Option<&str>) -> Option<Seq<char>> {
    match s {
        Some(t) => Some(t@),
        None => None,
    }
}

pub open spec fn string_view(s: Option<String>) -> Option<Seq<char>> {
    match s {
        Some(t) => Some(t@),
        None => None,
    }
}

/// The session token in a `Cookie` header.
pub fn session_from_cookies(header: Option<&str>) -> (r: Option<String>)
    ensures
        string_view(r) == cookie_session(opt_view(header)),
{
    let h = match header {
        Some(h) => h,
        None => {
            return None;
        },
    };
    let parts = text::split(h, ';');
    let ghost all = text::pieces(h@, ';');
    let ghost f = |p: Seq<char>| is_session_cookie(p);
    let mut i: usize = 0;
    while i < parts.len()
        invariant
            i <= parts@.len(),
            all == text::texts(parts@),
            f == |p: Seq<char>| is_session_cookie(p),
            forall|j: int| 0 <= j < i ==> !f(#[trigger] all[j]),
            all == text::pieces(h@, ';'),
            header == Some(h),
        decreases parts@.len() - i,
    {
        assert(all[i as int] == parts@[i as int]@);
        match text::strip_prefix(
            text::trim(parts[i].as_str()),
            "llm_rate_limit_proxy_session=",
        ) {
            Some(token) => {
                proof {
                    seqs::lemma_is_first(all, f, i as int);
                }
                return Some(text::owned(token));
            },
            None => {},
        }
        i += 1;
    }
    proof {
        seqs::lemma_is_none(all, f);
    }
    None
}

/// The token in the cookie a browser sends back is the token that was set.
pub proof fn law_a_session_cookie_carries_its_token(token: Seq<char>)
    requires
        forall|i: int|
            0 <= i < token.len() ==> #[trigger] token[i] != ';' && !text::is_space(token[i]),
    ensures
        cookie_session(Some("llm_rate_limit_proxy_session="@ + token)) == Some(token),
{
    reveal_strlit("llm_rate_limit_proxy_session=");
    let name = "llm_rate_limit_proxy_session="@;
    let h = name + token;
    assert forall|j: int| 0 <= j < h.len() implies h[j] != ';' by {
        if j >= name.len() {
            assert(h[j] == token[j - name.len()]);
        }
    }
    text::lemma_last_piece(h, ';', 0);
    assert(h.skip(0) =~= h);
    let parts = text::pieces(h, ';');
    assert(parts =~= seq![h]);
    assert(!text::is_space(h[0]));
    if token.len() > 0 {
        assert(h.last() == token[token.len() - 1]);
    }
    assert(!text::is_space(h.last()));
    assert(text::trimmed(h) == h);
    assert(h.take(name.len() as int) =~= name);
    assert(h.skip(name.len() as int) =~= token);
    seqs::lemma_is_first(parts, |p: Seq<char>| is_session_cookie(p), 0);
}

/// Among the cookies of a header, the first that is a session's counts, whatever stands
/// before or behind it; without one there is no session.
pub proof fn law_the_first_session_cookie_counts(header: Seq<char>, i: int, token: Seq<char>)
    ensures
        ({
            let name = "llm_rate_limit_proxy_session="@;
            let parts = text::pieces(header, ';');
            &&& 0 <= i < parts.len() && text::trimmed(parts[i]) == name + token && (forall|j: int|
                0 <= j < i ==> !text::has_prefix(text::trimmed(#[trigger] parts[j]), name))
                ==> cookie_session(Some(header)) == Some(token)
            &&& (forall|j: int|
                0 <= j < parts.len() ==> !text::has_prefix(text::trimmed(#[trigger] parts[j]), name))
                ==> cookie_session(Some(header)) is None
        }),
        cookie_session(None) is None,
{
    let name = "llm_rate_limit_proxy_session="@;
    let parts = text::pieces(header, ';');
    let f = |p: Seq<char>| is_session_cookie(p);
    seqs::lemma_first_where(parts, f);
    if 0 <= i < parts.len() && text::trimmed(parts[i]) == name + token && (forall|j: int|
        0 <= j < i ==> !text::has_prefix(text::trimmed(#[trigger] parts[j]), name)) {
        let s = name + token;
        assert(s.take(name.len() as int) =~= name);
        assert(s.skip(name.len() as int) =~= token);
        assert forall|j: int| 0 <= j < i implies !f(#[trigger] parts[j]) by {}
        assert(f(parts[i]));
        seqs::lemma_is_first(parts, f, i);
    }
}

// --- Operator auth surface ---------------------------------------------------

/// The authenticated operator behind a session cookie. The account must still
/// exist and still have the password this session was issued against: a reset or a
/// deletion ends it.
pub open spec fn session_holder(
    users: Seq<User>,
    key: Seq<u8>,
    cookies: Option<Seq<char>>,
    now: u64,
) -> Option<Seq<char>> {
    match cookie_session(cookies) {
        Some(token) => match opened(key, token, now) {
            Some((username, witness)) => match config::user_index(users, username) {
                Some(i) => if witness_of(users[i].pw_hash@) == witness {
                    Some(username)
                } else {
                    None
                },
                None => None,
            },
            None => None,
        },
        None => None,
    }
}

/// A session outlives neither a change of its account's password nor the account:
/// once the stored hash has another witness, or the account is gone, the token
/// names nobody.
pub proof fn law_a_new_password_ends_the_session(
    users: Seq<User>,
    key: Seq<u8>,
    cookies: Option<Seq<char>>,
    now: u64,
    token: Seq<char>,
    username: Seq<char>,
    witness: Seq<char>,
)
    requires
        cookie_session(cookies) == Some(token),
        opened(key, token, now) == Some((username, witness)),
        match config::user_index(users, username) {
            Some(i) => witness_of(users[i].pw_hash@) != witness,
            None => true,
        },
    ensures
        session_holder(users, key, cookies, now) is None,
{
}

/// Whoever a session names has an account of that name, whose password is the one that
/// the session was opened with, and carries a token signed here that has not expired.
pub proof fn law_a_session_names_an_account(
    users: Seq<User>,
    key: Seq<u8>,
    cookies: Option<Seq<char>>,
    now: u64,
    who: Seq<char>,
)
    requires
        session_holder(users, key, cookies, now) == Some(who),
    ensures
        exists|i: int, token: Seq<char>|
            0 <= i < users.len() && (#[trigger] users[i]).username@ == who && cookie_session(
                cookies,
            ) == Some(token) && #[trigger] opened(key, token, now) == Some(
                (who, witness_of(users[i].pw_hash@)),
            ),
{
    config::law_an_account_is_found_by_name(users, who);
    let token = cookie_session(cookies)->0;
    let i = config::user_index(users, who)->0;
    assert(users[i].username@ == who && opened(key, token, now) == Some(
        (who, witness_of(users[i].pw_hash@)),
    ));
}

/// A token signed here, sent back in its cookie before it expires, names the account
/// that it was signed for while that account keeps its password.
pub proof fn law_a_session_lasts_while_the_password_does(
    users: Seq<User>,
    i: int,
    key: Seq<u8>,
    token: Seq<char>,
    now: u64,
)
    requires
        0 <= i < users.len(),
        forall|j: int| 0 <= j < i ==> (#[trigger] users[j]).username@ != users[i].username@,
        opened(key, token, now) == Some((users[i].username@, witness_of(users[i].pw_hash@))),
        forall|k: int|
            0 <= k < token.len() ==> #[trigger] token[k] != ';' && !text::is_space(token[k]),
    ensures
        session_holder(users, key, Some("llm_rate_limit_proxy_session="@ + token), now) == Some(
            users[i].username@,
        ),
{
    law_a_session_cookie_carries_its_token(token);
    config::law_an_account_is_found_by_name(users, users[i].username@);
}

fn signed_in(admin: &Admin, users: &[User], cookies: Option<&str>, now: u64) -> (r: Option<String>)
    ensures
        string_view(r) == session_holder(
            users@,
            admin.signing_key(),
            opt_view(cookies),
            now,
        ),
{
    match session_from_cookies(cookies) {
        Some(token) => match admin.verify(token.as_str(), now) {
            Some((username, witness)) => match config::find_user(users, username.as_str()) {
                Some(i) => {
                    let current = Admin::pw_witness(users[i].pw_hash.as_str());
                    if current == witness {
                        Some(username)
                    } else {
                        None
                    }
                },
                None => None,
            },
            None => None,
        },
        None => None,
    }
}

/// The authenticated operator, as told by [`require_session`].
#[derive(Debug)]
pub struct SessionUser(pub String);

impl SessionUser {
    pub fn name(&self) -> (r: &str)
        ensures
            r@ == self.0@,
    {
        self.0.as_str()
    }
}

/// Guard for the dashboard surface. Pre-setup, everything routes to the wizard;
/// after setup, an unauthenticated request is bounced to the login page. Who is
/// calling is handed on: a handler that cannot tell cannot refuse anybody.
pub fn require_session(
    setup_required: bool,
    admin: &Admin,
    users: &[User],
    cookies: Option<&str>,
    now: u64,
) -> (r: Result<SessionUser, Reply>)
    ensures
        match r {
            Ok(u) => !setup_required && session_holder(
                users@,
                admin.signing_key(),
                opt_view(cookies),
                now,
            ) == Some(u.0@),
            Err(e) => if setup_required {
                e@ == reply::redirect_view("/setup"@)
            } else {
                session_holder(users@, admin.signing_key(), opt_view(cookies), now) is None && e@
                    == reply::redirect_view("/login"@)
            },
        },
{
    if setup_required {
        return Err(reply::redirect("/setup"));
    }
    match signed_in(admin, users, cookies, now) {
        Some(username) => Ok(SessionUser(username)),
        None => Err(reply::redirect("/login")),
    }
}

/// The bytes of HTTP Basic credentials, which callers encode in either alphabet.
pub open spec fn basic_bytes(b: Seq<char>) -> Option<Seq<u8>> {
    match crypto::base64_url_decoded(b) {
        Some(raw) => Some(raw),
        None => crypto::base64_decoded(b),
    }
}

/// Do HTTP Basic credentials, decoded to `raw`, name an account and its password?
pub open spec fn basic_pair_ok(users: Seq<User>, raw: Seq<u8>) -> bool {
    &&& vstd::utf8::valid_utf8(raw)
    &&& text::cut_first(vstd::utf8::decode_utf8(raw), ':') matches Some((user, pass))
    &&& config::user_index(users, user) matches Some(i)
    &&& password_ok(pass, users[i].pw_hash@)
}

/// Does an `Authorization` header carry an operator's credentials?
pub open spec fn basic_ok(users: Seq<User>, authorization: Option<Seq<char>>) -> bool {
    &&& authorization matches Some(a)
    &&& text::has_prefix(a, "Basic "@)
    &&& basic_bytes(a.skip("Basic "@.len() as int)) matches Some(raw)
    &&& basic_pair_ok(users, raw)
}

/// Do HTTP Basic credentials, decoded to `raw`, name an account and its password?
pub fn check_basic_pair(users: &[User], raw: &[u8]) -> (r: bool)
    ensures
        r == basic_pair_ok(users@, raw@),
{
    match crypto::utf8_text(raw) {
        Some(pair) => match text::split_once(pair, ':') {
            Some((user, pass)) => match config::find_user(users, user) {
                Some(i) => verify_password(pass, users[i].pw_hash.as_str()),
                None => false,
            },
            None => false,
        },
        None => false,
    }
}

/// Basic credentials are met by an account of that name whose password it is, and by
/// nothing else; what stands before the first colon is the name.
pub proof fn law_basic_credentials_are_an_accounts(
    users: Seq<User>,
    user: Seq<char>,
    pass: Seq<char>,
)
    requires
        !user.contains(':'),
    ensures
        ({
            let raw = vstd::utf8::encode_utf8(user.push(':') + pass);
            &&& basic_pair_ok(users, raw) ==> exists|i: int|
                0 <= i < users.len() && (#[trigger] users[i]).username@ == user && password_ok(
                    pass,
                    users[i].pw_hash@,
                )
            &&& forall|i: int|
                0 <= i < users.len() && (#[trigger] users[i]).username@ == user && password_ok(
                    pass,
                    users[i].pw_hash@,
                ) && (forall|j: int| 0 <= j < i ==> (#[trigger] users[j]).username@ != user)
                    ==> basic_pair_ok(users, raw)
        }),
{
    let s = user.push(':') + pass;
    let n = user.len() as int;
    vstd::utf8::encode_utf8_valid_utf8(s);
    vstd::utf8::encode_utf8_decode_utf8(s);
    assert forall|j: int| 0 <= j < n implies s[j] != ':' by {
        assert(s[j] == user[j]);
        assert(user.contains(user[j]));
    }
    text::lemma_cut_first(s, ':', n);
    assert(s.take(n) =~= user);
    assert(s.skip(n + 1) =~= pass);
    config::law_an_account_is_found_by_name(users, user);
}

fn check_basic(users: &[User], authorization: Option<&str>) -> (r: bool)
    ensures
        r == basic_ok(users@, opt_view(authorization)),
{
    let b = match authorization {
        Some(a) => match text::strip_prefix(a, "Basic ") {
            Some(b) => b,
            None => {
                return false;
            },
        },
        None => {
            return false;
        },
    };
    let raw = match crypto::b64d(b) {
        Some(raw) => raw,
        None => match crypto::b64d_standard(b) {
            Some(raw) => raw,
            None => {
                return false;
            },
        },
    };
    check_basic_pair(users, raw.as_slice())
}

/// What a caller without credentials is told.
pub open spec fn credentials_required() -> ReplyView {
    reply::with_header(
        reply::plain_view(401, "credentials required"@),
        "www-authenticate"@,
        "Basic realm=\"llm-rate-limit-proxy metrics\""@,
    )
}

/// Guard for the metrics endpoint: a session, or credentials a scraper can
/// carry.
///
/// Prometheus cannot follow a redirect into a login page and report anything
/// useful, so this answers 401 rather than bouncing to `/login`. Credentials are
/// any operator account, over HTTP Basic — the same identities that can read the
/// console, since the numbers are the same numbers.
pub fn require_session_or_basic(
    setup_required: bool,
    admin: &Admin,
    users: &[User],
    cookies: Option<&str>,
    authorization: Option<&str>,
    now: u64,
) -> (r: Result<(), Reply>)
    ensures
        r is Ok <==> !setup_required && (session_holder(
            users@,
            admin.signing_key(),
            opt_view(cookies),
            now,
        ) is Some || basic_ok(users@, opt_view(authorization))),
        r matches Err(e) ==> e@ == if setup_required {
            reply::plain_view(503, "setup required"@)
        } else {
            credentials_required()
        },
        r matches Err(e) ==> e.status == if setup_required {
            503u16
        } else {
            401u16
        },
{
    if setup_required {
        return Err(reply::plain(503, "setup required"));
    }
    if signed_in(admin, users, cookies, now).is_some() || check_basic(users, authorization) {
        Ok(())
    } else {
        Err(
            reply::plain(401, "credentials required").header(
                "www-authenticate",
                "Basic realm=\"llm-rate-limit-proxy metrics\"",
            ),
        )
    }
}

/// May this operator change server-wide configuration?
pub open spec fn administers(users: Seq<User>, who: Option<Seq<char>>) -> bool {
    &&& who matches Some(u)
    &&& config::user_index(users, u) matches Some(i)
    &&& users[i].role.admin()
}

/// Whoever administers has an account, and that account is an administrator's or the
/// superuser's; a plain user, a stranger and nobody do not.
pub proof fn law_only_administrators_administer(users: Seq<User>, who: Seq<char>)
    ensures
        administers(users, Some(who)) ==> exists|i: int|
            0 <= i < users.len() && (#[trigger] users[i]).username@ == who && users[i].role
                != config::Role::User,
        forall|i: int|
            0 <= i < users.len() && (#[trigger] users[i]).username@ == who && users[i].role
                != config::Role::User && (forall|j: int|
                0 <= j < i ==> (#[trigger] users[j]).username@ != who) ==> administers(
                users,
                Some(who),
            ),
        !administers(users, None),
{
    config::law_an_account_is_found_by_name(users, who);
}

/// Guard for routes that change server-wide configuration.
///
/// A session proves who someone is, not what they may do. Without this the
/// weakest password on the box is a route to every provider key in the pool.
pub fn require_admin(users: &[User], who: Option<&str>) -> (r: Result<(), Reply>)
    ensures
        r is Ok <==> administers(users@, opt_view(who)),
        r matches Err(e) ==> e@ == reply::error_view(
            403,
            "forbidden"@,
            "administrator role required"@,
        ),
{
    let ok = match who {
        Some(u) => match config::find_user(users, u) {
            Some(i) => users[i].role.is_admin(),
            None => false,
        },
        None => false,
    };
    if ok {
        Ok(())
    } else {
        Err(reply::error(403, "forbidden", "administrator role required"))
    }
}

pub const LOGIN_HTML: &'static str = "<!doctype html><meta charset=utf-8>\n<meta name=viewport content=\"width=device-width, initial-scale=1\">\n<title>LLM Rate Limit Proxy \u{2014} Sign in</title>\n<h1>LLM Rate Limit Proxy</h1>\n<form method=post action=/login>\n  <p><input name=username placeholder=Username autofocus></p>\n  <p><input name=password type=password placeholder=Password></p>\n  <p><button type=submit>Sign in</button></p>\n</form>";

pub fn login_page() -> (r: Reply)
    ensures
        r@ == reply::html_view(200, LOGIN_HTML@),
{
    reply::html(200, LOGIN_HTML)
}

pub struct LoginForm {
    pub username: String,
    pub password: String,
}

/// Do the username and password of a login belong to an account?
pub open spec fn login_ok(users: Seq<User>, username: Seq<char>, password: Seq<char>) -> bool {
    &&& config::user_index(users, username) matches Some(i)
    &&& password_ok(password, users[i].pw_hash@)
}

/// An answer that sets a cookie and sends the caller to `to`.
pub open spec fn cookie_redirect(cookie: Seq<char>, to: Seq<char>) -> ReplyView {
    reply::with_header(
        reply::with_header(reply::plain_view(303, ""@), "set-cookie"@, cookie),
        "location"@,
        to,
    )
}

/// What a login is answered.
pub open spec fn login_answer(
    admin: Admin,
    users: Seq<User>,
    username: Seq<char>,
    password: Seq<char>,
    clock: u128,
    now: u64,
) -> ReplyView {
    if throttled(admin.failures(), clock) {
        reply::plain_view(429, "too many attempts, try again shortly"@)
    } else if !login_ok(users, username, password) {
        reply::plain_view(401, "invalid credentials"@)
    } else {
        let i = config::user_index(users, username)->0;
        let token = token_text(
            admin.signing_key(),
            username,
            witness_of(users[i].pw_hash@),
            (now + SESSION_TTL) as u64,
        );
        cookie_redirect(cookie_text(token, SESSION_TTL, admin.trusts_proxy()), "/"@)
    }
}

/// The failures counted after a login: a locked login counts nothing, a failed one
/// counts once, a good one starts afresh.
pub open spec fn failures_after_login(
    f: Failures,
    users: Seq<User>,
    username: Seq<char>,
    password: Seq<char>,
    clock: u128,
) -> Failures {
    if throttled(f, clock) {
        f
    } else if login_ok(users, username, password) {
        Failures { fails: 0, ..f }
    } else {
        failed_once_more(f, clock)
    }
}

/// Sign in. The session is tied to the exact password it was opened with, and not
/// merely to the username: it carries the witness of the hash that was met.
pub fn login_submit(
    admin: &mut Admin,
    users: &[User],
    form: &LoginForm,
    clock: u128,
    now: u64,
) -> (r: Reply)
    requires
        now + SESSION_TTL <= u64::MAX,
    ensures
        r@ == login_answer(*old(admin), users@, form.username@, form.password@, clock, now),
        r.status == 303 ==> exists|i: int, token: Seq<char>|
            0 <= i < users@.len() && (#[trigger] users@[i]).username@ == form.username@
                && password_ok(form.password@, users@[i].pw_hash@) && r@.headers.contains(
                (
                    "set-cookie"@,
                    #[trigger] cookie_text(token, SESSION_TTL, old(admin).trusts_proxy()),
                ),
            ) && forall|t: u64|
                t < now + SESSION_TTL ==> #[trigger] session_holder(
                    users@,
                    old(admin).signing_key(),
                    Some("llm_rate_limit_proxy_session="@ + token),
                    t,
                ) == Some(form.username@),
        r.status != 303 ==> r.status == 429 || r.status == 401,
        final(admin).failures() == failures_after_login(
            old(admin).failures(),
            users@,
            form.username@,
            form.password@,
            clock,
        ),
        final(admin).signing_key() == old(admin).signing_key(),
        final(admin).trusts_proxy() == old(admin).trusts_proxy(),
{
    if admin.is_throttled(clock) {
        return reply::plain(429, "too many attempts, try again shortly");
    }
    let witness = match config::find_user(users, form.username.as_str()) {
        Some(i) => if verify_password(form.password.as_str(), users[i].pw_hash.as_str()) {
            Some(Admin::pw_witness(users[i].pw_hash.as_str()))
        } else {
            None
        },
        None => None,
    };
    match witness {
        Some(w) => {
            admin.reset_login_failures();
            let token = admin.mint(form.username.as_str(), w.as_str(), SESSION_TTL, now);
            let cookie = session_cookie(token.as_str(), admin.secure_cookies());
            proof {
                let i = config::user_index(users@, form.username@)->0;
                config::law_an_account_is_found_by_name(users@, form.username@);
                assert(users@[i].username@ == form.username@);
                assert forall|k: int| 0 <= k < token@.len() implies #[trigger] token@[k] != ';'
                    && !text::is_space(token@[k]) by {}
                assert forall|t: u64| t < now + SESSION_TTL implies #[trigger] session_holder(
                    users@,
                    old(admin).signing_key(),
                    Some("llm_rate_limit_proxy_session="@ + token@),
                    t,
                ) == Some(form.username@) by {
                    assert(opened(old(admin).signing_key(), token@, t) == Some(
                        (form.username@, w@),
                    ));
                    law_a_session_lasts_while_the_password_does(
                        users@,
                        i,
                        old(admin).signing_key(),
                        token@,
                        t,
                    );
                }
                let answer = cookie_redirect(cookie@, "/"@);
                assert(answer.headers[answer.headers.len() - 2] == ("set-cookie"@, cookie@));
                assert(answer.headers.contains(("set-cookie"@, cookie@)));
            }
            reply::plain(303, "").header("set-cookie", cookie.as_str()).header("location", "/")
        },
        None => {
            admin.record_login_failure(clock);
            reply::plain(401, "invalid credentials")
        },
    }
}

pub fn logout(admin: &Admin) -> (r: Reply)
    ensures
        r@ == cookie_redirect(cookie_text(""@, 0, admin.trusts_proxy()), "/login"@),
{
    let cookie = clear_cookie(admin.secure_cookies());
    reply::plain(303, "").header("set-cookie", cookie.as_str()).header("location", "/login")
}

// --- Client API keys ---------------------------------------------------------

/// Where the key whose secret is `secret` stands among `keys`.
pub open spec fn client_index(keys: Seq<ClientKey>, secret: Seq<char>) -> Option<int> {
    seqs::first_where(keys, |k: ClientKey| k.digest@ == crypto::sha256_hex_of(secret))
}

/// The label of the key whose secret is `secret`.
pub open spec fn client_label(keys: Seq<ClientKey>, secret: Seq<char>) -> Option<Seq<char>> {
    match client_index(keys, secret) {
        Some(i) => Some(keys[i].label@),
        None => None,
    }
}

/// The record of a client key: its digest and the last four characters, never the
/// secret itself.
pub open spec fn records_key(
    k: ClientKey,
    secret: Seq<char>,
    label: Seq<char>,
    owner: Seq<char>,
) -> bool {
    &&& k.label@ == label
    &&& k.owner@ == owner
    &&& k.digest@ == crypto::sha256_hex_of(secret)
    &&& k.last4@ == secret.skip(secret.len() - 4)
}

/// A client API key made of the random bytes `bytes`: the one-time secret and the
/// record to persist.
pub fn client_key_of(bytes: &[u8], label: &str, owner: &str) -> (r: (String, ClientKey))
    ensures
        r.0@ == "lrlp_"@ + crypto::base64_url(bytes@),
        records_key(r.1, r.0@, label@, owner@),
{
    let mut secret = text::owned("lrlp_");
    secret.append(crypto::b64(bytes).as_str());
    let chars = text::chars_of(secret.as_str());
    proof {
        reveal_strlit("lrlp_");
    }
    let last4 = text::string_of(chars.as_slice(), chars.len() - 4, chars.len());
    assert(last4@ =~= secret@.skip(secret@.len() - 4));
    let record = ClientKey {
        label: text::owned(label),
        digest: crypto::sha256_hex(secret.as_str()),
        last4,
        owner: text::owned(owner),
    };
    (secret, record)
}

/// Mint a client API key. Returns the one-time secret (`lrlp_…`) and the record to
/// persist (digest + last-4 only — the secret itself is never stored). `None`
/// where the system has no randomness to give.
pub fn new_client_key(label: &str, owner: &str) -> (r: Option<(String, ClientKey)>)
    ensures
        r matches Some((secret, record)) ==> records_key(record, secret@, label@, owner@)
            && exists|bytes: Seq<u8>|
            bytes.len() == 32 && secret@ == "lrlp_"@ + #[trigger] crypto::base64_url(bytes),
{
    client_key_with(crypto::random_bytes(32), label, owner)
}

/// A client API key made of the bytes that the system gave: it is minted wherever
/// there are any.
pub fn client_key_with(bytes: Option<Vec<u8>>, label: &str, owner: &str) -> (r: Option<
    (String, ClientKey),
>)
    ensures
        match bytes {
            Some(bytes) => r matches Some((secret, record)) && secret@ == "lrlp_"@
                + crypto::base64_url(bytes@) && records_key(record, secret@, label@, owner@),
            None => r is None,
        },
{
    match bytes {
        Some(bytes) => Some(client_key_of(bytes.as_slice(), label, owner)),
        None => None,
    }
}

/// Return the matching key's label iff `secret` hashes to a stored digest.
pub fn verify_client_key(secret: &str, keys: &[ClientKey]) -> (r: Option<String>)
    ensures
        string_view(r) == client_label(keys@, secret@),
{
    let digest = crypto::sha256_hex(secret);
    let ghost f = |k: ClientKey| k.digest@ == crypto::sha256_hex_of(secret@);
    let mut i: usize = 0;
    while i < keys.len()
        invariant
            i <= keys@.len(),
            digest@ == crypto::sha256_hex_of(secret@),
            f == |k: ClientKey| k.digest@ == crypto::sha256_hex_of(secret@),
            forall|j: int| 0 <= j < i ==> !f(#[trigger] keys@[j]),
        decreases keys@.len() - i,
    {
        proof {
            vstd::utf8::encode_utf8_decode_utf8(digest@);
            vstd::utf8::encode_utf8_decode_utf8(keys@[i as int].digest@);
        }
        if crypto::ct_eq(digest.as_str().as_bytes(), keys[i].digest.as_str().as_bytes()) {
            proof {
                seqs::lemma_is_first(keys@, f, i as int);
            }
            return Some(keys[i].label.clone());
        }
        i += 1;
    }
    proof {
        seqs::lemma_is_none(keys@, f);
    }
    None
}

/// A minted key is recognised by its secret, under the label it was minted with,
/// wherever its record is kept behind keys that the secret does not belong to.
pub proof fn law_a_minted_key_is_recognised(
    keys: Seq<ClientKey>,
    k: ClientKey,
    secret: Seq<char>,
    label: Seq<char>,
    owner: Seq<char>,
)
    requires
        client_index(keys, secret) is None,
        records_key(k, secret, label, owner),
    ensures
        client_label(keys.push(k), secret) == Some(label),
{
    let f = |k: ClientKey| k.digest@ == crypto::sha256_hex_of(secret);
    seqs::lemma_first_where(keys, f);
    let all = keys.push(k);
    assert forall|j: int| 0 <= j < keys.len() implies !f(#[trigger] all[j]) by {
        assert(all[j] == keys[j]);
    }
    seqs::lemma_is_first(all, f, keys.len() as int);
}

// --- What the rules come to --------------------------------------------------

/// A login succeeds with the password of the account of that name, and with nothing else.
pub proof fn law_a_login_takes_the_accounts_password(
    users: Seq<User>,
    username: Seq<char>,
    password: Seq<char>,
)
    ensures
        login_ok(users, username, password) ==> exists|i: int|
            0 <= i < users.len() && (#[trigger] users[i]).username@ == username && password_ok(
                password,
                users[i].pw_hash@,
            ),
        forall|i: int|
            0 <= i < users.len() && (#[trigger] users[i]).username@ == username && password_ok(
                password,
                users[i].pw_hash@,
            ) && (forall|j: int| 0 <= j < i ==> (#[trigger] users[j]).username@ != username)
                ==> login_ok(users, username, password),
{
    config::law_an_account_is_found_by_name(users, username);
}

/// A locked login is refused whoever asks and changes nothing; otherwise a good login
/// forgets the failures, and a bad one is one more of them.
pub proof fn law_a_login_keeps_the_count(
    admin: Admin,
    users: Seq<User>,
    username: Seq<char>,
    password: Seq<char>,
    clock: u128,
    now: u64,
)
    ensures
        ({
            let f = admin.failures();
            let g = failures_after_login(f, users, username, password, clock);
            let answer = login_answer(admin, users, username, password, clock, now);
            let good = login_ok(users, username, password);
            if f.fails >= 5 && clock - f.window_start < 60_000_000_000 {
                g == f && answer.status == 429
            } else if good {
                g.fails == 0 && answer.status == 303
            } else {
                &&& answer.status == 401
                &&& clock - f.window_start < 60_000_000_000 && f.fails < u32::MAX ==> g.fails
                    == f.fails + 1 && g.window_start == f.window_start
                &&& clock - f.window_start >= 60_000_000_000 ==> g.fails == 1 && g.window_start
                    == clock
            }
        }),
{
}

/// The session cookie is kept from scripts and from other sites, lives as long as stated,
/// and asks for an encrypted connection exactly where that is wanted.
pub proof fn law_a_cookie_is_guarded(token: Seq<char>, max_age: u64, secure: bool)
    ensures
        ({
            let c = cookie_text(token, max_age, secure);
            &&& text::has_prefix(c, "llm_rate_limit_proxy_session="@ + token)
            &&& text::holds(c, "; HttpOnly"@)
            &&& text::holds(c, "; SameSite=Strict"@)
            &&& text::holds(c, "; Path=/"@)
            &&& text::holds(c, "; Max-Age="@ + text::decimal(max_age as nat))
            &&& secure <==> text::has_suffix(c, "; Secure"@)
        }),
{
    reveal_strlit("; HttpOnly; SameSite=Strict; Path=/; Max-Age=");
    reveal_strlit("; HttpOnly");
    reveal_strlit("; SameSite=Strict");
    reveal_strlit("; Path=/");
    reveal_strlit("; Max-Age=");
    reveal_strlit("; Secure");
    let c = cookie_text(token, max_age, secure);
    let head = "llm_rate_limit_proxy_session="@ + token;
    let d = text::decimal(max_age as nat);
    let end = if secure {
        "; Secure"@
    } else {
        Seq::<char>::empty()
    };
    let a = "; HttpOnly"@;
    let b = "; SameSite=Strict"@;
    let p = "; Path=/"@;
    let m = "; Max-Age="@;
    assert("; HttpOnly; SameSite=Strict; Path=/; Max-Age="@ =~= a + b + p + m);
    assert(c =~= head + a + (b + p + m + d + end));
    assert(c =~= (head + a) + b + (p + m + d + end));
    assert(c =~= (head + a + b) + p + (m + d + end));
    assert(c =~= (head + a + b + p) + (m + d) + end);
    assert(c.take(head.len() as int) =~= head);
    text::lemma_decimal_digits(max_age as nat);
    if secure {
        assert(c.skip(c.len() - end.len()) =~= end);
    } else {
        assert(c.last() == d.last());
        assert(text::is_digit(d[d.len() - 1]));
        if text::has_suffix(c, "; Secure"@) {
            assert(c.skip(c.len() - 8)[7] == c.last());
        }
    }
}

/// Basic credentials are read in either alphabet.
pub proof fn law_basic_credentials_come_in_either_alphabet(
    users: Seq<User>,
    b: Seq<char>,
    raw: Seq<u8>,
)
    ensures
        crypto::base64_url_decoded(b) == Some(raw) ==> basic_ok(users, Some("Basic "@ + b))
            == basic_pair_ok(users, raw),
        crypto::base64_url_decoded(b) is None && crypto::base64_decoded(b) == Some(raw)
            ==> basic_ok(users, Some("Basic "@ + b)) == basic_pair_ok(users, raw),
        !basic_ok(users, None),
{
    let h = "Basic "@ + b;
    let n = "Basic "@.len() as int;
    assert(h.take(n) =~= "Basic "@);
    assert(h.skip(n) =~= b);
}

/// Of a client key only the digest and the last four characters are kept.
pub proof fn law_a_record_keeps_the_end_of_the_secret(
    k: ClientKey,
    secret: Seq<char>,
    label: Seq<char>,
    owner: Seq<char>,
)
    requires
        records_key(k, secret, label, owner),
        secret.len() >= 4,
    ensures
        k.last4@.len() == 4,
        text::has_suffix(secret, k.last4@),
        k.digest@ == crypto::sha256_hex_of(secret),
        k.label@ == label,
        k.owner@ == owner,
{
}

} // verus!
