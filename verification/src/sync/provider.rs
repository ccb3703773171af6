//! The cloud as a set of operations behind one interface; sync logic sees
//! Yandex Disk and Google Drive alike. Here: the values those operations
//! exchange, and the choices that do not need the network.

use vstd::prelude::*;
use crate::text::{chars_of, contains, eq_chars, has, string_of};

verus! {

/// The code a person types on the cloud's page.
pub struct DeviceCode {
    pub device_code: String,
    pub user_code: String,
    pub verification_url: String,
    /// Ask about the token no more often than once in this many seconds.
    pub interval: u64,
    /// Moment (millis) after which the code is stale.
    pub expires_at: i64,
}

/// Tokens after a successful sign-in.
pub struct Tokens {
    pub access_token: String,
    pub refresh_token: String,
    /// Moment (millis) when the access token stops working.
    pub expires_at: i64,
}

/// What the cloud answered to one poll.
pub enum Poll {
    /// The person has not entered the code yet: ask later.
    Pending,
    Done(Tokens),
}

/// A file in the cloud as a listing shows it.
pub struct RemoteFile {
    pub name: String,
    pub md5: String,
    /// Upload moment (millis).
    pub modified: i64,
    pub size: u64,
}

/// The two folders of the application in the cloud.
#[derive(PartialEq, Eq, Structural, Debug, Clone, Copy, Hash)]
pub enum Folder {
    Meetings,
    Audio,
}

/// The clouds the application can sync with.
#[derive(PartialEq, Eq, Structural, Debug, Clone, Copy)]
pub enum ProviderId {
    Yandex,
    Google,
}

impl ProviderId {
    /// How the provider is written in the settings.
    pub fn id(&self) -> (r: &'static str)
        ensures
            r@ == provider_key(*self),
    {
        match self {
            ProviderId::Yandex => "yandex",
            ProviderId::Google => "google",
        }
    }

    /// The provider's name for the window.
    pub fn title(&self) -> (r: &'static str)
        ensures
            r@ == provider_title(*self),
    {
        match self {
            ProviderId::Yandex => "Яндекс.Диск",
            ProviderId::Google => "Google Drive",
        }
    }
}

/// The key a provider is stored under.
pub open spec fn provider_key(p: ProviderId) -> Seq<char> {
    match p {
        ProviderId::Yandex => "yandex"@,
        ProviderId::Google => "google"@,
    }
}

/// The name of a provider shown to people.
pub open spec fn provider_title(p: ProviderId) -> Seq<char> {
    match p {
        ProviderId::Yandex => "Яндекс.Диск"@,
        ProviderId::Google => "Google Drive"@,
    }
}

/// All providers, for the window and for the choice by setting.
pub fn all() -> (r: [ProviderId; 2])
    ensures
        r@ == seq![ProviderId::Yandex, ProviderId::Google],
{
    let r = [ProviderId::Yandex, ProviderId::Google];
    assert(r@ =~= seq![ProviderId::Yandex, ProviderId::Google]);
    r
}

/// The provider stored under a key; anything unknown is Yandex (settings
/// written before Google Drive existed).
pub fn by_id(id: &str) -> (p: ProviderId)
    ensures
        p == (if id@ == "google"@ { ProviderId::Google } else { ProviderId::Yandex }),
{
    let key = chars_of(id);
    let google = chars_of("google");
    proof {
        reveal_strlit("google");
    }
    if eq_chars(&key, &google) {
        ProviderId::Google
    } else {
        ProviderId::Yandex
    }
}

/// Whether an error text means "sign in again": both clients write the
/// status code into the message.
pub fn is_unauthorized(message: &str) -> (r: bool)
    ensures
        r == has(message@, "(401)"@),
{
    let m = chars_of(message);
    let pat = chars_of("(401)");
    contains(&m, &pat)
}

/// The interval a device code is polled at: as the cloud says (or five
/// seconds), but never less than two.
pub fn poll_interval(given: Option<u64>) -> (r: u64)
    ensures
        r == (match given {
            Some(v) => if v >= 2 { v } else { 2 },
            None => 5,
        }),
{
    let v = match given {
        Some(v) => v,
        None => 5,
    };
    if v >= 2 { v } else { 2 }
}

/// `std::time::SystemTime::now().duration_since(UNIX_EPOCH)` as whole
/// milliseconds (`Duration::as_millis`); 0 when the clock reads before the
/// epoch (the call's error). Nothing is claimed of the value: it is the
/// machine's clock, and two reads may differ.
#[verifier::external_body]
fn clock_millis() -> (r: u128) {
    std::time::SystemTime::now().duration_since(std::time::UNIX_EPOCH).map(|d| d.as_millis()).unwrap_or(0)
}

/// The current time in milliseconds since the Unix epoch; 0 when the clock
/// reads before the epoch. Never negative: a clock past what an `i64` of
/// milliseconds holds (some 290 million years) reads as `i64::MAX`.
pub fn now_ms() -> (r: i64)
    ensures
        r >= 0,
{
    let m = clock_millis();
    if m <= 0x7FFF_FFFF_FFFF_FFFF {
        m as i64
    } else {
        0x7FFF_FFFF_FFFF_FFFF
    }
}

/// Moment (millis) when something that lives `seconds` from `now` runs out.
pub fn expiry(now_ms: i64, seconds: i64) -> (r: i64)
    requires
        i64::MIN <= seconds * 1000 <= i64::MAX,
        i64::MIN <= now_ms + seconds * 1000 <= i64::MAX,
    ensures
        r == now_ms + seconds * 1000,
{
    now_ms + seconds * 1000
}

/// Tokens from a token reply: the access token as given; the refresh token
/// as given, else the one used for refreshing, else empty; expiry from
/// `expires_in` (or the provider's default lifetime).
pub fn tokens_of(
    access: &str,
    refresh: Option<&str>,
    old_refresh: Option<&str>,
    expires_in: Option<i64>,
    default_lifetime: i64,
    now_ms: i64,
) -> (t: Tokens)
    requires
        match expires_in {
            Some(e) => i64::MIN <= e * 1000 <= i64::MAX && i64::MIN <= now_ms + e * 1000 <= i64::MAX,
            None => i64::MIN <= default_lifetime * 1000 <= i64::MAX && i64::MIN <= now_ms
                + default_lifetime * 1000 <= i64::MAX,
        },
    ensures
        t.access_token@ == access@,
        t.refresh_token@ == (match refresh {
            Some(r) => r@,
            None => match old_refresh {
                Some(o) => o@,
                None => Seq::<char>::empty(),
            },
        }),
        t.expires_at == now_ms + (match expires_in {
            Some(e) => e,
            None => default_lifetime,
        }) * 1000,
{
    let refresh_token = match refresh {
        Some(r) => string_of(&chars_of(r)),
        None => match old_refresh {
            Some(o) => string_of(&chars_of(o)),
            None => String::new(),
        },
    };
    let lifetime = match expires_in {
        Some(e) => e,
        None => default_lifetime,
    };
    Tokens {
        access_token: string_of(&chars_of(access)),
        refresh_token,
        expires_at: expiry(now_ms, lifetime),
    }
}

/// A token is refreshed ahead of time when it ends within a week and there
/// is a refresh token to do it with.
pub fn needs_refresh(has_refresh: bool, expires_at: i64, now_ms: i64) -> (r: bool)
    requires
        now_ms >= 0,
    ensures
        r == (has_refresh && expires_at > 0 && expires_at - now_ms < 7 * 24 * 3600 * 1000),
{
    has_refresh && expires_at > 0 && expires_at - now_ms < 7 * 24 * 3600 * 1000
}

} // verus!
