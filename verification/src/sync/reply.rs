//! Reading the JSON replies of the clouds: tokens, device codes, listings,
//! the public links of Yandex Disk. serde_json parses the text and picks a
//! field; what the fields mean, their defaults and the errors are decided
//! here.

use vstd::prelude::*;
use crate::numbers::{parse_unsigned, parse_unsigned_chars};
use crate::sync::provider::{poll_interval, tokens_of, DeviceCode, RemoteFile, Tokens};
use crate::sync::yandex::{classify_poll_error, iso8601_ms, parse_iso8601, poll_error_kind, PollError};
use crate::text::{chars_of, eq_chars, string_of};

verus! {

// --- what serde_json reads ------------------------------------------------------------------

/// The string at `key` of the JSON object in `text`; none when the text is
/// not JSON, not an object, has no such key, or the value is not a string.
pub uninterp spec fn json_text_field(text: Seq<char>, key: Seq<char>) -> Option<Seq<char>>;

/// The value at `key` read as an `i64` (`Value::as_i64`).
pub uninterp spec fn json_i64_field(text: Seq<char>, key: Seq<char>) -> Option<i64>;

/// The value at `key` read as a `u64` (`Value::as_u64`).
pub uninterp spec fn json_u64_field(text: Seq<char>, key: Seq<char>) -> Option<u64>;

/// The value at `key`, whatever it is, written back as JSON text.
pub uninterp spec fn json_value_field(text: Seq<char>, key: Seq<char>) -> Option<Seq<char>>;

/// The elements of the array at `key`, each written back as JSON text.
pub uninterp spec fn json_array_field(text: Seq<char>, key: Seq<char>) -> Option<Seq<Seq<char>>>;

/// `serde_json::from_str::<Value>`, then `get(key)` and `as_str`. The
/// result is named, not restated.
#[verifier::external_body]
pub(crate) fn text_field(text: &str, key: &str) -> (r: Option<String>)
    ensures
        match r {
            Some(s) => json_text_field(text@, key@) == Some(s@),
            None => json_text_field(text@, key@) is None,
        },
{
    serde_json::from_str::<serde_json::Value>(text).ok().and_then(|v| v.get(key).and_then(|x| x.as_str()).map(|s| s.to_string()))
}

/// `serde_json::from_str::<Value>`, then `get(key)` and `as_i64`.
#[verifier::external_body]
pub(crate) fn i64_field(text: &str, key: &str) -> (r: Option<i64>)
    ensures
        r == json_i64_field(text@, key@),
{
    serde_json::from_str::<serde_json::Value>(text).ok().and_then(|v| v.get(key).and_then(|x| x.as_i64()))
}

/// `serde_json::from_str::<Value>`, then `get(key)` and `as_u64`.
#[verifier::external_body]
pub(crate) fn u64_field(text: &str, key: &str) -> (r: Option<u64>)
    ensures
        r == json_u64_field(text@, key@),
{
    serde_json::from_str::<serde_json::Value>(text).ok().and_then(|v| v.get(key).and_then(|x| x.as_u64()))
}

/// `serde_json::from_str::<Value>`, then `get(key)`, written back with
/// `to_string`.
#[verifier::external_body]
pub(crate) fn value_field(text: &str, key: &str) -> (r: Option<String>)
    ensures
        match r {
            Some(s) => json_value_field(text@, key@) == Some(s@),
            None => json_value_field(text@, key@) is None,
        },
{
    serde_json::from_str::<serde_json::Value>(text).ok().and_then(|v| v.get(key).map(|x| x.to_string()))
}

/// `serde_json::from_str::<Value>`, then `get(key)` and `as_array`, each
/// element written back with `to_string`.
#[verifier::external_body]
pub(crate) fn array_field(text: &str, key: &str) -> (r: Option<Vec<String>>)
    ensures
        match r {
            Some(v) => json_array_field(text@, key@) == Some(v@.map_values(|s: String| s@)),
            None => json_array_field(text@, key@) is None,
        },
{
    serde_json::from_str::<serde_json::Value>(text).ok().and_then(
        |v| v.get(key).and_then(|x| x.as_array()).map(|a| a.iter().map(|e| e.to_string()).collect()),
    )
}

/// The string at `key`, or empty.
pub open spec fn text_or_empty(text: Seq<char>, key: Seq<char>) -> Seq<char> {
    match json_text_field(text, key) {
        Some(t) => t,
        None => Seq::empty(),
    }
}

fn text_or_empty_of(text: &str, key: &str) -> (r: String)
    ensures
        r@ == text_or_empty(text@, key@),
{
    match text_field(text, key) {
        Some(t) => t,
        None => String::new(),
    }
}

// --- tokens and codes -----------------------------------------------------------------------

/// Why a reply gave no tokens or no code.
#[derive(Clone, Copy, Debug, PartialEq, Eq, Structural)]
pub enum TokenError {
    /// The reply has no access token.
    NoToken,
    /// The reply has no device code.
    NoDeviceCode,
    /// The reply has no code for the person.
    NoUserCode,
    /// The lifetime does not fit the clock in milliseconds.
    Lifetime,
}

/// The lifetime a reply gives in seconds, or the default.
pub open spec fn lifetime_of(reply: Seq<char>, default_lifetime: i64) -> int {
    match json_i64_field(reply, "expires_in"@) {
        Some(e) => e as int,
        None => default_lifetime as int,
    }
}

/// Whether a moment that far from `now_ms` fits an `i64` of milliseconds.
pub open spec fn fits_clock(now_ms: i64, seconds: int) -> bool {
    i64::MIN <= seconds * 1000 <= i64::MAX && i64::MIN <= now_ms + seconds * 1000 <= i64::MAX
}

fn lifetime(reply: &str, default_lifetime: i64, now_ms: i64) -> (r: Option<i64>)
    ensures
        match r {
            Some(e) => e == lifetime_of(reply@, default_lifetime) && fits_clock(now_ms, e as int),
            None => !fits_clock(now_ms, lifetime_of(reply@, default_lifetime)),
        },
{
    let e = match i64_field(reply, "expires_in") {
        Some(e) => e,
        None => default_lifetime,
    };
    let ms = match e.checked_mul(1000) {
        Some(ms) => ms,
        None => {
            return None;
        },
    };
    match now_ms.checked_add(ms) {
        Some(_) => Some(e),
        None => None,
    }
}

fn opt_str(s: &Option<String>) -> (r: Option<&str>)
    ensures
        match r {
            Some(x) => s matches Some(y) && x@ == y@,
            None => s is None,
        },
{
    match s {
        Some(x) => Some(x.as_str()),
        None => None,
    }
}

/// The tokens of a token reply: the access token; the refresh token given,
/// else the one used for refreshing, else empty; the end of their life from
/// `expires_in`, else the provider's default lifetime. No access token is an
/// error, and so is a lifetime that does not fit the clock.
pub fn token_reply(reply: &str, old_refresh: Option<&str>, default_lifetime: i64, now_ms: i64) -> (r: Result<
    Tokens,
    TokenError,
>)
    ensures
        match json_text_field(reply@, "access_token"@) {
            None => r == Err::<Tokens, TokenError>(TokenError::NoToken),
            Some(access) => if fits_clock(now_ms, lifetime_of(reply@, default_lifetime)) {
                &&& r matches Ok(t)
                &&& t.access_token@ == access
                &&& t.refresh_token@ == (match json_text_field(reply@, "refresh_token"@) {
                    Some(x) => x,
                    None => match old_refresh {
                        Some(o) => o@,
                        None => Seq::<char>::empty(),
                    },
                })
                &&& t.expires_at == now_ms + lifetime_of(reply@, default_lifetime) * 1000
            } else {
                r == Err::<Tokens, TokenError>(TokenError::Lifetime)
            },
        },
{
    let access = match text_field(reply, "access_token") {
        Some(a) => a,
        None => {
            return Err(TokenError::NoToken);
        },
    };
    let life = match lifetime(reply, default_lifetime, now_ms) {
        Some(e) => e,
        None => {
            return Err(TokenError::Lifetime);
        },
    };
    let given = text_field(reply, "refresh_token");
    let refresh = match opt_str(&given) {
        Some(x) => Some(x),
        None => old_refresh,
    };
    let t = tokens_of(access.as_str(), refresh, None, Some(life), life, now_ms);
    Ok(t)
}

/// What a failed poll says: the `error` field (empty when there is none)
/// read as [`poll_error_kind`].
pub fn poll_error_of(reply: &str) -> (r: PollError)
    ensures
        r == poll_error_kind(text_or_empty(reply@, "error"@)),
{
    let e = text_or_empty_of(reply, "error");
    classify_poll_error(e.as_str())
}

/// The device code of a reply: the device code and the code for the person
/// (each an error when missing, in that order), the address to type it at
/// (or the default one), how often to ask (see `poll_interval`), and when
/// it runs out, from `expires_in` or the default lifetime.
pub fn device_code_reply(reply: &str, default_lifetime: i64, default_url: &str, now_ms: i64) -> (r: Result<
    DeviceCode,
    TokenError,
>)
    ensures
        match (json_text_field(reply@, "device_code"@), json_text_field(reply@, "user_code"@)) {
            (None, _) => r == Err::<DeviceCode, TokenError>(TokenError::NoDeviceCode),
            (Some(_), None) => r == Err::<DeviceCode, TokenError>(TokenError::NoUserCode),
            (Some(d), Some(u)) => if fits_clock(now_ms, lifetime_of(reply@, default_lifetime)) {
                &&& r matches Ok(c)
                &&& c.device_code@ == d
                &&& c.user_code@ == u
                &&& c.verification_url@ == (match json_text_field(reply@, "verification_url"@) {
                    Some(v) => v,
                    None => default_url@,
                })
                &&& c.interval == (match json_u64_field(reply@, "interval"@) {
                    Some(v) => if v >= 2 { v } else { 2 },
                    None => 5,
                })
                &&& c.expires_at == now_ms + lifetime_of(reply@, default_lifetime) * 1000
            } else {
                r == Err::<DeviceCode, TokenError>(TokenError::Lifetime)
            },
        },
{
    let device_code = match text_field(reply, "device_code") {
        Some(d) => d,
        None => {
            return Err(TokenError::NoDeviceCode);
        },
    };
    let user_code = match text_field(reply, "user_code") {
        Some(u) => u,
        None => {
            return Err(TokenError::NoUserCode);
        },
    };
    let verification_url = match text_field(reply, "verification_url") {
        Some(v) => v,
        None => string_of(&chars_of(default_url)),
    };
    let interval = poll_interval(u64_field(reply, "interval"));
    let life = match lifetime(reply, default_lifetime, now_ms) {
        Some(e) => e,
        None => {
            return Err(TokenError::Lifetime);
        },
    };
    Ok(DeviceCode { device_code, user_code, verification_url, interval, expires_at: now_ms + life * 1000 })
}

// --- listings -------------------------------------------------------------------------------

/// A file of a listing as plain values.
pub struct RemoteFileView {
    pub name: Seq<char>,
    pub md5: Seq<char>,
    pub modified: int,
    pub size: nat,
}

/// A listed file as plain values.
pub open spec fn remote_view(f: RemoteFile) -> RemoteFileView {
    RemoteFileView { name: f.name@, md5: f.md5@, modified: f.modified as int, size: f.size as nat }
}

/// A moment from a date field: its milliseconds, or 0 when unreadable.
pub open spec fn moment_of(item: Seq<char>, key: Seq<char>) -> int {
    match iso8601_ms(text_or_empty(item, key)) {
        Some(v) => v,
        None => 0,
    }
}

/// A file of a Yandex Disk listing.
pub open spec fn disk_item(item: Seq<char>) -> RemoteFileView {
    RemoteFileView {
        name: text_or_empty(item, "name"@),
        md5: text_or_empty(item, "md5"@),
        modified: moment_of(item, "modified"@),
        size: match json_u64_field(item, "size"@) {
            Some(s) => s as nat,
            None => 0,
        },
    }
}

/// The files among listed items: those of type "file", in order.
pub open spec fn disk_files(items: Seq<Seq<char>>) -> Seq<RemoteFileView>
    decreases items.len(),
{
    if items.len() == 0 {
        Seq::empty()
    } else {
        let rest = disk_files(items.drop_last());
        if json_text_field(items.last(), "type"@) == Some("file"@) {
            rest.push(disk_item(items.last()))
        } else {
            rest
        }
    }
}

/// The items of a Yandex Disk listing page (none when absent).
pub open spec fn page_items(reply: Seq<char>) -> Seq<Seq<char>> {
    match json_value_field(reply, "_embedded"@) {
        Some(e) => match json_array_field(e, "items"@) {
            Some(v) => v,
            None => Seq::empty(),
        },
        None => Seq::empty(),
    }
}

/// How many items the whole folder has, as the page says (0 when absent).
pub open spec fn page_total(reply: Seq<char>) -> int {
    match json_value_field(reply, "_embedded"@) {
        Some(e) => match json_u64_field(e, "total"@) {
            Some(t) => t as int,
            None => 0,
        },
        None => 0,
    }
}

fn moment(item: &str, key: &str) -> (r: i64)
    ensures
        r as int == moment_of(item@, key@),
{
    let t = text_or_empty_of(item, key);
    match parse_iso8601(t.as_str()) {
        Some(v) => v,
        None => 0,
    }
}

/// One page of a Yandex Disk listing read from `offset` on: its files (items
/// of type "file") and the offset of the next page, none when the page was
/// empty or the folder holds no more.
pub fn list_page(reply: &str, offset: u64) -> (r: (Vec<RemoteFile>, Option<u64>))
    ensures
        r.0@.map_values(|f: RemoteFile| remote_view(f)) == disk_files(page_items(reply@)),
        r.1 == (if page_items(reply@).len() == 0 || offset + page_items(reply@).len() >= page_total(reply@) {
            None
        } else {
            Some((offset + page_items(reply@).len()) as u64)
        }),
{
    let (items, total): (Vec<String>, u64) = match value_field(reply, "_embedded") {
        Some(e) => (
            match array_field(e.as_str(), "items") {
                Some(v) => v,
                None => Vec::new(),
            },
            match u64_field(e.as_str(), "total") {
                Some(t) => t,
                None => 0,
            },
        ),
        None => (Vec::new(), 0),
    };
    let ghost iv = items@.map_values(|s: String| s@);
    proof {
        assert(iv == page_items(reply@));
        assert(total as int == page_total(reply@));
    }
    let mut out: Vec<RemoteFile> = Vec::new();
    let mut i: usize = 0;
    while i < items.len()
        invariant
            i <= items@.len(),
            iv == items@.map_values(|s: String| s@),
            out@.map_values(|f: RemoteFile| remote_view(f)) == disk_files(iv.take(i as int)),
        decreases items.len() - i,
    {
        let item = items[i].as_str();
        proof {
            assert(iv.take(i + 1).drop_last() =~= iv.take(i as int));
            assert(iv.take(i + 1).last() == item@);
        }
        let ghost before = out@.map_values(|f: RemoteFile| remote_view(f));
        let kind = text_field(item, "type");
        let is_file = match &kind {
            Some(k) => eq_chars(&chars_of(k.as_str()), &chars_of("file")),
            None => false,
        };
        proof {
            assert(is_file == (json_text_field(item@, "type"@) == Some("file"@)));
        }
        if is_file {
            let f = RemoteFile {
                name: text_or_empty_of(item, "name"),
                md5: text_or_empty_of(item, "md5"),
                modified: moment(item, "modified"),
                size: match u64_field(item, "size") {
                    Some(s) => s,
                    None => 0,
                },
            };
            out.push(f);
            proof {
                assert(out@.map_values(|f: RemoteFile| remote_view(f)) =~= before.push(disk_item(item@)));
            }
        } else {
            proof {
                assert(out@.map_values(|f: RemoteFile| remote_view(f)) =~= before);
            }
        }
        i += 1;
    }
    proof {
        assert(iv.take(iv.len() as int) =~= iv);
    }
    let got = items.len() as u64;
    let next = if got == 0 || got >= total || offset >= total - got {
        None
    } else {
        Some(offset + got)
    };
    (out, next)
}

/// A file of a Google Drive listing: its id and the file.
pub open spec fn drive_item(item: Seq<char>) -> (Seq<char>, RemoteFileView) {
    (
        text_or_empty(item, "id"@),
        RemoteFileView {
            name: text_or_empty(item, "name"@),
            md5: text_or_empty(item, "md5Checksum"@),
            modified: moment_of(item, "modifiedTime"@),
            size: match parse_unsigned(text_or_empty(item, "size"@), u64::MAX as int) {
                Some(s) => s as nat,
                None => 0,
            },
        },
    )
}

/// One page of a Google Drive listing: every file with its id, and the
/// token of the next page, if any.
pub fn drive_list_page(reply: &str) -> (r: (Vec<(String, RemoteFile)>, Option<String>))
    ensures
        r.0@.map_values(|e: (String, RemoteFile)| (e.0@, remote_view(e.1))) == (match json_array_field(
            reply@,
            "files"@,
        ) {
            Some(v) => v,
            None => Seq::empty(),
        }).map_values(|item: Seq<char>| drive_item(item)),
        match r.1 {
            Some(t) => json_text_field(reply@, "nextPageToken"@) == Some(t@),
            None => json_text_field(reply@, "nextPageToken"@) is None,
        },
{
    let items = match array_field(reply, "files") {
        Some(v) => v,
        None => Vec::new(),
    };
    let ghost iv = items@.map_values(|s: String| s@);
    let mut out: Vec<(String, RemoteFile)> = Vec::new();
    let mut i: usize = 0;
    while i < items.len()
        invariant
            i <= items@.len(),
            iv == items@.map_values(|s: String| s@),
            out@.len() == i,
            forall|k: int| 0 <= k < i ==> (#[trigger] out@[k]).0@ == drive_item(iv[k]).0 && remote_view(out@[k].1)
                == drive_item(iv[k]).1,
        decreases items.len() - i,
    {
        let item = items[i].as_str();
        let size_text = text_or_empty_of(item, "size");
        let size = match parse_unsigned_chars(&chars_of(size_text.as_str()), u64::MAX) {
            Some(s) => s,
            None => 0,
        };
        let f = RemoteFile {
            name: text_or_empty_of(item, "name"),
            md5: text_or_empty_of(item, "md5Checksum"),
            modified: moment(item, "modifiedTime"),
            size,
        };
        out.push((text_or_empty_of(item, "id"), f));
        i += 1;
    }
    proof {
        assert(out@.map_values(|e: (String, RemoteFile)| (e.0@, remote_view(e.1))) =~= iv.map_values(
            |item: Seq<char>| drive_item(item),
        ));
    }
    (out, text_field(reply, "nextPageToken"))
}

/// The id of the first file a Google Drive search found, if any.
pub fn first_file_id(reply: &str) -> (r: Option<String>)
    ensures
        match json_array_field(reply@, "files"@) {
            Some(v) => if v.len() > 0 {
                match json_text_field(v[0], "id"@) {
                    Some(id) => r matches Some(x) && x@ == id,
                    None => r is None,
                }
            } else {
                r is None
            },
            None => r is None,
        },
{
    match array_field(reply, "files") {
        Some(v) => if v.len() > 0 {
            text_field(v[0].as_str(), "id")
        } else {
            None
        },
        None => None,
    }
}

/// The address of the signed-in Google account (empty when the reply has
/// none).
pub fn drive_account(reply: &str) -> (r: String)
    ensures
        r@ == (match json_value_field(reply@, "user"@) {
            Some(u) => text_or_empty(u, "emailAddress"@),
            None => Seq::empty(),
        }),
{
    match value_field(reply, "user") {
        Some(u) => text_or_empty_of(u.as_str(), "emailAddress"),
        None => String::new(),
    }
}

/// Who is signed in to Yandex Disk and how much room it has.
pub struct DiskInfo {
    pub login: String,
    pub total: u64,
    pub used: u64,
}

/// The disk information of a reply: the display name when the user has
/// that field (empty when it is not text), else the login; total and used
/// room, 0 when absent.
pub fn disk_info_reply(reply: &str) -> (r: DiskInfo)
    ensures
        r.login@ == (match json_value_field(reply@, "user"@) {
            Some(u) => if json_value_field(u, "display_name"@) is Some {
                text_or_empty(u, "display_name"@)
            } else {
                text_or_empty(u, "login"@)
            },
            None => Seq::empty(),
        }),
        r.total == (match json_u64_field(reply@, "total_space"@) {
            Some(t) => t,
            None => 0,
        }),
        r.used == (match json_u64_field(reply@, "used_space"@) {
            Some(t) => t,
            None => 0,
        }),
{
    let login = match value_field(reply, "user") {
        Some(u) => if value_field(u.as_str(), "display_name").is_some() {
            text_or_empty_of(u.as_str(), "display_name")
        } else {
            text_or_empty_of(u.as_str(), "login")
        },
        None => String::new(),
    };
    let total = match u64_field(reply, "total_space") {
        Some(t) => t,
        None => 0,
    };
    let used = match u64_field(reply, "used_space") {
        Some(t) => t,
        None => 0,
    };
    DiskInfo { login, total, used }
}

// --- public links of Yandex Disk ------------------------------------------------------------

/// The direct address in a reply about a public link (or an upload).
pub fn disk_href(reply: &str) -> (r: Option<String>)
    ensures
        match r {
            Some(h) => json_text_field(reply@, "href"@) == Some(h@),
            None => json_text_field(reply@, "href"@) is None,
        },
{
    text_field(reply, "href")
}

/// The name of a public file from its reply; without a reply, or a name in
/// it, "Запись с Яндекс.Диска".
pub fn disk_file_name(reply: Option<&str>) -> (r: String)
    ensures
        r@ == (match reply {
            Some(t) => match json_text_field(t@, "name"@) {
                Some(n) => n,
                None => "Запись с Яндекс.Диска"@,
            },
            None => "Запись с Яндекс.Диска"@,
        }),
{
    let found = match reply {
        Some(t) => text_field(t, "name"),
        None => None,
    };
    match found {
        Some(n) => n,
        None => string_of(&chars_of("Запись с Яндекс.Диска")),
    }
}

} // verus!
