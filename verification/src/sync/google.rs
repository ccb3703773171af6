//! Google Drive: the pure parts of the client — query text for the Drive
//! search, the multipart body of an upload, and whether keys are present.

use vstd::prelude::*;
use crate::text::{append, chars_of, string_of};

verus! {

/// How long Google tokens live when a reply does not say, in seconds.
pub const TOKEN_LIFETIME_SECS: i64 = 3600;

/// How long a device code lives when a reply does not say, in seconds.
pub const CODE_LIFETIME_SECS: i64 = 1800;

/// Where the code is typed when a reply does not say.
pub const DEVICE_URL: &'static str = "https://www.google.com/device";


/// The application's keys in Google Cloud, as read from the build.
pub struct Credentials {
    pub client_id: String,
    pub client_secret: String,
}

/// Keys are present: without them signing in is impossible, and the window
/// says so in words instead of failing on the first request.
pub fn configured(c: &Credentials) -> (r: bool)
    ensures
        r == (c.client_id@.len() > 0 && c.client_secret@.len() > 0),
{
    let id = chars_of(c.client_id.as_str());
    let secret = chars_of(c.client_secret.as_str());
    id.len() > 0 && secret.len() > 0
}

/// The Google Drive provider.
pub struct Google;

/// Escaping inside a quoted Drive query value: `\` → `\\`, `'` → `\'`.
pub open spec fn query_escape(s: Seq<char>) -> Seq<char>
    decreases s.len(),
{
    if s.len() == 0 {
        s
    } else {
        let c = s.last();
        query_escape(s.drop_last()) + if c == '\\' {
            seq!['\\', '\\']
        } else if c == '\'' {
            seq!['\\', '\'']
        } else {
            seq![c]
        }
    }
}

/// Escaping inside a quoted Drive query value.
pub fn escape(s: &str) -> (r: String)
    ensures
        r@ == query_escape(s@),
{
    let v = chars_of(s);
    let mut out: Vec<char> = Vec::new();
    let mut i: usize = 0;
    while i < v.len()
        invariant
            i <= v.len(),
            out@ == query_escape(v@.take(i as int)),
        decreases v.len() - i,
    {
        let c = v[i];
        if c == '\\' {
            out.push('\\');
            out.push('\\');
        } else if c == '\'' {
            out.push('\\');
            out.push('\'');
        } else {
            out.push(c);
        }
        proof {
            assert(v@.take(i + 1).drop_last() =~= v@.take(i as int));
            assert(out@ =~= query_escape(v@.take(i + 1)));
        }
        i += 1;
    }
    proof {
        assert(v@.take(v@.len() as int) =~= v@);
    }
    string_of(&out)
}

/// The Drive search for a child of `parent` named `name` that is not in the
/// trash, optionally only folders.
pub open spec fn child_query(name: Seq<char>, parent: Seq<char>, folder: bool) -> Seq<char> {
    let base = "name = '"@ + query_escape(name) + "' and '"@ + query_escape(parent)
        + "' in parents and trashed = false"@;
    if folder {
        base + " and mimeType = 'application/vnd.google-apps.folder'"@
    } else {
        base
    }
}

/// The Drive search for a child of `parent` named `name`.
pub fn child_query_text(name: &str, parent: &str, folder: bool) -> (r: String)
    ensures
        r@ == child_query(name@, parent@, folder),
{
    let mut q = chars_of("name = '");
    append(&mut q, &chars_of(escape(name).as_str()));
    append(&mut q, &chars_of("' and '"));
    append(&mut q, &chars_of(escape(parent).as_str()));
    append(&mut q, &chars_of("' in parents and trashed = false"));
    if folder {
        append(&mut q, &chars_of(" and mimeType = 'application/vnd.google-apps.folder'"));
    }
    string_of(&q)
}

/// The boundary between the parts of an upload.
pub const BOUNDARY: &'static str = "solflow-multipart-boundary";

/// The UTF-8 bytes of a text.
pub open spec fn utf8(s: Seq<char>) -> Seq<u8> {
    vstd::utf8::encode_utf8(s)
}

/// The body of a multipart upload: the metadata part (JSON) and the data
/// part, framed by the boundary.
pub open spec fn multipart_body(meta: Seq<char>, data: Seq<u8>) -> Seq<u8> {
    utf8("--solflow-multipart-boundary\r\nContent-Type: application/json; charset=UTF-8\r\n\r\n"@ + meta
        + "\r\n--solflow-multipart-boundary\r\nContent-Type: application/octet-stream\r\n\r\n"@) + data
        + utf8("\r\n--solflow-multipart-boundary--"@)
}

/// Pushes all bytes of `b` onto `out`.
pub fn append_bytes(out: &mut Vec<u8>, b: &[u8])
    ensures
        final(out)@ == old(out)@ + b@,
{
    let mut i: usize = 0;
    while i < b.len()
        invariant
            i <= b.len(),
            out@ == old(out)@ + b@.take(i as int),
        decreases b.len() - i,
    {
        out.push(b[i]);
        assert(b@.take(i + 1) =~= b@.take(i as int).push(b@[i as int]));
        i += 1;
    }
    assert(b@.take(b@.len() as int) =~= b@);
}

/// The body of a multipart upload of `data` with metadata `meta`.
pub fn multipart(meta: &str, data: &[u8]) -> (r: Vec<u8>)
    ensures
        r@ == multipart_body(meta@, data@),
{
    let mut head = chars_of("--solflow-multipart-boundary\r\nContent-Type: application/json; charset=UTF-8\r\n\r\n");
    append(&mut head, &chars_of(meta));
    append(&mut head, &chars_of("\r\n--solflow-multipart-boundary\r\nContent-Type: application/octet-stream\r\n\r\n"));
    let head_s = string_of(&head);
    let mut body: Vec<u8> = Vec::new();
    append_bytes(&mut body, head_s.as_str().as_bytes());
    append_bytes(&mut body, data);
    let tail = "\r\n--solflow-multipart-boundary--";
    append_bytes(&mut body, tail.as_bytes());
    body
}

/// The `Authorization` header value for a Drive request.
pub fn auth(token: &str) -> (r: String)
    ensures
        r@ == "Bearer "@ + token@,
{
    let mut v = chars_of("Bearer ");
    append(&mut v, &chars_of(token));
    string_of(&v)
}

} // verus!
