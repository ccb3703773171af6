//! Getting a meeting by link: which kind of link it is, what a plain media
//! link is called, and what the downloader's error output says. The
//! requests themselves, and the downloader, run in the application.

use vstd::prelude::*;
use crate::text::{
    append, char_pos, chars_of, concat, contains, ends, ends_with, eq_chars, has, lines, lines_of,
    slice_vec, split_char, split_on, starts, starts_with, string_of, to_lower, trim, trim_chars,
    unicode_lower,
};

verus! {

/// Sent as User-Agent: some services answer nothing without one.
pub const USER_AGENT: &'static str = "SolFlow";

/// The content type of a response, from its header: in lower case, empty
/// when there is no such header.
pub fn content_type(header: Option<&str>) -> (r: String)
    ensures
        r@ == match header {
            Some(h) => unicode_lower(h@),
            None => Seq::empty(),
        },
{
    match header {
        Some(h) => string_of(&to_lower(&chars_of(h))),
        None => String::new(),
    }
}

/// Why a link cannot be fetched.
pub enum FetchError {
    /// Only http and https links are taken.
    NotHttp,
}

/// A link as it is fetched: trimmed, and only http or https.
pub open spec fn link_spec(url: Seq<char>) -> Option<Seq<char>> {
    let u = trim(url);
    if starts(u, "http://"@) || starts(u, "https://"@) {
        Some(u)
    } else {
        None
    }
}

/// The link to fetch, or why it is refused.
pub fn check_link(url: &str) -> (r: Result<String, FetchError>)
    ensures
        match link_spec(url@) {
            Some(u) => r matches Ok(v) && v@ == u,
            None => r matches Err(FetchError::NotHttp),
        },
{
    let u = trim_chars(&chars_of(url));
    if starts_with(&u, &chars_of("http://")) || starts_with(&u, &chars_of("https://")) {
        Ok(string_of(&u))
    } else {
        Err(FetchError::NotHttp)
    }
}

/// The host of a link, in lower case: what stands between the second and
/// third slash.
pub open spec fn host_spec(url: Seq<char>) -> Seq<char> {
    let parts = split_on(url, '/');
    if parts.len() > 2 {
        unicode_lower(parts[2])
    } else {
        unicode_lower(Seq::empty())
    }
}

/// A public link of Yandex Disk, which its open API turns into a file.
pub open spec fn yandex_disk_spec(url: Seq<char>) -> bool {
    has(host_spec(url), "disk.yandex"@) || has(host_spec(url), "yadi.sk"@)
}

/// Whether a link is a public link of Yandex Disk.
pub fn is_yandex_disk(url: &str) -> (r: bool)
    ensures
        r == yandex_disk_spec(url@),
{
    let parts = split_char(&chars_of(url), '/');
    let empty: Vec<char> = Vec::new();
    let host = if parts.len() > 2 { to_lower(&parts[2]) } else { to_lower(&empty) };
    proof {
        assert(empty@ =~= Seq::<char>::empty());
    }
    contains(&host, &chars_of("disk.yandex")) || contains(&host, &chars_of("yadi.sk"))
}

/// The path of a link: what comes before the first '?' or '#'.
pub open spec fn link_path(url: Seq<char>) -> Seq<char> {
    let q = char_pos(url, '?');
    let h = char_pos(url, '#');
    let end = match (q, h) {
        (Some(a), Some(b)) => if a < b { a } else { b },
        (Some(a), None) => a,
        (None, Some(b)) => b,
        (None, None) => url.len() as int,
    };
    url.take(end)
}

fn path_of(url: &[char]) -> (r: Vec<char>)
    ensures
        r@ == link_path(url@),
{
    let q = crate::text::find_char(url, '?');
    let h = crate::text::find_char(url, '#');
    let end = match (q, h) {
        (Some(a), Some(b)) => if a < b { a } else { b },
        (Some(a), None) => a,
        (None, Some(b)) => b,
        (None, None) => url.len(),
    };
    let r = slice_vec(url, 0, end);
    proof {
        assert(r@ =~= link_path(url@));
    }
    r
}

/// Extensions of sound and video files.
pub open spec fn media_extensions() -> Seq<Seq<char>> {
    seq![
        ".mp3"@, ".m4a"@, ".wav"@, ".aac"@, ".aiff"@, ".aif"@, ".caf"@, ".mp4"@, ".mov"@, ".m4v"@,
        ".mkv"@, ".webm"@, ".ogg"@, ".opus"@, ".flac"@, ".wma"@, ".avi"@,
    ]
}

/// A direct link to a sound or video file, by the extension of its path
/// (case does not matter).
pub open spec fn media_link(url: Seq<char>) -> bool {
    exists|k: int| 0 <= k < media_extensions().len() && ends(unicode_lower(link_path(url)), #[trigger] media_extensions()[k])
}

fn media_list() -> (r: Vec<Vec<char>>)
    ensures
        r@.map_values(|x: Vec<char>| x@) == media_extensions(),
{
    let r = vec![
        chars_of(".mp3"), chars_of(".m4a"), chars_of(".wav"), chars_of(".aac"), chars_of(".aiff"),
        chars_of(".aif"), chars_of(".caf"), chars_of(".mp4"), chars_of(".mov"), chars_of(".m4v"),
        chars_of(".mkv"), chars_of(".webm"), chars_of(".ogg"), chars_of(".opus"), chars_of(".flac"),
        chars_of(".wma"), chars_of(".avi"),
    ];
    assert(r@.map_values(|x: Vec<char>| x@) =~= media_extensions());
    r
}

/// Whether a link looks like a direct link to a sound or video file.
pub fn looks_like_media(url: &str) -> (r: bool)
    ensures
        r == media_link(url@),
{
    let path = to_lower(&path_of(&chars_of(url)));
    let exts = media_list();
    let ghost ev = exts@.map_values(|x: Vec<char>| x@);
    let mut i: usize = 0;
    while i < exts.len()
        invariant
            i <= exts@.len(),
            ev == exts@.map_values(|x: Vec<char>| x@),
            ev == media_extensions(),
            path@ == unicode_lower(link_path(url@)),
            forall|k: int| 0 <= k < i ==> !ends(path@, #[trigger] ev[k]),
        decreases exts.len() - i,
    {
        if ends_with(&path, &exts[i]) {
            proof {
                assert(ends(path@, ev[i as int]));
            }
            return true;
        }
        i += 1;
    }
    false
}

/// A content type of sound or video.
pub open spec fn media_type_spec(ct: Seq<char>) -> bool {
    starts(ct, "audio/"@) || starts(ct, "video/"@)
}

/// Whether a content type is sound or video.
pub fn is_media_type(ct: &str) -> (r: bool)
    ensures
        r == media_type_spec(ct@),
{
    let c = chars_of(ct);
    starts_with(&c, &chars_of("audio/")) || starts_with(&c, &chars_of("video/"))
}

/// The file name at the end of a link's path (after the last '/').
pub open spec fn link_name(url: Seq<char>) -> Seq<char> {
    let parts = split_on(link_path(url), '/');
    parts.last()
}

/// The file name at the end of a link's path.
pub fn name_from_link(url: &str) -> (r: String)
    ensures
        r@ == link_name(url@),
{
    let parts = split_char(&path_of(&chars_of(url)), '/');
    proof {
        crate::text::lemma_split_nonempty(link_path(url@), '/');
    }
    let last = &parts[parts.len() - 1];
    string_of(last)
}

/// The last line of the downloader's error output that says ERROR,
/// trimmed; a general message when there is none.
pub open spec fn error_line_from(ls: Seq<Seq<char>>) -> Option<Seq<char>>
    decreases ls.len(),
{
    if ls.len() == 0 {
        None
    } else if has(ls.last(), "ERROR"@) {
        Some(ls.last())
    } else {
        error_line_from(ls.drop_last())
    }
}

/// What the downloader's error output says went wrong.
pub open spec fn downloader_error_spec(stderr: Seq<char>) -> Seq<char> {
    match error_line_from(lines(stderr)) {
        Some(l) => trim(l),
        None => trim("ссылка не поддерживается"@),
    }
}

/// What the downloader's error output says went wrong.
pub fn downloader_error(stderr: &str) -> (r: String)
    ensures
        r@ == downloader_error_spec(stderr@),
{
    let ls = lines_of(&chars_of(stderr));
    let ghost lv = lines(stderr@);
    let mut i: usize = ls.len();
    proof {
        assert(lv.take(lv.len() as int) =~= lv);
    }
    while i > 0
        invariant
            i <= ls@.len(),
            ls@.len() == lv.len(),
            lv == lines(stderr@),
            forall|k: int| 0 <= k < ls@.len() ==> #[trigger] ls@[k]@ == lv[k],
            error_line_from(lv) == error_line_from(lv.take(i as int)),
        decreases i,
    {
        proof {
            assert(lv.take(i as int).drop_last() =~= lv.take(i - 1));
            assert(lv.take(i as int).last() == lv[i - 1]);
        }
        if contains(&ls[i - 1], &chars_of("ERROR")) {
            return string_of(&trim_chars(&ls[i - 1]));
        }
        i -= 1;
    }
    proof {
        assert(lv.take(0) =~= Seq::<Seq<char>>::empty());
    }
    string_of(&trim_chars(&chars_of("ссылка не поддерживается")))
}

/// What the window is told while the downloader runs: the bytes it said it
/// has, or what already lies on disk while it is silent; the total it said,
/// or the one asked for beforehand (0: unknown).
pub fn shown_progress(said_done: u64, said_total: u64, on_disk: u64, asked_total: u64) -> (r: (u64, u64))
    ensures
        r.0 == (if said_done > 0 {
            said_done
        } else {
            on_disk
        }),
        r.1 == (if said_total > 0 {
            said_total
        } else {
            asked_total
        }),
{
    let done = if said_done > 0 {
        said_done
    } else {
        on_disk
    };
    let total = if said_total > 0 {
        said_total
    } else {
        asked_total
    };
    (done, total)
}

} // verus!
