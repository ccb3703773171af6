//! Sync through the person's own cloud folder. The layout in the cloud is
//! flat, so one listing shows everything:
//!
//! ```text
//! meetings/<id>.meta.json         meeting record
//! meetings/<id>.transcript.json   transcript
//! meetings/<id>.deleted           tombstone: the meeting was deleted
//! meetings/projects.json          projects
//! audio/<id>.wav                  sound, only when enabled
//! ```
//!
//! What changed is told by md5: for each file the state remembers how it
//! looked in the cloud and here after the last sync. Changed on one side —
//! copy; on both — merge. A deletion leaves a tombstone, or the other device
//! would bring the meeting back from its copy.

pub mod google;
pub mod merge;
pub mod provider;
pub mod reply;
pub mod yandex;

use vstd::prelude::*;
use crate::meetings::{Project, ProjectView, projects_view, same_text};
use crate::numbers::{decimal, decimal_i64, lemma_digits_of, parse_i64, parse_signed, all_digits, dec_value};
use crate::text::{append, chars_of, lead, lemma_lead_bound, lemma_lead_char, string_of};
use merge::{merge_projects, merge_projects_spec, same_projects};

verus! {

/// md5 of a file, as lower-case hex, is a function of its bytes.
pub uninterp spec fn md5_hex_of(bytes: Seq<u8>) -> Seq<char>;

/// `md5::compute` formatted with `{:x}`: the digest of the bytes as lower-case
/// hex. The digest itself is named, not restated.
#[verifier::external_body]
pub(crate) fn md5_hex(bytes: &[u8]) -> (r: String)
    ensures
        r@ == md5_hex_of(bytes@),
{
    format!("{:x}", md5::compute(bytes))
}

/// How a file looked at the last sync: its md5 in the cloud and here.
pub struct FileState {
    pub remote: String,
    pub local: String,
}

/// What to do with one file, judging by where it changed.
#[derive(PartialEq, Eq, Structural, Debug, Clone, Copy)]
pub enum Plan {
    Nothing,
    Upload,
    Download,
    Conflict,
    Forget,
}

/// An optional text as plain characters.
pub open spec fn opt_str(s: Option<&str>) -> Option<Seq<char>> {
    match s {
        Some(v) => Some(v@),
        None => None,
    }
}

/// What to do with a file given its md5 here, in the cloud, and as
/// remembered from the last sync: missing on both sides — forget it; on one
/// side — copy it over; on both — compare with what was seen last time
/// (never seen counts as changed on both sides).
pub open spec fn plan_spec(
    local: Option<Seq<char>>,
    remote: Option<Seq<char>>,
    seen: Option<(Seq<char>, Seq<char>)>,
) -> Plan {
    match (local, remote) {
        (None, None) => Plan::Forget,
        (Some(_), None) => Plan::Upload,
        (None, Some(_)) => Plan::Download,
        (Some(l), Some(r)) => {
            let local_changed = match seen {
                Some(s) => s.1 != l,
                None => true,
            };
            let remote_changed = match seen {
                Some(s) => s.0 != r,
                None => true,
            };
            if !local_changed && !remote_changed {
                Plan::Nothing
            } else if local_changed && !remote_changed {
                Plan::Upload
            } else if !local_changed && remote_changed {
                Plan::Download
            } else {
                Plan::Conflict
            }
        },
    }
}

/// A remembered file state as (remote md5, local md5).
pub open spec fn seen_view(seen: Option<&FileState>) -> Option<(Seq<char>, Seq<char>)> {
    match seen {
        Some(s) => Some((s.remote@, s.local@)),
        None => None,
    }
}

fn same_str(a: &str, b: &String) -> (r: bool)
    ensures
        r == (a@ == b@),
{
    let x = chars_of(a);
    let y = chars_of(b.as_str());
    crate::text::eq_chars(&x, &y)
}

/// What to do with one file, see [`plan_spec`].
pub fn plan(local: Option<&str>, remote: Option<&str>, seen: Option<&FileState>) -> (p: Plan)
    ensures
        p == plan_spec(opt_str(local), opt_str(remote), seen_view(seen)),
{
    match (local, remote) {
        (None, None) => Plan::Forget,
        (Some(_), None) => Plan::Upload,
        (None, Some(_)) => Plan::Download,
        (Some(l), Some(r)) => {
            let local_changed = match seen {
                Some(s) => !same_str(l, &s.local),
                None => true,
            };
            let remote_changed = match seen {
                Some(s) => !same_str(r, &s.remote),
                None => true,
            };
            if !local_changed && !remote_changed {
                Plan::Nothing
            } else if local_changed && !remote_changed {
                Plan::Upload
            } else if !local_changed && remote_changed {
                Plan::Download
            } else {
                Plan::Conflict
            }
        },
    }
}

// --- file names ---------------------------------------------------------------------

/// Not a dot.
pub open spec fn not_dot() -> spec_fn(char) -> bool {
    |c: char| c != '.'
}

/// The meeting id a cloud file name starts with: the text before the first
/// dot, read as an `i64`.
pub open spec fn id_of_name(name: Seq<char>) -> Option<int> {
    parse_signed(name.take(lead(name, not_dot()) as int), i64::MIN as int, i64::MAX as int)
}

/// The meeting id a cloud file name starts with, if it starts with one.
pub fn parse_id(name: &str) -> (r: Option<i64>)
    ensures
        match r {
            Some(v) => id_of_name(name@) == Some(v as int),
            None => id_of_name(name@) is None,
        },
{
    let s = chars_of(name);
    let mut k: usize = 0;
    while k < s.len() && s[k] != '.'
        invariant
            k <= s.len(),
            forall|i: int| 0 <= i < k ==> #[trigger] not_dot()(s@[i]),
        decreases s.len() - k,
    {
        k += 1;
    }
    proof {
        lemma_lead_char(s@, not_dot(), k as int);
    }
    let stem = crate::text::slice_vec(&s, 0, k);
    proof {
        assert(stem@ =~= s@.take(k as int));
    }
    parse_i64(&stem)
}

/// `<id><suffix>`: the name of a meeting's file in the cloud.
pub fn meeting_file_name(id: i64, suffix: &str) -> (r: String)
    ensures
        r@ == decimal(id as int) + suffix@,
{
    let mut v = decimal_i64(id);
    let tail = chars_of(suffix);
    append(&mut v, &tail);
    string_of(&v)
}

/// The names the layout gives a meeting's files lead back to its id: for any
/// id and any suffix that starts with a dot, [`parse_id`] reads the id again.
pub proof fn law_name_gives_id(id: i64, suffix: Seq<char>)
    requires
        suffix.len() > 0,
        suffix[0] == '.',
    ensures
        id_of_name(decimal(id as int) + suffix) == Some(id as int),
{
    let d = decimal(id as int);
    let name = d + suffix;
    let n: nat = if id < 0 { (-(id as int)) as nat } else { id as nat };
    lemma_digits_of(n);
    let digits = crate::numbers::digits_of(n);
    assert forall|i: int| 0 <= i < d.len() implies #[trigger] not_dot()(name[i]) by {
        assert(name[i] == d[i]);
        if id < 0 {
            if i > 0 {
                assert(d[i] == digits[i - 1]);
                assert(crate::text::ascii_digit(digits[i - 1]));
            }
        } else {
            assert(crate::text::ascii_digit(digits[i]));
        }
    }
    assert(name[d.len() as int] == '.');
    lemma_lead_char(name, not_dot(), d.len() as int);
    assert(name.take(d.len() as int) =~= d);
    if id < 0 {
        assert(d.drop_first() =~= digits);
        assert(crate::text::ascii_digit(digits[0]));
    } else {
        assert(crate::text::ascii_digit(digits[0]));
    }
}

// --- what to do with each meeting ----------------------------------------------------

/// What a sync pass does with one meeting.
#[derive(PartialEq, Eq, Structural, Debug, Clone, Copy)]
pub enum MeetingAction {
    /// Being worked on here right now: leave it for the next pass.
    Skip,
    /// Deleted on another device: delete it here too.
    ApplyTombstone,
    /// Deleted here: tell the cloud.
    SendTombstone,
    /// Sync its record and transcript.
    Sync,
}

/// The action for one meeting: a meeting busy here waits; a tombstone in the
/// cloud wins over everything; a deletion made here goes out next; otherwise
/// the files are synced.
pub fn meeting_action(busy: bool, tombstone_in_cloud: bool, deleted_here: bool) -> (a: MeetingAction)
    ensures
        a == (if busy {
            MeetingAction::Skip
        } else if tombstone_in_cloud {
            MeetingAction::ApplyTombstone
        } else if deleted_here {
            MeetingAction::SendTombstone
        } else {
            MeetingAction::Sync
        }),
{
    if busy {
        MeetingAction::Skip
    } else if tombstone_in_cloud {
        MeetingAction::ApplyTombstone
    } else if deleted_here {
        MeetingAction::SendTombstone
    } else {
        MeetingAction::Sync
    }
}

/// A meeting record travels only when it is readable and not in the middle
/// of transcription: the other device would show "transcribing" with no
/// progress and no end.
pub fn record_may_travel(state: Option<&str>) -> (r: bool)
    ensures
        r == match state {
            Some(s) => s@ != crate::meetings::STATE_TRANSCRIBING@,
            None => false,
        },
{
    match state {
        Some(s) => !same_str(s, &crate::meetings::STATE_TRANSCRIBING.to_string()),
        None => false,
    }
}

/// Two different transcripts of one recording: the newer one wins.
pub fn transcript_conflict_takes_remote(remote_modified: i64, local_modified: i64) -> (r: bool)
    ensures
        r == (remote_modified > local_modified),
{
    remote_modified > local_modified
}

/// What the sound file of a meeting needs.
#[derive(PartialEq, Eq, Structural, Debug, Clone, Copy)]
pub enum AudioAction {
    Nothing,
    Upload,
    Download,
}

/// Sound goes up when only this side has it and the cloud already has the
/// meeting's record; it comes down when only the cloud has it and the record
/// is here. Busy meetings and meetings deleted here are left alone.
pub fn audio_action(
    busy: bool,
    deleted_here: bool,
    has_local: bool,
    has_remote: bool,
    remote_has_record: bool,
    local_has_record: bool,
) -> (a: AudioAction)
    ensures
        a == (if busy || deleted_here {
            AudioAction::Nothing
        } else if has_local && !has_remote && remote_has_record {
            AudioAction::Upload
        } else if !has_local && has_remote && local_has_record {
            AudioAction::Download
        } else {
            AudioAction::Nothing
        }),
{
    if busy || deleted_here {
        AudioAction::Nothing
    } else if has_local && !has_remote && remote_has_record {
        AudioAction::Upload
    } else if !has_local && has_remote && local_has_record {
        AudioAction::Download
    } else {
        AudioAction::Nothing
    }
}

/// The state remembered for a file just uploaded: both sides hold these
/// bytes.
pub fn uploaded_state(bytes: &[u8]) -> (s: FileState)
    ensures
        s.remote@ == md5_hex_of(bytes@),
        s.local@ == md5_hex_of(bytes@),
{
    let md5 = md5_hex(bytes);
    FileState { remote: md5.clone(), local: md5 }
}

/// The state remembered for a file just downloaded: the cloud's md5 as the
/// listing gave it (or of the bytes, if the listing had none), and the md5
/// of the bytes written here.
pub fn downloaded_state(bytes: &[u8], listed_md5: Option<&str>) -> (s: FileState)
    ensures
        s.local@ == md5_hex_of(bytes@),
        s.remote@ == match listed_md5 {
            Some(m) => m@,
            None => md5_hex_of(bytes@),
        },
{
    let md5 = md5_hex(bytes);
    let remote = match listed_md5 {
        Some(m) => string_of(&chars_of(m)),
        None => md5.clone(),
    };
    FileState { remote, local: md5 }
}

// --- projects -------------------------------------------------------------------------

/// Whether the projects need a sync pass: either side's md5 differs from the
/// remembered one (nothing remembered: the local side counts as changed, the
/// remote one only if the cloud has the file).
pub open spec fn projects_changed_spec(
    seen: Option<(Seq<char>, Seq<char>)>,
    local_md5: Seq<char>,
    remote_md5: Option<Seq<char>>,
) -> bool {
    let local_changed = match seen {
        Some(s) => s.1 != local_md5,
        None => true,
    };
    let remote_changed = match seen {
        Some(s) => Some(s.0) != remote_md5,
        None => remote_md5 is Some,
    };
    local_changed || remote_changed
}

/// Whether the projects need a sync pass, see [`projects_changed_spec`].
pub fn projects_changed(seen: Option<&FileState>, local_md5: &str, remote_md5: Option<&str>) -> (r: bool)
    ensures
        r == projects_changed_spec(seen_view(seen), local_md5@, opt_str(remote_md5)),
{
    let local_changed = match seen {
        Some(s) => !same_str(local_md5, &s.local),
        None => true,
    };
    let remote_changed = match seen {
        Some(s) => match remote_md5 {
            Some(r) => !same_str(r, &s.remote),
            None => true,
        },
        None => remote_md5.is_some(),
    };
    local_changed || remote_changed
}

/// The result of a projects pass.
pub struct ProjectsOutcome {
    /// The list both sides hold afterwards; it is also the next snapshot.
    pub merged: Vec<Project>,
    /// The local list must be replaced with `merged`.
    pub replace_local: bool,
    /// `merged` must be uploaded.
    pub upload: bool,
}

/// A projects pass once the remote list is known (empty when the cloud has no
/// file): with no remote file and no snapshot the local list stands as is,
/// otherwise the three-way merge decides. The local list is replaced when the
/// merge differs from it; the merge is uploaded when it differs from the
/// remote list or the cloud had no file.
pub fn projects_outcome(
    local: &[Project],
    remote: &[Project],
    remote_exists: bool,
    snapshot: &[Project],
) -> (o: ProjectsOutcome)
    ensures
        projects_view(o.merged@) == (if !remote_exists && snapshot@.len() == 0 {
            projects_view(local@)
        } else {
            merge_projects_spec(projects_view(local@), projects_view(remote@), projects_view(snapshot@))
        }),
        o.replace_local == (projects_view(o.merged@) != projects_view(local@)),
        o.upload == (projects_view(o.merged@) != projects_view(remote@) || !remote_exists),
{
    let merged = if !remote_exists && snapshot.len() == 0 {
        copy_projects(local)
    } else {
        merge_projects(local, remote, snapshot)
    };
    let replace_local = !same_projects(&merged, local);
    let upload = !same_projects(&merged, remote) || !remote_exists;
    ProjectsOutcome { merged, replace_local, upload }
}

/// A copy of a project list.
pub fn copy_projects(list: &[Project]) -> (r: Vec<Project>)
    ensures
        projects_view(r@) == projects_view(list@),
{
    let mut r: Vec<Project> = Vec::new();
    let mut i: usize = 0;
    while i < list.len()
        invariant
            i <= list.len(),
            r@.len() == i,
            forall|k: int| 0 <= k < i ==> (#[trigger] r@[k])@ == list@[k]@,
        decreases list.len() - i,
    {
        let p = list[i].copy();
        r.push(p);
        i += 1;
    }
    proof {
        assert(projects_view(r@) =~= projects_view(list@));
    }
    r
}

// --- which meetings a pass looks at -----------------------------------------------------

/// Strictly increasing: sorted without repeats.
pub open spec fn increasing(v: Seq<i64>) -> bool {
    forall|i: int, j: int| 0 <= i < j < v.len() ==> v[i] < v[j]
}

/// Inserts `x` into a strictly increasing list, keeping it so.
fn insert_sorted(v: &mut Vec<i64>, x: i64)
    requires
        increasing(old(v)@),
    ensures
        increasing(final(v)@),
        forall|y: i64| final(v)@.contains(y) <==> (old(v)@.contains(y) || y == x),
{
    let mut i: usize = 0;
    while i < v.len() && v[i] < x
        invariant
            i <= v.len(),
            v@ == old(v)@,
            forall|k: int| 0 <= k < i ==> v@[k] < x,
        decreases v.len() - i,
    {
        i += 1;
    }
    if i < v.len() && v[i] == x {
        proof {
            assert(v@[i as int] == x);
        }
        return;
    }
    let ghost before = v@;
    v.insert(i, x);
    proof {
        assert(v@ == before.insert(i as int, x));
        assert forall|k: int| 0 <= k < v@.len() implies #[trigger] v@[k] == (if k < i {
            before[k]
        } else if k == i {
            x
        } else {
            before[k - 1]
        }) by {}
        assert forall|k: int| i <= k < before.len() implies before[k] > x by {
            if k > i as int {
                assert(before[i as int] < before[k]);
            }
        }
        assert forall|a: int, b: int| 0 <= a < b < v@.len() implies v@[a] < v@[b] by {
            if b < i as int {
                assert(before[a] < before[b]);
            } else if b == i as int {
            } else if a < i as int {
                assert(before[a] < x);
            } else if a == i as int {
            } else {
                assert(before[a - 1] < before[b - 1]);
            }
        }
        assert forall|y: i64| #[trigger] v@.contains(y) <==> (before.contains(y) || y == x) by {
            if v@.contains(y) {
                let k = choose|k: int| 0 <= k < v@.len() && #[trigger] v@[k] == y;
                if k < i as int {
                    assert(before[k] == y);
                } else if k > i as int {
                    assert(before[k - 1] == y);
                }
            }
            if before.contains(y) {
                let k = choose|k: int| 0 <= k < before.len() && #[trigger] before[k] == y;
                if k < i as int {
                    assert(v@[k] == y);
                } else {
                    assert(v@[k + 1] == y);
                }
            }
            if y == x {
                assert(v@[i as int] == y);
            }
        }
    }
}

/// The meetings a sync pass goes through: those here, those whose files
/// are in the cloud (by the id their names start with), and those deleted
/// here — each once, in increasing order.
pub fn meeting_ids(local: &[i64], cloud_names: &[String], pending_deletes: &[i64]) -> (ids: Vec<i64>)
    ensures
        increasing(ids@),
        forall|x: i64|
            ids@.contains(x) <==> (local@.contains(x) || pending_deletes@.contains(x) || exists|k: int|
                0 <= k < cloud_names@.len() && id_of_name(#[trigger] cloud_names@[k]@) == Some(
                    x as int,
                )),
{
    let mut ids: Vec<i64> = Vec::new();
    let mut i: usize = 0;
    while i < local.len()
        invariant
            i <= local.len(),
            increasing(ids@),
            forall|x: i64| ids@.contains(x) <==> local@.take(i as int).contains(x),
        decreases local.len() - i,
    {
        insert_sorted(&mut ids, local[i]);
        proof {
            assert forall|x: i64| ids@.contains(x) <==> local@.take(i + 1).contains(x) by {
                if local@.take(i + 1).contains(x) {
                    let k = choose|k: int| 0 <= k < i + 1 && #[trigger] local@.take(i + 1)[k] == x;
                    if k < i {
                        assert(local@.take(i as int)[k] == x);
                    }
                }
                if local@.take(i as int).contains(x) {
                    let k = choose|k: int| 0 <= k < i && #[trigger] local@.take(i as int)[k] == x;
                    assert(local@.take(i + 1)[k] == x);
                }
                if x == local@[i as int] {
                    assert(local@.take(i + 1)[i as int] == x);
                }
            }
        }
        i += 1;
    }
    proof {
        assert(local@.take(local.len() as int) =~= local@);
    }
    let mut j: usize = 0;
    while j < pending_deletes.len()
        invariant
            j <= pending_deletes.len(),
            increasing(ids@),
            forall|x: i64|
                ids@.contains(x) <==> (local@.contains(x) || pending_deletes@.take(j as int).contains(x)),
        decreases pending_deletes.len() - j,
    {
        insert_sorted(&mut ids, pending_deletes[j]);
        proof {
            assert forall|x: i64| ids@.contains(x) <==> (local@.contains(x) || pending_deletes@.take(j + 1).contains(x)) by {
                if pending_deletes@.take(j + 1).contains(x) {
                    let k = choose|k: int| 0 <= k < j + 1 && #[trigger] pending_deletes@.take(j + 1)[k] == x;
                    if k < j {
                        assert(pending_deletes@.take(j as int)[k] == x);
                    }
                }
                if pending_deletes@.take(j as int).contains(x) {
                    let k = choose|k: int| 0 <= k < j && #[trigger] pending_deletes@.take(j as int)[k] == x;
                    assert(pending_deletes@.take(j + 1)[k] == x);
                }
                if x == pending_deletes@[j as int] {
                    assert(pending_deletes@.take(j + 1)[j as int] == x);
                }
            }
        }
        j += 1;
    }
    proof {
        assert(pending_deletes@.take(pending_deletes.len() as int) =~= pending_deletes@);
    }
    let mut n: usize = 0;
    while n < cloud_names.len()
        invariant
            n <= cloud_names.len(),
            increasing(ids@),
            forall|x: i64|
                ids@.contains(x) <==> (local@.contains(x) || pending_deletes@.contains(x) || exists|k: int|
                    0 <= k < n && id_of_name(#[trigger] cloud_names@[k]@) == Some(x as int)),
        decreases cloud_names.len() - n,
    {
        let parsed = parse_id(cloud_names[n].as_str());
        let ghost before = ids@;
        match parsed {
            Some(x) => {
                insert_sorted(&mut ids, x);
            },
            None => {},
        }
        proof {
            assert forall|y: i64|
                ids@.contains(y) <==> (local@.contains(y) || pending_deletes@.contains(y) || exists|k: int|
                    0 <= k < n + 1 && id_of_name(#[trigger] cloud_names@[k]@) == Some(y as int)) by {
                if exists|k: int| 0 <= k < n + 1 && id_of_name(#[trigger] cloud_names@[k]@) == Some(y as int) {
                    let k = choose|k: int| 0 <= k < n + 1 && id_of_name(#[trigger] cloud_names@[k]@) == Some(y as int);
                    if k == n as int {
                        assert(parsed == Some(y));
                    }
                }
                if parsed == Some(y) {
                    assert(id_of_name(cloud_names@[n as int]@) == Some(y as int));
                }
            }
        }
        n += 1;
    }
    ids
}

// --- what the window shows ---------------------------------------------------------------

/// What the settings window shows about sync.
pub struct Status {
    /// Which clouds this build has keys for.
    pub configured_yandex: bool,
    pub configured_google: bool,
    /// The cloud in question: the one being signed in to, else the
    /// connected one; its key and its name.
    pub provider: String,
    pub provider_title: String,
    pub connected: bool,
    pub login: String,
    pub running: bool,
    pub last_sync: i64,
    pub message: Option<String>,
    pub progress: Option<String>,
    /// The code being entered, while signing in.
    pub code: Option<provider::DeviceCode>,
    pub sync_audio: bool,
    pub sync_auto_summary: bool,
    pub sync_interval: String,
}

/// The cloud of the settings; empty with a token means Yandex (settings
/// from before Google Drive).
pub open spec fn provider_of_spec(sync_provider: Seq<char>) -> provider::ProviderId {
    if sync_provider.len() == 0 {
        provider::ProviderId::Yandex
    } else if sync_provider == "google"@ {
        provider::ProviderId::Google
    } else {
        provider::ProviderId::Yandex
    }
}

/// The cloud the settings name.
pub fn provider_of(s: &crate::settings::Settings) -> (p: provider::ProviderId)
    ensures
        p == provider_of_spec(s.sync_provider@),
{
    if s.sync_provider.as_str().is_empty() {
        provider::ProviderId::Yandex
    } else {
        provider::by_id(s.sync_provider.as_str())
    }
}

/// The status shown in the window, from the settings, the sign-in going on
/// (its cloud and code), and the sync runtime's state.
pub fn status_of(
    s: &crate::settings::Settings,
    configured_yandex: bool,
    configured_google: bool,
    flow: Option<(provider::ProviderId, provider::DeviceCode)>,
    running: bool,
    last_sync: i64,
    message: Option<String>,
    progress: Option<String>,
) -> (r: Status)
    ensures
        r.provider@ == provider::provider_key(
            match flow {
                Some(f) => f.0,
                None => provider_of_spec(s.sync_provider@),
            },
        ),
        r.provider_title@ == provider::provider_title(
            match flow {
                Some(f) => f.0,
                None => provider_of_spec(s.sync_provider@),
            },
        ),
        r.connected == s.sync_token is Some,
        r.login@ == s.sync_login@,
        r.configured_yandex == configured_yandex,
        r.configured_google == configured_google,
        r.running == running,
        r.last_sync == last_sync,
        r.message == message,
        r.progress == progress,
        r.code == (match flow {
            Some(f) => Some(f.1),
            None => None,
        }),
        r.sync_audio == s.sync_audio,
        r.sync_auto_summary == s.sync_auto_summary,
        r.sync_interval@ == s.sync_interval@,
{
    let (current, code) = match flow {
        Some((p, c)) => (p, Some(c)),
        None => (provider_of(s), None),
    };
    Status {
        configured_yandex,
        configured_google,
        provider: string_of(&chars_of(current.id())),
        provider_title: string_of(&chars_of(current.title())),
        connected: s.sync_token.is_some(),
        login: s.sync_login.clone(),
        running,
        last_sync,
        message,
        progress,
        code,
        sync_audio: s.sync_audio,
        sync_auto_summary: s.sync_auto_summary,
        sync_interval: s.sync_interval.clone(),
    }
}

// --- when to sync, and signing in -----------------------------------------------------------

/// Seconds a local change waits before it is sent: more changes may follow.
pub const DEBOUNCE_SECS: u64 = 20;

/// Seconds after the start before the first sync.
pub const FIRST_DELAY_SECS: u64 = 15;

/// Whether the watch syncs now: a local change waited out its debounce, or
/// the interval of the settings (`None` — only by hand) passed since the last
/// run (or there was none). `dirty_secs` is how long ago the oldest unsent
/// change was made, `since_last` how long ago the last run was.
pub fn sync_due(dirty_secs: Option<u64>, since_last: Option<u64>, period: Option<u64>) -> (r: bool)
    ensures
        r == ((dirty_secs matches Some(d) && d >= DEBOUNCE_SECS) || (period matches Some(p) && match since_last {
            Some(t) => t >= p,
            None => true,
        })),
{
    let dirty = match dirty_secs {
        Some(d) => d >= DEBOUNCE_SECS,
        None => false,
    };
    let stale = match period {
        Some(p) => match since_last {
            Some(t) => t >= p,
            None => true,
        },
        None => false,
    };
    dirty || stale
}

/// Whether a sign-in already under way is shown again instead of asking
/// for a new code: same cloud, and its code still good at `now`.
pub fn reuse_code(same_provider: bool, expires_at: i64, now: i64) -> (r: bool)
    ensures
        r == (same_provider && expires_at > now),
{
    same_provider && expires_at > now
}

/// What the wait for a sign-in does after each pause.
#[derive(Clone, Copy, Debug, PartialEq, Eq)]
pub enum SignInStep {
    /// The person gave up: stop without a message.
    Stop,
    /// The code went stale: stop with a message.
    Expired,
    /// Ask the cloud whether the code was entered.
    Poll,
}

/// What the wait for a sign-in does after a pause at `now`.
pub fn sign_in_step(cancelled: bool, now: i64, expires_at: i64) -> (r: SignInStep)
    ensures
        r == (if cancelled {
            SignInStep::Stop
        } else if now > expires_at {
            SignInStep::Expired
        } else {
            SignInStep::Poll
        }),
{
    if cancelled {
        SignInStep::Stop
    } else if now > expires_at {
        SignInStep::Expired
    } else {
        SignInStep::Poll
    }
}

/// The name of this device as the cloud shows it, from the host name (when
/// one was found and is not blank) without a final ".local".
pub open spec fn device_label_spec(host: Option<Seq<char>>) -> Seq<char> {
    let h = match host {
        Some(h) => if h.len() > 0 { h } else { "компьютер"@ },
        None => "компьютер"@,
    };
    "Sol Flow · "@ + strip_local(h)
}

/// A host name without trailing ".local" (all of them, as `trim_end_matches`).
pub open spec fn strip_local(h: Seq<char>) -> Seq<char>
    decreases h.len(),
{
    if h.len() >= 6 && h.subrange(h.len() - 6, h.len() as int) == ".local"@ {
        strip_local(h.subrange(0, h.len() - 6))
    } else {
        h
    }
}

/// The name of this device as the cloud shows it.
pub fn device_label(host: Option<&str>) -> (r: String)
    ensures
        r@ == device_label_spec(match host {
            Some(h) => Some(h@),
            None => None,
        }),
{
    let mut h: Vec<char> = match host {
        Some(x) => if x.is_empty() { chars_of("компьютер") } else { chars_of(x) },
        None => chars_of("компьютер"),
    };
    let local = chars_of(".local");
    proof {
        reveal_strlit(".local");
        if host is Some && host.unwrap()@.len() == 0 {
            assert(host.unwrap()@ =~= Seq::<char>::empty());
        }
    }
    let ghost h0 = h@;
    while h.len() >= 6 && crate::text::ends_with(&h, &local)
        invariant
            strip_local(h0) == strip_local(h@),
            local@ == ".local"@,
        decreases h.len(),
    {
        proof {
            reveal_strlit(".local");
            assert(h@.skip(h@.len() - 6) =~= h@.subrange(h@.len() - 6, h@.len() as int));
            assert(h@.subrange(h@.len() - 6, h@.len() as int) =~= ".local"@);
        }
        let n = h.len() - 6;
        let ghost before = h@;
        h.truncate(n);
        proof {
            assert(h@ =~= before.subrange(0, before.len() - 6));
        }
    }
    proof {
        reveal_strlit(".local");
        if h@.len() >= 6 {
            assert(h@.skip(h@.len() - 6) =~= h@.subrange(h@.len() - 6, h@.len() as int));
            assert(!crate::text::ends(h@, ".local"@));
            assert(h@.subrange(h@.len() - 6, h@.len() as int) != ".local"@);
        }
    }
    let mut out = chars_of("Sol Flow · ");
    append(&mut out, &h);
    string_of(&out)
}

/// Whether a meeting that arrived from another device is summarised here:
/// when the setting asks for it, the model is already downloaded (gigabytes
/// are not fetched unasked), and the meeting is transcribed, has a
/// transcript and no summary yet.
pub fn needs_auto_summary(auto_summary: bool, model_ready: bool, state: &str, summary: &str, has_transcript: bool) -> (r: bool)
    ensures
        r == (auto_summary && model_ready && state@ == crate::meetings::STATE_DONE@ && summary@.len() == 0
            && has_transcript),
{
    auto_summary && model_ready && crate::text::eq_chars(&chars_of(state), &chars_of(crate::meetings::STATE_DONE))
        && summary.is_empty() && has_transcript
}

// --- the errors of a run ------------------------------------------------------------------

/// What a run does after one of its steps (a meeting, the projects, the
/// sound): it stops at once when the cloud wants a new sign-in (the error
/// names status 401); otherwise it goes on and keeps the first error to
/// report at the end. `first` is what it kept so far.
pub open spec fn after_step_spec(first: Option<Seq<char>>, error: Option<Seq<char>>) -> (Option<Seq<char>>, bool) {
    match error {
        None => (first, false),
        Some(e) => if crate::text::has(e, "(401)"@) {
            (first, true)
        } else {
            (
                match first {
                    Some(f) => Some(f),
                    None => Some(e),
                },
                false,
            )
        },
    }
}

/// After one step of a run: the error kept for the end, and whether the run
/// stops now.
pub fn after_step(first: Option<String>, error: Option<String>) -> (r: (Option<String>, bool))
    ensures
        (crate::meetings::opt_view(r.0), r.1) == after_step_spec(
            crate::meetings::opt_view(first),
            crate::meetings::opt_view(error),
        ),
{
    match error {
        None => (first, false),
        Some(e) => if provider::is_unauthorized(e.as_str()) {
            (first, true)
        } else {
            match first {
                Some(f) => (Some(f), false),
                None => (Some(e), false),
            }
        },
    }
}

/// When the last sync happened: a run without errors moves it to now, a run
/// with one leaves it where it was.
pub fn last_sync_after(first: &Option<String>, last_sync: i64, now: i64) -> (r: i64)
    ensures
        r == (if first is None {
            now
        } else {
            last_sync
        }),
{
    if first.is_none() {
        now
    } else {
        last_sync
    }
}

} // verus!
