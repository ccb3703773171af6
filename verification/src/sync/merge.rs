//! Merging when the same data was changed on two devices before they could
//! sync: pure functions over the two copies (and, for projects, the state
//! after the previous sync).

use vstd::prelude::*;
use crate::meetings::{
    copy_names, copy_opt, opt_view, projects_view, same_text, Meta, MetaView, Project,
    ProjectView, STATE_DONE,
};
use crate::text::{chars_of, eq_chars, trim, trim_chars};

verus! {

// --- meeting records ---------------------------------------------------------------

/// Whether the bits of an `f32` hold a NaN: all exponent bits set and a
/// mantissa that is not zero.
pub open spec fn f32_is_nan(bits: u32) -> bool {
    bits % 0x8000_0000 > 0x7F80_0000
}

/// The place of an `f32` in the order of numbers, from its bits: the sign
/// bit and the magnitude (both zeros at 0). For numbers and infinities this
/// order is the order of the values.
pub open spec fn f32_key(bits: u32) -> int {
    if bits >= 0x8000_0000 {
        -((bits % 0x8000_0000) as int)
    } else {
        bits as int
    }
}

/// `<` on two `f32` given by their bits: false when either is NaN, and
/// false between the two zeros.
pub open spec fn f32_less(a: u32, b: u32) -> bool {
    !f32_is_nan(a) && !f32_is_nan(b) && f32_key(a) < f32_key(b)
}

/// `<` on two `f32` given by their bits.
pub fn f32_bits_less(a: u32, b: u32) -> (r: bool)
    ensures
        r == f32_less(a, b),
{
    let ma = a % 0x8000_0000;
    let mb = b % 0x8000_0000;
    if ma > 0x7F80_0000 || mb > 0x7F80_0000 {
        return false;
    }
    let na = a >= 0x8000_0000;
    let nb = b >= 0x8000_0000;
    if na && nb {
        mb < ma
    } else if na {
        !(ma == 0 && mb == 0)
    } else if nb {
        false
    } else {
        ma < mb
    }
}

/// The merge of two copies of a meeting record: the one saved later wins
/// (the remote one on a tie), but an empty field of the winner does not wipe
/// a filled one of the loser; a finished transcript beats any state short of
/// it; the longer duration stays (compared as `f32`, as `<` does: a NaN or
/// a zero of the other sign does not replace the winner's). The project is taken from the winner as it
/// is, even when empty: leaving a project is a deliberate act.
pub open spec fn merge_meta_spec(local: MetaView, remote: MetaView) -> MetaView {
    let (newer, older) = if remote.updated >= local.updated { (remote, local) } else { (local, remote) };
    let done = newer.state != "done"@ && older.state == "done"@;
    MetaView {
        title: if trim(newer.title).len() == 0 { older.title } else { newer.title },
        at: newer.at,
        seconds_bits: if f32_less(newer.seconds_bits, older.seconds_bits) {
            older.seconds_bits
        } else {
            newer.seconds_bits
        },
        state: if done { "done"@ } else { newer.state },
        imported: newer.imported,
        project: newer.project,
        speakers: if newer.speakers == 0 { older.speakers } else { newer.speakers },
        names: if newer.names.len() == 0 { older.names } else { newer.names },
        summary: if newer.summary.len() == 0 { older.summary } else { newer.summary },
        error: if done { None } else { newer.error },
        updated: if newer.updated >= older.updated { newer.updated } else { older.updated },
    }
}

/// Merges two copies of a meeting record, see [`merge_meta_spec`].
pub fn merge_meta(local: &Meta, remote: &Meta) -> (m: Meta)
    ensures
        m@ == merge_meta_spec(local@, remote@),
{
    let (newer, older) = if remote.updated >= local.updated { (remote, local) } else { (local, remote) };
    let done_text = chars_of(STATE_DONE);
    proof {
        reveal_strlit("done");
    }
    let done = !eq_chars(&chars_of(newer.state.as_str()), &done_text) && eq_chars(
        &chars_of(older.state.as_str()),
        &done_text,
    );
    let title = if trim_chars(&chars_of(newer.title.as_str())).len() == 0 {
        older.title.clone()
    } else {
        newer.title.clone()
    };
    let summary = if newer.summary.as_str().is_empty() { older.summary.clone() } else { newer.summary.clone() };
    let names = if newer.names.len() == 0 { copy_names(&older.names) } else { copy_names(&newer.names) };
    let state = if done { STATE_DONE.to_string() } else { newer.state.clone() };
    let error = if done { None } else { copy_opt(&newer.error) };
    let m = Meta {
        title,
        at: newer.at,
        seconds_bits: if f32_bits_less(newer.seconds_bits, older.seconds_bits) {
            older.seconds_bits
        } else {
            newer.seconds_bits
        },
        state,
        imported: newer.imported,
        project: copy_opt(&newer.project),
        speakers: if newer.speakers == 0 { older.speakers } else { newer.speakers },
        names,
        summary,
        error,
        updated: if newer.updated >= older.updated { newer.updated } else { older.updated },
    };
    proof {
        assert(m@.state == merge_meta_spec(local@, remote@).state);
    }
    m
}

/// After a merge the record is as new as the newer copy.
pub proof fn law_merge_keeps_newest(local: MetaView, remote: MetaView)
    ensures
        merge_meta_spec(local, remote).updated == if local.updated >= remote.updated {
            local.updated
        } else {
            remote.updated
        },
{
}

/// The merged duration is not shorter than either copy's.
pub proof fn law_duration_not_shorter(local: MetaView, remote: MetaView)
    ensures
        !f32_less(merge_meta_spec(local, remote).seconds_bits, local.seconds_bits),
        !f32_less(merge_meta_spec(local, remote).seconds_bits, remote.seconds_bits),
{
}

/// Speaker names that are a map on both sides stay a map after the merge.
pub proof fn law_merge_keeps_names_a_map(local: MetaView, remote: MetaView)
    requires
        crate::meetings::names_distinct(local.names),
        crate::meetings::names_distinct(remote.names),
    ensures
        crate::meetings::names_distinct(merge_meta_spec(local, remote).names),
{
}

/// The copy saved later wins (the remote one on a tie): its speaker names,
/// summary, title and number of speakers stand whenever it has them; only
/// an empty one of these is filled from the older copy. Its project and
/// saving time stand as they are.
pub proof fn law_newer_copy_wins(local: MetaView, remote: MetaView)
    ensures
        ({
            let newer = if local.updated > remote.updated { local } else { remote };
            let older = if local.updated > remote.updated { remote } else { local };
            let m = merge_meta_spec(local, remote);
            &&& newer.names.len() > 0 ==> m.names == newer.names
            &&& newer.names.len() == 0 ==> m.names == older.names
            &&& newer.summary.len() > 0 ==> m.summary == newer.summary
            &&& newer.summary.len() == 0 ==> m.summary == older.summary
            &&& trim(newer.title).len() > 0 ==> m.title == newer.title
            &&& trim(newer.title).len() == 0 ==> m.title == older.title
            &&& newer.speakers != 0 ==> m.speakers == newer.speakers
            &&& newer.speakers == 0 ==> m.speakers == older.speakers
            &&& m.project == newer.project
            &&& m.updated == newer.updated
        }),
{
}

/// A finished transcript on either side finishes the merge.
pub proof fn law_done_beats_any_state(local: MetaView, remote: MetaView)
    requires
        local.state == "done"@ || remote.state == "done"@,
    ensures
        merge_meta_spec(local, remote).state == "done"@,
{
}

/// A summary or a title present on either side survives the merge.
pub proof fn law_filled_fields_survive(local: MetaView, remote: MetaView)
    ensures
        local.summary.len() > 0 || remote.summary.len() > 0 ==> merge_meta_spec(local, remote).summary.len() > 0,
        trim(local.title).len() > 0 || trim(remote.title).len() > 0 ==> merge_meta_spec(
            local,
            remote,
        ).title.len() > 0,
{
    let m = merge_meta_spec(local, remote);
    if trim(local.title).len() > 0 || trim(remote.title).len() > 0 {
        crate::text::lemma_trim_len(local.title);
        crate::text::lemma_trim_len(remote.title);
    }
}

/// Merging a record with itself gives it back.
pub proof fn law_merge_with_itself(m: MetaView)
    ensures
        merge_meta_spec(m, m) == m,
{
}

/// When the copies were saved at different times, which one is called
/// local does not matter.
pub proof fn law_merge_order_free(a: MetaView, b: MetaView)
    requires
        a.updated != b.updated,
    ensures
        merge_meta_spec(a, b) == merge_meta_spec(b, a),
{
}

// --- projects ---------------------------------------------------------------------

/// Index of the first project with the given id.
pub open spec fn find_id(list: Seq<ProjectView>, id: Seq<char>) -> Option<int>
    decreases list.len(),
{
    if list.len() == 0 {
        None
    } else {
        match find_id(list.drop_last(), id) {
            Some(i) => Some(i),
            None => if list.last().id == id {
                Some(list.len() - 1)
            } else {
                None
            },
        }
    }
}

/// Name for a project present on both sides: whoever changed it wins; if
/// both did, the local name (the one in front of the person) wins.
pub open spec fn pick_name(local: Seq<char>, remote: Seq<char>, before: Option<Seq<char>>) -> Seq<char> {
    if local == remote {
        local
    } else if before == Some(local) {
        remote
    } else {
        local
    }
}

/// The remote-ordered part of the merge over a prefix of `remote`: projects on
/// both sides (with the chosen name), and remote-only projects that were not
/// in the snapshot (added there; those in the snapshot were deleted here).
pub open spec fn merged_remote(
    local: Seq<ProjectView>,
    remote: Seq<ProjectView>,
    snapshot: Seq<ProjectView>,
) -> Seq<ProjectView>
    decreases remote.len(),
{
    if remote.len() == 0 {
        Seq::empty()
    } else {
        let prev = merged_remote(local, remote.drop_last(), snapshot);
        let r = remote.last();
        match find_id(local, r.id) {
            Some(li) => {
                let before = match find_id(snapshot, r.id) {
                    Some(si) => Some(snapshot[si].name),
                    None => None,
                };
                prev.push(ProjectView { id: r.id, name: pick_name(local[li].name, r.name, before) })
            },
            None => if find_id(snapshot, r.id) is None {
                prev.push(r)
            } else {
                prev
            },
        }
    }
}

/// Local-only projects that were not in the snapshot: added here.
pub open spec fn merged_local(
    local: Seq<ProjectView>,
    remote: Seq<ProjectView>,
    snapshot: Seq<ProjectView>,
) -> Seq<ProjectView>
    decreases local.len(),
{
    if local.len() == 0 {
        Seq::empty()
    } else {
        let prev = merged_local(local.drop_last(), remote, snapshot);
        let l = local.last();
        if find_id(remote, l.id) is None && find_id(snapshot, l.id) is None {
            prev.push(l)
        } else {
            prev
        }
    }
}

/// Three-way merge of project lists: remote order first, new local ones at
/// the end.
pub open spec fn merge_projects_spec(
    local: Seq<ProjectView>,
    remote: Seq<ProjectView>,
    snapshot: Seq<ProjectView>,
) -> Seq<ProjectView> {
    merged_remote(local, remote, snapshot) + merged_local(local, remote, snapshot)
}

/// The name a project on both sides gets: the local one, unless only the
/// remote side changed it since the last sync (the snapshot holds the local
/// name and the remote one differs).
spec fn expected_name(local: Seq<char>, remote: Seq<char>, before: Option<Seq<char>>) -> Seq<char> {
    if local != remote && before == Some(local) {
        remote
    } else {
        local
    }
}

proof fn lemma_merged_remote_has(
    local: Seq<ProjectView>,
    remote: Seq<ProjectView>,
    snapshot: Seq<ProjectView>,
    k: int,
)
    requires
        0 <= k < remote.len(),
        find_id(local, remote[k].id) is Some,
    ensures
        exists|j: int|
            0 <= j < merged_remote(local, remote, snapshot).len() && #[trigger] merged_remote(local, remote, snapshot)[j]
                == (ProjectView {
                id: remote[k].id,
                name: expected_name(
                    local[find_id(local, remote[k].id).unwrap()].name,
                    remote[k].name,
                    match find_id(snapshot, remote[k].id) {
                        Some(si) => Some(snapshot[si].name),
                        None => None,
                    },
                ),
            }),
    decreases remote.len(),
{
    let m = merged_remote(local, remote, snapshot);
    let prev = merged_remote(local, remote.drop_last(), snapshot);
    if k == remote.len() - 1 {
        assert(m[prev.len() as int] == m.last());
    } else {
        assert(remote.drop_last()[k] == remote[k]);
        lemma_merged_remote_has(local, remote.drop_last(), snapshot, k);
        let e = ProjectView {
            id: remote[k].id,
            name: expected_name(
                local[find_id(local, remote[k].id).unwrap()].name,
                remote[k].name,
                match find_id(snapshot, remote[k].id) {
                    Some(si) => Some(snapshot[si].name),
                    None => None,
                },
            ),
        };
        let j = choose|j: int| 0 <= j < prev.len() && #[trigger] prev[j] == e;
        assert(m[j] == prev[j]);
    }
}

/// A project on both sides keeps the local name when both sides renamed it
/// since the last sync, or only the local side did, or it is new on both;
/// the remote name wins only when the local name is still the one of the
/// last sync. The merge holds that project under that name.
pub proof fn law_both_renamed_local_wins(
    local: Seq<ProjectView>,
    remote: Seq<ProjectView>,
    snapshot: Seq<ProjectView>,
    k: int,
)
    requires
        0 <= k < remote.len(),
        find_id(local, remote[k].id) is Some,
    ensures
        ({
            let id = remote[k].id;
            let l = local[find_id(local, id).unwrap()].name;
            let r = remote[k].name;
            let before = match find_id(snapshot, id) {
                Some(si) => Some(snapshot[si].name),
                None => None,
            };
            let merged = merge_projects_spec(local, remote, snapshot);
            exists|j: int|
                0 <= j < merged.len() && #[trigger] merged[j] == (ProjectView {
                    id,
                    name: if l != r && before == Some(l) {
                        r
                    } else {
                        l
                    },
                })
        }),
{
    lemma_merged_remote_has(local, remote, snapshot, k);
    let a = merged_remote(local, remote, snapshot);
    let e = ProjectView {
        id: remote[k].id,
        name: expected_name(
            local[find_id(local, remote[k].id).unwrap()].name,
            remote[k].name,
            match find_id(snapshot, remote[k].id) {
                Some(si) => Some(snapshot[si].name),
                None => None,
            },
        ),
    };
    let j = choose|j: int| 0 <= j < a.len() && #[trigger] a[j] == e;
    assert(merge_projects_spec(local, remote, snapshot)[j] == a[j]);
}

proof fn lemma_merged_remote_ids_from(
    local: Seq<ProjectView>,
    remote: Seq<ProjectView>,
    snapshot: Seq<ProjectView>,
    id: Seq<char>,
)
    requires
        forall|m: int| 0 <= m < remote.len() ==> remote[m].id != id,
    ensures
        forall|j: int|
            0 <= j < merged_remote(local, remote, snapshot).len() ==> #[trigger] merged_remote(
                local,
                remote,
                snapshot,
            )[j].id != id,
    decreases remote.len(),
{
    if remote.len() > 0 {
        assert forall|m: int| 0 <= m < remote.drop_last().len() implies remote.drop_last()[m].id != id by {
            assert(remote.drop_last()[m] == remote[m]);
        }
        lemma_merged_remote_ids_from(local, remote.drop_last(), snapshot, id);
        let prev = merged_remote(local, remote.drop_last(), snapshot);
        let m = merged_remote(local, remote, snapshot);
        assert forall|j: int| 0 <= j < m.len() implies #[trigger] m[j].id != id by {
            if j < prev.len() {
                assert(m[j] == prev[j]);
            }
        }
    }
}

proof fn lemma_merged_local_not_remote(
    local: Seq<ProjectView>,
    remote: Seq<ProjectView>,
    snapshot: Seq<ProjectView>,
)
    ensures
        forall|j: int|
            0 <= j < merged_local(local, remote, snapshot).len() ==> find_id(
                remote,
                #[trigger] merged_local(local, remote, snapshot)[j].id,
            ) is None,
    decreases local.len(),
{
    if local.len() > 0 {
        lemma_merged_local_not_remote(local.drop_last(), remote, snapshot);
        let prev = merged_local(local.drop_last(), remote, snapshot);
        let m = merged_local(local, remote, snapshot);
        assert forall|j: int| 0 <= j < m.len() implies find_id(remote, #[trigger] m[j].id) is None by {
            if j < prev.len() {
                assert(m[j] == prev[j]);
            }
        }
    }
}

proof fn lemma_merged_remote_only(
    local: Seq<ProjectView>,
    remote: Seq<ProjectView>,
    snapshot: Seq<ProjectView>,
    k: int,
)
    requires
        0 <= k < remote.len(),
        find_id(local, remote[k].id) is Some,
        forall|a: int, b: int| 0 <= a < b < remote.len() ==> remote[a].id != remote[b].id,
    ensures
        forall|j: int|
            0 <= j < merged_remote(local, remote, snapshot).len() && #[trigger] merged_remote(
                local,
                remote,
                snapshot,
            )[j].id == remote[k].id ==> merged_remote(local, remote, snapshot)[j].name
                == expected_name(
                local[find_id(local, remote[k].id).unwrap()].name,
                remote[k].name,
                match find_id(snapshot, remote[k].id) {
                    Some(si) => Some(snapshot[si].name),
                    None => None,
                },
            ),
    decreases remote.len(),
{
    let id = remote[k].id;
    let e = expected_name(
        local[find_id(local, id).unwrap()].name,
        remote[k].name,
        match find_id(snapshot, id) {
            Some(si) => Some(snapshot[si].name),
            None => None,
        },
    );
    let rest = remote.drop_last();
    let prev = merged_remote(local, rest, snapshot);
    let m = merged_remote(local, remote, snapshot);
    if k == remote.len() - 1 {
        assert forall|i: int| 0 <= i < rest.len() implies rest[i].id != id by {
            assert(rest[i] == remote[i]);
        }
        lemma_merged_remote_ids_from(local, rest, snapshot, id);
        assert forall|j: int| 0 <= j < m.len() && #[trigger] m[j].id == id implies m[j].name == e by {
            if j < prev.len() {
                assert(m[j] == prev[j]);
            }
        }
    } else {
        assert(rest[k] == remote[k]);
        assert forall|a: int, b: int| 0 <= a < b < rest.len() implies rest[a].id != rest[b].id by {
            assert(rest[a] == remote[a]);
            assert(rest[b] == remote[b]);
        }
        lemma_merged_remote_only(local, rest, snapshot, k);
        assert forall|j: int| 0 <= j < m.len() && #[trigger] m[j].id == id implies m[j].name == e by {
            if j < prev.len() {
                assert(m[j] == prev[j]);
            }
        }
    }
}

/// With project ids unique on the remote side, a project on both sides
/// appears in the merge under one name only: the one the law above names
/// (the local name unless only the remote side renamed it).
pub proof fn law_merged_project_has_one_name(
    local: Seq<ProjectView>,
    remote: Seq<ProjectView>,
    snapshot: Seq<ProjectView>,
    k: int,
)
    requires
        0 <= k < remote.len(),
        find_id(local, remote[k].id) is Some,
        forall|a: int, b: int| 0 <= a < b < remote.len() ==> remote[a].id != remote[b].id,
    ensures
        ({
            let id = remote[k].id;
            let l = local[find_id(local, id).unwrap()].name;
            let r = remote[k].name;
            let before = match find_id(snapshot, id) {
                Some(si) => Some(snapshot[si].name),
                None => None,
            };
            let merged = merge_projects_spec(local, remote, snapshot);
            forall|j: int|
                0 <= j < merged.len() && #[trigger] merged[j].id == id ==> merged[j].name == if l != r
                    && before == Some(l) {
                    r
                } else {
                    l
                }
        }),
{
    let id = remote[k].id;
    let a = merged_remote(local, remote, snapshot);
    let b = merged_local(local, remote, snapshot);
    let merged = merge_projects_spec(local, remote, snapshot);
    lemma_merged_remote_only(local, remote, snapshot, k);
    lemma_merged_local_not_remote(local, remote, snapshot);
    lemma_find_id_bound(remote, id);
    assert forall|j: int| 0 <= j < merged.len() && #[trigger] merged[j].id == id implies merged[j].name
        == expected_name(
        local[find_id(local, id).unwrap()].name,
        remote[k].name,
        match find_id(snapshot, id) {
            Some(si) => Some(snapshot[si].name),
            None => None,
        },
    ) by {
        if j < a.len() {
            assert(merged[j] == a[j]);
        } else {
            assert(merged[j] == b[j - a.len()]);
            assert(find_id(remote, b[j - a.len()].id) is None);
        }
    }
}

proof fn lemma_find_id_bound(list: Seq<ProjectView>, id: Seq<char>)
    ensures
        match find_id(list, id) {
            Some(i) => 0 <= i < list.len() && list[i].id == id && forall|j: int|
                0 <= j < i ==> list[j].id != id,
            None => forall|j: int| 0 <= j < list.len() ==> list[j].id != id,
        },
    decreases list.len(),
{
    if list.len() > 0 {
        lemma_find_id_bound(list.drop_last(), id);
        match find_id(list.drop_last(), id) {
            Some(i) => {
                assert(list[i] == list.drop_last()[i]);
                assert forall|j: int| 0 <= j < i implies list[j].id != id by {
                    assert(list[j] == list.drop_last()[j]);
                }
            },
            None => {
                assert forall|j: int| 0 <= j < list.len() - 1 implies list[j].id != id by {
                    assert(list[j] == list.drop_last()[j]);
                }
            },
        }
    }
}

/// Index of the first project in `list` with id `id`.
fn find_index(list: &[Project], id: &String) -> (r: Option<usize>)
    ensures
        match r {
            Some(i) => i < list.len() && find_id(projects_view(list@), id@) == Some(i as int),
            None => find_id(projects_view(list@), id@) is None,
        },
{
    let ghost v = projects_view(list@);
    let mut i: usize = 0;
    while i < list.len()
        invariant
            i <= list.len(),
            v == projects_view(list@),
            find_id(v.take(i as int), id@) is None,
        decreases list.len() - i,
    {
        proof {
            assert(v.take(i + 1).drop_last() =~= v.take(i as int));
        }
        if same_text(&list[i].id, id) {
            proof {
                assert(v.take(i + 1).last() == list@[i as int]@);
                lemma_find_id_prefix(v, id@, i as int + 1);
            }
            return Some(i);
        }
        i += 1;
    }
    proof {
        assert(v.take(list.len() as int) =~= v);
    }
    None
}

/// Finding in a prefix that already contains a match gives the same answer
/// as in the whole list.
proof fn lemma_find_id_prefix(list: Seq<ProjectView>, id: Seq<char>, k: int)
    requires
        0 <= k <= list.len(),
        find_id(list.take(k), id) is Some,
    ensures
        find_id(list, id) == find_id(list.take(k), id),
    decreases list.len() - k,
{
    if k < list.len() {
        assert(list.take(k + 1).drop_last() =~= list.take(k));
        lemma_find_id_prefix(list, id, k + 1);
    } else {
        assert(list.take(k) =~= list);
    }
}

/// Three-way merge of project lists against the snapshot taken after the
/// previous sync: absent on one side but present in the snapshot means
/// deleted; absent from the snapshot means added. A project on both sides
/// keeps the name of whoever changed it (the local one if both did).
/// Order: as on the remote side, then new local projects.
pub fn merge_projects(local: &[Project], remote: &[Project], snapshot: &[Project]) -> (r: Vec<Project>)
    ensures
        projects_view(r@) == merge_projects_spec(
            projects_view(local@),
            projects_view(remote@),
            projects_view(snapshot@),
        ),
{
    let ghost lv = projects_view(local@);
    let ghost rv = projects_view(remote@);
    let ghost sv = projects_view(snapshot@);
    let mut out: Vec<Project> = Vec::new();
    let mut i: usize = 0;
    while i < remote.len()
        invariant
            i <= remote.len(),
            lv == projects_view(local@),
            rv == projects_view(remote@),
            sv == projects_view(snapshot@),
            projects_view(out@) == merged_remote(lv, rv.take(i as int), sv),
        decreases remote.len() - i,
    {
        let r = &remote[i];
        proof {
            assert(rv.take(i + 1).drop_last() =~= rv.take(i as int));
            assert(rv.take(i + 1).last() == r@);
        }
        match find_index(local, &r.id) {
            Some(li) => {
                let l = &local[li];
                let name = if same_text(&l.name, &r.name) {
                    l.name.clone()
                } else {
                    let before_same = match find_index(snapshot, &r.id) {
                        Some(si) => same_text(&snapshot[si].name, &l.name),
                        None => false,
                    };
                    if before_same {
                        r.name.clone()
                    } else {
                        l.name.clone()
                    }
                };
                out.push(Project { id: r.id.clone(), name });
            },
            None => {
                if find_index(snapshot, &r.id).is_none() {
                    out.push(r.copy());
                }
            },
        }
        proof {
            assert(projects_view(out@) =~= merged_remote(lv, rv.take(i + 1), sv));
        }
        i += 1;
    }
    proof {
        assert(rv.take(remote.len() as int) =~= rv);
    }
    let ghost head = out@;
    let mut j: usize = 0;
    while j < local.len()
        invariant
            j <= local.len(),
            lv == projects_view(local@),
            rv == projects_view(remote@),
            sv == projects_view(snapshot@),
            out@.len() >= head.len(),
            projects_view(head) == merged_remote(lv, rv, sv),
            out@.take(head.len() as int) == head,
            projects_view(out@.skip(head.len() as int)) == merged_local(lv.take(j as int), rv, sv),
        decreases local.len() - j,
    {
        let l = &local[j];
        proof {
            assert(lv.take(j + 1).drop_last() =~= lv.take(j as int));
            assert(lv.take(j + 1).last() == l@);
        }
        if find_index(remote, &l.id).is_none() && find_index(snapshot, &l.id).is_none() {
            let ghost before = out@;
            out.push(l.copy());
            proof {
                assert(out@.take(head.len() as int) =~= before.take(head.len() as int));
                assert(out@.skip(head.len() as int) =~= before.skip(head.len() as int).push(out@.last()));
            }
        }
        proof {
            assert(projects_view(out@.skip(head.len() as int)) =~= merged_local(lv.take(j + 1), rv, sv));
        }
        j += 1;
    }
    proof {
        assert(lv.take(local.len() as int) =~= lv);
        assert(out@ =~= head + out@.skip(head.len() as int));
        assert(projects_view(out@) =~= projects_view(head) + projects_view(out@.skip(head.len() as int)));
    }
    out
}

/// Whether two project lists are the same, element by element.
pub fn same_projects(a: &[Project], b: &[Project]) -> (r: bool)
    ensures
        r == (projects_view(a@) == projects_view(b@)),
{
    if a.len() != b.len() {
        proof {
            assert(projects_view(a@).len() != projects_view(b@).len());
        }
        return false;
    }
    let mut i: usize = 0;
    while i < a.len()
        invariant
            i <= a.len(),
            a.len() == b.len(),
            forall|k: int| 0 <= k < i ==> a@[k]@ == b@[k]@,
        decreases a.len() - i,
    {
        if !same_text(&a[i].id, &b[i].id) || !same_text(&a[i].name, &b[i].name) {
            proof {
                assert(projects_view(a@)[i as int] != projects_view(b@)[i as int]);
            }
            return false;
        }
        i += 1;
    }
    proof {
        assert(projects_view(a@) =~= projects_view(b@));
    }
    true
}

// --- laws ----------------------------------------------------------------------------

/// Ids are distinct within a list.
pub open spec fn distinct_ids(list: Seq<ProjectView>) -> bool {
    forall|i: int, j: int| 0 <= i < j < list.len() ==> list[i].id != list[j].id
}

/// When neither side changed anything since the snapshot was taken — both
/// hold the same list — the merge gives that list back.
pub proof fn law_merge_unchanged(x: Seq<ProjectView>, snapshot: Seq<ProjectView>)
    requires
        distinct_ids(x),
    ensures
        merge_projects_spec(x, x, snapshot) == x,
{
    lemma_merged_remote_same(x, x.len() as int, snapshot);
    assert(x.take(x.len() as int) =~= x);
    lemma_merged_local_none(x, x, snapshot, x.len() as int);
    assert(merge_projects_spec(x, x, snapshot) =~= x);
}

proof fn lemma_merged_remote_same(x: Seq<ProjectView>, k: int, snapshot: Seq<ProjectView>)
    requires
        distinct_ids(x),
        0 <= k <= x.len(),
    ensures
        merged_remote(x, x.take(k), snapshot) == x.take(k),
    decreases k,
{
    if k > 0 {
        assert(x.take(k).drop_last() =~= x.take(k - 1));
        lemma_merged_remote_same(x, k - 1, snapshot);
        lemma_find_id_bound(x, x[k - 1].id);
        assert(find_id(x, x[k - 1].id) == Some(k - 1)) by {
            match find_id(x, x[k - 1].id) {
                Some(i) => {
                    if i != k - 1 {
                        assert(x[i].id == x[k - 1].id);
                    }
                },
                None => {},
            }
        }
        assert(x.take(k) =~= x.take(k - 1).push(x[k - 1]));
    }
}

/// Every local project is found on the remote side, so nothing is added at
/// the end.
proof fn lemma_merged_local_none(
    local: Seq<ProjectView>,
    remote: Seq<ProjectView>,
    snapshot: Seq<ProjectView>,
    k: int,
)
    requires
        0 <= k <= local.len(),
        local == remote,
    ensures
        merged_local(local.take(k), remote, snapshot).len() == 0,
    decreases k,
{
    if k > 0 {
        assert(local.take(k).drop_last() =~= local.take(k - 1));
        lemma_merged_local_none(local, remote, snapshot, k - 1);
        lemma_find_id_bound(remote, local[k - 1].id);
    }
}

/// A side that did not change since the snapshot takes the other side's list
/// as is: when the local list equals the snapshot, the merge is the remote
/// list (renames, additions and deletions made there all arrive).
pub proof fn law_unchanged_local_takes_remote(
    local: Seq<ProjectView>,
    remote: Seq<ProjectView>,
)
    ensures
        merge_projects_spec(local, remote, local) == remote,
{
    lemma_takes_remote(local, remote, remote.len() as int);
    lemma_local_none_when_snapshot(local, remote, local.len() as int);
    assert(remote.take(remote.len() as int) =~= remote);
    assert(local.take(local.len() as int) =~= local);
    assert(merge_projects_spec(local, remote, local) =~= remote);
}

proof fn lemma_takes_remote(local: Seq<ProjectView>, remote: Seq<ProjectView>, k: int)
    requires
        0 <= k <= remote.len(),
    ensures
        merged_remote(local, remote.take(k), local) == remote.take(k),
    decreases k,
{
    if k > 0 {
        assert(remote.take(k).drop_last() =~= remote.take(k - 1));
        lemma_takes_remote(local, remote, k - 1);
        assert(remote.take(k) =~= remote.take(k - 1).push(remote[k - 1]));
        lemma_find_id_bound(local, remote[k - 1].id);
    }
}

proof fn lemma_local_none_when_snapshot(local: Seq<ProjectView>, remote: Seq<ProjectView>, k: int)
    requires
        0 <= k <= local.len(),
    ensures
        merged_local(local.take(k), remote, local).len() == 0,
    decreases k,
{
    if k > 0 {
        assert(local.take(k).drop_last() =~= local.take(k - 1));
        lemma_local_none_when_snapshot(local, remote, k - 1);
        lemma_find_id_bound(local, local[k - 1].id);
    }
}

/// Deletions are respected: a project that was in the snapshot but is gone
/// from either side is not in the merge.
pub proof fn law_deleted_stays_deleted(
    local: Seq<ProjectView>,
    remote: Seq<ProjectView>,
    snapshot: Seq<ProjectView>,
    id: Seq<char>,
)
    requires
        find_id(snapshot, id) is Some,
        find_id(local, id) is None || find_id(remote, id) is None,
    ensures
        forall|i: int|
            0 <= i < merge_projects_spec(local, remote, snapshot).len() ==> #[trigger] merge_projects_spec(
                local,
                remote,
                snapshot,
            )[i].id != id,
{
    lemma_remote_part_ids(local, remote, snapshot, id, remote.len() as int);
    lemma_local_part_ids(local, remote, snapshot, id, local.len() as int);
    assert(remote.take(remote.len() as int) =~= remote);
    assert(local.take(local.len() as int) =~= local);
    let m = merge_projects_spec(local, remote, snapshot);
    let a = merged_remote(local, remote, snapshot);
    assert forall|i: int| 0 <= i < m.len() implies #[trigger] m[i].id != id by {
        if i < a.len() {
            assert(m[i] == a[i]);
        } else {
            assert(m[i] == merged_local(local, remote, snapshot)[i - a.len()]);
        }
    }
}

proof fn lemma_remote_part_ids(
    local: Seq<ProjectView>,
    remote: Seq<ProjectView>,
    snapshot: Seq<ProjectView>,
    id: Seq<char>,
    k: int,
)
    requires
        0 <= k <= remote.len(),
        find_id(snapshot, id) is Some,
        find_id(local, id) is None || find_id(remote, id) is None,
    ensures
        forall|i: int|
            0 <= i < merged_remote(local, remote.take(k), snapshot).len() ==> #[trigger] merged_remote(
                local,
                remote.take(k),
                snapshot,
            )[i].id != id,
    decreases k,
{
    if k > 0 {
        assert(remote.take(k).drop_last() =~= remote.take(k - 1));
        lemma_remote_part_ids(local, remote, snapshot, id, k - 1);
        lemma_find_id_bound(remote, id);
        lemma_find_id_bound(local, id);
        let prev = merged_remote(local, remote.take(k - 1), snapshot);
        let cur = merged_remote(local, remote.take(k), snapshot);
        assert(remote.take(k).last() == remote[k - 1]);
        assert forall|i: int| 0 <= i < cur.len() implies #[trigger] cur[i].id != id by {
            if i < prev.len() {
                assert(cur[i] == prev[i]);
            } else {
                if remote[k - 1].id == id {
                    lemma_find_id_bound(local, remote[k - 1].id);
                }
            }
        }
    }
}

proof fn lemma_local_part_ids(
    local: Seq<ProjectView>,
    remote: Seq<ProjectView>,
    snapshot: Seq<ProjectView>,
    id: Seq<char>,
    k: int,
)
    requires
        0 <= k <= local.len(),
        find_id(snapshot, id) is Some,
    ensures
        forall|i: int|
            0 <= i < merged_local(local.take(k), remote, snapshot).len() ==> #[trigger] merged_local(
                local.take(k),
                remote,
                snapshot,
            )[i].id != id,
    decreases k,
{
    if k > 0 {
        assert(local.take(k).drop_last() =~= local.take(k - 1));
        lemma_local_part_ids(local, remote, snapshot, id, k - 1);
        let prev = merged_local(local.take(k - 1), remote, snapshot);
        let cur = merged_local(local.take(k), remote, snapshot);
        assert(local.take(k).last() == local[k - 1]);
        assert forall|i: int| 0 <= i < cur.len() implies #[trigger] cur[i].id != id by {
            if i < prev.len() {
                assert(cur[i] == prev[i]);
            }
        }
    }
}

/// On the first sync (no snapshot) nothing is dropped: every project of
/// either side is in the merge.
pub proof fn law_first_sync_keeps_all(
    local: Seq<ProjectView>,
    remote: Seq<ProjectView>,
    id: Seq<char>,
)
    requires
        find_id(local, id) is Some || find_id(remote, id) is Some,
    ensures
        exists|i: int|
            0 <= i < merge_projects_spec(local, remote, Seq::empty()).len()
                && #[trigger] merge_projects_spec(local, remote, Seq::empty())[i].id == id,
{
    let s = Seq::<ProjectView>::empty();
    let m = merge_projects_spec(local, remote, s);
    let a = merged_remote(local, remote, s);
    assert(remote.take(remote.len() as int) =~= remote);
    assert(local.take(local.len() as int) =~= local);
    lemma_find_id_bound(remote, id);
    lemma_find_id_bound(local, id);
    if find_id(remote, id) is Some {
        let ri = find_id(remote, id)->0;
        lemma_remote_present(local, remote, id, ri, remote.len() as int);
        let i = choose|i: int| 0 <= i < a.len() && #[trigger] a[i].id == id;
        assert(m[i] == a[i]);
    } else {
        let li = find_id(local, id)->0;
        lemma_local_present(local, remote, id, li, local.len() as int);
        let b = merged_local(local, remote, s);
        let i = choose|i: int| 0 <= i < b.len() && #[trigger] b[i].id == id;
        assert(m[a.len() + i] == b[i]);
    }
}

proof fn lemma_remote_present(
    local: Seq<ProjectView>,
    remote: Seq<ProjectView>,
    id: Seq<char>,
    ri: int,
    k: int,
)
    requires
        0 <= ri < k <= remote.len(),
        remote[ri].id == id,
    ensures
        exists|i: int|
            0 <= i < merged_remote(local, remote.take(k), Seq::empty()).len() && #[trigger] merged_remote(
                local,
                remote.take(k),
                Seq::empty(),
            )[i].id == id,
    decreases k,
{
    let s = Seq::<ProjectView>::empty();
    assert(remote.take(k).drop_last() =~= remote.take(k - 1));
    assert(remote.take(k).last() == remote[k - 1]);
    let prev = merged_remote(local, remote.take(k - 1), s);
    let cur = merged_remote(local, remote.take(k), s);
    assert(find_id(s, remote[k - 1].id) is None);
    if ri < k - 1 {
        lemma_remote_present(local, remote, id, ri, k - 1);
        let i = choose|i: int| 0 <= i < prev.len() && #[trigger] prev[i].id == id;
        assert(cur[i] == prev[i]);
    } else {
        assert(cur[cur.len() - 1].id == id);
    }
}

proof fn lemma_local_present(
    local: Seq<ProjectView>,
    remote: Seq<ProjectView>,
    id: Seq<char>,
    li: int,
    k: int,
)
    requires
        0 <= li < k <= local.len(),
        local[li].id == id,
        find_id(remote, id) is None,
    ensures
        exists|i: int|
            0 <= i < merged_local(local.take(k), remote, Seq::empty()).len() && #[trigger] merged_local(
                local.take(k),
                remote,
                Seq::empty(),
            )[i].id == id,
    decreases k,
{
    let s = Seq::<ProjectView>::empty();
    assert(local.take(k).drop_last() =~= local.take(k - 1));
    assert(local.take(k).last() == local[k - 1]);
    let prev = merged_local(local.take(k - 1), remote, s);
    let cur = merged_local(local.take(k), remote, s);
    if li < k - 1 {
        lemma_local_present(local, remote, id, li, k - 1);
        let i = choose|i: int| 0 <= i < prev.len() && #[trigger] prev[i].id == id;
        assert(cur[i] == prev[i]);
    } else {
        assert(cur[cur.len() - 1].id == id);
    }
}

} // verus!
