//! Meetings: the record kept for each meeting, projects, and the text that
//! export builds from a transcript.

use vstd::prelude::*;
use std::collections::HashMap;
use crate::numbers::{digits_of, push_digits};
use crate::text::{
    append, chars_of, eq_chars, join, join_chars, lines, lines_of, one_of, slice_vec, starts, starts_with,
    string_of, to_lower, trim, trim_chars, trim_start_by, trim_start_set, unicode_lower,
};

verus! {

/// State of a meeting whose transcript is complete.
pub const STATE_DONE: &'static str = "done";
/// State of a meeting that was only recorded.
pub const STATE_RECORDED: &'static str = "recorded";
/// State of a meeting being transcribed right now.
pub const STATE_TRANSCRIBING: &'static str = "transcribing";
/// State of a meeting whose processing failed.
pub const STATE_FAILED: &'static str = "failed";

/// A project: a named folder of meetings.
pub struct Project {
    pub id: String,
    pub name: String,
}

/// A project as plain text values.
pub struct ProjectView {
    pub id: Seq<char>,
    pub name: Seq<char>,
}

impl View for Project {
    type V = ProjectView;

    open spec fn view(&self) -> ProjectView {
        ProjectView { id: self.id@, name: self.name@ }
    }
}

/// A list of projects as plain values.
pub open spec fn projects_view(list: Seq<Project>) -> Seq<ProjectView> {
    list.map_values(|p: Project| p@)
}

/// A copy of a string.
pub fn copy_string(s: &String) -> (r: String)
    ensures
        r@ == s@,
{
    s.clone()
}

/// A copy of an optional string.
pub fn copy_opt(s: &Option<String>) -> (r: Option<String>)
    ensures
        opt_view(r) == opt_view(*s),
{
    match s {
        Some(v) => Some(v.clone()),
        None => None,
    }
}

/// An optional string as plain text.
pub open spec fn opt_view(s: Option<String>) -> Option<Seq<char>> {
    match s {
        Some(v) => Some(v@),
        None => None,
    }
}

impl Project {
    /// A copy of the project.
    pub fn copy(&self) -> (r: Project)
        ensures
            r@ == self@,
    {
        Project { id: self.id.clone(), name: self.name.clone() }
    }
}

/// Whether two strings hold the same text.
pub fn same_text(a: &String, b: &String) -> (r: bool)
    ensures
        r == (a@ == b@),
{
    a.eq(b)
}

// --- projects ------------------------------------------------------------------------------

/// The project a name makes at a moment (milliseconds): its id is the moment
/// written in digits, its name the name trimmed; a blank name makes none.
pub open spec fn new_project_spec(name: Seq<char>, now_ms: u64) -> Option<ProjectView> {
    if trim(name).len() == 0 {
        None
    } else {
        Some(ProjectView { id: digits_of(now_ms as nat), name: trim(name) })
    }
}

/// Makes a project from a name at a moment in milliseconds.
pub fn new_project(name: &str, now_ms: u64) -> (r: Option<Project>)
    ensures
        match r {
            Some(p) => new_project_spec(name@, now_ms) == Some(p@),
            None => new_project_spec(name@, now_ms) is None,
        },
{
    let trimmed = trim_chars(&chars_of(name));
    if trimmed.len() == 0 {
        return None;
    }
    let mut id: Vec<char> = Vec::new();
    push_digits(now_ms, &mut id);
    proof {
        assert(id@ =~= digits_of(now_ms as nat));
    }
    Some(Project { id: string_of(&id), name: string_of(&trimmed) })
}

/// The position of the first project with the given id, from `i` on.
pub open spec fn project_from(list: Seq<ProjectView>, id: Seq<char>, i: int) -> Option<int>
    decreases list.len() - i,
{
    if i < 0 || i >= list.len() {
        None
    } else if list[i].id == id {
        Some(i)
    } else {
        project_from(list, id, i + 1)
    }
}

/// The position of the first project with the given id.
pub open spec fn project_index(list: Seq<ProjectView>, id: Seq<char>) -> Option<int> {
    project_from(list, id, 0)
}

/// Positions without the id can be skipped.
proof fn lemma_project_skip(list: Seq<ProjectView>, id: Seq<char>, j: int, i: int)
    requires
        0 <= j <= i <= list.len(),
        forall|k: int| j <= k < i ==> (#[trigger] list[k]).id != id,
    ensures
        project_from(list, id, j) == project_from(list, id, i),
    decreases i - j,
{
    if j < i {
        lemma_project_skip(list, id, j + 1, i);
    }
}

/// What the first position found says of the positions before it.
proof fn lemma_project_first(list: Seq<ProjectView>, id: Seq<char>, j: int)
    requires
        0 <= j,
    ensures
        match project_from(list, id, j) {
            Some(i) => j <= i < list.len() && list[i].id == id && forall|k: int| j <= k < i ==> (#[trigger] list[k]).id != id,
            None => forall|k: int| j <= k < list.len() ==> (#[trigger] list[k]).id != id,
        },
    decreases list.len() - j,
{
    if j < list.len() && list[j].id != id {
        lemma_project_first(list, id, j + 1);
    }
}

/// Renames the first project with the given id to the trimmed name; a blank
/// name or an unknown id changes nothing. Says whether the list changed.
pub fn rename_project(list: &mut Vec<Project>, id: &str, name: &str) -> (changed: bool)
    ensures
        changed == (trim(name@).len() > 0 && project_index(projects_view(old(list)@), id@) is Some),
        changed ==> ({
            let i = project_index(projects_view(old(list)@), id@).unwrap();
            projects_view(final(list)@) == projects_view(old(list)@).update(
                i,
                ProjectView { id: id@, name: trim(name@) },
            )
        }),
        !changed ==> projects_view(final(list)@) == projects_view(old(list)@),
{
    let ghost before = projects_view(list@);
    let trimmed = trim_chars(&chars_of(name));
    let key = chars_of(id);
    let mut i: usize = 0;
    while i < list.len()
        invariant
            i <= list@.len(),
            before == projects_view(list@),
            list@ == old(list)@,
            trimmed@ == trim(name@),
            key@ == id@,
            forall|k: int| 0 <= k < i ==> (#[trigger] before[k]).id != id@,
        decreases list.len() - i,
    {
        if eq_chars(&chars_of(list[i].id.as_str()), &key) {
            proof {
                lemma_project_skip(before, id@, 0, i as int);
            }
            if trimmed.len() == 0 {
                return false;
            }
            let new_id = list[i].id.clone();
            list.set(i, Project { id: new_id, name: string_of(&trimmed) });
            proof {
                assert(projects_view(list@) =~= before.update(i as int, ProjectView { id: id@, name: trim(name@) }));
            }
            return true;
        }
        i += 1;
    }
    proof {
        lemma_project_skip(before, id@, 0, before.len() as int);
    }
    false
}

/// The projects without those of the given id, the others in their order.
pub open spec fn projects_without(list: Seq<ProjectView>, id: Seq<char>) -> Seq<ProjectView>
    decreases list.len(),
{
    if list.len() == 0 {
        Seq::empty()
    } else {
        let rest = projects_without(list.drop_last(), id);
        if list.last().id == id {
            rest
        } else {
            rest.push(list.last())
        }
    }
}

/// Deletes the projects with the given id; their meetings become meetings
/// without a project, which the caller writes.
pub fn delete_project(list: &mut Vec<Project>, id: &str)
    ensures
        projects_view(final(list)@) == projects_without(projects_view(old(list)@), id@),
{
    let ghost before = projects_view(list@);
    let key = chars_of(id);
    let mut out: Vec<Project> = Vec::new();
    let mut i: usize = 0;
    while i < list.len()
        invariant
            i <= list@.len(),
            before == projects_view(list@),
            key@ == id@,
            projects_view(out@) == projects_without(before.take(i as int), id@),
        decreases list.len() - i,
    {
        proof {
            assert(before.take(i + 1).drop_last() =~= before.take(i as int));
            assert(before.take(i + 1).last() == before[i as int]);
        }
        if !eq_chars(&chars_of(list[i].id.as_str()), &key) {
            let ghost o = projects_view(out@);
            out.push(list[i].copy());
            proof {
                assert(projects_view(out@) =~= o.push(before[i as int]));
            }
        }
        i += 1;
    }
    proof {
        assert(before.take(list@.len() as int) =~= before);
    }
    *list = out;
}

/// After a rename the project of that id carries the new name, and no other
/// project changed.
pub proof fn law_project_rename_reads_back(list: Seq<ProjectView>, id: Seq<char>, name: Seq<char>)
    requires
        project_index(list, id) is Some,
        trim(name).len() > 0,
    ensures
        ({
            let i = project_index(list, id).unwrap();
            let after = list.update(i, ProjectView { id: id, name: trim(name) });
            &&& project_index(after, id) == Some(i)
            &&& after[i].name == trim(name)
            &&& forall|k: int| 0 <= k < list.len() && k != i ==> after[k] == list[k]
        }),
{
    let i = project_index(list, id).unwrap();
    lemma_project_first(list, id, 0);
    let after = list.update(i, ProjectView { id: id, name: trim(name) });
    assert forall|k: int| 0 <= k < i implies (#[trigger] after[k]).id != id by {
        assert(after[k] == list[k]);
    }
    lemma_project_skip(after, id, 0, i);
}

/// No project is left with the id that was deleted.
pub proof fn law_project_delete_leaves_none(list: Seq<ProjectView>, id: Seq<char>)
    ensures
        forall|k: int| 0 <= k < projects_without(list, id).len() ==> (#[trigger] projects_without(list, id)[k]).id != id,
    decreases list.len(),
{
    if list.len() > 0 {
        law_project_delete_leaves_none(list.drop_last(), id);
        let rest = projects_without(list.drop_last(), id);
        if list.last().id != id {
            assert forall|k: int| 0 <= k < rest.push(list.last()).len() implies (#[trigger] rest.push(list.last())[k]).id != id by {
                if k < rest.len() {
                    assert(rest.push(list.last())[k] == rest[k]);
                }
            }
        }
    }
}

// --- the timeline as exports see it -----------------------------------------------------

/// One line of the timeline: whole seconds from the start of the
/// recording, the text, and the speaker's number once voices are told apart.
pub struct Segment {
    pub start: u64,
    pub text: String,
    pub spk: Option<u32>,
}

/// A timeline line as plain values.
pub struct SegmentView {
    pub start: nat,
    pub text: Seq<char>,
    pub spk: Option<u32>,
}

impl View for Segment {
    type V = SegmentView;

    open spec fn view(&self) -> SegmentView {
        SegmentView { start: self.start as nat, text: self.text@, spk: self.spk }
    }
}

/// A timeline as plain values.
pub open spec fn segments_view(list: Seq<Segment>) -> Seq<SegmentView> {
    list.map_values(|s: Segment| s@)
}

/// Names given to speakers, by speaker number written in decimal.
pub open spec fn names_view(names: Seq<(String, String)>) -> Seq<(Seq<char>, Seq<char>)> {
    names.map_values(|p: (String, String)| (p.0@, p.1@))
}

/// The name stored under `key`: the first entry with that key.
pub open spec fn name_for(names: Seq<(Seq<char>, Seq<char>)>, key: Seq<char>) -> Option<Seq<char>>
    decreases names.len(),
{
    if names.len() == 0 {
        None
    } else if names[0].0 == key {
        Some(names[0].1)
    } else {
        name_for(names.drop_first(), key)
    }
}

/// How a speaker is shown: the name given to them, unless blank, or
/// "Говорящий N" counting from one.
pub open spec fn speaker_name(spk: u32, names: Seq<(Seq<char>, Seq<char>)>) -> Seq<char> {
    match name_for(names, digits_of(spk as nat)) {
        Some(n) => if trim(n).len() > 0 {
            n
        } else {
            "Говорящий "@ + digits_of(spk as nat + 1)
        },
        None => "Говорящий "@ + digits_of(spk as nat + 1),
    }
}

fn lookup_name(names: &[(String, String)], key: &[char]) -> (r: Option<Vec<char>>)
    ensures
        match r {
            Some(v) => name_for(names_view(names@), key@) == Some(v@),
            None => name_for(names_view(names@), key@) is None,
        },
{
    let ghost nv = names_view(names@);
    proof {
        assert(nv.skip(0) =~= nv);
    }
    let mut i: usize = 0;
    while i < names.len()
        invariant
            i <= names@.len(),
            nv == names_view(names@),
            name_for(nv, key@) == name_for(nv.skip(i as int), key@),
        decreases names.len() - i,
    {
        proof {
            assert(nv.skip(i as int).drop_first() =~= nv.skip(i + 1));
        }
        let k = chars_of(names[i].0.as_str());
        if eq_chars(&k, key) {
            return Some(chars_of(names[i].1.as_str()));
        }
        i += 1;
    }
    None
}

/// The names without any entry under `key`.
pub open spec fn drop_key(names: Seq<(Seq<char>, Seq<char>)>, key: Seq<char>) -> Seq<(Seq<char>, Seq<char>)>
    decreases names.len(),
{
    if names.len() == 0 {
        Seq::empty()
    } else if names[0].0 == key {
        drop_key(names.drop_first(), key)
    } else {
        seq![names[0]] + drop_key(names.drop_first(), key)
    }
}

proof fn lemma_drop_key(names: Seq<(Seq<char>, Seq<char>)>, gone: Seq<char>, key: Seq<char>)
    ensures
        name_for(drop_key(names, gone), key) == (if key == gone { None } else { name_for(names, key) }),
    decreases names.len(),
{
    if names.len() > 0 {
        lemma_drop_key(names.drop_first(), gone, key);
        if names[0].0 != gone {
            assert((seq![names[0]] + drop_key(names.drop_first(), gone)).drop_first() =~= drop_key(
                names.drop_first(),
                gone,
            ));
        }
    }
}

proof fn lemma_name_after_push(names: Seq<(Seq<char>, Seq<char>)>, x: (Seq<char>, Seq<char>), key: Seq<char>)
    ensures
        name_for(names.push(x), key) == (match name_for(names, key) {
            Some(n) => Some(n),
            None => if x.0 == key { Some(x.1) } else { None },
        }),
    decreases names.len(),
{
    let p = names.push(x);
    if names.len() > 0 {
        assert(p[0] == names[0]);
        assert(p.drop_first() =~= names.drop_first().push(x));
        lemma_name_after_push(names.drop_first(), x, key);
        if names[0].0 == key {
            assert(name_for(p, key) == Some(names[0].1));
            assert(name_for(names, key) == Some(names[0].1));
        } else {
            assert(name_for(p, key) == name_for(p.drop_first(), key));
            assert(name_for(names, key) == name_for(names.drop_first(), key));
        }
    } else {
        assert(p[0] == x);
        assert(p.drop_first() =~= Seq::<(Seq<char>, Seq<char>)>::empty());
        if x.0 == key {
            assert(name_for(p, key) == Some(x.1));
        } else {
            assert(name_for(p, key) == name_for(p.drop_first(), key));
        }
    }
}

/// No speaker has two names, as in a map.
pub open spec fn names_distinct(names: Seq<(Seq<char>, Seq<char>)>) -> bool {
    forall|i: int, j: int| 0 <= i < j < names.len() ==> (#[trigger] names[i]).0 != (#[trigger] names[j]).0
}

/// Whether a speaker has an entry.
pub open spec fn has_name_key(names: Seq<(Seq<char>, Seq<char>)>, key: Seq<char>) -> bool {
    exists|j: int| 0 <= j < names.len() && (#[trigger] names[j]).0 == key
}

proof fn lemma_drop_key_keys(names: Seq<(Seq<char>, Seq<char>)>, key: Seq<char>)
    ensures
        forall|x: Seq<char>| #[trigger] has_name_key(drop_key(names, key), x) ==> has_name_key(names, x) && x != key,
        names_distinct(names) ==> names_distinct(drop_key(names, key)),
    decreases names.len(),
{
    if names.len() > 0 {
        let t = names.drop_first();
        lemma_drop_key_keys(t, key);
        let rest = drop_key(t, key);
        assert forall|x: Seq<char>| #[trigger] has_name_key(drop_key(names, key), x) implies has_name_key(names, x)
            && x != key by {
            let d = drop_key(names, key);
            let j = choose|j: int| 0 <= j < d.len() && (#[trigger] d[j]).0 == x;
            if names[0].0 == key {
                assert(has_name_key(rest, x));
                let m = choose|m: int| 0 <= m < t.len() && (#[trigger] t[m]).0 == x;
                assert(names[m + 1] == t[m]);
            } else {
                assert(d == seq![names[0]] + rest);
                if j == 0 {
                    assert(d[0] == names[0]);
                } else {
                    assert(d[j] == rest[j - 1]);
                    assert(has_name_key(rest, x));
                    let m = choose|m: int| 0 <= m < t.len() && (#[trigger] t[m]).0 == x;
                    assert(names[m + 1] == t[m]);
                }
            }
        }
        if names_distinct(names) {
            assert forall|a: int, b: int| 0 <= a < b < t.len() implies (#[trigger] t[a]).0 != (#[trigger] t[b]).0 by {
                assert(t[a] == names[a + 1] && t[b] == names[b + 1]);
            }
            if names[0].0 != key {
                let d = seq![names[0]] + rest;
                assert forall|a: int, b: int| 0 <= a < b < d.len() implies (#[trigger] d[a]).0 != (#[trigger] d[b]).0 by {
                    if a == 0 {
                        assert(d[b] == rest[b - 1]);
                        if rest[b - 1].0 == names[0].0 {
                            assert(has_name_key(rest, names[0].0));
                            let m = choose|m: int| 0 <= m < t.len() && (#[trigger] t[m]).0 == names[0].0;
                            assert(names[m + 1] == t[m]);
                        }
                    } else {
                        assert(d[a] == rest[a - 1] && d[b] == rest[b - 1]);
                    }
                }
            }
        }
    }
}

/// Gives speaker `speaker` a name, trimmed; a blank name takes the given
/// one away, so that the speaker is shown by number again. The names of
/// the other speakers stay as they were.
pub fn rename_speaker(names: &mut Vec<(String, String)>, speaker: u32, name: &str)
    ensures
        name_for(names_view(final(names)@), digits_of(speaker as nat)) == (if trim(name@).len() == 0 {
            None
        } else {
            Some(trim(name@))
        }),
        forall|key: Seq<char>|
            key != digits_of(speaker as nat) ==> #[trigger] name_for(names_view(final(names)@), key) == name_for(
                names_view(old(names)@),
                key,
            ),
        names_distinct(names_view(old(names)@)) ==> names_distinct(names_view(final(names)@)),
{
    let mut key: Vec<char> = Vec::new();
    push_digits(speaker as u64, &mut key);
    let ghost k0 = digits_of(speaker as nat);
    let ghost nv = names_view(names@);
    proof {
        assert(key@ =~= k0);
        assert(nv.skip(0) =~= nv);
    }
    let mut kept: Vec<(String, String)> = Vec::new();
    let mut i: usize = 0;
    while i < names.len()
        invariant
            i <= names@.len(),
            nv == names_view(names@),
            key@ == k0,
            drop_key(nv, k0) == names_view(kept@) + drop_key(nv.skip(i as int), k0),
        decreases names.len() - i,
    {
        proof {
            assert(nv.skip(i as int).drop_first() =~= nv.skip(i + 1));
            assert(nv.skip(i as int)[0] == nv[i as int]);
        }
        if !eq_chars(&chars_of(names[i].0.as_str()), &key) {
            let ghost before = names_view(kept@);
            kept.push((names[i].0.clone(), names[i].1.clone()));
            proof {
                assert(names_view(kept@) =~= before.push(nv[i as int]));
                assert(before + (seq![nv[i as int]] + drop_key(nv.skip(i + 1), k0)) =~= before.push(nv[i as int])
                    + drop_key(nv.skip(i + 1), k0));
            }
        }
        i += 1;
    }
    proof {
        assert(nv.skip(nv.len() as int) =~= Seq::<(Seq<char>, Seq<char>)>::empty());
        assert(names_view(kept@) =~= drop_key(nv, k0));
    }
    let t = trim_chars(&chars_of(name));
    let ghost dropped = names_view(kept@);
    if t.len() > 0 {
        let entry_name = string_of(&t);
        kept.push((string_of(&key), entry_name));
        proof {
            assert(names_view(kept@) =~= dropped.push((k0, t@)));
        }
    }
    proof {
        lemma_drop_key_keys(nv, k0);
        if t@.len() > 0 && names_distinct(nv) {
            let full = dropped.push((k0, t@));
            assert forall|a: int, b: int| 0 <= a < b < full.len() implies (#[trigger] full[a]).0 != (#[trigger] full[b]).0 by {
                assert(full[a] == dropped[a]);
                if b < dropped.len() {
                    assert(full[b] == dropped[b]);
                } else if dropped[a].0 == k0 {
                    assert(has_name_key(dropped, k0));
                }
            }
        }
        lemma_drop_key(nv, k0, k0);
        lemma_name_after_push(dropped, (k0, t@), k0);
        assert forall|key2: Seq<char>| key2 != k0 implies #[trigger] name_for(names_view(kept@), key2) == name_for(
            nv,
            key2,
        ) by {
            lemma_drop_key(nv, k0, key2);
            lemma_name_after_push(dropped, (k0, t@), key2);
        }
    }
    *names = kept;
}

/// The label of a speaker in exports.
pub fn speaker_label(spk: u32, names: &[(String, String)]) -> (r: String)
    requires
        spk < u32::MAX,
    ensures
        r@ == speaker_name(spk, names_view(names@)),
{
    let mut key: Vec<char> = Vec::new();
    push_digits(spk as u64, &mut key);
    assert(key@ =~= digits_of(spk as nat));
    match lookup_name(names, &key) {
        Some(n) => {
            if trim_chars(&n).len() > 0 {
                return string_of(&n);
            }
        },
        None => {},
    }
    let mut out = chars_of("Говорящий ");
    push_digits(spk as u64 + 1, &mut out);
    string_of(&out)
}

/// The speaker label written where the voice changes, as in a play; none
/// when the voice is the same as on the line before.
pub open spec fn speaker_change(
    segs: Seq<SegmentView>,
    i: int,
    names: Seq<(Seq<char>, Seq<char>)>,
) -> Option<Seq<char>> {
    match segs[i].spk {
        None => None,
        Some(spk) => if i > 0 && segs[i - 1].spk == Some(spk) {
            None
        } else {
            Some(speaker_name(spk, names))
        },
    }
}

/// Speaker numbers are below the largest `u32`, so the label counting from
/// one stays in range.
pub open spec fn speakers_in_range(segs: Seq<SegmentView>) -> bool {
    forall|i: int| 0 <= i < segs.len() && segs[i].spk is Some ==> (#[trigger] segs[i]).spk->0 < u32::MAX
}

/// The caption above segment `i`: the speaker's name where the speaker
/// changes, nothing where it stays the same.
pub fn speaker_at(segs: &[Segment], i: usize, names: &[(String, String)]) -> (r: Option<String>)
    requires
        i < segs@.len(),
        speakers_in_range(segments_view(segs@)),
    ensures
        match r {
            Some(v) => speaker_change(segments_view(segs@), i as int, names_view(names@)) == Some(v@),
            None => speaker_change(segments_view(segs@), i as int, names_view(names@)) is None,
        },
{
    let spk = match segs[i].spk {
        Some(s) => s,
        None => return None,
    };
    proof {
        assert(segments_view(segs@)[i as int].spk == Some(spk));
    }
    if i > 0 && segs[i - 1].spk == Some(spk) {
        proof {
            assert(segments_view(segs@)[i - 1].spk == Some(spk));
        }
        return None;
    }
    if i > 0 {
        proof {
            assert(segments_view(segs@)[i - 1].spk == segs@[i - 1].spk);
        }
    }
    Some(speaker_label(spk, names))
}

// --- times -------------------------------------------------------------------------------

/// A number of at least two digits: `{:02}`.
pub open spec fn two_digits(n: nat) -> Seq<char> {
    if n < 10 {
        seq!['0'] + digits_of(n)
    } else {
        digits_of(n)
    }
}

/// A time in the timeline: "12:34", or "1:02:34" from an hour on.
pub open spec fn clock_text(total: nat) -> Seq<char> {
    let h = total / 3600;
    let m = total % 3600 / 60;
    let s = total % 60;
    if h > 0 {
        digits_of(h) + seq![':'] + two_digits(m) + seq![':'] + two_digits(s)
    } else {
        two_digits(m) + seq![':'] + two_digits(s)
    }
}

proof fn lemma_two_digits(v: nat)
    requires
        v < 100,
    ensures
        two_digits(v).len() == 2,
        crate::numbers::all_digits(two_digits(v)),
        crate::numbers::dec_value(two_digits(v)) == v,
{
    crate::numbers::lemma_digits_of(v);
    if v < 10 {
        let d = digits_of(v);
        assert(d == seq![((v + 48) as u32) as char]);
        let t = seq!['0'] + d;
        assert(t.drop_last() =~= seq!['0']);
        assert(t.last() == d[0]);
        assert(seq!['0'].drop_last() =~= Seq::<char>::empty());
        assert(crate::numbers::dec_value(seq!['0']) == crate::numbers::dec_value(Seq::<char>::empty()) * 10
            + crate::numbers::digit_value('0'));
        assert(crate::numbers::dec_value(d) == crate::numbers::digit_value(d[0])) by {
            assert(d.drop_last() =~= Seq::<char>::empty());
        }
        assert forall|i: int| 0 <= i < t.len() implies crate::text::ascii_digit(#[trigger] t[i]) by {
            if i == 1 {
                assert(t[1] == d[0]);
            }
        }
    } else {
        crate::numbers::lemma_digits_of(v / 10);
        assert(digits_of(v / 10).len() == 1);
    }
}

/// A clock label reads back to its time: it is "[h:]mm:ss", minutes and
/// seconds in two digits below 60, the hours written (before a colon) from
/// an hour on, and h * 3600 + m * 60 + s is the time.
pub proof fn law_clock_reads_back(total: nat)
    ensures
        ({
            let t = clock_text(total);
            let n = t.len() as int;
            let sec = t.subrange(n - 2, n);
            let min = t.subrange(n - 5, n - 3);
            &&& n >= 5 && t[n - 3] == ':'
            &&& crate::numbers::all_digits(sec) && crate::numbers::all_digits(min)
            &&& crate::numbers::dec_value(sec) < 60 && crate::numbers::dec_value(min) < 60
            &&& if total < 3600 {
                n == 5 && crate::numbers::dec_value(min) * 60 + crate::numbers::dec_value(sec) == total
            } else {
                &&& n >= 7 && t[n - 6] == ':'
                &&& crate::numbers::all_digits(t.take(n - 6))
                &&& crate::numbers::dec_value(t.take(n - 6)) * 3600 + crate::numbers::dec_value(min) * 60
                    + crate::numbers::dec_value(sec) == total
            }
        }),
{
    let h = total / 3600;
    let m = total % 3600 / 60;
    let sc = total % 60;
    lemma_two_digits(m);
    lemma_two_digits(sc);
    let t = clock_text(total);
    let n = t.len() as int;
    let tm = two_digits(m);
    let ts = two_digits(sc);
    if h > 0 {
        let hd = digits_of(h);
        crate::numbers::lemma_digits_of(h);
        assert(t == hd + seq![':'] + tm + seq![':'] + ts);
        assert(t.subrange(n - 2, n) =~= ts);
        assert(t.subrange(n - 5, n - 3) =~= tm);
        assert(t.take(n - 6) =~= hd);
        assert(t[n - 3] == ':');
        assert(t[n - 6] == ':');
        assert(h * 3600 + m * 60 + sc == total);
    } else {
        assert(t == tm + seq![':'] + ts);
        assert(t.subrange(n - 2, n) =~= ts);
        assert(t.subrange(n - 5, n - 3) =~= tm);
        assert(t[n - 3] == ':');
    }
}

/// A duration for the head of a file: "1 ч 42 мин", "12 мин" or "40 с".
pub open spec fn duration_text(total: nat) -> Seq<char> {
    let h = total / 3600;
    let m = total % 3600 / 60;
    if h == 0 && m == 0 {
        digits_of(total) + " с"@
    } else if h == 0 {
        digits_of(m) + " мин"@
    } else {
        digits_of(h) + " ч "@ + digits_of(m) + " мин"@
    }
}

pub(crate) fn push_two(n: u64, out: &mut Vec<char>)
    ensures
        final(out)@ == old(out)@ + two_digits(n as nat),
{
    if n < 10 {
        out.push('0');
    }
    push_digits(n, out);
    proof {
        assert(final(out)@ =~= old(out)@ + two_digits(n as nat));
    }
}

/// The time of a timeline line.
pub fn clock_label(seconds: u64) -> (r: String)
    ensures
        r@ == clock_text(seconds as nat),
{
    let h = seconds / 3600;
    let m = seconds % 3600 / 60;
    let s = seconds % 60;
    let mut out: Vec<char> = Vec::new();
    if h > 0 {
        push_digits(h, &mut out);
        out.push(':');
        push_two(m, &mut out);
        out.push(':');
        push_two(s, &mut out);
    } else {
        push_two(m, &mut out);
        out.push(':');
        push_two(s, &mut out);
    }
    proof {
        assert(out@ =~= clock_text(seconds as nat));
    }
    string_of(&out)
}

/// The duration of a recording for the head of an export.
pub fn duration_label(seconds: u64) -> (r: String)
    ensures
        r@ == duration_text(seconds as nat),
{
    let h = seconds / 3600;
    let m = seconds % 3600 / 60;
    let mut out: Vec<char> = Vec::new();
    if h == 0 && m == 0 {
        push_digits(seconds, &mut out);
        append(&mut out, &chars_of(" с"));
    } else if h == 0 {
        push_digits(m, &mut out);
        append(&mut out, &chars_of(" мин"));
    } else {
        push_digits(h, &mut out);
        append(&mut out, &chars_of(" ч "));
        push_digits(m, &mut out);
        append(&mut out, &chars_of(" мин"));
    }
    proof {
        assert(out@ =~= duration_text(seconds as nat));
    }
    string_of(&out)
}

// --- the summary in exports ---------------------------------------------------------------

/// A line of a summary as exports show it: a heading without its "##", a
/// list item with a bullet, or the line itself.
pub open spec fn summary_line(l: Seq<char>) -> (bool, Seq<char>) {
    if starts(l, "##"@) {
        (true, trim(trim_start_by(l.skip(2), one_of(seq!['#']))))
    } else if starts(l, "- "@) || starts(l, "• "@) {
        (false, "• "@ + l.skip(2))
    } else {
        (false, l)
    }
}

/// The non-blank lines of a summary, trimmed, as exports show them.
pub open spec fn summary_rows(ls: Seq<Seq<char>>) -> Seq<(bool, Seq<char>)>
    decreases ls.len(),
{
    if ls.len() == 0 {
        Seq::empty()
    } else if trim(ls.last()).len() == 0 {
        summary_rows(ls.drop_last())
    } else {
        summary_rows(ls.drop_last()).push(summary_line(trim(ls.last())))
    }
}

/// Rows as plain values.
pub open spec fn rows_view(v: Seq<(bool, String)>) -> Seq<(bool, Seq<char>)> {
    v.map_values(|r: (bool, String)| (r.0, r.1@))
}

/// The lines of a summary for export: whether each is a heading, and its
/// text without markdown marks.
pub fn summary_lines(summary: &str) -> (r: Vec<(bool, String)>)
    ensures
        rows_view(r@) == summary_rows(lines(summary@)),
{
    let ls = lines_of(&chars_of(summary));
    let ghost lv = lines(summary@);
    let hashes = chars_of("##");
    let dash = chars_of("- ");
    let dot = chars_of("• ");
    proof {
        reveal_strlit("##");
        reveal_strlit("- ");
        reveal_strlit("• ");
    }
    let mut out: Vec<(bool, String)> = Vec::new();
    let mut i: usize = 0;
    while i < ls.len()
        invariant
            i <= ls@.len(),
            ls@.len() == lv.len(),
            lv == lines(summary@),
            forall|k: int| 0 <= k < ls@.len() ==> #[trigger] ls@[k]@ == lv[k],
            hashes@ == "##"@,
            dash@ == "- "@,
            dot@ == "• "@,
            rows_view(out@) == summary_rows(lv.take(i as int)),
        decreases ls.len() - i,
    {
        proof {
            assert(lv.take(i + 1).drop_last() =~= lv.take(i as int));
            assert(lv.take(i + 1).last() == ls@[i as int]@);
            reveal_strlit("##");
            reveal_strlit("- ");
            reveal_strlit("• ");
        }
        let l = trim_chars(&ls[i]);
        if l.len() > 0 {
            let ghost before = out@;
            if starts_with(&l, &hashes) {
                let rest = slice_vec(&l, 2, l.len());
                proof {
                    assert(rest@ =~= l@.skip(2));
                }
                let h = trim_chars(&trim_start_set(&rest, &['#']));
                proof {
                    assert(['#']@ =~= seq!['#']);
                }
                out.push((true, string_of(&h)));
            } else if starts_with(&l, &dash) || starts_with(&l, &dot) {
                let rest = slice_vec(&l, 2, l.len());
                let mut b = chars_of("• ");
                append(&mut b, &rest);
                proof {
                    assert(b@ =~= "• "@ + l@.skip(2));
                }
                out.push((false, string_of(&b)));
            } else {
                out.push((false, string_of(&l)));
            }
            proof {
                assert(rows_view(out@) =~= rows_view(before).push(summary_line(l@)));
            }
        }
        i += 1;
    }
    proof {
        assert(lv.take(ls@.len() as int) =~= lv);
    }
    out
}

// --- export bodies ------------------------------------------------------------------------

/// The pieces `f(0)`, …, `f(k - 1)` one after another.
pub open spec fn rendered(k: int, f: spec_fn(int) -> Seq<char>) -> Seq<char>
    decreases k,
{
    if k <= 0 {
        Seq::empty()
    } else {
        rendered(k - 1, f) + f(k - 1)
    }
}

/// A character made safe for HTML.
pub open spec fn escape_char(c: char) -> Seq<char> {
    if c == '&' {
        "&amp;"@
    } else if c == '<' {
        "&lt;"@
    } else if c == '>' {
        "&gt;"@
    } else {
        seq![c]
    }
}

/// Text made safe for HTML: `&`, `<` and `>` escaped.
pub open spec fn escaped(s: Seq<char>) -> Seq<char> {
    rendered(s.len() as int, |i: int| escape_char(s[i]))
}

/// Text made safe for HTML.
pub fn esc(s: &str) -> (r: String)
    ensures
        r@ == escaped(s@),
{
    let c = chars_of(s);
    let ghost f = |i: int| escape_char(s@[i]);
    let mut out: Vec<char> = Vec::new();
    let mut i: usize = 0;
    while i < c.len()
        invariant
            i <= c@.len(),
            c@ == s@,
            f == (|i: int| escape_char(s@[i])),
            out@ == rendered(i as int, f),
        decreases c.len() - i,
    {
        let ch = c[i];
        if ch == '&' {
            append(&mut out, &chars_of("&amp;"));
        } else if ch == '<' {
            append(&mut out, &chars_of("&lt;"));
        } else if ch == '>' {
            append(&mut out, &chars_of("&gt;"));
        } else {
            out.push(ch);
            proof {
                assert(out@ =~= rendered(i as int, f) + seq![ch]);
            }
        }
        i += 1;
    }
    string_of(&out)
}

/// The summary part of a text export: each line on its own line, a blank
/// line before each heading.
pub open spec fn text_summary(rows: Seq<(bool, Seq<char>)>) -> Seq<char> {
    rendered(rows.len() as int, |i: int| (if rows[i].0 { "\n"@ } else { Seq::empty() }) + rows[i].1 + "\n"@)
}

/// A timeline line of a text export, with the speaker above it where the
/// voice changes.
pub open spec fn text_row(segs: Seq<SegmentView>, i: int, names: Seq<(Seq<char>, Seq<char>)>) -> Seq<char> {
    (match speaker_change(segs, i, names) {
        Some(n) => (if i > 0 { "\n"@ } else { Seq::empty() }) + n + "\n"@,
        None => Seq::empty(),
    }) + clock_text(segs[i].start) + "  "@ + segs[i].text + "\n"@
}

/// A plain-text export.
pub open spec fn text_export(
    title: Seq<char>,
    duration: Seq<char>,
    summary: Seq<char>,
    segs: Seq<SegmentView>,
    names: Seq<(Seq<char>, Seq<char>)>,
) -> Seq<char> {
    title + "\n"@ + duration + "\n\n"@ + text_summary(summary_rows(lines(summary)))
        + (if summary.len() > 0 { "\n"@ } else { Seq::empty() })
        + rendered(segs.len() as int, |i: int| text_row(segs, i, names))
}

/// A timeline line of a markdown export.
pub open spec fn md_row(segs: Seq<SegmentView>, i: int, names: Seq<(Seq<char>, Seq<char>)>) -> Seq<char> {
    (match speaker_change(segs, i, names) {
        Some(n) => "## "@ + n + "\n\n"@,
        None => Seq::empty(),
    }) + "**"@ + clock_text(segs[i].start) + "** "@ + segs[i].text + "\n\n"@
}

/// A markdown export.
pub open spec fn markdown_export(
    title: Seq<char>,
    duration: Seq<char>,
    summary: Seq<char>,
    segs: Seq<SegmentView>,
    names: Seq<(Seq<char>, Seq<char>)>,
) -> Seq<char> {
    "# "@ + title + "\n\n*"@ + duration + "*\n\n"@
        + (if summary.len() > 0 { trim(summary) + "\n\n---\n\n"@ } else { Seq::empty() })
        + rendered(segs.len() as int, |i: int| md_row(segs, i, names))
}

/// The summary part of an HTML export.
pub open spec fn html_summary(rows: Seq<(bool, Seq<char>)>) -> Seq<char> {
    rendered(
        rows.len() as int,
        |i: int|
            if rows[i].0 {
                "<p style=\"font-size:12pt;font-weight:500;margin-top:14pt\">"@ + escaped(rows[i].1) + "</p>"@
            } else {
                "<p style=\"font-size:11pt\">"@ + escaped(rows[i].1) + "</p>"@
            },
    )
}

/// A timeline line of an HTML export.
pub open spec fn html_row(segs: Seq<SegmentView>, i: int, names: Seq<(Seq<char>, Seq<char>)>) -> Seq<char> {
    (match speaker_change(segs, i, names) {
        Some(n) => "<p style=\"font-size:12pt;font-weight:500;margin-top:16pt\">"@ + escaped(n) + "</p>"@,
        None => Seq::empty(),
    }) + "<p style=\"font-size:11pt\"><span style=\"color:#8a8a8a;font-size:9pt\">"@ + escaped(
        clock_text(segs[i].start),
    ) + "&nbsp;&nbsp;</span>"@ + escaped(segs[i].text) + "</p>"@
}

/// An HTML export.
pub open spec fn html_export(
    title: Seq<char>,
    duration: Seq<char>,
    summary: Seq<char>,
    segs: Seq<SegmentView>,
    names: Seq<(Seq<char>, Seq<char>)>,
) -> Seq<char> {
    "<html><head><meta charset=\"utf-8\"></head><body style=\"font-family:Helvetica,Arial,sans-serif\">"@
        + "<h1 style=\"font-size:18pt;font-weight:500\">"@ + escaped(title)
        + "</h1><p style=\"color:#8a8a8a;font-size:10pt\">"@ + escaped(duration) + "</p>"@
        + html_summary(summary_rows(lines(summary)))
        + rendered(segs.len() as int, |i: int| html_row(segs, i, names)) + "</body></html>"@
}

/// A meeting as plain text: title, duration, summary, then the timeline
/// with speakers where the voice changes.
#[verifier::spinoff_prover]
#[verifier::rlimit(40)]
pub fn as_text(
    title: &str,
    duration: &str,
    summary: &str,
    segments: &[Segment],
    names: &[(String, String)],
) -> (r: String)
    requires
        speakers_in_range(segments_view(segments@)),
    ensures
        r@ == text_export(title@, duration@, summary@, segments_view(segments@), names_view(names@)),
{
    let ghost sv = segments_view(segments@);
    let ghost nv = names_view(names@);
    let mut out = chars_of(title);
    append(&mut out, &chars_of("\n"));
    append(&mut out, &chars_of(duration));
    append(&mut out, &chars_of("\n\n"));
    let rows = summary_lines(summary);
    let ghost rv = rows_view(rows@);
    let ghost head = out@;
    let ghost fs = |i: int| (if rv[i].0 { "\n"@ } else { Seq::<char>::empty() }) + rv[i].1 + "\n"@;
    let mut k: usize = 0;
    while k < rows.len()
        invariant
            k <= rows@.len(),
            rv == rows_view(rows@),
            fs == (|i: int| (if rv[i].0 { "\n"@ } else { Seq::<char>::empty() }) + rv[i].1 + "\n"@),
            out@ == head + rendered(k as int, fs),
        decreases rows.len() - k,
    {
        if rows[k].0 {
            append(&mut out, &chars_of("\n"));
        }
        append(&mut out, &chars_of(rows[k].1.as_str()));
        append(&mut out, &chars_of("\n"));
        proof {
            assert(out@ =~= head + rendered(k + 1, fs));
        }
        k += 1;
    }
    proof {
        assert(rendered(rows@.len() as int, fs) == text_summary(rv));
    }
    if !summary.is_empty() {
        append(&mut out, &chars_of("\n"));
    }
    let ghost mid = out@;
    let ghost f = |i: int| text_row(sv, i, nv);
    let mut i: usize = 0;
    while i < segments.len()
        invariant
            i <= segments@.len(),
            sv == segments_view(segments@),
            nv == names_view(names@),
            speakers_in_range(sv),
            f == (|i: int| text_row(sv, i, nv)),
            out@ == mid + rendered(i as int, f),
        decreases segments.len() - i,
    {
        match speaker_at(segments, i, names) {
            Some(name) => {
                if i > 0 {
                    append(&mut out, &chars_of("\n"));
                }
                append(&mut out, &chars_of(name.as_str()));
                append(&mut out, &chars_of("\n"));
            },
            None => {},
        }
        append(&mut out, &chars_of(clock_label(segments[i].start).as_str()));
        append(&mut out, &chars_of("  "));
        append(&mut out, &chars_of(segments[i].text.as_str()));
        append(&mut out, &chars_of("\n"));
        proof {
            assert(sv[i as int].start == segments@[i as int].start);
            assert(sv[i as int].text == segments@[i as int].text@);
            assert(out@ =~= mid + rendered(i + 1, f));
        }
        i += 1;
    }
    string_of(&out)
}

/// A meeting as markdown: title, duration, summary under a rule, then the
/// timeline with a heading where the voice changes.
#[verifier::spinoff_prover]
#[verifier::rlimit(40)]
pub fn as_markdown(
    title: &str,
    duration: &str,
    summary: &str,
    segments: &[Segment],
    names: &[(String, String)],
) -> (r: String)
    requires
        speakers_in_range(segments_view(segments@)),
    ensures
        r@ == markdown_export(title@, duration@, summary@, segments_view(segments@), names_view(names@)),
{
    let ghost sv = segments_view(segments@);
    let ghost nv = names_view(names@);
    let mut out = chars_of("# ");
    append(&mut out, &chars_of(title));
    append(&mut out, &chars_of("\n\n*"));
    append(&mut out, &chars_of(duration));
    append(&mut out, &chars_of("*\n\n"));
    if !summary.is_empty() {
        append(&mut out, &trim_chars(&chars_of(summary)));
        append(&mut out, &chars_of("\n\n---\n\n"));
    }
    let ghost mid = out@;
    let ghost f = |i: int| md_row(sv, i, nv);
    let mut i: usize = 0;
    while i < segments.len()
        invariant
            i <= segments@.len(),
            sv == segments_view(segments@),
            nv == names_view(names@),
            speakers_in_range(sv),
            f == (|i: int| md_row(sv, i, nv)),
            out@ == mid + rendered(i as int, f),
        decreases segments.len() - i,
    {
        match speaker_at(segments, i, names) {
            Some(name) => {
                append(&mut out, &chars_of("## "));
                append(&mut out, &chars_of(name.as_str()));
                append(&mut out, &chars_of("\n\n"));
            },
            None => {},
        }
        append(&mut out, &chars_of("**"));
        append(&mut out, &chars_of(clock_label(segments[i].start).as_str()));
        append(&mut out, &chars_of("** "));
        append(&mut out, &chars_of(segments[i].text.as_str()));
        append(&mut out, &chars_of("\n\n"));
        proof {
            assert(sv[i as int].start == segments@[i as int].start);
            assert(sv[i as int].text == segments@[i as int].text@);
            assert(out@ =~= mid + rendered(i + 1, f));
        }
        i += 1;
    }
    string_of(&out)
}

/// A meeting as HTML with inline styles, for word processors.
#[verifier::spinoff_prover]
#[verifier::rlimit(40)]
pub fn as_html(
    title: &str,
    duration: &str,
    summary: &str,
    segments: &[Segment],
    names: &[(String, String)],
) -> (r: String)
    requires
        speakers_in_range(segments_view(segments@)),
    ensures
        r@ == html_export(title@, duration@, summary@, segments_view(segments@), names_view(names@)),
{
    let ghost sv = segments_view(segments@);
    let ghost nv = names_view(names@);
    let mut out = chars_of("<html><head><meta charset=\"utf-8\"></head><body style=\"font-family:Helvetica,Arial,sans-serif\">");
    append(&mut out, &chars_of("<h1 style=\"font-size:18pt;font-weight:500\">"));
    append(&mut out, &chars_of(esc(title).as_str()));
    append(&mut out, &chars_of("</h1><p style=\"color:#8a8a8a;font-size:10pt\">"));
    append(&mut out, &chars_of(esc(duration).as_str()));
    append(&mut out, &chars_of("</p>"));
    let rows = summary_lines(summary);
    let ghost rv = rows_view(rows@);
    let ghost head = out@;
    let ghost fs = |i: int|
        if rv[i].0 {
            "<p style=\"font-size:12pt;font-weight:500;margin-top:14pt\">"@ + escaped(rv[i].1) + "</p>"@
        } else {
            "<p style=\"font-size:11pt\">"@ + escaped(rv[i].1) + "</p>"@
        };
    let mut k: usize = 0;
    while k < rows.len()
        invariant
            k <= rows@.len(),
            rv == rows_view(rows@),
            fs == (|i: int|
                if rv[i].0 {
                    "<p style=\"font-size:12pt;font-weight:500;margin-top:14pt\">"@ + escaped(rv[i].1) + "</p>"@
                } else {
                    "<p style=\"font-size:11pt\">"@ + escaped(rv[i].1) + "</p>"@
                }),
            out@ == head + rendered(k as int, fs),
        decreases rows.len() - k,
    {
        if rows[k].0 {
            append(&mut out, &chars_of("<p style=\"font-size:12pt;font-weight:500;margin-top:14pt\">"));
        } else {
            append(&mut out, &chars_of("<p style=\"font-size:11pt\">"));
        }
        append(&mut out, &chars_of(esc(rows[k].1.as_str()).as_str()));
        append(&mut out, &chars_of("</p>"));
        proof {
            assert(out@ =~= head + rendered(k + 1, fs));
        }
        k += 1;
    }
    let ghost mid = out@;
    let ghost f = |i: int| html_row(sv, i, nv);
    let mut i: usize = 0;
    while i < segments.len()
        invariant
            i <= segments@.len(),
            sv == segments_view(segments@),
            nv == names_view(names@),
            speakers_in_range(sv),
            f == (|i: int| html_row(sv, i, nv)),
            out@ == mid + rendered(i as int, f),
        decreases segments.len() - i,
    {
        match speaker_at(segments, i, names) {
            Some(name) => {
                append(&mut out, &chars_of("<p style=\"font-size:12pt;font-weight:500;margin-top:16pt\">"));
                append(&mut out, &chars_of(esc(name.as_str()).as_str()));
                append(&mut out, &chars_of("</p>"));
            },
            None => {},
        }
        append(&mut out, &chars_of("<p style=\"font-size:11pt\"><span style=\"color:#8a8a8a;font-size:9pt\">"));
        append(&mut out, &chars_of(esc(clock_label(segments[i].start).as_str()).as_str()));
        append(&mut out, &chars_of("&nbsp;&nbsp;</span>"));
        append(&mut out, &chars_of(esc(segments[i].text.as_str()).as_str()));
        append(&mut out, &chars_of("</p>"));
        proof {
            assert(sv[i as int].start == segments@[i as int].start);
            assert(sv[i as int].text == segments@[i as int].text@);
            assert(out@ =~= mid + rendered(i + 1, f));
        }
        i += 1;
    }
    append(&mut out, &chars_of("</body></html>"));
    proof {
        assert(rendered(rows@.len() as int, fs) == html_summary(rv));
    }
    string_of(&out)
}

/// The percent of a transcription after `done` of `count` pieces, at most
/// 100 (a job without pieces counts as one piece).
pub fn job_percent(done: usize, count: usize) -> (r: u8)
    ensures
        r as int == (if (done * 100) / (if count > 0 { count as int } else { 1 }) < 100 {
            (done * 100) / (if count > 0 { count as int } else { 1 })
        } else {
            100
        }),
{
    let c: u128 = if count > 0 { count as u128 } else { 1 };
    let p: u128 = (done as u128) * 100 / c;
    if p < 100 {
        p as u8
    } else {
        100
    }
}

// --- several meetings in one file -------------------------------------------------------

/// One meeting of a combined export: its title and duration as they are
/// shown, its summary, its timeline and its speaker names.
pub struct ExportPart {
    pub title: String,
    pub duration: String,
    pub summary: String,
    pub segments: Vec<Segment>,
    pub names: Vec<(String, String)>,
}

/// Every part's speaker numbers leave room for the one-based caption.
pub open spec fn parts_in_range(parts: Seq<ExportPart>) -> bool {
    forall|i: int| 0 <= i < parts.len() ==> speakers_in_range(segments_view((#[trigger] parts[i]).segments@))
}

/// A part as plain text.
pub open spec fn part_text(p: ExportPart) -> Seq<char> {
    text_export(p.title@, p.duration@, p.summary@, segments_view(p.segments@), names_view(p.names@))
}

/// A part as markdown.
pub open spec fn part_markdown(p: ExportPart) -> Seq<char> {
    markdown_export(p.title@, p.duration@, p.summary@, segments_view(p.segments@), names_view(p.names@))
}

/// Several meetings in one text file, one after another with a rule between.
pub fn combined_text(parts: &[ExportPart]) -> (r: String)
    requires
        parts_in_range(parts@),
    ensures
        r@ == join(parts@.map_values(|p: ExportPart| part_text(p)), "\n————————\n\n"@),
{
    let mut pieces: Vec<Vec<char>> = Vec::new();
    let mut i: usize = 0;
    while i < parts.len()
        invariant
            i <= parts@.len(),
            parts_in_range(parts@),
            pieces@.len() == i,
            forall|k: int| 0 <= k < i ==> #[trigger] pieces@[k]@ == part_text(parts@[k]),
        decreases parts.len() - i,
    {
        let p = &parts[i];
        assert(speakers_in_range(segments_view(parts@[i as int].segments@)));
        let t = as_text(p.title.as_str(), p.duration.as_str(), p.summary.as_str(), &p.segments, &p.names);
        pieces.push(chars_of(t.as_str()));
        i += 1;
    }
    let r = join_chars(&pieces, &chars_of("\n————————\n\n"));
    proof {
        assert(pieces@.map_values(|x: Vec<char>| x@) =~= parts@.map_values(|p: ExportPart| part_text(p)));
    }
    string_of(&r)
}

/// Several meetings in one markdown file, one after another with a rule
/// between.
pub fn combined_markdown(parts: &[ExportPart]) -> (r: String)
    requires
        parts_in_range(parts@),
    ensures
        r@ == join(parts@.map_values(|p: ExportPart| part_markdown(p)), "---\n\n"@),
{
    let mut pieces: Vec<Vec<char>> = Vec::new();
    let mut i: usize = 0;
    while i < parts.len()
        invariant
            i <= parts@.len(),
            parts_in_range(parts@),
            pieces@.len() == i,
            forall|k: int| 0 <= k < i ==> #[trigger] pieces@[k]@ == part_markdown(parts@[k]),
        decreases parts.len() - i,
    {
        let p = &parts[i];
        assert(speakers_in_range(segments_view(parts@[i as int].segments@)));
        let t = as_markdown(p.title.as_str(), p.duration.as_str(), p.summary.as_str(), &p.segments, &p.names);
        pieces.push(chars_of(t.as_str()));
        i += 1;
    }
    let r = join_chars(&pieces, &chars_of("---\n\n"));
    proof {
        assert(pieces@.map_values(|x: Vec<char>| x@) =~= parts@.map_values(|p: ExportPart| part_markdown(p)));
    }
    string_of(&r)
}

// --- file names and titles -----------------------------------------------------------------

/// A character of a title as it may stand in a file name: a colon becomes
/// a dot, characters no file system takes become spaces.
pub open spec fn file_char(c: char) -> char {
    if c == ':' {
        '.'
    } else if c == '\\' || c == '/' || c == '*' || c == '?' || c == '"' || c == '<' || c == '>' || c
        == '|' {
        ' '
    } else {
        c
    }
}

/// A meeting title fit for a file name.
pub fn safe_file_name(title: &str) -> (r: String)
    ensures
        r@ == title@.map_values(|c: char| file_char(c)),
{
    let t = chars_of(title);
    let mut out: Vec<char> = Vec::new();
    let mut i: usize = 0;
    while i < t.len()
        invariant
            i <= t@.len(),
            t@ == title@,
            out@ == t@.take(i as int).map_values(|c: char| file_char(c)),
        decreases t.len() - i,
    {
        let c = t[i];
        let d = if c == ':' {
            '.'
        } else if c == '\\' || c == '/' || c == '*' || c == '?' || c == '"' || c == '<' || c == '>'
            || c == '|' {
            ' '
        } else {
            c
        };
        out.push(d);
        proof {
            assert(out@ =~= t@.take(i + 1).map_values(|c: char| file_char(c)));
        }
        i += 1;
    }
    proof {
        assert(t@.take(t@.len() as int) =~= t@);
    }
    string_of(&out)
}

/// A character of a title as it may stand in the name of a kept source
/// file: colons and slashes become dots.
pub open spec fn source_char(c: char) -> char {
    if c == ':' || c == '/' || c == '\\' {
        '.'
    } else {
        c
    }
}

/// The name a downloaded source is kept under, from the meeting title.
pub fn source_file_name(title: &str) -> (r: String)
    ensures
        r@ == title@.map_values(|c: char| source_char(c)),
{
    let t = chars_of(title);
    let mut out: Vec<char> = Vec::new();
    let mut i: usize = 0;
    while i < t.len()
        invariant
            i <= t@.len(),
            t@ == title@,
            out@ == t@.take(i as int).map_values(|c: char| source_char(c)),
        decreases t.len() - i,
    {
        let c = t[i];
        let d = if c == ':' || c == '/' || c == '\\' { '.' } else { c };
        out.push(d);
        proof {
            assert(out@ =~= t@.take(i + 1).map_values(|c: char| source_char(c)));
        }
        i += 1;
    }
    proof {
        assert(t@.take(t@.len() as int) =~= t@);
    }
    string_of(&out)
}

/// The characters of `s` other than `c`.
pub open spec fn without_char(s: Seq<char>, c: char) -> Seq<char>
    decreases s.len(),
{
    if s.len() == 0 {
        s
    } else if s.last() == c {
        without_char(s.drop_last(), c)
    } else {
        without_char(s.drop_last(), c).push(s.last())
    }
}

/// How many characters of `s` are letters or digits.
pub open spec fn alnum_count(s: Seq<char>) -> nat
    decreases s.len(),
{
    if s.len() == 0 {
        0
    } else {
        alnum_count(s.drop_last()) + if crate::text::unicode_alphanumeric(s.last()) { 1nat } else { 0nat }
    }
}

/// A title cleaned of replacement characters (U+FFFD, left by text that
/// came in another encoding) and trimmed; with no letter or digit left the
/// fallback stands instead.
pub open spec fn cleaned_title(title: Seq<char>, fallback: Seq<char>) -> Seq<char> {
    let cleaned = trim(without_char(title, '\u{FFFD}'));
    if alnum_count(cleaned) == 0 {
        fallback
    } else {
        cleaned
    }
}

/// The title of an imported meeting from a file or page name.
pub fn clean_title(title: &str, fallback: &str) -> (r: String)
    ensures
        r@ == cleaned_title(title@, fallback@),
{
    let t = chars_of(title);
    let mut kept: Vec<char> = Vec::new();
    let mut i: usize = 0;
    while i < t.len()
        invariant
            i <= t@.len(),
            t@ == title@,
            kept@ == without_char(t@.take(i as int), '\u{FFFD}'),
        decreases t.len() - i,
    {
        proof {
            assert(t@.take(i + 1).drop_last() =~= t@.take(i as int));
        }
        if t[i] != '\u{FFFD}' {
            kept.push(t[i]);
        }
        i += 1;
    }
    proof {
        assert(t@.take(t@.len() as int) =~= t@);
    }
    let cleaned = trim_chars(&kept);
    let mut letters: usize = 0;
    let mut j: usize = 0;
    while j < cleaned.len()
        invariant
            j <= cleaned@.len(),
            letters <= j,
            letters == alnum_count(cleaned@.take(j as int)),
        decreases cleaned.len() - j,
    {
        proof {
            assert(cleaned@.take(j + 1).drop_last() =~= cleaned@.take(j as int));
        }
        if crate::text::is_alphanumeric(cleaned[j]) {
            letters += 1;
        }
        j += 1;
    }
    proof {
        assert(cleaned@.take(cleaned@.len() as int) =~= cleaned@);
    }
    if letters == 0 {
        string_of(&chars_of(fallback))
    } else {
        string_of(&cleaned)
    }
}

// --- the record of a meeting ----------------------------------------------------------------

/// What is kept about a meeting. The duration is held as the bit pattern of
/// its `f32` seconds; it is compared as an `f32` (see
/// `sync::merge::f32_less`).
pub struct Meta {
    pub title: String,
    pub at: i64,
    pub seconds_bits: u32,
    pub state: String,
    pub imported: bool,
    /// The project the meeting belongs to; `None` is "no project".
    pub project: Option<String>,
    /// How many speakers were told apart; 0 until that was done.
    pub speakers: u32,
    /// Names given to speakers, by speaker number.
    pub names: Vec<(String, String)>,
    /// The model's summary; empty until one was made.
    pub summary: String,
    /// Why the last job failed, if it did.
    pub error: Option<String>,
    /// When the record was last saved (milliseconds).
    pub updated: i64,
}

/// A meeting record as plain values.
pub struct MetaView {
    pub title: Seq<char>,
    pub at: i64,
    pub seconds_bits: u32,
    pub state: Seq<char>,
    pub imported: bool,
    pub project: Option<Seq<char>>,
    pub speakers: u32,
    pub names: Seq<(Seq<char>, Seq<char>)>,
    pub summary: Seq<char>,
    pub error: Option<Seq<char>>,
    pub updated: i64,
}

impl View for Meta {
    type V = MetaView;

    open spec fn view(&self) -> MetaView {
        MetaView {
            title: self.title@,
            at: self.at,
            seconds_bits: self.seconds_bits,
            state: self.state@,
            imported: self.imported,
            project: opt_view(self.project),
            speakers: self.speakers,
            names: names_view(self.names@),
            summary: self.summary@,
            error: opt_view(self.error),
            updated: self.updated,
        }
    }
}

/// A copy of a list of speaker names.
pub fn copy_names(names: &Vec<(String, String)>) -> (r: Vec<(String, String)>)
    ensures
        names_view(r@) == names_view(names@),
{
    let mut out: Vec<(String, String)> = Vec::new();
    let mut i: usize = 0;
    while i < names.len()
        invariant
            i <= names@.len(),
            out@.len() == i,
            forall|k: int| 0 <= k < i ==> (#[trigger] out@[k]).0@ == names@[k].0@ && out@[k].1@ == names@[k].1@,
        decreases names.len() - i,
    {
        out.push((names[i].0.clone(), names[i].1.clone()));
        i += 1;
    }
    proof {
        assert(names_view(out@) =~= names_view(names@));
    }
    out
}

// --- work going on ------------------------------------------------------------------------

broadcast use vstd::std_specs::hash::group_hash_axioms;

/// What is going on with meetings right now: per meeting, the percent of the
/// job, its phase ("queued", "transcribing", "importing", …), whether it was
/// asked to stop, and the bytes fetched so far of a link; and the recording
/// in progress, if any.
pub struct MeetingState {
    pub progress: HashMap<i64, u8>,
    pub phase: HashMap<i64, &'static str>,
    pub cancel: HashMap<i64, bool>,
    pub fetched: HashMap<i64, (u64, u64)>,
    pub recording_id: Option<i64>,
    /// The recording was asked to stop.
    pub rec_stop: bool,
    /// Samples written so far by the recording.
    pub rec_samples: u64,
    /// The input level shown while recording, as the bit pattern of an `f32`.
    pub rec_level_bits: u32,
    /// The recording is paused: sound is read but not written.
    pub rec_paused: bool,
}

/// The recording's own fields (stop, samples, level, pause) are the same.
pub open spec fn same_recording(a: MeetingState, b: MeetingState) -> bool {
    a.rec_stop == b.rec_stop && a.rec_samples == b.rec_samples && a.rec_level_bits == b.rec_level_bits
        && a.rec_paused == b.rec_paused
}

impl MeetingState {
    /// Nothing going on.
    pub fn new() -> (r: Self)
        ensures
            r.progress@ == Map::<i64, u8>::empty(),
            r.phase@ == Map::<i64, &'static str>::empty(),
            r.cancel@ == Map::<i64, bool>::empty(),
            r.fetched@ == Map::<i64, (u64, u64)>::empty(),
            r.recording_id is None,
            !r.rec_stop,
            r.rec_samples == 0,
            r.rec_level_bits == 0,
            !r.rec_paused,
    {
        MeetingState {
            progress: HashMap::new(),
            phase: HashMap::new(),
            cancel: HashMap::new(),
            fetched: HashMap::new(),
            recording_id: None,
            rec_stop: false,
            rec_samples: 0,
            rec_level_bits: 0,
            rec_paused: false,
        }
    }

    /// Takes a job on a meeting: refused (and nothing changes) while another
    /// job on it is going on; otherwise it waits its turn at 0 percent in
    /// the given phase.
    pub fn begin_job(&mut self, id: i64, phase: &'static str) -> (began: bool)
        ensures
            began == !old(self).cancel@.contains_key(id),
            began ==> final(self).cancel@ == old(self).cancel@.insert(id, false)
                && final(self).progress@ == old(self).progress@.insert(id, 0)
                && final(self).phase@ == old(self).phase@.insert(id, phase)
                && final(self).fetched@ == old(self).fetched@,
            !began ==> final(self).cancel@ == old(self).cancel@ && final(self).progress@ == old(
                self,
            ).progress@ && final(self).phase@ == old(self).phase@ && final(self).fetched@ == old(
                self,
            ).fetched@,
            final(self).recording_id == old(self).recording_id,
            same_recording(*old(self), *final(self)),
    {
        if self.cancel.contains_key(&id) {
            return false;
        }
        self.cancel.insert(id, false);
        self.progress.insert(id, 0);
        self.phase.insert(id, phase);
        true
    }

    /// Starts an import: a job that may stop, in the given phase, without
    /// percent yet.
    pub fn begin_import(&mut self, id: i64, phase: &'static str)
        ensures
            final(self).cancel@ == old(self).cancel@.insert(id, false),
            final(self).phase@ == old(self).phase@.insert(id, phase),
            final(self).progress@ == old(self).progress@,
            final(self).fetched@ == old(self).fetched@,
            final(self).recording_id == old(self).recording_id,
            same_recording(*old(self), *final(self)),
    {
        self.cancel.insert(id, false);
        self.phase.insert(id, phase);
    }

    /// Moves a job to another phase.
    pub fn set_phase(&mut self, id: i64, phase: &'static str)
        ensures
            final(self).phase@ == old(self).phase@.insert(id, phase),
            final(self).progress@ == old(self).progress@,
            final(self).cancel@ == old(self).cancel@,
            final(self).fetched@ == old(self).fetched@,
            final(self).recording_id == old(self).recording_id,
            same_recording(*old(self), *final(self)),
    {
        self.phase.insert(id, phase);
    }

    /// Records the percent of a job; says whether it changed (the window is
    /// told only then).
    pub fn set_progress(&mut self, id: i64, pct: u8) -> (changed: bool)
        ensures
            final(self).progress@ == old(self).progress@.insert(id, pct),
            changed == !(old(self).progress@.contains_key(id) && old(self).progress@[id] == pct),
            final(self).phase@ == old(self).phase@,
            final(self).cancel@ == old(self).cancel@,
            final(self).fetched@ == old(self).fetched@,
            final(self).recording_id == old(self).recording_id,
            same_recording(*old(self), *final(self)),
    {
        match self.progress.insert(id, pct) {
            Some(before) => before != pct,
            None => true,
        }
    }

    /// Forgets the percent of a job.
    pub fn clear_progress(&mut self, id: i64)
        ensures
            final(self).progress@ == old(self).progress@.remove(id),
            final(self).phase@ == old(self).phase@,
            final(self).cancel@ == old(self).cancel@,
            final(self).fetched@ == old(self).fetched@,
            final(self).recording_id == old(self).recording_id,
            same_recording(*old(self), *final(self)),
    {
        self.progress.remove(&id);
    }

    /// Records the bytes fetched of a link so far, and the percent they
    /// make of the whole (at most 99 until the end; 0 while the size is
    /// unknown).
    pub fn set_fetched(&mut self, id: i64, done: u64, total: u64)
        ensures
            final(self).fetched@ == old(self).fetched@.insert(id, (done, total)),
            final(self).progress@ == old(self).progress@.insert(
                id,
                (if total > 0 {
                    if done as int * 100 / total as int > 99 { 99 } else { done as int * 100 / total as int }
                } else {
                    0
                }) as u8,
            ),
            final(self).phase@ == old(self).phase@,
            final(self).cancel@ == old(self).cancel@,
            final(self).recording_id == old(self).recording_id,
            same_recording(*old(self), *final(self)),
    {
        self.fetched.insert(id, (done, total));
        let pct: u8 = if total > 0 {
            let p: u128 = (done as u128) * 100 / (total as u128);
            if p > 99 { 99 } else { p as u8 }
        } else {
            0
        };
        self.progress.insert(id, pct);
    }

    /// Forgets the bytes fetched of a link.
    pub fn clear_fetched(&mut self, id: i64)
        ensures
            final(self).fetched@ == old(self).fetched@.remove(id),
            final(self).progress@ == old(self).progress@,
            final(self).phase@ == old(self).phase@,
            final(self).cancel@ == old(self).cancel@,
            final(self).recording_id == old(self).recording_id,
            same_recording(*old(self), *final(self)),
    {
        self.fetched.remove(&id);
    }

    /// A job is over: its flag, percent and phase go.
    pub fn end_job(&mut self, id: i64)
        ensures
            final(self).cancel@ == old(self).cancel@.remove(id),
            final(self).progress@ == old(self).progress@.remove(id),
            final(self).phase@ == old(self).phase@.remove(id),
            final(self).fetched@ == old(self).fetched@,
            final(self).recording_id == old(self).recording_id,
            same_recording(*old(self), *final(self)),
    {
        self.cancel.remove(&id);
        self.progress.remove(&id);
        self.phase.remove(&id);
    }

    /// Asks the job on a meeting to stop; says whether it is transcribing,
    /// in which case the engine must be told too.
    pub fn cancel_job(&mut self, id: i64) -> (transcribing: bool)
        ensures
            final(self).cancel@ == if old(self).cancel@.contains_key(id) {
                old(self).cancel@.insert(id, true)
            } else {
                old(self).cancel@
            },
            transcribing == (old(self).phase@.contains_key(id) && old(self).phase@[id]@ == "transcribing"@),
            final(self).progress@ == old(self).progress@,
            final(self).phase@ == old(self).phase@,
            final(self).fetched@ == old(self).fetched@,
            final(self).recording_id == old(self).recording_id,
            same_recording(*old(self), *final(self)),
    {
        let transcribing = match self.phase.get(&id) {
            Some(p) => eq_chars(&chars_of(*p), &chars_of("transcribing")),
            None => false,
        };
        if self.cancel.contains_key(&id) {
            self.cancel.insert(id, true);
        }
        transcribing
    }

    /// Whether the job on a meeting was asked to stop; `missing` is the
    /// answer when there is no job on it.
    pub fn cancelled(&self, id: i64, missing: bool) -> (r: bool)
        ensures
            r == if self.cancel@.contains_key(id) { self.cancel@[id] } else { missing },
    {
        match self.cancel.get(&id) {
            Some(f) => *f,
            None => missing,
        }
    }

    /// Whether any meeting job is going on: the idle watch must not unload
    /// the model under one.
    pub fn busy(&self) -> (r: bool)
        ensures
            r == !self.phase@.is_empty(),
    {
        !self.phase.is_empty()
    }

    /// Starts a recording under the given id, unless one is going on.
    pub fn start_recording(&mut self, id: i64) -> (started: bool)
        ensures
            started == old(self).recording_id is None,
            started ==> final(self).recording_id == Some(id) && !final(self).rec_stop
                && final(self).rec_samples == 0 && final(self).rec_level_bits == 0
                && !final(self).rec_paused,
            !started ==> final(self).recording_id == old(self).recording_id && final(self).rec_stop
                == old(self).rec_stop && final(self).rec_samples == old(self).rec_samples
                && final(self).rec_paused == old(self).rec_paused,
            final(self).cancel@ == old(self).cancel@,
            final(self).phase@ == old(self).phase@,
            final(self).progress@ == old(self).progress@,
    {
        if self.recording_id.is_some() {
            return false;
        }
        self.recording_id = Some(id);
        self.rec_stop = false;
        self.rec_samples = 0;
        self.rec_level_bits = 0;
        self.rec_paused = false;
        true
    }

    /// Pauses or resumes the recording; `None` when nothing is recording,
    /// else whether it is paused now.
    pub fn toggle_pause(&mut self) -> (r: Option<bool>)
        ensures
            old(self).recording_id is None ==> r is None && final(self).rec_paused == old(self).rec_paused,
            old(self).recording_id is Some ==> r == Some(!old(self).rec_paused) && final(self).rec_paused
                == !old(self).rec_paused,
            final(self).recording_id == old(self).recording_id,
            final(self).rec_samples == old(self).rec_samples,
    {
        if self.recording_id.is_none() {
            return None;
        }
        self.rec_paused = !self.rec_paused;
        Some(self.rec_paused)
    }

    /// The recording is over.
    pub fn end_recording(&mut self)
        ensures
            final(self).recording_id is None,
            !final(self).rec_stop,
            final(self).rec_samples == old(self).rec_samples,
            final(self).cancel@ == old(self).cancel@,
            final(self).phase@ == old(self).phase@,
            final(self).progress@ == old(self).progress@,
    {
        self.recording_id = None;
        self.rec_stop = false;
    }
}

/// A job refused on a busy meeting leaves everything as it was, and a job
/// ended leaves the meeting free for the next one.
pub proof fn law_one_job_per_meeting(cancel: Map<i64, bool>, id: i64)
    ensures
        cancel.contains_key(id) ==> cancel.remove(id).insert(id, false).contains_key(id),
        !cancel.remove(id).contains_key(id),
{
}

/// Where an export goes.
pub enum Target {
    /// As the settings say: their folder, or Downloads.
    AsSettings,
    /// This folder, chosen for this export.
    Dir(String),
    /// This file, chosen with its name.
    File(String),
}

/// The extension of an export file: the format's own for the known ones,
/// "txt" for the rest.
pub fn export_extension(format: &str) -> (r: &'static str)
    ensures
        r@ == (if format@ == "md"@ || format@ == "docx"@ || format@ == "pdf"@ || format@ == "wav"@ {
            format@
        } else {
            "txt"@
        }),
{
    let f = chars_of(format);
    if eq_chars(&f, &chars_of("md")) {
        "md"
    } else if eq_chars(&f, &chars_of("docx")) {
        "docx"
    } else if eq_chars(&f, &chars_of("pdf")) {
        "pdf"
    } else if eq_chars(&f, &chars_of("wav")) {
        "wav"
    } else {
        "txt"
    }
}

/// The name of an export file: "name.ext", or "name N.ext" when that one
/// is taken (N from two on).
pub fn export_file_name(safe: &str, ext: &str, counter: u32) -> (r: String)
    ensures
        r@ == (if counter < 2 {
            safe@ + seq!['.'] + ext@
        } else {
            safe@ + seq![' '] + digits_of(counter as nat) + seq!['.'] + ext@
        }),
{
    let mut out = chars_of(safe);
    if counter >= 2 {
        out.push(' ');
        push_digits(counter as u64, &mut out);
    }
    out.push('.');
    append(&mut out, &chars_of(ext));
    proof {
        if counter < 2 {
            assert(out@ =~= safe@ + seq!['.'] + ext@);
        } else {
            assert(out@ =~= safe@ + seq![' '] + digits_of(counter as nat) + seq!['.'] + ext@);
        }
    }
    string_of(&out)
}

// --- search -----------------------------------------------------------------------------

/// How many characters of context a quote keeps on each side of the match.
pub open spec fn around() -> int {
    60
}

/// Where `needle` first stands in `text`, found in its lower case position
/// for position; a text whose lower case has another length is not
/// searched by position.
pub open spec fn match_pos(text: Seq<char>, needle: Seq<char>) -> Option<int> {
    let lower = unicode_lower(text);
    if lower.len() == text.len() {
        crate::text::next_occ(lower, needle, 0)
    } else {
        None
    }
}

/// A piece of a line around the first match: sixty characters of context
/// on each side, an ellipsis where the line goes on; with no match, the
/// start of the line.
pub open spec fn quote_spec(text: Seq<char>, needle: Seq<char>) -> Seq<char> {
    match match_pos(text, needle) {
        None => if text.len() <= 2 * around() { text } else { text.take(2 * around()) },
        Some(at) => {
            let start = if at > around() { at - around() } else { 0 };
            let end = if at + needle.len() + around() < text.len() {
                at + needle.len() + around()
            } else {
                text.len() as int
            };
            (if start > 0 { seq!['…'] } else { Seq::empty() }) + text.subrange(start, end) + (if end
                < text.len() {
                seq!['…']
            } else {
                Seq::empty()
            })
        },
    }
}

/// The piece of a line shown around a match.
pub fn quote_around(text: &str, needle: &str) -> (r: String)
    ensures
        r@ == quote_spec(text@, needle@),
{
    let t = chars_of(text);
    let n = chars_of(needle);
    let lower = to_lower(&t);
    let found = if lower.len() == t.len() {
        match crate::text::find_from(&lower, 0, &n) {
            Some(at) => {
                proof {
                    crate::text::lemma_next_occ_found(lower@, n@, 0, at as int);
                }
                Some(at)
            },
            None => {
                proof {
                    crate::text::lemma_next_occ_none(lower@, n@, 0);
                }
                None
            },
        }
    } else {
        None
    };
    match found {
        None => {
            let end = if t.len() <= 120 { t.len() } else { 120 };
            let r = slice_vec(&t, 0, end);
            proof {
                assert(r@ =~= quote_spec(text@, needle@));
            }
            string_of(&r)
        },
        Some(at) => {
            proof {
                assert(at + n@.len() <= lower@.len());
            }
            let start = if at > 60 { at - 60 } else { 0 };
            let end = if t.len() - (at + n.len()) > 60 { at + n.len() + 60 } else { t.len() };
            let mut out: Vec<char> = Vec::new();
            if start > 0 {
                out.push('…');
            }
            append(&mut out, &slice_vec(&t, start, end));
            if end < t.len() {
                out.push('…');
            }
            proof {
                assert(out@ =~= quote_spec(text@, needle@));
            }
            string_of(&out)
        },
    }
}

/// What a search looks for: the query trimmed, in lower case; nothing for
/// a blank query.
pub fn search_needle(query: &str) -> (r: Option<String>)
    ensures
        match r {
            Some(n) => trim(query@).len() > 0 && n@ == unicode_lower(trim(query@)),
            None => trim(query@).len() == 0,
        },
{
    let q = trim_chars(&chars_of(query));
    if q.len() == 0 {
        return None;
    }
    Some(string_of(&to_lower(&q)))
}

/// Whether `needle` occurs in the lower case of `s`.
pub open spec fn mentions(s: Seq<char>, needle: Seq<char>) -> bool {
    crate::text::has(unicode_lower(s), needle)
}

/// The lines of a transcript that mention the needle, by index, in order.
pub open spec fn matching_lines(texts: Seq<Seq<char>>, needle: Seq<char>) -> Seq<int>
    decreases texts.len(),
{
    if texts.len() == 0 {
        Seq::empty()
    } else if mentions(texts.last(), needle) {
        matching_lines(texts.drop_last(), needle).push(texts.len() - 1)
    } else {
        matching_lines(texts.drop_last(), needle)
    }
}

/// What a search found in one meeting: how many lines match, and the first
/// three of them (by index) with the piece around the match.
pub struct Hit {
    pub count: usize,
    pub quotes: Vec<(usize, String)>,
}

/// A search over one meeting: found when the title or some line mentions
/// the needle (case does not matter).
pub open spec fn hit_spec(title: Seq<char>, texts: Seq<Seq<char>>, needle: Seq<char>) -> Option<
    (nat, Seq<(int, Seq<char>)>),
> {
    let m = matching_lines(texts, needle);
    if !mentions(title, needle) && m.len() == 0 {
        None
    } else {
        let first = if m.len() <= 3 { m } else { m.take(3) };
        Some((m.len(), first.map_values(|i: int| (i, quote_spec(texts[i], needle)))))
    }
}

/// Searches one meeting's title and transcript lines for the needle.
pub fn search_hit(title: &str, texts: &[String], needle: &str) -> (r: Option<Hit>)
    ensures
        match hit_spec(title@, texts@.map_values(|t: String| t@), needle@) {
            None => r is None,
            Some((count, quotes)) => r is Some && r->0.count == count && r->0.quotes@.map_values(
                |q: (usize, String)| (q.0 as int, q.1@),
            ) == quotes,
        },
{
    let n = chars_of(needle);
    let ghost tv = texts@.map_values(|t: String| t@);
    let in_title = crate::text::contains(&to_lower(&chars_of(title)), &n);
    let mut found: Vec<usize> = Vec::new();
    let mut i: usize = 0;
    while i < texts.len()
        invariant
            i <= texts@.len(),
            tv == texts@.map_values(|t: String| t@),
            n@ == needle@,
            found@.map_values(|x: usize| x as int) == matching_lines(tv.take(i as int), needle@),
            forall|k: int| 0 <= k < found@.len() ==> found@[k] < i,
        decreases texts.len() - i,
    {
        proof {
            assert(tv.take(i + 1).drop_last() =~= tv.take(i as int));
            assert(tv.take(i + 1).last() == texts@[i as int]@);
        }
        let ghost before = found@;
        if crate::text::contains(&to_lower(&chars_of(texts[i].as_str())), &n) {
            found.push(i);
            proof {
                assert(found@.map_values(|x: usize| x as int) =~= before.map_values(|x: usize| x as int).push(
                    i as int,
                ));
            }
        }
        i += 1;
    }
    proof {
        assert(tv.take(texts@.len() as int) =~= tv);
    }
    if !in_title && found.len() == 0 {
        return None;
    }
    let ghost m = found@.map_values(|x: usize| x as int);
    let mut quotes: Vec<(usize, String)> = Vec::new();
    let mut k: usize = 0;
    while k < found.len() && k < 3
        invariant
            k <= found@.len(),
            k <= 3,
            m == found@.map_values(|x: usize| x as int),
            tv == texts@.map_values(|t: String| t@),
            forall|j: int| 0 <= j < found@.len() ==> found@[j] < texts@.len(),
            quotes@.len() == k,
            forall|j: int| 0 <= j < k ==> (#[trigger] quotes@[j]).0 as int == m[j] && quotes@[j].1@ == quote_spec(
                tv[m[j]],
                needle@,
            ),
        decreases found.len() - k,
    {
        let idx = found[k];
        let q = quote_around(texts[idx].as_str(), needle);
        quotes.push((idx, q));
        k += 1;
    }
    proof {
        let first = if m.len() <= 3 { m } else { m.take(3) };
        assert(quotes@.map_values(|q: (usize, String)| (q.0 as int, q.1@)) =~= first.map_values(
            |i: int| (i, quote_spec(tv[i], needle@)),
        ));
    }
    Some(Hit { count: found.len(), quotes })
}

/// The start of a transcript a title is asked for: the texts of the
/// segments from `i` on, each followed by a space, added to `acc` until the
/// text passes 6000 bytes.
pub open spec fn title_head_from(segs: Seq<SegmentView>, i: int, acc: Seq<char>) -> Seq<char>
    decreases segs.len() - i,
{
    if i < 0 || i >= segs.len() {
        acc
    } else {
        let a = acc + segs[i].text + seq![' '];
        if vstd::utf8::encode_utf8(a).len() > 6000 {
            a
        } else {
            title_head_from(segs, i + 1, a)
        }
    }
}

/// The start of a transcript that a title is asked for.
pub fn title_head(segments: &[Segment]) -> (r: String)
    ensures
        r@ == title_head_from(segments_view(segments@), 0, Seq::empty()),
{
    let ghost sv = segments_view(segments@);
    let mut acc: Vec<char> = Vec::new();
    let mut i: usize = 0;
    while i < segments.len()
        invariant
            i <= segments@.len(),
            sv == segments_view(segments@),
            title_head_from(sv, 0, Seq::empty()) == title_head_from(sv, i as int, acc@),
        decreases segments.len() - i,
    {
        let ghost acc0 = acc@;
        append(&mut acc, &chars_of(segments[i].text.as_str()));
        append(&mut acc, &chars_of(" "));
        proof {
            reveal_strlit(" ");
            assert(sv[i as int].text == segments@[i as int].text@);
            assert(acc@ =~= acc0 + sv[i as int].text + seq![' ']);
        }
        let s = string_of(&acc);
        let bytes = s.as_str().as_bytes();
        proof {
            assert(bytes@ == vstd::utf8::encode_utf8(acc@));
        }
        if bytes.len() > 6000 {
            return s;
        }
        i += 1;
    }
    string_of(&acc)
}

} // verus!
