use solflow::meetings::{Meta, Project, STATE_DONE};
use solflow::sync::merge::{merge_meta, merge_projects, same_projects};
use solflow::sync::yandex::{days_from_civil, parse_iso8601};
use solflow::sync::{parse_id, plan, FileState, Plan};
use solflow::sync::{needs_auto_summary, sync_due};
use solflow::meetings::job_percent;
use solflow::sync::{reuse_code, sign_in_step, SignInStep};
use solflow::sync::device_label;
use solflow::settings::Settings;
use solflow::sync::provider::{ProviderId, Tokens};

fn meta(updated: i64) -> Meta {
    Meta {
        title: String::new(),
        at: 1,
        seconds_bits: 10.0f32.to_bits(),
        state: STATE_DONE.to_string(),
        imported: false,
        project: None,
        speakers: 0,
        names: vec![],
        summary: String::new(),
        error: None,
        updated,
    }
}

fn p(id: &str, name: &str) -> Project {
    Project { id: id.to_string(), name: name.to_string() }
}

fn seen(local: &str, remote: &str) -> FileState {
    FileState { local: local.into(), remote: remote.into() }
}

#[test]
fn newer_title_wins_but_summary_survives() {
    let mut local = meta(200);
    local.title = "Новое имя".into();
    let mut remote = meta(100);
    remote.summary = "Саммери".into();
    remote.title = "Старое имя".into();
    let m = merge_meta(&local, &remote);
    assert_eq!(m.title, "Новое имя");
    assert_eq!(m.summary, "Саммери");
    assert_eq!(m.updated, 200);
}

#[test]
fn empty_newer_title_keeps_older() {
    let local = meta(300);
    let mut remote = meta(100);
    remote.title = "Имя".into();
    assert_eq!(merge_meta(&local, &remote).title, "Имя");
}

#[test]
fn done_beats_recorded() {
    let mut local = meta(300);
    local.state = "recorded".into();
    let remote = meta(100);
    assert_eq!(merge_meta(&local, &remote).state, STATE_DONE);
}

#[test]
fn project_removal_is_respected() {
    let local = meta(300);
    let mut remote = meta(100);
    remote.project = Some("p1".into());
    assert_eq!(merge_meta(&local, &remote).project, None);
}

#[test]
fn projects_three_way() {
    let snapshot = vec![p("a", "А"), p("b", "Б"), p("c", "В")];
    // Here: a renamed, b removed, d added.
    let local = vec![p("a", "А2"), p("c", "В"), p("d", "Г")];
    // In the cloud: c removed, e added.
    let remote = vec![p("a", "А"), p("b", "Б"), p("e", "Д")];
    let merged = merge_projects(&local, &remote, &snapshot);
    let ids: Vec<&str> = merged.iter().map(|x| x.id.as_str()).collect();
    assert_eq!(ids, vec!["a", "e", "d"]);
    assert_eq!(merged[0].name, "А2");
}

#[test]
fn projects_remote_rename_wins_when_local_untouched() {
    let snapshot = vec![p("a", "А")];
    let local = vec![p("a", "А")];
    let remote = vec![p("a", "Переименован")];
    assert_eq!(merge_projects(&local, &remote, &snapshot)[0].name, "Переименован");
}

#[test]
fn projects_first_sync_is_union() {
    let local = vec![p("a", "А")];
    let remote = vec![p("b", "Б")];
    let merged = merge_projects(&local, &remote, &[]);
    assert_eq!(merged.len(), 2);
}

#[test]
fn plans() {
    assert_eq!(plan(None, None, None), Plan::Forget);
    assert_eq!(plan(Some("a"), None, None), Plan::Upload);
    assert_eq!(plan(None, Some("a"), None), Plan::Download);
    // Seen on both sides for the first time: a conflict, merged.
    assert_eq!(plan(Some("a"), Some("b"), None), Plan::Conflict);
    let s = seen("a", "b");
    assert_eq!(plan(Some("a"), Some("b"), Some(&s)), Plan::Nothing);
    assert_eq!(plan(Some("x"), Some("b"), Some(&s)), Plan::Upload);
    assert_eq!(plan(Some("a"), Some("y"), Some(&s)), Plan::Download);
    assert_eq!(plan(Some("x"), Some("y"), Some(&s)), Plan::Conflict);
}

#[test]
fn ids_from_names() {
    assert_eq!(parse_id("1725000000000.meta.json"), Some(1725000000000));
    assert_eq!(parse_id("1725000000000.deleted"), Some(1725000000000));
    assert_eq!(parse_id("projects.json"), None);
}

#[test]
fn iso_dates() {
    assert_eq!(parse_iso8601("1970-01-01T00:00:00+00:00"), Some(0));
    assert_eq!(parse_iso8601("2024-05-01T12:34:56+00:00"), Some(1_714_566_896_000));
    // The zone offset is taken away: 15:34 at +03:00 is 12:34 UTC.
    assert_eq!(parse_iso8601("2024-05-01T15:34:56+03:00"), Some(1_714_566_896_000));
    assert_eq!(parse_iso8601("2024-05-01T12:34:56.123Z"), Some(1_714_566_896_000));
    assert_eq!(parse_iso8601("мусор"), None);
}

#[test]
fn negative_zone_adds_hours() {
    assert_eq!(parse_iso8601("2024-05-01T09:34:56-03:00"), Some(1_714_566_896_000));
    assert_eq!(parse_iso8601("2024-05-01"), None);
}

#[test]
fn civil_days_count_from_epoch() {
    assert_eq!(days_from_civil(1970, 1, 1), 0);
    assert_eq!(days_from_civil(2000, 3, 1), 11_017);
    assert_eq!(days_from_civil(1969, 12, 31), -1);
}

#[test]
fn merging_a_meta_with_itself_changes_nothing() {
    let mut m = meta(50);
    m.title = "Встреча".into();
    m.summary = "Итоги".into();
    let merged = merge_meta(&m, &m);
    assert_eq!(merged.title, "Встреча");
    assert_eq!(merged.summary, "Итоги");
    assert_eq!(merged.updated, 50);
}

#[test]
fn merge_of_equal_lists_is_the_list() {
    let list = vec![p("a", "А"), p("b", "Б")];
    let merged = merge_projects(&list, &list, &list);
    assert!(same_projects(&merged, &list));
}

#[test]
fn deleted_everywhere_stays_deleted() {
    let snapshot = vec![p("a", "А"), p("b", "Б")];
    let local = vec![p("a", "А")];
    let remote = vec![p("a", "А"), p("b", "Б")];
    let merged = merge_projects(&local, &remote, &snapshot);
    assert_eq!(merged.len(), 1);
    assert_eq!(merged[0].id, "a");
}

#[test]
fn watch_syncs_when_due() {
    assert!(sync_due(Some(20), Some(1), None));
    assert!(!sync_due(Some(19), Some(1), Some(120)));
    assert!(sync_due(None, Some(120), Some(120)));
    assert!(sync_due(None, None, Some(120)));
    assert!(!sync_due(None, None, None));
}

#[test]
fn sign_in_waits_for_the_code() {
    assert!(reuse_code(true, 2000, 1000));
    assert!(!reuse_code(true, 1000, 1000));
    assert!(!reuse_code(false, 2000, 1000));
    assert_eq!(sign_in_step(true, 0, 10), SignInStep::Stop);
    assert_eq!(sign_in_step(false, 11, 10), SignInStep::Expired);
    assert_eq!(sign_in_step(false, 10, 10), SignInStep::Poll);
}

#[test]
fn device_names() {
    assert_eq!(device_label(Some("mac-mini.local")), "Sol Flow · mac-mini");
    assert_eq!(device_label(Some("PC")), "Sol Flow · PC");
    assert_eq!(device_label(Some("")), "Sol Flow · компьютер");
    assert_eq!(device_label(None), "Sol Flow · компьютер");
}

#[test]
fn signing_in_and_out() {
    let mut s = Settings::defaults(true);
    s.sign_in(
        ProviderId::Google,
        Tokens { access_token: "a".to_string(), refresh_token: String::new(), expires_at: 77 },
        "me@example.com".to_string(),
    );
    assert_eq!(s.sync_provider, "google");
    assert_eq!(s.sync_token.as_deref(), Some("a"));
    assert!(s.sync_refresh.is_none());
    assert_eq!(s.sync_expires_at, 77);
    let token = s.sign_out();
    assert_eq!(token.as_deref(), Some("a"));
    assert!(s.sync_token.is_none());
    assert_eq!(s.sync_login, "");
    assert_eq!(s.sync_provider, "google");
}

#[test]
fn arrived_meetings_summarised_when_ready() {
    assert!(needs_auto_summary(true, true, "done", "", true));
    assert!(!needs_auto_summary(true, false, "done", "", true));
    assert!(!needs_auto_summary(true, true, "recorded", "", true));
    assert!(!needs_auto_summary(true, true, "done", "есть", true));
    assert!(!needs_auto_summary(false, true, "done", "", true));
    assert!(!needs_auto_summary(true, true, "done", "", false));
}

#[test]
fn transcription_percent() {
    assert_eq!(job_percent(1, 4), 25);
    assert_eq!(job_percent(4, 4), 100);
    assert_eq!(job_percent(1, 0), 100);
    assert_eq!(job_percent(0, 3), 0);
}

#[test]
fn longer_duration_is_kept_as_floats_compare() {
    let mut newer = meta(200);
    let mut older = meta(100);
    newer.seconds_bits = (-2.0f32).to_bits();
    older.seconds_bits = (-1.0f32).to_bits();
    assert_eq!(f32::from_bits(merge_meta(&newer, &older).seconds_bits), -1.0);
    newer.seconds_bits = 5.0f32.to_bits();
    older.seconds_bits = 3.0f32.to_bits();
    assert_eq!(f32::from_bits(merge_meta(&newer, &older).seconds_bits), 5.0);
    newer.seconds_bits = f32::NAN.to_bits();
    assert!(f32::from_bits(merge_meta(&newer, &older).seconds_bits).is_nan());
    newer.seconds_bits = (-0.0f32).to_bits();
    older.seconds_bits = 0.0f32.to_bits();
    assert_eq!(merge_meta(&newer, &older).seconds_bits, (-0.0f32).to_bits());
    newer.seconds_bits = 1.0f32.to_bits();
    older.seconds_bits = f32::INFINITY.to_bits();
    assert_eq!(merge_meta(&newer, &older).seconds_bits, f32::INFINITY.to_bits());
}

#[test]
fn f32_bit_order_follows_the_values() {
    use_less();
}

fn use_less() {
    let vals = [f32::NEG_INFINITY, -3.5, -1.0, -0.0, 0.0, 1e-40, 1.0, 2.5, f32::INFINITY, f32::NAN];
    for a in vals {
        for b in vals {
            assert_eq!(solflow::sync::merge::f32_bits_less(a.to_bits(), b.to_bits()), a < b, "{a} {b}");
        }
    }
}
