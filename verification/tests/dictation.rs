use solflow::dictation::{
    after_start, may_unload, on_press, on_release, on_toggle, paste_options, pastes, stop,
    worth_recognising, Action,
};
use solflow::history::{add_entry, prune, remove_entry, should_record, update_text, Entry};
use solflow::meetings::rename_speaker;
use solflow::paste::SubmitKey;
use solflow::settings::Settings;
use solflow::{PHASE_BUSY, PHASE_LOADING, PHASE_READY, PHASE_REC_HOTKEY, PHASE_REC_UI};
use solflow::keeper::{keeper_step, KeeperAction, KeeperEvent};

#[test]
fn press_starts_and_stops() {
    assert_eq!(on_press(PHASE_READY), Action::Start { from_hotkey: true });
    assert_eq!(on_press(PHASE_REC_HOTKEY), Action::Stop);
    assert_eq!(on_press(PHASE_REC_UI), Action::Stop);
    assert_eq!(on_press(PHASE_LOADING), Action::Nothing);
    assert_eq!(on_toggle(PHASE_READY), Action::Start { from_hotkey: false });
    assert_eq!(on_toggle(PHASE_BUSY), Action::Nothing);
}

#[test]
fn hold_stops_on_release_tap_does_not() {
    assert_eq!(on_release(PHASE_REC_HOTKEY, Some(400)), Action::Stop);
    assert_eq!(on_release(PHASE_REC_HOTKEY, Some(150)), Action::Nothing);
    assert_eq!(on_release(PHASE_REC_HOTKEY, None), Action::Nothing);
    assert_eq!(on_release(PHASE_REC_UI, Some(5000)), Action::Nothing);
}

#[test]
fn phases_around_a_recording() {
    assert_eq!(after_start(PHASE_READY, true, true), PHASE_REC_HOTKEY);
    assert_eq!(after_start(PHASE_READY, true, false), PHASE_REC_UI);
    assert_eq!(after_start(PHASE_READY, false, true), PHASE_READY);
    assert_eq!(stop(PHASE_REC_HOTKEY), Some((PHASE_BUSY, true)));
    assert_eq!(stop(PHASE_REC_UI), Some((PHASE_BUSY, false)));
    assert_eq!(stop(PHASE_READY), None);
}

#[test]
fn short_recordings_and_empty_results() {
    assert!(!worth_recognising(4799));
    assert!(worth_recognising(4800));
    assert!(pastes(true, "текст"));
    assert!(!pastes(true, ""));
    assert!(!pastes(false, "текст"));
}

#[test]
fn paste_follows_settings() {
    let mut s = Settings::defaults(false);
    let o = paste_options(&s);
    assert!(o.restore_clipboard);
    assert!(o.submit.is_none());
    s.clipboard_handling = "keep".to_string();
    s.auto_submit = true;
    s.auto_submit_key = "ctrl_enter".to_string();
    let o = paste_options(&s);
    assert!(!o.restore_clipboard);
    assert!(matches!(o.submit, Some(SubmitKey::CtrlEnter)));
}

#[test]
fn idle_model_goes_only_when_ready() {
    assert!(may_unload(PHASE_READY, true, false, Some(300), 300));
    assert!(!may_unload(PHASE_READY, true, false, Some(300), 299));
    assert!(!may_unload(PHASE_REC_UI, true, false, Some(0), 999));
    assert!(!may_unload(PHASE_READY, true, true, Some(0), 999));
    assert!(!may_unload(PHASE_READY, true, false, None, 999));
}

fn entry(at: i64, text: &str) -> Entry {
    Entry { at, text: text.to_string(), audio: true, seconds_bits: 1.5f32.to_bits() }
}

#[test]
fn history_records_only_real_text() {
    assert!(should_record("привет", "keep_limit"));
    assert!(!should_record("   ", "keep_limit"));
    assert!(!should_record("привет", "never"));
}

#[test]
fn history_prunes_by_age_then_count() {
    let mut v = vec![entry(1000, "a"), entry(900, "b"), entry(100, "c"), entry(800, "d")];
    let gone = prune(&mut v, Some(500), 2, 1200);
    let kept: Vec<i64> = v.iter().map(|e| e.at).collect();
    assert_eq!(kept, vec![1000, 900]);
    assert_eq!(gone, vec![100, 800]);
    let mut v = vec![entry(3, "a"), entry(2, "b"), entry(1, "c")];
    let gone = prune(&mut v, None, 50, 0);
    assert!(gone.is_empty());
    assert_eq!(v.len(), 3);
}

#[test]
fn history_edits() {
    let mut v = vec![entry(2, "b")];
    add_entry(&mut v, entry(5, "new"));
    assert_eq!(v[0].at, 5);
    update_text(&mut v, 2, "исправлено");
    assert_eq!(v[1].text, "исправлено");
    update_text(&mut v, 99, "никуда");
    assert_eq!(v[0].text, "new");
    remove_entry(&mut v, 5);
    assert_eq!(v.len(), 1);
    assert_eq!(v[0].at, 2);
}

#[test]
fn speaker_names_are_set_and_taken_away() {
    let mut names: Vec<(String, String)> = vec![("0".to_string(), "Анна".to_string())];
    rename_speaker(&mut names, 1, "  Иван ");
    assert!(names.contains(&("1".to_string(), "Иван".to_string())));
    assert!(names.contains(&("0".to_string(), "Анна".to_string())));
    rename_speaker(&mut names, 0, "Мария");
    assert_eq!(names.iter().filter(|(k, _)| k == "0").count(), 1);
    assert!(names.contains(&("0".to_string(), "Мария".to_string())));
    rename_speaker(&mut names, 1, "   ");
    assert!(!names.iter().any(|(k, _)| k == "1"));
}

#[test]
fn keeper_follows_the_setting() {
    assert_eq!(keeper_step(false, false, KeeperEvent::Switch(true)), (true, KeeperAction::Open));
    assert_eq!(keeper_step(true, true, KeeperEvent::Switch(true)), (true, KeeperAction::Keep));
    assert_eq!(keeper_step(true, true, KeeperEvent::Switch(false)), (false, KeeperAction::Close));
    assert_eq!(keeper_step(true, true, KeeperEvent::Timeout), (true, KeeperAction::Reopen));
    assert_eq!(keeper_step(false, false, KeeperEvent::Timeout), (false, KeeperAction::Close));
    assert_eq!(keeper_step(true, true, KeeperEvent::Disconnected).1, KeeperAction::Exit);
}
