use solflow::hotkey::{label, parse, Hotkey, Key, Mods};
use solflow::lang::Language;
use solflow::meetings::{combined_markdown, combined_text, ExportPart, Segment};
use solflow::models::{download_percent, Catalog, CatalogFile, CatalogModel, ModelError, ModelStore};
use solflow::settings::{effect_of, Effect, OptionValue, Settings, SettingsError};

fn mods(meta: bool, alt: bool, shift: bool, ctrl: bool) -> Mods {
    Mods { meta, alt, shift, ctrl }
}

#[test]
fn combinations_parse() {
    assert_eq!(
        parse("alt+space"),
        Some(Hotkey { mods: mods(false, true, false, false), key: Key::Space })
    );
    assert_eq!(
        parse("Cmd + Shift + D"),
        Some(Hotkey { mods: mods(true, false, true, false), key: Key::Letter('d') })
    );
    assert_eq!(
        parse("ctrl+f12"),
        Some(Hotkey { mods: mods(false, false, false, true), key: Key::F(12) })
    );
    assert_eq!(
        parse("option+7"),
        Some(Hotkey { mods: mods(false, true, false, false), key: Key::Digit(7) })
    );
    assert_eq!(
        parse("ctrl+пробел"),
        Some(Hotkey { mods: mods(false, false, false, true), key: Key::Space })
    );
}

#[test]
fn combinations_refused() {
    // No modifier: too easy to press by chance.
    assert_eq!(parse("space"), None);
    // No key.
    assert_eq!(parse("ctrl+shift"), None);
    // The last key wins, an unknown one unsets it.
    assert_eq!(parse("ctrl+a+nosuchkey"), None);
    assert_eq!(parse("ctrl+f13"), None);
}

#[test]
fn captions_by_platform() {
    let ru = Language::new();
    assert_eq!(label(true, &ru, "alt+space"), "⌥ Пробел");
    assert_eq!(label(false, &ru, "ctrl+space"), "Ctrl + Пробел");
    assert_eq!(label(false, &ru, "cmd+shift+d"), "Win + Shift + D");
    let en = Language { code: "en".to_string() };
    assert_eq!(label(true, &en, "alt+space"), "⌥ Space");
}

fn defaults() -> Settings {
    Settings::defaults(true)
}

fn flag(b: bool) -> OptionValue {
    OptionValue { as_bool: Some(b), text: String::new(), as_u64: None }
}

fn text(t: &str) -> OptionValue {
    OptionValue { as_bool: None, text: t.to_string(), as_u64: None }
}

fn number(n: u64) -> OptionValue {
    OptionValue { as_bool: None, text: String::new(), as_u64: Some(n) }
}

#[test]
fn options_change_one_setting() {
    let mut s = defaults();
    assert!(s.set_option("start_hidden", flag(true)).is_ok());
    assert!(s.start_hidden);
    assert!(s.set_option("overlay_style", text("minimal")).is_ok());
    assert_eq!(s.overlay_style, "minimal");
    assert!(s.set_option("history_limit", number(5000)).is_ok());
    assert_eq!(s.history_limit, 1000);
    assert!(s.set_option("history_limit", number(0)).is_ok());
    assert_eq!(s.history_limit, 1);
    assert!(s.set_option("history_limit", text("x")).is_ok());
    assert_eq!(s.history_limit, 50);
    // A value of the wrong kind falls back to the setting's default.
    assert!(s.set_option("show_tray_icon", text("x")).is_ok());
    assert!(s.show_tray_icon);
    assert!(s.set_option("sync_interval", number(3)).is_ok());
    assert_eq!(s.sync_interval, "");
}

#[test]
fn unknown_option_is_refused() {
    let mut s = defaults();
    match s.set_option("no_such_setting", flag(true)) {
        Err(SettingsError::UnknownOption(k)) => assert_eq!(k, "no_such_setting"),
        Ok(()) => panic!("an unknown setting was accepted"),
    }
    assert_eq!(s.history_limit, 50);
}

#[test]
fn effects_of_options() {
    assert_eq!(effect_of("show_tray_icon"), Effect::Tray);
    assert_eq!(effect_of("history_retention"), Effect::HistoryLimits);
    assert_eq!(effect_of("sync_audio"), Effect::SyncNow);
    assert_eq!(effect_of("model_unload"), Effect::ModelUnload);
    assert_eq!(effect_of("overlay_style"), Effect::Nothing);
}

fn part(title: &str, text: &str) -> ExportPart {
    ExportPart {
        title: title.to_string(),
        duration: "1:00".to_string(),
        summary: String::new(),
        segments: vec![Segment { start: 0, text: text.to_string(), spk: None }],
        names: vec![],
    }
}

#[test]
fn combined_exports_separate_meetings() {
    let parts = vec![part("Первая", "раз"), part("Вторая", "два")];
    let t = combined_text(&parts);
    assert!(t.starts_with("Первая\n1:00\n\n"));
    assert_eq!(t.matches("\n————————\n\n").count(), 1);
    assert!(t.contains("\n————————\n\nВторая\n"));
    let m = combined_markdown(&parts);
    assert!(m.starts_with("# Первая\n\n*1:00*\n\n"));
    assert!(m.contains("---\n\n# Вторая"));
    assert_eq!(combined_text(&parts[..1]), combined_text(&[part("Первая", "раз")]));
}

fn model(id: &str, accuracy: u32, file: &str, size: u64) -> CatalogModel {
    CatalogModel {
        id: id.to_string(),
        revision: "main".to_string(),
        name: id.to_uppercase(),
        description: String::new(),
        languages: vec!["ru".to_string(), "en".to_string()],
        language_count: 2,
        accuracy_score: accuracy,
        speed_score: 1,
        speed_note: String::new(),
        streaming: false,
        translate: false,
        default_quant: "q8".to_string(),
        files: vec![CatalogFile {
            filename: file.to_string(),
            quant: "q8".to_string(),
            size_bytes: size,
            sha256: String::new(),
        }],
    }
}

#[test]
fn model_rows_put_active_and_downloaded_first() {
    let mut one = model("one", 10, "one.bin", 100);
    one.language_count = 1;
    one.languages = vec!["ru".to_string()];
    let catalog = Catalog {
        mirrors: vec![],
        languages: vec![],
        models: vec![one, model("two", 30, "two.bin", 200), model("three", 20, "three.bin", 300)],
    };
    let store = ModelStore::new(catalog);
    let rows = store.rows(&[("three.bin".to_string(), 300), ("two.bin".to_string(), 1)], Some("one.bin"));
    let ids: Vec<&str> = rows.iter().map(|r| r.id.as_str()).collect();
    assert_eq!(ids, vec!["one", "three", "two"]);
    assert!(rows[0].active && !rows[0].downloaded);
    assert!(rows[1].downloaded);
    assert!(!rows[2].downloaded);
    assert_eq!(rows[0].languages, "ru");
    assert_eq!(rows[1].languages, "языков: 2");
    let rows = store.rows(&[], None);
    let ids: Vec<&str> = rows.iter().map(|r| r.id.as_str()).collect();
    assert_eq!(ids, vec!["two", "three", "one"]);
}

#[test]
fn a_download_is_tracked_and_leaves_no_trace() {
    let catalog = Catalog {
        mirrors: vec!["https://mirror.example/models/".to_string()],
        languages: Vec::new(),
        models: vec![model("org/one", 10, "one.bin", 100), model("org/two", 20, "two.bin", 200)],
    };
    let mut store = ModelStore::new(catalog);
    assert!(matches!(store.begin_download("missing"), Err(ModelError::NotFound)));
    let job = store.begin_download("org/one").unwrap().unwrap();
    assert_eq!((job.model, job.file), (0, 0));
    assert_eq!(
        job.urls,
        vec![
            "https://huggingface.co/org/one/resolve/main/one.bin".to_string(),
            "https://mirror.example/models/one.bin".to_string()
        ]
    );
    assert!(store.begin_download("org/one").unwrap().is_none());
    store.begin_download("org/two").unwrap().unwrap();
    store.set_download_progress("one.bin", download_percent(50, 100));
    assert_eq!(store.progress, vec![("one.bin".to_string(), 50), ("two.bin".to_string(), 0)]);
    store.finish_download("one.bin");
    assert_eq!(store.progress, vec![("two.bin".to_string(), 0)]);
    assert_eq!(store.cancel, vec![("two.bin".to_string(), false)]);
    store.finish_download("two.bin");
    assert!(store.progress.is_empty() && store.cancel.is_empty());
}

#[test]
fn download_percent_stops_at_99() {
    assert_eq!(download_percent(0, 100), 0);
    assert_eq!(download_percent(100, 100), 99);
    assert_eq!(download_percent(5, 0), 99);
    assert_eq!(download_percent(37, 200), 18);
}
