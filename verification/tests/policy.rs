use solflow::meetings::{title_head, Segment};
use solflow::models::{catalog_news, download_accepted, Catalog, ModelStore};
use solflow::sync::{after_step, last_sync_after};
use solflow::wav::has_sound;

#[test]
fn a_run_stops_on_401_and_keeps_the_first_error() {
    assert_eq!(after_step(None, None), (None, false));
    assert_eq!(after_step(None, Some("сеть упала".into())), (Some("сеть упала".to_string()), false));
    assert_eq!(after_step(Some("first".into()), Some("second".into())), (Some("first".to_string()), false));
    assert_eq!(after_step(Some("first".into()), Some("Диск ответил (401)".into())), (Some("first".to_string()), true));
    assert_eq!(last_sync_after(&None, 5, 9), 9);
    assert_eq!(last_sync_after(&Some("e".into()), 5, 9), 5);
}

#[test]
fn a_download_is_kept_only_when_everything_matches() {
    assert!(download_accepted(true, 10, 10, true));
    assert!(!download_accepted(true, 9, 10, true));
    assert!(!download_accepted(false, 10, 10, true));
    assert!(!download_accepted(true, 10, 10, false));
}

#[test]
fn a_stop_asked_for_a_download_is_seen() {
    let mut store = ModelStore::new(Catalog { mirrors: vec![], languages: vec![], models: vec![] });
    store.cancel = vec![("a.bin".to_string(), false), ("b.bin".to_string(), false)];
    assert!(!store.download_cancelled("b.bin"));
    store.cancel_download("b.bin");
    assert!(store.download_cancelled("b.bin"));
    assert!(!store.download_cancelled("a.bin"));
    assert!(!store.download_cancelled("c.bin"));
}

#[test]
fn catalog_news_names_at_most_three_new_models() {
    let up = r#"{"models":[{"name":"A"},{"name":"B"},{"id":"x"},{"name":"C"},{"name":"D"},{"name":"E"}]}"#;
    let known = vec!["B".to_string()];
    assert_eq!(
        catalog_news(up, &known).as_deref(),
        Some("В каталоге Handy появились новые модели: A, C, D. Они приедут со следующей версией приложения")
    );
    let all: Vec<String> = ["A", "B", "C", "D", "E"].iter().map(|s| s.to_string()).collect();
    assert_eq!(catalog_news(up, &all), None);
    assert_eq!(catalog_news("{}", &known), None);
    assert_eq!(
        catalog_news(r#"{"models":[{"name":"Z"}]}"#, &[]).as_deref(),
        Some("В каталоге Handy появились новые модели: Z. Они приедут со следующей версией приложения")
    );
}

#[test]
fn half_a_second_is_the_least_sound() {
    assert!(!has_sound(7_999));
    assert!(has_sound(8_000));
}

#[test]
fn the_head_for_a_title_stops_past_6000_bytes() {
    let seg = |t: &str| Segment { start: 0, text: t.to_string(), spk: None };
    assert_eq!(title_head(&[seg("раз"), seg("два")]), "раз два ");
    let long = "я".repeat(2000);
    let segs = vec![seg(&long), seg(&long), seg("хвост")];
    let head = title_head(&segs);
    assert_eq!(head, format!("{long} {long} "));
    assert_eq!(title_head(&[]), "");
}
