use solflow::cleanup::{clean, clean_with, is_hesitation};

#[test]
fn hesitations_are_recognised() {
    for w in ["э", "ээ", "э-э", "э-ээ", "а-а", "а-аа", "м-м", "ммм", "у-у"] {
        assert!(is_hesitation(w), "{w}");
    }
    for w in ["а", "о", "у", "ага", "угу", "эх", "мама", "а-то"] {
        assert!(!is_hesitation(w), "{w}");
    }
}

#[test]
fn hesitations_drop_and_capital_moves_on() {
    assert_eq!(
        clean("А-а, послушать нас с Иваном, а-а, на такую тему. Э-ээ, и всё."),
        "Послушать нас с Иваном, на такую тему. И всё."
    );
    assert_eq!(clean("Ну и всё. Тогда давайте, ага. А рынок сжимается."), "Ну и всё. Тогда давайте, ага. А рынок сжимается.");
}

#[test]
fn blank_text_cleans_to_nothing() {
    assert_eq!(clean("   \n\t "), "");
    assert_eq!(clean(""), "");
}

#[test]
fn glued_dash_goes_but_a_real_dash_stays() {
    assert_eq!(clean("-а моделька"), "а моделька");
    assert_eq!(clean("это — правда"), "это — правда");
}

#[test]
fn three_repeats_collapse_two_stay() {
    assert_eq!(clean("очень очень длинный"), "очень очень длинный");
    assert_eq!(clean("я я я пошёл"), "я пошёл");
    assert_eq!(clean("Да да ДА конечно"), "Да конечно");
}

#[test]
fn spaces_and_marks_are_tidied() {
    assert_eq!(clean("  привет ,  мир!!  как   дела ?? "), "привет, мир! как дела?");
}

#[test]
fn interjections_go_with_their_comma() {
    assert_eq!(clean("ну, хм, давайте начнём"), "ну, давайте начнём");
    assert_eq!(clean("Uh, let us start"), "Let us start");
}

#[test]
fn filler_words_go_only_on_request() {
    assert_eq!(clean("это типа работает"), "это типа работает");
    assert_eq!(clean_with("это типа работает", true), "это работает");
    assert_eq!(clean_with("типаж, как бы, хороший", true), "типаж, хороший");
    assert_eq!(clean_with("You know, it works", true), "it works");
}
