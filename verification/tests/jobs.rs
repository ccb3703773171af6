use solflow::prompts::{ASK_MERGE_PROMPT, ASK_PART_PROMPT, ASK_PROMPT, MERGE_PROMPT, PART_PROMPT, SYSTEM_PROMPT_TALK};
use solflow::summary::jobs::{after_merge, after_passes, Finish, JobError, Next, CLASSIFY_PROMPT};
use solflow::summary::{
    ask_with, classify_with, derive_with, summarize, title_with, translate_lines_with, translate_text_with,
};

#[test]
fn short_summary_is_one_pass() {
    let job = summarize("короткий текст", "talk", 1);
    assert_eq!(job.passes.len(), 1);
    let p = &job.passes[0];
    assert_eq!(p.text, "Текст:\n\nкороткий текст");
    assert_eq!(p.prompt, SYSTEM_PROMPT_TALK);
    assert_eq!((p.from, p.to), (0, 100));
    assert!(matches!(job.finish, Finish::Answer));
    match after_passes(&job, &["итог".to_string()]) {
        Next::Done(s) => assert_eq!(s, "итог"),
        Next::Run(_) => panic!("a short summary has no final pass"),
    }
}

#[test]
fn long_summary_shares_the_bar() {
    let text = "Первое. Второе. Третье. Четвёртое. Пятое. Шестое.";
    let job = summarize(text, "meeting", 3);
    assert!(!job.passes.is_empty() && job.passes.len() <= 3);
    for (i, p) in job.passes.iter().enumerate() {
        assert_eq!(p.prompt, PART_PROMPT);
        assert_eq!(p.from, 25 * i as u8);
        assert_eq!(p.to, 25 * i as u8 + 25);
    }
    let answers: Vec<String> = job.passes.iter().map(|_| "нет".to_string()).collect();
    match after_passes(&job, &answers) {
        Next::Run(p) => {
            assert_eq!(p.prompt, MERGE_PROMPT);
            assert_eq!((p.from, p.to), (75, 100));
            // A summary keeps every partial answer, even "нет".
            assert!(p.text.starts_with("Текст:\n\nнет"));
        }
        Next::Done(_) => panic!("a long summary has a final pass"),
    }
    assert_eq!(after_merge(&job, "свод"), "свод");
}

#[test]
fn blank_question_is_refused() {
    assert!(matches!(ask_with("[0:01] текст", "   ", 1), Err(JobError::EmptyQuestion)));
}

#[test]
fn question_goes_under_the_prompt() {
    let job = ask_with("[0:01] текст", "  Кто?  ", 1).ok().unwrap();
    assert_eq!(job.passes[0].prompt, format!("{ASK_PROMPT}\n\nВопрос: Кто?"));
    let job = ask_with("Раз. Два. Три. Четыре.", "Кто?", 2).ok().unwrap();
    assert_eq!(job.passes[0].prompt, format!("{ASK_PART_PROMPT}\n\nВопрос: Кто?"));
    let answers: Vec<String> = job.passes.iter().map(|_| "нет.".to_string()).collect();
    match after_passes(&job, &answers) {
        Next::Run(p) => {
            assert_eq!(p.prompt, format!("{ASK_MERGE_PROMPT}\n\nВопрос: Кто?"));
            assert_eq!(p.text, "Текст:\n\n(выписок нет)");
        }
        Next::Done(_) => panic!("a long question has a final pass"),
    }
}

#[test]
fn unknown_breakdown_is_refused() {
    match derive_with("nosuch", "текст", 1) {
        Err(JobError::UnknownBreakdown(k)) => assert_eq!(k, "nosuch"),
        _ => panic!("an unknown breakdown was accepted"),
    }
}

#[test]
fn short_breakdown_is_assembled() {
    let job = derive_with("theses", "[0:10] рынок сжимается", 1).ok().unwrap();
    assert_eq!(job.passes.len(), 1);
    match after_passes(&job, &["Тезис: рынок сжимается [0:10]".to_string()]) {
        Next::Done(s) => assert_eq!(s, "- рынок сжимается [0:10]"),
        Next::Run(_) => panic!("theses are put together by code"),
    }
}

#[test]
fn letter_has_a_final_pass() {
    let job = derive_with("letter", "Раз. Два. Три. Четыре.", 2).ok().unwrap();
    assert!(matches!(job.finish, Finish::Merge { .. }));
    assert_eq!(after_merge(&job, "  Письмо  "), "Письмо");
}

#[test]
fn classification_reads_one_word() {
    let job = classify_with("начало");
    assert_eq!(job.ctx, 4096);
    assert_eq!(job.passes[0].prompt, CLASSIFY_PROMPT);
    assert_eq!(job.passes[0].tokens, 24);
    match after_passes(&job, &["Вебинар".to_string()]) {
        Next::Done(s) => assert_eq!(s, "talk"),
        Next::Run(_) => panic!("one pass"),
    }
    let job = title_with("начало");
    match after_passes(&job, &["«Планы на квартал».".to_string()]) {
        Next::Done(s) => assert_eq!(s, "Планы на квартал"),
        Next::Run(_) => panic!("one pass"),
    }
}

#[test]
fn text_translation_names_the_language() {
    let job = translate_text_with("de", "## Итоги").ok().unwrap();
    assert!(job.passes[0].prompt.starts_with("Ты переводчик. Переведи текст на немецкий язык"));
    match translate_text_with("xx", "текст") {
        Err(JobError::UnknownLanguage(k)) => assert_eq!(k, "xx"),
        _ => panic!("an unknown language was accepted"),
    }
}

#[test]
fn lines_translate_in_batches_and_halves() {
    let lines: Vec<String> = (1..=3).map(|i| format!(" строка {i} ")).collect();
    let mut t = translate_lines_with("en", lines).ok().unwrap();
    let p = t.next_pass().unwrap();
    assert_eq!(p.text, "Текст:\n\n1. строка 1\n2. строка 2\n3. строка 3");
    assert_eq!((p.from, p.to), (0, 100));
    // One line missing: the batch is asked again in halves.
    t.answer("1. line 1\n2. line 2");
    let p = t.next_pass().unwrap();
    assert_eq!(p.text, "Текст:\n\n1. строка 1");
    assert_eq!((p.from, p.to), (0, 50));
    t.answer("1. line 1");
    let p = t.next_pass().unwrap();
    assert_eq!(p.text, "Текст:\n\n1. строка 2\n2. строка 3");
    assert_eq!((p.from, p.to), (50, 100));
    t.answer("1. line 2\n2. line 3");
    assert!(t.is_done());
    assert!(t.next_pass().is_none());
    assert_eq!(t.into_lines(), vec!["line 1", "line 2", "line 3"]);
}

#[test]
fn single_line_keeps_the_original_when_unanswered() {
    let mut t = translate_lines_with("en", vec!["как есть".to_string()]).ok().unwrap();
    t.answer("не по формату");
    assert_eq!(t.into_lines(), vec!["как есть"]);
    let mut t = translate_lines_with("en", vec!["одна".to_string()]).ok().unwrap();
    t.answer("1. one\n2. more");
    assert_eq!(t.into_lines(), vec!["one more"]);
}

#[test]
fn many_lines_make_batches_of_twenty() {
    let lines: Vec<String> = (0..45).map(|i| format!("{i}")).collect();
    let t = translate_lines_with("en", lines).ok().unwrap();
    let p = t.next_pass().unwrap();
    assert_eq!((p.from, p.to), (0, 33));
    assert!(p.text.ends_with("20. 19"));
}
