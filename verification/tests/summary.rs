use solflow::summary::{
    assemble, assemble_advice, assemble_cases, assemble_outline, assemble_plain, assemble_qa,
    assemble_quotes, assemble_tasks, assemble_theses, breakdown, keep_extract, language_name,
    merged_extracts, parse_all_numbered, parse_numbered, question_text, recording_kind,
    split_into, title_from_answer, whole_prompt, with_question, Assembler,
};

#[test]
fn tasks_group_and_dedupe() {
    let pieces = vec![
        "Решение: делать гостиную [12:40]\n- **Задача:** Иван собирает список к пятнице [13:00]\nВопрос: как строить сообщество [40:08]".to_string(),
        "задача: Иван собирает список к пятнице [13:00]\nнет".to_string(),
    ];
    let out = assemble_tasks(&pieces);
    assert_eq!(
        out,
        "## Решения\n- делать гостиную [12:40]\n## Задачи\n- Иван собирает список к пятнице [13:00]\n## Открытые вопросы\n- как строить сообщество [40:08]"
    );
    assert!(assemble_tasks(&["нет".to_string()]).contains("## Задачи\n- нет"));
}

#[test]
fn qa_keeps_order_and_lists_are_flat() {
    let pieces = vec![
        "Вопрос: как строить сообщество [40:08]\nОтвет: начинать с личных встреч [40:30]\nТезис: лишнее".to_string(),
    ];
    assert_eq!(
        assemble_qa(&pieces),
        "- как строить сообщество [40:08]\nОтвет: начинать с личных встреч [40:30]"
    );
    assert_eq!(assemble_theses(&["- **Тезис:** рынок сжимается [1:00]\nнет".to_string()]), "- рынок сжимается [1:00]");
    assert_eq!(assemble_advice(&["нет".to_string()]), "- нет");
    assert_eq!(
        assemble_qa(&["[5:22] Вопрос: что делать? [5:22]\n[5:40] Ответ: работать".to_string()]),
        "- что делать? [5:22]\nОтвет: работать [5:40]"
    );
    assert_eq!(
        assemble_quotes(&["[30:30] Иван: «Я побил рекорд»\n\"Я не верю\" [40:00]".to_string()]),
        "- Иван: «Я побил рекорд» [30:30]\n- \"Я не верю\" [40:00]"
    );
}

#[test]
fn numbered_lines_parse_and_glue() {
    let raw = "1. Hello there\n2) Second line\ncontinues here\n\n4. Fourth";
    let (got, seen) = parse_numbered(raw, 4);
    assert_eq!(seen, 3);
    assert_eq!(got[0].as_deref(), Some("Hello there"));
    assert_eq!(got[1].as_deref(), Some("Second line continues here"));
    assert_eq!(got[2], None);
    assert_eq!(got[3].as_deref(), Some("Fourth"));
    let (_, seen) = parse_numbered("1. a\n2. b\n3. c", 2);
    assert_eq!(seen, 3);
}

#[test]
fn outline_sorts_and_thins() {
    let pieces = vec![
        "[12:40] – Партнёры — о чём\n[13:10] Слишком близко — лишняя\n- [0:29] Вступление — начало".to_string(),
        "[1:02:34] Тренды — вторая половина".to_string(),
    ];
    assert_eq!(
        assemble_outline(&pieces),
        "[0:29] Вступление — начало\n[12:40] Партнёры — о чём\n[1:02:34] Тренды — вторая половина"
    );
}

#[test]
fn outline_keeps_thirty_at_most_and_the_first_of_a_tie() {
    let mut text = String::new();
    for m in 0..40 {
        text.push_str(&format!("[{}:00] Тема {} — суть\n", m * 5, m));
    }
    let out = assemble_outline(&[text]);
    assert_eq!(out.lines().count(), 30);
    assert!(out.starts_with("[0:00] Тема 0 — суть\n[5:00] Тема 1"));
    let tie = assemble_outline(&["[1:00] Первая — а\n[1:00] Вторая — б".to_string()]);
    assert_eq!(tie, "[1:00] Первая — а");
}

#[test]
fn cases_have_two_sections() {
    let out = assemble_cases(&["Кейс: магазин вырос [1:00]\nЦифра: 30% [2:00]".to_string()]);
    assert_eq!(out, "## Кейсы\n- магазин вырос [1:00]\n## Цифры\n- 30% [2:00]");
    assert_eq!(assemble_cases(&[]), "## Кейсы\n- нет\n## Цифры\n- нет");
}

#[test]
fn plain_joins_and_trims() {
    assert_eq!(assemble_plain(&[" Коллеги, ".to_string(), "добрый день! \n".to_string()]), "Коллеги, \nдобрый день!");
}

#[test]
fn assembler_dispatch_matches() {
    let pieces = vec!["Тезис: один [0:10]".to_string()];
    assert_eq!(assemble(Assembler::Theses, &pieces), assemble_theses(&pieces));
    assert_eq!(assemble(Assembler::Plain, &pieces), "Тезис: один [0:10]");
}

#[test]
fn all_numbered_lines_in_order() {
    assert_eq!(parse_all_numbered("1. один\n- 2) два\nтри\n3.\n10. десять"), vec!["один", "два", "десять"]);
}

#[test]
fn languages_by_code() {
    assert_eq!(language_name("de"), Some("немецкий"));
    assert_eq!(language_name("ja"), Some("японский"));
    assert_eq!(language_name("xx"), None);
}

#[test]
fn kinds_from_answers() {
    assert_eq!(recording_kind("Встреча"), "meeting");
    assert_eq!(recording_kind("вебинар."), "talk");
    assert_eq!(recording_kind("Лекция"), "talk");
    assert_eq!(recording_kind("ПОДКАСТ"), "interview");
    assert_eq!(recording_kind("не знаю"), "other");
}

#[test]
fn titles_from_answers() {
    assert_eq!(title_from_answer("«Планы на квартал».\nещё текст"), "Планы на квартал");
    assert_eq!(title_from_answer(""), "");
    let long = "а".repeat(61);
    assert_eq!(title_from_answer(&long), "");
    let ok = "б".repeat(60);
    assert_eq!(title_from_answer(&ok), ok);
}

#[test]
fn extracts_kept_and_merged() {
    assert!(!keep_extract(" нет. "));
    assert!(!keep_extract("..."));
    assert!(keep_extract("Решение: да"));
    assert_eq!(merged_extracts(&[]), "(выписок нет)");
    assert_eq!(merged_extracts(&["а".to_string(), "б".to_string()]), "а\n\n---\n\nб");
}

#[test]
fn questions_are_trimmed() {
    assert_eq!(question_text("  что решили?  "), Some("что решили?".to_string()));
    assert_eq!(question_text("   "), None);
    assert_eq!(with_question("П", "что?"), "П\n\nВопрос: что?");
}

#[test]
fn parts_give_the_text_back() {
    let text = "Первое предложение. Второе предложение. Третье предложение. Четвёртое.";
    for n in 1..6 {
        let parts = split_into(text, n);
        assert_eq!(parts.concat(), text);
        assert!(parts.len() <= n);
    }
    let parts = split_into("aaaa. bbbb. cccc. dddd", 2);
    assert_eq!(parts, vec!["aaaa. bbbb. cccc.".to_string(), " dddd".to_string()]);
    assert_eq!(split_into("", 3), vec![String::new()]);
}

#[test]
fn breakdowns_by_id() {
    let b = breakdown("outline").unwrap();
    assert_eq!(b.budget, 6000);
    assert!(b.timed);
    assert!(b.merge_prompt.is_none());
    let letter = breakdown("letter").unwrap();
    assert!(letter.merge_prompt.is_some());
    assert!(!letter.timed);
    assert_eq!(whole_prompt(&letter), solflow::prompts::LETTER_PROMPT);
    assert_eq!(whole_prompt(&b), b.part_prompt);
    assert!(breakdown("nothing").is_none());
}
