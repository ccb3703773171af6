//! The language of messages that come from the application core: tray
//! menu, key names, errors. The key of the dictionary is the Russian
//! string; without a translation it stays as it is.

use vstd::prelude::*;
use crate::text::{chars_of, eq_chars, string_of};

verus! {

/// The interface language the window chose.
pub struct Language {
    pub code: String,
}

impl Language {
    /// Russian until the window says otherwise.
    pub fn new() -> (r: Self)
        ensures
            r.code@ == "ru"@,
    {
        Language { code: string_of(&chars_of("ru")) }
    }

    /// Whether the interface is in English.
    pub fn is_english(&self) -> (r: bool)
        ensures
            r == (self.code@ == "en"@),
    {
        eq_chars(&chars_of(self.code.as_str()), &chars_of("en"))
    }

    /// A message in the interface language.
    pub fn t(&self, text: &str) -> (r: String)
        ensures
            r@ == (if self.code@ == "en"@ { english(text@) } else { text@ }),
    {
        if !self.is_english() {
            return string_of(&chars_of(text));
        }
        let table = dictionary();
        let c = chars_of(text);
        let mut i: usize = 0;
        while i < table.len()
            invariant
                i <= table@.len(),
                c@ == text@,
                self.code@ == "en"@,
                table@.len() == english_table().len(),
                forall|k: int| 0 <= k < table@.len() ==> ((#[trigger] table@[k]).0@, table@[k].1@) == english_table()[k],
                english_from(text@, 0) == english_from(text@, i as int),
            decreases table.len() - i,
        {
            if eq_chars(&chars_of(table[i].0), &c) {
                return string_of(&chars_of(table[i].1));
            }
            i += 1;
        }
        string_of(&c)
    }
}

/// Russian strings the person sees from the core, and their English.
pub open spec fn english_table() -> Seq<(Seq<char>, Seq<char>)> {
    seq![
        ("Открыть Sol Flow"@, "Open Sol Flow"@),
        ("Выйти"@, "Quit"@),
        ("Пробел"@, "Space"@),
        (
            "Текст в буфере обмена — нажмите ⌘V. Для автовставки включите Универсальный доступ"@,
            "The text is in the clipboard — press ⌘V. Turn on Accessibility for automatic pasting"@,
        ),
        ("Текст в буфере обмена — нажмите Ctrl+V"@, "The text is in the clipboard — press Ctrl+V"@),
    ]
}

/// The English of a row from `i` on with the given Russian.
pub open spec fn english_from(text: Seq<char>, i: int) -> Option<Seq<char>>
    decreases english_table().len() - i,
{
    if i < 0 || i >= english_table().len() {
        None
    } else if english_table()[i].0 == text {
        Some(english_table()[i].1)
    } else {
        english_from(text, i + 1)
    }
}

/// The English of a message; the message itself when there is none.
pub open spec fn english(text: Seq<char>) -> Seq<char> {
    match english_from(text, 0) {
        Some(e) => e,
        None => text,
    }
}

fn dictionary() -> (r: Vec<(&'static str, &'static str)>)
    ensures
        r@.len() == english_table().len(),
        forall|k: int| 0 <= k < r@.len() ==> ((#[trigger] r@[k]).0@, r@[k].1@) == english_table()[k],
{
    vec![
        ("Открыть Sol Flow", "Open Sol Flow"),
        ("Выйти", "Quit"),
        ("Пробел", "Space"),
        (
            "Текст в буфере обмена — нажмите ⌘V. Для автовставки включите Универсальный доступ",
            "The text is in the clipboard — press ⌘V. Turn on Accessibility for automatic pasting",
        ),
        ("Текст в буфере обмена — нажмите Ctrl+V", "The text is in the clipboard — press Ctrl+V"),
    ]
}

} // verus!
