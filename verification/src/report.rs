//! The problem report: what machine, what version, what went wrong lately.
//! It is put together as text that a person sends or copies; nothing is sent
//! from here. Warnings and errors are kept in a short ring as they come, as
//! the logs of an application started from the desktop go nowhere.

use vstd::prelude::*;
use crate::meetings::{push_two, two_digits};
use crate::numbers::{digits_of, push_digits};
use crate::text::{append, chars_of, join, join_chars, string_of, trim, trim_chars};

verus! {

/// How many recent messages are kept.
pub const KEEP: usize = 60;

/// The time of day of a moment (seconds since the epoch), UTC, as
/// "HH:MM:SS".
pub open spec fn clock_of_spec(seconds: nat) -> Seq<char> {
    two_digits(seconds / 3600 % 24) + seq![':'] + two_digits(seconds / 60 % 60) + seq![':'] + two_digits(
        seconds % 60,
    )
}

/// The time of day of a moment, UTC, as "HH:MM:SS".
pub fn clock_of(seconds: u64) -> (r: String)
    ensures
        r@ == clock_of_spec(seconds as nat),
{
    let mut out: Vec<char> = Vec::new();
    push_two(seconds / 3600 % 24, &mut out);
    out.push(':');
    push_two(seconds / 60 % 60, &mut out);
    out.push(':');
    push_two(seconds % 60, &mut out);
    proof {
        assert(out@ =~= clock_of_spec(seconds as nat));
    }
    string_of(&out)
}

/// The recent messages after one more: the oldest goes when there are
/// already `KEEP` of them.
pub open spec fn remembered(recent: Seq<Seq<char>>, line: Seq<char>) -> Seq<Seq<char>> {
    if recent.len() >= KEEP {
        recent.drop_first().push(line)
    } else {
        recent.push(line)
    }
}

/// Keeps one more message.
pub fn remember(recent: &mut Vec<String>, line: String)
    requires
        old(recent)@.len() <= KEEP,
    ensures
        crate::summary::texts(final(recent)@) == remembered(crate::summary::texts(old(recent)@), line@),
        final(recent)@.len() <= KEEP,
{
    let ghost before = crate::summary::texts(recent@);
    let ghost lv = line@;
    if recent.len() >= KEEP {
        recent.remove(0);
    }
    recent.push(line);
    proof {
        assert(crate::summary::texts(recent@) =~= remembered(before, lv));
    }
}

/// What a report says of the machine and the application.
pub struct ReportFacts {
    pub version: String,
    pub os_name: String,
    pub os_version: String,
    pub cpu: String,
    pub memory_bytes: u64,
    /// The speech model in memory, if any.
    pub model: Option<String>,
    /// The microphone chosen; `None` — the system's.
    pub input_device: Option<String>,
    pub hotkey: String,
    pub accessibility: bool,
    pub downloader: bool,
    pub voice_models: bool,
    pub meetings: usize,
    pub recent: Vec<String>,
}

/// "yes" and "no" in the words of each line.
pub open spec fn said(b: bool, yes: Seq<char>, no: Seq<char>) -> Seq<char> {
    if b { yes } else { no }
}

/// The text of a report: the person's description (trimmed, when not
/// blank), a rule, the facts one per line, and the recent messages.
pub open spec fn report_spec(description: Seq<char>, f: ReportFacts) -> Seq<char> {
    let head = if trim(description).len() > 0 { trim(description) + "\n\n"@ } else { Seq::empty() };
    let model = match f.model {
        Some(m) => m@,
        None => "не загружена"@,
    };
    let mic = match f.input_device {
        Some(d) => d@,
        None => "системный"@,
    };
    let recent = join(crate::summary::texts(f.recent@), "\n"@);
    head + "— — —\n"@ + "Sol Flow "@ + f.version@ + "\n"@ + f.os_name@ + " "@ + f.os_version@ + ", "@ + f.cpu@ + "\n"@
        + "Память "@ + digits_of((f.memory_bytes / 1073741824) as nat) + " ГБ\n"@ + "Модель: "@ + model + "\n"@
        + "Микрофон: "@ + mic + "\n"@ + "Сочетание: "@ + f.hotkey@ + "\n"@ + "Универсальный доступ: "@
        + said(f.accessibility, "выдан"@, "нет"@) + "\n"@ + "Загрузчик ссылок: "@ + said(f.downloader, "стоит"@, "нет"@)
        + "\n"@ + "Разделение голосов: "@ + said(f.voice_models, "модели скачаны"@, "нет"@) + "\n"@ + "Встреч: "@
        + digits_of(f.meetings as nat) + "\n"@ + if recent.len() > 0 {
        "\nПоследние сообщения:\n"@ + recent + "\n"@
    } else {
        Seq::empty()
    }
}

fn put(out: &mut Vec<char>, s: &str)
    ensures
        final(out)@ == old(out)@ + s@,
{
    append(out, &chars_of(s));
}

/// The text of a problem report.
pub fn build(description: &str, f: &ReportFacts) -> (r: String)
    ensures
        r@ == report_spec(description@, *f),
{
    let mut out: Vec<char> = Vec::new();
    let d = trim_chars(&chars_of(description));
    if d.len() > 0 {
        append(&mut out, &d);
        put(&mut out, "\n\n");
    }
    put(&mut out, "— — —\n");
    put(&mut out, "Sol Flow ");
    put(&mut out, f.version.as_str());
    put(&mut out, "\n");
    put(&mut out, f.os_name.as_str());
    put(&mut out, " ");
    put(&mut out, f.os_version.as_str());
    put(&mut out, ", ");
    put(&mut out, f.cpu.as_str());
    put(&mut out, "\n");
    put(&mut out, "Память ");
    push_digits(f.memory_bytes / 1073741824, &mut out);
    put(&mut out, " ГБ\n");
    put(&mut out, "Модель: ");
    match &f.model {
        Some(m) => put(&mut out, m.as_str()),
        None => put(&mut out, "не загружена"),
    }
    put(&mut out, "\n");
    put(&mut out, "Микрофон: ");
    match &f.input_device {
        Some(m) => put(&mut out, m.as_str()),
        None => put(&mut out, "системный"),
    }
    put(&mut out, "\n");
    put(&mut out, "Сочетание: ");
    put(&mut out, f.hotkey.as_str());
    put(&mut out, "\n");
    put(&mut out, "Универсальный доступ: ");
    put(&mut out, if f.accessibility { "выдан" } else { "нет" });
    put(&mut out, "\n");
    put(&mut out, "Загрузчик ссылок: ");
    put(&mut out, if f.downloader { "стоит" } else { "нет" });
    put(&mut out, "\n");
    put(&mut out, "Разделение голосов: ");
    put(&mut out, if f.voice_models { "модели скачаны" } else { "нет" });
    put(&mut out, "\n");
    put(&mut out, "Встреч: ");
    push_digits(f.meetings as u64, &mut out);
    put(&mut out, "\n");
    let mut lines: Vec<Vec<char>> = Vec::new();
    let mut i: usize = 0;
    while i < f.recent.len()
        invariant
            i <= f.recent@.len(),
            lines@.len() == i,
            forall|k: int| 0 <= k < i ==> #[trigger] lines@[k]@ == f.recent@[k]@,
        decreases f.recent.len() - i,
    {
        lines.push(chars_of(f.recent[i].as_str()));
        i += 1;
    }
    let recent = join_chars(&lines, &chars_of("\n"));
    proof {
        assert(lines@.map_values(|x: Vec<char>| x@) =~= crate::summary::texts(f.recent@));
    }
    if recent.len() > 0 {
        put(&mut out, "\nПоследние сообщения:\n");
        append(&mut out, &recent);
        put(&mut out, "\n");
    }
    proof {
        assert(out@ =~= report_spec(description@, *f));
    }
    string_of(&out)
}

} // verus!
