//! The passes of the language model that a summary, an answer, a breakdown,
//! a classification, a title or a translation takes, and what is made of
//! their answers. The model itself runs elsewhere: a job says what to ask it
//! (the text, the system prompt, the answer budget, the share of the
//! progress bar), and is handed the answers back.

use vstd::prelude::*;
use crate::prompts::{
    ASK_MERGE_PROMPT, ASK_PART_PROMPT, ASK_PROMPT, MERGE_PROMPT, MERGE_PROMPT_TALK, PART_PROMPT,
    SYSTEM_PROMPT, SYSTEM_PROMPT_TALK,
};
use crate::summary::{
    assemble, assembled, breakdown, breakdown_from, keep_extract, keeps_extract, language_from,
    language_name, language_table, merged_extracts, merged_spec, part_starts, parts_between,
    question_text, recording_kind, recording_kind_spec, split_into, split_spec, texts,
    title_from_answer, title_spec, whole_prompt, Assembler, Breakdown, ASK_TOKENS, MAX_TOKENS,
    MERGE_TOKENS, N_CTX, PART_TOKENS,
};
use crate::prompts::{LETTER_PROMPT, POST_WHOLE_PROMPT};
use crate::numbers::{digits_of, push_digits};
use crate::summary::{all_numbered, numbered_fold, parse_all_numbered, parse_numbered, slots_view, TRANSLATE_BATCH, TRANSLATE_TOKENS};
use crate::text::{append, chars_of, join, join_chars, lines, string_of, trim, trim_chars};

verus! {

/// One pass of the model: the user message, the system prompt, the answer
/// budget in tokens, and the share `from .. to` of the progress bar (of 100).
pub struct Pass {
    pub text: String,
    pub prompt: String,
    pub tokens: i32,
    pub from: u8,
    pub to: u8,
}

/// A pass as plain values.
pub struct PassView {
    pub text: Seq<char>,
    pub prompt: Seq<char>,
    pub tokens: i32,
    pub from: u8,
    pub to: u8,
}

impl View for Pass {
    type V = PassView;

    open spec fn view(&self) -> PassView {
        PassView { text: self.text@, prompt: self.prompt@, tokens: self.tokens, from: self.from, to: self.to }
    }
}

/// What is made of the answers of the passes.
pub enum Finish {
    /// The answer of the only pass is the result.
    Answer,
    /// The kind of recording the only answer names.
    Kind,
    /// The title the only answer gives.
    Title,
    /// The answers, put together by code.
    Assemble(Assembler),
    /// One more pass over the answers joined by rules, from `from` to the end
    /// of the bar; its answer is the result, put together by code if an
    /// assembler is given.
    Merge { prompt: String, tokens: i32, from: u8, assemble: Option<Assembler> },
}

/// A job for the model: the context it is loaded with, the passes, whether
/// answers that found nothing ("нет") are dropped, and what is made of the
/// answers.
pub struct Job {
    pub ctx: i32,
    pub passes: Vec<Pass>,
    pub drop_empty: bool,
    pub finish: Finish,
}

/// What comes after the passes: one more pass, or the result.
pub enum Next {
    Run(Pass),
    Done(String),
}

/// Why a job cannot start.
#[derive(Debug, PartialEq, Eq)]
pub enum JobError {
    /// The question is blank.
    EmptyQuestion,
    /// There is no breakdown of that id.
    UnknownBreakdown(String),
    /// There is no translation language of that code.
    UnknownLanguage(String),
}

pub open spec fn passes_view(v: Seq<Pass>) -> Seq<PassView> {
    v.map_values(|p: Pass| p@)
}

/// The user message of a pass: the text under a heading.
pub open spec fn message(text: Seq<char>) -> Seq<char> {
    "Текст:\n\n"@ + text
}

/// The share of the bar each pass gets when `passes` passes share it.
pub open spec fn slice_of(passes: nat) -> u8 {
    (100int / (passes as int)) as u8
}

/// The passes over the parts of a long text: each with the same prompt and
/// budget, part `i` filling `slice * i .. slice * (i + 1)`.
pub open spec fn part_passes(parts: Seq<Seq<char>>, prompt: Seq<char>, tokens: i32, slice: u8) -> Seq<PassView> {
    Seq::new(
        parts.len(),
        |i: int|
            PassView {
                text: message(parts[i]),
                prompt: prompt,
                tokens: tokens,
                from: (slice * i) as u8,
                to: (slice * i + slice) as u8,
            },
    )
}

/// The only pass over a short text: all of the bar.
pub open spec fn whole_pass(text: Seq<char>, prompt: Seq<char>, tokens: i32) -> PassView {
    PassView { text: message(text), prompt: prompt, tokens: tokens, from: 0, to: 100 }
}

/// The answers that are kept: those that found something when empty ones are
/// dropped, else all.
pub open spec fn kept(answers: Seq<Seq<char>>, drop_empty: bool) -> Seq<Seq<char>>
    decreases answers.len(),
{
    if answers.len() == 0 {
        Seq::empty()
    } else {
        let rest = kept(answers.drop_last(), drop_empty);
        if !drop_empty || keeps_extract(answers.last()) {
            rest.push(answers.last())
        } else {
            rest
        }
    }
}

/// What follows the answers of the passes: the result, or the final pass.
pub open spec fn next_after(job: Job, answers: Seq<Seq<char>>) -> (bool, PassView, Seq<char>) {
    let k = kept(answers, job.drop_empty);
    match job.finish {
        Finish::Answer => (false, whole_pass(Seq::empty(), Seq::empty(), 0), answers[0]),
        Finish::Kind => (false, whole_pass(Seq::empty(), Seq::empty(), 0), recording_kind_spec(answers[0])),
        Finish::Title => (false, whole_pass(Seq::empty(), Seq::empty(), 0), title_spec(answers[0])),
        Finish::Assemble(a) => (false, whole_pass(Seq::empty(), Seq::empty(), 0), assembled(a, k)),
        Finish::Merge { prompt, tokens, from, .. } => (
            true,
            PassView { text: message(merged_spec(k)), prompt: prompt@, tokens: tokens, from: from, to: 100 },
            Seq::empty(),
        ),
    }
}

/// The result of a job from the answer of its final pass.
pub open spec fn merged_result(job: Job, answer: Seq<char>) -> Seq<char> {
    match job.finish {
        Finish::Merge { assemble: Some(a), .. } => assembled(a, seq![answer]),
        _ => answer,
    }
}

// --- building the passes ---------------------------------------------------------------------

proof fn lemma_part_starts_len(t: Seq<char>, n: int, step: int, i: int, start: int)
    requires
        i <= n,
    ensures
        part_starts(t, n, step, i, start).len() <= n - i,
    decreases n - i,
{
    if i < n {
        let cut = crate::summary::cut_point(t, step, i, start);
        lemma_part_starts_len(t, n, step, i + 1, cut);
        lemma_part_starts_len(t, n, step, i + 1, start);
    }
}

proof fn lemma_parts_between_len(t: Seq<char>, starts: Seq<int>)
    ensures
        parts_between(t, starts).len() == starts.len(),
    decreases starts.len(),
{
    if starts.len() > 1 {
        lemma_parts_between_len(t, starts.drop_first());
    }
}

/// A text cut into `n` parts gives at most `n` parts, and at least one.
proof fn lemma_split_len(t: Seq<char>, n: int)
    requires
        n >= 1,
    ensures
        1 <= split_spec(t, n).len() <= n,
{
    let total = crate::summary::offset(t, t.len() as int);
    lemma_part_starts_len(t, n, total / n, 1, 0);
    lemma_parts_between_len(t, seq![0] + part_starts(t, n, total / n, 1, 0));
}

fn text(s: &str) -> (r: String)
    ensures
        r@ == s@,
{
    string_of(&chars_of(s))
}

/// The user message for a text.
fn message_of(t: &str) -> (r: String)
    ensures
        r@ == message(t@),
{
    let mut out = chars_of("Текст:\n\n");
    append(&mut out, &chars_of(t));
    string_of(&out)
}

/// The only pass over a short text.
fn whole(t: &str, prompt: &str, tokens: i32) -> (r: Pass)
    ensures
        r@ == whole_pass(t@, prompt@, tokens),
{
    Pass { text: message_of(t), prompt: text(prompt), tokens, from: 0, to: 100 }
}

/// The passes over the parts of a text cut into `n`, `extra` passes more
/// following them on the bar.
fn parts_passes(t: &str, n: usize, extra: usize, prompt: &str, tokens: i32) -> (r: Vec<Pass>)
    requires
        1 <= n,
        n + extra <= 255,
        extra <= 1,
    ensures
        passes_view(r@) == part_passes(split_spec(t@, n as int), prompt@, tokens, slice_of((n + extra) as nat)),
        r@.len() <= n,
{
    let parts = split_into(t, n);
    proof {
        lemma_split_len(t@, n as int);
    }
    let slice: u8 = 100 / ((n + extra) as u8);
    let ghost ps = split_spec(t@, n as int);
    let mut out: Vec<Pass> = Vec::new();
    let mut i: usize = 0;
    while i < parts.len()
        invariant
            i <= parts@.len(),
            texts(parts@) == ps,
            parts@.len() <= n,
            n + extra <= 255,
            1 <= n,
            slice == slice_of((n + extra) as nat),
            out@.len() == i,
            forall|k: int|
                0 <= k < i ==> #[trigger] passes_view(out@)[k] == part_passes(ps, prompt@, tokens, slice)[k],
        decreases parts.len() - i,
    {
        proof {
            assert(slice * (n + extra) <= 100) by (nonlinear_arith)
                requires slice == (100int / ((n + extra) as int)) as u8, n + extra >= 1, n + extra <= 255;
            assert(slice * i + slice <= 100) by (nonlinear_arith)
                requires slice * (n + extra) <= 100, i < n, slice >= 0;
        }
        let from: u8 = slice * (i as u8);
        let p = Pass {
            text: message_of(parts[i].as_str()),
            prompt: text(prompt),
            tokens,
            from,
            to: from + slice,
        };
        proof {
            assert(parts@[i as int]@ == ps[i as int]);
            assert(p@ == part_passes(ps, prompt@, tokens, slice)[i as int]);
        }
        let ghost before = out@;
        out.push(p);
        proof {
            assert forall|k: int| 0 <= k < i + 1 implies #[trigger] passes_view(out@)[k] == part_passes(
                ps,
                prompt@,
                tokens,
                slice,
            )[k] by {
                if k < i {
                    assert(out@[k] == before[k]);
                    assert(passes_view(before)[k] == before[k]@);
                } else {
                    assert(out@[k] == p);
                }
            }
        }
        i += 1;
    }
    proof {
        assert(passes_view(out@) =~= part_passes(ps, prompt@, tokens, slice));
    }
    out
}

// --- the jobs ------------------------------------------------------------------------------

/// The prompts of a summary by kind of recording: a meeting (or no kind)
/// has its own, the rest share those for talks.
pub open spec fn summary_prompts(kind: Seq<char>) -> (Seq<char>, Seq<char>) {
    if kind == "meeting"@ || kind.len() == 0 {
        (SYSTEM_PROMPT@, MERGE_PROMPT@)
    } else {
        (SYSTEM_PROMPT_TALK@, MERGE_PROMPT_TALK@)
    }
}

/// The summary of a transcript that the model's tokens cut into `parts_n`
/// parts: one pass when it fits, else a pass per part and a final pass over
/// all their answers; the progress bar is shared equally.
pub fn summarize(transcript: &str, kind: &str, parts_n: usize) -> (r: Job)
    requires
        1 <= parts_n <= 254,
    ensures
        r.ctx == N_CTX,
        !r.drop_empty,
        parts_n == 1 ==> {
            &&& passes_view(r.passes@) == seq![whole_pass(transcript@, summary_prompts(kind@).0, MAX_TOKENS)]
            &&& r.finish == Finish::Answer
        },
        parts_n > 1 ==> {
            &&& passes_view(r.passes@) == part_passes(
                split_spec(transcript@, parts_n as int),
                PART_PROMPT@,
                PART_TOKENS,
                slice_of((parts_n + 1) as nat),
            )
            &&& r.finish matches Finish::Merge { prompt, tokens, from, assemble }
            &&& prompt@ == summary_prompts(kind@).1
            &&& tokens == MERGE_TOKENS
            &&& from == slice_of((parts_n + 1) as nat) * parts_n
            &&& assemble is None
        },
{
    let meeting = kind.is_empty() || crate::text::eq_chars(&chars_of(kind), &chars_of("meeting"));
    proof {
        if kind@.len() == 0 {
            assert(kind@ =~= Seq::<char>::empty());
        }
    }
    let (system, merge) = if meeting {
        (SYSTEM_PROMPT, MERGE_PROMPT)
    } else {
        (SYSTEM_PROMPT_TALK, MERGE_PROMPT_TALK)
    };
    if parts_n == 1 {
        let p = whole(transcript, system, MAX_TOKENS);
        let passes = vec![p];
        proof {
            assert(passes_view(passes@) =~= seq![p@]);
        }
        return Job { ctx: N_CTX, passes, drop_empty: false, finish: Finish::Answer };
    }
    let passes = parts_passes(transcript, parts_n, 1, PART_PROMPT, PART_TOKENS);
    let slice: u8 = 100 / ((parts_n + 1) as u8);
    proof {
        assert(slice * (parts_n + 1) <= 100) by (nonlinear_arith)
            requires slice == (100int / ((parts_n + 1) as int)) as u8, parts_n + 1 >= 1, parts_n + 1 <= 255;
        assert(slice * parts_n <= 100) by (nonlinear_arith)
            requires slice * (parts_n + 1) <= 100, slice >= 0, parts_n >= 0;
    }
    let from = slice * (parts_n as u8);
    Job {
        ctx: N_CTX,
        passes,
        drop_empty: false,
        finish: Finish::Merge { prompt: text(merge), tokens: MERGE_TOKENS, from, assemble: None },
    }
}

/// An answer to a question about a transcript whose lines begin with their
/// time: one pass when it fits, else a pass per part for what bears on the
/// question and a final pass over what was found; a blank question is
/// refused.
pub fn ask_with(timed: &str, question: &str, parts_n: usize) -> (r: Result<Job, JobError>)
    requires
        1 <= parts_n <= 254,
    ensures
        match r {
            Err(e) => e == JobError::EmptyQuestion && trim(question@).len() == 0,
            Ok(job) => {
                let q = trim(question@);
                &&& q.len() > 0
                &&& job.ctx == N_CTX
                &&& job.drop_empty
                &&& parts_n == 1 ==> {
                    &&& passes_view(job.passes@) == seq![
                        whole_pass(timed@, ASK_PROMPT@ + "\n\nВопрос: "@ + q, ASK_TOKENS),
                    ]
                    &&& job.finish == Finish::Answer
                }
                &&& parts_n > 1 ==> {
                    &&& passes_view(job.passes@) == part_passes(
                        split_spec(timed@, parts_n as int),
                        ASK_PART_PROMPT@ + "\n\nВопрос: "@ + q,
                        ASK_TOKENS,
                        slice_of((parts_n + 1) as nat),
                    )
                    &&& job.finish matches Finish::Merge { prompt, tokens, from, assemble }
                    &&& prompt@ == ASK_MERGE_PROMPT@ + "\n\nВопрос: "@ + q
                    &&& tokens == ASK_TOKENS
                    &&& from == slice_of((parts_n + 1) as nat) * parts_n
                    &&& assemble is None
                }
            },
        },
{
    let q = match question_text(question) {
        Some(q) => q,
        None => {
            return Err(JobError::EmptyQuestion);
        },
    };
    if parts_n == 1 {
        let prompt = crate::summary::with_question(ASK_PROMPT, q.as_str());
        let p = whole(timed, prompt.as_str(), ASK_TOKENS);
        let passes = vec![p];
        proof {
            assert(passes_view(passes@) =~= seq![p@]);
        }
        return Ok(Job { ctx: N_CTX, passes, drop_empty: true, finish: Finish::Answer });
    }
    let part_prompt = crate::summary::with_question(ASK_PART_PROMPT, q.as_str());
    let passes = parts_passes(timed, parts_n, 1, part_prompt.as_str(), ASK_TOKENS);
    let slice: u8 = 100 / ((parts_n + 1) as u8);
    proof {
        assert(slice * (parts_n + 1) <= 100) by (nonlinear_arith)
            requires slice == (100int / ((parts_n + 1) as int)) as u8, parts_n + 1 >= 1, parts_n + 1 <= 255;
        assert(slice * parts_n <= 100) by (nonlinear_arith)
            requires slice * (parts_n + 1) <= 100, slice >= 0, parts_n >= 0;
    }
    let from = slice * (parts_n as u8);
    let merge = crate::summary::with_question(ASK_MERGE_PROMPT, q.as_str());
    Ok(
        Job {
            ctx: N_CTX,
            passes,
            drop_empty: true,
            finish: Finish::Merge { prompt: merge, tokens: ASK_TOKENS, from, assemble: None },
        },
    )
}

/// The prompt for a breakdown of a recording short enough for one pass.
pub open spec fn whole_prompt_of(b: Breakdown) -> &'static str {
    if b.id@ == "letter"@ {
        LETTER_PROMPT
    } else if b.id@ == "post"@ {
        POST_WHOLE_PROMPT
    } else {
        b.part_prompt
    }
}

/// A breakdown of a recording by its id, the text cut into `parts_n` parts by
/// the breakdown's budget: one pass when it fits (its answer put together by
/// the breakdown's assembler), else a pass per part, and finish either the
/// extracts that found something put together by code, or a final pass over
/// them whose answer is put together; an unknown id is refused.
pub fn derive_with(kind: &str, text_in: &str, parts_n: usize) -> (r: Result<Job, JobError>)
    requires
        1 <= parts_n <= 254,
    ensures
        match r {
            Err(e) => breakdown_from(kind@, 0) is None && (e matches JobError::UnknownBreakdown(k) && k@ == kind@),
            Ok(job) => match breakdown_from(kind@, 0) {
                None => false,
                Some(b) => {
                &&& job.ctx == N_CTX
                &&& parts_n == 1 ==> {
                    &&& passes_view(job.passes@) == seq![whole_pass(text_in@, whole_prompt_of(b)@, b.tokens)]
                    &&& !job.drop_empty
                    &&& job.finish == Finish::Assemble(b.assemble)
                }
                &&& parts_n > 1 ==> {
                    &&& job.drop_empty
                    &&& passes_view(job.passes@) == part_passes(
                        split_spec(text_in@, parts_n as int),
                        b.part_prompt@,
                        b.tokens,
                        slice_of((parts_n + if b.merge_prompt is Some { 1nat } else { 0nat }) as nat),
                    )
                    &&& match b.merge_prompt {
                        None => job.finish == Finish::Assemble(b.assemble),
                        Some(m) => job.finish matches Finish::Merge { prompt, tokens, from, assemble } && prompt@
                            == m@ && tokens == b.tokens && from == slice_of((parts_n + 1) as nat) * parts_n
                            && assemble == Some(b.assemble),
                    }
                }
            },
            },
        },
{
    let b = match breakdown(kind) {
        Some(b) => b,
        None => {
            return Err(JobError::UnknownBreakdown(text(kind)));
        },
    };
    if parts_n == 1 {
        let p = whole(text_in, whole_prompt(&b), b.tokens);
        let passes = vec![p];
        proof {
            assert(passes_view(passes@) =~= seq![p@]);
        }
        return Ok(Job { ctx: N_CTX, passes, drop_empty: false, finish: Finish::Assemble(b.assemble) });
    }
    match b.merge_prompt {
        None => {
            let passes = parts_passes(text_in, parts_n, 0, b.part_prompt, b.tokens);
            Ok(Job { ctx: N_CTX, passes, drop_empty: true, finish: Finish::Assemble(b.assemble) })
        },
        Some(m) => {
            let passes = parts_passes(text_in, parts_n, 1, b.part_prompt, b.tokens);
            let slice: u8 = 100 / ((parts_n + 1) as u8);
            proof {
                assert(slice * (parts_n + 1) <= 100) by (nonlinear_arith)
                    requires slice == (100int / ((parts_n + 1) as int)) as u8, parts_n + 1 >= 1, parts_n + 1 <= 255;
                assert(slice * parts_n <= 100) by (nonlinear_arith)
                    requires slice * (parts_n + 1) <= 100, slice >= 0, parts_n >= 0;
            }
            let from = slice * (parts_n as u8);
            Ok(
                Job {
                    ctx: N_CTX,
                    passes,
                    drop_empty: true,
                    finish: Finish::Merge { prompt: text(m), tokens: b.tokens, from, assemble: Some(b.assemble) },
                },
            )
        },
    }
}

/// The prompt that asks what kind of recording a transcript's head is.
pub const CLASSIFY_PROMPT: &'static str = "Тебе дают начало автоматической расшифровки записи; в тексте бывают ошибки распознавания. Определи, что это за запись, и ответь одним словом из четырёх: встреча — рабочее обсуждение нескольких людей, где что-то решают или планируют; вебинар — выступление, лекция, доклад или обучение, где один говорит для многих; интервью — беседа с гостем, подкаст, вопросы и ответы; другое — всё остальное. Только одно слово, без пояснений. /no_think";

/// The prompt that asks for a short title.
pub const TITLE_PROMPT: &'static str = "Тебе дают начало автоматической расшифровки записи (встреча, интервью, лекция или заметка); в тексте бывают ошибки распознавания. Придумай короткое название этой записи на русском: от двух до пяти слов, по сути разговора. Ответь только самим названием — без кавычек, точки в конце и пояснений. /no_think";

/// The kind of a recording ("meeting", "talk", "interview", "other") from
/// the head of its transcript: one short pass in a small context.
pub fn classify_with(transcript_head: &str) -> (r: Job)
    ensures
        r.ctx == 4096,
        passes_view(r.passes@) == seq![whole_pass(transcript_head@, CLASSIFY_PROMPT@, 24)],
        !r.drop_empty,
        r.finish == Finish::Kind,
{
    let p = whole(transcript_head, CLASSIFY_PROMPT, 24);
    let passes = vec![p];
    proof {
        assert(passes_view(passes@) =~= seq![p@]);
    }
    Job { ctx: 4096, passes, drop_empty: false, finish: Finish::Kind }
}

/// A short title of a recording from the head of its transcript.
pub fn title_with(transcript_head: &str) -> (r: Job)
    ensures
        r.ctx == 4096,
        passes_view(r.passes@) == seq![whole_pass(transcript_head@, TITLE_PROMPT@, 96)],
        !r.drop_empty,
        r.finish == Finish::Title,
{
    let p = whole(transcript_head, TITLE_PROMPT, 96);
    let passes = vec![p];
    proof {
        assert(passes_view(passes@) =~= seq![p@]);
    }
    Job { ctx: 4096, passes, drop_empty: false, finish: Finish::Title }
}

/// The prompt that asks for a translation of a text into the language named
/// `name` (in Russian), keeping its markup.
pub open spec fn text_translation_prompt(name: Seq<char>) -> Seq<char> {
    "Ты переводчик. Переведи текст на "@ + name
        + " язык, естественно и точно. Сохрани разметку: строки, начинающиеся с «##», остаются заголовками, строки с «- » — пунктами, время в квадратных скобках не меняй. Ответь только переводом, без пояснений. /no_think"@
}

/// A translation of a connected text (a summary, a breakdown) into the
/// language with the given code, markup kept; an unknown code is refused.
pub fn translate_text_with(lang: &str, text_in: &str) -> (r: Result<Job, JobError>)
    ensures
        match r {
            Err(e) => language_from(lang@, 0) is None && (e matches JobError::UnknownLanguage(k) && k@ == lang@),
            Ok(job) => match language_from(lang@, 0) {
                None => false,
                Some(i) => {
                &&& job.ctx == N_CTX
                &&& passes_view(job.passes@) == seq![
                    whole_pass(text_in@, text_translation_prompt(language_table()[i].2), MAX_TOKENS),
                ]
                &&& !job.drop_empty
                &&& job.finish == Finish::Answer
            },
            },
        },
{
    let name = match language_name(lang) {
        Some(n) => n,
        None => {
            return Err(JobError::UnknownLanguage(text(lang)));
        },
    };
    let mut prompt = chars_of("Ты переводчик. Переведи текст на ");
    append(&mut prompt, &chars_of(name));
    append(
        &mut prompt,
        &chars_of(
            " язык, естественно и точно. Сохрани разметку: строки, начинающиеся с «##», остаются заголовками, строки с «- » — пунктами, время в квадратных скобках не меняй. Ответь только переводом, без пояснений. /no_think",
        ),
    );
    let prompt = string_of(&prompt);
    let p = whole(text_in, prompt.as_str(), MAX_TOKENS);
    let passes = vec![p];
    proof {
        assert(passes_view(passes@) =~= seq![p@]);
    }
    Ok(Job { ctx: N_CTX, passes, drop_empty: false, finish: Finish::Answer })
}

// --- after the passes -------------------------------------------------------------------------

/// The answers kept.
fn kept_answers(answers: &[String], drop_empty: bool) -> (r: Vec<String>)
    ensures
        texts(r@) == kept(texts(answers@), drop_empty),
{
    let ghost av = texts(answers@);
    let mut out: Vec<String> = Vec::new();
    let mut i: usize = 0;
    while i < answers.len()
        invariant
            i <= answers@.len(),
            av == texts(answers@),
            texts(out@) == kept(av.take(i as int), drop_empty),
        decreases answers.len() - i,
    {
        proof {
            assert(av.take(i + 1).drop_last() =~= av.take(i as int));
            assert(av.take(i + 1).last() == answers@[i as int]@);
        }
        if !drop_empty || keep_extract(answers[i].as_str()) {
            out.push(text(answers[i].as_str()));
            proof {
                assert(texts(out@) =~= kept(av.take(i as int), drop_empty).push(answers@[i as int]@));
            }
        }
        i += 1;
    }
    proof {
        assert(av.take(av.len() as int) =~= av);
    }
    out
}

/// What follows the answers of a job's passes (one answer per pass, in
/// order): the result, or the final pass to run.
pub fn after_passes(job: &Job, answers: &[String]) -> (r: Next)
    requires
        answers@.len() >= 1,
    ensures
        match r {
            Next::Run(p) => next_after(*job, texts(answers@)).0 && p@ == next_after(*job, texts(answers@)).1,
            Next::Done(s) => !next_after(*job, texts(answers@)).0 && s@ == next_after(*job, texts(answers@)).2,
        },
{
    proof {
        assert(texts(answers@)[0] == answers@[0]@);
    }
    match &job.finish {
        Finish::Answer => Next::Done(text(answers[0].as_str())),
        Finish::Kind => Next::Done(recording_kind(answers[0].as_str())),
        Finish::Title => Next::Done(title_from_answer(answers[0].as_str())),
        Finish::Assemble(a) => {
            let k = kept_answers(answers, job.drop_empty);
            Next::Done(assemble(*a, &k))
        },
        Finish::Merge { prompt, tokens, from, .. } => {
            let k = kept_answers(answers, job.drop_empty);
            let merged = merged_extracts(&k);
            Next::Run(Pass { text: message_of(merged.as_str()), prompt: text(prompt.as_str()), tokens: *tokens, from: *from, to: 100 })
        },
    }
}

/// The result of a job from the answer of its final pass.
pub fn after_merge(job: &Job, answer: &str) -> (r: String)
    ensures
        r@ == merged_result(*job, answer@),
{
    match &job.finish {
        Finish::Merge { assemble: Some(a), .. } => {
            let one = vec![text(answer)];
            proof {
                assert(texts(one@) =~= seq![answer@]);
            }
            assemble(*a, &one)
        },
        _ => text(answer),
    }
}

// --- translating the lines of a transcript ----------------------------------------------------

/// The prompt that asks for a translation of numbered lines into the
/// language named `name` (in Russian), line for line.
pub open spec fn lines_translation_prompt(name: Seq<char>) -> Seq<char> {
    "Ты переводчик. Тебе дают пронумерованные строки автоматической расшифровки речи (в них бывают ошибки распознавания и разговорные обороты). Переведи каждую строку на "@
        + name
        + " язык, естественно и по смыслу. Ответь только переведёнными строками: столько же строк, в том же порядке, каждая начинается с того же номера и точки. Ничего не добавляй, не объединяй, не разбивай и не пропускай строки: если в строке несколько предложений, в ответе они остаются одной строкой под тем же номером. /no_think"@
}

/// Lines numbered from 1, each trimmed, one per line.
pub open spec fn numbered_lines(chunk: Seq<Seq<char>>) -> Seq<char> {
    join(Seq::new(chunk.len(), |i: int| digits_of((i + 1) as nat) + ". "@ + trim(chunk[i])), "\n"@)
}

/// The translations a reply gives for a chunk: one per line when it has
/// every number once; for a single line, whatever numbered lines it has,
/// joined (the line itself when it has none); `None` when a longer chunk
/// must be asked again in halves.
pub open spec fn translated(chunk: Seq<Seq<char>>, raw: Seq<char>) -> Option<Seq<Seq<char>>> {
    let (slots, seen, _c) = numbered_fold(lines(raw), chunk.len());
    if seen == chunk.len() && (forall|i: int| 0 <= i < slots.len() ==> (#[trigger] slots[i]) is Some) {
        Some(Seq::new(slots.len(), |i: int| slots[i]->0))
    } else if chunk.len() == 1 {
        let j = join(all_numbered(lines(raw)), " "@);
        Some(seq![if j.len() == 0 { chunk[0] } else { j }])
    } else {
        None
    }
}

/// A chunk of lines still to translate: its first line, how many lines, and
/// its share `from .. to` of the progress bar.
pub type ChunkView = (nat, nat, u8, u8);

/// A translation in progress as plain values: the lines, the prompt, the
/// chunks still to ask (the next one last), and the translations so far.
pub struct LineTranslationView {
    pub lines: Seq<Seq<char>>,
    pub prompt: Seq<char>,
    pub todo: Seq<ChunkView>,
    pub done: Seq<Seq<char>>,
}

/// The chunks still to ask, read from the next one on, cover the lines from
/// `at` to `end` one after another, none empty, each with its share of the
/// bar in order.
pub open spec fn tiles(todo: Seq<ChunkView>, at: nat, end: nat) -> bool
    decreases todo.len(),
{
    if todo.len() == 0 {
        at == end
    } else {
        let c = todo.last();
        &&& c.0 == at
        &&& c.1 >= 1
        &&& c.2 <= c.3 <= 100
        &&& tiles(todo.drop_last(), at + c.1, end)
    }
}

/// What is left to do, counted so that every answer lowers it: a chunk of
/// `l` lines needs at most `2 l - 1` more passes.
pub open spec fn work(todo: Seq<ChunkView>) -> int
    decreases todo.len(),
{
    if todo.len() == 0 {
        0
    } else {
        work(todo.drop_last()) + 2 * todo.last().1 - 1
    }
}

/// The chunk asked next, as a pass.
pub open spec fn pass_for(t: LineTranslationView) -> PassView {
    let c = t.todo.last();
    PassView {
        text: message(numbered_lines(t.lines.subrange(c.0 as int, (c.0 + c.1) as int))),
        prompt: t.prompt,
        tokens: TRANSLATE_TOKENS,
        from: c.2,
        to: c.3,
    }
}

/// The translation after the model answered `raw` for the chunk asked
/// next: its lines are done, or it is asked again as two halves, the first
/// half next, each with its half of the chunk's share of the bar.
pub open spec fn answered(t: LineTranslationView, raw: Seq<char>) -> LineTranslationView {
    let c = t.todo.last();
    let rest = t.todo.drop_last();
    match translated(t.lines.subrange(c.0 as int, (c.0 + c.1) as int), raw) {
        Some(out) => LineTranslationView { done: t.done + out, todo: rest, ..t },
        None => {
            let h = c.1 / 2;
            let mid = (c.2 + (c.3 - c.2) / 2) as u8;
            LineTranslationView { todo: rest.push((c.0 + h, (c.1 - h) as nat, mid, c.3)).push((c.0, h, c.2, mid)), ..t }
        },
    }
}

/// Batch `b` of `n` lines: twenty lines (fewer at the end), with its share of
/// the bar, at least one point wide.
pub open spec fn batch(n: nat, count: nat, b: nat) -> ChunkView {
    let from = (b * 100 / count) as u8;
    let to = ((b + 1) * 100 / count) as u8;
    let to = if to > from + 1 { to } else { (from + 1) as u8 };
    let to = if to < 100 { to } else { 100u8 };
    (b * TRANSLATE_BATCH as nat, if n - b * TRANSLATE_BATCH >= TRANSLATE_BATCH { TRANSLATE_BATCH as nat } else { (n - b * TRANSLATE_BATCH) as nat }, from, to)
}

/// How many batches `n` lines make.
pub open spec fn batch_count(n: nat) -> nat {
    (n + TRANSLATE_BATCH - 1) as nat / TRANSLATE_BATCH as nat
}

/// The batches of `n` lines to ask, the first one last.
pub open spec fn batches(n: nat) -> Seq<ChunkView> {
    let nb = batch_count(n);
    let count = if nb > 0 { nb } else { 1 };
    Seq::new(nb, |k: int| batch(n, count, (nb - 1 - k) as nat))
}

/// The chunks as plain values.
pub open spec fn chunks_view(v: Seq<(usize, usize, u8, u8)>) -> Seq<ChunkView> {
    v.map_values(|c: (usize, usize, u8, u8)| (c.0 as nat, c.1 as nat, c.2, c.3))
}

/// A translation of the lines of a transcript in progress.
pub struct LineTranslation {
    lines: Vec<String>,
    prompt: String,
    todo: Vec<(usize, usize, u8, u8)>,
    done: Vec<String>,
}

impl View for LineTranslation {
    type V = LineTranslationView;

    open spec fn view(&self) -> LineTranslationView {
        self.model()
    }
}

proof fn lemma_fold_len(ls: Seq<Seq<char>>, n: nat)
    ensures
        numbered_fold(ls, n).0.len() == n,
        numbered_fold(ls, n).2 matches Some(i) ==> 0 <= i < n,
    decreases ls.len(),
{
    if ls.len() > 0 {
        lemma_fold_len(ls.drop_last(), n);
    }
}

impl LineTranslation {
    pub closed spec fn model(&self) -> LineTranslationView {
        LineTranslationView {
            lines: texts(self.lines@),
            prompt: self.prompt@,
            todo: chunks_view(self.todo@),
            done: texts(self.done@),
        }
    }

    /// The translation holds together: the chunks left cover the lines not
    /// yet done, in order.
    pub open spec fn wf(&self) -> bool {
        tiles(self@.todo, self@.done.len(), self@.lines.len())
    }
}

proof fn lemma_tiles_end(todo: Seq<ChunkView>, at: nat, end: nat)
    requires
        tiles(todo, at, end),
    ensures
        at <= end,
        todo.len() > 0 ==> at + todo.last().1 <= end,
        work(todo) >= 0,
    decreases todo.len(),
{
    if todo.len() > 0 {
        lemma_tiles_end(todo.drop_last(), at + todo.last().1, end);
    }
}

/// Every answer keeps the chunks left covering, in order, exactly the lines
/// not yet translated, and lowers the work left: a translation ends, and
/// when no chunk is left every line has its one translation.
pub proof fn law_answer_keeps_lines(t: LineTranslationView, raw: Seq<char>)
    requires
        tiles(t.todo, t.done.len(), t.lines.len()),
        t.todo.len() > 0,
    ensures
        tiles(answered(t, raw).todo, answered(t, raw).done.len(), t.lines.len()),
        answered(t, raw).lines == t.lines,
        work(answered(t, raw).todo) < work(t.todo),
        t.done.is_prefix_of(answered(t, raw).done),
{
    let c = t.todo.last();
    let rest = t.todo.drop_last();
    let at = t.done.len();
    let end = t.lines.len();
    assert(c.0 == at && c.1 >= 1 && c.2 <= c.3 <= 100 && tiles(rest, at + c.1, end));
    lemma_tiles_end(rest, at + c.1, end);
    let chunk = t.lines.subrange(c.0 as int, (c.0 + c.1) as int);
    assert(chunk.len() == c.1);
    lemma_fold_len(lines(raw), chunk.len());
    assert(work(t.todo) == work(rest) + 2 * c.1 - 1);
    match translated(chunk, raw) {
        Some(out) => {
            assert(out.len() == c.1);
            assert(answered(t, raw).done == t.done + out);
            assert(answered(t, raw).todo == rest);
            assert(t.done.is_prefix_of(t.done + out)) by {
                assert((t.done + out).subrange(0, t.done.len() as int) =~= t.done);
            }
        },
        None => {
            assert(c.1 >= 2);
            let h = c.1 / 2;
            let mid = (c.2 + (c.3 - c.2) / 2) as u8;
            let r1 = rest.push((c.0 + h, (c.1 - h) as nat, mid, c.3));
            let r2 = r1.push((c.0, h, c.2, mid));
            assert(answered(t, raw).todo == r2);
            assert(r2.drop_last() =~= r1);
            assert(r1.drop_last() =~= rest);
            assert(tiles(r1, at + h, end));
            assert(tiles(r2, at, end));
            assert(work(r1) == work(rest) + 2 * (c.1 - h) - 1);
            assert(work(r2) == work(r1) + 2 * h - 1);
            assert(t.done.is_prefix_of(t.done)) by {
                assert(t.done.subrange(0, t.done.len() as int) =~= t.done);
            }
        },
    }
}

/// When no chunk is left, there is one translation per line.
pub proof fn law_done_has_every_line(t: LineTranslationView)
    requires
        tiles(t.todo, t.done.len(), t.lines.len()),
        t.todo.len() == 0,
    ensures
        t.done.len() == t.lines.len(),
{
}

/// The translation of the lines of a transcript into the language with the
/// given code: batches of twenty lines, each with its share of the bar; an
/// unknown code is refused.
pub fn translate_lines_with(lang: &str, lines_in: Vec<String>) -> (r: Result<LineTranslation, JobError>)
    ensures
        match r {
            Err(e) => language_from(lang@, 0) is None && (e matches JobError::UnknownLanguage(k) && k@ == lang@),
            Ok(t) => match language_from(lang@, 0) {
                None => false,
                Some(i) => {
                    &&& t.wf()
                    &&& t@.lines == texts(lines_in@)
                    &&& t@.prompt == lines_translation_prompt(language_table()[i].2)
                    &&& t@.todo == batches(lines_in@.len())
                    &&& t@.done.len() == 0
                },
            },
        },
{
    let name = match language_name(lang) {
        Some(n) => n,
        None => {
            return Err(JobError::UnknownLanguage(text(lang)));
        },
    };
    let mut prompt = chars_of(
        "Ты переводчик. Тебе дают пронумерованные строки автоматической расшифровки речи (в них бывают ошибки распознавания и разговорные обороты). Переведи каждую строку на ",
    );
    append(&mut prompt, &chars_of(name));
    append(
        &mut prompt,
        &chars_of(
            " язык, естественно и по смыслу. Ответь только переведёнными строками: столько же строк, в том же порядке, каждая начинается с того же номера и точки. Ничего не добавляй, не объединяй, не разбивай и не пропускай строки: если в строке несколько предложений, в ответе они остаются одной строкой под тем же номером. /no_think",
        ),
    );
    let n = lines_in.len();
    let nb = n / TRANSLATE_BATCH + if n % TRANSLATE_BATCH > 0 { 1 } else { 0 };
    let count: usize = if nb > 0 { nb } else { 1 };
    let ghost ns = n as nat;
    proof {
        assert(nb == batch_count(ns));
    }
    let mut todo: Vec<(usize, usize, u8, u8)> = Vec::new();
    let mut b = nb;
    while b > 0
        invariant
            b <= nb,
            nb == batch_count(ns),
            ns == n,
            count == (if nb > 0 { nb } else { 1 }),
            todo@.len() == nb - b,
            forall|k: int| 0 <= k < nb - b ==> #[trigger] chunks_view(todo@)[k] == batch(ns, count as nat, (nb - 1 - k) as nat),
            tiles(chunks_view(todo@), if b == nb { ns } else { (b * TRANSLATE_BATCH) as nat }, ns),
        decreases b,
    {
        b -= 1;
        proof {
            assert(b * TRANSLATE_BATCH < n);
            assert(n <= nb * TRANSLATE_BATCH);
            assert(b < count);
            assert((b * 100) / (count as int) < 100) by (nonlinear_arith)
                requires b < count, count > 0;
            assert(((b + 1) * 100) / (count as int) <= 100) by (nonlinear_arith)
                requires b + 1 <= count, count > 0;
        }
        let start = b * TRANSLATE_BATCH;
        let len = if n - start >= TRANSLATE_BATCH { TRANSLATE_BATCH } else { n - start };
        let from = (b as u128 * 100 / count as u128) as u8;
        let to0 = ((b as u128 + 1) * 100 / count as u128) as u8;
        let to1 = if to0 > from + 1 { to0 } else { from + 1 };
        let to = if to1 < 100 { to1 } else { 100 };
        let c = (start, len, from, to);
        let ghost before = chunks_view(todo@);
        let ghost cv = (start as nat, len as nat, from, to);
        proof {
            assert(cv == batch(ns, count as nat, b as nat));
        }
        todo.push(c);
        proof {
            assert(chunks_view(todo@) =~= before.push(cv));
            assert(chunks_view(todo@).drop_last() =~= before);
            assert forall|k: int| 0 <= k < nb - b implies #[trigger] chunks_view(todo@)[k] == batch(
                ns,
                count as nat,
                (nb - 1 - k) as nat,
            ) by {
                if k < nb - b - 1 {
                    assert(chunks_view(todo@)[k] == before[k]);
                }
            }
            if b + 1 == nb {
                assert(start + len == n);
            } else {
                assert(start + len == (b + 1) * TRANSLATE_BATCH);
            }
            assert(tiles(chunks_view(todo@), (b * TRANSLATE_BATCH) as nat, ns));
        }
    }
    let t = LineTranslation { lines: lines_in, prompt: string_of(&prompt), todo, done: Vec::new() };
    proof {
        assert(t@.todo =~= batches(ns));
    }
    Ok(t)
}

impl LineTranslation {
    /// The pass for the chunk asked next; `None` when every chunk is done.
    pub fn next_pass(&self) -> (r: Option<Pass>)
        requires
            self.wf(),
        ensures
            match r {
                None => self@.todo.len() == 0,
                Some(p) => self@.todo.len() > 0 && p@ == pass_for(self@),
            },
    {
        if self.todo.len() == 0 {
            return None;
        }
        let c = self.todo[self.todo.len() - 1];
        let (start, len, from, to) = c;
        proof {
            lemma_tiles_end(self@.todo, self@.done.len(), self@.lines.len());
            assert(self@.todo.last() == (start as nat, len as nat, from, to));
        }
        let ghost chunk = self@.lines.subrange(start as int, (start + len) as int);
        let mut parts: Vec<Vec<char>> = Vec::new();
        let mut i: usize = 0;
        while i < len
            invariant
                i <= len,
                start + len <= self.lines.len(),
                chunk == texts(self.lines@).subrange(start as int, (start + len) as int),
                parts@.len() == i,
                forall|k: int| 0 <= k < i ==> #[trigger] parts@[k]@ == digits_of((k + 1) as nat) + ". "@ + trim(chunk[k]),
            decreases len - i,
        {
            let mut l: Vec<char> = Vec::new();
            push_digits((i + 1) as u64, &mut l);
            append(&mut l, &chars_of(". "));
            append(&mut l, &trim_chars(&chars_of(self.lines[start + i].as_str())));
            proof {
                assert(chunk[i as int] == self.lines@[start + i]@);
            }
            parts.push(l);
            i += 1;
        }
        let numbered = join_chars(&parts, &chars_of("\n"));
        proof {
            assert(parts@.map_values(|x: Vec<char>| x@) =~= Seq::new(
                chunk.len(),
                |k: int| digits_of((k + 1) as nat) + ". "@ + trim(chunk[k]),
            ));
        }
        let body = string_of(&numbered);
        Some(Pass { text: message_of(body.as_str()), prompt: text(self.prompt.as_str()), tokens: TRANSLATE_TOKENS, from, to })
    }

    /// Takes the model's answer for the chunk asked next.
    pub fn answer(&mut self, raw: &str)
        requires
            old(self).wf(),
            old(self)@.todo.len() > 0,
        ensures
            final(self).wf(),
            final(self)@ == answered(old(self)@, raw@),
            work(final(self)@.todo) < work(old(self)@.todo),
    {
        proof {
            law_answer_keeps_lines(self@, raw@);
            lemma_tiles_end(self@.todo, self@.done.len(), self@.lines.len());
        }
        let ghost t = self@;
        let ghost old_todo = self.todo@;
        let c = self.todo.pop().unwrap();
        let (start, len, from, to) = c;
        let ghost cv = (start as nat, len as nat, from, to);
        proof {
            assert(old_todo.last() == c);
            assert(t.todo == chunks_view(old_todo));
            assert(t.todo.last() == cv);
            assert(chunks_view(self.todo@) =~= t.todo.drop_last());
            assert(cv.2 <= cv.3);
        }
        let ghost chunk = t.lines.subrange(start as int, (start + len) as int);
        let ghost rest = t.todo.drop_last();
        let (parsed, seen) = parse_numbered(raw, len);
        let ghost slots = numbered_fold(lines(raw@), len as nat).0;
        proof {
            lemma_fold_len(lines(raw@), len as nat);
            assert(chunk.len() == len);
            assert(slots_view(parsed@) == slots);
        }
        let mut complete = seen == len;
        let mut i: usize = 0;
        while i < parsed.len()
            invariant
                i <= parsed@.len(),
                complete == (seen == len && forall|k: int| 0 <= k < i ==> (#[trigger] slots_view(parsed@)[k]) is Some),
            decreases parsed.len() - i,
        {
            proof {
                assert((slots_view(parsed@)[i as int] is Some) == (parsed@[i as int] is Some));
            }
            if parsed[i].is_none() {
                complete = false;
            }
            i += 1;
        }
        if complete {
            let mut k: usize = 0;
            let ghost d0 = texts(self.done@);
            let ghost t1 = self@;
            while k < parsed.len()
                invariant
                    k <= parsed@.len(),
                    forall|j: int| 0 <= j < parsed@.len() ==> (#[trigger] slots_view(parsed@)[j]) is Some,
                    texts(self.done@) == d0 + Seq::new(k as nat, |j: int| slots_view(parsed@)[j]->0),
                    self@.lines == t1.lines,
                    self@.prompt == t1.prompt,
                    self@.todo == t1.todo,
                decreases parsed.len() - k,
            {
                proof {
                    assert(slots_view(parsed@)[k as int] is Some);
                }
                let ghost before = self.done@;
                match &parsed[k] {
                    Some(s) => {
                        proof {
                            assert(slots_view(parsed@)[k as int] == Some(s@));
                        }
                        self.done.push(text(s.as_str()));
                        proof {
                            assert(texts(self.done@) =~= texts(before).push(s@));
                        }
                    },
                    None => {},
                }
                proof {
                    assert(texts(self.done@) =~= d0 + Seq::new((k + 1) as nat, |j: int| slots_view(parsed@)[j]->0));
                }
                k += 1;
            }
            proof {
                assert(translated(chunk, raw@) == Some(Seq::new(slots.len(), |j: int| slots[j]->0)));
                assert(self@.done =~= t.done + Seq::new(slots.len(), |j: int| slots[j]->0));
                assert(self@.todo =~= answered(t, raw@).todo);
            }
        } else if len == 1 {
            let all = parse_all_numbered(raw);
            let mut ps: Vec<Vec<char>> = Vec::new();
            let mut j: usize = 0;
            while j < all.len()
                invariant
                    j <= all@.len(),
                    ps@.len() == j,
                    forall|k: int| 0 <= k < j ==> #[trigger] ps@[k]@ == all@[k]@,
                decreases all.len() - j,
            {
                ps.push(chars_of(all[j].as_str()));
                j += 1;
            }
            let joined = join_chars(&ps, &chars_of(" "));
            proof {
                assert(ps@.map_values(|x: Vec<char>| x@) =~= texts(all@));
                assert(!(seen == len && forall|k: int| 0 <= k < slots.len() ==> (#[trigger] slots[k]) is Some));
            }
            let ghost before = self.done@;
            if joined.len() == 0 {
                let line = text(self.lines[start].as_str());
                proof {
                    assert(chunk[0] == line@);
                }
                self.done.push(line);
                proof {
                    assert(texts(self.done@) =~= texts(before).push(chunk[0]));
                }
            } else {
                let jl = string_of(&joined);
                self.done.push(jl);
                proof {
                    assert(texts(self.done@) =~= texts(before).push(joined@));
                }
            }
            proof {
                assert(self@.done =~= answered(t, raw@).done);
                assert(self@.todo =~= answered(t, raw@).todo);
            }
        } else {
            proof {
                assert(!(seen == len && forall|k: int| 0 <= k < slots.len() ==> (#[trigger] slots[k]) is Some));
                assert(translated(chunk, raw@) is None);
            }
            let total = self.lines.len();
            proof {
                assert(start + len <= total);
            }
            let h = len / 2;
            let mid = from + (to - from) / 2;
            self.todo.push((start + h, len - h, mid, to));
            self.todo.push((start, h, from, mid));
            proof {
                assert(self@.todo =~= answered(t, raw@).todo);
                assert(self@.done =~= answered(t, raw@).done);
            }
        }
        proof {
            assert(self@ == answered(t, raw@));
        }
    }

    /// Whether every chunk has been translated.
    pub fn is_done(&self) -> (r: bool)
        ensures
            r == (self@.todo.len() == 0),
    {
        self.todo.len() == 0
    }

    /// The translated lines, one per line of the transcript, in order.
    pub fn into_lines(self) -> (r: Vec<String>)
        requires
            self.wf(),
            self@.todo.len() == 0,
        ensures
            texts(r@) == self@.done,
            r@.len() == self@.lines.len(),
    {
        self.done
    }
}

} // verus!
