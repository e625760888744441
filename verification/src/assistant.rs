//! The course assistant: the course context given to the model, the
//! exercise prompt, and the state machine that reads the model's replies.

use vstd::prelude::*;
use vstd::utf8::{encode_scalar, encode_utf8};
use crate::text::{
    append_chars, chars_of, has_prefix, lowercase, lowercase_chars, starts_with, string_of,
    trim, trimmed,
};

verus! {

/// A block of a chapter as the assistant sees it.
pub struct ContextBlock {
    pub heading: Option<String>,
    pub content: String,
}

/// A chapter of a course, with its blocks in order.
pub struct ContextChapter {
    pub title: String,
    pub blocks: Vec<ContextBlock>,
}

/// The text of one block: `### {heading}` and a blank line when it has a
/// heading, then its content and a blank line.
pub open spec fn block_text(b: ContextBlock) -> Seq<char> {
    (match b.heading {
        Some(h) => seq!['#', '#', '#', ' '] + h@ + seq!['\n', '\n'],
        None => Seq::empty(),
    }) + b.content@ + seq!['\n', '\n']
}

/// The text of the first `n` blocks.
pub open spec fn blocks_text(bs: Seq<ContextBlock>, n: int) -> Seq<char>
    decreases n,
{
    if n <= 0 {
        Seq::empty()
    } else {
        blocks_text(bs, n - 1) + block_text(bs[n - 1])
    }
}

/// The text of one chapter: `## {title}` and a blank line, then its blocks.
pub open spec fn chapter_text(c: ContextChapter) -> Seq<char> {
    seq!['#', '#', ' '] + c.title@ + seq!['\n', '\n'] + blocks_text(c.blocks@, c.blocks@.len() as int)
}

/// The text of the first `n` chapters.
pub open spec fn chapters_text(cs: Seq<ContextChapter>, n: int) -> Seq<char>
    decreases n,
{
    if n <= 0 {
        Seq::empty()
    } else {
        chapters_text(cs, n - 1) + chapter_text(cs[n - 1])
    }
}

/// The context of a course: the text of its chapters, trimmed.
pub open spec fn context_of(cs: Seq<ContextChapter>) -> Seq<char> {
    trim(chapters_text(cs, cs.len() as int))
}

/// Builds the course context that the assistant receives, from the chapters
/// of the course in order.
pub fn build_context(chapters: &Vec<ContextChapter>) -> (r: String)
    ensures
        r@ == context_of(chapters@),
{
    let mut ctx: Vec<char> = Vec::new();
    let mut i: usize = 0;
    while i < chapters.len()
        invariant
            i <= chapters@.len(),
            ctx@ == chapters_text(chapters@, i as int),
        decreases chapters@.len() - i,
    {
        let c = &chapters[i];
        let ghost start = ctx@;
        ctx.push('#');
        ctx.push('#');
        ctx.push(' ');
        append_chars(&mut ctx, chars_of(c.title.as_str()).as_slice());
        ctx.push('\n');
        ctx.push('\n');
        assert(ctx@ =~= start + seq!['#', '#', ' '] + c.title@ + seq!['\n', '\n']);
        let ghost head = ctx@;
        let mut j: usize = 0;
        while j < c.blocks.len()
            invariant
                j <= c.blocks@.len(),
                ctx@ == head + blocks_text(c.blocks@, j as int),
            decreases c.blocks@.len() - j,
        {
            let b = &c.blocks[j];
            let ghost pre = ctx@;
            match &b.heading {
                Some(h) => {
                    ctx.push('#');
                    ctx.push('#');
                    ctx.push('#');
                    ctx.push(' ');
                    append_chars(&mut ctx, chars_of(h.as_str()).as_slice());
                    ctx.push('\n');
                    ctx.push('\n');
                },
                None => {},
            }
            append_chars(&mut ctx, chars_of(b.content.as_str()).as_slice());
            ctx.push('\n');
            ctx.push('\n');
            assert(ctx@ =~= pre + block_text(c.blocks@[j as int]));
            j = j + 1;
        }
        assert(ctx@ =~= start + chapter_text(chapters@[i as int]));
        i = i + 1;
    }
    string_of(trimmed(ctx.as_slice()).as_slice())
}


/// The longest message, in bytes of UTF-8, that the assistant evaluates.
pub const MAX_INPUT_LEN: usize = 500;

/// A message that the assistant evaluates: not empty once trimmed, and at
/// most `MAX_INPUT_LEN` bytes long.
pub open spec fn message_accepted(input: Seq<char>) -> bool {
    trim(input).len() > 0 && encode_utf8(trim(input)).len() <= MAX_INPUT_LEN
}

/// The user's message, trimmed, when the assistant evaluates it; `None` when
/// it is empty or too long.
pub fn check_message(input: &str) -> (r: Option<String>)
    ensures
        r is Some <==> message_accepted(input@),
        r matches Some(m) ==> m@ == trim(input@),
{
    let t = trimmed(chars_of(input).as_slice());
    if t.len() == 0 || utf8_len_exceeds(t.as_slice(), MAX_INPUT_LEN) {
        None
    } else {
        Some(string_of(t.as_slice()))
    }
}

/// The number of bytes of the UTF-8 encoding of `c`.
fn utf8_width(c: char) -> (r: usize)
    ensures
        r == encode_scalar(c as u32).len(),
{
    let u = c as u32;
    if u <= 0x7F {
        1
    } else if u <= 0x7FF {
        2
    } else if u <= 0xFFFF && !(0xD800 <= u && u <= 0xDFFF) {
        3
    } else {
        4
    }
}

/// Whether the UTF-8 encoding of `s` is longer than `cap` bytes.
fn utf8_len_exceeds(s: &[char], cap: usize) -> (r: bool)
    requires
        cap <= 1000,
    ensures
        r == (encode_utf8(s@).len() > cap),
{
    let n = s.len();
    let mut k: usize = n;
    let mut total: usize = 0;
    assert(s@.subrange(n as int, n as int) =~= Seq::<char>::empty());
    while k > 0
        invariant
            k <= n == s@.len(),
            cap <= 1000,
            total <= cap,
            total == encode_utf8(s@.subrange(k as int, n as int)).len(),
        decreases k,
    {
        let w = utf8_width(s[k - 1]);
        proof {
            let t = s@.subrange(k - 1, n as int);
            assert(t.drop_first() =~= s@.subrange(k as int, n as int));
            assert(t[0] == s@[k - 1]);
        }
        let next = total + w;
        if next > cap {
            proof {
                lemma_encode_suffix_mono(s@, 0, k - 1);
                assert(s@.subrange(0, n as int) =~= s@);
            }
            return true;
        }
        total = next;
        k = k - 1;
    }
    assert(s@.subrange(0, n as int) =~= s@);
    false
}

/// Longer suffixes encode to at least as many bytes.
proof fn lemma_encode_suffix_mono(s: Seq<char>, a: int, b: int)
    requires
        0 <= a <= b <= s.len(),
    ensures
        encode_utf8(s.subrange(a, s.len() as int)).len() >= encode_utf8(s.subrange(b, s.len() as int)).len(),
    decreases b - a,
{
    if a < b {
        lemma_encode_suffix_mono(s, a + 1, b);
        let t = s.subrange(a, s.len() as int);
        assert(t.drop_first() =~= s.subrange(a + 1, s.len() as int));
    }
}

/// What the user's turn puts in the conversation: a request to start on the
/// first turn, the message wrapped as `User response: [...]` afterwards, so
/// that it cannot pass for instructions.
pub open spec fn user_turn(first_turn: bool, message: Seq<char>) -> Seq<char> {
    if first_turn {
        "The user wants to start an exercise."@
    } else {
        "User response: ["@ + message + "]"@
    }
}

/// The content of the user's turn.
pub fn safe_content(first_turn: bool, message: &str) -> (r: String)
    ensures
        r@ == user_turn(first_turn, message@),
{
    if first_turn {
        "The user wants to start an exercise.".to_owned()
    } else {
        let mut v = chars_of("User response: [");
        append_chars(&mut v, chars_of(message).as_slice());
        append_chars(&mut v, chars_of("]").as_slice());
        string_of(v.as_slice())
    }
}

/// The system prompt: the general instructions, then the course content,
/// then the course's own constraints.
pub open spec fn system_prompt_of(instructions: Seq<char>, context: Seq<char>, constraints: Seq<char>) -> Seq<char> {
    instructions + "\n\n---\nContenu du cours :\n"@ + context + "\n\nContraintes spécifiques :\n"@
        + constraints
}

/// Assembles the system prompt of the assistant.
pub fn system_prompt(instructions: &str, context: &str, constraints: &str) -> (r: String)
    ensures
        r@ == system_prompt_of(instructions@, context@, constraints@),
{
    let mut v = chars_of(instructions);
    append_chars(&mut v, chars_of("\n\n---\nContenu du cours :\n").as_slice());
    append_chars(&mut v, chars_of(context).as_slice());
    append_chars(&mut v, chars_of("\n\nContraintes spécifiques :\n").as_slice());
    append_chars(&mut v, chars_of(constraints).as_slice());
    string_of(v.as_slice())
}

/// The session key of the conversation of a course.
pub fn history_key(slug: &str) -> (r: String)
    ensures
        r@ == "ia_history_"@ + slug@,
{
    let mut v = chars_of("ia_history_");
    append_chars(&mut v, chars_of(slug).as_slice());
    string_of(v.as_slice())
}

/// The session key of the failed-attempt counter of a course.
pub fn attempt_key(slug: &str) -> (r: String)
    ensures
        r@ == "ia_attempt_"@ + slug@,
{
    let mut v = chars_of("ia_attempt_");
    append_chars(&mut v, chars_of(slug).as_slice());
    string_of(v.as_slice())
}

/// How a reply of the model is read.
#[derive(Clone, Copy, Debug, PartialEq, Eq, Structural)]
pub enum ExerciseStatus {
    /// The answer was right.
    Correct,
    /// The answer was wrong; one more failed attempt.
    Incorrect,
    /// The correction, given once three attempts have failed.
    Correction,
    /// Setting up: choosing a type or stating an exercise.
    Exercise,
}

/// What a reply does to the exercise: its status, the attempt count that
/// follows it, and whether the conversation is cleared.
#[derive(Clone, Copy, Debug, PartialEq, Eq, Structural)]
pub struct ExerciseOutcome {
    pub status: ExerciseStatus,
    pub attempt: i32,
    pub reset: bool,
}

/// The outcome of a reply from its trimmed lowercase text and the attempt
/// count before it: `correct…` (not `incorrect…`) clears the conversation;
/// `incorrect…` counts one more attempt; after three attempts any other
/// reply is the correction and clears the conversation; otherwise the
/// exercise goes on unchanged.
pub open spec fn outcome_of(lowered: Seq<char>, attempt: i32) -> ExerciseOutcome {
    if starts_with(lowered, "correct"@) && !starts_with(lowered, "incorrect"@) {
        ExerciseOutcome { status: ExerciseStatus::Correct, attempt: 0, reset: true }
    } else if starts_with(lowered, "incorrect"@) {
        ExerciseOutcome { status: ExerciseStatus::Incorrect, attempt: (attempt + 1) as i32, reset: false }
    } else if attempt >= 3 {
        ExerciseOutcome { status: ExerciseStatus::Correction, attempt: 0, reset: true }
    } else {
        ExerciseOutcome { status: ExerciseStatus::Exercise, attempt: attempt, reset: false }
    }
}

/// Reads a reply of the model, given as its trimmed lowercase text.
pub fn classify_reply(lowered: &str, attempt: i32) -> (r: ExerciseOutcome)
    requires
        starts_with(lowered@, "incorrect"@) ==> attempt < i32::MAX,
    ensures
        r == outcome_of(lowered@, attempt),
{
    let l = chars_of(lowered);
    let correct = chars_of("correct");
    let incorrect = chars_of("incorrect");
    let is_incorrect = has_prefix(l.as_slice(), incorrect.as_slice());
    if has_prefix(l.as_slice(), correct.as_slice()) && !is_incorrect {
        ExerciseOutcome { status: ExerciseStatus::Correct, attempt: 0, reset: true }
    } else if is_incorrect {
        ExerciseOutcome { status: ExerciseStatus::Incorrect, attempt: attempt + 1, reset: false }
    } else if attempt >= 3 {
        ExerciseOutcome { status: ExerciseStatus::Correction, attempt: 0, reset: true }
    } else {
        ExerciseOutcome { status: ExerciseStatus::Exercise, attempt, reset: false }
    }
}

/// Reads a reply of the model: trims it, takes its lowercase form and
/// classifies it. `None` when the reply counts one more failed attempt on a
/// counter that is already `i32::MAX`.
pub fn assess_reply(reply: &str, attempt: i32) -> (r: Option<ExerciseOutcome>)
    ensures
        ({
            let l = lowercase(trim(reply@));
            &&& r is None <==> (starts_with(l, "incorrect"@) && attempt == i32::MAX)
            &&& r matches Some(o) ==> o == outcome_of(l, attempt)
        }),
{
    let t = trimmed(chars_of(reply).as_slice());
    let l = string_of(lowercase_chars(t.as_slice()).as_slice());
    let lc = chars_of(l.as_str());
    let incorrect = chars_of("incorrect");
    if has_prefix(lc.as_slice(), incorrect.as_slice()) && attempt == i32::MAX {
        return None;
    }
    Some(classify_reply(l.as_str(), attempt))
}

/// The name under which a status is sent to the page.
pub open spec fn status_text(s: ExerciseStatus) -> Seq<char> {
    match s {
        ExerciseStatus::Correct => "correct"@,
        ExerciseStatus::Incorrect => "incorrect"@,
        ExerciseStatus::Correction => "correction"@,
        ExerciseStatus::Exercise => "exercise"@,
    }
}

/// The name of a status.
pub fn status_name(s: ExerciseStatus) -> (r: &'static str)
    ensures
        r@ == status_text(s),
{
    match s {
        ExerciseStatus::Correct => "correct",
        ExerciseStatus::Incorrect => "incorrect",
        ExerciseStatus::Correction => "correction",
        ExerciseStatus::Exercise => "exercise",
    }
}

/// What the exercise endpoint answers: a text, the attempt count that
/// follows, and a status.
pub struct ExerciseAnswer {
    pub response: String,
    pub attempt: i32,
    pub status: String,
}

/// The answers that do not come from the model.
#[derive(Clone, Copy, Debug, PartialEq, Eq, Structural)]
pub enum FixedReply {
    /// The message was empty or too long: nothing was asked of the model.
    NotEvaluated,
    /// The model could not be reached.
    Unavailable,
}

/// The text of a fixed answer.
pub open spec fn fixed_reply_text(kind: FixedReply) -> Seq<char> {
    match kind {
        FixedReply::NotEvaluated => "I am only available to evaluate your response to the current exercise."@,
        FixedReply::Unavailable => "Service temporarily unavailable. Please try again."@,
    }
}

/// A fixed answer, with status `fixed_reply`: a message that is not
/// evaluated counts no attempt; when the model cannot be reached the count
/// stays as it was.
pub fn fixed_reply(kind: FixedReply, attempt: i32) -> (r: ExerciseAnswer)
    ensures
        r.response@ == fixed_reply_text(kind),
        r.attempt == match kind {
            FixedReply::NotEvaluated => 0,
            FixedReply::Unavailable => attempt,
        },
        r.status@ == "fixed_reply"@,
{
    let status = "fixed_reply".to_owned();
    match kind {
        FixedReply::NotEvaluated => ExerciseAnswer {
            response: "I am only available to evaluate your response to the current exercise.".to_owned(),
            attempt: 0,
            status,
        },
        FixedReply::Unavailable => ExerciseAnswer {
            response: "Service temporarily unavailable. Please try again.".to_owned(),
            attempt,
            status,
        },
    }
}

/// The answer that carries a reply of the model, read as `outcome`.
pub fn model_answer(reply: String, outcome: ExerciseOutcome) -> (r: ExerciseAnswer)
    ensures
        r.response@ == reply@,
        r.attempt == outcome.attempt,
        r.status@ == status_text(outcome.status),
{
    ExerciseAnswer { response: reply, attempt: outcome.attempt, status: status_name(outcome.status).to_owned() }
}

/// Each reply moves the attempt counter in one of four ways: it is cleared
/// together with the conversation, raised by exactly one after a wrong
/// answer, or kept as it was; and a counter at three or more never survives
/// a reply that is not a wrong answer.
pub proof fn law_attempt_counter(lowered: Seq<char>, attempt: i32)
    requires
        starts_with(lowered, "incorrect"@) ==> attempt < i32::MAX,
    ensures
        ({
            let o = outcome_of(lowered, attempt);
            &&& o.reset ==> o.attempt == 0
            &&& o.status == ExerciseStatus::Incorrect <==> o.attempt == attempt + 1 && !o.reset
            &&& !o.reset && o.status != ExerciseStatus::Incorrect ==> o.attempt == attempt
            &&& attempt >= 3 && o.status != ExerciseStatus::Incorrect ==> o.reset
            &&& attempt >= 0 ==> o.attempt >= 0
        }),
{
}


/// How a reply moves the exercise, by its lowercase text: the conversation
/// is cleared exactly on a correct answer (a reply starting with `correct`,
/// not `incorrect`) and on the correction that follows three failed
/// attempts, and then the counter starts again at 0; a reply starting with
/// `incorrect` counts one more failed attempt; any other reply, with fewer
/// than three failed attempts, leaves the exercise going on as it was.
pub proof fn law_reply_moves_exercise(lowered: Seq<char>, attempt: i32)
    requires
        starts_with(lowered, "incorrect"@) ==> attempt < i32::MAX,
    ensures
        ({
            let o = outcome_of(lowered, attempt);
            let correct = starts_with(lowered, "correct"@) && !starts_with(lowered, "incorrect"@);
            let wrong = starts_with(lowered, "incorrect"@);
            &&& o.reset <==> (correct || (!wrong && attempt >= 3))
            &&& o.reset ==> o.attempt == 0
            &&& (o.status == ExerciseStatus::Correct) <==> correct
            &&& (o.status == ExerciseStatus::Incorrect) <==> wrong
            &&& wrong ==> o.attempt == attempt + 1
            &&& (o.status == ExerciseStatus::Correction) <==> (!correct && !wrong && attempt >= 3)
            &&& !correct && !wrong && attempt < 3 ==> o.status == ExerciseStatus::Exercise && o.attempt == attempt
                && !o.reset
        }),
{
}

} // verus!
