use demo_app::assistant::{
    assess_reply, attempt_key, build_context, check_message, classify_reply, history_key,
    fixed_reply, model_answer, safe_content, status_name, system_prompt, ContextBlock,
    ContextChapter, ExerciseOutcome, ExerciseStatus, FixedReply,
};

fn s(x: &str) -> String {
    x.to_string()
}

#[test]
fn messages_are_checked() {
    assert_eq!(check_message("  hi  "), Some(s("hi")));
    assert_eq!(check_message("   "), None);
    assert_eq!(check_message(&"a".repeat(501)), None);
    assert_eq!(check_message(&"a".repeat(500)), Some("a".repeat(500)));
    assert_eq!(check_message(&"é".repeat(250)), Some("é".repeat(250)));
    assert_eq!(check_message(&"é".repeat(251)), None);
}

#[test]
fn user_turns() {
    assert_eq!(safe_content(true, "x"), "The user wants to start an exercise.");
    assert_eq!(safe_content(false, "abc"), "User response: [abc]");
}

#[test]
fn prompt_and_keys() {
    assert_eq!(
        system_prompt("I", "C", "K"),
        "I\n\n---\nContenu du cours :\nC\n\nContraintes spécifiques :\nK"
    );
    assert_eq!(history_key("rust"), "ia_history_rust");
    assert_eq!(attempt_key("rust"), "ia_attempt_rust");
}

#[test]
fn replies_drive_the_exercise() {
    let o = |status, attempt, reset| Some(ExerciseOutcome { status, attempt, reset });
    assert_eq!(assess_reply("  CORRECT! Well done", 2), o(ExerciseStatus::Correct, 0, true));
    assert_eq!(assess_reply("Incorrect, try again", 1), o(ExerciseStatus::Incorrect, 2, false));
    assert_eq!(assess_reply("Here is the correction", 3), o(ExerciseStatus::Correction, 0, true));
    assert_eq!(assess_reply("Pick a type", 1), o(ExerciseStatus::Exercise, 1, false));
    assert_eq!(assess_reply("incorrect", i32::MAX), None);
    assert_eq!(classify_reply("correctly", 0).status, ExerciseStatus::Correct);
    assert_eq!(status_name(ExerciseStatus::Correction), "correction");
    assert_eq!(status_name(ExerciseStatus::Exercise), "exercise");
}

#[test]
fn course_context() {
    let chapters = vec![
        ContextChapter {
            title: s("Intro"),
            blocks: vec![
                ContextBlock { heading: None, content: s("Hello") },
                ContextBlock { heading: Some(s("Sub")), content: s("World") },
            ],
        },
        ContextChapter { title: s("Next"), blocks: vec![] },
    ];
    assert_eq!(build_context(&chapters), "## Intro\n\nHello\n\n### Sub\n\nWorld\n\n## Next");
    assert_eq!(build_context(&vec![]), "");
}

#[test]
fn fixed_answers() {
    let a = fixed_reply(FixedReply::NotEvaluated, 2);
    assert_eq!(a.response, "I am only available to evaluate your response to the current exercise.");
    assert_eq!(a.attempt, 0);
    assert_eq!(a.status, "fixed_reply");
    let b = fixed_reply(FixedReply::Unavailable, 2);
    assert_eq!(b.response, "Service temporarily unavailable. Please try again.");
    assert_eq!(b.attempt, 2);
    assert_eq!(b.status, "fixed_reply");
}

#[test]
fn model_answers_carry_the_reply() {
    let o = ExerciseOutcome { status: ExerciseStatus::Incorrect, attempt: 2, reset: false };
    let a = model_answer(s("Incorrect, try again"), o);
    assert_eq!(a.response, "Incorrect, try again");
    assert_eq!(a.attempt, 2);
    assert_eq!(a.status, "incorrect");
}
