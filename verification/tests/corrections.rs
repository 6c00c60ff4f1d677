use voiceflow_core::editing::inline::resolve_inline_corrections;
use voiceflow_core::editing::corrections::{
    resolve_all_tier1, resolve_basic_replace, resolve_delete_last_sentence, resolve_delete_last_word,
    resolve_replace_last_word, resolve_undo_commands,
};

#[test]
fn test_delete_last_sentence() {
    assert_eq!(
        resolve_delete_last_sentence("Project is complete. Deployment is tomorrow. Delete last sentence"),
        "Project is complete."
    );
    assert_eq!(
        resolve_delete_last_sentence("First. Second! Third? delete previous sentence"),
        "First. Second!"
    );
}

#[test]
fn corrections_test_replace_last_word() {
    assert_eq!(
        resolve_replace_last_word("Hello Rahul. Replace last word with Rajesh"),
        "Hello Rajesh."
    );
    assert_eq!(
        resolve_replace_last_word("Meeting is tomorrow. Replace the last word with Friday"),
        "Meeting is Friday."
    );
}

#[test]
fn test_tier1_pipeline() {
    assert_eq!(
        resolve_all_tier1("The meeting is scheduled tomorrow. Delete last word"),
        "The meeting is scheduled."
    );
    assert_eq!(
        resolve_all_tier1("Project is complete. Deployment is tomorrow. Delete last sentence"),
        "Project is complete."
    );
    assert_eq!(
        resolve_all_tier1("Meeting in Chennai tomorrow. Replace Chennai with Bangalore"),
        "Meeting in Bangalore tomorrow."
    );
    assert_eq!(
        resolve_all_tier1("Hello Rahul. Replace last word with Rajesh"),
        "Hello Rajesh."
    );
}

#[test]
fn delete_last_word_keeps_punctuation() {
    assert_eq!(resolve_delete_last_word("Hello beautiful. Delete last word."), "Hello.");
    assert_eq!(resolve_delete_last_word("Hello beautiful, delete the last word."), "Hello,");
}

#[test]
fn undo_removes_previous_sentence() {
    assert_eq!(resolve_undo_commands("Hello John. Send report. Never mind. How are you?"), "Hello John. How are you?");
}

#[test]
fn basic_replace_uses_last_occurrence() {
    assert_eq!(resolve_basic_replace("Rahul met Rahul. Replace Rahul with Rajesh."), "Rahul met Rajesh.");
}

#[test]
fn text_without_corrections_or_commands() {
    assert_eq!(resolve_inline_corrections("  Meet me at the office  "), "  Meet me at the office  ");
    assert_eq!(resolve_undo_commands("  Meet me at the office  "), "Meet me at the office");
}
