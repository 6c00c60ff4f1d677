use voiceflow_core::editing::false_starts::resolve_false_starts;

#[test]
fn loose_false_starts_keep_the_second_attempt_capitalized() {
    let cases = [
        ("Let's schedule a meeting. Let's schedule a call with Rahul.", "Let's schedule a call with Rahul."),
        ("The issue is. The issue is in production.", "The issue is in production."),
        ("Please send. Please send the report.", "Please send the report."),
        ("I will be available tomorrow. I will be available next week.", "I will be available next week."),
        ("Let's schedule a meeting let's schedule a call with Rahul.", "Let's schedule a call with Rahul."),
        ("I went to the store. I went to the bank.", "I went to the bank."),
    ];
    for (input, expected) in cases {
        assert_eq!(resolve_false_starts(input), expected, "Failed on input: {}", input);
    }
}

#[test]
fn loose_false_starts_leave_text_without_repeats_alone() {
    assert_eq!(resolve_false_starts("  hello there  "), "  hello there  ");
}
