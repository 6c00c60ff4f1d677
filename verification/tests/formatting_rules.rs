use voiceflow_core::formatting::context::FormattingContext;
use voiceflow_core::formatting::email_url;
use voiceflow_core::formatting::formatter;
use voiceflow_core::formatting::lists;
use voiceflow_core::formatting::punctuation::convert;
use voiceflow_core::formatting::vocabulary::{expand_vocabulary, UserVocabulary, VocabularyEntry};
use voiceflow_core::pipeline::formatting::FormattingEngine;
use voiceflow_core::pipeline::models::TransformationRequest;
use voiceflow_core::pipeline::vocabulary::{VocabularyEngine, VocabularyItem};

#[test]
fn test_tier4_pipeline_integration() {
    let input = "hello comma here is my email john dot doe at gmail dot com period here are the items we need colon apples comma bananas comma and oranges period please convert to bullet list";
    let expected = "Hello, here is my email john.doe@gmail.com. Here are the items we need:\n- apples\n- bananas\n- oranges.";
    let context = FormattingContext::default();
    let formatted = formatter::format(input, &context);
    assert_eq!(formatted, expected);
}

#[test]
fn test_tier4_url_and_punctuation() {
    let input = "go to open ai dot com slash pricing today comma and check the plans period";
    let expected = "Go to openai.com/pricing today, and check the plans.";
    let context = FormattingContext::default();
    let formatted = formatter::format(input, &context);
    assert_eq!(formatted, expected);
}

#[test]
fn test_format_emails() {
    assert_eq!(email_url::format("my email is john dot doe at gmail dot com"), "my email is john.doe@gmail.com");
    assert_eq!(email_url::format("contact admin at open ai dot org please"), "contact admin@openai.org please");
}

#[test]
fn test_format_urls() {
    assert_eq!(email_url::format("go to open ai dot com slash pricing today"), "go to openai.com/pricing today");
    assert_eq!(email_url::format("visit www dot my site dot net"), "visit www.mysite.net");
}

#[test]
fn test_comma_separated_list() {
    let text = "I need apples, bananas, and oranges. Convert to bullet list.";
    let expected = "- I need apples\n- bananas\n- oranges.";
    assert_eq!(lists::format(text), expected);
}

#[test]
fn test_colon_list() {
    let text = "Here is the plan: design, code, and test. Convert to a bullet list.";
    let expected = "Here is the plan:\n- design\n- code\n- test.";
    assert_eq!(lists::format(text), expected);
}

#[test]
fn punctuation_test_spoken_punctuation() {
    assert_eq!(convert("hello comma world period"), "hello , world .");
    assert_eq!(convert("this is a test new paragraph wait new line yes"), "this is a test \n\n wait \n yes");
    assert_eq!(convert("what is this question mark"), "what is this ?");
    assert_eq!(convert("stop exclamation mark"), "stop !");
}

#[test]
fn punctuation_test_case_insensitivity() {
    assert_eq!(convert("HELLO COMMA WORLD"), "HELLO , WORLD");
    assert_eq!(convert("Next New Paragraph Okay"), "Next \n\n Okay");
}

#[test]
fn punctuation_test_word_boundaries() {
    assert_eq!(convert("commander"), "commander");
    assert_eq!(convert("new liner"), "new liner");
}

#[test]
fn mod_test_spoken_punctuation() {
    assert_eq!(convert("hello comma world period"), "hello , world .");
    assert_eq!(convert("this is a test new paragraph wait new line yes"), "this is a test \n\n wait \n yes");
    assert_eq!(convert("what is this question mark"), "what is this ?");
    assert_eq!(convert("stop exclamation mark"), "stop !");
}

#[test]
fn mod_test_case_insensitivity() {
    assert_eq!(convert("HELLO COMMA WORLD"), "HELLO , WORLD");
    assert_eq!(convert("Next New Paragraph Okay"), "Next \n\n Okay");
}

#[test]
fn mod_test_word_boundaries() {
    assert_eq!(convert("commander"), "commander");
    assert_eq!(convert("new liner"), "new liner");
}

fn entry(spoken: &str, output: &str, case_sensitive: bool) -> VocabularyEntry {
    VocabularyEntry {
        spoken: spoken.to_string(),
        output: output.to_string(),
        language: "en".to_string(),
        enabled: true,
        case_sensitive,
    }
}

#[test]
fn test_expand_vocabulary_longest_phrase_first() {
    let vocab = UserVocabulary {
        entries: vec![entry("computer", "PC", false), entry("computer modeling group", "CMG", false)],
    };
    let mut request = TransformationRequest::new("We work at the computer modeling group today".to_string());
    request.user_context.vocabulary = Some(vocab);
    let result = expand_vocabulary("We work at the computer modeling group today", &request);
    assert_eq!(result, "We work at the CMG today");
}

#[test]
fn test_expand_vocabulary_case_sensitivity() {
    let vocab = UserVocabulary {
        entries: vec![entry("apple", "AppleInc", true), entry("orange", "OrangeCorp", false)],
    };
    let mut request = TransformationRequest::new("".to_string());
    request.user_context.vocabulary = Some(vocab);
    let result1 = expand_vocabulary("I have an apple and an Apple", &request);
    assert_eq!(result1, "I have an AppleInc and an Apple");
    let result2 = expand_vocabulary("I have an Orange and an orange", &request);
    assert_eq!(result2, "I have an OrangeCorp and an OrangeCorp");
}

#[test]
fn test_expand_vocabulary_whitespace_collapsing() {
    let vocab = UserVocabulary { entries: vec![entry("petro  signs", "PetroSigns", false)] };
    let mut request = TransformationRequest::new("Let's look at petro   signs".to_string());
    request.user_context.vocabulary = Some(vocab);
    let result = expand_vocabulary("Let's look at petro   signs", &request);
    assert_eq!(result, "Let's look at PetroSigns");
}

#[test]
fn test_formatting_engine() {
    let engine = FormattingEngine::new();
    let text = " um i think like we should go now ";
    let formatted = engine.apply(text);
    assert_eq!(formatted, "I think we should go now.");
    let text2 = "hello world!";
    assert_eq!(engine.apply(text2), "Hello world!");
}

#[test]
fn test_vocabulary_replacement() {
    let items = vec![
        VocabularyItem {
            canonical: "Requill".to_string(),
            aliases: vec!["Requel".to_string(), "Requil".to_string(), "Re Quill".to_string()],
        },
        VocabularyItem {
            canonical: "Gowthamraj".to_string(),
            aliases: vec!["Gautham Raj".to_string(), "Gowtamraj".to_string()],
        },
    ];
    let engine = VocabularyEngine::new(items);
    let text = "I am working on requel. Gautham raj is here.";
    let result = engine.apply(text);
    assert_eq!(result, "I am working on Requill. Gowthamraj is here.");
}
