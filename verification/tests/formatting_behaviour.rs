use voiceflow_core::formatting::capitalization::capitalize;
use voiceflow_core::formatting::cleanup::cleanup;
use voiceflow_core::formatting::commands::{CommandType, VoiceCommand};
use voiceflow_core::formatting::context::FormattingContext;
use voiceflow_core::formatting::developer::format_developer;
use voiceflow_core::formatting::formatter;
use voiceflow_core::formatting::markdown::format_markdown;
use voiceflow_core::formatting::numbers::format_numbers;
use voiceflow_core::formatting::regions::{RegionClassifier, RegionType};
use voiceflow_core::formatting::spacing::fix_spacing;
use voiceflow_core::pipeline::request::FormattingMode;

#[test]
fn spacing_removes_space_before_marks_and_adds_one_after() {
    assert_eq!(fix_spacing("hello , world ."), "hello, world.");
    assert_eq!(fix_spacing("a,b;c"), "a, b; c");
    assert_eq!(fix_spacing("openai.com"), "openai.com");
}

#[test]
fn cleanup_collapses_spaces_newlines_and_repeated_marks() {
    assert_eq!(cleanup("  a  b\n\n\n\nc!!  "), "a b\n\nc!");
    assert_eq!(cleanup("what?? ok.."), "what? ok.");
    assert_eq!(cleanup("a.b..c"), "a.b.c");
}

#[test]
fn capitalize_starts_of_text_sentences_and_lines() {
    assert_eq!(capitalize("hello. world! ok\nnext"), "Hello. World! Ok\nNext");
    assert_eq!(capitalize("éclair"), "Éclair");
    assert_eq!(capitalize("a.b"), "A.b");
}

#[test]
fn numbers_write_currencies_units_and_ordinals() {
    assert_eq!(format_numbers("100 dollars and 5 euros"), "$100 and €5");
    assert_eq!(format_numbers("20 percent of 3 kilometers"), "20% of 3 km");
    assert_eq!(format_numbers("the first and tenth"), "the 1st and 10th");
}

#[test]
fn markdown_headings_bold_and_code() {
    assert_eq!(format_markdown("heading one Intro"), "# Intro");
    assert_eq!(format_markdown("start bold hi end bold"), "** hi **");
    assert_eq!(format_markdown("use backtick x backtick"), "use ` x `");
}

#[test]
fn developer_casing_and_operators() {
    assert_eq!(format_developer("snake case my variable name"), "my_variable_name");
    assert_eq!(format_developer("camel case user id end casing now"), "userId now");
    assert_eq!(format_developer("a double equals b"), "a == b");
    assert_eq!(format_developer("x greater than or equal y"), "x >= y");
}

#[test]
fn formatter_runs_developer_rule_for_rust() {
    let mut ctx = FormattingContext::default();
    ctx.language = "rust".to_string();
    assert_eq!(formatter::format("a not equal b", &ctx), "A! = b");
    let plain = FormattingContext::default();
    assert_eq!(formatter::format("a not equal b", &plain), "A not equal b");
}

#[test]
fn formatter_markdown_only_when_asked() {
    let ctx = FormattingContext::new(FormattingMode::Markdown, None);
    assert_eq!(formatter::format("heading one intro", &ctx), "# intro");
    assert_eq!(formatter::format("heading one intro", &FormattingContext::default()), "Heading one intro");
}

#[test]
fn voice_commands() {
    let c = VoiceCommand::parse("New Paragraph").unwrap();
    assert_eq!(c.command_type, CommandType::Formatting);
    assert_eq!(c.raw_text, "New Paragraph");
    assert_eq!(VoiceCommand::parse("open Safari").unwrap().command_type, CommandType::Application);
    assert!(VoiceCommand::parse("opening").is_none());
}

#[test]
fn region_classifier_without_protection_is_one_stable_region() {
    let regions = RegionClassifier::new().classify("abc", &[]);
    assert_eq!(regions.len(), 1);
    assert_eq!(regions[0].region_type, RegionType::Stable);
    assert_eq!(regions[0].end, 3);
    assert!(RegionClassifier::new().classify("", &[]).is_empty());
}

#[test]
fn regions_tile_the_text_for_ordered_spans() {
    let text = "héllo brave new world";
    let spans = [(0, 6), (6, 12), (16, text.len())];
    let regions = RegionClassifier::new().classify(text, &spans);
    let bounds: Vec<(usize, usize, RegionType)> = regions.iter().map(|r| (r.start, r.end, r.region_type)).collect();
    assert_eq!(
        bounds,
        vec![
            (0, 6, RegionType::Protected),
            (6, 12, RegionType::Protected),
            (12, 16, RegionType::Stable),
            (16, text.len(), RegionType::Protected),
        ]
    );
    for pair in regions.windows(2) {
        assert_eq!(pair[0].end, pair[1].start);
    }
}
