use stembed::formatter::state::TextFormatterState;
use stembed::formatter::{AttachmentMode, CapitalizationMode, Formatter, FormatterCommand};
use stembed::output::{OutputAggregator, OutputCommand, OutputProcessor};

#[test]
fn attach_correctly() {
    let input = "hello";
    let delimiter = '-';
    for attachment in [AttachmentMode::Next, AttachmentMode::Always] {
        let output: String = attachment.apply(input.chars().collect(), delimiter).into_iter().collect();
        assert_eq!(output, input);
    }
}

#[test]
fn delimit_correctly() {
    let input = "hello";
    let delimiter = '-';
    for attachment in [AttachmentMode::Delimited, AttachmentMode::Glue] {
        let output: String = attachment.apply(input.chars().collect(), delimiter).into_iter().collect();
        assert_eq!(output, format!("{delimiter}{input}"));
    }
}

#[test]
fn capitalize_correctly() {
    let input = "hElLo";
    for capitalization in [CapitalizationMode::Uppercase, CapitalizationMode::UppercaseNext] {
        let output: String = capitalization.apply(input).into_iter().collect();
        assert_eq!(output, "HELLO");
    }
    for capitalization in [
        CapitalizationMode::Lowercase,
        CapitalizationMode::LowercaseNext,
        CapitalizationMode::LowerThenCapitalize,
    ] {
        let output: String = capitalization.apply(input).into_iter().collect();
        assert_eq!(output, "hello");
    }
    for capitalization in [CapitalizationMode::Capitalize, CapitalizationMode::CapitalizeNext] {
        let output: String = capitalization.apply(input).into_iter().collect();
        assert_eq!(output, "Hello");
    }
    let output: String = CapitalizationMode::Unchanged.apply(input).into_iter().collect();
    assert_eq!(output, input);
}

#[test]
fn work() {
    let mut formatter = Formatter::<10>::new();
    let mut aggregator = OutputAggregator::new();

    let commands = [
        FormatterCommand::Write("hello"),
        FormatterCommand::ChangeCapitalization(CapitalizationMode::Capitalize),
        FormatterCommand::Write("hello"),
        FormatterCommand::ChangeCapitalization(CapitalizationMode::LowerThenCapitalize),
        FormatterCommand::Write("hello"),
        FormatterCommand::ChangeAttachment(AttachmentMode::Always),
        FormatterCommand::Write("world"),
        FormatterCommand::Write("john"),
        FormatterCommand::Write("somethinggone"),
    ];

    for command in commands {
        if let Some(output) = formatter.apply(&command) {
            aggregator.apply(output);
        }
    }

    aggregator.apply(formatter.undo().unwrap());

    assert_eq!(aggregator.as_string(), "Hello Hello helloWorldJohn");
}

#[test]
fn tick_one_shot_modes_back() {
    let mut state = TextFormatterState::default();
    state.capitalization.change_to(CapitalizationMode::UppercaseNext);
    state.attachment.change_to(AttachmentMode::Next);
    let first: String = state.apply("ab").into_iter().collect();
    assert_eq!(first, "AB");
    state.tick();
    let second: String = state.apply("ab").into_iter().collect();
    assert_eq!(second, " ab");
}

#[test]
fn glue_attaches_glued_words() {
    let mut mode = AttachmentMode::Glue;
    mode.change_to(AttachmentMode::Glue);
    assert_eq!(mode, AttachmentMode::Next);
    let mut mode = AttachmentMode::Glue;
    mode.tick();
    assert_eq!(mode, AttachmentMode::Delimited);
}

#[test]
fn undo_on_empty_formatter_does_nothing() {
    let mut formatter = Formatter::<4>::new();
    assert!(formatter.undo().is_none());
    assert!(formatter.apply(&FormatterCommand::ResetFormatting).is_none());
    assert_eq!(formatter.undo(), Some(OutputCommand::Backspace(0)));
}

#[test]
fn aggregator_applies_backspaces() {
    let mut aggregator = OutputAggregator::new();
    aggregator.apply_command(OutputCommand::Write("hello".chars().collect()));
    aggregator.apply_command(OutputCommand::Backspace(2));
    assert_eq!(aggregator.as_string(), "hel");
    aggregator.apply_command(OutputCommand::Backspace(10));
    assert_eq!(aggregator.as_string(), "");
}

#[test]
fn undo_removes_what_a_write_added() {
    let mut formatter = Formatter::<4>::new();
    let mut aggregator = OutputAggregator::new();
    for word in ["one", "two", "three"] {
        aggregator.apply(formatter.apply(&FormatterCommand::Write(word)).unwrap());
    }
    assert_eq!(aggregator.as_string(), "One two three");
    aggregator.apply(formatter.undo().unwrap());
    assert_eq!(aggregator.as_string(), "One two");
    aggregator.apply(formatter.undo().unwrap());
    assert_eq!(aggregator.as_string(), "One");
}
