//! Commands driving the text formatter.
use vstd::prelude::*;

verus! {

/// Formatter command which is generic over the type of string data it contains
#[derive(Debug, PartialEq, Eq, Clone, Hash, PartialOrd, Ord)]
pub enum GenericFormatterCommand<S> {
    Write(S),
    ChangeCapitalization(CapitalizationMode),
    ChangeAttachment(AttachmentMode),
    ResetFormatting,
}

/// Formatter command containing a reference to a string allocated elsewhere
pub type FormatterCommand<'s> = GenericFormatterCommand<&'s str>;

/// Formatter command owning its heap allocated string contents
pub type OwnedFormatterCommand = GenericFormatterCommand<String>;

/// Mathematical form of a formatter command: the written text as characters.
pub type CommandView = GenericFormatterCommand<Seq<char>>;

impl<'s> View for GenericFormatterCommand<&'s str> {
    type V = CommandView;

    open spec fn view(&self) -> CommandView {
        match self {
            GenericFormatterCommand::Write(s) => GenericFormatterCommand::Write(s@),
            GenericFormatterCommand::ChangeCapitalization(c) => GenericFormatterCommand::ChangeCapitalization(*c),
            GenericFormatterCommand::ChangeAttachment(a) => GenericFormatterCommand::ChangeAttachment(*a),
            GenericFormatterCommand::ResetFormatting => GenericFormatterCommand::ResetFormatting,
        }
    }
}

impl View for GenericFormatterCommand<String> {
    type V = CommandView;

    open spec fn view(&self) -> CommandView {
        match self {
            GenericFormatterCommand::Write(s) => GenericFormatterCommand::Write(s@),
            GenericFormatterCommand::ChangeCapitalization(c) => GenericFormatterCommand::ChangeCapitalization(*c),
            GenericFormatterCommand::ChangeAttachment(a) => GenericFormatterCommand::ChangeAttachment(*a),
            GenericFormatterCommand::ResetFormatting => GenericFormatterCommand::ResetFormatting,
        }
    }
}

#[derive(Debug, PartialEq, Eq, Clone, Copy, Hash, PartialOrd, Ord, Structural)]
pub enum AttachmentMode {
    /// Place the configured delimiter between words
    Delimited,
    /// Intermediate state which, when followed by another "switch" to [`Glue`](AttachmentMode::Glue) mode, will transform into [`Next`](AttachmentMode::Next).
    /// Alternatively reverts back into [`Delimited`](AttachmentMode::Delimited) without any effect if followed by a word.
    ///
    /// If two words follow each other with glue "on both sides", they get attached.
    Glue,
    /// Attach the following word and revert back to [`Delimited`](AttachmentMode::Delimited)
    Next,
    /// Never delimit words until the mode is changed through a command
    Always,
}

#[derive(Debug, PartialEq, Eq, Clone, Copy, Hash, PartialOrd, Ord, Structural)]
pub enum CapitalizationMode {
    /// Retain original capitalization
    Unchanged,
    /// Convert to all `UPPERCASE` (caps lock)
    Uppercase,
    /// Convert to all `lowercase`
    Lowercase,
    /// Uppercase the first letter and lowercase the rest
    Capitalize,
    /// Convert the next word to lowercase, then switch to [`Capitalize`](CapitalizationMode::Capitalize) — useful for e.g. `camelCase`.
    LowerThenCapitalize,
    /// Variant of [`Uppercase`](CapitalizationMode::Uppercase) that only applies to the next word
    UppercaseNext,
    /// Variant of [`Lowercase`](CapitalizationMode::Lowercase) that only applies to the next word
    LowercaseNext,
    /// Variant of [`Capitalize`](CapitalizationMode::Capitalize) that only applies to the next word
    CapitalizeNext,
}

} // verus!
