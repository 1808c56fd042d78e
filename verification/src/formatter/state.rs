//! Formatting state: how the next word is attached and capitalized.
use super::{AttachmentMode, CapitalizationMode};
use crate::text::{ascii_lower, ascii_upper, chars_of, spec_ascii_lower, spec_ascii_upper};
use vstd::prelude::*;

verus! {

#[derive(Clone, Copy, PartialEq, Eq, Debug, Structural)]
pub struct TextFormatterState {
    pub attachment: AttachmentMode,
    pub capitalization: CapitalizationMode,
}

/// Attachment mode after a word was written.
pub open spec fn attachment_after_tick(mode: AttachmentMode) -> AttachmentMode {
    match mode {
        AttachmentMode::Glue | AttachmentMode::Next => AttachmentMode::Delimited,
        _ => mode,
    }
}

/// Attachment mode after switching to `new`: two glued words attach.
pub open spec fn attachment_after_change(mode: AttachmentMode, new: AttachmentMode) -> AttachmentMode {
    if mode == AttachmentMode::Glue && new == AttachmentMode::Glue {
        AttachmentMode::Next
    } else {
        new
    }
}

/// Number of delimiters placed in front of a word.
pub open spec fn delimiter_count(mode: AttachmentMode) -> nat {
    match mode {
        AttachmentMode::Delimited | AttachmentMode::Glue => 1,
        AttachmentMode::Next | AttachmentMode::Always => 0,
    }
}

/// Text with the delimiter prepended if the attachment mode asks for one.
pub open spec fn attached(mode: AttachmentMode, text: Seq<char>, delimiter: char) -> Seq<char> {
    if delimiter_count(mode) == 1 { seq![delimiter] + text } else { text }
}

/// Capitalization mode after a word was written.
pub open spec fn capitalization_after_tick(mode: CapitalizationMode) -> CapitalizationMode {
    match mode {
        CapitalizationMode::CapitalizeNext | CapitalizationMode::LowercaseNext
        | CapitalizationMode::UppercaseNext => CapitalizationMode::Unchanged,
        CapitalizationMode::LowerThenCapitalize => CapitalizationMode::Capitalize,
        _ => mode,
    }
}

/// Character `c` at position `i` of a word, capitalized according to `mode`.
pub open spec fn capitalized_char(mode: CapitalizationMode, i: int, c: char) -> char {
    match mode {
        CapitalizationMode::Unchanged => c,
        CapitalizationMode::Uppercase | CapitalizationMode::UppercaseNext => spec_ascii_upper(c),
        CapitalizationMode::Lowercase | CapitalizationMode::LowercaseNext
        | CapitalizationMode::LowerThenCapitalize => spec_ascii_lower(c),
        CapitalizationMode::Capitalize | CapitalizationMode::CapitalizeNext => if i == 0 {
            spec_ascii_upper(c)
        } else {
            spec_ascii_lower(c)
        },
    }
}

/// Word capitalized according to `mode`.
pub open spec fn capitalized(mode: CapitalizationMode, text: Seq<char>) -> Seq<char> {
    Seq::new(text.len(), |i: int| capitalized_char(mode, i, text[i]))
}

/// Output of writing `text` in the given state: capitalized, then delimited by a space.
pub open spec fn formatted(state: TextFormatterState, text: Seq<char>) -> Seq<char> {
    attached(state.attachment, capitalized(state.capitalization, text), ' ')
}

/// State after a word was written.
pub open spec fn ticked(state: TextFormatterState) -> TextFormatterState {
    TextFormatterState {
        attachment: attachment_after_tick(state.attachment),
        capitalization: capitalization_after_tick(state.capitalization),
    }
}

/// A one-shot capitalization mode (`CapitalizeNext`, `LowercaseNext`, `UppercaseNext`) applies
/// to the next word only: once that word is written the capitalization is `Unchanged`, so the
/// word after it is written as given. `LowerThenCapitalize` turns into `Capitalize`, and the
/// lasting modes (`Unchanged`, `Lowercase`, `Capitalize`, `Uppercase`) stay. The attachment
/// advances on its own, whatever the capitalization.
pub proof fn lemma_capitalization_after_word(state: TextFormatterState, word: Seq<char>)
    ensures
        state.capitalization == CapitalizationMode::CapitalizeNext ==> ticked(state).capitalization
            == CapitalizationMode::Unchanged,
        state.capitalization == CapitalizationMode::LowercaseNext ==> ticked(state).capitalization
            == CapitalizationMode::Unchanged,
        state.capitalization == CapitalizationMode::UppercaseNext ==> ticked(state).capitalization
            == CapitalizationMode::Unchanged,
        (state.capitalization == CapitalizationMode::CapitalizeNext || state.capitalization
            == CapitalizationMode::LowercaseNext || state.capitalization == CapitalizationMode::UppercaseNext)
            ==> capitalized(ticked(state).capitalization, word) == word,
        state.capitalization == CapitalizationMode::LowerThenCapitalize ==> ticked(state).capitalization
            == CapitalizationMode::Capitalize,
        state.capitalization == CapitalizationMode::Unchanged ==> ticked(state).capitalization
            == CapitalizationMode::Unchanged,
        state.capitalization == CapitalizationMode::Lowercase ==> ticked(state).capitalization
            == CapitalizationMode::Lowercase,
        state.capitalization == CapitalizationMode::Capitalize ==> ticked(state).capitalization
            == CapitalizationMode::Capitalize,
        state.capitalization == CapitalizationMode::Uppercase ==> ticked(state).capitalization
            == CapitalizationMode::Uppercase,
        ticked(state).attachment == attachment_after_tick(state.attachment),
{
    if state.capitalization == CapitalizationMode::CapitalizeNext || state.capitalization
        == CapitalizationMode::LowercaseNext || state.capitalization == CapitalizationMode::UppercaseNext {
        assert(capitalized(CapitalizationMode::Unchanged, word) =~= word);
    }
}

impl TextFormatterState {
    /// Advances the state after a word was written.
    pub fn tick(&mut self)
        ensures
            *final(self) == ticked(*old(self)),
    {
        self.attachment.tick();
        self.capitalization.tick();
    }

    /// Formats a word according to the state.
    pub fn apply(&self, string: &str) -> (r: Vec<char>)
        ensures
            r@ == formatted(*self, string@),
    {
        self.attachment.apply(self.capitalization.apply(string), ' ')
    }

    /// State at the start of a text: the first word is capitalized and not delimited.
    pub fn default() -> (r: Self)
        ensures
            r.attachment == AttachmentMode::Next,
            r.capitalization == CapitalizationMode::CapitalizeNext,
    {
        Self { attachment: AttachmentMode::Next, capitalization: CapitalizationMode::CapitalizeNext }
    }
}

impl AttachmentMode {
    /// Advances the mode after a word was written.
    pub fn tick(&mut self)
        ensures
            *final(self) == attachment_after_tick(*old(self)),
    {
        match self {
            AttachmentMode::Glue | AttachmentMode::Next => *self = AttachmentMode::Delimited,
            _ => {},
        }
    }

    /// Switches to a new mode; switching from glue to glue attaches the next word.
    pub fn change_to(&mut self, new: Self)
        ensures
            *final(self) == attachment_after_change(*old(self), new),
    {
        if *self == AttachmentMode::Glue && new == AttachmentMode::Glue {
            *self = AttachmentMode::Next;
        } else {
            *self = new;
        }
    }

    /// Prepends the delimiter if the mode asks for one.
    pub fn apply(&self, string: Vec<char>, delimiter: char) -> (r: Vec<char>)
        ensures
            r@ == attached(*self, string@, delimiter),
    {
        let delimiter_count: usize = match self {
            AttachmentMode::Delimited | AttachmentMode::Glue => 1,
            AttachmentMode::Next | AttachmentMode::Always => 0,
        };
        let mut out: Vec<char> = Vec::new();
        if delimiter_count == 1 {
            out.push(delimiter);
        }
        let mut i: usize = 0;
        let ghost prefix = out@;
        while i < string.len()
            invariant
                i <= string@.len(),
                out@ == prefix + string@.subrange(0, i as int),
            decreases string.len() - i,
        {
            out.push(string[i]);
            i += 1;
            assert(out@ =~= prefix + string@.subrange(0, i as int));
        }
        assert(string@.subrange(0, string@.len() as int) =~= string@);
        assert(out@ =~= attached(*self, string@, delimiter));
        out
    }
}

impl CapitalizationMode {
    /// Advances the mode after a word was written.
    pub fn tick(&mut self)
        ensures
            *final(self) == capitalization_after_tick(*old(self)),
    {
        match *self {
            CapitalizationMode::CapitalizeNext | CapitalizationMode::LowercaseNext
            | CapitalizationMode::UppercaseNext => self.change_to(CapitalizationMode::Unchanged),
            CapitalizationMode::LowerThenCapitalize => self.change_to(CapitalizationMode::Capitalize),
            _ => {},
        }
    }

    pub fn change_to(&mut self, new: Self)
        ensures
            *final(self) == new,
    {
        *self = new;
    }

    /// Capitalizes a word according to the mode.
    pub fn apply(&self, string: &str) -> (r: Vec<char>)
        ensures
            r@ == capitalized(*self, string@),
    {
        let capitalization_mode = *self;
        let chars = chars_of(string);
        let mut out: Vec<char> = Vec::new();
        let mut i: usize = 0;
        while i < chars.len()
            invariant
                i <= chars@.len(),
                chars@ == string@,
                out@ == capitalized(capitalization_mode, chars@).subrange(0, i as int),
                capitalization_mode == *self,
            decreases chars.len() - i,
        {
            let c = chars[i];
            let mapped = match capitalization_mode {
                CapitalizationMode::Unchanged => c,
                CapitalizationMode::Uppercase | CapitalizationMode::UppercaseNext => ascii_upper(c),
                CapitalizationMode::Lowercase | CapitalizationMode::LowercaseNext
                | CapitalizationMode::LowerThenCapitalize => ascii_lower(c),
                CapitalizationMode::Capitalize | CapitalizationMode::CapitalizeNext => {
                    if i == 0 {
                        ascii_upper(c)
                    } else {
                        ascii_lower(c)
                    }
                },
            };
            out.push(mapped);
            i += 1;
            assert(out@ =~= capitalized(capitalization_mode, chars@).subrange(0, i as int));
        }
        assert(capitalized(capitalization_mode, chars@).subrange(0, chars@.len() as int) =~= capitalized(
            capitalization_mode,
            chars@,
        ));
        out
    }
}

} // verus!
