//! Output of formatted text.
use crate::text::string_from_chars;
use vstd::prelude::*;

verus! {

/// Instruction for an output device.
#[derive(Debug, PartialEq, Eq, Clone)]
pub enum OutputCommand {
    /// Remove the given number of characters.
    Backspace(u8),
    /// Type the given characters.
    Write(Vec<char>),
}

/// Output instruction for a device that types one character at a time.
#[derive(Debug, PartialEq, Eq, Clone, Copy)]
pub enum AsyncOutputCommand {
    /// Type the character.
    Write(char),
    /// Remove the given number of characters.
    Backspace(u8),
}

/// Mathematical form of an output command.
pub enum OutputCommandView {
    Backspace(u8),
    Write(Seq<char>),
}

impl View for OutputCommand {
    type V = OutputCommandView;

    open spec fn view(&self) -> OutputCommandView {
        match self {
            OutputCommand::Backspace(n) => OutputCommandView::Backspace(*n),
            OutputCommand::Write(chars) => OutputCommandView::Write(chars@),
        }
    }
}

/// Text after applying an output command to `text`.
pub open spec fn applied(text: Seq<char>, command: OutputCommandView) -> Seq<char> {
    match command {
        OutputCommandView::Backspace(n) => if n <= text.len() {
            text.subrange(0, text.len() - n)
        } else {
            Seq::empty()
        },
        OutputCommandView::Write(chars) => text + chars,
    }
}

/// Backspacing as many characters as a write added gives the text before the write back.
pub proof fn lemma_backspace_undoes_write(text: Seq<char>, written: Seq<char>)
    requires
        written.len() < 256,
    ensures
        applied(
            applied(text, OutputCommandView::Write(written)),
            OutputCommandView::Backspace(written.len() as u8),
        ) == text,
{
    assert((text + written).subrange(0, text.len() as int) =~= text);
}

/// Device that performs output commands.
pub trait OutputProcessor {
    fn apply(&mut self, command: OutputCommand);
}

/// Simple tool for combining [`OutputCommands`](OutputCommand) in-memory into a string
pub struct OutputAggregator(Vec<char>);

impl OutputAggregator {
    /// Text produced so far.
    pub closed spec fn text(&self) -> Seq<char> {
        self.0@
    }

    pub fn new() -> (r: Self)
        ensures
            r.text() == Seq::<char>::empty(),
    {
        Self(Vec::new())
    }

    /// Applies a command: backspaces remove trailing characters (as many as there are), writes append.
    pub fn apply_command(&mut self, command: OutputCommand)
        ensures
            final(self).text() == applied(old(self).text(), command@),
    {
        match command {
            OutputCommand::Backspace(n) => {
                let mut i: u8 = 0;
                while i < n
                    invariant
                        i <= n,
                        self.0@ == (if i <= old(self).text().len() {
                            old(self).text().subrange(0, old(self).text().len() - i)
                        } else {
                            Seq::empty()
                        }),
                    decreases n - i,
                {
                    self.0.pop();
                    i += 1;
                }
            },
            OutputCommand::Write(string) => {
                let mut i: usize = 0;
                while i < string.len()
                    invariant
                        i <= string@.len(),
                        self.0@ == old(self).text() + string@.subrange(0, i as int),
                    decreases string.len() - i,
                {
                    self.0.push(string[i]);
                    i += 1;
                    assert(self.0@ =~= old(self).text() + string@.subrange(0, i as int));
                }
                assert(string@.subrange(0, string@.len() as int) =~= string@);
            },
        }
    }

    /// Text produced so far as a string.
    pub fn as_string(&self) -> (r: String)
        ensures
            r@ == self.text(),
    {
        string_from_chars(&self.0)
    }
}

impl OutputProcessor for OutputAggregator {
    /// Applies a command: backspaces remove trailing characters (as many as there are), writes append.
    fn apply(&mut self, command: OutputCommand)
        ensures
            final(self).text() == applied(old(self).text(), command@),
    {
        self.apply_command(command)
    }
}

} // verus!
