//! Text formatting of translations.
use crate::buffer::HistoryBuffer;
use crate::output::{OutputCommand, OutputCommandView};
use arrayvec::ArrayString;
use vstd::prelude::*;

pub mod command;
pub mod state;

pub use command::{
    AttachmentMode, CapitalizationMode, CommandView, FormatterCommand, GenericFormatterCommand,
    OwnedFormatterCommand,
};
use state::{attachment_after_change, formatted, ticked, TextFormatterState};

verus! {

/// Number of trailing characters remembered for orthographic rules.
pub const ORTHOGRAPHIC_SUFFIX_LENGTH: usize = 5;

#[verifier::external_type_specification]
#[verifier::external_body]
pub struct ExArrayString<const CAP: usize>(ArrayString<CAP>);

/// Characters held by a suffix string.
pub uninterp spec fn suffix_chars(s: ArrayString<5>) -> Seq<char>;

/// Creates an empty suffix string.
///
/// Trusted wrapper around `ArrayString::new`, which creates an empty string.
#[verifier::external_body]
fn suffix_new() -> (r: ArrayString<5>)
    ensures
        suffix_chars(r) == Seq::<char>::empty(),
{
    ArrayString::<5>::new()
}

/// Appends a character to a suffix string.
///
/// Trusted wrapper around `ArrayString::push`, which appends the character and panics when its
/// UTF-8 encoding does not fit into the remaining capacity of the five bytes.
#[verifier::external_body]
fn suffix_push(s: &mut ArrayString<5>, c: char)
    requires
        vstd::utf8::encode_utf8(suffix_chars(*old(s)).push(c)).len() <= 5,
    ensures
        suffix_chars(*final(s)) == suffix_chars(*old(s)).push(c),
{
    s.push(c)
}

/// Information needed to undo an applied command.
#[derive(Clone, Copy)]
pub struct UndoInfo {
    pub character_count: u8,
    pub trailing_suffix: Option<u8>,
}

impl UndoInfo {
    pub fn empty() -> (r: Self)
        ensures
            r.character_count == 0,
            r.trailing_suffix is None,
    {
        Self { character_count: 0, trailing_suffix: None }
    }
}

/// The last `ORTHOGRAPHIC_SUFFIX_LENGTH` characters (or fewer) of a text.
pub open spec fn suffix_of(text: Seq<char>) -> Seq<char> {
    if text.len() <= 5 { text } else { text.subrange(text.len() - 5, text.len() as int) }
}

/// State after applying a command in `state`.
pub open spec fn state_after(state: TextFormatterState, command: CommandView) -> TextFormatterState {
    match command {
        GenericFormatterCommand::Write(_) => ticked(state),
        GenericFormatterCommand::ChangeCapitalization(c) => TextFormatterState {
            capitalization: c,
            ..state
        },
        GenericFormatterCommand::ChangeAttachment(a) => TextFormatterState {
            attachment: attachment_after_change(state.attachment, a),
            ..state
        },
        GenericFormatterCommand::ResetFormatting => TextFormatterState {
            attachment: AttachmentMode::Next,
            capitalization: CapitalizationMode::CapitalizeNext,
        },
    }
}

/// Formatter turning commands into output, remembering enough history to undo them.
pub struct Formatter<const HISTORY_SIZE: usize> {
    history: HistoryBuffer<(TextFormatterState, UndoInfo), HISTORY_SIZE>,
    latest_suffix: Option<ArrayString<5>>,
}

impl<const HISTORY_SIZE: usize> Formatter<HISTORY_SIZE> {
    pub closed spec fn wf(&self) -> bool {
        self.history.wf()
    }

    /// Applied commands that can still be undone: the state after each and what undoing it erases.
    pub closed spec fn entries(&self) -> Seq<(TextFormatterState, UndoInfo)> {
        self.history.view()
    }

    /// The current formatting state.
    pub open spec fn current_state(&self) -> TextFormatterState {
        if self.entries().len() == 0 {
            TextFormatterState {
                attachment: AttachmentMode::Next,
                capitalization: CapitalizationMode::CapitalizeNext,
            }
        } else {
            self.entries().last().0
        }
    }

    /// Trailing characters of the last written output, if the last command wrote output.
    pub closed spec fn latest_suffix(&self) -> Option<Seq<char>> {
        match self.latest_suffix {
            Some(s) => Some(suffix_chars(s)),
            None => None,
        }
    }

    pub fn new() -> (r: Self)
        ensures
            r.wf(),
            r.entries() == Seq::<(TextFormatterState, UndoInfo)>::empty(),
            r.latest_suffix() is None,
    {
        Self { history: HistoryBuffer::new(), latest_suffix: None }
    }

    fn state(&self) -> (r: TextFormatterState)
        requires
            self.wf(),
        ensures
            r == self.current_state(),
    {
        match self.history.back() {
            Some(entry) => entry.0,
            None => TextFormatterState::default(),
        }
    }

    /// Undoes the latest command by erasing the characters it wrote.
    pub fn undo(&mut self) -> (r: Option<OutputCommand>)
        requires
            old(self).wf(),
        ensures
            final(self).wf(),
            final(self).latest_suffix() is None,
            old(self).entries().len() == 0 ==> r is None && final(self).entries() == old(self).entries(),
            old(self).entries().len() > 0 ==> r == Some(
                OutputCommand::Backspace(old(self).entries().last().1.character_count),
            ) && final(self).entries() == old(self).entries().drop_last(),
    {
        self.latest_suffix = None;
        match self.history.pop() {
            Some(entry) => Some(OutputCommand::Backspace(entry.1.character_count)),
            None => None,
        }
    }

    /// Applies a command: writes are formatted according to the current state, other commands
    /// change the state. Returns the output to perform, if any.
    pub fn apply(&mut self, command: &FormatterCommand) -> (r: Option<OutputCommand>)
        requires
            old(self).wf(),
            HISTORY_SIZE > 0,
            command matches GenericFormatterCommand::Write(s) ==> vstd::utf8::encode_utf8(
                suffix_of(formatted(old(self).current_state(), s@)),
            ).len() <= 5,
        ensures
            final(self).wf(),
            final(self).current_state() == state_after(old(self).current_state(), command@),
            command matches GenericFormatterCommand::Write(s) ==> {
                let output = formatted(old(self).current_state(), s@);
                &&& r matches Some(OutputCommand::Write(chars)) && chars@ == output
                &&& final(self).entries().last().1.character_count == output.len() as u8
                &&& final(self).latest_suffix() == Some(suffix_of(output))
            },
            !(command is Write) ==> r is None && final(self).entries().last().1.character_count == 0
                && final(self).latest_suffix() == old(self).latest_suffix(),
            old(self).entries().len() < HISTORY_SIZE ==> final(self).entries().drop_last()
                == old(self).entries(),
            old(self).entries().len() == HISTORY_SIZE ==> final(self).entries().drop_last()
                == old(self).entries().drop_first(),
    {
        proof {
            self.history.lemma_len_bound();
        }
        let mut state = self.state();
        let (undo_info, output) = match command {
            GenericFormatterCommand::Write(input) => {
                // 1. Mutate string according to current state
                let output = state.apply(input);
                let output_len = output.len();

                // 2. Advance state
                state.tick();

                // 3. Update the suffix
                let mut suffix = suffix_new();
                let suffix_length = if ORTHOGRAPHIC_SUFFIX_LENGTH < output_len {
                    ORTHOGRAPHIC_SUFFIX_LENGTH
                } else {
                    output_len
                };
                let start = output_len - suffix_length;
                let mut i = start;
                while i < output_len
                    invariant
                        start <= i <= output_len,
                        output_len == output@.len(),
                        start == output_len - suffix_length,
                        suffix_length == (if output_len <= 5 { output_len } else { 5 }),
                        suffix_chars(suffix) == output@.subrange(start as int, i as int),
                        vstd::utf8::encode_utf8(suffix_of(output@)).len() <= 5,
                    decreases output_len - i,
                {
                    proof {
                        assert(suffix_of(output@) =~= output@.subrange(start as int, output_len as int));
                        assert(output@.subrange(start as int, (i + 1) as int) =~= output@.subrange(
                            start as int,
                            output_len as int,
                        ).subrange(0, i + 1 - start));
                        lemma_encode_prefix_len(
                            output@.subrange(start as int, (i + 1) as int),
                            output@.subrange(start as int, output_len as int),
                        );
                        assert(output@.subrange(start as int, i as int).push(output@[i as int]) =~= output@.subrange(start as int, (i + 1) as int));
                    }
                    suffix_push(&mut suffix, output[i]);
                    i += 1;
                }
                assert(suffix_chars(suffix) =~= suffix_of(output@));
                self.latest_suffix = Some(suffix);

                // 4. Output result
                (
                    UndoInfo { character_count: output_len as u8, trailing_suffix: None },
                    Some(OutputCommand::Write(output)),
                )
            },
            GenericFormatterCommand::ChangeCapitalization(capitalization) => {
                state.capitalization.change_to(*capitalization);
                (UndoInfo::empty(), None)
            },
            GenericFormatterCommand::ChangeAttachment(attachment) => {
                state.attachment.change_to(*attachment);
                (UndoInfo::empty(), None)
            },
            GenericFormatterCommand::ResetFormatting => {
                state = TextFormatterState::default();
                (UndoInfo::empty(), None)
            },
        };
        self.history.push((state, undo_info));
        output
    }
}

/// The UTF-8 encoding of a prefix is no longer than that of the whole sequence.
proof fn lemma_encode_prefix_len(prefix: Seq<char>, whole: Seq<char>)
    requires
        prefix.len() <= whole.len(),
        prefix == whole.subrange(0, prefix.len() as int),
    ensures
        vstd::utf8::encode_utf8(prefix).len() <= vstd::utf8::encode_utf8(whole).len(),
    decreases whole.len() - prefix.len(),
{
    if prefix.len() < whole.len() {
        let longer = whole.subrange(0, prefix.len() + 1 as int);
        assert(longer.drop_last() =~= prefix);
        lemma_encode_push_len(prefix, whole[prefix.len() as int]);
        assert(prefix.push(whole[prefix.len() as int]) =~= longer);
        assert(longer == whole.subrange(0, longer.len() as int));
        lemma_encode_prefix_len(longer, whole);
        assert(vstd::utf8::encode_utf8(prefix).len() <= vstd::utf8::encode_utf8(longer).len());
    } else {
        assert(prefix =~= whole);
    }
}

/// Appending a character does not shorten the UTF-8 encoding.
proof fn lemma_encode_push_len(s: Seq<char>, c: char)
    ensures
        vstd::utf8::encode_utf8(s).len() <= vstd::utf8::encode_utf8(s.push(c)).len(),
    decreases s.len(),
{
    reveal_with_fuel(vstd::utf8::encode_utf8, 2);
    if s.len() > 0 {
        assert(s.push(c).drop_first() =~= s.drop_first().push(c));
        lemma_encode_push_len(s.drop_first(), c);
    }
}

} // verus!
