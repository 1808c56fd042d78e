//! Parser for Plover JSON dictionaries.
//!
//! A dictionary is `{`, then entries `"OUTLINE": "TRANSLATION"` (separated by optional commas),
//! then `}` and the end of the input. Whitespace may follow the opening brace, every closing
//! quote, the colon, the commas and the closing brace. An outline is a list of strokes separated
//! by `/`. A translation is text mixed with meta operators in braces: `{^}`, `{>}`, `{<}`,
//! `{-|}`, punctuation such as `{,}` or `{.}`, glued text `{&x}`, text, or `{}` which resets
//! the formatting. Text uses the JSON escapes (without `\u`); `{`, `}` and `^` may be escaped
//! with a backslash (written `\\` in JSON).
use super::stroke::{spec_raw_stroke, stroke, stroke_of_value};
use crate::formatter::{AttachmentMode, CapitalizationMode, CommandView, GenericFormatterCommand, OwnedFormatterCommand};
use crate::stroke::EnglishStroke;
use crate::text::{chars_of, string_from_chars};
use vstd::prelude::*;

verus! {

/// Quotation mark delimiting JSON strings.
pub const QUOTE: char = '\u{22}';
/// Backslash starting an escape sequence.
pub const BACKSLASH: char = '\u{5c}';
/// Opening brace of a meta operator or of the dictionary.
pub const OPEN_BRACE: char = '\u{7b}';
/// Closing brace of a meta operator or of the dictionary.
pub const CLOSE_BRACE: char = '\u{7d}';

/// List of formatter commands forming the translation of an outline.
#[derive(Clone, PartialEq, Eq, PartialOrd, Ord, Debug)]
pub struct CommandList(pub Vec<OwnedFormatterCommand>);

/// Views of owned commands.
pub open spec fn command_views(commands: Seq<OwnedFormatterCommand>) -> Seq<CommandView> {
    commands.map_values(|c: OwnedFormatterCommand| c@)
}

impl View for CommandList {
    type V = Seq<CommandView>;

    open spec fn view(&self) -> Seq<CommandView> {
        command_views(self.0@)
    }
}

/// Copies a command.
pub fn copy_command(command: &OwnedFormatterCommand) -> (r: OwnedFormatterCommand)
    ensures
        r@ == command@,
{
    match command {
        GenericFormatterCommand::Write(s) => GenericFormatterCommand::Write(s.clone()),
        GenericFormatterCommand::ChangeCapitalization(c) => GenericFormatterCommand::ChangeCapitalization(*c),
        GenericFormatterCommand::ChangeAttachment(a) => GenericFormatterCommand::ChangeAttachment(*a),
        GenericFormatterCommand::ResetFormatting => GenericFormatterCommand::ResetFormatting,
    }
}

impl CommandList {
    /// Number of commands.
    pub fn len(&self) -> (r: usize)
        ensures
            r == self@.len(),
    {
        self.0.len()
    }

    /// Copies the list.
    pub fn duplicate(&self) -> (r: CommandList)
        ensures
            r@ == self@,
    {
        let mut out: Vec<OwnedFormatterCommand> = Vec::new();
        let mut i: usize = 0;
        while i < self.0.len()
            invariant
                i <= self.0@.len(),
                command_views(out@) == command_views(self.0@.subrange(0, i as int)),
            decreases self.0@.len() - i,
        {
            let c = copy_command(&self.0[i]);
            proof {
                assert(command_views(out@.push(c)) =~= command_views(out@).push(c@));
                assert(command_views(self.0@.subrange(0, i + 1)) =~= command_views(
                    self.0@.subrange(0, i as int),
                ).push(self.0@[i as int]@));
            }
            out.push(c);
            i += 1;
        }
        assert(self.0@.subrange(0, self.0@.len() as int) =~= self.0@);
        CommandList(out)
    }

    /// Appends the commands of another list.
    pub fn append(&mut self, other: CommandList)
        ensures
            final(self)@ == old(self)@ + other@,
    {
        let mut other = other;
        proof {
            assert(command_views(self.0@ + other.0@) =~= command_views(self.0@) + command_views(other.0@));
        }
        self.0.append(&mut other.0);
    }
}

/// Heap allocated list of strokes
#[derive(Clone)]
pub struct Outline(pub Vec<EnglishStroke>);

impl View for Outline {
    type V = Seq<EnglishStroke>;

    open spec fn view(&self) -> Seq<EnglishStroke> {
        self.0@
    }
}

/// Human readable form of strokes: their forms separated by `/`.
pub open spec fn outline_text(strokes: Seq<EnglishStroke>) -> Seq<char>
    decreases strokes.len(),
{
    if strokes.len() == 0 {
        Seq::empty()
    } else if strokes.len() == 1 {
        strokes[0].text()
    } else {
        outline_text(strokes.drop_last()).push('/') + strokes.last().text()
    }
}

impl Outline {
    /// Human readable form: the strokes separated by `/`.
    pub fn to_string(&self) -> (r: String)
        requires
            forall|i: int| 0 <= i < self@.len() ==> (#[trigger] self@[i]).is_well_formed(),
        ensures
            r@ == outline_text(self@),
    {
        let mut chars: Vec<char> = Vec::new();
        let mut i: usize = 0;
        while i < self.0.len()
            invariant
                i <= self@.len(),
                forall|k: int| 0 <= k < self@.len() ==> (#[trigger] self@[k]).is_well_formed(),
                chars@ == outline_text(self@.take(i as int)),
            decreases self@.len() - i,
        {
            let ghost before = chars@;
            if i > 0 {
                chars.push('/');
            }
            let stroke = chars_of(self.0[i].to_string().as_str());
            let mut j: usize = 0;
            while j < stroke.len()
                invariant
                    j <= stroke@.len(),
                    chars@ == (if i > 0 { before.push('/') } else { before }) + stroke@.take(j as int),
                decreases stroke@.len() - j,
            {
                chars.push(stroke[j]);
                j += 1;
                assert(chars@ =~= (if i > 0 { before.push('/') } else { before }) + stroke@.take(j as int));
            }
            assert(stroke@.take(stroke@.len() as int) =~= stroke@);
            assert(self@.take(i + 1).drop_last() =~= self@.take(i as int));
            if i == 0 {
                assert(before =~= Seq::<char>::empty());
                assert(chars@ =~= self@.take(1)[0].text());
            }
            i += 1;
        }
        assert(self@.take(self@.len() as int) =~= self@);
        string_from_chars(&chars)
    }

    /// Number of strokes.
    pub fn len(&self) -> (r: usize)
        ensures
            r == self@.len(),
    {
        self.0.len()
    }

    /// Bytes of the strokes, three per stroke.
    pub fn into_bytes(self) -> (r: Vec<u8>)
        requires
            self@.len() * 3 <= usize::MAX,
        ensures
            r@ == crate::dict::tree::stroke_bytes(self@),
    {
        crate::dict::tree::strokes_into_bytes(&self.0)
    }
}

/// Outcome of parsing at a position: a value and the position after it, nothing (no input was
/// consumed, an alternative may be tried), or a failure after consuming input.
pub enum ParseOutcome<T, P> {
    Match(T, P),
    Empty,
    Failed,
}

/// Outcome of repeating a parser after `prefix` was read, given the outcome `rest` of the
/// repetition at `at`: the repetition stops where nothing more can be read.
pub open spec fn continued<A>(prefix: Seq<A>, rest: ParseOutcome<Seq<A>, int>, at: int) -> ParseOutcome<Seq<A>, int> {
    match rest {
        ParseOutcome::Match(more, end) => ParseOutcome::Match(prefix + more, end),
        ParseOutcome::Empty => ParseOutcome::Match(prefix, at),
        ParseOutcome::Failed => ParseOutcome::Failed,
    }
}

/// `c` is white space as defined by Unicode (`char::is_whitespace`).
pub open spec fn is_space(c: char) -> bool {
    ||| '\t' <= c <= '\r'
    ||| c == ' '
    ||| c == '\u{85}'
    ||| c == '\u{a0}'
    ||| c == '\u{1680}'
    ||| '\u{2000}' <= c <= '\u{200a}'
    ||| c == '\u{2028}'
    ||| c == '\u{2029}'
    ||| c == '\u{202f}'
    ||| c == '\u{205f}'
    ||| c == '\u{3000}'
}

/// Position after the white space starting at `pos`.
pub open spec fn skip_spaces(input: Seq<char>, pos: int) -> int
    decreases input.len() - pos,
{
    if 0 <= pos < input.len() && is_space(input[pos]) {
        skip_spaces(input, pos + 1)
    } else {
        pos
    }
}

/// The character is at `pos`.
pub open spec fn char_at(input: Seq<char>, pos: int, c: char) -> bool {
    0 <= pos < input.len() && input[pos] == c
}

/// Character denoted by a JSON escape sequence `\x` (without `\u`).
pub open spec fn json_escape(c: char) -> Option<char> {
    if c == QUOTE { Some(QUOTE) }
    else if c == BACKSLASH { Some(BACKSLASH) }
    else if c == '/' { Some('/') }
    else if c == 'b' { Some('\u{8}') }
    else if c == 'f' { Some('\u{c}') }
    else if c == 'n' { Some('\n') }
    else if c == 'r' { Some('\r') }
    else if c == 't' { Some('\t') }
    else { None }
}

/// One character of a JSON string; a quote ends the string.
pub open spec fn spec_json_char(input: Seq<char>, pos: int) -> ParseOutcome<char, int> {
    if pos < 0 || pos >= input.len() || input[pos] == QUOTE {
        ParseOutcome::Empty
    } else if input[pos] == BACKSLASH {
        if pos + 1 < input.len() && json_escape(input[pos + 1]) is Some {
            ParseOutcome::Match(json_escape(input[pos + 1])->0, pos + 2)
        } else {
            ParseOutcome::Failed
        }
    } else {
        ParseOutcome::Match(input[pos], pos + 1)
    }
}

/// Character that may follow an escaping backslash in translation text.
pub open spec fn is_translation_escape(c: char) -> bool {
    c == OPEN_BRACE || c == CLOSE_BRACE || c == '^'
}

/// One character of translation text; braces end the text.
pub open spec fn spec_translation_char(input: Seq<char>, pos: int) -> ParseOutcome<char, int> {
    match spec_json_char(input, pos) {
        ParseOutcome::Match(c, next) => if c == BACKSLASH {
            if 0 <= next < input.len() && is_translation_escape(input[next]) {
                ParseOutcome::Match(input[next], next + 1)
            } else {
                ParseOutcome::Failed
            }
        } else if c == OPEN_BRACE || c == CLOSE_BRACE {
            ParseOutcome::Empty
        } else {
            ParseOutcome::Match(c, next)
        },
        ParseOutcome::Empty => ParseOutcome::Empty,
        ParseOutcome::Failed => ParseOutcome::Failed,
    }
}

/// Translation text: one or more translation characters.
pub open spec fn spec_translation_text(input: Seq<char>, pos: int) -> ParseOutcome<Seq<char>, int>
    decreases input.len() - pos,
{
    match spec_translation_char(input, pos) {
        ParseOutcome::Match(c, next) => continued(seq![c], spec_translation_text(input, next), next),
        ParseOutcome::Empty => ParseOutcome::Empty,
        ParseOutcome::Failed => ParseOutcome::Failed,
    }
}

pub open spec fn attach_next() -> CommandView {
    GenericFormatterCommand::ChangeAttachment(AttachmentMode::Next)
}

pub open spec fn attach_glue() -> CommandView {
    GenericFormatterCommand::ChangeAttachment(AttachmentMode::Glue)
}

pub open spec fn capitalize(mode: CapitalizationMode) -> CommandView {
    GenericFormatterCommand::ChangeCapitalization(mode)
}

/// Punctuation that ends a sentence.
pub open spec fn is_sentence_punctuation(c: char) -> bool {
    c == '.' || c == ':' || c == ';' || c == '!' || c == '?'
}

/// One item inside braces: `^` attaches, `>` lowercases and `<` uppercases the next word,
/// `-|` capitalizes the next word, `,` is attached punctuation, sentence punctuation is
/// attached and capitalizes the next word, anything else is text.
pub open spec fn spec_meta_operator_item(input: Seq<char>, pos: int) -> ParseOutcome<Seq<CommandView>, int> {
    if char_at(input, pos, '^') {
        ParseOutcome::Match(seq![attach_next()], pos + 1)
    } else if char_at(input, pos, '>') {
        ParseOutcome::Match(seq![capitalize(CapitalizationMode::LowercaseNext)], pos + 1)
    } else if char_at(input, pos, '<') {
        ParseOutcome::Match(seq![capitalize(CapitalizationMode::UppercaseNext)], pos + 1)
    } else if char_at(input, pos, '-') && char_at(input, pos + 1, '|') {
        ParseOutcome::Match(seq![capitalize(CapitalizationMode::CapitalizeNext)], pos + 2)
    } else if char_at(input, pos, ',') {
        ParseOutcome::Match(seq![attach_next(), GenericFormatterCommand::Write(seq![','])], pos + 1)
    } else if 0 <= pos < input.len() && is_sentence_punctuation(input[pos]) {
        ParseOutcome::Match(
            seq![
                attach_next(),
                GenericFormatterCommand::Write(seq![input[pos]]),
                capitalize(CapitalizationMode::CapitalizeNext),
            ],
            pos + 1,
        )
    } else {
        match spec_translation_text(input, pos) {
            ParseOutcome::Match(text, end) => ParseOutcome::Match(seq![GenericFormatterCommand::Write(text)], end),
            ParseOutcome::Empty => ParseOutcome::Empty,
            ParseOutcome::Failed => ParseOutcome::Failed,
        }
    }
}

/// Sentence punctuation in braces is attached to the previous word and capitalizes the next
/// one: for each of `.`, `:`, `;`, `!` and `?`, the item at `pos` is exactly
/// `[ChangeAttachment(Next), Write(p), ChangeCapitalization(CapitalizeNext)]`, one character long.
pub proof fn lemma_sentence_punctuation_item(input: Seq<char>, pos: int, p: char)
    requires
        p == '.' || p == ':' || p == ';' || p == '!' || p == '?',
        0 <= pos < input.len(),
        input[pos] == p,
    ensures
        spec_meta_operator_item(input, pos) == ParseOutcome::<Seq<CommandView>, int>::Match(
            seq![
                GenericFormatterCommand::ChangeAttachment(AttachmentMode::Next),
                GenericFormatterCommand::Write(seq![p]),
                GenericFormatterCommand::ChangeCapitalization(CapitalizationMode::CapitalizeNext),
            ],
            pos + 1,
        ),
{
}

/// The translation `"{p}"` of sentence punctuation `p` (one of `.`, `:`, `;`, `!`, `?`) is exactly
/// `[ChangeAttachment(Next), Write(p), ChangeCapitalization(CapitalizeNext)]`: the punctuation
/// attaches to the previous word and the next word is capitalized.
pub proof fn lemma_sentence_punctuation_translation(input: Seq<char>, pos: int, p: char)
    requires
        p == '.' || p == ':' || p == ';' || p == '!' || p == '?',
        0 <= pos,
        pos + 5 <= input.len(),
        input[pos] == '"',
        input[pos + 1] == '{',
        input[pos + 2] == p,
        input[pos + 3] == '}',
        input[pos + 4] == '"',
    ensures
        spec_translation(input, pos) == ParseOutcome::<Seq<CommandView>, int>::Match(
            seq![
                GenericFormatterCommand::ChangeAttachment(AttachmentMode::Next),
                GenericFormatterCommand::Write(seq![p]),
                GenericFormatterCommand::ChangeCapitalization(CapitalizationMode::CapitalizeNext),
            ],
            skip_spaces(input, pos + 5),
        ),
{
    let commands: Seq<CommandView> = seq![
        GenericFormatterCommand::ChangeAttachment(AttachmentMode::Next),
        GenericFormatterCommand::Write(seq![p]),
        GenericFormatterCommand::ChangeCapitalization(CapitalizationMode::CapitalizeNext),
    ];
    lemma_sentence_punctuation_item(input, pos + 2, p);
    assert(spec_translation_char(input, pos + 3) == ParseOutcome::<char, int>::Empty);
    assert(spec_translation_text(input, pos + 3) == ParseOutcome::<Seq<char>, int>::Empty);
    assert(spec_meta_operator_item(input, pos + 3) == ParseOutcome::<Seq<CommandView>, int>::Empty);
    assert(spec_meta_operator_items(input, pos + 3) == ParseOutcome::<Seq<CommandView>, int>::Empty);
    assert(spec_meta_operator_items(input, pos + 2) == ParseOutcome::<Seq<CommandView>, int>::Match(commands, pos + 3));
    assert(spec_meta_operator_glue(input, pos + 2) == ParseOutcome::<Seq<CommandView>, int>::Empty);
    assert(spec_meta_operator(input, pos + 1) == ParseOutcome::<Seq<CommandView>, int>::Match(commands, pos + 4));
    assert(spec_translation_char(input, pos + 1) == ParseOutcome::<char, int>::Empty);
    assert(spec_translation_text(input, pos + 1) == ParseOutcome::<Seq<char>, int>::Empty);
    assert(spec_translation_part(input, pos + 1) == ParseOutcome::<Seq<CommandView>, int>::Match(commands, pos + 4));
    assert(spec_translation_char(input, pos + 4) == ParseOutcome::<char, int>::Empty);
    assert(spec_translation_text(input, pos + 4) == ParseOutcome::<Seq<char>, int>::Empty);
    assert(spec_meta_operator(input, pos + 4) == ParseOutcome::<Seq<CommandView>, int>::Empty);
    assert(spec_translation_part(input, pos + 4) == ParseOutcome::<Seq<CommandView>, int>::Empty);
    assert(spec_translation_content(input, pos + 4) == ParseOutcome::<Seq<CommandView>, int>::Match(Seq::empty(), pos + 4));
    assert(commands + Seq::<CommandView>::empty() =~= commands);
    assert(spec_translation_content(input, pos + 1) == ParseOutcome::<Seq<CommandView>, int>::Match(commands, pos + 4));
}

/// White space is exactly what `char::is_whitespace` accepts (the Unicode `White_Space`
/// characters): skipping white space steps over each of them, among them the carriage return
/// of Windows line ends, and stops at any other character.
pub proof fn lemma_skip_spaces_whitespace(input: Seq<char>, pos: int)
    requires
        0 <= pos < input.len(),
    ensures
        ({
            let c = input[pos];
            let white = c == '\t' || c == '\n' || c == '\u{b}' || c == '\u{c}' || c == '\r' || c == ' '
                || c == '\u{85}' || c == '\u{a0}' || c == '\u{1680}' || c == '\u{2000}' || c == '\u{2001}'
                || c == '\u{2002}' || c == '\u{2003}' || c == '\u{2004}' || c == '\u{2005}' || c == '\u{2006}'
                || c == '\u{2007}' || c == '\u{2008}' || c == '\u{2009}' || c == '\u{200a}' || c == '\u{2028}'
                || c == '\u{2029}' || c == '\u{202f}' || c == '\u{205f}' || c == '\u{3000}';
            &&& white ==> skip_spaces(input, pos) == skip_spaces(input, pos + 1)
            &&& !white ==> skip_spaces(input, pos) == pos
        }),
{
    let c = input[pos];
    assert(('\t' <= c && c <= '\r') <==> (c == '\t' || c == '\n' || c == '\u{b}' || c == '\u{c}' || c == '\r')) by {
        assert(('\t' <= c && c <= '\r') <==> (9 <= (c as int) && (c as int) <= 13));
    }
    assert(('\u{2000}' <= c && c <= '\u{200a}') <==> (c == '\u{2000}' || c == '\u{2001}' || c == '\u{2002}'
        || c == '\u{2003}' || c == '\u{2004}' || c == '\u{2005}' || c == '\u{2006}' || c == '\u{2007}'
        || c == '\u{2008}' || c == '\u{2009}' || c == '\u{200a}'));
}

/// One or more items inside braces.
pub open spec fn spec_meta_operator_items(input: Seq<char>, pos: int) -> ParseOutcome<Seq<CommandView>, int>
    decreases input.len() - pos,
{
    match spec_meta_operator_item(input, pos) {
        ParseOutcome::Match(first, next) => {
            proof {
                lemma_meta_operator_item_bounds(input, pos);
            }
            continued(first, spec_meta_operator_items(input, next), next)
        },
        ParseOutcome::Empty => ParseOutcome::Empty,
        ParseOutcome::Failed => ParseOutcome::Failed,
    }
}

/// Glued text `&text`.
pub open spec fn spec_meta_operator_glue(input: Seq<char>, pos: int) -> ParseOutcome<Seq<CommandView>, int> {
    if !char_at(input, pos, '&') {
        ParseOutcome::Empty
    } else {
        match spec_translation_text(input, pos + 1) {
            ParseOutcome::Match(text, end) => ParseOutcome::Match(
                seq![attach_glue(), GenericFormatterCommand::Write(text), attach_glue()],
                end,
            ),
            _ => ParseOutcome::Failed,
        }
    }
}

/// Meta operator in braces: glued text, one or more items, or nothing (which resets the
/// formatting).
pub open spec fn spec_meta_operator(input: Seq<char>, pos: int) -> ParseOutcome<Seq<CommandView>, int> {
    if !char_at(input, pos, OPEN_BRACE) {
        ParseOutcome::Empty
    } else {
        let content = match spec_meta_operator_glue(input, pos + 1) {
            ParseOutcome::Empty => match spec_meta_operator_items(input, pos + 1) {
                ParseOutcome::Empty => ParseOutcome::Match(seq![GenericFormatterCommand::ResetFormatting], pos + 1),
                other => other,
            },
            other => other,
        };
        match content {
            ParseOutcome::Match(commands, end) => if char_at(input, end, CLOSE_BRACE) {
                ParseOutcome::Match(commands, end + 1)
            } else {
                ParseOutcome::Failed
            },
            _ => ParseOutcome::Failed,
        }
    }
}

/// Text or a meta operator.
pub open spec fn spec_translation_part(input: Seq<char>, pos: int) -> ParseOutcome<Seq<CommandView>, int> {
    match spec_translation_text(input, pos) {
        ParseOutcome::Match(text, end) => ParseOutcome::Match(seq![GenericFormatterCommand::Write(text)], end),
        ParseOutcome::Empty => spec_meta_operator(input, pos),
        ParseOutcome::Failed => ParseOutcome::Failed,
    }
}

/// Contents of a translation: text and meta operators, until neither can be read.
pub open spec fn spec_translation_content(input: Seq<char>, pos: int) -> ParseOutcome<Seq<CommandView>, int>
    decreases input.len() - pos,
{
    match spec_translation_part(input, pos) {
        ParseOutcome::Match(first, next) => {
            proof {
                lemma_translation_part_bounds(input, pos);
            }
            continued(first, spec_translation_content(input, next), next)
        },
        ParseOutcome::Empty => ParseOutcome::Match(Seq::empty(), pos),
        ParseOutcome::Failed => ParseOutcome::Failed,
    }
}

/// A quoted translation followed by white space.
pub open spec fn spec_translation(input: Seq<char>, pos: int) -> ParseOutcome<Seq<CommandView>, int> {
    if !char_at(input, pos, QUOTE) {
        ParseOutcome::Empty
    } else {
        match spec_translation_content(input, pos + 1) {
            ParseOutcome::Match(commands, end) => if char_at(input, end, QUOTE) {
                ParseOutcome::Match(commands, skip_spaces(input, end + 1))
            } else {
                ParseOutcome::Failed
            },
            _ => ParseOutcome::Failed,
        }
    }
}

/// Raw values of the strokes of an outline separated by `/`, and the position after them.
pub open spec fn spec_outline_strokes(input: Seq<char>, pos: int) -> (Seq<u32>, int)
    decreases input.len() - pos,
{
    let first = spec_raw_stroke(input, pos);
    if char_at(input, first.1, '/') {
        proof {
            lemma_raw_stroke_bounds(input, pos);
        }
        let rest = spec_outline_strokes(input, first.1 + 1);
        (seq![first.0] + rest.0, rest.1)
    } else {
        (seq![first.0], first.1)
    }
}

/// A quoted outline followed by white space.
pub open spec fn spec_outline(input: Seq<char>, pos: int) -> ParseOutcome<Seq<u32>, int> {
    if !char_at(input, pos, QUOTE) {
        ParseOutcome::Empty
    } else {
        let strokes = spec_outline_strokes(input, pos + 1);
        if char_at(input, strokes.1, QUOTE) {
            ParseOutcome::Match(strokes.0, skip_spaces(input, strokes.1 + 1))
        } else {
            ParseOutcome::Failed
        }
    }
}

/// Mathematical form of a dictionary entry: raw stroke values and commands.
pub type EntryView = (Seq<u32>, Seq<CommandView>);

/// An entry `"OUTLINE": "TRANSLATION"`.
pub open spec fn spec_entry(input: Seq<char>, pos: int) -> ParseOutcome<EntryView, int> {
    match spec_outline(input, pos) {
        ParseOutcome::Match(strokes, next) => if char_at(input, next, ':') {
            match spec_translation(input, skip_spaces(input, next + 1)) {
                ParseOutcome::Match(commands, end) => ParseOutcome::Match((strokes, commands), end),
                _ => ParseOutcome::Failed,
            }
        } else {
            ParseOutcome::Failed
        },
        ParseOutcome::Empty => ParseOutcome::Empty,
        ParseOutcome::Failed => ParseOutcome::Failed,
    }
}

/// An entry preceded by an optional comma.
pub open spec fn spec_line(input: Seq<char>, pos: int) -> ParseOutcome<EntryView, int> {
    if char_at(input, pos, ',') {
        match spec_entry(input, skip_spaces(input, pos + 1)) {
            ParseOutcome::Empty => ParseOutcome::Failed,
            other => other,
        }
    } else {
        spec_entry(input, pos)
    }
}

/// Entries from `pos` up to the closing brace at the end of the input, or `None` if the
/// input does not have that form.
pub open spec fn spec_entries(input: Seq<char>, pos: int) -> Option<Seq<EntryView>>
    decreases input.len() - pos,
{
    match spec_line(input, pos) {
        ParseOutcome::Match(entry, next) => {
            proof {
                lemma_line_bounds(input, pos);
            }
            match spec_entries(input, next) {
                Some(rest) => Some(seq![entry] + rest),
                None => None,
            }
        },
        ParseOutcome::Empty => if char_at(input, pos, CLOSE_BRACE) && skip_spaces(input, pos + 1) == input.len() {
            Some(Seq::empty())
        } else {
            None
        },
        ParseOutcome::Failed => None,
    }
}

/// Entries of a dictionary, or `None` if the input is not a dictionary.
pub open spec fn spec_dict(input: Seq<char>) -> Option<Seq<EntryView>> {
    if char_at(input, 0, OPEN_BRACE) {
        spec_entries(input, skip_spaces(input, 1))
    } else {
        None
    }
}

pub proof fn lemma_skip_spaces_bounds(input: Seq<char>, pos: int)
    requires
        0 <= pos <= input.len(),
    ensures
        pos <= skip_spaces(input, pos) <= input.len(),
    decreases input.len() - pos,
{
    if 0 <= pos < input.len() && is_space(input[pos]) {
        lemma_skip_spaces_bounds(input, pos + 1);
    }
}

pub proof fn lemma_parse_keys_bounds(input: Seq<char>, pos: int, step: int)
    ensures
        pos <= super::stroke::parse_keys(input, pos, step).2,
        pos <= input.len() ==> super::stroke::parse_keys(input, pos, step).2 <= input.len(),
    decreases 24 - step,
{
    if 0 <= step < 24 {
        let pressed = super::stroke::key_at(input, pos, step);
        lemma_parse_keys_bounds(input, if pressed { pos + 1 } else { pos }, step + 1);
    }
}

pub proof fn lemma_raw_stroke_bounds(input: Seq<char>, pos: int)
    ensures
        pos <= spec_raw_stroke(input, pos).1,
        pos <= input.len() ==> spec_raw_stroke(input, pos).1 <= input.len(),
{
    lemma_parse_keys_bounds(input, pos, 0);
}

pub proof fn lemma_translation_text_bounds(input: Seq<char>, pos: int)
    ensures
        spec_translation_text(input, pos) matches ParseOutcome::Match(text, end) ==> pos < end <= input.len()
            && text.len() > 0,
    decreases input.len() - pos,
{
    if let ParseOutcome::Match(c, next) = spec_translation_char(input, pos) {
        lemma_translation_text_bounds(input, next);
    }
}

pub proof fn lemma_meta_operator_item_bounds(input: Seq<char>, pos: int)
    ensures
        spec_meta_operator_item(input, pos) matches ParseOutcome::Match(_, end) ==> pos < end <= input.len(),
{
    lemma_translation_text_bounds(input, pos);
}

pub proof fn lemma_meta_operator_items_bounds(input: Seq<char>, pos: int)
    ensures
        spec_meta_operator_items(input, pos) matches ParseOutcome::Match(_, end) ==> pos < end <= input.len(),
    decreases input.len() - pos,
{
    lemma_meta_operator_item_bounds(input, pos);
    if let ParseOutcome::Match(_, next) = spec_meta_operator_item(input, pos) {
        lemma_meta_operator_items_bounds(input, next);
    }
}

pub proof fn lemma_meta_operator_bounds(input: Seq<char>, pos: int)
    ensures
        spec_meta_operator(input, pos) matches ParseOutcome::Match(_, end) ==> pos < end <= input.len(),
{
    lemma_translation_text_bounds(input, pos + 2);
    lemma_meta_operator_items_bounds(input, pos + 1);
}

pub proof fn lemma_translation_part_bounds(input: Seq<char>, pos: int)
    ensures
        spec_translation_part(input, pos) matches ParseOutcome::Match(_, end) ==> pos < end <= input.len(),
{
    lemma_translation_text_bounds(input, pos);
    lemma_meta_operator_bounds(input, pos);
}

pub proof fn lemma_translation_content_bounds(input: Seq<char>, pos: int)
    requires
        0 <= pos <= input.len(),
    ensures
        spec_translation_content(input, pos) matches ParseOutcome::Match(_, end) ==> pos <= end <= input.len(),
    decreases input.len() - pos,
{
    lemma_translation_part_bounds(input, pos);
    if let ParseOutcome::Match(_, next) = spec_translation_part(input, pos) {
        lemma_translation_content_bounds(input, next);
    }
}

pub proof fn lemma_outline_strokes_bounds(input: Seq<char>, pos: int)
    requires
        0 <= pos <= input.len(),
    ensures
        pos <= spec_outline_strokes(input, pos).1 <= input.len(),
        spec_outline_strokes(input, pos).0.len() > 0,
    decreases input.len() - pos,
{
    lemma_raw_stroke_bounds(input, pos);
    let first = spec_raw_stroke(input, pos);
    if char_at(input, first.1, '/') {
        lemma_outline_strokes_bounds(input, first.1 + 1);
    }
}

pub proof fn lemma_outline_bounds(input: Seq<char>, pos: int)
    requires
        0 <= pos <= input.len(),
    ensures
        spec_outline(input, pos) matches ParseOutcome::Match(_, end) ==> pos < end <= input.len(),
{
    if char_at(input, pos, QUOTE) {
        lemma_outline_strokes_bounds(input, pos + 1);
        let strokes = spec_outline_strokes(input, pos + 1);
        if char_at(input, strokes.1, QUOTE) {
            lemma_skip_spaces_bounds(input, strokes.1 + 1);
        }
    }
}

pub proof fn lemma_translation_bounds(input: Seq<char>, pos: int)
    requires
        0 <= pos <= input.len(),
    ensures
        spec_translation(input, pos) matches ParseOutcome::Match(_, end) ==> pos < end <= input.len(),
{
    if char_at(input, pos, QUOTE) {
        lemma_translation_content_bounds(input, pos + 1);
        if let ParseOutcome::Match(_, end) = spec_translation_content(input, pos + 1) {
            if char_at(input, end, QUOTE) {
                lemma_skip_spaces_bounds(input, end + 1);
            }
        }
    }
}

pub proof fn lemma_entry_bounds(input: Seq<char>, pos: int)
    requires
        0 <= pos <= input.len(),
    ensures
        spec_entry(input, pos) matches ParseOutcome::Match(_, end) ==> pos < end <= input.len(),
{
    lemma_outline_bounds(input, pos);
    if let ParseOutcome::Match(_, next) = spec_outline(input, pos) {
        if char_at(input, next, ':') {
            lemma_skip_spaces_bounds(input, next + 1);
            lemma_translation_bounds(input, skip_spaces(input, next + 1));
        }
    }
}

pub proof fn lemma_line_bounds(input: Seq<char>, pos: int)
    ensures
        spec_line(input, pos) matches ParseOutcome::Match(_, end) ==> pos < end <= input.len(),
{
    if char_at(input, pos, ',') {
        lemma_skip_spaces_bounds(input, pos + 1);
        lemma_entry_bounds(input, skip_spaces(input, pos + 1));
    } else if 0 <= pos <= input.len() {
        lemma_entry_bounds(input, pos);
    }
}

/// The executable outcome `r` corresponds to the outcome `s` of the grammar, the values being
/// related by `rel`.
pub open spec fn outcome_rel<T, V>(r: ParseOutcome<T, usize>, s: ParseOutcome<V, int>, rel: spec_fn(T, V) -> bool) -> bool {
    match s {
        ParseOutcome::Match(v, end) => r matches ParseOutcome::Match(x, e) && rel(x, v) && e == end,
        ParseOutcome::Empty => r is Empty,
        ParseOutcome::Failed => r is Failed,
    }
}

/// The strokes hold the given raw values.
pub open spec fn strokes_of_values(strokes: Seq<EnglishStroke>, values: Seq<u32>) -> bool {
    &&& strokes.len() == values.len()
    &&& forall|i: int| 0 <= i < strokes.len() ==> stroke_of_value(#[trigger] strokes[i], values[i])
}

/// The parsed entries correspond to the entries of the grammar.
pub open spec fn entries_of_views(entries: Seq<(Outline, CommandList)>, views: Seq<EntryView>) -> bool {
    &&& entries.len() == views.len()
    &&& forall|i: int| #![trigger entries[i]] 0 <= i < entries.len() ==> {
        &&& strokes_of_values(entries[i].0@, views[i].0)
        &&& entries[i].1@ == views[i].1
    }
}

fn is_space_char(c: char) -> (r: bool)
    ensures
        r == is_space(c),
{
    ('\t' <= c && c <= '\r') || c == ' ' || c == '\u{85}' || c == '\u{a0}' || c == '\u{1680}' || ('\u{2000}' <= c
        && c <= '\u{200a}') || c == '\u{2028}' || c == '\u{2029}' || c == '\u{202f}' || c == '\u{205f}' || c
        == '\u{3000}'
}

/// Position after the white space starting at `pos`.
fn lex_spaces(input: &Vec<char>, pos: usize) -> (r: usize)
    requires
        pos <= input@.len(),
    ensures
        r as int == skip_spaces(input@, pos as int),
        pos <= r <= input@.len() <= usize::MAX,
{
    let mut position = pos;
    while position < input.len() && is_space_char(input[position])
        invariant
            pos <= position <= input@.len(),
            skip_spaces(input@, pos as int) == skip_spaces(input@, position as int),
        decreases input@.len() - position,
    {
        position += 1;
    }
    position
}

/// The character at `pos` is `c`.
fn is_char_at(input: &Vec<char>, pos: usize, c: char) -> (r: bool)
    ensures
        r == char_at(input@, pos as int, c),
        input@.len() <= usize::MAX,
{
    pos < input.len() && input[pos] == c
}

fn json_escape_of(c: char) -> (r: Option<char>)
    ensures
        r == json_escape(c),
{
    if c == QUOTE { Some(QUOTE) }
    else if c == BACKSLASH { Some(BACKSLASH) }
    else if c == '/' { Some('/') }
    else if c == 'b' { Some('\u{8}') }
    else if c == 'f' { Some('\u{c}') }
    else if c == 'n' { Some('\n') }
    else if c == 'r' { Some('\r') }
    else if c == 't' { Some('\t') }
    else { None }
}

/// Reads one character of a JSON string.
fn json_char(input: &Vec<char>, pos: usize) -> (r: ParseOutcome<char, usize>)
    requires
        pos <= input@.len(),
    ensures
        outcome_rel(r, spec_json_char(input@, pos as int), |x: char, v: char| x == v),
        r matches ParseOutcome::Match(_, e) ==> pos < e <= input@.len(),
{
    if pos >= input.len() || input[pos] == QUOTE {
        ParseOutcome::Empty
    } else if input[pos] == BACKSLASH {
        if pos + 1 < input.len() {
            match json_escape_of(input[pos + 1]) {
                Some(c) => ParseOutcome::Match(c, pos + 2),
                None => ParseOutcome::Failed,
            }
        } else {
            ParseOutcome::Failed
        }
    } else {
        ParseOutcome::Match(input[pos], pos + 1)
    }
}

/// Reads one character of translation text.
fn translation_char(input: &Vec<char>, pos: usize) -> (r: ParseOutcome<char, usize>)
    requires
        pos <= input@.len(),
    ensures
        outcome_rel(r, spec_translation_char(input@, pos as int), |x: char, v: char| x == v),
        r matches ParseOutcome::Match(_, e) ==> pos < e <= input@.len(),
{
    match json_char(input, pos) {
        ParseOutcome::Match(c, next) => {
            if c == BACKSLASH {
                if next < input.len() && (input[next] == OPEN_BRACE || input[next] == CLOSE_BRACE || input[next] == '^') {
                    ParseOutcome::Match(input[next], next + 1)
                } else {
                    ParseOutcome::Failed
                }
            } else if c == OPEN_BRACE || c == CLOSE_BRACE {
                ParseOutcome::Empty
            } else {
                ParseOutcome::Match(c, next)
            }
        },
        ParseOutcome::Empty => ParseOutcome::Empty,
        ParseOutcome::Failed => ParseOutcome::Failed,
    }
}

/// Reads translation text: one or more translation characters.
fn translation_text(input: &Vec<char>, pos: usize) -> (r: ParseOutcome<Vec<char>, usize>)
    requires
        pos <= input@.len(),
    ensures
        outcome_rel(r, spec_translation_text(input@, pos as int), |x: Vec<char>, v: Seq<char>| x@ == v),
        r matches ParseOutcome::Match(_, e) ==> pos < e <= input@.len(),
{
    let mut chars: Vec<char> = Vec::new();
    let mut position = pos;
    loop
        invariant
            pos <= position <= input@.len(),
            chars@.len() == 0 ==> position == pos,
            chars@.len() > 0 ==> position > pos,
            spec_translation_text(input@, pos as int) == (if chars@.len() == 0 {
                spec_translation_text(input@, position as int)
            } else {
                continued(chars@, spec_translation_text(input@, position as int), position as int)
            }),
        decreases input@.len() - position,
    {
        match translation_char(input, position) {
            ParseOutcome::Match(c, next) => {
                proof {
                    let rest = spec_translation_text(input@, next as int);
                    if let ParseOutcome::Match(more, end) = rest {
                        assert(chars@ + (seq![c] + more) =~= chars@.push(c) + more);
                    }
                    assert(chars@ + seq![c] =~= chars@.push(c));
                    assert(seq![c] =~= Seq::<char>::empty().push(c));
                }
                chars.push(c);
                position = next;
            },
            ParseOutcome::Empty => {
                if chars.len() == 0 {
                    return ParseOutcome::Empty;
                } else {
                    return ParseOutcome::Match(chars, position);
                }
            },
            ParseOutcome::Failed => return ParseOutcome::Failed,
        }
    }
}

/// Builds a `Write` command from characters.
fn write_command(chars: &Vec<char>) -> (r: OwnedFormatterCommand)
    ensures
        r@ == GenericFormatterCommand::<Seq<char>>::Write(chars@),
{
    GenericFormatterCommand::Write(string_from_chars(chars))
}

/// Builds a `Write` command holding one character.
fn write_char_command(c: char) -> (r: OwnedFormatterCommand)
    ensures
        r@ == GenericFormatterCommand::<Seq<char>>::Write(seq![c]),
{
    let chars = vec![c];
    assert(chars@ =~= seq![c]);
    write_command(&chars)
}

/// Reads one item inside braces.
fn meta_operator_item(input: &Vec<char>, pos: usize) -> (r: ParseOutcome<Vec<OwnedFormatterCommand>, usize>)
    requires
        pos <= input@.len(),
    ensures
        outcome_rel(
            r,
            spec_meta_operator_item(input@, pos as int),
            |x: Vec<OwnedFormatterCommand>, v: Seq<CommandView>| command_views(x@) == v,
        ),
        r matches ParseOutcome::Match(_, e) ==> pos < e <= input@.len(),
{
    let next_word = GenericFormatterCommand::ChangeAttachment(AttachmentMode::Next);
    let r = if is_char_at(input, pos, '^') {
        ParseOutcome::Match(vec![next_word], pos + 1)
    } else if is_char_at(input, pos, '>') {
        ParseOutcome::Match(vec![GenericFormatterCommand::ChangeCapitalization(CapitalizationMode::LowercaseNext)], pos + 1)
    } else if is_char_at(input, pos, '<') {
        ParseOutcome::Match(vec![GenericFormatterCommand::ChangeCapitalization(CapitalizationMode::UppercaseNext)], pos + 1)
    } else if is_char_at(input, pos, '-') && is_char_at(input, pos + 1, '|') {
        ParseOutcome::Match(vec![GenericFormatterCommand::ChangeCapitalization(CapitalizationMode::CapitalizeNext)], pos + 2)
    } else if is_char_at(input, pos, ',') {
        ParseOutcome::Match(vec![next_word, write_char_command(',')], pos + 1)
    } else if pos < input.len() && (input[pos] == '.' || input[pos] == ':' || input[pos] == ';' || input[pos] == '!'
        || input[pos] == '?') {
        let punctuation = write_char_command(input[pos]);
        ParseOutcome::Match(
            vec![next_word, punctuation, GenericFormatterCommand::ChangeCapitalization(CapitalizationMode::CapitalizeNext)],
            pos + 1,
        )
    } else {
        match translation_text(input, pos) {
            ParseOutcome::Match(text, end) => ParseOutcome::Match(vec![write_command(&text)], end),
            ParseOutcome::Empty => ParseOutcome::Empty,
            ParseOutcome::Failed => ParseOutcome::Failed,
        }
    };
    proof {
        if let ParseOutcome::Match(x, e) = &r {
            assert(command_views(x@) =~= spec_meta_operator_item(input@, pos as int)->Match_0);
        }
    }
    r
}

/// Reads one or more items inside braces.
fn meta_operator_items(input: &Vec<char>, pos: usize) -> (r: ParseOutcome<Vec<OwnedFormatterCommand>, usize>)
    requires
        pos <= input@.len(),
    ensures
        outcome_rel(
            r,
            spec_meta_operator_items(input@, pos as int),
            |x: Vec<OwnedFormatterCommand>, v: Seq<CommandView>| command_views(x@) == v,
        ),
        r matches ParseOutcome::Match(_, e) ==> pos < e <= input@.len(),
{
    let mut commands: Vec<OwnedFormatterCommand> = Vec::new();
    let mut read_any = false;
    let mut position = pos;
    loop
        invariant
            pos <= position <= input@.len(),
            !read_any ==> position == pos && commands@.len() == 0,
            read_any ==> position > pos,
            spec_meta_operator_items(input@, pos as int) == (if !read_any {
                spec_meta_operator_items(input@, position as int)
            } else {
                continued(command_views(commands@), spec_meta_operator_items(input@, position as int), position as int)
            }),
        decreases input@.len() - position,
    {
        match meta_operator_item(input, position) {
            ParseOutcome::Match(items, next) => {
                let mut items = items;
                proof {
                    let first = command_views(items@);
                    let rest = spec_meta_operator_items(input@, next as int);
                    assert(command_views(commands@ + items@) =~= command_views(commands@) + first);
                    if let ParseOutcome::Match(more, end) = rest {
                        assert(command_views(commands@) + (first + more) =~= (command_views(commands@) + first) + more);
                    }
                    if !read_any {
                        assert(command_views(commands@) + first =~= first);
                    }
                }
                commands.append(&mut items);
                read_any = true;
                position = next;
            },
            ParseOutcome::Empty => {
                if !read_any {
                    return ParseOutcome::Empty;
                } else {
                    return ParseOutcome::Match(commands, position);
                }
            },
            ParseOutcome::Failed => return ParseOutcome::Failed,
        }
    }
}

/// Reads glued text `&text`.
fn meta_operator_glue(input: &Vec<char>, pos: usize) -> (r: ParseOutcome<Vec<OwnedFormatterCommand>, usize>)
    requires
        pos <= input@.len(),
    ensures
        outcome_rel(
            r,
            spec_meta_operator_glue(input@, pos as int),
            |x: Vec<OwnedFormatterCommand>, v: Seq<CommandView>| command_views(x@) == v,
        ),
        r matches ParseOutcome::Match(_, e) ==> pos < e <= input@.len(),
{
    if !is_char_at(input, pos, '&') {
        return ParseOutcome::Empty;
    }
    match translation_text(input, pos + 1) {
        ParseOutcome::Match(text, end) => {
            let glue = GenericFormatterCommand::ChangeAttachment(AttachmentMode::Glue);
            let commands = vec![glue, write_command(&text), GenericFormatterCommand::ChangeAttachment(AttachmentMode::Glue)];
            assert(command_views(commands@) =~= spec_meta_operator_glue(input@, pos as int)->Match_0);
            ParseOutcome::Match(commands, end)
        },
        _ => ParseOutcome::Failed,
    }
}

/// Reads a meta operator in braces.
fn meta_operator(input: &Vec<char>, pos: usize) -> (r: ParseOutcome<Vec<OwnedFormatterCommand>, usize>)
    requires
        pos <= input@.len(),
    ensures
        outcome_rel(
            r,
            spec_meta_operator(input@, pos as int),
            |x: Vec<OwnedFormatterCommand>, v: Seq<CommandView>| command_views(x@) == v,
        ),
        r matches ParseOutcome::Match(_, e) ==> pos < e <= input@.len(),
{
    if !is_char_at(input, pos, OPEN_BRACE) {
        return ParseOutcome::Empty;
    }
    let content = match meta_operator_glue(input, pos + 1) {
        ParseOutcome::Empty => match meta_operator_items(input, pos + 1) {
            ParseOutcome::Empty => {
                let reset = vec![GenericFormatterCommand::ResetFormatting];
                assert(command_views(reset@) =~= seq![GenericFormatterCommand::<Seq<char>>::ResetFormatting]);
                ParseOutcome::Match(reset, pos + 1)
            },
            other => other,
        },
        other => other,
    };
    match content {
        ParseOutcome::Match(commands, end) => {
            if is_char_at(input, end, CLOSE_BRACE) {
                ParseOutcome::Match(commands, end + 1)
            } else {
                ParseOutcome::Failed
            }
        },
        _ => ParseOutcome::Failed,
    }
}

/// Reads the contents of a translation: text and meta operators.
fn translation_content(input: &Vec<char>, pos: usize) -> (r: ParseOutcome<CommandList, usize>)
    requires
        pos <= input@.len(),
    ensures
        outcome_rel(
            r,
            spec_translation_content(input@, pos as int),
            |x: CommandList, v: Seq<CommandView>| x@ == v,
        ),
        r matches ParseOutcome::Match(_, e) ==> pos <= e <= input@.len(),
{
    let mut commands: Vec<OwnedFormatterCommand> = Vec::new();
    let mut position = pos;
    loop
        invariant
            pos <= position <= input@.len(),
            spec_translation_content(input@, pos as int) == continued(
                command_views(commands@),
                spec_translation_content(input@, position as int),
                position as int,
            ),
        decreases input@.len() - position,
    {
        proof {
            lemma_translation_part_bounds(input@, position as int);
        }
        let part = match translation_text(input, position) {
            ParseOutcome::Match(text, end) => {
                let items = vec![write_command(&text)];
                assert(command_views(items@) =~= seq![GenericFormatterCommand::<Seq<char>>::Write(text@)]);
                ParseOutcome::Match(items, end)
            },
            ParseOutcome::Empty => meta_operator(input, position),
            ParseOutcome::Failed => ParseOutcome::Failed,
        };
        assert(outcome_rel(
            part,
            spec_translation_part(input@, position as int),
            |x: Vec<OwnedFormatterCommand>, v: Seq<CommandView>| command_views(x@) == v,
        ));
        match part {
            ParseOutcome::Match(items, next) => {
                let mut items = items;
                proof {
                    let first = command_views(items@);
                    let rest = spec_translation_content(input@, next as int);
                    assert(command_views(commands@ + items@) =~= command_views(commands@) + first);
                    if let ParseOutcome::Match(more, end) = rest {
                        assert(command_views(commands@) + (first + more) =~= (command_views(commands@) + first) + more);
                    }
                }
                commands.append(&mut items);
                position = next;
            },
            ParseOutcome::Empty => {
                proof {
                    assert(command_views(commands@) + Seq::empty() =~= command_views(commands@));
                }
                return ParseOutcome::Match(CommandList(commands), position);
            },
            ParseOutcome::Failed => return ParseOutcome::Failed,
        }
    }
}

/// Reads a quoted translation.
fn translation(input: &Vec<char>, pos: usize) -> (r: ParseOutcome<CommandList, usize>)
    requires
        pos <= input@.len(),
    ensures
        outcome_rel(r, spec_translation(input@, pos as int), |x: CommandList, v: Seq<CommandView>| x@ == v),
        r matches ParseOutcome::Match(_, e) ==> pos < e <= input@.len(),
{
    if !is_char_at(input, pos, QUOTE) {
        return ParseOutcome::Empty;
    }
    match translation_content(input, pos + 1) {
        ParseOutcome::Match(commands, end) => {
            if is_char_at(input, end, QUOTE) {
                ParseOutcome::Match(commands, lex_spaces(input, end + 1))
            } else {
                ParseOutcome::Failed
            }
        },
        _ => ParseOutcome::Failed,
    }
}

/// Reads the strokes of an outline separated by `/`.
fn outline_strokes(input: &Vec<char>, pos: usize) -> (r: (Outline, usize))
    requires
        pos <= input@.len(),
    ensures
        strokes_of_values(r.0@, spec_outline_strokes(input@, pos as int).0),
        r.1 as int == spec_outline_strokes(input@, pos as int).1,
        pos <= r.1 <= input@.len(),
{
    let mut strokes: Vec<EnglishStroke> = Vec::new();
    let ghost mut values: Seq<u32> = Seq::empty();
    let mut position = pos;
    loop
        invariant
            pos <= position <= input@.len(),
            strokes_of_values(strokes@, values),
            spec_outline_strokes(input@, pos as int) == (
                values + spec_outline_strokes(input@, position as int).0,
                spec_outline_strokes(input@, position as int).1,
            ),
        decreases input@.len() - position,
    {
        let (stroke, value, end) = stroke(input, position);
        proof {
            let rest = spec_outline_strokes(input@, end + 1);
            assert(values + (seq![value] + rest.0) =~= values.push(value) + rest.0);
            assert(values + seq![value] =~= values.push(value));
        }
        let ghost previous = strokes@;
        strokes.push(stroke);
        proof {
            values = values.push(value);
            assert(strokes_of_values(strokes@, values)) by {
                assert forall|i: int| 0 <= i < strokes@.len() implies stroke_of_value(#[trigger] strokes@[i], values[i]) by {
                    if i < strokes@.len() - 1 {
                        assert(strokes@[i] == previous[i]);
                    }
                }
            }
        }
        if is_char_at(input, end, '/') {
            position = end + 1;
        } else {
            return (Outline(strokes), end);
        }
    }
}

/// Reads a quoted outline.
fn outline(input: &Vec<char>, pos: usize) -> (r: ParseOutcome<Outline, usize>)
    requires
        pos <= input@.len(),
    ensures
        outcome_rel(r, spec_outline(input@, pos as int), |x: Outline, v: Seq<u32>| strokes_of_values(x@, v)),
        r matches ParseOutcome::Match(_, e) ==> pos < e <= input@.len(),
{
    if !is_char_at(input, pos, QUOTE) {
        return ParseOutcome::Empty;
    }
    let (strokes, end) = outline_strokes(input, pos + 1);
    if is_char_at(input, end, QUOTE) {
        ParseOutcome::Match(strokes, lex_spaces(input, end + 1))
    } else {
        ParseOutcome::Failed
    }
}

/// Reads an entry `"OUTLINE": "TRANSLATION"`.
fn entry(input: &Vec<char>, pos: usize) -> (r: ParseOutcome<(Outline, CommandList), usize>)
    requires
        pos <= input@.len(),
    ensures
        outcome_rel(
            r,
            spec_entry(input@, pos as int),
            |x: (Outline, CommandList), v: EntryView| strokes_of_values(x.0@, v.0) && x.1@ == v.1,
        ),
        r matches ParseOutcome::Match(_, e) ==> pos < e <= input@.len(),
{
    match outline(input, pos) {
        ParseOutcome::Match(strokes, next) => {
            if !is_char_at(input, next, ':') {
                return ParseOutcome::Failed;
            }
            match translation(input, lex_spaces(input, next + 1)) {
                ParseOutcome::Match(commands, end) => ParseOutcome::Match((strokes, commands), end),
                _ => ParseOutcome::Failed,
            }
        },
        ParseOutcome::Empty => ParseOutcome::Empty,
        ParseOutcome::Failed => ParseOutcome::Failed,
    }
}

/// Parses a Plover JSON dictionary. Returns the outlines and their translations in the order
/// in which they appear, or `None` if the input is not a dictionary.
pub fn dict(json: &str) -> (r: Option<Vec<(Outline, CommandList)>>)
    ensures
        match spec_dict(json@) {
            Some(entries) => r matches Some(v) && entries_of_views(v@, entries),
            None => r is None,
        },
{
    let input = chars_of(json);
    if !is_char_at(&input, 0, OPEN_BRACE) {
        return None;
    }
    let mut position = lex_spaces(&input, 1);
    let mut entries: Vec<(Outline, CommandList)> = Vec::new();
    let ghost mut views: Seq<EntryView> = Seq::empty();
    loop
        invariant
            position <= input@.len(),
            input@ == json@,
            entries_of_views(entries@, views),
            spec_dict(json@) == (match spec_entries(input@, position as int) {
                Some(rest) => Some(views + rest),
                None => None,
            }),
        decreases input@.len() - position,
    {
        let line = if is_char_at(&input, position, ',') {
            match entry(&input, lex_spaces(&input, position + 1)) {
                ParseOutcome::Empty => ParseOutcome::Failed,
                other => other,
            }
        } else {
            entry(&input, position)
        };
        match line {
            ParseOutcome::Match(found, next) => {
                let ghost view = spec_line(input@, position as int)->Match_0;
                proof {
                    if let Some(rest) = spec_entries(input@, next as int) {
                        assert(views + (seq![view] + rest) =~= views.push(view) + rest);
                    }
                }
                let ghost previous = entries@;
                entries.push(found);
                proof {
                    views = views.push(view);
                    assert(entries_of_views(entries@, views)) by {
                        assert forall|i: int| 0 <= i < entries@.len() implies {
                            &&& strokes_of_values(#[trigger] entries@[i].0@, views[i].0)
                            &&& entries@[i].1@ == views[i].1
                        } by {
                            if i < entries@.len() - 1 {
                                assert(entries@[i] == previous[i]);
                            }
                        }
                    }
                }
                position = next;
            },
            ParseOutcome::Empty => {
                if is_char_at(&input, position, CLOSE_BRACE) && lex_spaces(&input, position + 1) == input.len() {
                    assert(views + Seq::empty() =~= views);
                    return Some(entries);
                } else {
                    return None;
                }
            },
            ParseOutcome::Failed => return None,
        }
    }
}

} // verus!
