//! Data structures to construct a deduplicated binary blob containing all translations
use super::json::dict::CommandList;
use crate::dict::format::{
    attachment_code, capitalization_code, encodable_command, encode_command, encode_commands,
    encode_commands_body, reset_code, END_OF_COMMANDS, TRANSLATION_SIZE_LIMIT,
};
use crate::formatter::{AttachmentMode, CapitalizationMode, CommandView, GenericFormatterCommand, OwnedFormatterCommand};
use vstd::prelude::*;
use vstd::string::StringSliceAdditionalSpecFns;

verus! {

/// The command list can be stored: every command can be encoded and the encoding is shorter
/// than the translation size limit.
pub open spec fn storable(commands: Seq<CommandView>) -> bool {
    &&& forall|i: int| 0 <= i < commands.len() ==> encodable_command(#[trigger] commands[i])
    &&& encode_commands(commands).len() < TRANSLATION_SIZE_LIMIT
}

fn capitalization_byte(mode: CapitalizationMode) -> (r: u8)
    ensures
        r == capitalization_code(mode),
{
    match mode {
        CapitalizationMode::Unchanged => 0b01_000_000,
        CapitalizationMode::Lowercase => 0b01_001_000,
        CapitalizationMode::Capitalize => 0b01_010_000,
        CapitalizationMode::Uppercase => 0b01_011_000,
        CapitalizationMode::LowerThenCapitalize => 0b01_100_000,
        CapitalizationMode::LowercaseNext => 0b01_101_000,
        CapitalizationMode::CapitalizeNext => 0b01_110_000,
        CapitalizationMode::UppercaseNext => 0b01_111_000,
    }
}

fn attachment_byte(mode: AttachmentMode) -> (r: u8)
    ensures
        r == attachment_code(mode),
{
    match mode {
        AttachmentMode::Delimited => 0b10_00_0000,
        AttachmentMode::Glue => 0b10_01_0000,
        AttachmentMode::Next => 0b10_10_0000,
        AttachmentMode::Always => 0b10_11_0000,
    }
}

/// The command can be encoded: written text is shorter than 64 bytes.
pub fn is_encodable(command: &OwnedFormatterCommand) -> (r: bool)
    ensures
        r == encodable_command(command@),
{
    match command {
        GenericFormatterCommand::Write(string) => string.as_str().as_bytes().len() < 64,
        _ => true,
    }
}

/// Serialized form of one command: a `Write` is its byte length followed by the bytes, every
/// other command is one byte.
pub fn command_to_bytes(command: &OwnedFormatterCommand) -> (r: Vec<u8>)
    requires
        encodable_command(command@),
    ensures
        r@ == encode_command(command@),
{
    match command {
        GenericFormatterCommand::Write(string) => {
            let bytes = string.as_str().as_bytes();
            let mut data: Vec<u8> = Vec::new();
            data.push(bytes.len() as u8);
            let mut i: usize = 0;
            while i < bytes.len()
                invariant
                    i <= bytes@.len(),
                    bytes@ == vstd::utf8::encode_utf8(string@),
                    data@ == seq![bytes@.len() as u8] + bytes@.subrange(0, i as int),
                decreases bytes@.len() - i,
            {
                data.push(bytes[i]);
                i += 1;
                assert(data@ =~= seq![bytes@.len() as u8] + bytes@.subrange(0, i as int));
            }
            assert(bytes@.subrange(0, bytes@.len() as int) =~= bytes@);
            data
        },
        GenericFormatterCommand::ChangeCapitalization(mode) => vec![capitalization_byte(*mode)],
        GenericFormatterCommand::ChangeAttachment(mode) => vec![attachment_byte(*mode)],
        GenericFormatterCommand::ResetFormatting => {
            let r = vec![0b110_00000u8];
            assert(r@ =~= seq![reset_code()]);
            r
        },
    }
}

pub(crate) proof fn lemma_encode_body_push(commands: Seq<CommandView>, command: CommandView)
    ensures
        encode_commands_body(commands.push(command)) == encode_commands_body(commands) + encode_command(command),
    decreases commands.len(),
{
    let pushed = commands.push(command);
    assert(pushed[0] == if commands.len() == 0 { command } else { commands[0] });
    if commands.len() == 0 {
        assert(pushed.drop_first() =~= Seq::<CommandView>::empty());
        assert(encode_commands_body(pushed.drop_first()) == Seq::<u8>::empty());
        assert(encode_commands_body(commands) == Seq::<u8>::empty());
        assert(encode_commands_body(pushed) =~= encode_commands_body(commands) + encode_command(command));
    } else {
        lemma_encode_body_push(commands.drop_first(), command);
        assert(pushed.drop_first() =~= commands.drop_first().push(command));
        assert(encode_commands_body(pushed) =~= encode_commands_body(commands) + encode_command(command));
    }
}

impl CommandList {
    /// Every command can be encoded and the encoding fits the translation size limit.
    pub fn is_storable(&self) -> (r: bool)
        ensures
            r == storable(self@),
    {
        let mut length: usize = 1;
        let mut i: usize = 0;
        while i < self.0.len()
            invariant
                i <= self.0@.len(),
                forall|j: int| 0 <= j < i ==> encodable_command(#[trigger] self@[j]),
                length == encode_commands_body(self@.subrange(0, i as int)).len() + 1,
                length < TRANSLATION_SIZE_LIMIT,
            decreases self.0@.len() - i,
        {
            if !is_encodable(&self.0[i]) {
                assert(!encodable_command(self@[i as int]));
                return false;
            }
            let size: usize = match &self.0[i] {
                GenericFormatterCommand::Write(string) => string.as_str().as_bytes().len() + 1,
                _ => 1,
            };
            assert(size == encode_command(self@[i as int]).len());
            proof {
                lemma_encode_body_push(self@.subrange(0, i as int), self@[i as int]);
                assert(self@.subrange(0, i + 1) =~= self@.subrange(0, i as int).push(self@[i as int]));
            }
            if length + size >= TRANSLATION_SIZE_LIMIT {
                proof {
                    lemma_body_prefix_len(self@, i as int + 1);
                }
                return false;
            }
            length = length + size;
            i += 1;
        }
        assert(self@.subrange(0, self@.len() as int) =~= self@);
        true
    }

    /// Serialized form of the list: the commands followed by the end marker.
    pub fn to_bytes(&self) -> (r: Vec<u8>)
        requires
            storable(self@),
        ensures
            r@ == encode_commands(self@),
    {
        let mut data: Vec<u8> = Vec::new();
        let mut i: usize = 0;
        while i < self.0.len()
            invariant
                i <= self.0@.len(),
                storable(self@),
                data@ == encode_commands_body(self@.subrange(0, i as int)),
            decreases self.0@.len() - i,
        {
            let mut bytes = command_to_bytes(&self.0[i]);
            proof {
                lemma_encode_body_push(self@.subrange(0, i as int), self@[i as int]);
                assert(self@.subrange(0, i + 1) =~= self@.subrange(0, i as int).push(self@[i as int]));
            }
            data.append(&mut bytes);
            i += 1;
        }
        data.push(END_OF_COMMANDS);
        assert(self@.subrange(0, self@.len() as int) =~= self@);
        data
    }

    /// The lists hold the same commands.
    pub fn same_as(&self, other: &CommandList) -> (r: bool)
        ensures
            r == (self@ == other@),
    {
        if self.0.len() != other.0.len() {
            proof {
                if self@ == other@ {
                    assert(self@.len() == other@.len());
                }
            }
            return false;
        }
        let mut i: usize = 0;
        while i < self.0.len()
            invariant
                i <= self.0@.len(),
                self.0@.len() == other.0@.len(),
                forall|j: int| 0 <= j < i ==> self@[j] == other@[j],
            decreases self.0@.len() - i,
        {
            let equal = match (&self.0[i], &other.0[i]) {
                (GenericFormatterCommand::Write(a), GenericFormatterCommand::Write(b)) => <String as PartialEq>::eq(a, b),
                (GenericFormatterCommand::ChangeCapitalization(a), GenericFormatterCommand::ChangeCapitalization(b)) => *a == *b,
                (GenericFormatterCommand::ChangeAttachment(a), GenericFormatterCommand::ChangeAttachment(b)) => *a == *b,
                (GenericFormatterCommand::ResetFormatting, GenericFormatterCommand::ResetFormatting) => true,
                _ => false,
            };
            assert(self@[i as int] == self.0@[i as int]@ && other@[i as int] == other.0@[i as int]@);
            if !equal {
                assert(self@[i as int] != other@[i as int]);
                return false;
            }
            i += 1;
        }
        assert(self@ =~= other@);
        true
    }
}

proof fn lemma_body_prefix_len(commands: Seq<CommandView>, n: int)
    requires
        0 <= n <= commands.len(),
    ensures
        encode_commands_body(commands.subrange(0, n)).len() <= encode_commands_body(commands).len(),
    decreases commands.len() - n,
{
    if n == commands.len() {
        assert(commands.subrange(0, n) =~= commands);
    } else {
        lemma_body_prefix_len(commands, n + 1);
        lemma_encode_body_push(commands.subrange(0, n), commands[n]);
        assert(commands.subrange(0, n + 1) =~= commands.subrange(0, n).push(commands[n]));
    }
}

/// Offset stored for `list` in the table, searching from the first entry.
pub open spec fn lookup(table: Seq<(Seq<CommandView>, usize)>, list: Seq<CommandView>) -> Option<usize>
    decreases table.len(),
{
    if table.len() == 0 {
        None
    } else if table[0].0 == list {
        Some(table[0].1)
    } else {
        lookup(table.drop_first(), list)
    }
}

/// Bytes of the encodings of the lists that have not been seen before, in order, each list
/// stored once.
pub open spec fn distinct_encodings(lists: Seq<Seq<CommandView>>, seen: Set<Seq<CommandView>>) -> Seq<u8>
    decreases lists.len(),
{
    if lists.len() == 0 {
        Seq::empty()
    } else if seen.contains(lists[0]) {
        distinct_encodings(lists.drop_first(), seen)
    } else {
        encode_commands(lists[0]) + distinct_encodings(lists.drop_first(), seen.insert(lists[0]))
    }
}

proof fn lemma_lookup_push(table: Seq<(Seq<CommandView>, usize)>, entry: (Seq<CommandView>, usize), list: Seq<CommandView>)
    ensures
        lookup(table.push(entry), list) == (if lookup(table, list) is Some {
            lookup(table, list)
        } else if entry.0 == list {
            Some(entry.1)
        } else {
            None
        }),
    decreases table.len(),
{
    let pushed = table.push(entry);
    if table.len() == 0 {
        assert(pushed.drop_first() =~= Seq::<(Seq<CommandView>, usize)>::empty());
        assert(lookup(pushed.drop_first(), list) is None);
    } else {
        assert(pushed[0] == table[0]);
        assert(pushed.drop_first() =~= table.drop_first().push(entry));
        lemma_lookup_push(table.drop_first(), entry, list);
    }
}

/// Table of translation locations, each distinct command list stored once.
pub struct TranslationPointers<'a> {
    pointers: Vec<(&'a CommandList, usize)>,
}

impl<'a> View for TranslationPointers<'a> {
    type V = Seq<(Seq<CommandView>, usize)>;

    closed spec fn view(&self) -> Seq<(Seq<CommandView>, usize)> {
        self.pointers@.map_values(|p: (&'a CommandList, usize)| (p.0@, p.1))
    }
}

impl<'a> TranslationPointers<'a> {
    /// Appends the encoding of every distinct command list to the buffer, in the order of
    /// first occurrence, and records where each one was stored.
    pub fn new_by_serializing_into(buffer: &mut Vec<u8>, entries: Vec<&'a CommandList>) -> (r: Self)
        requires
            forall|i: int| 0 <= i < entries@.len() ==> storable((#[trigger] entries@[i])@),
        ensures
            final(buffer)@ == old(buffer)@ + distinct_encodings(
                entries@.map_values(|e: &'a CommandList| e@),
                Set::empty(),
            ),
            forall|i: int| 0 <= i < entries@.len() ==> {
                let list = (#[trigger] entries@[i])@;
                &&& lookup(r@, list) matches Some(offset)
                &&& old(buffer)@.len() <= offset
                &&& offset + encode_commands(list).len() <= final(buffer)@.len()
                &&& final(buffer)@.subrange(offset as int, offset + encode_commands(list).len()) == encode_commands(list)
            },
            forall|l: Seq<CommandView>| #[trigger] lookup(r@, l) is Some ==> exists|i: int| 0 <= i < entries@.len() && (
            #[trigger] entries@[i])@ == l,
    {
        let ghost lists = entries@.map_values(|e: &'a CommandList| e@);
        let ghost start = buffer@;
        let mut pointers: Vec<(&'a CommandList, usize)> = Vec::new();
        proof {
            assert(lists.subrange(0, lists.len() as int) =~= lists);
            assert(Self::table_view(pointers@) =~= Seq::empty());
            assert(Set::new(|l: Seq<CommandView>| lookup(Self::table_view(pointers@), l) is Some) =~= Set::empty());
            assert(buffer@.subrange(0, start.len() as int) =~= start);
            assert(start + distinct_encodings(lists, Set::empty()) == buffer@ + distinct_encodings(lists, Set::empty()));
        }
        let mut i: usize = 0;
        while i < entries.len()
            invariant
                i <= entries@.len(),
                lists == entries@.map_values(|e: &'a CommandList| e@),
                forall|k: int| 0 <= k < entries@.len() ==> storable((#[trigger] entries@[k])@),
                start.len() <= buffer@.len(),
                buffer@.subrange(0, start.len() as int) == start,
                start + distinct_encodings(lists, Set::empty()) == buffer@ + distinct_encodings(
                    lists.subrange(i as int, lists.len() as int),
                    Set::new(|l: Seq<CommandView>| lookup(Self::table_view(pointers@), l) is Some),
                ),
                forall|k: int| 0 <= k < i ==> {
                    let list = (#[trigger] entries@[k])@;
                    &&& lookup(Self::table_view(pointers@), list) matches Some(offset)
                    &&& start.len() <= offset
                    &&& offset + encode_commands(list).len() <= buffer@.len()
                    &&& buffer@.subrange(offset as int, offset + encode_commands(list).len()) == encode_commands(list)
                },
                forall|l: Seq<CommandView>| #[trigger] lookup(Self::table_view(pointers@), l) is Some ==> exists|k: int|
                    0 <= k < i && (#[trigger] entries@[k])@ == l,
                forall|l: Seq<CommandView>| #[trigger] lookup(Self::table_view(pointers@), l) matches Some(offset) ==> {
                    &&& start.len() <= offset
                    &&& offset + encode_commands(l).len() <= buffer@.len()
                    &&& buffer@.subrange(offset as int, offset + encode_commands(l).len()) == encode_commands(l)
                },
            decreases entries@.len() - i,
        {
            let entry = entries[i];
            let ghost table = Self::table_view(pointers@);
            let ghost seen = Set::new(|l: Seq<CommandView>| lookup(table, l) is Some);
            let ghost rest = lists.subrange(i as int, lists.len() as int);
            assert(rest.drop_first() =~= lists.subrange(i + 1, lists.len() as int));
            assert(rest[0] == entry@);
            let found = Self::find(&pointers, entry);
            match found {
                Some(_) => {
                    assert(seen.contains(entry@));
                },
                None => {
                    let mut data = entry.to_bytes();
                    let location = buffer.len();
                    let ghost before = buffer@;
                    let ghost pushed = (entry@, location);
                    proof {
                        assert(!seen.contains(entry@));
                        assert(Self::table_view(pointers@.push((entry, location))) =~= table.push(pushed));
                        assert forall|l: Seq<CommandView>| #![trigger lookup(table.push(pushed), l)]
                            lookup(table.push(pushed), l) is Some <==> seen.insert(entry@).contains(l) by {
                            lemma_lookup_push(table, pushed, l);
                        }
                        assert(Set::new(|l: Seq<CommandView>| lookup(table.push(pushed), l) is Some) =~= seen.insert(entry@));
                    }
                    pointers.push((entry, location));
                    buffer.append(&mut data);
                    proof {
                        let new_table = Self::table_view(pointers@);
                        assert(new_table == table.push(pushed));
                        assert(buffer@ =~= before + encode_commands(entry@));
                        assert(buffer@.subrange(0, start.len() as int) =~= before.subrange(0, start.len() as int));
                        assert(buffer@.subrange(location as int, location + encode_commands(entry@).len()) =~= encode_commands(entry@));
                        assert(before + (encode_commands(entry@) + distinct_encodings(rest.drop_first(), seen.insert(entry@)))
                            =~= buffer@ + distinct_encodings(rest.drop_first(), seen.insert(entry@)));
                        assert forall|l: Seq<CommandView>| #[trigger] lookup(new_table, l) is Some implies {
                            let offset = lookup(new_table, l)->0;
                            &&& start.len() <= offset
                            &&& offset + encode_commands(l).len() <= buffer@.len()
                            &&& buffer@.subrange(offset as int, offset + encode_commands(l).len()) == encode_commands(l)
                        } by {
                            lemma_lookup_push(table, pushed, l);
                            if let Some(offset) = lookup(table, l) {
                                assert(buffer@.subrange(offset as int, offset + encode_commands(l).len()) =~= before.subrange(
                                    offset as int,
                                    offset + encode_commands(l).len(),
                                ));
                            }
                        }
                        assert forall|k: int| 0 <= k < i + 1 implies {
                            let list = (#[trigger] entries@[k])@;
                            &&& lookup(new_table, list) matches Some(offset)
                            &&& start.len() <= offset
                            &&& offset + encode_commands(list).len() <= buffer@.len()
                            &&& buffer@.subrange(offset as int, offset + encode_commands(list).len()) == encode_commands(list)
                        } by {
                            let list = entries@[k]@;
                            lemma_lookup_push(table, pushed, list);
                        }
                        assert forall|l: Seq<CommandView>| #[trigger] lookup(new_table, l) is Some implies exists|k: int|
                            0 <= k < i + 1 && (#[trigger] entries@[k])@ == l by {
                            lemma_lookup_push(table, pushed, l);
                            if lookup(table, l) is None {
                                assert(entries@[i as int]@ == l);
                            }
                        }
                    }
                },
            }
            i += 1;
        }
        proof {
            assert(lists.subrange(lists.len() as int, lists.len() as int) =~= Seq::<Seq<CommandView>>::empty());
            assert(start + distinct_encodings(lists, Set::empty()) =~= buffer@);
        }
        let r = Self { pointers };
        assert(r@ == Self::table_view(pointers@));
        r
    }

    spec fn table_view(pointers: Seq<(&'a CommandList, usize)>) -> Seq<(Seq<CommandView>, usize)> {
        pointers.map_values(|p: (&'a CommandList, usize)| (p.0@, p.1))
    }

    fn find(pointers: &Vec<(&'a CommandList, usize)>, entry: &CommandList) -> (r: Option<usize>)
        ensures
            r == lookup(Self::table_view(pointers@), entry@),
    {
        let ghost table = Self::table_view(pointers@);
        assert(table.subrange(0, table.len() as int) =~= table);
        let mut i: usize = 0;
        while i < pointers.len()
            invariant
                i <= pointers@.len(),
                table == Self::table_view(pointers@),
                lookup(table, entry@) == lookup(table.subrange(i as int, table.len() as int), entry@),
            decreases pointers@.len() - i,
        {
            let ghost rest = table.subrange(i as int, table.len() as int);
            assert(rest.drop_first() =~= table.subrange(i + 1, table.len() as int));
            if pointers[i].0.same_as(entry) {
                return Some(pointers[i].1);
            }
            i += 1;
        }
        None
    }

    /// Location of the given command list, if it was stored.
    pub fn offset_for(&self, entry: &CommandList) -> (r: Option<usize>)
        ensures
            r == lookup(self@, entry@),
    {
        Self::find(&self.pointers, entry)
    }
}

} // verus!
