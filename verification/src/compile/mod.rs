//! Tools to parse and compile data used by the operational engine like dictionaries
pub mod info;
pub mod json;
pub mod readback;
pub mod translations;
pub mod tree;

use crate::dict::format::decode_commands;
use crate::dict::tree::{read_result, stroke_bytes, translation_bytes, walk, DataSource, RadixTreeDictionary, TranslationBuffer};
use crate::formatter::{CommandView, FormatterCommand, GenericFormatterCommand, OwnedFormatterCommand};
use crate::stroke::EnglishStroke;
use json::dict::{dict, spec_dict, strokes_of_values, CommandList, EntryView, Outline};
use json::stroke::stroke_of_value;
use translations::{storable, TranslationPointers};
use tree::{children_entries, inner_nodes_nonempty, leaf_entry, serializable, serialized_node, tree_entries, tree_lists, list_views, TreeNode};
use vstd::prelude::*;

verus! {

/// Reasons for which a dictionary cannot be compiled.
#[derive(Debug, PartialEq, Eq, Clone, Copy, Structural)]
pub enum CompileError {
    /// The input is not a JSON dictionary.
    InvalidDictionary,
    /// Two entries have the same outline.
    DuplicateOutline,
    /// A translation holds a text of 64 bytes or more, or takes 256 bytes or more in total.
    UnstorableTranslation,
    /// The dictionary has no entries.
    EmptyDictionary,
    /// A node has 255 children or more.
    TooManyChildren,
    /// A node has a prefix length of 255 or more.
    PrefixTooLong,
    /// A child's prefix does not have the length of its node's prefixes.
    MismatchingPrefix,
    /// A location does not fit into three bytes.
    LocationOutOfRange,
    /// A translation was not found among the stored translations.
    MissingTranslation,
    /// Reading an entry back from the compiled dictionary did not give its translation.
    VerificationFailed,
}

/// Key bytes of an outline given by the raw values of its strokes: three bytes per stroke.
pub open spec fn outline_key(values: Seq<u32>) -> Seq<u8>
    decreases values.len(),
{
    if values.len() == 0 {
        Seq::empty()
    } else {
        let v = values.last();
        outline_key(values.drop_last()) + seq![((v >> 16u32) & 0xff) as u8, ((v >> 8u32) & 0xff) as u8, (v & 0xff) as u8]
    }
}

/// Location of the root node stored in the first four bytes (big-endian).
pub open spec fn root_location(data: Seq<u8>) -> u32 {
    let start = read_result(seq![0u8, 0u8, 0u8, 0u8], data, 0);
    ((start[0] as u32) * 16777216 + crate::dict::tree::be24(start[1], start[2], start[3])) as u32
}

/// The table locates the encoding of the command list in the data, after the root location
/// and before `limit`.
pub open spec fn stored_at(data: Seq<u8>, table: Seq<(Seq<CommandView>, usize)>, list: Seq<CommandView>, limit: int) -> bool {
    let encoded = crate::dict::format::encode_commands(list);
    &&& translations::lookup(table, list) is Some
    &&& 4 <= translations::lookup(table, list)->0
    &&& translations::lookup(table, list)->0 + encoded.len() <= limit
    &&& data.subrange(
        translations::lookup(table, list)->0 as int,
        translations::lookup(table, list)->0 + encoded.len(),
    ) == encoded
}

/// Looking up the key (of an outline of `strokes` strokes) in the compiled dictionary finds
/// the commands after consuming the whole outline.
pub open spec fn readable_key(data: Seq<u8>, key: Seq<u8>, strokes: nat, commands: Seq<CommandView>) -> bool {
    let root = root_location(data);
    walk(data, root, root, key, 0, None) matches Some(found) && found.1 / 3 == strokes
        && decode_commands(translation_bytes(data, found.0 as int), 0) == Some(commands)
}

/// Reading the entry back from the compiled dictionary finds its translation after
/// consuming its whole outline.
pub open spec fn readable(data: Seq<u8>, entry: EntryView) -> bool {
    readable_key(data, outline_key(entry.0), entry.0.len(), entry.1)
}

/// After writing the root location into the first four bytes and appending after `root`,
/// the bytes from 4 to `root` are unchanged.
proof fn lemma_same_after_header(translated: Seq<u8>, header: Seq<u8>, data: Seq<u8>, root: int)
    requires
        4 <= root == translated.len() == header.len() <= data.len(),
        forall|j: int| 4 <= j < root ==> header[j] == translated[j],
        data.subrange(0, root) == header,
    ensures
        data.subrange(4, root) == translated.subrange(4, root),
        forall|o: int, n: int| 4 <= o && 0 <= n && o + n <= root ==> #[trigger] data.subrange(o, o + n) == translated.subrange(o, o + n),
{
    assert forall|j: int| 4 <= j < root implies data[j] == translated[j] by {
        assert(data.subrange(0, root)[j] == data[j]);
    }
    assert(data.subrange(4, root) =~= translated.subrange(4, root));
    assert forall|o: int, n: int| 4 <= o && 0 <= n && o + n <= root implies #[trigger] data.subrange(o, o + n) == translated.subrange(o, o + n) by {
        assert(data.subrange(o, o + n) =~= translated.subrange(o, o + n));
    }
}

/// The data holds the serialized tree at the root location, its translations being stored
/// where the table says.
pub open spec fn layout_with_table(tree: TreeNode, data: Seq<u8>, table: Seq<(Seq<CommandView>, usize)>) -> bool {
    let root = root_location(data) as int;
    &&& data.subrange(root, data.len() as int) == serialized_node(tree, root, table)
    &&& forall|l: Seq<CommandView>| tree_lists(tree).contains(l) ==> #[trigger] stored_at(data, table, l, root)
    &&& forall|l: Seq<CommandView>| tree_lists(tree).contains(l) ==> #[trigger] storable(l)
    &&& root < 0x100_0000
    &&& serializable(tree, root, table)
}

/// Layout of a compiled dictionary: the big-endian location of the root node, the distinct
/// translations of the tree, then the serialized tree.
pub open spec fn compiled_layout(tree: TreeNode, data: Seq<u8>) -> bool {
    let root = root_location(data) as int;
    &&& 4 <= root <= data.len()
    &&& data.subrange(4, root) == translations::distinct_encodings(tree_lists(tree), Set::empty())
    &&& exists|table: Seq<(Seq<CommandView>, usize)>| #[trigger] layout_with_table(tree, data, table)
}

/// Layout of the compiled dictionary: root location, translations, tree.
proof fn lemma_tree_layout(
    translated: Seq<u8>,
    header: Seq<u8>,
    data: Seq<u8>,
    root: int,
    tree: TreeNode,
    table: Seq<(Seq<CommandView>, usize)>,
    lists: Seq<Seq<CommandView>>,
)
    requires
        4 <= root == translated.len() == header.len() < 0x100_0000,
        header[0] == 0,
        header[1] == (root / 65536) as u8,
        header[2] == ((root / 256) % 256) as u8,
        header[3] == (root % 256) as u8,
        forall|j: int| 4 <= j < root ==> header[j] == translated[j],
        lists == tree_lists(tree),
        translated.subrange(4, root) == translations::distinct_encodings(lists, Set::empty()),
        forall|k: int| 0 <= k < lists.len() ==> #[trigger] stored_at(translated, table, lists[k], root),
        data == header + serialized_node(tree, root, table),
    ensures
        ({
            let r = root_location(data) as int;
            &&& 4 <= r <= data.len()
            &&& data.subrange(4, r) == translations::distinct_encodings(tree_lists(tree), Set::empty())
            &&& data.subrange(r, data.len() as int) == serialized_node(tree, r, table)
            &&& forall|l: Seq<CommandView>| tree_lists(tree).contains(l) ==> #[trigger] stored_at(data, table, l, r)
        }),
{
    assert(data.subrange(0, root) =~= header);
    lemma_same_after_header(translated, header, data, root);
    assert(root_location(data) == root) by {
        let start = read_result(seq![0u8, 0u8, 0u8, 0u8], data, 0);
        assert(start =~= data.subrange(0, 4));
        assert(data.subrange(0, 4) =~= header.subrange(0, 4));
    }
    assert(data.subrange(root, data.len() as int) =~= serialized_node(tree, root, table));
    assert forall|l: Seq<CommandView>| tree_lists(tree).contains(l) implies #[trigger] stored_at(data, table, l, root) by {
        let k = choose|k: int| 0 <= k < lists.len() && lists[k] == l;
        assert(stored_at(translated, table, lists[k], root));
    }
}

/// The tree fits the compiled format: the location of the root, after the translations of the
/// tree, fits three bytes, and the tree serializes there with any table that stores each of its
/// translations at a location of three bytes.
pub open spec fn compiled_fits(tree: TreeNode) -> bool {
    let root = 4 + translations::distinct_encodings(tree_lists(tree), Set::empty()).len();
    &&& root < 0x100_0000
    &&& forall|table: Seq<(Seq<CommandView>, usize)>|
        (forall|l: Seq<CommandView>| tree_lists(tree).contains(l) ==> #[trigger] tree::stored_in_range(table, l)) ==> #[trigger] serializable(
            tree,
            root as int,
            table,
        )
}

/// The entries with their outlines as key bytes.
pub open spec fn keyed_entries(entries: Seq<EntryView>) -> Seq<tree::EntryBytes> {
    entries.map_values(|e: EntryView| (outline_key(e.0), e.1))
}

/// The dictionary fits the compiled format: every tree built from its entries fits.
pub open spec fn dictionary_fits(entries: Seq<EntryView>) -> bool {
    forall|tree: TreeNode| #[trigger] tree::built_from(tree, keyed_entries(entries)) ==> compiled_fits(tree)
}

/// The format's limits: too many children, too long a prefix, too far a location.
pub open spec fn limit_error(e: CompileError) -> bool {
    e == CompileError::TooManyChildren || e == CompileError::PrefixTooLong || e == CompileError::LocationOutOfRange
}

/// Reads every entry back from the compiled dictionary and compares its translation.
fn check_readable(buffer: &Vec<u8>, entries: &Vec<(Outline, CommandList)>) -> (r: bool)
    requires
        forall|i: int| 0 <= i < entries@.len() ==> (#[trigger] entries@[i]).0@.len() * 3 <= usize::MAX,
    ensures
        r <==> forall|i: int| 0 <= i < entries@.len() ==> readable_key(
            buffer@,
            stroke_bytes((#[trigger] entries@[i]).0@),
            entries@[i].0@.len(),
            entries@[i].1@,
        ),
{
    let source = BufferedSource::new(buffer);
    let mut dictionary = match RadixTreeDictionary::new(source) {
        Ok(dictionary) => dictionary,
        Err(()) => return false,
    };
    let ghost root = root_location(buffer@);
    let mut i: usize = 0;
    while i < entries.len()
        invariant
            i <= entries@.len(),
            forall|k: int| 0 <= k < entries@.len() ==> (#[trigger] entries@[k]).0@.len() * 3 <= usize::MAX,
            dictionary.contents() == buffer@,
            dictionary.reliable(),
            dictionary.tree_start() == root_location(buffer@),
            forall|k: int| 0 <= k < i ==> readable_key(
                buffer@,
                stroke_bytes((#[trigger] entries@[k]).0@),
                entries@[k].0@.len(),
                entries@[k].1@,
            ),
        decreases entries@.len() - i,
    {
        let outline = &entries[i].0;
        let ghost key = stroke_bytes(outline@);
        let found = match dictionary.match_prefix(&outline.0) {
            Ok(Some(found)) => found,
            _ => {
                assert(!readable_key(buffer@, stroke_bytes(entries@[i as int].0@), entries@[i as int].0@.len(), entries@[i as int].1@));
                return false;
            },
        };
        let (stroke_count, translation) = found;
        let commands = match translation.commands() {
            Some(commands) => commands,
            None => {
                assert(!readable_key(buffer@, stroke_bytes(entries@[i as int].0@), entries@[i as int].0@.len(), entries@[i as int].1@));
                return false;
            },
        };
        if stroke_count != outline.len() || !same_commands(&commands, &entries[i].1) {
            proof {
                let data = buffer@;
                let found_view = walk(data, root, root, key, 0, None)->0;
                let decoded = decode_commands(translation.bytes(), 0)->0;
                assert(commands@.map_values(|c: FormatterCommand| c@) =~= decoded);
                assert(!readable_key(data, stroke_bytes(entries@[i as int].0@), entries@[i as int].0@.len(), entries@[i as int].1@));
            }
            return false;
        }
        proof {
            let data = buffer@;
            let found_view = walk(data, root_location(data), root_location(data), stroke_bytes(outline@), 0, None)->0;
            assert(translation.bytes() == translation_bytes(data, found_view.0 as int));
            let decoded = decode_commands(translation.bytes(), 0)->0;
            assert(commands@.map_values(|c: FormatterCommand| c@) =~= decoded);
        }
        i += 1;
    }
    true
}

proof fn lemma_outline_key(strokes: Seq<EnglishStroke>, values: Seq<u32>)
    requires
        strokes_of_values(strokes, values),
    ensures
        stroke_bytes(strokes) == outline_key(values),
    decreases strokes.len(),
{
    if strokes.len() > 0 {
        let init = strokes.drop_last();
        assert(strokes_of_values(init, values.drop_last())) by {
            assert forall|i: int| 0 <= i < init.len() implies stroke_of_value(#[trigger] init[i], values.drop_last()[i]) by {
                assert(init[i] == strokes[i]);
            }
        }
        lemma_outline_key(init, values.drop_last());
        assert(stroke_of_value(strokes[strokes.len() - 1], values[values.len() - 1]));
    }
}

/// In-memory data source for RadixTreeDictionary
pub struct BufferedSource<'b> {
    buffer: &'b Vec<u8>,
}

impl<'b> BufferedSource<'b> {
    pub fn new(buffer: &'b Vec<u8>) -> (r: Self)
        ensures
            r.contents() == buffer@,
            r.reliable(),
    {
        Self { buffer }
    }
}

impl<'b> DataSource for BufferedSource<'b> {
    type Error = ();

    closed spec fn contents(&self) -> Seq<u8> {
        self.buffer@
    }

    closed spec fn reliable(&self) -> bool {
        true
    }

    closed spec fn failed_with(&self) -> Option<()> {
        None
    }

    /// Copies the bytes at the location into the buffer; positions past the end of the data
    /// keep their value.
    fn read_exact(&mut self, location: u32, buffer: &mut [u8]) -> (r: Result<(), ()>) {
        let ghost initial = buffer@;
        let mut i: usize = 0;
        while i < buffer.len()
            invariant
                i <= buffer@.len() == initial.len(),
                forall|j: int| 0 <= j < i ==> buffer@[j] == read_result(initial, self.buffer@, location as int)[j],
                forall|j: int| i <= j < buffer@.len() ==> buffer@[j] == initial[j],
            decreases buffer@.len() - i,
        {
            if (location as usize) < self.buffer.len() && i < self.buffer.len() - location as usize {
                buffer[i] = self.buffer[location as usize + i];
            }
            i += 1;
        }
        assert(buffer@ =~= read_result(initial, self.buffer@, location as int));
        Ok(())
    }
}

/// Copies an outline.
fn copy_outline(outline: &Outline) -> (r: Outline)
    ensures
        r@ == outline@,
{
    let mut strokes: Vec<EnglishStroke> = Vec::new();
    let mut i: usize = 0;
    while i < outline.0.len()
        invariant
            i <= outline@.len(),
            strokes@ == outline@.take(i as int),
        decreases outline@.len() - i,
    {
        strokes.push(outline.0[i]);
        i += 1;
        assert(strokes@ =~= outline@.take(i as int));
    }
    assert(outline@.take(outline@.len() as int) =~= outline@);
    Outline(strokes)
}

/// The decoded command is the owned command.
fn same_command(read: &FormatterCommand, expected: &OwnedFormatterCommand) -> (r: bool)
    ensures
        r == (read@ == expected@),
{
    match (read, expected) {
        (GenericFormatterCommand::Write(a), GenericFormatterCommand::Write(b)) => {
            let owned: String = str::to_owned(*a);
            <String as PartialEq>::eq(&owned, b)
        },
        (GenericFormatterCommand::ChangeCapitalization(a), GenericFormatterCommand::ChangeCapitalization(b)) => *a == *b,
        (GenericFormatterCommand::ChangeAttachment(a), GenericFormatterCommand::ChangeAttachment(b)) => *a == *b,
        (GenericFormatterCommand::ResetFormatting, GenericFormatterCommand::ResetFormatting) => true,
        _ => false,
    }
}

/// The decoded commands are those of the list.
fn same_commands(read: &Vec<FormatterCommand>, expected: &CommandList) -> (r: bool)
    ensures
        r == (read@.map_values(|c: FormatterCommand| c@) == expected@),
{
    let ghost views = read@.map_values(|c: FormatterCommand| c@);
    if read.len() != expected.0.len() {
        assert(views.len() != expected@.len());
        return false;
    }
    let mut i: usize = 0;
    while i < read.len()
        invariant
            i <= read@.len() == expected.0@.len(),
            views == read@.map_values(|c: FormatterCommand| c@),
            forall|j: int| 0 <= j < i ==> views[j] == expected@[j],
        decreases read@.len() - i,
    {
        assert(views[i as int] == read@[i as int]@ && expected@[i as int] == expected.0@[i as int]@);
        if !same_command(&read[i], &expected.0[i]) {
            return false;
        }
        i += 1;
    }
    assert(views =~= expected@);
    true
}

pub struct Compiler;

/// Some entry's translation cannot be stored exactly when some translation of the tree holding
/// the entries cannot.
proof fn lemma_unstorable_entries(tree: TreeNode, views: Seq<EntryView>)
    requires
        tree_entries(tree) == views.map_values(|e: EntryView| (outline_key(e.0), e.1)).to_set(),
    ensures
        (exists|i: int| 0 <= i < views.len() && !storable(#[trigger] views[i].1)) <==> (exists|i: int|
            0 <= i < tree_lists(tree).len() && !storable(#[trigger] tree_lists(tree)[i])),
{
    let mapped = views.map_values(|e: EntryView| (outline_key(e.0), e.1));
    if exists|i: int| 0 <= i < views.len() && !storable(#[trigger] views[i].1) {
        let i = choose|i: int| 0 <= i < views.len() && !storable(#[trigger] views[i].1);
        let l = views[i].1;
        assert(mapped[i] == (outline_key(views[i].0), l));
        assert(mapped.to_set().contains(mapped[i]));
        assert(tree_entries(tree).contains((outline_key(views[i].0), l)));
        tree::lemma_lists_of_entries(tree, l);
        let j = choose|j: int| 0 <= j < tree_lists(tree).len() && tree_lists(tree)[j] == l;
        assert(!storable(tree_lists(tree)[j]));
    }
    if exists|i: int| 0 <= i < tree_lists(tree).len() && !storable(#[trigger] tree_lists(tree)[i]) {
        let i = choose|i: int| 0 <= i < tree_lists(tree).len() && !storable(#[trigger] tree_lists(tree)[i]);
        let l = tree_lists(tree)[i];
        assert(tree_lists(tree).contains(l));
        tree::lemma_lists_of_entries(tree, l);
        let k = choose|k: Seq<u8>| #[trigger] tree_entries(tree).contains((k, l));
        assert(mapped.to_set().contains((k, l)));
        let j = choose|j: int| 0 <= j < mapped.len() && mapped[j] == (k, l);
        assert(views[j].1 == l);
    }
}

impl Compiler {
    /// Serializes the translations of the tree, then the tree, after the location of its root.
    #[verifier::spinoff_prover]
    fn serialize_tree(tree: &TreeNode) -> (r: Result<Vec<u8>, CompileError>)
        ensures
            r matches Err(e) ==> e != CompileError::InvalidDictionary && e != CompileError::DuplicateOutline
                && e != CompileError::VerificationFailed,
            r matches Ok(buffer) ==> compiled_layout(*tree, buffer@),
            tree.children@.len() == 0 && tree_lists(*tree).len() == 0 ==> r == Err::<Vec<u8>, CompileError>(CompileError::EmptyDictionary),
            r == Err::<Vec<u8>, CompileError>(CompileError::UnstorableTranslation) <==> exists|i: int|
                0 <= i < tree_lists(*tree).len() && !storable(#[trigger] tree_lists(*tree)[i]),
            r == Err::<Vec<u8>, CompileError>(CompileError::EmptyDictionary) ==> tree.children@.len() == 0 || !inner_nodes_nonempty(*tree),
            tree::uniform_prefixes(*tree) ==> r != Err::<Vec<u8>, CompileError>(CompileError::MismatchingPrefix),
            r != Err::<Vec<u8>, CompileError>(CompileError::MissingTranslation),
            compiled_fits(*tree) && (forall|i: int| 0 <= i < tree_lists(*tree).len() ==> storable(#[trigger] tree_lists(*tree)[i]))
                ==> r is Ok,
            r matches Err(e) && limit_error(e) ==> !compiled_fits(*tree),
    {
        // 3. Serialize the translations into the buffer and build a list of pointers
        let mut buffer: Vec<u8> = vec![0, 0, 0, 0];
        let lists = tree.command_lists();
        assert(list_views(lists@).len() == lists@.len());
        let mut l: usize = 0;
        while l < lists.len()
            invariant
                l <= lists@.len(),
                lists@.len() == tree_lists(*tree).len(),
                list_views(lists@) == tree_lists(*tree),
                forall|i: int| 0 <= i < l ==> storable((#[trigger] lists@[i])@),
            decreases lists@.len() - l,
        {
            if !lists[l].is_storable() {
                assert(list_views(lists@)[l as int] == lists@[l as int]@);
                assert(!storable(tree_lists(*tree)[l as int]));
                return Err(CompileError::UnstorableTranslation);
            }
            l += 1;
        }
        let ghost list_seq = list_views(lists@);
        let ghost list_refs = lists@;
        assert forall|i: int| 0 <= i < tree_lists(*tree).len() implies storable(#[trigger] tree_lists(*tree)[i]) by {
            assert(list_views(lists@)[i] == lists@[i]@);
        }
        let translations = TranslationPointers::new_by_serializing_into(&mut buffer, lists);
        let ghost translated = buffer@;
        proof {
            assert(list_seq == tree_lists(*tree));
            assert(list_refs.map_values(|e: &CommandList| e@) =~= list_seq);
        }

        // 4. Inject the starting location of the tree into the buffer
        let root = buffer.len();
        proof {
            assert(root == 4 + translations::distinct_encodings(tree_lists(*tree), Set::empty()).len());
        }
        if root >= 0x100_0000 {
            return Err(CompileError::LocationOutOfRange);
        }
        buffer.set(0, 0);
        buffer.set(1, (root / 65536) as u8);
        buffer.set(2, ((root / 256) % 256) as u8);
        buffer.set(3, (root % 256) as u8);

        // 5. Serialize the tree into the buffer
        let ghost header = buffer@;
        match tree.try_serialize_into_buffer(&mut buffer, &translations) {
            Ok(()) => {},
            Err(e) => {
                proof {
                    assert forall|l: Seq<CommandView>| tree_lists(*tree).contains(l) implies #[trigger] translations::lookup(
                        translations@,
                        l,
                    ) is Some by {
                        let k = choose|k: int| 0 <= k < list_seq.len() && list_seq[k] == l;
                        assert(list_seq[k] == list_refs[k]@);
                        assert(stored_at(translated, translations@, list_seq[k], root as int));
                    }
                    assert forall|l: Seq<CommandView>| tree_lists(*tree).contains(l) implies #[trigger] tree::stored_in_range(
                        translations@,
                        l,
                    ) by {
                        let k = choose|k: int| 0 <= k < list_seq.len() && list_seq[k] == l;
                        assert(list_seq[k] == list_refs[k]@);
                        assert(stored_at(translated, translations@, list_seq[k], root as int));
                    }
                    if compiled_fits(*tree) {
                        assert(serializable(*tree, root as int, translations@));
                    }
                }
                return Err(e);
            },
        }
        proof {
            assert forall|k: int| 0 <= k < list_seq.len() implies #[trigger] stored_at(translated, translations@, list_seq[k], root as int) by {
                assert(list_seq[k] == list_refs[k]@);
            }
            assert(translated.subrange(4, root as int) =~= translations::distinct_encodings(list_seq, Set::empty()));
            lemma_tree_layout(translated, header, buffer@, root as int, *tree, translations@, list_seq);
            let rr = root_location(buffer@) as int;
            assert(4 <= rr <= buffer@.len());
            assert(buffer@.subrange(4, rr) == translations::distinct_encodings(tree_lists(*tree), Set::empty()));
            assert(buffer@.subrange(rr, buffer@.len() as int) == serialized_node(*tree, rr, translations@));
            assert(forall|l: Seq<CommandView>| tree_lists(*tree).contains(l) ==> #[trigger] stored_at(buffer@, translations@, l, rr));
            assert forall|l: Seq<CommandView>| tree_lists(*tree).contains(l) implies #[trigger] storable(l) by {
                let k = choose|k: int| 0 <= k < tree_lists(*tree).len() && tree_lists(*tree)[k] == l;
                assert(storable(tree_lists(*tree)[k]));
            }
            assert(layout_with_table(*tree, buffer@, translations@));
            assert(compiled_layout(*tree, buffer@));
        }
        Ok(buffer)
    }

    /// Builds a compiled tree from a JSON dictionary that is valid, not empty, without repeated
    /// outlines, with translations that can be stored, and whose tree fits the format. Returns
    /// the raw tree and the compiled version, from which every entry reads back.
    /// [`try_compile_from_json`](Compiler::try_compile_from_json) says why a dictionary is not
    /// one of these.
    pub fn compile_from_json(json: &str) -> (r: (TreeNode, Vec<u8>))
        requires
            json@.len() <= usize::MAX / 3,
            spec_dict(json@) matches Some(entries) && entries.len() > 0 && (forall|i: int, j: int|
                0 <= i < j < entries.len() ==> outline_key(entries[i].0) != outline_key(entries[j].0)) && (forall|i: int|
                0 <= i < entries.len() ==> storable(#[trigger] entries[i].1)) && dictionary_fits(entries),
        ensures
            ({
                let (tree, buffer) = r;
                let entries = spec_dict(json@)->0;
                &&& tree_entries(tree) == entries.map_values(|e: EntryView| (outline_key(e.0), e.1)).to_set()
                &&& compiled_layout(tree, buffer@)
                &&& readback::searchable_node(tree)
                &&& info::tree_fits(tree)
                &&& forall|i: int| 0 <= i < entries.len() ==> readable(buffer@, #[trigger] entries[i])
            }),
    {
        match Self::try_compile_from_json(json) {
            Ok(compiled) => compiled,
            Err(_) => {
                assert(false);
                (TreeNode { children: Vec::new(), leaf_data: None, prefix_length: 0 }, Vec::new())
            },
        }
    }

    /// Builds a compiled tree from a JSON dictionary. Returns the raw tree and the compiled
    /// version, after checking that every entry reads back from the compiled version with
    /// its translation.
    ///
    /// Fails on invalid JSON, on repeated outlines, on an empty dictionary, on translations
    /// that cannot be stored, and when the tree does not fit the format's limits. An outline
    /// may be the beginning of another one. A dictionary whose tree fits the format compiles.
    #[verifier::spinoff_prover]
    #[verifier::rlimit(40)]
    pub fn try_compile_from_json(json: &str) -> (r: Result<(TreeNode, Vec<u8>), CompileError>)
        requires
            json@.len() <= usize::MAX / 3,
        ensures
            spec_dict(json@) is None <==> r == Err::<(TreeNode, Vec<u8>), CompileError>(CompileError::InvalidDictionary),
            r == Err::<(TreeNode, Vec<u8>), CompileError>(CompileError::EmptyDictionary) <==> (spec_dict(json@) matches Some(
                entries) && entries.len() == 0),
            r == Err::<(TreeNode, Vec<u8>), CompileError>(CompileError::UnstorableTranslation) <==> (spec_dict(json@) matches Some(
                entries) && (forall|i: int, j: int| 0 <= i < j < entries.len() ==> outline_key(entries[i].0) != outline_key(entries[j].0))
                && exists|i: int| 0 <= i < entries.len() && !storable(#[trigger] entries[i].1)),
            r == Err::<(TreeNode, Vec<u8>), CompileError>(CompileError::DuplicateOutline) <==> spec_dict(json@) is Some
                && exists|i: int, j: int|
                0 <= i < j < spec_dict(json@)->0.len() && outline_key(spec_dict(json@)->0[i].0) == outline_key(
                    spec_dict(json@)->0[j].0,
                ),
            r != Err::<(TreeNode, Vec<u8>), CompileError>(CompileError::MismatchingPrefix),
            r != Err::<(TreeNode, Vec<u8>), CompileError>(CompileError::MissingTranslation),
            r != Err::<(TreeNode, Vec<u8>), CompileError>(CompileError::VerificationFailed),
            (r matches Err(e) && limit_error(e)) ==> (spec_dict(json@) matches Some(entries) && !dictionary_fits(entries)),
            (spec_dict(json@) matches Some(entries) && entries.len() > 0 && (forall|i: int, j: int|
                0 <= i < j < entries.len() ==> outline_key(entries[i].0) != outline_key(entries[j].0)) && (forall|i: int|
                0 <= i < entries.len() ==> storable(#[trigger] entries[i].1)) && dictionary_fits(entries)) ==> r is Ok,
            r matches Ok((tree, buffer)) ==> {
                let entries = spec_dict(json@)->0;
                &&& tree_entries(tree) == entries.map_values(|e: EntryView| (outline_key(e.0), e.1)).to_set()
                &&& compiled_layout(tree, buffer@)
                &&& readback::searchable_node(tree)
                &&& info::tree_fits(tree)
                &&& forall|i: int| 0 <= i < entries.len() ==> readable(buffer@, #[trigger] entries[i])
            },
    {
        // 1. Parse the dictionary
        let entries = match dict(json) {
            Some(entries) => entries,
            None => return Err(CompileError::InvalidDictionary),
        };
        let ghost views = spec_dict(json@)->0;
        proof {
            lemma_outline_lengths(json@);
        }

        // 2. Create a tree data structure
        let mut copies: Vec<(Outline, CommandList)> = Vec::new();
        let mut k: usize = 0;
        while k < entries.len()
            invariant
                k <= entries@.len(),
                copies@.len() == k,
                spec_dict(json@) is Some,
                forall|i: int| 0 <= i < k ==> (#[trigger] copies@[i]).0@ == entries@[i].0@ && copies@[i].1@ == entries@[i].1@,
            decreases entries@.len() - k,
        {
            copies.push((copy_outline(&entries[k].0), entries[k].1.duplicate()));
            k += 1;
        }
        proof {
            assert forall|i: int| 0 <= i < copies@.len() implies (#[trigger] copies@[i]).0@.len() * 3 <= usize::MAX by {
                assert(copies@[i].0@.len() == entries@[i].0@.len());
            }
        }
        let ghost copied = copies@;
        let tree = match TreeNode::try_new(copies) {
            Ok(tree) => tree,
            Err(e) => {
                proof {
                    let (i, j) = choose|i: int, j: int| 0 <= i < j < copied.len() && stroke_bytes(copied[i].0@) == stroke_bytes(copied[j].0@);
                    lemma_outline_key(entries@[i].0@, views[i].0);
                    lemma_outline_key(entries@[j].0@, views[j].0);
                }
                return Err(e);
            },
        };
        proof {
            let left = copied.map_values(|e: (Outline, CommandList)| (stroke_bytes(e.0@), e.1@));
            let right = views.map_values(|e: EntryView| (outline_key(e.0), e.1));
            assert forall|i: int| 0 <= i < views.len() implies left[i] == right[i] by {
                lemma_outline_key(entries@[i].0@, views[i].0);
            }
            assert(left =~= right);
            assert forall|i: int, j: int| 0 <= i < j < views.len() implies outline_key(views[i].0) != outline_key(views[j].0) by {
                lemma_outline_key(entries@[i].0@, views[i].0);
                lemma_outline_key(entries@[j].0@, views[j].0);
                assert(copied[i].0@ == entries@[i].0@);
                assert(copied[j].0@ == entries@[j].0@);
            }
        }

        // 3. Serialize the translations and the tree into a buffer
        proof {
            if views.len() == 0 {
                assert(tree_lists(tree) =~= Seq::<Seq<CommandView>>::empty());
            }
            lemma_unstorable_entries(tree, views);
        }
        let buffer = match Self::serialize_tree(&tree) {
            Ok(buffer) => buffer,
            Err(e) => {
                proof {
                    if limit_error(e) {
                        assert(keyed_entries(views) == copied.map_values(|e: (Outline, CommandList)| (stroke_bytes(e.0@), e.1@)));
                        assert(tree::built_from(tree, keyed_entries(views)));
                    }
                    if e == CompileError::EmptyDictionary && views.len() > 0 {
                        let key = outline_key(views[0].0);
                        assert(key.len() > 0);
                        let right = views.map_values(|e: EntryView| (outline_key(e.0), e.1));
                        assert(right[0] == (key, views[0].1));
                        assert(tree_entries(tree).contains((key, views[0].1)));
                        assert(children_entries(tree.children@) =~= Set::<tree::EntryBytes>::empty());
                    }
                }
                return Err(e);
            },
        };

        // 6. Verify that all the entries are readable and return the correct translation
        if !check_readable(&buffer, &entries) {
            proof {
                {
                    assert forall|i: int| 0 <= i < views.len() implies stroke_bytes((#[trigger] copied[i]).0@) == outline_key(views[i].0)
                        && copied[i].0@.len() == views[i].0.len() >= 1 by {
                        lemma_outline_key(entries@[i].0@, views[i].0);
                        assert(copied[i].0@ == entries@[i].0@);
                    }
                    lemma_entries_readable(tree, buffer@, copied, views);
                    assert forall|i: int| 0 <= i < entries@.len() implies readable_key(
                        buffer@,
                        stroke_bytes((#[trigger] entries@[i]).0@),
                        entries@[i].0@.len(),
                        entries@[i].1@,
                    ) by {
                        assert(copied[i].0@ == entries@[i].0@ && copied[i].1@ == entries@[i].1@);
                    }
                }
            }
            return Err(CompileError::VerificationFailed);
        }
        proof {
            assert forall|i: int| 0 <= i < views.len() implies readable(buffer@, #[trigger] views[i]) by {
                lemma_outline_key(entries@[i].0@, views[i].0);
                assert(entries@[i].0@.len() == views[i].0.len());
            }
        }
        let room = buffer.len();
        proof {
            lemma_compiled_tree_fits(tree, buffer@, room as nat);
        }
        Ok((tree, buffer))
    }
}

/// What the compiler writes, the lookup reads back. Over compiled data from which an entry is
/// readable, with the tree starting at the root location that the data's first four bytes
/// give, a lookup of the entry's strokes whose result agrees with the walk of the tree matches
/// the whole outline, and its translation holds the entry's commands.
pub proof fn lemma_compiled_lookup(
    data: Seq<u8>,
    entry: EntryView,
    strokes: Seq<EnglishStroke>,
    tree_start: u32,
    found: Option<(usize, TranslationBuffer)>,
)
    requires
        readable(data, entry),
        strokes_of_values(strokes, entry.0),
        tree_start == root_location(data),
        match walk(data, tree_start, tree_start, stroke_bytes(strokes), 0, None) {
            Some(v) => found matches Some(result) && result.0 == v.1 / 3 && result.1.bytes() == translation_bytes(
                data,
                v.0 as int,
            ),
            None => found is None,
        },
    ensures
        found matches Some(result) && result.0 == strokes.len() && result.1.is_valid() && result.1.commands_view()
            == entry.1,
{
    lemma_outline_key(strokes, entry.0);
}

/// The statistics of a compiled tree fit into machine integers: its serialization and its
/// distinct translations both lie in the compiled data.
proof fn lemma_compiled_tree_fits(tree: TreeNode, data: Seq<u8>, room: nat)
    requires
        compiled_layout(tree, data),
        data.len() == room,
        room <= usize::MAX,
    ensures
        info::tree_fits(tree),
{
    let root = root_location(data) as int;
    let table = choose|table: Seq<(Seq<CommandView>, usize)>| #[trigger] layout_with_table(tree, data, table);
    assert(layout_with_table(tree, data, table));
    readback::lemma_node_len(tree, root, table);
    assert(data.subrange(root, data.len() as int).len() == data.len() - root);
    assert(data.subrange(4, root).len() == root - 4);
    info::lemma_tree_fits(tree, room);
}

/// Three bytes per stroke.
proof fn lemma_stroke_bytes_len(strokes: Seq<EnglishStroke>)
    ensures
        stroke_bytes(strokes).len() == 3 * strokes.len(),
    decreases strokes.len(),
{
    if strokes.len() > 0 {
        lemma_stroke_bytes_len(strokes.drop_last());
    }
}

/// Every entry of a searchable tree reads back from the compiled layout of that tree.
proof fn lemma_entries_readable(tree: TreeNode, data: Seq<u8>, copied: Seq<(Outline, CommandList)>, views: Seq<EntryView>)
    requires
        compiled_layout(tree, data),
        tree_entries(tree) == copied.map_values(|e: (Outline, CommandList)| (stroke_bytes(e.0@), e.1@)).to_set(),
        readback::searchable_node(tree),
        copied.len() == views.len(),
        forall|i: int| 0 <= i < views.len() ==> stroke_bytes((#[trigger] copied[i]).0@) == outline_key(views[i].0),
        forall|i: int| 0 <= i < views.len() ==> (#[trigger] copied[i]).0@.len() == views[i].0.len() >= 1,
    ensures
        forall|i: int| 0 <= i < copied.len() ==> readable_key(
            data,
            stroke_bytes((#[trigger] copied[i]).0@),
            copied[i].0@.len(),
            copied[i].1@,
        ),
{
    assert forall|i: int| 0 <= i < copied.len() implies readable_key(
        data,
        stroke_bytes((#[trigger] copied[i]).0@),
        copied[i].0@.len(),
        copied[i].1@,
    ) by {
        let key = stroke_bytes(copied[i].0@);
        let list = copied[i].1@;
        assert(copied.map_values(|e: (Outline, CommandList)| (stroke_bytes(e.0@), e.1@))[i] == (key, list));
        assert(tree_entries(tree).contains((key, list)));
        readback::lemma_entries_read_back(tree, data, key, list);
        lemma_stroke_bytes_len(copied[i].0@);
    }
}

proof fn lemma_outline_strokes_count(input: Seq<char>, pos: int)
    requires
        0 <= pos <= input.len(),
    ensures
        json::dict::spec_outline_strokes(input, pos).0.len() <= json::dict::spec_outline_strokes(input, pos).1 - pos + 1,
    decreases input.len() - pos,
{
    json::dict::lemma_raw_stroke_bounds(input, pos);
    let first = json::stroke::spec_raw_stroke(input, pos);
    if json::dict::char_at(input, first.1, '/') {
        lemma_outline_strokes_count(input, first.1 + 1);
    }
}

proof fn lemma_entries_outline_lengths(input: Seq<char>, pos: int)
    requires
        0 <= pos <= input.len(),
    ensures
        json::dict::spec_entries(input, pos) matches Some(entries) ==> forall|i: int| 0 <= i < entries.len() ==> 1 <= (
        #[trigger] entries[i]).0.len() <= input.len(),
    decreases input.len() - pos,
{
    json::dict::lemma_line_bounds(input, pos);
    if let json::dict::ParseOutcome::Match(entry, next) = json::dict::spec_line(input, pos) {
        let start = if json::dict::char_at(input, pos, ',') {
            json::dict::skip_spaces(input, pos + 1)
        } else {
            pos
        };
        json::dict::lemma_skip_spaces_bounds(input, pos + 1);
        lemma_outline_strokes_count(input, start + 1);
        lemma_entries_outline_lengths(input, next);
        if let Some(rest) = json::dict::spec_entries(input, next) {
            let all = seq![entry] + rest;
            assert forall|i: int| 0 <= i < all.len() implies 1 <= (#[trigger] all[i]).0.len() <= input.len() by {
                if i > 0 {
                    assert(all[i] == rest[i - 1]);
                }
            }
        }
    }
}

proof fn lemma_outline_lengths(input: Seq<char>)
    ensures
        spec_dict(input) matches Some(entries) ==> forall|i: int| 0 <= i < entries.len() ==> 1 <= (#[trigger] entries[i]).0.len() <= input.len(),
{
    if json::dict::char_at(input, 0, json::dict::OPEN_BRACE) {
        json::dict::lemma_skip_spaces_bounds(input, 1);
        lemma_entries_outline_lengths(input, json::dict::skip_spaces(input, 1));
    }
}

} // verus!
