//! Reading a compiled radix tree dictionary.
//!
//! The data starts with the big-endian location of the root node. Translations (command lists,
//! see [`format`](super::format)) precede the tree. A node consists of a header (child count minus
//! one, prefix length, 24-bit translation location or zero), the prefix array (one prefix of
//! `prefix length` bytes per child) and the pointer array (one 24-bit location per child). A child
//! location at or after the root node is a node, anything before it is a translation.
use super::format::{decode_command, decode_commands, Decoded, TRANSLATION_SIZE_LIMIT};
use crate::formatter::{CommandView, FormatterCommand, GenericFormatterCommand};
use crate::formatter::{AttachmentMode, CapitalizationMode};
use crate::stroke::EnglishStroke;
use crate::text::str_from_utf8;
use vstd::prelude::*;

verus! {

/// Size of a node header.
pub const NODE_HEADER_SIZE: usize = 5;

/// Maximum length of the child prefix array stored in the radix tree node
pub const PREFIX_ARRAY_SIZE_LIMIT: usize = 256;

/// Bytes of `buffer` after reading from `data` at `location`: positions that exist in `data`
/// are copied, the remaining ones keep their previous value.
pub open spec fn read_result(buffer: Seq<u8>, data: Seq<u8>, location: int) -> Seq<u8> {
    Seq::new(buffer.len(), |i: int| if location + i < data.len() { data[location + i] } else { buffer[i] })
}

/// Byte source holding a compiled dictionary.
pub trait DataSource {
    type Error;

    /// Bytes provided by the source.
    spec fn contents(&self) -> Seq<u8>;

    /// Reading from the source never fails.
    spec fn reliable(&self) -> bool;

    /// Error with which the last failed read failed.
    spec fn failed_with(&self) -> Option<Self::Error>;

    /// Fills `buffer` with the bytes at `location`; bytes past the end of the contents are left untouched.
    fn read_exact(&mut self, location: u32, buffer: &mut [u8]) -> (r: Result<(), Self::Error>)
        ensures
            final(self).contents() == old(self).contents(),
            final(self).reliable() == old(self).reliable(),
            final(buffer)@.len() == old(buffer)@.len(),
            r is Ok ==> final(buffer)@ == read_result(old(buffer)@, old(self).contents(), location as int),
            old(self).reliable() ==> r is Ok,
            r matches Err(e) ==> final(self).failed_with() == Some(e),
    ;
}

/// Big-endian value of three bytes.
pub open spec fn be24(a: u8, b: u8, c: u8) -> u32 {
    ((a as int) * 65536 + (b as int) * 256 + (c as int)) as u32
}

/// Bytes of the node header and prefix array read at `location`.
pub open spec fn node_bytes(data: Seq<u8>, location: int) -> Seq<u8> {
    read_result(Seq::new((NODE_HEADER_SIZE + PREFIX_ARRAY_SIZE_LIMIT) as nat, |i: int| 0u8), data, location)
}

/// Number of children of a node.
pub open spec fn child_count(node: Seq<u8>) -> int {
    node[0] + 1
}

/// Length of the prefixes of the children of a node.
pub open spec fn prefix_length(node: Seq<u8>) -> int {
    node[1] as int
}

/// Location of the translation of a node (zero if there is none).
pub open spec fn translation_pointer(node: Seq<u8>) -> u32 {
    be24(node[2], node[3], node[4])
}

/// Prefix of the child with the given index.
pub open spec fn child_prefix(node: Seq<u8>, index: int) -> Seq<u8> {
    node.subrange(
        NODE_HEADER_SIZE + index * prefix_length(node),
        NODE_HEADER_SIZE + (index + 1) * prefix_length(node),
    )
}

/// The prefixes of the node can be searched: they are non-empty and fit into the prefix array.
pub open spec fn searchable(node: Seq<u8>) -> bool {
    prefix_length(node) > 0 && prefix_length(node) * child_count(node) <= PREFIX_ARRAY_SIZE_LIMIT
}

/// First child whose prefix equals the beginning of `input`, searching from `from`.
pub open spec fn find_child_from(node: Seq<u8>, input: Seq<u8>, from: int) -> Option<int>
    decreases child_count(node) - from,
{
    if from < 0 || from >= child_count(node) {
        None
    } else if child_prefix(node, from) == input.subrange(0, prefix_length(node)) {
        Some(from)
    } else {
        find_child_from(node, input, from + 1)
    }
}

/// Child of the node matching the beginning of `input`, if any.
pub open spec fn spec_find_child(node: Seq<u8>, input: Seq<u8>) -> Option<int> {
    if !searchable(node) || input.len() < prefix_length(node) {
        None
    } else {
        find_child_from(node, input, 0)
    }
}

/// Location of the pointer to the child with the given index.
pub open spec fn child_pointer_location(location: int, node: Seq<u8>, index: int) -> int {
    location + NODE_HEADER_SIZE + prefix_length(node) * child_count(node) + index * 3
}

/// Pointer to the child with the given index.
pub open spec fn child_pointer(data: Seq<u8>, location: int, node: Seq<u8>, index: int) -> u32 {
    let bytes = read_result(seq![0u8, 0u8, 0u8], data, child_pointer_location(location, node, index));
    be24(bytes[0], bytes[1], bytes[2])
}

/// Translation found while walking down the tree.
#[derive(Clone, Copy)]
pub struct Match {
    /// Location of the translation for the matched prefix
    pub translation_pointer: u32,
    /// Length of matched prefix in bytes
    pub prefix_len: usize,
}

/// Mathematical form of a match: translation location and prefix length.
pub type MatchView = (u32, nat);

pub open spec fn match_view(m: Option<Match>) -> Option<MatchView> {
    match m {
        Some(m) => Some((m.translation_pointer, m.prefix_len as nat)),
        None => None,
    }
}

/// Result of walking down the tree from the node at `location` with the remaining `input`,
/// having consumed `consumed` bytes so far and found `latest` as the longest match.
pub open spec fn walk(
    data: Seq<u8>,
    tree_start: u32,
    location: u32,
    input: Seq<u8>,
    consumed: nat,
    latest: Option<MatchView>,
) -> Option<MatchView>
    decreases input.len(),
{
    let node = node_bytes(data, location as int);
    let latest = if translation_pointer(node) != 0 {
        Some((translation_pointer(node), consumed))
    } else {
        latest
    };
    if input.len() == 0 {
        latest
    } else {
        match spec_find_child(node, input) {
            None => latest,
            Some(index) => {
                let pointer_location = child_pointer_location(location as int, node, index);
                if pointer_location + 3 > u32::MAX {
                    latest
                } else {
                    let pointer = child_pointer(data, location as int, node, index);
                    let consumed = consumed + prefix_length(node) as nat;
                    if pointer >= tree_start {
                        walk(data, tree_start, pointer, input.skip(prefix_length(node)), consumed, latest)
                    } else {
                        Some((pointer, consumed))
                    }
                }
            },
        }
    }
}

/// Bytes of the keys of an outline: three bytes per stroke.
pub open spec fn stroke_bytes(strokes: Seq<EnglishStroke>) -> Seq<u8>
    decreases strokes.len(),
{
    if strokes.len() == 0 {
        Seq::empty()
    } else {
        stroke_bytes(strokes.drop_last()) + seq![
            strokes.last().0[0],
            strokes.last().0[1],
            strokes.last().0[2],
        ]
    }
}

/// Bytes of the keys of an outline.
pub fn strokes_into_bytes(strokes: &Vec<EnglishStroke>) -> (r: Vec<u8>)
    requires
        strokes@.len() * 3 <= usize::MAX,
    ensures
        r@ == stroke_bytes(strokes@),
{
    let mut stroke_data: Vec<u8> = Vec::new();
    let mut i: usize = 0;
    while i < strokes.len()
        invariant
            i <= strokes@.len(),
            stroke_data@ == stroke_bytes(strokes@.subrange(0, i as int)),
        decreases strokes.len() - i,
    {
        let bytes = strokes[i].into_bytes();
        stroke_data.push(bytes[0]);
        stroke_data.push(bytes[1]);
        stroke_data.push(bytes[2]);
        proof {
            let next = strokes@.subrange(0, i + 1);
            assert(next.drop_last() =~= strokes@.subrange(0, i as int));
        }
        i += 1;
    }
    assert(strokes@.subrange(0, strokes@.len() as int) =~= strokes@);
    stroke_data
}

/// Serialized translation read at `location`.
pub open spec fn translation_bytes(data: Seq<u8>, location: int) -> Seq<u8> {
    read_result(Seq::new(TRANSLATION_SIZE_LIMIT as nat, |i: int| 0u8), data, location)
}

/// Radix tree dictionary stored in a data source.
pub struct RadixTreeDictionary<D: DataSource> {
    tree_start: u32,
    source: D,
}

/// Node header and prefix array read from the data source.
pub struct Node {
    location: u32,
    buffer: Vec<u8>,
}

impl Node {
    pub closed spec fn spec_location(&self) -> u32 {
        self.location
    }

    pub closed spec fn bytes(&self) -> Seq<u8> {
        self.buffer@
    }

    pub closed spec fn wf(&self) -> bool {
        self.buffer@.len() == NODE_HEADER_SIZE + PREFIX_ARRAY_SIZE_LIMIT
    }

    /// Location of the pointer array, if it is addressable.
    fn pointer_array_location(&self) -> (r: Option<u32>)
        requires
            self.wf(),
        ensures
            match r {
                Some(l) => l == child_pointer_location(self.location as int, self.bytes(), 0),
                None => child_pointer_location(self.location as int, self.bytes(), 0) > u32::MAX,
            },
    {
        let pl = self.prefix_length() as u64;
        let cc = self.child_count() as u64;
        assert(pl * cc <= 255 * 256) by (nonlinear_arith)
            requires
                pl <= 255,
                cc <= 256,
        ;
        let offset: u64 = NODE_HEADER_SIZE as u64 + pl * cc;
        let location = self.location as u64 + offset;
        if location > u32::MAX as u64 {
            None
        } else {
            Some(location as u32)
        }
    }

    /// Number of child nodes
    fn child_count(&self) -> (r: usize)
        requires
            self.wf(),
        ensures
            r == child_count(self.bytes()),
    {
        self.buffer[0] as usize + 1
    }

    /// Length of the prefix consumed by this node
    fn prefix_length(&self) -> (r: usize)
        requires
            self.wf(),
        ensures
            r == prefix_length(self.bytes()),
    {
        self.buffer[1] as usize
    }

    /// Location of the translation for this node
    fn translation_pointer(&self) -> (r: Option<u32>)
        requires
            self.wf(),
        ensures
            translation_pointer(self.bytes()) == 0 ==> r is None,
            translation_pointer(self.bytes()) != 0 ==> r == Some(translation_pointer(self.bytes())),
    {
        let pointer = (self.buffer[2] as u32) * 65536 + (self.buffer[3] as u32) * 256 + (self.buffer[4] as u32);
        if pointer == 0 {
            None
        } else {
            Some(pointer)
        }
    }

    /// Slice holding the prefix array.
    fn prefix_array(&self) -> (r: &[u8])
        requires
            self.wf(),
            searchable(self.bytes()),
        ensures
            r@ == self.bytes().subrange(
                NODE_HEADER_SIZE as int,
                NODE_HEADER_SIZE + prefix_length(self.bytes()) * child_count(self.bytes()),
            ),
    {
        let array_len = self.prefix_length() * self.child_count();
        &self.buffer.as_slice()[NODE_HEADER_SIZE..NODE_HEADER_SIZE + array_len]
    }

    /// Locates a child whose prefix equals the beginning of the input. Returns `None` if there is
    /// none, if the input is shorter than the prefixes, or if the node cannot be searched.
    fn find_child(&self, input: &[u8]) -> (r: Option<usize>)
        requires
            self.wf(),
        ensures
            match r {
                Some(i) => spec_find_child(self.bytes(), input@) == Some(i as int) && i < child_count(self.bytes()),
                None => spec_find_child(self.bytes(), input@) is None,
            },
    {
        let pl = self.prefix_length();
        let cc = self.child_count();
        assert(pl * cc <= 255 * 256) by (nonlinear_arith)
            requires
                pl <= 255,
                cc <= 256,
        ;
        if pl == 0 || pl * cc > PREFIX_ARRAY_SIZE_LIMIT
            || input.len() < pl {
            return None;
        }
        let array = self.prefix_array();
        let ghost node = self.bytes();
        let mut i: usize = 0;
        while i < cc
            invariant
                self.wf(),
                node == self.bytes(),
                searchable(node),
                input@.len() >= pl,
                pl == prefix_length(node),
                cc == child_count(node),
                array@ == node.subrange(NODE_HEADER_SIZE as int, NODE_HEADER_SIZE + pl * cc),
                pl * cc <= PREFIX_ARRAY_SIZE_LIMIT,
                i <= cc,
                find_child_from(node, input@, 0) == find_child_from(node, input@, i as int),
            decreases cc - i,
        {
            proof {
                assert((i + 1) * pl <= cc * pl) by (nonlinear_arith)
                    requires
                        i < cc,
                ;
                assert((i + 1) * pl == i * pl + pl) by (nonlinear_arith);
            }
            let start = i * pl;
            let mut j: usize = 0;
            let mut equal = true;
            while j < pl
                invariant
                    j <= pl,
                    start == i * pl,
                    start + pl <= array@.len(),
                    array@.len() <= PREFIX_ARRAY_SIZE_LIMIT,
                    input@.len() >= pl,
                    equal == (forall|k: int| 0 <= k < j ==> array@[start + k] == input@[k]),
                decreases pl - j,
            {
                if array[start + j] != input[j] {
                    equal = false;
                }
                j += 1;
            }
            proof {
                let chunk = child_prefix(node, i as int);
                assert(chunk =~= array@.subrange(start as int, start + pl));
                if equal {
                    assert(chunk =~= input@.subrange(0, pl as int));
                } else {
                    let k = choose|k: int| 0 <= k < pl && array@[start + k] != input@[k];
                    assert(chunk[k] != input@.subrange(0, pl as int)[k]);
                }
            }
            if equal {
                return Some(i);
            }
            i += 1;
        }
        None
    }
}

impl<D: DataSource> RadixTreeDictionary<D> {
    /// Location of the root node.
    pub closed spec fn tree_start(&self) -> u32 {
        self.tree_start
    }

    /// Bytes of the underlying source.
    pub closed spec fn contents(&self) -> Seq<u8> {
        self.source.contents()
    }

    /// Reading from the underlying source never fails.
    pub closed spec fn reliable(&self) -> bool {
        self.source.reliable()
    }

    /// Error with which the last failed read of the underlying source failed.
    pub closed spec fn failed_with(&self) -> Option<D::Error> {
        self.source.failed_with()
    }

    /// Opens a dictionary by reading the location of its root node.
    pub fn new(source: D) -> (r: Result<Self, D::Error>)
        ensures
            r matches Ok(dict) ==> {
                let start = read_result(seq![0u8, 0u8, 0u8, 0u8], source.contents(), 0);
                &&& dict.contents() == source.contents()
                &&& dict.reliable() == source.reliable()
                &&& dict.tree_start() == (start[0] as u32) * 16777216 + be24(start[1], start[2], start[3])
            },
            source.reliable() ==> r is Ok,
    {
        let mut source = source;
        let mut tree_start_bytes: Vec<u8> = vec![0u8, 0u8, 0u8, 0u8];
        match source.read_exact(0, tree_start_bytes.as_mut_slice()) {
            Ok(()) => {},
            Err(e) => return Err(e),
        }
        let tree_start = (tree_start_bytes[0] as u32) * 16777216 + (tree_start_bytes[1] as u32) * 65536
            + (tree_start_bytes[2] as u32) * 256 + (tree_start_bytes[3] as u32);
        Ok(Self { tree_start, source })
    }

    /// Loads the node header and prefix array.
    fn read_node_at(&mut self, location: u32) -> (r: Result<Node, D::Error>)
        ensures
            final(self).contents() == old(self).contents(),
            final(self).tree_start() == old(self).tree_start(),
            final(self).reliable() == old(self).reliable(),
            old(self).reliable() ==> r is Ok,
            r matches Err(e) ==> final(self).failed_with() == Some(e),
            r matches Ok(node) ==> node.wf() && node.spec_location() == location && node.bytes()
                == node_bytes(old(self).contents(), location as int),
    {
        let mut buffer: Vec<u8> = vec![0u8; NODE_HEADER_SIZE + PREFIX_ARRAY_SIZE_LIMIT];
        let ghost zeros = buffer@;
        assert(zeros =~= Seq::new((NODE_HEADER_SIZE + PREFIX_ARRAY_SIZE_LIMIT) as nat, |i: int| 0u8));
        match self.source.read_exact(location, buffer.as_mut_slice()) {
            Ok(()) => Ok(Node { location, buffer }),
            Err(e) => Err(e),
        }
    }

    /// Reads the node's pointer to the given child.
    fn read_child_pointer(&mut self, pointer_location: u32) -> (r: Result<u32, D::Error>)
        ensures
            final(self).contents() == old(self).contents(),
            final(self).tree_start() == old(self).tree_start(),
            final(self).reliable() == old(self).reliable(),
            old(self).reliable() ==> r is Ok,
            r matches Err(e) ==> final(self).failed_with() == Some(e),
            r matches Ok(pointer) ==> {
                let bytes = read_result(seq![0u8, 0u8, 0u8], old(self).contents(), pointer_location as int);
                pointer == be24(bytes[0], bytes[1], bytes[2])
            },
    {
        let mut buffer: Vec<u8> = vec![0u8, 0u8, 0u8];
        match self.source.read_exact(pointer_location, buffer.as_mut_slice()) {
            Ok(()) => {},
            Err(e) => return Err(e),
        }
        Ok((buffer[0] as u32) * 65536 + (buffer[1] as u32) * 256 + (buffer[2] as u32))
    }

    /// Traverses the tree finding the pointer to the translation of the entry which matches the
    /// longest prefix of the input bytes.
    fn find_longest_matching_prefix_pointer(&mut self, bytes: &[u8]) -> (r: Result<Option<Match>, D::Error>)
        ensures
            final(self).contents() == old(self).contents(),
            final(self).tree_start() == old(self).tree_start(),
            final(self).reliable() == old(self).reliable(),
            old(self).reliable() ==> r is Ok,
            r matches Err(e) ==> final(self).failed_with() == Some(e),
            r matches Ok(m) ==> match walk(
                old(self).contents(),
                old(self).tree_start(),
                old(self).tree_start(),
                bytes@,
                0,
                None,
            ) {
                Some(v) => m matches Some(found) && found.translation_pointer == v.0 && found.prefix_len == v.1,
                None => m is None,
            },
    {
        let ghost data = self.contents();
        let tree_start = self.tree_start;
        // Offset of current tree node
        let mut location = self.tree_start;
        // Latest matching translation we encountered
        let mut latest_match: Option<Match> = None;
        // Number of bytes we have already "consumed"
        let mut prefix_len: usize = 0;
        let ghost target = walk(data, tree_start, tree_start, bytes@, 0, None);
        assert(bytes@.skip(0) =~= bytes@);

        // Descend down the tree until we have no more bytes left or we encounter a dead end
        loop
            invariant
                self.contents() == data,
                self.tree_start() == tree_start,
                self.reliable() == old(self).reliable(),
                data == old(self).contents(),
                tree_start == old(self).tree_start(),
                target == walk(data, tree_start, tree_start, bytes@, 0, None),
                prefix_len <= bytes@.len(),
                target == walk(
                    data,
                    tree_start,
                    location,
                    bytes@.skip(prefix_len as int),
                    prefix_len as nat,
                    match_view(latest_match),
                ),
            decreases bytes@.len() - prefix_len,
        {
            let ghost input = bytes@.skip(prefix_len as int);
            // Read the node
            let node = match self.read_node_at(location) {
                Ok(node) => node,
                Err(e) => return Err(e),
            };

            let ghost old_latest = match_view(latest_match);
            // Record the translation if there is one in case we have to backtrack
            if let Some(translation_pointer) = node.translation_pointer() {
                latest_match = Some(Match { translation_pointer, prefix_len });
            }
            let ghost latest = match_view(latest_match);
            assert(latest == (if translation_pointer(node.bytes()) != 0 {
                Some((translation_pointer(node.bytes()), prefix_len as nat))
            } else {
                old_latest
            }));

            // Bail if we do not have anything left to match
            if prefix_len == bytes.len() {
                assert(input.len() == 0);
                assert(target == latest);
                return Ok(latest_match);
            }

            let remaining = &bytes[prefix_len..bytes.len()];
            assert(remaining@ =~= input);

            // If there is a matching child, descend, otherwise stop searching and use whatever we got
            match node.find_child(remaining) {
                Some(child_index) => {
                    let node_prefix_length = node.prefix_length();
                    assert(spec_find_child(node.bytes(), input) == Some(child_index as int));
                    let pointer_array = match node.pointer_array_location() {
                        Some(l) => l,
                        None => {
                            assert(child_pointer_location(location as int, node.bytes(), child_index as int) + 3 > u32::MAX);
                            assert(target == latest);
                            return Ok(latest_match);
                        },
                    };
                    if child_index as u64 * 3 + 3 + pointer_array as u64 > u32::MAX as u64 {
                        assert(child_pointer_location(location as int, node.bytes(), child_index as int) + 3 > u32::MAX);
                        assert(target == latest);
                        return Ok(latest_match);
                    }
                    let pointer_location = pointer_array + (child_index as u32) * 3;
                    let pointer = match self.read_child_pointer(pointer_location) {
                        Ok(p) => p,
                        Err(e) => return Err(e),
                    };
                    // As we descend down the tree, increase the consumed prefix length
                    let ghost old_prefix_len = prefix_len;
                    prefix_len = prefix_len + node_prefix_length;
                    assert(input.skip(node_prefix_length as int) =~= bytes@.skip(prefix_len as int));
                    if pointer >= tree_start {
                        // Descend further down the tree
                        location = pointer;
                    } else {
                        // Upon encountering a leaf-only node, store it and stop searching
                        return Ok(Some(Match { translation_pointer: pointer, prefix_len }));
                    }
                },
                None => {
                    assert(spec_find_child(node.bytes(), input) is None);
                    assert(target == latest);
                    return Ok(latest_match);
                },
            }
        }
    }

    /// Reads the translation stored at the given location.
    fn read_translation(&mut self, location: u32) -> (r: Result<TranslationBuffer, D::Error>)
        ensures
            final(self).contents() == old(self).contents(),
            final(self).tree_start() == old(self).tree_start(),
            final(self).reliable() == old(self).reliable(),
            old(self).reliable() ==> r is Ok,
            r matches Err(e) ==> final(self).failed_with() == Some(e),
            r matches Ok(t) ==> t.bytes() == translation_bytes(old(self).contents(), location as int),
    {
        let mut buffer: Vec<u8> = vec![0u8; TRANSLATION_SIZE_LIMIT];
        assert(buffer@ =~= Seq::new(TRANSLATION_SIZE_LIMIT as nat, |i: int| 0u8));
        match self.source.read_exact(location, buffer.as_mut_slice()) {
            Ok(()) => Ok(TranslationBuffer(buffer)),
            Err(e) => Err(e),
        }
    }

    /// Finds the entry matching the longest prefix of the given strokes. Returns the number of
    /// matched strokes and the translation of the entry.
    pub fn match_prefix(&mut self, strokes: &Vec<EnglishStroke>) -> (r: Result<Option<(usize, TranslationBuffer)>, D::Error>)
        requires
            strokes@.len() * 3 <= usize::MAX,
        ensures
            final(self).contents() == old(self).contents(),
            final(self).tree_start() == old(self).tree_start(),
            final(self).reliable() == old(self).reliable(),
            old(self).reliable() ==> r is Ok,
            r matches Err(e) ==> final(self).failed_with() == Some(e),
            r matches Ok(found) ==> match walk(
                old(self).contents(),
                old(self).tree_start(),
                old(self).tree_start(),
                stroke_bytes(strokes@),
                0,
                None,
            ) {
                Some(v) => found matches Some(result) && result.0 == v.1 / 3 && result.1.bytes()
                    == translation_bytes(old(self).contents(), v.0 as int),
                None => found is None,
            },
    {
        let stroke_data = strokes_into_bytes(strokes);
        let matched = match self.find_longest_matching_prefix_pointer(stroke_data.as_slice()) {
            Ok(m) => m,
            Err(e) => return Err(e),
        };
        match matched {
            Some(found) => {
                let translation = match self.read_translation(found.translation_pointer) {
                    Ok(t) => t,
                    Err(e) => return Err(e),
                };
                Ok(Some((found.prefix_len / 3, translation)))
            },
            None => Ok(None),
        }
    }
}

/// Serialized command list read from a dictionary.
pub struct TranslationBuffer(Vec<u8>);

impl TranslationBuffer {
    /// The bytes of the buffer.
    pub closed spec fn bytes(&self) -> Seq<u8> {
        self.0@
    }

    /// The buffer holds a terminated command list.
    pub open spec fn is_valid(&self) -> bool {
        decode_commands(self.bytes(), 0) is Some
    }

    /// The commands held by a valid buffer.
    pub open spec fn commands_view(&self) -> Seq<CommandView> {
        decode_commands(self.bytes(), 0)->0
    }

    /// Number of commands in the translation.
    pub fn len(&self) -> (r: usize)
        requires
            self.is_valid(),
        ensures
            r == self.commands_view().len(),
    {
        self.iter().len()
    }

    /// Commands of the translation.
    pub fn iter(&self) -> (r: Vec<FormatterCommand<'_>>)
        requires
            self.is_valid(),
        ensures
            r@.len() == self.commands_view().len(),
            forall|i: int| 0 <= i < r@.len() ==> (#[trigger] r@[i])@ == self.commands_view()[i],
    {
        match self.commands() {
            Some(commands) => commands,
            None => {
                assert(false);
                Vec::new()
            },
        }
    }

    /// Commands of the translation, or `None` if the buffer does not hold a terminated command list.
    pub fn commands(&self) -> (r: Option<Vec<FormatterCommand<'_>>>)
        ensures
            match decode_commands(self.bytes(), 0) {
                Some(commands) => r matches Some(v) && v@.len() == commands.len() && forall|i: int|
                    0 <= i < v@.len() ==> (#[trigger] v@[i])@ == commands[i],
                None => r is None,
            },
    {
        let mut out: Vec<FormatterCommand<'_>> = Vec::new();
        let mut position: usize = 0;
        let ghost bytes = self.bytes();
        let ghost target = decode_commands(bytes, 0);
        loop
            invariant
                bytes == self.bytes(),
                target == decode_commands(self.bytes(), 0),
                position <= bytes.len(),
                target == (match decode_commands(bytes, position as int) {
                    Some(rest) => Some(out@.map_values(|c: FormatterCommand<'_>| c@) + rest),
                    None => None,
                }),
            decreases bytes.len() - position,
        {
            if position >= self.0.len() {
                proof {
                    assert(decode_commands(bytes, position as int) is None);
                }
                return None;
            }
            match self.read_command(position) {
                Decoded2::End => {
                    proof {
                        assert(out@.map_values(|c: FormatterCommand<'_>| c@) + Seq::empty() =~= out@.map_values(|c: FormatterCommand<'_>| c@));
                    }
                    return Some(out);
                },
                Decoded2::Malformed => return None,
                Decoded2::Command(command, length) => {
                    let ghost before = out@;
                    proof {
                        if let Some(rest) = decode_commands(bytes, (position + length) as int) {
                            assert(before.push(command).map_values(|c: FormatterCommand<'_>| c@) + rest =~= before.map_values(
                                |c: FormatterCommand<'_>| c@,
                            ) + (seq![command@] + rest));
                        }
                    }
                    out.push(command);
                    position = position + length;
                },
            }
        }
    }

    /// Attempts to read a command from the given offset and returns the command as well as the
    /// number of bytes consumed, or reports the end-of-list token or unreadable bytes.
    fn read_command(&self, offset: usize) -> (r: Decoded2<'_>)
        requires
            offset < self.bytes().len(),
        ensures
            match decode_command(self.bytes(), offset as int) {
                Decoded::Command(c, len) => r matches Decoded2::Command(command, length) && command@ == c
                    && length == len && length >= 1,
                Decoded::End => r is End,
                Decoded::Malformed => r is Malformed,
            },
    {
        let head = self.0[offset];
        if head & 0b11_000000 == 0 {
            assert(head & 0b11_000000 == 0 <==> head < 64) by (bit_vector);
            let len = head as usize;
            if len + 1 > self.0.len() - offset {
                return Decoded2::Malformed;
            }
            let string_data = &self.0.as_slice()[offset + 1..offset + 1 + len];
            match str_from_utf8(string_data) {
                Some(string) => Decoded2::Command(GenericFormatterCommand::Write(string), 1 + len),
                None => Decoded2::Malformed,
            }
        } else {
            assert(!(head & 0b11_000000 == 0) <==> head >= 64) by (bit_vector);
            let command = match head {
                0b01_000_000 => GenericFormatterCommand::ChangeCapitalization(CapitalizationMode::Unchanged),
                0b01_001_000 => GenericFormatterCommand::ChangeCapitalization(CapitalizationMode::Lowercase),
                0b01_010_000 => GenericFormatterCommand::ChangeCapitalization(CapitalizationMode::Capitalize),
                0b01_011_000 => GenericFormatterCommand::ChangeCapitalization(CapitalizationMode::Uppercase),
                0b01_100_000 => GenericFormatterCommand::ChangeCapitalization(CapitalizationMode::LowerThenCapitalize),
                0b01_101_000 => GenericFormatterCommand::ChangeCapitalization(CapitalizationMode::LowercaseNext),
                0b01_110_000 => GenericFormatterCommand::ChangeCapitalization(CapitalizationMode::CapitalizeNext),
                0b01_111_000 => GenericFormatterCommand::ChangeCapitalization(CapitalizationMode::UppercaseNext),
                0b10_00_0000 => GenericFormatterCommand::ChangeAttachment(AttachmentMode::Delimited),
                0b10_01_0000 => GenericFormatterCommand::ChangeAttachment(AttachmentMode::Glue),
                0b10_10_0000 => GenericFormatterCommand::ChangeAttachment(AttachmentMode::Next),
                0b10_11_0000 => GenericFormatterCommand::ChangeAttachment(AttachmentMode::Always),
                0b110_00000 => GenericFormatterCommand::ResetFormatting,
                0xFF => return Decoded2::End,
                _ => return Decoded2::Malformed,
            };
            Decoded2::Command(command, 1)
        }
    }
}

/// Outcome of reading a command from a translation buffer.
pub enum Decoded2<'a> {
    Command(FormatterCommand<'a>, usize),
    End,
    Malformed,
}

} // verus!
