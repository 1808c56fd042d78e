//! Reading entries back from a compiled dictionary.
//!
//! A tree whose nodes can all be searched (positive prefix lengths, distinct prefixes that fit
//! into the prefix array) gives back every entry it holds once serialized: walking down the
//! serialized tree with the key of an entry ends at the location of its translation after
//! consuming the whole key, and walking it with any input ends at the entry whose key is the
//! longest beginning of the input.
use super::json::dict::CommandList;
use super::tree::{
    child_entries, child_size, child_target, children_entries, children_serializable, children_size,
    lemma_pointer_bytes_len, lemma_prefix_bytes_len, node_header, node_size, pointer_array_end, pointer_bytes,
    prefix_bytes, prefixed, serializable, serialized_child, serialized_children, serialized_node, child_serializable,
    stored_in_range, translation_location, tree_entries, Child, EntryBytes, TreeNode,
};
use crate::formatter::CommandView;
use vstd::prelude::*;

verus! {

/// Serialized sizes match the sizes the layout reserves.
pub(crate) proof fn lemma_node_len(node: TreeNode, location: int, table: Seq<(Seq<CommandView>, usize)>)
    requires
        serializable(node, location, table),
    ensures
        serialized_node(node, location, table).len() == node_size(node),
    decreases node,
{
    lemma_prefix_bytes_len(node.children@, node.prefix_length as int);
    lemma_pointer_bytes_len(node.children@, pointer_array_end(node, location), table);
    lemma_children_len(node.children@, pointer_array_end(node, location), table);
}

proof fn lemma_children_len(children: Seq<(Vec<u8>, Child)>, base: int, table: Seq<(Seq<CommandView>, usize)>)
    requires
        children_serializable(children, base, table),
    ensures
        serialized_children(children, base, table).len() == children_size(children),
    decreases children,
{
    if children.len() > 0 {
        let init = children.drop_last();
        lemma_children_len(init, base, table);
        lemma_child_len(children[children.len() - 1].1, base + children_size(init), table);
    }
}

proof fn lemma_child_len(child: Child, location: int, table: Seq<(Seq<CommandView>, usize)>)
    requires
        child_serializable(child, location, table),
    ensures
        serialized_child(child, location, table).len() == child_size(child),
    decreases child,
{
    if let Child::Tree(node) = child {
        lemma_node_len(node, location, table);
    }
}

/// The prefix of child `j` sits at `j` times the prefix length in the prefix array.
proof fn lemma_prefix_at(children: Seq<(Vec<u8>, Child)>, length: int, j: int)
    requires
        forall|k: int| 0 <= k < children.len() ==> (#[trigger] children[k]).0@.len() == length,
        length >= 0,
        0 <= j < children.len(),
    ensures
        prefix_bytes(children).subrange(j * length, (j + 1) * length) == children[j].0@,
    decreases children.len(),
{
    let init = children.drop_last();
    assert forall|k: int| 0 <= k < init.len() implies (#[trigger] init[k]).0@.len() == length by {
        assert(init[k] == children[k]);
    }
    lemma_prefix_bytes_len(init, length);
    assert(length * init.len() == init.len() * length) by (nonlinear_arith);
    assert(0 <= j * length <= (j + 1) * length) by (nonlinear_arith)
        requires
            j >= 0,
            length >= 0,
    ;
    if j < children.len() - 1 {
        lemma_prefix_at(init, length, j);
        assert((j + 1) * length <= init.len() * length) by (nonlinear_arith)
            requires
                j + 1 <= init.len(),
                length >= 0,
        ;
        assert(prefix_bytes(children).subrange(j * length, (j + 1) * length) =~= prefix_bytes(init).subrange(
            j * length,
            (j + 1) * length,
        ));
    } else {
        assert(j * length == init.len() * length);
        assert((j + 1) * length == j * length + length) by (nonlinear_arith);
        assert(prefix_bytes(children).subrange(j * length, (j + 1) * length) =~= children[j].0@);
    }
}

/// The pointer of child `j` sits at `3 j` in the pointer array.
proof fn lemma_pointer_at(children: Seq<(Vec<u8>, Child)>, base: int, table: Seq<(Seq<CommandView>, usize)>, j: int)
    requires
        0 <= j < children.len(),
    ensures
        pointer_bytes(children, base, table).subrange(3 * j, 3 * j + 3) == location_bytes_of(
            child_target(children[j].1, base + children_size(children.take(j)), table),
        ),
    decreases children.len(),
{
    let init = children.drop_last();
    lemma_pointer_bytes_len(init, base, table);
    if j < children.len() - 1 {
        lemma_pointer_at(init, base, table, j);
        assert(init.take(j) =~= children.take(j));
        assert(pointer_bytes(children, base, table).subrange(3 * j, 3 * j + 3) =~= pointer_bytes(init, base, table).subrange(
            3 * j,
            3 * j + 3,
        ));
    } else {
        assert(children.take(j) =~= init);
        assert(pointer_bytes(children, base, table).subrange(3 * j, 3 * j + 3) =~= location_bytes_of(
            child_target(children[j].1, base + children_size(init), table),
        ));
    }
}

/// Big-endian bytes of a location, as the layout writes them.
pub open spec fn location_bytes_of(location: int) -> Seq<u8> {
    super::tree::location_bytes(location)
}

/// The serialized child `j` sits after the serialized children before it.
proof fn lemma_child_at(children: Seq<(Vec<u8>, Child)>, base: int, table: Seq<(Seq<CommandView>, usize)>, j: int)
    requires
        0 <= j < children.len(),
        children_serializable(children, base, table),
    ensures
        children_size(children.take(j)) + child_size(children[j].1) <= children_size(children),
        serialized_children(children, base, table).subrange(
            children_size(children.take(j)) as int,
            (children_size(children.take(j)) + child_size(children[j].1)) as int,
        ) == serialized_child(children[j].1, base + children_size(children.take(j)), table),
        child_serializable(children[j].1, base + children_size(children.take(j)), table),
    decreases children.len(),
{
    let init = children.drop_last();
    lemma_children_len(init, base, table);
    lemma_child_len(children[children.len() - 1].1, base + children_size(init), table);
    if j < children.len() - 1 {
        lemma_child_at(init, base, table, j);
        assert(init.take(j) =~= children.take(j));
        assert(init[j] == children[j]);
        assert(serialized_children(children, base, table).subrange(
            children_size(children.take(j)) as int,
            (children_size(children.take(j)) + child_size(children[j].1)) as int,
        ) =~= serialized_children(init, base, table).subrange(
            children_size(init.take(j)) as int,
            (children_size(init.take(j)) + child_size(init[j].1)) as int,
        ));
    } else {
        assert(children.take(j) =~= init);
        assert(serialized_children(children, base, table).subrange(
            children_size(init) as int,
            (children_size(init) + child_size(children[j].1)) as int,
        ) =~= serialized_child(children[j].1, base + children_size(init), table));
    }
}

/// Three big-endian bytes of a location below 2^24 read back as the location.
proof fn lemma_location_bytes(location: int)
    requires
        0 <= location < 0x100_0000,
    ensures
        location_bytes_of(location).len() == 3,
        crate::dict::tree::be24(location_bytes_of(location)[0], location_bytes_of(location)[1], location_bytes_of(location)[2])
            == location,
{
    let a = location / 65536;
    let b = (location / 256) % 256;
    let c = location % 256;
    vstd::arithmetic::div_mod::lemma_fundamental_div_mod(location, 256);
    vstd::arithmetic::div_mod::lemma_fundamental_div_mod(location / 256, 256);
    vstd::arithmetic::div_mod::lemma_div_denominator(location, 256, 256);
    assert(location == 256 * (location / 256) + c);
    assert(location / 256 == 256 * a + b);
    assert(a < 256) by (nonlinear_arith)
        requires
            0 <= location < 0x100_0000,
            a == location / 65536,
    ;
    assert(a % 256 == a) by (nonlinear_arith)
        requires
            0 <= a < 256,
    ;
    assert(a * 65536 + b * 256 + c == location) by (nonlinear_arith)
        requires
            location == 256 * (location / 256) + c,
            location / 256 == 256 * a + b,
    ;
}

/// What the reader sees of a serialized node: its child count, prefix length, translation
/// location, the prefixes of its children and the locations they point to.
#[verifier::spinoff_prover]
proof fn lemma_node_view(data: Seq<u8>, location: int, node: TreeNode, table: Seq<(Seq<CommandView>, usize)>)
    requires
        0 <= location,
        location + serialized_node(node, location, table).len() <= data.len(),
        data.subrange(location, location + serialized_node(node, location, table).len()) == serialized_node(
            node,
            location,
            table,
        ),
        serializable(node, location, table),
        node.prefix_length * node.children@.len() <= 256,
    ensures
        ({
            let view = crate::dict::tree::node_bytes(data, location);
            let count = node.children@.len();
            let length = node.prefix_length as int;
            let base = pointer_array_end(node, location);
            &&& crate::dict::tree::child_count(view) == count
            &&& crate::dict::tree::prefix_length(view) == length
            &&& crate::dict::tree::translation_pointer(view) == match node.leaf_data {
                Some(data) => translation_location(table, data@),
                None => 0,
            }
            &&& forall|j: int| 0 <= j < count ==> crate::dict::tree::child_prefix(view, j) == (#[trigger] node.children@[j]).0@
            &&& forall|j: int| 0 <= j < count ==> crate::dict::tree::child_pointer_location(location, view, j)
                == location + 5 + length * count + 3 * j
            &&& forall|j: int| 0 <= j < count ==> crate::dict::tree::child_pointer(data, location, view, j) == child_target(
                (#[trigger] node.children@[j]).1,
                base + children_size(node.children@.take(j)),
                table,
            )
        }),
{
    let view = crate::dict::tree::node_bytes(data, location);
    let serialized = serialized_node(node, location, table);
    let count = node.children@.len();
    let length = node.prefix_length as int;
    let base = pointer_array_end(node, location);
    let header = node_header(node, table);
    let prefixes = prefix_bytes(node.children@);
    let pointers = pointer_bytes(node.children@, base, table);
    lemma_prefix_bytes_len(node.children@, length);
    lemma_pointer_bytes_len(node.children@, base, table);
    assert(header.len() == 5);
    assert(length * count == count * length) by (nonlinear_arith);
    // Bytes of the node as read.
    assert forall|i: int| 0 <= i < 5 + length * count + 3 * count implies #[trigger] data[location + i] == serialized[i] by {
        assert(data.subrange(location, location + serialized.len())[i] == serialized[i]);
    }
    assert forall|i: int| 0 <= i < 5 + length * count implies #[trigger] view[i] == serialized[i] by {
        assert(data[location + i] == serialized[i]);
    }
    assert(serialized == header + prefixes + pointers + serialized_children(node.children@, base, table));
    assert forall|i: int| 0 <= i < 5 implies #[trigger] view[i] == header[i] by {
        assert(serialized[i] == header[i]);
    }
    assert(crate::dict::tree::child_count(view) == count);
    assert(crate::dict::tree::prefix_length(view) == length);
    match node.leaf_data {
        Some(d) => {
            let target = translation_location(table, d@);
            lemma_location_bytes(target);
        },
        None => {},
    }
    assert forall|j: int| 0 <= j < count implies crate::dict::tree::child_prefix(view, j) == (#[trigger] node.children@[j]).0@ by {
        lemma_prefix_at(node.children@, length, j);
        assert((j + 1) * length <= count * length) by (nonlinear_arith)
            requires
                j + 1 <= count,
                length >= 0,
        ;
        assert(0 <= j * length) by (nonlinear_arith)
            requires
                j >= 0,
                length >= 0,
        ;
        assert((j + 1) * length == j * length + length) by (nonlinear_arith);
        assert(crate::dict::tree::child_prefix(view, j) =~= prefixes.subrange(j * length, (j + 1) * length)) by {
            assert forall|k: int| 0 <= k < length implies crate::dict::tree::child_prefix(view, j)[k] == prefixes.subrange(
                j * length,
                (j + 1) * length,
            )[k] by {
                assert(view[5 + j * length + k] == serialized[5 + j * length + k]);
            }
        }
    }
    assert forall|j: int| 0 <= j < count implies crate::dict::tree::child_pointer(data, location, view, j) == child_target(
        (#[trigger] node.children@[j]).1,
        base + children_size(node.children@.take(j)),
        table,
    ) by {
        let at = 5 + length * count + 3 * j;
        lemma_pointer_at(node.children@, base, table, j);
        let target = child_target(node.children@[j].1, base + children_size(node.children@.take(j)), table);
        super::readback::lemma_target_range(node, location, table, j);
        lemma_location_bytes(target);
        let bytes = crate::dict::tree::read_result(seq![0u8, 0u8, 0u8], data, location + at);
        assert forall|k: int| 0 <= k < 3 implies bytes[k] == location_bytes_of(target)[k] by {
            assert(data[location + at + k] == serialized[at + k]);
            assert(serialized[at + k] == pointers[3 * j + k]);
            assert(pointers.subrange(3 * j, 3 * j + 3)[k] == pointers[3 * j + k]);
        }
    }
}

/// Locations of children fit into three bytes.
proof fn lemma_target_range(node: TreeNode, location: int, table: Seq<(Seq<CommandView>, usize)>, j: int)
    requires
        serializable(node, location, table),
        0 <= j < node.children@.len(),
        0 <= location,
    ensures
        0 <= child_target(
            node.children@[j].1,
            pointer_array_end(node, location) + children_size(node.children@.take(j)),
            table,
        ) < 0x100_0000,
{
    let base = pointer_array_end(node, location);
    lemma_child_at(node.children@, base, table, j);
    match node.children@[j].1 {
        Child::Leaf(d) => {
            assert(stored_in_range(table, d@));
        },
        Child::Tree(_) => {},
    }
}
/// The reader can search the node and the nodes below it: positive prefix lengths, distinct
/// children prefixes of that length that fit into the prefix array (always true for prefixes
/// of one byte, as a node has fewer than 256 children).
pub open spec fn searchable_node(node: TreeNode) -> bool
    decreases node,
{
    &&& node.prefix_length > 0
    &&& (node.prefix_length == 1 || node.prefix_length * node.children@.len() <= 256)
    &&& forall|i: int| 0 <= i < node.children@.len() ==> (#[trigger] node.children@[i]).0@.len() == node.prefix_length
    &&& forall|i: int, j: int| 0 <= i < j < node.children@.len() ==> node.children@[i].0@ != node.children@[j].0@
    &&& searchable_children(node.children@)
}

/// The nodes held by the children can be searched.
pub open spec fn searchable_children(children: Seq<(Vec<u8>, Child)>) -> bool
    decreases children,
{
    children.len() == 0 || (searchable_children(children.drop_last()) && searchable_child(children[children.len() - 1].1))
}

/// The node held by the child, if any, can be searched.
pub open spec fn searchable_child(child: Child) -> bool
    decreases child,
{
    match child {
        Child::Leaf(_) => true,
        Child::Tree(node) => searchable_node(node),
    }
}

proof fn lemma_searchable_at(children: Seq<(Vec<u8>, Child)>, i: int)
    requires
        searchable_children(children),
        0 <= i < children.len(),
    ensures
        searchable_child(children[i].1),
    decreases children.len(),
{
    if i < children.len() - 1 {
        lemma_searchable_at(children.drop_last(), i);
    }
}

/// An entry of the children is an entry of one child under that child's prefix.
proof fn lemma_children_entry(children: Seq<(Vec<u8>, Child)>, key: Seq<u8>, list: Seq<CommandView>)
    requires
        children_entries(children).contains((key, list)),
    ensures
        exists|i: int, rest: Seq<u8>| 0 <= i < children.len() && key == children[i].0@ + rest && #[trigger] child_entries(
            children[i].1,
        ).contains((rest, list)),
    decreases children.len(),
{
    let init = children.drop_last();
    let last = children[children.len() - 1];
    if children_entries(init).contains((key, list)) {
        lemma_children_entry(init, key, list);
        let (i, rest) = choose|i: int, rest: Seq<u8>| 0 <= i < init.len() && key == init[i].0@ + rest && #[trigger] child_entries(
            init[i].1,
        ).contains((rest, list));
        assert(init[i] == children[i]);
    } else {
        assert(prefixed(last.0@, child_entries(last.1)).contains((key, list)));
        let e = choose|e: EntryBytes| child_entries(last.1).contains(e) && (last.0@ + e.0, e.1) == (key, list);
        assert(child_entries(children[children.len() - 1].1).contains((e.0, list)));
    }
}

/// Searching from `from` finds child `i` when its prefix matches and no earlier one does.
proof fn lemma_find_child(view: Seq<u8>, input: Seq<u8>, from: int, i: int)
    requires
        0 <= from <= i < crate::dict::tree::child_count(view),
        crate::dict::tree::child_prefix(view, i) == input.subrange(0, crate::dict::tree::prefix_length(view)),
        forall|j: int| from <= j < i ==> crate::dict::tree::child_prefix(view, j) != input.subrange(
            0,
            crate::dict::tree::prefix_length(view),
        ),
    ensures
        crate::dict::tree::find_child_from(view, input, from) == Some(i),
    decreases i - from,
{
    if from < i {
        lemma_find_child(view, input, from + 1, i);
    }
}

/// A child node of a serialized node is serialized at the location its pointer names.
proof fn lemma_child_placed(data: Seq<u8>, location: int, node: TreeNode, table: Seq<(Seq<CommandView>, usize)>, i: int)
    requires
        0 <= location,
        location + serialized_node(node, location, table).len() <= data.len(),
        data.subrange(location, location + serialized_node(node, location, table).len()) == serialized_node(
            node,
            location,
            table,
        ),
        serializable(node, location, table),
        0 <= i < node.children@.len(),
        node.children@[i].1 is Tree,
    ensures
        ({
            let child = node.children@[i].1->Tree_0;
            let at = pointer_array_end(node, location) + children_size(node.children@.take(i));
            &&& location < at < 0x100_0000
            &&& serializable(child, at, table)
            &&& at + serialized_node(child, at, table).len() <= data.len()
            &&& data.subrange(at, at + serialized_node(child, at, table).len()) == serialized_node(child, at, table)
        }),
{
    let base = pointer_array_end(node, location);
    let length = node.prefix_length as int;
    let child = node.children@[i].1->Tree_0;
    let at = base + children_size(node.children@.take(i));
    lemma_child_at(node.children@, base, table, i);
    lemma_node_len(child, at, table);
    let serialized = serialized_node(node, location, table);
    lemma_prefix_bytes_len(node.children@, length);
    lemma_pointer_bytes_len(node.children@, base, table);
    lemma_children_len(node.children@, base, table);
    let block = serialized_node(child, at, table);
    let children_bytes = serialized_children(node.children@, base, table);
    let start = children_size(node.children@.take(i)) as int;
    assert(serialized == node_header(node, table) + prefix_bytes(node.children@) + pointer_bytes(node.children@, base, table)
        + children_bytes);
    assert(node_header(node, table).len() == 5);
    assert(data.subrange(at, at + block.len()) =~= block) by {
        assert forall|k: int| 0 <= k < block.len() implies data.subrange(at, at + block.len())[k] == block[k] by {
            let within = at - location + k;
            assert(data.subrange(location, location + serialized.len())[within] == serialized[within]);
            assert(serialized[within] == children_bytes[start + k]);
            assert(children_bytes.subrange(start, start + child_size(node.children@[i].1))[k] == block[k]);
        }
    }
}

/// The translation a walk records at a node, if any.
pub open spec fn recorded(view: Seq<u8>, consumed: nat, latest: Option<crate::dict::tree::MatchView>) -> Option<
    crate::dict::tree::MatchView,
> {
    if crate::dict::tree::translation_pointer(view) != 0 {
        Some((crate::dict::tree::translation_pointer(view), consumed))
    } else {
        latest
    }
}

/// A walk that reaches the end of the key at a node holding a translation ends there.
proof fn lemma_walk_own(
    data: Seq<u8>,
    root: u32,
    location: int,
    node: TreeNode,
    table: Seq<(Seq<CommandView>, usize)>,
    consumed: nat,
    latest: Option<crate::dict::tree::MatchView>,
)
    requires
        0 <= location < 0x100_0000,
        location + serialized_node(node, location, table).len() <= data.len(),
        data.subrange(location, location + serialized_node(node, location, table).len()) == serialized_node(
            node,
            location,
            table,
        ),
        serializable(node, location, table),
        node.prefix_length * node.children@.len() <= 256,
        node.leaf_data is Some,
        super::translations::lookup(table, node.leaf_data->0@) matches Some(offset) && 4 <= offset,
    ensures
        crate::dict::tree::walk(data, root, location as u32, Seq::empty(), consumed, latest) == Some(
            (super::translations::lookup(table, node.leaf_data->0@)->0 as u32, consumed),
        ),
{
    lemma_node_view(data, location, node, table);
    assert(stored_in_range(table, node.leaf_data->0@));
    assert(location as u32 as int == location);
    let view = crate::dict::tree::node_bytes(data, location);
    assert(crate::dict::tree::translation_pointer(view) == super::translations::lookup(table, node.leaf_data->0@)->0);
}

/// A walk at a node descends into the child whose prefix starts the key.
proof fn lemma_walk_child(
    data: Seq<u8>,
    root: u32,
    location: int,
    node: TreeNode,
    table: Seq<(Seq<CommandView>, usize)>,
    i: int,
    rest: Seq<u8>,
    consumed: nat,
    latest: Option<crate::dict::tree::MatchView>,
)
    requires
        0 <= location < 0x100_0000,
        location + serialized_node(node, location, table).len() <= data.len(),
        data.subrange(location, location + serialized_node(node, location, table).len()) == serialized_node(
            node,
            location,
            table,
        ),
        serializable(node, location, table),
        node.prefix_length > 0,
        node.prefix_length * node.children@.len() <= 256,
        forall|j: int| 0 <= j < node.children@.len() ==> (#[trigger] node.children@[j]).0@.len() == node.prefix_length,
        forall|a: int, b: int| 0 <= a < b < node.children@.len() ==> node.children@[a].0@ != node.children@[b].0@,
        0 <= i < node.children@.len(),
    ensures
        ({
            let key = node.children@[i].0@ + rest;
            let view = crate::dict::tree::node_bytes(data, location);
            let at = pointer_array_end(node, location) + children_size(node.children@.take(i));
            let target = child_target(node.children@[i].1, at, table);
            let next = consumed + node.prefix_length as nat;
            &&& 0 <= target < 0x100_0000
            &&& target < root ==> crate::dict::tree::walk(data, root, location as u32, key, consumed, latest) == Some(
                (target as u32, next),
            )
            &&& target >= root ==> crate::dict::tree::walk(data, root, location as u32, key, consumed, latest)
                == crate::dict::tree::walk(data, root, target as u32, rest, next, recorded(view, consumed, latest))
        }),
{
    let view = crate::dict::tree::node_bytes(data, location);
    let count = node.children@.len();
    let length = node.prefix_length as int;
    let key = node.children@[i].0@ + rest;
    lemma_node_view(data, location, node, table);
    lemma_target_range(node, location, table, i);
    assert(key.subrange(0, length) =~= node.children@[i].0@);
    assert forall|j: int| 0 <= j < i implies crate::dict::tree::child_prefix(view, j) != key.subrange(0, length) by {
        assert(crate::dict::tree::child_prefix(view, j) == node.children@[j].0@);
    }
    assert(crate::dict::tree::child_prefix(view, i) == node.children@[i].0@);
    lemma_find_child(view, key, 0, i);
    assert(key.skip(length) =~= rest);
}

/// Walking down a serialized searchable node with the key of one of its entries ends at the
/// location of the entry's translation after consuming the whole key.
proof fn lemma_walk(
    data: Seq<u8>,
    root: u32,
    location: int,
    node: TreeNode,
    table: Seq<(Seq<CommandView>, usize)>,
    key: Seq<u8>,
    list: Seq<CommandView>,
    consumed: nat,
    latest: Option<crate::dict::tree::MatchView>,
)
    requires
        root <= location < 0x100_0000,
        location + serialized_node(node, location, table).len() <= data.len(),
        data.subrange(location, location + serialized_node(node, location, table).len()) == serialized_node(
            node,
            location,
            table,
        ),
        serializable(node, location, table),
        searchable_node(node),
        tree_entries(node).contains((key, list)),
        super::translations::lookup(table, list) matches Some(offset) && 4 <= offset < root,
    ensures
        crate::dict::tree::walk(data, root, location as u32, key, consumed, latest) == Some(
            (super::translations::lookup(table, list)->0 as u32, consumed + key.len()),
        ),
    decreases node,
{
    let count = node.children@.len();
    let length = node.prefix_length as int;
    let base = pointer_array_end(node, location);
    let offset = super::translations::lookup(table, list)->0;
    assert(length * count <= 256) by (nonlinear_arith)
        requires
            length == 1 || length * count <= 256,
            count < 255,
    ;
    let own = match node.leaf_data {
        Some(d) => super::tree::leaf_entry(d@),
        None => Set::<EntryBytes>::empty(),
    };
    assert(tree_entries(node) == own + children_entries(node.children@));
    if own.contains((key, list)) {
        assert((key, list) == (Seq::<u8>::empty(), node.leaf_data->0@));
        lemma_walk_own(data, root, location, node, table, consumed, latest);
    } else {
        lemma_children_entry(node.children@, key, list);
        let (i, rest) = choose|i: int, rest: Seq<u8>| 0 <= i < count && key == node.children@[i].0@ + rest && #[trigger] child_entries(
            node.children@[i].1,
        ).contains((rest, list));
        lemma_walk_child(data, root, location, node, table, i, rest, consumed, latest);
        let at = base + children_size(node.children@.take(i));
        match node.children@[i].1 {
            Child::Leaf(d) => {
                assert((rest, list) == (Seq::<u8>::empty(), d@));
                assert(key =~= node.children@[i].0@);
            },
            Child::Tree(child) => {
                lemma_child_placed(data, location, node, table, i);
                lemma_searchable_at(node.children@, i);
                assert(decreases_to!(node => node.children@[i].1));
                let view = crate::dict::tree::node_bytes(data, location);
                lemma_walk(data, root, at, child, table, rest, list, consumed + length as nat, recorded(view, consumed, latest));
            },
        }
    }
}


/// The key is the beginning of the input.
pub open spec fn is_prefix(key: Seq<u8>, input: Seq<u8>) -> bool {
    key.len() <= input.len() && input.take(key.len() as int) == key
}

/// The entry is one of the entries whose key begins the input, with the longest such key.
pub open spec fn longest_prefix_entry(entries: Set<EntryBytes>, input: Seq<u8>, e: EntryBytes) -> bool {
    &&& entries.contains(e)
    &&& is_prefix(e.0, input)
    &&& forall|f: EntryBytes| #[trigger] entries.contains(f) && is_prefix(f.0, input) ==> f.0.len() <= e.0.len()
}

/// Some entry's key begins the input.
pub open spec fn has_prefix_entry(entries: Set<EntryBytes>, input: Seq<u8>) -> bool {
    exists|f: EntryBytes| #[trigger] entries.contains(f) && is_prefix(f.0, input)
}

/// Every translation of the entries is stored between the root location header and the tree.
spec fn stored_below(entries: Set<EntryBytes>, table: Seq<(Seq<CommandView>, usize)>, root: int) -> bool {
    forall|e: EntryBytes| #[trigger] entries.contains(e) ==> super::translations::lookup(table, e.1) is Some && 4
        <= super::translations::lookup(table, e.1)->0 < root
}

/// An entry of a child is an entry of the children under that child's prefix.
proof fn lemma_child_entry_in(children: Seq<(Vec<u8>, Child)>, i: int, e: EntryBytes)
    requires
        0 <= i < children.len(),
        child_entries(children[i].1).contains(e),
    ensures
        children_entries(children).contains((children[i].0@ + e.0, e.1)),
    decreases children.len(),
{
    let init = children.drop_last();
    let last = children[children.len() - 1];
    if i < children.len() - 1 {
        assert(init[i] == children[i]);
        lemma_child_entry_in(init, i, e);
    } else {
        assert(prefixed(last.0@, child_entries(last.1)).contains((last.0@ + e.0, e.1)));
    }
}

/// A key made of a beginning of the input and a rest begins the input exactly when the rest
/// begins what follows.
proof fn lemma_prefix_split(p: Seq<u8>, r: Seq<u8>, input: Seq<u8>)
    requires
        is_prefix(p, input),
    ensures
        is_prefix(p + r, input) <==> is_prefix(r, input.skip(p.len() as int)),
{
    let n = p.len() as int;
    if is_prefix(r, input.skip(n)) {
        assert(input.take(n + r.len()) =~= p + r) by {
            assert forall|k: int| 0 <= k < n + r.len() implies input.take(n + r.len())[k] == (p + r)[k] by {
                if k < n {
                    assert(input.take(n)[k] == p[k]);
                } else {
                    assert(input.skip(n).take(r.len() as int)[k - n] == r[k - n]);
                }
            }
        }
    }
    if is_prefix(p + r, input) {
        assert(input.skip(n).take(r.len() as int) =~= r) by {
            assert forall|k: int| 0 <= k < r.len() implies input.skip(n).take(r.len() as int)[k] == r[k] by {
                assert(input.take(n + r.len())[n + k] == (p + r)[n + k]);
            }
        }
    }
}

/// No child prefix equals the beginning of the input: the search finds no child.
proof fn lemma_find_none(view: Seq<u8>, input: Seq<u8>, from: int)
    requires
        0 <= from,
        forall|j: int| from <= j < crate::dict::tree::child_count(view) ==> crate::dict::tree::child_prefix(view, j)
            != input.subrange(0, crate::dict::tree::prefix_length(view)),
    ensures
        crate::dict::tree::find_child_from(view, input, from) is None,
    decreases crate::dict::tree::child_count(view) - from,
{
    if from < crate::dict::tree::child_count(view) {
        lemma_find_none(view, input, from + 1);
    }
}

/// Entries of the children whose key begins the input come through the child whose prefix
/// begins the input.
proof fn lemma_through_child(node: TreeNode, input: Seq<u8>, i: int)
    requires
        0 <= i < node.children@.len(),
        node.children@[i].0@.len() == node.prefix_length <= input.len(),
        node.children@[i].0@ == input.take(node.prefix_length as int),
        forall|j: int| 0 <= j < node.children@.len() ==> (#[trigger] node.children@[j]).0@.len() == node.prefix_length,
        forall|a: int, b: int| 0 <= a < b < node.children@.len() ==> node.children@[a].0@ != node.children@[b].0@,
    ensures
        forall|f: EntryBytes| #[trigger] children_entries(node.children@).contains(f) && is_prefix(f.0, input) ==> exists|r: Seq<u8>|
            f.0 == node.children@[i].0@ + r && #[trigger] child_entries(node.children@[i].1).contains((r, f.1)),
{
    let length = node.prefix_length as int;
    assert forall|f: EntryBytes| #[trigger] children_entries(node.children@).contains(f) && is_prefix(f.0, input) implies exists|r: Seq<u8>|
        f.0 == node.children@[i].0@ + r && #[trigger] child_entries(node.children@[i].1).contains((r, f.1)) by {
        lemma_children_entry(node.children@, f.0, f.1);
        let (j, rest) = choose|j: int, rest: Seq<u8>| 0 <= j < node.children@.len() && f.0 == node.children@[j].0@ + rest
            && #[trigger] child_entries(node.children@[j].1).contains((rest, f.1));
        assert(node.children@[j].0@.len() == length);
        assert(input.take(length) =~= node.children@[j].0@) by {
            assert forall|k: int| 0 <= k < length implies input.take(length)[k] == node.children@[j].0@[k] by {
                assert(input.take(f.0.len() as int)[k] == f.0[k]);
            }
        }
        if i != j {
            if i < j {
                assert(node.children@[i].0@ != node.children@[j].0@);
            } else {
                assert(node.children@[j].0@ != node.children@[i].0@);
            }
        }
    }
}

/// When no child prefix begins the input, no entry of the children has a key beginning it.
proof fn lemma_no_child_prefix(node: TreeNode, input: Seq<u8>)
    requires
        node.prefix_length > 0,
        forall|j: int| 0 <= j < node.children@.len() ==> (#[trigger] node.children@[j]).0@.len() == node.prefix_length,
        input.len() < node.prefix_length || forall|j: int| 0 <= j < node.children@.len() ==> (#[trigger] node.children@[j]).0@
            != input.take(node.prefix_length as int),
    ensures
        forall|f: EntryBytes| #[trigger] children_entries(node.children@).contains(f) ==> !is_prefix(f.0, input),
{
    let length = node.prefix_length as int;
    assert forall|f: EntryBytes| #[trigger] children_entries(node.children@).contains(f) implies !is_prefix(f.0, input) by {
        lemma_children_entry(node.children@, f.0, f.1);
        let (j, rest) = choose|j: int, rest: Seq<u8>| 0 <= j < node.children@.len() && f.0 == node.children@[j].0@ + rest
            && #[trigger] child_entries(node.children@[j].1).contains((rest, f.1));
        if is_prefix(f.0, input) {
            assert(input.take(length) =~= node.children@[j].0@) by {
                assert forall|k: int| 0 <= k < length implies input.take(length)[k] == node.children@[j].0@[k] by {
                    assert(input.take(f.0.len() as int)[k] == f.0[k]);
                }
            }
        }
    }
}

/// When no entry of the children begins the input, the node's own translation, if any, is the
/// longest match.
proof fn lemma_own_longest(node: TreeNode, input: Seq<u8>)
    requires
        forall|f: EntryBytes| #[trigger] children_entries(node.children@).contains(f) ==> !is_prefix(f.0, input),
    ensures
        node.leaf_data is Some ==> longest_prefix_entry(tree_entries(node), input, (Seq::<u8>::empty(), node.leaf_data->0@)),
        node.leaf_data is None ==> !has_prefix_entry(tree_entries(node), input),
{
    assert(input.take(0) =~= Seq::<u8>::empty());
    let own = match node.leaf_data {
        Some(d) => super::tree::leaf_entry(d@),
        None => Set::<EntryBytes>::empty(),
    };
    assert(tree_entries(node) == own + children_entries(node.children@));
    if node.leaf_data is Some {
        let e = (Seq::<u8>::empty(), node.leaf_data->0@);
        assert(own.contains(e));
        assert(tree_entries(node).contains(e));
        assert(is_prefix(e.0, input));
        assert forall|f: EntryBytes| #[trigger] tree_entries(node).contains(f) && is_prefix(f.0, input) implies f.0.len() <= e.0.len() by {
            if own.contains(f) {
                assert(f == e);
            }
        }
    } else {
        assert forall|f: EntryBytes| #[trigger] tree_entries(node).contains(f) implies !is_prefix(f.0, input) by {
            assert(children_entries(node.children@).contains(f));
        }
    }
}

/// Walking down a serialized searchable node ends at the translation of the entry whose key is
/// the longest beginning of the input, having consumed that key; without such an entry it
/// gives back what was recorded above the node.
#[verifier::spinoff_prover]
#[verifier::rlimit(60)]
proof fn lemma_walk_longest(
    data: Seq<u8>,
    root: u32,
    location: int,
    node: TreeNode,
    table: Seq<(Seq<CommandView>, usize)>,
    input: Seq<u8>,
    consumed: nat,
    latest: Option<crate::dict::tree::MatchView>,
)
    requires
        root <= location < 0x100_0000,
        location + serialized_node(node, location, table).len() <= data.len(),
        data.subrange(location, location + serialized_node(node, location, table).len()) == serialized_node(
            node,
            location,
            table,
        ),
        serializable(node, location, table),
        searchable_node(node),
        stored_below(tree_entries(node), table, root as int),
    ensures
        has_prefix_entry(tree_entries(node), input) ==> exists|e: EntryBytes|
            #[trigger] longest_prefix_entry(tree_entries(node), input, e) && crate::dict::tree::walk(
                data,
                root,
                location as u32,
                input,
                consumed,
                latest,
            ) == Some((super::translations::lookup(table, e.1)->0 as u32, consumed + e.0.len())),
        !has_prefix_entry(tree_entries(node), input) ==> crate::dict::tree::walk(data, root, location as u32, input, consumed, latest)
            == latest,
    decreases node,
{
    let count = node.children@.len();
    let length = node.prefix_length as int;
    let view = crate::dict::tree::node_bytes(data, location);
    let entries = tree_entries(node);
    assert(length * count <= 256) by (nonlinear_arith)
        requires
            length == 1 || length * count <= 256,
            count < 255,
    ;
    lemma_node_view(data, location, node, table);
    assert(location as u32 as int == location);
    let rec = recorded(view, consumed, latest);
    if node.leaf_data is Some {
        let d = node.leaf_data->0@;
        assert(super::tree::leaf_entry(d).contains((Seq::<u8>::empty(), d)));
        assert(entries.contains((Seq::<u8>::empty(), d)));
        assert(rec == Some((super::translations::lookup(table, d)->0 as u32, consumed)));
    } else {
        assert(rec == latest);
    }
    if input.len() >= length && exists|i: int| 0 <= i < count && (#[trigger] node.children@[i]).0@ == input.take(length) {
        let i = choose|i: int| 0 <= i < count && (#[trigger] node.children@[i]).0@ == input.take(length);
        let prefix = node.children@[i].0@;
        let rest = input.skip(length);
        assert(input =~= prefix + rest);
        lemma_through_child(node, input, i);
        lemma_walk_child(data, root, location, node, table, i, rest, consumed, latest);
        lemma_walk_longest_child(data, root, location, node, table, input, consumed, latest, i);
    } else {
        lemma_no_child_prefix(node, input);
        lemma_own_longest(node, input);
        if input.len() > 0 && input.len() >= length {
            assert forall|j: int| 0 <= j < crate::dict::tree::child_count(view) implies crate::dict::tree::child_prefix(view, j)
                != input.subrange(0, crate::dict::tree::prefix_length(view)) by {
                assert(input.subrange(0, length) =~= input.take(length));
                assert(crate::dict::tree::child_prefix(view, j) == node.children@[j].0@);
            }
            lemma_find_none(view, input, 0);
        }
        assert(crate::dict::tree::walk(data, root, location as u32, input, consumed, latest) == rec);
    }
}

/// The step of [`lemma_walk_longest`] through the child whose prefix begins the input.
#[verifier::spinoff_prover]
#[verifier::rlimit(60)]
proof fn lemma_walk_longest_child(
    data: Seq<u8>,
    root: u32,
    location: int,
    node: TreeNode,
    table: Seq<(Seq<CommandView>, usize)>,
    input: Seq<u8>,
    consumed: nat,
    latest: Option<crate::dict::tree::MatchView>,
    i: int,
)
    requires
        root <= location < 0x100_0000,
        location + serialized_node(node, location, table).len() <= data.len(),
        data.subrange(location, location + serialized_node(node, location, table).len()) == serialized_node(
            node,
            location,
            table,
        ),
        serializable(node, location, table),
        searchable_node(node),
        stored_below(tree_entries(node), table, root as int),
        0 <= i < node.children@.len(),
        node.prefix_length <= input.len(),
        node.children@[i].0@ == input.take(node.prefix_length as int),
        input == node.children@[i].0@ + input.skip(node.prefix_length as int),
        forall|f: EntryBytes| #[trigger] children_entries(node.children@).contains(f) && is_prefix(f.0, input) ==> exists|r: Seq<u8>|
            f.0 == node.children@[i].0@ + r && #[trigger] child_entries(node.children@[i].1).contains((r, f.1)),
        node.leaf_data is Some ==> recorded(crate::dict::tree::node_bytes(data, location), consumed, latest) == Some(
            (super::translations::lookup(table, node.leaf_data->0@)->0 as u32, consumed),
        ),
        node.leaf_data is None ==> recorded(crate::dict::tree::node_bytes(data, location), consumed, latest) == latest,
        ({
            let rest = input.skip(node.prefix_length as int);
            let view = crate::dict::tree::node_bytes(data, location);
            let at = pointer_array_end(node, location) + children_size(node.children@.take(i));
            let target = child_target(node.children@[i].1, at, table);
            let next = consumed + node.prefix_length as nat;
            &&& 0 <= target < 0x100_0000
            &&& target < root ==> crate::dict::tree::walk(data, root, location as u32, input, consumed, latest) == Some(
                (target as u32, next),
            )
            &&& target >= root ==> crate::dict::tree::walk(data, root, location as u32, input, consumed, latest)
                == crate::dict::tree::walk(data, root, target as u32, rest, next, recorded(view, consumed, latest))
        }),
    ensures
        has_prefix_entry(tree_entries(node), input) ==> exists|e: EntryBytes|
            #[trigger] longest_prefix_entry(tree_entries(node), input, e) && crate::dict::tree::walk(
                data,
                root,
                location as u32,
                input,
                consumed,
                latest,
            ) == Some((super::translations::lookup(table, e.1)->0 as u32, consumed + e.0.len())),
        !has_prefix_entry(tree_entries(node), input) ==> crate::dict::tree::walk(data, root, location as u32, input, consumed, latest)
            == latest,
    decreases node, 0int,
{
    let length = node.prefix_length as int;
    let entries = tree_entries(node);
    let prefix = node.children@[i].0@;
    let rest = input.skip(length);
    let view = crate::dict::tree::node_bytes(data, location);
    let rec = recorded(view, consumed, latest);
    let at = pointer_array_end(node, location) + children_size(node.children@.take(i));
    assert(input.take(length) == prefix);
    assert(is_prefix(prefix, input));
    match node.children@[i].1 {
        Child::Leaf(d) => {
            assert(super::tree::leaf_entry(d@).contains((Seq::<u8>::empty(), d@)));
            lemma_child_entry_in(node.children@, i, (Seq::<u8>::empty(), d@));
            assert(prefix + Seq::<u8>::empty() =~= prefix);
            let e = (prefix, d@);
            assert(entries.contains(e));
            assert forall|f: EntryBytes| #[trigger] entries.contains(f) && is_prefix(f.0, input) implies f.0.len() <= e.0.len() by {
                if children_entries(node.children@).contains(f) {
                    let r = choose|r: Seq<u8>| f.0 == prefix + r && #[trigger] child_entries(node.children@[i].1).contains((r, f.1));
                    assert(super::tree::leaf_entry(d@).contains((r, f.1)));
                    assert(r == Seq::<u8>::empty());
                }
            }
            assert(longest_prefix_entry(entries, input, e));
        },
        Child::Tree(child) => {
            lemma_child_placed(data, location, node, table, i);
            lemma_searchable_at(node.children@, i);
            assert(decreases_to!(node => node.children@[i].1));
            assert forall|g: EntryBytes| #[trigger] tree_entries(child).contains(g) implies super::translations::lookup(table, g.1) is Some
                && 4 <= super::translations::lookup(table, g.1)->0 < root by {
                lemma_child_entry_in(node.children@, i, g);
                assert(entries.contains((prefix + g.0, g.1)));
            }
            lemma_walk_longest(data, root, at, child, table, rest, consumed + length as nat, rec);
            if has_prefix_entry(tree_entries(child), rest) {
                let e2 = choose|e2: EntryBytes| #[trigger] longest_prefix_entry(tree_entries(child), rest, e2)
                    && crate::dict::tree::walk(data, root, at as u32, rest, consumed + length as nat, rec) == Some(
                    (super::translations::lookup(table, e2.1)->0 as u32, consumed + length as nat + e2.0.len()),
                );
                lemma_child_entry_in(node.children@, i, e2);
                let e = (prefix + e2.0, e2.1);
                lemma_prefix_split(prefix, e2.0, input);
                assert forall|f: EntryBytes| #[trigger] entries.contains(f) && is_prefix(f.0, input) implies f.0.len() <= e.0.len() by {
                    if children_entries(node.children@).contains(f) {
                        let r = choose|r: Seq<u8>| f.0 == prefix + r && #[trigger] child_entries(node.children@[i].1).contains((r, f.1));
                        lemma_prefix_split(prefix, r, input);
                        assert(tree_entries(child).contains((r, f.1)));
                    }
                }
                assert(longest_prefix_entry(entries, input, e));
            } else {
                assert forall|f: EntryBytes| #[trigger] children_entries(node.children@).contains(f) implies !is_prefix(f.0, input) by {
                    if is_prefix(f.0, input) {
                        let r = choose|r: Seq<u8>| f.0 == prefix + r && #[trigger] child_entries(node.children@[i].1).contains((r, f.1));
                        lemma_prefix_split(prefix, r, input);
                        assert(tree_entries(child).contains((r, f.1)));
                    }
                }
                lemma_own_longest(node, input);
            }
        },
    }
}

/// Every entry of a searchable tree reads back from its compiled layout: walking down from the
/// root with the entry's key consumes the whole key and ends at a translation that decodes to
/// the entry's commands.
pub proof fn lemma_entries_read_back(tree: TreeNode, data: Seq<u8>, key: Seq<u8>, list: Seq<CommandView>)
    requires
        super::compiled_layout(tree, data),
        searchable_node(tree),
        tree_entries(tree).contains((key, list)),
    ensures
        ({
            let root = super::root_location(data);
            crate::dict::tree::walk(data, root, root, key, 0, None) matches Some(found) && found.1 == key.len()
                && crate::dict::format::decode_commands(crate::dict::tree::translation_bytes(data, found.0 as int), 0)
                == Some(list)
        }),
{
    let root = super::root_location(data);
    let table = choose|table: Seq<(Seq<CommandView>, usize)>| #[trigger] super::layout_with_table(tree, data, table);
    assert(super::layout_with_table(tree, data, table));
    let serialized = serialized_node(tree, root as int, table);
    assert(data.subrange(root as int, root + serialized.len()) =~= serialized);
    super::tree::lemma_lists_of_entries(tree, list);
    assert(super::stored_at(data, table, list, root as int));
    assert(super::translations::storable(list));
    let encoded = crate::dict::format::encode_commands(list);
    let offset = super::translations::lookup(table, list)->0;
    assert(encoded.len() >= 1);
    lemma_walk(data, root, root as int, tree, table, key, list, 0, None);
    let bytes = crate::dict::tree::translation_bytes(data, offset as int);
    assert(bytes.subrange(0, encoded.len() as int) =~= encoded) by {
        assert forall|k: int| 0 <= k < encoded.len() implies bytes[k] == encoded[k] by {
            assert(data.subrange(offset as int, offset + encoded.len())[k] == encoded[k]);
        }
    }
    crate::dict::format::lemma_decode_encode_commands(list, bytes, 0);
}

/// Location of the translation a walk found.
pub open spec fn found_location(found: Option<crate::dict::tree::MatchView>) -> int {
    match found {
        Some(m) => m.0 as int,
        None => 0,
    }
}

/// Number of bytes a walk consumed up to the translation it found.
pub open spec fn found_consumed(found: Option<crate::dict::tree::MatchView>) -> nat {
    match found {
        Some(m) => m.1,
        None => 0,
    }
}

/// Looking up any input in a compiled searchable tree finds the entry whose key is the longest
/// beginning of the input: the walk consumes that key and ends at a translation that decodes to
/// the entry's commands. When no key begins the input, nothing is found.
pub proof fn lemma_longest_prefix_read_back(tree: TreeNode, data: Seq<u8>, input: Seq<u8>)
    requires
        super::compiled_layout(tree, data),
        searchable_node(tree),
    ensures
        ({
            let root = super::root_location(data);
            let found = crate::dict::tree::walk(data, root, root, input, 0, None);
            &&& has_prefix_entry(tree_entries(tree), input) ==> exists|e: EntryBytes|
                #[trigger] longest_prefix_entry(tree_entries(tree), input, e) && found is Some && found_consumed(found)
                    == e.0.len() && crate::dict::format::decode_commands(
                    crate::dict::tree::translation_bytes(data, found_location(found)),
                    0,
                ) == Some(e.1)
            &&& !has_prefix_entry(tree_entries(tree), input) ==> found is None
        }),
{
    let root = super::root_location(data);
    let table = choose|table: Seq<(Seq<CommandView>, usize)>| #[trigger] super::layout_with_table(tree, data, table);
    assert(super::layout_with_table(tree, data, table));
    let serialized = serialized_node(tree, root as int, table);
    assert(data.subrange(root as int, root + serialized.len()) =~= serialized);
    assert forall|e: EntryBytes| #[trigger] tree_entries(tree).contains(e) implies super::translations::lookup(table, e.1) is Some
        && 4 <= super::translations::lookup(table, e.1)->0 < root by {
        super::tree::lemma_lists_of_entries(tree, e.1);
        assert(tree_entries(tree).contains((e.0, e.1)));
        assert(super::tree::tree_lists(tree).contains(e.1));
        assert(super::stored_at(data, table, e.1, root as int));
        assert(crate::dict::format::encode_commands(e.1).len() >= 1);
    }
    lemma_walk_longest(data, root, root as int, tree, table, input, 0, None);
    if has_prefix_entry(tree_entries(tree), input) {
        let e = choose|e: EntryBytes| #[trigger] longest_prefix_entry(tree_entries(tree), input, e) && crate::dict::tree::walk(
            data,
            root,
            root,
            input,
            0,
            None,
        ) == Some((super::translations::lookup(table, e.1)->0 as u32, 0 + e.0.len()));
        let list = e.1;
        super::tree::lemma_lists_of_entries(tree, list);
        assert(tree_entries(tree).contains((e.0, list)));
        assert(super::tree::tree_lists(tree).contains(list));
        assert(super::stored_at(data, table, list, root as int));
        assert(super::translations::storable(list));
        let encoded = crate::dict::format::encode_commands(list);
        let offset = super::translations::lookup(table, list)->0;
        assert(encoded.len() >= 1);
        let bytes = crate::dict::tree::translation_bytes(data, offset as int);
        assert(bytes.subrange(0, encoded.len() as int) =~= encoded) by {
            assert forall|k: int| 0 <= k < encoded.len() implies bytes[k] == encoded[k] by {
                assert(data.subrange(offset as int, offset + encoded.len())[k] == encoded[k]);
            }
        }
        crate::dict::format::lemma_decode_encode_commands(list, bytes, 0);
    }
}

} // verus!
