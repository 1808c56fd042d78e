//! Statistics about a radix tree built by the compiler: how many nodes each layer holds,
//! their prefix lengths and child counts, and an estimate of the serialized size.
//!
//! A layer is the distance of a node from the root. The nodes are visited depth first, a node
//! before its children, and the statistics of a layer list the values of its nodes in that order.
use super::json::dict::CommandList;
use super::tree::{child_lists, child_size, children_lists, children_size, node_size, tree_lists, Child, TreeNode};
use crate::dict::format::{encode_command, encode_commands, encode_commands_body};
use crate::formatter::{CommandView, GenericFormatterCommand};
use vstd::prelude::*;

verus! {

/// What is recorded of a node: its layer, prefix length, child count, number of leaf
/// children, and whether it holds a translation itself.
pub type Visit = (nat, nat, nat, nat, bool);

/// Number of children that are leaves.
pub open spec fn leaf_child_count(children: Seq<(Vec<u8>, Child)>) -> nat
    decreases children.len(),
{
    if children.len() == 0 {
        0
    } else {
        leaf_child_count(children.drop_last()) + if children.last().1 is Leaf { 1nat } else { 0nat }
    }
}

/// What is recorded of a node at the given layer.
pub open spec fn node_visit(node: TreeNode, layer: nat) -> Visit {
    (
        layer,
        node.prefix_length as nat,
        node.children@.len(),
        leaf_child_count(node.children@),
        node.leaf_data is Some,
    )
}

/// Visits of a node at the given layer and of its descendants, a node before its children.
pub open spec fn visits(node: TreeNode, layer: nat) -> Seq<Visit>
    decreases node,
{
    seq![node_visit(node, layer)] + children_visits(node.children@, layer + 1)
}

/// Visits of the nodes held by a sequence of children at the given layer.
pub open spec fn children_visits(children: Seq<(Vec<u8>, Child)>, layer: nat) -> Seq<Visit>
    decreases children,
{
    if children.len() == 0 {
        Seq::empty()
    } else {
        children_visits(children.drop_last(), layer) + child_visits(children[children.len() - 1].1, layer)
    }
}

/// Visits of the nodes held by a child at the given layer: none for a leaf.
pub open spec fn child_visits(child: Child, layer: nat) -> Seq<Visit>
    decreases child,
{
    match child {
        Child::Leaf(_) => Seq::empty(),
        Child::Tree(node) => visits(node, layer),
    }
}

/// One more than the deepest layer visited, or zero if nothing was visited.
pub open spec fn layer_count(vs: Seq<Visit>) -> nat
    decreases vs.len(),
{
    if vs.len() == 0 {
        0
    } else {
        let rest = layer_count(vs.drop_last());
        if vs.last().0 + 1 > rest { vs.last().0 + 1 } else { rest }
    }
}

/// The visits at the given layer, in order.
pub open spec fn at_layer(vs: Seq<Visit>, layer: nat) -> Seq<Visit>
    decreases vs.len(),
{
    if vs.len() == 0 {
        Seq::empty()
    } else {
        let rest = at_layer(vs.drop_last(), layer);
        if vs.last().0 == layer { rest.push(vs.last()) } else { rest }
    }
}

/// The non-zero prefix lengths of the visits, in order.
pub open spec fn prefix_lengths_of(vs: Seq<Visit>) -> Seq<nat>
    decreases vs.len(),
{
    if vs.len() == 0 {
        Seq::empty()
    } else {
        let rest = prefix_lengths_of(vs.drop_last());
        if vs.last().1 > 0 { rest.push(vs.last().1) } else { rest }
    }
}

/// The child counts of the visits, in order.
pub open spec fn child_counts_of(vs: Seq<Visit>) -> Seq<nat> {
    vs.map_values(|v: Visit| v.2)
}

/// The leaf child counts of the visits, in order.
pub open spec fn leaf_child_counts_of(vs: Seq<Visit>) -> Seq<nat> {
    vs.map_values(|v: Visit| v.3)
}

/// Number of visited nodes holding a translation.
pub open spec fn translated_count(vs: Seq<Visit>) -> nat
    decreases vs.len(),
{
    if vs.len() == 0 {
        0
    } else {
        translated_count(vs.drop_last()) + if vs.last().4 { 1nat } else { 0nat }
    }
}

/// Total size of the prefix arrays of the visited nodes.
pub open spec fn key_total(vs: Seq<Visit>) -> nat
    decreases vs.len(),
{
    if vs.len() == 0 {
        0
    } else {
        key_total(vs.drop_last()) + vs.last().1 * vs.last().2
    }
}

/// Total number of children of the visited nodes.
pub open spec fn child_total(vs: Seq<Visit>) -> nat
    decreases vs.len(),
{
    if vs.len() == 0 {
        0
    } else {
        child_total(vs.drop_last()) + vs.last().2
    }
}

/// The values as mathematical integers.
pub open spec fn nats(values: Seq<usize>) -> Seq<nat> {
    values.map_values(|v: usize| v as nat)
}

/// The translations in order of first occurrence, without repetitions.
pub open spec fn distinct(lists: Seq<Seq<CommandView>>) -> Seq<Seq<CommandView>>
    decreases lists.len(),
{
    if lists.len() == 0 {
        Seq::empty()
    } else {
        let rest = distinct(lists.drop_last());
        if rest.contains(lists.last()) { rest } else { rest.push(lists.last()) }
    }
}

/// Total serialized size of the translations.
pub open spec fn lists_size(lists: Seq<Seq<CommandView>>) -> nat
    decreases lists.len(),
{
    if lists.len() == 0 {
        0
    } else {
        lists_size(lists.drop_last()) + encode_commands(lists.last()).len()
    }
}

/// The statistics of the visits fit into machine integers.
pub open spec fn fits(vs: Seq<Visit>) -> bool {
    &&& 5 * vs.len() <= usize::MAX
    &&& key_total(vs) <= usize::MAX
    &&& 3 * child_total(vs) <= usize::MAX
    &&& layer_count(vs) <= usize::MAX
}

/// The statistics of a tree fit into machine integers.
pub open spec fn tree_fits(node: TreeNode) -> bool {
    fits(visits(node, 0)) && lists_size(distinct(tree_lists(node))) <= usize::MAX
}

proof fn lemma_children_visits_append(a: Seq<(Vec<u8>, Child)>, b: Seq<(Vec<u8>, Child)>, layer: nat)
    ensures
        children_visits(a + b, layer) == children_visits(a, layer) + children_visits(b, layer),
    decreases b.len(),
{
    if b.len() == 0 {
        assert(a + b =~= a);
        assert(children_visits(a, layer) + children_visits(b, layer) =~= children_visits(a, layer));
    } else {
        lemma_children_visits_append(a, b.drop_last(), layer);
        assert((a + b).drop_last() =~= a + b.drop_last());
        assert((a + b)[(a + b).len() - 1] == b[b.len() - 1]);
        assert(children_visits(a + b, layer) =~= children_visits(a, layer) + children_visits(b, layer));
    }
}

proof fn lemma_children_lists_append(a: Seq<(Vec<u8>, Child)>, b: Seq<(Vec<u8>, Child)>)
    ensures
        children_lists(a + b) == children_lists(a) + children_lists(b),
    decreases b.len(),
{
    if b.len() == 0 {
        assert(a + b =~= a);
        assert(children_lists(a) + children_lists(b) =~= children_lists(a));
    } else {
        lemma_children_lists_append(a, b.drop_last());
        assert((a + b).drop_last() =~= a + b.drop_last());
        assert((a + b)[(a + b).len() - 1] == b[b.len() - 1]);
        assert(children_lists(a + b) =~= children_lists(a) + children_lists(b));
    }
}

/// The statistics of a prefix are at most those of the whole sequence.
proof fn lemma_fits_prefix(vs: Seq<Visit>, k: int)
    requires
        0 <= k <= vs.len(),
    ensures
        key_total(vs.take(k)) <= key_total(vs),
        child_total(vs.take(k)) <= child_total(vs),
        layer_count(vs.take(k)) <= layer_count(vs),
        fits(vs) ==> fits(vs.take(k)),
    decreases vs.len(),
{
    if k == vs.len() {
        assert(vs.take(k) =~= vs);
    } else {
        lemma_fits_prefix(vs.drop_last(), k);
        assert(vs.drop_last().take(k) =~= vs.take(k));
    }
}

proof fn lemma_lists_size_prefix(lists: Seq<Seq<CommandView>>, k: int)
    requires
        0 <= k <= lists.len(),
    ensures
        lists_size(lists.take(k)) <= lists_size(lists),
    decreases lists.len(),
{
    if k == lists.len() {
        assert(lists.take(k) =~= lists);
    } else {
        lemma_lists_size_prefix(lists.drop_last(), k);
        assert(lists.drop_last().take(k) =~= lists.take(k));
    }
}

proof fn lemma_distinct_size(lists: Seq<Seq<CommandView>>)
    ensures
        lists_size(distinct(lists)) <= lists_size(lists),
    decreases lists.len(),
{
    if lists.len() > 0 {
        lemma_distinct_size(lists.drop_last());
        let rest = distinct(lists.drop_last());
        if !rest.contains(lists.last()) {
            assert(rest.push(lists.last()).drop_last() =~= rest);
        }
    }
}

/// The distinct translations of a beginning of the lists take no more room than those of all
/// of them.
proof fn lemma_distinct_size_prefix(lists: Seq<Seq<CommandView>>, k: int)
    requires
        0 <= k <= lists.len(),
    ensures
        lists_size(distinct(lists.take(k))) <= lists_size(distinct(lists)),
    decreases lists.len(),
{
    if k < lists.len() {
        lemma_distinct_size_prefix(lists.drop_last(), k);
        assert(lists.drop_last().take(k) =~= lists.take(k));
        let rest = distinct(lists.drop_last());
        if !rest.contains(lists.last()) {
            assert(rest.push(lists.last()).drop_last() =~= rest);
        }
    } else {
        assert(lists.take(k) =~= lists);
    }
}

/// The distinct translations hold a translation exactly when the lists do.
proof fn lemma_distinct_contains(lists: Seq<Seq<CommandView>>, l: Seq<CommandView>)
    ensures
        distinct(lists).contains(l) <==> lists.contains(l),
    decreases lists.len(),
{
    if lists.len() > 0 {
        let init = lists.drop_last();
        lemma_distinct_contains(init, l);
        let rest = distinct(init);
        if lists.contains(l) {
            let k = choose|k: int| 0 <= k < lists.len() && lists[k] == l;
            if k < lists.len() - 1 {
                assert(init[k] == l);
            }
            if !rest.contains(lists.last()) {
                assert(rest.push(lists.last())[rest.len() as int] == lists.last());
            }
        } else {
            assert forall|k: int| 0 <= k < init.len() implies init[k] != l by {
                assert(lists[k] == init[k]);
            }
        }
        if !rest.contains(lists.last()) && rest.push(lists.last()).contains(l) {
            let k = choose|k: int| 0 <= k < rest.len() + 1 && rest.push(lists.last())[k] == l;
            if k < rest.len() {
                assert(rest[k] == l);
            } else {
                assert(lists[lists.len() - 1] == l);
            }
        }
        if !rest.contains(lists.last()) && rest.contains(l) {
            let k = choose|k: int| 0 <= k < rest.len() && rest[k] == l;
            assert(rest.push(lists.last())[k] == l);
        }
    }
}

/// The distinct translations of `before + lists` take the room of those of `before` and the
/// encodings of the lists that `before` does not hold, each stored once.
proof fn lemma_distinct_encodings_size(before: Seq<Seq<CommandView>>, lists: Seq<Seq<CommandView>>)
    ensures
        lists_size(distinct(before + lists)) == lists_size(distinct(before)) + super::translations::distinct_encodings(
            lists,
            before.to_set(),
        ).len(),
    decreases lists.len(),
{
    if lists.len() == 0 {
        assert(before + lists =~= before);
    } else {
        let x = lists[0];
        let next = before.push(x);
        assert(before + lists =~= next + lists.drop_first());
        lemma_distinct_encodings_size(next, lists.drop_first());
        assert(next.drop_last() =~= before);
        assert(next.last() == x);
        lemma_distinct_contains(before, x);
        assert(before.to_set().contains(x) <==> before.contains(x));
        if before.contains(x) {
            assert(next.to_set() =~= before.to_set()) by {
                assert forall|l: Seq<CommandView>| next.to_set().contains(l) implies before.to_set().contains(l) by {
                    let k = choose|k: int| 0 <= k < next.len() && next[k] == l;
                    if k < before.len() {
                        assert(before[k] == l);
                    }
                }
                assert forall|l: Seq<CommandView>| before.to_set().contains(l) implies next.to_set().contains(l) by {
                    let k = choose|k: int| 0 <= k < before.len() && before[k] == l;
                    assert(next[k] == l);
                }
            }
        } else {
            assert(next.to_set() =~= before.to_set().insert(x)) by {
                assert forall|l: Seq<CommandView>| next.to_set().contains(l) implies before.to_set().insert(x).contains(l) by {
                    let k = choose|k: int| 0 <= k < next.len() && next[k] == l;
                    if k < before.len() {
                        assert(before[k] == l);
                    }
                }
                assert forall|l: Seq<CommandView>| before.to_set().insert(x).contains(l) implies next.to_set().contains(l) by {
                    if l == x {
                        assert(next[before.len() as int] == l);
                    } else {
                        let k = choose|k: int| 0 <= k < before.len() && before[k] == l;
                        assert(next[k] == l);
                    }
                }
            }
            let rest = distinct(before);
            assert(rest.push(x).drop_last() =~= rest);
        }
    }
}

/// The distinct translations take the room of their encodings in the compiled format.
pub(crate) proof fn lemma_lists_size_encodings(lists: Seq<Seq<CommandView>>)
    ensures
        lists_size(distinct(lists)) == super::translations::distinct_encodings(lists, Set::empty()).len(),
{
    let none = Seq::<Seq<CommandView>>::empty();
    lemma_distinct_encodings_size(none, lists);
    assert(none + lists =~= lists);
    assert(none.to_set() =~= Set::<Seq<CommandView>>::empty());
}

/// The layer count of two runs of visits is the larger of theirs.
proof fn lemma_layer_count_append(a: Seq<Visit>, b: Seq<Visit>)
    ensures
        layer_count(a + b) == if layer_count(a) >= layer_count(b) { layer_count(a) } else { layer_count(b) },
    decreases b.len(),
{
    if b.len() == 0 {
        assert(a + b =~= a);
    } else {
        lemma_layer_count_append(a, b.drop_last());
        assert((a + b).drop_last() =~= a + b.drop_last());
        assert((a + b).last() == b.last());
    }
}

/// A tree visited from a layer reaches no deeper than one layer per visited node.
proof fn lemma_node_layers(node: TreeNode, layer: nat)
    ensures
        layer_count(visits(node, layer)) <= layer + visits(node, layer).len(),
    decreases node,
{
    let v = seq![node_visit(node, layer)];
    lemma_children_layers(node.children@, layer + 1);
    lemma_layer_count_append(v, children_visits(node.children@, layer + 1));
    assert(v.drop_last() =~= Seq::<Visit>::empty());
    assert(layer_count(Seq::<Visit>::empty()) == 0);
    assert(v.last() == node_visit(node, layer));
    assert(layer_count(v) == layer + 1);
    assert(visits(node, layer) == v + children_visits(node.children@, layer + 1));
}

proof fn lemma_children_layers(children: Seq<(Vec<u8>, Child)>, layer: nat)
    ensures
        layer_count(children_visits(children, layer)) <= layer + children_visits(children, layer).len(),
    decreases children,
{
    if children.len() > 0 {
        let last = children[children.len() - 1].1;
        lemma_children_layers(children.drop_last(), layer);
        lemma_child_layers(last, layer);
        lemma_layer_count_append(children_visits(children.drop_last(), layer), child_visits(last, layer));
    }
}

proof fn lemma_child_layers(child: Child, layer: nat)
    ensures
        layer_count(child_visits(child, layer)) <= layer + child_visits(child, layer).len(),
    decreases child,
{
    match child {
        Child::Leaf(_) => {},
        Child::Tree(node) => {
            lemma_node_layers(node, layer);
        },
    }
}

/// A tree whose serialization and distinct translations fit in memory has statistics that fit
/// into machine integers.
pub(crate) proof fn lemma_tree_fits(node: TreeNode, room: nat)
    requires
        node_size(node) <= room,
        super::translations::distinct_encodings(tree_lists(node), Set::empty()).len() <= room,
        room <= usize::MAX,
    ensures
        tree_fits(node),
{
    lemma_node_visits_size(node, 0);
    lemma_node_layers(node, 0);
    lemma_lists_size_encodings(tree_lists(node));
}

/// Every visited layer is below the layer count.
proof fn lemma_layer_count_bound(vs: Seq<Visit>, i: int)
    requires
        0 <= i < vs.len(),
    ensures
        vs[i].0 < layer_count(vs),
    decreases vs.len(),
{
    if i < vs.len() - 1 {
        lemma_layer_count_bound(vs.drop_last(), i);
    }
}

/// No visit lies at or beyond the layer count.
proof fn lemma_at_layer_beyond(vs: Seq<Visit>, layer: nat)
    requires
        layer >= layer_count(vs),
    ensures
        at_layer(vs, layer).len() == 0,
    decreases vs.len(),
{
    if vs.len() > 0 {
        lemma_at_layer_beyond(vs.drop_last(), layer);
    }
}

proof fn lemma_at_layer_len(vs: Seq<Visit>, layer: nat)
    ensures
        at_layer(vs, layer).len() <= vs.len(),
    decreases vs.len(),
{
    if vs.len() > 0 {
        lemma_at_layer_len(vs.drop_last(), layer);
    }
}

proof fn lemma_count_bound(vs: Seq<Visit>)
    ensures
        translated_count(vs) <= vs.len(),
        prefix_lengths_of(vs).len() <= vs.len(),
    decreases vs.len(),
{
    if vs.len() > 0 {
        lemma_count_bound(vs.drop_last());
    }
}

/// How each statistic changes when one more visit is recorded.
proof fn lemma_push_visit(vs: Seq<Visit>, v: Visit)
    ensures
        layer_count(vs.push(v)) == if v.0 + 1 > layer_count(vs) { v.0 + 1 } else { layer_count(vs) },
        forall|layer: nat| #[trigger] at_layer(vs.push(v), layer) == if v.0 == layer {
            at_layer(vs, layer).push(v)
        } else {
            at_layer(vs, layer)
        },
        key_total(vs.push(v)) == key_total(vs) + v.1 * v.2,
        child_total(vs.push(v)) == child_total(vs) + v.2,
{
    assert(vs.push(v).drop_last() =~= vs);
    assert forall|layer: nat| #[trigger] at_layer(vs.push(v), layer) == if v.0 == layer {
        at_layer(vs, layer).push(v)
    } else {
        at_layer(vs, layer)
    } by {
        assert(vs.push(v).drop_last() =~= vs);
    }
}

/// How the layer statistics change when one more visit is recorded at its layer.
proof fn lemma_push_layer(vs: Seq<Visit>, v: Visit)
    ensures
        prefix_lengths_of(vs.push(v)) == if v.1 > 0 { prefix_lengths_of(vs).push(v.1) } else { prefix_lengths_of(vs) },
        child_counts_of(vs.push(v)) == child_counts_of(vs).push(v.2),
        leaf_child_counts_of(vs.push(v)) == leaf_child_counts_of(vs).push(v.3),
        translated_count(vs.push(v)) == translated_count(vs) + if v.4 { 1nat } else { 0nat },
{
    assert(vs.push(v).drop_last() =~= vs);
    assert(child_counts_of(vs.push(v)) =~= child_counts_of(vs).push(v.2));
    assert(leaf_child_counts_of(vs.push(v)) =~= leaf_child_counts_of(vs).push(v.3));
}

/// Sum of the values.
pub open spec fn total(values: Seq<usize>) -> nat
    decreases values.len(),
{
    if values.len() == 0 {
        0
    } else {
        total(values.drop_last()) + values.last() as nat
    }
}

/// Largest of the values, zero if there are none.
pub open spec fn largest(values: Seq<usize>) -> usize
    decreases values.len(),
{
    if values.len() == 0 {
        0
    } else {
        let rest = largest(values.drop_last());
        if values.last() > rest { values.last() } else { rest }
    }
}

proof fn lemma_total_update(values: Seq<usize>, i: int, value: usize)
    requires
        0 <= i < values.len(),
    ensures
        total(values.update(i, value)) + values[i] == total(values) + value,
    decreases values.len(),
{
    if i < values.len() - 1 {
        lemma_total_update(values.drop_last(), i, value);
        assert(values.update(i, value).drop_last() =~= values.drop_last().update(i, value));
    } else {
        assert(values.update(i, value).drop_last() =~= values.drop_last());
    }
}

proof fn lemma_total_prefix(values: Seq<usize>, k: int)
    requires
        0 <= k <= values.len(),
    ensures
        total(values.take(k)) <= total(values),
    decreases values.len(),
{
    if k == values.len() {
        assert(values.take(k) =~= values);
    } else {
        lemma_total_prefix(values.drop_last(), k);
        assert(values.drop_last().take(k) =~= values.take(k));
    }
}

/// Views of owned command lists.
pub open spec fn owned_list_views(lists: Seq<CommandList>) -> Seq<Seq<CommandView>> {
    lists.map_values(|l: CommandList| l@)
}

/// Contents of nested vectors.
pub open spec fn nested_views(values: Seq<Vec<usize>>) -> Seq<Seq<usize>> {
    values.map_values(|v: Vec<usize>| v@)
}

/// Estimated serialized size of a tree, by part.
#[derive(Debug, Clone, Copy)]
pub struct TreeSizeInfo {
    /// Node headers
    pub node_overhead: usize,
    /// Prefix arrays
    pub key_array: usize,
    /// Pointer arrays
    pub pointer_array: usize,
    /// Distinct translations
    pub leaf_data: usize,
}

/// Statistics about a radix tree, by layer.
pub struct TreeInfo {
    depth: usize,
    estimated_size: TreeSizeInfo,
    nodes: Vec<usize>,
    prefix_lengths: Vec<Vec<usize>>,
    child_counts: Vec<Vec<usize>>,
    leaf_child_counts: Vec<Vec<usize>>,
    cumulative_leaf_nodes: Vec<usize>,
    seen_translations: Vec<CommandList>,
}

/// Serialized size of a command list: a `Write` takes its byte length plus one, every other
/// command and the terminator one byte each.
fn encoded_size(list: &CommandList) -> (r: usize)
    requires
        encode_commands(list@).len() <= usize::MAX,
    ensures
        r == encode_commands(list@).len(),
{
    let mut size: usize = 0;
    let mut i: usize = 0;
    while i < list.0.len()
        invariant
            i <= list.0@.len(),
            encode_commands(list@).len() <= usize::MAX,
            size == encode_commands_body(list@.take(i as int)).len(),
        decreases list.0@.len() - i,
    {
        proof {
            super::translations::lemma_encode_body_push(list@.take(i as int), list@[i as int]);
            assert(list@.take(i as int).push(list@[i as int]) =~= list@.take(i + 1));
            lemma_body_prefix(list@, i + 1);
        }
        let command_size: usize = match &list.0[i] {
            GenericFormatterCommand::Write(string) => string.as_str().as_bytes().len() + 1,
            _ => 1,
        };
        size = size + command_size;
        i += 1;
    }
    assert(list@.take(list.0@.len() as int) =~= list@);
    size + 1
}

/// The encoding of some of the first commands is at most as long as that of all of them.
proof fn lemma_body_prefix(commands: Seq<CommandView>, k: int)
    requires
        0 <= k <= commands.len(),
    ensures
        encode_commands_body(commands.take(k)).len() <= encode_commands_body(commands).len(),
    decreases commands.len() - k,
{
    if k < commands.len() {
        lemma_body_prefix(commands, k + 1);
        super::translations::lemma_encode_body_push(commands.take(k), commands[k]);
        assert(commands.take(k).push(commands[k]) =~= commands.take(k + 1));
    } else {
        assert(commands.take(k) =~= commands);
    }
}

/// Number of children that are leaves.
fn count_leaf_children(children: &Vec<(Vec<u8>, Child)>) -> (r: usize)
    ensures
        r == leaf_child_count(children@),
{
    let mut count: usize = 0;
    let mut i: usize = 0;
    while i < children.len()
        invariant
            i <= children@.len(),
            count == leaf_child_count(children@.take(i as int)),
            count <= i,
        decreases children@.len() - i,
    {
        assert(children@.take(i + 1).drop_last() =~= children@.take(i as int));
        if let Child::Leaf(_) = &children[i].1 {
            count += 1;
        }
        i += 1;
    }
    assert(children@.take(children@.len() as int) =~= children@);
    count
}

impl TreeInfo {
    pub closed spec fn spec_depth(&self) -> nat {
        self.depth as nat
    }

    pub closed spec fn spec_size(&self) -> TreeSizeInfo {
        self.estimated_size
    }

    /// Number of nodes per layer.
    pub closed spec fn spec_nodes(&self) -> Seq<usize> {
        self.nodes@
    }

    /// Non-zero prefix lengths per layer.
    pub closed spec fn spec_prefix_lengths(&self) -> Seq<Seq<usize>> {
        nested_views(self.prefix_lengths@)
    }

    /// Child counts per layer.
    pub closed spec fn spec_child_counts(&self) -> Seq<Seq<usize>> {
        nested_views(self.child_counts@)
    }

    /// Leaf child counts per layer.
    pub closed spec fn spec_leaf_child_counts(&self) -> Seq<Seq<usize>> {
        nested_views(self.leaf_child_counts@)
    }

    /// Number of nodes holding a translation per layer.
    pub closed spec fn spec_leaf_nodes(&self) -> Seq<usize> {
        self.cumulative_leaf_nodes@
    }

    /// Distinct translations seen, in order of first occurrence.
    pub closed spec fn spec_seen(&self) -> Seq<Seq<CommandView>> {
        owned_list_views(self.seen_translations@)
    }

    /// The per-layer statistics cover the same layers and the node count fits.
    pub closed spec fn wf(&self) -> bool {
        &&& total(self.nodes@) <= usize::MAX
        &&& self.prefix_lengths@.len() == self.nodes@.len()
        &&& self.child_counts@.len() == self.nodes@.len()
        &&& self.leaf_child_counts@.len() == self.nodes@.len()
        &&& self.cumulative_leaf_nodes@.len() == self.nodes@.len()
    }

    /// The statistics are those of the visits `vs` and of the translations `lists`.
    #[verifier::opaque]
    pub open spec fn describes(&self, vs: Seq<Visit>, lists: Seq<Seq<CommandView>>) -> bool {
        let n = layer_count(vs);
        &&& self.spec_depth() == if vs.len() == 0 { 0 } else { (n - 1) as nat }
        &&& self.spec_nodes().len() == n
        &&& self.spec_prefix_lengths().len() == n
        &&& self.spec_child_counts().len() == n
        &&& self.spec_leaf_child_counts().len() == n
        &&& self.spec_leaf_nodes().len() == n
        &&& total(self.spec_nodes()) == vs.len()
        &&& forall|l: int| 0 <= l < n ==> #[trigger] self.spec_nodes()[l] == at_layer(vs, l as nat).len()
        &&& forall|l: int| 0 <= l < n ==> nats(#[trigger] self.spec_prefix_lengths()[l]) == prefix_lengths_of(at_layer(vs, l as nat))
        &&& forall|l: int| 0 <= l < n ==> nats(#[trigger] self.spec_child_counts()[l]) == child_counts_of(at_layer(vs, l as nat))
        &&& forall|l: int| 0 <= l < n ==> nats(#[trigger] self.spec_leaf_child_counts()[l]) == leaf_child_counts_of(at_layer(vs, l as nat))
        &&& forall|l: int| 0 <= l < n ==> #[trigger] self.spec_leaf_nodes()[l] == translated_count(at_layer(vs, l as nat))
        &&& self.spec_size().node_overhead == 5 * vs.len()
        &&& self.spec_size().key_array == key_total(vs)
        &&& self.spec_size().pointer_array == 3 * child_total(vs)
        &&& self.spec_seen() == distinct(lists)
        &&& self.spec_size().leaf_data == lists_size(distinct(lists))
    }
}

impl TreeInfo {
    /// No statistics yet.
    fn empty() -> (r: Self)
        ensures
            r.describes(Seq::empty(), Seq::empty()),
    {
        reveal(TreeInfo::describes);
        let r = TreeInfo {
            depth: 0,
            estimated_size: TreeSizeInfo { node_overhead: 0, key_array: 0, pointer_array: 0, leaf_data: 0 },
            nodes: Vec::new(),
            prefix_lengths: Vec::new(),
            child_counts: Vec::new(),
            leaf_child_counts: Vec::new(),
            cumulative_leaf_nodes: Vec::new(),
            seen_translations: Vec::new(),
        };
        assert(r.spec_seen() =~= distinct(Seq::empty()));
        assert(r.spec_prefix_lengths() =~= Seq::empty());
        assert(r.spec_child_counts() =~= Seq::empty());
        assert(r.spec_leaf_child_counts() =~= Seq::empty());
        r
    }

    /// Makes room for statistics of the given layer.
    fn extend_to(&mut self, layer: usize, Ghost(vs): Ghost<Seq<Visit>>, Ghost(lists): Ghost<Seq<Seq<CommandView>>>)
        requires
            old(self).describes(vs, lists),
            layer < usize::MAX,
        ensures
            final(self).spec_depth() == old(self).spec_depth(),
            final(self).spec_size() == old(self).spec_size(),
            final(self).spec_seen() == old(self).spec_seen(),
            total(final(self).spec_nodes()) == vs.len(),
            final(self).spec_nodes().len() == if layer + 1 > layer_count(vs) { layer + 1 } else { layer_count(vs) as int },
            final(self).spec_prefix_lengths().len() == final(self).spec_nodes().len(),
            final(self).spec_child_counts().len() == final(self).spec_nodes().len(),
            final(self).spec_leaf_child_counts().len() == final(self).spec_nodes().len(),
            final(self).spec_leaf_nodes().len() == final(self).spec_nodes().len(),
            forall|l: int| 0 <= l < final(self).spec_nodes().len() ==> #[trigger] final(self).spec_nodes()[l] == at_layer(vs, l as nat).len(),
            forall|l: int| 0 <= l < final(self).spec_nodes().len() ==> nats(#[trigger] final(self).spec_prefix_lengths()[l]) == prefix_lengths_of(at_layer(vs, l as nat)),
            forall|l: int| 0 <= l < final(self).spec_nodes().len() ==> nats(#[trigger] final(self).spec_child_counts()[l]) == child_counts_of(at_layer(vs, l as nat)),
            forall|l: int| 0 <= l < final(self).spec_nodes().len() ==> nats(#[trigger] final(self).spec_leaf_child_counts()[l]) == leaf_child_counts_of(at_layer(vs, l as nat)),
            forall|l: int| 0 <= l < final(self).spec_nodes().len() ==> #[trigger] final(self).spec_leaf_nodes()[l] == translated_count(at_layer(vs, l as nat)),
    {
        reveal(TreeInfo::describes);
        let ghost n = layer_count(vs);
        while self.nodes.len() <= layer
            invariant
                self.spec_depth() == old(self).spec_depth(),
                self.spec_size() == old(self).spec_size(),
                self.spec_seen() == old(self).spec_seen(),
                total(self.spec_nodes()) == vs.len(),
                n <= self.spec_nodes().len() <= if layer + 1 > n { layer + 1 } else { n as int },
                self.spec_prefix_lengths().len() == self.spec_nodes().len(),
                self.spec_child_counts().len() == self.spec_nodes().len(),
                self.spec_leaf_child_counts().len() == self.spec_nodes().len(),
                self.spec_leaf_nodes().len() == self.spec_nodes().len(),
                forall|l: int| 0 <= l < self.spec_nodes().len() ==> #[trigger] self.spec_nodes()[l] == at_layer(vs, l as nat).len(),
                forall|l: int| 0 <= l < self.spec_nodes().len() ==> nats(#[trigger] self.spec_prefix_lengths()[l]) == prefix_lengths_of(at_layer(vs, l as nat)),
                forall|l: int| 0 <= l < self.spec_nodes().len() ==> nats(#[trigger] self.spec_child_counts()[l]) == child_counts_of(at_layer(vs, l as nat)),
                forall|l: int| 0 <= l < self.spec_nodes().len() ==> nats(#[trigger] self.spec_leaf_child_counts()[l]) == leaf_child_counts_of(at_layer(vs, l as nat)),
                forall|l: int| 0 <= l < self.spec_nodes().len() ==> #[trigger] self.spec_leaf_nodes()[l] == translated_count(at_layer(vs, l as nat)),
                n == layer_count(vs),
                layer < usize::MAX,
            decreases layer + 1 - self.spec_nodes().len(),
        {
            let index = self.nodes.len();
            let ghost before = *self;
            proof {
                lemma_at_layer_beyond(vs, index as nat);
                assert(self.nodes@.push(0usize).drop_last() =~= self.nodes@);
            }
            self.nodes.push(0);
            self.prefix_lengths.push(Vec::new());
            self.child_counts.push(Vec::new());
            self.leaf_child_counts.push(Vec::new());
            self.cumulative_leaf_nodes.push(0);
            proof {
                let e = at_layer(vs, index as nat);
                assert(e =~= Seq::<Visit>::empty());
                assert(nats(self.spec_prefix_lengths()[index as int]) =~= prefix_lengths_of(e));
                assert(nats(self.spec_child_counts()[index as int]) =~= child_counts_of(e));
                assert(nats(self.spec_leaf_child_counts()[index as int]) =~= leaf_child_counts_of(e));
                assert(self.spec_prefix_lengths() =~= before.spec_prefix_lengths().push(Seq::empty()));
                assert(self.spec_child_counts() =~= before.spec_child_counts().push(Seq::empty()));
                assert(self.spec_leaf_child_counts() =~= before.spec_leaf_child_counts().push(Seq::empty()));
            }
        }
    }

    /// Records one visited node.
    #[verifier::spinoff_prover]
    #[verifier::rlimit(40)]
    fn record(
        &mut self,
        layer: usize,
        prefix_length: usize,
        child_count: usize,
        leaf_children: usize,
        has_translation: bool,
        Ghost(vs): Ghost<Seq<Visit>>,
        Ghost(lists): Ghost<Seq<Seq<CommandView>>>,
    )
        requires
            old(self).describes(vs, lists),
            fits(vs.push((layer as nat, prefix_length as nat, child_count as nat, leaf_children as nat, has_translation))),
        ensures
            final(self).describes(vs.push((layer as nat, prefix_length as nat, child_count as nat, leaf_children as nat, has_translation)), lists),
    {
        reveal(TreeInfo::describes);
        let ghost v: Visit = (layer as nat, prefix_length as nat, child_count as nat, leaf_children as nat, has_translation);
        let ghost pushed = vs.push(v);
        proof {
            lemma_push_visit(vs, v);
            lemma_at_layer_len(vs, layer as nat);
            lemma_count_bound(at_layer(vs, layer as nat));
            lemma_layer_count_bound(pushed, vs.len() as int);
        }
        self.extend_to(layer, Ghost(vs), Ghost(lists));
        if layer > self.depth {
            self.depth = layer;
        }
        let ghost before = *self;
        let count = self.nodes[layer];
        proof {
            lemma_total_update(self.nodes@, layer as int, (count + 1) as usize);
        }
        self.nodes.set(layer, count + 1);
        if prefix_length > 0 {
            self.prefix_lengths[layer].push(prefix_length);
            assert(self.prefix_lengths@[layer as int]@ == before.prefix_lengths@[layer as int]@.push(prefix_length));
        }
        assert(self.spec_prefix_lengths()[layer as int] == if prefix_length > 0 {
            before.spec_prefix_lengths()[layer as int].push(prefix_length)
        } else {
            before.spec_prefix_lengths()[layer as int]
        });
        self.child_counts[layer].push(child_count);
        self.leaf_child_counts[layer].push(leaf_children);
        assert(self.spec_child_counts()[layer as int] == before.spec_child_counts()[layer as int].push(child_count));
        assert(self.spec_leaf_child_counts()[layer as int] == before.spec_leaf_child_counts()[layer as int].push(leaf_children));
        if has_translation {
            let leaves = self.cumulative_leaf_nodes[layer];
            self.cumulative_leaf_nodes.set(layer, leaves + 1);
        }
        assert(prefix_length * child_count <= key_total(pushed)) by (nonlinear_arith)
            requires
                key_total(pushed) == key_total(vs) + (prefix_length as nat) * (child_count as nat),
        ;
        self.estimated_size.node_overhead = self.estimated_size.node_overhead + 5;
        self.estimated_size.key_array = self.estimated_size.key_array + prefix_length * child_count;
        self.estimated_size.pointer_array = self.estimated_size.pointer_array + 3 * child_count;
        proof {
            let n = layer_count(pushed);
            assert forall|l: int| 0 <= l < n implies #[trigger] self.spec_nodes()[l] == at_layer(pushed, l as nat).len() by {
                assert(at_layer(pushed, l as nat) == if layer == l { at_layer(vs, l as nat).push(v) } else { at_layer(vs, l as nat) });
                if l != layer {
                    assert(self.spec_nodes()[l] == before.spec_nodes()[l]);
                }
            }
            assert forall|l: int| 0 <= l < n implies nats(#[trigger] self.spec_prefix_lengths()[l]) == prefix_lengths_of(at_layer(pushed, l as nat)) by {
                assert(at_layer(pushed, l as nat) == if layer == l { at_layer(vs, l as nat).push(v) } else { at_layer(vs, l as nat) });
                if l == layer {
                    lemma_push_layer(at_layer(vs, l as nat), v);
                    assert(nats(self.spec_prefix_lengths()[l]) =~= prefix_lengths_of(at_layer(pushed, l as nat)));
                } else {
                    assert(self.spec_prefix_lengths()[l] == before.spec_prefix_lengths()[l]);
                }
            }
            assert forall|l: int| 0 <= l < n implies nats(#[trigger] self.spec_child_counts()[l]) == child_counts_of(at_layer(pushed, l as nat)) by {
                assert(at_layer(pushed, l as nat) == if layer == l { at_layer(vs, l as nat).push(v) } else { at_layer(vs, l as nat) });
                if l == layer {
                    lemma_push_layer(at_layer(vs, l as nat), v);
                    assert(nats(self.spec_child_counts()[l]) =~= child_counts_of(at_layer(pushed, l as nat)));
                } else {
                    assert(self.spec_child_counts()[l] == before.spec_child_counts()[l]);
                }
            }
            assert forall|l: int| 0 <= l < n implies nats(#[trigger] self.spec_leaf_child_counts()[l]) == leaf_child_counts_of(at_layer(pushed, l as nat)) by {
                assert(at_layer(pushed, l as nat) == if layer == l { at_layer(vs, l as nat).push(v) } else { at_layer(vs, l as nat) });
                if l == layer {
                    lemma_push_layer(at_layer(vs, l as nat), v);
                    assert(nats(self.spec_leaf_child_counts()[l]) =~= leaf_child_counts_of(at_layer(pushed, l as nat)));
                } else {
                    assert(self.spec_leaf_child_counts()[l] == before.spec_leaf_child_counts()[l]);
                }
            }
            assert forall|l: int| 0 <= l < n implies #[trigger] self.spec_leaf_nodes()[l] == translated_count(at_layer(pushed, l as nat)) by {
                assert(at_layer(pushed, l as nat) == if layer == l { at_layer(vs, l as nat).push(v) } else { at_layer(vs, l as nat) });
                if l == layer {
                    lemma_push_layer(at_layer(vs, l as nat), v);
                } else {
                    assert(self.spec_leaf_nodes()[l] == before.spec_leaf_nodes()[l]);
                }
            }
        }
    }
}

impl TreeInfo {
    /// Records a translation; only its first occurrence counts towards the size estimate.
    fn track_leaf_data_usage(&mut self, data: &CommandList, Ghost(vs): Ghost<Seq<Visit>>, Ghost(lists): Ghost<Seq<Seq<CommandView>>>)
        requires
            old(self).describes(vs, lists),
            lists_size(distinct(lists.push(data@))) <= usize::MAX,
        ensures
            final(self).describes(vs, lists.push(data@)),
    {
        reveal(TreeInfo::describes);
        proof {
            assert(lists.push(data@).drop_last() =~= lists);
            lemma_distinct_size(lists);
        }
        let mut found = false;
        let mut j: usize = 0;
        while j < self.seen_translations.len()
            invariant
                j <= self.seen_translations@.len(),
                self.spec_seen() == distinct(lists),
                !found ==> forall|k: int| 0 <= k < j ==> self.spec_seen()[k] != data@,
                found ==> distinct(lists).contains(data@),
            decreases self.seen_translations@.len() - j,
        {
            if self.seen_translations[j].same_as(data) {
                found = true;
                assert(self.spec_seen()[j as int] == data@);
            }
            j += 1;
        }
        if !found {
            assert(!distinct(lists).contains(data@));
            assert(distinct(lists.push(data@)) == distinct(lists).push(data@));
            assert(distinct(lists).push(data@).drop_last() =~= distinct(lists));
            let size = encoded_size(data);
            self.estimated_size.leaf_data = self.estimated_size.leaf_data + size;
            self.seen_translations.push(data.duplicate());
            assert(self.spec_seen() =~= distinct(lists).push(data@));
            assert(distinct(lists).push(data@).drop_last() =~= distinct(lists));
        }
    }

    /// Records a node at `layer` and its descendants, having recorded the visits `vs` and
    /// the translations `lists` before.
    #[verifier::spinoff_prover]
    #[verifier::rlimit(40)]
    fn read_layer(&mut self, node: &TreeNode, layer: usize, Ghost(vs): Ghost<Seq<Visit>>, Ghost(lists): Ghost<Seq<Seq<CommandView>>>)
        requires
            old(self).describes(vs, lists),
            fits(vs + visits(*node, layer as nat)),
            lists_size(distinct(lists + tree_lists(*node))) <= usize::MAX,
        ensures
            final(self).describes(vs + visits(*node, layer as nat), lists + tree_lists(*node)),
        decreases node,
    {
        let ghost whole = vs + visits(*node, layer as nat);
        let ghost all_lists = lists + tree_lists(*node);
        let ghost v = node_visit(*node, layer as nat);
        let ghost next = (layer + 1) as nat;
        let leaf_children = count_leaf_children(&node.children);
        proof {
            assert(whole.take(vs.len() as int + 1) =~= vs.push(v));
            lemma_fits_prefix(whole, vs.len() as int + 1);
        }
        self.record(layer, node.prefix_length, node.children.len(), leaf_children, node.leaf_data.is_some(), Ghost(vs), Ghost(lists));
        let ghost own: Seq<Seq<CommandView>> = if node.leaf_data is Some { seq![node.leaf_data->0@] } else { Seq::empty() };
        if let Some(data) = &node.leaf_data {
            proof {
                assert(all_lists.take(lists.len() as int + 1) =~= lists.push(data@));
                lemma_distinct_size_prefix(all_lists, lists.len() as int + 1);
            }
            self.track_leaf_data_usage(data, Ghost(vs.push(v)), Ghost(lists));
        }
        assert(lists + own =~= if node.leaf_data is Some { lists.push(node.leaf_data->0@) } else { lists });
        let ghost children = node.children@;
        let mut i: usize = 0;
        while i < node.children.len()
            invariant
                i <= children.len(),
                children == node.children@,
                whole == vs + visits(*node, layer as nat),
                all_lists == lists + tree_lists(*node),
                fits(whole),
                lists_size(distinct(all_lists)) <= usize::MAX,
                v == node_visit(*node, layer as nat),
                next == layer + 1,
                own == if node.leaf_data is Some { seq![node.leaf_data->0@] } else { Seq::<Seq<CommandView>>::empty() },
                self.describes(vs.push(v) + children_visits(children.take(i as int), next), lists + own + children_lists(children.take(i as int))),
            decreases children.len() - i,
        {
            let ghost done = vs.push(v) + children_visits(children.take(i as int), next);
            let ghost seen = lists + own + children_lists(children.take(i as int));
            let ghost child = children[i as int].1;
            proof {
                assert(children.take(i + 1).drop_last() =~= children.take(i as int));
                assert(children.take(i + 1)[i as int] == children[i as int]);
                assert(children =~= children.take(i + 1) + children.skip(i + 1));
                lemma_children_visits_append(children.take(i + 1), children.skip(i + 1), next);
                lemma_children_lists_append(children.take(i + 1), children.skip(i + 1));
                assert(whole =~= done + child_visits(child, next) + children_visits(children.skip(i + 1), next));
                assert(all_lists =~= seen + child_lists(child) + children_lists(children.skip(i + 1)));
                assert(whole.take((done + child_visits(child, next)).len() as int) =~= done + child_visits(child, next));
                lemma_fits_prefix(whole, (done + child_visits(child, next)).len() as int);
                assert(all_lists.take((seen + child_lists(child)).len() as int) =~= seen + child_lists(child));
                lemma_distinct_size_prefix(all_lists, (seen + child_lists(child)).len() as int);
            }
            match &node.children[i].1 {
                Child::Leaf(data) => {
                    assert(seen + child_lists(child) =~= seen.push(data@));
                    self.track_leaf_data_usage(data, Ghost(done), Ghost(seen));
                    assert(done + child_visits(child, next) =~= done);
                },
                Child::Tree(subtree) => {
                    assert(decreases_to!(node => node.children@[i as int].1));
                    proof {
                        let k = done.len() as int;
                        assert((done + visits(*subtree, next))[k] == visits(*subtree, next)[0]);
                        lemma_layer_count_bound(done + visits(*subtree, next), k);
                    }
                    self.read_layer(subtree, layer + 1, Ghost(done), Ghost(seen));
                },
            }
            assert(vs.push(v) + children_visits(children.take(i + 1), next) =~= done + child_visits(child, next));
            assert(lists + own + children_lists(children.take(i + 1)) =~= seen + child_lists(child));
            i += 1;
        }
        assert(children.take(children.len() as int) =~= children);
        assert(vs.push(v) + children_visits(children, next) =~= whole);
        assert(lists + own + children_lists(children) =~= all_lists);
    }

    /// Gathers the statistics of a tree.
    pub fn new(node: &TreeNode) -> (r: Self)
        requires
            tree_fits(*node),
        ensures
            r.wf(),
            r.describes(visits(*node, 0), tree_lists(*node)),
    {
        let mut info = Self::empty();
        assert(Seq::<Visit>::empty() + visits(*node, 0) =~= visits(*node, 0));
        assert(Seq::<Seq<CommandView>>::empty() + tree_lists(*node) =~= tree_lists(*node));
        info.read_layer(node, 0, Ghost(Seq::empty()), Ghost(Seq::empty()));
        proof {
            reveal(TreeInfo::describes);
        }
        info
    }
}

/// Largest value, zero if there is none.
fn largest_of(values: &Vec<usize>) -> (r: usize)
    ensures
        r == largest(values@),
{
    let mut max: usize = 0;
    let mut i: usize = 0;
    while i < values.len()
        invariant
            i <= values@.len(),
            max == largest(values@.take(i as int)),
        decreases values@.len() - i,
    {
        assert(values@.take(i + 1).drop_last() =~= values@.take(i as int));
        if values[i] > max {
            max = values[i];
        }
        i += 1;
    }
    assert(values@.take(values@.len() as int) =~= values@);
    max
}

/// Largest value of each layer.
fn maxima(layers: &Vec<Vec<usize>>) -> (r: Vec<usize>)
    ensures
        r@.len() == layers@.len(),
        forall|l: int| 0 <= l < layers@.len() ==> r@[l] == largest(#[trigger] layers@[l]@),
{
    let mut out: Vec<usize> = Vec::new();
    let mut l: usize = 0;
    while l < layers.len()
        invariant
            l <= layers@.len(),
            out@.len() == l,
            forall|k: int| 0 <= k < l ==> out@[k] == largest(#[trigger] layers@[k]@),
        decreases layers@.len() - l,
    {
        out.push(largest_of(&layers[l]));
        l += 1;
    }
    out
}

impl TreeInfo {
    /// Deepest layer.
    pub fn depth(&self) -> (r: usize)
        ensures
            r == self.spec_depth(),
    {
        self.depth
    }

    /// Estimated serialized size.
    pub fn estimated_size(&self) -> (r: TreeSizeInfo)
        ensures
            r == self.spec_size(),
    {
        self.estimated_size
    }

    /// Number of nodes per layer.
    pub fn nodes(&self) -> (r: &Vec<usize>)
        ensures
            r@ == self.spec_nodes(),
    {
        &self.nodes
    }

    /// Non-zero prefix lengths per layer.
    pub fn prefix_lengths(&self) -> (r: &Vec<Vec<usize>>)
        ensures
            nested_views(r@) == self.spec_prefix_lengths(),
    {
        &self.prefix_lengths
    }

    /// Child counts per layer.
    pub fn child_counts(&self) -> (r: &Vec<Vec<usize>>)
        ensures
            nested_views(r@) == self.spec_child_counts(),
    {
        &self.child_counts
    }

    /// Leaf child counts per layer.
    pub fn leaf_child_counts(&self) -> (r: &Vec<Vec<usize>>)
        ensures
            nested_views(r@) == self.spec_leaf_child_counts(),
    {
        &self.leaf_child_counts
    }

    /// Number of nodes holding a translation per layer.
    pub fn leaf_nodes(&self) -> (r: &Vec<usize>)
        ensures
            r@ == self.spec_leaf_nodes(),
    {
        &self.cumulative_leaf_nodes
    }

    /// Longest prefix per layer (zero where no node has a prefix).
    pub fn max_prefix_length(&self) -> (r: Vec<usize>)
        ensures
            r@.len() == self.spec_prefix_lengths().len(),
            forall|l: int| 0 <= l < r@.len() ==> r@[l] == largest(#[trigger] self.spec_prefix_lengths()[l]),
    {
        maxima(&self.prefix_lengths)
    }

    /// Most children of a node per layer.
    pub fn max_child_counts(&self) -> (r: Vec<usize>)
        ensures
            r@.len() == self.spec_child_counts().len(),
            forall|l: int| 0 <= l < r@.len() ==> r@[l] == largest(#[trigger] self.spec_child_counts()[l]),
    {
        maxima(&self.child_counts)
    }

    /// Most leaf children of a node per layer.
    pub fn max_leaf_child_counts(&self) -> (r: Vec<usize>)
        ensures
            r@.len() == self.spec_leaf_child_counts().len(),
            forall|l: int| 0 <= l < r@.len() ==> r@[l] == largest(#[trigger] self.spec_leaf_child_counts()[l]),
    {
        maxima(&self.leaf_child_counts)
    }

    /// Number of nodes in the tree.
    pub fn node_count(&self) -> (r: usize)
        requires
            self.wf(),
        ensures
            r == total(self.spec_nodes()),
    {
        let mut sum: usize = 0;
        let mut l: usize = 0;
        while l < self.nodes.len()
            invariant
                l <= self.nodes@.len(),
                total(self.nodes@) <= usize::MAX,
                sum == total(self.nodes@.take(l as int)),
            decreases self.nodes@.len() - l,
        {
            assert(self.nodes@.take(l + 1).drop_last() =~= self.nodes@.take(l as int));
            proof {
                lemma_total_prefix(self.nodes@, l + 1);
            }
            sum = sum + self.nodes[l];
            l += 1;
        }
        assert(self.nodes@.take(self.nodes@.len() as int) =~= self.nodes@);
        sum
    }
}

/// Every node of a tree is counted once: the node count of its statistics is the number of
/// nodes visited.
pub proof fn lemma_node_count(info: TreeInfo, vs: Seq<Visit>, lists: Seq<Seq<CommandView>>)
    requires
        info.describes(vs, lists),
    ensures
        total(info.spec_nodes()) == vs.len(),
{
    reveal(TreeInfo::describes);
}

/// Serialized size of the visited nodes: a header, a prefix array and a pointer array each.
pub open spec fn visits_size(vs: Seq<Visit>) -> nat {
    5 * vs.len() + key_total(vs) + 3 * child_total(vs)
}

proof fn lemma_visits_size_append(a: Seq<Visit>, b: Seq<Visit>)
    ensures
        visits_size(a + b) == visits_size(a) + visits_size(b),
    decreases b.len(),
{
    if b.len() == 0 {
        assert(a + b =~= a);
    } else {
        lemma_visits_size_append(a, b.drop_last());
        assert((a + b).drop_last() =~= a + b.drop_last());
        assert((a + b).last() == b.last());
    }
}

proof fn lemma_node_visits_size(node: TreeNode, layer: nat)
    ensures
        visits_size(visits(node, layer)) == node_size(node),
    decreases node,
{
    lemma_children_visits_size(node.children@, layer + 1);
    let v = seq![node_visit(node, layer)];
    lemma_visits_size_append(v, children_visits(node.children@, layer + 1));
    assert(v.drop_last() =~= Seq::<Visit>::empty());
    assert(key_total(Seq::<Visit>::empty()) == 0);
    assert(child_total(Seq::<Visit>::empty()) == 0);
    assert(v.last() == node_visit(node, layer));
    assert(key_total(v) == node.prefix_length * node.children@.len());
    assert(child_total(v) == node.children@.len());
}

proof fn lemma_children_visits_size(children: Seq<(Vec<u8>, Child)>, layer: nat)
    ensures
        visits_size(children_visits(children, layer)) == children_size(children),
    decreases children,
{
    if children.len() > 0 {
        let last = children[children.len() - 1].1;
        lemma_children_visits_size(children.drop_last(), layer);
        lemma_child_visits_size(last, layer);
        lemma_visits_size_append(children_visits(children.drop_last(), layer), child_visits(last, layer));
    } else {
        assert(key_total(Seq::<Visit>::empty()) == 0);
        assert(child_total(Seq::<Visit>::empty()) == 0);
    }
}

proof fn lemma_child_visits_size(child: Child, layer: nat)
    ensures
        visits_size(child_visits(child, layer)) == child_size(child),
    decreases child,
{
    match child {
        Child::Leaf(_) => {
            assert(key_total(Seq::<Visit>::empty()) == 0);
            assert(child_total(Seq::<Visit>::empty()) == 0);
        },
        Child::Tree(node) => {
            lemma_node_visits_size(node, layer);
        },
    }
}

/// The estimated size of a tree's headers, prefix arrays and pointer arrays is the size of the
/// serialized tree.
pub proof fn lemma_estimated_tree_size(info: TreeInfo, node: TreeNode, lists: Seq<Seq<CommandView>>)
    requires
        info.describes(visits(node, 0), lists),
    ensures
        info.spec_size().node_overhead + info.spec_size().key_array + info.spec_size().pointer_array == node_size(node),
{
    reveal(TreeInfo::describes);
    lemma_node_visits_size(node, 0);
}

/// The estimated size of a tree's headers, prefix arrays and pointer arrays is the number of
/// bytes its serialization appends.
pub proof fn lemma_estimated_serialized_size(
    info: TreeInfo,
    node: TreeNode,
    lists: Seq<Seq<CommandView>>,
    location: int,
    table: Seq<(Seq<CommandView>, usize)>,
)
    requires
        info.describes(visits(node, 0), lists),
        super::tree::serializable(node, location, table),
    ensures
        info.spec_size().node_overhead + info.spec_size().key_array + info.spec_size().pointer_array
            == super::tree::serialized_node(node, location, table).len(),
{
    lemma_estimated_tree_size(info, node, lists);
    super::readback::lemma_node_len(node, location, table);
}

} // verus!
