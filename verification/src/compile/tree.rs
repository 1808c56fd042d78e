//! Data structures and functions to build a tree from key-value dictionary entries
use super::json::dict::{CommandList, Outline};
use super::CompileError;
use super::translations::{lookup, TranslationPointers};
use crate::dict::tree::PREFIX_ARRAY_SIZE_LIMIT;
use super::readback::{searchable_child, searchable_children, searchable_node};
use crate::formatter::CommandView;
use vstd::prelude::*;
use vstd::set_lib::lemma_len_subset;

verus! {

/// Node in a radix tree containing its children and optionally some leaf data
#[derive(Debug)]
pub struct TreeNode {
    pub children: Vec<(Vec<u8>, Child)>,
    pub leaf_data: Option<CommandList>,
    pub prefix_length: usize,
}

/// Sub-node of a [`TreeNode`](TreeNode) which can either be leaf or a sub-tree node
#[derive(Debug)]
pub enum Child {
    Leaf(CommandList),
    Tree(TreeNode),
}

/// Mathematical form of a dictionary entry: key bytes and commands.
pub type EntryBytes = (Seq<u8>, Seq<CommandView>);

/// Mathematical form of an entry.
pub open spec fn entry_view(entry: (Vec<u8>, CommandList)) -> EntryBytes {
    (entry.0@, entry.1@)
}

/// The entries as a set of keys and commands.
pub open spec fn entry_set(entries: Seq<(Vec<u8>, CommandList)>) -> Set<EntryBytes> {
    entries.map_values(|e: (Vec<u8>, CommandList)| entry_view(e)).to_set()
}

/// Keys of the entries.
pub open spec fn keys_of(entries: Seq<(Vec<u8>, CommandList)>) -> Seq<Seq<u8>> {
    entries.map_values(|e: (Vec<u8>, CommandList)| e.0@)
}

/// No two entries have the same key.
pub open spec fn distinct_keys(entries: Seq<(Vec<u8>, CommandList)>) -> bool {
    forall|i: int, j: int| 0 <= i < j < entries.len() ==> entries[i].0@ != entries[j].0@
}

/// Entries with the prefix put in front of their keys.
pub open spec fn prefixed(prefix: Seq<u8>, entries: Set<EntryBytes>) -> Set<EntryBytes> {
    entries.map(|e: EntryBytes| (prefix + e.0, e.1))
}

/// The entry with the empty key holding the given commands.
pub open spec fn leaf_entry(commands: Seq<CommandView>) -> Set<EntryBytes> {
    set![(Seq::<u8>::empty(), commands)]
}

/// Entries stored in a node: its own translation under the empty key and the entries of its
/// children under their prefixes.
pub open spec fn tree_entries(node: TreeNode) -> Set<EntryBytes>
    decreases node,
{
    let own = match node.leaf_data {
        Some(data) => leaf_entry(data@),
        None => Set::empty(),
    };
    own + children_entries(node.children@)
}

/// Entries stored in a sequence of children.
pub open spec fn children_entries(children: Seq<(Vec<u8>, Child)>) -> Set<EntryBytes>
    decreases children,
{
    if children.len() == 0 {
        Set::empty()
    } else {
        let last = children[children.len() - 1];
        children_entries(children.drop_last()) + prefixed(last.0@, child_entries(last.1))
    }
}

/// Entries stored in a child.
pub open spec fn child_entries(child: Child) -> Set<EntryBytes>
    decreases child,
{
    match child {
        Child::Leaf(data) => leaf_entry(data@),
        Child::Tree(node) => tree_entries(node),
    }
}

/// Length of the shortest key, or one if there are none.
pub open spec fn min_key_length(keys: Seq<Seq<u8>>) -> nat
    decreases keys.len(),
{
    if keys.len() == 0 {
        1
    } else if keys.len() == 1 {
        keys[0].len()
    } else {
        let rest = min_key_length(keys.drop_first());
        if keys[0].len() < rest { keys[0].len() } else { rest }
    }
}

/// The first `length` bytes of the key, or the whole key if it is shorter.
pub open spec fn truncated(key: Seq<u8>, length: int) -> Seq<u8> {
    if length < key.len() { key.take(length) } else { key }
}

/// Distinct prefixes of the given length of the keys.
pub open spec fn key_prefixes(keys: Seq<Seq<u8>>, length: nat) -> Set<Seq<u8>> {
    keys.map_values(|k: Seq<u8>| truncated(k, length as int)).to_set()
}

/// Longest prefix length in `length..max` (trying them in order) such that it and every
/// shorter one tried let the distinct prefixes fit into the prefix array; `best` if the
/// first one tried does not fit.
pub open spec fn extend_prefix_length(keys: Seq<Seq<u8>>, length: nat, max: nat, best: nat) -> nat
    decreases max - length,
{
    if length >= max || key_prefixes(keys, length).len() * length > PREFIX_ARRAY_SIZE_LIMIT {
        best
    } else {
        extend_prefix_length(keys, length + 1, max, length)
    }
}

/// Length of the shortest non-empty key, or zero if there is none.
pub open spec fn min_present_length(keys: Seq<Seq<u8>>) -> nat
    decreases keys.len(),
{
    if keys.len() == 0 {
        0
    } else {
        let rest = min_present_length(keys.drop_first());
        let length = keys[0].len();
        if length == 0 {
            rest
        } else if rest == 0 || length < rest {
            length
        } else {
            rest
        }
    }
}

/// Prefix length of a node holding the given keys (the empty key, if any, is the node's own
/// translation): the longest length shorter than every non-empty key whose distinct prefixes
/// fit into the prefix array (growing the length one by one), or one.
pub open spec fn spec_prefix_length(keys: Seq<Seq<u8>>) -> nat {
    let shortest = min_present_length(keys);
    if shortest == 0 {
        1
    } else {
        extend_prefix_length(keys, 1, shortest, 1)
    }
}

/// Byte sequences are equal.
pub fn bytes_equal(a: &Vec<u8>, b: &Vec<u8>) -> (r: bool)
    ensures
        r == (a@ == b@),
{
    if a.len() != b.len() {
        return false;
    }
    let mut i: usize = 0;
    while i < a.len()
        invariant
            i <= a@.len(),
            a@.len() == b@.len(),
            forall|j: int| 0 <= j < i ==> a@[j] == b@[j],
        decreases a@.len() - i,
    {
        if a[i] != b[i] {
            return false;
        }
        i += 1;
    }
    assert(a@ =~= b@);
    true
}

/// Copy of the first `length` bytes (all of them if there are fewer).
fn take_bytes(bytes: &Vec<u8>, length: usize) -> (r: Vec<u8>)
    ensures
        r@ == truncated(bytes@, length as int),
{
    let end = if length < bytes.len() { length } else { bytes.len() };
    let mut out: Vec<u8> = Vec::new();
    let mut i: usize = 0;
    while i < end
        invariant
            i <= end <= bytes@.len(),
            out@ == bytes@.take(i as int),
        decreases end - i,
    {
        out.push(bytes[i]);
        i += 1;
        assert(out@ =~= bytes@.take(i as int));
    }
    assert(end == bytes@.len() ==> bytes@.take(end as int) =~= bytes@);
    out
}

/// Copy of the bytes after the first `start`.
fn skip_bytes(bytes: &Vec<u8>, start: usize) -> (r: Vec<u8>)
    requires
        start <= bytes@.len(),
    ensures
        r@ == bytes@.skip(start as int),
{
    let mut out: Vec<u8> = Vec::new();
    let mut i: usize = start;
    while i < bytes.len()
        invariant
            start <= i <= bytes@.len(),
            out@ == bytes@.subrange(start as int, i as int),
        decreases bytes@.len() - i,
    {
        out.push(bytes[i]);
        i += 1;
        assert(out@ =~= bytes@.subrange(start as int, i as int));
    }
    assert(out@ =~= bytes@.skip(start as int));
    out
}

proof fn lemma_min_present_length(keys: Seq<Seq<u8>>)
    ensures
        forall|i: int| 0 <= i < keys.len() && (#[trigger] keys[i]).len() > 0 ==> 0 < min_present_length(keys) <= keys[i].len(),
        min_present_length(keys) > 0 ==> exists|i: int| 0 <= i < keys.len() && min_present_length(keys) == (#[trigger] keys[i]).len(),
    decreases keys.len(),
{
    if keys.len() > 0 {
        let rest = keys.drop_first();
        lemma_min_present_length(rest);
        assert forall|i: int| 0 <= i < keys.len() && (#[trigger] keys[i]).len() > 0 implies 0 < min_present_length(keys) <= keys[i].len() by {
            if i > 0 {
                assert(keys[i] == rest[i - 1]);
            }
        }
        if min_present_length(keys) > 0 {
            if min_present_length(keys) != keys[0].len() {
                let j = choose|j: int| 0 <= j < rest.len() && min_present_length(rest) == (#[trigger] rest[j]).len();
                assert(keys[j + 1] == rest[j]);
            }
        }
    }
}

/// Length of the shortest non-empty key, or zero if there is none.
fn shortest_key_length(entries: &Vec<(Vec<u8>, CommandList)>) -> (r: usize)
    ensures
        r == min_present_length(keys_of(entries@)),
{
    let ghost keys = keys_of(entries@);
    if entries.len() == 0 {
        return 0;
    }
    let mut shortest = entries[entries.len() - 1].0.len();
    let mut i: usize = entries.len() - 1;
    assert(keys.subrange(i as int, keys.len() as int) =~= seq![keys[i as int]]);
    assert(seq![keys[i as int]].drop_first() =~= Seq::<Seq<u8>>::empty());
    assert(min_present_length(Seq::<Seq<u8>>::empty()) == 0);
    while i > 0
        invariant
            0 <= i < keys.len(),
            keys == keys_of(entries@),
            shortest == min_present_length(keys.subrange(i as int, keys.len() as int)),
        decreases i,
    {
        i -= 1;
        let length = entries[i].0.len();
        let ghost rest = keys.subrange(i + 1, keys.len() as int);
        assert(keys.subrange(i as int, keys.len() as int).drop_first() =~= rest);
        assert(keys.subrange(i as int, keys.len() as int)[0] == keys[i as int]);
        if length > 0 && (shortest == 0 || length < shortest) {
            shortest = length;
        }
    }
    assert(keys.subrange(0, keys.len() as int) =~= keys);
    shortest
}

/// Number of distinct prefixes of the given length, counting stops once it exceeds `limit`.
fn count_prefixes(entries: &Vec<(Vec<u8>, CommandList)>, length: usize, limit: usize) -> (r: usize)
    requires
        limit < usize::MAX,
    ensures
        r <= limit ==> r == key_prefixes(keys_of(entries@), length as nat).len(),
        r > limit ==> key_prefixes(keys_of(entries@), length as nat).len() > limit,
{
    let ghost keys = keys_of(entries@);
    let ghost f = |k: Seq<u8>| truncated(k, length as int);
    let mut seen: Vec<Vec<u8>> = Vec::new();
    let mut i: usize = 0;
    while i < entries.len()
        invariant
            i <= entries@.len(),
            keys == keys_of(entries@),
            f == (|k: Seq<u8>| truncated(k, length as int)),
            seen@.len() <= limit,
            seen@.map_values(|v: Vec<u8>| v@).no_duplicates(),
            seen@.map_values(|v: Vec<u8>| v@).to_set() == keys.subrange(0, i as int).map_values(f).to_set(),
        decreases entries@.len() - i,
    {
        let ghost before = seen@.map_values(|v: Vec<u8>| v@);
        let prefix = take_bytes(&entries[i].0, length);
        assert(prefix@ == f(keys[i as int]));
        let mut found = false;
        let mut j: usize = 0;
        while j < seen.len()
            invariant
                j <= seen@.len(),
                before == seen@.map_values(|v: Vec<u8>| v@),
                found == (exists|k: int| 0 <= k < j && before[k] == prefix@),
            decreases seen@.len() - j,
        {
            assert(before[j as int] == seen@[j as int]@);
            if bytes_equal(&seen[j], &prefix) {
                found = true;
            }
            assert(found == (exists|k: int| 0 <= k < j + 1 && before[k] == prefix@)) by {
                if before[j as int] == prefix@ {
                    assert(0 <= j < j + 1 && before[j as int] == prefix@);
                }
            }
            j += 1;
        }
        proof {
            assert(keys.subrange(0, i + 1).map_values(f) =~= keys.subrange(0, i as int).map_values(f).push(prefix@));
            keys.subrange(0, i as int).map_values(f).lemma_push_to_set_commute(prefix@);
        }
        if !found {
            proof {
                assert(!before.contains(prefix@));
                assert(seen@.push(prefix).map_values(|v: Vec<u8>| v@) =~= before.push(prefix@));
                before.lemma_push_to_set_commute(prefix@);
            }
            seen.push(prefix);
            if seen.len() > limit {
                proof {
                    let all = keys.map_values(f);
                    let now = keys.subrange(0, i + 1).map_values(f);
                    seen@.map_values(|v: Vec<u8>| v@).unique_seq_to_set();
                    assert(now.to_set().subset_of(all.to_set())) by {
                        assert forall|x: Seq<u8>| now.to_set().contains(x) implies all.to_set().contains(x) by {
                            let k = choose|k: int| 0 <= k < now.len() && now[k] == x;
                            assert(all[k] == x);
                        }
                    }
                    all.lemma_cardinality_of_set();
                    lemma_len_subset(now.to_set(), all.to_set());
                }
                return seen.len();
            }
        } else {
            proof {
                let k = choose|k: int| 0 <= k < j && before[k] == prefix@;
                assert(before.contains(prefix@));
                assert(before.to_set().insert(prefix@) =~= before.to_set());
            }
        }
        i += 1;
    }
    proof {
        assert(keys.subrange(0, keys.len() as int) =~= keys);
        seen@.map_values(|v: Vec<u8>| v@).unique_seq_to_set();
    }
    seen.len()
}

/// Computes the prefix length of a node holding the given entries.
fn calculate_prefix_length(entries: &Vec<(Vec<u8>, CommandList)>) -> (r: usize)
    ensures
        r == spec_prefix_length(keys_of(entries@)),
{
    let ghost keys = keys_of(entries@);
    let max_prefix_length = shortest_key_length(entries);
    if max_prefix_length == 0 {
        return 1;
    }
    let mut prefix_length: usize = 1;
    let mut current: usize = 1;
    while current < max_prefix_length
        invariant
            1 <= current <= max_prefix_length,
            keys == keys_of(entries@),
            max_prefix_length == min_present_length(keys),
            spec_prefix_length(keys) == extend_prefix_length(keys, current as nat, max_prefix_length as nat, prefix_length as nat),
        decreases max_prefix_length - current,
    {
        let limit = PREFIX_ARRAY_SIZE_LIMIT / current;
        let count = count_prefixes(entries, current, limit);
        proof {
            let n = key_prefixes(keys, current as nat).len();
            assert(n * current > PREFIX_ARRAY_SIZE_LIMIT <==> n > limit) by (nonlinear_arith)
                requires
                    limit == PREFIX_ARRAY_SIZE_LIMIT / current,
                    current >= 1,
            ;
        }
        if count > limit {
            return prefix_length;
        }
        prefix_length = current;
        current += 1;
    }
    prefix_length
}

/// `a` comes before `b` in lexicographic order (a proper prefix comes first).
pub open spec fn lex_less(a: Seq<u8>, b: Seq<u8>) -> bool
    decreases a.len(),
{
    if b.len() == 0 {
        false
    } else if a.len() == 0 {
        true
    } else if a[0] != b[0] {
        a[0] < b[0]
    } else {
        lex_less(a.drop_first(), b.drop_first())
    }
}

/// The byte sequences are in strictly increasing lexicographic order.
pub open spec fn strictly_sorted(sequences: Seq<Seq<u8>>) -> bool {
    forall|i: int, j: int| 0 <= i < j < sequences.len() ==> lex_less(sequences[i], sequences[j])
}

pub proof fn lemma_lex_irreflexive(a: Seq<u8>)
    ensures
        !lex_less(a, a),
    decreases a.len(),
{
    if a.len() > 0 {
        lemma_lex_irreflexive(a.drop_first());
    }
}

pub proof fn lemma_lex_total(a: Seq<u8>, b: Seq<u8>)
    ensures
        a != b ==> lex_less(a, b) || lex_less(b, a),
        lex_less(a, b) ==> !lex_less(b, a),
    decreases a.len(),
{
    if a.len() > 0 && b.len() > 0 && a[0] == b[0] {
        lemma_lex_total(a.drop_first(), b.drop_first());
        if a.drop_first() == b.drop_first() {
            assert(a =~= seq![a[0]] + a.drop_first());
            assert(b =~= seq![b[0]] + b.drop_first());
        }
    } else if a.len() == 0 && b.len() == 0 {
        assert(a =~= b);
    }
}

pub proof fn lemma_lex_transitive(a: Seq<u8>, b: Seq<u8>, c: Seq<u8>)
    requires
        lex_less(a, b),
        lex_less(b, c),
    ensures
        lex_less(a, c),
    decreases a.len(),
{
    if a.len() > 0 && b.len() > 0 && c.len() > 0 && a[0] == b[0] && b[0] == c[0] {
        lemma_lex_transitive(a.drop_first(), b.drop_first(), c.drop_first());
    }
}

/// `a` comes before `b` in lexicographic order.
fn bytes_less(a: &Vec<u8>, b: &Vec<u8>) -> (r: bool)
    ensures
        r == lex_less(a@, b@),
{
    let mut i: usize = 0;
    assert(a@.skip(0) =~= a@ && b@.skip(0) =~= b@);
    while i < a.len() && i < b.len()
        invariant
            i <= a@.len(),
            i <= b@.len(),
            lex_less(a@, b@) == lex_less(a@.skip(i as int), b@.skip(i as int)),
        decreases a@.len() - i,
    {
        assert(a@.skip(i as int)[0] == a@[i as int] && b@.skip(i as int)[0] == b@[i as int]);
        if a[i] != b[i] {
            return a[i] < b[i];
        }
        assert(a@.skip(i as int).drop_first() =~= a@.skip(i + 1));
        assert(b@.skip(i as int).drop_first() =~= b@.skip(i + 1));
        i += 1;
    }
    i < b.len()
}

/// Inserts a byte sequence into a strictly sorted list unless it is already there.
fn insert_sorted(list: &mut Vec<Vec<u8>>, item: Vec<u8>)
    requires
        strictly_sorted(old(list)@.map_values(|v: Vec<u8>| v@)),
    ensures
        strictly_sorted(final(list)@.map_values(|v: Vec<u8>| v@)),
        final(list)@.map_values(|v: Vec<u8>| v@).to_set() == old(list)@.map_values(|v: Vec<u8>| v@).to_set().insert(item@),
{
    let ghost views = list@.map_values(|v: Vec<u8>| v@);
    let mut i: usize = 0;
    while i < list.len() && bytes_less(&list[i], &item)
        invariant
            i <= list@.len(),
            views == list@.map_values(|v: Vec<u8>| v@),
            views == old(list)@.map_values(|v: Vec<u8>| v@),
            forall|k: int| 0 <= k < i ==> lex_less(#[trigger] views[k], item@),
        decreases list@.len() - i,
    {
        i += 1;
    }
    if i < list.len() && bytes_equal(&list[i], &item) {
        proof {
            assert(views[i as int] == item@);
            assert(views.to_set().insert(item@) =~= views.to_set());
        }
        return;
    }
    proof {
        if i < views.len() {
            lemma_lex_total(views[i as int], item@);
        }
    }
    list.insert(i, item);
    proof {
        let new_views = list@.map_values(|v: Vec<u8>| v@);
        assert(new_views =~= views.insert(i as int, item@));
        assert forall|a: int, b: int| 0 <= a < b < new_views.len() implies lex_less(new_views[a], new_views[b]) by {
            if b == i {
                assert(new_views[a] == views[a]);
            } else if a == i {
                assert(new_views[b] == views[b - 1]);
                if b - 1 > i {
                    lemma_lex_transitive(item@, views[i as int], views[b - 1]);
                }
            } else if a < i && b > i {
                assert(new_views[a] == views[a] && new_views[b] == views[b - 1]);
                if b - 1 > i {
                    lemma_lex_transitive(views[a], item@, views[i as int]);
                    lemma_lex_transitive(views[a], views[i as int], views[b - 1]);
                } else {
                    lemma_lex_transitive(views[a], item@, views[b - 1]);
                }
            } else if a > i {
                assert(new_views[a] == views[a - 1] && new_views[b] == views[b - 1]);
            } else {
                assert(new_views[a] == views[a] && new_views[b] == views[b]);
            }
        }
        assert(new_views.to_set() =~= views.to_set().insert(item@)) by {
            assert forall|x: Seq<u8>| new_views.to_set().contains(x) <==> views.to_set().insert(item@).contains(x) by {
                if new_views.contains(x) {
                    let k = choose|k: int| 0 <= k < new_views.len() && new_views[k] == x;
                    if k < i {
                        assert(views[k] == x);
                    } else if k > i {
                        assert(views[k - 1] == x);
                    }
                }
                if views.contains(x) {
                    let k = choose|k: int| 0 <= k < views.len() && views[k] == x;
                    if k < i {
                        assert(new_views[k] == x);
                    } else {
                        assert(new_views[k + 1] == x);
                    }
                }
                if x == item@ {
                    assert(new_views[i as int] == x);
                }
            }
        }
    }
}

/// Views of the entries.
pub open spec fn entry_views(entries: Seq<(Vec<u8>, CommandList)>) -> Seq<EntryBytes> {
    entries.map_values(|e: (Vec<u8>, CommandList)| entry_view(e))
}

/// Entries with a non-empty key starting with `prefix` (the key truncated to `length` bytes),
/// the prefix removed, in their order.
pub open spec fn group(entries: Seq<EntryBytes>, length: int, prefix: Seq<u8>) -> Seq<EntryBytes>
    decreases entries.len(),
{
    if entries.len() == 0 {
        Seq::empty()
    } else {
        let rest = group(entries.drop_last(), length, prefix);
        let last = entries.last();
        if last.0.len() > 0 && truncated(last.0, length) == prefix {
            rest.push((last.0.skip(prefix.len() as int), last.1))
        } else {
            rest
        }
    }
}

/// Distinct prefixes (of the given length) of the non-empty keys.
pub open spec fn node_prefixes(entries: Seq<EntryBytes>, length: int) -> Set<Seq<u8>> {
    Set::new(|p: Seq<u8>| exists|i: int| 0 <= i < entries.len() && (#[trigger] entries[i]).0.len() > 0 && truncated(entries[i].0, length) == p)
}

/// Entries of the groups of the given prefixes, with the prefixes put back in front.
pub open spec fn groups_union(entries: Seq<EntryBytes>, length: int, prefixes: Seq<Seq<u8>>) -> Set<EntryBytes>
    decreases prefixes.len(),
{
    if prefixes.len() == 0 {
        Set::empty()
    } else {
        let last = prefixes.last();
        groups_union(entries, length, prefixes.drop_last()) + prefixed(last, group(entries, length, last).to_set())
    }
}

proof fn lemma_group_contains(entries: Seq<EntryBytes>, length: int, prefix: Seq<u8>, x: EntryBytes)
    ensures
        group(entries, length, prefix).contains(x) <==> exists|i: int| 0 <= i < entries.len() && (#[trigger] entries[i]).0.len() > 0
            && truncated(entries[i].0, length) == prefix && x == (entries[i].0.skip(prefix.len() as int), entries[i].1),
    decreases entries.len(),
{
    if entries.len() > 0 {
        let init = entries.drop_last();
        lemma_group_contains(init, length, prefix, x);
        let rest = group(init, length, prefix);
        let last = entries.last();
        if last.0.len() > 0 && truncated(last.0, length) == prefix {
            assert(rest.push((last.0.skip(prefix.len() as int), last.1)).contains(x) <==> (rest.contains(x) || x == (last.0.skip(prefix.len() as int), last.1))) by {
                if rest.push((last.0.skip(prefix.len() as int), last.1)).contains(x) {
                    let k = choose|k: int| 0 <= k < rest.len() + 1 && rest.push((last.0.skip(prefix.len() as int), last.1))[k] == x;
                    if k < rest.len() {
                        assert(rest[k] == x);
                    }
                }
                if rest.contains(x) {
                    let k = choose|k: int| 0 <= k < rest.len() && rest[k] == x;
                    assert(rest.push((last.0.skip(prefix.len() as int), last.1))[k] == x);
                }
                if x == (last.0.skip(prefix.len() as int), last.1) {
                    assert(rest.push((last.0.skip(prefix.len() as int), last.1))[rest.len() as int] == x);
                }
            }
        }
        if exists|i: int| 0 <= i < entries.len() && (#[trigger] entries[i]).0.len() > 0 && truncated(entries[i].0, length) == prefix && x
            == (entries[i].0.skip(prefix.len() as int), entries[i].1) {
            let i = choose|i: int| 0 <= i < entries.len() && (#[trigger] entries[i]).0.len() > 0 && truncated(entries[i].0, length) == prefix
                && x == (entries[i].0.skip(prefix.len() as int), entries[i].1);
            if i < entries.len() - 1 {
                assert(init[i] == entries[i]);
            }
        }
        if exists|i: int| 0 <= i < init.len() && (#[trigger] init[i]).0.len() > 0 && truncated(init[i].0, length) == prefix && x
            == (init[i].0.skip(prefix.len() as int), init[i].1) {
            let i = choose|i: int| 0 <= i < init.len() && (#[trigger] init[i]).0.len() > 0 && truncated(init[i].0, length) == prefix
                && x == (init[i].0.skip(prefix.len() as int), init[i].1);
            assert(entries[i] == init[i]);
        }
    }
}

proof fn lemma_groups_union_contains(entries: Seq<EntryBytes>, length: int, prefixes: Seq<Seq<u8>>, x: EntryBytes)
    ensures
        groups_union(entries, length, prefixes).contains(x) <==> exists|c: int| 0 <= c < prefixes.len() && prefixed(
            #[trigger] prefixes[c],
            group(entries, length, prefixes[c]).to_set(),
        ).contains(x),
    decreases prefixes.len(),
{
    if prefixes.len() > 0 {
        let init = prefixes.drop_last();
        lemma_groups_union_contains(entries, length, init, x);
        if exists|c: int| 0 <= c < prefixes.len() && prefixed(#[trigger] prefixes[c], group(entries, length, prefixes[c]).to_set()).contains(x) {
            let c = choose|c: int| 0 <= c < prefixes.len() && prefixed(#[trigger] prefixes[c], group(entries, length, prefixes[c]).to_set()).contains(x);
            if c < prefixes.len() - 1 {
                assert(init[c] == prefixes[c]);
            }
        }
        if exists|c: int| 0 <= c < init.len() && prefixed(#[trigger] init[c], group(entries, length, init[c]).to_set()).contains(x) {
            let c = choose|c: int| 0 <= c < init.len() && prefixed(#[trigger] init[c], group(entries, length, init[c]).to_set()).contains(x);
            assert(prefixes[c] == init[c]);
        }
    }
}

/// The groups of all prefixes hold exactly the entries with a non-empty key.
proof fn lemma_truncated_split(key: Seq<u8>, length: int)
    requires
        length >= 0,
    ensures
        truncated(key, length) + key.skip(truncated(key, length).len() as int) == key,
        truncated(key, length).len() <= key.len(),
        truncated(key, length).len() == if length < key.len() { length } else { key.len() as int },
{
    assert(truncated(key, length) + key.skip(truncated(key, length).len() as int) =~= key);
}

proof fn lemma_groups_cover(entries: Seq<EntryBytes>, length: int, prefixes: Seq<Seq<u8>>)
    requires
        length >= 0,
        prefixes.to_set() == node_prefixes(entries, length),
    ensures
        groups_union(entries, length, prefixes) == entries.to_set().filter(|e: EntryBytes| e.0.len() > 0),
{
    let lhs = groups_union(entries, length, prefixes);
    let rhs = entries.to_set().filter(|e: EntryBytes| e.0.len() > 0);
    assert forall|x: EntryBytes| lhs.contains(x) <==> rhs.contains(x) by {
        lemma_groups_union_contains(entries, length, prefixes, x);
        if lhs.contains(x) {
            let c = choose|c: int| 0 <= c < prefixes.len() && prefixed(#[trigger] prefixes[c], group(entries, length, prefixes[c]).to_set()).contains(x);
            let p = prefixes[c];
            let y = choose|y: EntryBytes| group(entries, length, p).to_set().contains(y) && x == (p + y.0, y.1);
            lemma_group_contains(entries, length, p, y);
            let i = choose|i: int| 0 <= i < entries.len() && (#[trigger] entries[i]).0.len() > 0 && truncated(entries[i].0, length) == p
                && y == (entries[i].0.skip(p.len() as int), entries[i].1);
            lemma_truncated_split(entries[i].0, length);
            assert(entries.contains(entries[i]));
        }
        if rhs.contains(x) {
            let i = choose|i: int| 0 <= i < entries.len() && entries[i] == x;
            let p = truncated(x.0, length);
            assert(node_prefixes(entries, length).contains(p)) by {
                assert(entries[i].0.len() > 0 && truncated(entries[i].0, length) == p);
            }
            assert(prefixes.to_set().contains(p));
            let c = choose|c: int| 0 <= c < prefixes.len() && prefixes[c] == p;
            let y = (x.0.skip(p.len() as int), x.1);
            lemma_group_contains(entries, length, p, y);
            assert(group(entries, length, p).to_set().contains(y));
            lemma_truncated_split(x.0, length);
            assert(prefixed(prefixes[c], group(entries, length, prefixes[c]).to_set()).contains(x));
        }
    }
    assert(lhs =~= rhs);
}

/// Keys of entry views.
pub open spec fn view_keys(entries: Seq<EntryBytes>) -> Seq<Seq<u8>> {
    entries.map_values(|e: EntryBytes| e.0)
}

/// No two entry views have the same key.
pub open spec fn distinct_view_keys(entries: Seq<EntryBytes>) -> bool {
    forall|i: int, j: int| 0 <= i < j < entries.len() ==> entries[i].0 != entries[j].0
}

/// Length of the longest key.
pub open spec fn max_key_length(keys: Seq<Seq<u8>>) -> nat
    decreases keys.len(),
{
    if keys.len() == 0 {
        0
    } else {
        let rest = max_key_length(keys.drop_last());
        if keys.last().len() > rest { keys.last().len() } else { rest }
    }
}

/// Measure that decreases from a node to its children: twice the longest key length, plus
/// one if a key is empty.
pub open spec fn build_measure(entries: Seq<EntryBytes>) -> nat {
    2 * max_key_length(view_keys(entries)) + if min_key_length(view_keys(entries)) == 0 { 1nat } else { 0nat }
}

proof fn lemma_max_key_length(keys: Seq<Seq<u8>>, bound: nat)
    ensures
        forall|i: int| 0 <= i < keys.len() ==> (#[trigger] keys[i]).len() <= max_key_length(keys),
        (forall|i: int| 0 <= i < keys.len() ==> (#[trigger] keys[i]).len() <= bound) ==> max_key_length(keys) <= bound,
    decreases keys.len(),
{
    if keys.len() > 0 {
        lemma_max_key_length(keys.drop_last(), bound);
        assert forall|i: int| 0 <= i < keys.len() implies (#[trigger] keys[i]).len() <= max_key_length(keys) by {
            if i < keys.len() - 1 {
                assert(keys[i] == keys.drop_last()[i]);
            }
        }
        if forall|i: int| 0 <= i < keys.len() ==> (#[trigger] keys[i]).len() <= bound {
            assert forall|i: int| 0 <= i < keys.drop_last().len() implies (#[trigger] keys.drop_last()[i]).len() <= bound by {
                assert(keys.drop_last()[i] == keys[i]);
            }
            assert(keys[keys.len() - 1].len() <= bound);
        }
    }
}

proof fn lemma_extend_prefix_length_positive(keys: Seq<Seq<u8>>, length: nat, max: nat, best: nat)
    requires
        best >= 1,
        length >= 1,
    ensures
        extend_prefix_length(keys, length, max, best) >= 1,
    decreases max - length,
{
    if !(length >= max || key_prefixes(keys, length).len() * length > PREFIX_ARRAY_SIZE_LIMIT) {
        lemma_extend_prefix_length_positive(keys, length + 1, max, length);
    }
}

/// The prefix length found is either the one to fall back on, or one tried whose distinct
/// prefixes fit into the prefix array.
proof fn lemma_extend_prefix_length_fits(keys: Seq<Seq<u8>>, length: nat, max: nat, best: nat)
    ensures
        ({
            let r = extend_prefix_length(keys, length, max, best);
            r == best || (length <= r < max && key_prefixes(keys, r).len() * r <= PREFIX_ARRAY_SIZE_LIMIT)
        }),
    decreases max - length,
{
    if !(length >= max || key_prefixes(keys, length).len() * length > PREFIX_ARRAY_SIZE_LIMIT) {
        lemma_extend_prefix_length_fits(keys, length + 1, max, length);
    }
}

/// A node built from entries, whose children are searchable, can be searched.
proof fn lemma_node_searchable(node: TreeNode, views: Seq<EntryBytes>, prefix_views: Seq<Seq<u8>>)
    requires
        node.prefix_length == spec_prefix_length(view_keys(views)),
        node.children@.len() == prefix_views.len(),
        forall|k: int| 0 <= k < prefix_views.len() ==> (#[trigger] node.children@[k]).0@ == prefix_views[k],
        strictly_sorted(prefix_views),
        prefix_views.to_set() == node_prefixes(views, node.prefix_length as int),
        searchable_children(node.children@),
    ensures
        searchable_node(node),
{
    let keys = view_keys(views);
    let length = node.prefix_length;
    lemma_prefix_length_positive(keys);
    let shortest = min_present_length(keys);
    lemma_extend_prefix_length_fits(keys, 1, shortest, 1);
    assert forall|k: int| 0 <= k < node.children@.len() implies (#[trigger] node.children@[k]).0@.len() == length by {
        assert(prefix_views.to_set().contains(prefix_views[k]));
        let i = choose|i: int| 0 <= i < views.len() && (#[trigger] views[i]).0.len() > 0 && truncated(views[i].0, length as int)
            == prefix_views[k];
        assert(keys[i] == views[i].0);
        lemma_prefix_length_bound(keys, i);
        lemma_truncated_split(views[i].0, length as int);
    }
    assert forall|a: int, b: int| 0 <= a < b < node.children@.len() implies node.children@[a].0@ != node.children@[b].0@ by {
        lemma_lex_irreflexive(prefix_views[a]);
    }
    assert(prefix_views.no_duplicates()) by {
        assert forall|a: int, b: int| 0 <= a < prefix_views.len() && 0 <= b < prefix_views.len() && a != b implies prefix_views[a]
            != prefix_views[b] by {
            if a < b {
                lemma_lex_irreflexive(prefix_views[a]);
            } else {
                lemma_lex_irreflexive(prefix_views[b]);
            }
        }
    }
    prefix_views.unique_seq_to_set();
    let cut = keys.map_values(|k: Seq<u8>| truncated(k, length as int));
    assert(node_prefixes(views, length as int).subset_of(key_prefixes(keys, length as nat))) by {
        assert forall|q: Seq<u8>| node_prefixes(views, length as int).contains(q) implies key_prefixes(keys, length as nat).contains(q) by {
            let i = choose|i: int| 0 <= i < views.len() && (#[trigger] views[i]).0.len() > 0 && truncated(views[i].0, length as int) == q;
            assert(cut[i] == q);
        }
    }
    cut.lemma_cardinality_of_set();
    lemma_len_subset(node_prefixes(views, length as int), key_prefixes(keys, length as nat));
    if length != 1 {
        let n = key_prefixes(keys, length as nat).len();
        assert(length * node.children@.len() <= PREFIX_ARRAY_SIZE_LIMIT) by (nonlinear_arith)
            requires
                n * length <= PREFIX_ARRAY_SIZE_LIMIT,
                node.children@.len() <= n,
        ;
    }
}

/// Building the group of a prefix makes progress, and keeps the keys distinct.
proof fn lemma_group_properties(entries: Seq<EntryBytes>, length: int, prefix: Seq<u8>)
    requires
        length == spec_prefix_length(view_keys(entries)),
    ensures
        group(entries, length, prefix).len() > 0 ==> build_measure(group(entries, length, prefix)) < build_measure(entries),
        distinct_view_keys(entries) ==> distinct_view_keys(group(entries, length, prefix)),
{
    let g = group(entries, length, prefix);
    let keys = view_keys(entries);
    let gkeys = view_keys(g);
    lemma_max_key_length(keys, 0);
    // Every member is the rest of a non-empty key after at least one byte.
    assert forall|a: int| 0 <= a < g.len() implies (#[trigger] g[a]).0.len() + 1 <= max_key_length(keys) by {
        assert(g.contains(g[a]));
        lemma_group_contains(entries, length, prefix, g[a]);
        let i = choose|i: int| 0 <= i < entries.len() && (#[trigger] entries[i]).0.len() > 0 && truncated(entries[i].0, length) == prefix
            && g[a] == (entries[i].0.skip(prefix.len() as int), entries[i].1);
        assert(keys[i] == entries[i].0);
        lemma_prefix_length_bound(keys, i);
        lemma_truncated_split(entries[i].0, length);
    }
    if g.len() > 0 {
        lemma_max_key_length(gkeys, (max_key_length(keys) - 1) as nat);
        assert forall|i: int| 0 <= i < gkeys.len() implies (#[trigger] gkeys[i]).len() <= (max_key_length(keys) - 1) as nat by {
            assert(gkeys[i] == g[i].0);
        }
        assert(g[0].0.len() + 1 <= max_key_length(keys));
    }
    if distinct_view_keys(entries) {
        assert forall|a: int, b: int| 0 <= a < b < g.len() implies g[a].0 != g[b].0 by {
            lemma_group_order(entries, length, prefix, a, b);
        }
    }
}

/// Two members of a group come from two different entries.
proof fn lemma_group_order(entries: Seq<EntryBytes>, length: int, prefix: Seq<u8>, a: int, b: int)
    requires
        0 <= a < b < group(entries, length, prefix).len(),
        length >= 0,
    ensures
        exists|i: int, j: int| 0 <= i < j < entries.len() && entries[i].0 == prefix + group(entries, length, prefix)[a].0
            && entries[j].0 == prefix + group(entries, length, prefix)[b].0,
    decreases entries.len(),
{
    let init = entries.drop_last();
    let rest = group(init, length, prefix);
    let last = entries.last();
    let g = group(entries, length, prefix);
    if b < rest.len() {
        assert(g[a] == rest[a] && g[b] == rest[b]);
        lemma_group_order(init, length, prefix, a, b);
        let (i, j) = choose|i: int, j: int| 0 <= i < j < init.len() && init[i].0 == prefix + rest[a].0 && init[j].0 == prefix + rest[b].0;
        assert(entries[i] == init[i] && entries[j] == init[j]);
    } else {
        assert(g[a] == rest[a]);
        assert(rest.contains(rest[a]));
        lemma_group_contains(init, length, prefix, rest[a]);
        let i = choose|i: int| 0 <= i < init.len() && (#[trigger] init[i]).0.len() > 0 && truncated(init[i].0, length) == prefix
            && rest[a] == (init[i].0.skip(prefix.len() as int), init[i].1);
        lemma_truncated_split(init[i].0, length);
        lemma_truncated_split(last.0, length);
        assert(entries[i] == init[i]);
        assert(entries[entries.len() - 1] == last);
    }
}

/// Prefixes of the non-empty keys, each once, in lexicographic order.
fn collect_prefixes(entries: &Vec<(Vec<u8>, CommandList)>, length: usize) -> (r: Vec<Vec<u8>>)
    ensures
        strictly_sorted(r@.map_values(|v: Vec<u8>| v@)),
        r@.map_values(|v: Vec<u8>| v@).to_set() == node_prefixes(entry_views(entries@), length as int),
{
    let ghost views = entry_views(entries@);
    let mut prefixes: Vec<Vec<u8>> = Vec::new();
    let mut i: usize = 0;
    assert(prefixes@.map_values(|v: Vec<u8>| v@).to_set() =~= Set::empty());
    while i < entries.len()
        invariant
            i <= entries@.len(),
            views == entry_views(entries@),
            strictly_sorted(prefixes@.map_values(|v: Vec<u8>| v@)),
            prefixes@.map_values(|v: Vec<u8>| v@).to_set() == node_prefixes(views.take(i as int), length as int),
        decreases entries@.len() - i,
    {
        let ghost before = node_prefixes(views.take(i as int), length as int);
        assert(views[i as int] == entry_view(entries@[i as int]));
        if entries[i].0.len() > 0 {
            let prefix = take_bytes(&entries[i].0, length);
            insert_sorted(&mut prefixes, prefix);
            proof {
                assert(node_prefixes(views.take(i + 1), length as int) =~= before.insert(prefix@)) by {
                    assert forall|p: Seq<u8>| node_prefixes(views.take(i + 1), length as int).contains(p) <==> before.insert(
                        p,
                    ).contains(p) && (p == prefix@ || before.contains(p)) by {
                        if node_prefixes(views.take(i + 1), length as int).contains(p) {
                            let k = choose|k: int| 0 <= k < views.take(i + 1).len() && (#[trigger] views.take(i + 1)[k]).0.len() > 0
                                && truncated(views.take(i + 1)[k].0, length as int) == p;
                            if k < i {
                                assert(views.take(i as int)[k] == views.take(i + 1)[k]);
                            }
                        }
                        if before.contains(p) {
                            let k = choose|k: int| 0 <= k < views.take(i as int).len() && (#[trigger] views.take(i as int)[k]).0.len() > 0
                                && truncated(views.take(i as int)[k].0, length as int) == p;
                            assert(views.take(i as int)[k] == views.take(i + 1)[k]);
                        }
                        if p == prefix@ {
                            assert(views.take(i + 1)[i as int] == views[i as int]);
                        }
                    }
                }
            }
        } else {
            proof {
                assert(node_prefixes(views.take(i + 1), length as int) =~= before) by {
                    assert forall|p: Seq<u8>| node_prefixes(views.take(i + 1), length as int).contains(p) implies before.contains(p) by {
                        let k = choose|k: int| 0 <= k < views.take(i + 1).len() && (#[trigger] views.take(i + 1)[k]).0.len() > 0
                            && truncated(views.take(i + 1)[k].0, length as int) == p;
                        assert(views.take(i as int)[k] == views.take(i + 1)[k]);
                    }
                    assert forall|p: Seq<u8>| before.contains(p) implies node_prefixes(views.take(i + 1), length as int).contains(p) by {
                        let k = choose|k: int| 0 <= k < views.take(i as int).len() && (#[trigger] views.take(i as int)[k]).0.len() > 0
                            && truncated(views.take(i as int)[k].0, length as int) == p;
                        assert(views.take(i as int)[k] == views.take(i + 1)[k]);
                    }
                }
            }
        }
        i += 1;
    }
    assert(views.take(entries@.len() as int) =~= views);
    prefixes
}

/// The entries with a non-empty key starting with the prefix, the prefix removed.
fn select_group(entries: &Vec<(Vec<u8>, CommandList)>, length: usize, prefix: &Vec<u8>) -> (r: Vec<(Vec<u8>, CommandList)>)
    ensures
        entry_views(r@) == group(entry_views(entries@), length as int, prefix@),
{
    let ghost views = entry_views(entries@);
    let mut out: Vec<(Vec<u8>, CommandList)> = Vec::new();
    let mut i: usize = 0;
    while i < entries.len()
        invariant
            i <= entries@.len(),
            views == entry_views(entries@),
            entry_views(out@) == group(views.take(i as int), length as int, prefix@),
        decreases entries@.len() - i,
    {
        let ghost before = out@;
        assert(views.take(i + 1).drop_last() =~= views.take(i as int));
        assert(views.take(i + 1).last() == entry_view(entries@[i as int]));
        if entries[i].0.len() > 0 && bytes_equal(&take_bytes(&entries[i].0, length), prefix) {
            proof {
                lemma_truncated_split(entries@[i as int].0@, length as int);
            }
            let remainder = skip_bytes(&entries[i].0, prefix.len());
            let commands = entries[i].1.duplicate();
            out.push((remainder, commands));
            assert(entry_views(out@) =~= entry_views(before).push(entry_view((remainder, commands))));
        }
        i += 1;
    }
    assert(views.take(entries@.len() as int) =~= views);
    out
}

impl TreeNode {
    /// Turns a node into a child: a node without children becomes a leaf holding its
    /// translation.
    fn into_child(self) -> (r: Child)
        requires
            self.children@.len() > 0 || self.leaf_data is Some,
        ensures
            child_entries(r) == tree_entries(self),
            inner_nodes_nonempty(self) ==> child_nonempty(r),
            r matches Child::Tree(node) ==> node == self,
            r matches Child::Leaf(data) ==> self.children@.len() == 0 && self.leaf_data is Some && self.leaf_data->0@ == data@,
    {
        if self.children.len() == 0 {
            let ghost node = self;
            assert(children_entries(node.children@) == Set::<EntryBytes>::empty());
            match self.leaf_data {
                Some(leaf_data) => {
                    assert(tree_entries(node) =~= leaf_entry(leaf_data@));
                    Child::Leaf(leaf_data)
                },
                None => {
                    assert(false);
                    Child::Tree(self)
                },
            }
        } else {
            Child::Tree(self)
        }
    }
}

/// Every node below the given one holds children: a node without children only stands as a
/// leaf.
pub open spec fn inner_nodes_nonempty(node: TreeNode) -> bool
    decreases node,
{
    children_nonempty(node.children@)
}

/// The nodes held by the children, and the nodes below them, hold children.
pub open spec fn children_nonempty(children: Seq<(Vec<u8>, Child)>) -> bool
    decreases children,
{
    children.len() == 0 || (children_nonempty(children.drop_last()) && child_nonempty(children[children.len() - 1].1))
}

/// A child node holds children, and so do the nodes below it.
pub open spec fn child_nonempty(child: Child) -> bool
    decreases child,
{
    match child {
        Child::Leaf(_) => true,
        Child::Tree(node) => node.children@.len() > 0 && inner_nodes_nonempty(node),
    }
}

proof fn lemma_children_nonempty_at(children: Seq<(Vec<u8>, Child)>, i: int)
    requires
        children_nonempty(children),
        0 <= i < children.len(),
    ensures
        child_nonempty(children[i].1),
    decreases children.len(),
{
    if i < children.len() - 1 {
        lemma_children_nonempty_at(children.drop_last(), i);
    }
}

/// The prefixes of the children of every node have the node's prefix length.
pub open spec fn uniform_prefixes(node: TreeNode) -> bool
    decreases node,
{
    &&& forall|i: int| 0 <= i < node.children@.len() ==> (#[trigger] node.children@[i]).0@.len() == node.prefix_length
    &&& uniform_children(node.children@)
}

/// The nodes held by the children have uniform prefixes.
pub open spec fn uniform_children(children: Seq<(Vec<u8>, Child)>) -> bool
    decreases children,
{
    children.len() == 0 || (uniform_children(children.drop_last()) && uniform_child(children[children.len() - 1].1))
}

/// The node held by the child, if any, has uniform prefixes.
pub open spec fn uniform_child(child: Child) -> bool
    decreases child,
{
    match child {
        Child::Leaf(_) => true,
        Child::Tree(node) => uniform_prefixes(node),
    }
}

proof fn lemma_uniform_at(children: Seq<(Vec<u8>, Child)>, i: int)
    requires
        uniform_children(children),
        0 <= i < children.len(),
    ensures
        uniform_child(children[i].1),
    decreases children.len(),
{
    if i < children.len() - 1 {
        lemma_uniform_at(children.drop_last(), i);
    }
}

/// The translations of a child are among those of the children.
proof fn lemma_child_lists_in(children: Seq<(Vec<u8>, Child)>, i: int, l: Seq<CommandView>)
    requires
        0 <= i < children.len(),
        child_lists(children[i].1).contains(l),
    ensures
        children_lists(children).contains(l),
    decreases children.len(),
{
    let init = children.drop_last();
    let last = child_lists(children[children.len() - 1].1);
    if i < children.len() - 1 {
        assert(init[i] == children[i]);
        lemma_child_lists_in(init, i, l);
        let k = choose|k: int| 0 <= k < children_lists(init).len() && children_lists(init)[k] == l;
        assert((children_lists(init) + last)[k] == l);
    } else {
        let k = choose|k: int| 0 <= k < last.len() && last[k] == l;
        assert((children_lists(init) + last)[children_lists(init).len() + k] == l);
    }
}

/// The prefix length of a node is at most the length of each of its keys.
proof fn lemma_prefix_length_bound(keys: Seq<Seq<u8>>, i: int)
    requires
        0 <= i < keys.len(),
        keys[i].len() > 0,
    ensures
        1 <= spec_prefix_length(keys) <= keys[i].len(),
{
    lemma_min_present_length(keys);
    let shortest = min_present_length(keys);
    lemma_extend_prefix_length_fits(keys, 1, shortest, 1);
    lemma_extend_prefix_length_positive(keys, 1, shortest, 1);
}

/// A node's prefix length is at least one.
proof fn lemma_prefix_length_positive(keys: Seq<Seq<u8>>)
    ensures
        spec_prefix_length(keys) >= 1,
{
    let shortest = min_present_length(keys);
    if shortest > 0 {
        lemma_extend_prefix_length_positive(keys, 1, shortest, 1);
    }
}

/// The node is the one built from the entries: its prefix length follows from their keys, its
/// own translation is that of the empty key, and its children hold the distinct prefixes of
/// the non-empty keys in increasing order, each built from the group of entries under it.
pub open spec fn built_from(node: TreeNode, entries: Seq<EntryBytes>) -> bool
    decreases node,
{
    &&& node.prefix_length == spec_prefix_length(view_keys(entries))
    &&& match node.leaf_data {
        Some(data) => exists|i: int| 0 <= i < entries.len() && #[trigger] entries[i] == (Seq::<u8>::empty(), data@),
        None => forall|i: int| 0 <= i < entries.len() ==> (#[trigger] entries[i]).0.len() > 0,
    }
    &&& strictly_sorted(node.children@.map_values(|c: (Vec<u8>, Child)| c.0@))
    &&& node.children@.map_values(|c: (Vec<u8>, Child)| c.0@).to_set() == node_prefixes(entries, node.prefix_length as int)
    &&& children_built(node.children@, entries, node.prefix_length as int)
}

/// Each child is built from the group of entries under its prefix.
pub open spec fn children_built(children: Seq<(Vec<u8>, Child)>, entries: Seq<EntryBytes>, length: int) -> bool
    decreases children,
{
    children.len() == 0 || (children_built(children.drop_last(), entries, length) && child_built(
        children[children.len() - 1].1,
        group(entries, length, children[children.len() - 1].0@),
    ))
}

/// The child is built from the entries: a leaf holds the translation of the single entry, whose
/// key is empty.
pub open spec fn child_built(child: Child, entries: Seq<EntryBytes>) -> bool
    decreases child,
{
    match child {
        Child::Leaf(data) => entries.len() == 1 && entries[0] == (Seq::<u8>::empty(), data@),
        Child::Tree(node) => built_from(node, entries),
    }
}

/// A node built from entries with distinct keys that has no children and holds a translation
/// was built from that single entry with the empty key.
proof fn lemma_built_leaf(node: TreeNode, entries: Seq<EntryBytes>, data: Seq<CommandView>)
    requires
        built_from(node, entries),
        distinct_view_keys(entries),
        node.children@.len() == 0,
        node.leaf_data matches Some(d) && d@ == data,
    ensures
        entries.len() == 1 && entries[0] == (Seq::<u8>::empty(), data),
{
    let i = choose|i: int| 0 <= i < entries.len() && #[trigger] entries[i] == (Seq::<u8>::empty(), data);
    assert forall|j: int| 0 <= j < entries.len() implies (#[trigger] entries[j]).0.len() == 0 by {
        if entries[j].0.len() > 0 {
            assert(node_prefixes(entries, node.prefix_length as int).contains(truncated(entries[j].0, node.prefix_length as int)));
            assert(node.children@.map_values(|c: (Vec<u8>, Child)| c.0@).to_set().contains(
                truncated(entries[j].0, node.prefix_length as int),
            ));
        }
    }
    if entries.len() > 1 {
        assert(entries[0].0 =~= entries[1].0);
    }
    assert(entries[0] == entries[i]);
}

/// Two entries with the same non-empty key end up in the same group with the same remainder.
proof fn lemma_group_duplicate(entries: Seq<EntryBytes>, length: int, i: int, j: int)
    requires
        0 <= i < j < entries.len(),
        entries[i].0 == entries[j].0,
        entries[i].0.len() > 0,
    ensures
        !distinct_view_keys(group(entries, length, truncated(entries[i].0, length))),
    decreases entries.len(),
{
    let p = truncated(entries[i].0, length);
    let init = entries.drop_last();
    if j < entries.len() - 1 {
        lemma_group_duplicate(init, length, i, j);
        let rest = group(init, length, p);
        let (a, b) = choose|a: int, b: int| 0 <= a < b < rest.len() && rest[a].0 == rest[b].0;
        let g = group(entries, length, p);
        assert(g[a] == rest[a] && g[b] == rest[b]);
    } else {
        let rest = group(init, length, p);
        let x = (entries[i].0.skip(p.len() as int), entries[i].1);
        lemma_group_contains(init, length, p, x);
        assert(init[i] == entries[i]);
        let k = choose|k: int| 0 <= k < rest.len() && rest[k] == x;
        let g = group(entries, length, p);
        assert(g == rest.push((entries[j].0.skip(p.len() as int), entries[j].1)));
        assert(g[k] == x);
        assert(g[rest.len() as int].0 == x.0);
    }
}

/// Recursively constructs a radix tree node holding the given entries. Fails if two entries
/// have the same key. The tree can be searched.
fn build_tree(entries: &Vec<(Vec<u8>, CommandList)>) -> (r: Result<TreeNode, CompileError>)
    ensures
        distinct_keys(entries@) <==> r is Ok,
        r matches Err(e) ==> e == CompileError::DuplicateOutline,
        r matches Ok(node) ==> {
            &&& tree_entries(node) == entry_set(entries@)
            &&& inner_nodes_nonempty(node)
            &&& (entries@.len() == 0 ==> node.children@.len() == 0 && node.leaf_data is None)
            &&& node.prefix_length == spec_prefix_length(keys_of(entries@))
            &&& strictly_sorted(node.children@.map_values(|c: (Vec<u8>, Child)| c.0@))
            &&& uniform_prefixes(node)
            &&& built_from(node, entry_views(entries@))
            &&& (forall|i: int| 0 <= i < entries@.len() ==> (#[trigger] entries@[i]).0@.len() == 0) ==> node.children@.len() == 0
            &&& searchable_node(node)
        },
    decreases build_measure(entry_views(entries@)),
{
    let ghost views = entry_views(entries@);
    proof {
        assert(keys_of(entries@) =~= view_keys(views));
        assert(distinct_keys(entries@) ==> distinct_view_keys(views));
    }
    let prefix_length = calculate_prefix_length(entries);

    // The translation of the empty key
    let mut leaf_data: Option<CommandList> = None;
    let ghost mut leaf_index: int = -1;
    let mut i: usize = 0;
    while i < entries.len()
        invariant
            i <= entries@.len(),
            views == entry_views(entries@),
            leaf_data is None <==> leaf_index == -1,
            leaf_data is None ==> forall|j: int| 0 <= j < i ==> (#[trigger] views[j]).0.len() > 0,
            leaf_data matches Some(d) ==> {
                &&& 0 <= leaf_index < i
                &&& views[leaf_index].0.len() == 0
                &&& views[leaf_index].1 == d@
                &&& forall|j: int| 0 <= j < i && (#[trigger] views[j]).0.len() == 0 ==> j == leaf_index
            },
        decreases entries@.len() - i,
    {
        assert(views[i as int] == entry_view(entries@[i as int]));
        if entries[i].0.len() == 0 {
            if leaf_data.is_some() {
                assert(!distinct_keys(entries@)) by {
                    assert(entries@[leaf_index].0@ == entries@[i as int].0@);
                }
                return Err(CompileError::DuplicateOutline);
            }
            leaf_data = Some(entries[i].1.duplicate());
            proof {
                leaf_index = i as int;
            }
        }
        i += 1;
    }
    let ghost own = if leaf_data is Some { leaf_entry(leaf_data->0@) } else { Set::empty() };
    proof {
        assert(own =~= views.to_set().filter(|e: EntryBytes| e.0.len() == 0)) by {
            assert forall|x: EntryBytes| own.contains(x) <==> views.to_set().filter(|e: EntryBytes| e.0.len() == 0).contains(x) by {
                if views.to_set().filter(|e: EntryBytes| e.0.len() == 0).contains(x) {
                    let j = choose|j: int| 0 <= j < views.len() && views[j] == x;
                    assert(x.0 =~= Seq::<u8>::empty());
                }
                if own.contains(x) {
                    assert(views.contains(views[leaf_index]));
                    assert(views[leaf_index].0 =~= Seq::<u8>::empty());
                }
            }
        }
    }

    // Build child nodes from the groups of entries sharing a prefix
    let prefixes = collect_prefixes(entries, prefix_length);
    let ghost prefix_views = prefixes@.map_values(|v: Vec<u8>| v@);
    let mut children: Vec<(Vec<u8>, Child)> = Vec::new();
    let mut c: usize = 0;
    while c < prefixes.len()
        invariant
            c <= prefixes@.len(),
            views == entry_views(entries@),
            prefix_views == prefixes@.map_values(|v: Vec<u8>| v@),
            prefix_length == spec_prefix_length(view_keys(views)),
            prefix_views.to_set() == node_prefixes(views, prefix_length as int),
            distinct_keys(entries@) ==> distinct_view_keys(views),
            children@.len() == c,
            forall|k: int| 0 <= k < c ==> (#[trigger] children@[k]).0@ == prefix_views[k],
            children_entries(children@) == groups_union(views, prefix_length as int, prefix_views.take(c as int)),
            forall|k: int| 0 <= k < c ==> distinct_view_keys(group(views, prefix_length as int, #[trigger] prefix_views[k])),
            children_nonempty(children@),
            searchable_children(children@),
            uniform_children(children@),
            children_built(children@, views, prefix_length as int),
        decreases prefixes@.len() - c,
    {
        let group_entries = select_group(entries, prefix_length, &prefixes[c]);
        let ghost p = prefix_views[c as int];
        proof {
            assert(prefixes@[c as int]@ == p);
            lemma_group_properties(views, prefix_length as int, p);
            // The prefix was taken from an entry, which is in the group.
            assert(prefix_views.to_set().contains(p));
            let i = choose|i: int| 0 <= i < views.len() && (#[trigger] views[i]).0.len() > 0 && truncated(views[i].0, prefix_length as int) == p;
            lemma_group_contains(views, prefix_length as int, p, (views[i].0.skip(p.len() as int), views[i].1));
            assert(distinct_view_keys(group(views, prefix_length as int, p)) ==> distinct_keys(group_entries@)) by {
                if distinct_view_keys(group(views, prefix_length as int, p)) {
                    assert forall|a: int, b: int| 0 <= a < b < group_entries@.len() implies group_entries@[a].0@ != group_entries@[b].0@ by {
                        assert(entry_views(group_entries@)[a] == entry_view(group_entries@[a]));
                        assert(entry_views(group_entries@)[b] == entry_view(group_entries@[b]));
                    }
                }
            }
        }
        let node = match build_tree(&group_entries) {
            Ok(node) => node,
            Err(e) => return Err(e),
        };
        proof {
            let g = group(views, prefix_length as int, p);
            assert(entry_set(group_entries@) == g.to_set());
            assert(g.len() > 0);
            assert(g.to_set().contains(g[0]));
            if node.children@.len() == 0 && node.leaf_data is None {
                assert(tree_entries(node) =~= Set::<EntryBytes>::empty());
            }
        }
        proof {
            let g = group(views, prefix_length as int, p);
            assert(entry_views(group_entries@) == g);
            assert forall|a: int, b: int| 0 <= a < b < g.len() implies g[a].0 != g[b].0 by {
                assert(g[a] == entry_view(group_entries@[a]));
                assert(g[b] == entry_view(group_entries@[b]));
            }
        }
        let ghost built = node;
        let child = node.into_child();
        proof {
            if child is Tree {
                assert(child->Tree_0 == built);
            }
            assert(searchable_child(child));
            let g = group(views, prefix_length as int, p);
            if child is Leaf {
                lemma_built_leaf(built, g, child->Leaf_0@);
            }
            assert(child_built(child, g));
            if child is Tree {
                assert(child->Tree_0 == built);
            }
            assert(uniform_child(child));
        }
        let prefix = take_bytes(&prefixes[c], prefixes[c].len());
        let ghost before = children@;
        children.push((prefix, child));
        proof {
            assert(children@.drop_last() =~= before);
            assert(children_nonempty(children@));
            assert(searchable_children(children@));
            assert(uniform_children(children@));
            assert(children@.last().0@ == p);
            assert(children_built(children@, views, prefix_length as int));
            assert(prefix_views.take(c + 1).drop_last() =~= prefix_views.take(c as int));
            assert(prefix_views.take(c + 1).last() == p);
            assert forall|k: int| 0 <= k < c + 1 implies (#[trigger] children@[k]).0@ == prefix_views[k] by {
                if k < c {
                    assert(children@[k] == before[k]);
                }
            }
        }
        c += 1;
    }
    let node = TreeNode { children, leaf_data, prefix_length };
    proof {
        if node.leaf_data is Some {
            assert(views[leaf_index].0 =~= Seq::<u8>::empty());
            assert(views[leaf_index] == (Seq::<u8>::empty(), node.leaf_data->0@));
        }
        if entries@.len() == 0 {
            if prefix_views.len() > 0 {
                assert(prefix_views.to_set().contains(prefix_views[0]));
            }
        }
        assert(prefix_views.take(prefixes@.len() as int) =~= prefix_views);
        lemma_groups_cover(views, prefix_length as int, prefix_views);
        assert(tree_entries(node) =~= entry_set(entries@)) by {
            assert(entry_set(entries@) == views.to_set());
            assert forall|x: EntryBytes| tree_entries(node).contains(x) <==> views.to_set().contains(x) by {
                if views.to_set().contains(x) {
                    if x.0.len() == 0 {
                        assert(views.to_set().filter(|e: EntryBytes| e.0.len() == 0).contains(x));
                    } else {
                        assert(views.to_set().filter(|e: EntryBytes| e.0.len() > 0).contains(x));
                    }
                }
            }
        }
        assert(node.children@.map_values(|c: (Vec<u8>, Child)| c.0@) =~= prefix_views);
        assert forall|k: int| 0 <= k < node.children@.len() implies (#[trigger] node.children@[k]).0@.len() == node.prefix_length by {
            assert(prefix_views.to_set().contains(prefix_views[k]));
            let i = choose|i: int| 0 <= i < views.len() && (#[trigger] views[i]).0.len() > 0 && truncated(views[i].0, prefix_length as int)
                == prefix_views[k];
            assert(view_keys(views)[i] == views[i].0);
            lemma_prefix_length_bound(view_keys(views), i);
            lemma_truncated_split(views[i].0, prefix_length as int);
        }
        if forall|i: int| 0 <= i < entries@.len() ==> (#[trigger] entries@[i]).0@.len() == 0 {
            if prefix_views.len() > 0 {
                assert(prefix_views.to_set().contains(prefix_views[0]));
                let i = choose|i: int| 0 <= i < views.len() && (#[trigger] views[i]).0.len() > 0 && truncated(views[i].0, prefix_length as int)
                    == prefix_views[0];
                assert(views[i] == entry_view(entries@[i]));
            }
        }
        lemma_node_searchable(node, views, prefix_views);
        assert forall|i: int, j: int| 0 <= i < j < entries@.len() implies entries@[i].0@ != entries@[j].0@ by {
            assert(views[i] == entry_view(entries@[i]));
            assert(views[j] == entry_view(entries@[j]));
            if entries@[i].0@ == entries@[j].0@ {
                if views[i].0.len() == 0 {
                    assert(views[j].0.len() == 0);
                } else {
                    let q = truncated(views[i].0, prefix_length as int);
                    lemma_group_duplicate(views, prefix_length as int, i, j);
                    assert(node_prefixes(views, prefix_length as int).contains(q));
                    assert(prefix_views.to_set().contains(q));
                    let k = choose|k: int| 0 <= k < prefix_views.len() && prefix_views[k] == q;
                    assert(distinct_view_keys(group(views, prefix_length as int, prefix_views[k])));
                }
            }
        }
    }
    Ok(node)
}

/// Translations of a node and its children in tree order: its own first, then those of each
/// child.
pub open spec fn tree_lists(node: TreeNode) -> Seq<Seq<CommandView>>
    decreases node,
{
    let own = match node.leaf_data {
        Some(data) => seq![data@],
        None => Seq::empty(),
    };
    own + children_lists(node.children@)
}

/// Translations of a sequence of children.
pub open spec fn children_lists(children: Seq<(Vec<u8>, Child)>) -> Seq<Seq<CommandView>>
    decreases children,
{
    if children.len() == 0 {
        Seq::empty()
    } else {
        children_lists(children.drop_last()) + child_lists(children[children.len() - 1].1)
    }
}

/// Translations of a child.
pub open spec fn child_lists(child: Child) -> Seq<Seq<CommandView>>
    decreases child,
{
    match child {
        Child::Leaf(data) => seq![data@],
        Child::Tree(node) => tree_lists(node),
    }
}

/// Views of command list references.
pub open spec fn list_views(lists: Seq<&CommandList>) -> Seq<Seq<CommandView>> {
    lists.map_values(|l: &CommandList| l@)
}

/// The translations listed for a node are those of its entries.
pub proof fn lemma_lists_of_entries(node: TreeNode, l: Seq<CommandView>)
    ensures
        tree_lists(node).contains(l) <==> exists|k: Seq<u8>| #[trigger] tree_entries(node).contains((k, l)),
    decreases node,
{
    let own_lists = match node.leaf_data {
        Some(data) => seq![data@],
        None => Seq::<Seq<CommandView>>::empty(),
    };
    let own_entries = match node.leaf_data {
        Some(data) => leaf_entry(data@),
        None => Set::<EntryBytes>::empty(),
    };
    lemma_children_lists_of_entries(node.children@, l);
    if tree_lists(node).contains(l) {
        let i = choose|i: int| 0 <= i < tree_lists(node).len() && tree_lists(node)[i] == l;
        if i < own_lists.len() {
            assert(own_entries.contains((Seq::<u8>::empty(), l)));
            assert(tree_entries(node).contains((Seq::<u8>::empty(), l)));
        } else {
            assert(children_lists(node.children@)[i - own_lists.len()] == l);
            let k = choose|k: Seq<u8>| #[trigger] children_entries(node.children@).contains((k, l));
            assert(tree_entries(node).contains((k, l)));
        }
    }
    if exists|k: Seq<u8>| #[trigger] tree_entries(node).contains((k, l)) {
        let k = choose|k: Seq<u8>| #[trigger] tree_entries(node).contains((k, l));
        if own_entries.contains((k, l)) {
            assert(tree_lists(node)[0] == l);
        } else {
            assert(children_entries(node.children@).contains((k, l)));
            let i = choose|i: int| 0 <= i < children_lists(node.children@).len() && children_lists(node.children@)[i] == l;
            assert(tree_lists(node)[own_lists.len() + i] == l);
        }
    }
}

proof fn lemma_children_lists_of_entries(children: Seq<(Vec<u8>, Child)>, l: Seq<CommandView>)
    ensures
        children_lists(children).contains(l) <==> exists|k: Seq<u8>| #[trigger] children_entries(children).contains((k, l)),
    decreases children,
{
    if children.len() > 0 {
        let init = children.drop_last();
        let last = children[children.len() - 1];
        lemma_children_lists_of_entries(init, l);
        lemma_child_lists_of_entries(last.1, l);
        let before = children_lists(init);
        let added = child_lists(last.1);
        let entries = child_entries(last.1);
        if children_lists(children).contains(l) {
            let i = choose|i: int| 0 <= i < children_lists(children).len() && children_lists(children)[i] == l;
            if i < before.len() {
                assert(before[i] == l);
                let k = choose|k: Seq<u8>| #[trigger] children_entries(init).contains((k, l));
                assert(children_entries(children).contains((k, l)));
            } else {
                assert(added[i - before.len()] == l);
                let k = choose|k: Seq<u8>| #[trigger] entries.contains((k, l));
                assert(prefixed(last.0@, entries).contains((last.0@ + k, l)));
                assert(children_entries(children).contains((last.0@ + k, l)));
            }
        }
        if exists|k: Seq<u8>| #[trigger] children_entries(children).contains((k, l)) {
            let k = choose|k: Seq<u8>| #[trigger] children_entries(children).contains((k, l));
            if children_entries(init).contains((k, l)) {
                let i = choose|i: int| 0 <= i < before.len() && before[i] == l;
                assert(children_lists(children)[i] == l);
            } else {
                assert(prefixed(last.0@, entries).contains((k, l)));
                let e = choose|e: EntryBytes| entries.contains(e) && (last.0@ + e.0, e.1) == (k, l);
                assert(entries.contains((e.0, l)));
                let i = choose|i: int| 0 <= i < added.len() && added[i] == l;
                assert(children_lists(children)[before.len() + i] == l);
            }
        }
    }
}

proof fn lemma_child_lists_of_entries(child: Child, l: Seq<CommandView>)
    ensures
        child_lists(child).contains(l) <==> exists|k: Seq<u8>| #[trigger] child_entries(child).contains((k, l)),
    decreases child,
{
    if let Child::Tree(node) = child {
        lemma_lists_of_entries(node, l);
        assert(child_lists(child) == tree_lists(node));
        assert(child_entries(child) == tree_entries(node));
        if tree_lists(node).contains(l) {
            let k = choose|k: Seq<u8>| #[trigger] tree_entries(node).contains((k, l));
            assert(child_entries(child).contains((k, l)));
        }
        if exists|k: Seq<u8>| #[trigger] child_entries(child).contains((k, l)) {
            let k = choose|k: Seq<u8>| #[trigger] child_entries(child).contains((k, l));
            assert(tree_entries(node).contains((k, l)));
        }
    } else {
        let d = child->Leaf_0@;
        let empty = Seq::<u8>::empty();
        assert(child_lists(child) == seq![d]);
        assert(child_entries(child) == set![(empty, d)]);
        if l == d {
            assert(child_lists(child)[0] == l);
            assert(child_entries(child).contains((empty, l)));
        } else {
            assert forall|k: Seq<u8>| !child_entries(child).contains((k, l)) by {
                assert((k, l) != (empty, d));
            }
            assert(!child_lists(child).contains(l)) by {
                if child_lists(child).contains(l) {
                    let i = choose|i: int| 0 <= i < child_lists(child).len() && child_lists(child)[i] == l;
                    assert(i == 0);
                }
            }
        }
    }
}

/// Size of a serialized node with its descendants.
pub open spec fn node_size(node: TreeNode) -> nat
    decreases node,
{
    (5 + node.prefix_length * node.children@.len() + 3 * node.children@.len() + children_size(node.children@)) as nat
}

/// Size of the serialized descendants held by the children.
pub open spec fn children_size(children: Seq<(Vec<u8>, Child)>) -> nat
    decreases children,
{
    if children.len() == 0 {
        0
    } else {
        children_size(children.drop_last()) + child_size(children[children.len() - 1].1)
    }
}

/// Size of a serialized child: nothing for a leaf, the node otherwise.
pub open spec fn child_size(child: Child) -> nat
    decreases child,
{
    match child {
        Child::Leaf(_) => 0,
        Child::Tree(node) => node_size(node),
    }
}

/// Big-endian bytes of a location that fits into three bytes.
pub open spec fn location_bytes(location: int) -> Seq<u8> {
    seq![((location / 65536) % 256) as u8, ((location / 256) % 256) as u8, (location % 256) as u8]
}

/// Location of a stored translation (zero if it was not stored).
pub open spec fn translation_location(table: Seq<(Seq<CommandView>, usize)>, list: Seq<CommandView>) -> int {
    match lookup(table, list) {
        Some(offset) => offset as int,
        None => 0,
    }
}

/// Location a child points to: its translation for a leaf, the given node location otherwise.
pub open spec fn child_target(child: Child, location: int, table: Seq<(Seq<CommandView>, usize)>) -> int {
    match child {
        Child::Leaf(data) => translation_location(table, data@),
        Child::Tree(_) => location,
    }
}

/// Concatenated prefixes of the children.
pub open spec fn prefix_bytes(children: Seq<(Vec<u8>, Child)>) -> Seq<u8>
    decreases children.len(),
{
    if children.len() == 0 {
        Seq::empty()
    } else {
        prefix_bytes(children.drop_last()) + children[children.len() - 1].0@
    }
}

/// Pointer array of the children, whose nodes are serialized one after the other from `base`.
pub open spec fn pointer_bytes(children: Seq<(Vec<u8>, Child)>, base: int, table: Seq<(Seq<CommandView>, usize)>) -> Seq<u8>
    decreases children.len(),
{
    if children.len() == 0 {
        Seq::empty()
    } else {
        let init = children.drop_last();
        pointer_bytes(init, base, table) + location_bytes(
            child_target(children[children.len() - 1].1, base + children_size(init), table),
        )
    }
}

/// Header of a node: child count minus one, prefix length, location of its translation or zeros.
pub open spec fn node_header(node: TreeNode, table: Seq<(Seq<CommandView>, usize)>) -> Seq<u8> {
    seq![(node.children@.len() - 1) as u8, node.prefix_length as u8] + match node.leaf_data {
        Some(data) => location_bytes(translation_location(table, data@)),
        None => seq![0u8, 0u8, 0u8],
    }
}

/// Location after the pointer array of a node serialized at `location`.
pub open spec fn pointer_array_end(node: TreeNode, location: int) -> int {
    location + 5 + node.prefix_length * node.children@.len() + 3 * node.children@.len()
}

/// Serialized form of a node at `location`: header, prefix array, pointer array, then the
/// child nodes one after the other.
pub open spec fn serialized_node(node: TreeNode, location: int, table: Seq<(Seq<CommandView>, usize)>) -> Seq<u8>
    decreases node,
{
    let base = pointer_array_end(node, location);
    node_header(node, table) + prefix_bytes(node.children@) + pointer_bytes(node.children@, base, table)
        + serialized_children(node.children@, base, table)
}

/// Serialized child nodes, one after the other from `base`.
pub open spec fn serialized_children(children: Seq<(Vec<u8>, Child)>, base: int, table: Seq<(Seq<CommandView>, usize)>) -> Seq<u8>
    decreases children,
{
    if children.len() == 0 {
        Seq::empty()
    } else {
        let init = children.drop_last();
        serialized_children(init, base, table) + serialized_child(
            children[children.len() - 1].1,
            base + children_size(init),
            table,
        )
    }
}

/// Serialized form of a child at `location`: nothing for a leaf.
pub open spec fn serialized_child(child: Child, location: int, table: Seq<(Seq<CommandView>, usize)>) -> Seq<u8>
    decreases child,
{
    match child {
        Child::Leaf(_) => Seq::empty(),
        Child::Tree(node) => serialized_node(node, location, table),
    }
}

/// The translation is stored at a location that fits into three bytes.
pub open spec fn stored_in_range(table: Seq<(Seq<CommandView>, usize)>, list: Seq<CommandView>) -> bool {
    lookup(table, list) matches Some(offset) && offset < 0x100_0000
}

/// The node can be serialized at `location`: it has between 1 and 254 children, a prefix
/// length below 255, children prefixes of that length, its translations are stored at
/// locations fitting three bytes, and so are its child nodes, recursively.
pub open spec fn serializable(node: TreeNode, location: int, table: Seq<(Seq<CommandView>, usize)>) -> bool
    decreases node,
{
    &&& 0 < node.children@.len() < 255
    &&& node.prefix_length < 255
    &&& node.leaf_data matches Some(data) ==> stored_in_range(table, data@)
    &&& forall|i: int| 0 <= i < node.children@.len() ==> (#[trigger] node.children@[i]).0@.len() == node.prefix_length
    &&& children_serializable(node.children@, pointer_array_end(node, location), table)
}

/// The children can be serialized with their nodes one after the other from `base`.
pub open spec fn children_serializable(children: Seq<(Vec<u8>, Child)>, base: int, table: Seq<(Seq<CommandView>, usize)>) -> bool
    decreases children,
{
    children.len() == 0 || {
        let init = children.drop_last();
        &&& children_serializable(init, base, table)
        &&& child_serializable(children[children.len() - 1].1, base + children_size(init), table)
    }
}

/// The child can be serialized at `location`.
pub open spec fn child_serializable(child: Child, location: int, table: Seq<(Seq<CommandView>, usize)>) -> bool
    decreases child,
{
    match child {
        Child::Leaf(data) => stored_in_range(table, data@),
        Child::Tree(node) => location < 0x100_0000 && serializable(node, location, table),
    }
}

proof fn lemma_children_serializable_prefix(children: Seq<(Vec<u8>, Child)>, base: int, table: Seq<(Seq<CommandView>, usize)>, k: int)
    requires
        0 <= k <= children.len(),
        children_serializable(children, base, table),
    ensures
        children_serializable(children.take(k), base, table),
    decreases children.len() - k,
{
    if k == children.len() {
        assert(children.take(k) =~= children);
    } else {
        lemma_children_serializable_prefix(children, base, table, k + 1);
        assert(children.take(k + 1).drop_last() =~= children.take(k));
    }
}

/// Big-endian bytes of a location below 2^24.
fn location_to_bytes(location: usize) -> (r: [u8; 3])
    requires
        location < 0x100_0000,
    ensures
        r@ == location_bytes(location as int),
{
    let r = [(location / 65536) as u8, ((location / 256) % 256) as u8, (location % 256) as u8];
    assert(r@ =~= location_bytes(location as int));
    r
}

impl TreeNode {
    /// Recursively constructs a radix tree from the given dictionary entries, whose outlines all
    /// differ. The tree can be searched; an outline that is the beginning of another one is the
    /// translation of the node where the longer one continues.
    pub fn new(entries: Vec<(Outline, CommandList)>) -> (r: Self)
        requires
            forall|i: int| 0 <= i < entries@.len() ==> (#[trigger] entries@[i]).0@.len() * 3 <= usize::MAX,
            forall|i: int, j: int| 0 <= i < j < entries@.len() ==> crate::dict::tree::stroke_bytes(entries@[i].0@)
                != crate::dict::tree::stroke_bytes(entries@[j].0@),
        ensures
            tree_entries(r) == entries@.map_values(
                |e: (Outline, CommandList)| (crate::dict::tree::stroke_bytes(e.0@), e.1@),
            ).to_set(),
            inner_nodes_nonempty(r),
            uniform_prefixes(r),
            entries@.len() == 0 ==> r.children@.len() == 0 && r.leaf_data is None,
            searchable_node(r),
            built_from(r, entries@.map_values(|e: (Outline, CommandList)| (crate::dict::tree::stroke_bytes(e.0@), e.1@))),
    {
        match Self::try_new(entries) {
            Ok(node) => node,
            Err(_) => {
                assert(false);
                TreeNode { children: Vec::new(), leaf_data: None, prefix_length: 0 }
            },
        }
    }

    /// Recursively constructs a radix tree from the given dictionary entries. Fails if two
    /// outlines are the same. The tree can be searched; an outline that is the beginning of
    /// another one is the translation of the node where the longer one continues.
    pub fn try_new(entries: Vec<(Outline, CommandList)>) -> (r: Result<Self, CompileError>)
        requires
            forall|i: int| 0 <= i < entries@.len() ==> (#[trigger] entries@[i]).0@.len() * 3 <= usize::MAX,
        ensures
            r matches Err(e) ==> e == CompileError::DuplicateOutline,
            (forall|i: int, j: int| 0 <= i < j < entries@.len() ==> crate::dict::tree::stroke_bytes(entries@[i].0@)
                != crate::dict::tree::stroke_bytes(entries@[j].0@)) <==> r is Ok,
            r matches Ok(node) ==> tree_entries(node) == entries@.map_values(
                |e: (Outline, CommandList)| (crate::dict::tree::stroke_bytes(e.0@), e.1@),
            ).to_set(),
            r matches Ok(node) ==> inner_nodes_nonempty(node),
            r matches Ok(node) ==> uniform_prefixes(node),
            r matches Ok(node) ==> (entries@.len() == 0 ==> node.children@.len() == 0 && node.leaf_data is None),
            r matches Ok(node) ==> searchable_node(node),
            r matches Ok(node) ==> built_from(
                node,
                entries@.map_values(|e: (Outline, CommandList)| (crate::dict::tree::stroke_bytes(e.0@), e.1@)),
            ),
    {
        let mut raw_entries: Vec<(Vec<u8>, CommandList)> = Vec::new();
        let ghost all = entries@;
        let ghost target = all.map_values(|e: (Outline, CommandList)| (crate::dict::tree::stroke_bytes(e.0@), e.1@));
        let mut k: usize = 0;
        while k < entries.len()
            invariant
                k <= all.len(),
                all == entries@,
                forall|i: int| 0 <= i < all.len() ==> (#[trigger] all[i]).0@.len() * 3 <= usize::MAX,
                raw_entries@.len() == k,
                entry_views(raw_entries@) == target.take(k as int),
                target == all.map_values(|e: (Outline, CommandList)| (crate::dict::tree::stroke_bytes(e.0@), e.1@)),
            decreases all.len() - k,
        {
            let bytes = crate::dict::tree::strokes_into_bytes(&entries[k].0.0);
            let commands = entries[k].1.duplicate();
            let ghost before = entry_views(raw_entries@);
            raw_entries.push((bytes, commands));
            assert(entry_views(raw_entries@) =~= target.take(k + 1)) by {
                assert(entry_views(raw_entries@) =~= before.push(entry_view((bytes, commands))));
                assert(target.take(k + 1) =~= target.take(k as int).push(target[k as int]));
            }
            k += 1;
        }
        assert(target.take(all.len() as int) =~= target);
        proof {
            if forall|i: int, j: int| 0 <= i < j < all.len() ==> crate::dict::tree::stroke_bytes(all[i].0@)
                != crate::dict::tree::stroke_bytes(all[j].0@) {
                assert forall|i: int, j: int| 0 <= i < j < raw_entries@.len() implies raw_entries@[i].0@ != raw_entries@[j].0@ by {
                    assert(entry_views(raw_entries@)[i] == entry_view(raw_entries@[i]));
                    assert(entry_views(raw_entries@)[j] == entry_view(raw_entries@[j]));
                }
            }
        }
        let r = build_tree(&raw_entries);
        proof {
            if r is Ok {
                assert forall|i: int, j: int| 0 <= i < j < all.len() implies crate::dict::tree::stroke_bytes(all[i].0@)
                    != crate::dict::tree::stroke_bytes(all[j].0@) by {
                    assert(entry_views(raw_entries@)[i] == entry_view(raw_entries@[i]));
                    assert(entry_views(raw_entries@)[j] == entry_view(raw_entries@[j]));
                }
            }
        }
        r
    }

    /// Collects references to all translations stored in the tree
    pub fn command_lists(&self) -> (r: Vec<&CommandList>)
        ensures
            list_views(r@) == tree_lists(*self),
    {
        let mut lists: Vec<&CommandList> = Vec::new();
        self.recursive_command_lists(&mut lists);
        assert(list_views(lists@) =~= Seq::empty() + tree_lists(*self));
        lists
    }

    fn recursive_command_lists<'s>(&'s self, lists: &mut Vec<&'s CommandList>)
        ensures
            list_views(final(lists)@) == list_views(old(lists)@) + tree_lists(*self),
        decreases self,
    {
        let ghost start = list_views(lists@);
        if let Some(data) = &self.leaf_data {
            lists.push(data);
        }
        let ghost own = if self.leaf_data is Some { seq![self.leaf_data->0@] } else { Seq::<Seq<CommandView>>::empty() };
        assert(list_views(lists@) =~= start + own);
        let mut i: usize = 0;
        while i < self.children.len()
            invariant
                i <= self.children@.len(),
                list_views(lists@) == start + own + children_lists(self.children@.take(i as int)),
            decreases self.children@.len() - i,
        {
            let ghost before = list_views(lists@);
            let ghost child = self.children@[i as int].1;
            assert(self.children@.take(i + 1).drop_last() =~= self.children@.take(i as int));
            assert(self.children@.take(i + 1)[i as int] == self.children@[i as int]);
            assert(children_lists(self.children@.take(i + 1)) == children_lists(self.children@.take(i as int)) + child_lists(child));
            match &self.children[i].1 {
                Child::Leaf(data) => {
                    lists.push(data);
                    assert(list_views(lists@) =~= before + seq![data@]);
                    assert(child_lists(child) == seq![data@]);
                },
                Child::Tree(node) => {
                    assert(decreases_to!(self => self.children@[i as int].1));
                    node.recursive_command_lists(lists);
                    assert(child_lists(child) == tree_lists(*node));
                },
            }
            assert(list_views(lists@) =~= start + own + children_lists(self.children@.take(i + 1)));
            i += 1;
        }
        assert(self.children@.take(self.children@.len() as int) =~= self.children@);
        assert(start + own + children_lists(self.children@) =~= start + tree_lists(*self));
    }

    /// Appends the serialized node and its descendants to the buffer, which already holds the
    /// translations; the node must fit the format there.
    pub fn serialize_into_buffer(&self, buffer: &mut Vec<u8>, translations: &TranslationPointers)
        requires
            serializable(*self, old(buffer)@.len() as int, translations@),
        ensures
            final(buffer)@ == old(buffer)@ + serialized_node(*self, old(buffer)@.len() as int, translations@),
    {
        match self.try_serialize_into_buffer(buffer, translations) {
            Ok(()) => {},
            Err(_) => {
                assert(false);
            },
        }
    }

    /// Appends the serialized node and its descendants to the buffer, which already holds the
    /// translations. Fails if the node cannot be serialized at the end of the buffer.
    #[verifier::spinoff_prover]
    #[verifier::rlimit(40)]
    pub fn try_serialize_into_buffer(&self, buffer: &mut Vec<u8>, translations: &TranslationPointers) -> (r: Result<(), CompileError>)
        ensures
            r is Ok <==> serializable(*self, old(buffer)@.len() as int, translations@),
            r matches Err(e) ==> e != CompileError::InvalidDictionary && e != CompileError::DuplicateOutline
                && e != CompileError::UnstorableTranslation && e != CompileError::VerificationFailed,
            self.children@.len() == 0 ==> r == Err::<(), CompileError>(CompileError::EmptyDictionary),
            r == Err::<(), CompileError>(CompileError::EmptyDictionary) ==> self.children@.len() == 0 || !inner_nodes_nonempty(*self),
            r is Ok ==> final(buffer)@ == old(buffer)@ + serialized_node(*self, old(buffer)@.len() as int, translations@),
            r is Ok ==> final(buffer)@.len() == old(buffer)@.len() + node_size(*self),
            uniform_prefixes(*self) ==> r != Err::<(), CompileError>(CompileError::MismatchingPrefix),
            (forall|l: Seq<CommandView>| tree_lists(*self).contains(l) ==> #[trigger] lookup(translations@, l) is Some) ==> r
                != Err::<(), CompileError>(CompileError::MissingTranslation),
        decreases self,
    {
        let ghost table = translations@;
        let ghost start = buffer@;
        let ghost location = start.len() as int;
        let count = self.children.len();
        if count >= 255 {
            return Err(CompileError::TooManyChildren);
        }
        if count == 0 {
            return Err(CompileError::EmptyDictionary);
        }
        if self.prefix_length >= 255 {
            return Err(CompileError::PrefixTooLong);
        }

        // Store the number of children, offset by one as empty nodes are disallowed
        buffer.push((count - 1) as u8);
        // Store the prefix length
        buffer.push(self.prefix_length as u8);
        // Store information about the translation location if applicable
        match &self.leaf_data {
            Some(leaf_data) => {
                let offset = match translations.offset_for(leaf_data) {
                    Some(offset) => offset,
                    None => {
                        assert(tree_lists(*self)[0] == leaf_data@);
                        return Err(CompileError::MissingTranslation);
                    },
                };
                if offset >= 0x100_0000 {
                    assert(!stored_in_range(table, leaf_data@));
                    return Err(CompileError::LocationOutOfRange);
                }
                let bytes = location_to_bytes(offset);
                buffer.push(bytes[0]);
                buffer.push(bytes[1]);
                buffer.push(bytes[2]);
            },
            None => {
                buffer.push(0);
                buffer.push(0);
                buffer.push(0);
            },
        }
        assert(buffer@ =~= start + node_header(*self, table));

        // Build the prefix/key array
        let mut i: usize = 0;
        while i < count
            invariant
                i <= count == self.children@.len(),
                buffer@ == start + node_header(*self, table) + prefix_bytes(self.children@.take(i as int)),
                forall|k: int| 0 <= k < i ==> (#[trigger] self.children@[k]).0@.len() == self.prefix_length,
            decreases count - i,
        {
            let prefix = &self.children[i].0;
            if prefix.len() != self.prefix_length {
                assert(self.children@[i as int].0@.len() != self.prefix_length);
                return Err(CompileError::MismatchingPrefix);
            }
            let ghost before = buffer@;
            let mut copy = take_bytes(prefix, prefix.len());
            buffer.append(&mut copy);
            proof {
                assert(self.children@.take(i + 1).drop_last() =~= self.children@.take(i as int));
                assert(self.children@.take(i + 1)[i as int] == self.children@[i as int]);
                assert(buffer@ =~= start + node_header(*self, table) + prefix_bytes(self.children@.take(i + 1)));
            }
            i += 1;
        }
        assert(self.children@.take(count as int) =~= self.children@);
        proof {
            assert(self.prefix_length * count == prefix_bytes(self.children@).len()) by {
                lemma_prefix_bytes_len(self.children@, self.prefix_length as int);
            }
        }

        // Allocate the pointer array
        let ghost head = buffer@;
        let pointer_array_start = buffer.len();
        let mut k: usize = 0;
        while k < count * 3
            invariant
                k <= count * 3,
                count < 255,
                buffer@ == head + Seq::new(k as nat, |j: int| 0u8),
            decreases count * 3 - k,
        {
            buffer.push(0);
            k += 1;
            assert(buffer@ =~= head + Seq::new(k as nat, |j: int| 0u8));
        }
        let ghost base = pointer_array_end(*self, location);
        assert(base == head.len() + 3 * count);

        // Serialize the child nodes and store pointers to them
        let mut i: usize = 0;
        while i < count
            invariant
                i <= count == self.children@.len(),
                count < 255,
                pointer_array_start == head.len(),
                base == head.len() + 3 * count,
                start == old(buffer)@,
                location == start.len() as int,
                base == pointer_array_end(*self, location),
                head == start + node_header(*self, table) + prefix_bytes(self.children@),
                table == translations@,
                buffer@.len() == base + children_size(self.children@.take(i as int)),
                buffer@.subrange(0, head.len() as int) == head,
                buffer@.subrange(head.len() as int, base) == pointer_bytes(self.children@.take(i as int), base, table)
                    + Seq::new((3 * (count - i)) as nat, |j: int| 0u8),
                buffer@.subrange(base, buffer@.len() as int) == serialized_children(self.children@.take(i as int), base, table),
                children_serializable(self.children@.take(i as int), base, table),
                forall|k: int| 0 <= k < count ==> (#[trigger] self.children@[k]).0@.len() == self.prefix_length,
            decreases count - i,
        {
            let ghost before = buffer@;
            let ghost init = self.children@.take(i as int);
            let ghost child = self.children@[i as int].1;
            proof {
                assert(self.children@.take(i + 1).drop_last() =~= init);
                assert(self.children@.take(i + 1)[i as int] == self.children@[i as int]);
            }
            let target: usize = match &self.children[i].1 {
                Child::Leaf(data) => {
                    match translations.offset_for(data) {
                        Some(offset) => offset,
                        None => {
                            proof {
                                assert(!child_serializable(child, base + children_size(init), table));
                                self.lemma_not_serializable(location, table, i as int);
                                assert(!serializable(*self, location, table));
                                assert(child_lists(child)[0] == data@);
                                self.lemma_child_lists_of_node(i as int, data@);
                            }
                            return Err(CompileError::MissingTranslation);
                        },
                    }
                },
                Child::Tree(_) => buffer.len(),
            };
            if target >= 0x100_0000 {
                proof {
                    self.lemma_not_serializable(location, table, i as int);
                }
                return Err(CompileError::LocationOutOfRange);
            }
            let bytes = location_to_bytes(target);
            let current_length = buffer.len();
            assert(pointer_array_start + i * 3 + 2 < current_length);
            let slot = pointer_array_start + i * 3;
            buffer.set(slot, bytes[0]);
            buffer.set(slot + 1, bytes[1]);
            buffer.set(slot + 2, bytes[2]);
            proof {
                assert(pointer_bytes(self.children@.take(i + 1), base, table) == pointer_bytes(init, base, table) + location_bytes(
                    target as int,
                ));
                lemma_pointer_bytes_len(init, base, table);
                lemma_write_slot(before, buffer@, head.len() as int, base, slot as int, pointer_bytes(init, base, table), bytes@);
                assert(Seq::new((3 * (count - i)) as nat, |j: int| 0u8).len() == base - slot);
            }
            proof {
                let next = self.children@.take(i + 1);
                assert(next[next.len() - 1] == self.children@[i as int]);
                assert(serialized_children(next, base, table) == serialized_children(init, base, table) + serialized_child(
                    child,
                    base + children_size(init),
                    table,
                ));
                assert(children_size(next) == children_size(init) + child_size(child));
            }
            match &self.children[i].1 {
                Child::Leaf(_) => {
                    proof {
                        assert(serialized_children(self.children@.take(i + 1), base, table) =~= serialized_children(init, base, table));
                        assert(child_serializable(child, base + children_size(init), table));
                    }
                },
                Child::Tree(node) => {
                    let ghost set_buffer = buffer@;
                    assert(decreases_to!(self => self.children@[i as int].1));
                    match node.try_serialize_into_buffer(buffer, translations) {
                        Ok(()) => {},
                        Err(e) => {
                            proof {
                                self.lemma_not_serializable(location, table, i as int);
                                if e == CompileError::EmptyDictionary && inner_nodes_nonempty(*self) {
                                    lemma_children_nonempty_at(self.children@, i as int);
                                }
                                if uniform_prefixes(*self) {
                                    lemma_uniform_at(self.children@, i as int);
                                }
                                assert forall|l: Seq<CommandView>| tree_lists(*node).contains(l) implies tree_lists(*self).contains(l) by {
                                    self.lemma_child_lists_of_node(i as int, l);
                                }
                            }
                            return Err(e);
                        },
                    }
                    proof {
                        assert(buffer@.subrange(0, head.len() as int) =~= set_buffer.subrange(0, head.len() as int));
                        assert(buffer@.subrange(head.len() as int, base) =~= set_buffer.subrange(head.len() as int, base));
                        assert(buffer@.subrange(base, buffer@.len() as int) =~= set_buffer.subrange(base, set_buffer.len() as int)
                            + serialized_node(*node, set_buffer.len() as int, table));
                        assert(child_serializable(child, base + children_size(init), table));
                    }
                },
            }
            i += 1;
        }
        proof {
            assert(self.children@.take(count as int) =~= self.children@);
            assert(Seq::new(0nat, |j: int| 0u8) =~= Seq::<u8>::empty());
            lemma_assemble(
                buffer@,
                head,
                base,
                pointer_bytes(self.children@, base, table),
                serialized_children(self.children@, base, table),
            );
            assert(start + serialized_node(*self, location, table) =~= head + pointer_bytes(self.children@, base, table)
                + serialized_children(self.children@, base, table));
            assert(serializable(*self, location, table));
        }
        Ok(())
    }

    /// A node is not serializable when one of its children cannot be serialized after the
    /// children before it.
    /// The translations of a child are among those of the node.
    proof fn lemma_child_lists_of_node(&self, i: int, l: Seq<CommandView>)
        requires
            0 <= i < self.children@.len(),
            child_lists(self.children@[i].1).contains(l),
        ensures
            tree_lists(*self).contains(l),
    {
        lemma_child_lists_in(self.children@, i, l);
        let own = match self.leaf_data {
            Some(data) => seq![data@],
            None => Seq::empty(),
        };
        let k = choose|k: int| 0 <= k < children_lists(self.children@).len() && children_lists(self.children@)[k] == l;
        assert((own + children_lists(self.children@))[own.len() + k] == l);
    }

    proof fn lemma_not_serializable(&self, location: int, table: Seq<(Seq<CommandView>, usize)>, i: int)
        requires
            0 <= i < self.children@.len(),
            !child_serializable(
                self.children@[i].1,
                pointer_array_end(*self, location) + children_size(self.children@.take(i)),
                table,
            ),
        ensures
            !serializable(*self, location, table),
    {
        let base = pointer_array_end(*self, location);
        if serializable(*self, location, table) {
            lemma_children_serializable_prefix(self.children@, base, table, i + 1);
            assert(self.children@.take(i + 1).drop_last() =~= self.children@.take(i));
            assert(self.children@.take(i + 1)[i] == self.children@[i]);
        }
    }
}

/// A sequence is the concatenation of its three parts.
proof fn lemma_assemble(buffer: Seq<u8>, head: Seq<u8>, base: int, middle: Seq<u8>, tail: Seq<u8>)
    requires
        head.len() <= base <= buffer.len(),
        buffer.subrange(0, head.len() as int) == head,
        buffer.subrange(head.len() as int, base) == middle + Seq::<u8>::empty(),
        buffer.subrange(base, buffer.len() as int) == tail,
    ensures
        buffer == head + middle + tail,
{
    assert(buffer =~= head + middle + tail) by {
        assert(middle + Seq::<u8>::empty() =~= middle);
        assert forall|j: int| 0 <= j < buffer.len() implies buffer[j] == (head + middle + tail)[j] by {
            if j < head.len() {
                assert(buffer.subrange(0, head.len() as int)[j] == buffer[j]);
            } else if j < base {
                assert(buffer.subrange(head.len() as int, base)[j - head.len()] == buffer[j]);
            } else {
                assert(buffer.subrange(base, buffer.len() as int)[j - base] == buffer[j]);
            }
        }
    }
}

/// Writing three bytes into a run of zeros that follows `written`.
proof fn lemma_write_slot(before: Seq<u8>, after: Seq<u8>, from: int, to: int, slot: int, written: Seq<u8>, bytes: Seq<u8>)
    requires
        0 <= from <= slot,
        slot + 3 <= to <= before.len(),
        bytes.len() == 3,
        written.len() == slot - from,
        after.len() == before.len(),
        forall|j: int| 0 <= j < before.len() && (j < slot || j >= slot + 3) ==> after[j] == before[j],
        after[slot] == bytes[0],
        after[slot + 1] == bytes[1],
        after[slot + 2] == bytes[2],
        before.subrange(from, to) == written + Seq::new((to - slot) as nat, |j: int| 0u8),
    ensures
        after.subrange(0, from) == before.subrange(0, from),
        after.subrange(from, to) == (written + bytes) + Seq::new((to - slot - 3) as nat, |j: int| 0u8),
        after.subrange(to, after.len() as int) == before.subrange(to, before.len() as int),
{
    let expected = (written + bytes) + Seq::new((to - slot - 3) as nat, |j: int| 0u8);
    assert forall|j: int| 0 <= j < to - from implies after.subrange(from, to)[j] == expected[j] by {
        if j < slot - from {
            assert(before.subrange(from, to)[j] == written[j]);
        } else if j >= slot - from + 3 {
            assert(before.subrange(from, to)[j] == 0u8);
        }
    }
    assert(after.subrange(from, to) =~= expected);
    assert(after.subrange(0, from) =~= before.subrange(0, from));
    assert(after.subrange(to, after.len() as int) =~= before.subrange(to, before.len() as int));
}

pub(crate) proof fn lemma_prefix_bytes_len(children: Seq<(Vec<u8>, Child)>, length: int)
    requires
        forall|k: int| 0 <= k < children.len() ==> (#[trigger] children[k]).0@.len() == length,
        length >= 0,
    ensures
        prefix_bytes(children).len() == length * children.len(),
    decreases children.len(),
{
    if children.len() > 0 {
        let init = children.drop_last();
        assert forall|k: int| 0 <= k < init.len() implies (#[trigger] init[k]).0@.len() == length by {
            assert(init[k] == children[k]);
        }
        lemma_prefix_bytes_len(init, length);
        assert(length * children.len() == length * init.len() + length) by (nonlinear_arith)
            requires
                children.len() == init.len() + 1,
        ;
    }
}

pub(crate) proof fn lemma_pointer_bytes_len(children: Seq<(Vec<u8>, Child)>, base: int, table: Seq<(Seq<CommandView>, usize)>)
    ensures
        pointer_bytes(children, base, table).len() == 3 * children.len(),
    decreases children.len(),
{
    if children.len() > 0 {
        lemma_pointer_bytes_len(children.drop_last(), base, table);
    }
}

} // verus!
