use stembed::compile::info::TreeInfo;
use stembed::compile::json::dict::CommandList;
use stembed::compile::tree::{Child, TreeNode};
use stembed::compile::Compiler;
use stembed::formatter::GenericFormatterCommand;

fn write(text: &str) -> CommandList {
    CommandList(vec![GenericFormatterCommand::Write(String::from(text))])
}

fn sample_tree() -> TreeNode {
    TreeNode {
        children: vec![
            (vec![1, 2], Child::Leaf(write("hi"))),
            (
                vec![3, 4],
                Child::Tree(TreeNode {
                    children: vec![(vec![5], Child::Leaf(write("hi")))],
                    leaf_data: Some(CommandList(vec![GenericFormatterCommand::ResetFormatting])),
                    prefix_length: 1,
                }),
            ),
        ],
        leaf_data: None,
        prefix_length: 2,
    }
}

#[test]
fn statistics_per_layer() {
    let info = TreeInfo::new(&sample_tree());
    assert_eq!(info.depth(), 1);
    assert_eq!(info.node_count(), 2);
    assert_eq!(info.nodes(), &vec![1, 1]);
    assert_eq!(info.prefix_lengths(), &vec![vec![2], vec![1]]);
    assert_eq!(info.child_counts(), &vec![vec![2], vec![1]]);
    assert_eq!(info.leaf_child_counts(), &vec![vec![1], vec![1]]);
    assert_eq!(info.leaf_nodes(), &vec![0, 1]);
    assert_eq!(info.max_prefix_length(), vec![2, 1]);
    assert_eq!(info.max_child_counts(), vec![2, 1]);
    assert_eq!(info.max_leaf_child_counts(), vec![1, 1]);
}

#[test]
fn estimated_size_counts_each_translation_once() {
    let size = TreeInfo::new(&sample_tree()).estimated_size();
    assert_eq!(size.node_overhead, 10);
    assert_eq!(size.key_array, 2 * 2 + 1 * 1);
    assert_eq!(size.pointer_array, 3 * 3);
    // "hi" takes a length byte, two bytes and the terminator; the reset one byte and the
    // terminator. The second "hi" is not counted again.
    assert_eq!(size.leaf_data, 4 + 2);
}

#[test]
fn statistics_of_a_single_node() {
    let tree = TreeNode { children: vec![], leaf_data: None, prefix_length: 0 };
    let info = TreeInfo::new(&tree);
    assert_eq!(info.depth(), 0);
    assert_eq!(info.node_count(), 1);
    assert_eq!(info.prefix_lengths(), &vec![Vec::<usize>::new()]);
    assert_eq!(info.max_prefix_length(), vec![0]);
    assert_eq!(info.estimated_size().node_overhead, 5);
    assert_eq!(info.estimated_size().leaf_data, 0);
}

#[test]
fn statistics_of_a_compiled_dictionary() {
    let (tree, buffer) = Compiler::compile_from_json(r#"{"H-L": "hello", "WORLD": "world", "KAT/TKOG": "cat dog"}"#);
    let info = TreeInfo::new(&tree);
    let size = info.estimated_size();
    assert_eq!(info.node_count(), info.nodes().iter().sum::<usize>());
    assert!(size.node_overhead + size.key_array + size.pointer_array + size.leaf_data >= 5);
    assert!(buffer.len() > 0);
    // The headers, prefix arrays and pointer arrays are exactly the serialized tree.
    let root = u32::from_be_bytes([buffer[0], buffer[1], buffer[2], buffer[3]]) as usize;
    assert_eq!(size.node_overhead + size.key_array + size.pointer_array, buffer.len() - root);
}
