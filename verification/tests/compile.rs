use stembed::compile::json::dict::{dict, CommandList, Outline};
use stembed::compile::json::stroke::raw_stroke;
use stembed::compile::translations::TranslationPointers;
use stembed::compile::tree::{Child, TreeNode};
use stembed::compile::{BufferedSource, CompileError, Compiler};
use stembed::dict::tree::{DataSource, RadixTreeDictionary};
use stembed::formatter::{AttachmentMode, CapitalizationMode, GenericFormatterCommand, OwnedFormatterCommand};
use stembed::Stroke;

fn parse(input: &str) -> (u32, usize) {
    let chars: Vec<char> = input.chars().collect();
    raw_stroke(&chars, 0)
}

#[test]
fn parse_full_stroke() {
    //                                   #STKPWHR AO*EU FRPBLGTSDZ
    assert_eq!(parse("#STKPWHRAO*EUFRPBLGTSDZ"), (0b11111111_11111_1111111111_0, 23));
}

#[test]
fn parse_left_only() {
    assert_eq!(parse("#STKPWHR"), (0b11111111_00000_0000000000_0, 8));
}

#[test]
fn parse_right_only() {
    assert_eq!(parse("-FRPBLGTSDZ"), (0b00000000_00000_1111111111_0, 11));
}

#[test]
fn parse_hyphenated() {
    assert_eq!(parse("H-P"), (0b00000010_00000_0010000000_0, 3));
}

#[test]
fn parse_asterisk() {
    assert_eq!(parse("H*P"), (0b00000010_00100_0010000000_0, 3));
}

#[test]
fn parse_numbers() {
    assert_eq!(parse("1234506789"), (0b11101010_11000_1010101000_0, 10));
    assert_eq!(parse("4-P"), (0b10000010_00000_0010000000_0, 3));
}

#[test]
fn parse_stops_at_unknown_character() {
    assert_eq!(parse("SX"), (0b01000000_00000_0000000000_0, 1));
    assert_eq!(parse(""), (0, 0));
}

fn write(text: &str) -> OwnedFormatterCommand {
    GenericFormatterCommand::Write(text.to_string())
}

fn stroke(value: u32) -> Stroke {
    Stroke::from(value)
}

#[test]
fn parse_dictionary_entries() {
    let json = "{\n\"S\": \"is\",\n\"T/-P\": \"{^}top{.}\",\n\"H\": \"{&a}\",\n\"K\": \"{}\",\n\"W\": \"{>}{<}{-|}{,}\"\n}\n";
    let entries = dict(json).expect("dictionary parses");
    assert_eq!(entries.len(), 5);
    assert_eq!(entries[0].0 .0, vec![stroke(0b01000000_00000_0000000000_0)]);
    assert_eq!(entries[0].1, CommandList(vec![write("is")]));
    assert_eq!(
        entries[1].0 .0,
        vec![stroke(0b00100000_00000_0000000000_0), stroke(0b00000000_00000_0010000000_0)]
    );
    assert_eq!(
        entries[1].1,
        CommandList(vec![
            GenericFormatterCommand::ChangeAttachment(AttachmentMode::Next),
            write("top"),
            GenericFormatterCommand::ChangeAttachment(AttachmentMode::Next),
            write("."),
            GenericFormatterCommand::ChangeCapitalization(CapitalizationMode::CapitalizeNext),
        ])
    );
    assert_eq!(
        entries[2].1,
        CommandList(vec![
            GenericFormatterCommand::ChangeAttachment(AttachmentMode::Glue),
            write("a"),
            GenericFormatterCommand::ChangeAttachment(AttachmentMode::Glue),
        ])
    );
    assert_eq!(entries[3].1, CommandList(vec![GenericFormatterCommand::ResetFormatting]));
    assert_eq!(
        entries[4].1,
        CommandList(vec![
            GenericFormatterCommand::ChangeCapitalization(CapitalizationMode::LowercaseNext),
            GenericFormatterCommand::ChangeCapitalization(CapitalizationMode::UppercaseNext),
            GenericFormatterCommand::ChangeCapitalization(CapitalizationMode::CapitalizeNext),
            GenericFormatterCommand::ChangeAttachment(AttachmentMode::Next),
            write(","),
        ])
    );
}

#[test]
fn parse_escapes_in_translations() {
    let entries = dict("{\"S\": \"a\\\\{b\\\"c\\n\"}").expect("dictionary parses");
    assert_eq!(entries[0].1, CommandList(vec![write("a{b\"c\n")]));
}

#[test]
fn reject_malformed_dictionaries() {
    assert!(dict("").is_none());
    assert!(dict(" {}").is_none());
    assert!(dict("{\"S\": \"is\",}").is_none());
    assert!(dict("{\"S\" \"is\"}").is_none());
    assert!(dict("{\"S\": \"{^\"}").is_none());
    assert!(dict("{\"S\": \"{&}\"}").is_none());
    assert!(dict("{\"SX\": \"is\"}").is_none());
    assert!(dict("{}").unwrap().is_empty());
    assert_eq!(dict("{ \"S\": \"a\" \"T\": \"b\" } ").unwrap().len(), 2);
}

#[test]
fn serialize_translations() {
    let list = CommandList(vec![
        write("ab"),
        GenericFormatterCommand::ChangeCapitalization(CapitalizationMode::Capitalize),
        GenericFormatterCommand::ChangeAttachment(AttachmentMode::Glue),
        GenericFormatterCommand::ResetFormatting,
    ]);
    assert!(list.is_storable());
    assert_eq!(list.to_bytes(), vec![2, b'a', b'b', 0b01_010_000, 0b10_01_0000, 0b110_00000, 0xFF]);
    assert!(!CommandList(vec![write(&"x".repeat(64))]).is_storable());
}

#[test]
fn store_each_translation_once() {
    let a = CommandList(vec![write("a")]);
    let b = CommandList(vec![write("bb")]);
    let a_again = CommandList(vec![write("a")]);
    let mut buffer = vec![9, 9];
    let pointers = TranslationPointers::new_by_serializing_into(&mut buffer, vec![&a, &b, &a_again]);
    assert_eq!(buffer, vec![9, 9, 1, b'a', 0xFF, 2, b'b', b'b', 0xFF]);
    assert_eq!(pointers.offset_for(&a_again), Some(2));
    assert_eq!(pointers.offset_for(&b), Some(5));
    assert_eq!(pointers.offset_for(&CommandList(vec![])), None);
}

#[test]
fn build_tree_from_entries() {
    let s = stroke(0b01000000_00000_0000000000_0);
    let t = stroke(0b00100000_00000_0000000000_0);
    let entries = vec![
        (stembed::compile::json::dict::Outline(vec![t]), CommandList(vec![write("it")])),
        (stembed::compile::json::dict::Outline(vec![s]), CommandList(vec![write("is")])),
    ];
    let tree = TreeNode::new(entries);
    assert!(tree.leaf_data.is_none());
    assert_eq!(tree.prefix_length, 2);
    assert_eq!(tree.children.len(), 2);
    // Children are ordered by prefix: T comes before S.
    assert_eq!(tree.children[0].0, vec![0b00100000, 0]);
    assert_eq!(tree.children[1].0, vec![0b01000000, 0]);
    assert!(matches!(tree.children[0].1, Child::Tree(_)));
    assert_eq!(tree.command_lists().len(), 2);
}

#[test]
fn reject_duplicate_outlines() {
    let s = stroke(0b01000000_00000_0000000000_0);
    let entries = vec![
        (stembed::compile::json::dict::Outline(vec![s]), CommandList(vec![write("is")])),
        (stembed::compile::json::dict::Outline(vec![s]), CommandList(vec![write("as")])),
    ];
    assert!(matches!(TreeNode::try_new(entries), Err(CompileError::DuplicateOutline)));
    assert_eq!(
        Compiler::try_compile_from_json("{\"S\": \"is\", \"S\": \"as\"}").err(),
        Some(CompileError::DuplicateOutline)
    );
}

#[test]
fn compile_and_read_back() {
    let json = "{\"S\": \"is\", \"T\": \"it\", \"KAT\": \"cat\", \"-P\": \"{,}\"}";
    let (tree, buffer) = Compiler::compile_from_json(json);
    assert!(!tree.children.is_empty());
    // The root location follows the four location bytes and the translations.
    let root = u32::from_be_bytes([buffer[0], buffer[1], buffer[2], buffer[3]]) as usize;
    assert!(root > 4 && root < buffer.len());

    let mut dictionary = RadixTreeDictionary::new(BufferedSource::new(&buffer)).ok().unwrap();
    let cat = Stroke::from(0b00010000_10000_0000001000_0);
    let (count, translation) = dictionary.match_prefix(&vec![cat]).ok().unwrap().unwrap();
    assert_eq!(count, 1);
    let commands = translation.commands().unwrap();
    assert_eq!(commands, vec![GenericFormatterCommand::Write("cat")]);

    let unknown = Stroke::from(0b00000000_00000_0000000001_0);
    assert!(dictionary.match_prefix(&vec![unknown]).ok().unwrap().is_none());
}

#[test]
fn reject_invalid_json() {
    assert_eq!(Compiler::try_compile_from_json("not json").err(), Some(CompileError::InvalidDictionary));
    assert_eq!(Compiler::try_compile_from_json("{}").err(), Some(CompileError::EmptyDictionary));
}

#[test]
fn buffered_source_copies_available_bytes() {
    let data = vec![1, 2, 3];
    let mut source = BufferedSource::new(&data);
    let mut buffer = [9u8; 4];
    assert!(source.read_exact(1, &mut buffer).is_ok());
    assert_eq!(buffer, [2, 3, 9, 9]);
}

#[test]
fn outline_human_readable_form() {
    let hl = Stroke::from(0x02_00_40);
    let p = Stroke::from(0x00_01_00);
    assert_eq!(hl.to_string(), "H-L");
    assert_eq!(Outline(vec![hl, p]).to_string(), "H-L/-P");
    assert_eq!(Outline(vec![p]).to_string(), "-P");
    assert_eq!(Outline(vec![]).to_string(), "");
}

#[test]
fn reject_translation_too_long_to_store() {
    let long = "a".repeat(70);
    let json = format!("{{\"S\": \"{long}\", \"T\": \"it\"}}");
    assert_eq!(Compiler::try_compile_from_json(&json).err(), Some(CompileError::UnstorableTranslation));
    let short = "a".repeat(60);
    let json = format!("{{\"S\": \"{short}\", \"T\": \"it\"}}");
    assert!(Compiler::try_compile_from_json(&json).is_ok());
}

fn leaf(text: &str) -> Child {
    Child::Leaf(CommandList(vec![GenericFormatterCommand::Write(String::from(text))]))
}

#[test]
fn serialization_rejects_malformed_trees() {
    let stored = CommandList(vec![GenericFormatterCommand::Write(String::from("a"))]);
    let mut buffer = vec![0u8, 0, 0, 0];
    let pointers = TranslationPointers::new_by_serializing_into(&mut buffer, vec![&stored]);

    let empty = TreeNode { children: vec![], leaf_data: None, prefix_length: 1 };
    assert_eq!(empty.try_serialize_into_buffer(&mut buffer.clone(), &pointers).err(), Some(CompileError::EmptyDictionary));

    let wide = TreeNode { children: (0..255).map(|i| (vec![i as u8], leaf("a"))).collect(), leaf_data: None, prefix_length: 1 };
    assert_eq!(wide.try_serialize_into_buffer(&mut buffer.clone(), &pointers).err(), Some(CompileError::TooManyChildren));

    let long_prefix = TreeNode { children: vec![(vec![0; 255], leaf("a"))], leaf_data: None, prefix_length: 255 };
    assert_eq!(long_prefix.try_serialize_into_buffer(&mut buffer.clone(), &pointers).err(), Some(CompileError::PrefixTooLong));

    let mismatching = TreeNode { children: vec![(vec![1, 2], leaf("a"))], leaf_data: None, prefix_length: 1 };
    assert_eq!(mismatching.try_serialize_into_buffer(&mut buffer.clone(), &pointers).err(), Some(CompileError::MismatchingPrefix));

    let unknown = TreeNode { children: vec![(vec![1], leaf("b"))], leaf_data: None, prefix_length: 1 };
    assert_eq!(unknown.try_serialize_into_buffer(&mut buffer.clone(), &pointers).err(), Some(CompileError::MissingTranslation));

    let fine = TreeNode { children: vec![(vec![1], leaf("a"))], leaf_data: None, prefix_length: 1 };
    let mut out = buffer.clone();
    assert!(fine.try_serialize_into_buffer(&mut out, &pointers).is_ok());
    // Header, prefix array and pointer to the translation stored after the root location.
    assert_eq!(out[buffer.len()..].to_vec(), vec![0, 1, 0, 0, 0, 1, 0, 0, 4]);
}

#[test]
fn serialization_rejects_far_locations() {
    let stored = CommandList(vec![GenericFormatterCommand::Write(String::from("a"))]);
    let mut buffer = vec![0u8; 0x100_0000];
    let pointers = TranslationPointers::new_by_serializing_into(&mut buffer, vec![&stored]);
    let node = TreeNode { children: vec![(vec![1], leaf("a"))], leaf_data: None, prefix_length: 1 };
    assert_eq!(node.try_serialize_into_buffer(&mut buffer, &pointers).err(), Some(CompileError::LocationOutOfRange));
}

#[test]
fn outline_beginning_another_outline_reads_back() {
    let json = r#"{"KAT": "cat", "KAT/-S": "cats"}"#;
    let (_, buffer) = Compiler::compile_from_json(json);
    let mut dictionary = RadixTreeDictionary::new(BufferedSource::new(&buffer)).ok().unwrap();
    let cat = Stroke::from(0b00010000_10000_0000001000_0);
    let s = Stroke::from(0b00000000_00000_0000000100_0);

    let (count, translation) = dictionary.match_prefix(&vec![cat]).ok().unwrap().unwrap();
    assert_eq!(count, 1);
    assert_eq!(translation.commands().unwrap(), vec![GenericFormatterCommand::Write("cat")]);

    let (count, translation) = dictionary.match_prefix(&vec![cat, s]).ok().unwrap().unwrap();
    assert_eq!(count, 2);
    assert_eq!(translation.commands().unwrap(), vec![GenericFormatterCommand::Write("cats")]);

    // Strokes continuing past the longer outline find it as their longest prefix.
    let (count, _) = dictionary.match_prefix(&vec![cat, s, cat]).ok().unwrap().unwrap();
    assert_eq!(count, 2);
}

#[test]
fn lists_not_stored_have_no_offset() {
    let reset = CommandList(vec![GenericFormatterCommand::ResetFormatting]);
    let hi = CommandList(vec![write("hi")]);
    let mut buffer = vec![0, 0, 0, 0];
    let pointers = TranslationPointers::new_by_serializing_into(&mut buffer, vec![&reset, &hi, &reset]);
    assert_eq!(pointers.offset_for(&reset), Some(4));
    assert_eq!(pointers.offset_for(&hi), Some(6));
    assert_eq!(pointers.offset_for(&CommandList(vec![])), None);
    assert_eq!(buffer, vec![0, 0, 0, 0, 0xC0, 0xFF, 2, b'h', b'i', 0xFF]);
}
