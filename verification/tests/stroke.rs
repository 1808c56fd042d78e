use stembed::Stroke as EnglishStroke;

#[test]
fn convert_from_u32_correctly() {
    //                 #STKPWHR AO*EU FRPBLGTSDZ
    let input: u32 = 0b10000010_10001_0010000001_0;
    let stroke = EnglishStroke::from(input);
    assert_eq!(stroke.to_string(), "#HAUPZ");
}

#[test]
fn output_correct_characters() {
    let stroke = EnglishStroke([u8::MAX, u8::MAX, 0b11111110]);
    assert_eq!(stroke.to_string(), "#STKPWHRAO*EUFRPBLGTSDZ");
}

#[test]
fn output_vowels_without_dash() {
    //                   #STKPWHR AO*EU FRPBLGTSDZ
    let input_a: u32 = 0b00000000_10000_0000000000_0;
    let input_o: u32 = 0b00000000_01000_0000000000_0;
    let input_e: u32 = 0b00000000_00010_0000000000_0;
    let input_u: u32 = 0b00000000_00001_0000000000_0;
    let data = [(input_a, "A"), (input_o, "O"), (input_e, "E"), (input_u, "U")];

    for (input, output) in data {
        let stroke = EnglishStroke::from(input);
        assert_eq!(stroke.to_string(), output);
    }
}

#[test]
fn use_hyphen() {
    let stroke = EnglishStroke([0b00000010, 0b00000_001, 0b0000000_0]);
    assert_eq!(stroke.to_string(), "H-P");
}

#[test]
fn omit_hyphen() {
    let stroke = EnglishStroke([0b01100000, 0b01000_001, 0b0000000_0]);
    assert_eq!(stroke.to_string(), "STOP");
}

#[test]
fn count_and_combine_keys() {
    let h = EnglishStroke::from(0b00000010_00000_0000000000_0);
    let p = EnglishStroke::from(0b00000000_00000_0010000000_0);
    let hp = h.add(p);
    assert_eq!(hp.to_string(), "H-P");
    assert_eq!(hp.pressed_key_count(), 2);
    assert!(!hp.is_empty());
    assert!(EnglishStroke::from(0).is_empty());
    assert_eq!(hp.into_bytes(), [0b00000010, 0b00000001, 0]);
    assert_eq!(EnglishStroke::from_right_aligned(1).into_bytes(), [0, 0, 0b10]);
    let mut acc = h;
    acc.add_assign(p);
    assert_eq!(acc, hp);
}
