use smokey::settings::{
    create_frequency_list, decode_test_mod_bitflags, is_script, StatefulList, TestMod,
};

#[test]
fn test_create_frequency_list() {
    let large = create_frequency_list(69000);
    let medium = create_frequency_list(15889);
    let small = create_frequency_list(1000);
    let tiny = create_frequency_list(20);

    assert_eq!(
        large.items,
        vec!["100", "1000", "5000", "10000", "20000", "50000", "69000"]
    );
    assert_eq!(medium.items, vec!["100", "1000", "5000", "10000", "15889"]);
    assert_eq!(small.items, vec!["100", "1000"]);
    assert_eq!(tiny.items, vec!["20"]);
}

#[test]
fn test_decode_bitflags() {
    let ans = decode_test_mod_bitflags(0b00000101);
    assert_eq!(ans.len(), 2);
    assert!(ans.contains(&TestMod::Punctuation));
    assert!(ans.contains(&TestMod::Symbols));

    let zero_ans = decode_test_mod_bitflags(0);
    assert!(zero_ans.is_empty());
}

#[test]
fn decode_bitflags_order_and_contents() {
    assert_eq!(decode_test_mod_bitflags(0b111), vec![
        TestMod::Punctuation,
        TestMod::Numbers,
        TestMod::Symbols
    ]);
    assert_eq!(decode_test_mod_bitflags(0b010), vec![TestMod::Numbers]);
    assert_eq!(decode_test_mod_bitflags(0b110), vec![TestMod::Numbers, TestMod::Symbols]);
}

#[test]
fn from_bitflag_maps_each_bit() {
    assert_eq!(TestMod::from_bitflag(1), TestMod::Punctuation);
    assert_eq!(TestMod::from_bitflag(2), TestMod::Numbers);
    assert_eq!(TestMod::from_bitflag(4), TestMod::Symbols);
}

#[test]
fn test_mod_labels() {
    assert_eq!(TestMod::Punctuation.label(), "!?");
    assert_eq!(TestMod::Numbers.label(), "17");
    assert_eq!(TestMod::Symbols.label(), "#$");
}

#[test]
fn is_script_checks_prefix() {
    assert!(is_script("#!python"));
    assert!(is_script("#!"));
    assert!(!is_script("#"));
    assert!(!is_script(""));
    assert!(!is_script("english"));
    assert!(!is_script("!#backwards"));
}

#[test]
fn stateful_list_starts_unselected() {
    let l = StatefulList::with_items(vec!["a".to_string(), "b".to_string()]);
    assert_eq!(l.items, vec!["a", "b"]);
    assert!(l.selected.is_none());
}

#[test]
fn usize_to_string_renders_decimal() {
    assert_eq!(smokey::numfmt::usize_to_string(0), "0");
    assert_eq!(smokey::numfmt::usize_to_string(7), "7");
    assert_eq!(smokey::numfmt::usize_to_string(10), "10");
    assert_eq!(smokey::numfmt::usize_to_string(69000), "69000");
    assert_eq!(smokey::numfmt::usize_to_string(100000000), "100000000");
}

#[test]
fn mod_names_round_trip() {
    for m in [TestMod::Punctuation, TestMod::Numbers, TestMod::Symbols] {
        assert_eq!(TestMod::from_name(m.name()), Some(m));
    }
    assert_eq!(TestMod::from_name("punctuation"), Some(TestMod::Punctuation));
    assert_eq!(TestMod::from_name("serifs"), None);
    assert_eq!(TestMod::from_name(""), None);
}
