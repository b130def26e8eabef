use osm_road_graph::util::{contains_char, decimal, keep_characters, same_text, split_list};

#[test]
fn digit_test() {
    let s = "85abc22".to_string();
    let result = keep_characters(&s, "0123456789");
    println!("{}", result);
    assert!(result == "8522");
}

#[test]
fn char_test() {
    let s = "abcdef".to_string();
    let result = keep_characters(&s, "fbd");
    println!("{}", result);
    assert!(result == "bdf");
}

#[test]
fn keeping_nothing_or_from_nothing_gives_nothing() {
    assert_eq!(keep_characters("abc", ""), "");
    assert_eq!(keep_characters("", "abc"), "");
    assert_eq!(keep_characters("abc", "xyz"), "");
}

#[test]
fn kept_characters_may_repeat() {
    assert_eq!(keep_characters("banana", "an"), "anana");
    assert_eq!(keep_characters("größe", "öß"), "öß");
}

#[test]
fn characters_are_found_in_a_text() {
    assert!(contains_char("abc", 'b'));
    assert!(!contains_char("abc", 'd'));
    assert!(!contains_char("", 'a'));
    assert!(contains_char("naïve", 'ï'));
}

#[test]
fn texts_are_the_same_if_all_characters_are() {
    assert!(same_text("yes", "yes"));
    assert!(!same_text("yes", "yes "));
    assert!(!same_text("yes", "Yes"));
    assert!(same_text("", ""));
}

#[test]
fn numbers_are_written_in_decimal_digits() {
    assert_eq!(decimal(0), "0");
    assert_eq!(decimal(7), "7");
    assert_eq!(decimal(10), "10");
    assert_eq!(decimal(255), "255");
    assert_eq!(decimal(1000), "1000");
    assert_eq!(decimal(u32::MAX), "4294967295");
    for n in [9u32, 11, 99, 100, 101, 12345, 4_000_000_000] {
        assert_eq!(decimal(n), n.to_string());
    }
}

#[test]
fn lists_are_split_at_comma_and_blank() {
    assert_eq!(split_list("a, b, c"), vec!["a", "b", "c"]);
    assert_eq!(split_list("abc"), vec!["abc"]);
    assert_eq!(split_list(""), vec![""]);
    assert_eq!(split_list(", "), vec!["", ""]);
    assert_eq!(split_list("a,b ,c"), vec!["a,b ,c"]);
    assert_eq!(split_list("a,, b"), vec!["a,", "b"]);
    assert_eq!(split_list("a, , b,"), vec!["a", "", "b,"]);
    assert_eq!(split_list(" , "), vec![" ", ""]);
}

#[test]
fn lists_are_split_as_the_standard_library_splits_them() {
    for text in ["x, y", ",, ,", ", , , ", "a,  b", ",", " ", "footway, path,steps, , ,x", ",,, ,,"] {
        let expected: Vec<String> = text.split(", ").map(|piece| piece.to_string()).collect();
        assert_eq!(split_list(text), expected);
    }
}
