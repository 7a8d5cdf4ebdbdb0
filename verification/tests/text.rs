use bunker::text::{
    append_chars, chars_of, contains_text, has_suffix, join_texts, sort_texts, split_text, text_le,
};

fn chars(s: &str) -> Vec<char> {
    s.chars().collect()
}

#[test]
fn split_gives_one_part_more_than_separators() {
    assert_eq!(split_text("a/b/c", '/'), vec!["a", "b", "c"]);
    assert_eq!(split_text("abc", '/'), vec!["abc"]);
    assert_eq!(split_text("", '/'), vec![""]);
    assert_eq!(split_text("/a//", '/'), vec!["", "a", "", ""]);
}

#[test]
fn join_puts_the_parts_together_again() {
    for text in ["a/b/c", "abc", "", "/a//", "é/ü"] {
        let joined: String = join_texts(&split_text(text, '/'), '/').into_iter().collect();
        assert_eq!(joined, text);
    }
    let none: Vec<String> = Vec::new();
    assert_eq!(join_texts(&none, '/'), Vec::<char>::new());
}

#[test]
fn chars_of_and_append() {
    assert_eq!(chars_of("aé"), vec!['a', 'é']);
    let mut v = vec!['x'];
    append_chars(&mut v, "yz");
    assert_eq!(v, vec!['x', 'y', 'z']);
}

#[test]
fn suffix_and_occurrence() {
    assert!(has_suffix(&chars("a.json"), &chars(".json")));
    assert!(has_suffix(&chars(".json"), &chars(".json")));
    assert!(!has_suffix(&chars("json"), &chars(".json")));
    assert!(!has_suffix(&chars("a.jsonx"), &chars(".json")));
    assert!(has_suffix(&chars("a"), &chars("")));
    assert!(contains_text(&chars("hello"), &chars("ell")));
    assert!(contains_text(&chars("hello"), &chars("")));
    assert!(contains_text(&chars("hello"), &chars("hello")));
    assert!(contains_text(&chars("hello"), &chars("o")));
    assert!(!contains_text(&chars("hello"), &chars("hellos")));
    assert!(!contains_text(&chars("hello"), &chars("lo ")));
    assert!(contains_text(&chars(""), &chars("")));
}

#[test]
fn the_order_of_the_dictionary() {
    assert!(text_le(&chars(""), &chars("a")));
    assert!(!text_le(&chars("a"), &chars("")));
    assert!(text_le(&chars("a"), &chars("a")));
    assert!(text_le(&chars("a"), &chars("ab")));
    assert!(text_le(&chars("Foo"), &chars("foo")));
    assert!(!text_le(&chars("foo"), &chars("Foo")));
    assert!(text_le(&chars("a-b"), &chars("a/b")));
    assert!(text_le(&chars("z"), &chars("é")));
}

#[test]
fn sort_keeps_each_text_as_often_as_it_was() {
    let list: Vec<Vec<char>> = ["b", "a/c", "a/b", "", "b", "A"].iter().map(|s| chars(s)).collect();
    let sorted: Vec<String> = sort_texts(list).into_iter().map(|r| r.into_iter().collect()).collect();
    assert_eq!(sorted, vec!["", "A", "a/b", "a/c", "b", "b"]);
    assert_eq!(sort_texts(Vec::new()), Vec::<Vec<char>>::new());
}
