use fadupes::order::{same_texts, sorted_texts, text_at_most};

fn texts(items: &[&str]) -> Vec<String> {
    items.iter().map(|s| s.to_string()).collect()
}

#[test]
fn texts_are_ordered_as_strings_are() {
    let samples = ["", "a", "A", "ab", "abc", "b", "ba", "\u{e9}", "z", "\u{1F600}", "a\u{e9}", "~"];
    for x in samples {
        for y in samples {
            assert_eq!(text_at_most(&x.to_string(), &y.to_string()), x <= y, "{x:?} {y:?}");
        }
    }
}

#[test]
fn a_prefix_comes_first() {
    assert!(text_at_most(&"".to_string(), &"".to_string()));
    assert!(text_at_most(&"".to_string(), &"a".to_string()));
    assert!(!text_at_most(&"a".to_string(), &"".to_string()));
    assert!(text_at_most(&"dir/a".to_string(), &"dir/a.wav".to_string()));
    assert!(!text_at_most(&"dir/b".to_string(), &"dir/a.wav".to_string()));
}

#[test]
fn sorting_keeps_every_text_as_often_as_given() {
    let given = texts(&["b", "a", "c", "a", "", "ab", "b"]);
    assert_eq!(sorted_texts(&given), texts(&["", "a", "a", "ab", "b", "b", "c"]));
    assert_eq!(sorted_texts(&Vec::new()), Vec::<String>::new());
    assert_eq!(sorted_texts(&texts(&["x"])), texts(&["x"]));
    let mut expected = given.clone();
    expected.sort();
    assert_eq!(sorted_texts(&given), expected);
}

#[test]
fn lists_are_the_same_only_text_by_text() {
    assert!(same_texts(&texts(&["a", "b"]), &texts(&["a", "b"])));
    assert!(!same_texts(&texts(&["a", "b"]), &texts(&["b", "a"])));
    assert!(!same_texts(&texts(&["a", "b"]), &texts(&["a"])));
    assert!(!same_texts(&texts(&["a"]), &texts(&["a", "b"])));
    assert!(same_texts(&Vec::new(), &Vec::new()));
}
