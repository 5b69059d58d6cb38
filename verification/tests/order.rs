use robo_croissant::order::{sort_by_key, sort_unique};

fn strings(list: &[&str]) -> Vec<String> {
    list.iter().map(|s| s.to_string()).collect()
}

#[test]
fn sorted_texts_come_once_each() {
    assert_eq!(sort_unique(&strings(&["b", "a", "b"])), strings(&["a", "b"]));
    assert_eq!(sort_unique(&strings(&[])), strings(&[]));
    assert_eq!(sort_unique(&strings(&["ab", "a", "", "Z"])), strings(&["", "Z", "a", "ab"]));
}

#[test]
fn equal_keys_keep_their_order() {
    assert_eq!(sort_by_key(&strings(&["b", "a", "b", "a"])), vec![1, 3, 0, 2]);
    assert_eq!(sort_by_key(&strings(&[])), Vec::<usize>::new());
    let many: Vec<String> = (0..100).map(|i| format!("{}", (i * 37) % 10)).collect();
    let mut expected: Vec<usize> = (0..100).collect();
    expected.sort_by_key(|i| many[*i].clone());
    assert_eq!(sort_by_key(&many), expected);
}

#[test]
fn texts_compare_by_characters() {
    let mut expected = strings(&["é", "z", "\u{1f600}", "\u{ffff}", "e"]);
    let sorted = sort_unique(&expected);
    expected.sort();
    assert_eq!(sorted, expected);
}
