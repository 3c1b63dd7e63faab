use coursework::comm::common_lines;

fn lines(v: &[&str]) -> Vec<String> {
    v.iter().map(|s| s.to_string()).collect()
}

#[test]
fn common_lines_in_order_of_second_text() {
    let first = lines(&["apple", "pear", "plum"]);
    let second = lines(&["plum", "kiwi", "apple", "plum", "apple"]);
    assert_eq!(common_lines(&first, &second), lines(&["plum", "apple"]));
}

#[test]
fn no_common_lines() {
    assert!(common_lines(&lines(&["a"]), &lines(&["b", "c"])).is_empty());
    assert!(common_lines(&lines(&[]), &lines(&["b"])).is_empty());
    assert!(common_lines(&lines(&["a"]), &lines(&[])).is_empty());
}

#[test]
fn empty_lines_count_as_lines() {
    assert_eq!(common_lines(&lines(&["", "x"]), &lines(&["", "", "x"])), lines(&["", "x"]));
}

#[test]
fn lines_compare_exactly() {
    assert!(common_lines(&lines(&["a "]), &lines(&["a"])).is_empty());
}
