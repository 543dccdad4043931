use xml::mapping::{grade_mapping, index_mapping};

#[test]
fn index_mapping_counts_spaces_and_skips_line_breaks() {
    let m = index_mapping("ab\n c\r\nd").unwrap();
    assert_eq!(m, vec![('a', 1), ('b', 2), ('c', 4), ('d', 5)]);
}

#[test]
fn index_mapping_reports_first_duplicate() {
    assert_eq!(index_mapping("abcb a"), Err('b'));
}

#[test]
fn index_mapping_keeps_lone_carriage_return() {
    assert_eq!(index_mapping("a\rb").unwrap(), vec![('a', 1), ('\r', 2), ('b', 3)]);
}

#[test]
fn index_mapping_of_empty_list() {
    assert_eq!(index_mapping("").unwrap(), vec![]);
}

#[test]
fn grade_mapping_numbers_lists() {
    let m = grade_mapping(&["ab", "c d\n", "\ne"]).unwrap();
    assert_eq!(m, vec![('a', 1), ('b', 1), ('c', 2), ('d', 2), ('e', 3)]);
}

#[test]
fn grade_mapping_reports_duplicate_across_lists() {
    assert_eq!(grade_mapping(&["ab", "cb", "a"]), Err('b'));
}
