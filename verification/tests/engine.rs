use logtypes::table::TypeTable;

fn lines_of(strs: &[&str]) -> Vec<Vec<u8>> {
    strs.iter().map(|s| s.as_bytes().to_vec()).collect()
}

#[test]
fn empty_input() {
    let input: Vec<Vec<u8>> = Vec::new();
    let t = TypeTable::from_lines(&input);
    assert!(t.types.is_empty());
    assert!(t.lines_excluded.is_empty());
}

#[test]
fn mixed_lines_scenario() {
    let input = lines_of(&[
        "{\"type\":\"A\"}",
        "{\"type\":\"B\"}",
        "{\"type\":\"A\"}",
        "not json",
        "{\"type\":\"A\"}",
    ]);
    let t = TypeTable::from_lines(&input);
    assert_eq!(t.types.len(), 2);
    assert_eq!(t.types[0].key, b"A".to_vec());
    assert_eq!(t.types[0].data.num_instances, 3);
    assert_eq!(t.types[0].data.total_byte_size, 36);
    assert_eq!(t.types[1].key, b"B".to_vec());
    assert_eq!(t.types[1].data.num_instances, 1);
    assert_eq!(t.types[1].data.total_byte_size, 12);
    assert_eq!(t.lines_excluded.len(), 1);
    assert_eq!(t.lines_excluded[0].index, 3);
    assert!(!t.lines_excluded[0].error.is_empty());
}

#[test]
fn missing_type_field_is_excluded() {
    let input = lines_of(&["{\"notype\":1}"]);
    let t = TypeTable::from_lines(&input);
    assert!(t.types.is_empty());
    assert_eq!(t.lines_excluded.len(), 1);
    assert_eq!(t.lines_excluded[0].index, 0);
    assert!(t.lines_excluded[0].error.contains("type"));
}

#[test]
fn non_string_type_field_is_excluded() {
    let input = lines_of(&["{\"type\":7}"]);
    let t = TypeTable::from_lines(&input);
    assert!(t.types.is_empty());
    assert_eq!(t.lines_excluded.len(), 1);
    assert_eq!(t.lines_excluded[0].index, 0);
    assert!(t.lines_excluded[0].error.contains("type"));
}

#[test]
fn failure_causes_are_distinguishable() {
    let input = lines_of(&["not json", "{\"notype\":1}"]);
    let t = TypeTable::from_lines(&input);
    assert_eq!(t.lines_excluded.len(), 2);
    assert_ne!(t.lines_excluded[0].error, t.lines_excluded[1].error);
}

#[test]
fn empty_string_is_a_distinct_type_key() {
    let input = lines_of(&["{\"type\":\"\"}", "{\"type\":\"A\"}", "{\"type\":\"\"}"]);
    let t = TypeTable::from_lines(&input);
    assert_eq!(t.types.len(), 2);
    assert_eq!(t.types[0].key, Vec::<u8>::new());
    assert_eq!(t.types[0].data.num_instances, 2);
    assert_eq!(t.types[1].key, b"A".to_vec());
    assert_eq!(t.types[1].data.num_instances, 1);
}

#[test]
fn exclusions_keep_input_order() {
    let input = lines_of(&[
        "{\"type\":\"A\"}",
        "oops",
        "{\"type\":\"A\"}",
        "{\"bad\":true}",
        "also bad",
    ]);
    let t = TypeTable::from_lines(&input);
    let indices: Vec<usize> = t.lines_excluded.iter().map(|e| e.index).collect();
    assert_eq!(indices, vec![1, 3, 4]);
}

#[test]
fn rerun_reproduces_the_result_exactly() {
    let input = lines_of(&[
        "{\"type\":\"x\"}",
        "{\"type\":\"y\",\"n\":3}",
        "broken",
        "{\"type\":\"x\"}",
    ]);
    let first = TypeTable::from_lines(&input);
    let second = TypeTable::from_lines(&input);
    assert_eq!(first, second);
}

#[test]
fn byte_size_counts_the_whole_raw_line() {
    let input = lines_of(&["{\"type\":\"A\",\"x\":1}"]);
    let t = TypeTable::from_lines(&input);
    assert_eq!(t.types.len(), 1);
    assert_eq!(t.types[0].data.total_byte_size, 18);
}

#[test]
fn byte_size_counts_utf8_bytes() {
    let line = "{\"type\":\"αβ\"}";
    assert_eq!(line.len(), 15);
    let input = lines_of(&[line]);
    let t = TypeTable::from_lines(&input);
    assert_eq!(t.types.len(), 1);
    assert_eq!(t.types[0].key, "αβ".as_bytes().to_vec());
    assert_eq!(t.types[0].data.total_byte_size, 15);
}

#[test]
fn rows_come_in_first_occurrence_order() {
    let input = lines_of(&["{\"type\":\"B\"}", "{\"type\":\"A\"}", "{\"type\":\"B\"}"]);
    let t = TypeTable::from_lines(&input);
    assert_eq!(t.types.len(), 2);
    assert_eq!(t.types[0].key, b"B".to_vec());
    assert_eq!(t.types[1].key, b"A".to_vec());
}

#[test]
fn nested_type_field_does_not_count() {
    let input = lines_of(&["{\"a\":{\"type\":\"X\"}}"]);
    let t = TypeTable::from_lines(&input);
    assert!(t.types.is_empty());
    assert_eq!(t.lines_excluded.len(), 1);
}

#[test]
fn non_object_line_is_excluded() {
    let input = lines_of(&["42", "[1,2]", "\"A\""]);
    let t = TypeTable::from_lines(&input);
    assert!(t.types.is_empty());
    assert_eq!(t.lines_excluded.len(), 3);
}

#[test]
fn every_line_lands_in_exactly_one_place() {
    let input = lines_of(&[
        "{\"type\":\"A\"}",
        "bad",
        "{\"type\":\"B\"}",
        "{\"other\":0}",
        "{\"type\":\"A\"}",
        "{\"type\":9}",
    ]);
    let t = TypeTable::from_lines(&input);
    let counted: usize = t.types.iter().map(|e| e.data.num_instances).sum();
    assert_eq!(counted + t.lines_excluded.len(), input.len());
    for pair in t.lines_excluded.windows(2) {
        assert!(pair[0].index < pair[1].index);
    }
    for excluded in &t.lines_excluded {
        assert!(excluded.index < input.len());
    }
}

#[test]
fn lookup_by_key() {
    let input = lines_of(&["{\"type\":\"A\"}", "{\"type\":\"B\"}", "{\"type\":\"A\"}"]);
    let t = TypeTable::from_lines(&input);
    let a = t.get(b"A").expect("key A has a row");
    assert_eq!(a.num_instances, 2);
    assert_eq!(a.total_byte_size, 24);
    let b = t.get(b"B").expect("key B has a row");
    assert_eq!(b.num_instances, 1);
    assert!(t.get(b"C").is_none());
}

#[test]
fn checked_entry_matches_plain_entry() {
    let input = lines_of(&["{\"type\":\"A\"}", "nope"]);
    let checked = TypeTable::try_from_lines(&input).expect("total fits");
    let plain = TypeTable::from_lines(&input);
    assert_eq!(checked, plain);
}
