use daw::chat_log::{chat_lines, latest_by_id};

fn ids(v: &[&str]) -> Vec<String> {
    v.iter().map(|s| s.to_string()).collect()
}

#[test]
fn blank_lines_are_skipped() {
    let content = "{\"id\":\"a\"}\n\n   \n{\"id\":\"b\"}\r\n";
    assert_eq!(chat_lines(content), vec!["{\"id\":\"a\"}".to_string(), "{\"id\":\"b\"}".to_string()]);
    assert!(chat_lines("").is_empty());
    assert!(chat_lines("\n \t\n").is_empty());
}

#[test]
fn last_line_of_each_id_wins_in_first_order() {
    // a, b, a(updated), c, b(updated)
    let r = latest_by_id(&ids(&["a", "b", "a", "c", "b"]));
    assert_eq!(r, vec![2, 4, 3]);
}

#[test]
fn distinct_ids_are_all_kept_in_order() {
    assert_eq!(latest_by_id(&ids(&["x", "y", "z"])), vec![0, 1, 2]);
    assert_eq!(latest_by_id(&ids(&[])), Vec::<usize>::new());
}

#[test]
fn appended_line_replaces_earlier_one() {
    let mut log = ids(&["m1", "m2"]);
    log.push("m1".to_string());
    let r = latest_by_id(&log);
    assert!(r.contains(&2));
    assert_eq!(r, vec![2, 1]);
}
