use bbcode::compat::xf::message::history_oldest_first;

#[test]
fn history_is_put_oldest_first() {
    let rows: Result<Vec<u32>, String> = Ok(vec![30, 20, 10]);
    assert_eq!(history_oldest_first(rows), vec![10, 20, 30]);
}

#[test]
fn failed_history_query_is_empty() {
    let rows: Result<Vec<u32>, String> = Err("no connection".to_string());
    assert!(history_oldest_first(rows).is_empty());
}

#[test]
fn empty_history_stays_empty() {
    let rows: Result<Vec<u32>, String> = Ok(vec![]);
    assert!(history_oldest_first(rows).is_empty());
}
