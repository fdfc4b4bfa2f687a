use hamster_export::paths::get_db_paths;

fn strings(items: &[&str]) -> Vec<String> {
    items.iter().map(|s| s.to_string()).collect()
}

#[test]
fn given_patterns_are_taken_as_they_are() {
    let given = strings(&["a.db", "backup/*.db"]);
    assert_eq!(get_db_paths(given.clone(), Some("/home/u/.local/share".to_string())), Some(given));
}

#[test]
fn given_patterns_need_no_data_home() {
    let given = strings(&["a.db"]);
    assert_eq!(get_db_paths(given.clone(), None), Some(given));
}

#[test]
fn without_patterns_the_default_is_taken() {
    assert_eq!(
        get_db_paths(Vec::new(), Some("/home/u/.local/share".to_string())),
        Some(strings(&["/home/u/.local/share/hamster-applet/hamster.db*"]))
    );
}

#[test]
fn without_patterns_and_data_home_there_is_nothing_to_read() {
    assert_eq!(get_db_paths(Vec::new(), None), None);
}
