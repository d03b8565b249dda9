use cli_project_manager::Suggester;

fn strings(xs: &[&str]) -> Vec<String> {
    xs.iter().map(|s| s.to_string()).collect()
}

#[test]
fn suggestions_filter_by_prefix() {
    let s = Suggester::new(strings(&["rust", "python", "ruby"]));
    assert_eq!(s.get_suggestions("ru"), strings(&["rust", "ruby"]));
    assert_eq!(s.get_suggestions("python"), strings(&["python"]));
    assert_eq!(s.get_suggestions("z"), Vec::<String>::new());
}

#[test]
fn suggestions_lowercase_the_input() {
    // fails if the input were matched as typed: "RU" is no prefix of "rust"
    let s = Suggester::new(strings(&["rust", "ruby", "c"]));
    assert_eq!(s.get_suggestions("RU"), strings(&["rust", "ruby"]));
}

#[test]
fn empty_input_suggests_everything() {
    let s = Suggester::new(strings(&["a", "b"]));
    assert_eq!(s.get_suggestions(""), strings(&["a", "b"]));
}
