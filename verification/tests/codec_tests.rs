use cli_project_manager::encode_sidecar;
use cli_project_manager::parse_sidecar;

fn strings(xs: &[&str]) -> Vec<String> {
    xs.iter().map(|s| s.to_string()).collect()
}

#[test]
fn encode_exact_text() {
    let tags = strings(&["rust", "cli"]);
    let text = encode_sidecar(1, 2, &tags);
    assert_eq!(text, "{\"created\":1,\"accessed\":2,\"tags\":[\"rust\",\"cli\"]}");
}

#[test]
fn encode_no_tags() {
    let text = encode_sidecar(0, 18446744073709551615, &Vec::new());
    assert_eq!(text, "{\"created\":0,\"accessed\":18446744073709551615,\"tags\":[]}");
}

#[test]
fn encode_escapes_quotes_and_backslashes() {
    let tags = strings(&["a\"b", "c\\d"]);
    let text = encode_sidecar(7, 8, &tags);
    assert_eq!(text, "{\"created\":7,\"accessed\":8,\"tags\":[\"a\\\"b\",\"c\\\\d\"]}");
}

#[test]
fn encode_output_is_json() {
    let tags = strings(&["a\"b", "c\\d", "plain"]);
    let text = encode_sidecar(11, 22, &tags);
    let value: serde_json::Value = serde_json::from_str(&text).expect("writer must emit JSON");
    assert_eq!(value["created"], serde_json::Value::from(11u64));
    assert_eq!(value["accessed"], serde_json::Value::from(22u64));
    assert_eq!(value["tags"][0], serde_json::Value::from("a\"b"));
    assert_eq!(value["tags"][1], serde_json::Value::from("c\\d"));
    assert_eq!(value["tags"][2], serde_json::Value::from("plain"));
}

#[test]
fn round_trip() {
    let tags = strings(&["rust", "a\"b", "c\\d"]);
    let text = encode_sidecar(123456789, 987654321, &tags);
    let pd = parse_sidecar(&text).expect("written sidecar must read back");
    assert_eq!(pd.created, Some(123456789));
    assert_eq!(pd.accessed, Some(987654321));
    assert_eq!(pd.tags, tags);
}

#[test]
fn parse_accepts_whitespace_and_any_member_order() {
    let text = " {\n\t\"tags\" : [ \"a\" , \"b\" ] ,\r\n \"accessed\" : 2 , \"created\" : 1 } ";
    let pd = parse_sidecar(text).expect("whitespace and member order are free");
    assert_eq!(pd.created, Some(1));
    assert_eq!(pd.accessed, Some(2));
    assert_eq!(pd.tags, strings(&["a", "b"]));
}

#[test]
fn parse_missing_members() {
    let pd = parse_sidecar("{}").expect("an empty object is a valid sidecar");
    assert_eq!(pd.created, None);
    assert_eq!(pd.accessed, None);
    assert!(pd.tags.is_empty());

    let pd = parse_sidecar("{\"tags\":[\"x\"]}").expect("timestamps are optional");
    assert_eq!(pd.created, None);
    assert_eq!(pd.accessed, None);
    assert_eq!(pd.tags, strings(&["x"]));

    let pd = parse_sidecar("{\"created\":5}").expect("tags are optional");
    assert_eq!(pd.created, Some(5));
    assert!(pd.tags.is_empty());
}

#[test]
fn parse_rejects_broken_text() {
    assert!(parse_sidecar("").is_none());
    assert!(parse_sidecar("not json").is_none());
    assert!(parse_sidecar("{").is_none());
    assert!(parse_sidecar("{\"created\":}").is_none());
    assert!(parse_sidecar("{\"created\":1,}").is_none());
    assert!(parse_sidecar("{\"created\":1} trailing").is_none());
    assert!(parse_sidecar("{\"unknown\":1}").is_none());
    assert!(parse_sidecar("{\"created\":1,\"created\":2}").is_none());
    assert!(parse_sidecar("{\"tags\":[\"a\"").is_none());
    assert!(parse_sidecar("{\"tags\":[\"a\\n\"]}").is_none());
}

#[test]
fn parse_rejects_numbers_that_do_not_fit() {
    assert!(parse_sidecar("{\"created\":18446744073709551615}").is_some());
    assert!(parse_sidecar("{\"created\":18446744073709551616}").is_none());
    assert!(parse_sidecar("{\"created\":99999999999999999999999}").is_none());
    assert!(parse_sidecar("{\"created\":-1}").is_none());
}
