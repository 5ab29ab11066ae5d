use sabm_simulation::replies::{
    extract_json_object, first_number_token, message_from_members, parse_message,
};

#[test]
fn parses_message_json_and_prose() {
    assert_eq!(
        parse_message("{\"message\": \"hold near 8\"}").as_deref(),
        Some("hold near 8")
    );
    assert_eq!(parse_message("hold   near 8").as_deref(), Some("hold near 8"));
    assert_eq!(parse_message("   ").as_deref(), None);
}

#[test]
fn message_keys_in_order_and_blank_values_skipped() {
    assert_eq!(parse_message("{\"msg\": \"  low \"}").as_deref(), Some("low"));
    assert_eq!(
        parse_message("{\"text\": \"t\", \"message\": \"m\"}").as_deref(),
        Some("m")
    );
    assert_eq!(
        parse_message("{\"message\": \"  \", \"text\": \"fallback\"}").as_deref(),
        Some("fallback")
    );
    // A non-string value is not a message; the reply's words are used.
    assert_eq!(
        parse_message("{\"message\": 8}").as_deref(),
        Some("{\"message\": 8}")
    );
    // Not JSON at all: the words of the reply.
    assert_eq!(
        parse_message("Sure: { hold }\n please").as_deref(),
        Some("Sure: { hold } please")
    );
}

#[test]
fn message_from_parsed_members() {
    let members = Some(vec![
        ("message".to_string(), None),
        ("msg".to_string(), Some(" keep it high ".to_string())),
    ]);
    assert_eq!(
        message_from_members("raw reply", &members).as_deref(),
        Some("keep it high")
    );
    assert_eq!(
        message_from_members("  raw   reply ", &Some(vec![])).as_deref(),
        Some("raw reply")
    );
    assert_eq!(message_from_members(" \n ", &None), None);
}

#[test]
fn json_object_span() {
    assert_eq!(
        extract_json_object("I will set {\"price\": 6.5} ok").as_deref(),
        Some("{\"price\": 6.5}")
    );
    assert_eq!(
        extract_json_object("a {b} c {d} e").as_deref(),
        Some("{b} c {d}")
    );
    assert_eq!(extract_json_object("} before {"), None);
    assert_eq!(extract_json_object("no braces"), None);
    assert_eq!(extract_json_object("{ open only"), None);
}

#[test]
fn first_number_in_text() {
    assert_eq!(first_number_token("My price is 7.25 dollars").as_deref(), Some("7.25"));
    assert_eq!(first_number_token("no idea"), None);
    assert_eq!(first_number_token("set 8.00.").as_deref(), Some("8.00"));
    assert_eq!(first_number_token("v1.2.3").as_deref(), Some("1.2"));
    assert_eq!(first_number_token(".5 then 6").as_deref(), Some("5"));
    assert_eq!(first_number_token("price ７ or 9").as_deref(), Some("9"));
}
