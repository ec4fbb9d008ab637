use wasm_storage::store::value_text;

#[test]
fn found_value_is_decoded() {
    let r: Result<String, i32> = value_text(Ok(Some(b"value".to_vec())));
    assert_eq!(r, Ok("value".to_string()));
    let r: Result<String, i32> = value_text(Ok(Some("héllo wörld".as_bytes().to_vec())));
    assert_eq!(r, Ok("héllo wörld".to_string()));
}

#[test]
fn absent_value_is_empty_text() {
    let r: Result<String, i32> = value_text(Ok(None));
    assert_eq!(r, Ok(String::new()));
}

#[test]
fn store_error_is_handed_on() {
    let r: Result<String, &str> = value_text(Err("disk on fire"));
    assert_eq!(r, Err("disk on fire"));
}
