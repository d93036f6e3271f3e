use tts::gather::collect_locations;
use tts::job::TtsError;

fn poll_error(detail: &str) -> TtsError {
    TtsError::Poll { request: "r".to_string(), detail: detail.to_string() }
}

#[test]
fn locations_keep_chunk_order() {
    let results = vec![Ok("a".to_string()), Ok("b".to_string()), Ok("c".to_string())];
    assert_eq!(Ok(vec!["a".to_string(), "b".to_string(), "c".to_string()]), collect_locations(results));
}

#[test]
fn no_chunk_gives_no_location() {
    assert_eq!(Ok(Vec::<String>::new()), collect_locations(Vec::new()));
}

#[test]
fn one_failure_fails_the_whole_request() {
    let results = vec![Ok("a".to_string()), Err(poll_error("x")), Ok("c".to_string())];
    assert_eq!(Err(poll_error("x")), collect_locations(results));
}

#[test]
fn first_failure_in_chunk_order_is_reported() {
    let results = vec![Ok("a".to_string()), Err(poll_error("first")), Err(poll_error("second"))];
    assert_eq!(Err(poll_error("first")), collect_locations(results));
}
