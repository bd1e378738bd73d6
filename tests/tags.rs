use base64::engine::general_purpose::STANDARD;
use base64::Engine;
use image_tagger::ollama::{
    check_ollama, frame_request, generate_tags, keep_tag, parse_tags, request_body, TagAction,
    TagError, TagEvent, REQUEST_HEAD, REQUEST_TAIL,
};

#[test]
fn tags_are_trimmed_lowered_and_empties_dropped() {
    assert_eq!(parse_tags("cat, Dog , sunset,,  "), vec!["cat", "dog", "sunset"]);
}

#[test]
fn long_piece_is_dropped() {
    let long = "x".repeat(60);
    let text = format!("tree, {}, Sky", long);
    assert_eq!(parse_tags(&text), vec!["tree", "sky"]);
}

#[test]
fn fifty_characters_is_too_long() {
    let fifty = "y".repeat(50);
    let forty_nine = "z".repeat(49);
    let text = format!("{},{}", fifty, forty_nine);
    assert_eq!(parse_tags(&text), vec![forty_nine.clone()]);
    assert!(!keep_tag(&fifty));
    assert!(keep_tag(&forty_nine));
    assert!(!keep_tag(""));
}

#[test]
fn repeats_and_order_are_kept() {
    assert_eq!(parse_tags("b, a, B"), vec!["b", "a", "b"]);
}

#[test]
fn unicode_space_is_trimmed_and_case_folded() {
    assert_eq!(parse_tags("\u{3000}ÉCOLE\u{a0},\tNight\n"), vec!["école", "night"]);
}

#[test]
fn empty_answer_has_no_tags() {
    assert!(parse_tags("").is_empty());
    assert!(parse_tags(" , ,").is_empty());
}

#[test]
fn request_frames_the_encoded_image() {
    let body = request_body(&vec![1u8, 2, 3, 255]);
    assert_eq!(body, format!("{}AQID/w=={}", REQUEST_HEAD, REQUEST_TAIL));
    assert!(body.starts_with("{\"model\":\"moondream\",\"prompt\":\"List 5-10 descriptive tags"));
    assert!(body.ends_with("\"images\":[\"AQID/w==\"],\"stream\":false}"));
    assert_eq!(frame_request("QQ=="), format!("{}QQ=={}", REQUEST_HEAD, REQUEST_TAIL));
}

#[test]
fn encoded_image_decodes_to_the_same_bytes() {
    let bytes: Vec<u8> = (0u8..=255).chain([0u8, 7, 42]).collect();
    let body = request_body(&bytes);
    let encoded = &body[REQUEST_HEAD.len()..body.len() - REQUEST_TAIL.len()];
    assert_eq!(STANDARD.decode(encoded).unwrap(), bytes);
}

#[test]
fn unreadable_image_is_io_error() {
    match generate_tags(TagEvent::ImageRead(Err("No such file".to_string()))) {
        TagAction::Finish(Err(e)) => {
            assert!(matches!(&e, TagError::Io(m) if m == "No such file"));
            assert_eq!(e.message(), "Failed to read image: No such file");
        }
        _ => panic!("expected an io error"),
    }
}

#[test]
fn read_image_is_sent() {
    match generate_tags(TagEvent::ImageRead(Ok(b"Man".to_vec()))) {
        TagAction::Send(body) => assert_eq!(body, format!("{}TWFu{}", REQUEST_HEAD, REQUEST_TAIL)),
        _ => panic!("expected a request"),
    }
}

#[test]
fn unreachable_server_is_network_error() {
    match generate_tags(TagEvent::ReplyStatus(Err("connection refused".to_string()))) {
        TagAction::Finish(Err(e)) => {
            assert!(matches!(&e, TagError::Network(_)));
            let m = e.message();
            assert!(m.contains("Is Ollama running?"));
            assert_eq!(m, "Failed to call Ollama: connection refused. Is Ollama running?");
        }
        _ => panic!("expected a network error"),
    }
}

#[test]
fn failed_status_is_server_error() {
    for s in [500u16, 404, 199, 300] {
        match generate_tags(TagEvent::ReplyStatus(Ok(s))) {
            TagAction::Finish(Err(TagError::Server(c))) => assert_eq!(c, s),
            _ => panic!("expected a server error"),
        }
    }
    assert_eq!(TagError::Server(503).message(), "Ollama returned error: 503");
}

#[test]
fn success_status_asks_to_decode() {
    for s in [200u16, 201, 299] {
        assert!(matches!(generate_tags(TagEvent::ReplyStatus(Ok(s))), TagAction::Decode));
    }
}

#[test]
fn undecodable_reply_is_parse_error() {
    match generate_tags(TagEvent::ReplyDecoded(Err("missing field `response`".to_string()))) {
        TagAction::Finish(Err(e)) => {
            assert!(matches!(&e, TagError::Parse(_)));
            assert_eq!(e.message(), "Failed to parse Ollama response: missing field `response`");
        }
        _ => panic!("expected a parse error"),
    }
}

#[test]
fn decoded_reply_gives_tags() {
    match generate_tags(TagEvent::ReplyDecoded(Ok("Cat, Dog , sunset,,  ".to_string()))) {
        TagAction::Finish(Ok(tags)) => assert_eq!(tags, vec!["cat", "dog", "sunset"]),
        _ => panic!("expected tags"),
    }
}

#[test]
fn health_is_success_status_only() {
    assert!(check_ollama(Ok(200)));
    assert!(check_ollama(Ok(204)));
    assert!(!check_ollama(Ok(503)));
    assert!(!check_ollama(Ok(404)));
    assert!(!check_ollama(Ok(302)));
    assert!(!check_ollama(Err("connection refused".to_string())));
}
