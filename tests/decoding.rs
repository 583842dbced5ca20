use crunchypi::{check_status, BodyEvent, DecodeError, DecodeState, Next, StreamRecord, StreamRequest};

fn parse(line: &[u8]) -> Option<StreamRecord> {
    let v: serde_json::Value = serde_json::from_slice(line).ok()?;
    let token = v.get("response")?.as_str()?.to_string();
    let done = v.get("done")?.as_bool()?;
    Some(StreamRecord { token, done })
}

/// Drives a fresh state over `chunks`; returns the final text and the tokens reported.
fn drive(chunks: &[&[u8]]) -> (String, Vec<String>, bool) {
    let mut state = DecodeState::new();
    let mut events = Vec::new();
    for chunk in chunks {
        for line in state.push_chunk(chunk) {
            if let Some(token) = state.accept(parse(&line)) {
                events.push(token);
            }
        }
    }
    if let Some(line) = state.flush() {
        if let Some(token) = state.accept(parse(&line)) {
            events.push(token);
        }
    }
    let finished = state.is_finished();
    (state.into_text(), events, finished)
}

fn one_byte_chunks(body: &[u8]) -> Vec<&[u8]> {
    body.chunks(1).collect()
}

#[test]
fn two_plus_two_split_record() {
    let request = StreamRequest::new("m".to_string(), "2+2".to_string());
    assert!(request.stream);
    assert_eq!(request.prompt, "2+2");
    let chunks: [&[u8]; 3] = [
        b"{\"response\":\"4\",\"done\":false}\n",
        b"{\"resp",
        b"onse\":\"\",\"done\":true}\n",
    ];
    let mut state = DecodeState::new();
    let first = state.push_chunk(chunks[0]);
    assert_eq!(first.len(), 1);
    assert_eq!(state.accept(parse(&first[0])), Some("4".to_string()));
    assert!(state.push_chunk(chunks[1]).is_empty());
    let last = state.push_chunk(chunks[2]);
    assert_eq!(last, vec![b"{\"response\":\"\",\"done\":true}".to_vec()]);
    assert_eq!(state.accept(parse(&last[0])), None);
    assert!(state.is_finished());
    assert_eq!(state.into_text(), "4");

    let (text, events, finished) = drive(&chunks);
    assert_eq!(text, "4");
    assert_eq!(events, vec!["4".to_string()]);
    assert!(finished);
}

#[test]
fn text_is_concatenation_of_tokens() {
    let body: &[u8] = b"{\"response\":\"Hel\",\"done\":false}\n{\"response\":\"lo\",\"done\":false}\n{\"response\":\"!\",\"done\":true}\n";
    let (text, events, finished) = drive(&[body]);
    assert_eq!(text, "Hello!");
    assert_eq!(events, vec!["Hel".to_string(), "lo".to_string()]);
    assert!(finished);
}

#[test]
fn chunking_does_not_change_outcome() {
    let body: &[u8] = b"{\"response\":\"a\",\"done\":false}\n\n{\"response\":\"b\",\"done\":false}\r\n{\"response\":\"c\",\"done\":true}\n{\"response\":\"d\",\"done\":false}\n";
    let whole = drive(&[body]);
    assert_eq!(whole.0, "abc");
    assert_eq!(whole.1, vec!["a".to_string(), "b".to_string()]);
    assert_eq!(drive(&one_byte_chunks(body)), whole);
    for cut in 0..body.len() {
        let (left, right) = body.split_at(cut);
        assert_eq!(drive(&[left, right]), whole);
    }
}

#[test]
fn malformed_line_is_skipped() {
    let with: &[u8] = b"{\"response\":\"x\",\"done\":false}\nnot json at all\n{\"response\":\"y\",\"done\":true}\n";
    let without: &[u8] = b"{\"response\":\"x\",\"done\":false}\n{\"response\":\"y\",\"done\":true}\n";
    assert_eq!(drive(&[with]), drive(&[without]));
    assert_eq!(drive(&[with]).0, "xy");
}

#[test]
fn bytes_after_done_are_ignored() {
    let same_chunk: &[u8] = b"{\"response\":\"x\",\"done\":true}\n{\"response\":\"y\",\"done\":false}\n";
    let (text, events, finished) = drive(&[same_chunk, b"{\"response\":\"z\",\"done\":false}\n"]);
    assert_eq!(text, "x");
    assert!(events.is_empty());
    assert!(finished);

    let mut state = DecodeState::new();
    let lines = state.push_chunk(b"{\"response\":\"x\",\"done\":true}\n");
    state.accept(parse(&lines[0]));
    assert!(state.push_chunk(b"{\"response\":\"y\",\"done\":false}\n").is_empty());
    let late = StreamRecord { token: "y".to_string(), done: false };
    assert_eq!(state.accept(Some(late)), None);
    assert_eq!(state.text(), "x");
}

#[test]
fn abrupt_end_keeps_complete_records() {
    let (text, events, finished) = drive(&[b"{\"response\":\"p\",\"done\":false}\n{\"response\":\"q\",\"do"]);
    assert_eq!(text, "p");
    assert_eq!(events, vec!["p".to_string()]);
    assert!(!finished);
}

#[test]
fn empty_body_gives_empty_text() {
    let (text, events, finished) = drive(&[]);
    assert_eq!(text, "");
    assert!(events.is_empty());
    assert!(!finished);
}

#[test]
fn blank_lines_are_not_handed_out() {
    let mut state = DecodeState::new();
    let lines = state.push_chunk(b"\n  \t\r\n \nab\n\ncd");
    assert_eq!(lines, vec![b"ab".to_vec()]);
    let more = state.push_chunk(b"e\n");
    assert_eq!(more, vec![b"cde".to_vec()]);
}

#[test]
fn record_without_done_field_is_not_a_record() {
    let (text, _, _) = drive(&[b"{\"response\":\"x\"}\n{\"response\":\"y\",\"done\":false}\n"]);
    assert_eq!(text, "y");
}

#[test]
fn non_success_status_is_transport_failure() {
    for code in [100u16, 199, 300, 404, 500] {
        match check_status(code, "status text".to_string()) {
            Err(DecodeError::TransportFailure(d)) => assert_eq!(d, "status text"),
            Ok(()) => panic!("status {} admitted", code),
        }
    }
    for code in [200u16, 204, 299] {
        assert!(check_status(code, String::new()).is_ok());
    }
    let e = check_status(503, "503 Service Unavailable".to_string()).unwrap_err();
    assert_eq!(e.detail(), "503 Service Unavailable");
}

#[test]
fn last_record_without_newline_is_flushed() {
    let (text, events, finished) = drive(&[b"{\"response\":\"a\",\"done\":true}"]);
    assert_eq!(text, "a");
    assert!(events.is_empty());
    assert!(finished);

    let body: &[u8] = b"{\"response\":\"x\",\"done\":false}\n{\"response\":\"y\",\"done\":false}";
    let (text, events, finished) = drive(&[body]);
    assert_eq!(text, "xy");
    assert_eq!(events, vec!["x".to_string(), "y".to_string()]);
    assert!(!finished);
    assert_eq!(drive(&one_byte_chunks(body)), (text, events, finished));
}

#[test]
fn flush_hands_out_tail_once() {
    let mut state = DecodeState::new();
    assert!(state.push_chunk(b"abc").is_empty());
    assert_eq!(state.flush(), Some(b"abc".to_vec()));
    assert_eq!(state.flush(), None);

    let mut blank = DecodeState::new();
    blank.push_chunk(b"x\n \t");
    assert_eq!(blank.flush(), None);

    let mut done = DecodeState::new();
    let lines = done.push_chunk(b"{\"response\":\"z\",\"done\":true}\nrest");
    done.accept(parse(&lines[0]));
    assert_eq!(done.flush(), None);
    assert_eq!(done.into_text(), "z");
}

#[test]
fn events_drive_a_request() {
    let mut state = DecodeState::open(200, "200 OK".to_string()).ok().unwrap();
    match state.on_event(BodyEvent::Chunk(b"{\"response\":\"4\",\"done\":false}\n{\"resp".to_vec())) {
        Next::Parse(lines) => {
            assert_eq!(lines.len(), 1);
            assert_eq!(state.accept(parse(&lines[0])), Some("4".to_string()));
        }
        _ => panic!("expected lines to parse"),
    }
    match state.on_event(BodyEvent::Chunk(b"onse\":\"!\",\"done\":false}".to_vec())) {
        Next::Parse(lines) => assert!(lines.is_empty()),
        _ => panic!("expected lines to parse"),
    }
    match state.on_event(BodyEvent::End) {
        Next::Last(lines) => {
            assert_eq!(lines, vec![b"{\"response\":\"!\",\"done\":false}".to_vec()]);
            assert_eq!(state.accept(parse(&lines[0])), Some("!".to_string()));
        }
        _ => panic!("expected the last lines"),
    }
    assert_eq!(state.into_text(), "4!");
}

#[test]
fn events_after_done_stop() {
    let mut state = DecodeState::new();
    match state.on_event(BodyEvent::Chunk(b"{\"response\":\"a\",\"done\":true}\n".to_vec())) {
        Next::Parse(lines) => {
            state.accept(parse(&lines[0]));
        }
        _ => panic!("expected lines to parse"),
    }
    assert!(matches!(state.on_event(BodyEvent::Chunk(b"more\n".to_vec())), Next::Stop));
    assert!(matches!(state.on_event(BodyEvent::ReadFailed("reset".to_string())), Next::Stop));
    assert!(matches!(state.on_event(BodyEvent::End), Next::Stop));
    assert_eq!(state.into_text(), "a");
}

#[test]
fn read_failure_fails_the_request() {
    let mut state = DecodeState::new();
    match state.on_event(BodyEvent::Chunk(b"{\"response\":\"a\",\"done\":false}\n".to_vec())) {
        Next::Parse(lines) => {
            assert_eq!(state.accept(parse(&lines[0])), Some("a".to_string()));
        }
        _ => panic!("expected lines to parse"),
    }
    match state.on_event(BodyEvent::ReadFailed("connection reset".to_string())) {
        Next::Fail(DecodeError::TransportFailure(d)) => assert_eq!(d, "connection reset"),
        _ => panic!("expected a failure"),
    }
}

#[test]
fn refused_status_opens_no_state() {
    match DecodeState::open(404, "Request failed with status: 404 Not Found".to_string()) {
        Err(DecodeError::TransportFailure(d)) => assert_eq!(d, "Request failed with status: 404 Not Found"),
        Ok(_) => panic!("status 404 admitted"),
    }
    let state = DecodeState::open(200, "200 OK".to_string()).ok().unwrap();
    assert!(!state.is_finished());
    assert_eq!(state.text(), "");
}
