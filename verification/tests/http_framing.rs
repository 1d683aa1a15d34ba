use example_cli::serve::io::{
    build_request, parse_request_head, parse_usize_chars, response_bytes, HeadError, ParsedRequest,
    ReadStep, RequestError, RequestReader,
};
use example_cli::text::chars_of;

/// Feeds the chunks in order until the reader decides.
fn read_all(chunks: &[&[u8]]) -> ReadStep {
    let mut reader = RequestReader::new();
    for chunk in chunks {
        match reader.feed(chunk) {
            ReadStep::NeedMore(next) => reader = next,
            done => return done,
        }
    }
    reader.feed(&[])
}

fn complete(step: ReadStep) -> ParsedRequest {
    match step {
        ReadStep::Complete(p) => p,
        ReadStep::Failed(e) => panic!("failed: {:?}", e),
        ReadStep::NeedMore(_) => panic!("still reading"),
    }
}

fn failed(step: ReadStep) -> HeadError {
    match step {
        ReadStep::Failed(e) => e,
        _ => panic!("expected a failure"),
    }
}

#[test]
fn parse_usize_agrees_with_std() {
    let samples = [
        "", "+", "-", "0", "+0", "007", "42", "-1", "+42", " 1", "1 ", "1a", "++1",
        "18446744073709551615", "18446744073709551616", "99999999999999999999999",
    ];
    for s in samples {
        assert_eq!(parse_usize_chars(&chars_of(s)), s.parse::<usize>().ok(), "input {:?}", s);
    }
}

#[test]
fn simple_get_without_body() {
    let p = complete(read_all(&[b"GET /index.html HTTP/1.1\r\nHost: example.com\r\n\r\n"]));
    assert_eq!(p.method, "GET");
    assert_eq!(p.uri, "/index.html");
    assert_eq!(p.headers, vec![("Host".to_string(), "example.com".to_string())]);
    assert!(p.body.is_none());
}

#[test]
fn body_follows_content_length_across_chunks() {
    let p = complete(read_all(&[
        b"POST /x HTTP/1.1\r\nContent-Le",
        b"ngth:  5 \r\n\r\nhel",
        b"lo world",
    ]));
    assert_eq!(p.method, "POST");
    assert_eq!(p.headers, vec![("Content-Length".to_string(), "5".to_string())]);
    assert_eq!(p.body, Some(b"hello".to_vec()));
}

#[test]
fn chunking_does_not_change_the_request() {
    let whole: &[u8] = b"PUT /a HTTP/1.1\r\ncontent-length: 3\r\nX: y\r\n\r\nabcdef";
    let reference = complete(read_all(&[whole]));
    for split in 1..whole.len() {
        let (a, b) = whole.split_at(split);
        let p = complete(read_all(&[a, b]));
        assert_eq!(p.method, reference.method);
        assert_eq!(p.uri, reference.uri);
        assert_eq!(p.headers, reference.headers);
        assert_eq!(p.body, reference.body);
    }
    assert_eq!(reference.body, Some(b"abc".to_vec()));
}

#[test]
fn body_cut_short_by_end_of_stream() {
    let p = complete(read_all(&[b"POST / HTTP/1.1\r\nContent-Length: 10\r\n\r\nabc"]));
    assert_eq!(p.body, Some(b"abc".to_vec()));
}

#[test]
fn unparsable_content_length_means_no_body() {
    let p = complete(read_all(&[b"POST / HTTP/1.1\r\nContent-Length: ten\r\n\r\nabc"]));
    assert!(p.body.is_none());
}

#[test]
fn last_content_length_wins() {
    let p = complete(read_all(&[b"POST / HTTP/1.1\r\nContent-Length: 1\r\nCONTENT-LENGTH: 2\r\n\r\nabc"]));
    assert_eq!(p.body, Some(b"ab".to_vec()));
}

#[test]
fn lines_without_colon_are_ignored_and_values_trimmed() {
    let p = complete(read_all(&[b"GET / HTTP/1.1\r\nno colon here\r\nA:\t b:c \r\n\r\n"]));
    assert_eq!(p.headers, vec![("A".to_string(), "b:c".to_string())]);
}

#[test]
fn stream_closed_before_head_ends() {
    assert_eq!(failed(read_all(&[b"GET / HTTP/1.1\r\nHost: x\r\n"])), HeadError::Closed);
    assert_eq!(failed(read_all(&[])), HeadError::Closed);
}

#[test]
fn head_errors() {
    assert_eq!(failed(read_all(&[b"\r\n\r\n"])), HeadError::MissingMethod);
    assert_eq!(failed(read_all(&[b"GET\r\n\r\n"])), HeadError::MissingUri);
    assert_eq!(
        failed(read_all(&[b"GET /\xff\r\n\r\n"])),
        HeadError::NotUtf8 { valid_up_to: 5, error_len: Some(1) }
    );
    assert_eq!(
        failed(read_all(&[b"GET /\xe2\x82\r\n\r\n"])),
        HeadError::NotUtf8 { valid_up_to: 5, error_len: None }
    );
}

#[test]
fn head_parse_directly() {
    let h = parse_request_head(b"DELETE /item/1 HTTP/1.1\r\nContent-Length: 0").ok().unwrap();
    assert_eq!(h.method, "DELETE");
    assert_eq!(h.uri, "/item/1");
    assert_eq!(h.content_length, 0);
}

#[test]
fn built_request_carries_the_parts() {
    let p = complete(read_all(&[b"POST /submit?q=1 HTTP/1.1\r\nHost: h\r\nContent-Length: 2\r\n\r\nok"]));
    let req = match build_request(p) {
        Ok(r) => r,
        Err(_) => panic!("rejected"),
    };
    assert_eq!(req.method().as_str(), "POST");
    assert_eq!(req.uri().to_string(), "/submit?q=1");
    assert_eq!(req.headers().get("host").unwrap(), "h");
}

#[test]
fn builder_rejects_an_invalid_method() {
    let p = complete(read_all(&[b"G(T / HTTP/1.1\r\n\r\n"]));
    assert!(matches!(build_request(p), Err(RequestError::Rejected(_))));
}

#[test]
fn response_with_known_reason_and_computed_length() {
    let headers = vec![("content-type".to_string(), b"text/plain".to_vec())];
    let out = response_bytes(200, &headers, b"hi");
    assert_eq!(out, b"HTTP/1.1 200 OK\r\ncontent-type: text/plain\r\nContent-Length: 2\r\n\r\nhi".to_vec());
}

#[test]
fn response_keeps_its_own_content_length() {
    let headers = vec![("content-length".to_string(), b"2".to_vec())];
    let out = response_bytes(404, &headers, b"no");
    assert_eq!(out, b"HTTP/1.1 404 Not Found\r\ncontent-length: 2\r\n\r\nno".to_vec());
}

#[test]
fn response_unknown_reason_and_invisible_value() {
    let headers = vec![("x-bin".to_string(), vec![0x01, b'a'])];
    let out = response_bytes(799, &headers, b"");
    assert_eq!(out, b"HTTP/1.1 799 OK\r\nx-bin: \r\nContent-Length: 0\r\n\r\n".to_vec());
}

#[test]
fn builder_rejects_a_header_name_with_a_space() {
    let p = complete(read_all(&[b"GET / HTTP/1.1\r\nBad Name: x\r\n\r\n"]));
    assert!(matches!(build_request(p), Err(RequestError::Rejected(_))));
}

#[test]
fn builder_rejects_a_control_character_in_a_value() {
    let p = complete(read_all(&[b"GET / HTTP/1.1\r\nX-A: a\x01b\r\n\r\n"]));
    assert!(matches!(build_request(p), Err(RequestError::Rejected(_))));
}

#[test]
fn builder_rejects_an_unparsable_uri() {
    let p = complete(read_all(&[b"GET http://[::1 HTTP/1.1\r\n\r\n"]));
    assert!(matches!(build_request(p), Err(RequestError::Rejected(_))));
}

#[test]
fn builder_accepts_non_ascii_header_values() {
    let p = complete(read_all(&["GET / HTTP/1.1\r\nX-Name: J\u{f6}rg\r\n\r\n".as_bytes()]));
    assert!(build_request(p).is_ok());
}

#[test]
fn built_get_request_parts() {
    let p = complete(read_all(&[b"GET /greet/bob HTTP/1.1\r\nHost: localhost\r\n\r\n"]));
    let req = match build_request(p) {
        Ok(r) => r,
        Err(_) => panic!("rejected"),
    };
    assert_eq!(req.method().as_str(), "GET");
    assert_eq!(req.uri().to_string(), "/greet/bob");
    assert_eq!(req.headers().len(), 1);
    assert_eq!(req.headers().get("host").unwrap(), "localhost");
}

#[test]
fn built_request_keeps_fields_and_lowers_names() {
    let p = complete(read_all(&[b"PUT /x HTTP/1.1\r\ncontent-LENGTH:3\r\nbogus line\r\nX-A: 1\r\n\r\nabcdef"]));
    assert_eq!(p.body, Some(b"abc".to_vec()));
    let req = match build_request(p) {
        Ok(r) => r,
        Err(_) => panic!("rejected"),
    };
    assert_eq!(req.method().as_str(), "PUT");
    assert_eq!(req.headers().len(), 2);
    assert_eq!(req.headers().get("content-length").unwrap(), "3");
    assert_eq!(req.headers().get("x-a").unwrap(), "1");
}

#[test]
fn head_error_messages() {
    assert_eq!(HeadError::Closed.message(), "connection closed before headers completed");
    assert_eq!(HeadError::MissingMethod.message(), "missing method");
    assert_eq!(HeadError::MissingUri.message(), "missing URI");
    for head in [&b"GET /\xff x"[..], &b"GET /\xe2\x82"[..], &b"GET /\xe2\x82x"[..]] {
        let e = match parse_request_head(head) {
            Err(e) => e,
            Ok(_) => panic!("accepted"),
        };
        assert_eq!(e.message(), std::str::from_utf8(head).unwrap_err().to_string());
    }
}

#[test]
fn many_lines_under_one_name_are_built() {
    let mut head = b"GET / HTTP/1.1\r\n".to_vec();
    for _ in 0..7000 {
        head.extend_from_slice(b"X-A: 1\r\n");
    }
    head.extend_from_slice(b"\r\n");
    let p = complete(read_all(&[&head]));
    assert_eq!(p.headers.len(), 7000);
    match build_request(p) {
        Ok(req) => assert_eq!(req.headers().get_all("x-a").iter().count(), 7000),
        Err(_) => panic!("rejected"),
    }
}
