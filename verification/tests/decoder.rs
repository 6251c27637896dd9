use smol_server::server::http::{
    PartialRequest, Request, RequestError, RequestState, RequestType,
};

fn fresh() -> RequestState {
    RequestState::default()
}

#[test]
fn simple_get() {
    let mut state = fresh();
    let parsed = PartialRequest::parse(None, &mut state, b"GET / HTTP/1.1\r\n\r\n").unwrap();
    assert!(!parsed.is_partial);
    let request = parsed.request;
    assert!(matches!(request.header.request, RequestType::Get));
    assert_eq!(request.header.body, "/");
    assert_eq!(request.header.version_major, 1);
    assert_eq!(request.header.version_minor, 1);
    assert!(request.fields.is_empty());
    assert!(request.data.is_empty());
}

#[test]
fn minor_version_digit_is_kept() {
    let mut state = fresh();
    let parsed = PartialRequest::parse(None, &mut state, b"GET /x HTTP/1.7\r\n").unwrap();
    assert_eq!(parsed.request.header.version_minor, 7);
    assert_eq!(parsed.request.header.body, "/x");
}

#[test]
fn malformed_version_major_two() {
    let mut state = fresh();
    let err = PartialRequest::parse(None, &mut state, b"GET / HTTP/2.0\r\n\r\n").unwrap_err();
    let smol_server::server::http::Error::Request(inner) = err;
    assert!(matches!(inner, RequestError::UnsupportedMajor));
}

#[test]
fn unknown_method_is_rejected() {
    let mut state = fresh();
    let err = PartialRequest::parse(None, &mut state, b"PUT / HTTP/1.1\r\n").unwrap_err();
    let smol_server::server::http::Error::Request(inner) = err;
    match inner {
        RequestError::UnknownRequestType(x) => assert_eq!(x, "PUT"),
        other => panic!("wrong error: {}", other.message()),
    }
}

#[test]
fn missing_pieces_of_the_request_line() {
    let mut state = fresh();
    let err = PartialRequest::parse(None, &mut state, b"").unwrap_err();
    let smol_server::server::http::Error::Request(inner) = err;
    assert!(matches!(inner, RequestError::HeaderMissing));

    let err = PartialRequest::parse(None, &mut state, b"GET\r\n").unwrap_err();
    let smol_server::server::http::Error::Request(inner) = err;
    assert!(matches!(inner, RequestError::BodyMissing));

    let err = PartialRequest::parse(None, &mut state, b"GET /\r\n").unwrap_err();
    let smol_server::server::http::Error::Request(inner) = err;
    assert!(matches!(inner, RequestError::VersionMissing));

    let err = PartialRequest::parse(None, &mut state, b"GET / SPDY/1.1\r\n").unwrap_err();
    let smol_server::server::http::Error::Request(inner) = err;
    assert!(matches!(inner, RequestError::MalformedVersion));

    let err = PartialRequest::parse(None, &mut state, b"GET / HTTP/A.1\r\n").unwrap_err();
    let smol_server::server::http::Error::Request(inner) = err;
    assert!(matches!(inner, RequestError::InvalidMajor));

    let err = PartialRequest::parse(None, &mut state, b"GET / HTTP/1.Z\r\n").unwrap_err();
    let smol_server::server::http::Error::Request(inner) = err;
    assert!(matches!(inner, RequestError::InvalidMinor));
}

#[test]
fn parse_arg_splits_on_colon_then_equals() {
    let f = Request::parse_arg("Host: example.org").unwrap();
    assert_eq!(f.name, "Host");
    assert_eq!(f.body, "example.org");

    let f = Request::parse_arg("boundary=xyz").unwrap();
    assert_eq!(f.name, "boundary");
    assert_eq!(f.body, "xyz");

    let f = Request::parse_arg("name=\"quoted value\"").unwrap();
    assert_eq!(f.name, "name");
    assert_eq!(f.body, "quoted value");

    let err = Request::parse_arg("no delimiter here").unwrap_err();
    match err {
        RequestError::FieldError(raw) => assert_eq!(raw, "no delimiter here"),
        other => panic!("wrong error: {}", other.message()),
    }
}

#[test]
fn parse_normal_splits_attributes() {
    let mut state = fresh();
    let field = Request::parse_normal(
        &mut state,
        b"Content-Type: multipart/form-data; boundary=\"XYZ\"\r\n",
    )
    .unwrap();
    assert_eq!(field.this.name, "Content-Type");
    assert_eq!(field.this.body, "multipart/form-data");
    assert_eq!(field.children.len(), 1);
    assert_eq!(field.children[0].name, "boundary");
    assert_eq!(field.children[0].body, "XYZ");
}

#[test]
fn user_agent_keeps_its_semicolons() {
    let mut state = fresh();
    let field =
        Request::parse_normal(&mut state, b"User-Agent: Mozilla/5.0 (X11; Linux x86_64)\r\n")
            .unwrap();
    assert_eq!(field.this.name, "User-Agent");
    assert_eq!(field.this.body, "Mozilla/5.0 (X11; Linux x86_64)");
    assert!(field.children.is_empty());
}

#[test]
fn multipart_without_boundary_attribute_fails() {
    let mut state = fresh();
    let err = PartialRequest::parse(
        None,
        &mut state,
        b"POST /up HTTP/1.1\r\nContent-Type: multipart/form-data\r\n\r\n",
    )
    .unwrap_err();
    let smol_server::server::http::Error::Request(inner) = err;
    assert!(matches!(inner, RequestError::MultipartNoBoundary));
}

#[test]
fn non_multipart_body_lines_become_fields() {
    let mut state = fresh();
    let parsed = PartialRequest::parse(
        None,
        &mut state,
        b"POST /form HTTP/1.1\r\nContent-Type: text/plain\r\n\r\nkey: value\r\n",
    )
    .unwrap();
    assert!(!parsed.is_partial);
    let request = parsed.request;
    assert_eq!(request.fields.len(), 2);
    assert_eq!(request.fields[0].this.name, "Content-Type");
    assert_eq!(request.fields[0].this.body, "text/plain");
    assert_eq!(request.fields[1].this.name, "key");
    assert_eq!(request.fields[1].this.body, "value");
    assert!(request.data.is_empty());
}

fn multipart_request() -> Vec<u8> {
    let mut raw = Vec::new();
    raw.extend_from_slice(b"POST /up HTTP/1.1\r\n");
    raw.extend_from_slice(b"Content-Type: multipart/form-data; boundary=\"B\"\r\n");
    raw.extend_from_slice(b"\r\n");
    raw.extend_from_slice(b"--B\r\n");
    raw.extend_from_slice(b"Content-Disposition: form-data; name=\"text_message\"\r\n");
    raw.extend_from_slice(b"\r\n");
    raw.extend_from_slice(b"hello\r\n");
    raw.extend_from_slice(b"--B--\r\n");
    raw
}

#[test]
fn whole_multipart_in_one_chunk() {
    let mut state = fresh();
    let raw = multipart_request();
    let parsed = PartialRequest::parse(None, &mut state, &raw).unwrap();
    assert!(!parsed.is_partial);
    let request = parsed.request;
    assert_eq!(request.fields.len(), 1);
    assert_eq!(request.fields[0].this.body, "multipart/form-data");
    assert_eq!(request.data.len(), 1);
    let part = &request.data[0];
    assert_eq!(part.fields.len(), 1);
    assert_eq!(part.fields[0].this.name, "Content-Disposition");
    assert_eq!(part.fields[0].this.body, "form-data");
    assert_eq!(part.fields[0].children.len(), 1);
    assert_eq!(part.fields[0].children[0].name, "name");
    assert_eq!(part.fields[0].children[0].body, "text_message");
    assert_eq!(part.data, b"hello");
}

#[test]
fn multipart_split_mid_payload() {
    let raw = multipart_request();
    let cut = raw.len() - 12;
    assert_eq!(&raw[cut..], b"llo\r\n--B--\r\n");

    let mut state = fresh();
    let first = PartialRequest::parse(None, &mut state, &raw[..cut]).unwrap();
    assert!(first.is_partial);
    let second = PartialRequest::parse(Some(first.request), &mut state, &raw[cut..]).unwrap();
    assert!(!second.is_partial);
    let request = second.request;
    assert_eq!(request.data.len(), 1);
    assert_eq!(request.data[0].data, b"hello");
    assert_eq!(request.fields.len(), 1);
}

#[test]
fn split_at_any_line_boundary_matches_one_shot() {
    let raw = multipart_request();
    let mut one_state = fresh();
    let whole = PartialRequest::parse(None, &mut one_state, &raw).unwrap();

    let mut cuts = Vec::new();
    for (i, byte) in raw.iter().enumerate() {
        if *byte == b'\n' {
            cuts.push(i + 1);
        }
    }
    for cut in cuts {
        if cut == raw.len() {
            continue;
        }
        let mut state = fresh();
        let first = PartialRequest::parse(None, &mut state, &raw[..cut]).unwrap();
        let second =
            PartialRequest::parse(Some(first.request), &mut state, &raw[cut..]).unwrap();
        assert_eq!(second.is_partial, whole.is_partial, "cut at {}", cut);
        assert_eq!(second.request.fields.len(), whole.request.fields.len());
        assert_eq!(second.request.data.len(), whole.request.data.len());
        for (a, b) in second.request.data.iter().zip(whole.request.data.iter()) {
            assert_eq!(a.data, b.data);
            assert_eq!(a.fields.len(), b.fields.len());
        }
    }
}

#[test]
fn payload_keeps_raw_bytes_and_blank_lines() {
    let mut raw = Vec::new();
    raw.extend_from_slice(b"POST /up HTTP/1.1\r\n");
    raw.extend_from_slice(b"Content-Type: multipart/form-data; boundary=\"B\"\r\n");
    raw.extend_from_slice(b"\r\n--B\r\nContent-Disposition: form-data; name=\"f\"\r\n\r\n");
    raw.extend_from_slice(b"line one\r\n\r\nline two\x00\x01\r\n");
    raw.extend_from_slice(b"--B--\r\n");

    let mut state = fresh();
    let parsed = PartialRequest::parse(None, &mut state, &raw).unwrap();
    assert!(!parsed.is_partial);
    assert_eq!(parsed.request.data[0].data, b"line one\r\n\r\nline two\x00\x01");
}

#[test]
fn error_messages_match_the_variant() {
    assert_eq!(RequestError::HeaderMissing.message(), "no header line");
    assert_eq!(
        RequestError::UnknownRequestType(String::from("HEAD")).message(),
        "unknown request type (HEAD)"
    );
    assert_eq!(
        RequestError::FieldError(String::from("junk")).message(),
        "error parsing field (junk)"
    );
    assert_eq!(
        RequestError::MultipartNoBoundary.message(),
        "multipart request doesnt have a boundary"
    );
    let err = smol_server::server::http::Error::Request(RequestError::UnsupportedMajor);
    assert_eq!(err.message(), "major version must be 1");
}

#[test]
fn single_quote_value_is_kept() {
    let f = Request::parse_arg("k: \"").unwrap();
    assert_eq!(f.name, "k");
    assert_eq!(f.body, "\"");
}

#[test]
fn mini_header_multipart_rewrites_the_boundary() {
    let mut raw = Vec::new();
    raw.extend_from_slice(b"POST /up HTTP/1.1\r\n");
    raw.extend_from_slice(b"Content-Type: multipart/form-data; boundary=\"B\"\r\n");
    raw.extend_from_slice(b"\r\n--B\r\n");
    raw.extend_from_slice(b"Content-Type: multipart/mixed; boundary=\"C\"\r\n");
    raw.extend_from_slice(b"\r\ninner\r\n--C--\r\n");

    let mut state = fresh();
    let parsed = PartialRequest::parse(None, &mut state, &raw).unwrap();
    assert!(!parsed.is_partial);
    let request = parsed.request;
    assert_eq!(request.data.len(), 1);
    assert_eq!(request.data[0].data, b"inner");
    assert_eq!(request.data[0].fields[0].children[0].body, "C");
}

#[test]
fn boundary_lines_match_by_prefix() {
    let mut raw = Vec::new();
    raw.extend_from_slice(b"POST /up HTTP/1.1\r\n");
    raw.extend_from_slice(b"Content-Type: multipart/form-data; boundary=\"B\"\r\n");
    raw.extend_from_slice(b"\r\n--B\r\n");
    raw.extend_from_slice(b"Content-Disposition: form-data; name=\"text_message\"\r\n");
    raw.extend_from_slice(b"\r\nfirst\r\n");
    raw.extend_from_slice(b"--Bx\r\n");
    raw.extend_from_slice(b"\r\nsecond\r\n");
    raw.extend_from_slice(b"--B--\r\n");

    let mut state = fresh();
    let parsed = PartialRequest::parse(None, &mut state, &raw).unwrap();
    assert!(!parsed.is_partial);
    let request = parsed.request;
    assert_eq!(request.data.len(), 2);
    assert_eq!(request.data[0].data, b"first");
    assert_eq!(request.data[1].data, b"second");
    assert!(request.data[1].fields.is_empty());
}
