use smol_server::server::http::{
    encode_part, response, response_header, ContentType, DataPart, PartialRequest, Request,
    RequestField, RequestFieldSimple, RequestState, Status,
};
use smol_server::server::post::{build_relay_payload, encode_data, part_encodable};
use smol_server::server::{timed_out, Error, SmolServer, IDLE_TIMEOUT_MS, POLL_INTERVAL_MS};

#[test]
fn status_lines() {
    assert_eq!(Status::Okay.as_bytes(), b"HTTP/1.1 200 OK");
    assert_eq!(Status::NotFound.as_bytes(), b"HTTP/1.1 404 Not Found");
}

#[test]
fn content_type_table() {
    assert_eq!(ContentType::create("html"), Some(ContentType::Html));
    assert_eq!(ContentType::create("jpg"), Some(ContentType::Jpg));
    assert_eq!(ContentType::create("jpeg"), Some(ContentType::Jpg));
    assert_eq!(ContentType::create("wasm"), Some(ContentType::Wasm));
    assert_eq!(ContentType::create("exe"), None);
    assert_eq!(ContentType::create(""), None);
    assert_eq!(ContentType::Json.as_bytes(), b"Content-Type: application/json");
    assert_eq!(ContentType::Opus.as_bytes(), b"Content-Type: audio/ogg");
}

#[test]
fn response_with_body_carries_its_length() {
    let bytes = response(Status::Okay, ContentType::Html, b"hi");
    let expected: &[u8] = b"HTTP/1.1 200 OK\r\nContent-Type: text/html\r\nConnection: keep-alive\r\nContent-Length: 2\r\n\r\nhi";
    assert_eq!(bytes, expected);
}

#[test]
fn empty_body_has_no_length_line() {
    let bytes = response(Status::NotFound, ContentType::Txt, b"");
    let expected: &[u8] =
        b"HTTP/1.1 404 Not Found\r\nContent-Type: text/plain\r\nConnection: keep-alive\r\n\r\n";
    assert_eq!(bytes, expected);
}

#[test]
fn length_renders_in_decimal() {
    let header = response_header(Status::Okay, ContentType::Txt, 12345);
    let text = String::from_utf8(header).unwrap();
    assert!(text.ends_with("Content-Length: 12345\r\n"));
    let header = response_header(Status::Okay, ContentType::Txt, 10);
    let text = String::from_utf8(header).unwrap();
    assert!(text.ends_with("Content-Length: 10\r\n"));
}

#[test]
fn not_found_ends_the_session() {
    let mut server = SmolServer::new();
    assert!(server.alive());
    let bytes = server.not_found();
    assert_eq!(bytes, response(Status::NotFound, ContentType::Html, b"404 not found"));
    assert!(!server.alive());
}

#[test]
fn respond_get_serves_known_extensions() {
    let mut server = SmolServer::new();
    let bytes = server
        .respond_get("/pics/cat.png", Some(b"PNGDATA".to_vec()))
        .unwrap();
    assert_eq!(bytes, response(Status::Okay, ContentType::Png, b"PNGDATA"));
    assert!(server.alive());
}

#[test]
fn respond_get_missing_file_is_the_terminal_404() {
    let mut server = SmolServer::new();
    let bytes = server.respond_get("/nope.html", None).unwrap();
    assert_eq!(bytes, response(Status::NotFound, ContentType::Html, b"404 not found"));
    assert!(!server.alive());
}

#[test]
fn respond_get_unknown_extension_is_an_error() {
    let mut server = SmolServer::new();
    let err = match server.respond_get("/strange.xyz", Some(Vec::new())) {
        Err(e) => e,
        Ok(_) => panic!("expected an extension error"),
    };
    match err {
        Error::InvalidExtension(Some(ext)) => assert_eq!(ext, "xyz"),
        other => panic!("wrong error: {}", other.message()),
    }
    let err = match server.respond_get("/noext", Some(Vec::new())) {
        Err(e) => e,
        Ok(_) => panic!("expected an extension error"),
    };
    assert!(matches!(err, Error::InvalidExtension(None)));
}

#[test]
fn extension_table_matches_create() {
    assert!(matches!(
        SmolServer::extension_content_type("a.css"),
        Ok(ContentType::Css)
    ));
    assert!(matches!(
        SmolServer::extension_content_type("archive.tar.gz"),
        Err(Error::InvalidExtension(Some(_)))
    ));
}

#[test]
fn feed_carries_partial_requests() {
    let mut server = SmolServer::new();
    let first = server
        .feed(b"POST /up HTTP/1.1\r\nContent-Type: multipart/form-data; boundary=\"B\"\r\n\r\n--B\r\n")
        .unwrap();
    assert!(first.is_none());
    let second = server
        .feed(b"Content-Disposition: form-data; name=\"text_message\"\r\n\r\npayload\r\n--B--\r\n")
        .unwrap();
    let request = second.expect("request should be complete");
    assert_eq!(request.data.len(), 1);
    assert_eq!(request.data[0].data, b"payload");
}

#[test]
fn feed_completes_simple_requests_at_once() {
    let mut server = SmolServer::new();
    let done = server.feed(b"GET / HTTP/1.1\r\n\r\n").unwrap();
    assert!(done.is_some());
    let again = server.feed(b"GET /two.html HTTP/1.1\r\n\r\n").unwrap();
    assert_eq!(again.unwrap().header.body, "/two.html");
}

#[test]
fn idle_timeout_threshold() {
    assert!(!timed_out(0));
    assert!(!timed_out(IDLE_TIMEOUT_MS));
    assert!(timed_out(IDLE_TIMEOUT_MS + 1));
    assert!(POLL_INTERVAL_MS < IDLE_TIMEOUT_MS);
}

fn simple_field(name: &str, body: &str) -> RequestFieldSimple {
    RequestFieldSimple { name: String::from(name), body: String::from(body) }
}

#[test]
fn encode_part_emits_the_documented_shape() {
    let fields = vec![RequestField {
        this: simple_field("Content-Disposition", "form-data"),
        children: vec![simple_field("name", "file")],
    }];
    let bytes = encode_part(&fields, b"DATA", "XX");
    let expected: &[u8] =
        b"--XX\r\nContent-Disposition: form-data; name=\"file\"\r\n\r\nDATA\r\n";
    assert_eq!(bytes, expected);
}

#[test]
fn encode_part_round_trips_through_the_decoder() {
    let fields = vec![RequestField {
        this: simple_field("Content-Disposition", "form-data"),
        children: vec![simple_field("name", "upload"), simple_field("filename", "a.txt")],
    }];
    let payload: &[u8] = b"first line\r\nsecond \x00 line";
    let mut raw = Vec::new();
    raw.extend_from_slice(b"POST /up HTTP/1.1\r\n");
    raw.extend_from_slice(b"Content-Type: multipart/form-data; boundary=\"XX\"\r\n\r\n");
    raw.extend_from_slice(&encode_part(&fields, payload, "XX"));
    raw.extend_from_slice(b"--XX--\r\n");

    let mut state = RequestState::default();
    let parsed = PartialRequest::parse(None, &mut state, &raw).unwrap();
    assert!(!parsed.is_partial);
    let part = &parsed.request.data[0];
    assert_eq!(part.data, payload);
    assert_eq!(part.fields.len(), 1);
    assert_eq!(part.fields[0].this.name, "Content-Disposition");
    assert_eq!(part.fields[0].this.body, "form-data");
    assert_eq!(part.fields[0].children.len(), 2);
    assert_eq!(part.fields[0].children[0].name, "name");
    assert_eq!(part.fields[0].children[0].body, "upload");
    assert_eq!(part.fields[0].children[1].name, "filename");
    assert_eq!(part.fields[0].children[1].body, "a.txt");
}

#[test]
fn encode_data_text_message() {
    let fields = vec![RequestField {
        this: simple_field("Content-Disposition", "form-data"),
        children: vec![simple_field("name", "text_message")],
    }];
    assert!(part_encodable(&fields));
    let bytes = encode_data(&fields, b"hi there").unwrap();
    let expected: &[u8] =
        b"Content-Disposition: form-data; name=\"content\"\r\n\r\nhi there\r\n";
    assert_eq!(bytes, expected);
}

#[test]
fn encode_data_file_upload() {
    let fields = vec![RequestField {
        this: simple_field("Content-Disposition", "form-data"),
        children: vec![simple_field("name", "upload"), simple_field("filename", "cat.gif")],
    }];
    assert!(part_encodable(&fields));
    let bytes = encode_data(&fields, b"GIFDATA").unwrap();
    let expected: &[u8] = b"Content-Disposition: form-data; name=\"files[0]\"; filename=\"cat.gif\"\r\nContent-Type: image/gif\r\n\r\nGIFDATA\r\n";
    assert_eq!(bytes, expected);
}

#[test]
fn encode_data_unknown_extension_fails() {
    let fields = vec![RequestField {
        this: simple_field("Content-Disposition", "form-data"),
        children: vec![simple_field("name", "upload"), simple_field("filename", "virus.xyz")],
    }];
    assert!(part_encodable(&fields));
    let err = encode_data(&fields, b"?").unwrap_err();
    assert!(matches!(err, Error::InvalidExtension(Some(_))));
}

#[test]
fn part_encodable_spots_missing_pieces() {
    let no_disposition = vec![RequestField {
        this: simple_field("Content-Type", "text/plain"),
        children: vec![],
    }];
    assert!(!part_encodable(&no_disposition));
    let no_name = vec![RequestField {
        this: simple_field("Content-Disposition", "form-data"),
        children: vec![simple_field("filename", "a.txt")],
    }];
    assert!(!part_encodable(&no_name));
}

#[test]
fn relay_payload_wraps_the_parts() {
    let boundary = "-----------------------------MYCOOLBOUNDARY8888";
    let request = Request {
        header: smol_server::server::http::RequestHeader {
            request: smol_server::server::http::RequestType::Post,
            body: String::from("/up"),
            version_major: 1,
            version_minor: 1,
        },
        fields: vec![],
        data: vec![
            DataPart { fields: vec![], data: vec![] },
            DataPart {
                fields: vec![RequestField {
                    this: simple_field("Content-Disposition", "form-data"),
                    children: vec![simple_field("name", "text_message")],
                }],
                data: b"hello".to_vec(),
            },
        ],
    };
    let payload = build_relay_payload("/api/hook", &request).unwrap();

    let mut content = Vec::new();
    content.extend_from_slice(format!("--{}\r\n", boundary).as_bytes());
    content.extend_from_slice(format!("--{}\r\n", boundary).as_bytes());
    content.extend_from_slice(b"Content-Disposition: form-data; name=\"content\"\r\n\r\nhello\r\n");
    content.extend_from_slice(format!("--{}--\r\n", boundary).as_bytes());

    let mut expected = Vec::new();
    expected.extend_from_slice(b"POST /api/hook HTTP/1.1\r\nHost: discord.com\r\n");
    expected.extend_from_slice(
        format!("Content-Type: multipart/form-data; boundary=\"{}\"\r\n", boundary).as_bytes(),
    );
    expected.extend_from_slice(format!("Content-Length: {}\r\n\r\n", content.len()).as_bytes());
    expected.extend_from_slice(&content);

    assert_eq!(payload, expected);
}

#[test]
fn server_error_messages() {
    assert_eq!(Error::Unimplemented.message(), "unimplemented");
    assert_eq!(Error::DirectoryError.message(), "invalid path");
    assert_eq!(
        Error::WritingError(String::from("broken pipe")).message(),
        "error writing response (broken pipe)"
    );
    assert_eq!(Error::InvalidExtension(None).message(), "invalid extension");
    assert_eq!(
        Error::InvalidExtension(Some(String::from("tar"))).message(),
        "invalid extension (tar)"
    );
}
