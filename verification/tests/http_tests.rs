use smoll_chat::http::{get_mime_type, HttpRequest, HttpResponse};
use smoll_chat::error::HttpError;

fn pairs(kvs: &[(&str, &str)]) -> Vec<(String, String)> {
    kvs.iter().map(|(k, v)| (k.to_string(), v.to_string())).collect()
}

#[test]
fn test_parse_request_no_body() {
    let request = [
        "GET /favicon.ico HTTP/1.1",
        "Host: 192.168.4.28:1234",
        "User-Agent: Mozilla/5.0 (X11; Linux x86_64; rv:131.0) Gecko/20100101 Firefox/131.0",
        "Accept: image/avif,image/webp,image/png,image/svg+xml,image/*;q=0.8,*/*;q=0.5",
        "Accept-Language: en-US,en;q=0.5",
        "Accept-Encoding: gzip, deflate",
        "Connection: keep-alive",
        "Referer: http://192.168.4.28:1234/",
        "Priority: u=6",
    ];

    let mut request_str = String::new();

    for line in request {
        request_str.push_str(line);
        request_str.push_str("\r\n");
    }

    request_str.push_str("\r\n");

    let headers = pairs(&[
        ("Host", "192.168.4.28:1234"),
        (
            "User-Agent",
            "Mozilla/5.0 (X11; Linux x86_64; rv:131.0) Gecko/20100101 Firefox/131.0",
        ),
        (
            "Accept",
            "image/avif,image/webp,image/png,image/svg+xml,image/*;q=0.8,*/*;q=0.5",
        ),
        ("Accept-Language", "en-US,en;q=0.5"),
        ("Accept-Encoding", "gzip, deflate"),
        ("Connection", "keep-alive"),
        ("Referer", "http://192.168.4.28:1234/"),
        ("Priority", "u=6"),
    ]);

    let control = HttpRequest {
        method: "GET".to_string(),
        resource: "/favicon.ico".to_string(),
        http_version: "HTTP/1.1".to_string(),
        headers,
        body: None,
        querys: None,
    };

    assert_eq!(control, HttpRequest::parse(&request_str).unwrap());
}

#[test]
fn test_parse_request_with_body() {
    let request = [
        "POST /login HTTP/1.1",
        "Host: 192.168.4.28:1234",
        "User-Agent: Mozilla/5.0 (X11; Linux x86_64; rv:131.0) Gecko/20100101 Firefox/131.0",
        "Accept: text/html,application/xhtml+xml,application/xml;q=0.9,image/avif,image/webp,image/png,image/svg+xml,*/*;q=0.8",
        "Accept-Language: en-US,en;q=0.5",
        "Accept-Encoding: gzip, deflate",
        "Content-Type: application/x-www-form-urlencoded",
        "Content-Length: 12",
        "Origin: http://192.168.4.28:1234",
        "Connection: keep-alive",
        "Referer: http://192.168.4.28:1234/",
        "Upgrade-Insecure-Requests: 1",
        "Priority: u=0, i",
    ];

    let mut request_str = String::new();

    for line in request {
        request_str.push_str(line);
        request_str.push_str("\r\n");
    }

    request_str.push_str("\r\n");

    request_str.push_str("username=asd");

    let headers = pairs(&[
        ("Host", "192.168.4.28:1234"),
        (
            "User-Agent",
            "Mozilla/5.0 (X11; Linux x86_64; rv:131.0) Gecko/20100101 Firefox/131.0",
        ),
        (
            "Accept",
            "text/html,application/xhtml+xml,application/xml;q=0.9,image/avif,image/webp,image/png,image/svg+xml,*/*;q=0.8",
        ),
        ("Accept-Language", "en-US,en;q=0.5"),
        ("Accept-Encoding", "gzip, deflate"),
        ("Content-Type", "application/x-www-form-urlencoded"),
        ("Content-Length", "12"),
        ("Origin", "http://192.168.4.28:1234"),
        ("Connection", "keep-alive"),
        ("Referer", "http://192.168.4.28:1234/"),
        ("Upgrade-Insecure-Requests", "1"),
        ("Priority", "u=0, i"),
    ]);

    let control = HttpRequest {
        method: "POST".to_string(),
        resource: "/login".to_string(),
        http_version: "HTTP/1.1".to_string(),
        headers,
        body: Some("username=asd".to_string()),
        querys: None,
    };

    assert_eq!(control, HttpRequest::parse(&request_str).unwrap());
}

#[test]
fn test_parse_request_with_query_parameter() {
    let request = [
        "GET /favicon.ico?user=unknown HTTP/1.1",
        "Host: 192.168.4.28:1234",
        "User-Agent: Mozilla/5.0 (X11; Linux x86_64; rv:131.0) Gecko/20100101 Firefox/131.0",
        "Accept: image/avif,image/webp,image/png,image/svg+xml,image/*;q=0.8,*/*;q=0.5",
        "Accept-Language: en-US,en;q=0.5",
        "Accept-Encoding: gzip, deflate",
        "Connection: keep-alive",
        "Referer: http://192.168.4.28:1234/",
        "Priority: u=6",
    ];

    let mut request_str = String::new();

    for line in request {
        request_str.push_str(line);
        request_str.push_str("\r\n");
    }

    request_str.push_str("\r\n");

    let headers = pairs(&[
        ("Host", "192.168.4.28:1234"),
        (
            "User-Agent",
            "Mozilla/5.0 (X11; Linux x86_64; rv:131.0) Gecko/20100101 Firefox/131.0",
        ),
        (
            "Accept",
            "image/avif,image/webp,image/png,image/svg+xml,image/*;q=0.8,*/*;q=0.5",
        ),
        ("Accept-Language", "en-US,en;q=0.5"),
        ("Accept-Encoding", "gzip, deflate"),
        ("Connection", "keep-alive"),
        ("Referer", "http://192.168.4.28:1234/"),
        ("Priority", "u=6"),
    ]);

    let querys = pairs(&[("user", "unknown")]);

    let control = HttpRequest {
        method: "GET".to_string(),
        resource: "/favicon.ico".to_string(),
        http_version: "HTTP/1.1".to_string(),
        headers,
        body: None,
        querys: Some(querys),
    };

    assert_eq!(control, HttpRequest::parse(&request_str).unwrap());
}

#[test]
fn test_parse_request_with_query_parameters() {
    let request = [
        "GET /favicon.ico?user=unknown&time=now HTTP/1.1",
        "Host: 192.168.4.28:1234",
        "User-Agent: Mozilla/5.0 (X11; Linux x86_64; rv:131.0) Gecko/20100101 Firefox/131.0",
        "Accept: image/avif,image/webp,image/png,image/svg+xml,image/*;q=0.8,*/*;q=0.5",
        "Accept-Language: en-US,en;q=0.5",
        "Accept-Encoding: gzip, deflate",
        "Connection: keep-alive",
        "Referer: http://192.168.4.28:1234/",
        "Priority: u=6",
    ];

    let mut request_str = String::new();

    for line in request {
        request_str.push_str(line);
        request_str.push_str("\r\n");
    }

    request_str.push_str("\r\n");

    let headers = pairs(&[
        ("Host", "192.168.4.28:1234"),
        (
            "User-Agent",
            "Mozilla/5.0 (X11; Linux x86_64; rv:131.0) Gecko/20100101 Firefox/131.0",
        ),
        (
            "Accept",
            "image/avif,image/webp,image/png,image/svg+xml,image/*;q=0.8,*/*;q=0.5",
        ),
        ("Accept-Language", "en-US,en;q=0.5"),
        ("Accept-Encoding", "gzip, deflate"),
        ("Connection", "keep-alive"),
        ("Referer", "http://192.168.4.28:1234/"),
        ("Priority", "u=6"),
    ]);

    let querys = pairs(&[("user", "unknown"), ("time", "now")]);

    let control = HttpRequest {
        method: "GET".to_string(),
        resource: "/favicon.ico".to_string(),
        http_version: "HTTP/1.1".to_string(),
        headers,
        body: None,
        querys: Some(querys),
    };

    assert_eq!(control, HttpRequest::parse(&request_str).unwrap());
}

#[test]
fn test_proper_http_response_formatting() {
    let http_response = HttpResponse::builder()
        .http_version("HTTP/1.1")
        .status_code(200)
        .status_message("OK")
        .add_cookie("username=asdf")
        .add_header("Content-Length", "22")
        .body("Simulated file content");

    let control = "HTTP/1.1 200 OK\r\nSet-Cookie: username=asdf\r\nContent-Length: 22\r\n\r\nSimulated file content".to_string();

    assert_eq!(control, http_response.build().to_http_string());
}

#[test]
fn serialization_is_deterministic() {
    let build = || {
        HttpResponse::builder()
            .status_code(204)
            .status_message("No Content")
            .add_header("Connection", "close")
            .add_header("Content-Length", "0")
            .build()
            .to_http_string()
    };
    assert_eq!(build(), build());
    assert_eq!(
        build(),
        "HTTP/1.1 204 No Content\r\nConnection: close\r\nContent-Length: 0\r\n\r\n"
    );
}

#[test]
fn response_defaults_fill_in_at_build_time() {
    let wire = HttpResponse::builder().build().to_http_string();
    assert_eq!(wire, "HTTP/1.1 404 Not Found\r\n\r\n");

    let r = HttpResponse::new("HTTP/1.0".to_string(), 500, "Oops".to_string());
    assert_eq!(r.to_http_string(), "HTTP/1.0 500 Oops\r\n\r\n");
}

#[test]
fn adding_a_header_twice_overwrites() {
    let wire = HttpResponse::builder()
        .status_code(200)
        .status_message("OK")
        .add_header("Content-Length", "1")
        .add_header("Content-Length", "2")
        .build()
        .to_http_string();
    assert_eq!(wire, "HTTP/1.1 200 OK\r\nContent-Length: 2\r\n\r\n");
}

#[test]
fn query_string_parses_into_parameters() {
    let raw = "GET /page?a=1&b=2 HTTP/1.1\r\nHost: h\r\n\r\n";
    let req = HttpRequest::parse(raw).unwrap();
    assert_eq!(req.resource, "/page");
    assert_eq!(
        req.querys,
        Some(vec![
            ("a".to_string(), "1".to_string()),
            ("b".to_string(), "2".to_string())
        ])
    );

    let plain = HttpRequest::parse("GET /page HTTP/1.1\r\nHost: h\r\n\r\n").unwrap();
    assert_eq!(plain.querys, None);
}

#[test]
fn short_request_line_is_malformed() {
    assert_eq!(
        HttpRequest::parse("GET /page\r\n\r\n"),
        Err(HttpError::MalformedRequest)
    );
    assert_eq!(HttpRequest::parse(""), Err(HttpError::MalformedRequest));
}

#[test]
fn bad_content_length_is_malformed() {
    let raw = "POST /login HTTP/1.1\r\nContent-Length: twelve\r\n\r\nusername=asd";
    assert_eq!(HttpRequest::parse(raw), Err(HttpError::MalformedRequest));
}

#[test]
fn short_body_is_malformed() {
    let raw = "POST /login HTTP/1.1\r\nContent-Length: 99\r\n\r\nusername=asd";
    assert_eq!(HttpRequest::parse(raw), Err(HttpError::MalformedRequest));
}

#[test]
fn header_line_without_separator_is_malformed() {
    let raw = "GET / HTTP/1.1\r\nBroken-Header\r\n\r\n";
    assert_eq!(HttpRequest::parse(raw), Err(HttpError::MalformedRequest));
}

#[test]
fn oversized_content_length_is_malformed() {
    let raw = "POST /x HTTP/1.1\r\nContent-Length: 99999999999999999999999999\r\n\r\nhi";
    assert_eq!(HttpRequest::parse(raw), Err(HttpError::MalformedRequest));
}

#[test]
fn body_is_cut_to_the_declared_length() {
    let raw = "POST /x HTTP/1.1\r\nContent-Length: 2\r\n\r\nabcd";
    let req = HttpRequest::parse(raw).unwrap();
    assert_eq!(req.body, Some("ab".to_string()));
}

#[test]
fn body_may_contain_line_terminators() {
    let raw = "POST /x HTTP/1.1\r\nContent-Length: 4\r\n\r\na\r\nb";
    let req = HttpRequest::parse(raw).unwrap();
    assert_eq!(req.body, Some("a\r\nb".to_string()));
}

#[test]
fn repeated_request_header_keeps_the_last_value() {
    let raw = "GET / HTTP/1.1\r\nX-Tag: one\r\nX-Tag: two\r\n\r\n";
    let req = HttpRequest::parse(raw).unwrap();
    assert_eq!(req.get_header("X-Tag"), Some(&"two".to_string()));
    assert_eq!(
        req.headers,
        vec![("X-Tag".to_string(), "two".to_string())]
    );
}

#[test]
fn content_length_counts_bytes_not_characters() {
    // "\u{e9}" is one character of two bytes.
    let raw = "POST /x HTTP/1.1\r\nContent-Length: 6\r\n\r\nh\u{e9}llo";
    let req = HttpRequest::parse(raw).unwrap();
    assert_eq!(req.body, Some("h\u{e9}llo".to_string()));
}

#[test]
fn content_length_ending_inside_a_character_is_malformed() {
    let raw = "POST /x HTTP/1.1\r\nContent-Length: 1\r\n\r\n\u{e9}";
    assert_eq!(HttpRequest::parse(raw), Err(HttpError::MalformedRequest));
}

#[test]
fn zero_content_length_means_no_body() {
    let req = HttpRequest::parse("POST /message HTTP/1.1\r\nContent-Length: 0\r\n\r\n").unwrap();
    assert_eq!(req.body, None);
}

#[test]
fn header_names_are_normalized_to_canonical_case() {
    let raw = "POST /x HTTP/1.1\r\ncOnTeNt-LeNgTh: 2\r\nHOST: h\r\n\r\nok";
    let req = HttpRequest::parse(raw).unwrap();
    assert_eq!(req.body, Some("ok".to_string()));
    assert_eq!(req.get_header("content-length"), Some(&"2".to_string()));
    assert_eq!(req.get_header("Host"), Some(&"h".to_string()));
    assert_eq!(
        req.headers,
        vec![
            ("Content-Length".to_string(), "2".to_string()),
            ("Host".to_string(), "h".to_string())
        ]
    );
}

#[test]
fn get_header_finds_values() {
    let req = HttpRequest::parse("GET / HTTP/1.1\r\nCookie: username=zoe\r\n\r\n").unwrap();
    assert_eq!(req.get_header("Cookie"), Some(&"username=zoe".to_string()));
    assert_eq!(req.get_header("Host"), None);
}

#[test]
fn mime_types_resolve_from_the_extension() {
    assert_eq!(get_mime_type("/static/app.js"), Ok("text/javascript".to_string()));
    assert_eq!(get_mime_type("style.css"), Ok("text/css".to_string()));
    assert_eq!(get_mime_type("jquery.min.js"), Ok("text/javascript".to_string()));
    assert_eq!(get_mime_type("notes.txt"), Err(HttpError::UnknownMimeType));
    assert_eq!(get_mime_type("no_extension"), Err(HttpError::UnknownMimeType));
}
