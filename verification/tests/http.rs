use lib::http::{
    indented_default_page, CACHING_PAGE_INDENT, PLAIN_PAGE_INDENT, QUEUED_PAGE_INDENT,
    classify_request, default_page, dynamic_page_response, is_shtml_path, relative_request_path,
    remove_occurrences, request_path, safe_request_path, sanitized_request_path, static_file_response, RequestKind,
    DEFAULT_PAGE_HEAD, DEFAULT_PAGE_TAIL, PAGE_HEADER, STATIC_FILE_HEADER,
};

#[test]
fn request_path_is_second_word() {
    let mut buf = b"GET /index.html HTTP/1.1\r\nHost: x\r\n\r\n".to_vec();
    buf.resize(500, 0);
    assert_eq!(request_path(&buf), Some(b"/index.html".to_vec()));
}

#[test]
fn request_path_needs_two_spaces() {
    assert_eq!(request_path(b"GET /index.html"), None);
    assert_eq!(request_path(b"GARBAGE"), None);
    assert_eq!(request_path(b""), None);
    // Two spaces in a row give an empty path.
    assert_eq!(request_path(b"GET  x"), Some(Vec::new()));
}

#[test]
fn sanitized_path_drops_parent_steps() {
    assert_eq!(
        sanitized_request_path(b"GET /../../etc/passwd HTTP/1.1"),
        Some(b"../etc/passwd".to_vec())
    );
    assert_eq!(sanitized_request_path(b"GET /a/b.html HTTP/1.1"), Some(b"/a/b.html".to_vec()));
    assert_eq!(sanitized_request_path(b"GET"), None);
}

#[test]
fn removal_is_left_to_right_without_overlap() {
    assert_eq!(remove_occurrences(b"//../../x", b"/../"), b"/../x".to_vec());
    assert_eq!(remove_occurrences(b"aaa", b"aa"), b"a".to_vec());
    assert_eq!(remove_occurrences(b"abc", b""), b"abc".to_vec());
    assert_eq!(remove_occurrences(b"", b"x"), Vec::<u8>::new());
}

#[test]
fn relative_path_gets_a_dot() {
    assert_eq!(relative_request_path(b"GET /a.txt HTTP/1.0"), Some(b"./a.txt".to_vec()));
    assert_eq!(relative_request_path(b"GET /a.txt"), None);
}

#[test]
fn classify_requests() {
    assert_eq!(classify_request(false, false, Some(b"shtml")), RequestKind::DefaultPage);
    assert_eq!(classify_request(true, true, None), RequestKind::DefaultPage);
    assert_eq!(classify_request(true, false, Some(b"shtml")), RequestKind::DynamicPage);
    assert_eq!(classify_request(true, false, Some(b"html")), RequestKind::StaticFile);
    assert_eq!(classify_request(true, false, Some(b"shtmlx")), RequestKind::StaticFile);
    assert_eq!(classify_request(true, false, None), RequestKind::StaticFile);
}

#[test]
fn shtml_suffix() {
    assert!(is_shtml_path(b"/www/index.shtml"));
    assert!(is_shtml_path(b".shtml"));
    assert!(!is_shtml_path(b"/www/index.html"));
    assert!(!is_shtml_path(b"shtml"));
}

#[test]
fn default_page_shows_count() {
    let page = default_page(42);
    let mut expected = DEFAULT_PAGE_HEAD.as_bytes().to_vec();
    expected.extend_from_slice(b"42");
    expected.extend_from_slice(DEFAULT_PAGE_TAIL.as_bytes());
    assert_eq!(page, expected);
    let text = String::from_utf8(default_page(0)).unwrap();
    assert!(text.starts_with("HTTP/1.1 200 OK\r\nContent-Type: text/html; charset=UTF-8\r\n\r\n"));
    assert!(text.contains("<h2>Visitor count: 0</h2>"));
    assert!(text.ends_with("</body></html>\r\n"));
    assert!(String::from_utf8(default_page(1234567)).unwrap().contains("Visitor count: 1234567<"));
}

#[test]
fn file_and_page_responses() {
    let r = static_file_response(b"abc");
    assert_eq!(
        r,
        b"HTTP/1.1 200 OK\r\nContent-Type: application/octet-stream; charset=UTF-8\r\n\r\nabc".to_vec()
    );
    assert!(r.starts_with(STATIC_FILE_HEADER.as_bytes()));
    let p = dynamic_page_response(b"<p>x</p>");
    assert_eq!(&p[..PAGE_HEADER.len()], PAGE_HEADER.as_bytes());
    assert_eq!(&p[PAGE_HEADER.len()..], b"<p>x</p>");
}

#[test]
fn safe_path_refuses_parent_components() {
    assert_eq!(safe_request_path(b"GET /index.html HTTP/1.1"), Some(b"./index.html".to_vec()));
    assert_eq!(safe_request_path(b"GET /../../etc/passwd HTTP/1.1"), None);
    assert_eq!(safe_request_path(b"GET //../../x HTTP/1.1"), None);
    assert_eq!(safe_request_path(b"GET /a/.. HTTP/1.1"), None);
    // With the leading `.`, a path `./x` would read `../x`.
    assert_eq!(safe_request_path(b"GET ./x HTTP/1.1"), None);
    assert_eq!(safe_request_path(b"GET /a..b/...c/. HTTP/1.1"), Some(b"./a..b/...c/.".to_vec()));
    assert_eq!(safe_request_path(b"GET /x"), None);
}

#[test]
fn default_page_of_each_kind_of_server() {
    assert_eq!(indented_default_page(3, QUEUED_PAGE_INDENT), default_page(3));
    assert_eq!(
        String::from_utf8(indented_default_page(7, CACHING_PAGE_INDENT)).unwrap(),
        "HTTP/1.1 200 OK\r\nContent-Type: text/html; charset=UTF-8\r\n\r\n\n                             <doctype !html><html><head><title>Hello, Rust!</title>\n                             <style>body { background-color: #111; color: #FFEEAA }\n                                    h1 { font-size:2cm; text-align: center; color: black; text-shadow: 0 0 4mm red}\n                                    h2 { font-size:2cm; text-align: center; color: black; text-shadow: 0 0 4mm green}\n                             </style></head>\n                             <body>\n                             <h1>Greetings, Krusty!</h1>\n                             <h2>Visitor count: 7</h2>\n                             </body></html>\r\n"
    );
    assert_eq!(
        String::from_utf8(indented_default_page(12, PLAIN_PAGE_INDENT)).unwrap(),
        "HTTP/1.1 200 OK\r\nContent-Type: text/html; charset=UTF-8\r\n\r\n\n                         <doctype !html><html><head><title>Hello, Rust!</title>\n                         <style>body { background-color: #111; color: #FFEEAA }\n                                h1 { font-size:2cm; text-align: center; color: black; text-shadow: 0 0 4mm red}\n                                h2 { font-size:2cm; text-align: center; color: black; text-shadow: 0 0 4mm green}\n                         </style></head>\n                         <body>\n                         <h1>Greetings, Krusty!</h1>\n                         <h2>Visitor count: 12</h2>\n                         </body></html>\r\n"
    );
}
