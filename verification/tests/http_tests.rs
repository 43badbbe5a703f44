use warc_curator::headers::{same_text, to_lowercase, Headers};
use warc_curator::http::{is_successful_response, parse_envelope, parse_http_response};

#[test]
fn body_follows_the_first_blank_line() {
    let response = "HTTP/1.1 200 OK\r\nContent-Type: text/html\r\n\r\n<html>\r\nbody</html>";
    assert_eq!(parse_http_response(response), Some("<html>\nbody</html>".to_string()));
}

#[test]
fn body_keeps_later_blank_lines() {
    let response = "HTTP/1.1 200 OK\nA: b\n\nfirst\n\nsecond\n";
    assert_eq!(parse_http_response(response), Some("first\n\nsecond".to_string()));
}

#[test]
fn a_line_of_whitespace_counts_as_blank() {
    assert_eq!(parse_http_response("HTTP/1.1 200 OK\n \t \nbody"), Some("body".to_string()));
}

#[test]
fn no_body_without_success() {
    assert_eq!(parse_http_response("HTTP/1.1 404 Not Found\r\n\r\nbody"), None);
    assert_eq!(parse_http_response("HTTP/1.1 301 Moved\r\n\r\nbody"), None);
    assert_eq!(parse_http_response("HTTP/1.1 abc\r\n\r\nbody"), None);
    assert_eq!(parse_http_response("garbage\r\n\r\nbody"), None);
    assert_eq!(parse_http_response(""), None);
    assert_eq!(parse_http_response("\n\nbody"), None);
}

#[test]
fn no_body_without_a_line_after_the_blank_line() {
    assert_eq!(parse_http_response("HTTP/1.1 200 OK\r\nA: b\r\n"), None);
    assert_eq!(parse_http_response("HTTP/1.1 200 OK\r\nA: b\r\n\r\n"), None);
    assert_eq!(parse_http_response("HTTP/1.1 200 OK"), None);
    assert_eq!(parse_http_response("HTTP/1.1 200 OK\r\n\r\n\r\n"), Some("".to_string()));
}

#[test]
fn success_is_a_status_from_200_to_299() {
    assert!(is_successful_response("HTTP/1.1 200 OK"));
    assert!(is_successful_response("HTTP/1.1 299"));
    assert!(is_successful_response("  HTTP/2   204   No Content"));
    assert!(is_successful_response("x +200"));
    assert!(is_successful_response("x 0200"));
    assert!(!is_successful_response("HTTP/1.1 199 Early"));
    assert!(!is_successful_response("HTTP/1.1 300 Multiple"));
    assert!(!is_successful_response("HTTP/1.1 65736 wrapped"));
    assert!(!is_successful_response("HTTP/1.1 -200"));
    assert!(!is_successful_response("HTTP/1.1 2OO"));
    assert!(!is_successful_response("200"));
    assert!(!is_successful_response(""));
}

#[test]
fn envelope_gives_header_fields_by_lowercase_name() {
    let response = "HTTP/1.1 200 OK\r\nContent-Type:  text/html; charset=utf-8 \r\nX-Twice: one\r\nno colon here\r\nx-twice: two\r\nURL: http://a/b:c\r\n\r\nbody";
    let document = parse_envelope(response).expect("an envelope");
    assert_eq!(document.body, "body");
    assert_eq!(document.headers.get("content-type"), Some(&"text/html; charset=utf-8".to_string()));
    assert_eq!(document.headers.get("x-twice"), Some(&"two".to_string()));
    assert_eq!(document.headers.get("url"), Some(&"http://a/b:c".to_string()));
    assert_eq!(document.headers.get("Content-Type"), None);
    assert_eq!(document.headers.get("no colon here"), None);
    assert!(document.headers.contains("url"));
    assert!(!document.headers.contains("status"));
}

#[test]
fn header_names_are_lowercased_beyond_ascii() {
    let mut headers = Headers::new();
    let line: Vec<char> = " ÄÖ-Name : Wert ".chars().collect();
    headers.insert_line(&line);
    assert_eq!(headers.get("äö-name"), Some(&"Wert".to_string()));
}

#[test]
fn headers_keep_the_last_value() {
    let mut headers = Headers::new();
    assert_eq!(headers.get("a"), None);
    headers.insert("a".to_string(), "1".to_string());
    headers.insert("b".to_string(), "2".to_string());
    headers.insert("a".to_string(), "3".to_string());
    assert_eq!(headers.get("a"), Some(&"3".to_string()));
    assert_eq!(headers.get("b"), Some(&"2".to_string()));
    assert!(same_text("abc", "abc"));
    assert!(!same_text("abc", "abd"));
}

#[test]
fn lowercase_agrees_with_std() {
    let ascii: String = (0u8..128).map(|b| b as char).collect();
    for text in [ascii.as_str(), "", "Content-Type", "WARC-Target-URI", "ÄÖÜ", "mixed Ä ascii", "ὈΔΥΣΣΕΎΣ", "İstanbul", "日本語"] {
        let chars: Vec<char> = text.chars().collect();
        assert_eq!(to_lowercase(&chars), text.to_lowercase(), "{:?}", text);
    }
}
