use warc_curator::decode::{decode_payload, decode_text};
use warc_curator::script::{
    confirmed, detect_language, gate_after, gate_from, model_label, next_probe,
    settled_by_script, GateStep, Prediction,
};
use warc_curator::warc::{Step, WarcParser};

#[test]
fn text_is_read_as_utf8_first() {
    assert_eq!(decode_text(b"plain"), Some("plain".to_string()));
    assert_eq!(decode_text("日本語".as_bytes()), Some("日本語".to_string()));
    assert_eq!(decode_text(b""), Some("".to_string()));
    assert_eq!(decode_text(b"\xEF\xBB\xBFwith mark"), Some("with mark".to_string()));
}

#[test]
fn text_is_read_as_shift_jis_next() {
    let bytes: [u8; 6] = [0x93, 0xFA, 0x96, 0x7B, 0x8C, 0xEA];
    assert_eq!(decode_text(&bytes), Some("日本語".to_string()));
}

#[test]
fn text_in_neither_encoding_is_dropped() {
    assert_eq!(decode_text(&[0x61, 0xFF, 0xFF]), None);
    assert_eq!(decode_text(&[0x81]), None);
}

#[test]
fn payload_gives_the_normalized_body() {
    let payload = "HTTP/1.1 200 OK\r\nContent-Type: text/html\r\n\r\nｱｲｳ １２３ ㍻".as_bytes();
    let document = decode_payload(payload).expect("a document");
    assert_eq!(document.body, "アイウ 123 平成");
    assert!(document.is_html());
    assert_eq!(document.headers.get("content-type"), Some(&"text/html".to_string()));
}

#[test]
fn payload_without_success_is_dropped() {
    assert!(decode_payload(b"HTTP/1.1 404 Not Found\r\n\r\nbody").is_none());
    assert!(decode_payload(b"HTTP/1.1 200 OK\r\nno body follows\r\n").is_none());
    assert!(decode_payload(&[0x48, 0xFF, 0xFF]).is_none());
}

#[test]
fn pages_are_told_by_their_content_type() {
    let page = decode_payload(b"HTTP/1.1 200 OK\r\ncontent-type: application/xhtml; text/html\r\n\r\nx").expect("a document");
    assert!(page.is_html());
    let image = decode_payload(b"HTTP/1.1 200 OK\r\nContent-Type: image/png\r\n\r\nx").expect("a document");
    assert!(!image.is_html());
    let bare = decode_payload(b"HTTP/1.1 200 OK\r\n\r\nx").expect("a document");
    assert!(!bare.is_html());
}

#[test]
fn responses_are_told_by_their_type() {
    let mut parser = WarcParser::new();
    parser.feed(b"WARC/1.0\r\nWARC-Type: response\r\n\r\n\r\n");
    parser.feed(b"WARC/1.0\r\nWARC-Type: request\r\n\r\n\r\n");
    parser.feed(b"WARC/1.0\r\nOther: response\r\n\r\n\r\n");
    parser.close();
    let mut kinds = Vec::new();
    while let Ok(Step::Record(record)) = parser.next_record() {
        kinds.push(record.is_response());
    }
    assert_eq!(kinds, vec![true, false, false]);
}

#[test]
fn kana_mark_a_candidate() {
    assert!(detect_language("こんにちは"));
    assert!(detect_language("plain text with one カ in it"));
    assert!(detect_language("ぁ"));
    assert!(detect_language("ァ"));
    assert!(!detect_language("ん"));
    assert!(!detect_language("ン"));
    assert!(!detect_language("日本語"));
    assert!(!detect_language("hello"));
    assert!(!detect_language(""));
    assert!(!detect_language("ｱｲｳ"));
}

#[test]
fn plain_kana_settle_japanese_only() {
    assert!(settled_by_script("これは", "ja"));
    assert!(settled_by_script("abc ア", "ja"));
    assert!(!settled_by_script("ぁ", "ja"));
    assert!(!settled_by_script("ァ", "ja"));
    assert!(!settled_by_script("ん", "ja"));
    assert!(!settled_by_script("hello", "ja"));
    assert!(!settled_by_script("これは", "en"));
    assert!(!settled_by_script("これは", "JA"));
}

#[test]
fn a_confident_prediction_of_the_label_confirms() {
    let sure = |label: &str, confident: bool| Prediction { label: label.to_string(), confident };
    assert_eq!(model_label("ja"), "__label__ja");
    assert!(confirmed(&vec![sure("__label__ja", true)], "ja"));
    assert!(confirmed(&vec![sure("__label__en", true), sure("__label__ja", true)], "ja"));
    assert!(!confirmed(&vec![sure("__label__ja", false)], "ja"));
    assert!(!confirmed(&vec![sure("__label__en", true)], "ja"));
    assert!(!confirmed(&vec![sure("ja", true)], "ja"));
    assert!(!confirmed(&vec![], "ja"));
}

#[test]
fn probes_pass_over_candidates_without_kana() {
    let candidates = vec!["Title".to_string(), "日本語のタイトル".to_string(), "ja".to_string(), "こんにちは".to_string()];
    assert_eq!(next_probe(&candidates, 0), Some(1));
    assert_eq!(next_probe(&candidates, 1), Some(1));
    assert_eq!(next_probe(&candidates, 2), Some(3));
    assert_eq!(next_probe(&candidates, 4), None);
    assert_eq!(next_probe(&vec![], 0), None);
}

#[test]
fn the_gate_asks_the_model_only_where_it_must() {
    let candidates = vec![
        "Title".to_string(),
        "ぁ".to_string(),
        "ja".to_string(),
        "ァ ".to_string(),
        "こんにちは".to_string(),
        "ぁ".to_string(),
    ];
    let yes = vec![Prediction { label: "__label__ja".to_string(), confident: true }];
    let no = vec![Prediction { label: "__label__ja".to_string(), confident: false }];
    assert_eq!(gate_from(&candidates, "ja", 0), GateStep::Ask(1));
    assert_eq!(gate_after(&candidates, "ja", 1, &yes), GateStep::Pass);
    assert_eq!(gate_after(&candidates, "ja", 1, &no), GateStep::Ask(3));
    assert_eq!(gate_after(&candidates, "ja", 3, &no), GateStep::Pass);
    assert_eq!(gate_from(&candidates, "ja", 5), GateStep::Ask(5));
    assert_eq!(gate_after(&candidates, "ja", 5, &no), GateStep::Reject);
    assert_eq!(gate_from(&candidates, "ja", 6), GateStep::Reject);
    assert_eq!(gate_from(&candidates, "ko", 4), GateStep::Ask(4));
    assert_eq!(gate_from(&vec!["plain".to_string()], "ja", 0), GateStep::Reject);
    assert_eq!(gate_from(&vec![], "ja", 0), GateStep::Reject);
}
